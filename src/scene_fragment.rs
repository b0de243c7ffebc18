//! One scene of the play: its title and its cast, ordered by when each character first speaks.
use vstd::prelude::*;
use std::cmp::Ordering;
use crate::order::{is_stable_sort, lemma_insert_sorted, sorted_by_with};
use crate::player::{by_number, by_rank, cast_order, dialogue_entries, rank, Player};
use crate::merge::{
    advanced, lemma_min_pending_witness, lemma_round, min_pending, perform, remaining, round,
};
use crate::text::{decimal_text, split_words, trim, trim_str, views, words};

verus! {

/// The views of the (name, part) pairs of a roster.
pub open spec fn pair_views(v: Seq<(String, String)>) -> Seq<(Seq<char>, Seq<char>)> {
    v.map_values(|e: (String, String)| (e.0@, e.1@))
}

/// The (name, part) pair that one roster line names: a line of exactly two words.
pub open spec fn roster_entry(line: Seq<char>) -> Option<(Seq<char>, Seq<char>)> {
    let w = words(line);
    if w.len() == 2 {
        Some((w[0], w[1]))
    } else {
        None
    }
}

/// The pairs that the lines of a roster name, in order.
pub open spec fn roster_entries(lines: Seq<Seq<char>>) -> Seq<(Seq<char>, Seq<char>)>
    decreases lines.len(),
{
    if lines.len() == 0 {
        seq![]
    } else {
        let rest = roster_entries(lines.drop_last());
        match roster_entry(lines.last()) {
            Some(e) => rest.push(e),
            None => rest,
        }
    }
}

/// The names of a cast, in cast order.
pub open spec fn cast_names(cast: Seq<Player>) -> Seq<Seq<char>> {
    cast.map_values(|p: Player| p.name@)
}

/// The names of `names` that `others` does not hold, in their order.
pub open spec fn absent(names: Seq<Seq<char>>, others: Seq<Seq<char>>) -> Seq<Seq<char>>
    decreases names.len(),
{
    if names.len() == 0 {
        seq![]
    } else {
        let rest = absent(names.drop_last(), others);
        if others.contains(names.last()) {
            rest
        } else {
            rest.push(names.last())
        }
    }
}

/// The names of `names` that `others` does not hold, last first.
pub open spec fn absent_reversed(names: Seq<Seq<char>>, others: Seq<Seq<char>>) -> Seq<Seq<char>>
    decreases names.len(),
{
    if names.len() == 0 {
        seq![]
    } else {
        let rest = absent_reversed(names.drop_first(), others);
        if others.contains(names[0]) {
            rest
        } else {
            rest.push(names[0])
        }
    }
}

pub open spec fn enter_line(name: Seq<char>) -> Seq<char> {
    "[Enter "@ + name + ".]"@
}

pub open spec fn exit_line(name: Seq<char>) -> Seq<char> {
    "[Exit "@ + name + ".]"@
}

/// The title of a scene between blank lines, when it has one.
pub open spec fn title_lines(title: Seq<char>) -> Seq<Seq<char>> {
    if trim(title).len() > 0 {
        seq![Seq::<char>::empty(), title, Seq::<char>::empty()]
    } else {
        seq![]
    }
}

/// The lines announcing that `names` enter, after the scene's title.
pub open spec fn entrance(title: Seq<char>, names: Seq<Seq<char>>) -> Seq<Seq<char>> {
    title_lines(title) + names.map_values(|n: Seq<char>| enter_line(n))
}

/// The lines announcing that `names` leave, between blank lines.
pub open spec fn departure(names: Seq<Seq<char>>) -> Seq<Seq<char>> {
    seq![Seq::<char>::empty()] + names.map_values(|n: Seq<char>| exit_line(n)) + seq![
        Seq::<char>::empty(),
    ]
}

/// The cast of a scene, or no one where there is no scene.
pub open spec fn names_of(frag: Option<&SceneFragment>) -> Seq<Seq<char>> {
    match frag {
        Some(f) => cast_names(f.characters@),
        None => seq![],
    }
}

/// The parts were all read: one for each pair of the roster.
pub open spec fn all_read(parts: Seq<Option<Vec<String>>>, n: int) -> bool {
    n <= parts.len() && forall|i: int| 0 <= i < n ==> (#[trigger] parts[i]) is Some
}

/// `p` is the character named `name` whose lines were read from `part`, before it speaks.
pub open spec fn is_prepared(p: Player, name: Seq<char>, part: Seq<String>) -> bool {
    &&& p.name@ == name
    &&& p.line_index == 0
    &&& is_stable_sort(p.dialogue(), dialogue_entries(views(part)), by_number())
}

pub struct SceneFragment {
    pub scene_title: String,
    /// The cast, ascending in cast order once prepared.
    pub characters: Vec<Player>,
}

/// The roster pair for one line, or none for a line that is not exactly two words; such a
/// line leaves a warning.
fn config_pair(line: &str, warnings: &mut Vec<String>) -> (r: Option<(String, String)>)
    ensures
        match r {
            Some(e) => roster_entry(line@) == Some((e.0@, e.1@)),
            None => roster_entry(line@) is None,
        },
        final(warnings)@.len() == old(warnings)@.len() + if roster_entry(line@) is None {
            1int
        } else {
            0int
        },
{
    let mut tokens = split_words(line);
    if tokens.len() != 2 {
        warnings.push(
            String::from_str(
                "Warning: there were not exactly two distinct tokens in the line ",
            ).concat(line),
        );
        return None;
    }
    assert(views(tokens@)[0] == tokens@[0]@ && views(tokens@)[1] == tokens@[1]@);
    let file = tokens.pop().unwrap();
    let name = tokens.pop().unwrap();
    Some((name, file))
}

/// Whether `a` comes after `b` in cast order.
fn comes_after(a: &Player, b: &Player) -> (r: bool)
    ensures
        r == (rank(*a) > rank(*b)),
{
    match SceneFragment::compare_players(a, b) {
        Ordering::Greater => true,
        _ => false,
    }
}

/// Whether `name` is the name of a character of `cast`.
fn has_name(cast: &Vec<Player>, name: &String) -> (r: bool)
    ensures
        r == cast_names(cast@).contains(name@),
{
    let mut i: usize = 0;
    while i < cast.len()
        invariant
            i <= cast@.len(),
            forall|j: int| 0 <= j < i ==> cast@[j].name@ != name@,
        decreases cast@.len() - i,
    {
        if cast[i].name == *name {
            assert(cast_names(cast@)[i as int] == name@);
            return true;
        }
        i += 1;
    }
    assert(!cast_names(cast@).contains(name@)) by {
        if cast_names(cast@).contains(name@) {
            let j = choose|j: int| 0 <= j < cast@.len() && cast_names(cast@)[j] == name@;
            assert(cast@[j].name@ != name@);
        }
    }
    false
}

impl SceneFragment {
    pub fn new(title: &str) -> (r: SceneFragment)
        ensures
            r.scene_title@ == title@,
            r.characters@.len() == 0,
    {
        SceneFragment { scene_title: String::from_str(title), characters: Vec::new() }
    }

    /// Adds the pair that one roster line names, if it names one.
    pub fn add_config(
        line: &str,
        play_config: &mut Vec<(String, String)>,
        warnings: &mut Vec<String>,
    )
        ensures
            pair_views(final(play_config)@) == match roster_entry(line@) {
                Some(e) => pair_views(old(play_config)@).push(e),
                None => pair_views(old(play_config)@),
            },
            final(warnings)@.len() == old(warnings)@.len() + if roster_entry(line@) is None {
                1int
            } else {
                0int
            },
    {
        match config_pair(line, warnings) {
            Some(e) => {
                let ghost before = play_config@;
                let ghost ev = (e.0@, e.1@);
                play_config.push(e);
                assert(pair_views(play_config@) =~= pair_views(before).push(ev));
            },
            None => {},
        }
    }

    /// Reads a roster: at least two lines, each naming a character and its part.
    pub fn read_config(
        config_lines: &Vec<String>,
        play_config: &mut Vec<(String, String)>,
        warnings: &mut Vec<String>,
    ) -> (r: Result<(), u8>)
        ensures
            r is Err <==> config_lines@.len() < 2,
            r == Err::<(), u8>(2u8) || r is Ok,
            r is Ok ==> pair_views(final(play_config)@) == pair_views(old(play_config)@)
                + roster_entries(views(config_lines@)),
            r is Err ==> *final(play_config) == *old(play_config),
    {
        if config_lines.len() < 2 {
            return Err(2);
        }
        let ghost start = pair_views(play_config@);
        let mut i: usize = 0;
        while i < config_lines.len()
            invariant
                i <= config_lines@.len(),
                pair_views(play_config@) == start + roster_entries(
                    views(config_lines@).take(i as int),
                ),
            decreases config_lines@.len() - i,
        {
            let ghost ls = views(config_lines@).take(i + 1);
            assert(ls.drop_last() =~= views(config_lines@).take(i as int));
            assert(ls.last() == config_lines@[i as int]@);
            Self::add_config(config_lines[i].as_str(), play_config, warnings);
            proof {
                let d = roster_entries(views(config_lines@).take(i as int));
                match roster_entry(config_lines@[i as int]@) {
                    Some(e) => {
                        assert(start + d.push(e) =~= (start + d).push(e));
                    },
                    None => {},
                }
            }
            i += 1;
        }
        assert(views(config_lines@).take(config_lines@.len() as int) =~= views(config_lines@));
        Ok(())
    }

    /// Adds one character for each pair of the roster, with the lines of its part (`parts[i]`
    /// for the `i`th pair); a part that could not be read fails the scene.
    pub fn process_config(
        &mut self,
        play_config: &Vec<(String, String)>,
        parts: &Vec<Option<Vec<String>>>,
        warnings: &mut Vec<String>,
    ) -> (r: Result<(), u8>)
        ensures
            final(self).scene_title == old(self).scene_title,
            r is Ok <==> all_read(parts@, play_config@.len() as int),
            r == Err::<(), u8>(2u8) || r is Ok,
            r is Ok ==> {
                &&& final(self).characters@.len() == old(self).characters@.len()
                    + play_config@.len()
                &&& forall|j: int|
                    0 <= j < old(self).characters@.len() ==> final(self).characters@[j]
                        == old(self).characters@[j]
                &&& forall|i: int|
                    0 <= i < play_config@.len() ==> is_prepared(
                        #[trigger] final(self).characters@[old(self).characters@.len() + i],
                        play_config@[i].0@,
                        parts@[i]->Some_0@,
                    )
            },
    {
        let ghost n0 = self.characters@.len();
        let mut i: usize = 0;
        while i < play_config.len()
            invariant
                i <= play_config@.len(),
                self.scene_title == old(self).scene_title,
                all_read(parts@, i as int),
                self.characters@.len() == n0 + i,
                n0 == old(self).characters@.len(),
                forall|j: int| 0 <= j < n0 ==> self.characters@[j] == old(self).characters@[j],
                forall|k: int|
                    0 <= k < i ==> is_prepared(
                        #[trigger] self.characters@[n0 + k],
                        play_config@[k].0@,
                        parts@[k]->Some_0@,
                    ),
            decreases play_config@.len() - i,
        {
            if i >= parts.len() {
                return Err(2);
            }
            match &parts[i] {
                None => {
                    return Err(2);
                },
                Some(part) => {
                    let mut character = Player::new(play_config[i].0.as_str());
                    let ghost d0 = character.dialogue();
                    assert(d0 =~= Seq::<(usize, Seq<char>)>::empty());
                    character.prepare(part, warnings);
                    assert(d0 + dialogue_entries(views(part@)) =~= dialogue_entries(views(part@)));
                    self.characters.push(character);
                },
            }
            i += 1;
        }
        Ok(())
    }

    /// Orders the cast by `cast_order`, stably.
    fn sort_cast(&mut self)
        ensures
            final(self).scene_title == old(self).scene_title,
            is_stable_sort(final(self).characters@, old(self).characters@, by_rank()),
    {
        let mut rest: Vec<Player> = Vec::new();
        std::mem::swap(&mut rest, &mut self.characters);
        let ghost inp = rest@;
        let total = rest.len();
        let ghost mut idx: Seq<int> = Seq::empty();
        let mut k: usize = 0;
        assert(inp.take(0) =~= Seq::<Player>::empty());
        assert(self.characters@ =~= Seq::<Player>::empty());
        while rest.len() > 0
            invariant
                k <= inp.len(),
                inp.len() == total,
                rest@ == inp.skip(k as int),
                self.scene_title == old(self).scene_title,
                inp == old(self).characters@,
                sorted_by_with(self.characters@, inp.take(k as int), by_rank(), idx),
            decreases rest@.len(),
        {
            let ghost out = self.characters@;
            let x = rest.remove(0);
            assert(x == inp[k as int]);
            let ghost xr = rank(x);
            let mut p: usize = self.characters.len();
            while p > 0 && comes_after(&self.characters[p - 1], &x)
                invariant
                    p <= out.len(),
                    out == self.characters@,
                    xr == rank(x),
                    sorted_by_with(out, inp.take(k as int), by_rank(), idx),
                    forall|q: int| p <= q < out.len() ==> by_rank()(#[trigger] out[q]) > xr,
                decreases p,
            {
                p -= 1;
            }
            proof {
                assert forall|q: int| 0 <= q < p implies by_rank()(#[trigger] out[q]) <= xr by {
                    if q < p - 1 {
                        assert(by_rank()(out[q]) < by_rank()(out[p - 1]) || by_rank()(out[q])
                            == by_rank()(out[p - 1]));
                    }
                }
                lemma_insert_sorted(out, inp.take(k as int), by_rank(), idx, p as int, x);
                assert(inp.take(k + 1) =~= inp.take(k as int).push(x));
                assert(rest@ =~= inp.skip(k + 1));
                idx = idx.insert(p as int, k as int);
            }
            self.characters.insert(p, x);
            k += 1;
        }
        assert(inp.take(k as int) =~= inp);
    }

    /// Builds the cast from a roster and the parts it names (`parts[i]` for the `i`th pair),
    /// then orders it; a part that could not be read fails the scene.
    pub fn prepare(
        &mut self,
        play_config: &Vec<(String, String)>,
        parts: &Vec<Option<Vec<String>>>,
        warnings: &mut Vec<String>,
    ) -> (r: Result<(), u8>)
        ensures
            final(self).scene_title == old(self).scene_title,
            r is Ok <==> all_read(parts@, play_config@.len() as int),
            r == Err::<(), u8>(2u8) || r is Ok,
            r is Ok ==> exists|built: Seq<Player>|
                {
                    &&& built.len() == play_config@.len()
                    &&& forall|i: int|
                        0 <= i < built.len() ==> is_prepared(
                            #[trigger] built[i],
                            play_config@[i].0@,
                            parts@[i]->Some_0@,
                        )
                    &&& is_stable_sort(
                        final(self).characters@,
                        old(self).characters@ + built,
                        by_rank(),
                    )
                },
    {
        let ghost n0 = self.characters@.len();
        self.process_config(play_config, parts, warnings)?;
        let ghost mid = self.characters@;
        let ghost built = mid.skip(n0 as int);
        assert(old(self).characters@ + built =~= mid);
        self.sort_cast();
        assert forall|i: int| 0 <= i < built.len() implies is_prepared(
            #[trigger] built[i],
            play_config@[i].0@,
            parts@[i]->Some_0@,
        ) by {
            assert(built[i] == mid[old(self).characters@.len() + i]);
        }
        Ok(())
    }

    /// The names of this scene's cast that `previous` does not hold, in cast order: the whole
    /// cast where there is no previous scene.
    pub fn entering(&self, previous: Option<&SceneFragment>) -> (r: Vec<String>)
        ensures
            views(r@) == absent(cast_names(self.characters@), names_of(previous)),
    {
        let ghost names = cast_names(self.characters@);
        let mut r: Vec<String> = Vec::new();
        let mut i: usize = 0;
        assert(names.take(0) =~= Seq::<Seq<char>>::empty());
        assert(views(r@) =~= Seq::<Seq<char>>::empty());
        while i < self.characters.len()
            invariant
                i <= self.characters@.len(),
                names == cast_names(self.characters@),
                views(r@) == absent(names.take(i as int), names_of(previous)),
            decreases self.characters@.len() - i,
        {
            let name = &self.characters[i].name;
            let present = match previous {
                Some(p) => has_name(&p.characters, name),
                None => false,
            };
            assert(names.take(i + 1).drop_last() =~= names.take(i as int));
            assert(names.take(i + 1).last() == name@);
            if !present {
                let ghost before = r@;
                r.push(name.clone());
                assert(views(r@) =~= views(before).push(name@));
            }
            i += 1;
        }
        assert(names.take(i as int) =~= names);
        r
    }

    /// The names of this scene's cast that `next` does not hold, last in cast order first: the
    /// whole cast where there is no next scene.
    pub fn exiting(&self, next: Option<&SceneFragment>) -> (r: Vec<String>)
        ensures
            views(r@) == absent_reversed(cast_names(self.characters@), names_of(next)),
    {
        let ghost names = cast_names(self.characters@);
        let mut r: Vec<String> = Vec::new();
        let mut i: usize = self.characters.len();
        assert(names.skip(i as int) =~= Seq::<Seq<char>>::empty());
        assert(views(r@) =~= Seq::<Seq<char>>::empty());
        while i > 0
            invariant
                i <= self.characters@.len(),
                names == cast_names(self.characters@),
                views(r@) == absent_reversed(names.skip(i as int), names_of(next)),
            decreases i,
        {
            let name = &self.characters[i - 1].name;
            let present = match next {
                Some(p) => has_name(&p.characters, name),
                None => false,
            };
            assert(names.skip(i - 1).drop_first() =~= names.skip(i as int));
            assert(names.skip(i - 1)[0] == name@);
            if !present {
                let ghost before = r@;
                r.push(name.clone());
                assert(views(r@) =~= views(before).push(name@));
            }
            i -= 1;
        }
        assert(names.skip(0) =~= names);
        r
    }

    /// Prints the title, if it is not blank, and announces that `names` enter.
    fn announce_entrance(&self, names: &Vec<String>, out: &mut Vec<String>)
        ensures
            views(final(out)@) == views(old(out)@) + entrance(self.scene_title@, views(names@)),
    {
        let ghost start = views(out@);
        let t = trim_str(self.scene_title.as_str());
        if t.unicode_len() > 0 {
            out.push(String::new());
            out.push(self.scene_title.clone());
            out.push(String::new());
        }
        assert(views(out@) =~= start + title_lines(self.scene_title@));
        let mut i: usize = 0;
        while i < names.len()
            invariant
                i <= names@.len(),
                views(out@) == start + title_lines(self.scene_title@) + views(names@).take(
                    i as int,
                ).map_values(|n: Seq<char>| enter_line(n)),
            decreases names@.len() - i,
        {
            let line = String::from_str("[Enter ").concat(names[i].as_str()).concat(".]");
            let ghost before = views(out@);
            out.push(line);
            assert(views(out@) =~= before.push(line@));
            assert(views(names@).take(i + 1).map_values(|n: Seq<char>| enter_line(n))
                =~= views(names@).take(i as int).map_values(|n: Seq<char>| enter_line(n)).push(
                enter_line(names@[i as int]@),
            ));
            i += 1;
        }
        assert(views(names@).take(i as int) =~= views(names@));
    }

    /// Announces that `names` leave, between blank lines.
    fn announce_departure(names: &Vec<String>, out: &mut Vec<String>)
        ensures
            views(final(out)@) == views(old(out)@) + departure(views(names@)),
    {
        let ghost start = views(out@);
        out.push(String::new());
        let mut i: usize = 0;
        while i < names.len()
            invariant
                i <= names@.len(),
                views(out@) == start + seq![Seq::<char>::empty()] + views(names@).take(
                    i as int,
                ).map_values(|n: Seq<char>| exit_line(n)),
            decreases names@.len() - i,
        {
            let line = String::from_str("[Exit ").concat(names[i].as_str()).concat(".]");
            let ghost before = views(out@);
            out.push(line);
            assert(views(out@) =~= before.push(line@));
            assert(views(names@).take(i + 1).map_values(|n: Seq<char>| exit_line(n))
                =~= views(names@).take(i as int).map_values(|n: Seq<char>| exit_line(n)).push(
                exit_line(names@[i as int]@),
            ));
            i += 1;
        }
        assert(views(names@).take(i as int) =~= views(names@));
        let ghost before = views(out@);
        out.push(String::new());
        assert(views(out@) =~= before.push(Seq::<char>::empty()));
    }

    /// Prints the title and announces the characters of this scene that were not in `other`,
    /// the scene before it.
    pub fn enter(&self, other: &Self, out: &mut Vec<String>)
        ensures
            views(final(out)@) == views(old(out)@) + entrance(
                self.scene_title@,
                absent(cast_names(self.characters@), cast_names(other.characters@)),
            ),
    {
        let names = self.entering(Some(other));
        self.announce_entrance(&names, out);
    }

    /// Prints the title and announces the whole cast, for a scene that opens the play.
    pub fn enter_all(&self, out: &mut Vec<String>)
        ensures
            views(final(out)@) == views(old(out)@) + entrance(
                self.scene_title@,
                cast_names(self.characters@),
            ),
    {
        let names = self.entering(None);
        proof {
            lemma_absent_from_nobody(cast_names(self.characters@));
        }
        self.announce_entrance(&names, out);
    }

    /// Announces, last first, the characters of this scene that are not in `other`, the scene
    /// after it.
    pub fn exit(&self, other: &Self, out: &mut Vec<String>)
        ensures
            views(final(out)@) == views(old(out)@) + departure(
                absent_reversed(cast_names(self.characters@), cast_names(other.characters@)),
            ),
    {
        let names = self.exiting(Some(other));
        Self::announce_departure(&names, out);
    }

    /// Announces, last first, that the whole cast leaves, for the scene that ends the play.
    pub fn exit_all(&self, out: &mut Vec<String>)
        ensures
            views(final(out)@) == views(old(out)@) + departure(
                cast_names(self.characters@).reverse(),
            ),
    {
        let names = self.exiting(None);
        proof {
            lemma_exits_reversed(cast_names(self.characters@), seq![]);
            lemma_absent_from_nobody(cast_names(self.characters@));
        }
        Self::announce_departure(&names, out);
    }

    /// The least number of a line that some character has yet to speak.
    fn min_line(&self) -> (r: Option<usize>)
        ensures
            r == min_pending(self.characters@),
    {
        let ghost cast = self.characters@;
        let mut best: Option<usize> = None;
        let mut j: usize = 0;
        assert(cast.take(0) =~= Seq::<Player>::empty());
        while j < self.characters.len()
            invariant
                j <= cast.len(),
                cast == self.characters@,
                best == min_pending(cast.take(j as int)),
            decreases cast.len() - j,
        {
            assert(cast.take(j + 1).drop_last() =~= cast.take(j as int));
            assert(cast.take(j + 1).last() == cast[j as int]);
            let q = self.characters[j].next_line();
            best = match (best, q) {
                (None, q) => q,
                (Some(a), None) => Some(a),
                (Some(a), Some(b)) => if b < a {
                    Some(b)
                } else {
                    Some(a)
                },
            };
            j += 1;
        }
        assert(cast.take(j as int) =~= cast);
        best
    }

    /// Every character whose next line is numbered `m` speaks it, in cast order; returns how
    /// many spoke.
    fn speak_round(&mut self, m: usize, recent: &mut String, out: &mut Vec<String>) -> (count:
        usize)
        ensures
            final(self).scene_title == old(self).scene_title,
            ({
                let (c, o, r) = round(
                    old(self).characters@,
                    m,
                    old(recent)@,
                    old(self).characters@.len() as int,
                );
                &&& final(self).characters@ == c
                &&& views(final(out)@) == views(old(out)@) + o
                &&& final(recent)@ == r
            }),
    {
        let ghost cast0 = self.characters@;
        let ghost out0 = views(out@);
        let ghost r0 = recent@;
        let mut count: usize = 0;
        let mut j: usize = 0;
        while j < self.characters.len()
            invariant
                j <= self.characters@.len(),
                self.characters@.len() == cast0.len(),
                self.scene_title == old(self).scene_title,
                count <= j,
                ({
                    let (c, o, r) = round(cast0, m, r0, j as int);
                    &&& self.characters@ == c
                    &&& views(out@) == out0 + o
                    &&& recent@ == r
                }),
            decreases cast0.len() - j,
        {
            proof {
                lemma_round(cast0, m, r0, j as int);
            }
            let ghost o = round(cast0, m, r0, j as int).1;
            let q = self.characters[j].next_line();
            let speaks = match q {
                Some(n) => n == m,
                None => false,
            };
            if speaks {
                let ghost before = views(out@);
                let ghost p = self.characters@[j as int];
                let ghost r = recent@;
                self.characters[j].speak(recent, out);
                assert(self.characters@[j as int] == advanced(p));
                assert(self.characters@ =~= round(cast0, m, r0, j + 1).0);
                assert(out0 + o + crate::player::speech(p.name@, p.dialogue()[p.line_index as int].1, r)
                    =~= out0 + (o + crate::player::speech(p.name@, p.dialogue()[p.line_index as int].1, r)));
                count += 1;
            }
            j += 1;
        }
        count
    }

    /// Performs the dialogue of the scene: while lines are left, every character whose next
    /// line has the least number speaks it. With `verbose`, warns of line numbers that no one
    /// speaks and of numbers that more than one character has.
    pub fn recite(
        &mut self,
        recent: &mut String,
        out: &mut Vec<String>,
        warnings: &mut Vec<String>,
        verbose: bool,
    )
        ensures
            final(self).scene_title == old(self).scene_title,
            ({
                let (o, r, c) = perform(old(self).characters@, old(recent)@);
                &&& views(final(out)@) == views(old(out)@) + o
                &&& final(recent)@ == r
                &&& final(self).characters@ == c
            }),
    {
        let ghost target = perform(self.characters@, recent@);
        let ghost out0 = views(out@);
        let mut expected: usize = 0;
        loop
            invariant
                self.scene_title == old(self).scene_title,
                target == perform(old(self).characters@, old(recent)@),
                out0 == views(old(out)@),
                ({
                    let (o, r, c) = perform(self.characters@, recent@);
                    &&& out0 + target.0 == views(out@) + o
                    &&& target.1 == r
                    &&& target.2 == c
                }),
            ensures
                views(out@) == out0 + target.0,
                recent@ == target.1,
                self.characters@ == target.2,
            decreases remaining(self.characters@),
        {
            let m = match self.min_line() {
                None => {
                    assert(perform(self.characters@, recent@) == (
                        Seq::<Seq<char>>::empty(),
                        recent@,
                        self.characters@,
                    ));
                    assert(views(out@) + Seq::<Seq<char>>::empty() =~= views(out@));
                    break;
                },
                Some(m) => m,
            };
            if verbose {
                while expected < m
                    decreases m - expected,
                {
                    warnings.push(
                        String::from_str("Warning: missing line ").concat(
                            decimal_text(expected).as_str(),
                        ),
                    );
                    expected += 1;
                }
            } else if expected < m {
                expected = m;
            }
            let ghost cast = self.characters@;
            let ghost before = views(out@);
            let ghost r0 = recent@;
            let count = self.speak_round(m, recent, out);
            proof {
                lemma_min_pending_witness(cast);
                lemma_round(cast, m, r0, cast.len() as int);
                let (c, o, r) = round(cast, m, r0, cast.len() as int);
                let (o2, r2, c2) = perform(c, r);
                assert(before + (o + o2) =~= (before + o) + o2);
            }
            if verbose && count != 1 {
                warnings.push(
                    String::from_str("Warning: there are ").concat(decimal_text(count).as_str()).concat(
                        " characters who have a line with number ",
                    ).concat(decimal_text(m).as_str()),
                );
            }
            if expected < usize::MAX {
                expected += 1;
            }
        }
    }

    /// The order of two characters in a cast.
    pub fn compare_players(a: &Player, b: &Player) -> (r: Ordering)
        ensures
            r == cast_order(*a, *b),
            r == Ordering::Greater <==> rank(*a) > rank(*b),
            r == Ordering::Less <==> rank(*a) < rank(*b),
    {
        let a_silent = a.lines.len() == 0;
        let b_silent = b.lines.len() == 0;
        if a_silent && b_silent {
            Ordering::Equal
        } else if a_silent {
            Ordering::Less
        } else if b_silent {
            Ordering::Greater
        } else if a.lines[0].0 < b.lines[0].0 {
            Ordering::Less
        } else if a.lines[0].0 > b.lines[0].0 {
            Ordering::Greater
        } else {
            Ordering::Equal
        }
    }
}


/// Where a scene has no predecessor, its whole cast enters.
pub proof fn lemma_absent_from_nobody(names: Seq<Seq<char>>)
    ensures
        absent(names, seq![]) == names,
    decreases names.len(),
{
    if names.len() > 0 {
        lemma_absent_from_nobody(names.drop_last());
        assert(names.drop_last().push(names.last()) =~= names);
    }
}

/// No name that `others` holds is in `absent(names, others)`, and every one of it is a name of
/// `names`.
pub proof fn lemma_absent_members(names: Seq<Seq<char>>, others: Seq<Seq<char>>, n: Seq<char>)
    ensures
        absent(names, others).contains(n) ==> names.contains(n) && !others.contains(n),
    decreases names.len(),
{
    if names.len() > 0 {
        lemma_absent_members(names.drop_last(), others, n);
        let rest = absent(names.drop_last(), others);
        if absent(names, others).contains(n) {
            if !rest.contains(n) {
                let j = choose|j: int| 0 <= j < absent(names, others).len() && absent(names, others)[j] == n;
                assert(j == rest.len());
                assert(names[names.len() - 1] == n);
            } else {
                let j = choose|j: int| 0 <= j < names.drop_last().len() && names.drop_last()[j] == n;
                assert(names[j] == n);
            }
        }
    }
}

/// Splitting off the first name: it leads the result when it is absent from `others`.
pub proof fn lemma_absent_first(names: Seq<Seq<char>>, others: Seq<Seq<char>>)
    requires
        names.len() > 0,
    ensures
        absent(names, others) == (if others.contains(names[0]) {
            Seq::<Seq<char>>::empty()
        } else {
            seq![names[0]]
        }) + absent(names.drop_first(), others),
    decreases names.len(),
{
    if names.len() == 1 {
        assert(names.drop_last() =~= Seq::<Seq<char>>::empty());
        assert(names.drop_first() =~= Seq::<Seq<char>>::empty());
    } else {
        lemma_absent_first(names.drop_last(), others);
        assert(names.drop_last().drop_first() =~= names.drop_first().drop_last());
        assert(names.drop_first().last() == names.last());
        assert(names.drop_last()[0] == names[0]);
        let head = if others.contains(names[0]) {
            Seq::<Seq<char>>::empty()
        } else {
            seq![names[0]]
        };
        let mid = absent(names.drop_first().drop_last(), others);
        if !others.contains(names.last()) {
            assert((head + mid).push(names.last()) =~= head + mid.push(names.last()));
        }
    }
}

/// The leaving names come in the reverse of cast order.
pub proof fn lemma_exits_reversed(names: Seq<Seq<char>>, others: Seq<Seq<char>>)
    ensures
        absent_reversed(names, others) == absent(names, others).reverse(),
    decreases names.len(),
{
    if names.len() == 0 {
        assert(absent(names, others).reverse() =~= Seq::<Seq<char>>::empty());
    } else {
        lemma_exits_reversed(names.drop_first(), others);
        lemma_absent_first(names, others);
        let t = absent(names.drop_first(), others);
        if others.contains(names[0]) {
            assert(absent(names, others) =~= t);
        } else {
            assert(t.reverse().push(names[0]) =~= (seq![names[0]] + t).reverse());
        }
    }
}

/// With no scene before it, a scene's whole cast enters; after a scene with the same cast, no
/// one enters and no one leaves.
pub proof fn lemma_entering_extremes(f: SceneFragment)
    ensures
        absent(cast_names(f.characters@), names_of(None)) == cast_names(f.characters@),
        absent(cast_names(f.characters@), names_of(Some(&f))).len() == 0,
        absent_reversed(cast_names(f.characters@), names_of(Some(&f))).len() == 0,
{
    let names = cast_names(f.characters@);
    lemma_absent_from_nobody(names);
    if absent(names, names).len() > 0 {
        lemma_absent_members(names, names, absent(names, names)[0]);
    }
    lemma_exits_reversed(names, names);
}

/// A character in two consecutive scenes is neither announced leaving the first nor entering
/// the second.
pub proof fn lemma_shared_character_stays(first: SceneFragment, second: SceneFragment, n: Seq<char>)
    requires
        cast_names(first.characters@).contains(n),
        cast_names(second.characters@).contains(n),
    ensures
        !absent(cast_names(second.characters@), names_of(Some(&first))).contains(n),
        !absent_reversed(cast_names(first.characters@), names_of(Some(&second))).contains(n),
{
    let a_names = cast_names(first.characters@);
    let b_names = cast_names(second.characters@);
    lemma_absent_members(b_names, a_names, n);
    lemma_absent_members(a_names, b_names, n);
    lemma_exits_reversed(a_names, b_names);
    let a = absent(a_names, b_names);
    if a.reverse().contains(n) {
        let j = choose|j: int| 0 <= j < a.reverse().len() && a.reverse()[j] == n;
        assert(a[a.len() - 1 - j] == n);
    }
}

} // verus!
