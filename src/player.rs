//! A character of the play: a name, the numbered lines read from its part, and how far it has
//! got through them.
use vstd::prelude::*;
use std::cmp::Ordering;
use crate::order::{is_stable_sort, lemma_insert_sorted, sorted_by_with};
use crate::text::{is_ws, parse_number, parse_usize, trim, trim_str, is_whitespace};

verus! {

/// The views of a sequence of numbered lines.
pub open spec fn line_views(v: Seq<(usize, String)>) -> Seq<(usize, Seq<char>)> {
    v.map_values(|e: (usize, String)| (e.0, e.1@))
}

/// The key a part is sorted by: the number of each entry.
pub open spec fn by_number() -> spec_fn((usize, Seq<char>)) -> int {
    |e: (usize, Seq<char>)| e.0 as int
}

/// `p` is the position of the first whitespace character of `s`.
pub open spec fn is_first_ws(s: Seq<char>, p: int) -> bool {
    &&& 0 <= p < s.len()
    &&& is_ws(s[p])
    &&& forall|q: int| 0 <= q < p ==> !is_ws(#[trigger] s[q])
}

/// What one line of a part holds: split at its first whitespace character, a number before it
/// and the text after it, trimmed. A line without whitespace, or whose first token is no number,
/// holds nothing.
pub open spec fn dialogue_entry(s: Seq<char>) -> Option<(usize, Seq<char>)> {
    if exists|p: int| is_first_ws(s, p) {
        let p = choose|p: int| is_first_ws(s, p);
        match parse_usize(s.take(p)) {
            Some(n) => Some((n, trim(s.skip(p + 1)))),
            None => None,
        }
    } else {
        None
    }
}

/// The entries that the lines of a part hold, in the order of the lines.
pub open spec fn dialogue_entries(lines: Seq<Seq<char>>) -> Seq<(usize, Seq<char>)>
    decreases lines.len(),
{
    if lines.len() == 0 {
        seq![]
    } else {
        let rest = dialogue_entries(lines.drop_last());
        match dialogue_entry(lines.last()) {
            Some(e) => rest.push(e),
            None => rest,
        }
    }
}

/// What is printed when a character speaks `text` after `recent` spoke: a blank line and the
/// name when the speaker changes, then the text.
pub open spec fn speech(name: Seq<char>, text: Seq<char>, recent: Seq<char>) -> Seq<Seq<char>> {
    if recent != name {
        seq![Seq::<char>::empty(), name, text]
    } else {
        seq![text]
    }
}

/// Where a character stands in cast order: silent characters first, then by the number of
/// their first line.
pub open spec fn rank(p: Player) -> int {
    if p.lines@.len() == 0 {
        0
    } else {
        p.lines@[0].0 as int + 1
    }
}

pub open spec fn by_rank() -> spec_fn(Player) -> int {
    |p: Player| rank(p)
}

/// The order of two characters in a cast: two silent characters are equal, a silent one comes
/// before one that speaks, and two that speak compare by the numbers of their first lines.
pub open spec fn cast_order(a: Player, b: Player) -> Ordering {
    if a.lines@.len() == 0 && b.lines@.len() == 0 {
        Ordering::Equal
    } else if a.lines@.len() == 0 {
        Ordering::Less
    } else if b.lines@.len() == 0 {
        Ordering::Greater
    } else if a.lines@[0].0 < b.lines@[0].0 {
        Ordering::Less
    } else if a.lines@[0].0 > b.lines@[0].0 {
        Ordering::Greater
    } else {
        Ordering::Equal
    }
}

pub struct Player {
    pub name: String,
    /// The numbered lines, ascending by number.
    pub lines: Vec<(usize, String)>,
    /// The position of the next line to speak.
    pub line_index: usize,
}

impl Player {
    /// The numbered lines as plain values.
    pub open spec fn dialogue(&self) -> Seq<(usize, Seq<char>)> {
        line_views(self.lines@)
    }

    /// The number of the next line to speak, if any is left. (A position below the length of a
    /// `Vec` is always below `usize::MAX`; the bound is stated for values built in proofs.)
    pub open spec fn pending(&self) -> Option<usize> {
        if self.line_index < self.lines@.len() && self.line_index < usize::MAX {
            Some(self.lines@[self.line_index as int].0)
        } else {
            None
        }
    }

    /// A character with no lines.
    pub open spec fn is_silent(&self) -> bool {
        self.lines@.len() == 0
    }

    pub fn new(name: &str) -> (r: Player)
        ensures
            r.name@ == name@,
            r.lines@.len() == 0,
            r.line_index == 0,
    {
        Player { name: String::from_str(name), lines: Vec::new(), line_index: 0 }
    }

    /// Adds what one line of the part holds, if anything; a line that is not empty and holds
    /// nothing leaves a warning.
    pub fn add_script_line(&mut self, line: &str, warnings: &mut Vec<String>)
        ensures
            final(self).name == old(self).name,
            final(self).line_index == old(self).line_index,
            final(self).dialogue() == match dialogue_entry(line@) {
                Some(e) => old(self).dialogue().push(e),
                None => old(self).dialogue(),
            },
            final(warnings)@.len() == old(warnings)@.len() + if line@.len() > 0 && dialogue_entry(
                line@,
            ) is None {
                1int
            } else {
                0int
            },
    {
        let n = line.unicode_len();
        if n == 0 {
            return;
        }
        let mut p: usize = 0;
        while p < n && !is_whitespace(line.get_char(p))
            invariant
                p <= n,
                n == line@.len(),
                forall|q: int| 0 <= q < p ==> !is_ws(#[trigger] line@[q]),
            decreases n - p,
        {
            p += 1;
        }
        if p == n {
            assert(!exists|p: int| is_first_ws(line@, p));
            warnings.push(
                String::from_str("Warning: line contains only a single token and is invalid"),
            );
            return;
        }
        assert(is_first_ws(line@, p as int));
        proof {
            // Only one position is the first whitespace: each of two would precede the other.
            let c = choose|c: int| is_first_ws(line@, c);
            assert(c == p) by {
                if c < p {
                    assert(!is_ws(line@[c]));
                }
            }
        }
        let token = line.substring_char(0, p);
        assert(token@ =~= line@.take(p as int));
        match parse_number(token) {
            Some(num) => {
                let rest = line.substring_char(p + 1, n);
                assert(rest@ =~= line@.skip(p + 1));
                let text = trim_str(rest);
                let ghost before = self.lines@;
                self.lines.push((num, text));
                assert(line_views(self.lines@) =~= line_views(before).push((num, text@)));
            },
            None => {
                warnings.push(
                    String::from_str("Warning: ").concat(token).concat(
                        " does not contain a valid usize value",
                    ),
                );
            },
        }
    }

    /// Reads the lines of the part and orders them by number, stably.
    pub fn prepare(&mut self, part: &Vec<String>, warnings: &mut Vec<String>)
        ensures
            final(self).name == old(self).name,
            final(self).line_index == old(self).line_index,
            is_stable_sort(
                final(self).dialogue(),
                old(self).dialogue() + dialogue_entries(crate::text::views(part@)),
                by_number(),
            ),
    {
        let ghost start = self.dialogue();
        let mut i: usize = 0;
        while i < part.len()
            invariant
                i <= part@.len(),
                self.name == old(self).name,
                self.line_index == old(self).line_index,
                self.dialogue() == start + dialogue_entries(
                    crate::text::views(part@).take(i as int),
                ),
            decreases part@.len() - i,
        {
            let ghost ls = crate::text::views(part@).take(i + 1);
            assert(ls.drop_last() =~= crate::text::views(part@).take(i as int));
            assert(ls.last() == part@[i as int]@);
            self.add_script_line(part[i].as_str(), warnings);
            proof {
                let d = dialogue_entries(crate::text::views(part@).take(i as int));
                match dialogue_entry(part@[i as int]@) {
                    Some(e) => {
                        assert(start + d.push(e) =~= (start + d).push(e));
                    },
                    None => {},
                }
            }
            i += 1;
        }
        assert(crate::text::views(part@).take(part@.len() as int) =~= crate::text::views(part@));
        self.lines = sort_lines(&self.lines);
    }

    /// Speaks the next line, if any is left: prints it (after the name, when the speaker
    /// changes), moves on to the line after it, and records this character as the last speaker.
    pub fn speak(&mut self, recent_player: &mut String, out: &mut Vec<String>)
        ensures
            final(self).name == old(self).name,
            final(self).lines == old(self).lines,
            old(self).line_index < old(self).lines@.len() ==> {
                &&& final(self).line_index == old(self).line_index + 1
                &&& final(recent_player)@ == old(self).name@
                &&& crate::text::views(final(out)@) == crate::text::views(old(out)@) + speech(
                    old(self).name@,
                    old(self).dialogue()[old(self).line_index as int].1,
                    old(recent_player)@,
                )
            },
            old(self).line_index >= old(self).lines@.len() ==> {
                &&& final(self).line_index == old(self).line_index
                &&& *final(recent_player) == *old(recent_player)
                &&& *final(out) == *old(out)
            },
    {
        if self.line_index < self.lines.len() {
            let ghost before = out@;
            if *recent_player != self.name {
                *recent_player = self.name.clone();
                out.push(String::new());
                out.push(self.name.clone());
            }
            out.push(self.lines[self.line_index].1.clone());
            assert(crate::text::views(out@) =~= crate::text::views(before) + speech(
                self.name@,
                self.dialogue()[self.line_index as int].1,
                old(recent_player)@,
            ));
            *recent_player = self.name.clone();
            self.line_index += 1;
        }
    }

    /// The number of the next line to speak, if any is left.
    pub fn next_line(&self) -> (r: Option<usize>)
        ensures
            r == self.pending(),
    {
        if self.line_index < self.lines.len() {
            Some(self.lines[self.line_index].0)
        } else {
            None
        }
    }
}

/// A copy of `v` ordered by number, entries of equal number in their order in `v`.
pub fn sort_lines(v: &Vec<(usize, String)>) -> (r: Vec<(usize, String)>)
    ensures
        is_stable_sort(line_views(r@), line_views(v@), by_number()),
{
    let mut r: Vec<(usize, String)> = Vec::new();
    let ghost mut idx: Seq<int> = Seq::empty();
    let mut k: usize = 0;
    assert(line_views(v@).take(0) =~= Seq::<(usize, Seq<char>)>::empty());
    assert(line_views(r@) =~= Seq::<(usize, Seq<char>)>::empty());
    while k < v.len()
        invariant
            k <= v@.len(),
            sorted_by_with(line_views(r@), line_views(v@).take(k as int), by_number(), idx),
        decreases v@.len() - k,
    {
        let num = v[k].0;
        let text = v[k].1.clone();
        let ghost x = (num, text@);
        let ghost lv = line_views(r@);
        let mut p: usize = r.len();
        while p > 0 && r[p - 1].0 > num
            invariant
                p <= r@.len(),
                lv == line_views(r@),
                x.0 == num,
                sorted_by_with(lv, line_views(v@).take(k as int), by_number(), idx),
                forall|q: int| p <= q < lv.len() ==> by_number()(#[trigger] lv[q]) > by_number()(x),
            decreases p,
        {
            assert(lv[p - 1].0 == r@[p - 1].0);
            p -= 1;
        }
        assert(p > 0 ==> lv[p - 1].0 == r@[p - 1].0);
        proof {
            assert forall|q: int| 0 <= q < p implies by_number()(#[trigger] lv[q]) <= by_number()(x) by {
                if q < p - 1 {
                    assert(by_number()(lv[q]) < by_number()(lv[p - 1]) || by_number()(lv[q]) == by_number()(lv[p - 1]));
                }
            }
            lemma_insert_sorted(lv, line_views(v@).take(k as int), by_number(), idx, p as int, x);
            assert(line_views(v@).take(k + 1) =~= line_views(v@).take(k as int).push(x));
            idx = idx.insert(p as int, k as int);
        }
        r.insert(p, (num, text));
        assert(line_views(r@) =~= lv.insert(p as int, x));
        k += 1;
    }
    assert(line_views(v@).take(v@.len() as int) =~= line_views(v@));
    r
}

/// Cast order: silent characters are equal among themselves and come before those who speak;
/// those who speak are ordered by their first line numbers alone, whatever their names.
pub proof fn lemma_cast_order(a: Player, b: Player)
    ensures
        a.is_silent() && b.is_silent() ==> cast_order(a, b) == Ordering::Equal,
        a.is_silent() && !b.is_silent() ==> cast_order(a, b) == Ordering::Less,
        !a.is_silent() && b.is_silent() ==> cast_order(a, b) == Ordering::Greater,
        !a.is_silent() && !b.is_silent() && a.dialogue()[0].0 < b.dialogue()[0].0 ==> cast_order(a, b) == Ordering::Less,
        !a.is_silent() && !b.is_silent() && a.dialogue()[0].0 > b.dialogue()[0].0 ==> cast_order(a, b) == Ordering::Greater,
        forall|n: String| #[trigger] cast_order(Player { name: n, ..a }, b) == cast_order(a, b),
        cast_order(a, b) == Ordering::Less <==> rank(a) < rank(b),
        cast_order(a, b) == Ordering::Greater <==> rank(a) > rank(b),
{
}

impl PartialEq for Player {
    /// Equal in cast order.
    fn eq(&self, other: &Player) -> (r: bool) {
        let self_silent = self.lines.len() == 0;
        let other_silent = other.lines.len() == 0;
        if self_silent && other_silent {
            true
        } else if self_silent || other_silent {
            false
        } else {
            self.lines[0].0 == other.lines[0].0
        }
    }
}

impl vstd::std_specs::cmp::PartialEqSpecImpl for Player {
    open spec fn obeys_eq_spec() -> bool {
        true
    }

    open spec fn eq_spec(&self, other: &Player) -> bool {
        cast_order(*self, *other) == Ordering::Equal
    }
}

impl PartialOrd for Player {
    /// Cast order, which orders every two characters.
    fn partial_cmp(&self, other: &Player) -> (r: Option<Ordering>) {
        let self_silent = self.lines.len() == 0;
        let other_silent = other.lines.len() == 0;
        if self_silent && other_silent {
            Some(Ordering::Equal)
        } else if self_silent {
            Some(Ordering::Less)
        } else if other_silent {
            Some(Ordering::Greater)
        } else if self.lines[0].0 < other.lines[0].0 {
            Some(Ordering::Less)
        } else if self.lines[0].0 > other.lines[0].0 {
            Some(Ordering::Greater)
        } else {
            Some(Ordering::Equal)
        }
    }
}

impl vstd::std_specs::cmp::PartialOrdSpecImpl for Player {
    open spec fn obeys_partial_cmp_spec() -> bool {
        true
    }

    open spec fn partial_cmp_spec(&self, other: &Player) -> Option<Ordering> {
        Some(cast_order(*self, *other))
    }
}

} // verus!
