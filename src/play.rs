//! The play: the script's scenes in order, and the recital of all of them.
use vstd::prelude::*;
use crate::merge::{lemma_perform_keeps_cast, perform};
use crate::scene_fragment::{
    absent, absent_reversed, cast_names, departure, entrance, SceneFragment,
};
use crate::text::{split_words, views, words};

verus! {

/// The marker that opens a new scene in a script.
pub open spec fn scene_marker() -> Seq<char> {
    seq!['[', 's', 'c', 'e', 'n', 'e', ']']
}

/// Words joined by single spaces.
pub open spec fn join_words(ws: Seq<Seq<char>>) -> Seq<char>
    decreases ws.len(),
{
    if ws.len() == 0 {
        seq![]
    } else if ws.len() == 1 {
        ws[0]
    } else {
        join_words(ws.drop_last()) + seq![' '] + ws.last()
    }
}

/// What one script line holds: `(true, title)` for the marker followed by a title, `(false,
/// path)` for the path of a scene's roster (its first word); nothing for a blank line or the
/// marker alone.
pub open spec fn script_entry(line: Seq<char>) -> Option<(bool, Seq<char>)> {
    let w = words(line);
    if w.len() == 0 {
        None
    } else if w[0] == scene_marker() {
        if w.len() == 1 {
            None
        } else {
            Some((true, join_words(w.skip(1))))
        }
    } else {
        Some((false, w[0]))
    }
}

/// What the lines of a script hold, in order.
pub open spec fn script_entries(lines: Seq<Seq<char>>) -> Seq<(bool, Seq<char>)>
    decreases lines.len(),
{
    if lines.len() == 0 {
        seq![]
    } else {
        let rest = script_entries(lines.drop_last());
        match script_entry(lines.last()) {
            Some(e) => rest.push(e),
            None => rest,
        }
    }
}

pub open spec fn entry_views(v: Seq<(bool, String)>) -> Seq<(bool, Seq<char>)> {
    v.map_values(|e: (bool, String)| (e.0, e.1@))
}

/// Reading script entries in order: the scenes so far, each a (title, roster path) pair, and
/// the title waiting for its scene. A roster takes the waiting title, or none, and leaves none.
pub open spec fn plan_scan(entries: Seq<(bool, Seq<char>)>) -> (
    Seq<(Seq<char>, Seq<char>)>,
    Seq<char>,
)
    decreases entries.len(),
{
    if entries.len() == 0 {
        (seq![], seq![])
    } else {
        let (scenes, title) = plan_scan(entries.drop_last());
        let e = entries.last();
        if e.0 {
            (scenes, e.1)
        } else {
            (scenes.push((title, e.1)), seq![])
        }
    }
}

/// The scenes of a script, each a (title, roster path) pair, in script order.
pub open spec fn scene_plan(entries: Seq<(bool, Seq<char>)>) -> Seq<(Seq<char>, Seq<char>)> {
    plan_scan(entries).0
}

/// What opens scene `i`: its title and the characters who enter, all of them for the first
/// scene.
pub open spec fn opening(frags: Seq<SceneFragment>, i: int) -> Seq<Seq<char>> {
    let names = cast_names(frags[i].characters@);
    entrance(
        frags[i].scene_title@,
        if i == 0 {
            names
        } else {
            absent(names, cast_names(frags[i - 1].characters@))
        },
    )
}

/// What closes scene `i`: the characters who leave, all of them after the last scene.
pub open spec fn closing(frags: Seq<SceneFragment>, i: int) -> Seq<Seq<char>> {
    let names = cast_names(frags[i].characters@);
    departure(
        if i + 1 < frags.len() {
            absent_reversed(names, cast_names(frags[i + 1].characters@))
        } else {
            names.reverse()
        },
    )
}

/// The transcript of scenes `i` onward, the last speaker before them being `recent`.
pub open spec fn recital(frags: Seq<SceneFragment>, i: int, recent: Seq<char>) -> Seq<Seq<char>>
    decreases frags.len() - i,
{
    if i < 0 || i >= frags.len() {
        seq![]
    } else {
        let (o, r, c) = perform(frags[i].characters@, recent);
        opening(frags, i) + o + closing(frags, i) + recital(frags, i + 1, r)
    }
}

pub struct Play {
    /// The scenes, in script order.
    pub fragments: Vec<SceneFragment>,
}

impl Play {
    pub fn new() -> (r: Play)
        ensures
            r.fragments@.len() == 0,
    {
        Play { fragments: Vec::new() }
    }

    /// Adds what one script line holds, if anything. The marker alone, and a roster path
    /// followed by more words, leave a warning.
    pub fn add_config(line: &str, script_config: &mut Vec<(bool, String)>, warnings: &mut Vec<String>)
        ensures
            entry_views(final(script_config)@) == match script_entry(line@) {
                Some(e) => entry_views(old(script_config)@).push(e),
                None => entry_views(old(script_config)@),
            },
    {
        let tokens = split_words(line);
        if tokens.len() == 0 {
            return;
        }
        let marker = String::from_str("[scene]");
        proof {
            reveal_strlit("[scene]");
        }
        assert(marker@ =~= scene_marker());
        let ghost w = views(tokens@);
        assert(w[0] == tokens@[0]@);
        let ghost before = script_config@;
        if tokens[0] == marker {
            if tokens.len() == 1 {
                warnings.push(
                    String::from_str(
                        "Warning: scene identified but has no title so has not been added",
                    ),
                );
                return;
            }
            let mut title = tokens[1].clone();
            let mut k: usize = 2;
            assert(w.skip(1).take(1) =~= seq![w[1]]);
            while k < tokens.len()
                invariant
                    2 <= k <= tokens@.len(),
                    w == views(tokens@),
                    title@ == join_words(w.skip(1).take(k - 1)),
                decreases tokens@.len() - k,
            {
                title = title.concat(" ").concat(tokens[k].as_str());
                proof {
                    reveal_strlit(" ");
                    let t = w.skip(1).take(k as int);
                    assert(t.drop_last() =~= w.skip(1).take(k - 1));
                    assert(t.last() == tokens@[k as int]@);
                }
                k += 1;
            }
            assert(w.skip(1).take(k - 1) =~= w.skip(1));
            script_config.push((true, title));
            assert(entry_views(script_config@) =~= entry_views(before).push(
                (true, join_words(w.skip(1))),
            ));
        } else {
            let first = tokens[0].clone();
            script_config.push((false, first));
            assert(entry_views(script_config@) =~= entry_views(before).push((false, w[0])));
            if tokens.len() != 1 {
                warnings.push(
                    String::from_str("Warning: there are additional tokens in the line \"").concat(
                        line,
                    ).concat("\" that is being treated as a config file name"),
                );
            }
        }
    }

    /// Reads a script: what its lines hold, in order; a script that holds nothing fails.
    pub fn read_config(
        script_lines: &Vec<String>,
        script_config: &mut Vec<(bool, String)>,
        warnings: &mut Vec<String>,
    ) -> (r: Result<(), u8>)
        ensures
            entry_views(final(script_config)@) == entry_views(old(script_config)@)
                + script_entries(views(script_lines@)),
            r is Err <==> script_entries(views(script_lines@)).len() == 0,
            r == Err::<(), u8>(2u8) || r is Ok,
    {
        let ghost start = entry_views(script_config@);
        let n0 = script_config.len();
        let mut i: usize = 0;
        while i < script_lines.len()
            invariant
                i <= script_lines@.len(),
                n0 == start.len(),
                entry_views(script_config@) == start + script_entries(
                    views(script_lines@).take(i as int),
                ),
            decreases script_lines@.len() - i,
        {
            let ghost ls = views(script_lines@).take(i + 1);
            assert(ls.drop_last() =~= views(script_lines@).take(i as int));
            assert(ls.last() == script_lines@[i as int]@);
            Self::add_config(script_lines[i].as_str(), script_config, warnings);
            proof {
                let d = script_entries(views(script_lines@).take(i as int));
                match script_entry(script_lines@[i as int]@) {
                    Some(e) => {
                        assert(start + d.push(e) =~= (start + d).push(e));
                    },
                    None => {},
                }
            }
            i += 1;
        }
        assert(views(script_lines@).take(i as int) =~= views(script_lines@));
        if script_config.len() == n0 {
            return Err(2);
        }
        Ok(())
    }

    /// The scenes of a script, each the title waiting when its roster comes (or none) and the
    /// roster's path, in script order.
    pub fn scene_plan(script_config: &Vec<(bool, String)>) -> (r: Vec<(String, String)>)
        ensures
            crate::scene_fragment::pair_views(r@) == scene_plan(entry_views(script_config@)),
    {
        let ghost ev = entry_views(script_config@);
        let mut plan: Vec<(String, String)> = Vec::new();
        let mut title = String::new();
        let mut i: usize = 0;
        assert(ev.take(0) =~= Seq::<(bool, Seq<char>)>::empty());
        assert(crate::scene_fragment::pair_views(plan@) =~= Seq::<(Seq<char>, Seq<char>)>::empty());
        while i < script_config.len()
            invariant
                i <= script_config@.len(),
                ev == entry_views(script_config@),
                plan_scan(ev.take(i as int)) == (
                    crate::scene_fragment::pair_views(plan@),
                    title@,
                ),
            decreases script_config@.len() - i,
        {
            assert(ev.take(i + 1).drop_last() =~= ev.take(i as int));
            assert(ev.take(i + 1).last() == ev[i as int]);
            if script_config[i].0 {
                title = script_config[i].1.clone();
            } else {
                let ghost before = plan@;
                let ghost e = (title@, script_config@[i as int].1@);
                let mut t = String::new();
                std::mem::swap(&mut t, &mut title);
                plan.push((t, script_config[i].1.clone()));
                assert(crate::scene_fragment::pair_views(plan@) =~= crate::scene_fragment::pair_views(
                    before,
                ).push(e));
            }
            i += 1;
        }
        assert(ev.take(i as int) =~= ev);
        plan
    }

    /// Takes the prepared scenes, in script order. The play must open on a scene with a title:
    /// it fails if it has no scene, or if its first scene has no title.
    pub fn prepare(&mut self, scenes: Vec<SceneFragment>) -> (r: Result<(), u8>)
        ensures
            final(self).fragments@ == old(self).fragments@ + scenes@,
            r is Ok <==> final(self).fragments@.len() > 0
                && final(self).fragments@[0].scene_title@.len() > 0,
            r == Err::<(), u8>(2u8) || r is Ok,
    {
        let mut scenes = scenes;
        self.fragments.append(&mut scenes);
        if self.fragments.len() == 0 {
            return Err(2);
        }
        if self.fragments[0].scene_title.unicode_len() == 0 {
            return Err(2);
        }
        Ok(())
    }

    /// Recites the whole play: for each scene its opening, its dialogue and its closing, the
    /// last speaker carried from scene to scene.
    pub fn recite(&mut self, out: &mut Vec<String>, warnings: &mut Vec<String>, verbose: bool)
        ensures
            views(final(out)@) == views(old(out)@) + recital(
                old(self).fragments@,
                0,
                Seq::<char>::empty(),
            ),
    {
        let ghost orig = self.fragments@;
        let ghost out0 = views(out@);
        let mut recent = String::new();
        let len = self.fragments.len();
        let mut i: usize = 0;
        while i < len
            invariant
                i <= len,
                len == orig.len(),
                self.fragments@.len() == len,
                out0 == views(old(out)@),
                orig == old(self).fragments@,
                forall|k: int|
                    0 <= k < len ==> (#[trigger] self.fragments@[k]).scene_title
                        == orig[k].scene_title && cast_names(self.fragments@[k].characters@)
                        == cast_names(orig[k].characters@),
                forall|k: int| i <= k < len ==> #[trigger] self.fragments@[k] == orig[k],
                views(out@) + recital(orig, i as int, recent@) == out0 + recital(
                    orig,
                    0,
                    Seq::<char>::empty(),
                ),
            decreases len - i,
        {
            let ghost before = views(out@);
            let ghost r0 = recent@;
            if i > 0 {
                self.fragments[i].enter(&self.fragments[i - 1], out);
            } else {
                self.fragments[i].enter_all(out);
            }
            let ghost after_open = views(out@);
            assert(after_open == before + opening(orig, i as int));
            let ghost cast = orig[i as int].characters@;
            self.fragments[i].recite(&mut recent, out, warnings, verbose);
            let ghost after_dialogue = views(out@);
            proof {
                lemma_perform_keeps_cast(cast, r0);
                let c = perform(cast, r0).2;
                assert(cast_names(c) =~= cast_names(cast));
            }
            if i + 1 < len {
                self.fragments[i].exit(&self.fragments[i + 1], out);
            } else {
                self.fragments[i].exit_all(out);
            }
            proof {
                let (o, r, c) = perform(cast, r0);
                assert(views(out@) == after_dialogue + closing(orig, i as int));
                assert(before + (opening(orig, i as int) + o + closing(orig, i as int) + recital(
                    orig,
                    i + 1,
                    r,
                )) =~= views(out@) + recital(orig, i + 1, r));
            }
            i += 1;
        }
    }
}

} // verus!
