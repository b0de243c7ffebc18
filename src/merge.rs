//! How a scene's dialogue is merged: while lines are left, every character whose next line has
//! the least number speaks it, in cast order.
use vstd::prelude::*;
use crate::player::{speech, Player};

verus! {

/// How many lines a character has left to speak.
pub open spec fn left(p: Player) -> nat {
    if p.line_index < p.lines@.len() {
        (p.lines@.len() - p.line_index) as nat
    } else {
        0
    }
}

/// How many lines a cast has left to speak.
pub open spec fn remaining(cast: Seq<Player>) -> nat
    decreases cast.len(),
{
    if cast.len() == 0 {
        0
    } else {
        remaining(cast.drop_last()) + left(cast.last())
    }
}

/// The least number of a line that some character of `cast` has yet to speak.
pub open spec fn min_pending(cast: Seq<Player>) -> Option<usize>
    decreases cast.len(),
{
    if cast.len() == 0 {
        None
    } else {
        match (min_pending(cast.drop_last()), cast.last().pending()) {
            (None, q) => q,
            (Some(a), None) => Some(a),
            (Some(a), Some(b)) => if b < a {
                Some(b)
            } else {
                Some(a)
            },
        }
    }
}

/// `p` after speaking its next line.
pub open spec fn advanced(p: Player) -> Player {
    Player { line_index: (p.line_index + 1) as usize, ..p }
}

/// The first `j` characters of `cast` that have line `m` next speak it, in cast order: the cast
/// after, what is printed, and the last speaker.
pub open spec fn round(cast: Seq<Player>, m: usize, recent: Seq<char>, j: int) -> (
    Seq<Player>,
    Seq<Seq<char>>,
    Seq<char>,
)
    decreases j,
{
    if j <= 0 {
        (cast, seq![], recent)
    } else {
        let (c, o, r) = round(cast, m, recent, j - 1);
        let p = c[j - 1];
        if p.pending() == Some(m) {
            (
                c.update(j - 1, advanced(p)),
                o + speech(p.name@, p.dialogue()[p.line_index as int].1, r),
                p.name@,
            )
        } else {
            (c, o, r)
        }
    }
}

/// The dialogue of a scene: while lines are left, every character whose next line has the
/// least number speaks it. What is printed, the last speaker, and the cast after.
pub open spec fn perform(cast: Seq<Player>, recent: Seq<char>) -> (
    Seq<Seq<char>>,
    Seq<char>,
    Seq<Player>,
)
    decreases remaining(cast),
    via perform_decreases
{
    match min_pending(cast) {
        None => (seq![], recent, cast),
        Some(m) => {
            let (c, o, r) = round(cast, m, recent, cast.len() as int);
            let (o2, r2, c2) = perform(c, r);
            (o + o2, r2, c2)
        },
    }
}

#[via_fn]
proof fn perform_decreases(cast: Seq<Player>, recent: Seq<char>) {
    match min_pending(cast) {
        None => {},
        Some(m) => {
            lemma_min_pending_witness(cast);
            lemma_round(cast, m, recent, cast.len() as int);
        },
    }
}

proof fn lemma_remaining_update(cast: Seq<Player>, j: int, p: Player)
    requires
        0 <= j < cast.len(),
    ensures
        remaining(cast.update(j, p)) + left(cast[j]) == remaining(cast) + left(p),
    decreases cast.len(),
{
    let u = cast.update(j, p);
    if j < cast.len() - 1 {
        lemma_remaining_update(cast.drop_last(), j, p);
        assert(u.drop_last() =~= cast.drop_last().update(j, p));
    } else {
        assert(u.drop_last() =~= cast.drop_last());
    }
}

pub proof fn lemma_min_pending_witness(cast: Seq<Player>)
    ensures
        min_pending(cast) is Some ==> exists|k: int|
            0 <= k < cast.len() && (#[trigger] cast[k]).pending() == min_pending(cast),
        forall|k: int|
            0 <= k < cast.len() && (#[trigger] cast[k]).pending() is Some ==> min_pending(cast) is Some
                && min_pending(cast)->Some_0 <= cast[k].pending()->Some_0,
    decreases cast.len(),
{
    if cast.len() > 0 {
        let d = cast.drop_last();
        lemma_min_pending_witness(d);
        assert forall|k: int| 0 <= k < d.len() implies #[trigger] d[k] == cast[k] by {}
        assert forall|k: int|
            0 <= k < cast.len() && (#[trigger] cast[k]).pending() is Some implies min_pending(cast) is Some
                && min_pending(cast)->Some_0 <= cast[k].pending()->Some_0 by {
            if k < cast.len() - 1 {
                assert(d[k] == cast[k]);
            }
        }
        if min_pending(cast) is Some && !(cast.last().pending() == min_pending(cast)) {
            let k = choose|k: int| 0 <= k < d.len() && (#[trigger] d[k]).pending() == min_pending(d);
            assert(cast[k].pending() == min_pending(cast));
        }
    }
}

pub proof fn lemma_round(cast: Seq<Player>, m: usize, recent: Seq<char>, j: int)
    requires
        0 <= j <= cast.len(),
    ensures
        ({
            let (c, o, r) = round(cast, m, recent, j);
            &&& c.len() == cast.len()
            &&& forall|k: int| j <= k < cast.len() ==> #[trigger] c[k] == cast[k]
            &&& forall|k: int|
                0 <= k < cast.len() ==> (#[trigger] c[k]).name == cast[k].name && c[k].lines
                    == cast[k].lines
            &&& remaining(c) <= remaining(cast)
            &&& (exists|k: int| 0 <= k < j && (#[trigger] cast[k]).pending() == Some(m))
                ==> remaining(c) < remaining(cast)
        }),
    decreases j,
{
    if j > 0 {
        lemma_round(cast, m, recent, j - 1);
        let (c, o, r) = round(cast, m, recent, j - 1);
        let p = c[j - 1];
        assert(p == cast[j - 1]);
        if p.pending() == Some(m) {
            lemma_remaining_update(c, j - 1, advanced(p));
            let c2 = c.update(j - 1, advanced(p));
            assert(left(advanced(p)) + 1 == left(p));
            assert(round(cast, m, recent, j).0 == c2);
            assert forall|k: int| j <= k < cast.len() implies #[trigger] c2[k] == cast[k] by {
                assert(c[k] == cast[k]);
            }
            assert forall|k: int| 0 <= k < cast.len() implies (#[trigger] c2[k]).name == cast[k].name
                && c2[k].lines == cast[k].lines by {
                assert(c[k].name == cast[k].name && c[k].lines == cast[k].lines);
            }
        } else {
            assert(round(cast, m, recent, j).0 == c);
        }
        if exists|k: int| 0 <= k < j && (#[trigger] cast[k]).pending() == Some(m) {
            let k = choose|k: int| 0 <= k < j && (#[trigger] cast[k]).pending() == Some(m);
            if k < j - 1 {
                assert(exists|k: int| 0 <= k < j - 1 && (#[trigger] cast[k]).pending() == Some(m));
            }
        }
    }
}

/// Performing a scene changes no character's name or lines.
pub proof fn lemma_perform_keeps_cast(cast: Seq<Player>, recent: Seq<char>)
    ensures
        ({
            let c = perform(cast, recent).2;
            &&& c.len() == cast.len()
            &&& forall|k: int|
                0 <= k < cast.len() ==> (#[trigger] c[k]).name == cast[k].name && c[k].lines
                    == cast[k].lines
        }),
    decreases remaining(cast),
{
    match min_pending(cast) {
        None => {},
        Some(m) => {
            lemma_min_pending_witness(cast);
            lemma_round(cast, m, recent, cast.len() as int);
            let (c, o, r) = round(cast, m, recent, cast.len() as int);
            lemma_perform_keeps_cast(c, r);
        },
    }
}

} // verus!
