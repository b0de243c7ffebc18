//! Stable ordering by an integer key: what it means for one sequence to be another sorted, and
//! the step that inserting one more element takes.
use vstd::prelude::*;

verus! {

/// `out` is `inp` rearranged by `idx` (`out[i]` is `inp[idx[i]]`), ascending by `key`, with
/// elements of equal key in their order in `inp`.
pub open spec fn sorted_by_with<T>(
    out: Seq<T>,
    inp: Seq<T>,
    key: spec_fn(T) -> int,
    idx: Seq<int>,
) -> bool {
    &&& out.len() == inp.len()
    &&& idx.len() == inp.len()
    &&& forall|i: int| 0 <= i < idx.len() ==> 0 <= #[trigger] idx[i] < inp.len()
    &&& forall|i: int| 0 <= i < idx.len() ==> #[trigger] out[i] == inp[idx[i]]
    &&& forall|i: int, j: int| 0 <= i < j < idx.len() ==> idx[i] != idx[j]
    &&& forall|i: int, j: int|
        0 <= i < j < out.len() ==> key(#[trigger] out[i]) < key(#[trigger] out[j]) || (key(out[i])
            == key(out[j]) && idx[i] < idx[j])
}

/// `out` is a stable sort of `inp` by `key`.
pub open spec fn is_stable_sort<T>(out: Seq<T>, inp: Seq<T>, key: spec_fn(T) -> int) -> bool {
    exists|idx: Seq<int>| sorted_by_with(out, inp, key, idx)
}

/// Inserting the next element of the input after every element of no greater key keeps the
/// result a stable sort of the longer input.
pub proof fn lemma_insert_sorted<T>(
    out: Seq<T>,
    inp: Seq<T>,
    key: spec_fn(T) -> int,
    idx: Seq<int>,
    p: int,
    x: T,
)
    requires
        sorted_by_with(out, inp, key, idx),
        0 <= p <= out.len(),
        forall|q: int| 0 <= q < p ==> key(#[trigger] out[q]) <= key(x),
        forall|q: int| p <= q < out.len() ==> key(#[trigger] out[q]) > key(x),
    ensures
        sorted_by_with(out.insert(p, x), inp.push(x), key, idx.insert(p, inp.len() as int)),
{
    let out2 = out.insert(p, x);
    let inp2 = inp.push(x);
    let idx2 = idx.insert(p, inp.len() as int);
    assert forall|i: int| 0 <= i < idx2.len() implies 0 <= #[trigger] idx2[i] < inp2.len()
        && out2[i] == inp2[idx2[i]] by {
        if i < p {
            assert(idx2[i] == idx[i]);
        } else if i > p {
            assert(idx2[i] == idx[i - 1]);
        }
    }
    assert forall|i: int, j: int| 0 <= i < j < idx2.len() implies idx2[i] != idx2[j] by {
        if i < p && j > p {
            assert(idx2[j] == idx[j - 1]);
        } else if i > p {
            assert(idx2[i] == idx[i - 1] && idx2[j] == idx[j - 1]);
        } else if j < p {
        } else if i == p {
            assert(idx2[j] == idx[j - 1]);
        } else {
            assert(idx2[i] == idx[i]);
        }
    }
    assert forall|i: int, j: int| 0 <= i < j < out2.len() implies key(#[trigger] out2[i]) < key(
        #[trigger] out2[j],
    ) || (key(out2[i]) == key(out2[j]) && idx2[i] < idx2[j]) by {
        if j < p {
            assert(out2[i] == out[i] && out2[j] == out[j]);
        } else if j == p {
            assert(out2[i] == out[i]);
            assert(key(out[i]) <= key(x));
        } else if i < p {
            assert(out2[i] == out[i] && out2[j] == out[j - 1]);
            assert(key(out[i]) <= key(x));
            assert(key(out[j - 1]) > key(x));
        } else if i == p {
            assert(out2[j] == out[j - 1]);
            assert(key(out[j - 1]) > key(x));
        } else {
            assert(out2[i] == out[i - 1] && out2[j] == out[j - 1]);
            assert(key(out[i - 1]) < key(out[j - 1]) || (key(out[i - 1]) == key(out[j - 1])
                && idx[i - 1] < idx[j - 1]));
        }
    }
}

} // verus!
