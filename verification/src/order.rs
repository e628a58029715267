//! Stable sorting under an explicit ordering.
//!
//! Every ranking in this library is a stable sort: equal elements keep the
//! order they arrived in. The contract below says exactly that, so a ranking's
//! result is pinned down by its comparison and its input.

use vstd::prelude::*;

verus! {

/// `le` is a total preorder: reflexive, total and transitive.
pub open spec fn total_preorder<T>(le: spec_fn(T, T) -> bool) -> bool {
    &&& forall|a: T| #[trigger] le(a, a)
    &&& forall|a: T, b: T| #[trigger] le(a, b) || le(b, a)
    &&& forall|a: T, b: T, c: T| #[trigger] le(a, b) && #[trigger] le(b, c) ==> le(a, c)
}

/// `p` lists each index below `n` exactly once.
pub open spec fn is_permutation(p: Seq<int>, n: int) -> bool {
    &&& p.len() == n
    &&& forall|i: int| 0 <= i < p.len() ==> 0 <= #[trigger] p[i] < n
    &&& forall|i: int, j: int| 0 <= i < j < p.len() ==> #[trigger] p[i] != #[trigger] p[j]
}

/// `out` is `input` rearranged by `p`, in `le` order, with ties kept in
/// their original order.
pub open spec fn stable_arrangement<T>(
    out: Seq<T>,
    input: Seq<T>,
    p: Seq<int>,
    le: spec_fn(T, T) -> bool,
) -> bool {
    &&& is_permutation(p, input.len() as int)
    &&& out.len() == input.len()
    &&& forall|i: int| 0 <= i < out.len() ==> #[trigger] out[i] == input[p[i]]
    &&& forall|i: int, j: int|
        0 <= i < j < out.len() ==> le(#[trigger] out[i], #[trigger] out[j]) && (le(out[j], out[i])
            ==> p[i] < p[j])
}

/// `out` is the stable sort of `input` under `le`.
pub open spec fn stable_sorted<T>(out: Seq<T>, input: Seq<T>, le: spec_fn(T, T) -> bool) -> bool {
    exists|p: Seq<int>| stable_arrangement(out, input, p, le)
}

/// Sort stably: `before(a, b)` says whether `a` must come strictly before `b`.
pub fn sort_stable<T, F: Fn(&T, &T) -> bool>(
    input: Vec<T>,
    Ghost(le): Ghost<spec_fn(T, T) -> bool>,
    before: F,
) -> (out: Vec<T>)
    requires
        total_preorder(le),
        forall|a: &T, b: &T| #[trigger] before.requires((a, b)),
        forall|a: &T, b: &T, r: bool| #[trigger] before.ensures((a, b), r) ==> r == !le(*b, *a),
    ensures
        stable_sorted(out@, input@, le),
{
    let ghost orig = input@;
    let mut rest = input;
    let mut out: Vec<T> = Vec::new();
    let ghost mut p: Seq<int> = Seq::empty();
    let mut taken: usize = 0;
    let total = rest.len();
    while rest.len() > 0
        invariant
            total == orig.len(),
            total_preorder(le),
            forall|a: &T, b: &T| #[trigger] before.requires((a, b)),
            forall|a: &T, b: &T, r: bool| #[trigger] before.ensures((a, b), r) ==> r == !le(*b, *a),
            taken <= orig.len(),
            rest@ == orig.subrange(taken as int, orig.len() as int),
            p.len() == out@.len(),
            out@.len() == taken,
            forall|i: int| 0 <= i < p.len() ==> 0 <= #[trigger] p[i] < taken,
            forall|i: int, j: int| 0 <= i < j < p.len() ==> #[trigger] p[i] != #[trigger] p[j],
            forall|i: int| 0 <= i < out@.len() ==> #[trigger] out@[i] == orig[p[i]],
            forall|i: int, j: int|
                0 <= i < j < out@.len() ==> le(#[trigger] out@[i], #[trigger] out@[j]) && (le(
                    out@[j],
                    out@[i],
                ) ==> p[i] < p[j]),
        decreases rest@.len(),
    {
        let x = rest.remove(0);
        let mut pos: usize = 0;
        while pos < out.len() && !before(&x, &out[pos])
            invariant
                total_preorder(le),
                forall|a: &T, b: &T| #[trigger] before.requires((a, b)),
                forall|a: &T, b: &T, r: bool| #[trigger] before.ensures((a, b), r) ==> r == !le(
                    *b,
                    *a,
                ),
                pos <= out@.len(),
                forall|k: int| 0 <= k < pos ==> le(#[trigger] out@[k], x),
            ensures
                pos <= out@.len(),
                forall|k: int| 0 <= k < pos ==> le(#[trigger] out@[k], x),
                pos < out@.len() ==> !le(out@[pos as int], x),
            decreases out@.len() - pos,
        {
            pos = pos + 1;
        }
        let ghost old_out = out@;
        let ghost old_p = p;
        out.insert(pos, x);
        proof {
            p = p.insert(pos as int, taken as int);
            assert(orig[taken as int] == x);
            assert forall|k: int| pos < k < out@.len() implies le(x, #[trigger] out@[k]) && !le(
                out@[k],
                x,
            ) by {
                assert(out@[k] == old_out[k - 1]);
                assert(le(old_out[pos as int], old_out[k - 1]));
                assert(le(old_out[pos as int], x) || le(x, old_out[pos as int]));
            }
            assert forall|i: int, j: int| 0 <= i < j < out@.len() implies le(
                #[trigger] out@[i],
                #[trigger] out@[j],
            ) && (le(out@[j], out@[i]) ==> p[i] < p[j]) by {
                if j < pos {
                    assert(out@[i] == old_out[i] && out@[j] == old_out[j]);
                    assert(p[i] == old_p[i] && p[j] == old_p[j]);
                } else if j == pos {
                    assert(out@[i] == old_out[i]);
                    assert(p[i] == old_p[i]);
                } else if i == pos {
                    assert(out@[j] == old_out[j - 1]);
                } else if i < pos {
                    assert(out@[i] == old_out[i] && out@[j] == old_out[j - 1]);
                    assert(p[i] == old_p[i] && p[j] == old_p[j - 1]);
                } else {
                    assert(out@[i] == old_out[i - 1] && out@[j] == old_out[j - 1]);
                    assert(p[i] == old_p[i - 1] && p[j] == old_p[j - 1]);
                }
            }
            assert forall|i: int| 0 <= i < out@.len() implies #[trigger] out@[i] == orig[p[i]] by {
                if i < pos {
                    assert(out@[i] == old_out[i] && p[i] == old_p[i]);
                } else if i > pos {
                    assert(out@[i] == old_out[i - 1] && p[i] == old_p[i - 1]);
                }
            }
            assert forall|i: int, j: int| 0 <= i < j < p.len() implies #[trigger] p[i]
                != #[trigger] p[j] by {
                if i < pos && j < pos {
                    assert(p[i] == old_p[i] && p[j] == old_p[j]);
                } else if i < pos && j > pos {
                    assert(p[i] == old_p[i] && p[j] == old_p[j - 1]);
                } else if i > pos && j > pos {
                    assert(p[i] == old_p[i - 1] && p[j] == old_p[j - 1]);
                } else if i == pos {
                    assert(p[j] == old_p[j - 1]);
                } else {
                    assert(p[i] == old_p[i]);
                }
            }
            assert forall|i: int| 0 <= i < p.len() implies 0 <= #[trigger] p[i] < taken + 1 by {
                if i < pos {
                    assert(p[i] == old_p[i]);
                } else if i > pos {
                    assert(p[i] == old_p[i - 1]);
                }
            }
            assert(rest@ =~= orig.subrange(taken + 1, orig.len() as int));
        }
        taken = taken + 1;
    }
    proof {
        assert(stable_arrangement(out@, orig, p, le));
    }
    out
}

/// A permutation of `0..n` reaches every index.
pub proof fn lemma_permutation_onto(p: Seq<int>, n: int, j: int)
    requires
        is_permutation(p, n),
        0 <= j < n,
    ensures
        exists|k: int| 0 <= k < p.len() && #[trigger] p[k] == j,
{
    broadcast use vstd::seq_lib::seq_to_set_is_finite;

    assert(p.no_duplicates()) by {
        assert forall|a: int, b: int| 0 <= a < p.len() && 0 <= b < p.len() && a != b implies p[a]
            != p[b] by {
            if a < b {
                assert(p[a] != p[b]);
            } else {
                assert(p[b] != p[a]);
            }
        }
    }
    p.unique_seq_to_set();
    vstd::set_lib::lemma_int_range(0, n);
    let range = vstd::set_lib::set_int_range(0, n);
    assert(p.to_set().subset_of(range)) by {
        assert forall|x: int| p.to_set().contains(x) implies range.contains(x) by {
            let k = choose|k: int| 0 <= k < p.len() && p[k] == x;
            assert(0 <= p[k] < n);
        }
    }
    vstd::set_lib::lemma_subset_equality(p.to_set(), range);
    assert(range.contains(j));
    assert(p.to_set().contains(j));
}

/// The first element of a stable sort is the least element of the input,
/// the earliest of those that tie for least.
pub proof fn lemma_stable_first<T>(out: Seq<T>, input: Seq<T>, le: spec_fn(T, T) -> bool)
    requires
        total_preorder(le),
        stable_sorted(out, input, le),
        out.len() > 0,
    ensures
        exists|i: int|
            0 <= i < input.len() && out[0] == input[i] && forall|j: int|
                0 <= j < input.len() ==> le(input[i], #[trigger] input[j]) && (j < i ==> !le(
                    input[j],
                    input[i],
                )),
{
    let p = choose|p: Seq<int>| stable_arrangement(out, input, p, le);
    let i = p[0];
    assert(out[0] == input[i]);
    assert forall|j: int| 0 <= j < input.len() implies le(input[i], #[trigger] input[j]) && (j < i
        ==> !le(input[j], input[i])) by {
        lemma_permutation_onto(p, input.len() as int, j);
        let k = choose|k: int| 0 <= k < p.len() && #[trigger] p[k] == j;
        if k > 0 {
            assert(le(out[0], out[k]));
            assert(out[k] == input[j]);
        } else {
            assert(le(input[i], input[i]));
        }
    }
}

/// The last element of a stable sort is the greatest element of the input,
/// the latest of those that tie for greatest.
pub proof fn lemma_stable_last<T>(out: Seq<T>, input: Seq<T>, le: spec_fn(T, T) -> bool)
    requires
        total_preorder(le),
        stable_sorted(out, input, le),
        out.len() > 0,
    ensures
        exists|i: int|
            0 <= i < input.len() && out[out.len() - 1] == input[i] && forall|j: int|
                0 <= j < input.len() ==> le(#[trigger] input[j], input[i]) && (j > i ==> !le(
                    input[i],
                    input[j],
                )),
{
    let p = choose|p: Seq<int>| stable_arrangement(out, input, p, le);
    let last = out.len() - 1;
    let i = p[last];
    assert(out[last] == input[i]);
    assert forall|j: int| 0 <= j < input.len() implies le(#[trigger] input[j], input[i]) && (j > i
        ==> !le(input[i], input[j])) by {
        lemma_permutation_onto(p, input.len() as int, j);
        let k = choose|k: int| 0 <= k < p.len() && #[trigger] p[k] == j;
        if k < last {
            assert(le(out[k], out[last]));
            assert(out[k] == input[j]);
        } else {
            assert(le(input[i], input[i]));
        }
    }
}

/// Every element of a sorted output came from the input.
pub proof fn lemma_sorted_member<T>(out: Seq<T>, input: Seq<T>, le: spec_fn(T, T) -> bool, j: int)
    requires
        stable_sorted(out, input, le),
        0 <= j < out.len(),
    ensures
        exists|i: int| 0 <= i < input.len() && out[j] == #[trigger] input[i],
{
    let p = choose|p: Seq<int>| stable_arrangement(out, input, p, le);
    assert(out[j] == input[p[j]]);
}

} // verus!
