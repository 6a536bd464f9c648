use vstd::prelude::*;
use vstd::relations::*;
use vstd::seq_lib::*;

verus! {

/// Returns a copy of `v` sorted by the total order `leq`, which `le` decides.
///
/// The result is the one sequence that is sorted by `leq` and holds the same
/// elements as `v`, that is `v@.sort_by(leq)`.
pub(crate) fn sorted_copy<T: Copy, F: Fn(T, T) -> bool>(
    v: &[T],
    le: F,
    Ghost(leq): Ghost<spec_fn(T, T) -> bool>,
) -> (r: Vec<T>)
    requires
        total_ordering(leq),
        forall|a: T, b: T| #[trigger] le.requires((a, b)),
        forall|a: T, b: T, x: bool| le.ensures((a, b), x) ==> x == leq(a, b),
    ensures
        r@ == v@.sort_by(leq),
        r@.to_multiset() == v@.to_multiset(),
        sorted_by(r@, leq),
{
    broadcast use group_to_multiset_ensures;

    let mut out: Vec<T> = Vec::new();
    let mut i: usize = 0;
    while i < v.len()
        invariant
            i <= v.len(),
            total_ordering(leq),
            forall|a: T, b: T| #[trigger] le.requires((a, b)),
            forall|a: T, b: T, x: bool| le.ensures((a, b), x) ==> x == leq(a, b),
            sorted_by(out@, leq),
            out@.to_multiset() == v@.subrange(0, i as int).to_multiset(),
        decreases v.len() - i,
    {
        let x = v[i];
        let mut pos: usize = 0;
        while pos < out.len() && le(out[pos], x)
            invariant
                pos <= out.len(),
                forall|a: T, b: T| #[trigger] le.requires((a, b)),
                forall|a: T, b: T, x: bool| le.ensures((a, b), x) ==> x == leq(a, b),
                forall|k: int| 0 <= k < pos ==> leq(#[trigger] out@[k], x),
            decreases out.len() - pos,
        {
            pos = pos + 1;
        }
        proof {
            if pos < out.len() {
                assert(!leq(out@[pos as int], x));
                assert(leq(x, out@[pos as int]));
                assert forall|k: int| pos <= k < out@.len() implies leq(x, #[trigger] out@[k]) by {
                    if k > pos {
                        assert(leq(out@[pos as int], out@[k]));
                    }
                }
            }
        }
        let ghost old_out = out@;
        out.insert(pos, x);
        proof {
            assert(out@ == old_out.insert(pos as int, x));
            to_multiset_insert(old_out, pos as int, x);
            assert(v@.subrange(0, i as int + 1) =~= v@.subrange(0, i as int).push(x));
            to_multiset_build(v@.subrange(0, i as int), x);
            assert(out@.to_multiset() == v@.subrange(0, i as int + 1).to_multiset());
            assert forall|a: int, b: int| 0 <= a < b < out@.len() implies leq(
                #[trigger] out@[a],
                #[trigger] out@[b],
            ) by {
                if a < pos && b > pos {
                    assert(out@[a] == old_out[a]);
                    assert(out@[b] == old_out[b - 1]);
                } else if a < pos && b < pos {
                } else if a == pos {
                } else if b == pos {
                } else {
                    assert(out@[a] == old_out[a - 1]);
                    assert(out@[b] == old_out[b - 1]);
                }
            }
        }
        i = i + 1;
    }
    proof {
        assert(v@.subrange(0, v@.len() as int) =~= v@);
        v@.lemma_sort_by_ensures(leq);
        lemma_sorted_unique(out@, v@.sort_by(leq), leq);
    }
    out
}

} // verus!
