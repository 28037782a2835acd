//! Digraphs (ordered pairs of consecutive keys) and their order.

use vstd::prelude::*;

verus! {

/// Two consecutive keys, in the order they were struck.
pub type Digraph = (char, char);

/// The order on digraphs: by first key, then by second.
pub open spec fn digraph_lt(a: Digraph, b: Digraph) -> bool {
    a.0 < b.0 || (a.0 == b.0 && a.1 < b.1)
}

/// Whether `keys` rise strictly in the digraph order.
pub open spec fn ascending(keys: Seq<Digraph>) -> bool {
    forall|i: int, j: int|
        0 <= i < j < keys.len() ==> digraph_lt(#[trigger] keys[i], #[trigger] keys[j])
}

/// Decides the digraph order.
pub fn digraph_before(a: Digraph, b: Digraph) -> (before: bool)
    ensures
        before == digraph_lt(a, b),
{
    a.0 < b.0 || (a.0 == b.0 && a.1 < b.1)
}

/// Decides whether two digraphs are the same.
pub fn same_digraph(a: Digraph, b: Digraph) -> (same: bool)
    ensures
        same == (a == b),
{
    a.0 == b.0 && a.1 == b.1
}

/// Two sequences that rise strictly and hold the same digraphs are equal.
pub proof fn lemma_ascending_unique(a: Seq<Digraph>, b: Seq<Digraph>)
    requires
        ascending(a),
        ascending(b),
        a.to_set() == b.to_set(),
    ensures
        a == b,
    decreases a.len(),
{
    if a.len() == 0 {
        if b.len() > 0 {
            assert(b.to_set().contains(b[0]));
            assert(a.contains(b[0]));
        }
        assert(a =~= b);
    } else {
        let x = a.last();
        assert(a.to_set().contains(x));
        assert(b.contains(x));
        let k = choose|k: int| 0 <= k < b.len() && b[k] == x;
        // nothing in `b` lies above `x`
        if k < b.len() - 1 {
            let y = b.last();
            assert(b.to_set().contains(y));
            assert(a.contains(y));
            let m = choose|m: int| 0 <= m < a.len() && a[m] == y;
            assert(digraph_lt(b[k], b[b.len() - 1]));
            if m < a.len() - 1 {
                assert(digraph_lt(a[m], a[a.len() - 1]));
            }
            assert(false);
        }
        assert(b.last() == x);
        assert forall|d: Digraph| a.drop_last().to_set().contains(d) == b.drop_last().to_set().contains(
            d,
        ) by {
            if a.drop_last().contains(d) {
                let i = choose|i: int| 0 <= i < a.drop_last().len() && a.drop_last()[i] == d;
                assert(digraph_lt(a[i], a[a.len() - 1]));
                assert(a.to_set().contains(a[i]));
                assert(b.contains(d));
                let j = choose|j: int| 0 <= j < b.len() && b[j] == d;
                assert(b.drop_last()[j] == d);
            }
            if b.drop_last().contains(d) {
                let i = choose|i: int| 0 <= i < b.drop_last().len() && b.drop_last()[i] == d;
                assert(digraph_lt(b[i], b[b.len() - 1]));
                assert(b.to_set().contains(b[i]));
                assert(a.contains(d));
                let j = choose|j: int| 0 <= j < a.len() && a[j] == d;
                assert(a.drop_last()[j] == d);
            }
        }
        assert(a.drop_last().to_set() =~= b.drop_last().to_set());
        lemma_ascending_unique(a.drop_last(), b.drop_last());
        assert(a =~= a.drop_last().push(x));
        assert(b =~= b.drop_last().push(x));
    }
}

} // verus!
