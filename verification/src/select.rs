//! Selecting positions of a sequence: the positions, in ascending order, at
//! which a test holds. Term positions, first occurrences and pending
//! documents are all selections of this kind.

use vstd::prelude::*;

verus! {

/// The positions `0, 1, .., n - 1`.
pub open spec fn positions_up_to(n: int) -> Seq<int> {
    Seq::new(n as nat, |i: int| i)
}

/// Whether a sequence of integers is strictly ascending.
pub open spec fn strictly_ascending(positions: Seq<int>) -> bool {
    forall|j: int, k: int| 0 <= j < k < positions.len() ==> positions[j] < positions[k]
}

/// The test on positions of `items` that holds where the item passes
/// `keep`.
pub open spec fn passes_at<A>(items: Seq<A>, keep: spec_fn(A) -> bool) -> spec_fn(int) -> bool {
    |i: int| keep(items[i])
}

/// The item at a position of `items`.
pub open spec fn item_at<A>(items: Seq<A>) -> spec_fn(int) -> A {
    |i: int| items[i]
}

/// Selecting from one more position appends that position if it is
/// selected, and changes nothing otherwise.
pub proof fn lemma_select_step(select: spec_fn(int) -> bool, n: int)
    requires
        0 <= n,
    ensures
        positions_up_to(n + 1).filter(select) == if select(n) {
            positions_up_to(n).filter(select).push(n)
        } else {
            positions_up_to(n).filter(select)
        },
{
    assert(positions_up_to(n + 1) =~= positions_up_to(n).push(n));
    positions_up_to(n).lemma_filter_push(n, select);
}

/// The positions selected below `n` are below `n`, selected and strictly
/// ascending, and every selected position below `n` is among them.
pub proof fn lemma_selected(select: spec_fn(int) -> bool, n: int)
    requires
        0 <= n,
    ensures
        forall|k: int|
            0 <= k < positions_up_to(n).filter(select).len() ==> {
                let p = #[trigger] positions_up_to(n).filter(select)[k];
                0 <= p < n && select(p)
            },
        strictly_ascending(positions_up_to(n).filter(select)),
        forall|p: int| 0 <= p < n && select(p) ==> positions_up_to(n).filter(select).contains(p),
        positions_up_to(n).filter(select).len() <= n,
    decreases n,
{
    if n == 0 {
        reveal(Seq::filter);
        assert(positions_up_to(0).filter(select) =~= Seq::<int>::empty());
    } else {
        lemma_selected(select, n - 1);
        lemma_select_step(select, n - 1);
        let shorter = positions_up_to(n - 1).filter(select);
        let longer = positions_up_to(n).filter(select);
        assert forall|p: int| 0 <= p < n && select(p) implies longer.contains(p) by {
            if p == n - 1 {
                assert(longer[longer.len() - 1] == p);
            } else {
                assert(shorter.contains(p));
                let k = choose|k: int| 0 <= k < shorter.len() && shorter[k] == p;
                assert(longer[k] == p);
            }
        }
    }
}

/// Two strictly ascending sequences with the same elements are equal.
pub proof fn lemma_ascending_equal(a: Seq<int>, b: Seq<int>)
    requires
        strictly_ascending(a),
        strictly_ascending(b),
        forall|x: int| a.contains(x) <==> b.contains(x),
    ensures
        a == b,
    decreases a.len(),
{
    if a.len() == 0 {
        if b.len() > 0 {
            assert(b.contains(b[0]));
        }
        assert(a =~= b);
    } else {
        let top = a.last();
        assert(a.contains(top));
        assert(b.contains(top));
        let at = choose|k: int| 0 <= k < b.len() && b[k] == top;
        if at < b.len() - 1 {
            assert(b.contains(b.last()));
            let back = choose|k: int| 0 <= k < a.len() && a[k] == b.last();
            assert(a[back] <= top);
        }
        assert(b.last() == top);
        let shorter_a = a.drop_last();
        let shorter_b = b.drop_last();
        assert forall|x: int| shorter_a.contains(x) <==> shorter_b.contains(x) by {
            if shorter_a.contains(x) {
                let k = choose|k: int| 0 <= k < shorter_a.len() && shorter_a[k] == x;
                assert(a[k] == x && x < top);
                assert(a.contains(x));
                let m = choose|m: int| 0 <= m < b.len() && b[m] == x;
                assert(shorter_b[m] == x);
            }
            if shorter_b.contains(x) {
                let k = choose|k: int| 0 <= k < shorter_b.len() && shorter_b[k] == x;
                assert(b[k] == x && x < top);
                assert(b.contains(x));
                let m = choose|m: int| 0 <= m < a.len() && a[m] == x;
                assert(shorter_a[m] == x);
            }
        }
        lemma_ascending_equal(shorter_a, shorter_b);
        assert(a =~= shorter_a.push(top));
        assert(b =~= shorter_b.push(top));
    }
}

/// Filtering the first `n` items of a sequence is selecting the positions
/// below `n` at which the item passes, and taking the items there.
pub proof fn lemma_filter_by_position<A>(items: Seq<A>, keep: spec_fn(A) -> bool, n: int)
    requires
        0 <= n <= items.len(),
    ensures
        items.take(n).filter(keep) == positions_up_to(n).filter(passes_at(items, keep)).map_values(
            item_at(items),
        ),
    decreases n,
{
    let selected = positions_up_to(n).filter(passes_at(items, keep));
    if n == 0 {
        reveal(Seq::filter);
        assert(items.take(0).filter(keep) =~= Seq::<A>::empty());
        assert(positions_up_to(0).filter(passes_at(items, keep)) =~= Seq::<int>::empty());
        assert(selected.map_values(item_at(items)) =~= Seq::<A>::empty());
    } else {
        lemma_filter_by_position(items, keep, n - 1);
        lemma_select_step(passes_at(items, keep), n - 1);
        assert(items.take(n) =~= items.take(n - 1).push(items[n - 1]));
        items.take(n - 1).lemma_filter_push(items[n - 1], keep);
        let shorter = positions_up_to(n - 1).filter(passes_at(items, keep));
        if keep(items[n - 1]) {
            assert(shorter.push(n - 1).map_values(item_at(items)) =~= shorter.map_values(
                item_at(items),
            ).push(items[n - 1]));
        }
    }
}

} // verus!
