//! Sets of numbers, listed from the smallest to the largest.

use vstd::prelude::*;
use vstd::laws_cmp::obeys_cmp;
use vstd::std_specs::btree::axiom_increasing_seq_meaning;
use vstd::std_specs::btree::increasing_seq;
use vstd::std_specs::cmp::OrdSpec;

verus! {

/// Whether each number of the sequence is smaller than those after it.
pub open spec fn is_ascending(s: Seq<u64>) -> bool {
    forall|i: int, j: int| 0 <= i < j < s.len() ==> s[i] < s[j]
}

/// Whether `s` lists the numbers of `set`, each once, from the smallest to
/// the largest.
pub open spec fn lists_ascending(s: Seq<u64>, set: Set<u64>) -> bool {
    &&& is_ascending(s)
    &&& forall|x: u64| s.contains(x) <==> set.contains(x)
}

/// The numbers of a finite set, from the smallest to the largest.
pub open spec fn ascending(set: Set<u64>) -> Seq<u64> {
    choose|s: Seq<u64>| lists_ascending(s, set)
}

/// A set is listed in ascending order in one way only.
pub proof fn lemma_ascending_unique(a: Seq<u64>, b: Seq<u64>, set: Set<u64>)
    requires
        lists_ascending(a, set),
        lists_ascending(b, set),
    ensures
        a == b,
    decreases a.len(),
{
    if a.len() == 0 {
        if b.len() > 0 {
            assert(b.contains(b[0]));
            assert(a.contains(b[0]));
        }
        assert(a =~= b);
    } else {
        let top = a.last();
        assert(a.contains(top));
        assert(b.contains(top));
        assert(b.len() > 0);
        assert(b.contains(b.last()));
        assert(a.contains(b.last()));
        assert(b.last() == top);
        let rest = set.remove(top);
        assert forall|x: u64| a.drop_last().contains(x) <==> rest.contains(x) by {
            if a.drop_last().contains(x) {
                let i = choose|i: int| 0 <= i < a.drop_last().len() && a.drop_last()[i] == x;
                assert(a[i] == x);
                assert(a.contains(x));
            }
            if rest.contains(x) {
                assert(a.contains(x));
                let i = choose|i: int| 0 <= i < a.len() && a[i] == x;
                assert(a.drop_last()[i] == x);
            }
        }
        assert forall|x: u64| b.drop_last().contains(x) <==> rest.contains(x) by {
            if b.drop_last().contains(x) {
                let i = choose|i: int| 0 <= i < b.drop_last().len() && b.drop_last()[i] == x;
                assert(b[i] == x);
                assert(b.contains(x));
            }
            if rest.contains(x) {
                assert(b.contains(x));
                let i = choose|i: int| 0 <= i < b.len() && b[i] == x;
                assert(b.drop_last()[i] == x);
            }
        }
        lemma_ascending_unique(a.drop_last(), b.drop_last(), rest);
        assert(a =~= a.drop_last().push(top));
        assert(b =~= b.drop_last().push(top));
    }
}

/// A sequence that lists a set in ascending order is the ascending list of
/// the set.
pub proof fn lemma_ascending_is(s: Seq<u64>, set: Set<u64>)
    requires
        lists_ascending(s, set),
    ensures
        ascending(set) == s,
{
    lemma_ascending_unique(s, ascending(set), set);
}

/// In a sequence that a tree map counts as increasing, each key orders
/// before those after it.
proof fn lemma_increasing_orders<K: Ord>(s: Seq<K>, i: int, j: int)
    requires
        obeys_cmp::<K>(),
        increasing_seq(s),
        0 <= i < j < s.len(),
    ensures
        s[i].cmp_spec(&s[j]) is Less,
{
    axiom_increasing_seq_meaning::<K>(s);
}

/// A sequence of numbers that a tree map counts as increasing is ascending.
pub proof fn lemma_increasing_is_ascending(s: Seq<u64>)
    requires
        increasing_seq(s),
    ensures
        is_ascending(s),
{
    broadcast use vstd::laws_cmp::group_laws_cmp;

    assert forall|i: int, j: int| 0 <= i < j < s.len() implies s[i] < s[j] by {
        assert(obeys_cmp::<u64>());
        lemma_increasing_orders::<u64>(s, i, j);
    }
}

/// A finite set of numbers that is not empty has a largest number.
pub proof fn lemma_has_largest(set: Set<u64>)
    requires
        set.finite(),
        set.len() > 0,
    ensures
        exists|top: u64| set.contains(top) && forall|x: u64| set.contains(x) ==> x <= top,
    decreases set.len(),
{
    let x = set.choose();
    let rest = set.remove(x);
    if rest.len() == 0 {
        assert forall|y: u64| set.contains(y) implies y <= x by {
            if y != x {
                assert(rest.contains(y));
            }
        }
    } else {
        lemma_has_largest(rest);
        let other = choose|top: u64|
            rest.contains(top) && forall|y: u64| rest.contains(y) ==> y <= top;
        let top = if x <= other {
            other
        } else {
            x
        };
        assert forall|y: u64| set.contains(y) implies y <= top by {
            if y != x {
                assert(rest.contains(y));
            }
        }
    }
}

/// Every finite set of numbers can be listed in ascending order.
pub proof fn lemma_ascending_lists(set: Set<u64>)
    requires
        set.finite(),
    ensures
        lists_ascending(ascending(set), set),
    decreases set.len(),
{
    if set.len() == 0 {
        let s = Seq::<u64>::empty();
        assert forall|x: u64| s.contains(x) <==> set.contains(x) by {
            if set.contains(x) {
                assert(set.remove(x).len() >= 0);
            }
        }
        assert(lists_ascending(s, set));
    } else {
        lemma_has_largest(set);
        let top = choose|top: u64| set.contains(top) && forall|x: u64| set.contains(x) ==> x <= top;
        let rest = set.remove(top);
        lemma_ascending_lists(rest);
        let below = ascending(rest);
        let s = below.push(top);
        assert(is_ascending(s)) by {
            assert forall|i: int, j: int| 0 <= i < j < s.len() implies s[i] < s[j] by {
                if j == below.len() {
                    assert(below.contains(below[i]));
                    assert(rest.contains(below[i]));
                }
            }
        }
        assert forall|x: u64| s.contains(x) <==> set.contains(x) by {
            if s.contains(x) {
                let i = choose|i: int| 0 <= i < s.len() && s[i] == x;
                if i < below.len() {
                    assert(below.contains(below[i]));
                }
            }
            if set.contains(x) {
                if x == top {
                    assert(s[below.len() as int] == x);
                } else {
                    assert(rest.contains(x));
                    assert(below.contains(x));
                    let i = choose|i: int| 0 <= i < below.len() && below[i] == x;
                    assert(s[i] == x);
                }
            }
        }
        assert(lists_ascending(s, set));
    }
}

} // verus!
