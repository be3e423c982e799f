//! Lists of indices kept from the largest to the smallest, each once.

use vstd::prelude::*;

verus! {

/// Whether each element of `list` is larger than all that follow it.
pub open spec fn strictly_descending(list: Seq<usize>) -> bool {
    forall|i: int, j: int| 0 <= i < j < list.len() ==> list[i] > list[j]
}

/// Whether `list` holds the elements of `set`, from the largest to the
/// smallest, each once.
pub open spec fn lists_descending(list: Seq<usize>, set: Set<usize>) -> bool {
    &&& strictly_descending(list)
    &&& forall|g: usize| list.contains(g) <==> set.contains(g)
}

/// The elements of `set` from the largest to the smallest.
pub open spec fn descending_listing(set: Set<usize>) -> Seq<usize> {
    choose|list: Seq<usize>| lists_descending(list, set)
}

/// A set has at most one descending listing.
pub proof fn lemma_listing_unique(a: Seq<usize>, b: Seq<usize>, set: Set<usize>)
    requires
        lists_descending(a, set),
        lists_descending(b, set),
    ensures
        a == b,
    decreases a.len(),
{
    if a.len() == 0 {
        if b.len() > 0 {
            assert(b.contains(b[0]));
            assert(a.contains(b[0]));
        }
        assert(a =~= b);
    } else {
        assert(a.contains(a[0]));
        assert(b.contains(a[0]));
        assert(b.contains(b[0]));
        assert(a.contains(b[0]));
        assert(a[0] == b[0]);
        let rest = set.remove(a[0]);
        lemma_rest_lists_rest(a, set);
        lemma_rest_lists_rest(b, set);
        lemma_listing_unique(a.drop_first(), b.drop_first(), rest);
        assert(a =~= seq![a[0]] + a.drop_first());
        assert(b =~= seq![b[0]] + b.drop_first());
    }
}

/// Without its first element, a descending listing lists the set without
/// its largest element.
proof fn lemma_rest_lists_rest(list: Seq<usize>, set: Set<usize>)
    requires
        lists_descending(list, set),
        list.len() > 0,
    ensures
        lists_descending(list.drop_first(), set.remove(list[0])),
{
    let rest = list.drop_first();
    assert forall|g: usize| rest.contains(g) <==> set.remove(list[0]).contains(g) by {
        if rest.contains(g) {
            let i = choose|i: int| 0 <= i < rest.len() && rest[i] == g;
            assert(list[i + 1] == g);
            assert(list.contains(g));
        }
        if set.remove(list[0]).contains(g) {
            assert(list.contains(g));
            let i = choose|i: int| 0 <= i < list.len() && list[i] == g;
            assert(rest[i - 1] == g);
        }
    }
}

/// A set of indices below `bound` has a descending listing.
proof fn lemma_listing_below(set: Set<usize>, bound: nat) -> (list: Seq<usize>)
    requires
        forall|g: usize| set.contains(g) ==> g < bound,
    ensures
        lists_descending(list, set),
    decreases bound,
{
    if bound == 0 {
        let list = Seq::<usize>::empty();
        assert forall|g: usize| list.contains(g) <==> set.contains(g) by {}
        list
    } else if bound - 1 > usize::MAX {
        lemma_listing_below(set, (bound - 1) as nat)
    } else {
        let top = (bound - 1) as usize;
        let rest = lemma_listing_below(set.remove(top), (bound - 1) as nat);
        if set.contains(top) {
            let list = seq![top] + rest;
            assert forall|i: int, j: int| 0 <= i < j < list.len() implies list[i] > list[j] by {
                assert(rest.contains(list[j]));
                if i > 0 {
                    assert(list[i] == rest[i - 1] && list[j] == rest[j - 1]);
                }
            }
            assert forall|g: usize| list.contains(g) <==> set.contains(g) by {
                if list.contains(g) {
                    let i = choose|i: int| 0 <= i < list.len() && list[i] == g;
                    if i > 0 {
                        assert(rest[i - 1] == g);
                        assert(rest.contains(g));
                    }
                }
                if set.contains(g) {
                    if g == top {
                        assert(list[0] == g);
                    } else {
                        assert(rest.contains(g));
                        let i = choose|i: int| 0 <= i < rest.len() && rest[i] == g;
                        assert(list[i + 1] == g);
                    }
                }
            }
            list
        } else {
            assert(set.remove(top) =~= set);
            rest
        }
    }
}

/// `descending_listing` lists its set, and nothing else does.
pub proof fn lemma_descending_listing(set: Set<usize>)
    ensures
        lists_descending(descending_listing(set), set),
        forall|list: Seq<usize>| lists_descending(list, set) ==> list == descending_listing(set),
{
    let witness = lemma_listing_below(set, (usize::MAX + 1) as nat);
    assert(lists_descending(witness, set));
    assert forall|list: Seq<usize>| lists_descending(list, set) implies list == descending_listing(
        set,
    ) by {
        lemma_listing_unique(list, descending_listing(set), set);
    }
}

/// Puts `value` into a descending list at its place, unless it is there.
pub(crate) fn insert_descending(list: &mut Vec<usize>, value: usize)
    requires
        strictly_descending(old(list)@),
    ensures
        strictly_descending(final(list)@),
        forall|g: usize| final(list)@.contains(g) <==> (old(list)@.contains(g) || g == value),
{
    let mut at: usize = 0;
    while at < list.len() && list[at] > value
        invariant
            at <= list.len(),
            *list == *old(list),
            forall|i: int| 0 <= i < at ==> list@[i] > value,
        decreases list.len() - at,
    {
        at += 1;
    }
    let ghost before = list@;
    if at < list.len() && list[at] == value {
        assert(before.contains(value));
        return;
    }
    list.insert(at, value);
    proof {
        let after = list@;
        assert(after == before.insert(at as int, value));
        assert forall|i: int, j: int| 0 <= i < j < after.len() implies after[i] > after[j] by {
            if j < at {
                assert(after[i] == before[i] && after[j] == before[j]);
            } else if j == at {
                assert(after[i] == before[i]);
            } else if i < at {
                assert(after[i] == before[i] && after[j] == before[j - 1]);
            } else if i == at {
                assert(after[j] == before[j - 1]);
                assert(before[at as int] <= value);
                if j - 1 > at {
                    assert(before[at as int] > before[j - 1]);
                }
            } else {
                assert(after[i] == before[i - 1] && after[j] == before[j - 1]);
            }
        }
        assert forall|g: usize| after.contains(g) <==> (before.contains(g) || g == value) by {
            if after.contains(g) {
                let i = choose|i: int| 0 <= i < after.len() && after[i] == g;
                if i < at {
                    assert(before[i] == g);
                } else if i > at {
                    assert(before[i - 1] == g);
                }
            }
            if before.contains(g) {
                let i = choose|i: int| 0 <= i < before.len() && before[i] == g;
                if i < at {
                    assert(after[i] == g);
                } else {
                    assert(after[i + 1] == g);
                }
            }
            if g == value {
                assert(after[at as int] == g);
            }
        }
    }
}

} // verus!
