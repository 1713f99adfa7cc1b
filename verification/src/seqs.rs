//! Facts about sequences that several modules use.

use vstd::prelude::*;

verus! {

/// The first index at which `pred` holds, or the length where it holds nowhere.
pub open spec fn first_index<A>(s: Seq<A>, pred: spec_fn(A) -> bool) -> int
    decreases s.len(),
{
    if s.len() == 0 {
        0
    } else if pred(s[0]) {
        0
    } else {
        1 + first_index(s.drop_first(), pred)
    }
}

/// What `first_index` says: nothing before it satisfies `pred`, and it does itself unless it is
/// the length.
pub proof fn lemma_first_index<A>(s: Seq<A>, pred: spec_fn(A) -> bool)
    ensures
        0 <= first_index(s, pred) <= s.len(),
        forall|j: int| 0 <= j < first_index(s, pred) ==> !pred(#[trigger] s[j]),
        first_index(s, pred) < s.len() ==> pred(s[first_index(s, pred)]),
    decreases s.len(),
{
    if s.len() > 0 && !pred(s[0]) {
        let rest = s.drop_first();
        lemma_first_index(rest, pred);
        assert forall|j: int| 0 <= j < first_index(s, pred) implies !pred(#[trigger] s[j]) by {
            if j > 0 {
                assert(s[j] == rest[j - 1]);
            }
        }
    }
}

/// An index before which nothing satisfies `pred`, and at which either the sequence ends or
/// `pred` holds, is the first index.
pub proof fn lemma_first_index_is<A>(s: Seq<A>, pred: spec_fn(A) -> bool, i: int)
    requires
        0 <= i <= s.len(),
        forall|j: int| 0 <= j < i ==> !pred(#[trigger] s[j]),
        i < s.len() ==> pred(s[i]),
    ensures
        first_index(s, pred) == i,
{
    lemma_first_index(s, pred);
    let k = first_index(s, pred);
    if k < i {
        assert(!pred(s[k]));
    } else if i < k {
        assert(!pred(s[i]));
    }
}

/// Filtering a sequence with one more element.
pub proof fn lemma_filter_push<A>(s: Seq<A>, pred: spec_fn(A) -> bool, last: A)
    ensures
        s.push(last).filter(pred) == if pred(last) {
            s.filter(pred).push(last)
        } else {
            s.filter(pred)
        },
{
    reveal(Seq::filter);
    assert(s.push(last).drop_last() =~= s);
}

/// Taking one more element and then filtering.
pub proof fn lemma_filter_take<A>(s: Seq<A>, pred: spec_fn(A) -> bool, i: int)
    requires
        0 <= i < s.len(),
    ensures
        s.take(i + 1).filter(pred) == if pred(s[i]) {
            s.take(i).filter(pred).push(s[i])
        } else {
            s.take(i).filter(pred)
        },
{
    lemma_filter_push(s.take(i), pred, s[i]);
    assert(s.take(i).push(s[i]) =~= s.take(i + 1));
}

/// Each element of a filtered sequence is an element of the sequence and satisfies the predicate,
/// and each element that satisfies it stays.
pub proof fn lemma_filter_members<A>(s: Seq<A>, pred: spec_fn(A) -> bool)
    ensures
        forall|i: int|
            0 <= i < s.filter(pred).len() ==> s.contains(#[trigger] s.filter(pred)[i]) && pred(
                s.filter(pred)[i],
            ),
        forall|i: int| 0 <= i < s.len() && pred(s[i]) ==> s.filter(pred).contains(#[trigger] s[i]),
        s.filter(pred).len() <= s.len(),
    decreases s.len(),
{
    reveal(Seq::filter);
    if s.len() > 0 {
        let front = s.drop_last();
        lemma_filter_members(front, pred);
        let kept = s.filter(pred);
        assert forall|i: int| 0 <= i < kept.len() implies s.contains(#[trigger] kept[i]) && pred(
            kept[i],
        ) by {
            if i < front.filter(pred).len() {
                assert(kept[i] == front.filter(pred)[i]);
                let j = choose|j: int| 0 <= j < front.len() && front[j] == kept[i];
                assert(s[j] == kept[i]);
            } else {
                assert(kept[i] == s[s.len() - 1]);
            }
        }
        assert forall|i: int| 0 <= i < s.len() && pred(s[i]) implies kept.contains(
            #[trigger] s[i],
        ) by {
            if i < front.len() {
                assert(front[i] == s[i]);
                let j = choose|j: int|
                    0 <= j < front.filter(pred).len() && front.filter(pred)[j] == s[i];
                assert(kept[j] == s[i]);
            } else {
                assert(kept[kept.len() - 1] == s[i]);
            }
        }
    }
}

/// Whether no two elements have the same key.
pub open spec fn distinct_keys<A, K>(s: Seq<A>, key: spec_fn(A) -> K) -> bool {
    forall|i: int, j: int|
        0 <= i < j < s.len() ==> key(#[trigger] s[i]) != key(#[trigger] s[j])
}

/// Filtering keeps keys distinct.
pub proof fn lemma_filter_distinct<A, K>(s: Seq<A>, key: spec_fn(A) -> K, pred: spec_fn(A) -> bool)
    requires
        distinct_keys(s, key),
    ensures
        distinct_keys(s.filter(pred), key),
    decreases s.len(),
{
    reveal(Seq::filter);
    if s.len() > 0 {
        let front = s.drop_last();
        lemma_filter_distinct(front, key, pred);
        lemma_filter_members(front, pred);
        let kept = s.filter(pred);
        assert forall|i: int, j: int| 0 <= i < j < kept.len() implies key(#[trigger] kept[i])
            != key(#[trigger] kept[j]) by {
            if j < front.filter(pred).len() {
                assert(kept[i] == front.filter(pred)[i]);
                assert(kept[j] == front.filter(pred)[j]);
            } else {
                assert(kept[i] == front.filter(pred)[i]);
                let k = choose|k: int| 0 <= k < front.len() && front[k] == kept[i];
                assert(s[k] == kept[i]);
                assert(kept[j] == s[s.len() - 1]);
            }
        }
    }
}

/// A sequence of which the first `seen` elements were filtered in place.
pub open spec fn part_filtered<A>(all: Seq<A>, keep: spec_fn(A) -> bool, seen: int) -> Seq<A> {
    all.take(seen).filter(keep) + all.skip(seen)
}

/// Filtering in place, one element further: it stays where it is, or is taken out.
pub proof fn lemma_part_filtered<A>(all: Seq<A>, keep: spec_fn(A) -> bool, seen: int)
    requires
        0 <= seen < all.len(),
    ensures
        ({
            let kept = all.take(seen).filter(keep).len() as int;
            let now = part_filtered(all, keep, seen);
            let next = part_filtered(all, keep, seen + 1);
            &&& kept < now.len()
            &&& now[kept] == all[seen]
            &&& keep(all[seen]) ==> next == now && all.take(seen + 1).filter(keep).len() == kept + 1
            &&& !keep(all[seen]) ==> next == now.remove(kept) && all.take(seen + 1).filter(
                keep,
            ).len() == kept
        }),
{
    let kept = all.take(seen).filter(keep);
    let now = part_filtered(all, keep, seen);
    let next = part_filtered(all, keep, seen + 1);
    lemma_filter_take(all, keep, seen);
    assert(now[kept.len() as int] == all[seen]);
    if keep(all[seen]) {
        assert(next =~= now);
    } else {
        assert(next =~= now.remove(kept.len() as int));
    }
}

/// Filtering in place starts with the whole sequence, and ends with the filtered one.
pub proof fn lemma_part_filtered_ends<A>(all: Seq<A>, keep: spec_fn(A) -> bool)
    ensures
        part_filtered(all, keep, 0) == all,
        all.take(0).filter(keep).len() == 0,
        part_filtered(all, keep, all.len() as int) == all.filter(keep),
{
    reveal(Seq::filter);
    assert(part_filtered(all, keep, 0) =~= all);
    assert(all.take(all.len() as int) =~= all);
    assert(part_filtered(all, keep, all.len() as int) =~= all.filter(keep));
}

} // verus!
