//! The order of a log: the later day first, and entries of one date in the
//! order in which they were added. In the archive each batch is put in
//! that order by itself, and the marks between the batches stay where they
//! are.

use vstd::prelude::*;
use vstd::seq_lib::{
    lemma_multiset_commutative, to_multiset_build, to_multiset_contains, to_multiset_insert,
    to_multiset_len,
};
use crate::entry::{
    lemma_sum_hours_add, lemma_sum_hours_permutation, stands_before, sum_hours, views, Entry,
    EntryView,
};
use crate::text::{
    bytes_before, lemma_bytes_before_asymmetric, lemma_bytes_before_irreflexive,
    lemma_bytes_before_total, lemma_bytes_before_transitive,
};

verus! {

/// Newest first: no entry stands behind one that it stands before.
pub open spec fn newest_first(entries: Seq<EntryView>) -> bool {
    forall|i: int, j: int|
        0 <= i < j < entries.len() ==> !stands_before(
            #[trigger] entries[j].date,
            #[trigger] entries[i].date,
        )
}

/// What picks the entries of one date out of a list.
pub open spec fn date_is(date: Seq<u8>) -> spec_fn(EntryView) -> bool {
    |e: EntryView| e.date == date
}

/// The entries of one date, in the order in which the list holds them.
pub open spec fn with_date(entries: Seq<EntryView>, date: Seq<u8>) -> Seq<EntryView> {
    entries.filter(date_is(date))
}

/// `after` holds the entries of `before`, each as often as `before` does,
/// newest first, and those of one date in the order they had in `before`.
pub open spec fn is_sorted_form(before: Seq<EntryView>, after: Seq<EntryView>) -> bool {
    &&& after.len() == before.len()
    &&& after.to_multiset() == before.to_multiset()
    &&& newest_first(after)
    &&& forall|date: Seq<u8>| #[trigger] with_date(after, date) == with_date(before, date)
}

/// An entry that marks the end of a batch: its date is empty.
pub open spec fn is_mark(e: EntryView) -> bool {
    e.date.len() == 0
}

/// The place of the last mark in a list, or -1 where it holds none.
pub open spec fn last_mark(entries: Seq<EntryView>) -> int
    decreases entries.len(),
{
    if entries.len() == 0 {
        -1
    } else if is_mark(entries.last()) {
        entries.len() - 1
    } else {
        last_mark(entries.drop_last())
    }
}

/// `after` holds `before` with each batch in its sorted form: what stands
/// behind the last mark is sorted by itself, the mark stays where it is,
/// and the same holds of all that stands before the mark. No mark is
/// moved, and none is held against an entry.
pub open spec fn is_batch_sorted_form(before: Seq<EntryView>, after: Seq<EntryView>) -> bool
    decreases before.len(),
{
    let mark = last_mark(before);
    &&& after.len() == before.len()
    &&& if 0 <= mark < before.len() {
        &&& is_sorted_form(before.skip(mark + 1), after.skip(mark + 1))
        &&& after[mark] == before[mark]
        &&& is_batch_sorted_form(before.take(mark), after.take(mark))
    } else {
        is_sorted_form(before, after)
    }
}

/// The marks of `after` are those of `before`, each at its own place.
pub open spec fn marks_stay(before: Seq<EntryView>, after: Seq<EntryView>) -> bool {
    &&& after.len() == before.len()
    &&& forall|i: int|
        0 <= i < before.len() ==> (is_mark(#[trigger] after[i]) <==> is_mark(before[i])) && (
        is_mark(before[i]) ==> after[i] == before[i])
}

/// No mark stands from place `i` to place `j`: the two lie in one batch.
pub open spec fn in_one_batch(entries: Seq<EntryView>, i: int, j: int) -> bool {
    forall|k: int| i <= k <= j ==> !is_mark(#[trigger] entries[k])
}

/// Within each batch of `before`, `after` stands newest first.
pub open spec fn batches_newest_first(before: Seq<EntryView>, after: Seq<EntryView>) -> bool {
    forall|i: int, j: int|
        0 <= i < j < after.len() && in_one_batch(before, i, j) ==> !stands_before(
            #[trigger] after[j].date,
            #[trigger] after[i].date,
        )
}

/// The order of the dates is strict and leaves no two date texts level:
/// nothing stands before itself, of two dates at most one stands before
/// the other, and exactly one does unless they are the same text.
pub proof fn lemma_stands_before(a: Seq<u8>, b: Seq<u8>, c: Seq<u8>)
    ensures
        !stands_before(a, a),
        stands_before(a, b) ==> !stands_before(b, a),
        stands_before(a, b) && stands_before(b, c) ==> stands_before(a, c),
        !stands_before(a, b) && !stands_before(b, a) ==> a == b,
        !stands_before(a, b) && !stands_before(b, c) ==> !stands_before(a, c),
{
    lemma_bytes_before_irreflexive(a, 0);
    lemma_bytes_before_asymmetric(b, a, 0);
    lemma_bytes_before_transitive(c, b, a, 0);
    if !bytes_before(a, b, 0) && !bytes_before(b, a, 0) {
        assert(a.take(0) =~= b.take(0));
        lemma_bytes_before_total(a, b, 0);
    }
    if !bytes_before(b, c, 0) && !bytes_before(c, b, 0) {
        assert(b.take(0) =~= c.take(0));
        lemma_bytes_before_total(b, c, 0);
    }
    lemma_bytes_before_transitive(b, c, a, 0);
}

/// Two entries stand level exactly where their date texts are the same.
pub proof fn lemma_level_is_same_date(a: EntryView, b: EntryView)
    ensures
        (!stands_before(a.date, b.date) && !stands_before(b.date, a.date)) <==> a.date == b.date,
{
    lemma_stands_before(a.date, b.date, a.date);
}

proof fn lemma_with_date_none(s: Seq<EntryView>, date: Seq<u8>)
    requires
        forall|k: int| 0 <= k < s.len() ==> (#[trigger] s[k]).date != date,
    ensures
        with_date(s, date) == Seq::<EntryView>::empty(),
    decreases s.len(),
{
    reveal(Seq::filter);
    if s.len() > 0 {
        assert(s[s.len() - 1].date != date);
        lemma_with_date_none(s.drop_last(), date);
    }
}

/// Putting `x` behind the last entry that it does not stand before keeps a
/// list newest first, and adds `x` at the end of the entries of its date.
proof fn lemma_insert_step(prefix: Seq<EntryView>, x: EntryView, p: int, origin: Seq<EntryView>)
    requires
        0 <= p <= prefix.len(),
        newest_first(prefix),
        forall|k: int| 0 <= k < p ==> !stands_before(x.date, (#[trigger] prefix[k]).date),
        forall|k: int| p <= k < prefix.len() ==> stands_before(x.date, (#[trigger] prefix[k]).date),
        prefix.to_multiset() == origin.to_multiset(),
        forall|date: Seq<u8>| #[trigger] with_date(prefix, date) == with_date(origin, date),
    ensures
        newest_first(prefix.take(p).push(x) + prefix.skip(p)),
        (prefix.take(p).push(x) + prefix.skip(p)).to_multiset() == origin.push(x).to_multiset(),
        forall|date: Seq<u8>| #[trigger]
            with_date(prefix.take(p).push(x) + prefix.skip(p), date) == with_date(
                origin.push(x),
                date,
            ),
{
    let head = prefix.take(p);
    let tail = prefix.skip(p);
    let out = head.push(x) + tail;
    assert forall|i: int, j: int| 0 <= i < j < out.len() implies !stands_before(
        #[trigger] out[j].date,
        #[trigger] out[i].date,
    ) by {
        if i < p {
            assert(out[i] == prefix[i]);
        } else if i > p {
            assert(out[i] == prefix[i - 1]);
        }
        if j < p {
            assert(out[j] == prefix[j]);
        } else if j > p {
            assert(out[j] == prefix[j - 1]);
            if i == p {
                assert(stands_before(x.date, prefix[j - 1].date));
                lemma_stands_before(x.date, prefix[j - 1].date, x.date);
            }
        }
    }
    assert(out =~= prefix.insert(p, x));
    to_multiset_insert(prefix, p, x);
    to_multiset_build(origin, x);
    assert forall|date: Seq<u8>| #[trigger]
        with_date(out, date) == with_date(origin.push(x), date) by {
        let pred = date_is(date);
        assert(prefix =~= head + tail);
        Seq::filter_distributes_over_add(head, tail, pred);
        Seq::filter_distributes_over_add(head.push(x), tail, pred);
        head.lemma_filter_push(x, pred);
        origin.lemma_filter_push(x, pred);
        assert(with_date(prefix, date) == with_date(origin, date));
        if pred(x) {
            assert forall|k: int| 0 <= k < tail.len() implies (#[trigger] tail[k]).date
                != date by {
                assert(tail[k] == prefix[p + k]);
                assert(stands_before(x.date, prefix[p + k].date));
                lemma_stands_before(x.date, x.date, x.date);
            }
            lemma_with_date_none(tail, date);
            assert(head.filter(pred).push(x) + Seq::<EntryView>::empty() =~= (head.filter(pred)
                + Seq::<EntryView>::empty()).push(x));
        }
    }
}

/// The entries of the last entry's date end in the last entry.
proof fn lemma_with_date_last(s: Seq<EntryView>, date: Seq<u8>)
    requires
        s.len() > 0,
    ensures
        with_date(s, date) == if s.last().date == date {
            with_date(s.drop_last(), date).push(s.last())
        } else {
            with_date(s.drop_last(), date)
        },
{
    assert(s =~= s.drop_last().push(s.last()));
    s.drop_last().lemma_filter_push(s.last(), date_is(date));
}

proof fn lemma_newest_first_front(s: Seq<EntryView>)
    requires
        newest_first(s),
        s.len() > 0,
    ensures
        newest_first(s.drop_last()),
{
    assert forall|i: int, j: int| 0 <= i < j < s.drop_last().len() implies !stands_before(
        #[trigger] s.drop_last()[j].date,
        #[trigger] s.drop_last()[i].date,
    ) by {
        assert(s.drop_last()[i] == s[i] && s.drop_last()[j] == s[j]);
    }
}

/// The last entry of a list that stands newest first does not stand
/// before any entry of the list.
proof fn lemma_last_is_oldest(s: Seq<EntryView>, x: EntryView)
    requires
        newest_first(s),
        s.len() > 0,
        s.contains(x),
    ensures
        !stands_before(s.last().date, x.date),
{
    let j = choose|j: int| 0 <= j < s.len() && s[j] == x;
    if j < s.len() - 1 {
        assert(!stands_before(s[s.len() - 1].date, s[j].date));
    } else {
        lemma_stands_before(x.date, x.date, x.date);
    }
}

/// Two lists that stand newest first and hold the same entries of each
/// date, in the same order, are one list.
proof fn lemma_same_dates_same_list(a: Seq<EntryView>, b: Seq<EntryView>)
    requires
        a.len() == b.len(),
        newest_first(a),
        newest_first(b),
        forall|date: Seq<u8>| #[trigger] with_date(a, date) == with_date(b, date),
    ensures
        a == b,
    decreases a.len(),
{
    if a.len() == 0 {
        assert(a =~= b);
    } else {
        let x = a.last();
        let y = b.last();
        lemma_with_date_last(a, x.date);
        lemma_with_date_last(b, y.date);
        assert(b.contains(x)) by {
            let held = with_date(a, x.date);
            assert(held == with_date(b, x.date));
            assert(held.last() == x);
            assert(held.contains(x));
            b.lemma_filter_contains_rev(date_is(x.date), x);
        }
        assert(a.contains(y)) by {
            let held = with_date(b, y.date);
            assert(held == with_date(a, y.date));
            assert(held.last() == y);
            assert(held.contains(y));
            a.lemma_filter_contains_rev(date_is(y.date), y);
        }
        lemma_last_is_oldest(b, x);
        lemma_last_is_oldest(a, y);
        lemma_stands_before(x.date, y.date, x.date);
        assert(x.date == y.date);
        lemma_with_date_last(b, x.date);
        let front_a = with_date(a.drop_last(), x.date);
        let front_b = with_date(b.drop_last(), x.date);
        assert(with_date(a, x.date) == with_date(b, x.date));
        assert(front_a.push(x).last() == front_b.push(y).last());
        assert(front_a.push(x).drop_last() =~= front_a);
        assert(front_b.push(y).drop_last() =~= front_b);
        assert forall|date: Seq<u8>| #[trigger]
            with_date(a.drop_last(), date) == with_date(b.drop_last(), date) by {
            lemma_with_date_last(a, date);
            lemma_with_date_last(b, date);
            assert(with_date(a, date) == with_date(b, date));
        }
        lemma_newest_first_front(a);
        lemma_newest_first_front(b);
        lemma_same_dates_same_list(a.drop_last(), b.drop_last());
        assert(a =~= a.drop_last().push(x));
        assert(b =~= b.drop_last().push(y));
    }
}

/// A list has one sorted form and no other.
pub proof fn lemma_sorted_form_is_unique(
    before: Seq<EntryView>,
    one: Seq<EntryView>,
    other: Seq<EntryView>,
)
    requires
        is_sorted_form(before, one),
        is_sorted_form(before, other),
    ensures
        one == other,
{
    assert forall|date: Seq<u8>| #[trigger] with_date(one, date) == with_date(other, date) by {
        assert(with_date(one, date) == with_date(before, date));
        assert(with_date(other, date) == with_date(before, date));
    }
    lemma_same_dates_same_list(one, other);
}

/// A list that stands newest first is its own sorted form.
pub proof fn lemma_sorted_stays(entries: Seq<EntryView>)
    requires
        newest_first(entries),
    ensures
        is_sorted_form(entries, entries),
{
}

/// A list has one form with its batches sorted and no other.
pub proof fn lemma_batch_sorted_form_is_unique(
    before: Seq<EntryView>,
    one: Seq<EntryView>,
    other: Seq<EntryView>,
)
    requires
        is_batch_sorted_form(before, one),
        is_batch_sorted_form(before, other),
    ensures
        one == other,
    decreases before.len(),
{
    let mark = last_mark(before);
    if 0 <= mark < before.len() {
        lemma_batch_sorted_form_is_unique(before.take(mark), one.take(mark), other.take(mark));
        lemma_sorted_form_is_unique(
            before.skip(mark + 1),
            one.skip(mark + 1),
            other.skip(mark + 1),
        );
        assert(one =~= one.take(mark).push(one[mark]) + one.skip(mark + 1));
        assert(other =~= other.take(mark).push(other[mark]) + other.skip(mark + 1));
    } else {
        lemma_sorted_form_is_unique(before, one, other);
    }
}

/// A batch that stands newest first, with the mark that ends it, is its
/// own form with the batches sorted.
pub proof fn lemma_sorted_batch_stays(batch: Seq<EntryView>, mark: EntryView)
    requires
        newest_first(batch),
        forall|i: int| 0 <= i < batch.len() ==> !is_mark(#[trigger] batch[i]),
        is_mark(mark),
    ensures
        is_batch_sorted_form(batch.push(mark), batch.push(mark)),
{
    let list = batch.push(mark);
    let end = batch.len() as int;
    assert(last_mark(list) == end);
    assert(list.skip(end + 1) =~= Seq::<EntryView>::empty());
    assert(list.take(end) =~= batch);
    lemma_last_mark_is(batch, -1);
    assert(is_batch_sorted_form(batch, batch));
}

/// Of two lists that hold the same entries, each as often, every entry of
/// the one is an entry of the other.
pub proof fn lemma_same_entries(before: Seq<EntryView>, after: Seq<EntryView>)
    requires
        after.to_multiset() == before.to_multiset(),
    ensures
        after.len() == before.len(),
        forall|i: int| 0 <= i < after.len() ==> before.contains(#[trigger] after[i]),
        forall|i: int| 0 <= i < before.len() ==> after.contains(#[trigger] before[i]),
{
    to_multiset_len(before);
    to_multiset_len(after);
    assert forall|i: int| 0 <= i < after.len() implies before.contains(#[trigger] after[i]) by {
        assert(after.contains(after[i]));
        to_multiset_contains(after, after[i]);
        to_multiset_contains(before, after[i]);
    }
    assert forall|i: int| 0 <= i < before.len() implies after.contains(#[trigger] before[i]) by {
        assert(before.contains(before[i]));
        to_multiset_contains(after, before[i]);
        to_multiset_contains(before, before[i]);
    }
}

/// A sorted form of a list without marks holds no mark.
proof fn lemma_sorted_form_without_marks(before: Seq<EntryView>, after: Seq<EntryView>)
    requires
        is_sorted_form(before, after),
        forall|i: int| 0 <= i < before.len() ==> !is_mark(#[trigger] before[i]),
    ensures
        forall|i: int| 0 <= i < after.len() ==> !is_mark(#[trigger] after[i]),
{
    assert forall|i: int| 0 <= i < after.len() implies !is_mark(#[trigger] after[i]) by {
        let x = after[i];
        assert(after.contains(x));
        to_multiset_contains(after, x);
        to_multiset_contains(before, x);
        let j = choose|j: int| 0 <= j < before.len() && before[j] == x;
        assert(!is_mark(before[j]));
    }
}

/// What it means that the batches are sorted: every mark stays at its
/// place, between two marks the entries stand newest first, and the list
/// holds what it held, each entry as often.
pub proof fn lemma_batch_sorted_form(before: Seq<EntryView>, after: Seq<EntryView>)
    requires
        is_batch_sorted_form(before, after),
    ensures
        marks_stay(before, after),
        batches_newest_first(before, after),
        after.to_multiset() == before.to_multiset(),
    decreases before.len(),
{
    let mark = last_mark(before);
    lemma_last_mark_found(before);
    lemma_batch_sorted_multiset(before, after);
    if 0 <= mark < before.len() {
        let head_b = before.take(mark);
        let head_a = after.take(mark);
        let run_b = before.skip(mark + 1);
        let run_a = after.skip(mark + 1);
        lemma_batch_sorted_form(head_b, head_a);
        assert forall|i: int| 0 <= i < run_b.len() implies !is_mark(#[trigger] run_b[i]) by {
            assert(run_b[i] == before[mark + 1 + i]);
        }
        lemma_sorted_form_without_marks(run_b, run_a);
        assert forall|i: int| 0 <= i < before.len() implies (is_mark(#[trigger] after[i])
            <==> is_mark(before[i])) && (is_mark(before[i]) ==> after[i] == before[i]) by {
            if i < mark {
                assert(head_a[i] == after[i] && head_b[i] == before[i]);
            } else if i > mark {
                assert(run_a[i - mark - 1] == after[i]);
            }
        }
        assert forall|i: int, j: int|
            0 <= i < j < after.len() && in_one_batch(before, i, j) implies !stands_before(
            #[trigger] after[j].date,
            #[trigger] after[i].date,
        ) by {
            if j < mark {
                assert(head_a[i] == after[i] && head_a[j] == after[j]);
                assert(in_one_batch(head_b, i, j)) by {
                    assert forall|k: int| i <= k <= j implies !is_mark(#[trigger] head_b[k]) by {
                        assert(head_b[k] == before[k]);
                    }
                }
            } else if i > mark {
                assert(run_a[i - mark - 1] == after[i] && run_a[j - mark - 1] == after[j]);
            } else {
                assert(is_mark(before[mark]));
            }
        }
    } else {
        lemma_sorted_form_without_marks(before, after);
    }
}

/// Sorting the batches leaves in the list what it held, each entry as often.
proof fn lemma_batch_sorted_multiset(before: Seq<EntryView>, after: Seq<EntryView>)
    requires
        is_batch_sorted_form(before, after),
    ensures
        after.to_multiset() == before.to_multiset(),
    decreases before.len(),
{
    let mark = last_mark(before);
    if 0 <= mark < before.len() {
        let head_b = before.take(mark);
        let head_a = after.take(mark);
        let run_b = before.skip(mark + 1);
        let run_a = after.skip(mark + 1);
        lemma_batch_sorted_multiset(head_b, head_a);
        assert(before =~= (head_b.push(before[mark])) + run_b);
        assert(after =~= (head_a.push(after[mark])) + run_a);
        to_multiset_build(head_b, before[mark]);
        to_multiset_build(head_a, after[mark]);
        lemma_multiset_commutative(head_b.push(before[mark]), run_b);
        lemma_multiset_commutative(head_a.push(after[mark]), run_a);
    }
}

/// The last mark is a mark, and no mark stands behind it.
proof fn lemma_last_mark_found(s: Seq<EntryView>)
    ensures
        -1 <= last_mark(s) < s.len(),
        last_mark(s) >= 0 ==> is_mark(s[last_mark(s)]),
        forall|i: int| last_mark(s) < i < s.len() ==> !is_mark(#[trigger] s[i]),
    decreases s.len(),
{
    if s.len() > 0 && !is_mark(s.last()) {
        lemma_last_mark_found(s.drop_last());
        assert forall|i: int| last_mark(s) < i < s.len() implies !is_mark(#[trigger] s[i]) by {
            if i < s.len() - 1 {
                assert(s.drop_last()[i] == s[i]);
            }
        }
    }
}

/// A position that holds a mark, with no mark behind it, is the place of
/// the last mark; and where no entry is a mark, there is none.
proof fn lemma_last_mark_is(s: Seq<EntryView>, at: int)
    requires
        -1 <= at < s.len(),
        at >= 0 ==> is_mark(s[at]),
        forall|i: int| at < i < s.len() ==> !is_mark(#[trigger] s[i]),
    ensures
        last_mark(s) == at,
    decreases s.len(),
{
    if s.len() > 0 && at < s.len() - 1 {
        assert(!is_mark(s[s.len() - 1]));
        lemma_last_mark_is(s.drop_last(), at);
    }
}

/// Sorting the batches leaves the hours of the list as they are.
pub proof fn lemma_batch_sorted_sum(before: Seq<EntryView>, after: Seq<EntryView>)
    requires
        is_batch_sorted_form(before, after),
    ensures
        sum_hours(after) == sum_hours(before),
    decreases before.len(),
{
    let mark = last_mark(before);
    if 0 <= mark < before.len() {
        lemma_batch_sorted_sum(before.take(mark), after.take(mark));
        lemma_sum_hours_permutation(after.skip(mark + 1), before.skip(mark + 1));
        assert(before =~= before.take(mark).push(before[mark]) + before.skip(mark + 1));
        assert(after =~= after.take(mark).push(after[mark]) + after.skip(mark + 1));
        lemma_sum_hours_add(before.take(mark).push(before[mark]), before.skip(mark + 1));
        lemma_sum_hours_add(after.take(mark).push(after[mark]), after.skip(mark + 1));
        assert(before.take(mark).push(before[mark]).drop_last() =~= before.take(mark));
        assert(after.take(mark).push(after[mark]).drop_last() =~= after.take(mark));
    } else {
        lemma_sum_hours_permutation(after, before);
    }
}

/// Taking the entry at `i` out and putting it in at `p` changes the list
/// between `lo` and `i` only.
proof fn lemma_move(now: Seq<EntryView>, next: Seq<EntryView>, lo: int, i: int, p: int)
    requires
        0 <= lo <= p <= i < now.len(),
        next == if p < i {
            now.remove(i).insert(p, now[i])
        } else {
            now
        },
    ensures
        next.len() == now.len(),
        next.take(lo) == now.take(lo),
        next.skip(i + 1) == now.skip(i + 1),
        next.subrange(lo, i + 1) == now.subrange(lo, i).take(p - lo).push(now[i]) + now.subrange(
            lo,
            i,
        ).skip(p - lo),
{
    assert(next.take(lo) =~= now.take(lo));
    assert(next.skip(i + 1) =~= now.skip(i + 1));
    assert(next.subrange(lo, i + 1) =~= now.subrange(lo, i).take(p - lo).push(now[i])
        + now.subrange(lo, i).skip(p - lo));
}

/// One step of sorting the entries from `lo` on: the entry at `i` moves to
/// `p`, behind the last entry before it that it does not stand before.
proof fn lemma_sort_step(
    origin: Seq<EntryView>,
    now: Seq<EntryView>,
    next: Seq<EntryView>,
    lo: int,
    i: int,
    p: int,
)
    requires
        0 <= lo <= p <= i < now.len(),
        now.len() == origin.len(),
        now.take(lo) == origin.take(lo),
        now.skip(i) == origin.skip(i),
        newest_first(now.subrange(lo, i)),
        now.subrange(lo, i).to_multiset() == origin.subrange(lo, i).to_multiset(),
        forall|date: Seq<u8>| #[trigger]
            with_date(now.subrange(lo, i), date) == with_date(origin.subrange(lo, i), date),
        forall|k: int| p <= k < i ==> stands_before(now[i].date, (#[trigger] now[k]).date),
        p > lo ==> !stands_before(now[i].date, now[p - 1].date),
        next == if p < i {
            now.remove(i).insert(p, now[i])
        } else {
            now
        },
    ensures
        next.len() == now.len(),
        next.take(lo) == origin.take(lo),
        next.skip(i + 1) == origin.skip(i + 1),
        newest_first(next.subrange(lo, i + 1)),
        next.subrange(lo, i + 1).to_multiset() == origin.subrange(lo, i + 1).to_multiset(),
        forall|date: Seq<u8>| #[trigger]
            with_date(next.subrange(lo, i + 1), date) == with_date(
                origin.subrange(lo, i + 1),
                date,
            ),
{
    let x = now[i];
    let prefix = now.subrange(lo, i);
    let q = p - lo;
    assert(x == origin.skip(i)[0]);
    assert forall|k: int| 0 <= k < q implies !stands_before(
        x.date,
        (#[trigger] prefix[k]).date,
    ) by {
        assert(prefix[q - 1] == now[p - 1]);
        if k < q - 1 {
            assert(!stands_before(prefix[q - 1].date, prefix[k].date));
            lemma_stands_before(x.date, prefix[q - 1].date, prefix[k].date);
        }
    }
    assert forall|k: int| q <= k < prefix.len() implies stands_before(
        x.date,
        (#[trigger] prefix[k]).date,
    ) by {
        assert(prefix[k] == now[lo + k]);
    }
    lemma_insert_step(prefix, x, q, origin.subrange(lo, i));
    lemma_move(now, next, lo, i, p);
    assert(origin.subrange(lo, i + 1) =~= origin.subrange(lo, i).push(x));
    assert(now.skip(i + 1) =~= now.skip(i).skip(1));
    assert(origin.skip(i + 1) =~= origin.skip(i).skip(1));
}

/// Sorts the entries from `from` up to `to` among themselves and leaves
/// the others where they are.
fn sort_range(entrys: &mut Vec<Entry>, from: usize, to: usize)
    requires
        from <= to <= old(entrys)@.len(),
    ensures
        final(entrys)@.len() == old(entrys)@.len(),
        views(final(entrys)@).take(from as int) == views(old(entrys)@).take(from as int),
        views(final(entrys)@).skip(to as int) == views(old(entrys)@).skip(to as int),
        is_sorted_form(
            views(old(entrys)@).subrange(from as int, to as int),
            views(final(entrys)@).subrange(from as int, to as int),
        ),
{
    let ghost origin = views(entrys@);
    let mut i: usize = from;
    assert(origin.subrange(from as int, from as int) =~= Seq::<EntryView>::empty());
    while i < to
        invariant
            from <= i <= to <= entrys@.len(),
            entrys@.len() == origin.len(),
            views(entrys@).take(from as int) == origin.take(from as int),
            views(entrys@).skip(i as int) == origin.skip(i as int),
            newest_first(views(entrys@).subrange(from as int, i as int)),
            views(entrys@).subrange(from as int, i as int).to_multiset() == origin.subrange(
                from as int,
                i as int,
            ).to_multiset(),
            forall|date: Seq<u8>| #[trigger]
                with_date(views(entrys@).subrange(from as int, i as int), date) == with_date(
                    origin.subrange(from as int, i as int),
                    date,
                ),
        decreases to - i,
    {
        let ghost now = views(entrys@);
        let mut p: usize = i;
        while p > from && entrys[i].newer_than(&entrys[p - 1])
            invariant
                from <= p <= i < entrys@.len(),
                forall|k: int|
                    p <= k < i ==> stands_before(
                        entrys@[i as int]@.date,
                        (#[trigger] entrys@[k])@.date,
                    ),
            decreases p,
        {
            p -= 1;
        }
        if p < i {
            let x = entrys.remove(i);
            entrys.insert(p, x);
            assert(views(entrys@) =~= now.remove(i as int).insert(p as int, now[i as int]));
        }
        proof {
            lemma_sort_step(origin, now, views(entrys@), from as int, i as int, p as int);
        }
        i += 1;
    }
}

/// Sorts a list newest first. Entries of one date keep the order they had.
pub fn sort_entries(entrys: &mut Vec<Entry>)
    ensures
        is_sorted_form(views(old(entrys)@), views(final(entrys)@)),
{
    let ghost origin = views(entrys@);
    let n: usize = entrys.len();
    sort_range(entrys, 0, n);
    proof {
        assert(origin.subrange(0, n as int) =~= origin);
        assert(views(entrys@).subrange(0, n as int) =~= views(entrys@));
    }
}

/// One step of sorting the batches: the batch from `lo` up to `hi` is
/// sorted, and all before it was.
proof fn lemma_batch_step(
    origin: Seq<EntryView>,
    now: Seq<EntryView>,
    next: Seq<EntryView>,
    lo: int,
    hi: int,
)
    requires
        0 <= lo <= hi <= origin.len(),
        now.len() == origin.len(),
        next.len() == origin.len(),
        now.skip(lo) == origin.skip(lo),
        lo > 0 ==> is_mark(origin[lo - 1]) && now[lo - 1] == origin[lo - 1]
            && is_batch_sorted_form(origin.take(lo - 1), now.take(lo - 1)),
        forall|k: int| lo <= k < hi ==> !is_mark(#[trigger] origin[k]),
        next.take(lo) == now.take(lo),
        next.skip(hi) == now.skip(hi),
        is_sorted_form(now.subrange(lo, hi), next.subrange(lo, hi)),
    ensures
        is_batch_sorted_form(origin.take(hi), next.take(hi)),
        next.skip(hi) == origin.skip(hi),
{
    let before = origin.take(hi);
    let after = next.take(hi);
    lemma_last_mark_is(before, lo - 1);
    assert(now.subrange(lo, hi) =~= now.skip(lo).take(hi - lo));
    assert(origin.subrange(lo, hi) =~= origin.skip(lo).take(hi - lo));
    assert(now.skip(hi) =~= now.skip(lo).skip(hi - lo));
    assert(origin.skip(hi) =~= origin.skip(lo).skip(hi - lo));
    if lo > 0 {
        assert(before.skip(lo) =~= origin.subrange(lo, hi));
        assert(after.skip(lo) =~= next.subrange(lo, hi));
        assert(after[lo - 1] == next.take(lo)[lo - 1]);
        assert(before.take(lo - 1) =~= origin.take(lo - 1));
        assert(after.take(lo - 1) =~= next.take(lo).take(lo - 1));
        assert(now.take(lo - 1) =~= now.take(lo).take(lo - 1));
    } else {
        assert(before =~= origin.subrange(lo, hi));
        assert(after =~= next.subrange(lo, hi));
    }
}

/// Sorts each batch of an archive newest first, by itself. The marks that
/// end the batches stay where they are and are held against no entry.
pub fn sort_batches(entrys: &mut Vec<Entry>)
    ensures
        is_batch_sorted_form(views(old(entrys)@), views(final(entrys)@)),
        marks_stay(views(old(entrys)@), views(final(entrys)@)),
        batches_newest_first(views(old(entrys)@), views(final(entrys)@)),
        views(final(entrys)@).to_multiset() == views(old(entrys)@).to_multiset(),
{
    let ghost origin = views(entrys@);
    let n: usize = entrys.len();
    let mut lo: usize = 0;
    let mut done = false;
    while !done
        invariant
            lo <= n,
            entrys@.len() == n,
            origin.len() == n,
            done ==> is_batch_sorted_form(origin, views(entrys@)),
            done ==> marks_stay(origin, views(entrys@)),
            done ==> batches_newest_first(origin, views(entrys@)),
            done ==> views(entrys@).to_multiset() == origin.to_multiset(),
            !done ==> views(entrys@).skip(lo as int) == origin.skip(lo as int),
            !done && lo > 0 ==> is_mark(origin[lo - 1]) && views(entrys@)[lo - 1] == origin[lo - 1]
                && is_batch_sorted_form(origin.take(lo - 1), views(entrys@).take(lo - 1)),
        decreases n - lo + if done { 0int } else { 1int },
    {
        let ghost now = views(entrys@);
        let mut hi: usize = lo;
        while hi < n && !entrys[hi].is_separator()
            invariant
                lo <= hi <= n,
                entrys@.len() == n,
                forall|k: int| lo <= k < hi ==> !is_mark(#[trigger] views(entrys@)[k]),
            decreases n - hi,
        {
            hi += 1;
        }
        proof {
            assert forall|k: int| lo <= k < hi implies !is_mark(#[trigger] origin[k]) by {
                assert(origin[k] == origin.skip(lo as int)[k - lo]);
                assert(now[k] == now.skip(lo as int)[k - lo]);
            }
        }
        sort_range(entrys, lo, hi);
        proof {
            lemma_batch_step(origin, now, views(entrys@), lo as int, hi as int);
        }
        if hi < n {
            proof {
                assert(origin[hi as int] == origin.skip(hi as int)[0]);
                assert(views(entrys@)[hi as int] == views(entrys@).skip(hi as int)[0]);
                assert(now[hi as int] == now.skip(lo as int)[hi - lo]);
                assert(origin[hi as int] == origin.skip(lo as int)[hi - lo]);
                assert(views(entrys@).skip(hi + 1) =~= views(entrys@).skip(hi as int).skip(1));
                assert(origin.skip(hi + 1) =~= origin.skip(hi as int).skip(1));
                assert(views(entrys@).take(hi + 1).take(hi as int) =~= views(entrys@).take(
                    hi as int,
                ));
            }
            lo = hi + 1;
        } else {
            proof {
                assert(origin.take(n as int) =~= origin);
                assert(views(entrys@).take(n as int) =~= views(entrys@));
                lemma_batch_sorted_form(origin, views(entrys@));
            }
            done = true;
        }
    }
}

} // verus!
