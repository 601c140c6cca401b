//! The order of names: byte by byte, as the operating system wrote them.
//! No case is folded and no locale is asked.

use crate::entry::FsEntry;
use vstd::multiset::*;
use vstd::prelude::*;
use vstd::seq_lib::*;

verus! {

/// `a` stands before `b` or equals it: at the first place where the two
/// differ `a` has the smaller byte, or `a` ends first.
pub open spec fn bytes_le(a: Seq<u8>, b: Seq<u8>) -> bool
    decreases a.len(),
{
    if a.len() == 0 {
        true
    } else if b.len() == 0 {
        false
    } else if a[0] != b[0] {
        a[0] < b[0]
    } else {
        bytes_le(a.drop_first(), b.drop_first())
    }
}

/// Every name stands before or at itself.
pub proof fn lemma_bytes_le_reflexive(a: Seq<u8>)
    ensures
        bytes_le(a, a),
    decreases a.len(),
{
    if a.len() > 0 {
        lemma_bytes_le_reflexive(a.drop_first());
    }
}

/// Of two names one stands before or at the other.
pub proof fn lemma_bytes_le_total(a: Seq<u8>, b: Seq<u8>)
    ensures
        bytes_le(a, b) || bytes_le(b, a),
    decreases a.len(),
{
    if a.len() > 0 && b.len() > 0 && a[0] == b[0] {
        lemma_bytes_le_total(a.drop_first(), b.drop_first());
    }
}

/// The order carries over a name in the middle.
pub proof fn lemma_bytes_le_transitive(a: Seq<u8>, b: Seq<u8>, c: Seq<u8>)
    requires
        bytes_le(a, b),
        bytes_le(b, c),
    ensures
        bytes_le(a, c),
    decreases a.len(),
{
    if a.len() > 0 && b.len() > 0 && c.len() > 0 && a[0] == b[0] && b[0] == c[0] {
        lemma_bytes_le_transitive(a.drop_first(), b.drop_first(), c.drop_first());
    }
}

/// Two names that each stand before or at the other are one name.
pub proof fn lemma_bytes_le_antisymmetric(a: Seq<u8>, b: Seq<u8>)
    requires
        bytes_le(a, b),
        bytes_le(b, a),
    ensures
        a == b,
    decreases a.len(),
{
    if a.len() > 0 && b.len() > 0 {
        lemma_bytes_le_antisymmetric(a.drop_first(), b.drop_first());
        assert(a =~= seq![a[0]] + a.drop_first());
        assert(b =~= seq![b[0]] + b.drop_first());
    } else {
        assert(a =~= b);
    }
}

/// The order said without recursion: `a` is the beginning of `b`, or the two
/// agree up to a place where `a` has the smaller byte.
pub proof fn lemma_bytes_le_is_lexicographic(a: Seq<u8>, b: Seq<u8>)
    ensures
        bytes_le(a, b) <==> (a.is_prefix_of(b) || exists|i: int|
            0 <= i < a.len() && i < b.len() && a.take(i) == b.take(i) && a[i] < b[i]),
    decreases a.len(),
{
    if a.len() == 0 {
        assert(a =~= b.subrange(0, 0));
    } else if b.len() == 0 {
    } else if a[0] != b[0] {
        if a[0] < b[0] {
            assert(a.take(0) =~= b.take(0));
        } else {
            assert(a.subrange(0, a.len() as int)[0] == a[0]);
            assert forall|i: int|
                0 <= i < a.len() && i < b.len() && a.take(i) == b.take(i) implies !(a[i]
                < b[i]) by {
                if i > 0 {
                    assert(a.take(i)[0] == b.take(i)[0]);
                }
            }
            if a.is_prefix_of(b) {
                assert(b.subrange(0, a.len() as int)[0] == a[0]);
            }
        }
    } else {
        let x = a.drop_first();
        let y = b.drop_first();
        lemma_bytes_le_is_lexicographic(x, y);
        if bytes_le(x, y) {
            if x.is_prefix_of(y) {
                assert forall|j: int| 0 <= j < a.len() implies a[j] == b[j] by {
                    if j > 0 {
                        assert(x[j - 1] == y.subrange(0, x.len() as int)[j - 1]);
                    }
                }
                assert(a =~= b.subrange(0, a.len() as int));
            } else {
                let i = choose|i: int|
                    0 <= i < x.len() && i < y.len() && x.take(i) == y.take(i) && x[i] < y[i];
                assert(a.take(i + 1) =~= seq![a[0]] + x.take(i));
                assert(b.take(i + 1) =~= seq![b[0]] + y.take(i));
            }
        } else {
            if a.is_prefix_of(b) {
                assert(x =~= y.subrange(0, x.len() as int));
            }
            assert forall|i: int|
                0 <= i < a.len() && i < b.len() && a.take(i) == b.take(i) implies !(a[i]
                < b[i]) by {
                if i > 0 {
                    assert(x.take(i - 1) =~= a.take(i).drop_first());
                    assert(y.take(i - 1) =~= b.take(i).drop_first());
                }
            }
        }
    }
}

/// Whether the name `a` stands before or at the name `b`.
pub fn name_le(a: &[u8], b: &[u8]) -> (r: bool)
    ensures
        r == bytes_le(a@, b@),
{
    let mut i: usize = 0;
    proof {
        assert(a@.skip(0) =~= a@);
        assert(b@.skip(0) =~= b@);
    }
    while i < a.len() && i < b.len()
        invariant
            i <= a.len(),
            i <= b.len(),
            bytes_le(a@, b@) == bytes_le(a@.skip(i as int), b@.skip(i as int)),
        decreases a.len() - i,
    {
        if a[i] != b[i] {
            return a[i] < b[i];
        }
        proof {
            assert(a@.skip(i as int).drop_first() =~= a@.skip(i + 1));
            assert(b@.skip(i as int).drop_first() =~= b@.skip(i + 1));
        }
        i += 1;
    }
    a.len() <= b.len()
}

/// The names of a row of entries never step back.
pub open spec fn names_ascend(entries: Seq<FsEntry>) -> bool {
    forall|i: int, j: int|
        0 <= i < j < entries.len() ==> bytes_le(
            (#[trigger] entries[i]).name@,
            (#[trigger] entries[j]).name@,
        )
}

/// Where `entry` goes in a sorted row: behind the last entry whose name
/// stands before or at its own, so that entries of one name keep the order in
/// which they came.
pub open spec fn place_of(sorted: Seq<FsEntry>, entry: FsEntry) -> int
    decreases sorted.len(),
{
    if sorted.len() > 0 && !bytes_le(sorted.last().name@, entry.name@) {
        place_of(sorted.drop_last(), entry)
    } else {
        sorted.len() as int
    }
}

/// The entries in the order of their names.
pub open spec fn sort_by_name(entries: Seq<FsEntry>) -> Seq<FsEntry>
    decreases entries.len(),
{
    if entries.len() == 0 {
        Seq::empty()
    } else {
        let sorted = sort_by_name(entries.drop_last());
        sorted.insert(place_of(sorted, entries.last()), entries.last())
    }
}

/// The place lies in the row; every entry behind it has a later name, and the
/// entry before it has none.
pub proof fn lemma_place_of(sorted: Seq<FsEntry>, entry: FsEntry)
    ensures
        0 <= place_of(sorted, entry) <= sorted.len(),
        forall|k: int|
            place_of(sorted, entry) <= k < sorted.len() ==> !bytes_le(
                (#[trigger] sorted[k]).name@,
                entry.name@,
            ),
        place_of(sorted, entry) > 0 ==> bytes_le(
            sorted[place_of(sorted, entry) - 1].name@,
            entry.name@,
        ),
    decreases sorted.len(),
{
    if sorted.len() > 0 && !bytes_le(sorted.last().name@, entry.name@) {
        let front = sorted.drop_last();
        lemma_place_of(front, entry);
        assert forall|k: int| place_of(sorted, entry) <= k < sorted.len() implies !bytes_le(
            (#[trigger] sorted[k]).name@,
            entry.name@,
        ) by {
            if k < front.len() {
                assert(sorted[k] == front[k]);
            }
        }
        if place_of(sorted, entry) > 0 {
            assert(sorted[place_of(sorted, entry) - 1] == front[place_of(front, entry) - 1]);
        }
    }
}

/// Sorting keeps the number of entries.
pub proof fn lemma_sort_by_name_len(entries: Seq<FsEntry>)
    ensures
        sort_by_name(entries).len() == entries.len(),
    decreases entries.len(),
{
    if entries.len() > 0 {
        let sorted = sort_by_name(entries.drop_last());
        lemma_sort_by_name_len(entries.drop_last());
        lemma_place_of(sorted, entries.last());
    }
}

/// In a sorted row the names never step back.
pub proof fn lemma_sort_by_name_ascends(entries: Seq<FsEntry>)
    ensures
        names_ascend(sort_by_name(entries)),
    decreases entries.len(),
{
    if entries.len() > 0 {
        let sorted = sort_by_name(entries.drop_last());
        let entry = entries.last();
        let place = place_of(sorted, entry);
        let result = sorted.insert(place, entry);
        lemma_sort_by_name_ascends(entries.drop_last());
        lemma_place_of(sorted, entry);
        assert forall|i: int, j: int| 0 <= i < j < result.len() implies bytes_le(
            (#[trigger] result[i]).name@,
            (#[trigger] result[j]).name@,
        ) by {
            if j < place {
                assert(result[i] == sorted[i] && result[j] == sorted[j]);
            } else if j == place {
                assert(result[i] == sorted[i]);
                if i < place - 1 {
                    lemma_bytes_le_transitive(
                        sorted[i].name@,
                        sorted[place - 1].name@,
                        entry.name@,
                    );
                }
            } else if i < place {
                assert(result[i] == sorted[i] && result[j] == sorted[j - 1]);
            } else if i == place {
                assert(result[j] == sorted[j - 1]);
                lemma_bytes_le_total(sorted[j - 1].name@, entry.name@);
            } else {
                assert(result[i] == sorted[i - 1] && result[j] == sorted[j - 1]);
            }
        }
    }
}

/// A sorted row holds the entries it was made from, each as often as before.
pub proof fn lemma_sort_by_name_permutes(entries: Seq<FsEntry>)
    ensures
        sort_by_name(entries).to_multiset() == entries.to_multiset(),
    decreases entries.len(),
{
    if entries.len() == 0 {
        assert(sort_by_name(entries) =~= entries);
    } else {
        let sorted = sort_by_name(entries.drop_last());
        let entry = entries.last();
        lemma_sort_by_name_permutes(entries.drop_last());
        lemma_place_of(sorted, entry);
        to_multiset_insert(sorted, place_of(sorted, entry), entry);
        to_multiset_build(entries.drop_last(), entry);
        assert(entries.drop_last().push(entry) =~= entries);
    }
}

/// A sorted row holds an entry exactly when the row it was made from does.
pub proof fn lemma_sort_by_name_contains(entries: Seq<FsEntry>, entry: FsEntry)
    ensures
        sort_by_name(entries).contains(entry) <==> entries.contains(entry),
{
    lemma_sort_by_name_permutes(entries);
    to_multiset_contains(sort_by_name(entries), entry);
    to_multiset_contains(entries, entry);
}

/// Of an entry: that it has the given name.
pub open spec fn has_name(name: Seq<u8>) -> spec_fn(FsEntry) -> bool {
    |entry: FsEntry| entry.name@ == name
}

/// Entries of one name stand in a sorted row in the order in which they
/// came.
pub proof fn lemma_sort_by_name_stable(entries: Seq<FsEntry>, name: Seq<u8>)
    ensures
        sort_by_name(entries).filter(has_name(name)) == entries.filter(has_name(name)),
    decreases entries.len(),
{
    reveal(Seq::filter);
    if entries.len() > 0 {
        let named = has_name(name);
        let sorted = sort_by_name(entries.drop_last());
        let entry = entries.last();
        let place = place_of(sorted, entry);
        lemma_sort_by_name_stable(entries.drop_last(), name);
        lemma_place_of(sorted, entry);
        let front = sorted.take(place);
        let back = sorted.skip(place);
        assert(sorted =~= front + back);
        assert(sorted.insert(place, entry) =~= front.push(entry) + back);
        assert(front.push(entry).drop_last() =~= front);
        Seq::filter_distributes_over_add(front, back, named);
        Seq::filter_distributes_over_add(front.push(entry), back, named);
        if named(entry) {
            assert forall|k: int| 0 <= k < back.len() implies !named(#[trigger] back[k]) by {
                assert(back[k] == sorted[place + k]);
                lemma_bytes_le_reflexive(name);
            }
            lemma_none_named(back, name);
            assert(front.filter(named).push(entry) + back.filter(named) =~= (front.filter(named)
                + back.filter(named)).push(entry));
        }
    }
}

/// A row without an entry of the name has nothing left when asked for it.
proof fn lemma_none_named(entries: Seq<FsEntry>, name: Seq<u8>)
    requires
        forall|k: int| 0 <= k < entries.len() ==> !has_name(name)(#[trigger] entries[k]),
    ensures
        entries.filter(has_name(name)).len() == 0,
    decreases entries.len(),
{
    reveal(Seq::filter);
    if entries.len() > 0 {
        assert forall|k: int| 0 <= k < entries.drop_last().len() implies !has_name(name)(
            #[trigger] entries.drop_last()[k],
        ) by {
            assert(entries.drop_last()[k] == entries[k]);
        }
        lemma_none_named(entries.drop_last(), name);
        assert(!has_name(name)(entries[entries.len() - 1]));
    }
}

/// No two entries of the row have one name.
pub open spec fn names_distinct(entries: Seq<FsEntry>) -> bool {
    forall|i: int, j: int|
        0 <= i < j < entries.len() ==> (#[trigger] entries[i]).name@ != (
        #[trigger] entries[j]).name@
}

/// Two rows in the order of their names that hold the same entries, none of
/// them two of one name, are one row.
pub proof fn lemma_ascending_rows_equal(a: Seq<FsEntry>, b: Seq<FsEntry>)
    requires
        names_ascend(a),
        names_ascend(b),
        names_distinct(a),
        a.to_multiset() == b.to_multiset(),
    ensures
        a == b,
    decreases a.len(),
{
    broadcast use group_multiset_axioms;

    to_multiset_len(a);
    to_multiset_len(b);
    if a.len() == 0 {
        assert(a =~= b);
    } else {
        let last_a = a[a.len() - 1];
        let last_b = b[b.len() - 1];
        assert(a.contains(last_a));
        assert(b.contains(last_b));
        to_multiset_contains(a, last_a);
        to_multiset_contains(b, last_a);
        to_multiset_contains(a, last_b);
        to_multiset_contains(b, last_b);
        let i = choose|i: int| 0 <= i < a.len() && a[i] == last_b;
        let j = choose|j: int| 0 <= j < b.len() && b[j] == last_a;
        if i < a.len() - 1 {
            assert(bytes_le(a[i].name@, last_a.name@));
            if j < b.len() - 1 {
                assert(bytes_le(b[j].name@, last_b.name@));
            } else {
                lemma_bytes_le_reflexive(last_a.name@);
            }
            lemma_bytes_le_antisymmetric(last_a.name@, last_b.name@);
            assert(false);
        }
        assert(last_a == last_b);
        let front_a = a.drop_last();
        let front_b = b.drop_last();
        assert(front_a.push(last_a) =~= a);
        assert(front_b.push(last_b) =~= b);
        to_multiset_build(front_a, last_a);
        to_multiset_build(front_b, last_b);
        assert(front_a.to_multiset() =~= front_b.to_multiset()) by {
            assert forall|e: FsEntry|
                front_a.to_multiset().count(e) == front_b.to_multiset().count(e) by {
                assert(a.to_multiset().count(e) == front_a.to_multiset().insert(last_a).count(e));
                assert(b.to_multiset().count(e) == front_b.to_multiset().insert(last_b).count(e));
            }
        }
        assert forall|x: int, y: int| 0 <= x < y < front_a.len() implies bytes_le(
            (#[trigger] front_a[x]).name@,
            (#[trigger] front_a[y]).name@,
        ) && front_a[x].name@ != front_a[y].name@ by {
            assert(front_a[x] == a[x] && front_a[y] == a[y]);
        }
        assert forall|x: int, y: int| 0 <= x < y < front_b.len() implies bytes_le(
            (#[trigger] front_b[x]).name@,
            (#[trigger] front_b[y]).name@,
        ) by {
            assert(front_b[x] == b[x] && front_b[y] == b[y]);
        }
        lemma_ascending_rows_equal(front_a, front_b);
    }
}

/// Where no two entries have one name, the sorted row does not depend on
/// the order in which the entries came.
pub proof fn lemma_sort_by_name_any_order(a: Seq<FsEntry>, b: Seq<FsEntry>)
    requires
        a.to_multiset() == b.to_multiset(),
        names_distinct(a),
    ensures
        sort_by_name(a) == sort_by_name(b),
{
    let sorted_a = sort_by_name(a);
    let sorted_b = sort_by_name(b);
    lemma_sort_by_name_ascends(a);
    lemma_sort_by_name_ascends(b);
    lemma_sort_by_name_permutes(a);
    lemma_sort_by_name_permutes(b);
    assert forall|i: int, j: int| 0 <= i < j < sorted_a.len() implies (
    #[trigger] sorted_a[i]).name@ != (#[trigger] sorted_a[j]).name@ by {
        // Entries of one name keep their order; of a name that is in the
        // row once, one entry is left when asked for it.
        let name = sorted_a[i].name@;
        if sorted_a[j].name@ == name {
            lemma_sort_by_name_stable(a, name);
            lemma_named_twice(sorted_a, i, j);
            lemma_named_at_most_once(a, name);
        }
    }
    lemma_ascending_rows_equal(sorted_a, sorted_b);
}

/// A row with two entries of one name has at least two left when asked for
/// the name.
proof fn lemma_named_twice(entries: Seq<FsEntry>, i: int, j: int)
    requires
        0 <= i < j < entries.len(),
        entries[i].name@ == entries[j].name@,
    ensures
        entries.filter(has_name(entries[i].name@)).len() >= 2,
    decreases entries.len(),
{
    reveal(Seq::filter);
    let named = has_name(entries[i].name@);
    let front = entries.drop_last();
    if j < entries.len() - 1 {
        assert(front[i] == entries[i] && front[j] == entries[j]);
        lemma_named_twice(front, i, j);
        front.lemma_filter_len_push(named, entries.last());
        assert(front.push(entries.last()) =~= entries);
    } else {
        assert(front[i] == entries[i]);
        front.lemma_filter_contains(named, i);
        assert(front.filter(named).len() >= 1);
    }
}

/// A row without two entries of one name has at most one left when asked
/// for a name.
proof fn lemma_named_at_most_once(entries: Seq<FsEntry>, name: Seq<u8>)
    requires
        names_distinct(entries),
    ensures
        entries.filter(has_name(name)).len() <= 1,
    decreases entries.len(),
{
    reveal(Seq::filter);
    if entries.len() > 0 {
        let front = entries.drop_last();
        assert forall|x: int, y: int| 0 <= x < y < front.len() implies (#[trigger] front[x]).name@
            != (#[trigger] front[y]).name@ by {
            assert(front[x] == entries[x] && front[y] == entries[y]);
        }
        lemma_named_at_most_once(front, name);
        if has_name(name)(entries.last()) {
            assert forall|k: int| 0 <= k < front.len() implies !has_name(name)(
                #[trigger] front[k],
            ) by {
                assert(front[k] == entries[k]);
                assert(entries[k].name@ != entries[entries.len() - 1].name@);
            }
            lemma_none_named(front, name);
        }
    }
}

} // verus!
