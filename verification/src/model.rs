use vstd::prelude::*;

use crate::text::{dec_of, items_of, parse_usize_spec, split_ws};

verus! {

// ---------------------------------------------------------------------------
// The model of the registry: conversations in insertion order, each with its
// ordered list of item names.
// ---------------------------------------------------------------------------

pub type RegModel = Seq<(i64, Seq<Seq<char>>)>;

/// Index of the entry for conversation `id`, or -1 when there is none.
pub open spec fn key_index(m: RegModel, id: i64) -> int
    decreases m.len(),
{
    if m.len() == 0 {
        -1
    } else if m[0].0 == id {
        0
    } else {
        let r = key_index(m.drop_first(), id);
        if r < 0 {
            -1
        } else {
            r + 1
        }
    }
}

pub open spec fn has_key(m: RegModel, id: i64) -> bool {
    key_index(m, id) >= 0
}

/// The list of the conversation `id`; meaningful only when `has_key(m, id)`.
pub open spec fn list_at(m: RegModel, id: i64) -> Seq<Seq<char>> {
    m[key_index(m, id)].1
}

/// The list a mutation starts from: the conversation's list, or empty when the
/// conversation has none yet.
pub open spec fn list_or_empty(m: RegModel, id: i64) -> Seq<Seq<char>> {
    if has_key(m, id) {
        list_at(m, id)
    } else {
        Seq::empty()
    }
}

pub open spec fn distinct_items(list: Seq<Seq<char>>) -> bool {
    forall|i: int, j: int| 0 <= i < j < list.len() ==> list[i] != list[j]
}

/// Well-formedness: one entry per conversation, no duplicate item in a list.
pub open spec fn reg_wf(m: RegModel) -> bool {
    &&& forall|i: int, j: int| 0 <= i < j < m.len() ==> m[i].0 != m[j].0
    &&& forall|k: int| 0 <= k < m.len() ==> distinct_items(#[trigger] m[k].1)
}

/// Replace the list of `id`, or append a new entry when `id` has none.
pub open spec fn upsert(m: RegModel, id: i64, list: Seq<Seq<char>>) -> RegModel {
    if has_key(m, id) {
        m.update(key_index(m, id), (id, list))
    } else {
        m.push((id, list))
    }
}

pub proof fn lemma_key_index(m: RegModel, id: i64)
    ensures
        -1 <= key_index(m, id) < m.len(),
        key_index(m, id) >= 0 ==> m[key_index(m, id)].0 == id,
        forall|j: int| 0 <= j < key_index(m, id) ==> m[j].0 != id,
        key_index(m, id) == -1 ==> forall|j: int| 0 <= j < m.len() ==> m[j].0 != id,
    decreases m.len(),
{
    if m.len() == 0 {
    } else if m[0].0 == id {
    } else {
        let t = m.drop_first();
        lemma_key_index(t, id);
        assert forall|j: int| 1 <= j < m.len() implies m[j] == t[j - 1] by {}
    }
}

pub proof fn lemma_key_index_at(m: RegModel, id: i64, i: int)
    requires
        0 <= i < m.len(),
        m[i].0 == id,
        forall|j: int| 0 <= j < i ==> m[j].0 != id,
    ensures
        key_index(m, id) == i,
    decreases i,
{
    if i == 0 {
    } else {
        let t = m.drop_first();
        assert forall|j: int| 0 <= j < i - 1 implies t[j].0 != id by {
            assert(t[j] == m[j + 1]);
        }
        assert(t[i - 1] == m[i]);
        lemma_key_index_at(t, id, i - 1);
    }
}

pub proof fn lemma_key_index_none(m: RegModel, id: i64)
    requires
        forall|j: int| 0 <= j < m.len() ==> m[j].0 != id,
    ensures
        key_index(m, id) == -1,
    decreases m.len(),
{
    if m.len() == 0 {
    } else {
        let t = m.drop_first();
        assert forall|j: int| 0 <= j < t.len() implies t[j].0 != id by {
            assert(t[j] == m[j + 1]);
        }
        lemma_key_index_none(t, id);
    }
}

/// After `upsert(m, id, l)` the conversation `id` holds exactly `l`.
pub proof fn lemma_upsert_own(m: RegModel, id: i64, l: Seq<Seq<char>>)
    ensures
        has_key(upsert(m, id, l), id),
        list_at(upsert(m, id, l), id) == l,
{
    lemma_key_index(m, id);
    if has_key(m, id) {
        let k = key_index(m, id);
        let m2 = m.update(k, (id, l));
        assert forall|j: int| 0 <= j < k implies m2[j].0 != id by {
            assert(m2[j] == m[j]);
        }
        lemma_key_index_at(m2, id, k);
    } else {
        let m2 = m.push((id, l));
        assert forall|j: int| 0 <= j < m.len() implies m2[j].0 != id by {
            assert(m2[j] == m[j]);
        }
        lemma_key_index_at(m2, id, m.len() as int);
    }
}

/// `upsert` touches no conversation other than its own.
pub proof fn lemma_upsert_frame(m: RegModel, id: i64, l: Seq<Seq<char>>, other: i64)
    requires
        other != id,
    ensures
        has_key(upsert(m, id, l), other) == has_key(m, other),
        has_key(m, other) ==> list_at(upsert(m, id, l), other) == list_at(m, other),
    decreases m.len(),
{
    lemma_key_index(m, id);
    lemma_key_index(m, other);
    if has_key(m, id) {
        let k = key_index(m, id);
        let m2 = m.update(k, (id, l));
        if has_key(m, other) {
            let ko = key_index(m, other);
            assert(ko != k);
            assert(m2[ko] == m[ko]);
            assert forall|j: int| 0 <= j < ko implies m2[j].0 != other by {
                if j == k {
                } else {
                    assert(m2[j] == m[j]);
                }
            }
            lemma_key_index_at(m2, other, ko);
        } else {
            assert forall|j: int| 0 <= j < m2.len() implies m2[j].0 != other by {
                if j == k {
                } else {
                    assert(m2[j] == m[j]);
                }
            }
            lemma_key_index_none(m2, other);
        }
    } else {
        let m2 = m.push((id, l));
        if has_key(m, other) {
            let ko = key_index(m, other);
            assert(m2[ko] == m[ko]);
            assert forall|j: int| 0 <= j < ko implies m2[j].0 != other by {
                assert(m2[j] == m[j]);
            }
            lemma_key_index_at(m2, other, ko);
        } else {
            assert forall|j: int| 0 <= j < m2.len() implies m2[j].0 != other by {
                if j < m.len() {
                    assert(m2[j] == m[j]);
                }
            }
            lemma_key_index_none(m2, other);
        }
    }
}

pub proof fn lemma_upsert_wf(m: RegModel, id: i64, l: Seq<Seq<char>>)
    requires
        reg_wf(m),
        distinct_items(l),
    ensures
        reg_wf(upsert(m, id, l)),
{
    lemma_key_index(m, id);
    let m2 = upsert(m, id, l);
    if has_key(m, id) {
        let k = key_index(m, id);
        assert forall|i: int, j: int| 0 <= i < j < m2.len() implies m2[i].0 != m2[j].0 by {
            assert(m2[i].0 == m[i].0);
            assert(m2[j].0 == m[j].0);
        }
        assert forall|i: int| 0 <= i < m2.len() implies distinct_items(#[trigger] m2[i].1) by {
            if i != k {
                assert(m2[i] == m[i]);
            }
        }
    } else {
        assert forall|i: int, j: int| 0 <= i < j < m2.len() implies m2[i].0 != m2[j].0 by {
            if j < m.len() {
                assert(m2[i] == m[i]);
                assert(m2[j] == m[j]);
            } else {
                assert(m2[i] == m[i]);
                assert(m[i].0 != id);
            }
        }
        assert forall|i: int| 0 <= i < m2.len() implies distinct_items(#[trigger] m2[i].1) by {
            if i < m.len() {
                assert(m2[i] == m[i]);
            }
        }
    }
}

// ---------------------------------------------------------------------------
// The reply texts
// ---------------------------------------------------------------------------

pub open spec fn msg_added(item: Seq<char>) -> Seq<char> {
    "Successfully added item("@ + item + ") to shopping list.\n"@
}

pub open spec fn msg_already() -> Seq<char> {
    "You already have the item on the list.\n"@
}

pub open spec fn msg_removed() -> Seq<char> {
    "Successfully removed item from list.\n"@
}

pub open spec fn msg_bad_index() -> Seq<char> {
    "No item at that index.\n"@
}

pub open spec fn msg_removed_all() -> Seq<char> {
    "Removed all items from the shopping list"@
}

pub open spec fn msg_not_subbed() -> Seq<char> {
    "Not subbed to anything..."@
}

// ---------------------------------------------------------------------------
// Adding items
// ---------------------------------------------------------------------------

/// One item offered to a list: appended when new, reported when already there.
pub open spec fn add_step(list: Seq<Seq<char>>, item: Seq<char>) -> (Seq<Seq<char>>, Seq<char>, bool) {
    if list.contains(item) {
        (list, msg_already(), false)
    } else {
        (list.push(item), msg_added(item), true)
    }
}

/// All items of one `add` command, applied in input order. Yields the new
/// list, the concatenated reply lines, and whether anything was appended.
pub open spec fn add_all(list: Seq<Seq<char>>, items: Seq<Seq<char>>) -> (Seq<Seq<char>>, Seq<char>, bool)
    decreases items.len(),
{
    if items.len() == 0 {
        (list, Seq::empty(), false)
    } else {
        let s = add_step(list, items[0]);
        let r = add_all(s.0, items.drop_first());
        (r.0, s.1 + r.1, s.2 || r.2)
    }
}

/// The whole `add` command on the registry: split the raw text on commas, trim
/// each piece, drop empty pieces, and offer the rest to the conversation's
/// list (created empty when absent). The flag says whether the registry
/// changed (an item appended, or the entry created).
pub open spec fn add_spec(m: RegModel, id: i64, raw: Seq<char>) -> (RegModel, Seq<char>, bool) {
    let r = add_all(list_or_empty(m, id), items_of(raw));
    (upsert(m, id, r.0), r.1, r.2 || !has_key(m, id))
}

// ---------------------------------------------------------------------------
// Removing items
// ---------------------------------------------------------------------------

/// One removal index: the item at that position leaves the list; an index
/// beyond the end is reported and skipped.
pub open spec fn remove_step(list: Seq<Seq<char>>, idx: usize) -> (Seq<Seq<char>>, Seq<char>, bool) {
    if (idx as int) < list.len() {
        (list.remove(idx as int), msg_removed(), true)
    } else {
        (list, msg_bad_index(), false)
    }
}

/// All removal indices of one command, applied in the order given; each index
/// addresses the list as the previous removals left it.
pub open spec fn remove_many(list: Seq<Seq<char>>, idxs: Seq<usize>) -> (Seq<Seq<char>>, Seq<char>, bool)
    decreases idxs.len(),
{
    if idxs.len() == 0 {
        (list, Seq::empty(), false)
    } else {
        let s = remove_step(list, idxs[0]);
        let r = remove_many(s.0, idxs.drop_first());
        (r.0, s.1 + r.1, s.2 || r.2)
    }
}

/// The indices of a `remove` command: tokens parsed as indices up to the first
/// token that is no index; everything after it is dropped.
pub open spec fn parse_indices(tokens: Seq<Seq<char>>) -> Seq<usize>
    decreases tokens.len(),
{
    if tokens.len() == 0 {
        Seq::empty()
    } else {
        match parse_usize_spec(tokens[0]) {
            Option::None => Seq::empty(),
            Option::Some(v) => seq![v] + parse_indices(tokens.drop_first()),
        }
    }
}

/// The whole `remove` command: the literal "all" empties the conversation's
/// list; otherwise whitespace-separated indices are applied in order. The
/// flag says whether the registry changed.
pub open spec fn remove_spec(m: RegModel, id: i64, raw: Seq<char>) -> (RegModel, Seq<char>, bool) {
    if raw == "all"@ {
        if has_key(m, id) {
            (upsert(m, id, Seq::empty()), msg_removed_all(), list_at(m, id).len() > 0)
        } else {
            (m, msg_removed_all(), false)
        }
    } else if !has_key(m, id) {
        (m, msg_not_subbed(), false)
    } else {
        let r = remove_many(list_at(m, id), parse_indices(split_ws(raw)));
        (upsert(m, id, r.0), r.1, r.2)
    }
}

// ---------------------------------------------------------------------------
// Listing
// ---------------------------------------------------------------------------

/// The listing lines from position `i` on: each item on its own line after its
/// current index.
pub open spec fn listing_from(list: Seq<Seq<char>>, i: int) -> Seq<char>
    decreases list.len() - i,
{
    if i < 0 || i >= list.len() {
        Seq::empty()
    } else {
        "\n"@ + dec_of(i as nat) + "\t\t"@ + list[i] + listing_from(list, i + 1)
    }
}

pub open spec fn listing_of(list: Seq<Seq<char>>) -> Seq<char> {
    listing_from(list, 0)
}

/// The `list` command: the rendered listing, or the fixed reply for a
/// conversation with no list.
pub open spec fn list_spec(m: RegModel, id: i64) -> Seq<char> {
    if has_key(m, id) {
        listing_of(list_at(m, id))
    } else {
        msg_not_subbed()
    }
}

// ---------------------------------------------------------------------------
// Preservation of well-formedness
// ---------------------------------------------------------------------------

pub proof fn lemma_add_all_distinct(list: Seq<Seq<char>>, items: Seq<Seq<char>>)
    requires
        distinct_items(list),
    ensures
        distinct_items(add_all(list, items).0),
    decreases items.len(),
{
    if items.len() > 0 {
        let s = add_step(list, items[0]);
        if !list.contains(items[0]) {
            let l1 = list.push(items[0]);
            assert forall|i: int, j: int| 0 <= i < j < l1.len() implies l1[i] != l1[j] by {
                if j < list.len() {
                } else {
                    assert(l1[j] == items[0]);
                    assert(l1[i] == list[i]);
                    if l1[i] == items[0] {
                        assert(list.contains(items[0]));
                    }
                }
            }
        }
        lemma_add_all_distinct(s.0, items.drop_first());
    }
}

pub proof fn lemma_remove_many_distinct(list: Seq<Seq<char>>, idxs: Seq<usize>)
    requires
        distinct_items(list),
    ensures
        distinct_items(remove_many(list, idxs).0),
    decreases idxs.len(),
{
    if idxs.len() > 0 {
        let s = remove_step(list, idxs[0]);
        if (idxs[0] as int) < list.len() {
            let k = idxs[0] as int;
            let l1 = list.remove(k);
            assert forall|i: int, j: int| 0 <= i < j < l1.len() implies l1[i] != l1[j] by {
                let i0 = if i < k { i } else { i + 1 };
                let j0 = if j < k { j } else { j + 1 };
                assert(l1[i] == list[i0]);
                assert(l1[j] == list[j0]);
            }
        }
        lemma_remove_many_distinct(s.0, idxs.drop_first());
    }
}

/// An `add` command keeps the registry well-formed.
pub proof fn lemma_add_spec_wf(m: RegModel, id: i64, raw: Seq<char>)
    requires
        reg_wf(m),
    ensures
        reg_wf(add_spec(m, id, raw).0),
{
    let list0 = list_or_empty(m, id);
    lemma_key_index(m, id);
    assert(distinct_items(list0));
    lemma_add_all_distinct(list0, items_of(raw));
    lemma_upsert_wf(m, id, add_all(list0, items_of(raw)).0);
}

/// A `remove` command keeps the registry well-formed.
pub proof fn lemma_remove_spec_wf(m: RegModel, id: i64, raw: Seq<char>)
    requires
        reg_wf(m),
    ensures
        reg_wf(remove_spec(m, id, raw).0),
{
    lemma_key_index(m, id);
    if raw == "all"@ {
        if has_key(m, id) {
            lemma_upsert_wf(m, id, Seq::empty());
        }
    } else if has_key(m, id) {
        lemma_remove_many_distinct(list_at(m, id), parse_indices(split_ws(raw)));
        lemma_upsert_wf(m, id, remove_many(list_at(m, id), parse_indices(split_ws(raw))).0);
    }
}

// ---------------------------------------------------------------------------
// Laws
// ---------------------------------------------------------------------------

/// Items all new to the list and pairwise distinct are appended in input
/// order: the list afterwards is the old list followed by exactly those items.
pub proof fn lemma_add_distinct_appends(list: Seq<Seq<char>>, items: Seq<Seq<char>>)
    requires
        forall|i: int, j: int| 0 <= i < j < items.len() ==> items[i] != items[j],
        forall|i: int| 0 <= i < items.len() ==> !list.contains(#[trigger] items[i]),
    ensures
        add_all(list, items).0 == list + items,
        add_all(list, items).2 == (items.len() > 0),
    decreases items.len(),
{
    if items.len() == 0 {
        assert(list + items =~= list);
    } else {
        let item = items[0];
        assert(!list.contains(item));
        let l1 = list.push(item);
        let rest = items.drop_first();
        assert forall|i: int| 0 <= i < rest.len() implies !l1.contains(#[trigger] rest[i]) by {
            assert(rest[i] == items[i + 1]);
            if l1.contains(rest[i]) {
                let k = choose|k: int| 0 <= k < l1.len() && l1[k] == rest[i];
                if k < list.len() {
                    assert(list.contains(rest[i]));
                } else {
                    assert(l1[k] == item);
                    assert(items[0] == items[i + 1]);
                }
            }
        }
        assert forall|i: int, j: int| 0 <= i < j < rest.len() implies rest[i] != rest[j] by {
            assert(rest[i] == items[i + 1]);
            assert(rest[j] == items[j + 1]);
        }
        lemma_add_distinct_appends(l1, rest);
        assert(l1 + rest =~= list + items);
    }
}

/// After a conversation's `add`, its list is exactly what `add_all` yields.
pub proof fn lemma_add_spec_list(m: RegModel, id: i64, raw: Seq<char>)
    ensures
        has_key(add_spec(m, id, raw).0, id),
        list_at(add_spec(m, id, raw).0, id) == add_all(list_or_empty(m, id), items_of(raw)).0,
{
    lemma_upsert_own(m, id, add_all(list_or_empty(m, id), items_of(raw)).0);
}

/// Adding an item a second time reports it as already present and leaves the
/// list without a duplicate: it stays exactly as the first add left it.
pub proof fn lemma_add_twice(list: Seq<Seq<char>>, item: Seq<char>)
    ensures
        ({
            let l1 = add_all(list, seq![item]).0;
            let again = add_all(l1, seq![item]);
            l1.contains(item) && again.0 == l1 && again.1 == msg_already() && !again.2
        }),
{
    reveal_with_fuel(add_all, 3);
    let l1 = add_all(list, seq![item]).0;
    assert(seq![item].drop_first() =~= Seq::<Seq<char>>::empty());
    assert(add_all(list, seq![item].drop_first()).0 == list);
    if list.contains(item) {
        assert(l1 == list);
    } else {
        assert(l1 == list.push(item));
        assert(l1[list.len() as int] == item);
        assert(l1.contains(item));
    }
    let again = add_all(l1, seq![item]);
    assert(again.1 == msg_already() + Seq::<char>::empty());
    assert(msg_already() + Seq::<char>::empty() =~= msg_already());
}

/// `add` commands append in command order: when every item named by two
/// successive commands is new and named once, the conversation's list
/// afterwards is the old list, then the first command's items, then the
/// second's, in exactly that order.
pub proof fn lemma_adds_in_order(m: RegModel, id: i64, raw1: Seq<char>, raw2: Seq<char>)
    requires
        ({
            let all = items_of(raw1) + items_of(raw2);
            &&& forall|i: int, j: int| 0 <= i < j < all.len() ==> all[i] != all[j]
            &&& forall|i: int|
                0 <= i < all.len() ==> !list_or_empty(m, id).contains(#[trigger] all[i])
        }),
    ensures
        ({
            let m1 = add_spec(m, id, raw1).0;
            let m2 = add_spec(m1, id, raw2).0;
            list_at(m2, id) == list_or_empty(m, id) + items_of(raw1) + items_of(raw2)
        }),
{
    let l0 = list_or_empty(m, id);
    let its1 = items_of(raw1);
    let its2 = items_of(raw2);
    let all = its1 + its2;
    assert forall|i: int, j: int| 0 <= i < j < its1.len() implies its1[i] != its1[j] by {
        assert(all[i] == its1[i]);
        assert(all[j] == its1[j]);
    }
    assert forall|i: int| 0 <= i < its1.len() implies !l0.contains(#[trigger] its1[i]) by {
        assert(all[i] == its1[i]);
    }
    lemma_add_distinct_appends(l0, its1);
    let l1 = add_all(l0, its1).0;
    assert(l1 == l0 + its1);
    let m1 = add_spec(m, id, raw1).0;
    lemma_upsert_own(m, id, l1);
    assert(list_or_empty(m1, id) == l1);
    assert forall|i: int, j: int| 0 <= i < j < its2.len() implies its2[i] != its2[j] by {
        assert(all[its1.len() + i] == its2[i]);
        assert(all[its1.len() + j] == its2[j]);
    }
    assert forall|i: int| 0 <= i < its2.len() implies !l1.contains(#[trigger] its2[i]) by {
        assert(all[its1.len() + i] == its2[i]);
        if l1.contains(its2[i]) {
            let w = choose|w: int| 0 <= w < l1.len() && l1[w] == its2[i];
            if w < l0.len() {
                assert(l0.contains(its2[i]));
                assert(l0.contains(all[its1.len() + i]));
            } else {
                assert(l1[w] == its1[w - l0.len()]);
                assert(all[w - l0.len()] == all[its1.len() + i]);
            }
        }
    }
    lemma_add_distinct_appends(l1, its2);
    let l2 = add_all(l1, its2).0;
    assert(l2 == l1 + its2);
    let m2 = add_spec(m1, id, raw2).0;
    lemma_upsert_own(m1, id, l2);
    assert(l0 + its1 + its2 == l2);
}

/// Commands of two different conversations never disturb each other: after an
/// `add` for `id1` and then an `add` for `id2`, each conversation holds
/// exactly what its own command produced.
pub proof fn lemma_add_two_conversations(
    m: RegModel,
    id1: i64,
    raw1: Seq<char>,
    id2: i64,
    raw2: Seq<char>,
)
    requires
        id1 != id2,
    ensures
        ({
            let m1 = add_spec(m, id1, raw1).0;
            let m2 = add_spec(m1, id2, raw2).0;
            &&& has_key(m2, id1)
            &&& has_key(m2, id2)
            &&& list_at(m2, id1) == add_all(list_or_empty(m, id1), items_of(raw1)).0
            &&& list_at(m2, id2) == add_all(list_or_empty(m, id2), items_of(raw2)).0
        }),
{
    let l1 = add_all(list_or_empty(m, id1), items_of(raw1)).0;
    let m1 = add_spec(m, id1, raw1).0;
    lemma_upsert_own(m, id1, l1);
    lemma_upsert_frame(m, id1, l1, id2);
    assert(list_or_empty(m1, id2) == list_or_empty(m, id2));
    let l2 = add_all(list_or_empty(m1, id2), items_of(raw2)).0;
    let m2 = add_spec(m1, id2, raw2).0;
    lemma_upsert_own(m1, id2, l2);
    lemma_upsert_frame(m1, id2, l2, id1);
}

} // verus!
