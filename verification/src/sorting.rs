//! Sorting dependency tables and workspace members.

use vstd::prelude::*;
use vstd::relations::total_ordering;
use vstd::seq_lib::{group_to_multiset_ensures, to_multiset_insert};
use crate::model::{
    entry_at, insert_entry, keys_of, lemma_insert_new_key, lemma_insert_present,
    lemma_remove_keeps_others, lookup, visible, Entries, TomlNode,
};
use crate::text::{
    has_prefix, lemma_text_le_antisymmetric, lemma_text_le_reflexive, lemma_text_le_total, lemma_text_le_transitive, starts_with_text, text_le,
    text_less_or_equal,
};
use crate::toml::{
    array_clear, array_get, array_len, array_push_text, array_slots, document_as_table_mut,
    document_entries, item_as_array_mut, item_as_table_mut, item_node, root_is_table, table_clear,
    table_entries, table_get_mut, table_insert, table_keys, table_remove, value_as_str,
};
use toml_edit::{Array, DocumentMut, Item, Table};

verus! {

/// The character sequences that a sequence of strings holds.
pub open spec fn views(v: Seq<String>) -> Seq<Seq<char>> {
    v.map_values(|s: String| s@)
}

/// The view of an optional string.
pub open spec fn opt_view(s: Option<&str>) -> Option<Seq<char>> {
    match s {
        Some(t) => Some(t@),
        None => None,
    }
}

/// A key has the priority prefix, when one is set.
pub open spec fn is_prefixed(key: Seq<char>, prefix: Option<Seq<char>>) -> bool {
    match prefix {
        Some(p) => has_prefix(key, p),
        None => false,
    }
}

/// The order of sorted keys: keys with the priority prefix first, and within
/// each group the order of strings.
pub open spec fn key_before(a: Seq<char>, b: Seq<char>, prefix: Option<Seq<char>>) -> bool {
    if is_prefixed(a, prefix) != is_prefixed(b, prefix) {
        is_prefixed(a, prefix)
    } else {
        text_le(a, b)
    }
}

/// Keys in sorted order.
pub open spec fn arranged(s: Seq<Seq<char>>, prefix: Option<Seq<char>>) -> bool {
    forall|i: int, j: int| 0 <= i < j < s.len() ==> key_before(s[i], s[j], prefix)
}


pub proof fn lemma_key_before_total(a: Seq<char>, b: Seq<char>, prefix: Option<Seq<char>>)
    ensures
        key_before(a, b, prefix) || key_before(b, a, prefix),
{
    lemma_text_le_total(a, b);
}

pub proof fn lemma_key_before_transitive(
    a: Seq<char>,
    b: Seq<char>,
    c: Seq<char>,
    prefix: Option<Seq<char>>,
)
    requires
        key_before(a, b, prefix),
        key_before(b, c, prefix),
    ensures
        key_before(a, c, prefix),
{
    if is_prefixed(a, prefix) == is_prefixed(b, prefix) && is_prefixed(b, prefix) == is_prefixed(
        c,
        prefix,
    ) {
        lemma_text_le_transitive(a, b, c);
    }
}

pub proof fn lemma_key_before_antisymmetric(a: Seq<char>, b: Seq<char>, prefix: Option<Seq<char>>)
    requires
        key_before(a, b, prefix),
        key_before(b, a, prefix),
    ensures
        a == b,
{
    lemma_text_le_antisymmetric(a, b);
}

/// The order of sorted keys as a relation.
pub open spec fn key_order(prefix: Option<Seq<char>>) -> spec_fn(Seq<char>, Seq<char>) -> bool {
    |a: Seq<char>, b: Seq<char>| key_before(a, b, prefix)
}

/// Keys in sorted order: prefixed keys first, each group in string order.
pub open spec fn sorted_keys(keys: Seq<Seq<char>>, prefix: Option<Seq<char>>) -> Seq<Seq<char>> {
    keys.sort_by(key_order(prefix))
}

pub proof fn lemma_key_order_total(prefix: Option<Seq<char>>)
    ensures
        total_ordering(key_order(prefix)),
{
    let r = key_order(prefix);
    assert forall|x: Seq<char>| #[trigger] r(x, x) by {
        lemma_text_le_reflexive(x);
    }
    assert forall|x: Seq<char>, y: Seq<char>| #[trigger] r(x, y) && #[trigger] r(y, x) implies x
        == y by {
        lemma_key_before_antisymmetric(x, y, prefix);
    }
    assert forall|x: Seq<char>, y: Seq<char>, z: Seq<char>| #[trigger] r(x, y) && #[trigger] r(
        y,
        z,
    ) implies r(x, z) by {
        lemma_key_before_transitive(x, y, z, prefix);
    }
    assert forall|x: Seq<char>, y: Seq<char>| #[trigger] r(x, y) || #[trigger] r(y, x) by {
        lemma_key_before_total(x, y, prefix);
    }
}

/// Two arrangements in sorted order of the same keys are the same sequence.
pub proof fn lemma_arranged_unique(a: Seq<Seq<char>>, b: Seq<Seq<char>>, prefix: Option<Seq<char>>)
    requires
        a.to_multiset() == b.to_multiset(),
        arranged(a, prefix),
        arranged(b, prefix),
    ensures
        a == b,
    decreases a.len(),
{
    broadcast use {group_to_multiset_ensures, vstd::multiset::group_multiset_axioms};

    assert(a.to_multiset().len() == a.len());
    assert(b.to_multiset().len() == b.len());
    if a.len() == 0 {
        assert(b.len() == 0);
        assert(a =~= b);
    } else {
        assert(b.len() == a.len());
        let x = a[0];
        let y = b[0];
        assert(a.contains(x));
        assert(b.to_multiset().count(x) > 0);
        assert(b.contains(x));
        assert(a.to_multiset().count(y) > 0);
        assert(a.contains(y));
        let j = choose|j: int| 0 <= j < a.len() && a[j] == y;
        let k = choose|k: int| 0 <= k < b.len() && b[k] == x;
        if j > 0 {
            assert(key_before(x, y, prefix));
        } else {
            lemma_text_le_reflexive(x);
        }
        if k > 0 {
            assert(key_before(y, x, prefix));
        } else {
            lemma_text_le_reflexive(y);
        }
        lemma_key_before_antisymmetric(x, y, prefix);
        assert(a.remove(0) =~= a.drop_first());
        assert(b.remove(0) =~= b.drop_first());
        assert(a.drop_first().to_multiset() == b.drop_first().to_multiset());
        lemma_arranged_unique(a.drop_first(), b.drop_first(), prefix);
        assert forall|i: int| 0 <= i < a.len() implies a[i] == b[i] by {
            if i > 0 {
                assert(a[i] == a.drop_first()[i - 1]);
                assert(b[i] == b.drop_first()[i - 1]);
            }
        }
        assert(a =~= b);
    }
}

/// The sorted arrangement of given keys is the one that `sorted_keys` describes.
pub proof fn lemma_arranged_is_sorted_keys(
    a: Seq<Seq<char>>,
    keys: Seq<Seq<char>>,
    prefix: Option<Seq<char>>,
)
    requires
        a.to_multiset() == keys.to_multiset(),
        arranged(a, prefix),
    ensures
        a == sorted_keys(keys, prefix),
{
    lemma_key_order_total(prefix);
    keys.lemma_sort_by_ensures(key_order(prefix));
    let s = sorted_keys(keys, prefix);
    assert forall|i: int, j: int| 0 <= i < j < s.len() implies key_before(s[i], s[j], prefix) by {
        assert(key_order(prefix)(s[i], s[j]));
    }
    lemma_arranged_unique(a, s, prefix);
}

/// A table's entries once sorted: its non-empty entries, each key with its
/// item, keys in sorted order.
pub open spec fn sorted_entries(e: Entries, prefix: Option<Seq<char>>) -> Entries {
    sorted_keys(keys_of(visible(e)), prefix).map_values(
        |k: Seq<char>| (k, lookup(e, k).unwrap()),
    )
}

/// Whether key `a` goes before key `b`.
fn key_before_exec(a: &str, b: &str, prefix: Option<&str>) -> (r: bool)
    ensures
        r == key_before(a@, b@, opt_view(prefix)),
{
    let (pa, pb) = match prefix {
        Some(p) => (starts_with_text(a, p), starts_with_text(b, p)),
        None => (false, false),
    };
    if pa != pb {
        pa
    } else {
        text_less_or_equal(a, b)
    }
}

/// Sorts keys: those with the priority prefix first, each group in string order.
pub fn arrange_keys(keys: &Vec<String>, prefix: Option<&str>) -> (r: Vec<String>)
    ensures
        views(r@).to_multiset() == views(keys@).to_multiset(),
        arranged(views(r@), opt_view(prefix)),
        views(r@) == sorted_keys(views(keys@), opt_view(prefix)),
{
    broadcast use {group_to_multiset_ensures, vstd::multiset::group_multiset_axioms};

    let ghost pv = opt_view(prefix);
    let mut out: Vec<String> = Vec::new();
    let mut i: usize = 0;
    while i < keys.len()
        invariant
            i <= keys.len(),
            pv == opt_view(prefix),
            views(out@).to_multiset() == views(keys@.take(i as int)).to_multiset(),
            arranged(views(out@), pv),
        decreases keys.len() - i,
    {
        let k = keys[i].clone();
        let mut j: usize = 0;
        while j < out.len() && key_before_exec(out[j].as_str(), k.as_str(), prefix)
            invariant
                j <= out.len(),
                pv == opt_view(prefix),
                forall|m: int| 0 <= m < j ==> key_before(#[trigger] views(out@)[m], k@, pv),
            decreases out.len() - j,
        {
            j += 1;
        }
        let ghost old_out = views(out@);
        proof {
            if j < out.len() {
                lemma_key_before_total(old_out[j as int], k@, pv);
                assert forall|m: int| j <= m < old_out.len() implies key_before(
                    k@,
                    #[trigger] old_out[m],
                    pv,
                ) by {
                    if m > j {
                        lemma_key_before_transitive(k@, old_out[j as int], old_out[m], pv);
                    }
                }
            }
        }
        out.insert(j, k);
        assert(views(out@) =~= old_out.insert(j as int, k@));
        proof {
            to_multiset_insert(old_out, j as int, k@);
            assert(views(keys@.take(i + 1)) =~= views(keys@.take(i as int)).push(keys@[i as int]@));
            assert(k@ == keys@[i as int]@);
            vstd::seq_lib::to_multiset_build(views(keys@.take(i as int)), k@);
            assert(views(out@).to_multiset() == old_out.to_multiset().insert(k@));
            let nv = views(out@);
            assert forall|a: int, b: int| 0 <= a < b < nv.len() implies key_before(
                nv[a],
                nv[b],
                pv,
            ) by {
                if b < j {
                    assert(nv[a] == old_out[a]);
                    assert(nv[b] == old_out[b]);
                } else if a < j && b == j {
                    assert(nv[a] == old_out[a]);
                } else if a < j && b > j {
                    assert(nv[a] == old_out[a]);
                    assert(nv[b] == old_out[b - 1]);
                } else if a == j {
                    assert(nv[b] == old_out[b - 1]);
                } else {
                    assert(nv[a] == old_out[a - 1]);
                    assert(nv[b] == old_out[b - 1]);
                }
            }
        }
        i += 1;
    }
    assert(keys@.take(keys.len() as int) =~= keys@);
    proof {
        lemma_arranged_is_sorted_keys(views(out@), views(keys@), pv);
    }
    out
}

/// Sorts a dependency table in place: keys with the priority prefix first,
/// each group in string order, every key keeping its item. Returns whether the
/// table had entries; an empty table is left untouched.
pub fn sort_table(table: &mut Table, prefix: Option<&str>) -> (r: bool)
    ensures
        r == (visible(table_entries(*old(table))).len() > 0),
        !r ==> *final(table) == *old(table),
        r ==> table_entries(*final(table)) == sorted_entries(
            table_entries(*old(table)),
            opt_view(prefix),
        ),
{
    broadcast use {group_to_multiset_ensures, vstd::multiset::group_multiset_axioms};

    let ghost e0 = table_entries(*table);
    let keys = table_keys(table);
    assert(views(keys@) =~= keys_of(visible(e0)));
    if keys.len() == 0 {
        return false;
    }
    let order = arrange_keys(&keys, prefix);
    let n = order.len();
    proof {
        views(keys@).lemma_multiset_has_no_duplicates();
        views(order@).lemma_multiset_has_no_duplicates_conv();
        assert forall|m: int| 0 <= m < n implies lookup(e0, #[trigger] views(order@)[m]) is Some by {
            let key = views(order@)[m];
            assert(views(order@).contains(key));
            assert(views(order@).to_multiset().count(key) > 0);
            assert(views(keys@).contains(key));
            let idx = choose|idx: int| 0 <= idx < views(keys@).len() && views(keys@)[idx] == key;
            assert(keys@[idx]@ == key);
        }
    }
    let mut items: Vec<Item> = Vec::new();
    let mut i: usize = 0;
    while i < n
        invariant
            i <= n,
            n == order@.len(),
            items@.len() == i,
            views(order@).no_duplicates(),
            forall|m: int| 0 <= m < n ==> lookup(e0, #[trigger] views(order@)[m]) is Some,
            forall|m: int|
                0 <= m < i ==> lookup(e0, views(order@)[m]) == Some(item_node(#[trigger] items@[m])),
            forall|key: Seq<char>|
                !views(order@).take(i as int).contains(key) ==> entry_at(table_entries(*table), key)
                    == entry_at(e0, key),
        decreases n - i,
    {
        let ghost cur = table_entries(*table);
        let ghost key = views(order@)[i as int];
        assert(!views(order@).take(i as int).contains(key));
        let it = table_remove(table, order[i].as_str());
        proof {
            assert forall|k2: Seq<char>| !views(order@).take(i + 1).contains(k2) implies entry_at(
                table_entries(*table),
                k2,
            ) == entry_at(e0, k2) by {
                assert(views(order@).take(i + 1)[i as int] == key);
                assert(k2 != key);
                assert forall|j: int| 0 <= j < i implies views(order@).take(i as int)[j] == views(
                    order@,
                ).take(i + 1)[j] by {}
                assert(!views(order@).take(i as int).contains(k2));
                lemma_remove_keeps_others(cur, key, k2);
            }
        }
        items.push(it.unwrap());
        i += 1;
    }
    table_clear(table);
    let ghost nodes = items@.map_values(|it: Item| item_node(it));
    let ghost all_items = items@;
    let mut i: usize = 0;
    while i < n
        invariant
            i <= n,
            n == order@.len(),
            all_items.len() == n,
            items@ == all_items.skip(i as int),
            nodes == all_items.map_values(|it: Item| item_node(it)),
            views(order@).no_duplicates(),
            table_entries(*table) == Seq::new(i as nat, |m: int| (views(order@)[m], nodes[m])),
        decreases n - i,
    {
        let ghost cur = table_entries(*table);
        let item = items.remove(0);
        assert(item == all_items[i as int]);
        proof {
            assert forall|m: int| 0 <= m < cur.len() implies (#[trigger] cur[m]).0 != views(
                order@,
            )[i as int] by {
                assert(cur[m].0 == views(order@)[m]);
            }
            lemma_insert_new_key(cur, views(order@)[i as int], item_node(item));
        }
        table_insert(table, order[i].as_str(), item);
        assert(items@ =~= all_items.skip(i + 1));
        assert(table_entries(*table) =~= Seq::new((i + 1) as nat, |m: int| (views(order@)[m], nodes[m])));
        i += 1;
    }
    assert(table_entries(*table) =~= sorted_entries(e0, opt_view(prefix)));
    true
}

/// A table after `sort_table`: sorted when it has entries, untouched otherwise.
pub open spec fn table_after_sort(e: Entries, prefix: Option<Seq<char>>) -> Entries {
    if visible(e).len() > 0 {
        sorted_entries(e, prefix)
    } else {
        e
    }
}

/// The strings among the slots of an array, in order.
pub open spec fn texts_of(slots: Seq<TomlNode>) -> Seq<Seq<char>>
    decreases slots.len(),
{
    if slots.len() == 0 {
        Seq::empty()
    } else {
        let rest = texts_of(slots.drop_last());
        match slots.last() {
            TomlNode::Text(s) => rest.push(s),
            _ => rest,
        }
    }
}

/// The `members` array once sorted: its strings in string order; other values are dropped.
pub open spec fn sorted_members(slots: Seq<TomlNode>) -> Seq<TomlNode> {
    sorted_keys(texts_of(slots), None).map_values(|s: Seq<char>| TomlNode::Text(s))
}

/// The root table after sorting the given dependency sections in turn, and
/// whether any of them had entries.
pub open spec fn sort_sections(root: Entries, sections: Seq<Seq<char>>, prefix: Option<Seq<char>>) -> (
    Entries,
    bool,
)
    decreases sections.len(),
{
    if sections.len() == 0 {
        (root, false)
    } else {
        let (r, m) = sort_sections(root, sections.drop_last(), prefix);
        let s = sections.last();
        match lookup(r, s) {
            Some(TomlNode::Table(t)) => (
                insert_entry(r, s, TomlNode::Table(table_after_sort(t, prefix))),
                m || visible(t).len() > 0,
            ),
            _ => (r, m),
        }
    }
}

/// The `workspace` table after sorting `workspace.dependencies` and
/// `workspace.members`, and whether it counts as modified.
pub open spec fn sort_workspace_table(ws: Entries, prefix: Option<Seq<char>>) -> (Entries, bool) {
    let (ws1, m1) = match lookup(ws, "dependencies"@) {
        Some(TomlNode::Table(d)) => (
            insert_entry(ws, "dependencies"@, TomlNode::Table(table_after_sort(d, prefix))),
            visible(d).len() > 0,
        ),
        _ => (ws, false),
    };
    match lookup(ws1, "members"@) {
        Some(TomlNode::Array(slots)) => (
            insert_entry(ws1, "members"@, TomlNode::Array(sorted_members(slots))),
            true,
        ),
        _ => (ws1, m1),
    }
}

/// A document's root table after sorting, and whether anything counted as modified:
/// each listed section that is a table, then `workspace.dependencies` and
/// `workspace.members`.
pub open spec fn sorted_document(root: Entries, sections: Seq<Seq<char>>, prefix: Option<Seq<char>>) -> (
    Entries,
    bool,
) {
    let (r1, m1) = sort_sections(root, sections, prefix);
    match lookup(r1, "workspace"@) {
        Some(TomlNode::Table(ws)) => {
            let (ws2, m2) = sort_workspace_table(ws, prefix);
            (insert_entry(r1, "workspace"@, TomlNode::Table(ws2)), m1 || m2)
        },
        _ => (r1, m1),
    }
}

/// Replaces an array's strings by the same strings in sorted order, dropping
/// values that are not strings.
fn sort_members(arr: &mut Array)
    ensures
        array_slots(*final(arr)) == sorted_members(array_slots(*old(arr))),
{
    let ghost slots = array_slots(*arr);
    let n = array_len(arr);
    let mut items: Vec<String> = Vec::new();
    let mut i: usize = 0;
    while i < n
        invariant
            i <= n,
            n == slots.len(),
            slots == array_slots(*arr),
            views(items@) == texts_of(slots.take(i as int)),
        decreases n - i,
    {
        assert(slots.take(i + 1).drop_last() =~= slots.take(i as int));
        match array_get(arr, i) {
            Some(v) => match value_as_str(v) {
                Some(s) => {
                    items.push(s.to_string());
                    assert(views(items@) =~= texts_of(slots.take(i as int)).push(s@));
                },
                None => {},
            },
            None => {},
        }
        i += 1;
    }
    assert(slots.take(n as int) =~= slots);
    let sorted = arrange_keys(&items, None);
    array_clear(arr);
    let mut j: usize = 0;
    while j < sorted.len()
        invariant
            j <= sorted.len(),
            array_slots(*arr) == views(sorted@).take(j as int).map_values(
                |s: Seq<char>| TomlNode::Text(s),
            ),
        decreases sorted.len() - j,
    {
        let s = sorted[j].clone();
        array_push_text(arr, s);
        assert(views(sorted@).take(j + 1).map_values(|s: Seq<char>| TomlNode::Text(s)) =~= views(
            sorted@,
        ).take(j as int).map_values(|s: Seq<char>| TomlNode::Text(s)).push(TomlNode::Text(s@)));
        j += 1;
    }
    assert(views(sorted@).take(sorted.len() as int) =~= views(sorted@));
}

/// Sorts a document: each listed dependency section, then
/// `workspace.dependencies`, then `workspace.members`. Returns whether any
/// sorted table had entries or a members array was rewritten.
pub fn sort_document(doc: &mut DocumentMut, sections: &[String], prefix: Option<&str>) -> (r: bool)
    requires
        root_is_table(*old(doc)),
    ensures
        root_is_table(*final(doc)),
        (document_entries(*final(doc)), r) == sorted_document(
            document_entries(*old(doc)),
            views(sections@),
            opt_view(prefix),
        ),
{
    let ghost root0 = document_entries(*doc);
    let ghost pv = opt_view(prefix);
    let root = document_as_table_mut(doc);
    let mut modified = false;
    let mut i: usize = 0;
    while i < sections.len()
        invariant
            i <= sections@.len(),
            pv == opt_view(prefix),
            (table_entries(*root), modified) == sort_sections(root0, views(sections@).take(i as int), pv),
        decreases sections@.len() - i,
    {
        let ghost r0 = table_entries(*root);
        let ghost key = sections@[i as int]@;
        assert(views(sections@).take(i + 1).drop_last() =~= views(sections@).take(i as int));
        assert(views(sections@).take(i + 1).last() == key);
        match table_get_mut(root, sections[i].as_str()) {
            Some(item) => {
                let ghost n0 = item_node(*item);
                match item_as_table_mut(item) {
                    Some(t) => {
                        if sort_table(t, prefix) {
                            modified = true;
                        }
                    },
                    None => {
                        proof {
                            lemma_insert_present(r0, key, n0);
                        }
                    },
                }
            },
            None => {},
        }
        i += 1;
    }
    assert(views(sections@).take(sections@.len() as int) =~= views(sections@));
    let ghost r1 = table_entries(*root);
    match table_get_mut(root, "workspace") {
        Some(wi) => {
            let ghost wn = item_node(*wi);
            match item_as_table_mut(wi) {
                Some(ws) => {
                    let ghost ws0 = table_entries(*ws);
                    match table_get_mut(ws, "dependencies") {
                        Some(di) => {
                            let ghost dn = item_node(*di);
                            match item_as_table_mut(di) {
                                Some(d) => {
                                    if sort_table(d, prefix) {
                                        modified = true;
                                    }
                                },
                                None => {
                                    proof {
                                        lemma_insert_present(ws0, "dependencies"@, dn);
                                    }
                                },
                            }
                        },
                        None => {},
                    }
                    let ghost ws1 = table_entries(*ws);
                    match table_get_mut(ws, "members") {
                        Some(mi) => {
                            let ghost mn = item_node(*mi);
                            match item_as_array_mut(mi) {
                                Some(arr) => {
                                    sort_members(arr);
                                    modified = true;
                                },
                                None => {
                                    proof {
                                        lemma_insert_present(ws1, "members"@, mn);
                                    }
                                },
                            }
                        },
                        None => {},
                    }
                },
                None => {
                    proof {
                        lemma_insert_present(r1, "workspace"@, wn);
                    }
                },
            }
        },
        None => {},
    }
    modified
}

} // verus!
