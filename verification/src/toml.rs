//! The parts of `toml_edit` that this library uses, with their contracts
//! stated over the model in [`crate::model`].

use vstd::prelude::*;
use crate::model::{distinct_keys, document_keys_distinct, entry_at, insert_entry, keys_of, lookup, remove_entry, visible, TomlNode};
use toml_edit::{Array, DocumentMut, InlineTable, Item, Table, TomlError, Value};

verus! {

#[verifier::external_type_specification]
#[verifier::external_body]
pub struct ExDocumentMut(DocumentMut);

#[verifier::external_type_specification]
#[verifier::external_body]
pub struct ExTable(Table);

#[verifier::external_type_specification]
#[verifier::external_body]
pub struct ExInlineTable(InlineTable);

#[verifier::external_type_specification]
#[verifier::external_body]
pub struct ExArray(Array);

#[verifier::external_type_specification]
#[verifier::external_body]
pub struct ExItem(Item);

#[verifier::external_type_specification]
#[verifier::external_body]
pub struct ExValue(Value);

#[verifier::external_type_specification]
#[verifier::external_body]
pub struct ExTomlError(TomlError);


/// The entries of a document's root table.
pub uninterp spec fn document_entries(d: DocumentMut) -> Seq<(Seq<char>, TomlNode)>;

/// Whether a document's root item (`DocumentMut::as_item`) is a standard
/// table, as it is for every parsed document; `as_table` panics otherwise.
pub uninterp spec fn root_is_table(d: DocumentMut) -> bool;

/// The entries of a standard table; a table maps each key once (an
/// `IndexMap`), so its keys are distinct.
pub uninterp spec fn table_entries(t: Table) -> Seq<(Seq<char>, TomlNode)>;



/// The entries of an inline table.
pub uninterp spec fn inline_entries(t: InlineTable) -> Seq<(Seq<char>, TomlNode)>;

/// The slots of an array, placeholders included.
pub uninterp spec fn array_slots(a: Array) -> Seq<TomlNode>;

/// What a value holds: its string, boolean, array slots or inline-table
/// entries, and for an integer, float or date-time the value itself.
pub uninterp spec fn value_node(v: Value) -> TomlNode;

/// The document that parsing a text yields, if the text is valid TOML.
pub uninterp spec fn parsed_document(text: Seq<char>) -> Option<Seq<(Seq<char>, TomlNode)>>;

/// What an item holds.
pub uninterp spec fn item_node(i: Item) -> TomlNode;


// ---------------------------------------------------------------- documents

/// `str::parse::<DocumentMut>`: parses a TOML text. Whether it succeeds and
/// what it yields depend on the text alone. The root of a parsed document is a
/// table, and every table maps each key once (an `IndexMap`).
#[verifier::external_body]
pub(crate) fn parse_document(text: &str) -> (r: Result<DocumentMut, TomlError>)
    ensures
        r is Ok <==> parsed_document(text@) is Some,
        r matches Ok(d) ==> parsed_document(text@) == Some(document_entries(d)),
        r matches Ok(d) ==> root_is_table(d),
        r matches Ok(d) ==> document_keys_distinct(document_entries(d)),
{
    text.parse::<DocumentMut>()
}

/// `DocumentMut::as_table`: the root table. It panics unless the root item
/// is a table, which the `requires` rules out.
#[verifier::external_body]
pub(crate) fn document_as_table(d: &DocumentMut) -> (r: &Table)
    requires
        root_is_table(*d),
    ensures
        table_entries(*r) == document_entries(*d),
        distinct_keys(table_entries(*r)),
{
    d.as_table()
}

/// `DocumentMut::as_table_mut`: the root table, mutably. It panics unless
/// the root item is a table, which the `requires` rules out; through the
/// table handed out the root stays a table.
#[verifier::external_body]
pub(crate) fn document_as_table_mut(d: &mut DocumentMut) -> (r: &mut Table)
    requires
        root_is_table(*old(d)),
    ensures
        table_entries(*r) == document_entries(*old(d)),
        distinct_keys(table_entries(*r)),
        document_entries(*final(d)) == table_entries(*final(r)),
        root_is_table(*final(d)),
{
    d.as_table_mut()
}

// ---------------------------------------------------------------- items

/// `Item::as_table`: the standard table an item holds.
#[verifier::external_body]
pub(crate) fn item_as_table(i: &Item) -> (r: Option<&Table>)
    ensures
        r is Some <==> item_node(*i) is Table,
        r matches Some(t) ==> item_node(*i) == TomlNode::Table(table_entries(*t)),
        r matches Some(t) ==> distinct_keys(table_entries(*t)),
{
    i.as_table()
}

/// `Item::as_table_mut`: the standard table an item holds, mutably.
#[verifier::external_body]
pub(crate) fn item_as_table_mut(i: &mut Item) -> (r: Option<&mut Table>)
    ensures
        r is Some <==> item_node(*old(i)) is Table,
        r is Some ==> item_node(*old(i)) == TomlNode::Table(table_entries(*r.unwrap())),
        r is Some ==> item_node(*final(i)) == TomlNode::Table(table_entries(*final(r.unwrap()))),
        r is Some ==> distinct_keys(table_entries(*r.unwrap())),
        r is None ==> *final(i) == *old(i),
{
    i.as_table_mut()
}

/// `Item::as_inline_table`: the inline table an item holds as its value.
#[verifier::external_body]
pub(crate) fn item_as_inline_table(i: &Item) -> (r: Option<&InlineTable>)
    ensures
        r is Some <==> item_node(*i) is Inline,
        r matches Some(t) ==> item_node(*i) == TomlNode::Inline(inline_entries(*t)),
{
    i.as_inline_table()
}

/// `Item::as_inline_table_mut`: the inline table an item holds, mutably.
#[verifier::external_body]
pub(crate) fn item_as_inline_table_mut(i: &mut Item) -> (r: Option<&mut InlineTable>)
    ensures
        r is Some <==> item_node(*old(i)) is Inline,
        r is Some ==> item_node(*old(i)) == TomlNode::Inline(inline_entries(*r.unwrap())),
        r is Some ==> item_node(*final(i)) == TomlNode::Inline(
            inline_entries(*final(r.unwrap())),
        ),
        r is None ==> *final(i) == *old(i),
{
    i.as_inline_table_mut()
}

/// `Item::as_array_mut`: the array an item holds as its value, mutably.
#[verifier::external_body]
pub(crate) fn item_as_array_mut(i: &mut Item) -> (r: Option<&mut Array>)
    ensures
        r is Some <==> item_node(*old(i)) is Array,
        r is Some ==> item_node(*old(i)) == TomlNode::Array(array_slots(*r.unwrap())),
        r is Some ==> item_node(*final(i)) == TomlNode::Array(array_slots(*final(r.unwrap()))),
        r is None ==> *final(i) == *old(i),
{
    i.as_array_mut()
}

/// `Item::as_str`: the string an item holds as its value.
#[verifier::external_body]
pub(crate) fn item_as_str(i: &Item) -> (r: Option<&str>)
    ensures
        r is Some <==> item_node(*i) is Text,
        r matches Some(s) ==> item_node(*i) == TomlNode::Text(s@),
{
    i.as_str()
}

/// `Item::as_bool`: the boolean an item holds as its value.
#[verifier::external_body]
pub(crate) fn item_as_bool(i: &Item) -> (r: Option<bool>)
    ensures
        r is Some <==> item_node(*i) is Flag,
        r matches Some(b) ==> item_node(*i) == TomlNode::Flag(b),
{
    i.as_bool()
}

/// `toml_edit::table`: an item holding a new, empty standard table.
#[verifier::external_body]
pub(crate) fn new_table_item() -> (r: Item)
    ensures
        item_node(r) == TomlNode::Table(Seq::empty()),
{
    toml_edit::table()
}

/// `toml_edit::value` on a string: an item holding that string.
#[verifier::external_body]
pub(crate) fn text_item(s: &str) -> (r: Item)
    ensures
        item_node(r) == TomlNode::Text(s@),
{
    toml_edit::value(s)
}

/// `toml_edit::value` on an inline table: an item holding that inline table.
#[verifier::external_body]
pub(crate) fn inline_table_item(t: InlineTable) -> (r: Item)
    ensures
        item_node(r) == TomlNode::Inline(inline_entries(t)),
{
    toml_edit::value(t)
}

/// `toml_edit::value` on a boolean: an item holding that boolean.
#[verifier::external_body]
pub(crate) fn flag_item(b: bool) -> (r: Item)
    ensures
        item_node(r) == TomlNode::Flag(b),
{
    toml_edit::value(b)
}

// ---------------------------------------------------------------- values

/// `Value::as_str`: the string a value holds.
#[verifier::external_body]
pub(crate) fn value_as_str(v: &Value) -> (r: Option<&str>)
    ensures
        r is Some <==> value_node(*v) is Text,
        r matches Some(s) ==> value_node(*v) == TomlNode::Text(s@),
{
    v.as_str()
}

/// `Value::as_bool`: the boolean a value holds.
#[verifier::external_body]
pub(crate) fn value_as_bool(v: &Value) -> (r: Option<bool>)
    ensures
        r is Some <==> value_node(*v) is Flag,
        r matches Some(b) ==> value_node(*v) == TomlNode::Flag(b),
{
    v.as_bool()
}

/// `Value::from` on a boolean.
#[verifier::external_body]
pub(crate) fn flag_value(b: bool) -> (r: Value)
    ensures
        value_node(r) == TomlNode::Flag(b),
{
    Value::from(b)
}

// ---------------------------------------------------------------- standard tables

/// `Table::iter`, keys only: the keys of the non-empty entries, in order.
#[verifier::external_body]
pub(crate) fn table_keys(t: &Table) -> (r: Vec<String>)
    ensures
        r@.map_values(|s: String| s@) == keys_of(visible(table_entries(*t))),
        forall|i: int, j: int| 0 <= i < j < r@.len() ==> r@[i]@ != r@[j]@,
        forall|i: int|
            0 <= i < r@.len() ==> lookup(table_entries(*t), #[trigger] r@[i]@) == Some(
                visible(table_entries(*t))[i].1,
            ),
{
    t.iter().map(|(k, _)| k.to_string()).collect()
}

/// `Table::get`: the non-empty item under a key.
#[verifier::external_body]
pub(crate) fn table_get<'a>(t: &'a Table, key: &str) -> (r: Option<&'a Item>)
    ensures
        r is Some <==> lookup(table_entries(*t), key@) is Some,
        r matches Some(i) ==> lookup(table_entries(*t), key@) == Some(item_node(*i)),
{
    t.get(key)
}

/// `Table::get_mut`: the non-empty item under a key, mutably.
#[verifier::external_body]
pub(crate) fn table_get_mut<'a>(t: &'a mut Table, key: &str) -> (r: Option<&'a mut Item>)
    ensures
        r is Some <==> lookup(table_entries(*old(t)), key@) is Some,
        r is Some ==> lookup(table_entries(*old(t)), key@) == Some(item_node(*r.unwrap())),
        r is Some ==> table_entries(*final(t)) == insert_entry(
            table_entries(*old(t)),
            key@,
            item_node(*final(r.unwrap())),
        ),
        r is None ==> *final(t) == *old(t),
{
    t.get_mut(key)
}

/// `Table::contains_key`: whether a non-empty item is stored under a key.
#[verifier::external_body]
pub(crate) fn table_contains_key(t: &Table, key: &str) -> (r: bool)
    ensures
        r == (lookup(table_entries(*t), key@) is Some),
{
    t.contains_key(key)
}

/// `Table::insert`: stores an item under a key, in place if the key is there,
/// else at the end.
#[verifier::external_body]
pub(crate) fn table_insert(t: &mut Table, key: &str, item: Item)
    ensures
        table_entries(*final(t)) == insert_entry(table_entries(*old(t)), key@, item_node(item)),
{
    t.insert(key, item);
}

/// `Table::remove`: takes out the entry under a key, keeping the others in order.
#[verifier::external_body]
pub(crate) fn table_remove(t: &mut Table, key: &str) -> (r: Option<Item>)
    ensures
        table_entries(*final(t)) == remove_entry(table_entries(*old(t)), key@),
        r is Some <==> entry_at(table_entries(*old(t)), key@) is Some,
        r matches Some(i) ==> entry_at(table_entries(*old(t)), key@) == Some(item_node(i)),
{
    t.remove(key)
}

/// `Table::clear`: removes every entry.
#[verifier::external_body]
pub(crate) fn table_clear(t: &mut Table)
    ensures
        table_entries(*final(t)) == Seq::<(Seq<char>, TomlNode)>::empty(),
{
    t.clear()
}

// ---------------------------------------------------------------- inline tables

/// `InlineTable::new`: an empty inline table.
#[verifier::external_body]
pub(crate) fn new_inline_table() -> (r: InlineTable)
    ensures
        inline_entries(r) == Seq::<(Seq<char>, TomlNode)>::empty(),
{
    InlineTable::new()
}

/// `InlineTable::get`: the value under a key.
#[verifier::external_body]
pub(crate) fn inline_get<'a>(t: &'a InlineTable, key: &str) -> (r: Option<&'a Value>)
    ensures
        r is Some <==> lookup(inline_entries(*t), key@) is Some,
        r matches Some(v) ==> lookup(inline_entries(*t), key@) == Some(value_node(*v)),
{
    t.get(key)
}

/// `InlineTable::insert`: stores a value under a key, in place if the key is
/// there, else at the end.
#[verifier::external_body]
pub(crate) fn inline_insert(t: &mut InlineTable, key: &str, v: Value)
    ensures
        inline_entries(*final(t)) == insert_entry(inline_entries(*old(t)), key@, value_node(v)),
{
    t.insert(key, v);
}

/// `InlineTable::remove`: takes out the entry under a key, keeping the others in order.
#[verifier::external_body]
pub(crate) fn inline_remove(t: &mut InlineTable, key: &str)
    ensures
        inline_entries(*final(t)) == remove_entry(inline_entries(*old(t)), key@),
{
    t.remove(key);
}

// ---------------------------------------------------------------- arrays

/// `Array::len`: the number of slots.
#[verifier::external_body]
pub(crate) fn array_len(a: &Array) -> (r: usize)
    ensures
        r == array_slots(*a).len(),
{
    a.len()
}

/// `Array::get`: the value in a slot, if the slot holds one.
#[verifier::external_body]
pub(crate) fn array_get(a: &Array, index: usize) -> (r: Option<&Value>)
    ensures
        r is Some <==> (index < array_slots(*a).len() && !(array_slots(*a)[index as int] is Absent)),
        r matches Some(v) ==> array_slots(*a)[index as int] == value_node(*v),
{
    a.get(index)
}

/// `Array::clear`: removes every slot.
#[verifier::external_body]
pub(crate) fn array_clear(a: &mut Array)
    ensures
        array_slots(*final(a)) == Seq::<TomlNode>::empty(),
{
    a.clear()
}

/// `Array::push` on a string: appends a slot holding it.
#[verifier::external_body]
pub(crate) fn array_push_text(a: &mut Array, s: String)
    ensures
        array_slots(*final(a)) == array_slots(*old(a)).push(TomlNode::Text(s@)),
{
    a.push(s)
}

} // verus!
