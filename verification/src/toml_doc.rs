//! TOML documents as toml_edit holds them: parsed, edited table by table and printed
//! back with the comments and layout of the rest of the file kept.
use vstd::prelude::*;

verus! {

#[verifier::external_type_specification]
#[verifier::external_body]
pub struct ExDocumentMut(toml_edit::DocumentMut);

/// Whether toml_edit accepts `text` as a TOML document.
pub uninterp spec fn toml_parses(text: Seq<char>) -> bool;

/// The entries of the top-level table `table` of the document that toml_edit reads
/// from `text`, as `table_entries` gives them.
pub uninterp spec fn text_table_entries(text: Seq<char>, table: Seq<char>) -> Option<Map<Seq<char>, Option<Seq<char>>>>;

/// The entries of the top-level table `table` of `doc`: each key, with its value when
/// that value is a string (`None` for any other value). The empty map when `doc` has
/// no `table`; `None` when `table` holds something that is not table-like.
pub uninterp spec fn table_entries(doc: toml_edit::DocumentMut, table: Seq<char>) -> Option<
    Map<Seq<char>, Option<Seq<char>>>,
>;

/// The text toml_edit prints for `doc`.
pub uninterp spec fn document_text(doc: toml_edit::DocumentMut) -> Seq<char>;

/// `str::parse::<toml_edit::DocumentMut>`, the error printed. Trusted: it succeeds
/// exactly when toml_edit accepts `text`, and the document holds the tables toml_edit
/// reads from `text`. What the error message says is not stated.
#[verifier::external_body]
pub(crate) fn parse_document(text: &str) -> (res: Result<toml_edit::DocumentMut, String>)
    ensures
        res is Ok <==> toml_parses(text@),
        res matches Ok(doc) ==> forall|t: Seq<char>| #[trigger] table_entries(doc, t) == text_table_entries(text@, t),
{
    text.parse::<toml_edit::DocumentMut>().map_err(|e| e.to_string())
}

/// `Table::get` with `Item::is_none` and `Item::is_table_like`: whether `doc` has no
/// `table`, or a table-like one. Trusted: that is exactly when `table_entries` of it
/// is `Some`.
#[verifier::external_body]
pub(crate) fn table_is_settable(doc: &toml_edit::DocumentMut, table: &str) -> (res: bool)
    ensures
        res == table_entries(*doc, table@) is Some,
{
    match doc.get(table) {
        None => true,
        Some(item) => item.is_none() || item.is_table_like(),
    }
}

/// `doc[table][key] = toml_edit::value(value)` (the `IndexMut` of `DocumentMut` and
/// of `Item`; it panics when `table` holds an item that is not table-like, which
/// `requires` leaves out). Trusted: `table` then holds its former entries with `key`
/// set to the string `value` (a missing table is created), and every other
/// top-level table holds what it held.
#[verifier::external_body]
pub(crate) fn set_string_entry(doc: &mut toml_edit::DocumentMut, table: &str, key: &str, value: &str)
    requires
        table_entries(*old(doc), table@) is Some,
    ensures
        table_entries(*final(doc), table@) == Some(table_entries(*old(doc), table@)->0.insert(key@, Some(value@))),
        forall|t: Seq<char>| t != table@ ==> #[trigger] table_entries(*final(doc), t) == table_entries(*old(doc), t),
{
    doc[table][key] = toml_edit::value(value);
}

/// `Table::get_mut`, `Item::as_table_like_mut` and `TableLike::remove`, chained. Trusted:
/// `removed` tells whether `table` is table-like and held `key`; then it holds its
/// former entries without `key` and every other top-level table holds what it held;
/// otherwise `doc` is unchanged.
#[verifier::external_body]
pub(crate) fn remove_entry(doc: &mut toml_edit::DocumentMut, table: &str, key: &str) -> (removed: bool)
    ensures
        removed <==> (table_entries(*old(doc), table@) matches Some(m) && m.contains_key(key@)),
        removed ==> table_entries(*final(doc), table@) == Some(table_entries(*old(doc), table@)->0.remove(key@)),
        forall|t: Seq<char>| t != table@ ==> #[trigger] table_entries(*final(doc), t) == table_entries(*old(doc), t),
        !removed ==> *final(doc) == *old(doc),
{
    doc.get_mut(table).and_then(|item| item.as_table_like_mut()).is_some_and(|t| t.remove(key).is_some())
}

/// `DocumentMut`'s `Display`, through `to_string`. Trusted: the result is the text
/// toml_edit prints for `doc`.
#[verifier::external_body]
pub(crate) fn render_document(doc: &toml_edit::DocumentMut) -> (res: String)
    ensures
        res@ == document_text(*doc),
{
    doc.to_string()
}

} // verus!
