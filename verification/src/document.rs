//! The neutral document representation: `bson::Document` and `bson::Bson`, as
//! far as the builder uses them.
//!
//! What this module says of the `bson` crate is not proved: the declarations of
//! its types, the three names without a body, and the contracts of its
//! functions. The proofs of the other modules rest on these statements. The
//! functions on entries and their lemmas are the library's own, and proved.

use bson::{Bson, Document};
use vstd::prelude::*;

verus! {

#[verifier::external_type_specification]
#[verifier::external_body]
pub struct ExDocument(bson::Document);

#[verifier::external_type_specification]
#[verifier::external_body]
pub struct ExBson(bson::Bson);

#[verifier::external_type_specification]
#[verifier::external_body]
pub struct ExSerError(bson::ser::Error);

/// The entries of a document, in the order in which their keys were first
/// inserted.
pub uninterp spec fn document_entries(d: Document) -> Seq<(Seq<char>, Bson)>;

/// The entries of the document that `b` holds, if `b` is an embedded document
/// (what `Bson::as_document` returns).
pub uninterp spec fn embedded_document(b: Bson) -> Option<Seq<(Seq<char>, Bson)>>;

/// The items of the array that `b` holds, if `b` is an array (what
/// `Bson::as_array` returns).
pub uninterp spec fn embedded_array(b: Bson) -> Option<Seq<Bson>>;

/// The position of the first entry with the key `key`, if there is one.
pub open spec fn key_index(entries: Seq<(Seq<char>, Bson)>, key: Seq<char>) -> Option<int>
    decreases entries.len(),
{
    if entries.len() == 0 {
        None
    } else {
        match key_index(entries.drop_last(), key) {
            Some(i) => Some(i),
            None => if entries.last().0 == key {
                Some(entries.len() - 1)
            } else {
                None
            },
        }
    }
}

/// The entries after `value` was inserted under `key`: an entry with that key
/// keeps its place and gets the value, and a new key goes to the end.
pub open spec fn entries_insert(entries: Seq<(Seq<char>, Bson)>, key: Seq<char>, value: Bson) -> Seq<
    (Seq<char>, Bson),
> {
    match key_index(entries, key) {
        Some(i) => entries.update(i, (key, value)),
        None => entries.push((key, value)),
    }
}

/// The keys of `entries`, in order.
pub open spec fn keys_of(entries: Seq<(Seq<char>, Bson)>) -> Seq<Seq<char>> {
    Seq::new(entries.len(), |i: int| entries[i].0)
}

/// The mapping that `entries` stand for: under each key the value of the
/// first entry with that key.
pub open spec fn entries_map(entries: Seq<(Seq<char>, Bson)>) -> Map<Seq<char>, Bson> {
    Map::new(
        |key: Seq<char>| key_index(entries, key) is Some,
        |key: Seq<char>| entries[key_index(entries, key)->Some_0].1,
    )
}

/// The mapping of the document that `b` holds, if `b` is an embedded document.
pub open spec fn embedded_map(b: Bson) -> Option<Map<Seq<char>, Bson>> {
    match embedded_document(b) {
        Some(entries) => Some(entries_map(entries)),
        None => None,
    }
}

/// What [`key_index`] finds is the least position with the key, and it finds
/// nothing only where no entry has the key.
pub proof fn lemma_key_index(entries: Seq<(Seq<char>, Bson)>, key: Seq<char>)
    ensures
        match key_index(entries, key) {
            Some(i) => {
                &&& 0 <= i < entries.len()
                &&& entries[i].0 == key
                &&& forall|k: int| 0 <= k < i ==> (#[trigger] entries[k]).0 != key
            },
            None => forall|k: int| 0 <= k < entries.len() ==> (#[trigger] entries[k]).0 != key,
        },
    decreases entries.len(),
{
    if entries.len() > 0 {
        lemma_key_index(entries.drop_last(), key);
        assert(forall|k: int| 0 <= k < entries.len() - 1 ==> entries.drop_last()[k] == entries[k]);
    }
}

/// Entries with the same keys in the same order find every key at the same
/// position.
pub proof fn lemma_key_index_by_keys(
    left: Seq<(Seq<char>, Bson)>,
    right: Seq<(Seq<char>, Bson)>,
    key: Seq<char>,
)
    requires
        keys_of(left) == keys_of(right),
    ensures
        key_index(left, key) == key_index(right, key),
{
    lemma_key_index(left, key);
    lemma_key_index(right, key);
    assert(left.len() == keys_of(left).len());
    assert(right.len() == keys_of(right).len());
    assert forall|k: int| 0 <= k < left.len() implies (#[trigger] left[k]).0 == right[k].0 by {
        assert(keys_of(left)[k] == keys_of(right)[k]);
    }
    match key_index(left, key) {
        Some(i) => {
            assert(right[i].0 == left[i].0);
            match key_index(right, key) {
                Some(j) => {
                    assert(left[j].0 == right[j].0);
                },
                None => {},
            }
        },
        None => {
            match key_index(right, key) {
                Some(j) => {
                    assert(left[j].0 == right[j].0);
                },
                None => {},
            }
        },
    }
}

/// An insertion changes the keys only by a new key at the end.
pub proof fn lemma_insert_keys(entries: Seq<(Seq<char>, Bson)>, key: Seq<char>, value: Bson)
    ensures
        keys_of(entries_insert(entries, key, value)) == if key_index(entries, key) is Some {
            keys_of(entries)
        } else {
            keys_of(entries).push(key)
        },
{
    lemma_key_index(entries, key);
    let after = entries_insert(entries, key, value);
    if key_index(entries, key) is Some {
        assert(keys_of(after) =~= keys_of(entries));
    } else {
        assert(keys_of(after) =~= keys_of(entries).push(key));
    }
}

/// As mappings, an insertion into entries is an insertion into the mapping.
pub proof fn lemma_insert_map(entries: Seq<(Seq<char>, Bson)>, key: Seq<char>, value: Bson)
    ensures
        entries_map(entries_insert(entries, key, value)) == entries_map(entries).insert(key, value),
{
    let after = entries_insert(entries, key, value);
    lemma_key_index(entries, key);
    assert forall|q: Seq<char>|
        entries_map(after).contains_key(q) <==> entries_map(entries).insert(
            key,
            value,
        ).contains_key(q) by {
        lemma_key_index(entries, q);
        lemma_key_index(after, q);
        match key_index(entries, key) {
            Some(i) => {
                assert(forall|k: int|
                    0 <= k < entries.len() ==> (#[trigger] after[k]).0 == entries[k].0);
                if let Some(a) = key_index(after, q) {
                    assert(after[a].0 == entries[a].0);
                }
                if let Some(b) = key_index(entries, q) {
                    assert(after[b].0 == entries[b].0);
                }
            },
            None => {
                assert(after.drop_last() =~= entries);
            },
        }
    }
    assert forall|q: Seq<char>| entries_map(after).contains_key(q) implies entries_map(after)[q]
        == entries_map(entries).insert(key, value)[q] by {
        lemma_key_index(entries, q);
        lemma_key_index(after, q);
        match key_index(entries, key) {
            Some(i) => {
                assert(forall|k: int|
                    0 <= k < entries.len() ==> (#[trigger] after[k]).0 == entries[k].0);
                let a = key_index(after, q)->Some_0;
                assert(after[a].0 == entries[a].0);
                if let Some(b) = key_index(entries, q) {
                    assert(after[b].0 == entries[b].0);
                    assert(a == b);
                }
            },
            None => {
                assert(after.drop_last() =~= entries);
            },
        }
    }
    assert(entries_map(after) =~= entries_map(entries).insert(key, value));
}

/// `Document::new`: the new document has no entries.
pub assume_specification[ bson::Document::new ]() -> (d: Document)
    ensures
        document_entries(d).len() == 0,
;

/// `Document::is_empty`: whether the document has no entries.
pub assume_specification[ bson::Document::is_empty ](d: &Document) -> (r: bool)
    ensures
        r == (document_entries(*d).len() == 0),
;

/// `Bson::as_document`: the embedded document of `b`, if `b` is one.
pub assume_specification<'a>[ bson::Bson::as_document ](b: &'a Bson) -> (r: Option<&'a Document>)
    ensures
        match r {
            Some(d) => embedded_document(*b) == Some(document_entries(*d)),
            None => embedded_document(*b) is None,
        },
;

/// `Bson::clone`: the copy is the same value.
pub assume_specification[ <bson::Bson as Clone>::clone ](b: &Bson) -> (r: Bson)
    ensures
        r == *b,
;

/// `bson::ser::Error::clone`: the copy is the same value.
pub assume_specification[ <bson::ser::Error as Clone>::clone ](e: &bson::ser::Error) -> (r:
    bson::ser::Error)
    ensures
        r == *e,
;

/// `Document::insert`: if the document has the key, the entry keeps its place
/// and gets `value`; if not, the new entry is the last. The other entries are
/// unchanged.
#[verifier::external_body]
pub(crate) fn insert_value(d: &mut Document, key: &str, value: Bson)
    ensures
        document_entries(*final(d)) == entries_insert(document_entries(*old(d)), key@, value),
{
    d.insert(key, value);
}

/// `Document::get`: the value under `key`, if the document has that key.
#[verifier::external_body]
pub(crate) fn get_value<'a>(d: &'a Document, key: &str) -> (r: Option<&'a Bson>)
    ensures
        match r {
            Some(value) => key_index(document_entries(*d), key@) is Some && document_entries(
                *d,
            )[key_index(document_entries(*d), key@)->Some_0].1 == *value,
            None => key_index(document_entries(*d), key@) is None,
        },
{
    d.get(key)
}

/// `Bson::Document`: the value that embeds `d`.
#[verifier::external_body]
pub(crate) fn document_value(d: Document) -> (b: Bson)
    ensures
        embedded_document(b) == Some(document_entries(d)),
        embedded_array(b) is None,
{
    Bson::Document(d)
}

/// `Bson::Array`: the array value with the given items, in their order.
#[verifier::external_body]
pub(crate) fn array_value(items: Vec<Bson>) -> (b: Bson)
    ensures
        embedded_array(b) == Some(items@),
        embedded_document(b) is None,
{
    Bson::Array(items)
}

/// `Document::iter`: the entries of the document in their order, as copies of
/// key and value.
#[verifier::external_body]
pub(crate) fn document_pairs(d: &Document) -> (r: Vec<(String, Bson)>)
    ensures
        r@.len() == document_entries(*d).len(),
        forall|i: int|
            0 <= i < r@.len() ==> (#[trigger] r@[i]).0@ == document_entries(*d)[i].0 && r@[i].1
                == document_entries(*d)[i].1,
{
    d.iter().map(|(key, value)| (key.clone(), value.clone())).collect()
}

} // verus!
