//! What holds of every builder: the laws that relate synthesis, the builder's
//! methods and the assembled document.
//!
//! The contracts of the builder speak of entries in their order. The laws read
//! them as mappings, from path to value.

use crate::annotation::ParseError;
use crate::builder::{
    are_items, first_failure, first_slot, fresh_builder, is_item, is_update_document,
    lemma_bucket_names_differ, lemma_first_slot, prefixed_entries, slot_entries, written,
    BuilderModel, SlotStateModel,
};
use crate::document::{
    embedded_document, embedded_map, entries_insert, entries_map, key_index, keys_of,
    lemma_insert_keys, lemma_insert_map, lemma_key_index, lemma_key_index_by_keys,
};
use crate::shape::TypeShape;
use crate::synth::{
    field_ops, field_slots, slot_for, struct_slots, value_type_of, Attribute, BuilderSpecModel,
    Field, Operation,
};
use bson::Bson;
use vstd::prelude::*;

verus! {

/// The values given for `operation`, by field: for each slot of the operation
/// that holds a serialized value, that value under the slot's field, a later
/// slot replacing an earlier one of the same field.
pub open spec fn bucket(slots: Seq<SlotStateModel>, operation: Operation) -> Map<Seq<char>, Bson>
    decreases slots.len(),
{
    if slots.len() == 0 {
        Map::empty()
    } else {
        let before = bucket(slots.drop_last(), operation);
        let last = slots.last();
        if last.operation == operation {
            match last.value {
                Some(Ok(value)) => before.insert(last.field, value),
                _ => before,
            }
        } else {
            before
        }
    }
}

/// The table that writes by path amount to: under each path the value of the
/// last write to it.
pub open spec fn table_of(writes: Seq<(Seq<char>, Bson)>) -> Map<Seq<char>, Bson>
    decreases writes.len(),
{
    if writes.len() == 0 {
        Map::empty()
    } else {
        table_of(writes.drop_last()).insert(writes.last().0, writes.last().1)
    }
}

/// The entries of `entries`, each under its path with `prefix` in front.
pub open spec fn prefixed(entries: Map<Seq<char>, Bson>, prefix: Seq<char>) -> Map<
    Seq<char>,
    Bson,
> {
    Map::new(
        |path: Seq<char>|
            prefix.is_prefix_of(path) && entries.contains_key(path.skip(prefix.len() as int)),
        |path: Seq<char>| entries[path.skip(prefix.len() as int)],
    )
}

/// Whether no two of `entries` have the same key.
pub open spec fn distinct_keys(entries: Seq<(Seq<char>, Bson)>) -> bool {
    forall|i: int|
        0 <= i < entries.len() ==> key_index(entries, (#[trigger] entries[i]).0) == Some(i)
}

impl BuilderModel {
    /// The table of writes by path: the last value written under each path.
    pub open spec fn path_table(self) -> Map<Seq<char>, Bson> {
        table_of(self.paths)
    }

    /// What the update sets, by path: the values of the `set` slots, and over
    /// them the table of writes by path.
    pub open spec fn set_bucket(self) -> Map<Seq<char>, Bson> {
        bucket(self.slots, Operation::SetField).union_prefer_right(self.path_table())
    }

    /// The elements that the update appends, by field.
    pub open spec fn push_bucket(self) -> Map<Seq<char>, Bson> {
        bucket(self.slots, Operation::PushItem)
    }

    /// The elements that the update removes, by field.
    pub open spec fn pull_bucket(self) -> Map<Seq<char>, Bson> {
        bucket(self.slots, Operation::PullItem)
    }

    /// Whether only the first slot of each operation on a field holds a value.
    ///
    /// This holds of a builder to which nothing was given yet, and every
    /// method keeps it: see [`lemma_fresh_is_settled`] and
    /// [`lemma_call_keeps_settled`].
    pub open spec fn settled(self) -> bool {
        forall|j: int|
            0 <= j < self.slots.len() && (#[trigger] self.slots[j]).value is Some ==> first_slot(
                self.slots,
                self.slots[j].operation,
                self.slots[j].field,
            ) == Some(j)
    }
}

/// Entries are empty exactly when their mapping is.
pub proof fn lemma_entries_map_empty(entries: Seq<(Seq<char>, Bson)>)
    ensures
        entries.len() == 0 <==> entries_map(entries).is_empty(),
{
    if entries.len() > 0 {
        lemma_key_index(entries, entries[0].0);
        assert(entries_map(entries).dom().contains(entries[0].0));
    } else {
        assert(entries_map(entries).dom() =~= Set::empty());
    }
}

/// An insertion keeps the keys distinct.
pub proof fn lemma_insert_distinct(entries: Seq<(Seq<char>, Bson)>, key: Seq<char>, value: Bson)
    requires
        distinct_keys(entries),
    ensures
        distinct_keys(entries_insert(entries, key, value)),
{
    let after = entries_insert(entries, key, value);
    lemma_key_index(entries, key);
    lemma_insert_keys(entries, key, value);
    assert forall|i: int| 0 <= i < after.len() implies key_index(after, (#[trigger] after[i]).0)
        == Some(i) by {
        match key_index(entries, key) {
            Some(at) => {
                lemma_key_index_by_keys(after, entries, after[i].0);
                assert(keys_of(after)[i] == keys_of(entries)[i]);
                assert(after[i].0 == entries[i].0);
            },
            None => {
                assert(after.drop_last() =~= entries);
                if i < entries.len() {
                    assert(after[i] == entries[i]);
                }
            },
        }
    }
}

/// The entries that slots give have distinct keys, and their mapping is the
/// slots' bucket.
pub proof fn lemma_slot_entries(slots: Seq<SlotStateModel>, operation: Operation)
    ensures
        distinct_keys(slot_entries(slots, operation)),
        entries_map(slot_entries(slots, operation)) == bucket(slots, operation),
    decreases slots.len(),
{
    if slots.len() > 0 {
        let before = slot_entries(slots.drop_last(), operation);
        let last = slots.last();
        lemma_slot_entries(slots.drop_last(), operation);
        if last.operation == operation {
            if let Some(Ok(value)) = last.value {
                lemma_insert_distinct(before, last.field, value);
                lemma_insert_map(before, last.field, value);
            }
        }
    } else {
        assert(entries_map(slot_entries(slots, operation)) =~= bucket(slots, operation));
    }
}

/// Writes by path keep the keys distinct, and as mappings they lay the table
/// of the writes over the entries.
pub proof fn lemma_written(base: Seq<(Seq<char>, Bson)>, writes: Seq<(Seq<char>, Bson)>)
    requires
        distinct_keys(base),
    ensures
        distinct_keys(written(base, writes)),
        entries_map(written(base, writes)) == entries_map(base).union_prefer_right(
            table_of(writes),
        ),
    decreases writes.len(),
{
    if writes.len() > 0 {
        let before = written(base, writes.drop_last());
        lemma_written(base, writes.drop_last());
        lemma_insert_distinct(before, writes.last().0, writes.last().1);
        lemma_insert_map(before, writes.last().0, writes.last().1);
        vstd::map_lib::lemma_union_insert_right(
            entries_map(base),
            table_of(writes.drop_last()),
            writes.last().0,
            writes.last().1,
        );
    } else {
        assert(entries_map(base).union_prefer_right(table_of(writes)) =~= entries_map(base));
    }
}

/// The entries of the three buckets have distinct keys, and their mappings
/// are the buckets.
pub proof fn lemma_bucket_entries_map(builder: BuilderModel)
    ensures
        distinct_keys(builder.set_entries()),
        distinct_keys(builder.push_entries()),
        distinct_keys(builder.pull_entries()),
        entries_map(builder.set_entries()) == builder.set_bucket(),
        entries_map(builder.push_entries()) == builder.push_bucket(),
        entries_map(builder.pull_entries()) == builder.pull_bucket(),
{
    lemma_slot_entries(builder.slots, Operation::SetField);
    lemma_slot_entries(builder.slots, Operation::PushItem);
    lemma_slot_entries(builder.slots, Operation::PullItem);
    lemma_written(slot_entries(builder.slots, Operation::SetField), builder.paths);
}

/// One more write lays one more entry over the table.
pub proof fn lemma_table_push(writes: Seq<(Seq<char>, Bson)>, path: Seq<char>, value: Bson)
    ensures
        table_of(writes.push((path, value))) == table_of(writes).insert(path, value),
{
    assert(writes.push((path, value)).drop_last() =~= writes);
}

/// To add an entry and then put the prefix in front is to put the prefix in
/// front and then add the entry under its prefixed path.
pub proof fn lemma_prefixed_insert(
    entries: Map<Seq<char>, Bson>,
    prefix: Seq<char>,
    key: Seq<char>,
    value: Bson,
)
    ensures
        prefixed(entries.insert(key, value), prefix) == prefixed(entries, prefix).insert(
            prefix + key,
            value,
        ),
{
    let left = prefixed(entries.insert(key, value), prefix);
    let right = prefixed(entries, prefix).insert(prefix + key, value);
    let n = prefix.len() as int;
    assert((prefix + key).skip(n) =~= key);
    assert(prefix.is_prefix_of(prefix + key));
    assert forall|path: Seq<char>| left.contains_key(path) <==> right.contains_key(path) by {
        if prefix.is_prefix_of(path) && path.skip(n) == key {
            assert(path =~= prefix + key);
        }
    }
    assert forall|path: Seq<char>| left.contains_key(path) implies left[path] == right[path] by {
        if prefix.is_prefix_of(path) && path.skip(n) == key {
            assert(path =~= prefix + key);
        }
    }
    assert(left =~= right);
}

/// Entries with distinct keys that are written by path, each with the prefix
/// in front, lay their mapping, with the prefix in front, over the table.
pub proof fn lemma_table_of_prefixed(
    writes: Seq<(Seq<char>, Bson)>,
    entries: Seq<(Seq<char>, Bson)>,
    prefix: Seq<char>,
)
    requires
        distinct_keys(entries),
    ensures
        table_of(writes + prefixed_entries(entries, prefix)) == table_of(
            writes,
        ).union_prefer_right(prefixed(entries_map(entries), prefix)),
    decreases entries.len(),
{
    if entries.len() == 0 {
        assert(writes + prefixed_entries(entries, prefix) =~= writes);
        assert(table_of(writes).union_prefer_right(prefixed(entries_map(entries), prefix))
            =~= table_of(writes));
    } else {
        let front = entries.drop_last();
        let last = entries.last();
        assert(last == entries[entries.len() - 1]);
        assert(key_index(entries, last.0) == Some(entries.len() - 1));
        assert forall|i: int| 0 <= i < front.len() implies key_index(
            front,
            (#[trigger] front[i]).0,
        ) == Some(i) by {
            assert(front[i] == entries[i]);
            assert(key_index(entries, entries[i].0) == Some(i));
        }
        assert forall|q: Seq<char>|
            entries_map(entries).contains_key(q) <==> entries_map(front).insert(
                last.0,
                last.1,
            ).contains_key(q) by {
            lemma_key_index(front, q);
        }
        assert forall|q: Seq<char>| entries_map(entries).contains_key(q) implies entries_map(
            entries,
        )[q] == entries_map(front).insert(last.0, last.1)[q] by {
            lemma_key_index(front, q);
            if let Some(i) = key_index(front, q) {
                assert(front[i] == entries[i]);
            }
        }
        assert(entries_map(entries) =~= entries_map(front).insert(last.0, last.1));
        lemma_table_of_prefixed(writes, front, prefix);
        assert(writes + prefixed_entries(entries, prefix) =~= (writes + prefixed_entries(
            front,
            prefix,
        )).push((prefix + last.0, last.1)));
        lemma_table_push(writes + prefixed_entries(front, prefix), prefix + last.0, last.1);
        lemma_prefixed_insert(entries_map(front), prefix, last.0, last.1);
        vstd::map_lib::lemma_union_insert_right(
            table_of(writes),
            prefixed(entries_map(front), prefix),
            prefix + last.0,
            last.1,
        );
    }
}

/// Whether `entry` is, as a mapping, the document `{operator: [value]}`.
pub open spec fn is_operator_entry(entry: Bson, operator: Seq<char>, value: Bson) -> bool {
    match embedded_map(entry) {
        Some(inner) => {
            &&& inner.dom() =~= set![operator]
            &&& crate::document::embedded_array(inner[operator]) == Some(seq![value])
        },
        None => false,
    }
}

/// Whether `value` is a document with the fields of `values`, and under each
/// field the document `{operator: [value]}` with the field's value.
pub open spec fn holds_operator_bucket(
    value: Bson,
    operator: Seq<char>,
    values: Map<Seq<char>, Bson>,
) -> bool {
    match embedded_map(value) {
        Some(entries) => {
            &&& entries.dom() =~= values.dom()
            &&& forall|field: Seq<char>| #[trigger]
                values.contains_key(field) ==> is_operator_entry(
                    entries[field],
                    operator,
                    values[field],
                )
        },
        None => false,
    }
}

/// Whether `top` is, as a mapping, the update document of `builder`: of the
/// keys `$set`, `$push` and `$pull` it has those whose bucket is not empty,
/// with `{path: value}` under `$set`, `{field: {"$each": [value]}}` under
/// `$push` and `{field: {"$in": [value]}}` under `$pull`.
pub open spec fn is_update_mapping(top: Map<Seq<char>, Bson>, builder: BuilderModel) -> bool {
    let sets = builder.set_bucket();
    let pushes = builder.push_bucket();
    let pulls = builder.pull_bucket();
    &&& forall|key: Seq<char>| #[trigger]
        top.contains_key(key) <==> (key == "$set"@ && !sets.is_empty()) || (key == "$push"@
            && !pushes.is_empty()) || (key == "$pull"@ && !pulls.is_empty())
    &&& !sets.is_empty() ==> embedded_map(top["$set"@]) == Some(sets)
    &&& !pushes.is_empty() ==> holds_operator_bucket(top["$push"@], "$each"@, pushes)
    &&& !pulls.is_empty() ==> holds_operator_bucket(top["$pull"@], "$in"@, pulls)
}

/// An item is an operator entry.
pub proof fn lemma_item_is_operator_entry(entry: Bson, operator: Seq<char>, value: Bson)
    requires
        is_item(entry, operator, value),
    ensures
        is_operator_entry(entry, operator, value),
{
    let inner = embedded_document(entry)->Some_0;
    lemma_key_index(inner, operator);
    assert forall|q: Seq<char>| entries_map(inner).contains_key(q) <==> q == operator by {
        lemma_key_index(inner, q);
    }
    assert(entries_map(inner).dom() =~= set![operator]);
}

/// A document of items is an operator bucket of the items' mapping.
pub proof fn lemma_items_are_operator_bucket(
    value: Bson,
    operator: Seq<char>,
    values: Seq<(Seq<char>, Bson)>,
)
    requires
        crate::builder::holds_items(value, operator, values),
    ensures
        holds_operator_bucket(value, operator, entries_map(values)),
{
    let entries = embedded_document(value)->Some_0;
    assert(are_items(entries, operator, values));
    assert(keys_of(entries) =~= keys_of(values));
    assert forall|field: Seq<char>|
        entries_map(entries).contains_key(field) <==> entries_map(values).contains_key(field) by {
        lemma_key_index_by_keys(entries, values, field);
    }
    assert(entries_map(entries).dom() =~= entries_map(values).dom());
    assert forall|field: Seq<char>| #[trigger]
        entries_map(values).contains_key(field) implies is_operator_entry(
        entries_map(entries)[field],
        operator,
        entries_map(values)[field],
    ) by {
        lemma_key_index_by_keys(entries, values, field);
        lemma_key_index(values, field);
        let i = key_index(values, field)->Some_0;
        assert(is_item(entries[i].1, operator, values[i].1));
        lemma_item_is_operator_entry(entries[i].1, operator, values[i].1);
    }
}

/// An update document is, as a mapping, an update mapping.
pub proof fn lemma_update_mapping(top: Seq<(Seq<char>, Bson)>, builder: BuilderModel)
    requires
        is_update_document(top, builder),
    ensures
        is_update_mapping(entries_map(top), builder),
{
    let names = builder.bucket_names();
    let mapping = entries_map(top);
    lemma_bucket_entries_map(builder);
    lemma_entries_map_empty(builder.set_entries());
    lemma_entries_map_empty(builder.push_entries());
    lemma_entries_map_empty(builder.pull_entries());
    lemma_bucket_names_differ();
    assert(top.len() == keys_of(top).len());
    assert forall|i: int| 0 <= i < top.len() implies (#[trigger] top[i]).0 == names[i] by {
        assert(keys_of(top)[i] == names[i]);
    }
    let has_set = builder.set_entries().len() > 0;
    let has_push = builder.push_entries().len() > 0;
    let has_pull = builder.pull_entries().len() > 0;
    let set_at: int = 0;
    let push_at: int = if has_set { 1 } else { 0 };
    let pull_at: int = push_at + if has_push { 1int } else { 0int };
    assert(has_set ==> names[set_at] == "$set"@);
    assert(has_push ==> names[push_at] == "$push"@);
    assert(has_pull ==> names[pull_at] == "$pull"@);
    assert forall|i: int| 0 <= i < names.len() implies (#[trigger] names[i] == "$set"@ && has_set)
        || (names[i] == "$push"@ && has_push) || (names[i] == "$pull"@ && has_pull) by {}
    assert forall|key: Seq<char>| #[trigger]
        mapping.contains_key(key) <==> (key == "$set"@ && has_set) || (key == "$push"@ && has_push)
            || (key == "$pull"@ && has_pull) by {
        lemma_key_index(top, key);
        if let Some(i) = key_index(top, key) {
            assert(top[i].0 == names[i]);
        }
        if key == "$set"@ && has_set {
            assert(top[set_at].0 == key);
        }
        if key == "$push"@ && has_push {
            assert(top[push_at].0 == key);
        }
        if key == "$pull"@ && has_pull {
            assert(top[pull_at].0 == key);
        }
    }
    if has_set {
        lemma_key_index(top, "$set"@);
        assert(top[set_at].0 == "$set"@);
        let i = key_index(top, "$set"@)->Some_0;
        assert(embedded_document(top[i].1) == Some(builder.set_entries()));
    }
    if has_push {
        lemma_key_index(top, "$push"@);
        assert(top[push_at].0 == "$push"@);
        let i = key_index(top, "$push"@)->Some_0;
        lemma_items_are_operator_bucket(top[i].1, "$each"@, builder.push_entries());
    }
    if has_pull {
        lemma_key_index(top, "$pull"@);
        assert(top[pull_at].0 == "$pull"@);
        let i = key_index(top, "$pull"@)->Some_0;
        lemma_items_are_operator_bucket(top[i].1, "$in"@, builder.pull_entries());
    }
}

/// Whether `slot` gives the bucket of `operation` a value under `key`.
pub open spec fn is_hit(slot: SlotStateModel, operation: Operation, key: Seq<char>) -> bool {
    slot.operation == operation && slot.field == key && slot.value matches Some(Ok(_))
}

/// A bucket holds a key exactly when a slot gives it one, and the value is
/// that of the last slot that does.
pub proof fn lemma_bucket_hits(slots: Seq<SlotStateModel>, operation: Operation, key: Seq<char>)
    ensures
        bucket(slots, operation).contains_key(key) <==> exists|j: int|
            0 <= j < slots.len() && is_hit(#[trigger] slots[j], operation, key),
        bucket(slots, operation).contains_key(key) ==> exists|j: int|
            {
                &&& 0 <= j < slots.len()
                &&& is_hit(#[trigger] slots[j], operation, key)
                &&& slots[j].value == Some(
                    Ok::<Bson, bson::ser::Error>(bucket(slots, operation)[key]),
                )
                &&& forall|k: int| j < k < slots.len() ==> !is_hit(#[trigger] slots[k], operation, key)
            },
    decreases slots.len(),
{
    if slots.len() > 0 {
        let before = slots.drop_last();
        let last = slots.last();
        lemma_bucket_hits(before, operation, key);
        assert(forall|k: int| 0 <= k < before.len() ==> before[k] == slots[k]);
        if is_hit(last, operation, key) {
            assert(is_hit(slots[slots.len() - 1], operation, key));
        } else {
            if bucket(slots, operation).contains_key(key) {
                assert(bucket(before, operation).contains_key(key));
                assert(bucket(before, operation)[key] == bucket(slots, operation)[key]);
                let j = choose|j: int|
                    {
                        &&& 0 <= j < before.len()
                        &&& is_hit(#[trigger] before[j], operation, key)
                        &&& before[j].value == Some(
                            Ok::<Bson, bson::ser::Error>(bucket(before, operation)[key]),
                        )
                        &&& forall|k: int|
                            j < k < before.len() ==> !is_hit(#[trigger] before[k], operation, key)
                    };
                assert(is_hit(slots[j], operation, key));
                assert forall|k: int| j < k < slots.len() implies !is_hit(
                    #[trigger] slots[k],
                    operation,
                    key,
                ) by {
                    if k < before.len() {
                        assert(!is_hit(before[k], operation, key));
                    }
                }
            }
            if exists|j: int| 0 <= j < slots.len() && is_hit(#[trigger] slots[j], operation, key) {
                let j = choose|j: int|
                    0 <= j < slots.len() && is_hit(#[trigger] slots[j], operation, key);
                assert(is_hit(before[j], operation, key));
            }
        }
    }
}

/// No failure is reported where no slot of the operation holds one.
pub proof fn lemma_no_failure(slots: Seq<SlotStateModel>, operation: Operation)
    requires
        forall|j: int|
            0 <= j < slots.len() ==> !((#[trigger] slots[j]).operation == operation
                && slots[j].value matches Some(Err(_))),
    ensures
        first_failure(slots, operation) is None,
    decreases slots.len(),
{
    if slots.len() > 0 {
        assert(forall|k: int| 0 <= k < slots.len() - 1 ==> slots.drop_last()[k] == slots[k]);
        lemma_no_failure(slots.drop_last(), operation);
        assert(slots.last() == slots[slots.len() - 1]);
    }
}

/// A call of one of a builder's methods, as a value.
pub enum Call {
    /// `set(field, value)`
    SetValue { field: Seq<char>, value: Result<Bson, bson::ser::Error> },
    /// `push(field, value)`
    PushValue { field: Seq<char>, value: Result<Bson, bson::ser::Error> },
    /// `pull(field, value)`
    PullValue { field: Seq<char>, value: Result<Bson, bson::ser::Error> },
    /// `set_field(path, value)`
    SetPath { path: Seq<char>, value: Result<Bson, bson::ser::Error> },
    /// `nested(field, nested_path, value)`
    NestedPath { field: Seq<char>, nested_path: Seq<char>, value: Result<Bson, bson::ser::Error> },
    /// `with_nested(field, ..)`, where the configuring function returned
    /// `configured`
    WithNested { field: Seq<char>, configured: BuilderModel },
}

/// The builder after `call`. A call that fails leaves nothing behind: the
/// builder is taken as it was.
pub open spec fn after(builder: BuilderModel, call: Call) -> BuilderModel {
    match call {
        Call::SetValue { field, value } => builder.with_value(Operation::SetField, field, value),
        Call::PushValue { field, value } => builder.with_value(Operation::PushItem, field, value),
        Call::PullValue { field, value } => builder.with_value(Operation::PullItem, field, value),
        Call::SetPath { path, value } => match value {
            Ok(v) => builder.with_path(path, v),
            Err(_) => builder,
        },
        Call::NestedPath { field, nested_path, value } => match value {
            Ok(v) => builder.with_nested_path(field, nested_path, v),
            Err(_) => builder,
        },
        Call::WithNested { field, configured } => builder.absorb(field, configured),
    }
}

/// The builder after `calls`, one after the other.
pub open spec fn after_all(builder: BuilderModel, calls: Seq<Call>) -> BuilderModel
    decreases calls.len(),
{
    if calls.len() == 0 {
        builder
    } else {
        after(after_all(builder, calls.drop_last()), calls.last())
    }
}

/// Giving a value changes no slot's operation or field, and the value of one
/// slot at most.
pub proof fn lemma_with_value_slots(
    builder: BuilderModel,
    operation: Operation,
    field: Seq<char>,
    value: Result<Bson, bson::ser::Error>,
)
    ensures
        ({
            let next = builder.with_value(operation, field, value);
            &&& next.slots.len() == builder.slots.len()
            &&& next.name == builder.name
            &&& next.nested == builder.nested
            &&& next.paths == builder.paths
            &&& forall|j: int|
                0 <= j < builder.slots.len() ==> (#[trigger] next.slots[j]).operation
                    == builder.slots[j].operation && next.slots[j].field == builder.slots[j].field
            &&& forall|j: int|
                0 <= j < builder.slots.len() && first_slot(builder.slots, operation, field)
                    != Some(j) ==> #[trigger] next.slots[j] == builder.slots[j]
            &&& forall|o: Operation, f: Seq<char>| #[trigger]
                first_slot(next.slots, o, f) == first_slot(builder.slots, o, f)
        }),
{
    let next = builder.with_value(operation, field, value);
    lemma_first_slot(builder.slots, operation, field);
    assert forall|o: Operation, f: Seq<char>| #[trigger]
        first_slot(next.slots, o, f) == first_slot(builder.slots, o, f) by {
        lemma_first_slot(builder.slots, o, f);
        lemma_first_slot(next.slots, o, f);
        match first_slot(builder.slots, o, f) {
            Some(i) => {
                assert(next.slots[i].operation == builder.slots[i].operation);
                match first_slot(next.slots, o, f) {
                    Some(k) => {
                        assert(next.slots[k].operation == builder.slots[k].operation);
                    },
                    None => {},
                }
            },
            None => {
                match first_slot(next.slots, o, f) {
                    Some(k) => {
                        assert(next.slots[k].operation == builder.slots[k].operation);
                    },
                    None => {},
                }
            },
        }
    }
}

/// A builder to which nothing was given yet is settled.
pub proof fn lemma_fresh_is_settled(spec: BuilderSpecModel)
    ensures
        fresh_builder(spec).settled(),
{
}

/// Every method keeps a builder settled.
pub proof fn lemma_call_keeps_settled(builder: BuilderModel, call: Call)
    requires
        builder.settled(),
    ensures
        after(builder, call).settled(),
{
    match call {
        Call::SetValue { field, value } => {
            lemma_with_value_slots(builder, Operation::SetField, field, value);
        },
        Call::PushValue { field, value } => {
            lemma_with_value_slots(builder, Operation::PushItem, field, value);
        },
        Call::PullValue { field, value } => {
            lemma_with_value_slots(builder, Operation::PullItem, field, value);
        },
        _ => {},
    }
}

/// Every builder that was made fresh and changed by its methods alone is
/// settled.
pub proof fn lemma_reachable_is_settled(spec: BuilderSpecModel, calls: Seq<Call>)
    ensures
        after_all(fresh_builder(spec), calls).settled(),
    decreases calls.len(),
{
    if calls.len() == 0 {
        lemma_fresh_is_settled(spec);
    } else {
        lemma_reachable_is_settled(spec, calls.drop_last());
        lemma_call_keeps_settled(after_all(fresh_builder(spec), calls.drop_last()), calls.last());
    }
}

/// Whether the bucket `bucket` of the document `top` holds `value` under
/// `key`.
pub open spec fn holds_under(
    top: Seq<(Seq<char>, Bson)>,
    bucket: Seq<char>,
    key: Seq<char>,
    value: Bson,
) -> bool {
    entries_map(top).contains_key(bucket) && match embedded_map(entries_map(top)[bucket]) {
        Some(entries) => entries.contains_key(key) && entries[key] == value,
        None => false,
    }
}

/// Whether the bucket `bucket` of the document `top` holds
/// `{operator: [value]}` under `key`.
pub open spec fn holds_item_under(
    top: Seq<(Seq<char>, Bson)>,
    bucket: Seq<char>,
    operator: Seq<char>,
    key: Seq<char>,
    value: Bson,
) -> bool {
    entries_map(top).contains_key(bucket) && match embedded_map(entries_map(top)[bucket]) {
        Some(entries) => entries.contains_key(key) && is_operator_entry(
            entries[key],
            operator,
            value,
        ),
        None => false,
    }
}

/// Whether the bucket `bucket` of the document `top` has the key `key`.
pub open spec fn mentions(top: Seq<(Seq<char>, Bson)>, bucket: Seq<char>, key: Seq<char>) -> bool {
    entries_map(top).contains_key(bucket) && match embedded_map(entries_map(top)[bucket]) {
        Some(entries) => entries.contains_key(key),
        None => false,
    }
}

/// After a value was given for an operation that the builder offers for the
/// field, the operation's bucket holds that value under the field, and every
/// other entry of every bucket of slots is as it was.
pub proof fn lemma_value_in_bucket(
    builder: BuilderModel,
    operation: Operation,
    field: Seq<char>,
    v: Bson,
)
    requires
        builder.settled(),
        builder.offers(operation, field),
    ensures
        ({
            let next = builder.with_value(operation, field, Ok(v));
            &&& bucket(next.slots, operation).contains_key(field)
            &&& bucket(next.slots, operation)[field] == v
            &&& forall|o: Operation, key: Seq<char>|
                !(o == operation && key == field) ==> {
                    &&& #[trigger] bucket(next.slots, o).contains_key(key) <==> bucket(
                        builder.slots,
                        o,
                    ).contains_key(key)
                    &&& bucket(next.slots, o).contains_key(key) ==> bucket(next.slots, o)[key]
                        == bucket(builder.slots, o)[key]
                }
        }),
{
    let next = builder.with_value(operation, field, Ok(v));
    lemma_first_slot(builder.slots, operation, field);
    lemma_with_value_slots(builder, operation, field, Ok(v));
    let i = first_slot(builder.slots, operation, field)->Some_0;
    assert(is_hit(next.slots[i], operation, field));
    lemma_bucket_hits(next.slots, operation, field);
    let j = choose|j: int|
        {
            &&& 0 <= j < next.slots.len()
            &&& is_hit(#[trigger] next.slots[j], operation, field)
            &&& next.slots[j].value == Some(
                Ok::<Bson, bson::ser::Error>(bucket(next.slots, operation)[field]),
            )
            &&& forall|k: int|
                j < k < next.slots.len() ==> !is_hit(#[trigger] next.slots[k], operation, field)
        };
    if j != i {
        assert(next.slots[j] == builder.slots[j]);
        assert(builder.slots[j].value is Some);
    }
    assert forall|o: Operation, key: Seq<char>| !(o == operation && key == field) implies {
        &&& #[trigger] bucket(next.slots, o).contains_key(key) <==> bucket(
            builder.slots,
            o,
        ).contains_key(key)
        &&& bucket(next.slots, o).contains_key(key) ==> bucket(next.slots, o)[key] == bucket(
            builder.slots,
            o,
        )[key]
    } by {
        lemma_bucket_hits(next.slots, o, key);
        lemma_bucket_hits(builder.slots, o, key);
        assert(!is_hit(next.slots[i], o, key));
        assert(!is_hit(builder.slots[i], o, key));
        assert forall|k: int| 0 <= k < builder.slots.len() implies (is_hit(
            #[trigger] next.slots[k],
            o,
            key,
        ) <==> is_hit(builder.slots[k], o, key)) by {
            if k != i {
                assert(next.slots[k] == builder.slots[k]);
            }
        }
        if bucket(next.slots, o).contains_key(key) {
            let a = choose|a: int|
                {
                    &&& 0 <= a < next.slots.len()
                    &&& is_hit(#[trigger] next.slots[a], o, key)
                    &&& next.slots[a].value == Some(
                        Ok::<Bson, bson::ser::Error>(bucket(next.slots, o)[key]),
                    )
                    &&& forall|k: int|
                        a < k < next.slots.len() ==> !is_hit(#[trigger] next.slots[k], o, key)
                };
            assert(is_hit(builder.slots[a], o, key));
            let b = choose|b: int|
                {
                    &&& 0 <= b < builder.slots.len()
                    &&& is_hit(#[trigger] builder.slots[b], o, key)
                    &&& builder.slots[b].value == Some(
                        Ok::<Bson, bson::ser::Error>(bucket(builder.slots, o)[key]),
                    )
                    &&& forall|k: int|
                        b < k < builder.slots.len() ==> !is_hit(
                            #[trigger] builder.slots[k],
                            o,
                            key,
                        )
                };
            assert(is_hit(next.slots[b], o, key));
            assert(a == b);
            assert(next.slots[a] == builder.slots[a]);
        }
        if bucket(builder.slots, o).contains_key(key) {
            let b = choose|b: int|
                0 <= b < builder.slots.len() && is_hit(#[trigger] builder.slots[b], o, key);
            assert(is_hit(next.slots[b], o, key));
        }
    }
}

/// Law: after `set(field, v)` on a builder that offers it, every update
/// document of the builder holds `v` under `field` in its `$set` bucket,
/// unless the table of writes by path has an entry of that name, which would
/// replace it. The other entries of the bucket are those that it had before.
pub proof fn law_set_then_build(
    builder: BuilderModel,
    field: Seq<char>,
    v: Bson,
    top: Seq<(Seq<char>, Bson)>,
)
    requires
        builder.settled(),
        builder.offers(Operation::SetField, field),
        !builder.path_table().contains_key(field),
        is_update_document(top, builder.with_value(Operation::SetField, field, Ok(v))),
    ensures
        holds_under(top, "$set"@, field, v),
        forall|other: Seq<char>|
            other != field ==> (#[trigger] mentions(top, "$set"@, other)
                <==> builder.set_bucket().contains_key(other)),
        forall|other: Seq<char>|
            other != field && builder.set_bucket().contains_key(other) ==> #[trigger] holds_under(
                top,
                "$set"@,
                other,
                builder.set_bucket()[other],
            ),
{
    let next = builder.with_value(Operation::SetField, field, Ok(v));
    lemma_update_mapping(top, next);
    lemma_value_in_bucket(builder, Operation::SetField, field, v);
    lemma_with_value_slots(builder, Operation::SetField, field, Ok(v));
    assert(next.set_bucket().dom().contains(field));
    assert(entries_map(top).contains_key("$set"@));
    assert forall|other: Seq<char>| other != field implies (next.set_bucket().contains_key(other)
        <==> builder.set_bucket().contains_key(other)) && (next.set_bucket().contains_key(other)
        ==> next.set_bucket()[other] == builder.set_bucket()[other]) by {
        assert(bucket(next.slots, Operation::SetField).contains_key(other) <==> bucket(
            builder.slots,
            Operation::SetField,
        ).contains_key(other));
    }
}

/// Law: after `push(field, v)` on a builder that offers it, every update
/// document of the builder holds `{"$each": [v]}` under `field` in its `$push`
/// bucket.
pub proof fn law_push_then_build(
    builder: BuilderModel,
    field: Seq<char>,
    v: Bson,
    top: Seq<(Seq<char>, Bson)>,
)
    requires
        builder.settled(),
        builder.offers(Operation::PushItem, field),
        is_update_document(top, builder.with_value(Operation::PushItem, field, Ok(v))),
    ensures
        holds_item_under(top, "$push"@, "$each"@, field, v),
{
    let next = builder.with_value(Operation::PushItem, field, Ok(v));
    lemma_update_mapping(top, next);
    lemma_value_in_bucket(builder, Operation::PushItem, field, v);
    assert(next.push_bucket().dom().contains(field));
    assert(entries_map(top).contains_key("$push"@));
}

/// Law: after `pull(field, v)` on a builder that offers it, every update
/// document of the builder holds `{"$in": [v]}` under `field` in its `$pull`
/// bucket.
pub proof fn law_pull_then_build(
    builder: BuilderModel,
    field: Seq<char>,
    v: Bson,
    top: Seq<(Seq<char>, Bson)>,
)
    requires
        builder.settled(),
        builder.offers(Operation::PullItem, field),
        is_update_document(top, builder.with_value(Operation::PullItem, field, Ok(v))),
    ensures
        holds_item_under(top, "$pull"@, "$in"@, field, v),
{
    let next = builder.with_value(Operation::PullItem, field, Ok(v));
    lemma_update_mapping(top, next);
    lemma_value_in_bucket(builder, Operation::PullItem, field, v);
    assert(next.pull_bucket().dom().contains(field));
    assert(entries_map(top).contains_key("$pull"@));
}

/// Law: a second value for the same operation on the same field replaces the
/// first. The builder is as if the first had never been given: values do not
/// accumulate.
pub proof fn law_second_value_replaces_first(
    builder: BuilderModel,
    operation: Operation,
    field: Seq<char>,
    first: Result<Bson, bson::ser::Error>,
    second: Result<Bson, bson::ser::Error>,
)
    ensures
        builder.with_value(operation, field, first).with_value(operation, field, second)
            == builder.with_value(operation, field, second),
{
    let once = builder.with_value(operation, field, first);
    lemma_first_slot(builder.slots, operation, field);
    lemma_with_value_slots(builder, operation, field, first);
    assert(first_slot(once.slots, operation, field) == first_slot(
        builder.slots,
        operation,
        field,
    ));
    assert(once.with_value(operation, field, second).slots =~= builder.with_value(
        operation,
        field,
        second,
    ).slots);
}

/// Law: a call for an operation that the builder does not offer for the field
/// changes nothing.
pub proof fn law_missing_method_changes_nothing(
    builder: BuilderModel,
    operation: Operation,
    field: Seq<char>,
    value: Result<Bson, bson::ser::Error>,
)
    requires
        !builder.offers(operation, field),
    ensures
        builder.with_value(operation, field, value) == builder,
{
}

/// Law: what a builder of a nested field sets reaches the parent. If the
/// parent has methods for the nested field `field`, and `configured` is a
/// builder of the field's type that can be assembled and sets `v` under
/// `path`, then after `with_nested` the parent's table of writes by path holds
/// `v` under `field.path`, and so does the `$set` bucket of every update
/// document of the parent.
pub proof fn law_nested_set_reaches_parent(
    parent: BuilderModel,
    field: Seq<char>,
    configured: BuilderModel,
    path: Seq<char>,
    top: Seq<(Seq<char>, Bson)>,
)
    requires
        parent.nested_builder(field) == Some(configured.name),
        configured.failure() is None,
        configured.set_bucket().contains_key(path),
        is_update_document(top, parent.absorb(field, configured)),
    ensures
        parent.absorb(field, configured).path_table().contains_key(field + "."@ + path),
        parent.absorb(field, configured).path_table()[field + "."@ + path]
            == configured.set_bucket()[path],
        holds_under(top, "$set"@, field + "."@ + path, configured.set_bucket()[path]),
{
    let next = parent.absorb(field, configured);
    let prefix = field + "."@;
    let key = prefix + path;
    lemma_update_mapping(top, next);
    lemma_bucket_entries_map(configured);
    lemma_table_of_prefixed(parent.paths, configured.set_entries(), prefix);
    assert(prefix.is_prefix_of(key));
    assert(key.skip(prefix.len() as int) =~= path);
    assert(prefixed(configured.set_bucket(), prefix).contains_key(key));
    assert(next.path_table().contains_key(key));
    assert(next.set_bucket().dom().contains(key));
    assert(entries_map(top).contains_key("$set"@));
}

/// Law: a nested builder that was made fresh and then given `v` for its field
/// `inner` hands `v` to the parent under `field.inner`.
pub proof fn law_with_nested_set(
    parent: BuilderModel,
    field: Seq<char>,
    nested: BuilderSpecModel,
    inner: Seq<char>,
    v: Bson,
    top: Seq<(Seq<char>, Bson)>,
)
    requires
        parent.nested_builder(field) == Some(nested.name),
        fresh_builder(nested).offers(Operation::SetField, inner),
        is_update_document(
            top,
            parent.absorb(
                field,
                fresh_builder(nested).with_value(Operation::SetField, inner, Ok(v)),
            ),
        ),
    ensures
        holds_under(top, "$set"@, field + "."@ + inner, v),
{
    let fresh = fresh_builder(nested);
    let configured = fresh.with_value(Operation::SetField, inner, Ok(v));
    lemma_fresh_is_settled(nested);
    lemma_value_in_bucket(fresh, Operation::SetField, inner, v);
    lemma_with_value_slots(fresh, Operation::SetField, inner, Ok(v));
    lemma_first_slot(fresh.slots, Operation::SetField, inner);
    assert forall|j: int| 0 <= j < configured.slots.len() implies !((
    #[trigger] configured.slots[j]).value matches Some(Err(_))) by {
        if first_slot(fresh.slots, Operation::SetField, inner) != Some(j) {
            assert(configured.slots[j] == fresh.slots[j]);
        }
    }
    lemma_no_failure(configured.slots, Operation::SetField);
    lemma_no_failure(configured.slots, Operation::PushItem);
    lemma_no_failure(configured.slots, Operation::PullItem);
    assert(configured.set_bucket().contains_key(inner));
    assert(configured.set_bucket()[inner] == v);
    law_nested_set_reaches_parent(parent, field, configured, inner, top);
}

/// Law: a write below a nested field by path needs no builder of the nested
/// type. After `nested(field, path, v)` on a builder that has methods for
/// `field`, every update document of the builder holds `v` under `field.path`
/// in its `$set` bucket.
pub proof fn law_direct_path(
    builder: BuilderModel,
    field: Seq<char>,
    path: Seq<char>,
    v: Bson,
    top: Seq<(Seq<char>, Bson)>,
)
    requires
        builder.nested_builder(field) is Some,
        is_update_document(top, builder.with_nested_path(field, path, v)),
    ensures
        holds_under(top, "$set"@, field + "."@ + path, v),
{
    let next = builder.with_nested_path(field, path, v);
    let key = field + "."@ + path;
    lemma_update_mapping(top, next);
    lemma_table_push(builder.paths, key, v);
    assert(next.path_table().contains_key(key));
    assert(next.set_bucket().dom().contains(key));
    assert(entries_map(top).contains_key("$set"@));
}

/// Law: a write by path replaces the value of a `set` slot of the same name.
pub proof fn law_path_replaces_slot(
    builder: BuilderModel,
    path: Seq<char>,
    v: Bson,
    top: Seq<(Seq<char>, Bson)>,
)
    requires
        is_update_document(top, builder.with_path(path, v)),
    ensures
        holds_under(top, "$set"@, path, v),
{
    let next = builder.with_path(path, v);
    lemma_update_mapping(top, next);
    lemma_table_push(builder.paths, path, v);
    assert(next.path_table().contains_key(path));
    assert(next.set_bucket().dom().contains(path));
    assert(entries_map(top).contains_key("$set"@));
}

/// Every slot of a field is a slot on that field.
pub proof fn lemma_field_slots_name(
    field: Seq<char>,
    ty: TypeShape,
    ops: Seq<Seq<char>>,
    position: int,
)
    ensures
        forall|j: int|
            0 <= j < field_slots(field, ty, ops, position).len() ==> {
                let slot = #[trigger] field_slots(field, ty, ops, position)[j];
                &&& slot.field == field
                &&& slot.position == position
                &&& slot.operation != Operation::SetField ==> crate::shape::vec_inner(ty) is Some
            },
{
}

/// Law: a field that asks for `none` gets no slot, whatever else it asks for.
pub proof fn law_none_excludes_field(
    field: Seq<char>,
    ty: TypeShape,
    ops: Seq<Seq<char>>,
    position: int,
)
    requires
        ops.contains("none"@),
    ensures
        field_slots(field, ty, ops, position).len() == 0,
{
}

/// Law: every slot of a structure's builder belongs to a field of the
/// structure: its position is that of a field with its name, and the type of
/// its value is known. For `push` and `pull` the field is an ordered sequence.
pub proof fn law_slots_belong_to_fields(fields: Seq<Field>)
    ensures
        struct_slots(fields) matches Ok(slots) ==> forall|j: int|
            0 <= j < slots.len() ==> {
                let slot = #[trigger] slots[j];
                &&& 0 <= slot.position < fields.len()
                &&& fields[slot.position].ident@ == slot.field
                &&& value_type_of(fields, slot) is Some
            },
    decreases fields.len(),
{
    if fields.len() > 0 {
        let before = fields.drop_last();
        let last = fields.last();
        law_slots_belong_to_fields(before);
        if let Ok(slots) = struct_slots(fields) {
            let front = struct_slots(before)->Ok_0;
            let ops = field_ops(last.attrs@)->Ok_0;
            let own = field_slots(last.ident@, last.ty, ops, fields.len() - 1);
            lemma_field_slots_name(last.ident@, last.ty, ops, fields.len() - 1);
            assert(slots == front + own);
            assert forall|j: int| 0 <= j < slots.len() implies {
                let slot = #[trigger] slots[j];
                &&& 0 <= slot.position < fields.len()
                &&& fields[slot.position].ident@ == slot.field
                &&& value_type_of(fields, slot) is Some
            } by {
                if j < front.len() {
                    assert(slots[j] == front[j]);
                    assert(before[front[j].position] == fields[front[j].position]);
                } else {
                    assert(slots[j] == own[j - front.len()]);
                }
            }
        }
    }
}

/// Law: the builder of a structure has no slot on a field that asks for
/// `none`. Where several fields have the name `name`, all of them must ask
/// for it.
pub proof fn law_excluded_field_has_no_slot(fields: Seq<Field>, name: Seq<char>)
    requires
        forall|i: int|
            0 <= i < fields.len() && (#[trigger] fields[i]).ident@ == name ==> (field_ops(
                fields[i].attrs@,
            ) matches Ok(ops) && ops.contains("none"@)),
    ensures
        struct_slots(fields) matches Ok(slots) ==> forall|j: int|
            0 <= j < slots.len() ==> (#[trigger] slots[j]).field != name,
    decreases fields.len(),
{
    if fields.len() > 0 {
        let before = fields.drop_last();
        let last = fields.last();
        assert(forall|k: int| 0 <= k < before.len() ==> before[k] == fields[k]);
        law_excluded_field_has_no_slot(before, name);
        assert(last == fields[fields.len() - 1]);
        if let Ok(slots) = struct_slots(fields) {
            let front = struct_slots(before)->Ok_0;
            let ops = field_ops(last.attrs@)->Ok_0;
            lemma_field_slots_name(last.ident@, last.ty, ops, fields.len() - 1);
            assert(slots == front + field_slots(last.ident@, last.ty, ops, fields.len() - 1));
            assert forall|j: int| 0 <= j < slots.len() implies (#[trigger] slots[j]).field
                != name by {
                if j < front.len() {
                    assert(slots[j] == front[j]);
                } else {
                    assert(slots[j] == field_slots(last.ident@, last.ty, ops, fields.len() - 1)[j
                        - front.len()]);
                }
            }
        }
    }
}

/// Law: a field without a `mongo_ops` annotation gets the slot that a field
/// annotated with `set` gets, and no other.
pub proof fn law_unannotated_field_is_set(
    attrs: Seq<Attribute>,
    field: Seq<char>,
    ty: TypeShape,
    position: int,
)
    requires
        forall|i: int| 0 <= i < attrs.len() ==> (#[trigger] attrs[i]).path@ != "mongo_ops"@,
    ensures
        field_ops(attrs) == Ok::<Seq<Seq<char>>, ParseError>(Seq::empty()),
        field_slots(field, ty, Seq::empty(), position) == seq![
            slot_for(Operation::SetField, field, position),
        ],
        field_slots(field, ty, seq!["set"@], position) == field_slots(
            field,
            ty,
            Seq::empty(),
            position,
        ),
    decreases attrs.len(),
{
    if attrs.len() > 0 {
        assert(forall|k: int| 0 <= k < attrs.len() - 1 ==> attrs.drop_last()[k] == attrs[k]);
        law_unannotated_field_is_set(attrs.drop_last(), field, ty, position);
        assert(attrs.last() == attrs[attrs.len() - 1]);
    }
    reveal_strlit("set");
    reveal_strlit("none");
    reveal_strlit("push");
    reveal_strlit("pull");
    let nothing = Seq::<Seq<char>>::empty();
    let only_set = seq!["set"@];
    assert(only_set[0] == "set"@);
    assert("set"@.len() != "none"@.len());
    assert("set"@.len() != "push"@.len());
    assert("set"@.len() != "pull"@.len());
    assert(!only_set.contains("none"@));
    assert(!only_set.contains("push"@));
    assert(!only_set.contains("pull"@));
    assert(only_set.contains("set"@));
    assert(field_slots(field, ty, nothing, position) =~= seq![
        slot_for(Operation::SetField, field, position),
    ]);
    assert(field_slots(field, ty, only_set, position) =~= seq![
        slot_for(Operation::SetField, field, position),
    ]);
}

/// Whether `calls` holds no write by path under `name` itself.
pub open spec fn no_path_write(calls: Seq<Call>, name: Seq<char>) -> bool {
    forall|k: int|
        0 <= k < calls.len() ==> !((#[trigger] calls[k]) matches Call::SetPath { path, .. }
            && path == name)
}

/// A builder without a slot on `name` gets none by its methods, and its table
/// of writes by path gets no entry `name` unless one is written by path under
/// that very name.
pub proof fn lemma_calls_keep_out(builder: BuilderModel, calls: Seq<Call>, name: Seq<char>)
    requires
        forall|j: int| 0 <= j < builder.slots.len() ==> (#[trigger] builder.slots[j]).field != name,
        !builder.path_table().contains_key(name),
        !name.contains('.'),
        no_path_write(calls, name),
    ensures
        forall|j: int|
            0 <= j < after_all(builder, calls).slots.len() ==> (#[trigger] after_all(
                builder,
                calls,
            ).slots[j]).field != name,
        !after_all(builder, calls).path_table().contains_key(name),
    decreases calls.len(),
{
    if calls.len() > 0 {
        let front = calls.drop_last();
        assert(forall|k: int| 0 <= k < front.len() ==> front[k] == calls[k]);
        lemma_calls_keep_out(builder, front, name);
        let before = after_all(builder, front);
        let call = calls.last();
        assert(call == calls[calls.len() - 1]);
        let next = after(before, call);
        reveal_strlit(".");
        match call {
            Call::SetValue { field, value } => {
                lemma_with_value_slots(before, Operation::SetField, field, value);
            },
            Call::PushValue { field, value } => {
                lemma_with_value_slots(before, Operation::PushItem, field, value);
            },
            Call::PullValue { field, value } => {
                lemma_with_value_slots(before, Operation::PullItem, field, value);
            },
            Call::SetPath { path, value } => {
                if let Ok(v) = value {
                    lemma_table_push(before.paths, path, v);
                }
            },
            Call::NestedPath { field, nested_path, value } => {
                let key = field + "."@ + nested_path;
                assert(key[field.len() as int] == '.');
                assert(key.contains('.'));
                if let Ok(v) = value {
                    lemma_table_push(before.paths, key, v);
                }
            },
            Call::WithNested { field, configured } => {
                let prefix = field + "."@;
                lemma_bucket_entries_map(configured);
                lemma_table_of_prefixed(before.paths, configured.set_entries(), prefix);
                if prefixed(configured.set_bucket(), prefix).contains_key(name) {
                    assert(prefix.is_prefix_of(name));
                    assert(name[field.len() as int] == prefix[field.len() as int]);
                    assert(name[field.len() as int] == '.');
                    assert(name.contains('.'));
                }
            },
        }
    }
}

/// Law: a field without a slot never appears in an update document. Whatever
/// methods are called on a builder of `spec`, in whatever order, no bucket of
/// its update documents has the key `name`, as long as `name` is the name of a
/// field (it holds no `.`) and nothing is written by path under `name`
/// itself.
pub proof fn law_excluded_field_never_built(
    spec: BuilderSpecModel,
    calls: Seq<Call>,
    name: Seq<char>,
    top: Seq<(Seq<char>, Bson)>,
)
    requires
        forall|j: int| 0 <= j < spec.slots.len() ==> (#[trigger] spec.slots[j]).field != name,
        !name.contains('.'),
        no_path_write(calls, name),
        is_update_document(top, after_all(fresh_builder(spec), calls)),
    ensures
        !after_all(fresh_builder(spec), calls).offers(Operation::SetField, name),
        !after_all(fresh_builder(spec), calls).offers(Operation::PushItem, name),
        !after_all(fresh_builder(spec), calls).offers(Operation::PullItem, name),
        !mentions(top, "$set"@, name),
        !mentions(top, "$push"@, name),
        !mentions(top, "$pull"@, name),
{
    let fresh = fresh_builder(spec);
    let builder = after_all(fresh, calls);
    lemma_update_mapping(top, builder);
    lemma_calls_keep_out(fresh, calls, name);
    lemma_first_slot(builder.slots, Operation::SetField, name);
    lemma_first_slot(builder.slots, Operation::PushItem, name);
    lemma_first_slot(builder.slots, Operation::PullItem, name);
    lemma_bucket_hits(builder.slots, Operation::SetField, name);
    lemma_bucket_hits(builder.slots, Operation::PushItem, name);
    lemma_bucket_hits(builder.slots, Operation::PullItem, name);
}

} // verus!
