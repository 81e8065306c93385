//! The update builder: it collects values for the slots that were synthesized
//! for it, and writes by path, and assembles them into an update document.
//!
//! A value reaches the builder as the outcome of its serialization: the result
//! of `bson::to_bson`. A slot keeps the outcome as it is, so that a failed
//! serialization fails the assembly, and a write by path fails at once.

use crate::document::{
    array_value, document_entries, document_pairs, document_value, embedded_array,
    embedded_document, entries_insert, get_value, insert_value, key_index, keys_of,
    lemma_key_index, lemma_key_index_by_keys,
};
use crate::synth::{
    nested_models, BuilderSpec, BuilderSpecModel, NestedField, NestedMethods, NestedModel,
    Operation,
};
use crate::text::{joined, same_text};
use bson::{Bson, Document};
use vstd::prelude::*;

verus! {

/// Why an update could not be assembled.
#[derive(Debug)]
pub enum UpdateError {
    /// A value could not be turned into the neutral representation.
    Serialization(bson::ser::Error),
}

/// One slot of a builder and the value that was given for it, if any. The
/// value is the outcome of serializing what the caller passed.
#[derive(Debug, Clone)]
pub struct SlotState {
    operation: Operation,
    field: String,
    value: Option<Result<Bson, bson::ser::Error>>,
}

/// The mathematical value of a [`SlotState`].
pub struct SlotStateModel {
    pub operation: Operation,
    pub field: Seq<char>,
    pub value: Option<Result<Bson, bson::ser::Error>>,
}

impl View for SlotState {
    type V = SlotStateModel;

    closed spec fn view(&self) -> SlotStateModel {
        SlotStateModel { operation: self.operation, field: self.field@, value: self.value }
    }
}

/// A builder of update documents.
///
/// A builder answers to the methods that were synthesized for it. A call for
/// an operation that it does not offer for the field changes nothing.
#[derive(Debug, Clone)]
pub struct UpdateBuilder {
    name: String,
    slots: Vec<SlotState>,
    nested: Vec<NestedField>,
    path_updates: Vec<(String, Bson)>,
}

/// The mathematical value of an [`UpdateBuilder`].
pub struct BuilderModel {
    /// The builder's name.
    pub name: Seq<char>,
    /// The slots with their values.
    pub slots: Seq<SlotStateModel>,
    /// The nested fields for which the builder has methods.
    pub nested: Seq<NestedModel>,
    /// The writes by path, oldest first.
    pub paths: Seq<(Seq<char>, Bson)>,
}

/// The values of a sequence of slot states, one for one.
pub closed spec fn slot_state_models(slots: Seq<SlotState>) -> Seq<SlotStateModel> {
    Seq::new(slots.len(), |i: int| slots[i]@)
}

/// The values of a sequence of writes by path, one for one.
pub closed spec fn path_writes(log: Seq<(String, Bson)>) -> Seq<(Seq<char>, Bson)> {
    Seq::new(log.len(), |i: int| (log[i].0@, log[i].1))
}

impl View for UpdateBuilder {
    type V = BuilderModel;

    closed spec fn view(&self) -> BuilderModel {
        BuilderModel {
            name: self.name@,
            slots: slot_state_models(self.slots@),
            nested: nested_models(self.nested@),
            paths: path_writes(self.path_updates@),
        }
    }
}

/// The first slot of `operation` on `field`, if there is one.
pub open spec fn first_slot(slots: Seq<SlotStateModel>, operation: Operation, field: Seq<char>)
    -> Option<int>
    decreases slots.len(),
{
    if slots.len() == 0 {
        None
    } else {
        match first_slot(slots.drop_last(), operation, field) {
            Some(i) => Some(i),
            None => if slots.last().operation == operation && slots.last().field == field {
                Some(slots.len() - 1)
            } else {
                None
            },
        }
    }
}

/// What [`first_slot`] finds is the least position that fits, and it finds
/// nothing only where nothing fits.
pub proof fn lemma_first_slot(slots: Seq<SlotStateModel>, operation: Operation, field: Seq<char>)
    ensures
        match first_slot(slots, operation, field) {
            Some(i) => {
                &&& 0 <= i < slots.len()
                &&& slots[i].operation == operation
                &&& slots[i].field == field
                &&& forall|k: int|
                    0 <= k < i ==> !((#[trigger] slots[k]).operation == operation && slots[k].field
                        == field)
            },
            None => forall|k: int|
                0 <= k < slots.len() ==> !((#[trigger] slots[k]).operation == operation
                    && slots[k].field == field),
        },
    decreases slots.len(),
{
    if slots.len() > 0 {
        lemma_first_slot(slots.drop_last(), operation, field);
        assert(forall|k: int| 0 <= k < slots.len() - 1 ==> slots.drop_last()[k] == slots[k]);
    }
}

impl BuilderModel {
    /// Whether the builder has the method of `operation` for `field`.
    pub open spec fn offers(self, operation: Operation, field: Seq<char>) -> bool {
        first_slot(self.slots, operation, field) is Some
    }

    /// The builder after `value` was given for `operation` on `field`: the
    /// slot holds `value` in place of what it held, and nothing else differs.
    /// A builder that does not offer the method stays as it is.
    pub open spec fn with_value(
        self,
        operation: Operation,
        field: Seq<char>,
        value: Result<Bson, bson::ser::Error>,
    ) -> BuilderModel {
        match first_slot(self.slots, operation, field) {
            Some(i) => BuilderModel {
                slots: self.slots.update(
                    i,
                    SlotStateModel { operation, field, value: Some(value) },
                ),
                ..self
            },
            None => self,
        }
    }

    /// The builder after `value` was written under `path`.
    pub open spec fn with_path(self, path: Seq<char>, value: Bson) -> BuilderModel {
        BuilderModel { paths: self.paths.push((path, value)), ..self }
    }
}

/// A builder of `spec` to which nothing was given yet.
pub open spec fn fresh_builder(spec: BuilderSpecModel) -> BuilderModel {
    BuilderModel {
        name: spec.name,
        slots: Seq::new(
            spec.slots.len(),
            |i: int|
                SlotStateModel {
                    operation: spec.slots[i].operation,
                    field: spec.slots[i].field,
                    value: None,
                },
        ),
        nested: spec.nested,
        paths: Seq::empty(),
    }
}

/// A copy of `fields`.
fn copy_nested(fields: &Vec<NestedField>) -> (r: Vec<NestedField>)
    ensures
        nested_models(r@) == nested_models(fields@),
{
    let mut copy: Vec<NestedField> = Vec::new();
    let mut i: usize = 0;
    while i < fields.len()
        invariant
            i <= fields.len(),
            copy.len() == i,
            forall|k: int| 0 <= k < i ==> (#[trigger] copy[k])@ == fields[k]@,
        decreases fields.len() - i,
    {
        let field = &fields[i];
        copy.push(
            NestedField {
                field: field.field.clone(),
                nested_type: field.nested_type.clone(),
                nested_builder: field.nested_builder.clone(),
                with_method: field.with_method.clone(),
            },
        );
        i += 1;
    }
    assert(nested_models(copy@) =~= nested_models(fields@));
    copy
}

impl BuilderSpec {
    /// Gives the builder the methods for nested fields that were synthesized
    /// for it. Methods that name another builder are not taken.
    pub fn with_nested_methods(self, methods: NestedMethods) -> (r: BuilderSpec)
        ensures
            r@ == if methods@.builder == self@.name {
                BuilderSpecModel { nested: self@.nested + methods@.fields, ..self@ }
            } else {
                self@
            },
    {
        if !same_text(methods.builder.as_str(), self.name.as_str()) {
            return self;
        }
        let mut spec = self;
        let mut added = methods.fields;
        let ghost before = nested_models(spec.nested@);
        let ghost extra = nested_models(added@);
        spec.nested.append(&mut added);
        assert(nested_models(spec.nested@) =~= before + extra);
        spec
    }

    /// Makes a builder to which nothing was given yet.
    pub fn update_builder(&self) -> (r: UpdateBuilder)
        ensures
            r@ == fresh_builder(self@),
    {
        let mut slots: Vec<SlotState> = Vec::new();
        let mut i: usize = 0;
        while i < self.slots.len()
            invariant
                i <= self.slots.len(),
                slots.len() == i,
                forall|k: int|
                    0 <= k < i ==> (#[trigger] slots[k])@ == (SlotStateModel {
                        operation: self.slots[k].operation,
                        field: self.slots[k].field@,
                        value: None,
                    }),
            decreases self.slots.len() - i,
        {
            let slot = &self.slots[i];
            slots.push(
                SlotState { operation: slot.operation, field: slot.field.clone(), value: None },
            );
            i += 1;
        }
        let builder = UpdateBuilder {
            name: self.name.clone(),
            slots,
            nested: copy_nested(&self.nested),
            path_updates: Vec::new(),
        };
        assert(builder@.slots =~= fresh_builder(self@).slots);
        assert(builder@.paths =~= fresh_builder(self@).paths);
        builder
    }
}

impl UpdateBuilder {
    /// Gives `value` for `operation` on `field`.
    fn store(
        self,
        operation: Operation,
        field: &str,
        value: Result<Bson, bson::ser::Error>,
    ) -> (r: Self)
        ensures
            r@ == self@.with_value(operation, field@, value),
    {
        let mut builder = self;
        let ghost before = builder@;
        let mut i: usize = 0;
        while i < builder.slots.len()
            invariant
                i <= builder.slots.len(),
                builder@ == before,
                before == self@,
                forall|k: int|
                    0 <= k < i ==> !((#[trigger] before.slots[k]).operation == operation
                        && before.slots[k].field == field@),
            decreases builder.slots.len() - i,
        {
            assert(before.slots[i as int] == builder.slots[i as int]@);
            if builder.slots[i].operation == operation && same_text(
                builder.slots[i].field.as_str(),
                field,
            ) {
                proof {
                    lemma_first_slot(before.slots, operation, field@);
                }
                builder.slots[i].value = Some(value);
                assert(builder@.slots =~= before.slots.update(
                    i as int,
                    SlotStateModel { operation, field: field@, value: Some(value) },
                ));
                return builder;
            }
            i += 1;
        }
        proof {
            lemma_first_slot(before.slots, operation, field@);
        }
        builder
    }

    /// Whether the builder has the method of `operation` for `field`.
    pub fn has_method(&self, operation: Operation, field: &str) -> (r: bool)
        ensures
            r == self@.offers(operation, field@),
    {
        let ghost model = self@;
        let mut i: usize = 0;
        while i < self.slots.len()
            invariant
                i <= self.slots.len(),
                model == self@,
                forall|k: int|
                    0 <= k < i ==> !((#[trigger] model.slots[k]).operation == operation
                        && model.slots[k].field == field@),
            decreases self.slots.len() - i,
        {
            assert(model.slots[i as int] == self.slots[i as int]@);
            if self.slots[i].operation == operation && same_text(self.slots[i].field.as_str(), field) {
                proof {
                    lemma_first_slot(model.slots, operation, field@);
                }
                return true;
            }
            i += 1;
        }
        proof {
            lemma_first_slot(model.slots, operation, field@);
        }
        false
    }

    /// Sets the value that the update gives to `field`. A second call for the
    /// same field replaces the value of the first.
    pub fn set(self, field: &str, value: Result<Bson, bson::ser::Error>) -> (r: Self)
        ensures
            r@ == self@.with_value(Operation::SetField, field@, value),
    {
        self.store(Operation::SetField, field, value)
    }

    /// Sets the one element that the update appends to `field`. A second call
    /// for the same field replaces the element of the first: elements do not
    /// accumulate.
    pub fn push(self, field: &str, value: Result<Bson, bson::ser::Error>) -> (r: Self)
        ensures
            r@ == self@.with_value(Operation::PushItem, field@, value),
    {
        self.store(Operation::PushItem, field, value)
    }

    /// Sets the one element that the update removes from `field`. A second
    /// call for the same field replaces the element of the first.
    pub fn pull(self, field: &str, value: Result<Bson, bson::ser::Error>) -> (r: Self)
        ensures
            r@ == self@.with_value(Operation::PullItem, field@, value),
    {
        self.store(Operation::PullItem, field, value)
    }

    /// Writes `value` under `field_path`, whatever fields the builder has
    /// slots for. Fails exactly when `value` is a failed serialization, and
    /// then with that failure.
    pub fn set_field(self, field_path: &str, value: Result<Bson, bson::ser::Error>) -> (r: Result<
        Self,
        UpdateError,
    >)
        ensures
            match value {
                Ok(v) => r matches Ok(builder) && builder@ == self@.with_path(field_path@, v),
                Err(e) => r matches Err(UpdateError::Serialization(source)) && source == e,
            },
    {
        match value {
            Ok(v) => {
                let mut builder = self;
                let ghost writes = builder@.paths;
                builder.path_updates.push((String::from_str(field_path), v));
                assert(builder@.paths =~= writes.push((field_path@, v)));
                Ok(builder)
            },
            Err(e) => Err(UpdateError::Serialization(e)),
        }
    }
}

/// The entries that the slots of `operation` give: for each slot that holds a
/// serialized value, in the order of the slots, that value inserted under the
/// slot's field.
pub open spec fn slot_entries(slots: Seq<SlotStateModel>, operation: Operation) -> Seq<
    (Seq<char>, Bson),
>
    decreases slots.len(),
{
    if slots.len() == 0 {
        Seq::empty()
    } else {
        let before = slot_entries(slots.drop_last(), operation);
        let last = slots.last();
        if last.operation == operation {
            match last.value {
                Some(Ok(value)) => entries_insert(before, last.field, value),
                _ => before,
            }
        } else {
            before
        }
    }
}

/// The entries `base` after the writes by path `writes` were inserted, oldest
/// first.
pub open spec fn written(base: Seq<(Seq<char>, Bson)>, writes: Seq<(Seq<char>, Bson)>) -> Seq<
    (Seq<char>, Bson),
>
    decreases writes.len(),
{
    if writes.len() == 0 {
        base
    } else {
        entries_insert(written(base, writes.drop_last()), writes.last().0, writes.last().1)
    }
}

/// The failure of the first slot of `operation` that holds a failed
/// serialization, if there is one.
pub open spec fn first_failure(slots: Seq<SlotStateModel>, operation: Operation) -> Option<
    bson::ser::Error,
>
    decreases slots.len(),
{
    if slots.len() == 0 {
        None
    } else {
        match first_failure(slots.drop_last(), operation) {
            Some(e) => Some(e),
            None => {
                let last = slots.last();
                if last.operation == operation {
                    match last.value {
                        Some(Err(e)) => Some(e),
                        _ => None,
                    }
                } else {
                    None
                }
            },
        }
    }
}

/// A failure among the first `n` slots is the failure of them all.
proof fn lemma_first_failure_prefix(slots: Seq<SlotStateModel>, operation: Operation, n: int)
    requires
        0 <= n <= slots.len(),
        first_failure(slots.take(n), operation) is Some,
    ensures
        first_failure(slots, operation) == first_failure(slots.take(n), operation),
    decreases slots.len() - n,
{
    if n < slots.len() {
        assert(slots.take(n + 1).drop_last() =~= slots.take(n));
        lemma_first_failure_prefix(slots, operation, n + 1);
    } else {
        assert(slots.take(n) =~= slots);
    }
}

/// Whether `entry` is the document `{operator: [value]}`.
pub open spec fn is_item(entry: Bson, operator: Seq<char>, value: Bson) -> bool {
    match embedded_document(entry) {
        Some(inner) => {
            &&& inner.len() == 1
            &&& inner[0].0 == operator
            &&& embedded_array(inner[0].1) == Some(seq![value])
        },
        None => false,
    }
}

/// Whether `entries` has the keys of `values` in their order, and under each
/// key the document `{operator: [value]}` with the key's value.
pub open spec fn are_items(
    entries: Seq<(Seq<char>, Bson)>,
    operator: Seq<char>,
    values: Seq<(Seq<char>, Bson)>,
) -> bool {
    &&& entries.len() == values.len()
    &&& forall|i: int|
        0 <= i < entries.len() ==> (#[trigger] entries[i]).0 == values[i].0 && is_item(
            entries[i].1,
            operator,
            values[i].1,
        )
}

/// Whether `value` is a document that [`are_items`] holds of.
pub open spec fn holds_items(value: Bson, operator: Seq<char>, values: Seq<(Seq<char>, Bson)>) -> bool {
    match embedded_document(value) {
        Some(entries) => are_items(entries, operator, values),
        None => false,
    }
}

/// An insertion under the same key on both sides keeps [`are_items`].
proof fn lemma_insert_item(
    entries: Seq<(Seq<char>, Bson)>,
    operator: Seq<char>,
    values: Seq<(Seq<char>, Bson)>,
    key: Seq<char>,
    entry: Bson,
    value: Bson,
)
    requires
        are_items(entries, operator, values),
        is_item(entry, operator, value),
    ensures
        are_items(
            entries_insert(entries, key, entry),
            operator,
            entries_insert(values, key, value),
        ),
{
    assert(keys_of(entries) =~= keys_of(values));
    lemma_key_index_by_keys(entries, values, key);
    lemma_key_index(entries, key);
}

impl BuilderModel {
    /// The entries of the `$set` bucket: what the `set` slots give, and then
    /// the writes by path, so that a write by path replaces the value of a
    /// slot of the same name.
    pub open spec fn set_entries(self) -> Seq<(Seq<char>, Bson)> {
        written(slot_entries(self.slots, Operation::SetField), self.paths)
    }

    /// The elements that the update appends, by field.
    pub open spec fn push_entries(self) -> Seq<(Seq<char>, Bson)> {
        slot_entries(self.slots, Operation::PushItem)
    }

    /// The elements that the update removes, by field.
    pub open spec fn pull_entries(self) -> Seq<(Seq<char>, Bson)> {
        slot_entries(self.slots, Operation::PullItem)
    }

    /// The keys of the update document: of `$set`, `$push` and `$pull`, in
    /// this order, those whose bucket has an entry.
    pub open spec fn bucket_names(self) -> Seq<Seq<char>> {
        let set = if self.set_entries().len() > 0 {
            seq!["$set"@]
        } else {
            Seq::empty()
        };
        let push = if self.push_entries().len() > 0 {
            seq!["$push"@]
        } else {
            Seq::empty()
        };
        let pull = if self.pull_entries().len() > 0 {
            seq!["$pull"@]
        } else {
            Seq::empty()
        };
        set + push + pull
    }

    /// The failure that keeps the update from being assembled: that of the
    /// first failed `set` slot, else of the first failed `push` slot, else of
    /// the first failed `pull` slot.
    pub open spec fn failure(self) -> Option<bson::ser::Error> {
        match first_failure(self.slots, Operation::SetField) {
            Some(e) => Some(e),
            None => match first_failure(self.slots, Operation::PushItem) {
                Some(e) => Some(e),
                None => first_failure(self.slots, Operation::PullItem),
            },
        }
    }
}

/// Whether `top` holds the entries of the update document of `builder`: the
/// keys [`BuilderModel::bucket_names`], with the document `{path: value, ..}`
/// of [`BuilderModel::set_entries`] under `$set`, the document
/// `{field: {"$each": [value]}, ..}` of [`BuilderModel::push_entries`] under
/// `$push`, and the document `{field: {"$in": [value]}, ..}` of
/// [`BuilderModel::pull_entries`] under `$pull`.
pub open spec fn is_update_document(top: Seq<(Seq<char>, Bson)>, builder: BuilderModel) -> bool {
    &&& keys_of(top) == builder.bucket_names()
    &&& forall|i: int|
        0 <= i < top.len() ==> if (#[trigger] top[i]).0 == "$set"@ {
            embedded_document(top[i].1) == Some(builder.set_entries())
        } else if top[i].0 == "$push"@ {
            holds_items(top[i].1, "$each"@, builder.push_entries())
        } else {
            holds_items(top[i].1, "$in"@, builder.pull_entries())
        }
}

/// Gathers what the update sets: the values of the `set` slots, then the
/// writes by path.
fn gather_set(slots: &Vec<SlotState>, path_updates: &Vec<(String, Bson)>) -> (r: Result<
    Document,
    bson::ser::Error,
>)
    ensures
        match r {
            Ok(doc) => {
                &&& first_failure(slot_state_models(slots@), Operation::SetField) is None
                &&& document_entries(doc) == written(
                    slot_entries(slot_state_models(slots@), Operation::SetField),
                    path_writes(path_updates@),
                )
            },
            Err(e) => first_failure(slot_state_models(slots@), Operation::SetField) == Some(e),
        },
{
    let ghost models = slot_state_models(slots@);
    let ghost writes = path_writes(path_updates@);
    let mut doc = Document::new();
    let mut i: usize = 0;
    assert(models.take(0) =~= Seq::empty());
    assert(document_entries(doc) =~= Seq::empty());
    while i < slots.len()
        invariant
            i <= slots.len(),
            models == slot_state_models(slots@),
            first_failure(models.take(i as int), Operation::SetField) is None,
            document_entries(doc) == slot_entries(models.take(i as int), Operation::SetField),
        decreases slots.len() - i,
    {
        let ghost upto = models.take(i + 1);
        assert(upto.drop_last() =~= models.take(i as int));
        assert(upto.last() == slots[i as int]@);
        let slot = &slots[i];
        if slot.operation == Operation::SetField {
            match &slot.value {
                Some(Ok(value)) => {
                    insert_value(&mut doc, slot.field.as_str(), value.clone());
                },
                Some(Err(e)) => {
                    proof {
                        lemma_first_failure_prefix(models, Operation::SetField, i + 1);
                    }
                    return Err(e.clone());
                },
                None => {},
            }
        }
        i += 1;
    }
    assert(models.take(slots.len() as int) =~= models);
    let ghost named = slot_entries(models, Operation::SetField);
    let mut j: usize = 0;
    assert(writes.take(0) =~= Seq::empty());
    while j < path_updates.len()
        invariant
            j <= path_updates.len(),
            writes == path_writes(path_updates@),
            document_entries(doc) == written(named, writes.take(j as int)),
        decreases path_updates.len() - j,
    {
        let ghost upto = writes.take(j + 1);
        assert(upto.drop_last() =~= writes.take(j as int));
        assert(upto.last() == (path_updates@[j as int].0@, path_updates@[j as int].1));
        let entry = &path_updates[j];
        insert_value(&mut doc, entry.0.as_str(), entry.1.clone());
        j += 1;
    }
    assert(writes.take(path_updates.len() as int) =~= writes);
    Ok(doc)
}

/// Gathers the elements given for `operation`, each as the document
/// `{operator: [element]}` under its field.
fn gather_items(slots: &Vec<SlotState>, operation: Operation, operator: &str) -> (r: Result<
    Document,
    bson::ser::Error,
>)
    ensures
        match r {
            Ok(doc) => {
                &&& first_failure(slot_state_models(slots@), operation) is None
                &&& are_items(
                    document_entries(doc),
                    operator@,
                    slot_entries(slot_state_models(slots@), operation),
                )
            },
            Err(e) => first_failure(slot_state_models(slots@), operation) == Some(e),
        },
{
    let ghost models = slot_state_models(slots@);
    let mut doc = Document::new();
    let mut i: usize = 0;
    assert(models.take(0) =~= Seq::empty());
    while i < slots.len()
        invariant
            i <= slots.len(),
            models == slot_state_models(slots@),
            first_failure(models.take(i as int), operation) is None,
            are_items(
                document_entries(doc),
                operator@,
                slot_entries(models.take(i as int), operation),
            ),
        decreases slots.len() - i,
    {
        let ghost upto = models.take(i + 1);
        assert(upto.drop_last() =~= models.take(i as int));
        assert(upto.last() == slots[i as int]@);
        let slot = &slots[i];
        if slot.operation == operation {
            match &slot.value {
                Some(Ok(value)) => {
                    let mut items: Vec<Bson> = Vec::new();
                    items.push(value.clone());
                    assert(items@ =~= seq![*value]);
                    let mut inner = Document::new();
                    insert_value(&mut inner, operator, array_value(items));
                    let entry = document_value(inner);
                    assert(is_item(entry, operator@, *value));
                    proof {
                        lemma_insert_item(
                            document_entries(doc),
                            operator@,
                            slot_entries(models.take(i as int), operation),
                            slot.field@,
                            entry,
                            *value,
                        );
                    }
                    insert_value(&mut doc, slot.field.as_str(), entry);
                },
                Some(Err(e)) => {
                    proof {
                        lemma_first_failure_prefix(models, operation, i + 1);
                    }
                    return Err(e.clone());
                },
                None => {},
            }
        }
        i += 1;
    }
    assert(models.take(slots.len() as int) =~= models);
    Ok(doc)
}

impl UpdateBuilder {
    /// Assembles the update document.
    ///
    /// The slots are walked in the order `set`, `push`, `pull`, each kind in
    /// the order of the slots, and the writes by path come after the `set`
    /// slots, so that a write by path replaces the value of a slot of the same
    /// name. A bucket with no entry is left out of the document. If a slot
    /// holds a failed serialization, the first such failure is returned and no
    /// document.
    pub fn build(self) -> (r: Result<Document, UpdateError>)
        ensures
            match r {
                Ok(doc) => self@.failure() is None && is_update_document(
                    document_entries(doc),
                    self@,
                ),
                Err(UpdateError::Serialization(e)) => self@.failure() == Some(e),
            },
    {
        let set_doc = match gather_set(&self.slots, &self.path_updates) {
            Ok(doc) => doc,
            Err(e) => { return Err(UpdateError::Serialization(e)); },
        };
        let push_doc = match gather_items(&self.slots, Operation::PushItem, "$each") {
            Ok(doc) => doc,
            Err(e) => { return Err(UpdateError::Serialization(e)); },
        };
        let pull_doc = match gather_items(&self.slots, Operation::PullItem, "$in") {
            Ok(doc) => doc,
            Err(e) => { return Err(UpdateError::Serialization(e)); },
        };
        proof {
            lemma_bucket_names_differ();
        }
        let mut update = Document::new();
        assert(document_entries(update) =~= Seq::empty());
        if !set_doc.is_empty() {
            insert_value(&mut update, "$set", document_value(set_doc));
        }
        let ghost first = document_entries(update);
        proof {
            lemma_key_index(first, "$push"@);
        }
        if !push_doc.is_empty() {
            insert_value(&mut update, "$push", document_value(push_doc));
        }
        let ghost second = document_entries(update);
        proof {
            lemma_key_index(second, "$pull"@);
        }
        if !pull_doc.is_empty() {
            insert_value(&mut update, "$pull", document_value(pull_doc));
        }
        assert(keys_of(document_entries(update)) =~= self@.bucket_names());
        Ok(update)
    }
}

/// The names of the three buckets differ from each other.
pub proof fn lemma_bucket_names_differ()
    ensures
        "$set"@ != "$push"@,
        "$set"@ != "$pull"@,
        "$push"@ != "$pull"@,
{
    reveal_strlit("$set");
    reveal_strlit("$push");
    reveal_strlit("$pull");
    assert("$set"@.len() != "$push"@.len());
    assert("$set"@.len() != "$pull"@.len());
    assert("$push"@[3] != "$pull"@[3]);
}

/// The first of `nested` that is declared for `field`, if there is one.
pub open spec fn first_nested(nested: Seq<NestedModel>, field: Seq<char>) -> Option<int>
    decreases nested.len(),
{
    if nested.len() == 0 {
        None
    } else {
        match first_nested(nested.drop_last(), field) {
            Some(i) => Some(i),
            None => if nested.last().field == field {
                Some(nested.len() - 1)
            } else {
                None
            },
        }
    }
}

/// What [`first_nested`] finds is the least position that fits, and it finds
/// nothing only where nothing fits.
pub proof fn lemma_first_nested(nested: Seq<NestedModel>, field: Seq<char>)
    ensures
        match first_nested(nested, field) {
            Some(i) => {
                &&& 0 <= i < nested.len()
                &&& nested[i].field == field
                &&& forall|k: int| 0 <= k < i ==> (#[trigger] nested[k]).field != field
            },
            None => forall|k: int| 0 <= k < nested.len() ==> (#[trigger] nested[k]).field != field,
        },
    decreases nested.len(),
{
    if nested.len() > 0 {
        lemma_first_nested(nested.drop_last(), field);
        assert(forall|k: int| 0 <= k < nested.len() - 1 ==> nested.drop_last()[k] == nested[k]);
    }
}

/// The entries of `entries` in their order, each under its key with `prefix`
/// in front.
pub open spec fn prefixed_entries(entries: Seq<(Seq<char>, Bson)>, prefix: Seq<char>) -> Seq<
    (Seq<char>, Bson),
> {
    Seq::new(entries.len(), |i: int| (prefix + entries[i].0, entries[i].1))
}

impl BuilderModel {
    /// The name of the builder that the nested field `field` takes, if the
    /// builder has methods for such a field.
    pub open spec fn nested_builder(self, field: Seq<char>) -> Option<Seq<char>> {
        match first_nested(self.nested, field) {
            Some(i) => Some(self.nested[i].nested_builder),
            None => None,
        }
    }

    /// The builder after `value` was written below the nested field `field`,
    /// under `nested_path`: a write by path under `field.nested_path`. A
    /// builder without methods for `field` stays as it is.
    pub open spec fn with_nested_path(
        self,
        field: Seq<char>,
        nested_path: Seq<char>,
        value: Bson,
    ) -> BuilderModel {
        if first_nested(self.nested, field) is Some {
            self.with_path(field + "."@ + nested_path, value)
        } else {
            self
        }
    }

    /// The builder after it took over what the builder `configured` of the
    /// nested field `field` sets: each entry of its `$set` bucket, in the
    /// order of the bucket, becomes a write by path under `field.` followed by
    /// the entry's path. What `configured` pushes and pulls is not taken over.
    /// The builder stays as it is if it has no methods for `field`, if
    /// `configured` is not a builder of the field's type, or if `configured`
    /// cannot be assembled.
    pub open spec fn absorb(self, field: Seq<char>, configured: BuilderModel) -> BuilderModel {
        if self.nested_builder(field) == Some(configured.name) && configured.failure() is None {
            BuilderModel {
                paths: self.paths + prefixed_entries(configured.set_entries(), field + "."@),
                ..self
            }
        } else {
            self
        }
    }
}

impl UpdateBuilder {
    /// Finds the methods for the nested field `field`.
    fn find_nested(&self, field: &str) -> (r: Option<usize>)
        ensures
            match r {
                Some(i) => first_nested(self@.nested, field@) == Some(i as int) && i
                    < self.nested.len(),
                None => first_nested(self@.nested, field@) is None,
            },
    {
        let ghost models = self@.nested;
        let mut i: usize = 0;
        while i < self.nested.len()
            invariant
                i <= self.nested.len(),
                models == self@.nested,
                forall|k: int| 0 <= k < i ==> (#[trigger] models[k]).field != field@,
            decreases self.nested.len() - i,
        {
            assert(models[i as int] == self.nested[i as int]@);
            if same_text(self.nested[i].field.as_str(), field) {
                proof {
                    lemma_first_nested(models, field@);
                }
                return Some(i);
            }
            i += 1;
        }
        proof {
            lemma_first_nested(models, field@);
        }
        None
    }

    /// Writes `value` below the nested field `field`, under the path
    /// `field.nested_path`. Nothing checks that the nested type has such a
    /// field.
    ///
    /// A builder without methods for `field` ignores the call. Otherwise the
    /// call fails exactly when `value` is a failed serialization, and then
    /// with that failure.
    pub fn nested(
        self,
        field: &str,
        nested_path: &str,
        value: Result<Bson, bson::ser::Error>,
    ) -> (r: Result<Self, UpdateError>)
        ensures
            self@.nested_builder(field@) is None ==> (r matches Ok(builder) && builder@ == self@),
            self@.nested_builder(field@) is Some ==> match value {
                Ok(v) => r matches Ok(builder) && builder@ == self@.with_nested_path(
                    field@,
                    nested_path@,
                    v,
                ),
                Err(e) => r matches Err(UpdateError::Serialization(source)) && source == e,
            },
    {
        if self.find_nested(field).is_none() {
            return Ok(self);
        }
        let path = joined(field, ".").concat(nested_path);
        self.set_field(path.as_str(), value)
    }

    /// Takes over what `configured`, a builder of the nested field `field`,
    /// sets: see [`BuilderModel::absorb`].
    pub fn absorb(self, field: &str, configured: UpdateBuilder) -> (r: Self)
        ensures
            r@ == self@.absorb(field@, configured@),
    {
        let ghost before = self@;
        let ghost inner = configured@;
        let index = match self.find_nested(field) {
            Some(index) => index,
            None => { return self; },
        };
        assert(before.nested[index as int] == self.nested[index as int]@);
        if !same_text(self.nested[index].nested_builder.as_str(), configured.name.as_str()) {
            return self;
        }
        let doc = match configured.build() {
            Ok(doc) => doc,
            Err(_) => { return self; },
        };
        let prefix = joined(field, ".");
        let ghost sets = inner.set_entries();
        let ghost top = document_entries(doc);
        proof {
            lemma_bucket_names_differ();
            lemma_key_index(top, "$set"@);
            assert(top.len() == keys_of(top).len());
        }
        let set_value = match get_value(&doc, "$set") {
            Some(value) => value,
            None => {
                proof {
                    if sets.len() > 0 {
                        assert(keys_of(top)[0] == "$set"@);
                        assert(top[0].0 == "$set"@);
                    }
                    assert(before.paths + prefixed_entries(sets, prefix@) =~= before.paths);
                }
                return self;
            },
        };
        let set_doc = match set_value.as_document() {
            Some(set_doc) => set_doc,
            None => { return self; },
        };
        assert(document_entries(*set_doc) == sets);
        let pairs = document_pairs(set_doc);
        let mut builder = self;
        let mut i: usize = 0;
        assert(before.paths + prefixed_entries(sets.take(0), prefix@) =~= before.paths);
        while i < pairs.len()
            invariant
                i <= pairs.len(),
                pairs@.len() == sets.len(),
                forall|k: int|
                    0 <= k < pairs@.len() ==> (#[trigger] pairs@[k]).0@ == sets[k].0 && pairs@[k].1
                        == sets[k].1,
                builder@ == (BuilderModel {
                    paths: before.paths + prefixed_entries(sets.take(i as int), prefix@),
                    ..before
                }),
            decreases pairs.len() - i,
        {
            let ghost writes = builder@.paths;
            let pair = &pairs[i];
            let path = joined(prefix.as_str(), pair.0.as_str());
            builder.path_updates.push((path, pair.1.clone()));
            assert(builder@.paths =~= writes.push((prefix@ + sets[i as int].0, sets[i as int].1)));
            assert(builder@.paths =~= before.paths + prefixed_entries(
                sets.take(i + 1),
                prefix@,
            ));
            i += 1;
        }
        assert(sets.take(pairs.len() as int) =~= sets);
        builder
    }

    /// Configures the nested field `field` through a builder of its own.
    ///
    /// `nested` describes the builder of the field's type. `configure` gets a
    /// builder of it to which nothing was given yet, is called once, and what
    /// the builder that it returns sets is taken over as [`Self::absorb`]
    /// says. A builder without a method for `field` and `nested` ignores the
    /// call, and `configure` is not called.
    pub fn with_nested<F: FnOnce(UpdateBuilder) -> UpdateBuilder>(
        self,
        field: &str,
        nested: &BuilderSpec,
        configure: F,
    ) -> (r: Self)
        requires
            self@.nested_builder(field@) == Some(nested@.name) ==> forall|fresh: UpdateBuilder|
                fresh@ == fresh_builder(nested@) ==> configure.requires((fresh,)),
        ensures
            self@.nested_builder(field@) != Some(nested@.name) ==> r@ == self@,
            self@.nested_builder(field@) == Some(nested@.name) ==> exists|
                fresh: UpdateBuilder,
                configured: UpdateBuilder,
            |
                fresh@ == fresh_builder(nested@) && configure.ensures((fresh,), configured) && r@
                    == self@.absorb(field@, configured@),
    {
        let index = match self.find_nested(field) {
            Some(index) => index,
            None => { return self; },
        };
        assert(self@.nested[index as int] == self.nested[index as int]@);
        if !same_text(self.nested[index].nested_builder.as_str(), nested.name.as_str()) {
            return self;
        }
        let fresh = nested.update_builder();
        let configured = configure(fresh);
        self.absorb(field, configured)
    }
}

} // verus!
