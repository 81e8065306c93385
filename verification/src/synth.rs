//! Synthesis: from an annotated structure definition to the description of its
//! update builder.

use crate::annotation::{
    parse_ops, parse_pairs, texts, MongoOps, NestedFieldsArgs, ParseError,
};
use crate::lexer::{is_identifier, is_identifier_text};
use crate::shape::{get_vec_inner_type, vec_inner, TypeShape};
use crate::text::{joined, same_text};
use vstd::prelude::*;

verus! {

/// An annotation on a field: `#[path(arguments)]`.
#[derive(Debug, Clone, PartialEq, Eq)]
pub struct Attribute {
    /// The annotation's name.
    pub path: String,
    /// The text between the round brackets; `None` if the annotation has no
    /// list of arguments.
    pub arguments: Option<String>,
}

/// A named field of a structure.
#[derive(Debug)]
pub struct Field {
    pub ident: String,
    pub ty: TypeShape,
    pub attrs: Vec<Attribute>,
}

/// The fields of a structure.
#[derive(Debug)]
pub enum Fields {
    /// Named fields, in the order of their declaration.
    Named(Vec<Field>),
    /// The fields of a tuple structure.
    Unnamed,
    /// No fields at all.
    Unit,
}

/// What kind of item a definition is.
#[derive(Debug)]
pub enum Data {
    Struct(Fields),
    Enum,
    Union,
}

/// A definition that asks for an update builder.
#[derive(Debug)]
pub struct DeriveInput {
    pub ident: String,
    pub data: Data,
}

/// Why no builder could be synthesized.
#[derive(Debug, Clone, Copy, PartialEq, Eq, Structural)]
pub enum SynthError {
    /// The definition is an enumeration or a union.
    OnlyStructs,
    /// The structure has no named fields.
    OnlyNamedFields,
    /// The arguments of an annotation were not accepted.
    Annotation(ParseError),
    /// The type of a nested field is not named by an identifier.
    InvalidTypeName,
}

/// An update operation that a builder can offer for a field.
#[derive(Debug, Clone, Copy, PartialEq, Eq, Structural)]
pub enum Operation {
    /// Replace the field's value (`$set`).
    SetField,
    /// Append one element to the field (`$push`).
    PushItem,
    /// Remove the elements that equal a given one from the field (`$pull`).
    PullItem,
}

/// One slot of a builder: an operation on a field, and the name under which
/// the builder stores the value and offers the method.
///
/// The value of a `set` slot has the field's declared type. The value of a
/// `push` or `pull` slot is one element: it has the element type of the
/// field's sequence. See [`slot_value_type`].
#[derive(Debug, Clone, PartialEq, Eq)]
pub struct Slot {
    pub operation: Operation,
    /// The field's name.
    pub field: String,
    /// The name of the slot and of its method: `set_`, `push_` or `pull_`
    /// followed by the field's name.
    pub name: String,
    /// The position of the field among the fields of the structure.
    pub position: usize,
}

/// The mathematical value of a [`Slot`].
pub struct SlotModel {
    pub operation: Operation,
    pub field: Seq<char>,
    pub name: Seq<char>,
    pub position: int,
}

impl View for Slot {
    type V = SlotModel;

    open spec fn view(&self) -> SlotModel {
        SlotModel {
            operation: self.operation,
            field: self.field@,
            name: self.name@,
            position: self.position as int,
        }
    }
}

/// The two methods that a builder offers for a nested field.
#[derive(Debug, Clone, PartialEq, Eq)]
pub struct NestedField {
    /// The nested field's name, which is also the name of the method that
    /// writes below it by path.
    pub field: String,
    /// The name of the nested field's type.
    pub nested_type: String,
    /// The name of that type's builder.
    pub nested_builder: String,
    /// The name of the method that hands out a builder of the nested type.
    pub with_method: String,
}

/// The mathematical value of a [`NestedField`].
pub struct NestedModel {
    pub field: Seq<char>,
    pub nested_type: Seq<char>,
    pub nested_builder: Seq<char>,
    pub with_method: Seq<char>,
}

impl View for NestedField {
    type V = NestedModel;

    open spec fn view(&self) -> NestedModel {
        NestedModel {
            field: self.field@,
            nested_type: self.nested_type@,
            nested_builder: self.nested_builder@,
            with_method: self.with_method@,
        }
    }
}

/// The methods for nested fields that belong to one builder.
#[derive(Debug, Clone, PartialEq, Eq)]
pub struct NestedMethods {
    /// The name of the builder that the methods belong to.
    pub builder: String,
    pub fields: Vec<NestedField>,
}

/// The mathematical value of a [`NestedMethods`].
pub struct NestedMethodsModel {
    pub builder: Seq<char>,
    pub fields: Seq<NestedModel>,
}

impl View for NestedMethods {
    type V = NestedMethodsModel;

    open spec fn view(&self) -> NestedMethodsModel {
        NestedMethodsModel { builder: self.builder@, fields: nested_models(self.fields@) }
    }
}

/// The description of a synthesized builder.
#[derive(Debug, Clone, PartialEq, Eq)]
pub struct BuilderSpec {
    /// The builder's name: the structure's name followed by `UpdateBuilder`.
    pub name: String,
    /// The slots, grouped by field in the order of the fields, and within a
    /// field in the order push, pull, set.
    pub slots: Vec<Slot>,
    /// The nested fields for which the builder has methods.
    pub nested: Vec<NestedField>,
}

/// The mathematical value of a [`BuilderSpec`].
pub struct BuilderSpecModel {
    pub name: Seq<char>,
    pub slots: Seq<SlotModel>,
    pub nested: Seq<NestedModel>,
}

impl View for BuilderSpec {
    type V = BuilderSpecModel;

    open spec fn view(&self) -> BuilderSpecModel {
        BuilderSpecModel {
            name: self.name@,
            slots: slot_models(self.slots@),
            nested: nested_models(self.nested@),
        }
    }
}

/// The values of a sequence of slots, one for one.
pub open spec fn slot_models(slots: Seq<Slot>) -> Seq<SlotModel> {
    Seq::new(slots.len(), |i: int| slots[i]@)
}

/// The values of a sequence of nested fields, one for one.
pub open spec fn nested_models(fields: Seq<NestedField>) -> Seq<NestedModel> {
    Seq::new(fields.len(), |i: int| fields[i]@)
}

/// What the names of an operation's slot and method begin with.
pub open spec fn method_prefix(operation: Operation) -> Seq<char> {
    match operation {
        Operation::SetField => "set_"@,
        Operation::PushItem => "push_"@,
        Operation::PullItem => "pull_"@,
    }
}

/// The slot of `operation` on the field `field` at `position`.
pub open spec fn slot_for(operation: Operation, field: Seq<char>, position: int) -> SlotModel {
    SlotModel { operation, field, name: method_prefix(operation) + field, position }
}

/// The type of the value that `slot` takes, given the fields of the structure:
/// for `set` the declared type of the slot's field, for `push` and `pull` the
/// element type of the field's sequence.
pub open spec fn value_type_of(fields: Seq<Field>, slot: SlotModel) -> Option<TypeShape> {
    if 0 <= slot.position < fields.len() {
        match slot.operation {
            Operation::SetField => Some(fields[slot.position].ty),
            _ => vec_inner(fields[slot.position].ty),
        }
    } else {
        None
    }
}

/// The name of the builder of the structure `ident`.
pub open spec fn builder_name(ident: Seq<char>) -> Seq<char> {
    ident + "UpdateBuilder"@
}

/// The operations that the annotations of a field ask for: those of its last
/// `mongo_ops` annotation, none if it has no such annotation, and the first
/// error if one of them is not accepted.
pub open spec fn field_ops(attrs: Seq<Attribute>) -> Result<Seq<Seq<char>>, ParseError>
    decreases attrs.len(),
{
    if attrs.len() == 0 {
        Ok(Seq::empty())
    } else {
        match field_ops(attrs.drop_last()) {
            Err(e) => Err(e),
            Ok(before) => {
                let last = attrs.last();
                if last.path@ == "mongo_ops"@ {
                    match last.arguments {
                        Some(text) => parse_ops(text@),
                        None => Err(ParseError::MissingArguments),
                    }
                } else {
                    Ok(before)
                }
            },
        }
    }
}

/// The slots of the field at `position` that asks for `ops`.
///
/// `none` excludes the field. `push` and `pull` give a slot only where the
/// field is an ordered sequence. `set` gives a slot, and so does a field that
/// asks for nothing.
pub open spec fn field_slots(
    field: Seq<char>,
    ty: TypeShape,
    ops: Seq<Seq<char>>,
    position: int,
) -> Seq<SlotModel> {
    if ops.contains("none"@) {
        Seq::empty()
    } else {
        let push = if ops.contains("push"@) && vec_inner(ty) is Some {
            seq![slot_for(Operation::PushItem, field, position)]
        } else {
            Seq::empty()
        };
        let pull = if ops.contains("pull"@) && vec_inner(ty) is Some {
            seq![slot_for(Operation::PullItem, field, position)]
        } else {
            Seq::empty()
        };
        let set = if ops.contains("set"@) || ops.len() == 0 {
            seq![slot_for(Operation::SetField, field, position)]
        } else {
            Seq::empty()
        };
        push + pull + set
    }
}

/// The slots of a structure with the given fields, or the first error among
/// its annotations.
pub open spec fn struct_slots(fields: Seq<Field>) -> Result<Seq<SlotModel>, ParseError>
    decreases fields.len(),
{
    if fields.len() == 0 {
        Ok(Seq::empty())
    } else {
        match struct_slots(fields.drop_last()) {
            Err(e) => Err(e),
            Ok(before) => {
                let last = fields.last();
                match field_ops(last.attrs@) {
                    Err(e) => Err(e),
                    Ok(ops) => Ok(
                        before + field_slots(last.ident@, last.ty, ops, fields.len() - 1),
                    ),
                }
            },
        }
    }
}

/// The builder that is synthesized for `input`.
pub open spec fn derive_spec(input: DeriveInput) -> Result<BuilderSpecModel, SynthError> {
    match input.data {
        Data::Struct(Fields::Named(fields)) => match struct_slots(fields@) {
            Ok(slots) => Ok(
                BuilderSpecModel {
                    name: builder_name(input.ident@),
                    slots,
                    nested: Seq::empty(),
                },
            ),
            Err(e) => Err(SynthError::Annotation(e)),
        },
        Data::Struct(_) => Err(SynthError::OnlyNamedFields),
        _ => Err(SynthError::OnlyStructs),
    }
}

/// The methods for the nested field `pair.0` of type `pair.1`.
pub open spec fn nested_for(pair: (Seq<char>, Seq<char>)) -> NestedModel {
    NestedModel {
        field: pair.0,
        nested_type: pair.1,
        nested_builder: builder_name(pair.1),
        with_method: "with_"@ + pair.0,
    }
}

/// The methods that the declaration `args` adds to the builder of the
/// structure `ident`.
pub open spec fn nested_spec(args: Seq<char>, ident: Seq<char>) -> Result<
    NestedMethodsModel,
    SynthError,
> {
    match parse_pairs(args) {
        Err(e) => Err(SynthError::Annotation(e)),
        Ok(pairs) => {
            if forall|i: int| 0 <= i < pairs.len() ==> is_identifier((#[trigger] pairs[i]).1) {
                Ok(
                    NestedMethodsModel {
                        builder: builder_name(ident),
                        fields: Seq::new(pairs.len(), |i: int| nested_for(pairs[i])),
                    },
                )
            } else {
                Err(SynthError::InvalidTypeName)
            }
        },
    }
}

/// Whether `ops` holds the operation `name`.
fn asks_for(ops: &Vec<String>, name: &str) -> (r: bool)
    ensures
        r == texts(ops@).contains(name@),
{
    let mut i: usize = 0;
    while i < ops.len()
        invariant
            i <= ops.len(),
            forall|k: int| 0 <= k < i ==> texts(ops@)[k] != name@,
        decreases ops.len() - i,
    {
        if same_text(ops[i].as_str(), name) {
            assert(texts(ops@)[i as int] == name@);
            return true;
        }
        i += 1;
    }
    false
}

/// Reads the operations that the annotations of a field ask for.
pub fn field_operations(attrs: &Vec<Attribute>) -> (r: Result<Vec<String>, ParseError>)
    ensures
        match r {
            Ok(ops) => field_ops(attrs@) == Ok::<_, ParseError>(texts(ops@)),
            Err(e) => field_ops(attrs@) == Err::<Seq<Seq<char>>, _>(e),
        },
{
    let mut ops: Vec<String> = Vec::new();
    let mut i: usize = 0;
    assert(attrs@.take(0) =~= Seq::empty());
    assert(texts(ops@) =~= Seq::empty());
    while i < attrs.len()
        invariant
            i <= attrs.len(),
            field_ops(attrs@.take(i as int)) == Ok::<_, ParseError>(texts(ops@)),
        decreases attrs.len() - i,
    {
        let ghost upto = attrs@.take(i + 1);
        assert(upto.drop_last() =~= attrs@.take(i as int));
        assert(upto.last() == attrs@[i as int]);
        let attr = &attrs[i];
        if same_text(attr.path.as_str(), "mongo_ops") {
            let parsed = match &attr.arguments {
                Some(text) => MongoOps::parse(text.as_str()),
                None => Err(ParseError::MissingArguments),
            };
            match parsed {
                Ok(found) => {
                    ops = found.operations;
                },
                Err(e) => {
                    proof {
                        lemma_field_ops_error(attrs@, i + 1);
                    }
                    return Err(e);
                },
            }
        }
        i += 1;
    }
    assert(attrs@.take(attrs.len() as int) =~= attrs@);
    Ok(ops)
}

/// An error among the first `n` annotations is the error of them all.
proof fn lemma_field_ops_error(attrs: Seq<Attribute>, n: int)
    requires
        0 <= n <= attrs.len(),
        field_ops(attrs.take(n)) is Err,
    ensures
        field_ops(attrs) == field_ops(attrs.take(n)),
    decreases attrs.len() - n,
{
    if n < attrs.len() {
        assert(attrs.take(n + 1).drop_last() =~= attrs.take(n));
        lemma_field_ops_error(attrs, n + 1);
    } else {
        assert(attrs.take(n) =~= attrs);
    }
}

/// An error among the first `n` fields is the error of them all.
proof fn lemma_struct_slots_error(fields: Seq<Field>, n: int)
    requires
        0 <= n <= fields.len(),
        struct_slots(fields.take(n)) is Err,
    ensures
        struct_slots(fields) == struct_slots(fields.take(n)),
    decreases fields.len() - n,
{
    if n < fields.len() {
        assert(fields.take(n + 1).drop_last() =~= fields.take(n));
        lemma_struct_slots_error(fields, n + 1);
    } else {
        assert(fields.take(n) =~= fields);
    }
}

/// Makes the slot of `operation` on the field `field` at `position`.
fn make_slot(operation: Operation, field: &str, position: usize) -> (r: Slot)
    ensures
        r@ == slot_for(operation, field@, position as int),
{
    let name = match operation {
        Operation::SetField => joined("set_", field),
        Operation::PushItem => joined("push_", field),
        Operation::PullItem => joined("pull_", field),
    };
    Slot { operation, field: String::from_str(field), name, position }
}

/// Finds the type of the value that `slot` takes, given the fields of the
/// structure that the slot was synthesized for.
pub fn slot_value_type<'a>(fields: &'a Vec<Field>, slot: &Slot) -> (r: Option<&'a TypeShape>)
    ensures
        match r {
            Some(ty) => value_type_of(fields@, slot@) == Some(*ty),
            None => value_type_of(fields@, slot@) is None,
        },
{
    if slot.position >= fields.len() {
        return None;
    }
    match slot.operation {
        Operation::SetField => Some(&fields[slot.position].ty),
        _ => get_vec_inner_type(&fields[slot.position].ty),
    }
}

/// Synthesizes the update builder of a structure.
///
/// Each named field gets the slots that its `mongo_ops` annotation asks for:
/// `set` where it asks for `set` or has no such annotation, `push` and `pull`
/// where it asks for them and is an ordered sequence, and none at all where it
/// asks for `none`. A definition that is no structure with named fields, and
/// an annotation that does not follow the grammar, fail the synthesis.
pub fn derive_mongo_update_builder(input: &DeriveInput) -> (r: Result<BuilderSpec, SynthError>)
    ensures
        match r {
            Ok(builder) => derive_spec(*input) == Ok::<_, SynthError>(builder@),
            Err(e) => derive_spec(*input) == Err::<BuilderSpecModel, _>(e),
        },
{
    let fields = match &input.data {
        Data::Struct(data) => match data {
            Fields::Named(fields) => fields,
            _ => { return Err(SynthError::OnlyNamedFields); },
        },
        _ => { return Err(SynthError::OnlyStructs); },
    };
    let mut slots: Vec<Slot> = Vec::new();
    let mut i: usize = 0;
    assert(fields@.take(0) =~= Seq::empty());
    assert(slot_models(slots@) =~= Seq::empty());
    while i < fields.len()
        invariant
            i <= fields.len(),
            input.data == Data::Struct(Fields::Named(*fields)),
            struct_slots(fields@.take(i as int)) == Ok::<_, ParseError>(slot_models(slots@)),
        decreases fields.len() - i,
    {
        let ghost upto = fields@.take(i + 1);
        assert(upto.drop_last() =~= fields@.take(i as int));
        assert(upto.last() == fields@[i as int]);
        let ghost before = slot_models(slots@);
        let field = &fields[i];
        let ops = match field_operations(&field.attrs) {
            Ok(ops) => ops,
            Err(e) => {
                proof {
                    lemma_struct_slots_error(fields@, i + 1);
                }
                return Err(SynthError::Annotation(e));
            },
        };
        if !asks_for(&ops, "none") {
            let sequence = get_vec_inner_type(&field.ty).is_some();
            if asks_for(&ops, "push") && sequence {
                slots.push(make_slot(Operation::PushItem, field.ident.as_str(), i));
            }
            let ghost pushed = slot_models(slots@);
            if asks_for(&ops, "pull") && sequence {
                slots.push(make_slot(Operation::PullItem, field.ident.as_str(), i));
            }
            let ghost pulled = slot_models(slots@);
            if asks_for(&ops, "set") || ops.len() == 0 {
                slots.push(make_slot(Operation::SetField, field.ident.as_str(), i));
            }
            assert(slot_models(slots@) =~= before + field_slots(
                field.ident@,
                field.ty,
                texts(ops@),
                i as int,
            ));
        } else {
            assert(slot_models(slots@) =~= before + field_slots(
                field.ident@,
                field.ty,
                texts(ops@),
                i as int,
            ));
        }
        i += 1;
    }
    assert(fields@.take(fields.len() as int) =~= fields@);
    let name = joined(input.ident.as_str(), "UpdateBuilder");
    let builder = BuilderSpec { name, slots, nested: Vec::new() };
    assert(builder@.nested =~= Seq::empty());
    Ok(builder)
}

/// Synthesizes the methods for the nested fields that a structure declares.
///
/// `args` is a list of pairs `name: "Type"`. Each pair gives the builder of
/// `input` two methods: `with_<name>`, which hands out a builder of the nested
/// type, and `<name>`, which writes below the nested field by path. A
/// declaration that does not follow the grammar, and a type that is not named
/// by an identifier, fail the synthesis.
pub fn mongo_nested_fields(args: &str, input: &DeriveInput) -> (r: Result<
    NestedMethods,
    SynthError,
>)
    ensures
        match r {
            Ok(methods) => nested_spec(args@, input.ident@) == Ok::<_, SynthError>(methods@),
            Err(e) => nested_spec(args@, input.ident@) == Err::<NestedMethodsModel, _>(e),
        },
{
    let parsed = match NestedFieldsArgs::parse(args) {
        Ok(parsed) => parsed,
        Err(e) => { return Err(SynthError::Annotation(e)); },
    };
    let ghost pairs = parsed@;
    let mut fields: Vec<NestedField> = Vec::new();
    let mut i: usize = 0;
    while i < parsed.pairs.len()
        invariant
            i <= parsed.pairs.len(),
            pairs == parsed@,
            parse_pairs(args@) == Ok::<_, ParseError>(pairs),
            fields.len() == i,
            forall|k: int| 0 <= k < i ==> is_identifier((#[trigger] pairs[k]).1),
            forall|k: int| 0 <= k < i ==> (#[trigger] fields[k])@ == nested_for(pairs[k]),
        decreases parsed.pairs.len() - i,
    {
        let pair = &parsed.pairs[i];
        assert(pairs[i as int] == (pair.0@, pair.1@));
        if !is_identifier_text(pair.1.as_str()) {
            return Err(SynthError::InvalidTypeName);
        }
        fields.push(
            NestedField {
                field: pair.0.clone(),
                nested_type: pair.1.clone(),
                nested_builder: joined(pair.1.as_str(), "UpdateBuilder"),
                with_method: joined("with_", pair.0.as_str()),
            },
        );
        i += 1;
    }
    let methods = NestedMethods { builder: joined(input.ident.as_str(), "UpdateBuilder"), fields };
    assert(methods@.fields =~= Seq::new(pairs.len(), |i: int| nested_for(pairs[i])));
    Ok(methods)
}

} // verus!
