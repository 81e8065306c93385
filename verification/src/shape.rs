//! The shape of a field's declared type, as far as synthesis reads it.

use crate::text::same_text;
use vstd::prelude::*;

verus! {

/// A declared type.
#[derive(Debug)]
pub enum TypeShape {
    /// A path, such as `String`, `Vec<String>` or `std::vec::Vec<u8>`, given by
    /// its segments in order.
    Path(Vec<PathSegment>),
    /// Any other type (a reference, a tuple, an array and so on), kept as it
    /// was written.
    Other(String),
}

/// One segment of a path: a name and the arguments that follow it.
#[derive(Debug)]
pub struct PathSegment {
    pub ident: String,
    pub arguments: PathArguments,
}

/// The arguments of a path segment.
#[derive(Debug)]
pub enum PathArguments {
    /// No arguments, as in `String`.
    Absent,
    /// Arguments in angle brackets, as in `Vec<u8>`.
    AngleBracketed(Vec<GenericArgument>),
    /// Arguments in round brackets, as in `Fn(u8) -> u8`, kept as written.
    Parenthesized(String),
}

/// One argument in angle brackets.
#[derive(Debug)]
pub enum GenericArgument {
    /// A type.
    Type(TypeShape),
    /// A lifetime, a constant, a binding or a constraint, kept as written.
    Other(String),
}

/// The element type of `ty`, if `ty` is an ordered sequence: a path whose last
/// segment is named `Vec` and has, in angle brackets, a type as its first
/// argument.
pub open spec fn vec_inner(ty: TypeShape) -> Option<TypeShape> {
    match ty {
        TypeShape::Path(segments) => {
            if segments@.len() > 0 && segments@.last().ident@ == "Vec"@ {
                match segments@.last().arguments {
                    PathArguments::AngleBracketed(args) => {
                        if args@.len() > 0 {
                            match args@[0] {
                                GenericArgument::Type(inner) => Some(inner),
                                _ => None,
                            }
                        } else {
                            None
                        }
                    },
                    _ => None,
                }
            } else {
                None
            }
        },
        _ => None,
    }
}

/// Returns the element type of `ty` if `ty` is an ordered sequence.
///
/// Only such fields can have `push` and `pull` operations.
pub fn get_vec_inner_type(ty: &TypeShape) -> (r: Option<&TypeShape>)
    ensures
        match r {
            Some(inner) => vec_inner(*ty) == Some(*inner),
            None => vec_inner(*ty) is None,
        },
{
    if let TypeShape::Path(segments) = ty {
        if segments.len() > 0 {
            let segment = &segments[segments.len() - 1];
            if same_text(segment.ident.as_str(), "Vec") {
                if let PathArguments::AngleBracketed(args) = &segment.arguments {
                    if args.len() > 0 {
                        if let GenericArgument::Type(inner) = &args[0] {
                            return Some(inner);
                        }
                    }
                }
            }
        }
    }
    None
}

} // verus!
