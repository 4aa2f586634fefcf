//! The documentation graph: an index of definitions keyed by identifier,
//! the canonical path of each identifier, and the type and generics syntax
//! that the definitions carry.
//!
//! An identifier is an index into the graph's tables; an identifier that is
//! out of range, or whose slot is empty, names nothing.

use vstd::prelude::*;

verus! {

/// What a trait bound says of the bounded trait.
#[derive(Clone, Copy, Debug, PartialEq, Eq, Structural)]
pub enum TraitBoundModifier {
    /// `Trait`
    Plain,
    /// `?Trait`
    Maybe,
    /// `~const Trait`
    MaybeConst,
}

/// One bound in a bound list.
#[derive(Debug)]
pub enum GenericBound {
    /// A bound on a trait, by the trait's name.
    TraitBound { trait_name: String, modifier: TraitBoundModifier },
    /// A lifetime that must be outlived.
    Outlives(String),
}

/// The type syntax of a signature.
#[derive(Debug)]
pub enum Type {
    /// A struct, enum or union, by name.
    ResolvedPath(String),
    /// `dyn A + B`, by the traits' names.
    DynTrait(Vec<String>),
    /// A generic parameter.
    Generic(String),
    /// A built-in type.
    Primitive(String),
    /// A function pointer, whose shape is not rendered.
    FunctionPointer,
    /// `(A, B)`
    Tuple(Vec<Type>),
    /// `[T]`
    Slice(Box<Type>),
    /// `[T; N]`
    Array { type_: Box<Type>, len: String },
    /// `impl A + B`
    ImplTrait(Vec<GenericBound>),
    /// `_`, which is not rendered.
    Infer,
    /// `*mut T` or `*const T`
    RawPointer { mutable: bool, type_: Box<Type> },
    /// `&'a mut T`
    BorrowedRef { lifetime: Option<String>, mutable: bool, type_: Box<Type> },
    /// An associated type such as `T::Item`.
    QualifiedPath { name: String, self_type: Box<Type> },
}

/// The right-hand side of an equality predicate.
#[derive(Debug)]
pub enum Term {
    Type(Type),
    /// A constant, by its expression.
    Constant(String),
}

/// The kind of one generic parameter.
#[derive(Debug)]
pub enum GenericParamDefKind {
    Lifetime,
    Type { bounds: Vec<GenericBound>, default: Option<Type>, synthetic: bool },
    Const { type_: Type, default: Option<String> },
}

/// One generic parameter.
#[derive(Debug)]
pub struct GenericParamDef {
    pub name: String,
    pub kind: GenericParamDefKind,
}

/// One predicate of a `where` clause.
#[derive(Debug)]
pub enum WherePredicate {
    /// `T: A + B`
    BoundPredicate { type_: Type, bounds: Vec<GenericBound> },
    /// `'a: 'b`, which is not rendered.
    RegionPredicate,
    /// `Lhs = Rhs`
    EqPredicate { lhs: Type, rhs: Term },
}

/// A generics clause: parameters and `where` predicates, in order.
#[derive(Debug)]
pub struct Generics {
    pub params: Vec<GenericParamDef>,
    pub where_predicates: Vec<WherePredicate>,
}

/// One parameter of a function signature.
#[derive(Debug)]
pub struct Param {
    pub name: String,
    pub type_: Type,
}

/// A function or method.
#[derive(Debug)]
pub struct FunctionDef {
    pub generics: Generics,
    pub inputs: Vec<Param>,
    /// `None` for the unit return type.
    pub output: Option<Type>,
    pub is_const: bool,
    pub is_unsafe: bool,
    pub is_async: bool,
    pub has_body: bool,
}

/// A trait.
#[derive(Debug)]
pub struct TraitDef {
    pub is_auto: bool,
    pub is_unsafe: bool,
    pub generics: Generics,
    pub bounds: Vec<GenericBound>,
    /// The identifiers of its members.
    pub items: Vec<usize>,
}

/// A struct.
#[derive(Debug)]
pub struct StructDef {
    pub generics: Generics,
    /// The identifiers of its implementation blocks.
    pub impls: Vec<usize>,
}

/// An enum.
#[derive(Debug)]
pub struct EnumDef {
    pub generics: Generics,
    /// The identifiers of its implementation blocks.
    pub impls: Vec<usize>,
}

/// The trait that an implementation block implements.
#[derive(Debug)]
pub struct TraitRef {
    /// The trait's identifier, which may name nothing in this graph.
    pub id: usize,
    pub name: String,
}

/// An implementation block.
#[derive(Debug)]
pub struct ImplDef {
    pub is_unsafe: bool,
    pub generics: Generics,
    /// `None` for an inherent implementation.
    pub trait_: Option<TraitRef>,
    pub for_: Type,
    /// The identifiers of its members.
    pub items: Vec<usize>,
    /// Made by the compiler (auto traits).
    pub synthetic: bool,
    /// A blanket implementation, over a generic type.
    pub blanket: bool,
}

/// What one identifier stands for.
#[derive(Debug)]
pub enum Definition {
    /// A module, with the identifiers of what it declares or re-exports.
    Module(Vec<usize>),
    Trait(TraitDef),
    Struct(StructDef),
    Enum(EnumDef),
    Function(FunctionDef),
    Impl(ImplDef),
    /// A re-export of another identifier; `None` when its target was not
    /// documented.
    Import(Option<usize>),
    /// Any other kind of item.
    Other,
}

/// One documented item.
#[derive(Debug)]
pub struct Node {
    /// Empty for items without a name.
    pub name: String,
    /// Its attributes, as source text.
    pub attrs: Vec<String>,
    pub def: Definition,
}

} // verus!
