use rustdoc_denormalize::model::{
    EnumDef, FunctionDef, GenericBound, GenericParamDef, GenericParamDefKind, Generics, ImplDef,
    Param, StructDef, Term, TraitBoundModifier, TraitDef, TraitRef, Type, WherePredicate,
};
use rustdoc_denormalize::render::{
    contains_generics, format_enum, format_function, format_generic_bounds, format_generic_params,
    format_impl, format_struct, format_trait, format_type, format_where_bounds,
};

fn s(x: &str) -> String {
    x.to_string()
}

fn bound(name: &str) -> GenericBound {
    GenericBound::TraitBound { trait_name: s(name), modifier: TraitBoundModifier::Plain }
}

fn no_generics() -> Generics {
    Generics { params: vec![], where_predicates: vec![] }
}

fn type_param(name: &str, bounds: Vec<GenericBound>) -> GenericParamDef {
    GenericParamDef {
        name: s(name),
        kind: GenericParamDefKind::Type { bounds, default: None, synthetic: false },
    }
}

fn prim(name: &str) -> Type {
    Type::Primitive(s(name))
}

#[test]
fn trait_with_two_params_and_where_clause() {
    let t = TraitDef {
        is_auto: false,
        is_unsafe: false,
        generics: Generics {
            params: vec![type_param("A", vec![bound("Display")]), type_param("B", vec![])],
            where_predicates: vec![WherePredicate::BoundPredicate {
                type_: Type::Generic(s("A")),
                bounds: vec![bound("Clone")],
            }],
        },
        bounds: vec![],
        items: vec![],
    };
    assert_eq!(format_trait("Name", &t), "trait Name<A: Display, B> where A: Clone { }");
}

#[test]
fn const_function_without_body() {
    let f = FunctionDef {
        generics: no_generics(),
        inputs: vec![Param { name: s("x"), type_: prim("i32") }],
        output: Some(prim("i32")),
        is_const: true,
        is_unsafe: false,
        is_async: false,
        has_body: false,
    };
    assert_eq!(format_function("name", &f), "const fn name(x: i32) -> i32;");
}

#[test]
fn function_modifiers_and_body() {
    let f = FunctionDef {
        generics: Generics { params: vec![type_param("T", vec![bound("Send")])], where_predicates: vec![] },
        inputs: vec![
            Param { name: s("a"), type_: Type::Generic(s("T")) },
            Param { name: s("b"), type_: prim("u8") },
        ],
        output: None,
        is_const: false,
        is_unsafe: true,
        is_async: true,
        has_body: true,
    };
    assert_eq!(format_function("run", &f), "unsafe async fn run<T: Send>(a: T, b: u8) { .. }");
}

#[test]
fn impl_of_trait_for_type() {
    let i = ImplDef {
        is_unsafe: false,
        generics: no_generics(),
        trait_: Some(TraitRef { id: 7, name: s("Eq") }),
        for_: Type::ResolvedPath(s("Point")),
        items: vec![],
        synthetic: false,
        blanket: false,
    };
    assert_eq!(format_impl(&i), "impl Eq for Point { }");
}

#[test]
fn unsafe_generic_inherent_impl() {
    let i = ImplDef {
        is_unsafe: true,
        generics: Generics { params: vec![type_param("T", vec![])], where_predicates: vec![] },
        trait_: None,
        for_: Type::ResolvedPath(s("Cell")),
        items: vec![],
        synthetic: false,
        blanket: false,
    };
    assert_eq!(format_impl(&i), "unsafe impl<T> Cell { }");
}

#[test]
fn struct_and_enum_declarations() {
    let sd = StructDef {
        generics: Generics {
            params: vec![
                GenericParamDef { name: s("'a"), kind: GenericParamDefKind::Lifetime },
                type_param("T", vec![]),
            ],
            where_predicates: vec![],
        },
        impls: vec![],
    };
    assert_eq!(format_struct("Wrapper", &sd), "struct Wrapper<T> { .. }");
    let ed = EnumDef { generics: no_generics(), impls: vec![] };
    assert_eq!(format_enum("Color", &ed), "enum Color { .. }");
}

#[test]
fn unsafe_auto_trait_with_supertraits() {
    let t = TraitDef {
        is_auto: true,
        is_unsafe: true,
        generics: no_generics(),
        bounds: vec![bound("Sized"), GenericBound::Outlives(s("'static"))],
        items: vec![],
    };
    assert_eq!(format_trait("Marker", &t), "unsafe auto trait Marker: Sized { }");
}

#[test]
fn bound_modifiers_and_lifetimes() {
    let bs = vec![
        GenericBound::TraitBound { trait_name: s("Sized"), modifier: TraitBoundModifier::Maybe },
        GenericBound::Outlives(s("'a")),
        GenericBound::TraitBound { trait_name: s("Drop"), modifier: TraitBoundModifier::MaybeConst },
        bound("Debug"),
    ];
    assert_eq!(format_generic_bounds(&bs), ": ?Sized + ~const Drop + Debug");
    assert_eq!(format_generic_bounds(&vec![]), "");
    assert_eq!(format_generic_bounds(&vec![GenericBound::Outlives(s("'a"))]), "");
}

#[test]
fn generic_params_with_defaults_and_consts() {
    let ps = vec![
        GenericParamDef { name: s("'a"), kind: GenericParamDefKind::Lifetime },
        GenericParamDef {
            name: s("T"),
            kind: GenericParamDefKind::Type {
                bounds: vec![bound("Clone")],
                default: Some(prim("u32")),
                synthetic: false,
            },
        },
        GenericParamDef {
            name: s("N"),
            kind: GenericParamDefKind::Const { type_: prim("usize"), default: Some(s("4")) },
        },
    ];
    assert_eq!(format_generic_params(&ps), "<T: Clone = u32, const N: usize = 4>");
    let only_lifetimes = vec![GenericParamDef { name: s("'a"), kind: GenericParamDefKind::Lifetime }];
    assert_eq!(format_generic_params(&only_lifetimes), "");
}

#[test]
fn where_clause_shapes() {
    let ws = vec![
        WherePredicate::BoundPredicate { type_: Type::Generic(s("T")), bounds: vec![bound("Ord")] },
        WherePredicate::RegionPredicate,
        WherePredicate::EqPredicate {
            lhs: Type::QualifiedPath { name: s("Item"), self_type: Box::new(Type::Generic(s("I"))) },
            rhs: Term::Type(prim("u8")),
        },
        WherePredicate::EqPredicate {
            lhs: Type::Generic(s("K")),
            rhs: Term::Constant(s("3")),
        },
    ];
    assert_eq!(
        format_where_bounds(&ws),
        " where T: Ord, <unsupported: RegionPredicate>, I::Item = u8, K = 3"
    );
    assert_eq!(format_where_bounds(&vec![]), "");
}

#[test]
fn every_type_shape() {
    let inner = || Box::new(prim("u8"));
    assert_eq!(format_type(&Type::ResolvedPath(s("Vec"))), "Vec");
    assert_eq!(format_type(&Type::DynTrait(vec![s("Error"), s("Send")])), "dyn Error + Send");
    assert_eq!(format_type(&Type::Generic(s("T"))), "T");
    assert_eq!(format_type(&Type::FunctionPointer), "<unsupported: FunctionPointer>");
    assert_eq!(format_type(&Type::Tuple(vec![prim("u8"), Type::Generic(s("T"))])), "(u8, T)");
    assert_eq!(format_type(&Type::Tuple(vec![])), "()");
    assert_eq!(format_type(&Type::Slice(inner())), "[u8]");
    assert_eq!(format_type(&Type::Array { type_: inner(), len: s("16") }), "[u8; 16]");
    assert_eq!(format_type(&Type::ImplTrait(vec![bound("Iterator"), bound("Clone")])), "impl Iterator + Clone");
    assert_eq!(format_type(&Type::Infer), "<unsupported: Infer>");
    assert_eq!(format_type(&Type::RawPointer { mutable: true, type_: inner() }), "*mut u8");
    assert_eq!(format_type(&Type::RawPointer { mutable: false, type_: inner() }), "*const u8");
    assert_eq!(
        format_type(&Type::BorrowedRef { lifetime: Some(s("'a")), mutable: true, type_: inner() }),
        "&'a mut u8"
    );
    assert_eq!(format_type(&Type::BorrowedRef { lifetime: None, mutable: false, type_: inner() }), "&u8");
    assert_eq!(
        format_type(&Type::QualifiedPath { name: s("Output"), self_type: Box::new(Type::Generic(s("F"))) }),
        "F::Output"
    );
}

#[test]
fn generics_flag() {
    assert!(!contains_generics(&no_generics()));
    let only_lifetime = Generics {
        params: vec![GenericParamDef { name: s("'a"), kind: GenericParamDefKind::Lifetime }],
        where_predicates: vec![WherePredicate::RegionPredicate],
    };
    assert!(!contains_generics(&only_lifetime));
    let with_type = Generics { params: vec![type_param("T", vec![])], where_predicates: vec![] };
    assert!(contains_generics(&with_type));
    let with_bound = Generics {
        params: vec![],
        where_predicates: vec![WherePredicate::BoundPredicate {
            type_: prim("u8"),
            bounds: vec![bound("Copy")],
        }],
    };
    assert!(contains_generics(&with_bound));
}
