use rustdoc_denormalize::model::{
    Definition, EnumDef, FunctionDef, GenericParamDef, GenericParamDefKind, Generics, ImplDef,
    Node, Param, StructDef, TraitDef, TraitRef, Type,
};
use rustdoc_denormalize::{Crate, Database, ItemKind, Kind, Stability};

const STABLE: &str = "#[stable(feature = \"rust1\", since = \"1.0.0\")]";
const UNSTABLE: &str = "#[unstable(feature = \"x\", issue = \"none\")]";

fn s(x: &str) -> String {
    x.to_string()
}

fn no_generics() -> Generics {
    Generics { params: vec![], where_predicates: vec![] }
}

fn one_param() -> Generics {
    Generics {
        params: vec![GenericParamDef {
            name: s("T"),
            kind: GenericParamDefKind::Type { bounds: vec![], default: None, synthetic: false },
        }],
        where_predicates: vec![],
    }
}

fn node(name: &str, attr: &str, def: Definition) -> Option<Node> {
    Some(Node { name: s(name), attrs: vec![s(attr)], def })
}

fn function(is_const: bool, generics: Generics) -> Definition {
    Definition::Function(FunctionDef {
        generics,
        inputs: vec![Param { name: s("x"), type_: Type::Primitive(s("i32")) }],
        output: Some(Type::Primitive(s("i32"))),
        is_const,
        is_unsafe: false,
        is_async: false,
        has_body: true,
    })
}

fn impl_block(trait_: Option<TraitRef>, for_: &str, items: Vec<usize>, generics: Generics) -> Definition {
    Definition::Impl(ImplDef {
        is_unsafe: false,
        generics,
        trait_,
        for_: Type::ResolvedPath(s(for_)),
        items,
        synthetic: false,
        blanket: false,
    })
}

/// A small graph:
/// 0 module `demo` holding 1, 2, 3, 8, 11
/// 1 struct `Point` with impls 4 (inherent) and 5 (`Eq`, trait 99 not in the graph)
/// 2 trait `Shape` with members 6 and 7 (7 is an unstable function)
/// 3 re-export of 9, itself a re-export of 10, the function `area`
/// 4 inherent impl of Point with method 12 (and 2, a trait, which is skipped)
/// 5 impl Eq for Point
/// 6 function `sides`
/// 7 function `corners`, unstable
/// 8 re-export of 13 that cycles back to 8
/// 11 enum `Color` with impl 14 of trait 2 (`Shape`)
/// 12 function `new` (const)
/// 14 impl Shape for Color
fn sample() -> Database {
    let mut nodes: Vec<Option<Node>> = (0..15).map(|_| None).collect();
    let mut paths: Vec<Option<String>> = (0..15).map(|_| None).collect();
    nodes[0] = node("demo", "", Definition::Module(vec![1, 2, 3, 8, 11]));
    paths[0] = Some(s("demo"));
    nodes[1] = node("Point", STABLE, Definition::Struct(StructDef { generics: no_generics(), impls: vec![4, 5] }));
    nodes[2] = node(
        "Shape",
        STABLE,
        Definition::Trait(TraitDef {
            is_auto: false,
            is_unsafe: false,
            generics: one_param(),
            bounds: vec![],
            items: vec![6, 7],
        }),
    );
    paths[2] = Some(s("demo::Shape"));
    nodes[3] = node("area", "", Definition::Import(Some(9)));
    nodes[4] = node("", STABLE, impl_block(None, "Point", vec![12, 2], no_generics()));
    nodes[5] = node("", STABLE, impl_block(Some(TraitRef { id: 99, name: s("Eq") }), "Point", vec![], no_generics()));
    nodes[6] = node("sides", STABLE, function(false, no_generics()));
    nodes[7] = node("corners", UNSTABLE, function(false, no_generics()));
    nodes[8] = node("loop", "", Definition::Import(Some(13)));
    nodes[9] = node("area", "", Definition::Import(Some(10)));
    nodes[10] = node("area", STABLE, function(true, no_generics()));
    nodes[11] = node("Color", STABLE, Definition::Enum(EnumDef { generics: no_generics(), impls: vec![14] }));
    nodes[12] = node("new", STABLE, function(true, no_generics()));
    nodes[13] = node("loop", "", Definition::Import(Some(8)));
    nodes[14] = node("", STABLE, impl_block(Some(TraitRef { id: 2, name: s("Shape") }), "Color", vec![], one_param()));
    Database::new(nodes, paths)
}

#[test]
fn alias_chain_resolves_to_its_end() {
    let db = sample();
    assert_eq!(db.resolve(3, Kind::Function), Some(10));
    assert_eq!(db.resolve(9, Kind::Function), Some(10));
    assert_eq!(db.resolve(10, Kind::Function), Some(10));
    assert_eq!(db.resolve(3, Kind::Trait), None);
}

#[test]
fn alias_cycle_is_unresolved() {
    let db = sample();
    assert_eq!(db.resolve(8, Kind::Function), None);
    assert_eq!(db.resolve(13, Kind::Trait), None);
}

#[test]
fn missing_ids_are_skipped() {
    let db = sample();
    assert_eq!(db.resolve(99, Kind::Trait), None);
    assert_eq!(db.resolve(0, Kind::Trait), None);
    assert_eq!(db.find_functions(&[6, 99, 3, 7, 2]), vec![6, 10, 7]);
    assert!(db.find_item(99).is_none());
    assert_eq!(db.find_path(2).map(|p| p.as_str()), Some("demo::Shape"));
}

#[test]
fn modules_are_sorted_by_path() {
    let mut nodes: Vec<Option<Node>> = Vec::new();
    let mut paths: Vec<Option<String>> = Vec::new();
    for (i, p) in ["std::vec", "core", "alloc::string", "core::iter"].iter().enumerate() {
        nodes.push(node(&format!("m{i}"), "", Definition::Module(vec![])));
        paths.push(Some(s(p)));
    }
    nodes.push(node("hidden", "", Definition::Module(vec![])));
    paths.push(None);
    let db = Database::new(nodes, paths);
    assert_eq!(db.modules(), vec![2, 1, 3, 0]);
}

#[test]
fn records_of_the_sample() {
    let db = sample();
    let krate = Crate::from_graph(&db);

    assert_eq!(krate.traits.len(), 1);
    let t = &krate.traits[0];
    assert_eq!(t.kind, ItemKind::Trait);
    assert_eq!((t.name.as_str(), t.path.as_str()), ("Shape", "demo"));
    assert_eq!(t.decl, "trait Shape<T> { }");
    assert_eq!(t.fn_count, 2);
    assert!(t.has_generics);
    assert_eq!(t.stability, Stability::Stable);

    assert_eq!(krate.structs.len(), 1);
    let p = &krate.structs[0];
    assert_eq!(p.decl, "struct Point { .. }");
    assert_eq!(p.fn_count, 1);
    assert!(!p.has_generics);

    assert_eq!(krate.enums.len(), 1);
    assert_eq!(krate.enums[0].decl, "enum Color { .. }");
    assert_eq!(krate.enums[0].fn_count, 0);

    let names: Vec<(&str, &str)> =
        krate.functions.iter().map(|f| (f.path.as_str(), f.name.as_str())).collect();
    assert_eq!(
        names,
        vec![("demo", "area"), ("demo::Point", "new"), ("demo::Shape", "corners"), ("demo::Shape", "sides")]
    );
    let corners = &krate.functions[2];
    assert_eq!(corners.stability, Stability::Unstable);
    assert!(corners.has_generics, "trait generics carry over to members");
    assert!(krate.functions[0].is_const);
    assert_eq!(krate.functions[0].id, 10);
    assert_eq!(krate.functions[0].decl, "const fn area(x: i32) -> i32 { .. }");
}

#[test]
fn trait_impl_record_of_foreign_trait() {
    let db = sample();
    let krate = Crate::from_graph(&db);
    assert_eq!(krate.impls.len(), 2);
    let eq = krate.impls.iter().find(|i| i.name == "Eq").unwrap();
    assert_eq!(eq.decl, "impl Eq for Point { }");
    assert_eq!(eq.fn_count, 0);
    assert_eq!(eq.stability, Stability::Stable);
    assert!(eq.foreign_trait);
    assert_eq!(eq.target_trait, None);
    assert_eq!(eq.path, "demo");

    let shape = krate.impls.iter().find(|i| i.name == "Shape").unwrap();
    assert_eq!(shape.decl, "impl<T> Shape for Color { }");
    assert!(!shape.foreign_trait);
    assert_eq!(shape.target_trait.as_deref(), Some("demo::Shape"));
    assert!(shape.has_generics);
}

#[test]
fn unstable_trait_makes_its_impls_unstable() {
    let mut db = sample();
    db.nodes[2].as_mut().unwrap().attrs = vec![s(UNSTABLE)];
    let krate = Crate::from_graph(&db);
    let shape = krate.impls.iter().find(|i| i.name == "Shape").unwrap();
    assert_eq!(shape.stability, Stability::Unstable);
    let eq = krate.impls.iter().find(|i| i.name == "Eq").unwrap();
    assert_eq!(eq.stability, Stability::Stable);
}

#[test]
fn unstable_owner_makes_its_impls_unstable() {
    let mut db = sample();
    db.nodes[1].as_mut().unwrap().attrs = vec![s("#[doc(hidden)]")];
    let krate = Crate::from_graph(&db);
    assert_eq!(krate.structs[0].stability, Stability::Unstable);
    let eq = krate.impls.iter().find(|i| i.name == "Eq").unwrap();
    assert_eq!(eq.stability, Stability::Unstable);
}

#[test]
fn flattening_twice_gives_the_same_records() {
    let db = sample();
    assert_eq!(Crate::from_graph(&db), Crate::from_graph(&db));
}

#[test]
fn repeated_children_give_one_record() {
    let mut db = sample();
    db.nodes[0] = node("demo", "", Definition::Module(vec![1, 2, 3, 8, 11, 1, 9, 10]));
    let krate = Crate::from_graph(&db);
    assert_eq!(krate.structs.len(), 1);
    assert_eq!(krate.functions.iter().filter(|f| f.name == "area").count(), 1);
}

#[test]
fn paths_never_end_with_the_name() {
    let db = sample();
    let krate = Crate::from_graph(&db);
    let all = krate
        .traits
        .iter()
        .chain(&krate.structs)
        .chain(&krate.enums)
        .chain(&krate.impls)
        .chain(&krate.functions);
    for r in all {
        assert!(!r.path.ends_with(&format!("::{}", r.name)), "{} {}", r.path, r.name);
    }
}

#[test]
fn empty_graph_gives_no_records() {
    let db = Database::new(vec![], vec![]);
    let krate = Crate::from_graph(&db);
    assert!(krate.traits.is_empty() && krate.structs.is_empty() && krate.enums.is_empty());
    assert!(krate.impls.is_empty() && krate.functions.is_empty());
}

#[test]
fn merging_in_any_grouping_holds_the_same_records() {
    let build = || Crate::from_graph(&sample());
    let names = |grouping: u8| {
        let (mut a, mut b, mut c) = (build(), build(), Crate::from_graph(&Database::new(vec![], vec![])));
        c.functions.push(build().functions.remove(0));
        if grouping == 0 {
            a.append(&mut b);
            a.append(&mut c);
            a
        } else {
            b.append(&mut c);
            a.append(&mut b);
            a
        }
    };
    let left = names(0);
    let right = names(1);
    assert_eq!(left, right);
    assert_eq!(left.functions.len(), 9);
    assert_eq!(left.impls.len(), 4);
}

#[test]
fn append_leaves_the_other_empty() {
    let mut a = Crate::from_graph(&sample());
    let mut b = Crate::from_graph(&sample());
    a.append(&mut b);
    assert_eq!(a.traits.len(), 2);
    assert_eq!(a.impls.len(), 4);
    assert!(b.traits.is_empty() && b.impls.is_empty() && b.functions.is_empty());
}
