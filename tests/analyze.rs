use rustdoc_denormalize::analyze::{
    const_, count_async_items, count_const_items, count_items, should_exclude_path, Modifier, Stats,
};
use rustdoc_denormalize::item::parse_stability;
use rustdoc_denormalize::{Item, ItemKind, Stability};

fn record(path: &str, is_const: bool, is_async: bool, stability: Stability) -> Item {
    Item {
        kind: ItemKind::Function,
        id: 0,
        name: "f".to_string(),
        path: path.to_string(),
        decl: String::new(),
        has_generics: false,
        is_const,
        is_async,
        stability,
        fn_count: 0,
        target_trait: None,
        foreign_trait: false,
    }
}

#[test]
fn excluded_prefix_leaves_out_fs() {
    let items = vec![
        record("std::fs::File", true, false, Stability::Stable),
        record("std::vec::Vec", true, false, Stability::Stable),
    ];
    let (matched, excluded) = count_items(&items, &["std::fs"], Modifier::Const, false);
    assert_eq!((matched, excluded), (1, 1));
    let stable = items.iter().filter(|i| i.stability.is_stable()).count();
    assert_eq!(stable - excluded, 1, "potential count");
}

#[test]
fn exclusion_accounting_partitions_stable_records() {
    let items = vec![
        record("std::fs::File", true, false, Stability::Stable),
        record("std::os::unix", false, false, Stability::Stable),
        record("core::mem", true, false, Stability::Stable),
        record("core::ptr", false, false, Stability::Stable),
        record("core::hint", true, false, Stability::Unstable),
        record("core::cell", true, false, Stability::Stable),
    ];
    let (matched, excluded) = count_const_items(&items);
    let stable = items.iter().filter(|i| i.stability.is_stable()).count();
    assert_eq!((matched, excluded, stable), (2, 2, 5));
    assert_eq!(matched + (stable - matched - excluded), stable - excluded);
}

#[test]
fn trait_path_is_excluded_too() {
    let mut r = record("alloc::vec", false, true, Stability::Stable);
    r.kind = ItemKind::Impl;
    r.target_trait = Some("core::clone::Clone".to_string());
    let items = vec![r, record("alloc::vec", false, true, Stability::Stable)];
    assert_eq!(count_async_items(&items, false), (1, 1));
}

#[test]
fn non_generic_items_can_be_left_out() {
    let mut generic = record("tokio::io", false, true, Stability::Stable);
    generic.has_generics = true;
    let items = vec![generic, record("tokio::io", false, true, Stability::Stable)];
    assert_eq!(count_async_items(&items, true), (1, 1));
    assert_eq!(count_async_items(&items, false), (2, 0));
}

#[test]
fn prefix_matching_is_scoped() {
    assert!(should_exclude_path("std::os::unix", &["std::net", "std::os"]));
    assert!(!should_exclude_path("my_std::oscillator", &["std::os"]));
    assert!(!should_exclude_path("std", &["std::os"]));
    assert!(should_exclude_path("anything", &[""]));
    assert!(!should_exclude_path("std::os", &[]));
}

#[test]
fn path_only_count_scopes_by_prefix() {
    let items = vec![
        record("my_std::os_shim", true, false, Stability::Stable),
        record("std::os::unix", true, false, Stability::Stable),
        record("core::cell", true, false, Stability::Stable),
    ];
    assert_eq!(const_::count_const_items(&items), (2, 1));
    assert_eq!(count_const_items(&items), (2, 1));
}

#[test]
fn path_only_count_ignores_trait_path() {
    let mut r = record("alloc::boxed", true, false, Stability::Stable);
    r.kind = ItemKind::Impl;
    r.target_trait = Some("std::os::fd::AsFd".to_string());
    let items = vec![r];
    assert_eq!(const_::count_const_items(&items), (1, 0));
    assert_eq!(count_const_items(&items), (0, 1));
}

#[test]
fn empty_input_counts_nothing() {
    assert_eq!(count_const_items(&[]), (0, 0));
    assert_eq!(const_::count_const_items(&[]), (0, 0));
}

#[test]
fn stats_tally_and_add() {
    let a = Stats::from_iter(&[(Stability::Stable, true), (Stability::Unstable, false), (Stability::Stable, false)]);
    assert_eq!(a, Stats { total: 3, stable: 2, unstable: 1, generics: 1 });
    let b = Stats::from_iter(&[(Stability::Unstable, true)]);
    let c = Stats::from_iter(&[]);
    assert_eq!(c, Stats { total: 0, stable: 0, unstable: 0, generics: 0 });
    assert_eq!(a.add(b), Stats { total: 4, stable: 2, unstable: 2, generics: 2 });
    assert_eq!(a.add(b).add(c), a.add(b.add(c)));
    assert_eq!(a.add(b), b.add(a));
}

#[test]
fn stability_from_attributes() {
    assert_eq!(parse_stability(&vec!["#[stable(feature = \"a\", since = \"1.0\")]".to_string()]), Stability::Stable);
    assert_eq!(parse_stability(&vec!["#[inline]".to_string(), "#[unstable(feature = \"b\")]".to_string()]), Stability::Unstable);
    assert_eq!(parse_stability(&vec![]), Stability::Unstable);
    assert!(Stability::Stable.is_stable() && !Stability::Stable.is_unstable());
    assert!(Stability::Unstable.is_unstable());
    assert_eq!(Stability::Unstable.as_str(), "unstable");
    assert_eq!(ItemKind::Impl.as_str(), "impl");
}
