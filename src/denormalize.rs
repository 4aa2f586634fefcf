//! The single pass that turns a documentation graph into flat records: one
//! per trait, struct, enum, function and trait implementation that a module
//! declares or re-exports.

use crate::database::{Database, Kind};
use crate::item::{
    item_views, lemma_concat_to_set, lemma_sorted_unique, parse_stability, sort_dedup, stability_of, strictly_sorted, Item, ItemKind,
    ItemView, Stability,
};
use crate::model::{Definition, ImplDef};
use crate::render::{
    contains_generics, enum_text, format_enum, format_function, format_impl, format_struct,
    format_trait, function_text, generics_used, impl_text, struct_text, trait_text,
};
use vstd::prelude::*;

verus! {

/// A trait's record.
pub type Trait = Item;

/// A struct's record.
pub type Struct = Item;

/// An enum's record.
pub type Enum = Item;

/// A function's or method's record.
pub type Function = Item;

/// A trait implementation's record.
pub type Impl = Item;

pub open spec fn def_of(db: Database, id: usize) -> Definition {
    db.node(id)->0.def
}

pub open spec fn name_of(db: Database, id: usize) -> Seq<char> {
    db.node(id)->0.name@
}

pub open spec fn stability_at(db: Database, id: usize) -> Stability {
    stability_of(db.node(id)->0.attrs@)
}

/// The path of a member of `owner`, which sits at `path`.
pub open spec fn member_path(path: Seq<char>, owner: Seq<char>) -> Seq<char> {
    path + "::"@ + owner
}

/// The record of function `f` at `path`, inside a block whose generics
/// flag is `outer`.
pub open spec fn function_record(db: Database, f: usize, path: Seq<char>, outer: bool) -> ItemView {
    let fd = def_of(db, f)->Function_0;
    ItemView {
        kind: ItemKind::Function,
        id: f,
        name: name_of(db, f),
        path,
        decl: function_text(name_of(db, f), fd),
        has_generics: generics_used(fd.generics) || outer,
        is_const: fd.is_const,
        is_async: fd.is_async,
        stability: stability_at(db, f),
        fn_count: 0,
        target_trait: None,
        foreign_trait: false,
    }
}

/// The records of the functions that `ids` stand for.
pub open spec fn function_records(db: Database, ids: Seq<usize>, path: Seq<char>, outer: bool) -> Seq<
    ItemView,
> {
    db.resolved_all(ids, Kind::Function).map_values(|f: usize| function_record(db, f, path, outer))
}

/// The record of trait `t`, declared or re-exported at `path`; its method
/// count is the number of its members that are functions.
pub open spec fn trait_record(db: Database, t: usize, path: Seq<char>) -> ItemView {
    let td = def_of(db, t)->Trait_0;
    ItemView {
        kind: ItemKind::Trait,
        id: t,
        name: name_of(db, t),
        path,
        decl: trait_text(name_of(db, t), td),
        has_generics: generics_used(td.generics),
        is_const: false,
        is_async: false,
        stability: stability_at(db, t),
        fn_count: db.resolved_all(td.items@, Kind::Function).len() as usize,
        target_trait: None,
        foreign_trait: false,
    }
}

/// The records of the member functions of the traits `ts`, which sit at
/// `path`; each inherits its trait's generics flag.
pub open spec fn trait_member_records(db: Database, ts: Seq<usize>, path: Seq<char>) -> Seq<ItemView>
    decreases ts.len(),
{
    if ts.len() == 0 {
        Seq::empty()
    } else {
        let t = ts.last();
        let td = def_of(db, t)->Trait_0;
        trait_member_records(db, ts.drop_last(), path) + function_records(
            db,
            td.items@,
            member_path(path, name_of(db, t)),
            generics_used(td.generics),
        )
    }
}

/// An implementation block of no trait, written by hand, for one type.
pub open spec fn is_inherent(i: ImplDef) -> bool {
    i.trait_ is None && !i.synthetic && !i.blanket
}

/// The records of the methods of the inherent blocks among `is`, whose
/// owner sits at `owner_path`.
pub open spec fn inherent_records(db: Database, is: Seq<usize>, owner_path: Seq<char>) -> Seq<ItemView>
    decreases is.len(),
{
    if is.len() == 0 {
        Seq::empty()
    } else {
        let idef = def_of(db, is.last())->Impl_0;
        inherent_records(db, is.drop_last(), owner_path) + if is_inherent(idef) {
            function_records(db, idef.items@, owner_path, generics_used(idef.generics))
        } else {
            Seq::empty()
        }
    }
}

/// The implementation blocks of a struct or enum.
pub open spec fn impls_of(d: Definition) -> Seq<usize> {
    match d {
        Definition::Struct(sd) => sd.impls@,
        Definition::Enum(ed) => ed.impls@,
        _ => Seq::empty(),
    }
}

/// The records of the methods of the inherent blocks of struct or enum `o`,
/// which sits at `path`.
pub open spec fn owner_methods(db: Database, o: usize, path: Seq<char>) -> Seq<ItemView> {
    inherent_records(
        db,
        db.resolved_all(impls_of(def_of(db, o)), Kind::Impl),
        member_path(path, name_of(db, o)),
    )
}

/// The method records of the structs or enums `os`, which sit at `path`.
pub open spec fn owners_methods(db: Database, os: Seq<usize>, path: Seq<char>) -> Seq<ItemView>
    decreases os.len(),
{
    if os.len() == 0 {
        Seq::empty()
    } else {
        owners_methods(db, os.drop_last(), path) + owner_methods(db, os.last(), path)
    }
}

/// The record of struct `st` at `path`.
pub open spec fn struct_record(db: Database, st: usize, path: Seq<char>) -> ItemView {
    let sd = def_of(db, st)->Struct_0;
    ItemView {
        kind: ItemKind::Struct,
        id: st,
        name: name_of(db, st),
        path,
        decl: struct_text(name_of(db, st), sd),
        has_generics: generics_used(sd.generics),
        is_const: false,
        is_async: false,
        stability: stability_at(db, st),
        fn_count: owner_methods(db, st, path).len() as usize,
        target_trait: None,
        foreign_trait: false,
    }
}

/// The record of enum `en` at `path`.
pub open spec fn enum_record(db: Database, en: usize, path: Seq<char>) -> ItemView {
    let ed = def_of(db, en)->Enum_0;
    ItemView {
        kind: ItemKind::Enum,
        id: en,
        name: name_of(db, en),
        path,
        decl: enum_text(name_of(db, en), ed),
        has_generics: generics_used(ed.generics),
        is_const: false,
        is_async: false,
        stability: stability_at(db, en),
        fn_count: owner_methods(db, en, path).len() as usize,
        target_trait: None,
        foreign_trait: false,
    }
}

/// An implementation block is unstable when its owner is, when one of its
/// members is an unstable enum, or when the trait it implements is found in
/// the graph and is unstable. A trait that is not found counts as stable.
pub open spec fn impl_stability(db: Database, idef: ImplDef, owner: Stability) -> Stability {
    let es = db.resolved_all(idef.items@, Kind::Enum);
    if owner is Unstable || (exists|k: int|
        0 <= k < es.len() && #[trigger] stability_at(db, es[k]) is Unstable) || (db.resolved(
        idef.trait_->0.id,
        Kind::Trait,
    ) matches Some(t) && stability_at(db, t) is Unstable) {
        Stability::Unstable
    } else {
        Stability::Stable
    }
}

/// The record of trait implementation `i`, whose owner sits at `path` and
/// has stability `owner`.
pub open spec fn impl_record(db: Database, i: usize, path: Seq<char>, owner: Stability) -> ItemView {
    let idef = def_of(db, i)->Impl_0;
    let tr = idef.trait_->0;
    ItemView {
        kind: ItemKind::Impl,
        id: i,
        name: tr.name@,
        path,
        decl: impl_text(idef),
        has_generics: generics_used(idef.generics),
        is_const: false,
        is_async: false,
        stability: impl_stability(db, idef, owner),
        fn_count: 0,
        target_trait: db.path_of(tr.id),
        foreign_trait: db.resolved(tr.id, Kind::Trait) is None,
    }
}

/// The records of the trait implementations among `is`.
pub open spec fn impl_records(db: Database, is: Seq<usize>, path: Seq<char>, owner: Stability) -> Seq<
    ItemView,
>
    decreases is.len(),
{
    if is.len() == 0 {
        Seq::empty()
    } else {
        let i = is.last();
        impl_records(db, is.drop_last(), path, owner) + if def_of(db, i)->Impl_0.trait_ is Some {
            seq![impl_record(db, i, path, owner)]
        } else {
            Seq::empty()
        }
    }
}

/// The trait implementation records of the structs or enums `os`, which sit
/// at `path`.
pub open spec fn owners_impls(db: Database, os: Seq<usize>, path: Seq<char>) -> Seq<ItemView>
    decreases os.len(),
{
    if os.len() == 0 {
        Seq::empty()
    } else {
        let o = os.last();
        owners_impls(db, os.drop_last(), path) + impl_records(
            db,
            db.resolved_all(impls_of(def_of(db, o)), Kind::Impl),
            path,
            stability_at(db, o),
        )
    }
}

/// The records of a crate, by kind.
pub struct CrateView {
    pub traits: Seq<ItemView>,
    pub structs: Seq<ItemView>,
    pub enums: Seq<ItemView>,
    pub impls: Seq<ItemView>,
    pub functions: Seq<ItemView>,
}

/// A crate
#[derive(Debug, PartialEq, Eq, Default)]
pub struct Crate {
    /// Traits contained in this crate
    pub traits: Vec<Trait>,
    /// Structs contained in this crate
    pub structs: Vec<Struct>,
    /// Enums contained in this crate
    pub enums: Vec<Enum>,
    /// Impls contained in this crate
    pub impls: Vec<Impl>,
    /// Functions and methods contained in this crate
    pub functions: Vec<Function>,
}

impl View for Crate {
    type V = CrateView;

    open spec fn view(&self) -> CrateView {
        CrateView {
            traits: item_views(self.traits@),
            structs: item_views(self.structs@),
            enums: item_views(self.enums@),
            impls: item_views(self.impls@),
            functions: item_views(self.functions@),
        }
    }
}

fn sub_path(path: &str, owner: &str) -> (r: String)
    ensures
        r@ == member_path(path@, owner@),
{
    let mut out = String::new();
    out.append(path);
    out.append("::");
    out.append(owner);
    out
}

impl Crate {
    /// Adds the records of the functions that `items` stand for, at `path`,
    /// and returns how many there are.
    fn count_functions(&mut self, db: &Database, items: &[usize], path: &str, parent_has_generics: bool) -> (r: usize)
        ensures
            final(self)@.functions == old(self)@.functions + function_records(*db, items@, path@, parent_has_generics),
            r == function_records(*db, items@, path@, parent_has_generics).len(),
            final(self)@.traits == old(self)@.traits,
            final(self)@.structs == old(self)@.structs,
            final(self)@.enums == old(self)@.enums,
            final(self)@.impls == old(self)@.impls,
    {
        let fns = db.find_functions(items);
        let ghost recs = function_records(*db, items@, path@, parent_has_generics);
        proof {
            db.lemma_resolved_all_kind(items@, Kind::Function);
        }
        let mut count: usize = 0;
        while count < fns.len()
            invariant
                fns@ == db.resolved_all(items@, Kind::Function),
                recs == fns@.map_values(|f: usize| function_record(*db, f, path@, parent_has_generics)),
                forall|i: int| 0 <= i < fns@.len() ==> ((#[trigger] db.node(fns@[i])) matches Some(n)
                    && n.def is Function),
                count <= fns@.len(),
                self@.functions == old(self)@.functions + recs.take(count as int),
                self@.traits == old(self)@.traits,
                self@.structs == old(self)@.structs,
                self@.enums == old(self)@.enums,
                self@.impls == old(self)@.impls,
            decreases fns@.len() - count,
        {
            let f = fns[count];
            let node = db.find_item(f).unwrap();
            match &node.def {
                Definition::Function(fd) => {
                    let rec = Item {
                        kind: ItemKind::Function,
                        id: f,
                        name: node.name.clone(),
                        path: path.to_owned(),
                        decl: format_function(node.name.as_str(), fd),
                        has_generics: contains_generics(&fd.generics) || parent_has_generics,
                        is_const: fd.is_const,
                        is_async: fd.is_async,
                        stability: parse_stability(&node.attrs),
                        fn_count: 0,
                        target_trait: None,
                        foreign_trait: false,
                    };
                    proof {
                        assert(rec@ == recs[count as int]);
                        assert(recs.take(count + 1) =~= recs.take(count as int).push(rec@));
                        assert(item_views(self.functions@.push(rec)) =~= item_views(self.functions@).push(rec@));
                    }
                    self.functions.push(rec);
                },
                _ => {
                    proof {
                        assert(false);
                    }
                },
            }
            count += 1;
        }
        assert(recs.take(count as int) =~= recs);
        count
    }

    /// Adds a record for each trait that `items` stand for, at `path`, and
    /// the records of their member functions.
    fn parse_traits(&mut self, db: &Database, items: &[usize], path: &str)
        ensures
            final(self)@.traits == old(self)@.traits + db.resolved_all(items@, Kind::Trait).map_values(
                |t: usize| trait_record(*db, t, path@),
            ),
            final(self)@.functions == old(self)@.functions + trait_member_records(
                *db,
                db.resolved_all(items@, Kind::Trait),
                path@,
            ),
            final(self)@.structs == old(self)@.structs,
            final(self)@.enums == old(self)@.enums,
            final(self)@.impls == old(self)@.impls,
    {
        let ts = db.find_traits(items);
        let ghost recs = ts@.map_values(|t: usize| trait_record(*db, t, path@));
        proof {
            db.lemma_resolved_all_kind(items@, Kind::Trait);
        }
        let mut i: usize = 0;
        while i < ts.len()
            invariant
                ts@ == db.resolved_all(items@, Kind::Trait),
                recs == ts@.map_values(|t: usize| trait_record(*db, t, path@)),
                forall|k: int| 0 <= k < ts@.len() ==> ((#[trigger] db.node(ts@[k])) matches Some(n)
                    && n.def is Trait),
                i <= ts@.len(),
                self@.traits == old(self)@.traits + recs.take(i as int),
                self@.functions == old(self)@.functions + trait_member_records(
                    *db,
                    ts@.take(i as int),
                    path@,
                ),
                self@.structs == old(self)@.structs,
                self@.enums == old(self)@.enums,
                self@.impls == old(self)@.impls,
            decreases ts@.len() - i,
        {
            let t = ts[i];
            let node = db.find_item(t).unwrap();
            proof {
                assert(ts@.take(i + 1).drop_last() =~= ts@.take(i as int));
            }
            match &node.def {
                Definition::Trait(td) => {
                    let decl = format_trait(node.name.as_str(), td);
                    let has_generics = contains_generics(&td.generics);
                    let fn_path = sub_path(path, node.name.as_str());
                    let fn_count = self.count_functions(
                        db,
                        td.items.as_slice(),
                        fn_path.as_str(),
                        has_generics,
                    );
                    let rec = Item {
                        kind: ItemKind::Trait,
                        id: t,
                        name: node.name.clone(),
                        path: path.to_owned(),
                        decl,
                        has_generics,
                        is_const: false,
                        is_async: false,
                        stability: parse_stability(&node.attrs),
                        fn_count,
                        target_trait: None,
                        foreign_trait: false,
                    };
                    proof {
                        assert(rec@ == recs[i as int]);
                        assert(recs.take(i + 1) =~= recs.take(i as int).push(rec@));
                        assert(item_views(self.traits@.push(rec)) =~= item_views(self.traits@).push(
                            rec@,
                        ));
                    }
                    self.traits.push(rec);
                },
                _ => {
                    proof {
                        assert(false);
                    }
                },
            }
            i += 1;
        }
        assert(recs.take(i as int) =~= recs);
        assert(ts@.take(i as int) =~= ts@);
    }

    /// Adds the records of the methods of the inherent blocks among `impls`,
    /// whose owner sits at `owner_path`, and returns how many there are.
    fn count_inherent_impls(&mut self, db: &Database, impls: &[usize], owner_path: &str) -> (r: usize)
        ensures
            final(self)@.functions == old(self)@.functions + inherent_records(
                *db,
                db.resolved_all(impls@, Kind::Impl),
                owner_path@,
            ),
            r == inherent_records(*db, db.resolved_all(impls@, Kind::Impl), owner_path@).len(),
            final(self)@.traits == old(self)@.traits,
            final(self)@.structs == old(self)@.structs,
            final(self)@.enums == old(self)@.enums,
            final(self)@.impls == old(self)@.impls,
    {
        let before = self.functions.len();
        let is = db.find_impls(impls);
        proof {
            db.lemma_resolved_all_kind(impls@, Kind::Impl);
        }
        let mut i: usize = 0;
        while i < is.len()
            invariant
                is@ == db.resolved_all(impls@, Kind::Impl),
                forall|k: int| 0 <= k < is@.len() ==> ((#[trigger] db.node(is@[k])) matches Some(n)
                    && n.def is Impl),
                i <= is@.len(),
                before == old(self)@.functions.len(),
                self@.functions == old(self)@.functions + inherent_records(
                    *db,
                    is@.take(i as int),
                    owner_path@,
                ),
                self@.traits == old(self)@.traits,
                self@.structs == old(self)@.structs,
                self@.enums == old(self)@.enums,
                self@.impls == old(self)@.impls,
            decreases is@.len() - i,
        {
            let node = db.find_item(is[i]).unwrap();
            proof {
                assert(is@.take(i + 1).drop_last() =~= is@.take(i as int));
            }
            match &node.def {
                Definition::Impl(idef) => {
                    // Only inherent implementations carry the owner's methods.
                    if idef.trait_.is_none() && !idef.synthetic && !idef.blanket {
                        let has_generics = contains_generics(&idef.generics);
                        self.count_functions(db, idef.items.as_slice(), owner_path, has_generics);
                    }
                },
                _ => {
                    proof {
                        assert(false);
                    }
                },
            }
            i += 1;
        }
        assert(is@.take(i as int) =~= is@);
        self.functions.len() - before
    }

    /// Adds a record for each trait implementation among `impls`, whose
    /// owner sits at `path` and has stability `stability`.
    fn parse_trait_impls(&mut self, db: &Database, impls: &[usize], path: &str, stability: Stability)
        ensures
            final(self)@.impls == old(self)@.impls + impl_records(
                *db,
                db.resolved_all(impls@, Kind::Impl),
                path@,
                stability,
            ),
            final(self)@.traits == old(self)@.traits,
            final(self)@.structs == old(self)@.structs,
            final(self)@.enums == old(self)@.enums,
            final(self)@.functions == old(self)@.functions,
    {
        let is = db.find_impls(impls);
        proof {
            db.lemma_resolved_all_kind(impls@, Kind::Impl);
        }
        let mut i: usize = 0;
        while i < is.len()
            invariant
                is@ == db.resolved_all(impls@, Kind::Impl),
                forall|k: int| 0 <= k < is@.len() ==> ((#[trigger] db.node(is@[k])) matches Some(n)
                    && n.def is Impl),
                i <= is@.len(),
                self@.impls == old(self)@.impls + impl_records(
                    *db,
                    is@.take(i as int),
                    path@,
                    stability,
                ),
                self@.traits == old(self)@.traits,
                self@.structs == old(self)@.structs,
                self@.enums == old(self)@.enums,
                self@.functions == old(self)@.functions,
            decreases is@.len() - i,
        {
            let id = is[i];
            let node = db.find_item(id).unwrap();
            proof {
                assert(is@.take(i + 1).drop_last() =~= is@.take(i as int));
            }
            match &node.def {
                Definition::Impl(idef) => {
                    // Only trait implementations get a record of their own.
                    match &idef.trait_ {
                        Some(tr) => {
                            let rec = Item {
                                kind: ItemKind::Impl,
                                id,
                                name: tr.name.clone(),
                                path: path.to_owned(),
                                decl: format_impl(idef),
                                has_generics: contains_generics(&idef.generics),
                                is_const: false,
                                is_async: false,
                                stability: implementation_stability(db, idef, stability),
                                fn_count: 0,
                                target_trait: match db.find_path(tr.id) {
                                    Some(p) => Some(p.clone()),
                                    None => None,
                                },
                                foreign_trait: db.resolve(tr.id, Kind::Trait).is_none(),
                            };
                            proof {
                                assert(rec@ == impl_record(*db, id, path@, stability));
                                assert(item_views(self.impls@.push(rec)) =~= item_views(
                                    self.impls@,
                                ).push(rec@));
                            }
                            self.impls.push(rec);
                        },
                        None => {},
                    }
                },
                _ => {
                    proof {
                        assert(false);
                    }
                },
            }
            i += 1;
        }
        assert(is@.take(i as int) =~= is@);
    }

    /// Adds a record for each struct (or enum, as `kind` says) that `items`
    /// stand for, at `path`, with the records of their inherent methods and
    /// of their trait implementations.
    fn parse_owners(&mut self, db: &Database, items: &[usize], path: &str, kind: Kind)
        requires
            kind == Kind::Struct || kind == Kind::Enum,
        ensures
            kind == Kind::Struct ==> final(self)@.structs == old(self)@.structs + db.resolved_all(
                items@,
                kind,
            ).map_values(|o: usize| struct_record(*db, o, path@)) && final(self)@.enums == old(
                self,
            )@.enums,
            kind == Kind::Enum ==> final(self)@.enums == old(self)@.enums + db.resolved_all(
                items@,
                kind,
            ).map_values(|o: usize| enum_record(*db, o, path@)) && final(self)@.structs == old(
                self,
            )@.structs,
            final(self)@.functions == old(self)@.functions + owners_methods(
                *db,
                db.resolved_all(items@, kind),
                path@,
            ),
            final(self)@.impls == old(self)@.impls + owners_impls(
                *db,
                db.resolved_all(items@, kind),
                path@,
            ),
            final(self)@.traits == old(self)@.traits,
    {
        let os = db.find_all(items, kind);
        let ghost srecs = os@.map_values(|o: usize| struct_record(*db, o, path@));
        let ghost erecs = os@.map_values(|o: usize| enum_record(*db, o, path@));
        proof {
            db.lemma_resolved_all_kind(items@, kind);
        }
        let mut i: usize = 0;
        while i < os.len()
            invariant
                kind == Kind::Struct || kind == Kind::Enum,
                os@ == db.resolved_all(items@, kind),
                srecs == os@.map_values(|o: usize| struct_record(*db, o, path@)),
                erecs == os@.map_values(|o: usize| enum_record(*db, o, path@)),
                forall|k: int| 0 <= k < os@.len() ==> ((#[trigger] db.node(os@[k])) matches Some(n)
                    && (if kind == Kind::Struct { n.def is Struct } else { n.def is Enum })),
                i <= os@.len(),
                kind == Kind::Struct ==> self@.structs == old(self)@.structs + srecs.take(i as int)
                    && self@.enums == old(self)@.enums,
                kind == Kind::Enum ==> self@.enums == old(self)@.enums + erecs.take(i as int)
                    && self@.structs == old(self)@.structs,
                self@.functions == old(self)@.functions + owners_methods(
                    *db,
                    os@.take(i as int),
                    path@,
                ),
                self@.impls == old(self)@.impls + owners_impls(*db, os@.take(i as int), path@),
                self@.traits == old(self)@.traits,
            decreases os@.len() - i,
        {
            let o = os[i];
            let node = db.find_item(o).unwrap();
            proof {
                assert(os@.take(i + 1).drop_last() =~= os@.take(i as int));
            }
            let (impls, decl, has_generics) = match &node.def {
                Definition::Struct(sd) => (
                    sd.impls.as_slice(),
                    format_struct(node.name.as_str(), sd),
                    contains_generics(&sd.generics),
                ),
                Definition::Enum(ed) => (
                    ed.impls.as_slice(),
                    format_enum(node.name.as_str(), ed),
                    contains_generics(&ed.generics),
                ),
                _ => {
                    proof {
                        assert(false);
                    }
                    (items, String::new(), false)
                },
            };
            let owner_path = sub_path(path, node.name.as_str());
            let fn_count = self.count_inherent_impls(db, impls, owner_path.as_str());
            let stability = parse_stability(&node.attrs);
            self.parse_trait_impls(db, impls, path, stability);
            let rec = Item {
                kind: if matches!(kind, Kind::Struct) {
                    ItemKind::Struct
                } else {
                    ItemKind::Enum
                },
                id: o,
                name: node.name.clone(),
                path: path.to_owned(),
                decl,
                has_generics,
                is_const: false,
                is_async: false,
                stability,
                fn_count,
                target_trait: None,
                foreign_trait: false,
            };
            proof {
                if kind == Kind::Struct {
                    assert(rec@ == srecs[i as int]);
                    assert(srecs.take(i + 1) =~= srecs.take(i as int).push(rec@));
                    assert(item_views(self.structs@.push(rec)) =~= item_views(self.structs@).push(
                        rec@,
                    ));
                } else {
                    assert(rec@ == erecs[i as int]);
                    assert(erecs.take(i + 1) =~= erecs.take(i as int).push(rec@));
                    assert(item_views(self.enums@.push(rec)) =~= item_views(self.enums@).push(
                        rec@,
                    ));
                }
            }
            if matches!(kind, Kind::Struct) {
                self.structs.push(rec);
            } else {
                self.enums.push(rec);
            }
            i += 1;
        }
        assert(srecs.take(i as int) =~= srecs);
        assert(erecs.take(i as int) =~= erecs);
        assert(os@.take(i as int) =~= os@);
    }

    /// Adds a record for each struct that `items` stand for, at `path`, with
    /// the records of their inherent methods and trait implementations.
    fn parse_structs(&mut self, db: &Database, items: &[usize], path: &str)
        ensures
            final(self)@.structs == old(self)@.structs + db.resolved_all(items@, Kind::Struct).map_values(
                |o: usize| struct_record(*db, o, path@),
            ),
            final(self)@.functions == old(self)@.functions + owners_methods(
                *db,
                db.resolved_all(items@, Kind::Struct),
                path@,
            ),
            final(self)@.impls == old(self)@.impls + owners_impls(
                *db,
                db.resolved_all(items@, Kind::Struct),
                path@,
            ),
            final(self)@.traits == old(self)@.traits,
            final(self)@.enums == old(self)@.enums,
    {
        self.parse_owners(db, items, path, Kind::Struct)
    }

    /// Adds a record for each enum that `items` stand for, at `path`, with
    /// the records of their inherent methods and trait implementations.
    fn parse_enums(&mut self, db: &Database, items: &[usize], path: &str)
        ensures
            final(self)@.enums == old(self)@.enums + db.resolved_all(items@, Kind::Enum).map_values(
                |o: usize| enum_record(*db, o, path@),
            ),
            final(self)@.functions == old(self)@.functions + owners_methods(
                *db,
                db.resolved_all(items@, Kind::Enum),
                path@,
            ),
            final(self)@.impls == old(self)@.impls + owners_impls(
                *db,
                db.resolved_all(items@, Kind::Enum),
                path@,
            ),
            final(self)@.traits == old(self)@.traits,
            final(self)@.structs == old(self)@.structs,
    {
        self.parse_owners(db, items, path, Kind::Enum)
    }
}


/// The stability of trait implementation `idef`, whose owner has stability
/// `owner`.
fn implementation_stability(db: &Database, idef: &ImplDef, owner: Stability) -> (r: Stability)
    requires
        idef.trait_ is Some,
    ensures
        r == impl_stability(*db, *idef, owner),
{
    let mut st = owner;
    let es = db.find_enums(idef.items.as_slice());
    proof {
        db.lemma_resolved_all_kind(idef.items@, Kind::Enum);
    }
    let mut k: usize = 0;
    while k < es.len()
        invariant
            es@ == db.resolved_all(idef.items@, Kind::Enum),
            forall|j: int| 0 <= j < es@.len() ==> (#[trigger] db.node(es@[j])) is Some,
            k <= es@.len(),
            st == if owner is Unstable || (exists|j: int|
                0 <= j < k && #[trigger] stability_at(*db, es@[j]) is Unstable) {
                Stability::Unstable
            } else {
                Stability::Stable
            },
        decreases es@.len() - k,
    {
        let node = db.find_item(es[k]).unwrap();
        if parse_stability(&node.attrs).is_unstable() {
            st = Stability::Unstable;
        }
        proof {
            assert(stability_at(*db, es@[k as int]) == stability_of(node.attrs@));
        }
        k += 1;
    }
    match &idef.trait_ {
        Some(tr) => match db.resolve(tr.id, Kind::Trait) {
            Some(t) => {
                proof {
                    db.lemma_resolved_all_kind(seq![tr.id], Kind::Trait);
                    assert(seq![tr.id].drop_last() =~= Seq::<usize>::empty());
                }
                let node = db.find_item(t).unwrap();
                if parse_stability(&node.attrs).is_unstable() {
                    st = Stability::Unstable;
                }
            },
            None => {},
        },
        None => {},
    }
    st
}

/// The path of module `m`.
pub open spec fn path_of_module(db: Database, m: usize) -> Seq<char> {
    db.path_of(m)->0
}

/// The identifiers that module `m` declares or re-exports.
pub open spec fn module_items(db: Database, m: usize) -> Seq<usize> {
    def_of(db, m)->Module_0@
}

/// The records of kind `kind` that module `m` gives: its traits, structs
/// and enums; the trait implementations of its structs and enums; and its
/// functions with the methods of its traits, structs and enums.
pub open spec fn module_records(db: Database, m: usize, kind: ItemKind) -> Seq<ItemView> {
    let items = module_items(db, m);
    let p = path_of_module(db, m);
    let ts = db.resolved_all(items, Kind::Trait);
    let ss = db.resolved_all(items, Kind::Struct);
    let es = db.resolved_all(items, Kind::Enum);
    match kind {
        ItemKind::Trait => ts.map_values(|t: usize| trait_record(db, t, p)),
        ItemKind::Struct => ss.map_values(|o: usize| struct_record(db, o, p)),
        ItemKind::Enum => es.map_values(|o: usize| enum_record(db, o, p)),
        ItemKind::Impl => owners_impls(db, ss, p) + owners_impls(db, es, p),
        ItemKind::Function => trait_member_records(db, ts, p) + function_records(db, items, p, false)
            + owners_methods(db, ss, p) + owners_methods(db, es, p),
    }
}

/// The records of kind `kind` of the modules `ms`, module by module.
pub open spec fn records_from(db: Database, ms: Seq<usize>, kind: ItemKind) -> Seq<ItemView>
    decreases ms.len(),
{
    if ms.len() == 0 {
        Seq::empty()
    } else {
        records_from(db, ms.drop_last(), kind) + module_records(db, ms.last(), kind)
    }
}

/// Every record of kind `kind` that some module of the graph gives.
pub open spec fn graph_records(db: Database, kind: ItemKind) -> Set<ItemView> {
    Set::new(
        |x: ItemView|
            exists|m: usize| db.is_listed_module(m) && #[trigger] module_records(db, m, kind).contains(x),
    )
}

/// The records of a crate of kind `kind`.
pub open spec fn kind_records(c: CrateView, kind: ItemKind) -> Seq<ItemView> {
    match kind {
        ItemKind::Trait => c.traits,
        ItemKind::Struct => c.structs,
        ItemKind::Enum => c.enums,
        ItemKind::Impl => c.impls,
        ItemKind::Function => c.functions,
    }
}

/// `c` holds, for each kind, exactly the records that the modules of `db`
/// give, each once, in the order of `item_cmp`.
pub open spec fn is_denormalized(db: Database, c: CrateView) -> bool {
    forall|k: ItemKind|
        strictly_sorted(#[trigger] kind_records(c, k)) && kind_records(c, k).to_set()
            == graph_records(db, k)
}

proof fn lemma_records_from_set(db: Database, ms: Seq<usize>, kind: ItemKind)
    ensures
        records_from(db, ms, kind).to_set() == Set::new(
            |x: ItemView|
                exists|j: int| 0 <= j < ms.len() && #[trigger] module_records(db, ms[j], kind).contains(x),
        ),
    decreases ms.len(),
{
    let target = Set::new(
        |x: ItemView|
            exists|j: int| 0 <= j < ms.len() && #[trigger] module_records(db, ms[j], kind).contains(x),
    );
    if ms.len() == 0 {
        assert(records_from(db, ms, kind).to_set() =~= target);
    } else {
        let prev = ms.drop_last();
        lemma_records_from_set(db, prev, kind);
        lemma_concat_to_set(records_from(db, prev, kind), module_records(db, ms.last(), kind));
        assert forall|x: ItemView| records_from(db, ms, kind).to_set().contains(x) <==> target.contains(x) by {
            if records_from(db, prev, kind).to_set().contains(x) {
                let j = choose|j: int| 0 <= j < prev.len() && #[trigger] module_records(db, prev[j], kind).contains(x);
                assert(ms[j] == prev[j]);
                assert(module_records(db, ms[j], kind).contains(x));
            }
            if module_records(db, ms.last(), kind).contains(x) {
                assert(module_records(db, ms[ms.len() - 1], kind).contains(x));
            }
            if target.contains(x) {
                let j = choose|j: int| 0 <= j < ms.len() && #[trigger] module_records(db, ms[j], kind).contains(x);
                if j < prev.len() {
                    assert(prev[j] == ms[j]);
                    assert(module_records(db, prev[j], kind).contains(x));
                }
            }
        }
        assert(records_from(db, ms, kind).to_set() =~= target);
    }
}

impl Crate {
    /// Flattens a documentation graph: one record per trait, struct, enum,
    /// function and trait implementation that a module declares or
    /// re-exports, each kind sorted and without repeats.
    pub fn from_graph(db: &Database) -> (r: Crate)
        ensures
            is_denormalized(*db, r@),
    {
        let modules = db.modules();
        let mut out = Crate {
            traits: Vec::new(),
            structs: Vec::new(),
            enums: Vec::new(),
            impls: Vec::new(),
            functions: Vec::new(),
        };
        let mut i: usize = 0;
        proof {
            assert(item_views(out.traits@) =~= Seq::<ItemView>::empty());
            assert(item_views(out.structs@) =~= Seq::<ItemView>::empty());
            assert(item_views(out.enums@) =~= Seq::<ItemView>::empty());
            assert(item_views(out.impls@) =~= Seq::<ItemView>::empty());
            assert(item_views(out.functions@) =~= Seq::<ItemView>::empty());
        }
        while i < modules.len()
            invariant
                i <= modules@.len(),
                forall|x: usize|
                    #![trigger modules@.contains(x)]
                    #![trigger db.is_listed_module(x)]
                    modules@.contains(x) <==> db.is_listed_module(x),
                out@.traits == records_from(*db, modules@.take(i as int), ItemKind::Trait),
                out@.structs == records_from(*db, modules@.take(i as int), ItemKind::Struct),
                out@.enums == records_from(*db, modules@.take(i as int), ItemKind::Enum),
                out@.impls == records_from(*db, modules@.take(i as int), ItemKind::Impl),
                out@.functions == records_from(*db, modules@.take(i as int), ItemKind::Function),
            decreases modules@.len() - i,
        {
            let m = modules[i];
            proof {
                assert(modules@.contains(m));
                assert(modules@.take(i + 1).drop_last() =~= modules@.take(i as int));
            }
            let node = db.find_item(m).unwrap();
            let path = db.find_path(m).unwrap();
            match &node.def {
                Definition::Module(items) => {
                    out.parse_traits(db, items.as_slice(), path.as_str());
                    out.count_functions(db, items.as_slice(), path.as_str(), false);
                    out.parse_structs(db, items.as_slice(), path.as_str());
                    out.parse_enums(db, items.as_slice(), path.as_str());
                },
                _ => {
                    proof {
                        assert(false);
                    }
                },
            }
            i += 1;
        }
        proof {
            assert(modules@.take(i as int) =~= modules@);
        }
        let r = Crate {
            traits: sort_dedup(out.traits),
            structs: sort_dedup(out.structs),
            enums: sort_dedup(out.enums),
            impls: sort_dedup(out.impls),
            functions: sort_dedup(out.functions),
        };
        proof {
            assert forall|k: ItemKind| #[trigger] kind_records(r@, k).to_set() == graph_records(*db, k) by {
                lemma_records_from_set(*db, modules@, k);
                assert forall|x: ItemView| graph_records(*db, k).contains(x) <==> (exists|j: int|
                    0 <= j < modules@.len() && #[trigger] module_records(*db, modules@[j], k).contains(x)) by {
                    if graph_records(*db, k).contains(x) {
                        let m = choose|m: usize| db.is_listed_module(m) && #[trigger] module_records(*db, m, k).contains(x);
                        assert(modules@.contains(m));
                        let j = choose|j: int| 0 <= j < modules@.len() && modules@[j] == m;
                        assert(module_records(*db, modules@[j], k).contains(x));
                    }
                    if exists|j: int| 0 <= j < modules@.len() && #[trigger] module_records(*db, modules@[j], k).contains(x) {
                        let j = choose|j: int| 0 <= j < modules@.len() && #[trigger] module_records(*db, modules@[j], k).contains(x);
                        assert(modules@.contains(modules@[j]));
                    }
                }
                assert(graph_records(*db, k) =~= Set::new(
                    |x: ItemView|
                        exists|j: int| 0 <= j < modules@.len() && #[trigger] module_records(*db, modules@[j], k).contains(x),
                ));
            }
        }
        r
    }
}

/// Flattening is deterministic: two crates that both flatten the same graph
/// hold the same records, in the same order, field for field.
pub proof fn lemma_denormalize_deterministic(db: Database, c1: CrateView, c2: CrateView)
    requires
        is_denormalized(db, c1),
        is_denormalized(db, c2),
    ensures
        c1 == c2,
{
    assert forall|k: ItemKind| kind_records(c1, k) == kind_records(c2, k) by {
        assert(strictly_sorted(kind_records(c1, k)));
        assert(strictly_sorted(kind_records(c2, k)));
        lemma_sorted_unique(kind_records(c1, k), kind_records(c2, k));
    }
    assert(kind_records(c1, ItemKind::Trait) == kind_records(c2, ItemKind::Trait));
    assert(kind_records(c1, ItemKind::Struct) == kind_records(c2, ItemKind::Struct));
    assert(kind_records(c1, ItemKind::Enum) == kind_records(c2, ItemKind::Enum));
    assert(kind_records(c1, ItemKind::Impl) == kind_records(c2, ItemKind::Impl));
    assert(kind_records(c1, ItemKind::Function) == kind_records(c2, ItemKind::Function));
}

/// The records of `a` followed by those of `b`, kind by kind.
pub open spec fn merged(a: CrateView, b: CrateView) -> CrateView {
    CrateView {
        traits: a.traits + b.traits,
        structs: a.structs + b.structs,
        enums: a.enums + b.enums,
        impls: a.impls + b.impls,
        functions: a.functions + b.functions,
    }
}

/// Merging is associative, record for record, and the records that three
/// merges hold do not depend on the order in which the crates are taken.
pub proof fn lemma_merge_associative(a: CrateView, b: CrateView, c: CrateView)
    ensures
        merged(merged(a, b), c) == merged(a, merged(b, c)),
        forall|k: ItemKind|
            (#[trigger] kind_records(merged(merged(a, b), c), k)).to_multiset() == kind_records(
                merged(merged(b, a), c),
                k,
            ).to_multiset(),
        forall|k: ItemKind|
            (#[trigger] kind_records(merged(merged(a, b), c), k)).to_multiset() == kind_records(
                merged(merged(a, c), b),
                k,
            ).to_multiset(),
{
    assert((a.traits + b.traits) + c.traits =~= a.traits + (b.traits + c.traits));
    assert((a.structs + b.structs) + c.structs =~= a.structs + (b.structs + c.structs));
    assert((a.enums + b.enums) + c.enums =~= a.enums + (b.enums + c.enums));
    assert((a.impls + b.impls) + c.impls =~= a.impls + (b.impls + c.impls));
    assert((a.functions + b.functions) + c.functions =~= a.functions + (b.functions
        + c.functions));
    assert forall|k: ItemKind| (#[trigger] kind_records(merged(merged(a, b), c), k)).to_multiset()
        == kind_records(merged(merged(b, a), c), k).to_multiset() by {
        let (x, y, z) = (kind_records(a, k), kind_records(b, k), kind_records(c, k));
        assert(kind_records(merged(merged(a, b), c), k) == (x + y) + z);
        assert(kind_records(merged(merged(b, a), c), k) == (y + x) + z);
        vstd::seq_lib::lemma_multiset_commutative(x, y);
        vstd::seq_lib::lemma_multiset_commutative(y, x);
        vstd::seq_lib::lemma_multiset_commutative(x + y, z);
        vstd::seq_lib::lemma_multiset_commutative(y + x, z);
        assert(x.to_multiset().add(y.to_multiset()) =~= y.to_multiset().add(x.to_multiset()));
    }
    assert forall|k: ItemKind| (#[trigger] kind_records(merged(merged(a, b), c), k)).to_multiset()
        == kind_records(merged(merged(a, c), b), k).to_multiset() by {
        let (x, y, z) = (kind_records(a, k), kind_records(b, k), kind_records(c, k));
        assert(kind_records(merged(merged(a, b), c), k) == (x + y) + z);
        assert(kind_records(merged(merged(a, c), b), k) == (x + z) + y);
        vstd::seq_lib::lemma_multiset_commutative(x, y);
        vstd::seq_lib::lemma_multiset_commutative(x, z);
        vstd::seq_lib::lemma_multiset_commutative(x + y, z);
        vstd::seq_lib::lemma_multiset_commutative(x + z, y);
        assert(x.to_multiset().add(y.to_multiset()).add(z.to_multiset()) =~= x.to_multiset().add(
            z.to_multiset(),
        ).add(y.to_multiset()));
    }
}

impl Crate {
    /// Move all items from `other` into `self` leaving `other` empty.
    pub fn append(&mut self, other: &mut Self)
        ensures
            final(self)@ == merged(old(self)@, old(other)@),
            final(other)@.traits.len() == 0,
            final(other)@.structs.len() == 0,
            final(other)@.enums.len() == 0,
            final(other)@.impls.len() == 0,
            final(other)@.functions.len() == 0,
    {
        self.traits.append(&mut other.traits);
        self.structs.append(&mut other.structs);
        self.enums.append(&mut other.enums);
        self.impls.append(&mut other.impls);
        self.functions.append(&mut other.functions);
        proof {
            assert(item_views(self.traits@) =~= old(self)@.traits + old(other)@.traits);
            assert(item_views(self.structs@) =~= old(self)@.structs + old(other)@.structs);
            assert(item_views(self.enums@) =~= old(self)@.enums + old(other)@.enums);
            assert(item_views(self.impls@) =~= old(self)@.impls + old(other)@.impls);
            assert(item_views(self.functions@) =~= old(self)@.functions + old(other)@.functions);
        }
    }
}

proof fn lemma_concat_contains<A>(s: Seq<A>, t: Seq<A>, x: A)
    requires
        (s + t).contains(x),
    ensures
        s.contains(x) || t.contains(x),
{
    lemma_concat_to_set(s, t);
    assert((s + t).to_set().contains(x));
}

proof fn lemma_function_record_path(db: Database, ids: Seq<usize>, path: Seq<char>, outer: bool, x: ItemView)
    requires
        function_records(db, ids, path, outer).contains(x),
    ensures
        x.path == path,
        db.node(x.id) is Some,
        def_of(db, x.id) is Function,
{
    let fs = db.resolved_all(ids, Kind::Function);
    db.lemma_resolved_all_kind(ids, Kind::Function);
    let i = choose|i: int| 0 <= i < fs.len() && function_record(db, fs[i], path, outer) == x;
    assert(db.node(fs[i]) is Some);
}

proof fn lemma_trait_member_path(db: Database, ts: Seq<usize>, path: Seq<char>, x: ItemView)
    requires
        forall|i: int| 0 <= i < ts.len() ==> ((#[trigger] db.node(ts[i])) matches Some(n) && n.def is Trait),
        trait_member_records(db, ts, path).contains(x),
    ensures
        exists|o: usize|
            ts.contains(o) && def_of(db, o) is Trait && #[trigger] member_path(path, name_of(db, o))
                == x.path,
        def_of(db, x.id) is Function,
    decreases ts.len(),
{
    let t = ts.last();
    let td = def_of(db, t)->Trait_0;
    let prev = ts.drop_last();
    let here = function_records(db, td.items@, member_path(path, name_of(db, t)), generics_used(td.generics));
    lemma_concat_contains(trait_member_records(db, prev, path), here, x);
    if trait_member_records(db, prev, path).contains(x) {
        assert forall|i: int| 0 <= i < prev.len() implies ((#[trigger] db.node(prev[i])) matches Some(n) && n.def is Trait) by {
            assert(prev[i] == ts[i]);
        }
        lemma_trait_member_path(db, prev, path, x);
        let o = choose|o: usize|
            prev.contains(o) && def_of(db, o) is Trait && #[trigger] member_path(path, name_of(db, o))
                == x.path;
        let j = choose|j: int| 0 <= j < prev.len() && prev[j] == o;
        assert(ts[j] == o);
    } else {
        lemma_function_record_path(db, td.items@, member_path(path, name_of(db, t)), generics_used(td.generics), x);
        assert(db.node(ts[ts.len() - 1]) is Some);
        assert(ts.contains(ts[ts.len() - 1]));
        assert(member_path(path, name_of(db, t)) == x.path);
    }
}

proof fn lemma_inherent_path(db: Database, is: Seq<usize>, owner_path: Seq<char>, x: ItemView)
    requires
        inherent_records(db, is, owner_path).contains(x),
    ensures
        x.path == owner_path,
        def_of(db, x.id) is Function,
    decreases is.len(),
{
    let idef = def_of(db, is.last())->Impl_0;
    let here = if is_inherent(idef) {
        function_records(db, idef.items@, owner_path, generics_used(idef.generics))
    } else {
        Seq::empty()
    };
    lemma_concat_contains(inherent_records(db, is.drop_last(), owner_path), here, x);
    if inherent_records(db, is.drop_last(), owner_path).contains(x) {
        lemma_inherent_path(db, is.drop_last(), owner_path, x);
    } else if is_inherent(idef) {
        lemma_function_record_path(db, idef.items@, owner_path, generics_used(idef.generics), x);
    }
}

proof fn lemma_owner_method_path(db: Database, os: Seq<usize>, path: Seq<char>, x: ItemView)
    requires
        forall|i: int| 0 <= i < os.len() ==> !(def_of(db, #[trigger] os[i]) is Function),
        owners_methods(db, os, path).contains(x),
    ensures
        exists|o: usize|
            os.contains(o) && !(def_of(db, o) is Function) && #[trigger] member_path(path, name_of(db, o))
                == x.path,
        def_of(db, x.id) is Function,
    decreases os.len(),
{
    let o = os.last();
    lemma_concat_contains(owners_methods(db, os.drop_last(), path), owner_methods(db, o, path), x);
    if owners_methods(db, os.drop_last(), path).contains(x) {
        assert forall|i: int| 0 <= i < os.drop_last().len() implies !(def_of(db, #[trigger] os.drop_last()[i]) is Function) by {
            assert(os.drop_last()[i] == os[i]);
        }
        lemma_owner_method_path(db, os.drop_last(), path, x);
        let o = choose|o: usize|
            os.drop_last().contains(o) && !(def_of(db, o) is Function) && #[trigger] member_path(
                path,
                name_of(db, o),
            ) == x.path;
        let j = choose|j: int| 0 <= j < os.drop_last().len() && os.drop_last()[j] == o;
        assert(os[j] == o);
    } else {
        assert(!(def_of(db, os[os.len() - 1]) is Function));
        assert(os.contains(os[os.len() - 1]));
        lemma_inherent_path(
            db,
            db.resolved_all(impls_of(def_of(db, o)), Kind::Impl),
            member_path(path, name_of(db, o)),
            x,
        );
    }
}

proof fn lemma_impl_record_path(db: Database, is: Seq<usize>, path: Seq<char>, owner: Stability, x: ItemView)
    requires
        impl_records(db, is, path, owner).contains(x),
    ensures
        x.path == path,
        exists|i: usize|
            is.contains(i) && def_of(db, i)->Impl_0.trait_ is Some && x == #[trigger] impl_record(
                db,
                i,
                path,
                owner,
            ),
    decreases is.len(),
{
    let i = is.last();
    let here = if def_of(db, i)->Impl_0.trait_ is Some {
        seq![impl_record(db, i, path, owner)]
    } else {
        Seq::empty()
    };
    lemma_concat_contains(impl_records(db, is.drop_last(), path, owner), here, x);
    if impl_records(db, is.drop_last(), path, owner).contains(x) {
        lemma_impl_record_path(db, is.drop_last(), path, owner, x);
        let j = choose|j: usize|
            is.drop_last().contains(j) && def_of(db, j)->Impl_0.trait_ is Some && x == #[trigger] impl_record(
                db,
                j,
                path,
                owner,
            );
        let k = choose|k: int| 0 <= k < is.drop_last().len() && is.drop_last()[k] == j;
        assert(is[k] == j);
    } else {
        assert(here[0] == x);
        assert(is.contains(is[is.len() - 1]));
    }
}

proof fn lemma_owner_impl_path(db: Database, os: Seq<usize>, path: Seq<char>, x: ItemView)
    requires
        owners_impls(db, os, path).contains(x),
    ensures
        x.path == path,
        exists|i: usize, st: Stability|
            db.node(i) matches Some(n) && n.def is Impl && def_of(db, i)->Impl_0.trait_ is Some && x
                == #[trigger] impl_record(db, i, path, st),
    decreases os.len(),
{
    let o = os.last();
    let is = db.resolved_all(impls_of(def_of(db, o)), Kind::Impl);
    let here = impl_records(db, is, path, stability_at(db, o));
    lemma_concat_contains(owners_impls(db, os.drop_last(), path), here, x);
    if owners_impls(db, os.drop_last(), path).contains(x) {
        lemma_owner_impl_path(db, os.drop_last(), path, x);
    } else {
        lemma_impl_record_path(db, is, path, stability_at(db, o), x);
        db.lemma_resolved_all_kind(impls_of(def_of(db, o)), Kind::Impl);
        let i = choose|i: usize|
            is.contains(i) && def_of(db, i)->Impl_0.trait_ is Some && x == #[trigger] impl_record(
                db,
                i,
                path,
                stability_at(db, o),
            );
        let k = choose|k: int| 0 <= k < is.len() && is[k] == i;
        assert(db.node(is[k]) is Some);
    }
}

/// Every trait implementation record is the record of a trait
/// implementation block of the graph: named after the trait, with the
/// block's rendered declaration, its generics flag, no methods counted, and
/// the stability that `impl_stability` gives for some owner stability.
pub proof fn lemma_trait_impl_records(db: Database, r: ItemView)
    requires
        graph_records(db, ItemKind::Impl).contains(r),
    ensures
        exists|i: usize, st: Stability|
            db.node(i) matches Some(n) && n.def is Impl && def_of(db, i)->Impl_0.trait_ is Some && r
                == #[trigger] impl_record(db, i, r.path, st),
        r.kind == ItemKind::Impl,
        r.fn_count == 0,
{
    let m = choose|m: usize| db.is_listed_module(m) && #[trigger] module_records(db, m, ItemKind::Impl).contains(r);
    let items = module_items(db, m);
    let p = path_of_module(db, m);
    let ss = db.resolved_all(items, Kind::Struct);
    let es = db.resolved_all(items, Kind::Enum);
    lemma_concat_contains(owners_impls(db, ss, p), owners_impls(db, es, p), r);
    if owners_impls(db, ss, p).contains(r) {
        lemma_owner_impl_path(db, ss, p, r);
    } else {
        lemma_owner_impl_path(db, es, p, r);
    }
}

/// `o` is a trait, struct or enum that module `m` declares or re-exports.
pub open spec fn is_module_owner(db: Database, m: usize, o: usize) -> bool {
    ||| db.resolved_all(module_items(db, m), Kind::Trait).contains(o)
    ||| db.resolved_all(module_items(db, m), Kind::Struct).contains(o)
    ||| db.resolved_all(module_items(db, m), Kind::Enum).contains(o)
}

/// The path of a record is the path of what holds it: the module's path,
/// or for a method the module's path followed by the name of the trait,
/// struct or enum of that module that holds it. That owner is another
/// definition than the record's own, so the record's name is not added to
/// its path.
pub open spec fn path_is_container(db: Database, r: ItemView) -> bool {
    exists|m: usize|
        #[trigger] db.is_listed_module(m) && (r.path == path_of_module(db, m) || (exists|o: usize|
            is_module_owner(db, m, o) && o != r.id && #[trigger] member_path(
                path_of_module(db, m),
                name_of(db, o),
            ) == r.path))
}

/// Every record's path is that of its container, never of the record's
/// own definition.
pub proof fn lemma_record_paths(db: Database, kind: ItemKind, r: ItemView)
    requires
        graph_records(db, kind).contains(r),
    ensures
        path_is_container(db, r),
{
    let m = choose|m: usize| db.is_listed_module(m) && #[trigger] module_records(db, m, kind).contains(r);
    let items = module_items(db, m);
    let p = path_of_module(db, m);
    let ts = db.resolved_all(items, Kind::Trait);
    let ss = db.resolved_all(items, Kind::Struct);
    let es = db.resolved_all(items, Kind::Enum);
    match kind {
        ItemKind::Trait => {
            let recs = ts.map_values(|t: usize| trait_record(db, t, p));
            let i = choose|i: int| 0 <= i < recs.len() && recs[i] == r;
            assert(db.is_listed_module(m) && r.path == path_of_module(db, m));
        },
        ItemKind::Struct => {
            let recs = ss.map_values(|o: usize| struct_record(db, o, p));
            let i = choose|i: int| 0 <= i < recs.len() && recs[i] == r;
            assert(db.is_listed_module(m) && r.path == path_of_module(db, m));
        },
        ItemKind::Enum => {
            let recs = es.map_values(|o: usize| enum_record(db, o, p));
            let i = choose|i: int| 0 <= i < recs.len() && recs[i] == r;
            assert(db.is_listed_module(m) && r.path == path_of_module(db, m));
        },
        ItemKind::Impl => {
            lemma_concat_contains(owners_impls(db, ss, p), owners_impls(db, es, p), r);
            if owners_impls(db, ss, p).contains(r) {
                lemma_owner_impl_path(db, ss, p, r);
            } else {
                lemma_owner_impl_path(db, es, p, r);
            }
        },
        ItemKind::Function => {
            let a = trait_member_records(db, ts, p);
            let b = function_records(db, items, p, false);
            let c = owners_methods(db, ss, p);
            let d = owners_methods(db, es, p);
            assert(module_records(db, m, kind) == a + b + c + d);
            lemma_concat_contains(a + b + c, d, r);
            if (a + b + c).contains(r) {
                lemma_concat_contains(a + b, c, r);
                if (a + b).contains(r) {
                    lemma_concat_contains(a, b, r);
                    if a.contains(r) {
                        db.lemma_resolved_all_kind(items, Kind::Trait);
                        lemma_trait_member_path(db, ts, p, r);
                        let o = choose|o: usize|
                            ts.contains(o) && def_of(db, o) is Trait && #[trigger] member_path(p, name_of(db, o))
                                == r.path;
                        assert(o != r.id);
                        assert(is_module_owner(db, m, o));
                    } else {
                        lemma_function_record_path(db, items, p, false, r);
                    }
                } else {
                    db.lemma_resolved_all_kind(items, Kind::Struct);
                    assert forall|i: int| 0 <= i < ss.len() implies !(def_of(db, #[trigger] ss[i]) is Function) by {
                        assert(db.node(ss[i]) is Some);
                    }
                    lemma_owner_method_path(db, ss, p, r);
                    let o = choose|o: usize|
                        ss.contains(o) && !(def_of(db, o) is Function) && #[trigger] member_path(p, name_of(db, o))
                            == r.path;
                    assert(o != r.id);
                    assert(is_module_owner(db, m, o));
                }
            } else {
                db.lemma_resolved_all_kind(items, Kind::Enum);
                assert forall|i: int| 0 <= i < es.len() implies !(def_of(db, #[trigger] es[i]) is Function) by {
                    assert(db.node(es[i]) is Some);
                }
                lemma_owner_method_path(db, es, p, r);
                let o = choose|o: usize|
                    es.contains(o) && !(def_of(db, o) is Function) && #[trigger] member_path(p, name_of(db, o))
                        == r.path;
                assert(o != r.id);
                assert(is_module_owner(db, m, o));
            }
        },
    }
}

} // verus!
