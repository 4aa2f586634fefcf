//! Rendering of types, bounds, generics and whole declarations as
//! declaration text. Every shape renders; the shapes that are not rendered
//! in full give a fixed placeholder that names them.

use crate::model::{
    EnumDef, FunctionDef, GenericBound, GenericParamDef, GenericParamDefKind, Generics, ImplDef,
    Param, StructDef, Term, TraitBoundModifier, TraitDef, Type, WherePredicate,
};
use vstd::prelude::*;

verus! {

/// The parts joined by `sep`, in order.
pub open spec fn join(parts: Seq<Seq<char>>, sep: Seq<char>) -> Seq<char>
    decreases parts.len(),
{
    if parts.len() == 0 {
        Seq::empty()
    } else if parts.len() == 1 {
        parts[0]
    } else {
        join(parts.drop_last(), sep) + sep + parts.last()
    }
}

/// The views of a sequence of strings.
pub open spec fn views(v: Seq<String>) -> Seq<Seq<char>> {
    v.map_values(|s: String| s@)
}

pub open spec fn placeholder(what: Seq<char>) -> Seq<char> {
    "<unsupported: "@ + what + ">"@
}

pub open spec fn modifier_text(m: TraitBoundModifier) -> Seq<char> {
    match m {
        TraitBoundModifier::Plain => Seq::empty(),
        TraitBoundModifier::Maybe => "?"@,
        TraitBoundModifier::MaybeConst => "~const "@,
    }
}

/// The rendered trait bounds of a list, in order; lifetime bounds are left out.
pub open spec fn bound_pieces(bs: Seq<GenericBound>) -> Seq<Seq<char>>
    decreases bs.len(),
{
    if bs.len() == 0 {
        Seq::empty()
    } else {
        match bs.last() {
            GenericBound::TraitBound { trait_name, modifier } => bound_pieces(bs.drop_last()).push(
                modifier_text(modifier) + trait_name@,
            ),
            GenericBound::Outlives(_) => bound_pieces(bs.drop_last()),
        }
    }
}

/// `: A + B`, or nothing when no trait bound is left.
pub open spec fn bounds_text(bs: Seq<GenericBound>) -> Seq<char> {
    let pieces = bound_pieces(bs);
    if pieces.len() == 0 {
        Seq::empty()
    } else {
        ": "@ + join(pieces, " + "@)
    }
}

pub open spec fn mut_text(mutable: bool) -> Seq<char> {
    if mutable {
        "mut "@
    } else {
        Seq::empty()
    }
}

/// The text of a type.
pub open spec fn type_text(t: Type) -> Seq<char>
    decreases t,
{
    match t {
        Type::ResolvedPath(name) => name@,
        Type::DynTrait(names) => "dyn "@ + join(views(names@), " + "@),
        Type::Generic(name) => name@,
        Type::Primitive(name) => name@,
        Type::FunctionPointer => placeholder("FunctionPointer"@),
        Type::Tuple(elems) => "("@ + join(type_pieces(elems@), ", "@) + ")"@,
        Type::Slice(inner) => "["@ + type_text(*inner) + "]"@,
        Type::Array { type_, len } => "["@ + type_text(*type_) + "; "@ + len@ + "]"@,
        Type::ImplTrait(bounds) => "impl "@ + join(bound_pieces(bounds@), " + "@),
        Type::Infer => placeholder("Infer"@),
        Type::RawPointer { mutable, type_ } => if mutable {
            "*mut "@ + type_text(*type_)
        } else {
            "*const "@ + type_text(*type_)
        },
        Type::BorrowedRef { lifetime, mutable, type_ } => "&"@ + match lifetime {
            Some(l) => l@ + " "@,
            None => Seq::empty(),
        } + mut_text(mutable) + type_text(*type_),
        Type::QualifiedPath { name, self_type } => type_text(*self_type) + "::"@ + name@,
    }
}

/// The texts of a sequence of types, in order.
pub open spec fn type_pieces(ts: Seq<Type>) -> Seq<Seq<char>>
    decreases ts,
{
    if ts.len() == 0 {
        Seq::empty()
    } else {
        type_pieces(ts.drop_last()).push(type_text(ts.last()))
    }
}

/// The rendered non-lifetime parameters of a list, in order.
pub open spec fn param_pieces(ps: Seq<GenericParamDef>) -> Seq<Seq<char>>
    decreases ps.len(),
{
    if ps.len() == 0 {
        Seq::empty()
    } else {
        let prev = param_pieces(ps.drop_last());
        let p = ps.last();
        match p.kind {
            GenericParamDefKind::Lifetime => prev,
            GenericParamDefKind::Type { bounds, default, .. } => prev.push(
                p.name@ + bounds_text(bounds@) + match default {
                    Some(t) => " = "@ + type_text(t),
                    None => Seq::empty(),
                },
            ),
            GenericParamDefKind::Const { type_, default } => prev.push(
                "const "@ + p.name@ + ": "@ + type_text(type_) + match default {
                    Some(d) => " = "@ + d@,
                    None => Seq::empty(),
                },
            ),
        }
    }
}

/// `<A: Bound, B>`, or nothing when no non-lifetime parameter is left.
pub open spec fn params_text(ps: Seq<GenericParamDef>) -> Seq<char> {
    let pieces = param_pieces(ps);
    if pieces.len() == 0 {
        Seq::empty()
    } else {
        "<"@ + join(pieces, ", "@) + ">"@
    }
}

pub open spec fn term_text(t: Term) -> Seq<char> {
    match t {
        Term::Type(ty) => type_text(ty),
        Term::Constant(expr) => expr@,
    }
}

pub open spec fn predicate_text(w: WherePredicate) -> Seq<char> {
    match w {
        WherePredicate::BoundPredicate { type_, bounds } => type_text(type_) + bounds_text(bounds@),
        WherePredicate::RegionPredicate => placeholder("RegionPredicate"@),
        WherePredicate::EqPredicate { lhs, rhs } => type_text(lhs) + " = "@ + term_text(rhs),
    }
}

/// The rendered predicates of a list, in order.
pub open spec fn predicate_pieces(ws: Seq<WherePredicate>) -> Seq<Seq<char>>
    decreases ws.len(),
{
    if ws.len() == 0 {
        Seq::empty()
    } else {
        predicate_pieces(ws.drop_last()).push(predicate_text(ws.last()))
    }
}

/// ` where A: Clone, B = C`, or nothing when there is no predicate.
pub open spec fn where_text(ws: Seq<WherePredicate>) -> Seq<char> {
    if ws.len() == 0 {
        Seq::empty()
    } else {
        " where "@ + join(predicate_pieces(ws), ", "@)
    }
}

/// Whether a generics clause declares anything: a parameter that is not a
/// lifetime, or a bound predicate.
pub open spec fn generics_used(g: Generics) -> bool {
    (exists|i: int|
        0 <= i < g.params@.len() && !(#[trigger] g.params@[i].kind is Lifetime))
    || (exists|j: int|
        0 <= j < g.where_predicates@.len() && #[trigger] g.where_predicates@[j] is BoundPredicate)
}

proof fn lemma_join_push(parts: Seq<Seq<char>>, p: Seq<char>, sep: Seq<char>)
    ensures
        join(parts.push(p), sep) == if parts.len() == 0 {
            p
        } else {
            join(parts, sep) + sep + p
        },
{
    assert(parts.push(p).drop_last() =~= parts);
}

/// Appends `piece` to `out`, which holds `parts` joined by `sep`.
fn append_part(
    out: &mut String,
    parts: Ghost<Seq<Seq<char>>>,
    sep: &str,
    piece: &str,
    first: bool,
)
    requires
        old(out)@ == join(parts@, sep@),
        first == (parts@.len() == 0),
    ensures
        final(out)@ == join(parts@.push(piece@), sep@),
{
    proof {
        lemma_join_push(parts@, piece@, sep@);
    }
    if !first {
        out.append(sep);
    }
    out.append(piece);
}

/// The trait bounds of a list joined by ` + `, and whether there was any.
fn bound_list(bs: &Vec<GenericBound>) -> (r: (String, bool))
    ensures
        r.0@ == join(bound_pieces(bs@), " + "@),
        r.1 == (bound_pieces(bs@).len() > 0),
{
    let mut out = String::new();
    let mut any = false;
    let mut i: usize = 0;
    while i < bs.len()
        invariant
            i <= bs@.len(),
            out@ == join(bound_pieces(bs@.take(i as int)), " + "@),
            any == (bound_pieces(bs@.take(i as int)).len() > 0),
        decreases bs@.len() - i,
    {
        assert(bs@.take(i + 1).drop_last() =~= bs@.take(i as int));
        match &bs[i] {
            GenericBound::TraitBound { trait_name, modifier } => {
                let mut piece = String::new();
                match modifier {
                    TraitBoundModifier::Plain => {},
                    TraitBoundModifier::Maybe => piece.append("?"),
                    TraitBoundModifier::MaybeConst => piece.append("~const "),
                }
                piece.append(trait_name.as_str());
                assert(piece@ == modifier_text(*modifier) + trait_name@);
                append_part(&mut out, Ghost(bound_pieces(bs@.take(i as int))), " + ", piece.as_str(), !any);
                any = true;
            },
            GenericBound::Outlives(_) => {},
        }
        i += 1;
    }
    assert(bs@.take(bs@.len() as int) =~= bs@);
    (out, any)
}

/// Renders a bound list as `: A + ?B + ~const C`; lifetime bounds are left
/// out, and an empty list renders as nothing.
pub fn format_generic_bounds(bs: &Vec<GenericBound>) -> (r: String)
    ensures
        r@ == bounds_text(bs@),
{
    let (list, any) = bound_list(bs);
    if any {
        let mut out = String::new();
        out.append(": ");
        out.append(list.as_str());
        out
    } else {
        String::new()
    }
}

/// The strings of a list joined by `sep`.
fn join_strings(v: &Vec<String>, sep: &str) -> (r: String)
    ensures
        r@ == join(views(v@), sep@),
{
    let mut out = String::new();
    let mut i: usize = 0;
    while i < v.len()
        invariant
            i <= v@.len(),
            out@ == join(views(v@.take(i as int)), sep@),
        decreases v@.len() - i,
    {
        assert(views(v@.take(i + 1)) =~= views(v@.take(i as int)).push(v@[i as int]@));
        append_part(&mut out, Ghost(views(v@.take(i as int))), sep, v[i].as_str(), i == 0);
        i += 1;
    }
    assert(v@.take(v@.len() as int) =~= v@);
    out
}

/// Renders a type.
pub fn format_type(t: &Type) -> (r: String)
    ensures
        r@ == type_text(*t),
    decreases t,
{
    let mut out = String::new();
    match t {
        Type::ResolvedPath(name) => out.append(name.as_str()),
        Type::DynTrait(names) => {
            out.append("dyn ");
            let list = join_strings(names, " + ");
            out.append(list.as_str());
        },
        Type::Generic(name) => out.append(name.as_str()),
        Type::Primitive(name) => out.append(name.as_str()),
        Type::FunctionPointer => {
            out.append("<unsupported: ");
            out.append("FunctionPointer");
            out.append(">");
        },
        Type::Tuple(elems) => {
            out.append("(");
            let mut list = String::new();
            let mut i: usize = 0;
            while i < elems.len()
                invariant
                    i <= elems@.len(),
                    list@ == join(type_pieces(elems@.take(i as int)), ", "@),
                    decreases_to!(*t => *elems),
                decreases elems@.len() - i,
            {
                assert(elems@.take(i + 1).drop_last() =~= elems@.take(i as int));
                proof {
                    vstd::std_specs::vec::axiom_vec_index_decreases(*elems, i as int);
                }
                let piece = format_type(&elems[i]);
                append_part(&mut list, Ghost(type_pieces(elems@.take(i as int))), ", ", piece.as_str(), i == 0);
                i += 1;
            }
            assert(elems@.take(elems@.len() as int) =~= elems@);
            out.append(list.as_str());
            out.append(")");
        },
        Type::Slice(inner) => {
            out.append("[");
            let s = format_type(inner);
            out.append(s.as_str());
            out.append("]");
        },
        Type::Array { type_, len } => {
            out.append("[");
            let s = format_type(type_);
            out.append(s.as_str());
            out.append("; ");
            out.append(len.as_str());
            out.append("]");
        },
        Type::ImplTrait(bounds) => {
            out.append("impl ");
            let (list, _) = bound_list(bounds);
            out.append(list.as_str());
        },
        Type::Infer => {
            out.append("<unsupported: ");
            out.append("Infer");
            out.append(">");
        },
        Type::RawPointer { mutable, type_ } => {
            if *mutable {
                out.append("*mut ");
            } else {
                out.append("*const ");
            }
            let s = format_type(type_);
            out.append(s.as_str());
        },
        Type::BorrowedRef { lifetime, mutable, type_ } => {
            out.append("&");
            match lifetime {
                Some(l) => {
                    out.append(l.as_str());
                    out.append(" ");
                },
                None => {},
            }
            if *mutable {
                out.append("mut ");
            }
            let s = format_type(type_);
            out.append(s.as_str());
        },
        Type::QualifiedPath { name, self_type } => {
            let s = format_type(self_type);
            out.append(s.as_str());
            out.append("::");
            out.append(name.as_str());
        },
    }
    out
}

/// Renders the non-lifetime parameters of a list as `<A: Bound = Default,
/// const N: usize>`; a list with none renders as nothing.
pub fn format_generic_params(ps: &Vec<GenericParamDef>) -> (r: String)
    ensures
        r@ == params_text(ps@),
{
    let mut list = String::new();
    let mut any = false;
    let mut i: usize = 0;
    while i < ps.len()
        invariant
            i <= ps@.len(),
            list@ == join(param_pieces(ps@.take(i as int)), ", "@),
            any == (param_pieces(ps@.take(i as int)).len() > 0),
        decreases ps@.len() - i,
    {
        assert(ps@.take(i + 1).drop_last() =~= ps@.take(i as int));
        let p = &ps[i];
        let ghost prev = param_pieces(ps@.take(i as int));
        match &p.kind {
            GenericParamDefKind::Lifetime => {},
            GenericParamDefKind::Type { bounds, default, .. } => {
                let mut piece = String::new();
                piece.append(p.name.as_str());
                let b = format_generic_bounds(bounds);
                piece.append(b.as_str());
                match default {
                    Some(t) => {
                        piece.append(" = ");
                        let d = format_type(t);
                        piece.append(d.as_str());
                    },
                    None => {},
                }
                assert(piece@ =~= p.name@ + bounds_text(bounds@) + match default {
                    Some(t) => " = "@ + type_text(*t),
                    None => Seq::empty(),
                });
                append_part(&mut list, Ghost(prev), ", ", piece.as_str(), !any);
                any = true;
            },
            GenericParamDefKind::Const { type_, default } => {
                let mut piece = String::new();
                piece.append("const ");
                piece.append(p.name.as_str());
                piece.append(": ");
                let ty = format_type(type_);
                piece.append(ty.as_str());
                match default {
                    Some(d) => {
                        piece.append(" = ");
                        piece.append(d.as_str());
                    },
                    None => {},
                }
                assert(piece@ =~= "const "@ + p.name@ + ": "@ + type_text(*type_) + match default {
                    Some(d) => " = "@ + d@,
                    None => Seq::empty(),
                });
                append_part(&mut list, Ghost(prev), ", ", piece.as_str(), !any);
                any = true;
            },
        }
        i += 1;
    }
    assert(ps@.take(ps@.len() as int) =~= ps@);
    if any {
        let mut out = String::new();
        out.append("<");
        out.append(list.as_str());
        out.append(">");
        out
    } else {
        String::new()
    }
}

/// Renders the right-hand side of an equality predicate.
pub fn format_term(t: &Term) -> (r: String)
    ensures
        r@ == term_text(*t),
{
    match t {
        Term::Type(ty) => format_type(ty),
        Term::Constant(expr) => expr.clone(),
    }
}

/// Renders a `where` clause as ` where T: A + B, U = V`; an empty list
/// renders as nothing, and a region predicate as a placeholder.
pub fn format_where_bounds(ws: &Vec<WherePredicate>) -> (r: String)
    ensures
        r@ == where_text(ws@),
{
    if ws.len() == 0 {
        return String::new();
    }
    let mut list = String::new();
    let mut i: usize = 0;
    while i < ws.len()
        invariant
            i <= ws@.len(),
            list@ == join(predicate_pieces(ws@.take(i as int)), ", "@),
        decreases ws@.len() - i,
    {
        assert(ws@.take(i + 1).drop_last() =~= ws@.take(i as int));
        let mut piece = String::new();
        match &ws[i] {
            WherePredicate::BoundPredicate { type_, bounds } => {
                let ty = format_type(type_);
                piece.append(ty.as_str());
                let b = format_generic_bounds(bounds);
                piece.append(b.as_str());
            },
            WherePredicate::RegionPredicate => {
                piece.append("<unsupported: ");
                piece.append("RegionPredicate");
                piece.append(">");
            },
            WherePredicate::EqPredicate { lhs, rhs } => {
                let l = format_type(lhs);
                piece.append(l.as_str());
                piece.append(" = ");
                let r = format_term(rhs);
                piece.append(r.as_str());
            },
        }
        append_part(&mut list, Ghost(predicate_pieces(ws@.take(i as int))), ", ", piece.as_str(), i == 0);
        i += 1;
    }
    assert(ws@.take(ws@.len() as int) =~= ws@);
    let mut out = String::new();
    out.append(" where ");
    out.append(list.as_str());
    out
}

/// Whether a generics clause declares a parameter that is not a lifetime,
/// or a bound predicate.
pub fn contains_generics(g: &Generics) -> (r: bool)
    ensures
        r == generics_used(*g),
{
    let mut i: usize = 0;
    while i < g.params.len()
        invariant
            i <= g.params@.len(),
            forall|k: int| 0 <= k < i ==> #[trigger] g.params@[k].kind is Lifetime,
        decreases g.params@.len() - i,
    {
        if !matches!(g.params[i].kind, GenericParamDefKind::Lifetime) {
            return true;
        }
        i += 1;
    }
    let mut j: usize = 0;
    while j < g.where_predicates.len()
        invariant
            j <= g.where_predicates@.len(),
            forall|k: int| 0 <= k < g.params@.len() ==> #[trigger] g.params@[k].kind is Lifetime,
            forall|k: int| 0 <= k < j ==> !(#[trigger] g.where_predicates@[k] is BoundPredicate),
        decreases g.where_predicates@.len() - j,
    {
        if matches!(g.where_predicates[j], WherePredicate::BoundPredicate { .. }) {
            return true;
        }
        j += 1;
    }
    false
}

pub open spec fn flag_text(flag: bool, text: Seq<char>) -> Seq<char> {
    if flag {
        text
    } else {
        Seq::empty()
    }
}

/// `x: T` for each parameter, in order.
pub open spec fn arg_pieces(ps: Seq<Param>) -> Seq<Seq<char>>
    decreases ps.len(),
{
    if ps.len() == 0 {
        Seq::empty()
    } else {
        arg_pieces(ps.drop_last()).push(ps.last().name@ + ": "@ + type_text(ps.last().type_))
    }
}

/// `const unsafe async fn name<P>(x: T) -> R where W { .. }`, with `;` in
/// place of the body when there is none.
pub open spec fn function_text(name: Seq<char>, f: FunctionDef) -> Seq<char> {
    flag_text(f.is_const, "const "@) + flag_text(f.is_unsafe, "unsafe "@) + flag_text(
        f.is_async,
        "async "@,
    ) + "fn "@ + name + params_text(f.generics.params@) + "("@ + join(arg_pieces(f.inputs@), ", "@)
        + ")"@ + match f.output {
        Some(t) => " -> "@ + type_text(t),
        None => Seq::empty(),
    } + where_text(f.generics.where_predicates@) + if f.has_body {
        " { .. }"@
    } else {
        ";"@
    }
}

/// `unsafe auto trait Name<P>: Bounds where W { }`
pub open spec fn trait_text(name: Seq<char>, t: TraitDef) -> Seq<char> {
    flag_text(t.is_unsafe, "unsafe "@) + flag_text(t.is_auto, "auto "@) + "trait "@ + name
        + params_text(t.generics.params@) + bounds_text(t.bounds@) + where_text(
        t.generics.where_predicates@,
    ) + " { }"@
}

/// `struct Name<P> where W { .. }`
pub open spec fn struct_text(name: Seq<char>, s: StructDef) -> Seq<char> {
    "struct "@ + name + params_text(s.generics.params@) + where_text(s.generics.where_predicates@)
        + " { .. }"@
}

/// `enum Name<P> where W { .. }`
pub open spec fn enum_text(name: Seq<char>, e: EnumDef) -> Seq<char> {
    "enum "@ + name + params_text(e.generics.params@) + where_text(e.generics.where_predicates@)
        + " { .. }"@
}

/// `unsafe impl<P> Trait for Type where W { }`
pub open spec fn impl_text(i: ImplDef) -> Seq<char> {
    flag_text(i.is_unsafe, "unsafe "@) + "impl"@ + params_text(i.generics.params@) + " "@
        + match i.trait_ {
        Some(t) => t.name@ + " for "@,
        None => Seq::empty(),
    } + type_text(i.for_) + where_text(i.generics.where_predicates@) + " { }"@
}

/// Renders a function's declaration.
pub fn format_function(name: &str, f: &FunctionDef) -> (r: String)
    ensures
        r@ == function_text(name@, *f),
{
    let mut out = String::new();
    if f.is_const {
        out.append("const ");
    }
    if f.is_unsafe {
        out.append("unsafe ");
    }
    if f.is_async {
        out.append("async ");
    }
    out.append("fn ");
    out.append(name);
    let params = format_generic_params(&f.generics.params);
    out.append(params.as_str());
    out.append("(");
    let mut args = String::new();
    let mut i: usize = 0;
    while i < f.inputs.len()
        invariant
            i <= f.inputs@.len(),
            args@ == join(arg_pieces(f.inputs@.take(i as int)), ", "@),
        decreases f.inputs@.len() - i,
    {
        assert(f.inputs@.take(i + 1).drop_last() =~= f.inputs@.take(i as int));
        let p = &f.inputs[i];
        let mut piece = String::new();
        piece.append(p.name.as_str());
        piece.append(": ");
        let ty = format_type(&p.type_);
        piece.append(ty.as_str());
        append_part(&mut args, Ghost(arg_pieces(f.inputs@.take(i as int))), ", ", piece.as_str(), i == 0);
        i += 1;
    }
    assert(f.inputs@.take(f.inputs@.len() as int) =~= f.inputs@);
    out.append(args.as_str());
    out.append(")");
    match &f.output {
        Some(t) => {
            out.append(" -> ");
            let ty = format_type(t);
            out.append(ty.as_str());
        },
        None => {},
    }
    let w = format_where_bounds(&f.generics.where_predicates);
    out.append(w.as_str());
    if f.has_body {
        out.append(" { .. }");
    } else {
        out.append(";");
    }
    assert(out@ =~= function_text(name@, *f));
    out
}

/// Renders a trait's declaration.
pub fn format_trait(name: &str, t: &TraitDef) -> (r: String)
    ensures
        r@ == trait_text(name@, *t),
{
    let mut out = String::new();
    if t.is_unsafe {
        out.append("unsafe ");
    }
    if t.is_auto {
        out.append("auto ");
    }
    out.append("trait ");
    out.append(name);
    let params = format_generic_params(&t.generics.params);
    out.append(params.as_str());
    let bounds = format_generic_bounds(&t.bounds);
    out.append(bounds.as_str());
    let w = format_where_bounds(&t.generics.where_predicates);
    out.append(w.as_str());
    out.append(" { }");
    assert(out@ =~= trait_text(name@, *t));
    out
}

/// Renders a struct's declaration.
pub fn format_struct(name: &str, s: &StructDef) -> (r: String)
    ensures
        r@ == struct_text(name@, *s),
{
    let mut out = String::new();
    out.append("struct ");
    out.append(name);
    let params = format_generic_params(&s.generics.params);
    out.append(params.as_str());
    let w = format_where_bounds(&s.generics.where_predicates);
    out.append(w.as_str());
    out.append(" { .. }");
    out
}

/// Renders an enum's declaration.
pub fn format_enum(name: &str, e: &EnumDef) -> (r: String)
    ensures
        r@ == enum_text(name@, *e),
{
    let mut out = String::new();
    out.append("enum ");
    out.append(name);
    let params = format_generic_params(&e.generics.params);
    out.append(params.as_str());
    let w = format_where_bounds(&e.generics.where_predicates);
    out.append(w.as_str());
    out.append(" { .. }");
    out
}

/// Renders an implementation block's declaration.
pub fn format_impl(i: &ImplDef) -> (r: String)
    ensures
        r@ == impl_text(*i),
{
    let mut out = String::new();
    if i.is_unsafe {
        out.append("unsafe ");
    }
    out.append("impl");
    let params = format_generic_params(&i.generics.params);
    out.append(params.as_str());
    out.append(" ");
    match &i.trait_ {
        Some(t) => {
            out.append(t.name.as_str());
            out.append(" for ");
        },
        None => {},
    }
    let ty = format_type(&i.for_);
    out.append(ty.as_str());
    let w = format_where_bounds(&i.generics.where_predicates);
    out.append(w.as_str());
    out.append(" { }");
    assert(out@ =~= impl_text(*i));
    out
}

} // verus!
