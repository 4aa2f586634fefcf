//! The flat record made for each public item, its stability, and the total
//! order in which records are kept.

use crate::text::{
    compare_text, contains_text, lemma_text_lt_irreflexive, lemma_text_lt_total,
    lemma_text_lt_transitive, occurs_in, text_cmp, text_lt,
};
use std::cmp::Ordering;
use vstd::prelude::*;

verus! {

/// What is the stability of this item?
#[derive(Clone, Copy, Debug, PartialEq, Eq, Structural, Hash)]
pub enum Stability {
    /// The item is stable
    Stable,
    /// The item is unstable
    Unstable,
}

impl Stability {
    /// Returns `true` if the stability is `Stable`.
    pub fn is_stable(&self) -> (r: bool)
        ensures
            r == (*self is Stable),
    {
        matches!(self, Stability::Stable)
    }

    /// Returns `true` if the stability is `Unstable`.
    pub fn is_unstable(&self) -> (r: bool)
        ensures
            r == (*self is Unstable),
    {
        matches!(self, Stability::Unstable)
    }

    /// `"stable"` or `"unstable"`.
    pub fn as_str(&self) -> (r: &'static str)
        ensures
            r@ == stability_name(*self),
    {
        match self {
            Stability::Stable => "stable",
            Stability::Unstable => "unstable",
        }
    }
}

pub open spec fn stability_name(s: Stability) -> Seq<char> {
    match s {
        Stability::Stable => "stable"@,
        Stability::Unstable => "unstable"@,
    }
}

/// An item is stable when one of its attributes holds `#[stable`, and
/// unstable otherwise.
pub open spec fn stability_of(attrs: Seq<String>) -> Stability {
    if exists|i: int| 0 <= i < attrs.len() && occurs_in("#[stable"@, #[trigger] attrs[i]@) {
        Stability::Stable
    } else {
        Stability::Unstable
    }
}

/// Reads an item's stability from its attributes.
pub fn parse_stability(attrs: &Vec<String>) -> (r: Stability)
    ensures
        r == stability_of(attrs@),
{
    let mut i: usize = 0;
    while i < attrs.len()
        invariant
            i <= attrs@.len(),
            forall|k: int| 0 <= k < i ==> !occurs_in("#[stable"@, #[trigger] attrs@[k]@),
        decreases attrs@.len() - i,
    {
        if contains_text(attrs[i].as_str(), "#[stable") {
            return Stability::Stable;
        }
        i += 1;
    }
    Stability::Unstable
}

/// What kind of item a record is for, in the order records are sorted.
#[derive(Clone, Copy, Debug, PartialEq, Eq, Structural, Hash)]
pub enum ItemKind {
    Enum,
    Function,
    Impl,
    Struct,
    Trait,
}

pub open spec fn kind_rank(k: ItemKind) -> int {
    match k {
        ItemKind::Enum => 0,
        ItemKind::Function => 1,
        ItemKind::Impl => 2,
        ItemKind::Struct => 3,
        ItemKind::Trait => 4,
    }
}

pub open spec fn kind_name(k: ItemKind) -> Seq<char> {
    match k {
        ItemKind::Enum => "enum"@,
        ItemKind::Function => "function"@,
        ItemKind::Impl => "impl"@,
        ItemKind::Struct => "struct"@,
        ItemKind::Trait => "trait"@,
    }
}

impl ItemKind {
    /// The kind's name, such as `"trait"`.
    pub fn as_str(&self) -> (r: &'static str)
        ensures
            r@ == kind_name(*self),
    {
        match self {
            ItemKind::Enum => "enum",
            ItemKind::Function => "function",
            ItemKind::Impl => "impl",
            ItemKind::Struct => "struct",
            ItemKind::Trait => "trait",
        }
    }
}

/// The flat record of one public item.
#[derive(Debug, PartialEq, Eq)]
pub struct Item {
    /// What kind of item is this?
    pub kind: ItemKind,
    /// The identifier of its definition in the documentation graph
    pub id: usize,
    /// The name
    pub name: String,
    /// The path without the name
    pub path: String,
    /// The signature of the item
    pub decl: String,
    /// Does this item have generics?
    pub has_generics: bool,
    /// Is this a const item?
    pub is_const: bool,
    /// Is this an async item?
    pub is_async: bool,
    /// What is the stability of this item?
    pub stability: Stability,
    /// How many methods does this item have?
    pub fn_count: usize,
    /// For an implementation block, the path of the implemented trait
    pub target_trait: Option<String>,
    /// For an implementation block, whether the implemented trait lies
    /// outside the graph, so that its stability could not be read
    pub foreign_trait: bool,
}

/// A record's content, with its strings as character sequences.
pub struct ItemView {
    pub kind: ItemKind,
    pub id: usize,
    pub name: Seq<char>,
    pub path: Seq<char>,
    pub decl: Seq<char>,
    pub has_generics: bool,
    pub is_const: bool,
    pub is_async: bool,
    pub stability: Stability,
    pub fn_count: usize,
    pub target_trait: Option<Seq<char>>,
    pub foreign_trait: bool,
}

impl View for Item {
    type V = ItemView;

    open spec fn view(&self) -> ItemView {
        ItemView {
            kind: self.kind,
            id: self.id,
            name: self.name@,
            path: self.path@,
            decl: self.decl@,
            has_generics: self.has_generics,
            is_const: self.is_const,
            is_async: self.is_async,
            stability: self.stability,
            fn_count: self.fn_count,
            target_trait: match self.target_trait {
                Some(t) => Some(t@),
                None => None,
            },
            foreign_trait: self.foreign_trait,
        }
    }
}

impl Item {
    /// A copy of this record.
    pub fn duplicate(&self) -> (r: Item)
        ensures
            r@ == self@,
    {
        Item {
            kind: self.kind,
            id: self.id,
            name: self.name.clone(),
            path: self.path.clone(),
            decl: self.decl.clone(),
            has_generics: self.has_generics,
            is_const: self.is_const,
            is_async: self.is_async,
            stability: self.stability,
            fn_count: self.fn_count,
            target_trait: match &self.target_trait {
                Some(t) => Some(t.clone()),
                None => None,
            },
            foreign_trait: self.foreign_trait,
        }
    }
}

/// The views of a sequence of records.
pub open spec fn item_views(s: Seq<Item>) -> Seq<ItemView> {
    s.map_values(|x: Item| x@)
}

pub open spec fn int_cmp(x: int, y: int) -> Ordering {
    if x < y {
        Ordering::Less
    } else if x == y {
        Ordering::Equal
    } else {
        Ordering::Greater
    }
}

/// Lexicographic combination: `o1`, unless it is `Equal`.
pub open spec fn chain(o1: Ordering, o2: Ordering) -> Ordering {
    if o1 is Equal {
        o2
    } else {
        o1
    }
}

pub open spec fn flag(b: bool) -> int {
    if b {
        1
    } else {
        0
    }
}

pub open spec fn stability_rank(s: Stability) -> int {
    match s {
        Stability::Stable => 0,
        Stability::Unstable => 1,
    }
}

pub open spec fn opt_text(o: Option<Seq<char>>) -> Seq<char> {
    match o {
        Some(t) => t,
        None => Seq::empty(),
    }
}

/// The order of records: by kind, path and name, then by the remaining
/// content, so that only equal records compare equal. The identifier comes
/// last: it only separates records that agree on everything else.
pub open spec fn item_cmp(a: ItemView, b: ItemView) -> Ordering {
    chain(
        int_cmp(kind_rank(a.kind), kind_rank(b.kind)),
        chain(
            text_cmp(a.path, b.path),
            chain(
                text_cmp(a.name, b.name),
                chain(
                    text_cmp(a.decl, b.decl),
                    chain(
                        int_cmp(flag(a.has_generics), flag(b.has_generics)),
                        chain(
                            int_cmp(flag(a.is_const), flag(b.is_const)),
                            chain(
                                int_cmp(flag(a.is_async), flag(b.is_async)),
                                chain(
                                    int_cmp(stability_rank(a.stability), stability_rank(b.stability)),
                                    chain(
                                        int_cmp(a.fn_count as int, b.fn_count as int),
                                        chain(
                                            int_cmp(flag(a.target_trait is Some), flag(b.target_trait is Some)),
                                            chain(
                                                text_cmp(opt_text(a.target_trait), opt_text(b.target_trait)),
                                                chain(
                                                    int_cmp(flag(a.foreign_trait), flag(b.foreign_trait)),
                                                    int_cmp(a.id as int, b.id as int),
                                                ),
                                            ),
                                        ),
                                    ),
                                ),
                            ),
                        ),
                    ),
                ),
            ),
        ),
    )
}

pub open spec fn item_lt(a: ItemView, b: ItemView) -> bool {
    item_cmp(a, b) is Less
}

proof fn lemma_text_cmp_facts(a: Seq<char>, b: Seq<char>)
    ensures
        (text_cmp(a, b) is Equal) <==> a == b,
        (text_cmp(a, b) is Less) <==> (text_cmp(b, a) is Greater),
{
    lemma_text_lt_total(a, b);
    lemma_text_lt_irreflexive(a);
    if text_lt(a, b) && text_lt(b, a) {
        lemma_text_lt_transitive(a, b, a);
    }
}

proof fn lemma_text_cmp_trans(a: Seq<char>, b: Seq<char>, c: Seq<char>)
    ensures
        (text_cmp(a, b) is Less && text_cmp(b, c) is Less) ==> text_cmp(a, c) is Less,
        (text_cmp(a, b) is Less && text_cmp(b, c) is Equal) ==> text_cmp(a, c) is Less,
        (text_cmp(a, b) is Equal && text_cmp(b, c) is Less) ==> text_cmp(a, c) is Less,
{
    lemma_text_cmp_facts(a, b);
    lemma_text_cmp_facts(b, c);
    lemma_text_cmp_facts(a, c);
    if text_lt(a, b) && text_lt(b, c) {
        lemma_text_lt_transitive(a, b, c);
    }
}

/// Only equal records compare equal, and the order is antisymmetric.
pub proof fn lemma_item_cmp_facts(a: ItemView, b: ItemView)
    ensures
        (item_cmp(a, b) is Equal) <==> a == b,
        item_lt(a, b) <==> item_lt(b, a) == false && a != b,
{
    lemma_text_cmp_facts(a.path, b.path);
    lemma_text_cmp_facts(a.name, b.name);
    lemma_text_cmp_facts(a.decl, b.decl);
    lemma_text_cmp_facts(opt_text(a.target_trait), opt_text(b.target_trait));
    lemma_text_cmp_facts(b.path, a.path);
    lemma_text_cmp_facts(b.name, a.name);
    lemma_text_cmp_facts(b.decl, a.decl);
    lemma_text_cmp_facts(opt_text(b.target_trait), opt_text(a.target_trait));
}

/// The order of records is transitive.
pub proof fn lemma_item_lt_transitive(a: ItemView, b: ItemView, c: ItemView)
    requires
        item_lt(a, b),
        item_lt(b, c),
    ensures
        item_lt(a, c),
{
    lemma_item_cmp_facts(a, b);
    lemma_item_cmp_facts(b, c);
    lemma_item_cmp_facts(a, c);
    lemma_text_cmp_trans(a.path, b.path, c.path);
    lemma_text_cmp_trans(a.name, b.name, c.name);
    lemma_text_cmp_trans(a.decl, b.decl, c.decl);
    lemma_text_cmp_trans(opt_text(a.target_trait), opt_text(b.target_trait), opt_text(c.target_trait));
}

fn cmp_int(x: usize, y: usize) -> (r: Ordering)
    ensures
        r == int_cmp(x as int, y as int),
{
    if x < y {
        Ordering::Less
    } else if x == y {
        Ordering::Equal
    } else {
        Ordering::Greater
    }
}

fn cmp_flag(x: bool, y: bool) -> (r: Ordering)
    ensures
        r == int_cmp(flag(x), flag(y)),
{
    if x == y {
        Ordering::Equal
    } else if !x {
        Ordering::Less
    } else {
        Ordering::Greater
    }
}

fn kind_index(k: ItemKind) -> (r: usize)
    ensures
        r as int == kind_rank(k),
{
    match k {
        ItemKind::Enum => 0,
        ItemKind::Function => 1,
        ItemKind::Impl => 2,
        ItemKind::Struct => 3,
        ItemKind::Trait => 4,
    }
}

fn opt_str(o: &Option<String>) -> (r: &str)
    ensures
        r@ == opt_text(match *o {
            Some(t) => Some(t@),
            None => None,
        }),
{
    match o {
        Some(t) => t.as_str(),
        None => {
            proof {
                reveal_strlit("");
            }
            ""
        },
    }
}

/// Compares two records in the order of `item_cmp`.
pub fn cmp_items(a: &Item, b: &Item) -> (r: Ordering)
    ensures
        r == item_cmp(a@, b@),
{
    let o = cmp_int(kind_index(a.kind), kind_index(b.kind));
    if !matches!(o, Ordering::Equal) {
        return o;
    }
    let o = compare_text(a.path.as_str(), b.path.as_str());
    if !matches!(o, Ordering::Equal) {
        return o;
    }
    let o = compare_text(a.name.as_str(), b.name.as_str());
    if !matches!(o, Ordering::Equal) {
        return o;
    }
    let o = compare_text(a.decl.as_str(), b.decl.as_str());
    if !matches!(o, Ordering::Equal) {
        return o;
    }
    let o = cmp_flag(a.has_generics, b.has_generics);
    if !matches!(o, Ordering::Equal) {
        return o;
    }
    let o = cmp_flag(a.is_const, b.is_const);
    if !matches!(o, Ordering::Equal) {
        return o;
    }
    let o = cmp_flag(a.is_async, b.is_async);
    if !matches!(o, Ordering::Equal) {
        return o;
    }
    let o = cmp_flag(a.stability.is_unstable(), b.stability.is_unstable());
    if !matches!(o, Ordering::Equal) {
        return o;
    }
    let o = cmp_int(a.fn_count, b.fn_count);
    if !matches!(o, Ordering::Equal) {
        return o;
    }
    let o = cmp_flag(a.target_trait.is_some(), b.target_trait.is_some());
    if !matches!(o, Ordering::Equal) {
        return o;
    }
    let o = compare_text(opt_str(&a.target_trait), opt_str(&b.target_trait));
    if !matches!(o, Ordering::Equal) {
        return o;
    }
    let o = cmp_flag(a.foreign_trait, b.foreign_trait);
    if !matches!(o, Ordering::Equal) {
        return o;
    }
    cmp_int(a.id, b.id)
}

/// Each record of `s` comes before every later one, so no two are equal.
pub open spec fn strictly_sorted(s: Seq<ItemView>) -> bool {
    forall|i: int, j: int| 0 <= i < j < s.len() ==> item_lt(#[trigger] s[i], #[trigger] s[j])
}

pub proof fn lemma_concat_to_set<A>(s: Seq<A>, t: Seq<A>)
    ensures
        (s + t).to_set() == s.to_set().union(t.to_set()),
{
    assert forall|x: A| (s + t).contains(x) implies s.contains(x) || t.contains(x) by {
        let k = choose|k: int| 0 <= k < (s + t).len() && (s + t)[k] == x;
        if k < s.len() {
            assert(s[k] == x);
        } else {
            assert(t[k - s.len()] == x);
        }
    }
    assert forall|x: A| s.contains(x) implies (s + t).contains(x) by {
        let k = choose|k: int| 0 <= k < s.len() && s[k] == x;
        assert((s + t)[k] == x);
    }
    assert forall|x: A| t.contains(x) implies (s + t).contains(x) by {
        let k = choose|k: int| 0 <= k < t.len() && t[k] == x;
        assert((s + t)[k + s.len()] == x);
    }
    assert((s + t).to_set() =~= s.to_set().union(t.to_set()));
}

proof fn lemma_push_to_set<A>(s: Seq<A>, x: A)
    ensures
        s.push(x).to_set() == s.to_set().insert(x),
{
    lemma_concat_to_set(s, seq![x]);
    assert(s.push(x) =~= s + seq![x]);
    assert forall|y: A| seq![x].contains(y) <==> y == x by {
        if y == x {
            assert(seq![x][0] == x);
        }
    }
    assert(seq![x].to_set() =~= set![x]);
    assert(s.to_set().union(set![x]) =~= s.to_set().insert(x));
}

/// Merges two strictly sorted runs into one, keeping one of each pair of
/// equal records.
fn merge(a: Vec<Item>, b: Vec<Item>) -> (r: Vec<Item>)
    requires
        strictly_sorted(item_views(a@)),
        strictly_sorted(item_views(b@)),
    ensures
        strictly_sorted(item_views(r@)),
        item_views(r@).to_set() == item_views(a@).to_set().union(item_views(b@).to_set()),
{
    let ghost va = item_views(a@);
    let ghost vb = item_views(b@);
    let mut out: Vec<Item> = Vec::new();
    let mut i: usize = 0;
    let mut j: usize = 0;
    assert(va.take(0).to_set() =~= Set::empty());
    assert(vb.take(0).to_set() =~= Set::empty());
    assert(item_views(out@).to_set() =~= Set::empty());
    while i < a.len() || j < b.len()
        invariant
            va == item_views(a@),
            vb == item_views(b@),
            strictly_sorted(va),
            strictly_sorted(vb),
            i <= a@.len(),
            j <= b@.len(),
            strictly_sorted(item_views(out@)),
            forall|k: int|
                0 <= k < out@.len() ==> (i < a@.len() ==> item_lt(#[trigger] out@[k]@, a@[i as int]@)),
            forall|k: int|
                0 <= k < out@.len() ==> (j < b@.len() ==> item_lt(#[trigger] out@[k]@, b@[j as int]@)),
            item_views(out@).to_set() == va.take(i as int).to_set().union(vb.take(j as int).to_set()),
        decreases a@.len() + b@.len() - i - j,
    {
        let ghost old_out = out@;
        let o = if i < a.len() && j < b.len() {
            cmp_items(&a[i], &b[j])
        } else if i < a.len() {
            Ordering::Less
        } else {
            Ordering::Greater
        };
        if matches!(o, Ordering::Greater) {
            let y = b[j].duplicate();
            proof {
                if i < a@.len() {
                    assert(va[i as int] == a@[i as int]@);
                    lemma_item_cmp_facts(a@[i as int]@, b@[j as int]@);
                }
                assert forall|k: int| 0 <= k < old_out.len() && j + 1 < b@.len() implies item_lt(
                    #[trigger] old_out[k]@,
                    b@[j + 1]@,
                ) by {
                    assert(vb[j as int] == b@[j as int]@ && vb[j + 1] == b@[j + 1]@);
                    lemma_item_lt_transitive(old_out[k]@, b@[j as int]@, b@[j + 1]@);
                }
                assert(vb[j as int] == b@[j as int]@);
                if j + 1 < b@.len() {
                    assert(vb[j + 1] == b@[j + 1]@);
                }
                assert(vb.take(j + 1) =~= vb.take(j as int).push(vb[j as int]));
                lemma_push_to_set(vb.take(j as int), vb[j as int]);
                lemma_push_to_set(item_views(old_out), y@);
                assert(item_views(old_out.push(y)) =~= item_views(old_out).push(y@));
            }
            out.push(y);
            j += 1;
        } else {
            let y = a[i].duplicate();
            proof {
                assert(va[i as int] == a@[i as int]@);
                if j < b@.len() {
                    lemma_item_cmp_facts(a@[i as int]@, b@[j as int]@);
                    assert(vb[j as int] == b@[j as int]@);
                    if j + 1 < b@.len() {
                        assert(vb[j + 1] == b@[j + 1]@);
                    }
                }
                assert forall|k: int| 0 <= k < old_out.len() && i + 1 < a@.len() implies item_lt(
                    #[trigger] old_out[k]@,
                    a@[i + 1]@,
                ) by {
                    assert(va[i + 1] == a@[i + 1]@);
                    lemma_item_lt_transitive(old_out[k]@, a@[i as int]@, a@[i + 1]@);
                }
                if i + 1 < a@.len() {
                    assert(va[i + 1] == a@[i + 1]@);
                }
                assert(va.take(i + 1) =~= va.take(i as int).push(va[i as int]));
                lemma_push_to_set(va.take(i as int), va[i as int]);
                lemma_push_to_set(item_views(old_out), y@);
                assert(item_views(old_out.push(y)) =~= item_views(old_out).push(y@));
                if matches!(o, Ordering::Equal) {
                    assert forall|k: int| 0 <= k < old_out.len() && j + 1 < b@.len() implies item_lt(
                        #[trigger] old_out[k]@,
                        b@[j + 1]@,
                    ) by {
                        lemma_item_lt_transitive(old_out[k]@, b@[j as int]@, b@[j + 1]@);
                    }
                    assert(vb.take(j + 1) =~= vb.take(j as int).push(vb[j as int]));
                    lemma_push_to_set(vb.take(j as int), vb[j as int]);
                }
            }
            out.push(y);
            i += 1;
            if matches!(o, Ordering::Equal) {
                j += 1;
            }
        }
    }
    assert(va.take(a@.len() as int) =~= va);
    assert(vb.take(b@.len() as int) =~= vb);
    out
}

/// Sorts records into the order of `item_cmp`, keeping one of each group of
/// equal records.
pub fn sort_dedup(v: Vec<Item>) -> (r: Vec<Item>)
    ensures
        strictly_sorted(item_views(r@)),
        item_views(r@).to_set() == item_views(v@).to_set(),
    decreases v@.len(),
{
    let n = v.len();
    if n <= 1 {
        return v;
    }
    let mut left = v;
    let right = left.split_off(n / 2);
    proof {
        assert(item_views(v@) =~= item_views(left@) + item_views(right@));
        lemma_concat_to_set(item_views(left@), item_views(right@));
    }
    let a = sort_dedup(left);
    let b = sort_dedup(right);
    merge(a, b)
}

/// Two strictly sorted sequences that hold the same records are equal.
pub proof fn lemma_sorted_unique(s: Seq<ItemView>, t: Seq<ItemView>)
    requires
        strictly_sorted(s),
        strictly_sorted(t),
        s.to_set() == t.to_set(),
    ensures
        s == t,
    decreases s.len(),
{
    if s.len() == 0 {
        if t.len() > 0 {
            assert(t.to_set().contains(t[0]));
        }
        assert(s =~= t);
    } else {
        assert(s.to_set().contains(s[0]));
        if t.len() == 0 {
            assert(t.to_set().contains(s[0]));
        }
        assert(t.to_set().contains(t[0]));
        let j = choose|j: int| 0 <= j < t.len() && t[j] == s[0];
        let i = choose|i: int| 0 <= i < s.len() && s[i] == t[0];
        if i > 0 && j > 0 {
            lemma_item_lt_transitive(s[0], t[0], s[0]);
            lemma_item_cmp_facts(s[0], s[0]);
        }
        assert(s[0] == t[0]);
        let s1 = s.drop_first();
        let t1 = t.drop_first();
        assert forall|x: ItemView| s1.contains(x) <==> t1.contains(x) by {
            if s1.contains(x) {
                let k = choose|k: int| 0 <= k < s1.len() && s1[k] == x;
                assert(s[k + 1] == x);
                assert(s.to_set().contains(x));
                let m = choose|m: int| 0 <= m < t.len() && t[m] == x;
                lemma_item_cmp_facts(s[0], x);
                if m == 0 {
                    assert(item_lt(s[0], s[k + 1]));
                }
                assert(t1[m - 1] == x);
            }
            if t1.contains(x) {
                let k = choose|k: int| 0 <= k < t1.len() && t1[k] == x;
                assert(t[k + 1] == x);
                assert(t.to_set().contains(x));
                let m = choose|m: int| 0 <= m < s.len() && s[m] == x;
                lemma_item_cmp_facts(t[0], x);
                if m == 0 {
                    assert(item_lt(t[0], t[k + 1]));
                }
                assert(s1[m - 1] == x);
            }
        }
        assert(s1.to_set() =~= t1.to_set());
        lemma_sorted_unique(s1, t1);
        assert forall|k: int| 0 <= k < s.len() implies s[k] == t[k] by {
            if k > 0 {
                assert(s[k] == s1[k - 1]);
                assert(t[k] == t1[k - 1]);
            }
        }
        assert(s =~= t);
    }
}

} // verus!
