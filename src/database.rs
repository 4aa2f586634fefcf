//! The index over a documentation graph, and the resolver that follows
//! re-exports to the definition behind an identifier.

use crate::model::{Definition, Node};
use crate::text::{
    compare_text, lemma_text_lt_asymmetric, lemma_text_lt_irreflexive, lemma_text_lt_total,
    lemma_text_lt_transitive, text_lt,
};
use std::cmp::Ordering;
use vstd::prelude::*;

verus! {

/// The kinds of definition that a lookup can ask for.
#[derive(Clone, Copy, Debug, PartialEq, Eq, Structural)]
pub enum Kind {
    Trait,
    Struct,
    Enum,
    Function,
    Impl,
}

pub open spec fn is_kind(d: Definition, k: Kind) -> bool {
    match k {
        Kind::Trait => d is Trait,
        Kind::Struct => d is Struct,
        Kind::Enum => d is Enum,
        Kind::Function => d is Function,
        Kind::Impl => d is Impl,
    }
}

/// A read-only index over a documentation graph: the definition behind each
/// identifier and the canonical path of each identifier, both by position.
#[derive(Debug)]
pub struct Database {
    pub nodes: Vec<Option<Node>>,
    pub paths: Vec<Option<String>>,
}


/// A sequence of distinct identifiers below `n` has at most `n` entries.
proof fn lemma_distinct_bounded(s: Seq<usize>, n: nat)
    requires
        s.no_duplicates(),
        forall|i: int| 0 <= i < s.len() ==> s[i] < n,
    ensures
        s.len() <= n,
    decreases n,
{
    if n == 0 {
        if s.len() > 0 {
            assert(s[0] < n);
        }
    } else if exists|j: int| 0 <= j < s.len() && s[j] == n - 1 {
        let j = choose|j: int| 0 <= j < s.len() && s[j] == n - 1;
        let t = s.remove(j);
        assert forall|a: int, b: int| 0 <= a < t.len() && 0 <= b < t.len() && a != b implies t[a]
            != t[b] by {
            let sa = if a < j { a } else { a + 1 };
            let sb = if b < j { b } else { b + 1 };
            assert(t[a] == s[sa] && t[b] == s[sb]);
        }
        assert forall|i: int| 0 <= i < t.len() implies t[i] < n - 1 by {
            let si = if i < j { i } else { i + 1 };
            assert(t[i] == s[si]);
            assert(si != j);
        }
        lemma_distinct_bounded(t, (n - 1) as nat);
    } else {
        lemma_distinct_bounded(s, (n - 1) as nat);
    }
}

fn contains_id(v: &Vec<usize>, x: usize) -> (r: bool)
    ensures
        r == v@.contains(x),
{
    let mut i: usize = 0;
    while i < v.len()
        invariant
            i <= v@.len(),
            forall|k: int| 0 <= k < i ==> v@[k] != x,
        decreases v@.len() - i,
    {
        if v[i] == x {
            return true;
        }
        i += 1;
    }
    false
}

fn matches_kind(d: &Definition, kind: Kind) -> (r: bool)
    ensures
        r == is_kind(*d, kind),
{
    match kind {
        Kind::Trait => matches!(d, Definition::Trait(_)),
        Kind::Struct => matches!(d, Definition::Struct(_)),
        Kind::Enum => matches!(d, Definition::Enum(_)),
        Kind::Function => matches!(d, Definition::Function(_)),
        Kind::Impl => matches!(d, Definition::Impl(_)),
    }
}

impl Database {
    proof fn lemma_walk_none_stays(&self, id: usize, k: nat, k2: nat)
        requires
            self.walk(id, k) is None,
            k <= k2,
        ensures
            self.walk(id, k2) is None,
        decreases k2 - k,
    {
        if k < k2 {
            self.lemma_walk_none_stays(id, k, (k2 - 1) as nat);
        }
    }

    /// A walk that meets a concrete definition stops there.
    proof fn lemma_ends_unique(&self, id: usize, t1: usize, t2: usize)
        requires
            self.ends_at(id, t1),
            self.ends_at(id, t2),
        ensures
            t1 == t2,
    {
        let k1 = choose|k: nat| #[trigger] self.walk(id, k) == Some(t1) && self.is_concrete(t1);
        let k2 = choose|k: nat| #[trigger] self.walk(id, k) == Some(t2) && self.is_concrete(t2);
        if k1 < k2 {
            assert(self.walk(id, k1 + 1) is None);
            self.lemma_walk_none_stays(id, k1 + 1, k2);
        } else if k2 < k1 {
            assert(self.walk(id, k2 + 1) is None);
            self.lemma_walk_none_stays(id, k2 + 1, k1);
        }
    }

    /// A walk whose steps up to `len` pass only re-exports, and which cannot
    /// go on from the identifier at `len`, ends nowhere but possibly there.
    proof fn lemma_broken_chain(&self, id: usize, len: nat, cur: usize, kind: Kind)
        requires
            forall|i: nat| i < len ==> ((#[trigger] self.walk(id, i)) matches Some(x) && !self.is_concrete(x)),
            self.walk(id, len) == Some(cur),
            self.alias_target(cur) is None,
            !(self.is_concrete(cur) && is_kind(self.node(cur)->0.def, kind)),
        ensures
            self.resolved(id, kind) is None,
    {
        if exists|t: usize| self.ends_at(id, t) && is_kind(self.node(t)->0.def, kind) {
            let t = choose|t: usize| self.ends_at(id, t) && is_kind(self.node(t)->0.def, kind);
            let k = choose|k: nat| #[trigger] self.walk(id, k) == Some(t) && self.is_concrete(t);
            if k > len {
                assert(self.walk(id, len + 1) is None);
                self.lemma_walk_none_stays(id, len + 1, k);
            }
        }
    }

    /// A walk that comes back to an identifier it has passed only ever
    /// passes re-exports.
    proof fn lemma_cycle_stays(&self, id: usize, vis: Seq<usize>, cur: usize, k: nat)
        requires
            forall|i: int| 0 <= i < vis.len() ==> self.walk(id, i as nat) == Some(#[trigger] vis[i]),
            self.walk(id, vis.len()) == Some(cur),
            self.alias_target(cur) matches Some(t) && (t == cur || vis.contains(t)),
        ensures
            self.walk(id, k) matches Some(x) && (x == cur || vis.contains(x)),
        decreases k,
    {
        if k <= vis.len() {
            if k < vis.len() {
                assert(vis[k as int] == self.walk(id, k)->0);
            }
        } else {
            self.lemma_cycle_stays(id, vis, cur, (k - 1) as nat);
            let x = self.walk(id, (k - 1) as nat)->0;
            if x != cur {
                let i = choose|i: int| 0 <= i < vis.len() && vis[i] == x;
                assert(self.walk(id, (i + 1) as nat) == self.alias_target(x));
                if i + 1 < vis.len() {
                    assert(vis[i + 1] == self.walk(id, (i + 1) as nat)->0);
                }
            }
        }
    }
}

impl Database {
    /// The definition behind `id`, if there is one.
    pub open spec fn node(&self, id: usize) -> Option<Node> {
        if id < self.nodes@.len() {
            self.nodes@[id as int]
        } else {
            None
        }
    }

    /// The canonical path of `id`, if it has one.
    pub open spec fn path_of(&self, id: usize) -> Option<Seq<char>> {
        if id < self.paths@.len() {
            match self.paths@[id as int] {
                Some(p) => Some(p@),
                None => None,
            }
        } else {
            None
        }
    }

    /// Where the re-export `id` points, if `id` is a re-export with a target.
    pub open spec fn alias_target(&self, id: usize) -> Option<usize> {
        match self.node(id) {
            Some(n) => match n.def {
                Definition::Import(t) => t,
                _ => None,
            },
            None => None,
        }
    }

    /// The identifier reached from `id` after `k` re-export steps.
    pub open spec fn walk(&self, id: usize, k: nat) -> Option<usize>
        decreases k,
    {
        if k == 0 {
            Some(id)
        } else {
            match self.walk(id, (k - 1) as nat) {
                Some(x) => self.alias_target(x),
                None => None,
            }
        }
    }

    /// `id` names a definition that is not a re-export.
    pub open spec fn is_concrete(&self, id: usize) -> bool {
        &&& self.node(id) is Some
        &&& !(self.node(id)->0.def is Import)
    }

    /// Following re-exports from `id` ends at the concrete definition `t`.
    pub open spec fn ends_at(&self, id: usize, t: usize) -> bool {
        exists|k: nat| #[trigger] self.walk(id, k) == Some(t) && self.is_concrete(t)
    }

    /// The definition of kind `kind` that `id` stands for, directly or
    /// through re-exports; `None` when the chain is broken, cycles, or ends
    /// at a definition of another kind.
    pub open spec fn resolved(&self, id: usize, kind: Kind) -> Option<usize> {
        if exists|t: usize| self.ends_at(id, t) && is_kind(self.node(t)->0.def, kind) {
            Some(choose|t: usize| self.ends_at(id, t) && is_kind(self.node(t)->0.def, kind))
        } else {
            None
        }
    }

    /// The identifiers of `ids` that resolve to kind `kind`, resolved, in
    /// order; the others are left out.
    pub open spec fn resolved_all(&self, ids: Seq<usize>, kind: Kind) -> Seq<usize>
        decreases ids.len(),
    {
        if ids.len() == 0 {
            Seq::empty()
        } else {
            let prev = self.resolved_all(ids.drop_last(), kind);
            match self.resolved(ids.last(), kind) {
                Some(t) => prev.push(t),
                None => prev,
            }
        }
    }

    pub fn new(nodes: Vec<Option<Node>>, paths: Vec<Option<String>>) -> (r: Self)
        ensures
            r.nodes == nodes,
            r.paths == paths,
    {
        Database { nodes, paths }
    }

    /// The definition behind `id`.
    pub fn find_item(&self, id: usize) -> (r: Option<&Node>)
        ensures
            match r {
                Some(n) => self.node(id) == Some(*n),
                None => self.node(id) is None,
            },
    {
        if id < self.nodes.len() {
            match &self.nodes[id] {
                Some(n) => Some(n),
                None => None,
            }
        } else {
            None
        }
    }

    /// The canonical path of `id`.
    pub fn find_path(&self, id: usize) -> (r: Option<&String>)
        ensures
            match r {
                Some(p) => self.path_of(id) == Some(p@),
                None => self.path_of(id) is None,
            },
    {
        if id < self.paths.len() {
            match &self.paths[id] {
                Some(p) => Some(p),
                None => None,
            }
        } else {
            None
        }
    }
}

impl Database {
    /// Resolves `id` to a definition of kind `kind`, following re-exports.
    /// The identifiers passed are remembered, so that a chain of re-exports
    /// that comes back on itself ends as unresolved.
    pub fn resolve(&self, id: usize, kind: Kind) -> (r: Option<usize>)
        ensures
            r == self.resolved(id, kind),
    {
        let mut cur = id;
        let mut visited: Vec<usize> = Vec::new();
        loop
            invariant
                self.walk(id, visited@.len()) == Some(cur),
                forall|i: int|
                    0 <= i < visited@.len() ==> self.walk(id, i as nat) == Some(#[trigger] visited@[i]),
                forall|i: int|
                    0 <= i < visited@.len() ==> ((#[trigger] self.node(visited@[i])) matches Some(n)
                        && n.def is Import),
                visited@.no_duplicates(),
                !visited@.contains(cur),
            decreases self.nodes@.len() - visited@.len(),
        {
            assert forall|i: nat| i < visited@.len() implies ((#[trigger] self.walk(id, i)) matches Some(
                x,
            ) && !self.is_concrete(x)) by {
                assert(self.walk(id, i) == Some(visited@[i as int]));
                assert(self.node(visited@[i as int]) is Some);
            }
            match self.find_item(cur) {
                None => {
                    proof {
                        self.lemma_broken_chain(id, visited@.len(), cur, kind);
                    }
                    return None;
                },
                Some(n) => {
                    match &n.def {
                        Definition::Import(Some(t)) => {
                            let t = *t;
                            if t == cur || contains_id(&visited, t) {
                                proof {
                                    if exists|x: usize|
                                        self.ends_at(id, x) && is_kind(self.node(x)->0.def, kind) {
                                        let x = choose|x: usize|
                                            self.ends_at(id, x) && is_kind(self.node(x)->0.def, kind);
                                        let k = choose|k: nat|
                                            #[trigger] self.walk(id, k) == Some(x) && self.is_concrete(x);
                                        self.lemma_cycle_stays(id, visited@, cur, k);
                                        if x != cur {
                                            let i = choose|i: int| 0 <= i < visited@.len() && visited@[i] == x;
                                            assert(self.node(visited@[i]) is Some);
                                        }
                                    }
                                }
                                return None;
                            }
                            proof {
                                assert forall|i: int| 0 <= i < visited@.len() implies visited@[i]
                                    < self.nodes@.len() by {
                                    assert(self.node(visited@[i]) is Some);
                                }
                                lemma_distinct_bounded(visited@.push(cur), self.nodes@.len());
                            }
                            visited.push(cur);
                            cur = t;
                        },
                        Definition::Import(None) => {
                            proof {
                                self.lemma_broken_chain(id, visited@.len(), cur, kind);
                            }
                            return None;
                        },
                        d => {
                            proof {
                                assert(self.is_concrete(cur));
                                assert(self.ends_at(id, cur));
                            }
                            if matches_kind(d, kind) {
                                proof {
                                    let c = choose|t: usize|
                                        self.ends_at(id, t) && is_kind(self.node(t)->0.def, kind);
                                    self.lemma_ends_unique(id, c, cur);
                                }
                                return Some(cur);
                            } else {
                                proof {
                                    if exists|t: usize|
                                        self.ends_at(id, t) && is_kind(self.node(t)->0.def, kind) {
                                        let c = choose|t: usize|
                                            self.ends_at(id, t) && is_kind(self.node(t)->0.def, kind);
                                        self.lemma_ends_unique(id, c, cur);
                                    }
                                }
                                return None;
                            }
                        },
                    }
                },
            }
        }
    }

    /// Resolves each identifier of `ids` to kind `kind`, keeping in order
    /// the ones that resolve.
    pub fn find_all(&self, ids: &[usize], kind: Kind) -> (r: Vec<usize>)
        ensures
            r@ == self.resolved_all(ids@, kind),
    {
        let mut out: Vec<usize> = Vec::new();
        let mut i: usize = 0;
        while i < ids.len()
            invariant
                i <= ids@.len(),
                out@ == self.resolved_all(ids@.take(i as int), kind),
            decreases ids@.len() - i,
        {
            assert(ids@.take(i + 1).drop_last() =~= ids@.take(i as int));
            match self.resolve(ids[i], kind) {
                Some(t) => out.push(t),
                None => {},
            }
            i += 1;
        }
        assert(ids@.take(ids@.len() as int) =~= ids@);
        out
    }

    /// The traits that `ids` stand for.
    pub fn find_traits(&self, ids: &[usize]) -> (r: Vec<usize>)
        ensures
            r@ == self.resolved_all(ids@, Kind::Trait),
    {
        self.find_all(ids, Kind::Trait)
    }

    /// The functions that `ids` stand for.
    pub fn find_functions(&self, ids: &[usize]) -> (r: Vec<usize>)
        ensures
            r@ == self.resolved_all(ids@, Kind::Function),
    {
        self.find_all(ids, Kind::Function)
    }

    /// The structs that `ids` stand for.
    pub fn find_structs(&self, ids: &[usize]) -> (r: Vec<usize>)
        ensures
            r@ == self.resolved_all(ids@, Kind::Struct),
    {
        self.find_all(ids, Kind::Struct)
    }

    /// The enums that `ids` stand for.
    pub fn find_enums(&self, ids: &[usize]) -> (r: Vec<usize>)
        ensures
            r@ == self.resolved_all(ids@, Kind::Enum),
    {
        self.find_all(ids, Kind::Enum)
    }

    /// The implementation blocks that `ids` stand for.
    pub fn find_impls(&self, ids: &[usize]) -> (r: Vec<usize>)
        ensures
            r@ == self.resolved_all(ids@, Kind::Impl),
    {
        self.find_all(ids, Kind::Impl)
    }
}

impl Database {
    proof fn lemma_walk_shift(&self, id: usize, n: nat, k: nat)
        requires
            self.walk(id, n) == Some(id),
        ensures
            self.walk(id, k + n) == self.walk(id, k),
        decreases k,
    {
        if k > 0 {
            self.lemma_walk_shift(id, n, (k - 1) as nat);
            assert(((k - 1) as nat + n) + 1 == k + n);
        }
    }

    proof fn lemma_cycle_never_concrete(&self, id: usize, n: nat, k: nat)
        requires
            n > 0,
            self.walk(id, n) == Some(id),
        ensures
            (self.walk(id, k)) matches Some(x) && !self.is_concrete(x),
        decreases k,
    {
        if k < n {
            if self.walk(id, k + 1) is None {
                self.lemma_walk_none_stays(id, k + 1, n);
            }
        } else {
            self.lemma_walk_shift(id, n, (k - n) as nat);
            self.lemma_cycle_never_concrete(id, n, (k - n) as nat);
        }
    }
}

/// A chain of `n` re-exports from `id` that ends at a definition of the
/// requested kind resolves to that definition.
pub proof fn lemma_alias_chain_resolves(db: &Database, id: usize, n: nat, kind: Kind)
    requires
        db.walk(id, n) matches Some(t) && db.is_concrete(t) && is_kind(db.node(t)->0.def, kind),
    ensures
        db.resolved(id, kind) == db.walk(id, n),
{
    let t = db.walk(id, n)->0;
    assert(db.ends_at(id, t));
    let c = choose|x: usize| db.ends_at(id, x) && is_kind(db.node(x)->0.def, kind);
    db.lemma_ends_unique(id, c, t);
}

/// A chain of re-exports that comes back to where it started resolves to
/// nothing, whatever kind is asked for.
pub proof fn lemma_alias_cycle_unresolved(db: &Database, id: usize, n: nat, kind: Kind)
    requires
        n > 0,
        db.walk(id, n) == Some(id),
    ensures
        db.resolved(id, kind) is None,
{
    if exists|t: usize| db.ends_at(id, t) && is_kind(db.node(t)->0.def, kind) {
        let t = choose|t: usize| db.ends_at(id, t) && is_kind(db.node(t)->0.def, kind);
        let k = choose|k: nat| #[trigger] db.walk(id, k) == Some(t) && db.is_concrete(t);
        db.lemma_cycle_never_concrete(id, n, k);
    }
}

impl Database {
    /// Every identifier that a lookup resolves to has a definition of the
    /// kind asked for.
    pub proof fn lemma_resolved_all_kind(&self, ids: Seq<usize>, kind: Kind)
        ensures
            forall|i: int|
                0 <= i < self.resolved_all(ids, kind).len() ==> ((#[trigger] self.node(
                    self.resolved_all(ids, kind)[i],
                )) matches Some(n) && is_kind(n.def, kind)),
        decreases ids.len(),
    {
        if ids.len() > 0 {
            self.lemma_resolved_all_kind(ids.drop_last(), kind);
            if self.resolved(ids.last(), kind) is Some {
                let t = self.resolved(ids.last(), kind)->0;
                assert(self.ends_at(ids.last(), t) && is_kind(self.node(t)->0.def, kind));
            }
        }
    }
}

/// `a` comes no later than `b` in path order.
pub open spec fn text_le(a: Seq<char>, b: Seq<char>) -> bool {
    !text_lt(b, a)
}

proof fn lemma_lt_le_lt(a: Seq<char>, b: Seq<char>, c: Seq<char>)
    requires
        text_lt(a, b),
        text_le(b, c),
    ensures
        text_lt(a, c),
{
    lemma_text_lt_total(b, c);
    if text_lt(b, c) {
        lemma_text_lt_transitive(a, b, c);
    }
}

impl Database {
    /// `id` is a module with a canonical path.
    pub open spec fn is_listed_module(&self, id: usize) -> bool {
        &&& self.node(id) matches Some(n)
        &&& n.def is Module
        &&& self.path_of(id) is Some
    }

    /// The identifiers of all modules that have a canonical path, each once,
    /// ordered by path.
    pub fn modules(&self) -> (r: Vec<usize>)
        ensures
            forall|x: usize|
                #![trigger r@.contains(x)]
                #![trigger self.is_listed_module(x)]
                r@.contains(x) <==> self.is_listed_module(x),
            r@.no_duplicates(),
            forall|i: int, j: int|
                0 <= i < j < r@.len() ==> text_le(
                    self.path_of(#[trigger] r@[i])->0,
                    self.path_of(#[trigger] r@[j])->0,
                ),
    {
        let mut out: Vec<usize> = Vec::new();
        let mut id: usize = 0;
        while id < self.nodes.len()
            invariant
                id <= self.nodes@.len(),
                forall|x: usize|
                    #![trigger out@.contains(x)]
                    #![trigger self.is_listed_module(x)]
                    out@.contains(x) <==> (x < id && self.is_listed_module(x)),
                out@.no_duplicates(),
                forall|i: int, j: int|
                    0 <= i < j < out@.len() ==> text_le(
                        self.path_of(#[trigger] out@[i])->0,
                        self.path_of(#[trigger] out@[j])->0,
                    ),
            decreases self.nodes@.len() - id,
        {
            let listed = match &self.nodes[id] {
                Some(n) => matches!(n.def, Definition::Module(_)) && self.find_path(id).is_some(),
                None => false,
            };
            if listed {
                let p = self.find_path(id).unwrap();
                let mut pos: usize = 0;
                while pos < out.len()
                    invariant
                        pos <= out@.len(),
                        forall|k: int| 0 <= k < pos ==> text_le(
                            self.path_of(#[trigger] out@[k])->0,
                            p@,
                        ),
                        forall|x: usize| out@.contains(x) ==> self.is_listed_module(x),
                    ensures
                        pos <= out@.len(),
                        forall|k: int| 0 <= k < pos ==> text_le(
                            self.path_of(#[trigger] out@[k])->0,
                            p@,
                        ),
                        pos < out@.len() ==> text_lt(p@, self.path_of(out@[pos as int])->0),
                    decreases out@.len() - pos,
                {
                    assert(out@.contains(out@[pos as int]));
                    assert(self.is_listed_module(out@[pos as int]));
                    let q = self.find_path(out[pos]).unwrap();
                    let c = compare_text(p.as_str(), q.as_str());
                    if matches!(c, Ordering::Less) {
                        break;
                    }
                    proof {
                        lemma_text_lt_irreflexive(p@);
                    }
                    pos += 1;
                }
                let ghost old_out = out@;
                proof {
                    assert forall|k: int| pos <= k < old_out.len() implies text_lt(
                        p@,
                        self.path_of(#[trigger] old_out[k])->0,
                    ) by {
                        if k > pos {
                            lemma_lt_le_lt(
                                p@,
                                self.path_of(old_out[pos as int])->0,
                                self.path_of(old_out[k])->0,
                            );
                        }
                    }
                }
                out.insert(pos, id);
                proof {
                    assert forall|x: usize|
                        #![trigger out@.contains(x)]
                        #![trigger self.is_listed_module(x)]
                        out@.contains(x) <==> (x < id + 1 && self.is_listed_module(x)) by {
                        if out@.contains(x) {
                            let k = choose|k: int| 0 <= k < out@.len() && out@[k] == x;
                            if k < pos {
                                assert(old_out[k] == x);
                                assert(old_out.contains(x));
                            } else if k > pos {
                                assert(old_out[k - 1] == x);
                                assert(old_out.contains(x));
                            }
                        }
                        if x < id && self.is_listed_module(x) {
                            assert(old_out.contains(x));
                            let k = choose|k: int| 0 <= k < old_out.len() && old_out[k] == x;
                            if k < pos {
                                assert(out@[k] == x);
                            } else {
                                assert(out@[k + 1] == x);
                            }
                        }
                        if x == id {
                            assert(out@[pos as int] == x);
                        }
                        if x < id + 1 && self.is_listed_module(x) {
                            assert(out@.contains(x));
                        }
                        if out@.contains(x) {
                            assert(x < id + 1 && self.is_listed_module(x));
                        }
                    }
                    assert forall|i: int, j: int| 0 <= i < j < out@.len() implies out@[i] != out@[j] by {
                        let oi = if i < pos { i } else { i - 1 };
                        let oj = if j < pos { j } else { j - 1 };
                        if i != pos && j != pos {
                            assert(out@[i] == old_out[oi] && out@[j] == old_out[oj]);
                        } else if i == pos {
                            assert(out@[j] == old_out[oj]);
                            assert(old_out.contains(out@[j]));
                        } else {
                            assert(out@[i] == old_out[oi]);
                            assert(old_out.contains(out@[i]));
                        }
                    }
                    assert forall|i: int, j: int| 0 <= i < j < out@.len() implies text_le(
                        self.path_of(#[trigger] out@[i])->0,
                        self.path_of(#[trigger] out@[j])->0,
                    ) by {
                        let oi = if i < pos { i } else { i - 1 };
                        let oj = if j < pos { j } else { j - 1 };
                        if i != pos && j != pos {
                            assert(out@[i] == old_out[oi] && out@[j] == old_out[oj]);
                        } else if i == pos {
                            assert(out@[j] == old_out[oj]);
                            lemma_text_lt_asymmetric(p@, self.path_of(old_out[oj])->0);
                        } else {
                            assert(out@[i] == old_out[oi]);
                        }
                    }
                }
            } else {
                proof {
                    assert forall|x: usize|
                        #![trigger out@.contains(x)]
                        #![trigger self.is_listed_module(x)]
                        out@.contains(x) <==> (x < id + 1 && self.is_listed_module(x)) by {
                        if out@.contains(x) {
                            assert(x < id && self.is_listed_module(x));
                        }
                        if x < id + 1 && self.is_listed_module(x) {
                            assert(x != id);
                            assert(out@.contains(x));
                        }
                    }
                }
            }
            id += 1;
        }
        out
    }
}

} // verus!
