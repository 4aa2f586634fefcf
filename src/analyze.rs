//! Classification of records: how many stable records carry a modifier,
//! leaving out those under configured path prefixes, and per-kind tallies.

pub mod const_;

use crate::item::{item_views, Item, ItemView, Stability};
use crate::text::{has_prefix, is_prefix};
use vstd::prelude::*;

verus! {

/// The modifier that a count looks for.
#[derive(Clone, Copy, Debug, PartialEq, Eq, Structural)]
pub enum Modifier {
    Const,
    Async,
}

pub open spec fn has_modifier(r: ItemView, m: Modifier) -> bool {
    match m {
        Modifier::Const => r.is_const,
        Modifier::Async => r.is_async,
    }
}

/// The views of a list of string slices.
pub open spec fn str_views(v: Seq<&str>) -> Seq<Seq<char>> {
    v.map_values(|s: &str| s@)
}

/// Some prefix of the list is a prefix of `target`.
pub open spec fn under_any(target: Seq<char>, prefixes: Seq<Seq<char>>) -> bool {
    exists|i: int| 0 <= i < prefixes.len() && is_prefix(#[trigger] prefixes[i], target)
}

/// A record is left out of a count when its path, or the path of the trait
/// it implements, lies under one of the prefixes; or, when asked, when it
/// has no generics.
pub open spec fn is_excluded(r: ItemView, prefixes: Seq<Seq<char>>, skip_non_generic: bool) -> bool {
    ||| under_any(r.path, prefixes)
    ||| (r.target_trait matches Some(t) && under_any(t, prefixes))
    ||| (skip_non_generic && !r.has_generics)
}

/// How many records of `s` are stable.
pub open spec fn stable_count(s: Seq<ItemView>) -> nat
    decreases s.len(),
{
    if s.len() == 0 {
        0
    } else {
        stable_count(s.drop_last()) + if s.last().stability is Stable {
            1nat
        } else {
            0nat
        }
    }
}

/// How many stable records of `s` are left out.
pub open spec fn excluded_count(s: Seq<ItemView>, prefixes: Seq<Seq<char>>, skip_non_generic: bool) -> nat
    decreases s.len(),
{
    if s.len() == 0 {
        0
    } else {
        excluded_count(s.drop_last(), prefixes, skip_non_generic) + if s.last().stability is Stable
            && is_excluded(s.last(), prefixes, skip_non_generic) {
            1nat
        } else {
            0nat
        }
    }
}

/// How many stable records of `s` that are not left out carry `m`.
pub open spec fn matched_count(
    s: Seq<ItemView>,
    prefixes: Seq<Seq<char>>,
    skip_non_generic: bool,
    m: Modifier,
) -> nat
    decreases s.len(),
{
    if s.len() == 0 {
        0
    } else {
        matched_count(s.drop_last(), prefixes, skip_non_generic, m) + if s.last().stability is Stable
            && !is_excluded(s.last(), prefixes, skip_non_generic) && has_modifier(s.last(), m) {
            1nat
        } else {
            0nat
        }
    }
}

/// How many stable records of `s` that are not left out lack `m`.
pub open spec fn unmatched_count(
    s: Seq<ItemView>,
    prefixes: Seq<Seq<char>>,
    skip_non_generic: bool,
    m: Modifier,
) -> nat
    decreases s.len(),
{
    if s.len() == 0 {
        0
    } else {
        unmatched_count(s.drop_last(), prefixes, skip_non_generic, m) + if s.last().stability
            is Stable && !is_excluded(s.last(), prefixes, skip_non_generic) && !has_modifier(
            s.last(),
            m,
        ) {
            1nat
        } else {
            0nat
        }
    }
}

/// The matched, the left out, and the counted-but-not-matching records
/// split the stable records exactly; so the matched ones plus the rest
/// that were counted make up the stable records less the left out ones.
pub proof fn lemma_exclusion_accounting(
    s: Seq<ItemView>,
    prefixes: Seq<Seq<char>>,
    skip_non_generic: bool,
    m: Modifier,
)
    ensures
        matched_count(s, prefixes, skip_non_generic, m) + excluded_count(s, prefixes, skip_non_generic)
            + unmatched_count(s, prefixes, skip_non_generic, m) == stable_count(s),
        matched_count(s, prefixes, skip_non_generic, m) + excluded_count(s, prefixes, skip_non_generic)
            <= stable_count(s),
        matched_count(s, prefixes, skip_non_generic, m) + (stable_count(s) - matched_count(
            s,
            prefixes,
            skip_non_generic,
            m,
        ) - excluded_count(s, prefixes, skip_non_generic)) == stable_count(s) - excluded_count(
            s,
            prefixes,
            skip_non_generic,
        ),
    decreases s.len(),
{
    if s.len() > 0 {
        lemma_exclusion_accounting(s.drop_last(), prefixes, skip_non_generic, m);
    }
}

/// Whether `target` lies under one of `exclude_paths`.
pub fn should_exclude_path(target: &str, exclude_paths: &[&str]) -> (r: bool)
    ensures
        r == under_any(target@, str_views(exclude_paths@)),
{
    let mut i: usize = 0;
    while i < exclude_paths.len()
        invariant
            i <= exclude_paths@.len(),
            forall|k: int| 0 <= k < i ==> !is_prefix(#[trigger] str_views(exclude_paths@)[k], target@),
        decreases exclude_paths@.len() - i,
    {
        if has_prefix(target, exclude_paths[i]) {
            assert(str_views(exclude_paths@)[i as int] == exclude_paths@[i as int]@);
            return true;
        }
        i += 1;
    }
    false
}

/// Counts the stable records of `items` that carry `modifier`, leaving out
/// those whose path or implemented trait lies under one of `exclude_paths`,
/// and, when `skip_non_generic` holds, those without generics. Returns the
/// count and the number of stable records left out.
pub fn count_items(items: &[Item], exclude_paths: &[&str], modifier: Modifier, skip_non_generic: bool) -> (r: (usize, usize))
    ensures
        r.0 == matched_count(item_views(items@), str_views(exclude_paths@), skip_non_generic, modifier),
        r.1 == excluded_count(item_views(items@), str_views(exclude_paths@), skip_non_generic),
{
    let ghost prefixes = str_views(exclude_paths@);
    let mut count: usize = 0;
    let mut excluded: usize = 0;
    let mut i: usize = 0;
    while i < items.len()
        invariant
            prefixes == str_views(exclude_paths@),
            i <= items@.len(),
            count + excluded <= i,
            count == matched_count(item_views(items@.take(i as int)), prefixes, skip_non_generic, modifier),
            excluded == excluded_count(item_views(items@.take(i as int)), prefixes, skip_non_generic),
        decreases items@.len() - i,
    {
        let item = &items[i];
        proof {
            assert(item_views(items@.take(i + 1)).drop_last() =~= item_views(items@.take(i as int)));
            assert(item_views(items@.take(i + 1)).last() == item@);
        }
        if item.stability.is_stable() {
            let on_trait = match &item.target_trait {
                Some(t) => should_exclude_path(t.as_str(), exclude_paths),
                None => false,
            };
            if should_exclude_path(item.path.as_str(), exclude_paths) || on_trait || (
            skip_non_generic && !item.has_generics) {
                excluded += 1;
            } else {
                let has = match modifier {
                    Modifier::Const => item.is_const,
                    Modifier::Async => item.is_async,
                };
                if has {
                    count += 1;
                }
            }
        }
        i += 1;
    }
    proof {
        assert(items@.take(i as int) =~= items@);
    }
    (count, excluded)
}

/// The prefixes that const counts leave out: items that touch the host.
pub open spec fn const_exclusions() -> Seq<Seq<char>> {
    seq!["std::os"@, "std::fs"@, "std::net"@, "std::process"@]
}

/// The prefixes that async counts leave out.
pub open spec fn async_exclusions() -> Seq<Seq<char>> {
    seq![
        "core::ops"@,
        "std::thread"@,
        "core::any"@,
        "core::borrow"@,
        "core::marker"@,
        "core::panic"@,
        "core::clone"@,
        "core::default"@,
        "core::hash::Hash"@,
        "core::convert::AsRef"@,
        "core::convert::AsMut"@,
        "core::cmp"@,
    ]
}

/// Counts the stable records of `items` that are const, leaving out those
/// under `const_exclusions()`. Returns the count and the number left out.
pub fn count_const_items(items: &[Item]) -> (r: (usize, usize))
    ensures
        r.0 == matched_count(item_views(items@), const_exclusions(), false, Modifier::Const),
        r.1 == excluded_count(item_views(items@), const_exclusions(), false),
{
    let mut v: Vec<&'static str> = Vec::new();
    v.push("std::os");
    v.push("std::fs");
    v.push("std::net");
    v.push("std::process");
    assert(str_views(v@) =~= const_exclusions());
    count_items(items, v.as_slice(), Modifier::Const, false)
}

/// Counts the stable records of `items` that are async, leaving out those
/// under `async_exclusions()` and, when `skip_non_generic` holds, those
/// without generics. Returns the count and the number left out.
pub fn count_async_items(items: &[Item], skip_non_generic: bool) -> (r: (usize, usize))
    ensures
        r.0 == matched_count(item_views(items@), async_exclusions(), skip_non_generic, Modifier::Async),
        r.1 == excluded_count(item_views(items@), async_exclusions(), skip_non_generic),
{
    let mut v: Vec<&'static str> = Vec::new();
    v.push("core::ops");
    v.push("std::thread");
    v.push("core::any");
    v.push("core::borrow");
    v.push("core::marker");
    v.push("core::panic");
    v.push("core::clone");
    v.push("core::default");
    v.push("core::hash::Hash");
    v.push("core::convert::AsRef");
    v.push("core::convert::AsMut");
    v.push("core::cmp");
    assert(str_views(v@) =~= async_exclusions());
    count_items(items, v.as_slice(), Modifier::Async, skip_non_generic)
}

/// Tallies of a set of records.
#[derive(Clone, Copy, Debug, PartialEq, Eq, Structural)]
pub struct Stats {
    pub total: usize,
    pub stable: usize,
    pub unstable: usize,
    pub generics: usize,
}

/// How many entries of `s` have stability `st`.
pub open spec fn stability_tally(s: Seq<(Stability, bool)>, st: Stability) -> nat
    decreases s.len(),
{
    if s.len() == 0 {
        0
    } else {
        stability_tally(s.drop_last(), st) + if s.last().0 == st {
            1nat
        } else {
            0nat
        }
    }
}

/// How many entries of `s` have generics.
pub open spec fn generics_tally(s: Seq<(Stability, bool)>) -> nat
    decreases s.len(),
{
    if s.len() == 0 {
        0
    } else {
        generics_tally(s.drop_last()) + if s.last().1 {
            1nat
        } else {
            0nat
        }
    }
}

/// A tally as four integers.
pub open spec fn tally(s: Stats) -> (int, int, int, int) {
    (s.total as int, s.stable as int, s.unstable as int, s.generics as int)
}

/// The field-by-field sum of two tallies.
pub open spec fn tally_add(x: (int, int, int, int), y: (int, int, int, int)) -> (int, int, int, int) {
    (x.0 + y.0, x.1 + y.1, x.2 + y.2, x.3 + y.3)
}

impl Stats {
    /// Tallies (stability, has-generics) entries.
    pub fn from_iter(entries: &[(Stability, bool)]) -> (r: Stats)
        ensures
            r.total == entries@.len(),
            r.stable == stability_tally(entries@, Stability::Stable),
            r.unstable == stability_tally(entries@, Stability::Unstable),
            r.generics == generics_tally(entries@),
    {
        let mut this = Stats { total: 0, stable: 0, unstable: 0, generics: 0 };
        let mut i: usize = 0;
        while i < entries.len()
            invariant
                i <= entries@.len(),
                this.total == i,
                this.stable == stability_tally(entries@.take(i as int), Stability::Stable),
                this.unstable == stability_tally(entries@.take(i as int), Stability::Unstable),
                this.generics == generics_tally(entries@.take(i as int)),
                this.stable + this.unstable == i,
                this.generics <= i,
            decreases entries@.len() - i,
        {
            proof {
                assert(entries@.take(i + 1).drop_last() =~= entries@.take(i as int));
            }
            let (stability, has_generics) = entries[i];
            this.total += 1;
            match stability {
                Stability::Stable => this.stable += 1,
                Stability::Unstable => this.unstable += 1,
            }
            if has_generics {
                this.generics += 1;
            }
            i += 1;
        }
        proof {
            assert(entries@.take(i as int) =~= entries@);
        }
        this
    }

    /// Adds two tallies field by field.
    pub fn add(self, rhs: Stats) -> (r: Stats)
        requires
            self.total + rhs.total <= usize::MAX,
            self.stable + rhs.stable <= usize::MAX,
            self.unstable + rhs.unstable <= usize::MAX,
            self.generics + rhs.generics <= usize::MAX,
        ensures
            tally(r) == tally_add(tally(self), tally(rhs)),
    {
        Stats {
            total: self.total + rhs.total,
            stable: self.stable + rhs.stable,
            unstable: self.unstable + rhs.unstable,
            generics: self.generics + rhs.generics,
        }
    }
}

/// Tallies combine the same way in any grouping and any order.
pub proof fn lemma_tally_add_laws(x: (int, int, int, int), y: (int, int, int, int), z: (int, int, int, int))
    ensures
        tally_add(x, y) == tally_add(y, x),
        tally_add(tally_add(x, y), z) == tally_add(x, tally_add(y, z)),
{
}

} // verus!
