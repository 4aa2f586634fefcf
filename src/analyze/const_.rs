//! The const classification by path alone: a record is left out when its
//! own path lies under one of the const exclusions. Unlike
//! `count_const_items` in the parent module, the path of an implemented
//! trait is not looked at.

use crate::analyze::{const_exclusions, str_views, under_any};
use crate::item::{item_views, Item, ItemView};
use crate::text::{has_prefix, is_prefix};
use vstd::prelude::*;

verus! {

/// How many stable records of `s` have a path under a const exclusion.
pub open spec fn path_excluded_count(s: Seq<ItemView>) -> nat
    decreases s.len(),
{
    if s.len() == 0 {
        0
    } else {
        path_excluded_count(s.drop_last()) + if s.last().stability is Stable && under_any(
            s.last().path,
            const_exclusions(),
        ) {
            1nat
        } else {
            0nat
        }
    }
}

/// How many stable const records of `s` have a path under no const
/// exclusion.
pub open spec fn path_matched_count(s: Seq<ItemView>) -> nat
    decreases s.len(),
{
    if s.len() == 0 {
        0
    } else {
        path_matched_count(s.drop_last()) + if s.last().stability is Stable && !under_any(
            s.last().path,
            const_exclusions(),
        ) && s.last().is_const {
            1nat
        } else {
            0nat
        }
    }
}

/// Whether `target` starts with one of the const exclusions.
fn should_exclude(target: &str) -> (r: bool)
    ensures
        r == under_any(target@, const_exclusions()),
{
    let mut v: Vec<&'static str> = Vec::new();
    v.push("std::os");
    v.push("std::fs");
    v.push("std::net");
    v.push("std::process");
    assert(str_views(v@) =~= const_exclusions());
    let mut i: usize = 0;
    while i < v.len()
        invariant
            str_views(v@) == const_exclusions(),
            i <= v@.len(),
            forall|k: int| 0 <= k < i ==> !is_prefix(#[trigger] const_exclusions()[k], target@),
        decreases v@.len() - i,
    {
        assert(const_exclusions()[i as int] == v@[i as int]@);
        if has_prefix(target, v[i]) {
            return true;
        }
        i += 1;
    }
    false
}

/// Counts the stable const records of `items`, leaving out those whose path
/// lies under one of the const exclusions. Returns the count and the number
/// of stable records left out.
pub fn count_const_items(items: &[Item]) -> (r: (usize, usize))
    ensures
        r.0 == path_matched_count(item_views(items@)),
        r.1 == path_excluded_count(item_views(items@)),
{
    let mut count: usize = 0;
    let mut excluded: usize = 0;
    let mut i: usize = 0;
    while i < items.len()
        invariant
            i <= items@.len(),
            count + excluded <= i,
            count == path_matched_count(item_views(items@.take(i as int))),
            excluded == path_excluded_count(item_views(items@.take(i as int))),
        decreases items@.len() - i,
    {
        let item = &items[i];
        proof {
            assert(item_views(items@.take(i + 1)).drop_last() =~= item_views(items@.take(i as int)));
            assert(item_views(items@.take(i + 1)).last() == item@);
        }
        if item.stability.is_stable() {
            if should_exclude(item.path.as_str()) {
                excluded += 1;
            } else if item.is_const {
                count += 1;
            }
        }
        i += 1;
    }
    proof {
        assert(items@.take(i as int) =~= items@);
    }
    (count, excluded)
}

} // verus!
