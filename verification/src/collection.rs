//! Mod collections as a mod manager keeps them, and the load order of the
//! game's own launcher.

use vstd::prelude::*;
use vstd::slice::slice_subrange;
use crate::number::{decimal, read_decimal};
use crate::ordered_map::OrderedMap;
use crate::text::{
    chars_of, str_eq, strip_prefix, strip_prefix_start, strip_suffix, strip_suffix_end, views,
};

verus! {

/// A named list of mods of one game.
#[derive(Debug, PartialEq, Clone)]
pub struct IronyModCollection {
    pub game: String,
    pub name: String,
    pub is_selected: bool,
    pub mod_registry_ids: Vec<String>,
}

/// The workshop number that a registry identifier names: what is left of it
/// without `mod/ugc_` at its start and `.mod` at its end, read as a number.
pub open spec fn mod_id(registry_id: Seq<char>) -> Option<u64> {
    decimal(strip_suffix(strip_prefix(registry_id, "mod/ugc_"@), ".mod"@))
}

/// The workshop numbers that the identifiers name, in their order, without
/// the identifiers that name none.
pub open spec fn mod_ids(registry_ids: Seq<Seq<char>>) -> Seq<u64>
    decreases registry_ids.len(),
{
    if registry_ids.len() == 0 {
        Seq::empty()
    } else {
        let front = mod_ids(registry_ids.drop_last());
        match mod_id(registry_ids.last()) {
            Some(id) => front.push(id),
            None => front,
        }
    }
}

/// The workshop number that `registry_id` names, if it names one.
pub fn parse_mod_id(registry_id: &str) -> (r: Option<u64>)
    ensures
        r == mod_id(registry_id@),
{
    let chars = chars_of(registry_id);
    let prefix = chars_of("mod/ugc_");
    let suffix = chars_of(".mod");
    let s = chars.as_slice();
    assert(s@.subrange(0, s@.len() as int) =~= registry_id@);
    let from = strip_prefix_start(s, 0, s.len(), prefix.as_slice());
    let to = strip_suffix_end(s, from, s.len(), suffix.as_slice());
    let digits = slice_subrange(s, from, to);
    assert(digits@.skip(0) =~= digits@);
    read_decimal(digits, 0)
}

impl IronyModCollection {
    /// The workshop numbers of the mods of this collection, in their order.
    /// A registry identifier that names no number is passed over.
    pub fn get_mod_ids(&self) -> (r: Vec<u64>)
        ensures
            r@ == mod_ids(views(self.mod_registry_ids@)),
    {
        let mut ids: Vec<u64> = Vec::new();
        let ghost all = views(self.mod_registry_ids@);
        let mut i: usize = 0;
        while i < self.mod_registry_ids.len()
            invariant
                i <= self.mod_registry_ids@.len(),
                all == views(self.mod_registry_ids@),
                ids@ == mod_ids(all.take(i as int)),
            decreases self.mod_registry_ids@.len() - i,
        {
            assert(all.take(i + 1).drop_last() =~= all.take(i as int));
            match parse_mod_id(self.mod_registry_ids[i].as_str()) {
                Some(id) => {
                    ids.push(id);
                },
                None => {},
            }
            i += 1;
        }
        assert(all.take(all.len() as int) =~= all);
        ids
    }

    /// The name under which the collection is shown.
    pub fn label(&self) -> (r: String)
        ensures
            r@ == self.name@,
    {
        self.name.clone()
    }

    /// Whether this is a collection of Stellaris mods.
    pub fn is_stellaris(&self) -> (r: bool)
        ensures
            r == (self.game@ == "Stellaris"@),
    {
        str_eq(self.game.as_str(), "Stellaris")
    }
}

/// The collections of `all` that belong to Stellaris, in their order.
pub open spec fn stellaris_only(all: Seq<IronyModCollection>) -> Seq<IronyModCollection>
    decreases all.len(),
{
    if all.len() == 0 {
        Seq::empty()
    } else {
        let front = stellaris_only(all.drop_last());
        if all.last().game@ == "Stellaris"@ {
            front.push(all.last())
        } else {
            front
        }
    }
}

/// Keeps the collections that belong to Stellaris.
pub fn stellaris_collections(all: Vec<IronyModCollection>) -> (r: Vec<IronyModCollection>)
    ensures
        r@ == stellaris_only(all@),
{
    let mut kept: Vec<IronyModCollection> = Vec::new();
    let ghost whole = all@;
    for collection in it: all.into_iter()
        invariant
            it.seq() == whole,
            kept@ == stellaris_only(whole.take(it.index())),
    {
        assert(whole.take(it.index() + 1).drop_last() =~= whole.take(it.index()));
        if collection.is_stellaris() {
            kept.push(collection);
        }
    }
    assert(whole.take(whole.len() as int) =~= whole);
    kept
}

/// The directories of the mods of `order` that `registry` knows, in the
/// order of `order`.
pub open spec fn load_order(order: Seq<Seq<char>>, registry: Map<Seq<char>, Seq<char>>) -> Seq<
    Seq<char>,
>
    decreases order.len(),
{
    if order.len() == 0 {
        Seq::empty()
    } else {
        let front = load_order(order.drop_last(), registry);
        if registry.contains_key(order.last()) {
            front.push(registry[order.last()])
        } else {
            front
        }
    }
}

/// The directories of the mods in the launcher's load order. `registry` gives
/// the directory of each mod that the launcher knows; an entry of `order`
/// that it does not know is passed over.
pub fn resolve_load_order(order: &Vec<String>, registry: &OrderedMap<String>) -> (r: Vec<String>)
    ensures
        views(r@) == load_order(views(order@), registry@),
{
    let mut directories: Vec<String> = Vec::new();
    let ghost all = views(order@);
    let mut i: usize = 0;
    while i < order.len()
        invariant
            i <= order@.len(),
            all == views(order@),
            views(directories@) == load_order(all.take(i as int), registry@),
        decreases order@.len() - i,
    {
        assert(all.take(i + 1).drop_last() =~= all.take(i as int));
        match registry.get(order[i].as_str()) {
            Some(directory) => {
                directories.push(directory.clone());
            },
            None => {},
        }
        i += 1;
    }
    assert(all.take(all.len() as int) =~= all);
    directories
}

} // verus!
