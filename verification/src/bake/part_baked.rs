//! How many tiles each unfinished bake has.

use bevy::platform::collections::{HashMap, HashSet};
use bevy::platform::hash::FixedHasher;
use vstd::prelude::*;

verus! {

/// The hash builder of bevy's maps and sets.
#[verifier::external_type_specification]
#[verifier::external_body]
pub struct ExFixedHasher(FixedHasher);

/// `bevy::platform::collections::HashMap`.
#[verifier::external_type_specification]
#[verifier::external_body]
#[verifier::reject_recursive_types(K)]
#[verifier::reject_recursive_types(V)]
#[verifier::reject_recursive_types(S)]
pub struct ExHashMap<K, V, S>(HashMap<K, V, S>);

/// `bevy::platform::collections::HashSet`.
#[verifier::external_type_specification]
#[verifier::external_body]
#[verifier::reject_recursive_types(T)]
#[verifier::reject_recursive_types(S)]
pub struct ExHashSet<T, S>(HashSet<T, S>);

/// What a map holds.
pub uninterp spec fn entries(tiles: HashMap<u64, usize, FixedHasher>) -> Map<u64, usize>;

/// What a set holds.
pub uninterp spec fn members(ids: HashSet<u64, FixedHasher>) -> Set<u64>;

/// `HashMap::new`: the map holds nothing.
#[verifier::external_body]
fn new_entries() -> (tiles: HashMap<u64, usize, FixedHasher>)
    ensures
        (entries(tiles) == Map::<u64, usize>::empty()),
{
    HashMap::new()
}

/// `HashMap::get`: the value of the key, where the map holds the key.
#[verifier::external_body]
fn get_entry(tiles: &HashMap<u64, usize, FixedHasher>, id: u64) -> (count: Option<usize>)
    ensures
        count == (if entries(*tiles).dom().contains(id) {
            Some(entries(*tiles)[id])
        } else {
            None
        }),
{
    tiles.get(&id).copied()
}

/// `HashMap::insert`: the key has the value from now on, whatever it had, and
/// nothing else changes.
#[verifier::external_body]
fn insert_entry(tiles: &mut HashMap<u64, usize, FixedHasher>, id: u64, count: usize)
    ensures
        entries(*final(tiles)) == entries(*old(tiles)).insert(id, count),
{
    tiles.insert(id, count);
}

/// `HashMap::remove`: the map no longer holds the key, and nothing else changes.
#[verifier::external_body]
fn remove_entry(tiles: &mut HashMap<u64, usize, FixedHasher>, id: u64)
    ensures
        entries(*final(tiles)) == entries(*old(tiles)).remove(id),
{
    tiles.remove(&id);
}

/// `HashMap::retain`: the keys among `cameras` keep their values, the others are
/// gone.
#[verifier::external_body]
fn retain_entries(tiles: &mut HashMap<u64, usize, FixedHasher>, cameras: &BakingCameras)
    ensures
        entries(*final(tiles)) == entries(*old(tiles)).restrict(cameras@),
{
    tiles.retain(|id, _| cameras.contains(*id));
}

/// `HashSet::new`: the set holds nothing.
#[verifier::external_body]
fn new_members() -> (ids: HashSet<u64, FixedHasher>)
    ensures
        members(ids) == Set::<u64>::empty(),
{
    HashSet::new()
}

/// `HashSet::insert`: the set holds what it held, and the value.
#[verifier::external_body]
fn insert_member(ids: &mut HashSet<u64, FixedHasher>, id: u64)
    ensures
        members(*final(ids)) == members(*old(ids)).insert(id),
{
    ids.insert(id);
}

/// `HashSet::contains`: whether the set holds the value.
#[verifier::external_body]
fn has_member(ids: &HashSet<u64, FixedHasher>, id: u64) -> (held: bool)
    ensures
        held == members(*ids).contains(id),
{
    ids.contains(&id)
}

/// The cameras that bake in this frame.
pub struct BakingCameras {
    ids: HashSet<u64, FixedHasher>,
}

impl BakingCameras {
    /// The cameras, by number.
    pub closed spec fn view(&self) -> Set<u64> {
        members(self.ids)
    }

    /// No camera.
    pub fn new() -> (cameras: Self)
        ensures
            cameras@ == Set::<u64>::empty(),
    {
        BakingCameras { ids: new_members() }
    }

    /// Adds a camera.
    pub fn insert(&mut self, id: u64)
        ensures
            final(self)@ == old(self)@.insert(id),
    {
        insert_member(&mut self.ids, id);
    }

    /// Whether a camera is among them.
    pub fn contains(&self, id: u64) -> (held: bool)
        ensures
            held == self@.contains(id),
    {
        has_member(&self.ids, id)
    }
}

/// How many tiles are baked, for each camera that has begun and not finished.
pub struct PartBaked {
    tiles: HashMap<u64, usize, FixedHasher>,
}

impl PartBaked {
    /// The number of tiles, by camera.
    pub closed spec fn view(&self) -> Map<u64, usize> {
        entries(self.tiles)
    }

    /// The number of tiles of a camera.
    pub open spec fn baked(&self, id: u64) -> usize {
        if self@.dom().contains(id) {
            self@[id]
        } else {
            0
        }
    }

    /// No camera has begun.
    pub fn new() -> (part: Self)
        ensures
            part@ == Map::<u64, usize>::empty(),
    {
        PartBaked { tiles: new_entries() }
    }

    /// How many tiles of a camera are baked.
    pub fn get(&self, id: u64) -> (count: usize)
        ensures
            count == self.baked(id),
    {
        match get_entry(&self.tiles, id) {
            Some(count) => count,
            None => 0,
        }
    }

    /// Notes how many tiles of a camera are baked.
    pub fn insert(&mut self, id: u64, count: usize)
        ensures
            final(self)@ == old(self)@.insert(id, count),
    {
        insert_entry(&mut self.tiles, id, count);
    }

    /// Forgets a camera.
    pub fn remove(&mut self, id: u64)
        ensures
            final(self)@ == old(self)@.remove(id),
    {
        remove_entry(&mut self.tiles, id);
    }

    /// Forgets all cameras but these.
    pub fn retain(&mut self, cameras: &BakingCameras)
        ensures
            final(self)@ == old(self)@.restrict(cameras@),
    {
        retain_entries(&mut self.tiles, cameras);
    }
}

impl Default for PartBaked {
    fn default() -> (part: Self)
        ensures
            part@ == Map::<u64, usize>::empty(),
    {
        PartBaked::new()
    }
}

} // verus!
