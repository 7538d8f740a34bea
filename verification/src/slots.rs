//! The slot maps that store registers, fields and their locations.
//!
//! `slotmap`'s `SlotMap` and `SecondaryMap` hold the values; each is kept in
//! a struct of this module, and a key is handed out as the 64-bit integer
//! that `KeyData::as_ffi` gives (version in the high half, slot index in the
//! low half). The contents of each map are named by a spec function from
//! such integers to values.
use vstd::prelude::*;
use slotmap::{DefaultKey, Key, KeyData, SecondaryMap, SlotMap};
use crate::ir::{Field, Register};
use crate::state::Location;

verus! {

/// The slot index of a key.
pub open spec fn key_index(k: u64) -> int {
    k as int % 0x1_0000_0000
}

/// The version of a key.
pub open spec fn key_version(k: u64) -> int {
    k as int / 0x1_0000_0000
}

/// The form of every key a slot map hands out: an odd (occupied) version and
/// a slot index other than the null index `u32::MAX`.
pub open spec fn key_is_live_form(k: u64) -> bool {
    key_version(k) % 2 == 1 && key_index(k) != 0xffff_ffff
}

/// Registers by key.
#[verifier::external_body]
pub struct RegisterSlots {
    map: SlotMap<DefaultKey, Register>,
}

/// Fields by key.
#[verifier::external_body]
pub struct FieldSlots {
    map: SlotMap<DefaultKey, Field>,
}

/// Register locations by register key.
#[verifier::external_body]
pub struct RegisterLocations {
    map: SecondaryMap<DefaultKey, Location>,
}

/// Field locations by field key.
#[verifier::external_body]
pub struct FieldLocations {
    map: SecondaryMap<DefaultKey, Location>,
}

/// The registers a [`RegisterSlots`] holds, by key.
pub uninterp spec fn register_slots(m: RegisterSlots) -> Map<u64, Register>;

/// The fields a [`FieldSlots`] holds, by key.
pub uninterp spec fn field_slots(m: FieldSlots) -> Map<u64, Field>;

/// The locations a [`RegisterLocations`] holds, by key.
pub uninterp spec fn register_locations(m: RegisterLocations) -> Map<u64, Location>;

/// The locations a [`FieldLocations`] holds, by key.
pub uninterp spec fn field_locations(m: FieldLocations) -> Map<u64, Location>;

/// `SlotMap::new`: an empty slot map.
#[verifier::external_body]
pub(crate) fn register_slots_new() -> (r: RegisterSlots)
    ensures
        register_slots(r).dom() == Set::<u64>::empty(),
{
    RegisterSlots { map: SlotMap::new() }
}

/// `SlotMap::insert`: stores the value under a key that no stored value has,
/// in a slot that no stored value occupies, and returns that key. It panics
/// only when the map holds `u32::MAX - 1` values, which `requires` excludes.
#[verifier::external_body]
pub(crate) fn register_slots_insert(m: &mut RegisterSlots, v: Register) -> (k: u64)
    requires
        register_slots(*old(m)).dom().finite(),
        register_slots(*old(m)).dom().len() < 0xffff_fffe,
    ensures
        !register_slots(*old(m)).dom().contains(k),
        register_slots(*final(m)) == register_slots(*old(m)).insert(k, v),
        key_is_live_form(k),
        forall|j: u64| #[trigger] register_slots(*old(m)).dom().contains(j) ==> key_index(j) != key_index(k),
{
    m.map.insert(v).data().as_ffi()
}

/// `SlotMap` indexing: the value stored under the key.
#[verifier::external_body]
pub(crate) fn register_slots_get(m: &RegisterSlots, k: u64) -> (r: &Register)
    requires
        register_slots(*m).dom().contains(k),
    ensures
        *r == register_slots(*m)[k],
{
    &m.map[DefaultKey::from(KeyData::from_ffi(k))]
}

/// `SlotMap::keys`: each stored key once, in slot order (its iterator walks
/// the slots by increasing index).
#[verifier::external_body]
pub(crate) fn register_slots_keys(m: &RegisterSlots) -> (r: Vec<u64>)
    ensures
        forall|i: int| 0 <= i < r@.len() ==> register_slots(*m).dom().contains(#[trigger] r@[i]),
        forall|k: u64| register_slots(*m).dom().contains(k) ==> #[trigger] r@.contains(k),
        forall|i: int, j: int| 0 <= i < j < r@.len() ==> r@[i] != r@[j],
        forall|i: int, j: int| 0 <= i < j < r@.len() ==> key_index(#[trigger] r@[i]) < key_index(#[trigger] r@[j]),
{
    m.map.keys().map(|k| k.data().as_ffi()).collect()
}

/// `SlotMap::new`: an empty slot map.
#[verifier::external_body]
pub(crate) fn field_slots_new() -> (r: FieldSlots)
    ensures
        field_slots(r).dom() == Set::<u64>::empty(),
{
    FieldSlots { map: SlotMap::new() }
}

/// `SlotMap::insert`, as for registers.
#[verifier::external_body]
pub(crate) fn field_slots_insert(m: &mut FieldSlots, v: Field) -> (k: u64)
    requires
        field_slots(*old(m)).dom().finite(),
        field_slots(*old(m)).dom().len() < 0xffff_fffe,
    ensures
        !field_slots(*old(m)).dom().contains(k),
        field_slots(*final(m)) == field_slots(*old(m)).insert(k, v),
        key_is_live_form(k),
        forall|j: u64| #[trigger] field_slots(*old(m)).dom().contains(j) ==> key_index(j) != key_index(k),
{
    m.map.insert(v).data().as_ffi()
}

/// `SlotMap` indexing: the value stored under the key.
#[verifier::external_body]
pub(crate) fn field_slots_get(m: &FieldSlots, k: u64) -> (r: &Field)
    requires
        field_slots(*m).dom().contains(k),
    ensures
        *r == field_slots(*m)[k],
{
    &m.map[DefaultKey::from(KeyData::from_ffi(k))]
}

/// `SlotMap::keys`: each stored key once, in slot order (its iterator walks
/// the slots by increasing index).
#[verifier::external_body]
pub(crate) fn field_slots_keys(m: &FieldSlots) -> (r: Vec<u64>)
    ensures
        forall|i: int| 0 <= i < r@.len() ==> field_slots(*m).dom().contains(#[trigger] r@[i]),
        forall|k: u64| field_slots(*m).dom().contains(k) ==> #[trigger] r@.contains(k),
        forall|i: int, j: int| 0 <= i < j < r@.len() ==> r@[i] != r@[j],
        forall|i: int, j: int| 0 <= i < j < r@.len() ==> key_index(#[trigger] r@[i]) < key_index(#[trigger] r@[j]),
{
    m.map.keys().map(|k| k.data().as_ffi()).collect()
}

/// `SecondaryMap::new`: an empty map.
#[verifier::external_body]
pub(crate) fn register_locations_new() -> (r: RegisterLocations)
    ensures
        register_locations(r).dom() == Set::<u64>::empty(),
{
    RegisterLocations { map: SecondaryMap::new() }
}

/// `SecondaryMap::insert`: for a live key whose slot holds no value under
/// another key, stores the value under that key (replacing one stored
/// under the same key).
#[verifier::external_body]
pub(crate) fn register_locations_insert(m: &mut RegisterLocations, k: u64, loc: Location)
    requires
        key_is_live_form(k),
        forall|j: u64| #[trigger] register_locations(*old(m)).dom().contains(j) && key_index(j) == key_index(k) ==> j == k,
    ensures
        register_locations(*final(m)) == register_locations(*old(m)).insert(k, loc),
{
    m.map.insert(DefaultKey::from(KeyData::from_ffi(k)), loc);
}

/// `SecondaryMap::get`: the value stored under the key; none for a key of
/// odd version that has no value.
#[verifier::external_body]
pub(crate) fn register_locations_get(m: &RegisterLocations, k: u64) -> (r: Option<&Location>)
    ensures
        register_locations(*m).dom().contains(k) ==> r == Some(&register_locations(*m)[k]),
        !register_locations(*m).dom().contains(k) && key_version(k) % 2 == 1 ==> r is None,
{
    m.map.get(DefaultKey::from(KeyData::from_ffi(k)))
}

/// `SecondaryMap::new`: an empty map.
#[verifier::external_body]
pub(crate) fn field_locations_new() -> (r: FieldLocations)
    ensures
        field_locations(r).dom() == Set::<u64>::empty(),
{
    FieldLocations { map: SecondaryMap::new() }
}

/// `SecondaryMap::insert`, as for registers.
#[verifier::external_body]
pub(crate) fn field_locations_insert(m: &mut FieldLocations, k: u64, loc: Location)
    requires
        key_is_live_form(k),
        forall|j: u64| #[trigger] field_locations(*old(m)).dom().contains(j) && key_index(j) == key_index(k) ==> j == k,
    ensures
        field_locations(*final(m)) == field_locations(*old(m)).insert(k, loc),
{
    m.map.insert(DefaultKey::from(KeyData::from_ffi(k)), loc);
}

/// `SecondaryMap::get`, as for registers.
#[verifier::external_body]
pub(crate) fn field_locations_get(m: &FieldLocations, k: u64) -> (r: Option<&Location>)
    ensures
        field_locations(*m).dom().contains(k) ==> r == Some(&field_locations(*m)[k]),
        !field_locations(*m).dom().contains(k) && key_version(k) % 2 == 1 ==> r is None,
{
    m.map.get(DefaultKey::from(KeyData::from_ffi(k)))
}

} // verus!
