//! The bindings of a track by SSRC, held in a concurrent map.
use crate::binding::{BindingView, TrackBinding};
use dashmap::DashMap;
use std::sync::Arc;
use vstd::prelude::*;

verus! {

/// `dashmap::DashMap`, carried as an opaque value.
#[verifier::external_type_specification]
#[verifier::external_body]
#[verifier::reject_recursive_types(K)]
#[verifier::reject_recursive_types(V)]
#[verifier::reject_recursive_types(S)]
pub struct ExDashMap<K, V, S>(dashmap::DashMap<K, V, S>);

/// What a map of bindings holds.
pub uninterp spec fn bound(bindings: DashMap<u32, Arc<TrackBinding>>) -> Map<u32, BindingView>;

/// Calls `dashmap::DashMap::with_capacity`: the map is empty. The capacity is only
/// room to grow into; one that is too large to be allocated would panic.
#[verifier::external_body]
fn empty_bindings(capacity: usize) -> (bindings: DashMap<u32, Arc<TrackBinding>>)
    requires
        capacity <= 0xffff,
    ensures
        bound(bindings) == (Map::<u32, BindingView>::empty()),
{
    DashMap::with_capacity(capacity)
}

/// Calls `dashmap::DashMap::insert`: the key leads to the binding from then on, and
/// what it led to before is handed back.
#[verifier::external_body]
fn insert_binding(
    bindings: &mut DashMap<u32, Arc<TrackBinding>>,
    ssrc: u32,
    binding: Arc<TrackBinding>,
) -> (before: Option<Arc<TrackBinding>>)
    ensures
        bound(*final(bindings)) == bound(*old(bindings)).insert(ssrc, binding@),
        match before {
            Some(earlier) => bound(*old(bindings)).contains_key(ssrc) && bound(
                *old(bindings),
            )[ssrc] == earlier@,
            None => !bound(*old(bindings)).contains_key(ssrc),
        },
{
    bindings.insert(ssrc, binding)
}

/// Calls `dashmap::DashMap::remove`: the key leads nowhere from then on, and what it
/// led to before is handed back.
#[verifier::external_body]
fn remove_binding(bindings: &mut DashMap<u32, Arc<TrackBinding>>, ssrc: u32) -> (before:
    Option<Arc<TrackBinding>>)
    ensures
        bound(*final(bindings)) == bound(*old(bindings)).remove(ssrc),
        match before {
            Some(earlier) => bound(*old(bindings)).contains_key(ssrc) && bound(
                *old(bindings),
            )[ssrc] == earlier@,
            None => !bound(*old(bindings)).contains_key(ssrc),
        },
{
    bindings.remove(&ssrc).map(|entry| entry.1)
}

/// Calls `dashmap::DashMap::get`: the binding that the key leads to, if any.
#[verifier::external_body]
fn find_binding(bindings: &DashMap<u32, Arc<TrackBinding>>, ssrc: u32) -> (found: Option<
    Arc<TrackBinding>,
>)
    ensures
        match found {
            Some(binding) => bound(*bindings).contains_key(ssrc) && bound(*bindings)[ssrc]
                == binding@,
            None => !bound(*bindings).contains_key(ssrc),
        },
{
    bindings.get(&ssrc).map(|entry| entry.value().clone())
}

/// Whether a list holds each entry of a map once, in whatever order.
pub open spec fn lists_all(
    entries: Seq<(u32, Arc<TrackBinding>)>,
    bindings: Map<u32, BindingView>,
) -> bool {
    &&& forall|i: int|
        0 <= i < entries.len() ==> bindings.contains_key((#[trigger] entries[i]).0)
            && bindings[entries[i].0] == entries[i].1@
    &&& forall|i: int, j: int|
        0 <= i < j < entries.len() ==> (#[trigger] entries[i]).0 != (#[trigger] entries[j]).0
    &&& forall|ssrc: u32| #[trigger]
        bindings.contains_key(ssrc) ==> exists|i: int|
            0 <= i < entries.len() && (#[trigger] entries[i]).0 == ssrc
}

/// Calls `dashmap::DashMap::iter`: each entry comes once. In which order is not
/// said: it follows from a hash that each process seeds anew.
#[verifier::external_body]
fn list_bindings(bindings: &DashMap<u32, Arc<TrackBinding>>) -> (entries: Vec<
    (u32, Arc<TrackBinding>),
>)
    ensures
        lists_all(entries@, bound(*bindings)),
{
    bindings.iter().map(|entry| (*entry.key(), entry.value().clone())).collect()
}

/// The bindings of a track by SSRC.
#[derive(Debug)]
pub struct BindingTable {
    map: DashMap<u32, Arc<TrackBinding>>,
}

impl View for BindingTable {
    type V = Map<u32, BindingView>;

    closed spec fn view(&self) -> Map<u32, BindingView> {
        bound(self.map)
    }
}

impl BindingTable {
    /// A table without bindings, with room for so many.
    pub fn with_capacity(capacity: usize) -> (table: BindingTable)
        requires
            capacity <= 0xffff,
        ensures
            table@ == Map::<u32, BindingView>::empty(),
    {
        BindingTable { map: empty_bindings(capacity) }
    }

    /// Puts a binding under an SSRC and hands back the one that was there.
    pub fn insert(&mut self, ssrc: u32, binding: Arc<TrackBinding>) -> (before: Option<
        Arc<TrackBinding>,
    >)
        ensures
            final(self)@ == old(self)@.insert(ssrc, binding@),
            match before {
                Some(earlier) => old(self)@.contains_key(ssrc) && old(self)@[ssrc] == earlier@,
                None => !old(self)@.contains_key(ssrc),
            },
    {
        insert_binding(&mut self.map, ssrc, binding)
    }

    /// Takes the binding under an SSRC away and hands it back.
    pub fn remove(&mut self, ssrc: u32) -> (before: Option<Arc<TrackBinding>>)
        ensures
            final(self)@ == old(self)@.remove(ssrc),
            match before {
                Some(earlier) => old(self)@.contains_key(ssrc) && old(self)@[ssrc] == earlier@,
                None => !old(self)@.contains_key(ssrc),
            },
    {
        remove_binding(&mut self.map, ssrc)
    }

    /// The binding under an SSRC.
    pub fn get(&self, ssrc: u32) -> (found: Option<Arc<TrackBinding>>)
        ensures
            match found {
                Some(binding) => self@.contains_key(ssrc) && self@[ssrc] == binding@,
                None => !self@.contains_key(ssrc),
            },
    {
        find_binding(&self.map, ssrc)
    }

    /// All bindings with their SSRCs, in no particular order.
    pub fn entries(&self) -> (entries: Vec<(u32, Arc<TrackBinding>)>)
        ensures
            lists_all(entries@, self@),
    {
        list_bindings(&self.map)
    }
}

} // verus!
