//! Entity ids and the allocator that hands them out, and the editor's
//! error type.
use std::sync::atomic::AtomicU64;
use vstd::prelude::*;
use vstd::std_specs::cmp::PartialOrdSpecImpl;

verus! {

#[verifier::external_type_specification]
#[verifier::external_body]
pub struct ExIoError(std::io::Error);

/// Errors of the editor as a whole.
#[derive(Debug)]
pub enum CoreError {
    Gpu(String),
    Io(std::io::Error),
    Other(String),
}

/// An opaque id.
#[derive(Debug, Clone, Copy, PartialEq, Eq, Structural, Hash, Ord)]
pub struct EntityId(u64);

impl View for EntityId {
    type V = u64;

    closed spec fn view(&self) -> u64 {
        self.0
    }
}

/// Ids compare as their raw values do.
pub open spec fn compare_ids(a: EntityId, b: EntityId) -> Option<core::cmp::Ordering> {
    if a@ < b@ {
        Some(core::cmp::Ordering::Less)
    } else if a@ == b@ {
        Some(core::cmp::Ordering::Equal)
    } else {
        Some(core::cmp::Ordering::Greater)
    }
}

impl PartialOrd for EntityId {
    fn partial_cmp(&self, other: &Self) -> (r: Option<core::cmp::Ordering>) {
        if self.0 < other.0 {
            Some(core::cmp::Ordering::Less)
        } else if self.0 == other.0 {
            Some(core::cmp::Ordering::Equal)
        } else {
            Some(core::cmp::Ordering::Greater)
        }
    }
}

impl PartialOrdSpecImpl for EntityId {
    open spec fn obeys_partial_cmp_spec() -> bool {
        true
    }

    open spec fn partial_cmp_spec(&self, other: &Self) -> Option<core::cmp::Ordering> {
        compare_ids(*self, *other)
    }
}

/// Two ids are equal exactly when their raw values are.
pub proof fn law_ids_equal_iff_raw_equal(a: EntityId, b: EntityId)
    ensures
        (a == b) <==> (a@ == b@),
{
}

impl EntityId {
    pub fn new(raw: u64) -> (id: Self)
        ensures
            id@ == raw,
    {
        Self(raw)
    }

    pub fn raw(self) -> (r: u64)
        ensures
            r == self@,
    {
        self.0
    }
}

/// Hands out ids from a shared counter; safe to use from several threads
/// through a shared reference.
#[derive(Debug, Default)]
pub struct EntityIdAllocator {
    next: AtomicU64,
}

impl EntityIdAllocator {
    /// An allocator whose counter starts at 0. The counter lives inside an
    /// atomic, which Verus does not read, so no clause states its value.
    pub fn new() -> Self {
        Self { next: AtomicU64::new(0) }
    }

    /// The counter's value before an atomic increment by one (wrapping at
    /// `u64::MAX`). The value lives inside the atomic, which Verus does not
    /// read, so nothing is stated of the id.
    pub fn allocate(&self) -> EntityId {
        let raw = self.next.fetch_add(1, std::sync::atomic::Ordering::Relaxed);
        EntityId::new(raw)
    }
}

} // verus!
