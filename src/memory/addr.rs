use vstd::prelude::*;

verus! {

/// A virtual address.
#[derive(Clone, Copy, PartialEq, Eq, Debug, Structural)]
pub struct VirtAddr(pub usize);

/// A physical address.
#[derive(Clone, Copy, PartialEq, Eq, Debug, Structural)]
pub struct PhysAddr(pub usize);

impl PhysAddr {
    /// The address widened to 64 bits.
    pub fn as_u64(&self) -> (r: u64)
        ensures
            r == self.0 as u64,
    {
        self.0 as u64
    }

    /// The raw address value.
    pub fn inner(&self) -> (r: usize)
        ensures
            r == self.0,
    {
        self.0
    }

    /// The address truncated to 32 bits.
    pub fn as_u32(&self) -> (r: u32)
        ensures
            r == self.0 as u32,
    {
        self.0 as u32
    }

    /// The address `rhs` bytes further on; `None` where that overflows.
    pub fn checked_add(self, rhs: usize) -> (r: Option<PhysAddr>)
        ensures
            self.0 + rhs <= usize::MAX ==> r == Some(PhysAddr((self.0 + rhs) as usize)),
            self.0 + rhs > usize::MAX ==> r is None,
    {
        match self.0.checked_add(rhs) {
            Some(v) => Some(PhysAddr(v)),
            None => None,
        }
    }
}

impl Default for PhysAddr {
    fn default() -> (r: Self)
        ensures
            r.0 == 0,
    {
        PhysAddr(0)
    }
}

impl From<usize> for PhysAddr {
    fn from(value: usize) -> (r: Self) {
        PhysAddr(value)
    }
}

impl vstd::std_specs::convert::FromSpecImpl<usize> for PhysAddr {
    open spec fn obeys_from_spec() -> bool {
        true
    }

    open spec fn from_spec(v: usize) -> PhysAddr {
        PhysAddr(v)
    }
}

} // verus!

verus! {

impl crate::commun::ConstFrom<usize> for PhysAddr {
    fn from_const(value: usize) -> PhysAddr {
        PhysAddr(value)
    }
}

impl crate::commun::ConstInto<usize> for PhysAddr {
    fn into_const(self) -> usize {
        self.0
    }
}

impl crate::commun::ConstDefault for PhysAddr {
    fn default_const() -> PhysAddr {
        PhysAddr(0)
    }
}

} // verus!
