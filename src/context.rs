//! The guest's handle on its mapped regions: offset and length descriptors,
//! checked against its linear memory once when made or moved, then used for
//! every access.
use vstd::prelude::*;

verus! {

/// A region inside the guest's linear memory.
#[derive(Clone, Copy, Debug, PartialEq, Eq, Structural)]
pub struct RegionView {
    pub offset: usize,
    pub len: usize,
}

/// The region lies within a linear memory of `memory_size` bytes.
pub open spec fn fits(r: RegionView, memory_size: nat) -> bool {
    r.offset + r.len <= memory_size
}

/// The two regions share no byte.
pub open spec fn disjoint(a: RegionView, b: RegionView) -> bool {
    a.offset + a.len <= b.offset || b.offset + b.len <= a.offset
}

pub open spec fn valid_pair(ro: RegionView, rw: RegionView, memory_size: nat) -> bool {
    fits(ro, memory_size) && fits(rw, memory_size) && disjoint(ro, rw)
}

/// Why a context could not be made or moved.
#[derive(Clone, Copy, Debug, PartialEq, Eq, Structural)]
pub enum ContextError {
    /// A region reaches past the end of linear memory.
    OutOfBounds,
    /// The two regions overlap.
    Overlap,
}

/// The guest's execution context: where its read-only and its read-write
/// region (without the signal slots) stand in its linear memory.
pub struct GuestContext {
    ro: RegionView,
    rw: RegionView,
}

fn check_pair(ro: RegionView, rw: RegionView, memory_size: usize) -> (r: Result<(), ContextError>)
    ensures
        r is Ok <==> valid_pair(ro, rw, memory_size as nat),
        r is Err ==> (r == Err::<(), ContextError>(ContextError::Overlap) <==>
            (fits(ro, memory_size as nat) && fits(rw, memory_size as nat))),
{
    if ro.offset > memory_size || ro.len > memory_size - ro.offset || rw.offset > memory_size
        || rw.len > memory_size - rw.offset {
        return Err(ContextError::OutOfBounds);
    }
    if ro.offset + ro.len <= rw.offset || rw.offset + rw.len <= ro.offset {
        Ok(())
    } else {
        Err(ContextError::Overlap)
    }
}

impl GuestContext {
    pub closed spec fn ro_view(&self) -> RegionView {
        self.ro
    }

    pub closed spec fn rw_view(&self) -> RegionView {
        self.rw
    }

    /// Both regions end within the address range.
    pub open spec fn wf(&self) -> bool {
        fits(self.ro_view(), usize::MAX as nat) && fits(self.rw_view(), usize::MAX as nat)
    }

    /// A context for regions `ro` and `rw` in a linear memory of
    /// `memory_size` bytes; both must fit and must not overlap.
    pub fn create(ro: RegionView, rw: RegionView, memory_size: usize) -> (r: Result<GuestContext, ContextError>)
        ensures
            r is Ok <==> valid_pair(ro, rw, memory_size as nat),
            r is Ok ==> r->Ok_0.ro_view() == ro && r->Ok_0.rw_view() == rw && r->Ok_0.wf(),
            r is Err ==> (r->Err_0 == ContextError::Overlap <==> (fits(ro, memory_size as nat) && fits(rw, memory_size as nat))),
    {
        match check_pair(ro, rw, memory_size) {
            Ok(()) => Ok(GuestContext { ro, rw }),
            Err(e) => Err(e),
        }
    }

    /// Moves both regions to new offsets after the guest's memory was
    /// relocated; their lengths stay. On an error nothing changes.
    pub fn update(&mut self, ro_offset: usize, rw_offset: usize, memory_size: usize) -> (r: Result<(), ContextError>)
        requires
            old(self).wf(),
        ensures
            final(self).wf(),
            ({
                let ro = RegionView { offset: ro_offset, len: old(self).ro_view().len };
                let rw = RegionView { offset: rw_offset, len: old(self).rw_view().len };
                &&& r is Ok <==> valid_pair(ro, rw, memory_size as nat)
                &&& r is Ok ==> final(self).ro_view() == ro && final(self).rw_view() == rw
                &&& r is Err ==> final(self).ro_view() == old(self).ro_view() && final(self).rw_view() == old(self).rw_view()
            }),
    {
        let ro = RegionView { offset: ro_offset, len: self.ro.len };
        let rw = RegionView { offset: rw_offset, len: self.rw.len };
        match check_pair(ro, rw, memory_size) {
            Ok(()) => {
                self.ro = ro;
                self.rw = rw;
                Ok(())
            },
            Err(e) => Err(e),
        }
    }

    pub fn ro(&self) -> (r: RegionView)
        ensures
            r == self.ro_view(),
    {
        self.ro
    }

    pub fn rw(&self) -> (r: RegionView)
        ensures
            r == self.rw_view(),
    {
        self.rw
    }

    /// The linear-memory offset of byte `i` of the read-only region, or
    /// `None` past its end.
    pub fn ro_address(&self, i: usize) -> (r: Option<usize>)
        requires
            self.wf(),
        ensures
            r is Some <==> i < self.ro_view().len,
            r is Some ==> r->Some_0 == self.ro_view().offset + i,
    {
        region_address(self.ro, i)
    }

    /// The linear-memory offset of byte `i` of the read-write region, or
    /// `None` past its end.
    pub fn rw_address(&self, i: usize) -> (r: Option<usize>)
        requires
            self.wf(),
        ensures
            r is Some <==> i < self.rw_view().len,
            r is Some ==> r->Some_0 == self.rw_view().offset + i,
    {
        region_address(self.rw, i)
    }
}

fn region_address(v: RegionView, i: usize) -> (r: Option<usize>)
    requires
        v.offset + v.len <= usize::MAX,
    ensures
        r is Some <==> i < v.len,
        r is Some ==> r->Some_0 == v.offset + i,
{
    if i < v.len {
        Some(v.offset + i)
    } else {
        None
    }
}

} // verus!
