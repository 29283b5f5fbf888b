//! Placement of shared regions inside a guest's linear memory: the guest's
//! own allocator reserves room, and each region is put at the next page
//! boundary after the one before it.
use vstd::prelude::*;
use crate::align::{page_align, align_up, is_page_size};

verus! {

/// How the guest may touch a region.
#[derive(Clone, Copy, Debug, PartialEq, Eq, Structural)]
pub enum Access {
    ReadOnly,
    ReadWrite,
}

/// A region to place: its size in bytes and its access.
#[derive(Clone, Copy, Debug, PartialEq, Eq, Structural)]
pub struct RegionRequest {
    pub size: i64,
    pub access: Access,
}

/// Where a region goes: its address in the host's address space and its
/// offset inside the guest's linear memory.
#[derive(Clone, Copy, Debug, PartialEq, Eq, Structural)]
pub struct Placement {
    pub host_address: i64,
    pub guest_offset: i64,
    pub size: i64,
    pub access: Access,
}

/// Why regions could not be placed or mapped.
#[derive(Clone, Copy, Debug, PartialEq, Eq, Structural)]
pub enum MapError {
    /// The sizes do not fit the address space.
    TooLarge,
    /// The system mapped a region somewhere other than where it was asked to.
    AddressMismatch { requested: i64, actual: i64 },
}

pub open spec fn sum_sizes(reqs: Seq<RegionRequest>) -> int
    decreases reqs.len(),
{
    if reqs.len() == 0 {
        0
    } else {
        sum_sizes(reqs.drop_last()) + reqs.last().size
    }
}

/// The bytes to ask the guest's allocator for: the sizes, plus one page for
/// each region and one more, so that every region can be page-aligned
/// whatever alignment the allocator gives.
pub open spec fn allocation_bytes(reqs: Seq<RegionRequest>, page_size: int) -> int {
    sum_sizes(reqs) + (reqs.len() + 1) * page_size
}

/// The address of region `i` when the reservation starts at `start`.
pub open spec fn region_address(reqs: Seq<RegionRequest>, start: int, page_size: int, i: int) -> int
    decreases i,
{
    if i <= 0 {
        align_up(start, page_size)
    } else {
        align_up(region_address(reqs, start, page_size, i - 1) + reqs[i - 1].size, page_size)
    }
}

pub open spec fn sizes_valid(reqs: Seq<RegionRequest>) -> bool {
    forall|i: int| 0 <= i < reqs.len() ==> (#[trigger] reqs[i]).size >= 0
}

proof fn lemma_sum_grows(reqs: Seq<RegionRequest>, i: int)
    requires
        sizes_valid(reqs),
        0 <= i < reqs.len(),
    ensures
        sum_sizes(reqs.take(i + 1)) == sum_sizes(reqs.take(i)) + reqs[i].size,
        sum_sizes(reqs.take(i + 1)) <= sum_sizes(reqs),
        sum_sizes(reqs.take(i)) >= 0,
    decreases reqs.len() - i,
{
    assert(reqs.take(i + 1).drop_last() =~= reqs.take(i));
    lemma_sum_nonneg(reqs.take(i));
    if i + 1 == reqs.len() {
        assert(reqs.take(i + 1) =~= reqs);
    } else {
        lemma_sum_grows(reqs, i + 1);
    }
}

proof fn lemma_sum_nonneg(reqs: Seq<RegionRequest>)
    requires
        sizes_valid(reqs),
    ensures
        sum_sizes(reqs) >= 0,
    decreases reqs.len(),
{
    if reqs.len() > 0 {
        assert(sizes_valid(reqs.drop_last()));
        lemma_sum_nonneg(reqs.drop_last());
    }
}

/// Region `i` ends within the first `i + 1` sizes and `i + 1` pages of the
/// reservation.
proof fn lemma_region_bound(reqs: Seq<RegionRequest>, start: int, page_size: int, i: int)
    requires
        sizes_valid(reqs),
        0 <= i < reqs.len(),
        start > 0,
        page_size > 0,
    ensures
        region_address(reqs, start, page_size, i) >= start,
        region_address(reqs, start, page_size, i) % page_size == 0,
        region_address(reqs, start, page_size, i) + reqs[i].size
            <= start + sum_sizes(reqs.take(i + 1)) + (i + 1) * page_size - 1,
    decreases i,
{
    lemma_align_facts(start, page_size);
    lemma_sum_grows(reqs, i);
    assert((i + 1) * page_size == i * page_size + page_size) by (nonlinear_arith);
    if i > 0 {
        lemma_region_bound(reqs, start, page_size, i - 1);
        lemma_sum_grows(reqs, i - 1);
        assert(i * page_size == (i - 1) * page_size + page_size) by (nonlinear_arith);
        let prev_end = region_address(reqs, start, page_size, i - 1) + reqs[i - 1].size;
        lemma_align_facts(prev_end, page_size);
    } else {
        assert(reqs.take(0) =~= Seq::<RegionRequest>::empty());
        assert(sum_sizes(reqs.take(0)) == 0);
    }
}

proof fn lemma_align_facts(x: int, ps: int)
    requires
        x > 0,
        ps > 0,
    ensures
        x <= align_up(x, ps) <= x + ps - 1,
        align_up(x, ps) % ps == 0,
{
    let r = x % ps;
    assert(0 <= r < ps) by {
        vstd::arithmetic::div_mod::lemma_mod_bound(x, ps);
    }
    if r != 0 {
        let q = x / ps;
        vstd::arithmetic::div_mod::lemma_fundamental_div_mod(x, ps);
        assert(x - r + ps == (q + 1) * ps) by (nonlinear_arith)
            requires x == ps * q + r;
        vstd::arithmetic::div_mod::lemma_mod_multiples_basic(q + 1, ps);
    }
}

/// The bytes to reserve for `reqs`, or `None` when that does not fit an
/// `i64`.
pub fn allocation_size(reqs: &Vec<RegionRequest>, page_size: i64) -> (r: Option<i64>)
    requires
        sizes_valid(reqs@),
        page_size > 0,
    ensures
        match r {
            Some(n) => n == allocation_bytes(reqs@, page_size as int),
            None => allocation_bytes(reqs@, page_size as int) > i64::MAX,
        },
{
    let mut total: i64 = page_size;
    let mut i: usize = 0;
    assert(reqs@.take(0) =~= Seq::<RegionRequest>::empty());
    while i < reqs.len()
        invariant
            sizes_valid(reqs@),
            page_size > 0,
            i <= reqs@.len(),
            total == sum_sizes(reqs@.take(i as int)) + (i + 1) * page_size,
        decreases reqs@.len() - i,
    {
        proof {
            lemma_sum_grows(reqs@, i as int);
        }
        let size = reqs[i].size;
        if size > i64::MAX - total || page_size > i64::MAX - total - size {
            proof {
                lemma_sum_grows(reqs@, i as int);
                assert(sum_sizes(reqs@) >= sum_sizes(reqs@.take(i + 1)));
                assert((reqs@.len() + 1) * page_size >= (i + 2) * page_size) by (nonlinear_arith)
                    requires reqs@.len() >= i + 1, page_size > 0;
                assert((i + 1) * page_size + page_size == (i + 2) * page_size) by (nonlinear_arith);
            }
            return None;
        }
        total = total + size + page_size;
        proof {
            assert((i + 1) * page_size + page_size == (i + 2) * page_size) by (nonlinear_arith);
        }
        i = i + 1;
    }
    proof {
        assert(reqs@.take(i as int) =~= reqs@);
    }
    Some(total)
}

/// Places `reqs` one after another at page boundaries in a reservation at
/// guest offset `alloc_offset` of a linear memory that starts at host
/// address `memory_base`. Each region's guest offset is its host address
/// less `memory_base`.
pub fn plan_regions(memory_base: i64, alloc_offset: i64, page_size: i64, reqs: &Vec<RegionRequest>) -> (r: Vec<Placement>)
    requires
        is_page_size(page_size as int),
        sizes_valid(reqs@),
        memory_base >= 0,
        alloc_offset >= 0,
        memory_base + alloc_offset > 0,
        memory_base + alloc_offset + allocation_bytes(reqs@, page_size as int) <= i64::MAX,
    ensures
        r@.len() == reqs@.len(),
        forall|i: int| 0 <= i < r@.len() ==> {
            let p = #[trigger] r@[i];
            &&& p.host_address == region_address(reqs@, memory_base + alloc_offset, page_size as int, i)
            &&& p.guest_offset == p.host_address - memory_base
            &&& p.size == reqs@[i].size
            &&& p.access == reqs@[i].access
            &&& p.host_address % page_size == 0
            &&& p.host_address >= memory_base + alloc_offset
            &&& p.host_address + p.size <= memory_base + alloc_offset + allocation_bytes(reqs@, page_size as int)
        },
        forall|i: int, j: int| 0 <= i < j < r@.len() ==> r@[i].host_address + r@[i].size <= r@[j].host_address,
{
    let ghost ps = page_size as int;
    proof {
        let k = choose|k: nat| k < 62 && vstd::arithmetic::power2::pow2(k) == page_size;
        vstd::arithmetic::power2::lemma_pow2_pos(k);
        lemma_sum_nonneg(reqs@);
        assert((reqs@.len() + 1) * ps >= ps) by (nonlinear_arith)
            requires ps > 0;
    }
    let start = memory_base + alloc_offset;
    let ghost limit = start + allocation_bytes(reqs@, ps);
    let mut out: Vec<Placement> = Vec::new();
    let mut next: i64 = start;
    let mut i: usize = 0;
    while i < reqs.len()
        invariant
            is_page_size(page_size as int),
            ps == page_size,
            ps > 0,
            sizes_valid(reqs@),
            start == memory_base + alloc_offset,
            start > 0,
            memory_base >= 0,
            limit == start + allocation_bytes(reqs@, ps),
            limit <= i64::MAX,
            i <= reqs@.len(),
            out@.len() == i,
            i == 0 ==> next == start,
            i > 0 ==> next == region_address(reqs@, start as int, ps, i - 1) + reqs@[i - 1].size,
            i > 0 ==> next <= start + sum_sizes(reqs@.take(i as int)) + i * ps - 1,
            next >= start,
            forall|q: int| 0 <= q < i ==> {
                let p = #[trigger] out@[q];
                &&& p.host_address == region_address(reqs@, start as int, ps, q)
                &&& p.guest_offset == p.host_address - memory_base
                &&& p.size == reqs@[q].size
                &&& p.access == reqs@[q].access
                &&& p.host_address % page_size == 0
                &&& p.host_address >= start
                &&& p.host_address + p.size <= limit
            },
            forall|q: int, j: int| 0 <= q < j < i ==> out@[q].host_address + out@[q].size <= out@[j].host_address,
            i > 0 ==> forall|q: int| 0 <= q < i ==> out@[q].host_address + out@[q].size <= next,
        decreases reqs@.len() - i,
    {
        proof {
            lemma_region_bound(reqs@, start as int, ps, i as int);
            lemma_sum_grows(reqs@, i as int);
            assert((i + 1) * ps <= (reqs@.len() + 1) * ps) by (nonlinear_arith)
                requires i + 1 <= reqs@.len() + 1, ps > 0;
            assert(i * ps + ps == (i + 1) * ps) by (nonlinear_arith);
            if i == 0 {
                assert(reqs@.take(0) =~= Seq::<RegionRequest>::empty());
                assert(sum_sizes(reqs@.take(0)) == 0);
            }
        }
        let address = page_align(next, page_size);
        let req = reqs[i];
        out.push(Placement {
            host_address: address,
            guest_offset: address - memory_base,
            size: req.size,
            access: req.access,
        });
        next = address + req.size;
        i = i + 1;
    }
    out
}

/// The address that a mapping landed at must be the one it was asked for:
/// a region that drifted would overlay the wrong guest memory.
pub fn check_mapped(requested: i64, actual: i64) -> (r: Result<(), MapError>)
    ensures
        r is Ok <==> requested == actual,
        r is Err ==> r == Err::<(), MapError>(MapError::AddressMismatch { requested, actual }),
{
    if requested == actual {
        Ok(())
    } else {
        Err(MapError::AddressMismatch { requested, actual })
    }
}

/// The read-only and the read-write region of one guest, placed.
#[derive(Clone, Copy, Debug, PartialEq, Eq, Structural)]
pub struct Buffers {
    pub shared_ro: Placement,
    pub shared_rw: Placement,
}

/// What the guest's configuration call receives: where each region starts
/// in its linear memory and how long it is. The read-write region is handed
/// over without its signal slots.
#[derive(Clone, Copy, Debug, PartialEq, Eq, Structural)]
pub struct GuestConfig {
    pub ro_offset: i64,
    pub ro_size: i64,
    pub rw_offset: i64,
    pub rw_size: i64,
}

impl Buffers {
    /// Places a read-only region of `ro_size` bytes and then a read-write
    /// region of `rw_size` bytes in a reservation at `alloc_offset`.
    pub fn new(memory_base: i64, alloc_offset: i64, page_size: i64, ro_size: i64, rw_size: i64) -> (r: Buffers)
        requires
            is_page_size(page_size as int),
            ro_size >= 0,
            rw_size >= 0,
            memory_base >= 0,
            alloc_offset >= 0,
            memory_base + alloc_offset > 0,
            memory_base + alloc_offset + ro_size + rw_size + 3 * page_size <= i64::MAX,
        ensures
            r.shared_ro.host_address == align_up(memory_base + alloc_offset, page_size as int),
            r.shared_rw.host_address == align_up(r.shared_ro.host_address + ro_size, page_size as int),
            r.shared_ro.guest_offset == r.shared_ro.host_address - memory_base,
            r.shared_rw.guest_offset == r.shared_rw.host_address - memory_base,
            r.shared_ro.size == ro_size && r.shared_ro.access == Access::ReadOnly,
            r.shared_rw.size == rw_size && r.shared_rw.access == Access::ReadWrite,
            r.shared_ro.host_address + ro_size <= r.shared_rw.host_address,
            r.shared_rw.host_address + rw_size <= memory_base + alloc_offset + ro_size + rw_size + 3 * page_size,
    {
        let mut reqs: Vec<RegionRequest> = Vec::new();
        reqs.push(RegionRequest { size: ro_size, access: Access::ReadOnly });
        reqs.push(RegionRequest { size: rw_size, access: Access::ReadWrite });
        proof {
            assert(reqs@.drop_last().drop_last() =~= Seq::<RegionRequest>::empty());
            assert(sum_sizes(reqs@.drop_last().drop_last()) == 0);
            assert(sum_sizes(reqs@.drop_last()) == ro_size);
            assert(sum_sizes(reqs@) == ro_size + rw_size);
            assert(allocation_bytes(reqs@, page_size as int) == ro_size + rw_size + 3 * page_size);
        }
        let placed = plan_regions(memory_base, alloc_offset, page_size, &reqs);
        let ghost start = memory_base + alloc_offset;
        assert(placed@[0].host_address == region_address(reqs@, start, page_size as int, 0));
        assert(placed@[1].host_address == region_address(reqs@, start, page_size as int, 1));
        Buffers { shared_ro: placed[0], shared_rw: placed[1] }
    }

    /// The configuration for the guest, with `signal_bytes` of signal slots
    /// at the front of the read-write region kept from it.
    pub fn guest_config(&self, signal_bytes: i64) -> (r: Option<GuestConfig>)
        ensures
            r is Some <==> (0 <= signal_bytes <= self.shared_rw.size
                && self.shared_rw.guest_offset + signal_bytes <= i64::MAX),
            r is Some ==> r->Some_0.ro_offset == self.shared_ro.guest_offset && r->Some_0.ro_size == self.shared_ro.size
                && r->Some_0.rw_offset == self.shared_rw.guest_offset + signal_bytes
                && r->Some_0.rw_size == self.shared_rw.size - signal_bytes,
    {
        if signal_bytes < 0 || signal_bytes > self.shared_rw.size || self.shared_rw.guest_offset > i64::MAX - signal_bytes {
            return None;
        }
        Some(GuestConfig {
            ro_offset: self.shared_ro.guest_offset,
            ro_size: self.shared_ro.size,
            rw_offset: self.shared_rw.guest_offset + signal_bytes,
            rw_size: self.shared_rw.size - signal_bytes,
        })
    }
}

} // verus!
