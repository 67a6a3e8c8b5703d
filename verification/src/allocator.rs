//! The boot-time memory allocator.
//!
//! A `Memblock` tracks two separated region sets — available memory and
//! reserved memory — and supports inserting ranges with coalescing,
//! subtracting ranges with splitting, and first-fit aligned allocation that
//! reserves the chosen range before returning it.

use vstd::prelude::*;

use crate::region::covers;
use crate::region::lemma_sep_pairwise;
use crate::region::lemma_sep_take;
use crate::region::lemma_total_size_concat;
use crate::region::lemma_total_size_take_bound;
use crate::region::r_end;
use crate::region::range_overlaps;
use crate::region::region_covers;
use crate::region::region_wf;
use crate::region::sep;
use crate::region::total_size;
use crate::region::Region;

verus! {

/// Maximum number of memory regions that can be tracked in each set.
pub const MAX_REGIONS: usize = 128;

/// The outcome of a failed allocator operation.
#[derive(Debug, Clone, Copy, PartialEq, Eq, Structural)]
pub enum MemblockError {
    /// A new available or reserved range intersects an existing one in the
    /// same set.
    OverlapError,
    /// The bounded region table would exceed its maximum entry count.
    CapacityError,
    /// A zero-size allocation was requested.
    InvalidSizeError,
    /// No available, unreserved, aligned, size-fitting interval exists.
    OutOfMemoryError,
}

/// Whether inserting `[base, end)` into the set would be absorbed by
/// coalescing: some stored region touches it end-to-start.
pub open spec fn absorbs(s: Seq<Region>, base: int, end: int) -> bool {
    exists|i: int| 0 <= i < s.len() && (r_end(#[trigger] s[i]) == base || s[i].base == end)
}

/// The boot-time memory allocator.
pub struct Memblock {
    /// Available memory regions, kept separated and sorted.
    memory: Vec<Region>,
    /// Reserved memory regions, kept separated and sorted.
    reserved: Vec<Region>,
}

impl Memblock {
    /// The available region set, as a sequence.
    pub closed spec fn mem(self) -> Seq<Region> {
        self.memory@
    }

    /// The reserved region set, as a sequence.
    pub closed spec fn rsv(self) -> Seq<Region> {
        self.reserved@
    }

    /// The allocator invariant: both region sets are separated (sorted,
    /// disjoint, non-adjacent, every region non-empty with a representable
    /// end) and within the bounded capacity.
    pub open spec fn wf(self) -> bool {
        &&& sep(self.mem())
        &&& sep(self.rsv())
        &&& self.mem().len() <= MAX_REGIONS
        &&& self.rsv().len() <= MAX_REGIONS
    }

    /// Creates a new empty memblock allocator.
    pub fn new() -> (mb: Self)
        ensures
            mb.wf(),
            mb.mem() == Seq::<Region>::empty(),
            mb.rsv() == Seq::<Region>::empty(),
    {
        Memblock { memory: Vec::new(), reserved: Vec::new() }
    }

    /// Number of regions currently tracked in the available set.
    pub fn memory_count(&self) -> (n: usize)
        ensures
            n == self.mem().len(),
    {
        self.memory.len()
    }

    /// Number of regions currently tracked in the reserved set.
    pub fn reserved_count(&self) -> (n: usize)
        ensures
            n == self.rsv().len(),
    {
        self.reserved.len()
    }

    /// The available region at the given position, in base-address order.
    pub fn memory_region(&self, i: usize) -> (r: Region)
        requires
            i < self.mem().len(),
        ensures
            r == self.mem()[i as int],
    {
        self.memory[i]
    }

    /// The reserved region at the given position, in base-address order.
    pub fn reserved_region(&self, i: usize) -> (r: Region)
        requires
            i < self.rsv().len(),
        ensures
            r == self.rsv()[i as int],
    {
        self.reserved[i]
    }

    /// Returns the total size of all available memory regions.
    pub fn total_memory(&self) -> (t: u64)
        requires
            self.wf(),
        ensures
            t == total_size(self.mem()),
    {
        sum_region_sizes(&self.memory)
    }

    /// Returns the total size of all reserved regions.
    pub fn total_reserved(&self) -> (t: u64)
        requires
            self.wf(),
        ensures
            t == total_size(self.rsv()),
    {
        sum_region_sizes(&self.reserved)
    }

    /// Adds a new memory region to the available pool.
    ///
    /// A zero-size range is a successful no-op.  The range may be merged
    /// with existing regions it touches end-to-start; a range that overlaps
    /// a stored available region is rejected, as is one that would push the
    /// table past its capacity without being absorbed by coalescing.
    pub fn add(&mut self, base: u64, size: u64) -> (r: Result<(), MemblockError>)
        requires
            old(self).wf(),
            base + size <= u64::MAX,
        ensures
            final(self).wf(),
            final(self).rsv() == old(self).rsv(),
            size == 0 ==> r is Ok && *final(self) == *old(self),
            r is Err ==> *final(self) == *old(self),
            size > 0 ==> (r is Ok <==> !range_overlaps(old(self).mem(), base as int, base + size)
                && (absorbs(old(self).mem(), base as int, base + size) || old(
                self,
            ).mem().len() < MAX_REGIONS)),
            size > 0 && range_overlaps(old(self).mem(), base as int, base + size) ==> r == Err::<
                (),
                MemblockError,
            >(MemblockError::OverlapError),
            size > 0 && r is Err && !range_overlaps(old(self).mem(), base as int, base + size)
                ==> r == Err::<(), MemblockError>(MemblockError::CapacityError),
            size > 0 && r is Ok ==> forall|a: int|
                #[trigger] covers(final(self).mem(), a) <==> covers(old(self).mem(), a) || (base
                    <= a < base + size),
            r is Ok ==> total_size(final(self).mem()) == total_size(old(self).mem()) + size,
    {
        if size == 0 {
            return Ok(());
        }
        insert_region(&mut self.memory, base, size)
    }

    /// Reserves a region of memory (marks it as unavailable for allocation).
    ///
    /// Same contract as `add`, but on the reserved set: reservation is
    /// independent of the available set's contents.
    pub fn reserve(&mut self, base: u64, size: u64) -> (r: Result<(), MemblockError>)
        requires
            old(self).wf(),
            base + size <= u64::MAX,
        ensures
            final(self).wf(),
            final(self).mem() == old(self).mem(),
            size == 0 ==> r is Ok && *final(self) == *old(self),
            r is Err ==> *final(self) == *old(self),
            size > 0 ==> (r is Ok <==> !range_overlaps(old(self).rsv(), base as int, base + size)
                && (absorbs(old(self).rsv(), base as int, base + size) || old(
                self,
            ).rsv().len() < MAX_REGIONS)),
            size > 0 && range_overlaps(old(self).rsv(), base as int, base + size) ==> r == Err::<
                (),
                MemblockError,
            >(MemblockError::OverlapError),
            size > 0 && r is Err && !range_overlaps(old(self).rsv(), base as int, base + size)
                ==> r == Err::<(), MemblockError>(MemblockError::CapacityError),
            size > 0 && r is Ok ==> forall|a: int|
                #[trigger] covers(final(self).rsv(), a) <==> covers(old(self).rsv(), a) || (base
                    <= a < base + size),
            r is Ok ==> total_size(final(self).rsv()) == total_size(old(self).rsv()) + size,
    {
        if size == 0 {
            return Ok(());
        }
        insert_region(&mut self.reserved, base, size)
    }

    /// Removes a range from the available memory pool.
    ///
    /// Used when memory becomes unavailable after having been added (e.g.
    /// carved out for a device).  A zero-size range is a successful no-op.
    /// Regions outside the range are kept; regions inside it vanish; regions
    /// crossing its edges are truncated; a region strictly around it is
    /// split in two, which fails with `CapacityError` if the table is
    /// already full.  The reserved set is never touched.
    pub fn remove(&mut self, base: u64, size: u64) -> (r: Result<(), MemblockError>)
        requires
            old(self).wf(),
            base + size <= u64::MAX,
        ensures
            final(self).wf(),
            final(self).rsv() == old(self).rsv(),
            size == 0 ==> r is Ok && *final(self) == *old(self),
            r is Err ==> *final(self) == *old(self) && r == Err::<(), MemblockError>(
                MemblockError::CapacityError,
            ),
            size > 0 ==> (r is Ok <==> !(splits_interior(old(self).mem(), base as int, base + size)
                && old(self).mem().len() == MAX_REGIONS)),
            size > 0 && r is Ok ==> forall|a: int|
                #[trigger] covers(final(self).mem(), a) <==> covers(old(self).mem(), a) && !(base
                    <= a < base + size),
            size > 0 && r is Ok ==> total_size(final(self).mem()) == total_size(old(self).mem())
                - covered_within(old(self).mem(), base as int, base + size),
    {
        if size == 0 {
            return Ok(());
        }
        let end = base + size;
        let ghost s0 = self.memory@;
        let n = self.memory.len();
        let mut out: Vec<Region> = Vec::new();
        let ghost mut split_seen = false;
        let mut i: usize = 0;
        while i < n
            invariant
                self.memory@ == s0,
                sep(s0),
                n == s0.len(),
                n <= MAX_REGIONS,
                size > 0,
                end == base + size,
                base + size <= u64::MAX,
                i <= n,
                sep(out@),
                out@.len() <= i + if split_seen { 1int } else { 0int },
                splits_interior(s0, base as int, end as int) ==> out@.len() == i + if split_seen { 1int } else { 0int },
                split_seen <==> (exists|j: int| 0 <= j < i && (#[trigger] s0[j]).base < base && end < r_end(s0[j])),
                forall|a: int| #[trigger] covers(out@, a) <==> covers(s0.take(i as int), a) && !(base <= a < end),
                total_size(out@) == total_size(s0.take(i as int)) - covered_within(s0.take(i as int), base as int, end as int),
                out@.len() > 0 ==> i > 0 && r_end(out@.last()) <= r_end(s0[i - 1]),
            decreases n - i,
        {
            let ghost out0 = out@;
            let rg = self.memory[i];
            let rg_end = rg.base + rg.size;
            if !(rg.base < end && base < rg_end) {
                out.push(rg);
                proof {
                    lemma_take_unfold(s0, i as int, base as int, end as int);
                    lemma_remove_keep(out0, s0, i as int, base as int, end as int);
                    if s0[i as int].base < base && end < r_end(s0[i as int]) {
                        assert(s0[i as int].base < end && base < r_end(s0[i as int]));
                    }
                }
            } else if base <= rg.base && rg_end <= end {
                proof {
                    lemma_take_unfold(s0, i as int, base as int, end as int);
                    lemma_remove_drop(out0, s0, i as int, base as int, end as int);
                    if splits_interior(s0, base as int, end as int) {
                        let j = choose|j: int|
                            0 <= j < s0.len() && (#[trigger] s0[j]).base < base && end < r_end(
                                s0[j],
                            );
                        lemma_split_witness_unique(s0, j, base as int, end as int);
                        assert(j == i);
                        assert(false);
                    }
                }
            } else if base <= rg.base {
                let piece = Region { base: end, size: rg_end - end, flags: rg.flags };
                out.push(piece);
                proof {
                    assert(region_wf(piece));
                    assert forall|a: int|
                        region_covers(#[trigger] s0[i as int], a) && !(base <= a < end)
                            <==> region_covers(piece, a) by {}
                    lemma_take_unfold(s0, i as int, base as int, end as int);
                    lemma_remove_clip(out0, s0, i as int, base as int, end as int, piece);
                    assert(piece.size == s0[i as int].size - overlap_len(
                        s0[i as int],
                        base as int,
                        end as int,
                    ));
                    if splits_interior(s0, base as int, end as int) {
                        let j = choose|j: int|
                            0 <= j < s0.len() && (#[trigger] s0[j]).base < base && end < r_end(
                                s0[j],
                            );
                        lemma_split_witness_unique(s0, j, base as int, end as int);
                        assert(j == i);
                        assert(false);
                    }
                }
            } else if rg_end <= end {
                let piece = Region { base: rg.base, size: base - rg.base, flags: rg.flags };
                out.push(piece);
                proof {
                    assert(region_wf(piece));
                    assert forall|a: int|
                        region_covers(#[trigger] s0[i as int], a) && !(base <= a < end)
                            <==> region_covers(piece, a) by {}
                    lemma_take_unfold(s0, i as int, base as int, end as int);
                    lemma_remove_clip(out0, s0, i as int, base as int, end as int, piece);
                    assert(piece.size == s0[i as int].size - overlap_len(
                        s0[i as int],
                        base as int,
                        end as int,
                    ));
                    if splits_interior(s0, base as int, end as int) {
                        let j = choose|j: int|
                            0 <= j < s0.len() && (#[trigger] s0[j]).base < base && end < r_end(
                                s0[j],
                            );
                        lemma_split_witness_unique(s0, j, base as int, end as int);
                        assert(j == i);
                        assert(false);
                    }
                }
            } else {
                let left = Region { base: rg.base, size: base - rg.base, flags: rg.flags };
                let right = Region { base: end, size: rg_end - end, flags: rg.flags };
                out.push(left);
                out.push(right);
                proof {
                    lemma_take_unfold(s0, i as int, base as int, end as int);
                    lemma_remove_split(out0, s0, i as int, base as int, end as int, left, right);
                    assert(left.size + right.size == s0[i as int].size - overlap_len(
                        s0[i as int],
                        base as int,
                        end as int,
                    ));
                    assert(s0[i as int].base < base && end < r_end(s0[i as int]));
                    lemma_split_witness_unique(s0, i as int, base as int, end as int);
                    assert(!split_seen);
                    split_seen = true;
                    assert(splits_interior(s0, base as int, end as int));
                }
            }
            i += 1;
        }
        if out.len() > MAX_REGIONS {
            proof {
                assert(splits_interior(s0, base as int, end as int));
                assert(n == MAX_REGIONS);
            }
            return Err(MemblockError::CapacityError);
        }
        proof {
            assert(s0.take(n as int) =~= s0);
        }
        self.memory = out;
        Ok(())
    }

    /// Allocates a contiguous region of physical memory.
    ///
    /// Scans available regions in ascending address order and probes
    /// aligned candidate addresses; the first candidate that fits inside an
    /// available region and overlaps no reserved region wins, is reserved,
    /// and is returned.  An alignment of zero means no constraint.  A failed
    /// attempt leaves both region sets unchanged.
    pub fn allocate(&mut self, size: u64, align: u64) -> (r: Result<u64, MemblockError>)
        requires
            old(self).wf(),
        ensures
            final(self).wf(),
            final(self).mem() == old(self).mem(),
            size == 0 <==> r == Err::<u64, MemblockError>(MemblockError::InvalidSizeError),
            r is Err ==> *final(self) == *old(self),
            size > 0 && !(exists|a: int|
                candidate(
                    old(self).mem(),
                    old(self).rsv(),
                    a,
                    size as int,
                    effective_align(align),
                )) ==> r == Err::<u64, MemblockError>(MemblockError::OutOfMemoryError),
            r matches Ok(addr) ==> first_fit(
                old(self).mem(),
                old(self).rsv(),
                addr as int,
                size as int,
                effective_align(align),
            ) && (forall|x: int|
                #[trigger] covers(final(self).rsv(), x) <==> covers(old(self).rsv(), x) || (addr
                    <= x < addr + size)) && total_size(final(self).rsv()) == total_size(
                old(self).rsv(),
            ) + size,
            size > 0 && r is Err && (exists|a: int|
                candidate(
                    old(self).mem(),
                    old(self).rsv(),
                    a,
                    size as int,
                    effective_align(align),
                )) ==> r == Err::<u64, MemblockError>(MemblockError::CapacityError) && old(
                self,
            ).rsv().len() == MAX_REGIONS,
            size > 0 && (exists|a: int|
                first_fit(old(self).mem(), old(self).rsv(), a, size as int, effective_align(align))
                    && (absorbs(old(self).rsv(), a, a + size) || old(self).rsv().len()
                    < MAX_REGIONS)) ==> r is Ok,
    {
        if size == 0 {
            return Err(MemblockError::InvalidSizeError);
        }
        let al: u64 = if align == 0 {
            1
        } else {
            align
        };
        let ghost mem0 = self.memory@;
        let ghost rsv0 = self.reserved@;
        let ghost ali = effective_align(align);
        proof {
            assert(ali == al as int);
        }

        let n = self.memory.len();
        let mut i: usize = 0;
        while i < n
            invariant
                *self == *old(self),
                self.memory@ == mem0,
                self.reserved@ == rsv0,
                sep(mem0),
                sep(rsv0),
                mem0.len() == n,
                n <= MAX_REGIONS,
                rsv0.len() <= MAX_REGIONS,
                size > 0,
                al >= 1,
                ali == al as int,
                ali == effective_align(align),
                i <= n,
                forall|c: int, k: int|
                    0 <= k < i && (#[trigger] mem0[k]).base <= c && c + size <= r_end(mem0[k])
                        && #[trigger] (c % ali) == 0 ==> range_overlaps(rsv0, c, c + size),
            decreases n - i,
        {
            let rg = self.memory[i];
            proof {
                assert(region_wf(mem0[i as int]));
            }
            let rg_end = rg.base + rg.size;
            let rem = rg.base % al;
            let pad = if rem == 0 {
                0
            } else {
                al - rem
            };
            proof {
                lemma_first_aligned(rg.base as int, ali, pad as int);
            }
            if pad <= u64::MAX - rg.base && size <= rg.size && rg.base + pad <= rg_end - size {
                let first = rg.base + pad;
                let limit = rg_end - size;
                let mut a = first;
                while a <= limit
                    invariant
                        *self == *old(self),
                        self.memory@ == mem0,
                        self.reserved@ == rsv0,
                        sep(mem0),
                        sep(rsv0),
                        mem0.len() == n,
                        n <= MAX_REGIONS,
                        rsv0.len() <= MAX_REGIONS,
                        size > 0,
                        al >= 1,
                        ali == al as int,
                        ali == effective_align(align),
                        i < n,
                        rg == mem0[i as int],
                        rg_end == r_end(mem0[i as int]),
                        size <= rg_end <= u64::MAX,
                        limit == rg_end - size,
                        (a as int) % ali == 0,
                        a >= rg.base,
                        forall|c: int|
                            #[trigger] (c % ali) == 0 && rg.base <= c < a && c + size <= rg_end
                                ==> range_overlaps(rsv0, c, c + size),
                        forall|c: int, k: int|
                            0 <= k < i && (#[trigger] mem0[k]).base <= c && c + size <= r_end(
                                mem0[k],
                            ) && #[trigger] (c % ali) == 0 ==> range_overlaps(rsv0, c, c + size),
                    ensures
                        forall|c: int|
                            #[trigger] (c % ali) == 0 && rg.base <= c && c + size <= rg_end
                                ==> range_overlaps(rsv0, c, c + size),
                    decreases u64::MAX - a,
                {
                    if !overlaps_range(&self.reserved, a, a + size) {
                        proof {
                            lemma_first_fit_found(mem0, rsv0, i as int, a as int, size as int, ali);
                        }
                        let res = insert_region(&mut self.reserved, a, size);
                        match res {
                            Ok(_ok) => {
                                proof {
                                    assert(mem0 == old(self).mem());
                                    assert(rsv0 == old(self).rsv());
                                    assert(candidate(mem0, rsv0, a as int, size as int, ali));
                                }
                                return Ok(a);
                            },
                            Err(e) => {
                                proof {
                                    assert(mem0 == old(self).mem());
                                    assert(rsv0 == old(self).rsv());
                                    assert(e == MemblockError::CapacityError);
                                    assert(candidate(mem0, rsv0, a as int, size as int, ali));
                                    lemma_capacity_exit(mem0, rsv0, a as int, size as int, ali);
                                }
                                return Err(e);
                            },
                        }
                    }
                    proof {
                        assert(range_overlaps(rsv0, a as int, a + size));
                        lemma_probe_advance(
                            rsv0,
                            rg.base as int,
                            rg_end as int,
                            a as int,
                            size as int,
                            ali,
                        );
                    }
                    if a > u64::MAX - al {
                        proof {
                            assert forall|c: int|
                                #[trigger] (c % ali) == 0 && rg.base <= c && c + size <= rg_end
                                    implies range_overlaps(rsv0, c, c + size) by {
                                assert(c <= rg_end - size);
                                assert(c < a + ali);
                            }
                        }
                        break;
                    }
                    proof {
                        vstd::arithmetic::div_mod::lemma_mod_add_multiples_vanish(a as int, ali);
                        assert(((a + al) as int) % ali == 0);
                    }
                    a = a + al;
                }
            } else {
                proof {
                    assert forall|c: int|
                        #[trigger] (c % ali) == 0 && rg.base <= c && c + size <= rg_end implies
                        range_overlaps(rsv0, c, c + size) by {
                        assert(c >= rg.base + pad);
                        if pad > u64::MAX - rg.base {
                            assert(c + size <= rg_end <= u64::MAX);
                            assert(false);
                        } else if size > rg.size {
                            assert(c + size > rg_end);
                            assert(false);
                        } else {
                            assert(c > rg_end - size);
                            assert(false);
                        }
                    }
                }
            }
            proof {
                assert forall|c: int, k: int|
                    0 <= k < i + 1 && (#[trigger] mem0[k]).base <= c && c + size <= r_end(mem0[k])
                        && #[trigger] (c % ali) == 0 implies range_overlaps(rsv0, c, c + size) by {
                    if k == i {
                        assert(rg.base <= c && c + size <= rg_end);
                    }
                }
            }
            i += 1;
        }
        proof {
            if exists|a: int| candidate(mem0, rsv0, a, size as int, ali) {
                let a = choose|a: int| candidate(mem0, rsv0, a, size as int, ali);
                let k = choose|k: int|
                    0 <= k < mem0.len() && (#[trigger] mem0[k]).base <= a && a + size <= r_end(
                        mem0[k],
                    );
                assert(range_overlaps(rsv0, a, a + size));
                assert(false);
            }
        }
        Err(MemblockError::OutOfMemoryError)
    }

    /// Dumps the current state for debugging.
    ///
    /// A no-op by default: callers that want output should walk the region
    /// view themselves and format it for their own output device.
    pub fn dump(&self) {
    }
}

/// Every operation keeps each region set sorted by base, pairwise
/// non-overlapping and pairwise non-adjacent: in a well-formed allocator,
/// any earlier region of either set ends strictly before any later one
/// begins.
pub proof fn lemma_region_sets_separated(mb: Memblock)
    requires
        mb.wf(),
    ensures
        forall|i: int, j: int|
            0 <= i < j < mb.mem().len() ==> r_end(#[trigger] mb.mem()[i])
                < (#[trigger] mb.mem()[j]).base,
        forall|i: int, j: int|
            0 <= i < j < mb.rsv().len() ==> r_end(#[trigger] mb.rsv()[i])
                < (#[trigger] mb.rsv()[j]).base,
{
    lemma_sep_pairwise(mb.mem());
    lemma_sep_pairwise(mb.rsv());
}

/// The number of bytes of `[lo, hi)` that the region `r` covers.
pub open spec fn overlap_len(r: Region, lo: int, hi: int) -> int {
    let lo2 = if r.base > lo {
        r.base as int
    } else {
        lo
    };
    let hi2 = if r_end(r) < hi {
        r_end(r)
    } else {
        hi
    };
    if hi2 > lo2 {
        hi2 - lo2
    } else {
        0
    }
}

/// The number of bytes of `[lo, hi)` that the region set covers.
pub open spec fn covered_within(s: Seq<Region>, lo: int, hi: int) -> int
    decreases s.len(),
{
    if s.len() == 0 {
        0
    } else {
        covered_within(s.drop_last(), lo, hi) + overlap_len(s.last(), lo, hi)
    }
}

/// The number of available-and-unreserved bytes: for each available region,
/// its size less the bytes of it that reserved regions cover.
pub open spec fn free_bytes(mem: Seq<Region>, rsv: Seq<Region>) -> int
    decreases mem.len(),
{
    if mem.len() == 0 {
        0
    } else {
        free_bytes(mem.drop_last(), rsv) + mem.last().size - covered_within(
            rsv,
            mem.last().base as int,
            r_end(mem.last()),
        )
    }
}

/// Covered byte counts are never negative.
proof fn lemma_covered_within_nonneg(s: Seq<Region>, lo: int, hi: int)
    ensures
        covered_within(s, lo, hi) >= 0,
    decreases s.len(),
{
    if s.len() > 0 {
        lemma_covered_within_nonneg(s.drop_last(), lo, hi);
    }
}

/// Clipping at `hi` or at a lower bound `hi2` is the same when every region
/// of the set already ends at or below `hi2`.
proof fn lemma_covered_within_clip(s: Seq<Region>, lo: int, hi: int, hi2: int)
    requires
        hi2 <= hi,
        forall|j: int| 0 <= j < s.len() ==> r_end(#[trigger] s[j]) <= hi2,
    ensures
        covered_within(s, lo, hi) == covered_within(s, lo, hi2),
    decreases s.len(),
{
    if s.len() > 0 {
        assert(forall|j: int| 0 <= j < s.len() - 1 ==> s.drop_last()[j] == s[j]);
        lemma_covered_within_clip(s.drop_last(), lo, hi, hi2);
        assert(r_end(s.last()) <= hi2);
    }
}

/// A separated region set covers at most all of `[lo, hi)`.
proof fn lemma_covered_within_bound(s: Seq<Region>, lo: int, hi: int)
    requires
        sep(s),
    ensures
        covered_within(s, lo, hi) <= (if hi > lo {
            hi - lo
        } else {
            0
        }),
    decreases s.len(),
{
    lemma_covered_within_nonneg(s, lo, hi);
    if s.len() > 0 {
        let dl = s.drop_last();
        let last = s.last();
        assert(forall|j: int| 0 <= j < dl.len() ==> dl[j] == s[j]);
        assert(sep(dl));
        let mid = if (last.base as int) < hi {
            last.base as int
        } else {
            hi
        };
        lemma_sep_pairwise(s);
        if mid < hi {
            assert forall|j: int| 0 <= j < dl.len() implies r_end(#[trigger] dl[j]) <= mid by {
                assert(r_end(s[j]) < last.base);
            }
            lemma_covered_within_clip(dl, lo, hi, mid);
        }
        lemma_covered_within_bound(dl, lo, mid);
        lemma_covered_within_nonneg(dl, lo, mid);
    }
}

/// Covering splits across a partition of `[lo, hi)` into three parts.
proof fn lemma_covered_within_split(s: Seq<Region>, lo: int, a: int, b: int, hi: int)
    requires
        lo <= a <= b <= hi,
    ensures
        covered_within(s, lo, hi) == covered_within(s, lo, a) + covered_within(s, a, b)
            + covered_within(s, b, hi),
    decreases s.len(),
{
    if s.len() > 0 {
        lemma_covered_within_split(s.drop_last(), lo, a, b, hi);
        assert(overlap_len(s.last(), lo, hi) == overlap_len(s.last(), lo, a) + overlap_len(
            s.last(),
            a,
            b,
        ) + overlap_len(s.last(), b, hi));
    }
}

/// A range that overlaps no region of the set has none of its bytes
/// covered.
proof fn lemma_covered_within_zero(s: Seq<Region>, lo: int, hi: int)
    requires
        forall|j: int| 0 <= j < s.len() ==> !((#[trigger] s[j]).base < hi && lo < r_end(s[j])),
    ensures
        covered_within(s, lo, hi) == 0,
    decreases s.len(),
{
    if s.len() > 0 {
        assert(forall|j: int| 0 <= j < s.len() - 1 ==> s.drop_last()[j] == s[j]);
        lemma_covered_within_zero(s.drop_last(), lo, hi);
        assert(!(s.last().base < hi && lo < r_end(s.last())));
        assert(overlap_len(s.last(), lo, hi) == 0);
    }
}

/// The free bytes of the whole available set are at least the free bytes
/// inside any one available region.
proof fn lemma_free_bytes_ge_elem(mem: Seq<Region>, rsv: Seq<Region>, i: int)
    requires
        sep(mem),
        sep(rsv),
        0 <= i < mem.len(),
    ensures
        free_bytes(mem, rsv) >= mem[i].size - covered_within(rsv, mem[i].base as int, r_end(mem[i])),
    decreases mem.len(),
{
    let dl = mem.drop_last();
    let last = mem.last();
    assert(forall|j: int| 0 <= j < dl.len() ==> dl[j] == mem[j]);
    assert(sep(dl));
    assert(region_wf(last));
    lemma_covered_within_bound(rsv, last.base as int, r_end(last));
    lemma_covered_within_nonneg(rsv, last.base as int, r_end(last));
    if i + 1 < mem.len() {
        lemma_free_bytes_ge_elem(dl, rsv, i);
    } else {
        lemma_free_bytes_nonneg(dl, rsv);
    }
}

/// Free byte counts are never negative.
proof fn lemma_free_bytes_nonneg(mem: Seq<Region>, rsv: Seq<Region>)
    requires
        sep(mem),
        sep(rsv),
    ensures
        free_bytes(mem, rsv) >= 0,
    decreases mem.len(),
{
    if mem.len() > 0 {
        let dl = mem.drop_last();
        let last = mem.last();
        assert(forall|j: int| 0 <= j < dl.len() ==> dl[j] == mem[j]);
        assert(sep(dl));
        assert(region_wf(last));
        lemma_free_bytes_nonneg(dl, rsv);
        lemma_covered_within_bound(rsv, last.base as int, r_end(last));
    }
}

/// Any allocation candidate fits within the available-and-unreserved
/// bytes: its whole range lies in one available region and avoids every
/// reserved region.
pub proof fn lemma_candidate_within_free(
    mem: Seq<Region>,
    rsv: Seq<Region>,
    a: int,
    size: int,
    al: int,
)
    requires
        sep(mem),
        sep(rsv),
        size > 0,
        candidate(mem, rsv, a, size, al),
    ensures
        size <= free_bytes(mem, rsv),
{
    let i = choose|i: int|
        0 <= i < mem.len() && (#[trigger] mem[i]).base <= a && a + size <= r_end(mem[i]);
    let lo = mem[i].base as int;
    let hi = r_end(mem[i]);
    lemma_covered_within_split(rsv, lo, a, a + size, hi);
    assert forall|j: int| 0 <= j < rsv.len() implies !((#[trigger] rsv[j]).base < a + size && a
        < r_end(rsv[j])) by {
        assert(!range_overlaps(rsv, a, a + size));
    }
    lemma_covered_within_zero(rsv, a, a + size);
    lemma_covered_within_bound(rsv, lo, a);
    lemma_covered_within_bound(rsv, a + size, hi);
    lemma_free_bytes_ge_elem(mem, rsv, i);
}

/// Exhaustion: a request for more bytes than are available-and-unreserved
/// admits no candidate at all, so the allocator reports out of memory and
/// leaves both region sets unchanged.
pub proof fn lemma_exhaustion(mem: Seq<Region>, rsv: Seq<Region>, size: int, al: int)
    requires
        sep(mem),
        sep(rsv),
        size > free_bytes(mem, rsv),
        size > 0,
    ensures
        !(exists|a: int| candidate(mem, rsv, a, size, al)),
{
    if exists|a: int| candidate(mem, rsv, a, size, al) {
        let a = choose|a: int| candidate(mem, rsv, a, size, al);
        lemma_candidate_within_free(mem, rsv, a, size, al);
    }
}

/// Sums the sizes of a separated region set.
#[verifier::rlimit(50)]
fn sum_region_sizes(v: &Vec<Region>) -> (t: u64)
    requires
        sep(v@),
    ensures
        t == total_size(v@),
{
    let ghost s = v@;
    let mut total: u64 = 0;
    let mut i: usize = 0;
    while i < v.len()
        invariant
            sep(s),
            v@ == s,
            i <= s.len(),
            total == total_size(s.take(i as int)),
        decreases v.len() - i,
    {
        proof {
            lemma_total_size_take_bound(s, i + 1);
            assert(s.take(i + 1).drop_last() =~= s.take(i as int));
            assert(s.take(i + 1).last() == s[i as int]);
            assert(total_size(s.take(i + 1)) == total_size(s.take(i as int)) + s[i as int].size);
        }
        total = total + v[i].size;
        i = i + 1;
    }
    proof {
        assert(s.take(s.len() as int) =~= s);
    }
    total
}

/// The total size of a one-region sequence.
proof fn lemma_total_size_one(r: Region)
    ensures
        total_size(seq![r]) == r.size,
{
    assert(seq![r].drop_last() =~= Seq::<Region>::empty());
    assert(total_size(seq![r]) == total_size(seq![r].drop_last()) + seq![r].last().size);
}

/// The total size of a two-region sequence.
proof fn lemma_total_size_two(x: Region, y: Region)
    ensures
        total_size(seq![x, y]) == x.size + y.size,
{
    assert(seq![x, y].drop_last() =~= seq![x]);
    lemma_total_size_one(x);
    assert(total_size(seq![x, y]) == total_size(seq![x, y].drop_last()) + seq![x, y].last().size);
}

/// Locates the insertion position facts: with no overlap and all regions
/// before `pos` based at or below `base`, regions split cleanly around the
/// new range.
proof fn lemma_insert_position(s0: Seq<Region>, pos: int, base: int, end: int)
    requires
        sep(s0),
        0 <= pos <= s0.len(),
        base < end,
        forall|k: int| 0 <= k < s0.len() ==> !((#[trigger] s0[k]).base < end && base < r_end(s0[k])),
        forall|k: int| 0 <= k < pos ==> (#[trigger] s0[k]).base <= base,
        pos < s0.len() ==> s0[pos].base > base,
    ensures
        forall|k: int| 0 <= k < pos ==> r_end(#[trigger] s0[k]) <= base,
        forall|k: int| pos <= k < s0.len() ==> (#[trigger] s0[k]).base >= end,
{
    lemma_sep_pairwise(s0);
    assert forall|k: int| 0 <= k < pos implies r_end(#[trigger] s0[k]) <= base by {
        assert(s0[k].base <= base);
        assert(!(s0[k].base < end && base < r_end(s0[k])));
    }
    assert forall|k: int| pos <= k < s0.len() implies (#[trigger] s0[k]).base >= end by {
        if k == pos {
            assert(s0[k].base > base);
        } else {
            assert(r_end(s0[pos]) < s0[k].base);
            assert(s0[pos].base > base);
        }
        assert(s0[k].base < r_end(s0[k]));
        assert(!(s0[k].base < end && base < r_end(s0[k])));
    }
}

/// With the regions split around `[base, end)`, only the immediate
/// neighbors of the insertion position can absorb the new range.
proof fn lemma_absorbs_localized(s0: Seq<Region>, pos: int, base: int, end: int)
    requires
        sep(s0),
        0 <= pos <= s0.len(),
        base < end,
        forall|k: int| 0 <= k < pos ==> (#[trigger] s0[k]).base <= base,
        forall|k: int| 0 <= k < pos ==> r_end(#[trigger] s0[k]) <= base,
        forall|k: int| pos <= k < s0.len() ==> (#[trigger] s0[k]).base >= end,
    ensures
        absorbs(s0, base, end) <==> ((pos > 0 && r_end(s0[pos - 1]) == base) || (pos < s0.len()
            && s0[pos].base == end)),
{
    lemma_sep_pairwise(s0);
    if absorbs(s0, base, end) {
        let i = choose|i: int|
            0 <= i < s0.len() && (r_end(#[trigger] s0[i]) == base || s0[i].base == end);
        if r_end(s0[i]) == base {
            assert(i < pos) by {
                if i >= pos {
                    assert(s0[i].base >= end);
                    assert(r_end(s0[i]) > s0[i].base);
                }
            }
            assert(i == pos - 1) by {
                if i < pos - 1 {
                    assert(r_end(s0[i]) < s0[i + 1].base);
                    assert(s0[i + 1].base <= base);
                }
            }
        } else {
            assert(i >= pos) by {
                if i < pos {
                    assert(s0[i].base <= base);
                }
            }
            assert(i == pos) by {
                if i > pos {
                    assert(r_end(s0[pos]) < s0[i].base);
                    assert(s0[pos].base >= end);
                }
            }
        }
    }
    if pos > 0 && r_end(s0[pos - 1]) == base {
        assert(0 <= pos - 1 < s0.len() && (r_end(s0[pos - 1]) == base || s0[pos - 1].base == end));
    }
    if pos < s0.len() && s0[pos].base == end {
        assert(0 <= pos < s0.len() && (r_end(s0[pos]) == base || s0[pos].base == end));
    }
}

/// Inserting `[base, end)` when it bridges both neighbors: the window
/// `[pos - 1, pos + 1)` collapses into one merged region.
proof fn lemma_insert_bridges(s0: Seq<Region>, pos: int, base: int, end: int, merged: Region)
    requires
        sep(s0),
        1 <= pos < s0.len(),
        base < end <= u64::MAX,
        r_end(s0[pos - 1]) == base,
        s0[pos].base == end,
        merged.base == s0[pos - 1].base,
        merged.size == s0[pos - 1].size + (end - base) + s0[pos].size,
        merged.flags == 0,
    ensures
        sep(s0.take(pos - 1) + seq![merged] + s0.skip(pos + 1)),
        (s0.take(pos - 1) + seq![merged] + s0.skip(pos + 1)).len() == s0.len() - 1,
        total_size(s0.take(pos - 1) + seq![merged] + s0.skip(pos + 1)) == total_size(s0) + (end
            - base),
        forall|a: int|
            #[trigger] covers(s0.take(pos - 1) + seq![merged] + s0.skip(pos + 1), a) <==> covers(
                s0,
                a,
            ) || (base <= a < end),
{
    let s1 = s0.take(pos - 1) + seq![merged] + s0.skip(pos + 1);
    assert(r_end(merged) == r_end(s0[pos]));
    lemma_splice_one(s0, pos - 1, pos + 1, merged);
    assert(total_size(s0.subrange(pos - 1, pos + 1)) == s0[pos - 1].size + s0[pos].size) by {
        assert(s0.subrange(pos - 1, pos + 1) =~= seq![s0[pos - 1], s0[pos]]);
        lemma_total_size_two(s0[pos - 1], s0[pos]);
    }
    assert forall|a: int| #[trigger] covers(s1, a) <==> covers(s0, a) || (base <= a < end) by {
        assert(covers(s1, a) <==> covers(s0, a) || region_covers(merged, a));
        if region_covers(merged, a) && !(base <= a < end) {
            if a < base {
                assert(region_covers(s0[pos - 1], a));
                assert(covers(s0, a));
            } else {
                assert(region_covers(s0[pos], a));
                assert(covers(s0, a));
            }
        }
        if base <= a < end {
            assert(region_covers(merged, a));
        }
    }
}

/// Inserting `[base, end)` when only the left neighbor touches it: that
/// neighbor is extended to cover the new range.
proof fn lemma_insert_extends_left(s0: Seq<Region>, pos: int, base: int, end: int, merged: Region)
    requires
        sep(s0),
        1 <= pos <= s0.len(),
        base < end <= u64::MAX,
        r_end(s0[pos - 1]) == base,
        pos < s0.len() ==> s0[pos].base > end,
        merged.base == s0[pos - 1].base,
        merged.size == s0[pos - 1].size + (end - base),
        merged.flags == 0,
    ensures
        sep(s0.take(pos - 1) + seq![merged] + s0.skip(pos)),
        (s0.take(pos - 1) + seq![merged] + s0.skip(pos)).len() == s0.len(),
        total_size(s0.take(pos - 1) + seq![merged] + s0.skip(pos)) == total_size(s0) + (end - base),
        forall|a: int|
            #[trigger] covers(s0.take(pos - 1) + seq![merged] + s0.skip(pos), a) <==> covers(s0, a)
                || (base <= a < end),
{
    let s1 = s0.take(pos - 1) + seq![merged] + s0.skip(pos);
    assert(r_end(merged) == end);
    lemma_splice_one(s0, pos - 1, pos, merged);
    assert(total_size(s0.subrange(pos - 1, pos)) == s0[pos - 1].size) by {
        assert(s0.subrange(pos - 1, pos) =~= seq![s0[pos - 1]]);
        lemma_total_size_one(s0[pos - 1]);
    }
    assert forall|a: int| #[trigger] covers(s1, a) <==> covers(s0, a) || (base <= a < end) by {
        assert(covers(s1, a) <==> covers(s0, a) || region_covers(merged, a));
        if region_covers(merged, a) && !(base <= a < end) {
            assert(region_covers(s0[pos - 1], a));
            assert(covers(s0, a));
        }
        if base <= a < end {
            assert(region_covers(merged, a));
        }
    }
}

/// Inserting `[base, end)` when only the right neighbor touches it: that
/// neighbor is extended backwards to start at `base`.
proof fn lemma_insert_extends_right(s0: Seq<Region>, pos: int, base: int, end: int, merged: Region)
    requires
        sep(s0),
        0 <= pos < s0.len(),
        base < end <= u64::MAX,
        s0[pos].base == end,
        pos > 0 ==> r_end(s0[pos - 1]) < base,
        merged.base == base,
        merged.size == (end - base) + s0[pos].size,
        merged.flags == 0,
    ensures
        sep(s0.take(pos) + seq![merged] + s0.skip(pos + 1)),
        (s0.take(pos) + seq![merged] + s0.skip(pos + 1)).len() == s0.len(),
        total_size(s0.take(pos) + seq![merged] + s0.skip(pos + 1)) == total_size(s0) + (end - base),
        forall|a: int|
            #[trigger] covers(s0.take(pos) + seq![merged] + s0.skip(pos + 1), a) <==> covers(s0, a)
                || (base <= a < end),
{
    let s1 = s0.take(pos) + seq![merged] + s0.skip(pos + 1);
    assert(r_end(merged) == r_end(s0[pos]));
    lemma_splice_one(s0, pos, pos + 1, merged);
    assert(total_size(s0.subrange(pos, pos + 1)) == s0[pos].size) by {
        assert(s0.subrange(pos, pos + 1) =~= seq![s0[pos]]);
        lemma_total_size_one(s0[pos]);
    }
    assert forall|a: int| #[trigger] covers(s1, a) <==> covers(s0, a) || (base <= a < end) by {
        assert(covers(s1, a) <==> covers(s0, a) || region_covers(merged, a));
        if region_covers(merged, a) && !(base <= a < end) {
            assert(region_covers(s0[pos], a));
            assert(covers(s0, a));
        }
        if base <= a < end {
            assert(region_covers(merged, a));
        }
    }
}

/// Inserting `[base, end)` with no touching neighbor: a fresh region stands
/// alone at the insertion position.
proof fn lemma_insert_fresh(s0: Seq<Region>, pos: int, base: int, end: int, fresh: Region)
    requires
        sep(s0),
        0 <= pos <= s0.len(),
        base < end <= u64::MAX,
        pos > 0 ==> r_end(s0[pos - 1]) < base,
        pos < s0.len() ==> s0[pos].base > end,
        fresh.base == base,
        fresh.size == end - base,
        fresh.flags == 0,
    ensures
        sep(s0.take(pos) + seq![fresh] + s0.skip(pos)),
        (s0.take(pos) + seq![fresh] + s0.skip(pos)).len() == s0.len() + 1,
        total_size(s0.take(pos) + seq![fresh] + s0.skip(pos)) == total_size(s0) + (end - base),
        forall|a: int|
            #[trigger] covers(s0.take(pos) + seq![fresh] + s0.skip(pos), a) <==> covers(s0, a) || (
            base <= a < end),
{
    let s1 = s0.take(pos) + seq![fresh] + s0.skip(pos);
    assert(r_end(fresh) == end);
    lemma_splice_one(s0, pos, pos, fresh);
    assert(total_size(s0.subrange(pos, pos)) == 0) by {
        assert(s0.subrange(pos, pos) =~= Seq::<Region>::empty());
    }
    assert forall|a: int| #[trigger] covers(s1, a) <==> covers(s0, a) || (base <= a < end) by {
        assert(covers(s1, a) <==> covers(s0, a) || region_covers(fresh, a));
    }
}

/// The effective alignment of an allocation request: zero means no
/// constraint beyond natural placement.
pub open spec fn effective_align(align: u64) -> int {
    if align == 0 {
        1
    } else {
        align as int
    }
}

/// Whether `a` is a valid allocation candidate for `size` bytes at
/// alignment `al`: aligned, inside some available region, and free of any
/// reserved overlap.
pub open spec fn candidate(mem: Seq<Region>, rsv: Seq<Region>, a: int, size: int, al: int) -> bool {
    &&& a % al == 0
    &&& exists|i: int|
        0 <= i < mem.len() && (#[trigger] mem[i]).base <= a && a + size <= r_end(mem[i])
    &&& !range_overlaps(rsv, a, a + size)
}

/// Whether `a` is the first-fit candidate: valid, and no valid candidate
/// lies at a lower address.
pub open spec fn first_fit(mem: Seq<Region>, rsv: Seq<Region>, a: int, size: int, al: int) -> bool {
    candidate(mem, rsv, a, size, al) && forall|c: int|
        #[trigger] candidate(mem, rsv, c, size, al) ==> a <= c
}

/// Two multiples of `al` are at least `al` apart.
proof fn lemma_aligned_gap(a: int, b: int, al: int)
    requires
        al > 0,
        a % al == 0,
        b % al == 0,
        a < b,
    ensures
        a + al <= b,
{
    vstd::arithmetic::div_mod::lemma_fundamental_div_mod(a, al);
    vstd::arithmetic::div_mod::lemma_fundamental_div_mod(b, al);
    let qa = a / al;
    let qb = b / al;
    assert(a == al * qa && b == al * qb);
    assert(qa < qb) by (nonlinear_arith)
        requires
            al > 0,
            a == al * qa,
            b == al * qb,
            a < b,
    ;
    assert(al * qa + al <= al * qb) by (nonlinear_arith)
        requires
            al > 0,
            qa < qb,
    ;
}

/// The first multiple of `al` at or above `base` is `base + pad`, where
/// `pad` rounds the remainder up to the next multiple.
proof fn lemma_first_aligned(base: int, al: int, pad: int)
    requires
        al > 0,
        0 <= base,
        pad == (if base % al == 0 {
            0int
        } else {
            al - base % al
        }),
    ensures
        (base + pad) % al == 0,
        0 <= pad < al,
        forall|c: int| #[trigger] (c % al) == 0 && c >= base ==> c >= base + pad,
{
    vstd::arithmetic::div_mod::lemma_fundamental_div_mod(base, al);
    vstd::arithmetic::div_mod::lemma_mod_division_less_than_divisor(base, al);
    let q = base / al;
    if base % al == 0 {
    } else {
        assert(base + pad == al * (q + 1)) by (nonlinear_arith)
            requires
                base == al * q + base % al,
                pad == al - base % al,
        ;
        vstd::arithmetic::div_mod::lemma_mod_multiples_basic(q + 1, al);
        assert((al * (q + 1)) % al == 0) by {
            assert(al * (q + 1) == (q + 1) * al);
        }
    }
    assert forall|c: int| #[trigger] (c % al) == 0 && c >= base implies c >= base + pad by {
        if c < base + pad {
            lemma_aligned_gap(c, base + pad, al);
            assert(c + al <= base + pad);
        }
    }
}

/// A candidate found by the probe scan is the first fit: no earlier region
/// holds any candidate, and all lower aligned addresses of this region are
/// blocked by reservations.
proof fn lemma_first_fit_found(
    mem0: Seq<Region>,
    rsv0: Seq<Region>,
    i: int,
    a: int,
    size: int,
    ali: int,
)
    requires
        sep(mem0),
        0 <= i < mem0.len(),
        size > 0,
        ali >= 1,
        a % ali == 0,
        mem0[i].base <= a,
        a + size <= r_end(mem0[i]),
        !range_overlaps(rsv0, a, a + size),
        forall|c: int|
            #[trigger] (c % ali) == 0 && mem0[i].base <= c < a && c + size <= r_end(mem0[i])
                ==> range_overlaps(rsv0, c, c + size),
        forall|c: int, k: int|
            0 <= k < i && (#[trigger] mem0[k]).base <= c && c + size <= r_end(mem0[k])
                && #[trigger] (c % ali) == 0 ==> range_overlaps(rsv0, c, c + size),
    ensures
        first_fit(mem0, rsv0, a, size, ali),
{
    assert(candidate(mem0, rsv0, a, size, ali));
    lemma_sep_pairwise(mem0);
    assert forall|c: int| #[trigger] candidate(mem0, rsv0, c, size, ali) implies a <= c by {
        let k = choose|k: int|
            0 <= k < mem0.len() && (#[trigger] mem0[k]).base <= c && c + size <= r_end(mem0[k]);
        if k < i {
            assert(range_overlaps(rsv0, c, c + size));
        } else if k == i {
            if c < a {
                assert(range_overlaps(rsv0, c, c + size));
            }
        } else {
            assert(r_end(mem0[i]) < mem0[k].base);
        }
    }
}

/// Two first-fit candidates are the same address.
proof fn lemma_first_fit_unique(
    mem: Seq<Region>,
    rsv: Seq<Region>,
    a: int,
    b: int,
    size: int,
    ali: int,
)
    requires
        first_fit(mem, rsv, a, size, ali),
        first_fit(mem, rsv, b, size, ali),
    ensures
        a == b,
{
    assert(candidate(mem, rsv, a, size, ali));
    assert(candidate(mem, rsv, b, size, ali));
}

/// When the first fit cannot be reserved for want of capacity, no first
/// fit with room to reserve exists.
proof fn lemma_capacity_exit(mem0: Seq<Region>, rsv0: Seq<Region>, a: int, size: int, ali: int)
    requires
        first_fit(mem0, rsv0, a, size, ali),
        !absorbs(rsv0, a, a + size),
        rsv0.len() >= MAX_REGIONS,
    ensures
        !(exists|x: int|
            first_fit(mem0, rsv0, x, size, ali) && (absorbs(rsv0, x, x + size) || rsv0.len()
                < MAX_REGIONS)),
{
    if exists|x: int|
        first_fit(mem0, rsv0, x, size, ali) && (absorbs(rsv0, x, x + size) || rsv0.len()
            < MAX_REGIONS) {
        let x = choose|x: int|
            first_fit(mem0, rsv0, x, size, ali) && (absorbs(rsv0, x, x + size) || rsv0.len()
                < MAX_REGIONS);
        lemma_first_fit_unique(mem0, rsv0, a, x, size, ali);
    }
}

/// After a blocked probe at `a`, every aligned address below the next probe
/// is blocked as well.
proof fn lemma_probe_advance(
    rsv0: Seq<Region>,
    rgbase: int,
    rg_end: int,
    a: int,
    size: int,
    ali: int,
)
    requires
        ali >= 1,
        size > 0,
        a % ali == 0,
        forall|c: int|
            #[trigger] (c % ali) == 0 && rgbase <= c < a && c + size <= rg_end ==> range_overlaps(
                rsv0,
                c,
                c + size,
            ),
        range_overlaps(rsv0, a, a + size),
    ensures
        forall|c: int|
            #[trigger] (c % ali) == 0 && rgbase <= c < a + ali && c + size <= rg_end
                ==> range_overlaps(rsv0, c, c + size),
{
    assert forall|c: int|
        #[trigger] (c % ali) == 0 && rgbase <= c < a + ali && c + size <= rg_end implies
        range_overlaps(rsv0, c, c + size) by {
        if c < a {
        } else if c == a {
        } else {
            lemma_aligned_gap(a, c, ali);
        }
    }
}

/// Whether removing `[lo, hi)` splits some stored region into two: the
/// removed range lies strictly inside that region.
pub open spec fn splits_interior(s: Seq<Region>, lo: int, hi: int) -> bool {
    exists|i: int| 0 <= i < s.len() && (#[trigger] s[i]).base < lo && hi < r_end(s[i])
}

/// Extending a prefix of the region set by one region grows its total by
/// that region's size and its covered bytes by that region's overlap.
proof fn lemma_take_unfold(s0: Seq<Region>, i: int, rb: int, re: int)
    requires
        0 <= i < s0.len(),
    ensures
        total_size(s0.take(i + 1)) == total_size(s0.take(i)) + s0[i].size,
        covered_within(s0.take(i + 1), rb, re) == covered_within(s0.take(i), rb, re)
            + overlap_len(s0[i], rb, re),
{
    assert(s0.take(i + 1).drop_last() =~= s0.take(i));
    assert(s0.take(i + 1).last() == s0[i]);
}

/// Removal step, kept region: a region that does not meet `[rb, re)` is
/// carried over unchanged.
proof fn lemma_remove_keep(out: Seq<Region>, s0: Seq<Region>, i: int, rb: int, re: int)
    requires
        sep(s0),
        0 <= i < s0.len(),
        rb < re,
        sep(out),
        forall|a: int| #[trigger] covers(out, a) <==> covers(s0.take(i), a) && !(rb <= a < re),
        out.len() > 0 ==> i > 0 && r_end(out.last()) <= r_end(s0[i - 1]),
        !(s0[i].base < re && rb < r_end(s0[i])),
    ensures
        sep(out.push(s0[i])),
        forall|a: int|
            #[trigger] covers(out.push(s0[i]), a) <==> covers(s0.take(i + 1), a) && !(rb <= a
                < re),
        r_end(out.push(s0[i]).last()) <= r_end(s0[i]),
        total_size(out.push(s0[i])) == total_size(out) + s0[i].size,
        overlap_len(s0[i], rb, re) == 0,
{
    if out.len() > 0 {
        assert(r_end(s0[i - 1]) < s0[i].base);
    }
    lemma_region_push(out, s0[i]);
    lemma_sep_take(s0, i);
    if i > 0 {
        assert(s0.take(i).last() == s0[i - 1]);
    }
    assert(s0.take(i + 1) =~= s0.take(i).push(s0[i]));
    lemma_region_push(s0.take(i), s0[i]);
    assert forall|a: int|
        #[trigger] covers(out.push(s0[i]), a) <==> covers(s0.take(i + 1), a) && !(rb <= a
            < re) by {
        assert(covers(out.push(s0[i]), a) <==> covers(out, a) || region_covers(s0[i], a));
        assert(covers(s0.take(i + 1), a) <==> covers(s0.take(i), a) || region_covers(s0[i], a));
        if region_covers(s0[i], a) && rb <= a < re {
            assert(s0[i].base < re && rb < r_end(s0[i]));
        }
    }
}

/// Removal step, dropped region: a region fully inside `[rb, re)` vanishes.
proof fn lemma_remove_drop(out: Seq<Region>, s0: Seq<Region>, i: int, rb: int, re: int)
    requires
        sep(s0),
        0 <= i < s0.len(),
        rb < re,
        forall|a: int| #[trigger] covers(out, a) <==> covers(s0.take(i), a) && !(rb <= a < re),
        rb <= s0[i].base,
        r_end(s0[i]) <= re,
    ensures
        forall|a: int|
            #[trigger] covers(out, a) <==> covers(s0.take(i + 1), a) && !(rb <= a < re),
        overlap_len(s0[i], rb, re) == s0[i].size,
{
    lemma_sep_take(s0, i);
    if i > 0 {
        assert(s0.take(i).last() == s0[i - 1]);
    }
    assert(s0.take(i + 1) =~= s0.take(i).push(s0[i]));
    lemma_region_push(s0.take(i), s0[i]);
    assert forall|a: int|
        #[trigger] covers(out, a) <==> covers(s0.take(i + 1), a) && !(rb <= a < re) by {
        assert(covers(s0.take(i + 1), a) <==> covers(s0.take(i), a) || region_covers(s0[i], a));
        if region_covers(s0[i], a) {
            assert(rb <= a < re);
        }
    }
}

/// Removal step, clipped region: the region overlaps `[rb, re)` and exactly
/// its part outside the removed range, `piece`, is carried over.
proof fn lemma_remove_clip(out: Seq<Region>, s0: Seq<Region>, i: int, rb: int, re: int, piece: Region)
    requires
        sep(s0),
        0 <= i < s0.len(),
        rb < re,
        sep(out),
        forall|a: int| #[trigger] covers(out, a) <==> covers(s0.take(i), a) && !(rb <= a < re),
        out.len() > 0 ==> i > 0 && r_end(out.last()) <= r_end(s0[i - 1]),
        region_wf(piece),
        s0[i].base <= piece.base,
        r_end(piece) <= r_end(s0[i]),
        forall|a: int|
            region_covers(#[trigger] s0[i], a) && !(rb <= a < re) <==> region_covers(piece, a),
    ensures
        sep(out.push(piece)),
        forall|a: int|
            #[trigger] covers(out.push(piece), a) <==> covers(s0.take(i + 1), a) && !(rb <= a
                < re),
        r_end(out.push(piece).last()) <= r_end(s0[i]),
        total_size(out.push(piece)) == total_size(out) + piece.size,
{
    if out.len() > 0 {
        assert(r_end(s0[i - 1]) < s0[i].base);
    }
    lemma_region_push(out, piece);
    lemma_sep_take(s0, i);
    if i > 0 {
        assert(s0.take(i).last() == s0[i - 1]);
    }
    assert(s0.take(i + 1) =~= s0.take(i).push(s0[i]));
    lemma_region_push(s0.take(i), s0[i]);
    assert forall|a: int|
        #[trigger] covers(out.push(piece), a) <==> covers(s0.take(i + 1), a) && !(rb <= a
            < re) by {
        assert(covers(out.push(piece), a) <==> covers(out, a) || region_covers(piece, a));
        assert(covers(s0.take(i + 1), a) <==> covers(s0.take(i), a) || region_covers(s0[i], a));
        assert(region_covers(s0[i], a) && !(rb <= a < re) <==> region_covers(piece, a));
    }
}

/// Removal step, split region: `[rb, re)` lies strictly inside the region,
/// which is carried over as the two remainders around it.
proof fn lemma_remove_split(
    out: Seq<Region>,
    s0: Seq<Region>,
    i: int,
    rb: int,
    re: int,
    left: Region,
    right: Region,
)
    requires
        sep(s0),
        0 <= i < s0.len(),
        rb < re,
        sep(out),
        forall|a: int| #[trigger] covers(out, a) <==> covers(s0.take(i), a) && !(rb <= a < re),
        out.len() > 0 ==> i > 0 && r_end(out.last()) <= r_end(s0[i - 1]),
        s0[i].base < rb,
        re < r_end(s0[i]),
        left.base == s0[i].base,
        r_end(left) == rb,
        left.flags == 0,
        right.base == re,
        r_end(right) == r_end(s0[i]),
        right.flags == 0,
    ensures
        sep(out.push(left).push(right)),
        forall|a: int|
            #[trigger] covers(out.push(left).push(right), a) <==> covers(s0.take(i + 1), a) && !(
            rb <= a < re),
        r_end(out.push(left).push(right).last()) <= r_end(s0[i]),
        total_size(out.push(left).push(right)) == total_size(out) + left.size + right.size,
{
    if out.len() > 0 {
        assert(r_end(s0[i - 1]) < s0[i].base);
    }
    lemma_region_push(out, left);
    lemma_region_push(out.push(left), right);
    lemma_sep_take(s0, i);
    if i > 0 {
        assert(s0.take(i).last() == s0[i - 1]);
    }
    assert(s0.take(i + 1) =~= s0.take(i).push(s0[i]));
    lemma_region_push(s0.take(i), s0[i]);
    assert forall|a: int|
        #[trigger] covers(out.push(left).push(right), a) <==> covers(s0.take(i + 1), a) && !(rb
            <= a < re) by {
        assert(covers(out.push(left).push(right), a) <==> covers(out.push(left), a)
            || region_covers(right, a));
        assert(covers(out.push(left), a) <==> covers(out, a) || region_covers(left, a));
        assert(covers(s0.take(i + 1), a) <==> covers(s0.take(i), a) || region_covers(s0[i], a));
    }
}

/// The removed range can lie strictly inside at most one stored region, and
/// then it overlaps no other region.
proof fn lemma_split_witness_unique(s0: Seq<Region>, j: int, rb: int, re: int)
    requires
        sep(s0),
        rb < re,
        0 <= j < s0.len(),
        s0[j].base < rb,
        re < r_end(s0[j]),
    ensures
        forall|k: int|
            0 <= k < s0.len() && k != j ==> !((#[trigger] s0[k]).base < re && rb < r_end(s0[k])),
{
    lemma_sep_pairwise(s0);
    assert forall|k: int|
        0 <= k < s0.len() && k != j implies !((#[trigger] s0[k]).base < re && rb < r_end(
        s0[k])) by {
        if k < j {
            assert(r_end(s0[k]) < s0[j].base);
        } else {
            assert(r_end(s0[j]) < s0[k].base);
        }
    }
}

/// Whether some stored region shares an address with `[base, end)`.
fn overlaps_range(v: &Vec<Region>, base: u64, end: u64) -> (b: bool)
    requires
        sep(v@),
        base < end,
    ensures
        b == range_overlaps(v@, base as int, end as int),
{
    let ghost s0 = v@;
    let n = v.len();
    let mut i: usize = 0;
    while i < n
        invariant
            sep(s0),
            v@ == s0,
            n == s0.len(),
            i <= n,
            forall|k: int| 0 <= k < i ==> !((#[trigger] s0[k]).base < end && base < r_end(s0[k])),
        decreases n - i,
    {
        let rg = v[i];
        if rg.base < end && base < rg.base + rg.size {
            proof {
                assert(s0[i as int].base < end && base < r_end(s0[i as int]));
            }
            return true;
        }
        i += 1;
    }
    false
}

/// First position whose region starts strictly above `base`.
fn find_insert_pos(v: &Vec<Region>, base: u64) -> (pos: usize)
    ensures
        pos <= v@.len(),
        forall|k: int| 0 <= k < pos ==> (#[trigger] v@[k]).base <= base,
        pos < v@.len() ==> v@[pos as int].base > base,
{
    let ghost s0 = v@;
    let n = v.len();
    let mut pos: usize = 0;
    while pos < n && v[pos].base <= base
        invariant
            v@ == s0,
            n == s0.len(),
            pos <= n,
            forall|k: int| 0 <= k < pos ==> (#[trigger] s0[k]).base <= base,
        decreases n - pos,
    {
        pos += 1;
    }
    pos
}

/// Inserts the range `[base, base + size)` into a separated region set,
/// coalescing with touching neighbors: rejects any overlap with a stored
/// region, and rejects growth beyond `MAX_REGIONS` when the insertion is not
/// absorbed by coalescing.
#[verifier::rlimit(100)]
fn insert_region(v: &mut Vec<Region>, base: u64, size: u64) -> (r: Result<(), MemblockError>)
    requires
        sep(old(v)@),
        old(v)@.len() <= MAX_REGIONS,
        size > 0,
        base + size <= u64::MAX,
    ensures
        r is Ok <==> !range_overlaps(old(v)@, base as int, base + size) && (absorbs(
            old(v)@,
            base as int,
            base + size,
        ) || old(v)@.len() < MAX_REGIONS),
        r is Err ==> *final(v) == *old(v),
        range_overlaps(old(v)@, base as int, base + size) ==> r == Err::<(), MemblockError>(
            MemblockError::OverlapError,
        ),
        r is Err && !range_overlaps(old(v)@, base as int, base + size) ==> r == Err::<
            (),
            MemblockError,
        >(MemblockError::CapacityError),
        r is Ok ==> sep(final(v)@) && final(v)@.len() <= MAX_REGIONS && total_size(final(v)@)
            == total_size(old(v)@) + size && (forall|a: int|
            #[trigger] covers(final(v)@, a) <==> covers(old(v)@, a) || (base <= a < base + size)),
{
    let ghost s0 = v@;
    let end = base + size;
    let n = v.len();

    if overlaps_range(v, base, end) {
        return Err(MemblockError::OverlapError);
    }

    let pos = find_insert_pos(v, base);

    proof {
        lemma_insert_position(s0, pos as int, base as int, end as int);
        lemma_absorbs_localized(s0, pos as int, base as int, end as int);
    }

    let left_adj = pos > 0 && v[pos - 1].base + v[pos - 1].size == base;
    let right_adj = pos < n && v[pos].base == end;

    if left_adj && right_adj {
        let left = v[pos - 1];
        let right = v[pos];
        proof {
            assert(left.base + (left.size + size + right.size) == r_end(s0[pos as int]));
        }
        let merged = Region {
            base: left.base,
            size: left.size + size + right.size,
            flags: left.flags,
        };
        v[pos - 1] = merged;
        v.remove(pos);
        proof {
            lemma_insert_bridges(s0, pos as int, base as int, end as int, merged);
            assert(v@ =~= s0.take(pos - 1) + seq![merged] + s0.skip(pos + 1));
        }
        Ok(())
    } else if left_adj {
        let left = v[pos - 1];
        proof {
            assert(left.base + (left.size + size) == end);
            if pos < n {
                assert(s0[pos as int].base >= end && s0[pos as int].base != end);
            }
        }
        let merged = Region { base: left.base, size: left.size + size, flags: left.flags };
        v[pos - 1] = merged;
        proof {
            lemma_insert_extends_left(s0, pos as int, base as int, end as int, merged);
            assert(v@ =~= s0.take(pos - 1) + seq![merged] + s0.skip(pos as int));
        }
        Ok(())
    } else if right_adj {
        let right = v[pos];
        proof {
            assert(base + (size + right.size) == r_end(s0[pos as int]));
            if pos > 0 {
                assert(r_end(s0[pos - 1]) <= base && r_end(s0[pos - 1]) != base);
            }
        }
        let merged = Region { base, size: size + right.size, flags: right.flags };
        v[pos] = merged;
        proof {
            lemma_insert_extends_right(s0, pos as int, base as int, end as int, merged);
            assert(v@ =~= s0.take(pos as int) + seq![merged] + s0.skip(pos + 1));
        }
        Ok(())
    } else {
        if n >= MAX_REGIONS {
            return Err(MemblockError::CapacityError);
        }
        let fresh = Region { base, size, flags: 0 };
        proof {
            if pos > 0 {
                assert(r_end(s0[pos - 1]) <= base && r_end(s0[pos - 1]) != base);
            }
            if pos < n {
                assert(s0[pos as int].base >= end && s0[pos as int].base != end);
            }
        }
        v.insert(pos, fresh);
        proof {
            lemma_insert_fresh(s0, pos as int, base as int, end as int, fresh);
            assert(v@ =~= s0.take(pos as int) + seq![fresh] + s0.skip(pos as int));
        }
        Ok(())
    }
}

/// Appending a region that starts beyond the last end keeps the set
/// separated, adds its range to the covered addresses, and adds its size to
/// the total.
proof fn lemma_region_push(s: Seq<Region>, r: Region)
    requires
        sep(s),
        region_wf(r),
        s.len() > 0 ==> r_end(s.last()) < r.base,
    ensures
        sep(s.push(r)),
        forall|a: int| #[trigger] covers(s.push(r), a) <==> covers(s, a) || region_covers(r, a),
        total_size(s.push(r)) == total_size(s) + r.size,
{
    let s1 = s.push(r);
    assert forall|i: int| 0 <= i < s1.len() implies region_wf(#[trigger] s1[i]) by {
        if i < s.len() {
            assert(s1[i] == s[i]);
        }
    }
    assert forall|i: int| 0 <= i < s1.len() - 1 implies r_end(#[trigger] s1[i]) < s1[i + 1].base by {
        if i + 1 < s.len() {
            assert(s1[i] == s[i] && s1[i + 1] == s[i + 1]);
        } else {
            assert(s1[i] == s.last() && s1[i + 1] == r);
        }
    }
    assert forall|a: int| #[trigger] covers(s1, a) implies covers(s, a) || region_covers(r, a) by {
        let i = choose|i: int| 0 <= i < s1.len() && region_covers(#[trigger] s1[i], a);
        if i < s.len() {
            assert(region_covers(s[i], a));
        } else {
            assert(s1[i] == r);
        }
    }
    assert forall|a: int| covers(s, a) || region_covers(r, a) implies #[trigger] covers(s1, a) by {
        if covers(s, a) {
            let i = choose|i: int| 0 <= i < s.len() && region_covers(#[trigger] s[i], a);
            assert(region_covers(s1[i], a));
        } else {
            assert(region_covers(s1[s.len() as int], a));
        }
    }
    assert(s1.drop_last() =~= s);
}

/// Replacing the window `[lo, hi)` of a separated set by the single region
/// `m`, when `m` spans at least that window and keeps clear of both
/// neighbors, yields a separated set whose coverage is the old coverage plus
/// `m`'s range, and whose total grows by `m`'s size less the window's.
proof fn lemma_splice_one(s: Seq<Region>, lo: int, hi: int, m: Region)
    requires
        sep(s),
        0 <= lo <= hi <= s.len(),
        region_wf(m),
        lo > 0 ==> r_end(s[lo - 1]) < m.base,
        hi < s.len() ==> r_end(m) < s[hi].base,
        forall|k: int| lo <= k < hi ==> m.base <= (#[trigger] s[k]).base && r_end(s[k]) <= r_end(m),
    ensures
        sep(s.take(lo) + seq![m] + s.skip(hi)),
        forall|a: int|
            #[trigger] covers(s.take(lo) + seq![m] + s.skip(hi), a) <==> covers(s, a)
                || region_covers(m, a),
        total_size(s.take(lo) + seq![m] + s.skip(hi)) == total_size(s) - total_size(
            s.subrange(lo, hi),
        ) + m.size,
{
    lemma_splice_one_sep(s, lo, hi, m);
    lemma_splice_one_covers(s, lo, hi, m);
    lemma_splice_one_total(s, lo, hi, m);
}

/// The separation part of `lemma_splice_one`.
proof fn lemma_splice_one_sep(s: Seq<Region>, lo: int, hi: int, m: Region)
    requires
        sep(s),
        0 <= lo <= hi <= s.len(),
        region_wf(m),
        lo > 0 ==> r_end(s[lo - 1]) < m.base,
        hi < s.len() ==> r_end(m) < s[hi].base,
    ensures
        sep(s.take(lo) + seq![m] + s.skip(hi)),
{
    let s1 = s.take(lo) + seq![m] + s.skip(hi);
    assert(s1.len() == lo + 1 + (s.len() - hi));
    assert forall|i: int| 0 <= i < s1.len() implies region_wf(#[trigger] s1[i]) by {
        if i < lo {
            assert(s1[i] == s[i]);
        } else if i == lo {
            assert(s1[i] == m);
        } else {
            assert(s1[i] == s[i + hi - lo - 1]);
        }
    }
    assert forall|i: int| 0 <= i < s1.len() - 1 implies r_end(#[trigger] s1[i]) < s1[i + 1].base by {
        if i + 1 < lo {
            assert(s1[i] == s[i] && s1[i + 1] == s[i + 1]);
        } else if i + 1 == lo {
            assert(s1[i] == s[i] && s1[i + 1] == m);
        } else if i == lo {
            assert(s1[i] == m && s1[i + 1] == s[hi]);
        } else {
            assert(s1[i] == s[i + hi - lo - 1] && s1[i + 1] == s[i + hi - lo]);
        }
    }
}

/// The coverage part of `lemma_splice_one`.
proof fn lemma_splice_one_covers(s: Seq<Region>, lo: int, hi: int, m: Region)
    requires
        0 <= lo <= hi <= s.len(),
        forall|k: int| lo <= k < hi ==> m.base <= (#[trigger] s[k]).base && r_end(s[k]) <= r_end(m),
    ensures
        forall|a: int|
            #[trigger] covers(s.take(lo) + seq![m] + s.skip(hi), a) <==> covers(s, a)
                || region_covers(m, a),
{
    let s1 = s.take(lo) + seq![m] + s.skip(hi);
    assert(s1.len() == lo + 1 + (s.len() - hi));
    assert forall|a: int| #[trigger] covers(s1, a) implies covers(s, a) || region_covers(m, a) by {
        let i = choose|i: int| 0 <= i < s1.len() && region_covers(#[trigger] s1[i], a);
        if i < lo {
            assert(s1[i] == s[i]);
            assert(region_covers(s[i], a));
        } else if i == lo {
            assert(s1[i] == m);
        } else {
            assert(s1[i] == s[i + hi - lo - 1]);
            assert(region_covers(s[i + hi - lo - 1], a));
        }
    }
    assert forall|a: int| covers(s, a) || region_covers(m, a) implies #[trigger] covers(s1, a) by {
        if region_covers(m, a) {
            assert(s1[lo] == m);
            assert(region_covers(s1[lo], a));
        } else {
            let i = choose|i: int| 0 <= i < s.len() && region_covers(#[trigger] s[i], a);
            if i < lo {
                assert(s1[i] == s[i]);
                assert(region_covers(s1[i], a));
            } else if i < hi {
                assert(region_covers(m, a));
            } else {
                assert(s1[i - hi + lo + 1] == s[i]);
                assert(region_covers(s1[i - hi + lo + 1], a));
            }
        }
    }
}

/// The total-size part of `lemma_splice_one`, proved separately.
proof fn lemma_splice_one_total(s: Seq<Region>, lo: int, hi: int, m: Region)
    requires
        0 <= lo <= hi <= s.len(),
    ensures
        total_size(s.take(lo) + seq![m] + s.skip(hi)) == total_size(s) - total_size(
            s.subrange(lo, hi),
        ) + m.size,
{
    lemma_total_size_concat(s.take(lo) + seq![m], s.skip(hi));
    lemma_total_size_concat(s.take(lo), seq![m]);
    assert(total_size(seq![m]) == m.size) by {
        let one = seq![m];
        assert(one.drop_last() =~= Seq::<Region>::empty());
        assert(total_size(Seq::<Region>::empty()) == 0);
        assert(one.last() == m);
        assert(total_size(one) == total_size(one.drop_last()) + one.last().size);
    }
    assert(s =~= s.take(lo) + s.subrange(lo, hi) + s.skip(hi));
    lemma_total_size_concat(s.take(lo) + s.subrange(lo, hi), s.skip(hi));
    lemma_total_size_concat(s.take(lo), s.subrange(lo, hi));
}

} // verus!
