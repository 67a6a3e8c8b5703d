//! Memory region descriptors and the mathematical model of a region set.
//!
//! A region is a half-open physical interval `[base, base + size)`.  A region
//! set is an ordered sequence of regions that is sorted by base address,
//! pairwise disjoint and pairwise non-adjacent (touching regions are always
//! coalesced into one).

use vstd::prelude::*;

verus! {

/// A memory region descriptor: the half-open interval `[base, base + size)`.
#[derive(Debug, Clone, Copy, PartialEq, Eq, Structural)]
pub struct Region {
    /// Starting physical address (inclusive).
    pub base: u64,
    /// Size of the region in bytes.
    pub size: u64,
    /// Region flags (reserved for future use).
    pub flags: u64,
}

/// The exclusive end address of a region, as a mathematical integer.
pub open spec fn r_end(r: Region) -> int {
    r.base + r.size
}

/// A region that may actually be stored: non-empty, its end address still
/// representable as a 64-bit value, and its flags word clear (flags are
/// reserved for future classification and never set in this boot phase).
pub open spec fn region_wf(r: Region) -> bool {
    r.size > 0 && r.base + r.size <= u64::MAX && r.flags == 0
}

/// Whether the region covers the address `a`.
pub open spec fn region_covers(r: Region, a: int) -> bool {
    r.base <= a < r_end(r)
}

/// Whether two regions share at least one address.
pub open spec fn regions_overlap(x: Region, y: Region) -> bool {
    x.base < r_end(y) && y.base < r_end(x)
}

/// Whether two regions touch end-to-start without overlapping.
pub open spec fn regions_adjacent(x: Region, y: Region) -> bool {
    r_end(x) == y.base || r_end(y) == x.base
}

impl Region {
    /// Creates a new region with clear flags.
    pub fn new(base: u64, size: u64) -> (r: Self)
        ensures
            r == (Region { base, size, flags: 0u64 }),
    {
        Region { base, size, flags: 0 }
    }

    /// Returns the ending address (exclusive).
    pub fn end(&self) -> (e: u64)
        requires
            self.base + self.size <= u64::MAX,
        ensures
            e == r_end(*self),
    {
        self.base + self.size
    }

    /// Checks if the region contains the given address.
    pub fn contains(&self, addr: u64) -> (b: bool)
        requires
            self.base + self.size <= u64::MAX,
        ensures
            b == region_covers(*self, addr as int),
    {
        addr >= self.base && addr < self.end()
    }

    /// Checks if this region overlaps with another.
    pub fn overlaps(&self, other: &Region) -> (b: bool)
        requires
            self.base + self.size <= u64::MAX,
            other.base + other.size <= u64::MAX,
        ensures
            b == regions_overlap(*self, *other),
    {
        self.base < other.end() && other.base < self.end()
    }

    /// Checks if this region is adjacent to another (touching but not
    /// overlapping).
    pub fn adjacent(&self, other: &Region) -> (b: bool)
        requires
            self.base + self.size <= u64::MAX,
            other.base + other.size <= u64::MAX,
        ensures
            b == regions_adjacent(*self, *other),
    {
        self.end() == other.base || other.end() == self.base
    }
}

/// The region-set invariant: every stored region is well formed, and each
/// region ends strictly before the next begins, so the sequence is sorted,
/// disjoint and free of touching pairs.
pub open spec fn sep(s: Seq<Region>) -> bool {
    &&& forall|i: int| 0 <= i < s.len() ==> region_wf(#[trigger] s[i])
    &&& forall|i: int| 0 <= i < s.len() - 1 ==> r_end(#[trigger] s[i]) < s[i + 1].base
}

/// Whether some region of the set covers the address `a`.
pub open spec fn covers(s: Seq<Region>, a: int) -> bool {
    exists|i: int| 0 <= i < s.len() && region_covers(#[trigger] s[i], a)
}

/// Whether some region of the set shares an address with `[lo, hi)`.
pub open spec fn range_overlaps(s: Seq<Region>, lo: int, hi: int) -> bool {
    exists|i: int| 0 <= i < s.len() && #[trigger] s[i].base < hi && lo < r_end(s[i])
}

/// The combined size of all regions of the set.
pub open spec fn total_size(s: Seq<Region>) -> int
    decreases s.len(),
{
    if s.len() == 0 {
        0
    } else {
        total_size(s.drop_last()) + s.last().size
    }
}

/// In a separated region set, any earlier region ends strictly before any
/// later one begins: the set is sorted by base, pairwise non-overlapping and
/// pairwise non-adjacent.
pub proof fn lemma_sep_pairwise(s: Seq<Region>)
    requires
        sep(s),
    ensures
        forall|i: int, j: int| 0 <= i < j < s.len() ==> r_end(#[trigger] s[i]) < #[trigger] s[j].base,
{
    assert forall|i: int, j: int| 0 <= i < j < s.len() implies r_end(#[trigger] s[i]) < #[trigger] s[j].base by {
        lemma_sep_chain(s, i, j);
    }
}

/// Chain step for `lemma_sep_pairwise`: walk from `i` up to `j`.
proof fn lemma_sep_chain(s: Seq<Region>, i: int, j: int)
    requires
        sep(s),
        0 <= i < j < s.len(),
    ensures
        r_end(s[i]) < s[j].base,
    decreases j - i,
{
    if j > i + 1 {
        lemma_sep_chain(s, i, j - 1);
    }
}

/// A separated region set stays separated when restricted to a prefix.
pub proof fn lemma_sep_take(s: Seq<Region>, n: int)
    requires
        sep(s),
        0 <= n <= s.len(),
    ensures
        sep(s.take(n)),
{
}

/// Concatenation splits the total size into the two parts' totals.
pub proof fn lemma_total_size_concat(a: Seq<Region>, b: Seq<Region>)
    ensures
        total_size(a + b) == total_size(a) + total_size(b),
    decreases b.len(),
{
    if b.len() == 0 {
        assert(a + b =~= a);
    } else {
        lemma_total_size_concat(a, b.drop_last());
        assert((a + b).drop_last() =~= a + b.drop_last());
    }
}

/// The total size of a non-empty separated set fits between the first base
/// and the last end, so it never exceeds `u64::MAX`.
pub proof fn lemma_total_size_bound(s: Seq<Region>)
    requires
        sep(s),
        s.len() > 0,
    ensures
        total_size(s) <= r_end(s.last()) - s[0].base,
        total_size(s) <= u64::MAX,
    decreases s.len(),
{
    let dl = s.drop_last();
    if s.len() == 1 {
        assert(dl.len() == 0);
        assert(total_size(dl) == 0);
        assert(s.last() == s[0]);
        assert(total_size(s) == total_size(dl) + s.last().size);
    } else {
        assert(forall|i: int| 0 <= i < dl.len() ==> dl[i] == s[i]);
        assert(sep(dl));
        lemma_total_size_bound(dl);
        assert(dl[0] == s[0]);
        assert(dl.last() == s[s.len() - 2]);
        assert(r_end(s[s.len() - 2]) < s[s.len() - 1].base);
        assert(total_size(s) == total_size(dl) + s.last().size);
    }
}

/// The total size of any prefix of a separated set also fits in 64 bits.
pub proof fn lemma_total_size_take_bound(s: Seq<Region>, n: int)
    requires
        sep(s),
        0 <= n <= s.len(),
    ensures
        0 <= total_size(s.take(n)) <= u64::MAX,
{
    lemma_sep_take(s, n);
    lemma_total_size_nonneg(s.take(n));
    if n > 0 {
        lemma_total_size_bound(s.take(n));
    }
}

/// Total sizes are never negative.
pub proof fn lemma_total_size_nonneg(s: Seq<Region>)
    ensures
        total_size(s) >= 0,
    decreases s.len(),
{
    if s.len() > 0 {
        lemma_total_size_nonneg(s.drop_last());
        assert(s.last().size >= 0);
    }
}

} // verus!
