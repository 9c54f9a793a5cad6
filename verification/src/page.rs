//! A page allocator that keeps one descriptor per page of the heap and hands out runs of
//! contiguous pages, first fit.
use vstd::prelude::*;

use crate::addr::PAGE_SIZE;

verus! {

/// The flags of a page that is neither taken nor the last of a run.
pub const PAGE_EMPTY: u8 = 0;

/// The flag of a page that belongs to an allocation.
pub const PAGE_TAKEN: u8 = 1;

/// The flag of the last page of an allocation.
pub const PAGE_LAST: u8 = 2;

/// The descriptor of a page.
#[derive(Clone, Copy, Debug)]
pub struct Page {
    flags: u8,
}

/// A page with these flags belongs to an allocation.
pub open spec fn taken(f: u8) -> bool {
    f & PAGE_TAKEN != 0
}

/// A page with these flags is the last of an allocation.
pub open spec fn last(f: u8) -> bool {
    f & PAGE_LAST != 0
}

impl Page {
    /// The flags of the page.
    pub closed spec fn flags_spec(&self) -> u8 {
        self.flags
    }

    /// A descriptor with no flag set.
    pub fn new() -> (r: Self)
        ensures
            r.flags_spec() == PAGE_EMPTY,
    {
        Page { flags: PAGE_EMPTY }
    }

    /// The page belongs to no allocation.
    fn is_free(&self) -> (r: bool)
        ensures
            r == !taken(self.flags_spec()),
    {
        !self.is_taken()
    }

    /// The page belongs to an allocation.
    fn is_taken(&self) -> (r: bool)
        ensures
            r == taken(self.flags_spec()),
    {
        self.flags & PAGE_TAKEN != 0
    }

    /// The page is the last of an allocation.
    fn is_last(&self) -> (r: bool)
        ensures
            r == last(self.flags_spec()),
    {
        self.flags & PAGE_LAST != 0
    }

    /// Clears all flags of the page.
    pub fn clear(&mut self)
        ensures
            final(self).flags_spec() == PAGE_EMPTY,
    {
        self.flags = PAGE_EMPTY;
    }

    /// Sets the given flags on the page, keeping the others.
    pub fn set_flag(&mut self, flag: u8)
        ensures
            final(self).flags_spec() == old(self).flags_spec() | flag,
    {
        self.flags = self.flags | flag;
    }
}

/// The flags of a sequence of descriptors.
pub open spec fn flags_of(pages: Seq<Page>) -> Seq<u8> {
    pages.map_values(|p: Page| p.flags_spec())
}

/// The `n` pages from `i` on are all free.
pub open spec fn run_free(f: Seq<u8>, i: int, n: int) -> bool {
    forall|k: int| i <= k < i + n ==> !taken(#[trigger] f[k])
}

/// The first start index from `s` on, below `bound`, of `n` free pages, or -1 where there is
/// none.
pub open spec fn first_fit_from(f: Seq<u8>, n: int, s: int, bound: int) -> int
    decreases bound - s,
{
    if s >= bound || s < 0 {
        -1
    } else if run_free(f, s, n) {
        s
    } else {
        first_fit_from(f, n, s + 1, bound)
    }
}

/// The flags once the `n` pages from `i` on are allocated: all taken, the last one marked
/// as such.
pub open spec fn mark_run(f: Seq<u8>, i: int, n: int) -> Seq<u8> {
    Seq::new(
        f.len(),
        |k: int|
            if i <= k < i + n - 1 {
                f[k] | PAGE_TAKEN
            } else if k == i + n - 1 {
                f[k] | PAGE_TAKEN | PAGE_LAST
            } else {
                f[k]
            },
    )
}

/// Where a release that starts at page `k` stops: the first page from `k` on that is not a
/// taken page short of the last of its allocation.
pub open spec fn walk_end(f: Seq<u8>, k: int) -> int
    decreases f.len() - k,
{
    if k < 0 || k >= f.len() {
        k
    } else if taken(f[k]) && !last(f[k]) {
        walk_end(f, k + 1)
    } else {
        k
    }
}

/// The index of the page at `addr`, in a heap whose first page is at `start`.
pub open spec fn page_index(start: u64, addr: u64) -> int {
    (addr - start) / 0x1000
}

/// The flags once the pages from `i` up to and including `e` are released.
pub open spec fn clear_run(f: Seq<u8>, i: int, e: int) -> Seq<u8> {
    Seq::new(f.len(), |k: int| if i <= k <= e { PAGE_EMPTY } else { f[k] })
}

/// Starts with no free run of `n` pages in `[a, b)` do not change where the first one is.
proof fn lemma_first_fit_skip(f: Seq<u8>, n: int, a: int, b: int, bound: int)
    requires
        0 <= a <= b,
        forall|s: int| a <= s < b && s < bound ==> !run_free(f, s, n),
    ensures
        first_fit_from(f, n, a, bound) == first_fit_from(f, n, b, bound),
    decreases b - a,
{
    if a < b && a < bound {
        lemma_first_fit_skip(f, n, a + 1, b, bound);
    } else if a < b {
        lemma_first_fit_skip(f, n, a + 1, b, bound);
    }
}

/// The first fit is a start index with a free run, or -1.
proof fn lemma_first_fit_range(f: Seq<u8>, n: int, s: int, bound: int)
    ensures
        first_fit_from(f, n, s, bound) == -1 || (s <= first_fit_from(f, n, s, bound) < bound
            && run_free(f, first_fit_from(f, n, s, bound), n)),
    decreases bound - s,
{
    if s >= 0 && s < bound && !run_free(f, s, n) {
        lemma_first_fit_range(f, n, s + 1, bound);
    }
}

/// A heap of pages and their descriptors.
pub struct PageAllocator {
    pages: Vec<Page>,
    alloc_start: u64,
}

impl PageAllocator {
    /// The flags of the descriptors, page by page.
    pub closed spec fn flags_spec(&self) -> Seq<u8> {
        flags_of(self.pages@)
    }

    /// The address of the first page of the heap.
    pub closed spec fn start_spec(&self) -> u64 {
        self.alloc_start
    }

    /// The heap does not start at address zero and ends within the address space.
    pub closed spec fn wf(&self) -> bool {
        &&& self.alloc_start > 0
        &&& self.alloc_start + self.pages@.len() * PAGE_SIZE <= u64::MAX
    }

    /// Creates the allocator of a heap of `page_count` pages starting at `alloc_start`, all
    /// free.
    pub fn new(alloc_start: u64, page_count: u64) -> (r: Self)
        requires
            alloc_start > 0,
            alloc_start + page_count * PAGE_SIZE <= u64::MAX,
        ensures
            r.wf(),
            r.start_spec() == alloc_start,
            r.flags_spec().len() == page_count,
            forall|k: int| 0 <= k < page_count ==> #[trigger] r.flags_spec()[k] == PAGE_EMPTY,
    {
        let mut pages: Vec<Page> = Vec::new();
        let mut i: u64 = 0;
        while i < page_count
            invariant
                i <= page_count,
                pages@.len() == i,
                forall|k: int| 0 <= k < i ==> #[trigger] pages@[k].flags_spec() == PAGE_EMPTY,
            decreases page_count - i,
        {
            pages.push(Page::new());
            i = i + 1;
        }
        PageAllocator { pages, alloc_start }
    }

    /// Allocates `n_page` contiguous pages: the first run of free pages that starts before
    /// the last `n_page` pages of the heap. Returns the address of its first page, or [`None`]
    /// where there is no such run.
    pub fn alloc_pages(&mut self, n_page: u64) -> (r: Option<u64>)
        requires
            old(self).wf(),
            n_page > 0,
            n_page <= old(self).flags_spec().len(),
        ensures
            final(self).wf(),
            final(self).start_spec() == old(self).start_spec(),
            ({
                let f = old(self).flags_spec();
                let i = first_fit_from(f, n_page as int, 0, f.len() - n_page);
                &&& i == -1 ==> r is None && final(self).flags_spec() == f
                &&& i != -1 ==> r == Some((old(self).start_spec() + i * PAGE_SIZE) as u64)
                    && final(self).flags_spec() == mark_run(f, i, n_page as int)
            }),
    {
        let ghost f = flags_of(self.pages@);
        assert(f.len() == self.pages@.len());
        let n = n_page as usize;
        let max = self.pages.len();
        let mut i: usize = 0;
        let mut found = false;
        while i < max - n
            invariant_except_break
                !found,
            invariant
                self.pages@ == old(self).pages@,
                self.alloc_start == old(self).alloc_start,
                f == flags_of(self.pages@),
                max == self.pages@.len(),
                n == n_page,
                1 <= n <= max,
                i <= max,
                first_fit_from(f, n as int, 0, max - n) == first_fit_from(f, n as int, i as int, max - n),
                found ==> i < max - n && run_free(f, i as int, n as int),
            ensures
                found ==> i < max - n && run_free(f, i as int, n as int) && first_fit_from(
                    f,
                    n as int,
                    0,
                    max - n,
                ) == i,
                !found ==> first_fit_from(f, n as int, 0, max - n) == -1,
            decreases max - i,
        {
            if self.pages[i].is_free() {
                let mut j: usize = i;
                while j < i + n
                    invariant
                        i < max - n,
                        i <= j <= i + n,
                        n <= max,
                        max == self.pages@.len(),
                        f == flags_of(self.pages@),
                        forall|k: int| i <= k < j ==> !taken(#[trigger] f[k]),
                    ensures
                        i <= j <= i + n,
                        forall|k: int| i <= k < j ==> !taken(#[trigger] f[k]),
                        j < i + n ==> taken(f[j as int]),
                    decreases i + n - j,
                {
                    if self.pages[j].is_taken() {
                        break;
                    }
                    j = j + 1;
                }
                if j == i + n {
                    found = true;
                    break;
                } else {
                    proof {
                        assert forall|s: int| i <= s < j + 1 && s < max - n implies !run_free(
                            f,
                            s,
                            n as int,
                        ) by {
                            assert(s <= j < s + n);
                            assert(taken(f[j as int]));
                        }
                        lemma_first_fit_skip(f, n as int, i as int, j + 1, max - n);
                    }
                    i = j + 1;
                }
            } else {
                proof {
                    assert(!run_free(f, i as int, n as int)) by {
                        assert(taken(f[i as int]));
                    }
                    lemma_first_fit_skip(f, n as int, i as int, i + 1, max - n);
                }
                i = i + 1;
            }
        }
        if found {
            let mut j: usize = i;
            while j < i + n
                invariant
                    i < max - n,
                    i <= j <= i + n,
                    n <= max,
                    max == self.pages@.len(),
                    f.len() == max,
                    self.alloc_start == old(self).alloc_start,
                    forall|k: int|
                        0 <= k < max ==> #[trigger] flags_of(self.pages@)[k] == (if i <= k < j {
                            mark_run(f, i as int, n as int)[k]
                        } else {
                            f[k]
                        }),
                decreases i + n - j,
            {
                let ghost before = self.pages@;
                let mut p = self.pages[j];
                proof {
                    assert(flags_of(before)[j as int] == f[j as int]);
                }
                p.set_flag(PAGE_TAKEN);
                if j == i + n - 1 {
                    p.set_flag(PAGE_LAST);
                }
                self.pages.set(j, p);
                proof {
                    assert(self.pages@[j as int] == p);
                    assert(flags_of(self.pages@)[j as int] == p.flags_spec());
                    if j == i + n - 1 {
                        assert(p.flags_spec() == f[j as int] | PAGE_TAKEN | PAGE_LAST);
                    } else {
                        assert(p.flags_spec() == f[j as int] | PAGE_TAKEN);
                    }
                    assert(flags_of(self.pages@)[j as int] == mark_run(f, i as int, n as int)[j as int]);
                    assert forall|k: int| 0 <= k < max implies #[trigger] flags_of(self.pages@)[k]
                        == (if i <= k < j + 1 {
                        mark_run(f, i as int, n as int)[k]
                    } else {
                        f[k]
                    }) by {
                        if k != j {
                            assert(self.pages@[k] == before[k]);
                            assert(flags_of(before)[k] == before[k].flags_spec());
                        }
                    }
                }
                j = j + 1;
            }
            proof {
                assert(flags_of(self.pages@) =~= mark_run(f, i as int, n as int));
                assert(i * PAGE_SIZE <= max * PAGE_SIZE) by (nonlinear_arith)
                    requires
                        i <= max,
                ;
            }
            Some(self.alloc_start + (i as u64) * PAGE_SIZE)
        } else {
            proof {
                assert(flags_of(self.pages@) =~= f);
            }
            None
        }
    }

    /// Releases the allocation whose first page is at `addr`: clears the descriptors from its
    /// first page up to and including the last one.
    pub fn dealloc(&mut self, addr: u64)
        requires
            old(self).wf(),
            old(self).start_spec() <= addr,
            page_index(old(self).start_spec(), addr) < old(self).flags_spec().len(),
            ({
                let f = old(self).flags_spec();
                let e = walk_end(f, page_index(old(self).start_spec(), addr));
                e < f.len() && last(f[e])
            }),
        ensures
            final(self).wf(),
            final(self).start_spec() == old(self).start_spec(),
            ({
                let f = old(self).flags_spec();
                let idx = page_index(old(self).start_spec(), addr);
                final(self).flags_spec() == clear_run(f, idx, walk_end(f, idx))
            }),
    {
        let ghost f = flags_of(self.pages@);
        let q: u64 = (addr - self.alloc_start) / PAGE_SIZE;
        let len: usize = self.pages.len();
        assert(q < len);
        let idx = q as usize;
        let ghost e = walk_end(f, idx as int);
        proof {
            assert(f.len() == self.pages@.len());
            assert(idx as int == page_index(self.alloc_start, addr));
            lemma_walk_end_ge(f, idx as int);
        }
        let mut k: usize = idx;
        while self.pages[k].is_taken() && !self.pages[k].is_last()
            invariant
                idx <= k <= e,
                e < f.len(),
                len == f.len(),
                self.pages@.len() == f.len(),
                self.alloc_start == old(self).alloc_start,
                walk_end(f, k as int) == e,
                forall|m: int|
                    0 <= m < f.len() ==> #[trigger] flags_of(self.pages@)[m] == (if idx <= m < k {
                        PAGE_EMPTY
                    } else {
                        f[m]
                    }),
            decreases e - k,
        {
            let ghost before = self.pages@;
            proof {
                assert(flags_of(before)[k as int] == f[k as int]);
                assert(before[k as int].flags_spec() == f[k as int]);
                lemma_walk_end_ge(f, k as int);
                lemma_walk_end_ge(f, k + 1);
            }
            let mut p = self.pages[k];
            p.clear();
            self.pages.set(k, p);
            proof {
                assert(self.pages@[k as int] == p);
                assert forall|m: int| 0 <= m < f.len() implies #[trigger] flags_of(self.pages@)[m]
                    == (if idx <= m < k + 1 {
                    PAGE_EMPTY
                } else {
                    f[m]
                }) by {
                    if m != k {
                        assert(self.pages@[m] == before[m]);
                        assert(flags_of(before)[m] == before[m].flags_spec());
                    }
                }
            }
            k = k + 1;
        }
        proof {
            assert(flags_of(self.pages@)[k as int] == f[k as int]);
        }
        let ghost before = self.pages@;
        let mut p = self.pages[k];
        p.clear();
        self.pages.set(k, p);
        proof {
            assert(self.pages@[k as int] == p);
            assert(walk_end(f, k as int) == k);
            assert forall|m: int| 0 <= m < f.len() implies #[trigger] flags_of(self.pages@)[m]
                == clear_run(f, idx as int, e)[m] by {
                if m != k {
                    assert(self.pages@[m] == before[m]);
                    assert(flags_of(before)[m] == before[m].flags_spec());
                }
            }
            assert(flags_of(self.pages@) =~= clear_run(f, idx as int, e));
        }
    }
}

/// Law: releasing an allocation right after making it gives back the descriptors as they
/// were, where the pages it took had no flag set; the release stops at the last page of the
/// allocation.
pub proof fn lemma_alloc_dealloc(f: Seq<u8>, i: int, n: int)
    requires
        0 <= i,
        0 < n,
        i + n <= f.len(),
        forall|k: int| i <= k < i + n ==> #[trigger] f[k] == PAGE_EMPTY,
    ensures
        walk_end(mark_run(f, i, n), i) == i + n - 1,
        last(mark_run(f, i, n)[i + n - 1]),
        clear_run(mark_run(f, i, n), i, i + n - 1) == f,
{
    let g = mark_run(f, i, n);
    lemma_page_bits(0);
    lemma_walk_run(g, i, i + n - 1);
    assert(clear_run(g, i, i + n - 1) =~= f);
}

/// Marking a page taken, or taken and last, sets its flags so.
proof fn lemma_page_bits(x: u8)
    by (bit_vector)
    ensures
        (x | PAGE_TAKEN) & PAGE_TAKEN != 0,
        (x | PAGE_TAKEN | PAGE_LAST) & PAGE_TAKEN != 0,
        (x | PAGE_TAKEN | PAGE_LAST) & PAGE_LAST != 0,
        x == 0 ==> (x | PAGE_TAKEN) & PAGE_LAST == 0,
{
}

/// Law: a run of pages that a later allocation finds free shares no page with the run an
/// allocation marked taken.
pub proof fn lemma_runs_disjoint(f: Seq<u8>, i: int, n: int, j: int, m: int)
    requires
        0 <= i,
        0 < n,
        i + n <= f.len(),
        0 <= j,
        0 < m,
        j + m <= f.len(),
        run_free(mark_run(f, i, n), j, m),
    ensures
        j + m <= i || i + n <= j,
{
    if !(j + m <= i || i + n <= j) {
        let k = if i <= j { j } else { i };
        lemma_page_bits(f[k]);
        assert(j <= k < j + m && i <= k < i + n);
        assert(taken(mark_run(f, i, n)[k]));
        assert(!taken(mark_run(f, i, n)[k]));
    }
}

/// The release walk never stops before where it starts.
proof fn lemma_walk_end_ge(f: Seq<u8>, k: int)
    requires
        0 <= k,
    ensures
        walk_end(f, k) >= k,
        k < f.len() && taken(f[k]) && !last(f[k]) ==> walk_end(f, k) == walk_end(f, k + 1),
        !(k < f.len() && taken(f[k]) && !last(f[k])) ==> walk_end(f, k) == k,
    decreases f.len() - k,
{
    if k < f.len() && taken(f[k]) && !last(f[k]) {
        lemma_walk_end_ge(f, k + 1);
    }
}

/// The release walk from `k` crosses taken pages short of the last one up to `e`.
proof fn lemma_walk_run(g: Seq<u8>, k: int, e: int)
    requires
        0 <= k <= e < g.len(),
        forall|m: int| k <= m < e ==> taken(#[trigger] g[m]) && !last(g[m]),
        last(g[e]),
    ensures
        walk_end(g, k) == e,
    decreases e - k,
{
    if k < e {
        lemma_walk_run(g, k + 1, e);
    }
}

} // verus!
