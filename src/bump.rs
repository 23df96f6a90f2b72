//! A bump allocator over one memory range: bytes are handed out from the
//! front, pages from the back.
//!
//! ```text
//! [ bytes-used | avail-area | pages-used ]
//! |            | -->    <-- |            |
//! start       byte_pos   page_pos      end
//! ```
//!
//! The byte area counts its live allocations and is freed as a whole when
//! that count drops to zero. Pages are never freed.
use vstd::prelude::*;

verus! {

/// Why an allocation failed.
#[derive(Debug, Clone, Copy, PartialEq, Eq, Structural)]
pub enum AllocError {
    /// The free area between the two ends is too small.
    NoMemory,
}

/// Whether `n` is a power of two.
pub open spec fn is_pow2(n: nat) -> bool
    decreases n,
{
    if n <= 1 {
        n == 1
    } else {
        n % 2 == 0 && is_pow2(n / 2)
    }
}

/// The smallest multiple of `align` at or above `addr`.
pub open spec fn round_up(addr: nat, align: nat) -> nat
    recommends
        align > 0,
{
    ((addr + align - 1) as nat / align) * align
}

/// Relies on memory_addr::align_up: for a power-of-two `align` it returns the
/// smallest multiple of `align` at or above `addr`. It computes
/// `addr + align` first, so that sum must fit.
#[verifier::external_body]
fn align_up(addr: usize, align: usize) -> (r: usize)
    requires
        is_pow2(align as nat),
        addr + align <= usize::MAX,
    ensures
        r as nat == round_up(addr as nat, align as nat),
{
    memory_addr::align_up(addr, align)
}

/// A bump allocator for the memory range `[start, end)`, with pages of
/// `PAGE_SIZE` bytes.
pub struct EarlyAllocator<const PAGE_SIZE: usize> {
    start: usize,
    end: usize,
    byte_pos: usize,
    page_pos: usize,
    count: usize,
}

impl<const PAGE_SIZE: usize> EarlyAllocator<PAGE_SIZE> {
    pub closed spec fn spec_start(&self) -> nat {
        self.start as nat
    }

    pub closed spec fn spec_end(&self) -> nat {
        self.end as nat
    }

    /// The first byte that the byte area has not handed out.
    pub closed spec fn spec_byte_pos(&self) -> nat {
        self.byte_pos as nat
    }

    /// The first byte of the page area.
    pub closed spec fn spec_page_pos(&self) -> nat {
        self.page_pos as nat
    }

    /// The number of live byte allocations.
    pub closed spec fn spec_count(&self) -> nat {
        self.count as nat
    }

    /// The two areas grow towards each other inside the range.
    pub closed spec fn wf(&self) -> bool {
        self.start <= self.byte_pos <= self.page_pos <= self.end
    }

    /// An allocator over the empty range at address zero.
    pub fn new() -> (r: Self)
        ensures
            r.wf(),
            r.spec_start() == 0,
            r.spec_end() == 0,
            r.spec_byte_pos() == 0,
            r.spec_page_pos() == 0,
            r.spec_count() == 0,
    {
        EarlyAllocator { start: 0, end: 0, byte_pos: 0, page_pos: 0, count: 0 }
    }

    /// Makes the allocator manage `[start, start + size)`, all of it free.
    pub fn init(&mut self, start: usize, size: usize)
        requires
            start + size <= usize::MAX,
        ensures
            final(self).wf(),
            final(self).spec_start() == start,
            final(self).spec_end() == start + size,
            final(self).spec_byte_pos() == start,
            final(self).spec_page_pos() == start + size,
            final(self).spec_count() == 0,
    {
        self.start = start;
        self.end = start + size;
        self.byte_pos = start;
        self.page_pos = start + size;
        self.count = 0;
    }

    /// Hands out `size` bytes aligned to `align` from the front of the free area.
    ///
    /// Fails, and changes nothing, when the aligned block would reach into the
    /// page area. An allocation at address zero is counted but reported as a failure.
    pub fn alloc_bytes(&mut self, size: usize, align: usize) -> (r: Result<usize, AllocError>)
        requires
            old(self).wf(),
            is_pow2(align as nat),
            old(self).spec_count() < usize::MAX,
        ensures
            final(self).wf(),
            final(self).spec_start() == old(self).spec_start(),
            final(self).spec_end() == old(self).spec_end(),
            final(self).spec_page_pos() == old(self).spec_page_pos(),
            ({
                let s = round_up(old(self).spec_byte_pos(), align as nat);
                if old(self).spec_byte_pos() + align > usize::MAX || s + size > old(
                    self,
                ).spec_page_pos() {
                    &&& r == Err::<usize, AllocError>(AllocError::NoMemory)
                    &&& final(self).spec_byte_pos() == old(self).spec_byte_pos()
                    &&& final(self).spec_count() == old(self).spec_count()
                } else {
                    &&& final(self).spec_byte_pos() == s + size
                    &&& final(self).spec_count() == old(self).spec_count() + 1
                    &&& r == (if s == 0 {
                        Err(AllocError::NoMemory)
                    } else {
                        Ok(s as usize)
                    })
                }
            }),
    {
        if self.byte_pos > usize::MAX - align {
            return Err(AllocError::NoMemory);
        }
        let start = align_up(self.byte_pos, align);
        proof {
            let a = align as nat;
            let q = ((self.byte_pos + a - 1) as nat / a);
            assert(q * a + (self.byte_pos + a - 1) as nat % a == (self.byte_pos + a - 1) as nat)
                by (nonlinear_arith)
                requires
                    a > 0,
                    q == ((self.byte_pos + a - 1) as nat / a),
            ;
            assert((self.byte_pos + a - 1) as nat % a < a) by (nonlinear_arith)
                requires
                    a > 0,
            ;
        }
        if size > self.page_pos || start > self.page_pos - size {
            return Err(AllocError::NoMemory);
        }
        let next = start + size;
        self.byte_pos = next;
        self.count = self.count + 1;
        if start == 0 {
            Err(AllocError::NoMemory)
        } else {
            Ok(start)
        }
    }

    /// Ends one byte allocation. When none is left, the whole byte area is free again.
    pub fn dealloc_bytes(&mut self)
        requires
            old(self).wf(),
            old(self).spec_count() > 0,
        ensures
            final(self).wf(),
            final(self).spec_start() == old(self).spec_start(),
            final(self).spec_end() == old(self).spec_end(),
            final(self).spec_page_pos() == old(self).spec_page_pos(),
            final(self).spec_count() == old(self).spec_count() - 1,
            final(self).spec_byte_pos() == (if old(self).spec_count() == 1 {
                old(self).spec_start()
            } else {
                old(self).spec_byte_pos()
            }),
    {
        self.count = self.count - 1;
        if self.count == 0 {
            self.byte_pos = self.start;
        }
    }

    /// The size of the whole range.
    pub fn total_bytes(&self) -> (r: usize)
        requires
            self.wf(),
        ensures
            r == self.spec_end() - self.spec_start(),
    {
        self.end - self.start
    }

    /// The bytes that the byte area has handed out.
    pub fn used_bytes(&self) -> (r: usize)
        requires
            self.wf(),
        ensures
            r == self.spec_byte_pos() - self.spec_start(),
    {
        self.byte_pos - self.start
    }

    /// The bytes between the two areas.
    pub fn available_bytes(&self) -> (r: usize)
        requires
            self.wf(),
        ensures
            r == self.spec_page_pos() - self.spec_byte_pos(),
    {
        self.page_pos - self.byte_pos
    }

    /// Hands out `num_pages` pages from the back of the free area and returns
    /// the address of the first. Fails, and changes nothing, when they would
    /// reach into the byte area.
    pub fn alloc_pages(&mut self, num_pages: usize) -> (r: Result<usize, AllocError>)
        requires
            old(self).wf(),
        ensures
            final(self).wf(),
            final(self).spec_start() == old(self).spec_start(),
            final(self).spec_end() == old(self).spec_end(),
            final(self).spec_byte_pos() == old(self).spec_byte_pos(),
            final(self).spec_count() == old(self).spec_count(),
            if num_pages * PAGE_SIZE > old(self).spec_page_pos() - old(self).spec_byte_pos() {
                &&& r == Err::<usize, AllocError>(AllocError::NoMemory)
                &&& final(self).spec_page_pos() == old(self).spec_page_pos()
            } else {
                &&& final(self).spec_page_pos() == old(self).spec_page_pos() - num_pages * PAGE_SIZE
                &&& r == Ok::<usize, AllocError>(final(self).spec_page_pos() as usize)
            },
    {
        let room = self.page_pos - self.byte_pos;
        if PAGE_SIZE != 0 && num_pages > room / PAGE_SIZE {
            proof {
                let q = room as int / PAGE_SIZE as int;
                assert(num_pages * PAGE_SIZE > room) by (nonlinear_arith)
                    requires
                        PAGE_SIZE > 0,
                        num_pages > q,
                        q == room as int / PAGE_SIZE as int,
                ;
            }
            return Err(AllocError::NoMemory);
        }
        proof {
            if PAGE_SIZE != 0 {
                let q = room as int / PAGE_SIZE as int;
                assert(num_pages * PAGE_SIZE <= room) by (nonlinear_arith)
                    requires
                        PAGE_SIZE > 0,
                        num_pages <= q,
                        q == room as int / PAGE_SIZE as int,
                ;
            }
        }
        let next = self.page_pos - num_pages * PAGE_SIZE;
        self.page_pos = next;
        Ok(next)
    }

    /// The number of whole pages in the range.
    pub fn total_pages(&self) -> (r: usize)
        requires
            self.wf(),
            PAGE_SIZE > 0,
        ensures
            r == (self.spec_end() - self.spec_start()) as nat / PAGE_SIZE as nat,
    {
        (self.end - self.start) / PAGE_SIZE
    }

    /// The number of whole pages that the page area has handed out.
    pub fn used_pages(&self) -> (r: usize)
        requires
            self.wf(),
            PAGE_SIZE > 0,
        ensures
            r == (self.spec_end() - self.spec_page_pos()) as nat / PAGE_SIZE as nat,
    {
        (self.end - self.page_pos) / PAGE_SIZE
    }

    /// The number of whole pages between the two areas.
    pub fn available_pages(&self) -> (r: usize)
        requires
            self.wf(),
            PAGE_SIZE > 0,
        ensures
            r == (self.spec_page_pos() - self.spec_byte_pos()) as nat / PAGE_SIZE as nat,
    {
        (self.page_pos - self.byte_pos) / PAGE_SIZE
    }
}

} // verus!
