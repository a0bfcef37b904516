//! Pages and their headers. A page is one 4096-byte, page-aligned region
//! obtained from the virtual-memory mapper, subdivided into equal-size slots
//! of `slot_size * 8` bytes; the last 40 bytes of the region are reserved for
//! the embedded header and never used for slots. The header is split into a
//! shared part, readable by any thread holding a pointer into the page, and an
//! owner-private part, mutated only by the thread whose cache holds the page.
//!
//! Each free list is kept as an explicit stack of slot indices in the header
//! record. Threading the same stack through the free slots' payload bytes, as
//! an intrusive list, is an equivalent in-place encoding that needs raw
//! pointer writes; the header-resident stack keeps every free-list operation
//! in checked code.

use vstd::prelude::*;
use vstd::arithmetic::div_mod::{
    lemma_fundamental_div_mod, lemma_fundamental_div_mod_converse, lemma_div_by_multiple,
    lemma_div_is_ordered_by_denominator, lemma_div_pos_is_pos, lemma_mod_division_less_than_divisor,
};
use vstd::arithmetic::mul::lemma_mul_inequality;
use memmap::MmapMut;
use crate::region::{region_bytes, region_base, region_start, region_read, region_write, region_unmap};

verus! {

/// Bytes in one page-sized region.
pub const PAGE_SIZE: usize = 4096;

/// Bytes of a page that hold slots: the page minus the 40 bytes reserved at
/// its end for the embedded header.
pub const PAGE_BUF_SIZE: usize = 4056;

/// The start of the page whose region an address falls into, assuming pages
/// are 4096-byte aligned.
pub open spec fn spec_page_base(addr: int) -> int {
    (addr / 4096) * 4096
}

/// How many slots a page of size class `c` holds.
pub open spec fn spec_max_len(c: int) -> int {
    4056int / (8 * c)
}

/// Whether index `i` occurs in the free list `s`.
pub open spec fn free_in(s: Seq<u16>, i: int) -> bool {
    exists|k: int| 0 <= k < s.len() && (#[trigger] s[k]) as int == i
}

/// The base address of a page, recovered from any address inside it.
pub struct PageRef {
    pub start: usize,
}

/// The shared part of a page header: readable by every thread that holds a
/// pointer into the page. `slot_size` is the size class (1..=64) and never
/// changes after creation; `is_owned` is true exactly while one thread holds
/// the page in its cache; `shared_free` is the shared free list, which any
/// thread may push onto.
pub struct Head {
    pub slot_size: u8,
    pub is_owned: bool,
    pub shared_free: Vec<u16>,
}

/// The owner-private part of a page header: mutated only by the single thread
/// that currently holds the page in its cache. `cursor` counts the slots ever
/// bump-allocated; `exclusive_free` is the exclusive free list; `handle` is
/// the capability to unmap the region.
pub struct HeadOwned {
    pub cursor: u16,
    pub exclusive_free: Vec<u16>,
    pub handle: MmapMut,
}

/// One page: its base address and its two-part header.
pub struct Page {
    pub page: PageRef,
    pub head: Head,
    pub head_owned: HeadOwned,
}

impl PageRef {
    /// Masks an address down to the 4096-byte boundary of the page it points
    /// into. This is the single place where an interior address is
    /// reinterpreted as a page identity.
    pub fn of(ptr: usize) -> (r: PageRef)
        ensures
            r.start == spec_page_base(ptr as int),
            r.start <= ptr,
    {
        proof {
            lemma_fundamental_div_mod(ptr as int, 4096);
            lemma_mod_division_less_than_divisor(ptr as int, 4096);
        }
        PageRef { start: ptr / PAGE_SIZE * PAGE_SIZE }
    }

    /// How many slots a page of the class in `head` holds:
    /// floor(slot bytes available / slot size).
    pub fn max_len(&self, head: &Head) -> (n: u16)
        requires
            1 <= head.slot_size <= 64,
        ensures
            n == spec_max_len(head.slot_size as int),
    {
        proof {
            lemma_max_len_bounds(head.slot_size as int);
        }
        (PAGE_BUF_SIZE / (crate::UNIT_SIZE * head.slot_size as usize)) as u16
    }
}

/// Bounds on a page's slot count: a page holds between 7 and 507 slots, and
/// the slots together fit in the buffer area.
pub proof fn lemma_max_len_bounds(c: int)
    requires
        1 <= c <= 64,
    ensures
        7 <= spec_max_len(c) <= 507,
        spec_max_len(c) * (8 * c) <= 4056,
{
    let d = 8 * c;
    lemma_div_is_ordered_by_denominator(4056, 8, d);
    lemma_div_is_ordered_by_denominator(4056, d, 512);
    assert(4056int / 8 == 507) by (nonlinear_arith);
    assert(4056int / 512 == 7) by (nonlinear_arith);
    lemma_fundamental_div_mod(4056, d);
    lemma_mod_division_less_than_divisor(4056, d);
}

/// Slot `i` of a page of class `c` occupies bytes `i*8*c .. i*8*c + 8*c` of
/// the page, which lie inside the buffer area.
pub proof fn lemma_slot_range(c: int, i: int)
    requires
        1 <= c <= 64,
        0 <= i < spec_max_len(c),
    ensures
        0 <= i * (8 * c),
        i * (8 * c) + 8 * c <= 4056,
{
    let d = 8 * c;
    lemma_max_len_bounds(c);
    lemma_mul_inequality(0, i, d);
    lemma_mul_inequality(i + 1, spec_max_len(c), d);
    assert((i + 1) * d == i * d + d) by (nonlinear_arith);
}

/// Masking an address inside a page recovers the page's base: if `base` is
/// 4096-byte aligned and `off` lies inside the page, the address `base + off`
/// masks back down to `base`.
pub proof fn lemma_mask_recovers(base: int, off: int)
    requires
        0 <= base,
        base % 4096 == 0,
        0 <= off < 4096,
    ensures
        spec_page_base(base + off) == base,
        (base + off) % 4096 == off,
{
    let q = base / 4096;
    lemma_fundamental_div_mod(base, 4096);
    lemma_div_pos_is_pos(base, 4096);
    lemma_fundamental_div_mod_converse(base + off, 4096, q, off);
}

/// Dividing a slot's offset by the slot size recovers the slot's index.
pub proof fn lemma_slot_index(c: int, i: int)
    requires
        1 <= c <= 64,
        0 <= i,
    ensures
        (i * (8 * c)) / (8 * c) == i,
{
    lemma_div_by_multiple(i, 8 * c);
}

/// Whether index `x` occurs in the free list `v`.
pub fn list_contains(v: &Vec<u16>, x: u16) -> (r: bool)
    ensures
        r == free_in(v@, x as int),
{
    let n = v.len();
    let mut k: usize = 0;
    while k < n
        invariant
            k <= n,
            n == v@.len(),
            forall|j: int| 0 <= j < k ==> (#[trigger] v@[j]) != x,
        decreases n - k,
    {
        if v[k] == x {
            return true;
        }
        k += 1;
    }
    false
}

impl Page {
    /// The page's size class.
    pub open spec fn slot_size(self) -> int {
        self.head.slot_size as int
    }

    /// Bytes in one slot of this page.
    pub open spec fn slot_bytes(self) -> int {
        8 * self.slot_size()
    }

    /// How many slots this page holds.
    pub open spec fn max_len(self) -> int {
        spec_max_len(self.slot_size())
    }

    /// The bump cursor: slots `0 .. cursor` have been handed out at least once.
    pub open spec fn cursor(self) -> int {
        self.head_owned.cursor as int
    }

    /// The exclusive free list, as the stack of free slot indices.
    pub open spec fn exl(self) -> Seq<u16> {
        self.head_owned.exclusive_free@
    }

    /// The shared free list, as the stack of free slot indices.
    pub open spec fn shr(self) -> Seq<u16> {
        self.head.shared_free@
    }

    /// The page's base address.
    pub open spec fn base(self) -> int {
        self.page.start as int
    }

    /// The bytes of the page's region.
    pub open spec fn bytes(self) -> Seq<u8> {
        region_bytes(self.head_owned.handle)
    }

    /// The address of slot `i` of this page.
    pub open spec fn slot_addr(self, i: int) -> int {
        self.base() + i * self.slot_bytes()
    }

    /// The page's invariant: the class is in range, the recorded base is the
    /// region's page-aligned start, the cursor never passes the slot count,
    /// and the two free lists hold distinct, disjoint indices of slots the
    /// cursor has passed.
    pub open spec fn wf(self) -> bool {
        &&& 1 <= self.head.slot_size <= 64
        &&& self.page.start == region_base(self.head_owned.handle)
        &&& self.bytes().len() == 4096
        &&& self.base() % 4096 == 0
        &&& self.base() > 0
        &&& self.base() + 4096 <= usize::MAX
        &&& self.cursor() <= self.max_len()
        &&& forall|k: int| 0 <= k < self.exl().len() ==> (#[trigger] self.exl()[k]) < self.head_owned.cursor
        &&& forall|k: int| 0 <= k < self.shr().len() ==> (#[trigger] self.shr()[k]) < self.head_owned.cursor
        &&& forall|k: int, l: int| 0 <= k < l < self.exl().len() ==> self.exl()[k] != self.exl()[l]
        &&& forall|k: int, l: int| 0 <= k < l < self.shr().len() ==> self.shr()[k] != self.shr()[l]
        &&& forall|k: int, l: int|
            0 <= k < self.exl().len() && 0 <= l < self.shr().len() ==> self.exl()[k] != self.shr()[l]
    }

    /// Slot `i` is live: it has been handed out by the bump cursor and is on
    /// neither free list.
    pub open spec fn slot_live(self, i: int) -> bool {
        &&& 0 <= i < self.cursor()
        &&& !free_in(self.exl(), i)
        &&& !free_in(self.shr(), i)
    }

    /// Creates a page over a freshly mapped region: header initialized with
    /// the given class, cursor at zero, both free lists empty, owned by the
    /// creating thread.
    pub fn new(handle: MmapMut, slot_size: u8) -> (p: Page)
        requires
            1 <= slot_size <= 64,
            region_bytes(handle).len() == 4096,
            region_base(handle) as int % 4096 == 0,
            region_base(handle) > 0,
            region_base(handle) as int + 4096 <= usize::MAX as int,
        ensures
            p.wf(),
            p.head.slot_size == slot_size,
            p.head.is_owned,
            p.cursor() == 0,
            p.exl().len() == 0,
            p.shr().len() == 0,
            p.head_owned.handle == handle,
            p.page.start == region_base(handle),
            p.bytes() == region_bytes(handle),
    {
        proof {
            lemma_max_len_bounds(slot_size as int);
        }
        let start = region_start(&handle);
        Page {
            page: PageRef { start },
            head: Head { slot_size, is_owned: true, shared_free: Vec::new() },
            head_owned: HeadOwned { cursor: 0, exclusive_free: Vec::new(), handle },
        }
    }

    /// The shared header.
    pub fn head(&self) -> (h: &Head)
        ensures
            h == self.head,
    {
        &self.head
    }

    /// The owner-private header.
    pub fn head_owned(&self) -> (h: &HeadOwned)
        ensures
            h == self.head_owned,
    {
        &self.head_owned
    }

    /// Marks the page as no longer owned, without unmapping it: used when a
    /// still-referenceable page is evicted from a thread's cache. After this,
    /// frees against the page must use the shared list.
    pub fn release(&mut self)
        ensures
            final(self).head.is_owned == false,
            final(self).head.slot_size == old(self).head.slot_size,
            final(self).head.shared_free == old(self).head.shared_free,
            final(self).head_owned == old(self).head_owned,
            final(self).page == old(self).page,
            old(self).wf() ==> final(self).wf(),
    {
        self.head.is_owned = false;
        proof {
            assert(self.exl() == old(self).exl());
            assert(self.shr() == old(self).shr());
        }
    }

    /// Returns the region to the OS. Only sound once the page holds no live
    /// slot.
    pub fn unmap(self)
        requires
            forall|i: int| 0 <= i < self.cursor() ==> !self.slot_live(i),
    {
        let Page { page: _, head: _, head_owned } = self;
        let HeadOwned { cursor: _, exclusive_free: _, handle } = head_owned;
        region_unmap(handle);
    }

    /// Pushes a freed slot onto the exclusive free list. Owner-only; no
    /// synchronization is modeled because only the owning thread calls this.
    pub fn push_exclusive(&mut self, i: u16)
        requires
            old(self).wf(),
            old(self).slot_live(i as int),
        ensures
            final(self).wf(),
            final(self).exl() == old(self).exl().push(i),
            final(self).shr() == old(self).shr(),
            final(self).head.slot_size == old(self).head.slot_size,
            final(self).head.is_owned == old(self).head.is_owned,
            final(self).head_owned.cursor == old(self).head_owned.cursor,
            final(self).head_owned.handle == old(self).head_owned.handle,
            final(self).page == old(self).page,
    {
        self.head_owned.exclusive_free.push(i);
    }

    /// Pushes a freed slot onto the shared free list. Safe from any thread:
    /// in the running allocator this is the atomic compare-and-exchange push;
    /// it never touches the owner-private header.
    pub fn push_shared(&mut self, i: u16)
        requires
            old(self).wf(),
            old(self).slot_live(i as int),
        ensures
            final(self).wf(),
            final(self).shr() == old(self).shr().push(i),
            final(self).head.slot_size == old(self).head.slot_size,
            final(self).head.is_owned == old(self).head.is_owned,
            final(self).head_owned == old(self).head_owned,
            final(self).page == old(self).page,
    {
        self.head.shared_free.push(i);
    }

    /// Writes one byte of the page's region. Only the byte changes: the
    /// header, the free lists and the page identity stay as they were.
    pub fn write_byte(&mut self, off: usize, v: u8)
        requires
            old(self).wf(),
            off < 4096,
        ensures
            final(self).wf(),
            final(self).bytes() == old(self).bytes().update(off as int, v),
            final(self).page == old(self).page,
            final(self).head == old(self).head,
            final(self).head_owned.cursor == old(self).head_owned.cursor,
            final(self).head_owned.exclusive_free == old(self).head_owned.exclusive_free,
    {
        region_write(&mut self.head_owned.handle, off, v);
        proof {
            assert(self.exl() == old(self).exl());
            assert(self.shr() == old(self).shr());
        }
    }

    /// Reads one byte of the page's region.
    pub fn read_byte(&self, off: usize) -> (r: u8)
        requires
            self.wf(),
            off < 4096,
        ensures
            r == self.bytes()[off as int],
    {
        region_read(&self.head_owned.handle, off)
    }

    /// Whether every slot the cursor ever handed out is free again — the
    /// condition under which a released page may be reclaimed.
    pub fn all_slots_free(&self) -> (r: bool)
        requires
            self.wf(),
        ensures
            r == forall|i: int| 0 <= i < self.cursor() ==> !(#[trigger] self.slot_live(i)),
    {
        let n = self.head_owned.cursor;
        let mut i: u16 = 0;
        while i < n
            invariant
                i <= n,
                n == self.head_owned.cursor,
                self.wf(),
                forall|k: int| 0 <= k < i ==> !(#[trigger] self.slot_live(k)),
            decreases n - i,
        {
            let in_exl = list_contains(&self.head_owned.exclusive_free, i);
            let in_shr = list_contains(&self.head.shared_free, i);
            if !in_exl && !in_shr {
                proof {
                    assert(self.slot_live(i as int));
                }
                return false;
            }
            i += 1;
        }
        true
    }

    /// Whether the page can still yield a slot: a non-empty exclusive list, a
    /// cursor short of the slot count, or a shared list that can be drained.
    pub fn has_capacity(&self) -> (r: bool)
        requires
            self.wf(),
        ensures
            r == (self.exl().len() > 0 || self.cursor() < self.max_len() || self.shr().len() > 0),
    {
        if self.head_owned.exclusive_free.len() > 0 {
            true
        } else if (self.head_owned.cursor as usize) < PAGE_BUF_SIZE / (crate::UNIT_SIZE * self.head.slot_size as usize) {
            true
        } else {
            self.head.shared_free.len() > 0
        }
    }

    /// Obtains a slot, owner-only: pop the exclusive free list first
    /// (reuse-first), else bump the cursor, else drain the shared list into
    /// the exclusive list and pop. Returns `None` only when the page is
    /// exhausted: both lists empty and the cursor at the slot count.
    pub fn acquire(&mut self) -> (r: Option<u16>)
        requires
            old(self).wf(),
        ensures
            final(self).wf(),
            final(self).head.slot_size == old(self).head.slot_size,
            final(self).head.is_owned == old(self).head.is_owned,
            final(self).head_owned.handle == old(self).head_owned.handle,
            final(self).page == old(self).page,
            // reuse-first: a freed slot is handed out again before the cursor advances
            old(self).exl().len() > 0 ==> {
                &&& r == Some(old(self).exl().last())
                &&& final(self).head_owned.cursor == old(self).head_owned.cursor
                &&& final(self).exl() == old(self).exl().drop_last()
                &&& final(self).shr() == old(self).shr()
            },
            old(self).exl().len() == 0 && old(self).cursor() < old(self).max_len() ==> {
                &&& r == Some(old(self).head_owned.cursor)
                &&& final(self).cursor() == old(self).cursor() + 1
                &&& final(self).exl() == old(self).exl()
                &&& final(self).shr() == old(self).shr()
            },
            old(self).exl().len() == 0 && old(self).cursor() == old(self).max_len()
                && old(self).shr().len() > 0 ==> {
                &&& r == Some(old(self).shr().last())
                &&& final(self).head_owned.cursor == old(self).head_owned.cursor
                &&& final(self).exl() == old(self).shr().drop_last()
                &&& final(self).shr().len() == 0
            },
            old(self).exl().len() == 0 && old(self).cursor() == old(self).max_len()
                && old(self).shr().len() == 0 ==> r is None && *final(self) == *old(self),
            r is Some ==> {
                &&& final(self).slot_live(r->0 as int)
                &&& !old(self).slot_live(r->0 as int)
                &&& r->0 < final(self).max_len()
            },
            // every slot live before is still live
            forall|j: int| old(self).slot_live(j) ==> #[trigger] final(self).slot_live(j),
    {
        if self.head_owned.exclusive_free.len() > 0 {
            let i = self.head_owned.exclusive_free.pop().unwrap();
            Some(i)
        } else if (self.head_owned.cursor as usize)
            < PAGE_BUF_SIZE / (crate::UNIT_SIZE * self.head.slot_size as usize) {
            let i = self.head_owned.cursor;
            proof {
                lemma_max_len_bounds(old(self).slot_size());
            }
            self.head_owned.cursor = i + 1;
            Some(i)
        } else if self.head.shared_free.len() > 0 {
            // drain: splice the shared chain onto the exclusive list under
            // owner-exclusive access, then pop
            let ghost old_shr = self.head.shared_free@;
            let n = self.head.shared_free.len();
            let mut idx: usize = 0;
            while idx < n
                invariant
                    idx <= n,
                    n == old_shr.len(),
                    self.head.shared_free@ == old_shr,
                    self.head_owned.exclusive_free@ == old_shr.subrange(0, idx as int),
                    self.head_owned.cursor == old(self).head_owned.cursor,
                    self.head.slot_size == old(self).head.slot_size,
                    self.head.is_owned == old(self).head.is_owned,
                    self.head_owned.handle == old(self).head_owned.handle,
                    self.page == old(self).page,
                decreases n - idx,
            {
                let x = self.head.shared_free[idx];
                self.head_owned.exclusive_free.push(x);
                proof {
                    assert(self.head_owned.exclusive_free@ == old_shr.subrange(0, idx as int + 1));
                }
                idx += 1;
            }
            proof {
                assert(self.head_owned.exclusive_free@ == old_shr);
            }
            self.head.shared_free.clear();
            let i = self.head_owned.exclusive_free.pop().unwrap();
            Some(i)
        } else {
            None
        }
    }
}

} // verus!
