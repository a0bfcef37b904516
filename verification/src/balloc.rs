//! The allocator facade and its per-thread state: a cache of at most one owned
//! page per size class, and the released (orphaned) pages that stay mapped
//! until every slot on them is free. Requests over 512 bytes are routed,
//! unchanged, to the fallback allocator; the caller of the library performs
//! that call.

use vstd::prelude::*;
use crate::page::{
    Page, PageRef, free_in, spec_max_len, spec_page_base, lemma_max_len_bounds, lemma_slot_range,
    lemma_mask_recovers, lemma_slot_index,
};
use crate::region::{map_fresh, region_base};
use crate::{spec_size_class, get_slot_size, MAX_ALLOC_SIZE, MAX_SMALL_SLOT, UNIT_SIZE};
use vstd::arithmetic::div_mod::{
    lemma_fundamental_div_mod, lemma_mod_multiples_basic,
};
use vstd::arithmetic::mul::{lemma_mul_inequality, lemma_mul_is_commutative};

verus! {

/// What an allocation request came to: a usable address, a request the
/// fallback allocator must serve (over 512 bytes), or a failed attempt to map
/// a fresh page — fatal to the process, reported to the caller who aborts.
#[derive(PartialEq, Eq, Structural, Clone, Copy, Debug)]
pub enum AllocOutcome {
    Address(usize),
    Delegated,
    Exhausted,
}

/// What a free request came to: handled on the small path, or to be forwarded
/// to the fallback allocator (over 512 bytes).
#[derive(PartialEq, Eq, Structural, Clone, Copy, Debug)]
pub enum FreeOutcome {
    Freed,
    Delegated,
}

/// What a reallocation request came to. `Unchanged`: both sizes share a size
/// class, the address stays valid. `Moved`: a new slot was allocated, the
/// contents copied, the old slot freed. `Delegated`: the old block belongs to
/// the fallback allocator, which reallocates it. `Promoted`: the new size
/// outgrows the small path; the caller allocates from the fallback, copies the
/// old contents out through `load`, then frees the old slot. `Exhausted`: no
/// page could be mapped; the old slot is untouched.
#[derive(PartialEq, Eq, Structural, Clone, Copy, Debug)]
pub enum ReallocOutcome {
    Unchanged,
    Moved(usize),
    Delegated,
    Promoted,
    Exhausted,
}

/// A slot `i` of page `p`, of class `c`, is live and starts at address `a`.
pub open spec fn live_in_page(p: Page, a: int, c: int) -> bool {
    &&& p.head.slot_size as int == c
    &&& exists|i: int| 0 <= i && #[trigger] p.slot_live(i) && a == p.slot_addr(i)
}

/// Byte address `x` falls inside a live slot of page `p`.
pub open spec fn live_byte_in_page(p: Page, x: int) -> bool {
    exists|i: int|
        0 <= i && #[trigger] p.slot_live(i) && p.slot_addr(i) <= x < p.slot_addr(i)
            + p.slot_bytes()
}

/// The allocator's per-thread state: `local` is the thread-local cache, one
/// optional owned page per size class (index = class - 1); `orphans` are the
/// released pages, still mapped, reachable only through issued pointers,
/// awaiting frees through the shared list until every slot is free.
pub struct Balloc {
    pub local: Vec<Option<Page>>,
    pub orphans: Vec<Page>,
}

impl Balloc {
    /// The allocator holds page `p`, in the cache or among the orphans.
    pub open spec fn holds(self, p: Page) -> bool {
        ||| exists|c: int| 0 <= c < 64 && #[trigger] self.local@[c] == Some(p)
        ||| self.orphans@.contains(p)
    }

    /// Cache entries are well-formed owned pages of their class, kept only
    /// while they can still yield a slot.
    pub open spec fn cache_wf(self) -> bool {
        &&& self.local@.len() == 64
        &&& forall|c: int|
            0 <= c < 64 && (#[trigger] self.local@[c]) is Some ==> {
                let p = self.local@[c]->0;
                &&& p.wf()
                &&& p.head.is_owned
                &&& p.head.slot_size as int == c + 1
                &&& (p.exl().len() > 0 || p.cursor() < p.max_len() || p.shr().len() > 0)
            }
    }

    /// Orphans are well-formed and released.
    pub open spec fn orphans_wf(self) -> bool {
        forall|j: int|
            0 <= j < self.orphans@.len() ==> (#[trigger] self.orphans@[j]).wf() && !self.orphans@[j].head.is_owned
    }

    /// No two held pages share a base address: regions of live mappings are
    /// disjoint.
    pub open spec fn bases_unique(self) -> bool {
        &&& forall|c1: int, c2: int|
            0 <= c1 < c2 < 64 && self.local@[c1] is Some && self.local@[c2] is Some ==> (
            #[trigger] self.local@[c1])->0.base() != (#[trigger] self.local@[c2])->0.base()
        &&& forall|c: int, j: int|
            0 <= c < 64 && self.local@[c] is Some && 0 <= j < self.orphans@.len() ==> (
            #[trigger] self.local@[c])->0.base() != (#[trigger] self.orphans@[j]).base()
        &&& forall|j1: int, j2: int|
            0 <= j1 < j2 < self.orphans@.len() ==> (#[trigger] self.orphans@[j1]).base() != (
            #[trigger] self.orphans@[j2]).base()
    }

    /// The allocator's invariant.
    pub open spec fn wf(self) -> bool {
        self.cache_wf() && self.orphans_wf() && self.bases_unique()
    }

    /// Address `a` is the start of a live slot of class `c` on a held page.
    pub open spec fn addr_live(self, a: int, c: int) -> bool {
        exists|p: Page| #[trigger] self.holds(p) && live_in_page(p, a, c)
    }

    /// Byte address `x` falls inside some live slot of a held page.
    pub open spec fn addr_in_live_slot(self, x: int) -> bool {
        exists|p: Page| #[trigger] self.holds(p) && live_byte_in_page(p, x)
    }

    /// The held page whose region covers byte address `x`.
    pub open spec fn page_holding(self, x: int) -> Page {
        choose|p: Page| self.holds(p) && p.base() <= x < p.base() + 4096
    }

    /// The byte the allocator's memory holds at address `x`.
    pub open spec fn byte_at(self, x: int) -> u8 {
        let p = self.page_holding(x);
        p.bytes()[x - p.base()]
    }

    /// An empty allocator: no cached page for any class, no orphans.
    pub fn new() -> (b: Balloc)
        ensures
            b.wf(),
            forall|c: int| 0 <= c < 64 ==> (#[trigger] b.local@[c]) is None,
            b.orphans@.len() == 0,
    {
        let mut local: Vec<Option<Page>> = Vec::new();
        let mut k: usize = 0;
        while k < MAX_SMALL_SLOT
            invariant
                k <= 64,
                local@.len() == k,
                forall|c: int| 0 <= c < k ==> (#[trigger] local@[c]) is None,
            decreases 64 - k,
        {
            local.push(None);
            k += 1;
        }
        Balloc { local, orphans: Vec::new() }
    }

    /// Serves an allocation request. Requests over 512 bytes are delegated,
    /// unchanged, to the fallback allocator. Small requests are served from
    /// the cached page of the request's size class — reusing a freed slot
    /// before advancing the bump cursor — or from a freshly mapped page when
    /// no page is cached; a page that can yield no further slot is released
    /// and kept among the orphans. Failure to map a fresh page is reported as
    /// exhaustion, which the caller treats as fatal.
    pub fn allocate(&mut self, size: usize) -> (r: AllocOutcome)
        requires
            old(self).wf(),
            1 <= size,
        ensures
            final(self).wf(),
            final(self).local@.len() == 64,
            size > 512 ==> r == AllocOutcome::Delegated && final(self).local@ == old(self).local@
                && final(self).orphans@ == old(self).orphans@,
            size <= 512 ==> r != AllocOutcome::Delegated,
            r == AllocOutcome::Exhausted ==> final(self).local@ =~= old(self).local@
                && final(self).orphans@ == old(self).orphans@ && old(self).local@[spec_size_class(
                size as int,
            ) - 1] is None,
            size <= 512 && old(self).local@[spec_size_class(size as int) - 1] is Some ==> r is Address,
            r is Address ==> size <= 512 && final(self).addr_live(
                r->0 as int,
                spec_size_class(size as int),
            ) && r->0 as int % 8 == 0,
            // the returned slot was not live before the call
            r is Address ==> !old(self).addr_live(r->0 as int, spec_size_class(size as int)),
            // a cached page serves the request: the address lies on that page
            size <= 512 && old(self).local@[spec_size_class(size as int) - 1] is Some ==>
                spec_page_base(r->0 as int) == (old(self).local@[spec_size_class(size as int)
                    - 1]->0).base(),
            // the served page is reinserted into the cache exactly while it can
            // still yield a slot; else it is released, at that moment, into the
            // orphans
            r is Address ==> {
                let ci = spec_size_class(size as int) - 1;
                let pb = spec_page_base(r->0 as int);
                &&& (final(self).local@[ci] is Some ==> {
                    let pn = final(self).local@[ci]->0;
                    &&& pn.base() == pb
                    &&& pn.head.is_owned
                    &&& (pn.exl().len() > 0 || pn.cursor() < pn.max_len() || pn.shr().len() > 0)
                    &&& final(self).orphans@ == old(self).orphans@
                })
                &&& (final(self).local@[ci] is None ==> {
                    let pe = final(self).orphans@.last();
                    &&& final(self).orphans@ == old(self).orphans@.push(pe)
                    &&& pe.base() == pb
                    &&& !pe.head.is_owned
                    &&& pe.exl().len() == 0
                    &&& pe.cursor() == pe.max_len()
                    &&& pe.shr().len() == 0
                })
            },
            // a freshly mapped page always has room left after its first slot
            r is Address && old(self).local@[spec_size_class(size as int) - 1] is None
                ==> final(self).local@[spec_size_class(size as int) - 1] is Some,
            // reuse-first: the cached page hands its most recently freed slot
            // back, and its cursor does not advance
            size <= 512 && old(self).local@[spec_size_class(size as int) - 1] is Some && (old(
                self,
            ).local@[spec_size_class(size as int) - 1]->0).exl().len() > 0 ==> {
                let p = old(self).local@[spec_size_class(size as int) - 1]->0;
                &&& r is Address
                &&& r->0 as int == p.slot_addr(p.exl().last() as int)
            },
            // other classes' cache entries are untouched; orphans only grow
            forall|d: int|
                0 <= d < 64 && d != spec_size_class(size as int) - 1 ==> final(self).local@[d]
                    == old(self).local@[d],
            old(self).orphans@.is_prefix_of(final(self).orphans@),
            // every live slot stays live, with its bytes unchanged
            forall|x: int, cc: int|
                old(self).addr_live(x, cc) ==> #[trigger] final(self).addr_live(x, cc),
            forall|x: int|
                old(self).addr_in_live_slot(x) ==> #[trigger] final(self).addr_in_live_slot(x),
            forall|x: int|
                #![trigger final(self).byte_at(x)]
                old(self).addr_in_live_slot(x) ==> final(self).byte_at(x) == old(self).byte_at(x),
    {
        if size > MAX_ALLOC_SIZE {
            return AllocOutcome::Delegated;
        }
        proof {
            crate::lemma_size_class_properties(size as int, size as int);
        }
        let c = get_slot_size(size);
        let ci = c - 1;
        let ghost s0 = *old(self);
        let ghost cached0 = s0.local@[ci as int];

        // take the cached page for this class, if any
        let mut entry: Option<Page> = None;
        core::mem::swap(&mut self.local[ci], &mut entry);
        let mut page = match entry {
            Some(p) => p,
            None => {
                proof {
                    assert(self.local@ =~= s0.local@);
                }
                match map_fresh(&self.local, &self.orphans) {
                    Some(m) => {
                        let ghost gm = m;
                        let np = Page::new(m, c as u8);
                        proof {
                            assert(np.page.start == region_base(gm));
                            // the fresh base collides with no held page's base
                            assert forall|cc: int|
                                0 <= cc < 64 && (#[trigger] s0.local@[cc]) is Some implies (
                            s0.local@[cc]->0).base() != np.base() by {
                                let qq = s0.local@[cc]->0;
                                assert(self.local@[cc] == s0.local@[cc]);
                                assert(region_base(gm) != region_base(qq.head_owned.handle));
                                assert(qq.wf());
                            }
                            assert forall|j: int| 0 <= j < s0.orphans@.len() implies (
                            #[trigger] s0.orphans@[j]).base() != np.base() by {
                                let qq = s0.orphans@[j];
                                assert(region_base(gm) != region_base(qq.head_owned.handle));
                                assert(qq.wf());
                            }
                        }
                        np
                    },
                    None => {
                        proof {
                            lemma_state_transfer(s0, *self);
                        }
                        return AllocOutcome::Exhausted;
                    },
                }
            },
        };
        let ghost p0 = page;
        let slot = page.acquire();
        let i = match slot {
            Some(i) => i,
            None => {
                proof {
                    lemma_max_len_bounds(p0.slot_size());
                    assert(false);
                }
                vstd::pervasive::unreached()
            },
        };
        let ghost p1 = page;
        proof {
            lemma_slot_range(c as int, i as int);
            lemma_addr_aligned(p1.base(), i as int, c as int);
        }
        let addr = page.page.start + (i as usize) * (UNIT_SIZE * c);
        let keep = page.has_capacity();
        proof {
            // a fresh page still has room after its first, bump-allocated slot
            if cached0 is None {
                lemma_max_len_bounds(c as int);
                assert(keep);
            }
        }
        if !keep {
            page.release();
        }
        let ghost pf = page;
        if keep {
            self.local[ci] = Some(page);
            proof {
                assert(self.local@ =~= s0.local@.update(ci as int, Some(pf)));
            }
        } else {
            self.orphans.push(page);
            proof {
                assert(self.local@ == s0.local@.update(ci as int, None::<Page>));
                assert(self.orphans@ == s0.orphans@.push(pf));
            }
        }
        proof {
            assert(self.holds(pf)) by {
                if keep {
                    assert(self.local@[ci as int] == Some(pf));
                } else {
                    assert(self.orphans@[self.orphans@.len() - 1] == pf);
                }
            }
            assert(pf.slot_live(i as int));
            assert(addr as int == pf.slot_addr(i as int));
            assert(live_in_page(pf, addr as int, c as int));
            assert(self.addr_live(addr as int, c as int));
            // the address masks back to the served page's base
            lemma_mask_recovers(pf.base(), i as int * (8 * c as int));
            assert(spec_page_base(addr as int) == pf.base());
            // the returned slot was live for nobody before the call
            assert(!s0.addr_live(addr as int, c as int)) by {
                if s0.addr_live(addr as int, c as int) {
                    let q = choose|q: Page| #[trigger] s0.holds(q) && live_in_page(
                        q,
                        addr as int,
                        c as int,
                    );
                    let i1 = choose|i1: int|
                        0 <= i1 && #[trigger] q.slot_live(i1) && addr as int == q.slot_addr(i1);
                    lemma_held_wf(s0, q);
                    lemma_slot_range(c as int, i1);
                    lemma_mask_recovers(q.base(), i1 * (8 * c as int));
                    assert(q.base() == p0.base());
                    if cached0 is Some {
                        assert(s0.holds(p0)) by {
                            assert(s0.local@[ci as int] == Some(p0));
                        }
                        lemma_page_unique(s0, q, p0, addr as int);
                        lemma_slot_index(c as int, i1);
                        lemma_slot_index(c as int, i as int);
                        assert(i1 == i as int);
                        assert(false);
                    } else {
                        // the page is fresh: no held page shares its base
                        if exists|cc: int| 0 <= cc < 64 && #[trigger] s0.local@[cc] == Some(q) {
                            let cc = choose|cc: int|
                                0 <= cc < 64 && #[trigger] s0.local@[cc] == Some(q);
                            assert(false);
                        } else {
                            let jx = choose|j: int|
                                0 <= j < s0.orphans@.len() && s0.orphans@[j] == q;
                            assert(false);
                        }
                    }
                }
            }
            // the invariant holds again
            assert(self.wf()) by {
                lemma_alloc_wf(s0, *self, p0, pf, ci as int, keep, cached0 is None);
            }
            // old live slots map to the updated page or to an untouched one
            assert forall|x: int, cc: int| s0.addr_live(x, cc) implies #[trigger] self.addr_live(
                x,
                cc,
            ) by {
                let q = choose|q: Page| #[trigger] s0.holds(q) && live_in_page(q, x, cc);
                lemma_alloc_maps_page(s0, *self, q, p0, pf, ci as int, keep, cached0 is None);
                let qf = if cached0 is Some && q == cached0->0 { pf } else { q };
                assert(live_in_page(qf, x, cc)) by {
                    let i0 = choose|i0: int|
                        0 <= i0 && #[trigger] q.slot_live(i0) && x == q.slot_addr(i0);
                    assert(qf.slot_live(i0));
                }
            }
            assert forall|x: int| s0.addr_in_live_slot(x) implies #[trigger] self.addr_in_live_slot(
                x,
            ) by {
                let q = choose|q: Page| #[trigger] s0.holds(q) && live_byte_in_page(q, x);
                lemma_alloc_maps_page(s0, *self, q, p0, pf, ci as int, keep, cached0 is None);
                let qf = if cached0 is Some && q == cached0->0 { pf } else { q };
                assert(live_byte_in_page(qf, x)) by {
                    let i0 = choose|i0: int|
                        0 <= i0 && #[trigger] q.slot_live(i0) && q.slot_addr(i0) <= x < q.slot_addr(
                            i0,
                        ) + q.slot_bytes();
                    assert(qf.slot_live(i0));
                }
            }
            assert forall|x: int|
                #![trigger self.byte_at(x)]
                s0.addr_in_live_slot(x) implies self.byte_at(x) == s0.byte_at(x) by {
                let q = choose|q: Page| #[trigger] s0.holds(q) && live_byte_in_page(q, x);
                lemma_held_wf(s0, q);
                lemma_alloc_maps_page(s0, *self, q, p0, pf, ci as int, keep, cached0 is None);
                let qf = if cached0 is Some && q == cached0->0 { pf } else { q };
                assert(live_byte_in_page(qf, x)) by {
                    let i0 = choose|i0: int|
                        0 <= i0 && #[trigger] q.slot_live(i0) && q.slot_addr(i0) <= x < q.slot_addr(
                            i0,
                        ) + q.slot_bytes();
                    assert(qf.slot_live(i0));
                }
                lemma_live_byte_range(q, x);
                lemma_byte_at_page(s0, q, x);
                lemma_held_wf(*self, qf);
                lemma_byte_at_page(*self, qf, x);
            }
        }
        AllocOutcome::Address(addr)
    }

    /// Frees a previously allocated slot. Requests over 512 bytes are
    /// delegated, unchanged, to the fallback allocator. Otherwise the owning
    /// page is found by masking the address down to its 4096-byte boundary;
    /// while that page is still this thread's cached page of the class, the
    /// slot goes onto the exclusive free list with no synchronization, else it
    /// is pushed onto the shared free list — the lock-free path any thread may
    /// take — and a released page whose every slot is now free is unmapped.
    pub fn deallocate(&mut self, ptr: usize, size: usize) -> (r: FreeOutcome)
        requires
            old(self).wf(),
            1 <= size,
            size <= 512 ==> old(self).addr_live(ptr as int, spec_size_class(size as int)),
        ensures
            final(self).wf(),
            final(self).local@.len() == 64,
            size > 512 ==> r == FreeOutcome::Delegated && final(self).local@ == old(self).local@
                && final(self).orphans@ == old(self).orphans@,
            size <= 512 ==> r == FreeOutcome::Freed,
            // the slot is no longer live
            size <= 512 ==> !final(self).addr_live(ptr as int, spec_size_class(size as int)),
            // owner path: the slot tops the cached page's exclusive list, and
            // the cursor does not move, so the next allocation returns it
            size <= 512 && old(self).local@[spec_size_class(size as int) - 1] is Some && (old(
                self,
            ).local@[spec_size_class(size as int) - 1]->0).base() == spec_page_base(ptr as int) ==> {
                let p = old(self).local@[spec_size_class(size as int) - 1]->0;
                let pn = final(self).local@[spec_size_class(size as int) - 1]->0;
                &&& final(self).local@[spec_size_class(size as int) - 1] is Some
                &&& pn.exl().len() == p.exl().len() + 1
                &&& pn.slot_addr(pn.exl().last() as int) == ptr
                &&& pn.cursor() == p.cursor()
                &&& pn.shr() == p.shr()
                &&& final(self).orphans@ == old(self).orphans@
            },
            // shared path: the cache — the owner-private side — is untouched
            size <= 512 && !(old(self).local@[spec_size_class(size as int) - 1] is Some && (old(
                self,
            ).local@[spec_size_class(size as int) - 1]->0).base() == spec_page_base(ptr as int))
                ==> final(self).local@ == old(self).local@,
            forall|d: int|
                0 <= d < 64 && d != spec_size_class(size as int) - 1 ==> final(self).local@[d]
                    == old(self).local@[d],
            // every other live slot stays live, with its bytes unchanged
            forall|x: int, cc: int|
                old(self).addr_live(x, cc) && x != ptr ==> #[trigger] final(self).addr_live(x, cc),
            forall|x: int|
                old(self).addr_in_live_slot(x) && !(ptr <= x < ptr + 8 * spec_size_class(
                    size as int,
                )) ==> #[trigger] final(self).addr_in_live_slot(x),
            forall|x: int|
                #![trigger final(self).byte_at(x)]
                old(self).addr_in_live_slot(x) && !(ptr <= x < ptr + 8 * spec_size_class(
                    size as int,
                )) ==> final(self).byte_at(x) == old(self).byte_at(x),
    {
        if size > MAX_ALLOC_SIZE {
            return FreeOutcome::Delegated;
        }
        proof {
            crate::lemma_size_class_properties(size as int, size as int);
        }
        let c = get_slot_size(size);
        let ci = c - 1;
        let ghost s0 = *old(self);
        let ghost cls = spec_size_class(size as int);
        let ghost q = choose|q: Page| #[trigger] s0.holds(q) && live_in_page(q, ptr as int, cls);
        let ghost i0 = choose|i: int|
            0 <= i && #[trigger] q.slot_live(i) && ptr as int == q.slot_addr(i);
        proof {
            lemma_held_wf(s0, q);
            lemma_slot_range(cls, i0);
            lemma_mask_recovers(q.base(), i0 * (8 * cls));
            lemma_max_len_bounds(cls);
        }
        let pr = PageRef::of(ptr);
        let base = pr.start;
        proof {
            assert(base as int == q.base());
            lemma_slot_index(cls, i0);
        }
        let idx = ((ptr - base) / (UNIT_SIZE * c)) as u16;
        proof {
            assert(idx as int == i0);
        }
        let owner = match &self.local[ci] {
            Some(p) => p.page.start == base,
            None => false,
        };
        if owner {
            let mut entry: Option<Page> = None;
            core::mem::swap(&mut self.local[ci], &mut entry);
            let mut p = match entry {
                Some(p) => p,
                None => vstd::pervasive::unreached(),
            };
            let ghost pold = p;
            proof {
                lemma_page_unique(s0, q, pold, ptr as int);
            }
            p.push_exclusive(idx);
            let ghost pn = p;
            self.local[ci] = Some(p);
            proof {
                assert(pn.exl()[pn.exl().len() - 1] == idx);
                assert(free_in(pn.exl(), i0));
                assert(!pn.slot_live(i0));
                lemma_push_preserves_free(pold.exl(), pn.exl(), idx);
                assert forall|i: int| q.slot_live(i) && i != i0 implies #[trigger] pn.slot_live(
                    i,
                ) by {}
                assert forall|i: int| #[trigger] pn.slot_live(i) implies q.slot_live(i) by {}
                assert(self.local@ =~= s0.local@.update(ci as int, Some(pn)));
                lemma_swap_wf(s0, *self, pold, Some(pn), true, ci as int);
                lemma_dealloc_post(s0, *self, q, pn, Some(pn), true, ci as int, ptr as int, cls, i0);
            }
            FreeOutcome::Freed
        } else {
            proof {
                if exists|d: int| 0 <= d < 64 && #[trigger] s0.local@[d] == Some(q) {
                    let d = choose|d: int| 0 <= d < 64 && #[trigger] s0.local@[d] == Some(q);
                    assert(d == ci as int);
                    assert(false);
                }
            }
            let ghost jq = choose|j: int| 0 <= j < s0.orphans@.len() && s0.orphans@[j] == q;
            let n = self.orphans.len();
            let mut j: usize = 0;
            while self.orphans[j].page.start != base
                invariant
                    self.local@ == s0.local@,
                    self.orphans@ == s0.orphans@,
                    n == s0.orphans@.len(),
                    0 <= j as int <= jq < n as int,
                    s0.orphans@[jq] == q,
                    q.base() == base as int,
                decreases jq - j,
            {
                j += 1;
            }
            let mut p = self.orphans.remove(j);
            let ghost pold = p;
            let ghost jj = j as int;
            proof {
                assert(s0.orphans@[jj] == pold);
                assert(s0.holds(pold));
                lemma_held_wf(s0, pold);
                lemma_page_unique(s0, q, pold, ptr as int);
                assert(jj == jq);
            }
            p.push_shared(idx);
            let ghost pn = p;
            proof {
                assert(pn.shr()[pn.shr().len() - 1] == idx);
                assert(free_in(pn.shr(), i0));
                assert(!pn.slot_live(i0));
                lemma_push_preserves_free(pold.shr(), pn.shr(), idx);
                assert forall|i: int| q.slot_live(i) && i != i0 implies #[trigger] pn.slot_live(
                    i,
                ) by {}
                assert forall|i: int| #[trigger] pn.slot_live(i) implies q.slot_live(i) by {}
            }
            let full = p.all_slots_free();
            if full {
                p.unmap();
                proof {
                    lemma_swap_wf(s0, *self, pold, None, false, jj);
                    lemma_dealloc_post(s0, *self, q, pn, None, false, jj, ptr as int, cls, i0);
                }
                FreeOutcome::Freed
            } else {
                self.orphans.insert(j, p);
                proof {
                    assert(self.orphans@ =~= s0.orphans@.update(jj, pn));
                    lemma_swap_wf(s0, *self, pold, Some(pn), false, jj);
                    lemma_dealloc_post(s0, *self, q, pn, Some(pn), false, jj, ptr as int, cls, i0);
                }
                FreeOutcome::Freed
            }
        }
    }

    /// Writes one byte through a pointer into a live slot. The write lands on
    /// the slot's page and touches nothing else: no header, no free list, no
    /// other byte.
    pub fn store(&mut self, addr: usize, v: u8)
        requires
            old(self).wf(),
            old(self).addr_in_live_slot(addr as int),
        ensures
            final(self).wf(),
            final(self).local@.len() == 64,
            forall|x: int, cc: int|
                old(self).addr_live(x, cc) ==> #[trigger] final(self).addr_live(x, cc),
            forall|x: int|
                old(self).addr_in_live_slot(x) ==> #[trigger] final(self).addr_in_live_slot(x),
            final(self).byte_at(addr as int) == v,
            forall|x: int|
                #![trigger final(self).byte_at(x)]
                old(self).addr_in_live_slot(x) && x != addr ==> final(self).byte_at(x) == old(
                    self,
                ).byte_at(x),
    {
        let ghost s0 = *old(self);
        let ghost q = choose|q: Page| #[trigger] s0.holds(q) && live_byte_in_page(q, addr as int);
        proof {
            lemma_held_wf(s0, q);
            lemma_live_byte_range(q, addr as int);
            lemma_mask_recovers(q.base(), addr as int - q.base());
        }
        let pr = PageRef::of(addr);
        let base = pr.start;
        proof {
            assert(base as int == q.base());
        }
        let mut d: usize = 0;
        while d < MAX_SMALL_SLOT
            invariant
                *self == s0,
                s0 == *old(self),
                s0.wf(),
                s0.holds(q),
                live_byte_in_page(q, addr as int),
                q.wf(),
                q.base() == base as int,
                base <= addr,
                (addr as int) < q.base() + 4056,
                d <= 64,
                forall|e: int|
                    0 <= e < d ==> !((#[trigger] s0.local@[e]) is Some && (s0.local@[e]->0).base()
                        == base as int),
            decreases 64 - d,
        {
            let hit = match &self.local[d] {
                Some(p) => p.page.start == base,
                None => false,
            };
            if hit {
                let mut entry: Option<Page> = None;
                core::mem::swap(&mut self.local[d], &mut entry);
                let mut p = match entry {
                    Some(p) => p,
                    None => vstd::pervasive::unreached(),
                };
                let ghost pold = p;
                proof {
                    assert(s0.local@[d as int] == Some(pold));
                    lemma_held_wf(s0, pold);
                    lemma_page_unique(s0, q, pold, addr as int);
                }
                p.write_byte(addr - base, v);
                let ghost pn = p;
                self.local[d] = Some(p);
                proof {
                    assert(self.local@ =~= s0.local@.update(d as int, Some(pn)));
                    lemma_swap_wf(s0, *self, pold, Some(pn), true, d as int);
                    lemma_store_post(s0, *self, q, pn, true, d as int, addr as int, v);
                }
                return ;
            }
            d += 1;
        }
        proof {
            if exists|e: int| 0 <= e < 64 && #[trigger] s0.local@[e] == Some(q) {
                let e = choose|e: int| 0 <= e < 64 && #[trigger] s0.local@[e] == Some(q);
                assert(false);
            }
        }
        let ghost jq = choose|j: int| 0 <= j < s0.orphans@.len() && s0.orphans@[j] == q;
        let n = self.orphans.len();
        let mut j: usize = 0;
        while self.orphans[j].page.start != base
            invariant
                *self == s0,
                s0 == *old(self),
                s0.wf(),
                s0.holds(q),
                live_byte_in_page(q, addr as int),
                q.wf(),
                q.base() == base as int,
                base <= addr,
                (addr as int) < q.base() + 4056,
                n == s0.orphans@.len(),
                0 <= j as int <= jq < n as int,
                s0.orphans@[jq] == q,
            decreases jq - j,
        {
            j += 1;
        }
        let mut p = self.orphans.remove(j);
        let ghost pold = p;
        let ghost jj = j as int;
        proof {
            assert(s0.orphans@[jj] == pold);
            assert(s0.holds(pold));
            lemma_held_wf(s0, pold);
            lemma_page_unique(s0, q, pold, addr as int);
        }
        p.write_byte(addr - base, v);
        let ghost pn = p;
        self.orphans.insert(j, p);
        proof {
            assert(self.orphans@ =~= s0.orphans@.update(jj, pn));
            lemma_swap_wf(s0, *self, pold, Some(pn), false, jj);
            lemma_store_post(s0, *self, q, pn, false, jj, addr as int, v);
        }
    }

    /// Serves an allocation request and zero-fills exactly the requested
    /// bytes — not the whole slot. Requests over 512 bytes are delegated,
    /// unchanged, to the fallback allocator's zeroing path.
    pub fn allocate_zeroed(&mut self, size: usize) -> (r: AllocOutcome)
        requires
            old(self).wf(),
            1 <= size,
        ensures
            final(self).wf(),
            final(self).local@.len() == 64,
            size > 512 ==> r == AllocOutcome::Delegated && final(self).local@ == old(self).local@
                && final(self).orphans@ == old(self).orphans@,
            size <= 512 ==> r != AllocOutcome::Delegated,
            size <= 512 && old(self).local@[spec_size_class(size as int) - 1] is Some ==> r is Address,
            r == AllocOutcome::Exhausted ==> final(self).local@ =~= old(self).local@
                && final(self).orphans@ == old(self).orphans@ && old(self).local@[spec_size_class(
                size as int,
            ) - 1] is None,
            r is Address ==> size <= 512 && final(self).addr_live(
                r->0 as int,
                spec_size_class(size as int),
            ) && r->0 as int % 8 == 0 && (forall|y: int|
                #![trigger final(self).byte_at(y)]
                r->0 <= y < r->0 + size ==> final(self).byte_at(y) == 0),
            forall|x: int, cc: int|
                old(self).addr_live(x, cc) ==> #[trigger] final(self).addr_live(x, cc),
            forall|x: int|
                old(self).addr_in_live_slot(x) ==> #[trigger] final(self).addr_in_live_slot(x),
    {
        if size > MAX_ALLOC_SIZE {
            return AllocOutcome::Delegated;
        }
        let ghost s0 = *old(self);
        let r = self.allocate(size);
        let a = match r {
            AllocOutcome::Address(a) => a,
            _ => {
                return r;
            },
        };
        proof {
            crate::lemma_size_class_properties(size as int, size as int);
            lemma_live_addr_bound(*self, a as int, spec_size_class(size as int));
        }
        let ghost cls = spec_size_class(size as int);
        let mut k: usize = 0;
        while k < size
            invariant
                self.wf(),
                self.local@.len() == 64,
                1 <= size <= 512,
                cls == spec_size_class(size as int),
                1 <= cls <= 64,
                size as int <= 8 * cls,
                self.addr_live(a as int, cls),
                a as int % 8 == 0,
                a as int + 8 * cls <= usize::MAX,
                k <= size,
                forall|y: int|
                    #![trigger self.byte_at(y)]
                    a <= y < a + k ==> self.byte_at(y) == 0,
                forall|x: int, cc: int| s0.addr_live(x, cc) ==> #[trigger] self.addr_live(x, cc),
                forall|x: int|
                    s0.addr_in_live_slot(x) ==> #[trigger] self.addr_in_live_slot(x),
            decreases size - k,
        {
            proof {
                lemma_slot_span(*self, a as int, cls, a as int + k as int);
            }
            let ghost sp = *self;
            self.store(a + k, 0);
            proof {
                assert forall|y: int|
                    #![trigger self.byte_at(y)]
                    a <= y < a + k + 1 implies self.byte_at(y) == 0 by {
                    if y < a + k {
                        lemma_slot_span(sp, a as int, cls, y);
                        assert(self.byte_at(y) == sp.byte_at(y));
                    }
                }
                assert forall|x: int, cc: int| s0.addr_live(x, cc) implies #[trigger] self.addr_live(
                    x,
                    cc,
                ) by {
                    assert(sp.addr_live(x, cc));
                }
                assert forall|x: int| s0.addr_in_live_slot(x) implies
                    #[trigger] self.addr_in_live_slot(x) by {
                    assert(sp.addr_in_live_slot(x));
                }
            }
            k += 1;
        }
        AllocOutcome::Address(a)
    }

    /// Reallocates a block. A block of the fallback allocator (over 512
    /// bytes) is delegated; growth out of the small path is handed back to
    /// the caller as `Promoted`; two sizes of one size class keep the address.
    /// Otherwise a slot of the new class is allocated, the smaller of the two
    /// sizes' bytes are copied over, and the old slot is freed — contents are
    /// preserved.
    pub fn reallocate(&mut self, ptr: usize, old_size: usize, new_size: usize) -> (r:
        ReallocOutcome)
        requires
            old(self).wf(),
            1 <= old_size,
            1 <= new_size,
            old_size <= 512 ==> old(self).addr_live(ptr as int, spec_size_class(old_size as int)),
        ensures
            final(self).wf(),
            final(self).local@.len() == 64,
            old_size > 512 ==> r == ReallocOutcome::Delegated && final(self).local@ == old(
                self,
            ).local@ && final(self).orphans@ == old(self).orphans@,
            old_size <= 512 && new_size > 512 ==> r == ReallocOutcome::Promoted
                && final(self).local@ == old(self).local@ && final(self).orphans@ == old(self).orphans@,
            old_size <= 512 && new_size <= 512 && spec_size_class(old_size as int)
                == spec_size_class(new_size as int) ==> r == ReallocOutcome::Unchanged
                && final(self).local@ == old(self).local@ && final(self).orphans@ == old(self).orphans@,
            old_size <= 512 && new_size <= 512 && spec_size_class(old_size as int)
                != spec_size_class(new_size as int) ==> (r is Moved || r
                == ReallocOutcome::Exhausted),
            // a move is owed whenever the new class's page is already cached:
            // no fresh mapping is then needed
            old_size <= 512 && new_size <= 512 && spec_size_class(old_size as int)
                != spec_size_class(new_size as int) && old(self).local@[spec_size_class(
                new_size as int,
            ) - 1] is Some ==> r is Moved,
            r == ReallocOutcome::Exhausted ==> final(self).addr_live(
                ptr as int,
                spec_size_class(old_size as int),
            ) && old(self).local@[spec_size_class(new_size as int) - 1] is None,
            r is Moved ==> {
                let a2 = r->0 as int;
                &&& final(self).addr_live(a2, spec_size_class(new_size as int))
                &&& a2 % 8 == 0
                &&& !final(self).addr_live(ptr as int, spec_size_class(old_size as int))
                &&& (forall|y: int|
                    #![trigger final(self).byte_at(y)]
                    (a2 <= y && y < a2 + old_size && y < a2 + new_size) ==> final(self).byte_at(y)
                        == old(self).byte_at(ptr + (y - a2)))
            },
    {
        if old_size > MAX_ALLOC_SIZE {
            return ReallocOutcome::Delegated;
        }
        if new_size > MAX_ALLOC_SIZE {
            return ReallocOutcome::Promoted;
        }
        let co = get_slot_size(old_size);
        let cn = get_slot_size(new_size);
        if co == cn {
            return ReallocOutcome::Unchanged;
        }
        let ghost s0 = *old(self);
        let ghost clso = spec_size_class(old_size as int);
        let ghost clsn = spec_size_class(new_size as int);
        proof {
            crate::lemma_size_class_properties(old_size as int, old_size as int);
            crate::lemma_size_class_properties(new_size as int, new_size as int);
        }
        let r1 = self.allocate(new_size);
        let a2 = match r1 {
            AllocOutcome::Address(a2) => a2,
            AllocOutcome::Exhausted => {
                proof {
                    lemma_state_transfer(s0, *self);
                }
                return ReallocOutcome::Exhausted;
            },
            AllocOutcome::Delegated => {
                proof {
                    assert(false);
                }
                vstd::pervasive::unreached()
            },
        };
        proof {
            assert(self.addr_live(ptr as int, clso));
            assert(ptr != a2) by {
                if ptr == a2 {
                    let p1 = choose|p: Page| #[trigger] self.holds(p) && live_in_page(
                        p,
                        ptr as int,
                        clso,
                    );
                    let p2 = choose|p: Page| #[trigger] self.holds(p) && live_in_page(
                        p,
                        a2 as int,
                        clsn,
                    );
                    let i1 = choose|i: int|
                        0 <= i && #[trigger] p1.slot_live(i) && ptr as int == p1.slot_addr(i);
                    let i2 = choose|i: int|
                        0 <= i && #[trigger] p2.slot_live(i) && a2 as int == p2.slot_addr(i);
                    lemma_held_wf(*self, p1);
                    lemma_held_wf(*self, p2);
                    lemma_slot_range(clso, i1);
                    lemma_slot_range(clsn, i2);
                    lemma_page_unique(*self, p1, p2, ptr as int);
                }
            }
            lemma_no_overlap(*self, ptr as int, clso, a2 as int, clsn);
            lemma_live_addr_bound(*self, ptr as int, clso);
            lemma_live_addr_bound(*self, a2 as int, clsn);
        }
        let m = if old_size < new_size {
            old_size
        } else {
            new_size
        };
        let mut k: usize = 0;
        while k < m
            invariant
                self.wf(),
                self.local@.len() == 64,
                1 <= old_size <= 512,
                1 <= new_size <= 512,
                clso == spec_size_class(old_size as int),
                clsn == spec_size_class(new_size as int),
                1 <= clso <= 64,
                1 <= clsn <= 64,
                old_size as int <= 8 * clso,
                new_size as int <= 8 * clsn,
                m <= old_size,
                m <= new_size,
                self.addr_live(ptr as int, clso),
                self.addr_live(a2 as int, clsn),
                a2 as int % 8 == 0,
                0 <= ptr as int,
                ptr as int + 8 * clso <= usize::MAX,
                a2 as int + 8 * clsn <= usize::MAX,
                ptr as int + 8 * clso <= a2 as int || a2 as int + 8 * clsn <= ptr as int,
                ptr != a2,
                k <= m,
                s0.wf(),
                s0.addr_live(ptr as int, clso),
                forall|y: int|
                    #![trigger self.byte_at(y)]
                    a2 <= y < a2 + k ==> self.byte_at(y) == s0.byte_at(ptr + (y - a2)),
                forall|x: int|
                    #![trigger self.byte_at(x)]
                    s0.addr_in_live_slot(x) && !(a2 <= x < a2 as int + 8 * clsn) ==> self.byte_at(
                        x,
                    ) == s0.byte_at(x),
                forall|x: int, cc: int| s0.addr_live(x, cc) ==> #[trigger] self.addr_live(x, cc),
                forall|x: int|
                    s0.addr_in_live_slot(x) ==> #[trigger] self.addr_in_live_slot(x),
            decreases m - k,
        {
            proof {
                lemma_slot_span(*self, ptr as int, clso, ptr as int + k as int);
                lemma_slot_span(s0, ptr as int, clso, ptr as int + k as int);
            }
            let b = self.load(ptr + k);
            proof {
                assert(b == s0.byte_at(ptr as int + k as int));
                lemma_slot_span(*self, a2 as int, clsn, a2 as int + k as int);
            }
            let ghost sp = *self;
            self.store(a2 + k, b);
            proof {
                assert forall|y: int|
                    #![trigger self.byte_at(y)]
                    a2 <= y < a2 + k + 1 implies self.byte_at(y) == s0.byte_at(ptr + (y - a2)) by {
                    if y < a2 + k {
                        lemma_slot_span(sp, a2 as int, clsn, y);
                        assert(self.byte_at(y) == sp.byte_at(y));
                    }
                }
                assert forall|x: int|
                    #![trigger self.byte_at(x)]
                    s0.addr_in_live_slot(x) && !(a2 <= x < a2 as int + 8 * clsn) implies self.byte_at(
                    x,
                ) == s0.byte_at(x) by {
                    assert(sp.addr_in_live_slot(x));
                    assert(x != a2 as int + k as int);
                }
                assert forall|x: int, cc: int| s0.addr_live(x, cc) implies #[trigger] self.addr_live(
                    x,
                    cc,
                ) by {
                    assert(sp.addr_live(x, cc));
                }
                assert forall|x: int| s0.addr_in_live_slot(x) implies
                    #[trigger] self.addr_in_live_slot(x) by {
                    assert(sp.addr_in_live_slot(x));
                }
            }
            k += 1;
        }
        let ghost s2 = *self;
        let _ = self.deallocate(ptr, old_size);
        proof {
            assert forall|y: int|
                #![trigger self.byte_at(y)]
                a2 <= y && y < a2 as int + old_size && y < a2 as int + new_size implies self.byte_at(
                y,
            ) == s0.byte_at(ptr + (y - a2)) by {
                lemma_slot_span(s2, a2 as int, clsn, y);
                assert(!(ptr <= y < ptr as int + 8 * clso));
                assert(self.byte_at(y) == s2.byte_at(y));
            }
        }
        ReallocOutcome::Moved(a2)
    }

    /// Reads one byte through a pointer into a live slot.
    pub fn load(&self, addr: usize) -> (r: u8)
        requires
            self.wf(),
            self.addr_in_live_slot(addr as int),
        ensures
            r == self.byte_at(addr as int),
    {
        let ghost q = choose|q: Page| #[trigger] self.holds(q) && live_byte_in_page(
            q,
            addr as int,
        );
        proof {
            lemma_held_wf(*self, q);
            lemma_live_byte_range(q, addr as int);
            lemma_mask_recovers(q.base(), addr as int - q.base());
        }
        let pr = PageRef::of(addr);
        let base = pr.start;
        proof {
            assert(base as int == q.base());
        }
        let mut d: usize = 0;
        while d < MAX_SMALL_SLOT
            invariant
                self.wf(),
                self.holds(q),
                live_byte_in_page(q, addr as int),
                q.wf(),
                q.base() == base as int,
                base <= addr,
                (addr as int) < q.base() + 4056,
                d <= 64,
                forall|e: int|
                    0 <= e < d ==> !((#[trigger] self.local@[e]) is Some && (self.local@[e]
                        ->0).base() == base as int),
            decreases 64 - d,
        {
            let hit = match &self.local[d] {
                Some(p) => p.page.start == base,
                None => false,
            };
            if hit {
                match &self.local[d] {
                    Some(p) => {
                        proof {
                            assert(self.local@[d as int] == Some(*p));
                            lemma_held_wf(*self, *p);
                            lemma_page_unique(*self, q, *p, addr as int);
                            lemma_byte_at_page(*self, *p, addr as int);
                        }
                        return p.read_byte(addr - base);
                    },
                    None => {
                        return vstd::pervasive::unreached();
                    },
                }
            }
            d += 1;
        }
        proof {
            if exists|e: int| 0 <= e < 64 && #[trigger] self.local@[e] == Some(q) {
                let e = choose|e: int| 0 <= e < 64 && #[trigger] self.local@[e] == Some(q);
                assert(false);
            }
        }
        let ghost jq = choose|j: int| 0 <= j < self.orphans@.len() && self.orphans@[j] == q;
        let n = self.orphans.len();
        let mut j: usize = 0;
        while self.orphans[j].page.start != base
            invariant
                self.wf(),
                self.holds(q),
                live_byte_in_page(q, addr as int),
                q.wf(),
                q.base() == base as int,
                base <= addr,
                (addr as int) < q.base() + 4056,
                n == self.orphans@.len(),
                0 <= j as int <= jq < n as int,
                self.orphans@[jq] == q,
            decreases jq - j,
        {
            j += 1;
        }
        let p = &self.orphans[j];
        proof {
            assert(self.orphans@[j as int] == *p);
            lemma_held_wf(*self, *p);
            lemma_page_unique(*self, q, *p, addr as int);
            lemma_byte_at_page(*self, *p, addr as int);
        }
        p.read_byte(addr - base)
    }
}

/// A live slot lies inside its page's region, which lies inside the address
/// space.
pub proof fn lemma_live_addr_bound(b: Balloc, a: int, c: int)
    requires
        b.wf(),
        b.addr_live(a, c),
    ensures
        0 <= a,
        a + 8 * c <= usize::MAX,
{
    let p = choose|p: Page| #[trigger] b.holds(p) && live_in_page(p, a, c);
    let i = choose|i: int| 0 <= i && #[trigger] p.slot_live(i) && a == p.slot_addr(i);
    lemma_held_wf(b, p);
    lemma_slot_range(p.slot_size(), i);
}

/// No-overlap: two simultaneously live slots, of any classes, occupy disjoint
/// address ranges — also when they sit on the same page.
pub proof fn lemma_no_overlap(b: Balloc, a1: int, c1: int, a2: int, c2: int)
    requires
        b.wf(),
        b.addr_live(a1, c1),
        b.addr_live(a2, c2),
        a1 != a2,
    ensures
        a1 + 8 * c1 <= a2 || a2 + 8 * c2 <= a1,
{
    let p1 = choose|p: Page| #[trigger] b.holds(p) && live_in_page(p, a1, c1);
    let i1 = choose|i: int| 0 <= i && #[trigger] p1.slot_live(i) && a1 == p1.slot_addr(i);
    let p2 = choose|p: Page| #[trigger] b.holds(p) && live_in_page(p, a2, c2);
    let i2 = choose|i: int| 0 <= i && #[trigger] p2.slot_live(i) && a2 == p2.slot_addr(i);
    lemma_held_wf(b, p1);
    lemma_held_wf(b, p2);
    lemma_slot_range(c1, i1);
    lemma_slot_range(c2, i2);
    if p1.base() == p2.base() {
        lemma_page_unique(b, p1, p2, a1);
        assert(p1 == p2);
        assert(i1 != i2);
        if i1 < i2 {
            lemma_slot_addr_ordered(c1, i1, i2);
        } else {
            lemma_slot_addr_ordered(c1, i2, i1);
        }
    } else {
        lemma_aligned_disjoint(p1.base(), p2.base());
    }
}

/// Round-trip support: every byte of a live slot — `size_class * 8` bytes from
/// its start — may be read and written until the slot is freed.
pub proof fn lemma_slot_span(b: Balloc, a: int, c: int, x: int)
    requires
        b.wf(),
        b.addr_live(a, c),
        a <= x < a + 8 * c,
    ensures
        b.addr_in_live_slot(x),
{
    let p = choose|p: Page| #[trigger] b.holds(p) && live_in_page(p, a, c);
    let i = choose|i: int| 0 <= i && #[trigger] p.slot_live(i) && a == p.slot_addr(i);
    assert(live_byte_in_page(p, x));
}

/// After one byte of a live slot is written, that byte reads back as written,
/// every other byte is as it was, and no slot's liveness has changed.
proof fn lemma_store_post(
    s0: Balloc,
    s1: Balloc,
    q: Page,
    pn: Page,
    at_cache: bool,
    pos: int,
    addr: int,
    v: u8,
)
    requires
        s0.wf(),
        s1.wf(),
        s1.local@.len() == 64,
        s0.holds(q),
        q.wf(),
        pn.wf(),
        pn.page == q.page,
        pn.head == q.head,
        pn.head_owned.cursor == q.head_owned.cursor,
        pn.head_owned.exclusive_free == q.head_owned.exclusive_free,
        q.base() <= addr < q.base() + 4056,
        pn.bytes() == q.bytes().update(addr - q.base(), v),
        at_cache ==> 0 <= pos < 64 && s0.local@[pos] == Some(q) && s1.orphans@ == s0.orphans@
            && s1.local@ == s0.local@.update(pos, Some(pn)),
        !at_cache ==> 0 <= pos < s0.orphans@.len() && s0.orphans@[pos] == q && s1.local@
            == s0.local@ && s1.orphans@ == s0.orphans@.update(pos, pn),
    ensures
        forall|x: int, cc: int| s0.addr_live(x, cc) ==> #[trigger] s1.addr_live(x, cc),
        forall|x: int| s0.addr_in_live_slot(x) ==> #[trigger] s1.addr_in_live_slot(x),
        s1.byte_at(addr) == v,
        forall|x: int|
            #![trigger s1.byte_at(x)]
            s0.addr_in_live_slot(x) && x != addr ==> s1.byte_at(x) == s0.byte_at(x),
{
    assert(pn.exl() == q.exl());
    assert(pn.shr() == q.shr());
    assert forall|i: int| q.slot_live(i) implies #[trigger] pn.slot_live(i) by {}
    assert(s1.holds(pn)) by {
        if at_cache {
            assert(s1.local@[pos] == Some(pn));
        } else {
            assert(s1.orphans@[pos] == pn);
        }
    }
    assert forall|x: int, cc: int| s0.addr_live(x, cc) implies #[trigger] s1.addr_live(x, cc) by {
        let q2 = choose|q2: Page| #[trigger] s0.holds(q2) && live_in_page(q2, x, cc);
        if q2 == q {
            let i2 = choose|i: int| 0 <= i && #[trigger] q2.slot_live(i) && x == q2.slot_addr(i);
            assert(pn.slot_live(i2));
            assert(live_in_page(pn, x, cc));
        } else {
            lemma_swap_one(s0, s1, q2, q, Some(pn), at_cache, pos);
        }
    }
    assert forall|x: int| s0.addr_in_live_slot(x) implies #[trigger] s1.addr_in_live_slot(x) by {
        let q2 = choose|q2: Page| #[trigger] s0.holds(q2) && live_byte_in_page(q2, x);
        if q2 == q {
            let i2 = choose|i: int|
                0 <= i && #[trigger] q2.slot_live(i) && q2.slot_addr(i) <= x < q2.slot_addr(i)
                    + q2.slot_bytes();
            assert(pn.slot_live(i2));
            assert(live_byte_in_page(pn, x));
        } else {
            lemma_swap_one(s0, s1, q2, q, Some(pn), at_cache, pos);
        }
    }
    assert(s1.byte_at(addr) == v) by {
        lemma_byte_at_page(s1, pn, addr);
    }
    assert forall|x: int|
        #![trigger s1.byte_at(x)]
        s0.addr_in_live_slot(x) && x != addr implies s1.byte_at(x) == s0.byte_at(x) by {
        let q2 = choose|q2: Page| #[trigger] s0.holds(q2) && live_byte_in_page(q2, x);
        lemma_held_wf(s0, q2);
        lemma_live_byte_range(q2, x);
        lemma_byte_at_page(s0, q2, x);
        if q2 == q {
            let i2 = choose|i: int|
                0 <= i && #[trigger] q2.slot_live(i) && q2.slot_addr(i) <= x < q2.slot_addr(i)
                    + q2.slot_bytes();
            assert(pn.slot_live(i2));
            assert(live_byte_in_page(pn, x));
            lemma_byte_at_page(s1, pn, x);
        } else {
            lemma_swap_one(s0, s1, q2, q, Some(pn), at_cache, pos);
            lemma_byte_at_page(s1, q2, x);
        }
    }
}

/// After a free, the freed slot is dead, and every other live slot is still
/// live with its bytes unchanged.
proof fn lemma_dealloc_post(
    s0: Balloc,
    s1: Balloc,
    q: Page,
    pn: Page,
    pnew: Option<Page>,
    at_cache: bool,
    pos: int,
    ptr: int,
    cls: int,
    i0: int,
)
    requires
        s0.wf(),
        s1.wf(),
        s1.local@.len() == 64,
        s0.holds(q),
        q.wf(),
        pn.wf(),
        1 <= cls <= 64,
        q.head.slot_size as int == cls,
        pn.head.slot_size as int == cls,
        0 <= i0 < spec_max_len(cls),
        q.slot_live(i0),
        ptr == q.slot_addr(i0),
        pn.page == q.page,
        pn.head_owned.handle == q.head_owned.handle,
        pn.cursor() == q.cursor(),
        // the freed slot is on a free list of `pn`; every other slot's
        // liveness is unchanged
        !pn.slot_live(i0),
        forall|i: int| q.slot_live(i) && i != i0 ==> #[trigger] pn.slot_live(i),
        forall|i: int| #[trigger] pn.slot_live(i) ==> q.slot_live(i),
        pnew is Some ==> pnew->0 == pn,
        pnew is None ==> forall|i: int| 0 <= i < pn.cursor() ==> !(#[trigger] pn.slot_live(i)),
        at_cache ==> 0 <= pos < 64 && s0.local@[pos] == Some(q) && s1.orphans@ == s0.orphans@
            && s1.local@ == s0.local@.update(pos, pnew),
        !at_cache ==> 0 <= pos < s0.orphans@.len() && s0.orphans@[pos] == q && s1.local@
            == s0.local@ && (pnew is Some ==> s1.orphans@ == s0.orphans@.update(pos, pnew->0)) && (
        pnew is None ==> s1.orphans@ == s0.orphans@.remove(pos)),
    ensures
        !s1.addr_live(ptr, cls),
        forall|x: int, cc: int| s0.addr_live(x, cc) && x != ptr ==> #[trigger] s1.addr_live(x, cc),
        forall|x: int|
            s0.addr_in_live_slot(x) && !(ptr <= x < ptr + 8 * cls) ==> #[trigger] s1.addr_in_live_slot(x),
        forall|x: int|
            #![trigger s1.byte_at(x)]
            s0.addr_in_live_slot(x) && !(ptr <= x < ptr + 8 * cls) ==> s1.byte_at(x) == s0.byte_at(
                x,
            ),
{
    lemma_slot_range(cls, i0);
    // `pn` is still held unless the page was removed outright
    if pnew is Some {
        assert(s1.holds(pn)) by {
            if at_cache {
                assert(s1.local@[pos] == Some(pn));
            } else {
                assert(s1.orphans@[pos] == pn);
            }
        }
    }
    // the freed slot is dead
    assert(!s1.addr_live(ptr, cls)) by {
        if s1.addr_live(ptr, cls) {
            let q1 = choose|q1: Page| #[trigger] s1.holds(q1) && live_in_page(q1, ptr, cls);
            let i1 = choose|i: int| 0 <= i && #[trigger] q1.slot_live(i) && ptr == q1.slot_addr(i);
            lemma_held_wf(s1, q1);
            lemma_slot_range(cls, i1);
            if pnew is Some {
                lemma_page_unique(s1, q1, pn, ptr);
                assert(q1 == pn);
                lemma_slot_index(cls, i1);
                lemma_slot_index(cls, i0);
                assert(i1 == i0);
                assert(false);
            } else {
                lemma_swap_one_rev(s0, s1, q1, q, pnew, at_cache, pos);
                assert(s0.holds(q1));
                lemma_page_unique(s0, q1, q, ptr);
                assert(q1 == q);
                // but the removed page is held nowhere in `s1`
                if exists|d: int| 0 <= d < 64 && #[trigger] s1.local@[d] == Some(q) {
                    let d = choose|d: int| 0 <= d < 64 && #[trigger] s1.local@[d] == Some(q);
                    assert(s0.local@[d] == Some(q));
                    assert(false);
                } else {
                    let k = choose|k: int| 0 <= k < s1.orphans@.len() && s1.orphans@[k] == q;
                    if k < pos {
                        assert(s0.orphans@[k] == q);
                    } else {
                        assert(s0.orphans@[k + 1] == q);
                    }
                    assert(false);
                }
            }
        }
    }
    // other live slots survive
    assert forall|x: int, cc: int| s0.addr_live(x, cc) && x != ptr implies #[trigger] s1.addr_live(
        x,
        cc,
    ) by {
        let q2 = choose|q2: Page| #[trigger] s0.holds(q2) && live_in_page(q2, x, cc);
        let i2 = choose|i: int| 0 <= i && #[trigger] q2.slot_live(i) && x == q2.slot_addr(i);
        lemma_held_wf(s0, q2);
        lemma_slot_range(q2.slot_size(), i2);
        if q2 == q {
            assert(i2 != i0) by {
                if i2 == i0 {
                    assert(x == ptr);
                }
            }
            assert(pn.slot_live(i2));
            if pnew is None {
                assert(false);
            }
            assert(s1.holds(pn));
            assert(live_in_page(pn, x, cc));
        } else {
            lemma_swap_one(s0, s1, q2, q, pnew, at_cache, pos);
        }
    }
    assert forall|x: int| s0.addr_in_live_slot(x) && !(ptr <= x < ptr + 8 * cls) implies
        #[trigger] s1.addr_in_live_slot(x) by {
        let q2 = choose|q2: Page| #[trigger] s0.holds(q2) && live_byte_in_page(q2, x);
        let i2 = choose|i: int|
            0 <= i && #[trigger] q2.slot_live(i) && q2.slot_addr(i) <= x < q2.slot_addr(i)
                + q2.slot_bytes();
        lemma_held_wf(s0, q2);
        lemma_slot_range(q2.slot_size(), i2);
        if q2 == q {
            assert(i2 != i0) by {
                if i2 == i0 {
                    assert(ptr <= x < ptr + 8 * cls);
                }
            }
            assert(pn.slot_live(i2));
            if pnew is None {
                assert(false);
            }
            assert(s1.holds(pn));
            assert(live_byte_in_page(pn, x));
        } else {
            lemma_swap_one(s0, s1, q2, q, pnew, at_cache, pos);
        }
    }
    assert forall|x: int|
        #![trigger s1.byte_at(x)]
        s0.addr_in_live_slot(x) && !(ptr <= x < ptr + 8 * cls) implies s1.byte_at(x) == s0.byte_at(
        x,
    ) by {
        let q2 = choose|q2: Page| #[trigger] s0.holds(q2) && live_byte_in_page(q2, x);
        let i2 = choose|i: int|
            0 <= i && #[trigger] q2.slot_live(i) && q2.slot_addr(i) <= x < q2.slot_addr(i)
                + q2.slot_bytes();
        lemma_held_wf(s0, q2);
        lemma_slot_range(q2.slot_size(), i2);
        lemma_live_byte_range(q2, x);
        lemma_byte_at_page(s0, q2, x);
        if q2 == q {
            assert(i2 != i0) by {
                if i2 == i0 {
                    assert(ptr <= x < ptr + 8 * cls);
                }
            }
            assert(pn.slot_live(i2));
            if pnew is None {
                assert(false);
            }
            assert(s1.holds(pn));
            lemma_byte_at_page(s1, pn, x);
        } else {
            lemma_swap_one(s0, s1, q2, q, pnew, at_cache, pos);
            lemma_byte_at_page(s1, q2, x);
        }
    }
}

/// Pushing an index onto a free list keeps every listed index listed, and
/// lists nothing new but the pushed index.
proof fn lemma_push_preserves_free(s: Seq<u16>, t: Seq<u16>, v: u16)
    requires
        t == s.push(v),
    ensures
        forall|i: int| free_in(s, i) ==> #[trigger] free_in(t, i),
        forall|i: int| #[trigger] free_in(t, i) && i != v as int ==> free_in(s, i),
{
    assert forall|i: int| free_in(s, i) implies #[trigger] free_in(t, i) by {
        let k = choose|k: int| 0 <= k < s.len() && (#[trigger] s[k]) as int == i;
        assert(t[k] as int == i);
    }
    assert forall|i: int| #[trigger] free_in(t, i) && i != v as int implies free_in(s, i) by {
        let k = choose|k: int| 0 <= k < t.len() && (#[trigger] t[k]) as int == i;
        assert(k < s.len());
        assert(s[k] as int == i);
    }
}

/// Slots of one page never overlap: slot `i` ends before slot `j` begins.
pub proof fn lemma_slot_addr_ordered(c: int, i: int, j: int)
    requires
        1 <= c <= 64,
        0 <= i < j,
    ensures
        i * (8 * c) + 8 * c <= j * (8 * c),
{
    lemma_mul_inequality(i + 1, j, 8 * c);
    assert((i + 1) * (8 * c) == i * (8 * c) + 8 * c) by (nonlinear_arith);
}

/// After one held page (at cache slot `pos`, or orphan `pos`) is replaced by
/// `pnew` — or removed, when `pnew` is `None` on the orphan side — every other
/// held page is still held.
proof fn lemma_swap_one(
    s0: Balloc,
    s1: Balloc,
    q: Page,
    pold: Page,
    pnew: Option<Page>,
    at_cache: bool,
    pos: int,
)
    requires
        s0.wf(),
        s0.holds(q),
        s1.local@.len() == 64,
        at_cache ==> 0 <= pos < 64 && s0.local@[pos] == Some(pold) && s1.orphans@ == s0.orphans@
            && s1.local@ == s0.local@.update(pos, pnew),
        !at_cache ==> 0 <= pos < s0.orphans@.len() && s0.orphans@[pos] == pold && s1.local@
            == s0.local@ && (pnew is Some ==> s1.orphans@ == s0.orphans@.update(pos, pnew->0)) && (
        pnew is None ==> s1.orphans@ == s0.orphans@.remove(pos)),
    ensures
        q != pold ==> s1.holds(q),
{
    if q != pold {
        if exists|cc: int| 0 <= cc < 64 && #[trigger] s0.local@[cc] == Some(q) {
            let cc = choose|cc: int| 0 <= cc < 64 && #[trigger] s0.local@[cc] == Some(q);
            assert(s1.local@[cc] == Some(q));
        } else {
            let jj = choose|j: int| 0 <= j < s0.orphans@.len() && s0.orphans@[j] == q;
            if at_cache {
                assert(s1.orphans@[jj] == q);
            } else if pnew is Some {
                assert(s1.orphans@[jj] == q);
            } else if jj < pos {
                assert(s1.orphans@[jj] == q);
            } else {
                assert(s1.orphans@[jj - 1] == q);
            }
        }
    }
}

/// Conversely, every page held after such a replacement is the new page or
/// was held before.
proof fn lemma_swap_one_rev(
    s0: Balloc,
    s1: Balloc,
    q1: Page,
    pold: Page,
    pnew: Option<Page>,
    at_cache: bool,
    pos: int,
)
    requires
        s1.holds(q1),
        s1.local@.len() == 64,
        s0.local@.len() == 64,
        at_cache ==> 0 <= pos < 64 && s0.local@[pos] == Some(pold) && s1.orphans@ == s0.orphans@
            && s1.local@ == s0.local@.update(pos, pnew),
        !at_cache ==> 0 <= pos < s0.orphans@.len() && s0.orphans@[pos] == pold && s1.local@
            == s0.local@ && (pnew is Some ==> s1.orphans@ == s0.orphans@.update(pos, pnew->0)) && (
        pnew is None ==> s1.orphans@ == s0.orphans@.remove(pos)),
    ensures
        (pnew is Some && q1 == pnew->0) || s0.holds(q1),
{
    if exists|cc: int| 0 <= cc < 64 && #[trigger] s1.local@[cc] == Some(q1) {
        let cc = choose|cc: int| 0 <= cc < 64 && #[trigger] s1.local@[cc] == Some(q1);
        if at_cache && cc == pos {
            assert(s1.local@[pos] == pnew);
            assert(pnew is Some && q1 == pnew->0);
        } else {
            assert(s1.local@[cc] == s0.local@[cc]);
            assert(s0.local@[cc] == Some(q1));
        }
    } else {
        let jj = choose|j: int| 0 <= j < s1.orphans@.len() && s1.orphans@[j] == q1;
        if at_cache {
            assert(s0.orphans@[jj] == q1);
        } else if pnew is Some {
            if jj == pos {
                assert(q1 == pnew->0);
            } else {
                assert(s0.orphans@[jj] == q1);
            }
        } else if jj < pos {
            assert(s0.orphans@[jj] == q1);
        } else {
            assert(s0.orphans@[jj + 1] == q1);
        }
    }
}

/// The allocator invariant holds again after one held page is replaced in
/// place by a page with the same identity, or removed.
proof fn lemma_swap_wf(
    s0: Balloc,
    s1: Balloc,
    pold: Page,
    pnew: Option<Page>,
    at_cache: bool,
    pos: int,
)
    requires
        s0.wf(),
        pnew is Some ==> (pnew->0).wf() && (pnew->0).page == pold.page && (pnew->0).head.slot_size
            == pold.head.slot_size,
        at_cache ==> 0 <= pos < 64 && s0.local@[pos] == Some(pold) && s1.orphans@ == s0.orphans@
            && s1.local@ == s0.local@.update(pos, pnew),
        at_cache ==> pnew is Some && (pnew->0).head.is_owned && ((pnew->0).exl().len() > 0 || (
        pnew->0).cursor() < (pnew->0).max_len() || (pnew->0).shr().len() > 0),
        !at_cache ==> 0 <= pos < s0.orphans@.len() && s0.orphans@[pos] == pold && s1.local@
            == s0.local@ && (pnew is Some ==> s1.orphans@ == s0.orphans@.update(pos, pnew->0)) && (
        pnew is None ==> s1.orphans@ == s0.orphans@.remove(pos)),
        !at_cache && pnew is Some ==> !(pnew->0).head.is_owned,
    ensures
        s1.wf(),
{
}

/// Two allocator states with the same cache and orphan views hold the same
/// pages, keep the same slots live, and hold the same bytes.
proof fn lemma_state_transfer(s0: Balloc, s1: Balloc)
    requires
        s0.wf(),
        s1.local@ == s0.local@,
        s1.orphans@ == s0.orphans@,
    ensures
        s1.wf(),
        forall|x: int, cc: int| s0.addr_live(x, cc) ==> #[trigger] s1.addr_live(x, cc),
        forall|x: int|
            s0.addr_in_live_slot(x) ==> #[trigger] s1.addr_in_live_slot(x),
        forall|x: int|
            #![trigger s1.byte_at(x)]
            s0.addr_in_live_slot(x) ==> s1.byte_at(x) == s0.byte_at(x),
{
    assert(s1.wf());
    assert forall|x: int, cc: int| s0.addr_live(x, cc) implies #[trigger] s1.addr_live(x, cc) by {
        let q = choose|q: Page| #[trigger] s0.holds(q) && live_in_page(q, x, cc);
        lemma_holds_transfer(s0, s1, q);
    }
    assert forall|x: int| s0.addr_in_live_slot(x) implies #[trigger] s1.addr_in_live_slot(x) by {
        let q = choose|q: Page| #[trigger] s0.holds(q) && live_byte_in_page(q, x);
        lemma_holds_transfer(s0, s1, q);
    }
    assert forall|x: int|
        #![trigger s1.byte_at(x)]
        s0.addr_in_live_slot(x) implies s1.byte_at(x) == s0.byte_at(x) by {
        let q = choose|q: Page| #[trigger] s0.holds(q) && live_byte_in_page(q, x);
        lemma_holds_transfer(s0, s1, q);
        lemma_held_wf(s0, q);
        lemma_live_byte_range(q, x);
        lemma_byte_at_page(s0, q, x);
        lemma_byte_at_page(s1, q, x);
    }
}

/// A page held in one state is held in any state with the same views.
proof fn lemma_holds_transfer(s0: Balloc, s1: Balloc, q: Page)
    requires
        s1.local@ == s0.local@,
        s1.orphans@ == s0.orphans@,
        s0.holds(q),
    ensures
        s1.holds(q),
{
    if exists|c: int| 0 <= c < 64 && #[trigger] s0.local@[c] == Some(q) {
        let c = choose|c: int| 0 <= c < 64 && #[trigger] s0.local@[c] == Some(q);
        assert(s1.local@[c] == Some(q));
    } else {
        let j = choose|j: int| 0 <= j < s0.orphans@.len() && s0.orphans@[j] == q;
        assert(s1.orphans@[j] == q);
    }
}

/// After `alloc` reshapes the cache, every page held before is still held,
/// except the taken cache entry, which maps to the updated page `pf`.
proof fn lemma_alloc_maps_page(
    s0: Balloc,
    s1: Balloc,
    q: Page,
    p0: Page,
    pf: Page,
    ci: int,
    keep: bool,
    fresh: bool,
)
    requires
        s0.cache_wf(),
        s1.local@.len() == 64,
        0 <= ci < 64,
        s0.holds(q),
        fresh ==> s0.local@[ci] is None,
        !fresh ==> s0.local@[ci] == Some(p0),
        // the page at ci became pf, with the same identity and liveness or better
        forall|j: int| p0.slot_live(j) ==> #[trigger] pf.slot_live(j),
        p0.page == pf.page,
        p0.head.slot_size == pf.head.slot_size,
        p0.head_owned.handle == pf.head_owned.handle,
        keep ==> s1.local@ == s0.local@.update(ci, Some(pf)),
        !keep ==> s1.local@ == s0.local@.update(ci, None::<Page>) && s1.orphans@ == s0.orphans@.push(
            pf,
        ),
        keep ==> s1.orphans@ == s0.orphans@,
    ensures
        (!fresh && q == p0) ==> s1.holds(pf),
        (fresh || q != p0) ==> s1.holds(q),
{
    if !fresh && q == p0 {
        if keep {
            assert(s1.local@[ci] == Some(pf));
        } else {
            assert(s1.orphans@[s1.orphans@.len() - 1] == pf);
        }
    } else {
        if exists|cc: int| 0 <= cc < 64 && #[trigger] s0.local@[cc] == Some(q) {
            let cc = choose|cc: int| 0 <= cc < 64 && #[trigger] s0.local@[cc] == Some(q);
            assert(cc != ci);
            assert(s1.local@[cc] == Some(q));
        } else {
            let j = choose|j: int| 0 <= j < s0.orphans@.len() && s0.orphans@[j] == q;
            assert(s1.orphans@[j] == q);
        }
    }
}

/// The allocator invariant holds again after `alloc` reshapes the cache.
proof fn lemma_alloc_wf(s0: Balloc, s1: Balloc, p0: Page, pf: Page, ci: int, keep: bool, fresh: bool)
    requires
        s0.wf(),
        0 <= ci < 64,
        fresh ==> s0.local@[ci] is None,
        !fresh ==> s0.local@[ci] == Some(p0),
        pf.wf(),
        pf.page == p0.page,
        pf.head.slot_size == p0.head.slot_size,
        keep ==> (pf.exl().len() > 0 || pf.cursor() < pf.max_len() || pf.shr().len() > 0),
        1 <= pf.head.slot_size as int == ci + 1,
        !keep ==> !pf.head.is_owned,
        keep ==> pf.head.is_owned,
        // a fresh page's base collides with no held page's base
        fresh ==> (forall|cc: int|
            0 <= cc < 64 && s0.local@[cc] is Some ==> (#[trigger] s0.local@[cc])->0.base()
                != pf.base()) && (forall|j: int|
            0 <= j < s0.orphans@.len() ==> (#[trigger] s0.orphans@[j]).base() != pf.base()),
        keep ==> s1.local@ == s0.local@.update(ci, Some(pf)) && s1.orphans@ == s0.orphans@,
        !keep ==> s1.local@ == s0.local@.update(ci, None::<Page>) && s1.orphans@ == s0.orphans@.push(
            pf,
        ),
    ensures
        s1.wf(),
{
}

/// Two distinct 4096-byte-aligned bases head disjoint 4096-byte ranges.
pub proof fn lemma_aligned_disjoint(b1: int, b2: int)
    requires
        0 <= b1,
        0 <= b2,
        b1 % 4096 == 0,
        b2 % 4096 == 0,
        b1 != b2,
    ensures
        b1 + 4096 <= b2 || b2 + 4096 <= b1,
{
    let q1 = b1 / 4096;
    let q2 = b2 / 4096;
    lemma_fundamental_div_mod(b1, 4096);
    lemma_fundamental_div_mod(b2, 4096);
    if q1 < q2 {
        lemma_mul_inequality(q1 + 1, q2, 4096);
        assert((q1 + 1) * 4096 == q1 * 4096 + 4096) by (nonlinear_arith);
        lemma_mul_is_commutative(q1, 4096);
        lemma_mul_is_commutative(q2, 4096);
    } else if q2 < q1 {
        lemma_mul_inequality(q2 + 1, q1, 4096);
        assert((q2 + 1) * 4096 == q2 * 4096 + 4096) by (nonlinear_arith);
        lemma_mul_is_commutative(q1, 4096);
        lemma_mul_is_commutative(q2, 4096);
    }
}

/// A held page is determined by any byte address inside its region: two held
/// pages whose regions cover the same address are the same page.
pub proof fn lemma_page_unique(b: Balloc, p1: Page, p2: Page, x: int)
    requires
        b.wf(),
        b.holds(p1),
        b.holds(p2),
        p1.wf(),
        p2.wf(),
        p1.base() <= x < p1.base() + 4096,
        p2.base() <= x < p2.base() + 4096,
    ensures
        p1 == p2,
{
    if p1.base() != p2.base() {
        lemma_aligned_disjoint(p1.base(), p2.base());
        assert(false);
    }
    if exists|c: int| 0 <= c < 64 && #[trigger] b.local@[c] == Some(p1) {
        let c1 = choose|c: int| 0 <= c < 64 && #[trigger] b.local@[c] == Some(p1);
        if exists|c: int| 0 <= c < 64 && #[trigger] b.local@[c] == Some(p2) {
            let c2 = choose|c: int| 0 <= c < 64 && #[trigger] b.local@[c] == Some(p2);
            if c1 != c2 {
                assert(false);
            }
        } else {
            let j2 = choose|j: int| 0 <= j < b.orphans@.len() && b.orphans@[j] == p2;
            assert(false);
        }
    } else {
        let j1 = choose|j: int| 0 <= j < b.orphans@.len() && b.orphans@[j] == p1;
        if exists|c: int| 0 <= c < 64 && #[trigger] b.local@[c] == Some(p2) {
            let c2 = choose|c: int| 0 <= c < 64 && #[trigger] b.local@[c] == Some(p2);
            assert(false);
        } else {
            let j2 = choose|j: int| 0 <= j < b.orphans@.len() && b.orphans@[j] == p2;
            if j1 != j2 {
                assert(false);
            }
        }
    }
}

/// The page a held page's byte is read from is that page itself.
pub proof fn lemma_byte_at_page(b: Balloc, p: Page, x: int)
    requires
        b.wf(),
        b.holds(p),
        p.wf(),
        p.base() <= x < p.base() + 4096,
    ensures
        b.page_holding(x) == p,
        b.byte_at(x) == p.bytes()[x - p.base()],
{
    assert(b.holds(p) && p.base() <= x < p.base() + 4096);
    let p2 = b.page_holding(x);
    lemma_held_wf(b, p2);
    lemma_page_unique(b, p, p2, x);
}

/// Every held page satisfies the page invariant.
pub proof fn lemma_held_wf(b: Balloc, p: Page)
    requires
        b.wf(),
        b.holds(p),
    ensures
        p.wf(),
{
    if exists|c: int| 0 <= c < 64 && #[trigger] b.local@[c] == Some(p) {
        let c = choose|c: int| 0 <= c < 64 && #[trigger] b.local@[c] == Some(p);
    } else {
        let j = choose|j: int| 0 <= j < b.orphans@.len() && b.orphans@[j] == p;
    }
}

/// A live slot's bytes lie inside the page's buffer area.
pub proof fn lemma_live_byte_range(p: Page, x: int)
    requires
        p.wf(),
        live_byte_in_page(p, x),
    ensures
        p.base() <= x < p.base() + 4056,
{
    let i = choose|i: int|
        0 <= i && #[trigger] p.slot_live(i) && p.slot_addr(i) <= x < p.slot_addr(i)
            + p.slot_bytes();
    lemma_slot_range(p.slot_size(), i);
}

/// The address of a slot is 8-byte aligned.
pub proof fn lemma_addr_aligned(base: int, i: int, c: int)
    requires
        0 <= base,
        base % 4096 == 0,
        0 <= i,
        1 <= c,
    ensures
        (base + i * (8 * c)) % 8 == 0,
{
    let q = base / 4096;
    lemma_fundamental_div_mod(base, 4096);
    let k = 512 * q + i * c;
    assert(base + i * (8 * c) == k * 8) by (nonlinear_arith)
        requires base == 4096 * q && k == 512 * q + i * c;
    lemma_mod_multiples_basic(k, 8);
}

} // verus!
