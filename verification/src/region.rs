//! The boundary to the virtual-memory mapper: every call into `memmap` is made
//! here. A mapped region is opaque to the verifier; its contents and its start
//! address are given names that the wrappers below relate to the calls.

use vstd::prelude::*;
use memmap::MmapMut;
use crate::page::Page;

verus! {

#[verifier::external_type_specification]
#[verifier::external_body]
pub struct ExMmapMut(MmapMut);

/// The bytes of the mapped region that `m` owns.
pub uninterp spec fn region_bytes(m: MmapMut) -> Seq<u8>;

/// The address at which the region that `m` owns starts, fixed for the
/// lifetime of the mapping.
pub uninterp spec fn region_base(m: MmapMut) -> usize;

/// Relies on memmap::MmapMut::map_anon, which maps a fresh anonymous region
/// with a null address hint: on success the region is exactly as long as
/// requested (here 4096 bytes), it starts at a nonzero page-aligned address,
/// it lies within the address space, it is zero-filled, and it is disjoint
/// from every live mapping — in particular its start differs from the start
/// of the region of every map held by a page in `local` or `orphans`.
#[verifier::external_body]
pub(crate) fn map_fresh(local: &Vec<Option<Page>>, orphans: &Vec<Page>) -> (r: Option<MmapMut>)
    ensures
        r is Some ==> {
            &&& region_bytes(r->0).len() == 4096
            &&& region_base(r->0) as int % 4096 == 0
            &&& region_base(r->0) > 0
            &&& region_base(r->0) as int + 4096 <= usize::MAX as int
            &&& forall|i: int| 0 <= i < 4096 ==> region_bytes(r->0)[i] == 0
            &&& forall|c: int|
                0 <= c < local@.len() && local@[c] is Some ==> region_base(r->0) != region_base(
                    #[trigger] (local@[c]->0).head_owned.handle,
                )
            &&& forall|j: int|
                0 <= j < orphans@.len() ==> region_base(r->0) != region_base(
                    #[trigger] orphans@[j].head_owned.handle,
                )
        },
{
    MmapMut::map_anon(4096).ok()
}

/// Relies on memmap::MmapMut::as_ptr: the start address of the mapped region.
#[verifier::external_body]
pub(crate) fn region_start(m: &MmapMut) -> (r: usize)
    ensures
        r == region_base(*m),
{
    m.as_ptr() as usize
}

/// Relies on memmap::MmapMut's Deref to `[u8]`: reads one byte of the region.
#[verifier::external_body]
pub(crate) fn region_read(m: &MmapMut, i: usize) -> (r: u8)
    requires
        i < region_bytes(*m).len(),
    ensures
        r == region_bytes(*m)[i as int],
{
    m[i]
}

/// Relies on memmap::MmapMut's DerefMut to `[u8]`: writes one byte of the
/// region; the region's start address and length do not change.
#[verifier::external_body]
pub(crate) fn region_write(m: &mut MmapMut, i: usize, v: u8)
    requires
        i < region_bytes(*old(m)).len(),
    ensures
        region_bytes(*final(m)) == region_bytes(*old(m)).update(i as int, v),
        region_base(*final(m)) == region_base(*old(m)),
{
    m[i] = v;
}

/// Relies on memmap::MmapMut's Drop: dropping the map returns the region to
/// the operating system.
#[verifier::external_body]
pub(crate) fn region_unmap(m: MmapMut) {
    drop(m);
}

} // verus!
