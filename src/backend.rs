//! The memory backend that a cache draws slabs from, and the record of calls made on it.

use vstd::multiset::Multiset;
use vstd::prelude::*;

verus! {

/// The provider of raw memory that a [`crate::Cache`] is built on.
///
/// Addresses are plain `usize` values and `0` stands for "no memory".
/// The cache never dereferences any of them: it hands them out and takes them back.
///
/// Which operations a cache needs depends on its configuration:
/// - small objects with `slab_size == page_size`: `alloc_slab` and `free_slab`;
/// - small objects with `slab_size > page_size`: also the page association
///   (`save_slab_info_addr`, `get_slab_info_addr`, `delete_slab_info_addr`);
/// - large objects: also `alloc_slab_info` and `free_slab_info`.
pub trait MemoryBackend {
    /// Returns the address of a page-aligned region of exactly `slab_size` bytes, or `0`.
    fn alloc_slab(&mut self, slab_size: usize, page_size: usize) -> usize;

    /// Takes back a region that `alloc_slab` returned with the same sizes.
    fn free_slab(&mut self, slab_addr: usize, slab_size: usize, page_size: usize);

    /// Returns the address of storage for one slab's metadata record, or `0`.
    fn alloc_slab_info(&mut self) -> usize;

    /// Takes back storage that `alloc_slab_info` returned.
    fn free_slab_info(&mut self, slab_info_addr: usize);

    /// Records that the page at `object_page_addr` belongs to the slab whose
    /// metadata record is at `slab_info_addr`.
    fn save_slab_info_addr(&mut self, object_page_addr: usize, slab_info_addr: usize);

    /// Returns the metadata address last recorded for the page at `object_page_addr`.
    fn get_slab_info_addr(&mut self, object_page_addr: usize) -> usize;

    /// Forgets the association of the page at `page_addr`; called for every page of a
    /// slab that is given back, whether or not the page was ever recorded.
    fn delete_slab_info_addr(&mut self, page_addr: usize);
}

/// One call that a cache made on its memory backend, with its arguments and what it returned.
pub ghost enum BackendCall {
    AllocSlab { slab_size: usize, page_size: usize, result: usize },
    FreeSlab { slab_addr: usize, slab_size: usize, page_size: usize },
    AllocSlabInfo { result: usize },
    FreeSlabInfo { slab_info_addr: usize },
    SaveSlabInfoAddr { page_addr: usize, slab_info_addr: usize },
    GetSlabInfoAddr { page_addr: usize, result: usize },
    DeleteSlabInfoAddr { page_addr: usize },
}

/// The slabs that the backend handed out, over a history of calls, and that were not
/// handed back yet.
pub open spec fn held_slabs(calls: Seq<BackendCall>) -> Multiset<usize>
    decreases calls.len(),
{
    if calls.len() == 0 {
        Multiset::empty()
    } else {
        let before = held_slabs(calls.drop_last());
        match calls.last() {
            BackendCall::AllocSlab { result, .. } => if result != 0 {
                before.insert(result)
            } else {
                before
            },
            BackendCall::FreeSlab { slab_addr, .. } => before.remove(slab_addr),
            _ => before,
        }
    }
}

/// Every slab that a history of calls hands back was held at that point: no slab is
/// released twice, nor one that the backend never handed out.
pub open spec fn releases_only_held(calls: Seq<BackendCall>) -> bool
    decreases calls.len(),
{
    if calls.len() == 0 {
        true
    } else {
        &&& releases_only_held(calls.drop_last())
        &&& match calls.last() {
            BackendCall::FreeSlab { slab_addr, .. } => held_slabs(calls.drop_last()).contains(slab_addr),
            _ => true,
        }
    }
}

/// The calls that delete the page associations of `pages` pages from `slab_addr` on.
pub open spec fn page_deletions(slab_addr: usize, page_size: usize, pages: nat) -> Seq<BackendCall> {
    Seq::new(pages, |i: int| BackendCall::DeleteSlabInfoAddr { page_addr: (slab_addr + i * page_size) as usize })
}

/// Appending one call: how the held slabs change.
pub proof fn lemma_held_push(calls: Seq<BackendCall>, c: BackendCall)
    ensures
        held_slabs(calls.push(c)) == match c {
            BackendCall::AllocSlab { result, .. } => if result != 0 {
                held_slabs(calls).insert(result)
            } else {
                held_slabs(calls)
            },
            BackendCall::FreeSlab { slab_addr, .. } => held_slabs(calls).remove(slab_addr),
            _ => held_slabs(calls),
        },
        releases_only_held(calls.push(c)) == (releases_only_held(calls) && match c {
            BackendCall::FreeSlab { slab_addr, .. } => held_slabs(calls).contains(slab_addr),
            _ => true,
        }),
{
    assert(calls.push(c).drop_last() =~= calls);
}

/// Appending calls that neither take nor give back a slab changes nothing held.
pub proof fn lemma_held_append_neutral(calls: Seq<BackendCall>, more: Seq<BackendCall>)
    requires
        forall|i: int| 0 <= i < more.len() ==> !(more[i] is AllocSlab) && !(more[i] is FreeSlab),
    ensures
        held_slabs(calls + more) == held_slabs(calls),
        releases_only_held(calls + more) == releases_only_held(calls),
    decreases more.len(),
{
    if more.len() == 0 {
        assert(calls + more =~= calls);
    } else {
        let init = more.drop_last();
        lemma_held_append_neutral(calls, init);
        assert(calls + more =~= (calls + init).push(more.last()));
        lemma_held_push(calls + init, more.last());
    }
}

/// The metadata storage records that the backend handed out, over a history of calls, and
/// that were not handed back yet.
pub open spec fn held_slab_infos(calls: Seq<BackendCall>) -> Multiset<usize>
    decreases calls.len(),
{
    if calls.len() == 0 {
        Multiset::empty()
    } else {
        let before = held_slab_infos(calls.drop_last());
        match calls.last() {
            BackendCall::AllocSlabInfo { result } => if result != 0 {
                before.insert(result)
            } else {
                before
            },
            BackendCall::FreeSlabInfo { slab_info_addr } => before.remove(slab_info_addr),
            _ => before,
        }
    }
}

/// Every metadata storage record that a history of calls hands back was held at that
/// point: none is released twice, nor one that the backend never handed out.
pub open spec fn releases_only_held_slab_infos(calls: Seq<BackendCall>) -> bool
    decreases calls.len(),
{
    if calls.len() == 0 {
        true
    } else {
        &&& releases_only_held_slab_infos(calls.drop_last())
        &&& match calls.last() {
            BackendCall::FreeSlabInfo { slab_info_addr } => held_slab_infos(calls.drop_last()).contains(
                slab_info_addr,
            ),
            _ => true,
        }
    }
}

/// Appending one call: how the held metadata storage changes.
pub proof fn lemma_held_info_push(calls: Seq<BackendCall>, c: BackendCall)
    ensures
        held_slab_infos(calls.push(c)) == match c {
            BackendCall::AllocSlabInfo { result } => if result != 0 {
                held_slab_infos(calls).insert(result)
            } else {
                held_slab_infos(calls)
            },
            BackendCall::FreeSlabInfo { slab_info_addr } => held_slab_infos(calls).remove(slab_info_addr),
            _ => held_slab_infos(calls),
        },
        releases_only_held_slab_infos(calls.push(c)) == (releases_only_held_slab_infos(calls) && match c {
            BackendCall::FreeSlabInfo { slab_info_addr } => held_slab_infos(calls).contains(slab_info_addr),
            _ => true,
        }),
{
    assert(calls.push(c).drop_last() =~= calls);
}

/// Appending calls that neither obtain nor give back metadata storage changes none held.
pub proof fn lemma_held_info_append_neutral(calls: Seq<BackendCall>, more: Seq<BackendCall>)
    requires
        forall|i: int|
            0 <= i < more.len() ==> !(more[i] is FreeSlabInfo) && (more[i] is AllocSlabInfo
                ==> more[i]->AllocSlabInfo_result == 0),
    ensures
        held_slab_infos(calls + more) == held_slab_infos(calls),
        releases_only_held_slab_infos(calls + more) == releases_only_held_slab_infos(calls),
    decreases more.len(),
{
    if more.len() == 0 {
        assert(calls + more =~= calls);
    } else {
        let init = more.drop_last();
        lemma_held_info_append_neutral(calls, init);
        assert(calls + more =~= (calls + init).push(more.last()));
        lemma_held_info_push(calls + init, more.last());
    }
}

/// The metadata address that a history of calls last associated with the page at
/// `page_addr`, if the association was not deleted since.
pub open spec fn page_association(calls: Seq<BackendCall>, page_addr: usize) -> Option<usize>
    decreases calls.len(),
{
    if calls.len() == 0 {
        None
    } else {
        match calls.last() {
            BackendCall::SaveSlabInfoAddr { page_addr: p, slab_info_addr } if p == page_addr => Some(
                slab_info_addr,
            ),
            BackendCall::DeleteSlabInfoAddr { page_addr: p } if p == page_addr => None,
            _ => page_association(calls.drop_last(), page_addr),
        }
    }
}

/// Appending calls that neither record nor delete a page association changes none.
pub proof fn lemma_association_append_neutral(calls: Seq<BackendCall>, more: Seq<BackendCall>)
    requires
        forall|i: int|
            0 <= i < more.len() ==> !(more[i] is SaveSlabInfoAddr) && !(more[i] is DeleteSlabInfoAddr),
    ensures
        forall|p: usize| #[trigger] page_association(calls + more, p) == page_association(calls, p),
    decreases more.len(),
{
    if more.len() == 0 {
        assert(calls + more =~= calls);
    } else {
        let init = more.drop_last();
        lemma_association_append_neutral(calls, init);
        assert(calls + more =~= (calls + init).push(more.last()));
        lemma_association_push(calls + init, more.last());
        assert(!(more[more.len() - 1] is SaveSlabInfoAddr));
        assert(!(more[more.len() - 1] is DeleteSlabInfoAddr));
    }
}

/// Appending one call: how the page associations change.
pub proof fn lemma_association_push(calls: Seq<BackendCall>, c: BackendCall)
    ensures
        forall|p: usize|
            #[trigger] page_association(calls.push(c), p) == match c {
                BackendCall::SaveSlabInfoAddr { page_addr, slab_info_addr } if page_addr == p => Some(
                    slab_info_addr,
                ),
                BackendCall::DeleteSlabInfoAddr { page_addr } if page_addr == p => None,
                _ => page_association(calls, p),
            },
{
    assert(calls.push(c).drop_last() =~= calls);
}

} // verus!
