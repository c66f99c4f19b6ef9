//! The slab cache: construction, allocation and release of objects.

use core::marker::PhantomData;
use vstd::arithmetic::power2::is_pow2;
use vstd::prelude::*;

use crate::backend::{page_association, page_deletions, BackendCall, MemoryBackend};
use crate::proofs::{
    lemma_held_round_trip, lemma_holder, lemma_holder_exists,
    lemma_log_neutral, lemma_new_slab, lemma_release, lemma_release_ranges, lemma_take,
};
use crate::layout::{align_down, is_power_of_two, three_quarters};
use crate::model::{
    free_sum, objects_per_slab_for, slab_info_offset, small_slab_info_addr, CacheView, SlabList,
    SlabView,
};

verus! {

/// Where a cache keeps the metadata record of each slab.
#[derive(Debug, Clone, Copy, PartialEq, Eq, Structural)]
pub enum ObjectSizeType {
    /// The record sits at the tail of the slab itself: with small objects little room is lost.
    /// For a slab of 4096 bytes and objects of 32 bytes, 126 objects fit beside the record.
    Small,
    /// The record is stored apart, in storage that the memory backend provides: a large
    /// object would leave most of the slab's tail unused.
    Large,
}

/// Counters that a cache keeps about its slabs and objects.
#[derive(Debug, Clone, Copy, PartialEq, Eq, Structural)]
pub struct CacheStatistics {
    /// Number of slabs with free objects.
    pub free_slabs_number: usize,
    /// Number of slabs in which all objects are allocated.
    pub full_slabs_number: usize,
    /// Number of objects that can be allocated without asking for a new slab.
    pub free_objects_number: usize,
    /// Number of objects handed out and not yet given back.
    pub allocated_objects_number: usize,
}

/// The metadata record of one slab: where the slab starts, the address that stands for
/// the record in the memory backend's page association, and the stack of its free objects.
pub struct SlabInfo {
    slab_addr: usize,
    slab_info_addr: usize,
    free_objects: Vec<usize>,
}

/// Why a cache could not be made.
#[derive(Debug, Clone, Copy, PartialEq, Eq, Structural)]
pub enum CacheError {
    /// An object cannot hold a free-list node of two addresses.
    ObjectTooSmall,
    /// A small-object slab has no room for its metadata record and one object.
    SlabTooSmall,
    /// The slab size is not a power of two.
    SlabSizeNotPowerOfTwo,
    /// The slab is not made of whole pages.
    SlabNotMadeOfPages,
    /// The page size is not a multiple of the object type's alignment.
    TypeCannotBeAligned,
    /// Not one object fits in a slab.
    NoRoomForObjects,
}

/// Why an object was not given back.
#[derive(Debug, Clone, Copy, PartialEq, Eq, Structural)]
pub enum FreeError {
    /// The metadata address that the backend associates with the object's page is not the
    /// one of the slab that holds the object.
    SlabInfoMismatch,
}

/// The first rule that a configuration breaks, in the order they are checked.
pub open spec fn config_error<T>(
    slab_size: usize,
    page_size: usize,
    object_size_type: ObjectSizeType,
) -> Option<CacheError> {
    let object_size = vstd::layout::size_of::<T>();
    if object_size < 2 * vstd::layout::size_of::<usize>() {
        Some(CacheError::ObjectTooSmall)
    } else if object_size_type == ObjectSizeType::Small && slab_size < vstd::layout::size_of::<SlabInfo>()
        + object_size {
        Some(CacheError::SlabTooSmall)
    } else if !is_pow2(slab_size as int) {
        Some(CacheError::SlabSizeNotPowerOfTwo)
    } else if page_size == 0 || slab_size % page_size != 0 {
        Some(CacheError::SlabNotMadeOfPages)
    } else if (page_size as int) % (vstd::layout::align_of::<T>() as int) != 0 {
        Some(CacheError::TypeCannotBeAligned)
    } else if objects_per_slab_for(object_size_type, slab_size as int, object_size as int) == 0 {
        Some(CacheError::NoRoomForObjects)
    } else {
        None
    }
}

impl View for SlabInfo {
    type V = SlabView;

    closed spec fn view(&self) -> SlabView {
        SlabView {
            slab_addr: self.slab_addr,
            slab_info_addr: self.slab_info_addr,
            free_objects: self.free_objects@,
        }
    }
}

impl SlabInfo {
    /// Start of the slab.
    pub fn slab_addr(&self) -> (r: usize)
        ensures
            r == self@.slab_addr,
    {
        self.slab_addr
    }

    /// Address that stands for this record in the backend's page association.
    pub fn slab_info_addr(&self) -> (r: usize)
        ensures
            r == self@.slab_info_addr,
    {
        self.slab_info_addr
    }

    /// Number of free objects of the slab.
    pub fn free_objects_number(&self) -> (r: usize)
        ensures
            r == self@.free_objects.len(),
    {
        self.free_objects.len()
    }
}

pub open spec fn slab_views(v: Seq<SlabInfo>) -> Seq<SlabView> {
    v.map_values(|s: SlabInfo| s@)
}

/// Address of the metadata record of a small-object slab at `slab_addr`: the highest
/// address aligned for a `SlabInfo` that leaves room for one before the slab's end.
pub fn calculate_slab_info_addr_in_small_object_cache(slab_addr: usize, slab_size: usize) -> (r: usize)
    requires
        vstd::layout::size_of::<SlabInfo>() <= slab_size,
        slab_addr + slab_size <= usize::MAX,
    ensures
        r == small_slab_info_addr(slab_addr as int, slab_size as int),
        (r as int) % (vstd::layout::align_of::<SlabInfo>() as int) == 0,
        r + vstd::layout::size_of::<SlabInfo>() <= slab_addr + slab_size,
        slab_addr + slab_size - r < vstd::layout::size_of::<SlabInfo>() + vstd::layout::align_of::<
            SlabInfo,
        >(),
{
    vstd::layout::layout_for_type_is_valid::<SlabInfo>();
    let top = slab_addr + slab_size - core::mem::size_of::<SlabInfo>();
    align_down(top, core::mem::align_of::<SlabInfo>())
}

/// A slab cache: hands out objects of type `T` from slabs that `M` provides.
///
/// The cache keeps each slab in one of three lists: slabs with free objects and low
/// occupancy, slabs with free objects and high occupancy (at least three quarters of the
/// objects out), and full slabs. Objects come from high-occupancy slabs first, so that
/// slabs with few objects out empty out and go back to the backend.
pub struct Cache<T, M: MemoryBackend> {
    object_size: usize,
    slab_size: usize,
    page_size: usize,
    object_size_type: ObjectSizeType,
    objects_per_slab: usize,
    free_slabs_list_occupacy_less_75: Vec<SlabInfo>,
    free_slabs_list_occupacy_more_75: Vec<SlabInfo>,
    occupacy_more_75_minimum_allocated_objects_number: usize,
    full_slabs_list: Vec<SlabInfo>,
    memory_backend: M,
    phantom_data: PhantomData<T>,
    statistics: CacheStatistics,
    backend_calls: Ghost<Seq<BackendCall>>,
}

impl<T, M: MemoryBackend> View for Cache<T, M> {
    type V = CacheView;

    closed spec fn view(&self) -> CacheView {
        CacheView {
            object_size: self.object_size,
            slab_size: self.slab_size,
            page_size: self.page_size,
            object_size_type: self.object_size_type,
            objects_per_slab: self.objects_per_slab,
            high_occupancy_minimum: self.occupacy_more_75_minimum_allocated_objects_number,
            low: slab_views(self.free_slabs_list_occupacy_less_75@),
            high: slab_views(self.free_slabs_list_occupacy_more_75@),
            full: slab_views(self.full_slabs_list@),
            statistics: self.statistics,
            calls: self.backend_calls@,
        }
    }
}

impl<T, M: MemoryBackend> Cache<T, M> {
    pub open spec fn wf(&self) -> bool {
        self@.wf()
    }

    /// Makes an empty cache for objects of type `T` in slabs of `slab_size` bytes made of
    /// pages of `page_size` bytes.
    ///
    /// Which backend operations the cache uses:
    /// small objects with `slab_size == page_size` only take and give back slabs;
    /// small objects with `slab_size > page_size` also keep page associations;
    /// large objects also take and give back metadata storage.
    pub fn new(
        slab_size: usize,
        page_size: usize,
        object_size_type: ObjectSizeType,
        memory_backend: M,
    ) -> (r: Result<Self, CacheError>)
        ensures
            r is Ok <==> config_error::<T>(slab_size, page_size, object_size_type) is None,
            r matches Err(e) ==> config_error::<T>(slab_size, page_size, object_size_type) == Some(e),
            r matches Ok(c) ==> {
                &&& c.wf()
                &&& c@ == CacheView::initial(
                    vstd::layout::size_of::<T>() as usize,
                    slab_size,
                    page_size,
                    object_size_type,
                    objects_per_slab_for(
                        object_size_type,
                        slab_size as int,
                        vstd::layout::size_of::<T>() as int,
                    ) as usize,
                )
            },
            r matches Ok(c) ==> {
                let os = c@.object_size as int;
                let ops = c@.objects_per_slab as int;
                let offset = slab_info_offset(slab_size as int);
                &&& ops >= 1
                &&& ops * os <= slab_size
                &&& object_size_type == ObjectSizeType::Large ==> slab_size < (ops + 1) * os
                &&& object_size_type == ObjectSizeType::Small ==> {
                    &&& ops * os <= offset < (ops + 1) * os
                    &&& offset + vstd::layout::size_of::<SlabInfo>() <= slab_size
                }
            },
    {
        broadcast use vstd::layout::layout_of_primitives;

        vstd::layout::layout_for_type_is_valid::<T>();
        vstd::layout::layout_for_type_is_valid::<SlabInfo>();
        let object_size = core::mem::size_of::<T>();
        if object_size / 2 < core::mem::size_of::<usize>() {
            return Err(CacheError::ObjectTooSmall);
        }
        if object_size_type == ObjectSizeType::Small {
            if slab_size < core::mem::size_of::<SlabInfo>() || slab_size - core::mem::size_of::<SlabInfo>() < object_size {
                return Err(CacheError::SlabTooSmall);
            }
        }
        if !is_power_of_two(slab_size) {
            return Err(CacheError::SlabSizeNotPowerOfTwo);
        }
        if page_size == 0 || slab_size % page_size != 0 {
            return Err(CacheError::SlabNotMadeOfPages);
        }
        if page_size % core::mem::align_of::<T>() != 0 {
            return Err(CacheError::TypeCannotBeAligned);
        }
        let objects_per_slab = match object_size_type {
            ObjectSizeType::Small => {
                calculate_slab_info_addr_in_small_object_cache(0, slab_size) / object_size
            },
            ObjectSizeType::Large => slab_size / object_size,
        };
        if objects_per_slab == 0 {
            return Err(CacheError::NoRoomForObjects);
        }
        proof {
            let os = object_size as int;
            let ops = objects_per_slab as int;
            let room = if object_size_type == ObjectSizeType::Small {
                slab_info_offset(slab_size as int)
            } else {
                slab_size as int
            };
            vstd::arithmetic::div_mod::lemma_fundamental_div_mod(room, os);
            assert(ops * os <= room && room < (ops + 1) * os) by (nonlinear_arith)
                requires
                    room == os * ops + room % os,
                    0 <= room % os < os,
            ;
        }
        let cache = Cache {
            object_size,
            slab_size,
            page_size,
            object_size_type,
            objects_per_slab,
            free_slabs_list_occupacy_less_75: Vec::new(),
            free_slabs_list_occupacy_more_75: Vec::new(),
            occupacy_more_75_minimum_allocated_objects_number: three_quarters(objects_per_slab),
            full_slabs_list: Vec::new(),
            memory_backend,
            phantom_data: PhantomData,
            statistics: CacheStatistics {
                free_slabs_number: 0,
                full_slabs_number: 0,
                free_objects_number: 0,
                allocated_objects_number: 0,
            },
            backend_calls: Ghost(Seq::empty()),
        };
        proof {
            broadcast use vstd::seq_lib::group_to_multiset_ensures;

            let v = cache@;
            assert(v.slab_count() == 0);
            assert(v.statistics.allocated_objects_number == 0);
            assert(v.low =~= Seq::<SlabView>::empty());
            assert(v.high =~= Seq::<SlabView>::empty());
            assert(v.full =~= Seq::<SlabView>::empty());
            assert(v.low.to_multiset() =~= vstd::multiset::Multiset::empty());
            assert(v.slabs() =~= vstd::multiset::Multiset::empty());
            assert(free_sum(v.low) == 0 && free_sum(v.high) == 0);
            assert(v.statistics_wf());
            assert(v.backend_wf());
        }
        Ok(cache)
    }

    /// Size of an object in bytes.
    pub fn object_size(&self) -> (r: usize)
        ensures
            r == self@.object_size,
    {
        self.object_size
    }

    /// Size of a slab in bytes.
    pub fn slab_size(&self) -> (r: usize)
        ensures
            r == self@.slab_size,
    {
        self.slab_size
    }

    /// Size of a page in bytes.
    pub fn page_size(&self) -> (r: usize)
        ensures
            r == self@.page_size,
    {
        self.page_size
    }

    /// Where the cache keeps its slabs' metadata records.
    pub fn object_size_type(&self) -> (r: ObjectSizeType)
        ensures
            r == self@.object_size_type,
    {
        self.object_size_type
    }

    /// Number of objects in a slab.
    pub fn objects_per_slab(&self) -> (r: usize)
        ensures
            r == self@.objects_per_slab,
    {
        self.objects_per_slab
    }

    /// The least number of allocated objects of a slab in the high-occupancy list.
    pub fn occupacy_more_75_minimum_allocated_objects_number(&self) -> (r: usize)
        ensures
            r == self@.high_occupancy_minimum,
    {
        self.occupacy_more_75_minimum_allocated_objects_number
    }

    /// The cache's counters.
    pub fn cache_statistics(&self) -> (r: CacheStatistics)
        ensures
            r == self@.statistics,
    {
        self.statistics
    }

    /// Slabs with free objects and low occupancy, front first.
    pub fn free_slabs_list_occupacy_less_75(&self) -> (r: &Vec<SlabInfo>)
        ensures
            slab_views(r@) == self@.low,
    {
        &self.free_slabs_list_occupacy_less_75
    }

    /// Slabs with free objects and high occupancy, front first.
    pub fn free_slabs_list_occupacy_more_75(&self) -> (r: &Vec<SlabInfo>)
        ensures
            slab_views(r@) == self@.high,
    {
        &self.free_slabs_list_occupacy_more_75
    }

    /// Slabs without free objects, front first.
    pub fn full_slabs_list(&self) -> (r: &Vec<SlabInfo>)
        ensures
            slab_views(r@) == self@.full,
    {
        &self.full_slabs_list
    }

    /// The memory backend.
    pub fn memory_backend(&self) -> &M {
        &self.memory_backend
    }
}

impl<T, M: MemoryBackend> Cache<T, M> {
    /// Takes the slab at place `k` of list `l` out of it.
    fn remove_at(&mut self, l: SlabList, k: usize) -> (s: SlabInfo)
        requires
            k < old(self)@.list(l).len(),
        ensures
            s@ == old(self)@.list(l)[k as int],
            final(self)@ == old(self)@.with_list(l, old(self)@.list(l).remove(k as int)),
    {
        let s = match l {
            SlabList::Low => self.free_slabs_list_occupacy_less_75.remove(k),
            SlabList::High => self.free_slabs_list_occupacy_more_75.remove(k),
            SlabList::Full => self.full_slabs_list.remove(k),
        };
        proof {
            assert(self@.list(l) =~= old(self)@.list(l).remove(k as int));
        }
        s
    }

    /// Puts `s` at place `k` of list `l`.
    fn insert_at(&mut self, l: SlabList, k: usize, s: SlabInfo)
        requires
            k <= old(self)@.list(l).len(),
        ensures
            final(self)@ == old(self)@.with_list(l, old(self)@.list(l).insert(k as int, s@)),
    {
        match l {
            SlabList::Low => self.free_slabs_list_occupacy_less_75.insert(k, s),
            SlabList::High => self.free_slabs_list_occupacy_more_75.insert(k, s),
            SlabList::Full => self.full_slabs_list.insert(k, s),
        }
        proof {
            assert(self@.list(l) =~= old(self)@.list(l).insert(k as int, s@));
        }
    }

    /// Records a call made on the backend.
    fn record(&mut self, c: Ghost<BackendCall>)
        ensures
            final(self)@ == old(self)@.log(seq![c@]),
            final(self).memory_backend == old(self).memory_backend,
    {
        self.backend_calls = Ghost(self.backend_calls@.push(c@));
        proof {
            assert(self.backend_calls@ =~= old(self).backend_calls@ + seq![c@]);
        }
    }

    /// Tells whether a new slab at `slab_addr` can be used.
    fn slab_usable(&self, slab_addr: usize) -> (r: bool)
        requires
            self@.wf(),
            self@.low.len() == 0,
            self@.high.len() == 0,
        ensures
            r == self@.slab_usable(slab_addr),
    {
        let slab_size = self.slab_size;
        if slab_addr == 0 || slab_addr % self.page_size != 0 || slab_addr > usize::MAX - slab_size {
            return false;
        }
        proof {
            crate::proofs::lemma_threshold_below(self@);
        }
        let n = self.full_slabs_list.len();
        if n >= usize::MAX / slab_size {
            proof {
                vstd::arithmetic::div_mod::lemma_fundamental_div_mod(usize::MAX as int, slab_size as int);
                assert((n + 1) * slab_size > usize::MAX) by (nonlinear_arith)
                    requires
                        n >= usize::MAX / slab_size,
                        usize::MAX == slab_size * (usize::MAX / slab_size) + usize::MAX % slab_size,
                        usize::MAX % slab_size < slab_size,
                        slab_size > 0,
                ;
            }
            return false;
        }
        proof {
            vstd::arithmetic::div_mod::lemma_fundamental_div_mod(usize::MAX as int, slab_size as int);
            assert((n + 1) * slab_size <= usize::MAX) by (nonlinear_arith)
                requires
                    n < usize::MAX / slab_size,
                    usize::MAX == slab_size * (usize::MAX / slab_size) + usize::MAX % slab_size,
                    usize::MAX % slab_size >= 0,
                    slab_size > 0,
            ;
        }
        let mut i: usize = 0;
        while i < n
            invariant
                self@.wf(),
                self@.low.len() == 0,
                self@.high.len() == 0,
                n == self@.full.len(),
                i <= n,
                slab_addr + slab_size <= usize::MAX,
                slab_size == self@.slab_size,
                forall|j: int|
                    0 <= j < i ==> crate::model::far_apart(
                        #[trigger] self@.full[j].slab_addr,
                        slab_addr,
                        slab_size,
                    ),
            decreases n - i,
        {
            let t = self.full_slabs_list[i].slab_addr;
            proof {
                assert(self@.full[i as int].slab_addr == t);
                assert(self@.slab_wf(self@.list(SlabList::Full)[i as int]));
            }
            if !(t + slab_size <= slab_addr || slab_addr + slab_size <= t) {
                proof {
                    crate::proofs::lemma_list_member(self@, SlabList::Full, i as int);
                }
                return false;
            }
            i = i + 1;
        }
        proof {
            assert forall|t: SlabView| #[trigger] self@.slabs().contains(t) implies crate::model::far_apart(
                t.slab_addr,
                slab_addr,
                slab_size,
            ) by {
                let pos = crate::proofs::lemma_member_list(self@, t);
            }
        }
        true
    }

    /// Tells whether one of the cache's slabs has its metadata at `info`; a slab is asked for
    /// only with both free lists empty, so only the full list is looked at. `0` is in use
    /// by none.
    fn slab_info_in_use(&self, info: usize) -> (r: bool)
        requires
            self@.low.len() == 0,
            self@.high.len() == 0,
        ensures
            info != 0 ==> r == self@.has_slab_info_at(info),
            info == 0 ==> !r,
    {
        if info == 0 {
            return false;
        }
        let n = self.full_slabs_list.len();
        let mut i: usize = 0;
        while i < n
            invariant
                self@.low.len() == 0,
                self@.high.len() == 0,
                n == self@.full.len(),
                i <= n,
                info != 0,
                forall|j: int| 0 <= j < i ==> (#[trigger] self@.full[j]).slab_info_addr != info,
            decreases n - i,
        {
            proof {
                assert(self@.full[i as int].slab_info_addr == self.full_slabs_list@[i as int]@.slab_info_addr);
            }
            if self.full_slabs_list[i].slab_info_addr == info {
                proof {
                    crate::proofs::lemma_list_member(self@, SlabList::Full, i as int);
                    assert(self@.slabs().contains(self@.full[i as int]));
                }
                return true;
            }
            i = i + 1;
        }
        proof {
            if self@.has_slab_info_at(info) {
                let t = choose|t: SlabView| #[trigger] self@.slabs().contains(t) && t.slab_info_addr == info;
                let pos = crate::proofs::lemma_member_list(self@, t);
            }
        }
        false
    }

    /// Appends a fresh slab to the low-occupancy list.
    fn add_slab(&mut self, slab_addr: usize, slab_info_addr: usize)
        requires
            old(self)@.slab_usable(slab_addr),
            old(self)@.config_wf(),
            old(self)@.low.len() == 0,
            old(self)@.statistics.free_slabs_number == 0,
            old(self)@.statistics.free_objects_number == 0,
        ensures
            final(self)@ == old(self)@.with_new_slab(slab_addr, slab_info_addr),
            final(self).memory_backend == old(self).memory_backend,
    {
        let ops = self.objects_per_slab;
        let os = self.object_size;
        let mut free_objects: Vec<usize> = Vec::new();
        let mut i: usize = 0;
        proof {
            assert(ops * os <= self.slab_size);
        }
        while i < ops
            invariant
                i <= ops,
                ops == self.objects_per_slab,
                os == self.object_size,
                os > 0,
                ops * os <= self.slab_size,
                slab_addr + self.slab_size <= usize::MAX,
                free_objects@ =~= Seq::new(i as nat, |j: int| (slab_addr + j * os) as usize),
            decreases ops - i,
        {
            proof {
                assert(i * os < ops * os) by (nonlinear_arith)
                    requires
                        i < ops,
                        os > 0,
                ;
            }
            free_objects.push(slab_addr + i * os);
            i = i + 1;
        }
        let slab = SlabInfo { slab_addr, slab_info_addr, free_objects };
        proof {
            assert(slab@ == self@.fresh_slab(slab_addr, slab_info_addr));
        }
        self.free_slabs_list_occupacy_less_75.push(slab);
        self.statistics.free_slabs_number = 1;
        self.statistics.free_objects_number = ops;
        proof {
            assert(self@.low =~= old(self)@.low.push(slab@));
        }
    }

    /// Hands out the top free object of the front slab of the high-occupancy list, or of the
    /// low-occupancy one if that is empty.
    fn take_object(&mut self) -> (r: usize)
        requires
            old(self)@.inner_wf(),
            old(self)@.low.len() > 0 || old(self)@.high.len() > 0,
            forall|i: int|
                0 <= i < old(self)@.high.len() ==> old(self)@.allocated_in(#[trigger] old(self)@.high[i]) >= 1,
            forall|i: int|
                0 < i < old(self)@.low.len() ==> old(self)@.allocated_in(#[trigger] old(self)@.low[i]) >= 1,
            old(self)@.high.len() > 0 && old(self)@.low.len() > 0 ==> old(self)@.allocated_in(
                old(self)@.low[0],
            ) >= 1,
        ensures
            final(self)@ == old(self)@.after_take(),
            r == old(self)@.taken(),
    {
        let ghost v = self@;
        proof {
            lemma_take(v);
            crate::proofs::lemma_threshold_below(v);
            crate::proofs::lemma_free_sums(v);
            assert(v.slab_wf(v.list(v.chosen_list())[0]));
            assert(v.fits_list(v.list(v.chosen_list())[0], v.chosen_list()));
        }
        let l = if self.free_slabs_list_occupacy_more_75.len() > 0 {
            SlabList::High
        } else {
            SlabList::Low
        };
        let mut slab = self.remove_at(l, 0);
        let allocated_before = self.objects_per_slab - slab.free_objects.len();
        let r = slab.free_objects.pop().unwrap();
        proof {
            assert(slab@.free_objects =~= v.chosen().free_objects.drop_last());
        }
        if !(self.object_size_type == ObjectSizeType::Small && self.slab_size == self.page_size) {
            let single_page_seen = self.slab_size == self.page_size && allocated_before >= 2;
            if !single_page_seen {
                let page_addr = align_down(r, self.page_size);
                self.memory_backend.save_slab_info_addr(page_addr, slab.slab_info_addr);
                self.record(
                    Ghost(
                        BackendCall::SaveSlabInfoAddr {
                            page_addr,
                            slab_info_addr: slab.slab_info_addr,
                        },
                    ),
                );
            }
        }
        proof {
            assert(self@.calls == v.calls + v.save_calls());
            assert(free_sum(v.list(l)) >= v.chosen().free_objects.len()) by {
                let lst = v.list(l);
                assert forall|i: int| 0 <= i < lst.drop_first().len() implies (
                #[trigger] lst.drop_first()[i]).free_objects.len() <= v.objects_per_slab by {
                    assert(v.slab_wf(lst[i + 1]));
                }
                crate::lemmas::lemma_free_sum_bounds(lst.drop_first(), v.objects_per_slab as int);
            }
        }
        self.statistics.free_objects_number = self.statistics.free_objects_number - 1;
        self.statistics.allocated_objects_number = self.statistics.allocated_objects_number + 1;
        let allocated_after = self.objects_per_slab - slab.free_objects.len();
        if slab.free_objects.len() == 0 {
            self.statistics.free_slabs_number = self.statistics.free_slabs_number - 1;
            self.statistics.full_slabs_number = self.statistics.full_slabs_number + 1;
            let n = self.full_slabs_list.len();
            self.insert_at(SlabList::Full, n, slab);
            proof {
                assert(v.full.insert(v.full.len() as int, slab@) =~= v.full.push(slab@));
            }
        } else if l == SlabList::Low && allocated_after
            >= self.occupacy_more_75_minimum_allocated_objects_number {
            self.insert_at(SlabList::High, 0, slab);
        } else {
            self.insert_at(l, 0, slab);
            proof {
                assert(v.list(l).remove(0).insert(0, slab@) =~= v.list(l).update(0, slab@));
            }
        }
        proof {
            assert(v.list(l).remove(0) =~= v.list(l).drop_first());
            assert(self@ == v.after_take());
        }
        r
    }

    /// Hands out an object, or returns `0` when no slab has a free object and the backend
    /// provides none that can be used.
    ///
    /// With both free lists empty, a slab is asked for; a region that cannot be used
    /// (misaligned, overlapping a slab of the cache, ending past the address space, or one
    /// slab more than the address space can hold) is given back. For large objects the
    /// slab's metadata storage is asked for next; when none comes, the slab is given back.
    pub fn allocate(&mut self) -> (r: usize)
        requires
            old(self).wf(),
        ensures
            final(self).wf(),
            old(self)@.alloc_outcome(final(self)@, r),
            r != 0 ==> !old(self)@.is_allocated(r),
            r != 0 ==> forall|a: usize|
                #[trigger] final(self)@.is_allocated(a) <==> (old(self)@.is_allocated(a) || a == r),
            r == 0 ==> forall|a: usize| #[trigger] final(self)@.is_allocated(a) == old(self)@.is_allocated(a),
            r != 0 ==> final(self)@.statistics.allocated_objects_number
                == old(self)@.statistics.allocated_objects_number + 1,
            r == 0 ==> final(self)@.statistics == old(self)@.statistics,
            crate::model::same_config(old(self)@, final(self)@),
    {
        let ghost v = self@;
        if self.free_slabs_list_occupacy_less_75.len() == 0
            && self.free_slabs_list_occupacy_more_75.len() == 0 {
            let slab_size = self.slab_size;
            let page_size = self.page_size;
            let slab_addr = self.memory_backend.alloc_slab(slab_size, page_size);
            let usable = self.slab_usable(slab_addr);
            let ghost c0 = BackendCall::AllocSlab { slab_size, page_size, result: slab_addr };
            self.record(Ghost(c0));
            if slab_addr == 0 {
                proof {
                    crate::backend::lemma_held_push(v.calls, c0);
                    assert(v.calls + seq![c0] =~= v.calls.push(c0));
                    crate::backend::lemma_held_info_append_neutral(v.calls, seq![c0]);
                    crate::backend::lemma_association_append_neutral(v.calls, seq![c0]);
                    lemma_log_neutral(v, seq![c0]);
                }
                return 0;
            }
            let ghost c_back = BackendCall::FreeSlab { slab_addr, slab_size, page_size };
            if !usable {
                self.memory_backend.free_slab(slab_addr, slab_size, page_size);
                self.record(Ghost(c_back));
                proof {
                    lemma_held_round_trip(v.calls, seq![c0, c_back], slab_addr);
                    assert(v.calls + seq![c0] + seq![c_back] =~= v.calls + seq![c0, c_back]);
                    assert(v.log(seq![c0]).log(seq![c_back]) == v.log(seq![c0, c_back]));
                    crate::backend::lemma_held_info_append_neutral(v.calls, seq![c0, c_back]);
                    crate::backend::lemma_association_append_neutral(v.calls, seq![c0, c_back]);
                    lemma_log_neutral(v, seq![c0, c_back]);
                }
                return 0;
            }
            let ghost mut info_calls: Seq<BackendCall> = Seq::empty();
            let slab_info_addr = match self.object_size_type {
                ObjectSizeType::Small => calculate_slab_info_addr_in_small_object_cache(slab_addr, slab_size),
                ObjectSizeType::Large => {
                    let info = self.memory_backend.alloc_slab_info();
                    let ghost c1 = BackendCall::AllocSlabInfo { result: info };
                    self.record(Ghost(c1));
                    proof {
                        info_calls = seq![c1];
                        assert(self@.slabs() == v.slabs());
                    }
                    if self.slab_info_in_use(info) {
                        let ghost c_info_back = BackendCall::FreeSlabInfo { slab_info_addr: info };
                        self.memory_backend.free_slab_info(info);
                        self.record(Ghost(c_info_back));
                        self.memory_backend.free_slab(slab_addr, slab_size, page_size);
                        self.record(Ghost(c_back));
                        proof {
                            let c = seq![c0, c1, c_info_back, c_back];
                            lemma_held_round_trip(v.calls, c, slab_addr);
                            crate::proofs::lemma_info_round_trip(v.calls, c0, info, c_back);
                            assert(v.calls + seq![c0] + seq![c1] + seq![c_info_back] + seq![c_back] =~= v.calls
                                + c);
                            assert(v.calls + seq![c0] + seq![c1] + (seq![c_info_back] + seq![c_back]) =~= v.calls
                                + c);
                            crate::backend::lemma_association_append_neutral(v.calls, c);
                            lemma_log_neutral(v, c);
                        }
                        return 0;
                    }
                    if info == 0 {
                        self.memory_backend.free_slab(slab_addr, slab_size, page_size);
                        self.record(Ghost(c_back));
                        proof {
                            lemma_held_round_trip(v.calls, seq![c0, c1, c_back], slab_addr);
                            assert(v.calls + seq![c0] + seq![c1] + seq![c_back] =~= v.calls + seq![c0, c1, c_back]);
                            assert(v.log(seq![c0]).log(seq![c1]).log(seq![c_back]) == v.log(seq![c0, c1, c_back]));
                            crate::backend::lemma_held_info_append_neutral(v.calls, seq![c0, c1, c_back]);
                            crate::backend::lemma_association_append_neutral(v.calls, seq![c0, c1, c_back]);
                            lemma_log_neutral(v, seq![c0, c1, c_back]);
                        }
                        return 0;
                    }
                    info
                },
            };
            let ghost before_slab = self@;
            proof {
                let c = seq![c0] + info_calls;
                assert(before_slab.calls =~= v.calls + c);
                assert(c[0] == c0);
                if v.object_size_type == ObjectSizeType::Large {
                    assert(c[1] == info_calls[0]);
                }
                assert(before_slab == v.log(c));
                lemma_new_slab(v, c, slab_addr, slab_info_addr);
                crate::proofs::lemma_free_sums(v);
            }
            self.add_slab(slab_addr, slab_info_addr);
        }
        let ghost w = self@;
        proof {
            lemma_take(w);
        }
        let r = self.take_object();
        proof {
            let n = v.calls.len() as int;
            if v.low.len() == 0 && v.high.len() == 0 {
                assert(self@.calls[n] == w.calls[n]);
            }
        }
        r
    }
}

/// Finds the slab of `list` whose region holds `addr`.
fn search_list(list: &Vec<SlabInfo>, addr: usize, slab_size: usize) -> (r: Option<usize>)
    requires
        forall|i: int| 0 <= i < list@.len() ==> (#[trigger] list@[i])@.slab_addr + slab_size <= usize::MAX,
    ensures
        r matches Some(k) ==> k < list@.len() && list@[k as int]@.slab_addr <= addr < list@[k as int]@.slab_addr
            + slab_size,
        r is None ==> forall|i: int|
            0 <= i < list@.len() ==> !((#[trigger] list@[i])@.slab_addr <= addr < list@[i]@.slab_addr
                + slab_size),
{
    let mut i: usize = 0;
    while i < list.len()
        invariant
            i <= list@.len(),
            forall|i: int| 0 <= i < list@.len() ==> (#[trigger] list@[i])@.slab_addr + slab_size <= usize::MAX,
            forall|j: int|
                0 <= j < i ==> !((#[trigger] list@[j])@.slab_addr <= addr < list@[j]@.slab_addr
                    + slab_size),
        decreases list@.len() - i,
    {
        let base = list[i].slab_addr;
        proof {
            assert(list@[i as int]@.slab_addr == base);
        }
        if base <= addr && addr < base + slab_size {
            return Some(i);
        }
        i = i + 1;
    }
    None
}

impl<T, M: MemoryBackend> Cache<T, M> {
    /// Finds where the slab that holds the allocated object `addr` stands.
    fn locate(&self, addr: usize) -> (pos: (SlabList, usize))
        requires
            self@.wf(),
            self@.is_allocated(addr),
        ensures
            self@.holder(addr) == (pos.0, pos.1 as int),
    {
        let ghost v = self@;
        proof {
            assert forall|l: SlabList, i: int| 0 <= i < v.list(l).len() implies (#[trigger] v.list(l)[i]).slab_addr
                + v.slab_size <= usize::MAX by {
                assert(v.slab_wf(v.list(l)[i]));
            }
            assert(forall|i: int| 0 <= i < v.low.len() ==> (#[trigger] self.free_slabs_list_occupacy_less_75@[i])@ == v.low[i]);
            assert(forall|i: int| 0 <= i < v.high.len() ==> (#[trigger] self.free_slabs_list_occupacy_more_75@[i])@ == v.high[i]);
            assert(forall|i: int| 0 <= i < v.full.len() ==> (#[trigger] self.full_slabs_list@[i])@ == v.full[i]);
            assert(v.list(SlabList::Low) == v.low);
            assert(v.list(SlabList::High) == v.high);
            assert(v.list(SlabList::Full) == v.full);
        }
        if let Some(k) = search_list(&self.free_slabs_list_occupacy_less_75, addr, self.slab_size) {
            proof {
                lemma_holder(v, addr, SlabList::Low, k as int);
            }
            return (SlabList::Low, k);
        }
        if let Some(k) = search_list(&self.free_slabs_list_occupacy_more_75, addr, self.slab_size) {
            proof {
                lemma_holder(v, addr, SlabList::High, k as int);
            }
            return (SlabList::High, k);
        }
        if let Some(k) = search_list(&self.full_slabs_list, addr, self.slab_size) {
            proof {
                lemma_holder(v, addr, SlabList::Full, k as int);
            }
            return (SlabList::Full, k);
        }
        proof {
            lemma_holder_exists(v, addr);
            let (l, k) = v.holder(addr);
            crate::proofs::lemma_slot_in_slab(v, v.list(l)[k], addr);
            assert(false);
        }
        (SlabList::Full, 0)
    }

    /// The metadata address of the slab at place `k` of list `l`.
    fn slab_info_addr_at(&self, l: SlabList, k: usize) -> (r: usize)
        requires
            k < self@.list(l).len(),
        ensures
            r == self@.list(l)[k as int].slab_info_addr,
    {
        match l {
            SlabList::Low => self.free_slabs_list_occupacy_less_75[k].slab_info_addr,
            SlabList::High => self.free_slabs_list_occupacy_more_75[k].slab_info_addr,
            SlabList::Full => self.full_slabs_list[k].slab_info_addr,
        }
    }

    /// Gives an empty slab back to the backend, with its metadata storage for large objects,
    /// and has the backend forget the associations of its pages.
    fn reclaim(&mut self, slab: &SlabInfo)
        requires
            old(self)@.config_wf(),
            slab@.slab_addr + old(self)@.slab_size <= usize::MAX,
        ensures
            final(self)@ == old(self)@.log(old(self)@.reclaim_calls(slab@)),
    {
        let ghost v = self@;
        let slab_size = self.slab_size;
        let page_size = self.page_size;
        let slab_addr = slab.slab_addr;
        self.memory_backend.free_slab(slab_addr, slab_size, page_size);
        self.record(Ghost(BackendCall::FreeSlab { slab_addr, slab_size, page_size }));
        let ghost first = self@.calls;
        if !(self.object_size_type == ObjectSizeType::Small && slab_size == page_size) {
            if self.object_size_type == ObjectSizeType::Large {
                self.memory_backend.free_slab_info(slab.slab_info_addr);
                self.record(Ghost(BackendCall::FreeSlabInfo { slab_info_addr: slab.slab_info_addr }));
            }
            let ghost before_pages = self@;
            let pages = slab_size / page_size;
            let mut i: usize = 0;
            while i < pages
                invariant
                    i <= pages,
                    pages == slab_size / page_size,
                    slab_size == v.slab_size,
                    page_size == v.page_size,
                    page_size > 0,
                    slab_addr + slab_size <= usize::MAX,
                    self@ == before_pages.log(page_deletions(slab_addr, page_size, i as nat)),
                decreases pages - i,
            {
                proof {
                    vstd::arithmetic::div_mod::lemma_fundamental_div_mod(slab_size as int, page_size as int);
                    assert(i * page_size < slab_size) by (nonlinear_arith)
                        requires
                            i < slab_size / page_size,
                            slab_size == page_size * (slab_size / page_size) + slab_size % page_size,
                            slab_size % page_size >= 0,
                            page_size > 0,
                    ;
                }
                let page_addr = slab_addr + i * page_size;
                self.memory_backend.delete_slab_info_addr(page_addr);
                self.record(Ghost(BackendCall::DeleteSlabInfoAddr { page_addr }));
                proof {
                    assert(before_pages.calls + page_deletions(slab_addr, page_size, i as nat) + seq![
                        BackendCall::DeleteSlabInfoAddr { page_addr },
                    ] =~= before_pages.calls + page_deletions(slab_addr, page_size, (i + 1) as nat));
                }
                i = i + 1;
            }
        }
        proof {
            assert(self@.calls =~= v.calls + v.reclaim_calls(slab@));
        }
    }

    /// Puts the allocated object `addr` back into the slab at place `k` of list `l`, which
    /// holds it, and moves or gives back the slab as its occupancy asks.
    fn release(&mut self, l: SlabList, k: usize, addr: usize)
        requires
            old(self)@.wf(),
            old(self)@.is_allocated(addr),
            old(self)@.holder(addr) == (l, k as int),
        ensures
            final(self)@ == old(self)@.released(addr),
    {
        let ghost v = self@;
        proof {
            lemma_release_ranges(v, addr);
            lemma_holder_exists(v, addr);
            assert(v.slab_wf(v.list(l)[k as int]));
            crate::proofs::lemma_threshold_below(v);
        }
        let mut slab = self.remove_at(l, k);
        let free_before = slab.free_objects.len();
        slab.free_objects.push(addr);
        let left = self.objects_per_slab - slab.free_objects.len();
        if left == 0 {
            if l == SlabList::Full {
                self.statistics.full_slabs_number = self.statistics.full_slabs_number - 1;
            } else {
                self.statistics.free_slabs_number = self.statistics.free_slabs_number - 1;
            }
            self.statistics.free_objects_number = self.statistics.free_objects_number - free_before;
            self.statistics.allocated_objects_number = self.statistics.allocated_objects_number - 1;
            self.reclaim(&slab);
        } else {
            if l == SlabList::Full {
                self.statistics.free_slabs_number = self.statistics.free_slabs_number + 1;
                self.statistics.full_slabs_number = self.statistics.full_slabs_number - 1;
            }
            self.statistics.free_objects_number = self.statistics.free_objects_number + 1;
            self.statistics.allocated_objects_number = self.statistics.allocated_objects_number - 1;
            let dest = if left >= self.occupacy_more_75_minimum_allocated_objects_number {
                SlabList::High
            } else {
                SlabList::Low
            };
            if l == SlabList::Full || (l == SlabList::High && dest == SlabList::Low) {
                self.insert_at(dest, 0, slab);
            } else {
                self.insert_at(l, k, slab);
                proof {
                    assert(v.list(l).remove(k as int).insert(k as int, slab@) =~= v.list(l).update(k as int, slab@));
                }
            }
        }
        proof {
            assert(self@ == v.released(addr));
        }
    }

    /// Gives back an object that `allocate` handed out.
    ///
    /// The slab that holds it follows from the address alone for small objects in one-page
    /// slabs; otherwise the backend's association of the object's page names the slab's
    /// metadata. When that metadata is not the one of the slab that holds the object, the
    /// object stays allocated and `SlabInfoMismatch` is returned; this happens exactly when
    /// the backend's answer differs from the association the cache last recorded for the page.
    pub fn free(&mut self, object_addr: usize) -> (r: Result<(), FreeError>)
        requires
            old(self).wf(),
            old(self)@.is_allocated(object_addr),
        ensures
            final(self).wf(),
            old(self)@.free_outcome(final(self)@, object_addr, r is Ok),
            r is Ok ==> forall|a: usize|
                #[trigger] final(self)@.is_allocated(a) <==> (old(self)@.is_allocated(a) && a != object_addr),
            r is Err ==> forall|a: usize| #[trigger] final(self)@.is_allocated(a) == old(self)@.is_allocated(a),
            r is Ok ==> old(self)@.counters_after_release(object_addr, final(self)@.statistics),
            r is Err ==> final(self)@.statistics == old(self)@.statistics,
            !old(self)@.is_small_single_page() ==> (r is Ok <==> page_association(
                old(self)@.calls,
                old(self)@.page_of(object_addr),
            ) == Some(final(self)@.calls[old(self)@.calls.len() as int]->GetSlabInfoAddr_result)),
            crate::model::same_config(old(self)@, final(self)@),
    {
        let ghost v = self@;
        proof {
            lemma_holder_exists(v, object_addr);
            assert(v.slabs().contains(v.holder_slab(object_addr)) && v.holds(v.holder_slab(object_addr), object_addr));
        }
        let page_addr = align_down(object_addr, self.page_size);
        let (l, k) = self.locate(object_addr);
        let ghost mut c: Seq<BackendCall> = Seq::empty();
        let slab_info_addr = if self.object_size_type == ObjectSizeType::Small && self.slab_size
            == self.page_size {
            proof {
                let s = v.holder_slab(object_addr);
                assert(v.slab_wf(v.list(l)[k as int]));
                crate::proofs::lemma_slot_in_slab(v, s, object_addr);
                crate::proofs::lemma_page_of(s.slab_addr, object_addr, v.page_size);
            }
            calculate_slab_info_addr_in_small_object_cache(page_addr, self.slab_size)
        } else {
            let info = self.memory_backend.get_slab_info_addr(page_addr);
            let ghost call = BackendCall::GetSlabInfoAddr { page_addr, result: info };
            self.record(Ghost(call));
            proof {
                c = seq![call];
            }
            info
        };
        let ghost located = self@;
        proof {
            assert(located == v.log(c)) by {
                assert(v.calls + Seq::<BackendCall>::empty() =~= v.calls);
            }
            crate::backend::lemma_held_append_neutral(v.calls, c);
            crate::backend::lemma_held_info_append_neutral(v.calls, c);
            crate::backend::lemma_association_append_neutral(v.calls, c);
            lemma_log_neutral(v, c);
            crate::proofs::lemma_slot_in_slab(v, v.holder_slab(object_addr), object_addr);
            lemma_holder(located, object_addr, l, k as int);
        }
        if self.slab_info_addr_at(l, k) != slab_info_addr {
            return Err(FreeError::SlabInfoMismatch);
        }
        proof {
            lemma_release(located, object_addr);
            crate::proofs::lemma_released_counters(located, object_addr);
        }
        self.release(l, k, object_addr);
        Ok(())
    }
}

} // verus!
