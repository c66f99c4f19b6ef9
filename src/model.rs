//! The mathematical model of a cache: its slabs, lists, counters and backend calls, the
//! invariant that holds between operations, and what each operation does to the model.

use vstd::multiset::Multiset;
use vstd::prelude::*;

use crate::backend::{
    held_slab_infos, held_slabs, page_association, page_deletions, releases_only_held,
    releases_only_held_slab_infos, BackendCall,
};
use crate::cache::{CacheStatistics, ObjectSizeType, SlabInfo};

verus! {

/// What a cache knows of one slab.
pub ghost struct SlabView {
    pub slab_addr: usize,
    pub slab_info_addr: usize,
    /// The free objects, as a stack: the last one is handed out next.
    pub free_objects: Seq<usize>,
}

/// The three lists that hold a cache's slabs.
#[derive(Debug, Clone, Copy, PartialEq, Eq, Structural)]
pub enum SlabList {
    /// Slabs with free objects and fewer allocated ones than the occupancy threshold.
    Low,
    /// Slabs with free objects and at least as many allocated ones as the threshold.
    High,
    /// Slabs without free objects.
    Full,
}

/// The state of a cache, including every call it made on its memory backend.
pub ghost struct CacheView {
    pub object_size: usize,
    pub slab_size: usize,
    pub page_size: usize,
    pub object_size_type: ObjectSizeType,
    pub objects_per_slab: usize,
    /// The least number of allocated objects of a slab in the high-occupancy list.
    pub high_occupancy_minimum: usize,
    pub low: Seq<SlabView>,
    pub high: Seq<SlabView>,
    pub full: Seq<SlabView>,
    pub statistics: CacheStatistics,
    pub calls: Seq<BackendCall>,
}

/// Two slabs of `slab_size` bytes at `a` and `b` do not overlap.
pub open spec fn far_apart(a: usize, b: usize, slab_size: usize) -> bool {
    a + slab_size <= b || b + slab_size <= a
}

/// Address of the metadata record of a small-object slab at `slab_addr`: the highest
/// address aligned for a `SlabInfo` that leaves room for one before the slab's end.
pub open spec fn small_slab_info_addr(slab_addr: int, slab_size: int) -> int {
    let top = slab_addr + slab_size - vstd::layout::size_of::<SlabInfo>();
    top - top % (vstd::layout::align_of::<SlabInfo>() as int)
}

/// Where the metadata record of a small-object slab starting at address `0` stands: the
/// room that the slab's objects fit in.
pub open spec fn slab_info_offset(slab_size: int) -> int {
    small_slab_info_addr(0, slab_size)
}

/// How many objects of `object_size` bytes a slab of `slab_size` bytes holds.
pub open spec fn objects_per_slab_for(
    object_size_type: ObjectSizeType,
    slab_size: int,
    object_size: int,
) -> int {
    match object_size_type {
        ObjectSizeType::Small => slab_info_offset(slab_size) / object_size,
        ObjectSizeType::Large => slab_size / object_size,
    }
}

/// Three quarters of `objects_per_slab`, rounded down.
pub open spec fn high_occupancy_minimum_for(objects_per_slab: int) -> int {
    (75 * objects_per_slab) / 100
}

/// Sum of the free-object counts of a sequence of slabs.
pub open spec fn free_sum(s: Seq<SlabView>) -> int
    decreases s.len(),
{
    if s.len() == 0 {
        0
    } else {
        s[0].free_objects.len() + free_sum(s.drop_first())
    }
}

/// Two states of a cache with the same configuration.
pub open spec fn same_config(v: CacheView, w: CacheView) -> bool {
    &&& w.object_size == v.object_size
    &&& w.slab_size == v.slab_size
    &&& w.page_size == v.page_size
    &&& w.object_size_type == v.object_size_type
    &&& w.objects_per_slab == v.objects_per_slab
    &&& w.high_occupancy_minimum == v.high_occupancy_minimum
}

/// No two slabs have the same metadata address.
pub open spec fn slab_infos_distinct(m: Multiset<SlabView>) -> bool {
    forall|s: SlabView, t: SlabView|
        #![trigger m.contains(s), m.contains(t)]
        m.contains(s) && m.contains(t) && s != t ==> s.slab_info_addr != t.slab_info_addr
}

/// No slab occurs twice and any two slabs are apart.
pub open spec fn slabs_apart(m: Multiset<SlabView>, slab_size: usize) -> bool {
    &&& forall|s: SlabView| #[trigger] m.count(s) <= 1
    &&& forall|s: SlabView, t: SlabView|
        #![trigger m.contains(s), m.contains(t)]
        m.contains(s) && m.contains(t) && s != t ==> far_apart(s.slab_addr, t.slab_addr, slab_size)
}

impl SlabView {
    /// `a` is the address of one of the slab's object slots.
    pub open spec fn is_slot(self, object_size: usize, objects_per_slab: usize, a: usize) -> bool {
        &&& self.slab_addr <= a
        &&& a < self.slab_addr + objects_per_slab * object_size
        &&& (a - self.slab_addr) % (object_size as int) == 0
    }

    /// `a` is an object of this slab that is handed out.
    pub open spec fn holds(self, object_size: usize, objects_per_slab: usize, a: usize) -> bool {
        self.is_slot(object_size, objects_per_slab, a) && !self.free_objects.contains(a)
    }

    pub open spec fn allocated_objects(self, object_size: usize, objects_per_slab: usize) -> Set<usize> {
        Set::new(|a: usize| self.holds(object_size, objects_per_slab, a))
    }

    pub open spec fn with_free_objects(self, free_objects: Seq<usize>) -> SlabView {
        SlabView { free_objects, ..self }
    }
}

impl CacheView {
    /// Small objects in slabs of one page: the slab and its record follow from an object's
    /// address alone, and the backend keeps no page association.
    pub open spec fn is_small_single_page(self) -> bool {
        self.object_size_type == ObjectSizeType::Small && self.slab_size == self.page_size
    }

    pub open spec fn allocated_in(self, s: SlabView) -> int {
        self.objects_per_slab - s.free_objects.len()
    }

    pub open spec fn holds(self, s: SlabView, a: usize) -> bool {
        s.holds(self.object_size, self.objects_per_slab, a)
    }

    pub open spec fn list(self, l: SlabList) -> Seq<SlabView> {
        match l {
            SlabList::Low => self.low,
            SlabList::High => self.high,
            SlabList::Full => self.full,
        }
    }

    pub open spec fn with_list(self, l: SlabList, s: Seq<SlabView>) -> CacheView {
        match l {
            SlabList::Low => CacheView { low: s, ..self },
            SlabList::High => CacheView { high: s, ..self },
            SlabList::Full => CacheView { full: s, ..self },
        }
    }

    pub open spec fn log(self, c: Seq<BackendCall>) -> CacheView {
        CacheView { calls: self.calls + c, ..self }
    }

    /// Every slab of the cache, whichever list holds it.
    pub open spec fn slabs(self) -> Multiset<SlabView> {
        self.low.to_multiset().add(self.high.to_multiset()).add(self.full.to_multiset())
    }

    pub open spec fn slab_count(self) -> int {
        (self.low.len() + self.high.len() + self.full.len()) as int
    }

    /// `a` was handed out by the cache and not given back.
    pub open spec fn is_allocated(self, a: usize) -> bool {
        exists|s: SlabView| #[trigger] self.slabs().contains(s) && self.holds(s, a)
    }

    pub open spec fn has_slab_at(self, b: usize) -> bool {
        exists|s: SlabView| #[trigger] self.slabs().contains(s) && s.slab_addr == b
    }

    pub open spec fn config_wf(self) -> bool {
        &&& self.object_size > 0
        &&& self.page_size > 0
        &&& self.slab_size % self.page_size == 0
        &&& self.objects_per_slab > 0
        &&& self.objects_per_slab == objects_per_slab_for(
            self.object_size_type,
            self.slab_size as int,
            self.object_size as int,
        )
        &&& self.high_occupancy_minimum == high_occupancy_minimum_for(self.objects_per_slab as int)
        &&& self.objects_per_slab * self.object_size <= self.slab_size
        &&& self.object_size_type == ObjectSizeType::Small ==> {
            &&& vstd::layout::size_of::<SlabInfo>() <= self.slab_size
            &&& vstd::layout::align_of::<SlabInfo>() > 0
            &&& self.objects_per_slab * self.object_size <= slab_info_offset(self.slab_size as int)
            &&& slab_info_offset(self.slab_size as int) <= self.slab_size
        }
    }

    pub open spec fn slab_wf(self, s: SlabView) -> bool {
        &&& s.slab_addr > 0
        &&& s.slab_addr % self.page_size == 0
        &&& s.slab_addr + self.slab_size <= usize::MAX
        &&& if self.object_size_type == ObjectSizeType::Small {
            s.slab_info_addr == small_slab_info_addr(s.slab_addr as int, self.slab_size as int)
        } else {
            s.slab_info_addr != 0
        }
        &&& s.free_objects.len() <= self.objects_per_slab
        &&& s.free_objects.no_duplicates()
        &&& forall|i: int|
            0 <= i < s.free_objects.len() ==> s.is_slot(
                self.object_size,
                self.objects_per_slab,
                #[trigger] s.free_objects[i],
            )
        &&& s.allocated_objects(self.object_size, self.objects_per_slab).finite()
        &&& s.allocated_objects(self.object_size, self.objects_per_slab).len() == self.allocated_in(s)
    }

    /// The occupancy rule of each list; a slab that nothing was taken from yet may stand in
    /// the low list.
    pub open spec fn fits_list(self, s: SlabView, l: SlabList) -> bool {
        match l {
            SlabList::Low => self.allocated_in(s) == 0 || self.allocated_in(s)
                < self.high_occupancy_minimum,
            SlabList::High => self.high_occupancy_minimum <= self.allocated_in(s)
                < self.objects_per_slab,
            SlabList::Full => self.allocated_in(s) == self.objects_per_slab,
        }
    }

    pub open spec fn list_wf(self, l: SlabList) -> bool {
        forall|i: int|
            0 <= i < self.list(l).len() ==> self.slab_wf(#[trigger] self.list(l)[i]) && self.fits_list(
                self.list(l)[i],
                l,
            )
    }

    pub open spec fn statistics_wf(self) -> bool {
        &&& self.statistics.free_slabs_number == self.low.len() + self.high.len()
        &&& self.statistics.full_slabs_number == self.full.len()
        &&& self.statistics.free_objects_number == free_sum(self.low) + free_sum(self.high)
        &&& self.statistics.allocated_objects_number == self.slab_count() * self.objects_per_slab
            - free_sum(self.low) - free_sum(self.high)
    }

    /// The slabs that the backend handed out and did not get back are exactly the cache's.
    pub open spec fn backend_wf(self) -> bool {
        &&& releases_only_held(self.calls)
        &&& forall|b: usize|
            #[trigger] held_slabs(self.calls).count(b) == if self.has_slab_at(b) {
                1nat
            } else {
                0nat
            }
    }

    pub open spec fn has_slab_info_at(self, i: usize) -> bool {
        exists|s: SlabView| #[trigger] self.slabs().contains(s) && s.slab_info_addr == i
    }

    /// For large objects, the metadata storage that the backend handed out and did not get
    /// back is exactly that of the cache's slabs; for small objects there is none.
    pub open spec fn slab_info_wf(self) -> bool {
        &&& releases_only_held_slab_infos(self.calls)
        &&& forall|i: usize|
            #[trigger] held_slab_infos(self.calls).count(i) == if self.object_size_type
                == ObjectSizeType::Large && self.has_slab_info_at(i) {
                1nat
            } else {
                0nat
            }
        &&& self.object_size_type == ObjectSizeType::Large ==> slab_infos_distinct(self.slabs())
    }

    /// The page that holds address `a`.
    pub open spec fn page_of(self, a: usize) -> usize {
        (a - a % self.page_size) as usize
    }

    /// Outside one-page slabs of small objects, the page of every allocated object is
    /// associated, in the call history, with the metadata address of the slab that holds it.
    pub open spec fn associations_wf(self) -> bool {
        !self.is_small_single_page() ==> forall|s: SlabView, a: usize|
            #![trigger self.slabs().contains(s), self.holds(s, a)]
            self.slabs().contains(s) && self.holds(s, a) ==> page_association(
                self.calls,
                self.page_of(a),
            ) == Some(s.slab_info_addr)
    }

    /// Everything but the rule that each slab has an allocated object.
    pub open spec fn inner_wf(self) -> bool {
        &&& self.config_wf()
        &&& self.list_wf(SlabList::Low)
        &&& self.list_wf(SlabList::High)
        &&& self.list_wf(SlabList::Full)
        &&& slabs_apart(self.slabs(), self.slab_size)
        &&& self.slab_count() * self.slab_size <= usize::MAX
        &&& self.statistics_wf()
        &&& self.backend_wf()
        &&& self.slab_info_wf()
        &&& self.associations_wf()
    }

    /// The invariant of a cache between two operations.
    pub open spec fn wf(self) -> bool {
        &&& self.inner_wf()
        &&& forall|i: int| 0 <= i < self.low.len() ==> self.allocated_in(#[trigger] self.low[i]) >= 1
        &&& forall|i: int| 0 <= i < self.high.len() ==> self.allocated_in(#[trigger] self.high[i]) >= 1
    }
}

impl CacheView {
    /// A cache without slabs, before any call on its backend.
    pub open spec fn initial(
        object_size: usize,
        slab_size: usize,
        page_size: usize,
        object_size_type: ObjectSizeType,
        objects_per_slab: usize,
    ) -> CacheView {
        CacheView {
            object_size,
            slab_size,
            page_size,
            object_size_type,
            objects_per_slab,
            high_occupancy_minimum: high_occupancy_minimum_for(objects_per_slab as int) as usize,
            low: Seq::empty(),
            high: Seq::empty(),
            full: Seq::empty(),
            statistics: CacheStatistics {
                free_slabs_number: 0,
                full_slabs_number: 0,
                free_objects_number: 0,
                allocated_objects_number: 0,
            },
            calls: Seq::empty(),
        }
    }

    /// A new slab at `slab_addr` can be used: it is page-aligned, ends in the address
    /// space, overlaps no slab of the cache, and the slab count stays within bounds.
    pub open spec fn slab_usable(self, slab_addr: usize) -> bool {
        &&& slab_addr != 0
        &&& slab_addr % self.page_size == 0
        &&& slab_addr + self.slab_size <= usize::MAX
        &&& (self.slab_count() + 1) * self.slab_size <= usize::MAX
        &&& forall|t: SlabView|
            #[trigger] self.slabs().contains(t) ==> far_apart(t.slab_addr, slab_addr, self.slab_size)
    }

    /// The slab that a fresh region becomes: every object free, the first one on top of the
    /// stack last.
    pub open spec fn fresh_slab(self, slab_addr: usize, slab_info_addr: usize) -> SlabView {
        SlabView {
            slab_addr,
            slab_info_addr,
            free_objects: Seq::new(
                self.objects_per_slab as nat,
                |i: int| (slab_addr + i * self.object_size) as usize,
            ),
        }
    }

    /// The cache once a fresh slab is appended to the low-occupancy list.
    pub open spec fn with_new_slab(self, slab_addr: usize, slab_info_addr: usize) -> CacheView {
        CacheView {
            low: self.low.push(self.fresh_slab(slab_addr, slab_info_addr)),
            statistics: CacheStatistics {
                free_slabs_number: (self.statistics.free_slabs_number + 1) as usize,
                free_objects_number: (self.statistics.free_objects_number
                    + self.objects_per_slab) as usize,
                ..self.statistics
            },
            ..self
        }
    }

    /// The list an object is taken from: high occupancy first.
    pub open spec fn chosen_list(self) -> SlabList {
        if self.high.len() > 0 {
            SlabList::High
        } else {
            SlabList::Low
        }
    }

    /// The slab an object is taken from: the front of the chosen list.
    pub open spec fn chosen(self) -> SlabView {
        self.list(self.chosen_list())[0]
    }

    /// The object handed out next.
    pub open spec fn taken(self) -> usize {
        self.chosen().free_objects.last()
    }

    /// The page association recorded when an object is handed out; not needed where the
    /// slab follows from the address, nor for a one-page slab that had two objects out.
    pub open spec fn save_calls(self) -> Seq<BackendCall> {
        let s = self.chosen();
        let r = self.taken();
        if self.is_small_single_page() || (self.slab_size == self.page_size && self.allocated_in(s)
            >= 2) {
            Seq::empty()
        } else {
            seq![
                BackendCall::SaveSlabInfoAddr {
                    page_addr: (r - r % self.page_size) as usize,
                    slab_info_addr: s.slab_info_addr,
                },
            ]
        }
    }

    /// The cache once the object `taken()` is handed out: a slab that runs out of free
    /// objects goes to the back of the full list, one that reaches the occupancy threshold
    /// goes to the front of the high-occupancy list.
    pub open spec fn after_take(self) -> CacheView {
        let l = self.chosen_list();
        let s = self.chosen().with_free_objects(self.chosen().free_objects.drop_last());
        let now_full = s.free_objects.len() == 0;
        let moved = if now_full {
            self.with_list(l, self.list(l).drop_first()).with_list(SlabList::Full, self.full.push(s))
        } else if l == SlabList::Low && self.allocated_in(s) >= self.high_occupancy_minimum {
            self.with_list(SlabList::Low, self.low.drop_first()).with_list(
                SlabList::High,
                self.high.insert(0, s),
            )
        } else {
            self.with_list(l, self.list(l).update(0, s))
        };
        CacheView {
            statistics: CacheStatistics {
                free_slabs_number: if now_full {
                    (self.statistics.free_slabs_number - 1) as usize
                } else {
                    self.statistics.free_slabs_number
                },
                full_slabs_number: if now_full {
                    (self.statistics.full_slabs_number + 1) as usize
                } else {
                    self.statistics.full_slabs_number
                },
                free_objects_number: (self.statistics.free_objects_number - 1) as usize,
                allocated_objects_number: (self.statistics.allocated_objects_number + 1) as usize,
            },
            calls: self.calls + self.save_calls(),
            ..moved
        }
    }

    /// What `allocate` does, given the answers of the backend as its call history records them.
    pub open spec fn alloc_outcome(self, new: CacheView, r: usize) -> bool {
        let n = self.calls.len() as int;
        if self.low.len() > 0 || self.high.len() > 0 {
            new == self.after_take() && r == self.taken()
        } else if new.calls.len() <= n {
            false
        } else {
            match new.calls[n] {
                BackendCall::AllocSlab { slab_size, page_size, result } => {
                    let v1 = self.log(seq![new.calls[n]]);
                    let give_back = seq![
                        BackendCall::FreeSlab {
                            slab_addr: result,
                            slab_size: self.slab_size,
                            page_size: self.page_size,
                        },
                    ];
                    if slab_size != self.slab_size || page_size != self.page_size {
                        false
                    } else if result == 0 {
                        new == v1 && r == 0
                    } else if !self.slab_usable(result) {
                        new == v1.log(give_back) && r == 0
                    } else if self.object_size_type == ObjectSizeType::Small {
                        let v2 = v1.with_new_slab(
                            result,
                            small_slab_info_addr(result as int, self.slab_size as int) as usize,
                        );
                        new == v2.after_take() && r == v2.taken()
                    } else if new.calls.len() <= n + 1 {
                        false
                    } else {
                        match new.calls[n + 1] {
                            BackendCall::AllocSlabInfo { result: info } => {
                                let v2 = v1.log(seq![new.calls[n + 1]]);
                                if info == 0 {
                                    new == v2.log(give_back) && r == 0
                                } else if self.has_slab_info_at(info) {
                                    new == v2.log(
                                        seq![BackendCall::FreeSlabInfo { slab_info_addr: info }]
                                            + give_back,
                                    ) && r == 0
                                } else {
                                    let v3 = v2.with_new_slab(result, info);
                                    new == v3.after_take() && r == v3.taken()
                                }
                            },
                            _ => false,
                        }
                    }
                },
                _ => false,
            }
        }
    }

    /// Where the slab that holds the allocated object `a` stands.
    pub open spec fn holder(self, a: usize) -> (SlabList, int) {
        choose|l: SlabList, k: int| 0 <= k < self.list(l).len() && self.holds(#[trigger] self.list(l)[k], a)
    }

    pub open spec fn holder_slab(self, a: usize) -> SlabView {
        self.list(self.holder(a).0)[self.holder(a).1]
    }

    /// The calls that give an empty slab back to the backend.
    pub open spec fn reclaim_calls(self, s: SlabView) -> Seq<BackendCall> {
        let slab = seq![
            BackendCall::FreeSlab {
                slab_addr: s.slab_addr,
                slab_size: self.slab_size,
                page_size: self.page_size,
            },
        ];
        let info = if self.object_size_type == ObjectSizeType::Large {
            seq![BackendCall::FreeSlabInfo { slab_info_addr: s.slab_info_addr }]
        } else {
            Seq::empty()
        };
        let pages = if self.is_small_single_page() {
            Seq::empty()
        } else {
            page_deletions(s.slab_addr, self.page_size, (self.slab_size / self.page_size) as nat)
        };
        slab + info + pages
    }

    /// The cache once the allocated object `a` is given back: a slab that had no free
    /// object goes to the front of the high-occupancy list, one that falls under the
    /// threshold goes to the front of the low-occupancy list, and one with no allocated
    /// object left goes back to the backend.
    pub open spec fn released(self, a: usize) -> CacheView {
        let l = self.holder(a).0;
        let k = self.holder(a).1;
        let s = self.list(l)[k];
        let s2 = s.with_free_objects(s.free_objects.push(a));
        let left = self.allocated_in(s2);
        let without = self.with_list(l, self.list(l).remove(k));
        if left == 0 {
            CacheView {
                statistics: CacheStatistics {
                    free_slabs_number: if l == SlabList::Full {
                        self.statistics.free_slabs_number
                    } else {
                        (self.statistics.free_slabs_number - 1) as usize
                    },
                    full_slabs_number: if l == SlabList::Full {
                        (self.statistics.full_slabs_number - 1) as usize
                    } else {
                        self.statistics.full_slabs_number
                    },
                    free_objects_number: (self.statistics.free_objects_number
                        - s.free_objects.len()) as usize,
                    allocated_objects_number: (self.statistics.allocated_objects_number
                        - 1) as usize,
                },
                calls: self.calls + self.reclaim_calls(s),
                ..without
            }
        } else {
            let dest = if left >= self.high_occupancy_minimum {
                SlabList::High
            } else {
                SlabList::Low
            };
            let moved = if l == SlabList::Full || (l == SlabList::High && dest == SlabList::Low) {
                without.with_list(dest, without.list(dest).insert(0, s2))
            } else {
                self.with_list(l, self.list(l).update(k, s2))
            };
            CacheView {
                statistics: CacheStatistics {
                    free_slabs_number: if l == SlabList::Full {
                        (self.statistics.free_slabs_number + 1) as usize
                    } else {
                        self.statistics.free_slabs_number
                    },
                    full_slabs_number: if l == SlabList::Full {
                        (self.statistics.full_slabs_number - 1) as usize
                    } else {
                        self.statistics.full_slabs_number
                    },
                    free_objects_number: (self.statistics.free_objects_number + 1) as usize,
                    allocated_objects_number: (self.statistics.allocated_objects_number
                        - 1) as usize,
                },
                ..moved
            }
        }
    }

    /// What `free` does with the allocated object `a`, given the backend's answer as its
    /// call history records it: the object is given back exactly when the metadata
    /// address that locates its slab is the slab's own.
    pub open spec fn free_outcome(self, new: CacheView, a: usize, ok: bool) -> bool {
        let n = self.calls.len() as int;
        if self.is_small_single_page() {
            ok && new == self.released(a)
        } else if new.calls.len() <= n {
            false
        } else {
            match new.calls[n] {
                BackendCall::GetSlabInfoAddr { page_addr, result } => {
                    let v1 = self.log(seq![new.calls[n]]);
                    &&& page_addr == a - a % self.page_size
                    &&& ok == (result == self.holder_slab(a).slab_info_addr)
                    &&& ok ==> new == v1.released(a)
                    &&& !ok ==> new == v1
                },
                _ => false,
            }
        }
    }

    /// The counters once the allocated object `a` is given back, as `st`: one object fewer
    /// out, one more free; its slab leaves the full list if it stood there; and if `a` was
    /// the slab's last object out, the slab and its free objects leave the counts.
    pub open spec fn counters_after_release(self, a: usize, st: CacheStatistics) -> bool {
        let s = self.holder_slab(a);
        let n = self.objects_per_slab as int;
        let was_full = self.allocated_in(s) == n;
        let emptied = self.allocated_in(s) == 1;
        let old = self.statistics;
        &&& st.allocated_objects_number == old.allocated_objects_number - 1
        &&& st.free_objects_number == old.free_objects_number + 1 - if emptied {
            n
        } else {
            0
        }
        &&& st.full_slabs_number == old.full_slabs_number - if was_full {
            1int
        } else {
            0
        }
        &&& st.free_slabs_number == old.free_slabs_number + (if was_full {
            1int
        } else {
            0
        }) - (if emptied {
            1int
        } else {
            0
        })
    }
}

} // verus!
