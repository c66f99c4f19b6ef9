use std::cell::Cell;
use std::collections::HashMap;

use rand::seq::SliceRandom;
use rand::thread_rng;
use slab_allocator::{
    align_down, calculate_slab_info_addr_in_small_object_cache, Cache, CacheError, FreeError,
    MemoryBackend, ObjectSizeType, SlabInfo,
};

/// A backend that hands out addresses and records every call it gets.
struct RecordingBackend {
    page_size: usize,
    next_slab_addr: usize,
    next_slab_info_addr: usize,
    held_slabs: Vec<usize>,
    held_slab_infos: Vec<usize>,
    saved: HashMap<usize, usize>,
    freed_slabs: Vec<usize>,
    freed_slab_infos: Vec<usize>,
    save_calls: usize,
    deleted_pages: Vec<usize>,
    /// Addresses handed out by `alloc_slab` before the counter takes over.
    scripted_slabs: Vec<usize>,
    /// Addresses handed out by `alloc_slab_info` before the counter takes over.
    scripted_slab_infos: Vec<usize>,
    /// Number of `alloc_slab_info` calls still to fail.
    failing_slab_infos: usize,
    /// Answer of `get_slab_info_addr` in place of the recorded association.
    forced_lookup: Cell<Option<usize>>,
}

impl RecordingBackend {
    fn new(page_size: usize) -> Self {
        RecordingBackend {
            page_size,
            next_slab_addr: 0x40_0000,
            next_slab_info_addr: 0x9000_0000,
            held_slabs: Vec::new(),
            held_slab_infos: Vec::new(),
            saved: HashMap::new(),
            freed_slabs: Vec::new(),
            freed_slab_infos: Vec::new(),
            save_calls: 0,
            deleted_pages: Vec::new(),
            scripted_slabs: Vec::new(),
            scripted_slab_infos: Vec::new(),
            failing_slab_infos: 0,
            forced_lookup: Cell::new(None),
        }
    }
}

impl MemoryBackend for RecordingBackend {
    fn alloc_slab(&mut self, slab_size: usize, page_size: usize) -> usize {
        assert_eq!(page_size, self.page_size);
        let addr = if self.scripted_slabs.is_empty() {
            let addr = self.next_slab_addr;
            self.next_slab_addr += 2 * slab_size;
            addr
        } else {
            self.scripted_slabs.remove(0)
        };
        if addr != 0 {
            self.held_slabs.push(addr);
        }
        addr
    }

    fn free_slab(&mut self, slab_addr: usize, _slab_size: usize, _page_size: usize) {
        let position = self.held_slabs.iter().position(|a| *a == slab_addr).unwrap();
        self.held_slabs.remove(position);
        self.freed_slabs.push(slab_addr);
    }

    fn alloc_slab_info(&mut self) -> usize {
        if self.failing_slab_infos > 0 {
            self.failing_slab_infos -= 1;
            return 0;
        }
        let addr = if self.scripted_slab_infos.is_empty() {
            let addr = self.next_slab_info_addr;
            self.next_slab_info_addr += 64;
            addr
        } else {
            self.scripted_slab_infos.remove(0)
        };
        self.held_slab_infos.push(addr);
        addr
    }

    fn free_slab_info(&mut self, slab_info_addr: usize) {
        let position = self.held_slab_infos.iter().position(|a| *a == slab_info_addr).unwrap();
        self.held_slab_infos.remove(position);
        self.freed_slab_infos.push(slab_info_addr);
    }

    fn save_slab_info_addr(&mut self, object_page_addr: usize, slab_info_addr: usize) {
        assert_eq!(object_page_addr % self.page_size, 0);
        self.save_calls += 1;
        self.saved.insert(object_page_addr, slab_info_addr);
    }

    fn get_slab_info_addr(&mut self, object_page_addr: usize) -> usize {
        match self.forced_lookup.get() {
            Some(addr) => addr,
            None => *self.saved.get(&object_page_addr).unwrap(),
        }
    }

    fn delete_slab_info_addr(&mut self, page_addr: usize) {
        self.saved.remove(&page_addr);
        self.deleted_pages.push(page_addr);
    }
}

#[allow(dead_code)]
struct Object32 {
    a: [u64; 4],
}

#[allow(dead_code)]
struct Object512 {
    a: [u64; 64],
}

#[allow(dead_code)]
struct Object1024 {
    a: [u64; 128],
}

#[allow(dead_code)]
struct Object2048 {
    a: [u64; 256],
}

#[allow(dead_code)]
struct Object4096 {
    a: [u64; 512],
}

fn lists<T>(cache: &Cache<T, RecordingBackend>) -> (usize, usize, usize) {
    (
        cache.free_slabs_list_occupacy_less_75().len(),
        cache.free_slabs_list_occupacy_more_75().len(),
        cache.full_slabs_list().len(),
    )
}

#[test]
fn small_single_page_round_trip() {
    let mut cache: Cache<Object1024, RecordingBackend> =
        Cache::new(4096, 4096, ObjectSizeType::Small, RecordingBackend::new(4096)).unwrap();
    assert_eq!(cache.objects_per_slab(), 3);
    let mut objects = Vec::new();
    for _ in 0..9 {
        let addr = cache.allocate();
        assert_ne!(addr, 0);
        objects.push(addr);
    }
    assert_eq!(lists(&cache), (0, 0, 3));
    assert_eq!(cache.cache_statistics().free_slabs_number, 0);
    assert_eq!(cache.cache_statistics().full_slabs_number, 3);
    assert_eq!(cache.memory_backend().held_slabs.len(), 3);
    objects.shuffle(&mut thread_rng());
    for addr in objects {
        assert_eq!(cache.free(addr), Ok(()));
    }
    assert_eq!(lists(&cache), (0, 0, 0));
    assert!(cache.memory_backend().held_slabs.is_empty());
    assert_eq!(cache.memory_backend().freed_slabs.len(), 3);
    // one-page slabs of small objects need no page association
    assert_eq!(cache.memory_backend().save_calls, 0);
    assert!(cache.memory_backend().deleted_pages.is_empty());
}

#[test]
fn slab_reenters_high_list_at_front() {
    let mut cache: Cache<Object512, RecordingBackend> =
        Cache::new(4096, 4096, ObjectSizeType::Large, RecordingBackend::new(4096)).unwrap();
    assert_eq!(cache.objects_per_slab(), 8);
    assert_eq!(cache.occupacy_more_75_minimum_allocated_objects_number(), 6);

    // six objects of eight (three quarters, rounded up) put the slab in the high list
    let mut first = Vec::new();
    for _ in 0..6 {
        first.push(cache.allocate());
    }
    assert_eq!(lists(&cache), (0, 1, 0));
    let first_slab = cache.free_slabs_list_occupacy_more_75()[0].slab_addr();
    // the rest fill it
    for _ in 0..2 {
        first.push(cache.allocate());
    }
    assert_eq!(lists(&cache), (0, 0, 1));

    // a second slab reaches the high list
    for _ in 0..6 {
        assert_ne!(cache.allocate(), 0);
    }
    assert_eq!(lists(&cache), (0, 1, 1));
    let second_slab = cache.free_slabs_list_occupacy_more_75()[0].slab_addr();
    assert_ne!(first_slab, second_slab);

    // freeing one object of the full slab puts it at the front of the high list
    assert_eq!(cache.free(first[3]), Ok(()));
    assert_eq!(lists(&cache), (0, 2, 0));
    assert_eq!(cache.free_slabs_list_occupacy_more_75()[0].slab_addr(), first_slab);
    assert_eq!(cache.free_slabs_list_occupacy_more_75()[1].slab_addr(), second_slab);

    // and the next object comes from it
    assert_eq!(cache.allocate(), first[3]);
}

#[test]
fn failed_slab_info_gives_slab_back() {
    let mut backend = RecordingBackend::new(4096);
    backend.failing_slab_infos = 1;
    let mut cache: Cache<Object512, RecordingBackend> =
        Cache::new(4096, 4096, ObjectSizeType::Large, backend).unwrap();
    assert_eq!(cache.allocate(), 0);
    assert_eq!(cache.memory_backend().freed_slabs, vec![0x40_0000]);
    assert!(cache.memory_backend().held_slabs.is_empty());
    assert_eq!(lists(&cache), (0, 0, 0));
    assert_eq!(cache.cache_statistics().allocated_objects_number, 0);
    // the next attempt succeeds
    let addr = cache.allocate();
    assert_ne!(addr, 0);
    assert_eq!(cache.memory_backend().freed_slabs.len(), 1);
    assert_eq!(cache.memory_backend().held_slab_infos.len(), 1);
}

#[test]
fn no_slab_gives_null() {
    let mut backend = RecordingBackend::new(4096);
    backend.scripted_slabs = vec![0];
    let mut cache: Cache<Object512, RecordingBackend> =
        Cache::new(4096, 4096, ObjectSizeType::Small, backend).unwrap();
    assert_eq!(cache.allocate(), 0);
    assert!(cache.memory_backend().freed_slabs.is_empty());
    assert_eq!(lists(&cache), (0, 0, 0));
}

#[test]
fn unusable_slabs_are_given_back() {
    let mut backend = RecordingBackend::new(4096);
    // misaligned, then the same slab twice
    backend.scripted_slabs = vec![0x10_0001, 0x20_0000, 0x20_1000];
    let mut cache: Cache<Object2048, RecordingBackend> =
        Cache::new(8192, 4096, ObjectSizeType::Large, backend).unwrap();
    assert_eq!(cache.objects_per_slab(), 4);
    assert_eq!(cache.allocate(), 0);
    assert_eq!(cache.memory_backend().freed_slabs, vec![0x10_0001]);
    assert!(cache.memory_backend().held_slab_infos.is_empty());
    // a slab at 0x20_0000 fills
    for _ in 0..4 {
        assert_ne!(cache.allocate(), 0);
    }
    assert_eq!(lists(&cache), (0, 0, 1));
    // 0x20_1000 overlaps it
    assert_eq!(cache.allocate(), 0);
    assert_eq!(cache.memory_backend().freed_slabs, vec![0x10_0001, 0x20_1000]);
    assert_eq!(cache.memory_backend().held_slabs, vec![0x20_0000]);
}

#[test]
fn configuration_errors() {
    let backend = || RecordingBackend::new(4096);
    assert_eq!(
        Cache::<u64, RecordingBackend>::new(4096, 4096, ObjectSizeType::Small, backend()).err(),
        Some(CacheError::ObjectTooSmall)
    );
    assert_eq!(
        Cache::<Object1024, RecordingBackend>::new(1024, 1024, ObjectSizeType::Small, backend()).err(),
        Some(CacheError::SlabTooSmall)
    );
    assert_eq!(
        Cache::<Object32, RecordingBackend>::new(6144, 2048, ObjectSizeType::Large, backend()).err(),
        Some(CacheError::SlabSizeNotPowerOfTwo)
    );
    assert_eq!(
        Cache::<Object32, RecordingBackend>::new(4096, 8192, ObjectSizeType::Large, backend()).err(),
        Some(CacheError::SlabNotMadeOfPages)
    );
    assert_eq!(
        Cache::<Object32, RecordingBackend>::new(4096, 0, ObjectSizeType::Large, backend()).err(),
        Some(CacheError::SlabNotMadeOfPages)
    );
    assert_eq!(
        Cache::<i128, RecordingBackend>::new(4096, 8, ObjectSizeType::Large, backend()).err(),
        Some(CacheError::TypeCannotBeAligned)
    );
    assert_eq!(
        Cache::<Object2048, RecordingBackend>::new(1024, 1024, ObjectSizeType::Large, backend()).err(),
        Some(CacheError::NoRoomForObjects)
    );
    // the first rule broken is the one reported
    assert_eq!(
        Cache::<u64, RecordingBackend>::new(6144, 8192, ObjectSizeType::Large, backend()).err(),
        Some(CacheError::ObjectTooSmall)
    );
}

#[test]
fn capacity_of_small_slabs() {
    let info_size = std::mem::size_of::<SlabInfo>();
    let info_align = std::mem::align_of::<SlabInfo>();
    let offset = (4096 - info_size) / info_align * info_align;
    assert_eq!(calculate_slab_info_addr_in_small_object_cache(0x8000, 4096), 0x8000 + offset);
    let cache: Cache<Object32, RecordingBackend> =
        Cache::new(4096, 4096, ObjectSizeType::Small, RecordingBackend::new(4096)).unwrap();
    assert_eq!(cache.objects_per_slab(), offset / 32);
    assert!(cache.objects_per_slab() * 32 <= offset);
    assert!((cache.objects_per_slab() + 1) * 32 > offset);
    assert_eq!(cache.object_size(), 32);
    assert_eq!(cache.slab_size(), 4096);
    assert_eq!(cache.page_size(), 4096);
    assert_eq!(cache.object_size_type(), ObjectSizeType::Small);
}

#[test]
fn occupancy_threshold_values() {
    let c73: Cache<[u64; 7], RecordingBackend> =
        Cache::new(4096, 4096, ObjectSizeType::Large, RecordingBackend::new(4096)).unwrap();
    assert_eq!(c73.objects_per_slab(), 73);
    assert_eq!(c73.occupacy_more_75_minimum_allocated_objects_number(), 54);
    let c3: Cache<Object1024, RecordingBackend> =
        Cache::new(4096, 4096, ObjectSizeType::Small, RecordingBackend::new(4096)).unwrap();
    assert_eq!(c3.occupacy_more_75_minimum_allocated_objects_number(), 2);
}

#[test]
fn align_down_values() {
    assert_eq!(align_down(0x1234, 0x1000), 0x1000);
    assert_eq!(align_down(4095, 4096), 0);
    assert_eq!(align_down(8192, 4096), 8192);
    assert_eq!(align_down(10, 3), 9);
    assert_eq!(align_down(usize::MAX, 8), usize::MAX - 7);
}

#[test]
fn mismatched_slab_info_keeps_object() {
    let mut cache: Cache<Object512, RecordingBackend> =
        Cache::new(8192, 4096, ObjectSizeType::Small, RecordingBackend::new(4096)).unwrap();
    let a = cache.allocate();
    let b = cache.allocate();
    assert_ne!(a, 0);
    assert_ne!(b, 0);
    let before = cache.cache_statistics();
    cache.memory_backend().forced_lookup.set(Some(0xdead_0000));
    assert_eq!(cache.free(a), Err(FreeError::SlabInfoMismatch));
    assert_eq!(cache.cache_statistics(), before);
    cache.memory_backend().forced_lookup.set(None);
    assert_eq!(cache.free(a), Ok(()));
    assert_eq!(cache.free(b), Ok(()));
    assert_eq!(lists(&cache), (0, 0, 0));
}

#[test]
fn one_object_per_slab() {
    let mut cache: Cache<Object4096, RecordingBackend> =
        Cache::new(4096, 4096, ObjectSizeType::Large, RecordingBackend::new(4096)).unwrap();
    assert_eq!(cache.objects_per_slab(), 1);
    assert_eq!(cache.occupacy_more_75_minimum_allocated_objects_number(), 0);
    let a = cache.allocate();
    let b = cache.allocate();
    assert_ne!(a, 0);
    assert_ne!(b, 0);
    assert_ne!(a, b);
    assert_eq!(lists(&cache), (0, 0, 2));
    assert_eq!(cache.free(a), Ok(()));
    assert_eq!(lists(&cache), (0, 0, 1));
    assert_eq!(cache.memory_backend().freed_slabs, vec![a]);
    assert_eq!(cache.free(b), Ok(()));
    assert!(cache.memory_backend().held_slabs.is_empty());
    assert!(cache.memory_backend().held_slab_infos.is_empty());
}

#[test]
fn page_associations_of_one_page_large_slabs() {
    let mut cache: Cache<Object512, RecordingBackend> =
        Cache::new(4096, 4096, ObjectSizeType::Large, RecordingBackend::new(4096)).unwrap();
    let mut objects = Vec::new();
    // the first two objects record the page; later ones find it recorded
    for _ in 0..5 {
        objects.push(cache.allocate());
    }
    assert_eq!(cache.memory_backend().save_calls, 2);
    let slab = cache.memory_backend().held_slabs[0];
    let info = cache.memory_backend().held_slab_infos[0];
    assert_eq!(cache.memory_backend().saved.get(&slab), Some(&info));
    for addr in objects {
        assert_eq!(cache.free(addr), Ok(()));
    }
    assert_eq!(cache.memory_backend().freed_slab_infos, vec![info]);
    assert_eq!(cache.memory_backend().deleted_pages, vec![slab]);
    assert!(cache.memory_backend().saved.is_empty());
}

#[test]
fn page_associations_of_two_page_small_slabs() {
    let mut cache: Cache<Object512, RecordingBackend> =
        Cache::new(8192, 4096, ObjectSizeType::Small, RecordingBackend::new(4096)).unwrap();
    assert_eq!(cache.objects_per_slab(), 15);
    let mut objects = Vec::new();
    for _ in 0..15 {
        objects.push(cache.allocate());
    }
    // every allocation records its page
    assert_eq!(cache.memory_backend().save_calls, 15);
    let slab = cache.memory_backend().held_slabs[0];
    let info = calculate_slab_info_addr_in_small_object_cache(slab, 8192);
    assert_eq!(cache.memory_backend().saved.get(&slab), Some(&info));
    assert_eq!(cache.memory_backend().saved.get(&(slab + 4096)), Some(&info));
    for addr in objects {
        assert_eq!(cache.free(addr), Ok(()));
    }
    assert_eq!(cache.memory_backend().deleted_pages, vec![slab, slab + 4096]);
    assert!(cache.memory_backend().freed_slab_infos.is_empty());
}

#[test]
fn objects_are_slots_of_their_slab() {
    let mut cache: Cache<Object512, RecordingBackend> =
        Cache::new(8192, 4096, ObjectSizeType::Large, RecordingBackend::new(4096)).unwrap();
    let mut objects = Vec::new();
    for _ in 0..40 {
        objects.push(cache.allocate());
    }
    let slabs = cache.memory_backend().held_slabs.clone();
    for addr in objects.iter() {
        let slab = slabs.iter().find(|s| **s <= *addr && *addr < **s + 8192).unwrap();
        assert_eq!((addr - slab) % 512, 0);
    }
    let mut sorted = objects.clone();
    sorted.sort();
    sorted.dedup();
    assert_eq!(sorted.len(), objects.len());
}

#[test]
fn slab_info_of_unaligned_slab_is_aligned() {
    let size = std::mem::size_of::<SlabInfo>();
    let align = std::mem::align_of::<SlabInfo>();
    let top = 4 + 4096 - size;
    let expected = top / align * align;
    let r = calculate_slab_info_addr_in_small_object_cache(4, 4096);
    assert_eq!(r, expected);
    assert_eq!(r % align, 0);
    assert!(r + size <= 4 + 4096);
    assert!(4 + 4096 - r < size + align);
    if align > 4 {
        assert_ne!(r, 4 + (4096 - size) / align * align);
    }
}

#[test]
fn slab_info_in_use_is_given_back() {
    let mut backend = RecordingBackend::new(4096);
    backend.scripted_slab_infos = vec![0x5000, 0x5000];
    let mut cache: Cache<Object2048, RecordingBackend> =
        Cache::new(4096, 4096, ObjectSizeType::Large, backend).unwrap();
    assert_eq!(cache.objects_per_slab(), 2);
    let a = cache.allocate();
    let b = cache.allocate();
    assert_ne!(a, 0);
    assert_ne!(b, 0);
    assert_eq!(lists(&cache), (0, 0, 1));
    let first_slab = cache.memory_backend().held_slabs[0];
    // the second slab gets metadata storage that the first one uses
    assert_eq!(cache.allocate(), 0);
    assert_eq!(cache.memory_backend().freed_slab_infos, vec![0x5000]);
    assert_eq!(cache.memory_backend().held_slabs, vec![first_slab]);
    assert_eq!(cache.memory_backend().freed_slabs.len(), 1);
    assert_eq!(lists(&cache), (0, 0, 1));
    assert_eq!(cache.free(a), Ok(()));
    assert_eq!(cache.free(b), Ok(()));
    assert!(cache.memory_backend().held_slabs.is_empty());
    assert!(cache.memory_backend().held_slab_infos.is_empty());
}
