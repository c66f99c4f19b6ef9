use std::collections::{HashMap, HashSet};
use std::sync::{Mutex, OnceLock};

use rand::seq::SliceRandom;
use rand::{thread_rng, Rng};
use slab_allocator::{Cache, MemoryBackend, ObjectSizeType};

/// A backend that hands out addresses without memory behind them: the cache never
/// dereferences what it gets.
struct TestMemoryBackend {
    slab_size: usize,
    page_size: usize,
    next_slab_addr: usize,
    next_slab_info_addr: usize,
    allocated_slab_addrs: Vec<usize>,
    allocated_slab_info_addrs: Vec<usize>,
    ht_saved_slab_infos: HashMap<usize, usize>,
    ht_save_get_calls_counter: HashMap<usize, i64>,
    /// Large objects: the backend provides metadata storage.
    provides_slab_infos: bool,
    /// The backend keeps page associations.
    keeps_pages: bool,
    /// Every deleted page association must exist.
    strict_delete: bool,
    /// A metadata storage record must have a page association when it is released.
    strict_slab_info_release: bool,
}

impl TestMemoryBackend {
    fn new(slab_size: usize, page_size: usize, object_size_type: ObjectSizeType) -> Self {
        let provides_slab_infos = object_size_type == ObjectSizeType::Large;
        let keeps_pages = !(object_size_type == ObjectSizeType::Small && slab_size == page_size);
        TestMemoryBackend {
            slab_size,
            page_size,
            next_slab_addr: 0x100_0000,
            next_slab_info_addr: 0x7000_0000,
            allocated_slab_addrs: Vec::new(),
            allocated_slab_info_addrs: Vec::new(),
            ht_saved_slab_infos: HashMap::new(),
            ht_save_get_calls_counter: HashMap::new(),
            provides_slab_infos,
            keeps_pages,
            strict_delete: false,
            strict_slab_info_release: false,
        }
    }
}

impl MemoryBackend for TestMemoryBackend {
    fn alloc_slab(&mut self, slab_size: usize, page_size: usize) -> usize {
        assert_eq!(slab_size, self.slab_size);
        assert_eq!(page_size, self.page_size);
        let addr = self.next_slab_addr;
        self.next_slab_addr += slab_size + page_size;
        self.allocated_slab_addrs.push(addr);
        addr
    }

    fn free_slab(&mut self, slab_addr: usize, slab_size: usize, page_size: usize) {
        assert_eq!(slab_size, self.slab_size);
        assert_eq!(page_size, self.page_size);
        let position = self.allocated_slab_addrs.iter().position(|a| *a == slab_addr).unwrap();
        self.allocated_slab_addrs.remove(position);
    }

    fn alloc_slab_info(&mut self) -> usize {
        if !self.provides_slab_infos {
            unreachable!();
        }
        let addr = self.next_slab_info_addr;
        self.next_slab_info_addr += 64;
        self.allocated_slab_info_addrs.push(addr);
        addr
    }

    fn free_slab_info(&mut self, slab_info_addr: usize) {
        if !self.provides_slab_infos {
            unreachable!();
        }
        assert_ne!(slab_info_addr, 0);
        if self.strict_slab_info_release {
            assert!(self.ht_saved_slab_infos.values().any(|v| *v == slab_info_addr));
        }
        let position = self
            .allocated_slab_info_addrs
            .iter()
            .position(|a| *a == slab_info_addr)
            .unwrap();
        self.allocated_slab_info_addrs.remove(position);
    }

    fn save_slab_info_addr(&mut self, object_page_addr: usize, slab_info_addr: usize) {
        if !self.keeps_pages {
            unreachable!();
        }
        assert_ne!(slab_info_addr, 0);
        assert_eq!(object_page_addr % self.page_size, 0);
        self.ht_saved_slab_infos.insert(object_page_addr, slab_info_addr);
        *self.ht_save_get_calls_counter.entry(slab_info_addr).or_insert(0) += 1;
    }

    fn get_slab_info_addr(&mut self, object_page_addr: usize) -> usize {
        if !self.keeps_pages {
            unreachable!();
        }
        let slab_info_addr = *self.ht_saved_slab_infos.get(&object_page_addr).unwrap();
        *self.ht_save_get_calls_counter.get_mut(&slab_info_addr).unwrap() -= 1;
        slab_info_addr
    }

    fn delete_slab_info_addr(&mut self, page_addr: usize) {
        if !self.keeps_pages {
            unreachable!();
        }
        let removed = self.ht_saved_slab_infos.remove(&page_addr);
        if self.strict_delete {
            assert!(removed.is_some());
        }
    }
}

#[allow(dead_code)]
struct TestObjectType1024 {
    a: [u64; 1024 / 8],
}

#[allow(dead_code)]
struct TestObjectType56 {
    a: [u64; 56 / 8],
}

#[allow(dead_code)]
struct TestObjectType16 {
    a: [u64; 16 / 8],
}

#[allow(dead_code)]
struct TestObjectType512 {
    first_bytes: [u8; 128],
    ptr_address: u64,
    last_bytes: [u8; 376],
}

#[allow(dead_code)]
struct TestObjectType256 {
    first_bytes: [u8; 128],
    ptr_address: u64,
    last_bytes: [u8; 120],
}

fn free_list_lengths<T>(cache: &Cache<T, TestMemoryBackend>) -> (usize, usize, usize) {
    (
        cache.free_slabs_list_occupacy_less_75().len(),
        cache.free_slabs_list_occupacy_more_75().len(),
        cache.full_slabs_list().len(),
    )
}

/// The counters agree with the lists.
fn check_statistics<T>(cache: &Cache<T, TestMemoryBackend>, allocated: usize) {
    let statistics = cache.cache_statistics();
    assert_eq!(statistics.allocated_objects_number, allocated);
    let free_objects: usize = cache
        .free_slabs_list_occupacy_less_75()
        .iter()
        .chain(cache.free_slabs_list_occupacy_more_75().iter())
        .map(|s| s.free_objects_number())
        .sum();
    assert_eq!(statistics.free_objects_number, free_objects);
    assert_eq!(statistics.full_slabs_number, cache.full_slabs_list().len());
    assert_eq!(
        statistics.free_slabs_number,
        cache.free_slabs_list_occupacy_less_75().len() + cache.free_slabs_list_occupacy_more_75().len()
    );
}

/// Objects come from each slab from the last slot down, slab after slab.
fn check_allocation_order<T>(cache: &Cache<T, TestMemoryBackend>, allocated: &[usize]) {
    let objects_per_slab = cache.objects_per_slab();
    let mut obj_index_in_slab = objects_per_slab - 1;
    for (i, v) in allocated.iter().enumerate() {
        let slab_index = i / objects_per_slab;
        let object_addr = cache.memory_backend().allocated_slab_addrs[slab_index]
            + obj_index_in_slab * cache.object_size();
        if obj_index_in_slab == 0 {
            obj_index_in_slab = objects_per_slab - 1;
        } else {
            obj_index_in_slab -= 1;
        }
        assert_eq!(*v, object_addr);
    }
}

fn alloc_checked<T>(cache: &mut Cache<T, TestMemoryBackend>) -> usize {
    let addr = cache.allocate();
    assert_ne!(addr, 0);
    assert_eq!(addr % std::mem::align_of::<T>(), 0);
    addr
}

#[test]
fn can_be_used_as_static() {
    static CACHE: OnceLock<Mutex<Cache<i128, TestMemoryBackend>>> = OnceLock::new();
    let cache = CACHE.get_or_init(|| {
        let backend = TestMemoryBackend::new(4096, 4096, ObjectSizeType::Small);
        Mutex::new(Cache::new(4096, 4096, ObjectSizeType::Small, backend).unwrap())
    });
    let guard = cache.lock().unwrap();
    assert_eq!(guard.object_size(), 16);
}

#[test]
fn _00_alloc_only_small_ss_eq_ps() {
    const PAGE_SIZE: usize = 4096;
    const SLAB_SIZE: usize = 4096;
    const OBJECT_SIZE_TYPE: ObjectSizeType = ObjectSizeType::Small;
    assert_eq!(std::mem::size_of::<TestObjectType1024>(), 1024);
    let backend = TestMemoryBackend::new(SLAB_SIZE, PAGE_SIZE, OBJECT_SIZE_TYPE);
    let mut cache: Cache<TestObjectType1024, TestMemoryBackend> =
        Cache::new(SLAB_SIZE, PAGE_SIZE, OBJECT_SIZE_TYPE, backend).unwrap();
    assert_eq!(cache.objects_per_slab(), 3);

    let mut allocated = Vec::new();
    for _ in 0..7 {
        allocated.push(alloc_checked(&mut cache));
    }
    check_allocation_order(&cache, &allocated);

    assert_eq!(free_list_lengths(&cache), (1, 0, 2));
    assert_eq!(cache.free_slabs_list_occupacy_less_75().last().unwrap().free_objects_number(), 2);

    assert_ne!(cache.allocate(), 0);
    assert_ne!(cache.allocate(), 0);
    assert_eq!(free_list_lengths(&cache), (0, 0, 3));

    let statistics = cache.cache_statistics();
    assert_eq!(statistics.free_slabs_number, 0);
    assert_eq!(statistics.full_slabs_number, 3);
    assert_eq!(statistics.allocated_objects_number, 9);
    assert_eq!(statistics.free_objects_number, 0);
}

#[test]
fn _01_alloc_only_small_ss_neq_ps() {
    const PAGE_SIZE: usize = 4096;
    const SLAB_SIZE: usize = 8192;
    const OBJECT_SIZE_TYPE: ObjectSizeType = ObjectSizeType::Small;
    let backend = TestMemoryBackend::new(SLAB_SIZE, PAGE_SIZE, OBJECT_SIZE_TYPE);
    let mut cache: Cache<TestObjectType1024, TestMemoryBackend> =
        Cache::new(SLAB_SIZE, PAGE_SIZE, OBJECT_SIZE_TYPE, backend).unwrap();
    assert_eq!(cache.objects_per_slab(), 7);

    let mut allocated = Vec::new();
    for _ in 0..25 {
        allocated.push(alloc_checked(&mut cache));
    }
    check_allocation_order(&cache, &allocated);

    assert_eq!(free_list_lengths(&cache), (1, 0, 3));
    assert_eq!(cache.free_slabs_list_occupacy_less_75().last().unwrap().free_objects_number(), 3);

    let statistics = cache.cache_statistics();
    assert_eq!(statistics.free_slabs_number, 1);
    assert_eq!(statistics.full_slabs_number, 3);
    assert_eq!(statistics.allocated_objects_number, 25);
    assert_eq!(statistics.free_objects_number, 3);
}

#[test]
fn _02_alloc_only_large_ss_eq_ps() {
    const PAGE_SIZE: usize = 4096;
    const SLAB_SIZE: usize = 4096;
    const OBJECT_SIZE_TYPE: ObjectSizeType = ObjectSizeType::Large;
    assert_eq!(std::mem::size_of::<TestObjectType56>(), 56);
    let backend = TestMemoryBackend::new(SLAB_SIZE, PAGE_SIZE, OBJECT_SIZE_TYPE);
    let mut cache: Cache<TestObjectType56, TestMemoryBackend> =
        Cache::new(SLAB_SIZE, PAGE_SIZE, OBJECT_SIZE_TYPE, backend).unwrap();
    assert_eq!(cache.objects_per_slab(), 73);

    let mut allocated = Vec::new();
    for _ in 0..100 {
        allocated.push(alloc_checked(&mut cache));
    }
    check_allocation_order(&cache, &allocated);

    assert_eq!(free_list_lengths(&cache), (1, 0, 1));
    assert_eq!(cache.free_slabs_list_occupacy_less_75().last().unwrap().free_objects_number(), 46);

    let statistics = cache.cache_statistics();
    assert_eq!(statistics.free_slabs_number, 1);
    assert_eq!(statistics.full_slabs_number, 1);
    assert_eq!(statistics.allocated_objects_number, 100);
    assert_eq!(statistics.free_objects_number, 46);
    assert_eq!(cache.memory_backend().allocated_slab_info_addrs.len(), 2);
}

#[test]
fn _03_alloc_only_large_ss_neq_ps() {
    const PAGE_SIZE: usize = 4096;
    const SLAB_SIZE: usize = 8192;
    const OBJECT_SIZE_TYPE: ObjectSizeType = ObjectSizeType::Large;
    assert_eq!(std::mem::size_of::<TestObjectType16>(), 16);
    let backend = TestMemoryBackend::new(SLAB_SIZE, PAGE_SIZE, OBJECT_SIZE_TYPE);
    let mut cache: Cache<TestObjectType16, TestMemoryBackend> =
        Cache::new(SLAB_SIZE, PAGE_SIZE, OBJECT_SIZE_TYPE, backend).unwrap();
    assert_eq!(cache.objects_per_slab(), 512);

    let mut allocated = Vec::new();
    for _ in 0..100 {
        allocated.push(alloc_checked(&mut cache));
    }
    check_allocation_order(&cache, &allocated);

    assert_eq!(free_list_lengths(&cache), (1, 0, 0));
    assert_eq!(cache.free_slabs_list_occupacy_less_75().last().unwrap().free_objects_number(), 412);

    let statistics = cache.cache_statistics();
    assert_eq!(statistics.free_slabs_number, 1);
    assert_eq!(statistics.full_slabs_number, 0);
    assert_eq!(statistics.allocated_objects_number, 100);
    assert_eq!(statistics.free_objects_number, 412);
}

/// The scenario shared by the alloc-and-free tests: one slab filled, emptied but for one
/// object, refilled, a second slab half filled, everything freed in random order, then
/// random rounds of allocations and frees.
fn alloc_and_free_scenario<T>(cache: &mut Cache<T, TestMemoryBackend>) {
    let objects_per_slab = cache.objects_per_slab();

    let allocated = alloc_checked(cache);
    assert_eq!(cache.free(allocated), Ok(()));
    assert!(cache.free_slabs_list_occupacy_less_75().is_empty());
    assert!(cache.free_slabs_list_occupacy_more_75().is_empty());
    assert!(cache.memory_backend().allocated_slab_addrs.is_empty());
    assert!(cache.memory_backend().ht_saved_slab_infos.is_empty());

    // First slab, all but one object
    let mut first_slab_ptrs = Vec::new();
    for _ in 0..objects_per_slab - 1 {
        first_slab_ptrs.push(alloc_checked(cache));
    }
    assert_eq!(cache.free_slabs_list_occupacy_more_75().len(), 1);
    assert_eq!(cache.full_slabs_list().len(), 0);

    // Last object
    first_slab_ptrs.push(alloc_checked(cache));
    let first_slab_ptrs_copy = first_slab_ptrs.clone();
    assert_eq!(free_list_lengths(cache), (0, 0, 1));

    // Free all objects but one
    first_slab_ptrs.shuffle(&mut thread_rng());
    let len = first_slab_ptrs.len() - 1;
    for _ in 0..len {
        assert_eq!(cache.free(first_slab_ptrs.pop().unwrap()), Ok(()));
    }
    assert_eq!(free_list_lengths(cache), (1, 0, 0));

    // Allocate them again: the same objects come back
    for _ in 0..len {
        first_slab_ptrs.push(cache.allocate());
    }
    for a in first_slab_ptrs.iter() {
        assert!(first_slab_ptrs_copy.iter().any(|a_copy| a == a_copy));
    }
    let hs: HashSet<usize> = first_slab_ptrs_copy.iter().copied().collect();
    assert_eq!(hs.len(), first_slab_ptrs_copy.len());
    assert_eq!(free_list_lengths(cache), (0, 0, 1));

    // Half of a second slab
    let mut second_slab_ptrs = Vec::new();
    for _ in 0..objects_per_slab / 2 {
        second_slab_ptrs.push(alloc_checked(cache));
    }
    assert_eq!(free_list_lengths(cache), (1, 0, 1));

    // Free the first slab
    first_slab_ptrs.shuffle(&mut thread_rng());
    for v in first_slab_ptrs.iter() {
        assert_eq!(cache.free(*v), Ok(()));
    }
    assert_eq!(cache.free_slabs_list_occupacy_less_75().len(), 1);
    assert_eq!(cache.full_slabs_list().len(), 0);

    // Free the second slab
    second_slab_ptrs.shuffle(&mut thread_rng());
    for v in second_slab_ptrs.iter() {
        assert_eq!(cache.free(*v), Ok(()));
    }
    assert_eq!(free_list_lengths(cache), (0, 0, 0));
    assert_eq!(cache.memory_backend().allocated_slab_addrs.len(), 0);
    assert_eq!(cache.memory_backend().allocated_slab_info_addrs.len(), 0);
    assert!(cache.memory_backend().ht_saved_slab_infos.is_empty());

    // Random rounds
    for _ in 0..thread_rng().gen_range(20..=40) {
        let mut allocated_ptrs: Vec<usize> = Vec::new();
        for _ in 10..=20 {
            if thread_rng().gen_bool(0.5) {
                for _ in 0..thread_rng().gen_range(20..100) {
                    let addr = alloc_checked(cache);
                    assert!(!allocated_ptrs.contains(&addr));
                    allocated_ptrs.push(addr);
                }
            } else {
                allocated_ptrs.shuffle(&mut thread_rng());
                for _ in 0..thread_rng().gen_range(0..=allocated_ptrs.len()) {
                    let freed = allocated_ptrs.pop().unwrap();
                    assert_eq!(cache.free(freed), Ok(()));
                }
            }
        }
        let hs: HashSet<usize> = allocated_ptrs.iter().copied().collect();
        assert_eq!(hs.len(), allocated_ptrs.len());
        check_statistics(cache, allocated_ptrs.len());

        allocated_ptrs.shuffle(&mut thread_rng());
        for v in allocated_ptrs.into_iter() {
            assert_eq!(cache.free(v), Ok(()));
        }
        assert_eq!(cache.memory_backend().allocated_slab_addrs.len(), 0);
    }

    assert_eq!(free_list_lengths(cache), (0, 0, 0));
    assert_eq!(cache.memory_backend().allocated_slab_addrs.len(), 0);
    assert_eq!(cache.memory_backend().allocated_slab_info_addrs.len(), 0);
    assert!(cache.memory_backend().ht_saved_slab_infos.is_empty());
    let statistics = cache.cache_statistics();
    assert_eq!(statistics.free_slabs_number, 0);
    assert_eq!(statistics.full_slabs_number, 0);
    assert_eq!(statistics.allocated_objects_number, 0);
    assert_eq!(statistics.free_objects_number, 0);
}

#[test]
fn _04_free_small_ss_eq_ps() {
    const PAGE_SIZE: usize = 4096;
    const SLAB_SIZE: usize = 4096;
    const OBJECT_SIZE_TYPE: ObjectSizeType = ObjectSizeType::Small;
    assert_eq!(std::mem::size_of::<TestObjectType512>(), 512);
    let backend = TestMemoryBackend::new(SLAB_SIZE, PAGE_SIZE, OBJECT_SIZE_TYPE);
    let mut cache: Cache<TestObjectType512, TestMemoryBackend> =
        Cache::new(SLAB_SIZE, PAGE_SIZE, OBJECT_SIZE_TYPE, backend).unwrap();
    assert_eq!(cache.objects_per_slab(), 7);
    alloc_and_free_scenario(&mut cache);
}

#[test]
fn _05_free_small_ss_neq_ps() {
    const PAGE_SIZE: usize = 4096;
    const SLAB_SIZE: usize = 8192;
    const OBJECT_SIZE_TYPE: ObjectSizeType = ObjectSizeType::Small;
    let backend = TestMemoryBackend::new(SLAB_SIZE, PAGE_SIZE, OBJECT_SIZE_TYPE);
    let mut cache: Cache<TestObjectType512, TestMemoryBackend> =
        Cache::new(SLAB_SIZE, PAGE_SIZE, OBJECT_SIZE_TYPE, backend).unwrap();
    assert_eq!(cache.objects_per_slab(), 15);
    alloc_and_free_scenario(&mut cache);
    // Every association saved was looked up once
    assert!(cache.memory_backend().ht_save_get_calls_counter.values().all(|v| *v == 0));
}

#[test]
fn _06_free_large_ss_eq_ps() {
    const PAGE_SIZE: usize = 4096;
    const SLAB_SIZE: usize = 4096;
    const OBJECT_SIZE_TYPE: ObjectSizeType = ObjectSizeType::Large;
    let mut backend = TestMemoryBackend::new(SLAB_SIZE, PAGE_SIZE, OBJECT_SIZE_TYPE);
    backend.strict_delete = true;
    backend.strict_slab_info_release = true;
    let mut cache: Cache<TestObjectType512, TestMemoryBackend> =
        Cache::new(SLAB_SIZE, PAGE_SIZE, OBJECT_SIZE_TYPE, backend).unwrap();
    assert_eq!(cache.objects_per_slab(), 8);
    alloc_and_free_scenario(&mut cache);
}

#[test]
fn _07_free_large_ss_neq_ps() {
    const PAGE_SIZE: usize = 4096;
    const SLAB_SIZE: usize = 8192;
    const OBJECT_SIZE_TYPE: ObjectSizeType = ObjectSizeType::Large;
    assert_eq!(std::mem::size_of::<TestObjectType256>(), 256);
    let mut backend = TestMemoryBackend::new(SLAB_SIZE, PAGE_SIZE, OBJECT_SIZE_TYPE);
    backend.strict_slab_info_release = true;
    let mut cache: Cache<TestObjectType256, TestMemoryBackend> =
        Cache::new(SLAB_SIZE, PAGE_SIZE, OBJECT_SIZE_TYPE, backend).unwrap();
    assert_eq!(cache.objects_per_slab(), 32);
    alloc_and_free_scenario(&mut cache);
}

#[test]
fn slab_occupacy_lists() {
    const PAGE_SIZE: usize = 4096;
    const SLAB_SIZE: usize = 8192;
    const OBJECT_SIZE_TYPE: ObjectSizeType = ObjectSizeType::Large;
    let mut backend = TestMemoryBackend::new(SLAB_SIZE, PAGE_SIZE, OBJECT_SIZE_TYPE);
    backend.strict_slab_info_release = true;
    let mut cache: Cache<TestObjectType256, TestMemoryBackend> =
        Cache::new(SLAB_SIZE, PAGE_SIZE, OBJECT_SIZE_TYPE, backend).unwrap();
    assert_eq!(cache.objects_per_slab(), 32);
    assert!(cache.free_slabs_list_occupacy_less_75().is_empty());
    assert!(cache.free_slabs_list_occupacy_more_75().is_empty());

    let mut allocated_ptrs = Vec::new();
    for _ in 0..23 {
        allocated_ptrs.push(alloc_checked(&mut cache));
    }
    assert_eq!(free_list_lengths(&cache), (1, 0, 0));

    allocated_ptrs.push(alloc_checked(&mut cache));
    assert_eq!(free_list_lengths(&cache), (0, 1, 0));

    for _ in 0..8 {
        allocated_ptrs.push(alloc_checked(&mut cache));
    }
    assert_eq!(free_list_lengths(&cache), (0, 0, 1));
    assert_eq!(allocated_ptrs.len(), 32);

    allocated_ptrs.shuffle(&mut thread_rng());
    for _ in 0..8 {
        let allocated_ptr = allocated_ptrs.pop().unwrap();
        assert_eq!(cache.free(allocated_ptr), Ok(()));
    }
    assert_eq!(cache.free_slabs_list_occupacy_more_75()[0].free_objects_number(), 8);
    assert_eq!(free_list_lengths(&cache), (0, 1, 0));

    assert_eq!(cache.free(allocated_ptrs.pop().unwrap()), Ok(()));
    assert_eq!(free_list_lengths(&cache), (1, 0, 0));
    assert_eq!(cache.free_slabs_list_occupacy_less_75()[0].free_objects_number(), 9);

    assert_eq!(allocated_ptrs.len(), 23);
    for i in 0..23 {
        assert_eq!(cache.free(allocated_ptrs[i]), Ok(()));
    }
    assert_eq!(free_list_lengths(&cache), (0, 0, 0));
}
