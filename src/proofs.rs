//! Why each operation keeps the cache's invariant and what it does to the allocated objects.

use vstd::prelude::*;

use crate::backend::{
    held_slab_infos, held_slabs, page_association, releases_only_held,
    releases_only_held_slab_infos, BackendCall,
};
use crate::cache::ObjectSizeType;
use crate::lemmas::{
    lemma_apart_insert, lemma_apart_remove, lemma_apart_replace, lemma_free_sum_bounds,
    lemma_free_sum_insert_front, lemma_free_sum_remove,
    lemma_free_sum_update, lemma_free_sum_zero,
};
use crate::model::{far_apart, free_sum, same_config, CacheView, SlabList, SlabView};

verus! {

broadcast use vstd::seq_lib::group_to_multiset_ensures, vstd::seq_lib::to_multiset_update,
    vstd::seq_lib::to_multiset_insert, vstd::seq_lib::to_multiset_remove;

/// A slab of a list is one of the cache's slabs.
pub proof fn lemma_list_member(v: CacheView, l: SlabList, k: int)
    requires
        0 <= k < v.list(l).len(),
    ensures
        v.slabs().contains(v.list(l)[k]),
{
    assert(v.list(l).contains(v.list(l)[k]));
}

/// Each slab of the cache stands in one of the lists.
pub proof fn lemma_member_list(v: CacheView, s: SlabView) -> (pos: (SlabList, int))
    requires
        v.slabs().contains(s),
    ensures
        0 <= pos.1 < v.list(pos.0).len(),
        v.list(pos.0)[pos.1] == s,
{
    if v.low.contains(s) {
        let k = choose|k: int| 0 <= k < v.low.len() && v.low[k] == s;
        (SlabList::Low, k)
    } else if v.high.contains(s) {
        let k = choose|k: int| 0 <= k < v.high.len() && v.high[k] == s;
        (SlabList::High, k)
    } else {
        assert(v.full.contains(s));
        let k = choose|k: int| 0 <= k < v.full.len() && v.full[k] == s;
        (SlabList::Full, k)
    }
}

/// An object of a slab lies inside the slab.
pub proof fn lemma_slot_in_slab(v: CacheView, s: SlabView, a: usize)
    requires
        v.config_wf(),
        s.is_slot(v.object_size, v.objects_per_slab, a),
    ensures
        s.slab_addr <= a < s.slab_addr + v.slab_size,
{
}

/// Two slabs that are apart hold no common object.
pub proof fn lemma_apart_no_common(v: CacheView, s: SlabView, t: SlabView, a: usize)
    requires
        v.config_wf(),
        far_apart(s.slab_addr, t.slab_addr, v.slab_size),
        s.is_slot(v.object_size, v.objects_per_slab, a),
    ensures
        !t.is_slot(v.object_size, v.objects_per_slab, a),
{
}

/// Handing out the top of a slab's free stack.
pub proof fn lemma_pop(v: CacheView, s: SlabView)
    requires
        v.config_wf(),
        v.slab_wf(s),
        s.free_objects.len() > 0,
    ensures
        ({
            let s2 = s.with_free_objects(s.free_objects.drop_last());
            let r = s.free_objects.last();
            &&& v.slab_wf(s2)
            &&& r != 0
            &&& !v.holds(s, r)
            &&& s.is_slot(v.object_size, v.objects_per_slab, r)
            &&& forall|a: usize| #[trigger] v.holds(s2, a) <==> (v.holds(s, a) || a == r)
        }),
{
    let s2 = s.with_free_objects(s.free_objects.drop_last());
    let r = s.free_objects.last();
    let os = v.object_size;
    let ops = v.objects_per_slab;
    assert(s.is_slot(os, ops, s.free_objects[s.free_objects.len() - 1]));
    assert(s.free_objects.contains(r));
    assert forall|a: usize| #[trigger] v.holds(s2, a) <==> (v.holds(s, a) || a == r) by {
        if s2.free_objects.contains(a) {
            let i = choose|i: int| 0 <= i < s2.free_objects.len() && s2.free_objects[i] == a;
            assert(s.free_objects[i] == a);
            assert(a != r);
        }
        if a != r && s.free_objects.contains(a) {
            let i = choose|i: int| 0 <= i < s.free_objects.len() && s.free_objects[i] == a;
            assert(i != s.free_objects.len() - 1);
            assert(s2.free_objects[i] == a);
        }
    }
    assert forall|a: usize|
        #[trigger] s2.allocated_objects(os, ops).contains(a) == s.allocated_objects(os, ops).insert(
            r,
        ).contains(a) by {
        assert(v.holds(s2, a) <==> (v.holds(s, a) || a == r));
    }
    assert(s2.allocated_objects(os, ops) =~= s.allocated_objects(os, ops).insert(r));
    assert forall|i: int| 0 <= i < s2.free_objects.len() implies s2.is_slot(
        os,
        ops,
        #[trigger] s2.free_objects[i],
    ) by {
        assert(s.is_slot(os, ops, s.free_objects[i]));
    }
}

/// Giving back an object that a slab holds.
pub proof fn lemma_push(v: CacheView, s: SlabView, a: usize)
    requires
        v.config_wf(),
        v.slab_wf(s),
        v.holds(s, a),
    ensures
        ({
            let s2 = s.with_free_objects(s.free_objects.push(a));
            &&& v.slab_wf(s2)
            &&& forall|x: usize| #[trigger] v.holds(s2, x) <==> (v.holds(s, x) && x != a)
        }),
{
    let s2 = s.with_free_objects(s.free_objects.push(a));
    let os = v.object_size;
    let ops = v.objects_per_slab;
    assert forall|x: usize| #[trigger] v.holds(s2, x) <==> (v.holds(s, x) && x != a) by {
        if s.free_objects.contains(x) {
            let i = choose|i: int| 0 <= i < s.free_objects.len() && s.free_objects[i] == x;
            assert(s2.free_objects[i] == x);
        }
        if s2.free_objects.contains(x) && x != a {
            let i = choose|i: int| 0 <= i < s2.free_objects.len() && s2.free_objects[i] == x;
            assert(s.free_objects[i] == x);
        }
        assert(s2.free_objects[s.free_objects.len() as int] == a);
    }
    assert forall|x: usize|
        #[trigger] s2.allocated_objects(os, ops).contains(x) == s.allocated_objects(os, ops).remove(
            a,
        ).contains(x) by {
        assert(v.holds(s2, x) <==> (v.holds(s, x) && x != a));
    }
    assert(s2.allocated_objects(os, ops) =~= s.allocated_objects(os, ops).remove(a));
    assert(s.allocated_objects(os, ops).contains(a));
    assert(s2.free_objects.no_duplicates()) by {
        assert forall|i: int, j: int|
            0 <= i < s2.free_objects.len() && 0 <= j < s2.free_objects.len() && i != j
            implies s2.free_objects[i] != s2.free_objects[j] by {
            if i == s.free_objects.len() {
                assert(s.free_objects.contains(s2.free_objects[j]));
            } else if j == s.free_objects.len() {
                assert(s.free_objects.contains(s2.free_objects[i]));
            }
        }
    }
    assert(s.allocated_objects(os, ops).len() >= 1);
    assert forall|i: int| 0 <= i < s2.free_objects.len() implies s2.is_slot(
        os,
        ops,
        #[trigger] s2.free_objects[i],
    ) by {
        if i < s.free_objects.len() {
            assert(s.is_slot(os, ops, s.free_objects[i]));
        }
    }
}

/// The occupancy threshold is below the number of objects of a slab.
pub proof fn lemma_threshold_below(v: CacheView)
    requires
        v.config_wf(),
    ensures
        v.high_occupancy_minimum < v.objects_per_slab,
        v.objects_per_slab <= v.slab_size,
        v.slab_count() >= 0 ==> v.slab_count() * v.objects_per_slab <= v.slab_count() * v.slab_size,
        v.slab_count() >= 0 ==> v.slab_count() <= v.slab_count() * v.objects_per_slab,
{
    let ops = v.objects_per_slab as int;
    assert((75 * ops) / 100 < ops) by (nonlinear_arith)
        requires
            ops > 0,
    ;
    assert(ops <= v.slab_size) by (nonlinear_arith)
        requires
            ops * v.object_size <= v.slab_size,
            v.object_size > 0,
            ops > 0,
    ;
    let c = v.slab_count();
    if c >= 0 {
        assert(c * ops <= c * v.slab_size) by (nonlinear_arith)
            requires
                ops <= v.slab_size,
                c >= 0,
        ;
        assert(c <= c * ops) by (nonlinear_arith)
            requires
                ops >= 1,
                c >= 0,
        ;
    }
}

/// The free-object counts of the lists stay within bounds.
pub proof fn lemma_free_sums(v: CacheView)
    requires
        v.config_wf(),
        v.list_wf(SlabList::Low),
        v.list_wf(SlabList::High),
        v.list_wf(SlabList::Full),
    ensures
        0 <= free_sum(v.low) <= v.low.len() * v.objects_per_slab,
        0 <= free_sum(v.high) <= v.high.len() * v.objects_per_slab,
        free_sum(v.full) == 0,
        v.slab_count() * v.slab_size <= usize::MAX ==> v.slab_count() * v.objects_per_slab
            <= usize::MAX,
{
    assert forall|i: int| 0 <= i < v.low.len() implies (#[trigger] v.low[i]).free_objects.len()
        <= v.objects_per_slab by {
        assert(v.slab_wf(v.list(SlabList::Low)[i]));
    }
    assert forall|i: int| 0 <= i < v.high.len() implies (#[trigger] v.high[i]).free_objects.len()
        <= v.objects_per_slab by {
        assert(v.slab_wf(v.list(SlabList::High)[i]));
    }
    assert forall|i: int| 0 <= i < v.full.len() implies (#[trigger] v.full[i]).free_objects.len()
        == 0 by {
        assert(v.fits_list(v.list(SlabList::Full)[i], SlabList::Full));
    }
    lemma_free_sum_bounds(v.low, v.objects_per_slab as int);
    lemma_free_sum_bounds(v.high, v.objects_per_slab as int);
    lemma_free_sum_zero(v.full);
    lemma_threshold_below(v);
}

/// Handing out an object keeps the invariant; the object was not allocated and is now.
pub proof fn lemma_take(v: CacheView)
    requires
        v.inner_wf(),
        v.low.len() > 0 || v.high.len() > 0,
        forall|i: int| 0 <= i < v.high.len() ==> v.allocated_in(#[trigger] v.high[i]) >= 1,
        forall|i: int| 0 < i < v.low.len() ==> v.allocated_in(#[trigger] v.low[i]) >= 1,
        v.high.len() > 0 && v.low.len() > 0 ==> v.allocated_in(v.low[0]) >= 1,
    ensures
        v.after_take().wf(),
        v.taken() != 0,
        !v.is_allocated(v.taken()),
        forall|a: usize|
            #[trigger] v.after_take().is_allocated(a) <==> (v.is_allocated(a) || a == v.taken()),
        v.after_take().calls == v.calls + v.save_calls(),
        v.after_take().statistics.allocated_objects_number == v.statistics.allocated_objects_number + 1,
{
    let l = v.chosen_list();
    let s = v.chosen();
    let r = v.taken();
    let s2 = s.with_free_objects(s.free_objects.drop_last());
    let new = v.after_take();
    let lst = v.list(l);
    assert(v.slab_wf(lst[0]) && v.fits_list(lst[0], l));
    lemma_threshold_below(v);
    lemma_free_sums(v);
    lemma_pop(v, s);
    lemma_list_member(v, l, 0);
    assert(lst.drop_first() =~= lst.remove(0));
    let now_full = s2.free_objects.len() == 0;
    // where the slabs stand afterwards
    if now_full {
        assert(new.slabs() =~= v.slabs().remove(s).insert(s2));
    } else if l == SlabList::Low && v.allocated_in(s2) >= v.high_occupancy_minimum {
        assert(v.high.insert(0, s2) =~= seq![s2]);
        assert(new.slabs() =~= v.slabs().remove(s).insert(s2));
    } else {
        assert(new.slabs() =~= v.slabs().remove(s).insert(s2));
    }
    lemma_apart_replace(v.slabs(), s, s2, v.slab_size);
    assert(new.slab_count() == v.slab_count());
    // every list keeps its rules
    assert forall|i: int| 0 <= i < new.low.len() implies new.slab_wf(#[trigger] new.low[i])
        && new.fits_list(new.low[i], SlabList::Low) && new.allocated_in(new.low[i]) >= 1 by {
        if l == SlabList::Low && !now_full && v.allocated_in(s2) < v.high_occupancy_minimum {
            if i > 0 {
                assert(new.low[i] == v.list(SlabList::Low)[i]);
            }
        } else if l == SlabList::Low {
            assert(new.low[i] == v.list(SlabList::Low)[i + 1]);
        } else {
            assert(new.low[i] == v.list(SlabList::Low)[i]);
        }
    }
    assert forall|i: int| 0 <= i < new.high.len() implies new.slab_wf(#[trigger] new.high[i])
        && new.fits_list(new.high[i], SlabList::High) && new.allocated_in(new.high[i]) >= 1 by {
        if l == SlabList::High && now_full {
            assert(new.high[i] == v.list(SlabList::High)[i + 1]);
        } else if l == SlabList::High {
            if i > 0 {
                assert(new.high[i] == v.list(SlabList::High)[i]);
            }
        } else if !now_full && v.allocated_in(s2) >= v.high_occupancy_minimum {
        } else {
            assert(new.high[i] == v.list(SlabList::High)[i]);
        }
    }
    assert forall|i: int| 0 <= i < new.full.len() implies new.slab_wf(#[trigger] new.full[i])
        && new.fits_list(new.full[i], SlabList::Full) by {
        if i < v.full.len() {
            assert(new.full[i] == v.list(SlabList::Full)[i]);
        }
    }
    // statistics
    if now_full {
        lemma_free_sum_remove(lst, 0);
    } else if l == SlabList::Low && v.allocated_in(s2) >= v.high_occupancy_minimum {
        lemma_free_sum_remove(lst, 0);
        lemma_free_sum_insert_front(v.high, s2);
    } else {
        lemma_free_sum_update(lst, 0, s2);
    }
    assert(free_sum(lst) >= s.free_objects.len()) by {
        assert forall|i: int| 0 <= i < lst.drop_first().len() implies (
        #[trigger] lst.drop_first()[i]).free_objects.len() <= v.objects_per_slab by {
            assert(v.slab_wf(lst[i + 1]));
        }
        lemma_free_sum_bounds(lst.drop_first(), v.objects_per_slab as int);
    }
    assert(new.statistics.free_slabs_number == new.low.len() + new.high.len());
    assert(new.statistics.full_slabs_number == new.full.len());
    assert(new.statistics.free_objects_number == free_sum(new.low) + free_sum(new.high));
    assert(new.statistics.allocated_objects_number == new.slab_count() * new.objects_per_slab
            - free_sum(new.low) - free_sum(new.high));
    assert(new.statistics_wf());
    // the backend's view
    crate::backend::lemma_held_append_neutral(v.calls, v.save_calls());
    crate::backend::lemma_held_info_append_neutral(v.calls, v.save_calls());
    lemma_info_wf_replace(v, new, s, s2);
    lemma_associations_take(v, new, s, s2);
    assert forall|b: usize| new.has_slab_at(b) == v.has_slab_at(b) by {
        if new.has_slab_at(b) {
            let t = choose|t: SlabView| #[trigger] new.slabs().contains(t) && t.slab_addr == b;
            if t == s2 {
                assert(v.slabs().contains(s));
            }
        }
        if v.has_slab_at(b) {
            let t = choose|t: SlabView| #[trigger] v.slabs().contains(t) && t.slab_addr == b;
            if t == s {
                assert(new.slabs().contains(s2));
            } else {
                assert(new.slabs().contains(t));
            }
        }
    }
    assert(new.backend_wf());
    // the allocated objects
    assert forall|a: usize|
        #[trigger] new.is_allocated(a) <==> (v.is_allocated(a) || a == r) by {
        if new.is_allocated(a) {
            let t = choose|t: SlabView| #[trigger] new.slabs().contains(t) && new.holds(t, a);
            if t == s2 {
                if a != r {
                    assert(v.holds(s2, a));
                    assert(v.slabs().contains(s) && v.holds(s, a));
                }
            } else {
                assert(v.slabs().contains(t) && v.holds(t, a));
            }
        }
        if a == r {
            assert(new.slabs().contains(s2) && new.holds(s2, a));
        } else if v.is_allocated(a) {
            let t = choose|t: SlabView| #[trigger] v.slabs().contains(t) && v.holds(t, a);
            if t == s {
                assert(new.slabs().contains(s2) && new.holds(s2, a));
            } else {
                assert(new.slabs().contains(t) && new.holds(t, a));
            }
        }
    }
    assert(!v.is_allocated(r)) by {
        if v.is_allocated(r) {
            let t = choose|t: SlabView| #[trigger] v.slabs().contains(t) && v.holds(t, r);
            if t != s {
                assert(far_apart(s.slab_addr, t.slab_addr, v.slab_size));
                lemma_apart_no_common(v, s, t, r);
            }
        }
    }
}

/// Appending calls that begin with handing out the slab `slab_addr` and go on with calls
/// that neither take nor give back a slab.
pub proof fn lemma_held_after_alloc_slab(calls: Seq<BackendCall>, c: Seq<BackendCall>, slab_addr: usize)
    requires
        c.len() >= 1,
        c[0] matches BackendCall::AllocSlab { result, .. } && result == slab_addr,
        forall|i: int| 1 <= i < c.len() ==> !(c[i] is AllocSlab) && !(c[i] is FreeSlab),
    ensures
        held_slabs(calls + c) == if slab_addr != 0 {
            held_slabs(calls).insert(slab_addr)
        } else {
            held_slabs(calls)
        },
        releases_only_held(calls + c) == releases_only_held(calls),
{
    crate::backend::lemma_held_push(calls, c[0]);
    let rest = c.drop_first();
    assert forall|i: int| 0 <= i < rest.len() implies !(rest[i] is AllocSlab) && !(
    rest[i] is FreeSlab) by {
        assert(rest[i] == c[i + 1]);
    }
    crate::backend::lemma_held_append_neutral(calls.push(c[0]), rest);
    assert(calls + c =~= calls.push(c[0]) + rest);
}

/// A fresh slab holds no allocated object and is well formed.
pub proof fn lemma_fresh_slab(v: CacheView, slab_addr: usize, slab_info_addr: usize)
    requires
        v.config_wf(),
        slab_addr != 0,
        slab_addr % v.page_size == 0,
        slab_addr + v.slab_size <= usize::MAX,
        v.object_size_type == ObjectSizeType::Small ==> slab_info_addr == crate::model::small_slab_info_addr(
            slab_addr as int,
            v.slab_size as int,
        ),
        v.object_size_type == ObjectSizeType::Large ==> slab_info_addr != 0,
    ensures
        v.slab_wf(v.fresh_slab(slab_addr, slab_info_addr)),
        v.allocated_in(v.fresh_slab(slab_addr, slab_info_addr)) == 0,
        forall|a: usize| !v.holds(v.fresh_slab(slab_addr, slab_info_addr), a),
{
    let f = v.fresh_slab(slab_addr, slab_info_addr);
    let os = v.object_size as int;
    let ops = v.objects_per_slab as int;
    let base = slab_addr as int;
    assert forall|i: int| 0 <= i < ops implies 0 <= i * os && i * os < ops * os && (#[trigger] (i
        * os)) % os == 0 by {
        assert(0 <= i * os) by (nonlinear_arith)
            requires
                0 <= i,
                0 < os,
        ;
        assert(i * os < ops * os) by (nonlinear_arith)
            requires
                i < ops,
                0 < os,
        ;
        vstd::arithmetic::div_mod::lemma_mod_multiples_basic(i, os);
    }
    assert forall|i: int| 0 <= i < f.free_objects.len() implies f.is_slot(
        v.object_size,
        v.objects_per_slab,
        #[trigger] f.free_objects[i],
    ) by {
        assert(f.free_objects[i] == base + i * os);
        assert(i * os < ops * os && (i * os) % os == 0);
    }
    assert forall|i: int, j: int|
        0 <= i < f.free_objects.len() && 0 <= j < f.free_objects.len() && i != j implies f.free_objects[i]
        != f.free_objects[j] by {
        assert(i * os != j * os) by (nonlinear_arith)
            requires
                i != j,
                os > 0,
        ;
        assert(i * os < ops * os && j * os < ops * os);
    }
    assert forall|a: usize| !v.holds(f, a) by {
        if f.is_slot(v.object_size, v.objects_per_slab, a) {
            let k = (a - base) / os;
            vstd::arithmetic::div_mod::lemma_fundamental_div_mod(a - base, os);
            assert(a - base == os * k);
            assert(k < ops) by (nonlinear_arith)
                requires
                    os * k < ops * os,
                    os > 0,
            ;
            assert(k >= 0) by (nonlinear_arith)
                requires
                    os * k >= 0,
                    os > 0,
            ;
            assert(k * os == os * k) by (nonlinear_arith);
            assert(f.free_objects[k] == a);
        }
    }
    assert forall|a: usize| !#[trigger] f.allocated_objects(v.object_size, v.objects_per_slab).contains(a) by {
        assert(!v.holds(f, a));
    }
    assert(f.allocated_objects(v.object_size, v.objects_per_slab) =~= Set::empty());
}

/// Appending a fresh slab to an empty low-occupancy list, right after the backend handed
/// it out.
pub proof fn lemma_new_slab(v: CacheView, c: Seq<BackendCall>, slab_addr: usize, slab_info_addr: usize)
    requires
        v.wf(),
        v.low.len() == 0,
        v.high.len() == 0,
        v.slab_usable(slab_addr),
        v.object_size_type == ObjectSizeType::Small ==> slab_info_addr == crate::model::small_slab_info_addr(
            slab_addr as int,
            v.slab_size as int,
        ),
        v.object_size_type == ObjectSizeType::Large ==> slab_info_addr != 0,
        c.len() >= 1,
        c[0] matches BackendCall::AllocSlab { result, .. } && result == slab_addr,
        forall|i: int| 1 <= i < c.len() ==> !(c[i] is AllocSlab) && !(c[i] is FreeSlab),
        forall|i: int|
            0 <= i < c.len() ==> !(#[trigger] c[i] is SaveSlabInfoAddr) && !(c[i] is DeleteSlabInfoAddr),
        v.object_size_type == ObjectSizeType::Small ==> forall|i: int|
            0 <= i < c.len() ==> !(#[trigger] c[i] is AllocSlabInfo) && !(c[i] is FreeSlabInfo),
        v.object_size_type == ObjectSizeType::Large ==> {
            &&& c.len() == 2
            &&& c[1] == BackendCall::AllocSlabInfo { result: slab_info_addr }
            &&& !v.has_slab_info_at(slab_info_addr)
        },
    ensures
        ({
            let w = v.log(c).with_new_slab(slab_addr, slab_info_addr);
            &&& w.inner_wf()
            &&& w.low.len() == 1
            &&& w.high.len() == 0
            &&& forall|a: usize| #[trigger] w.is_allocated(a) == v.is_allocated(a)
        }),
{
    let w = v.log(c).with_new_slab(slab_addr, slab_info_addr);
    let f = v.fresh_slab(slab_addr, slab_info_addr);
    lemma_fresh_slab(v, slab_addr, slab_info_addr);
    lemma_free_sums(v);
    assert(w.low =~= seq![f]);
    assert(w.slabs() =~= v.slabs().insert(f));
    lemma_apart_insert(v.slabs(), f, v.slab_size);
    assert(w.list_wf(SlabList::Low));
    assert forall|i: int| 0 <= i < w.full.len() implies w.slab_wf(#[trigger] w.full[i])
        && w.fits_list(w.full[i], SlabList::Full) by {
        assert(w.full[i] == v.list(SlabList::Full)[i]);
    }
    assert(free_sum(w.low) == f.free_objects.len()) by {
        assert(w.low.drop_first() =~= Seq::<SlabView>::empty());
        assert(free_sum(Seq::<SlabView>::empty()) == 0);
        assert(free_sum(w.low) == w.low[0].free_objects.len() + free_sum(w.low.drop_first()));
    }
    let cnt = v.slab_count();
    let ops = v.objects_per_slab as int;
    assert((cnt + 1) * ops - ops == cnt * ops) by (nonlinear_arith);
    assert(w.statistics_wf());
    lemma_held_after_alloc_slab(v.calls, c, slab_addr);
    assert(!v.has_slab_at(slab_addr)) by {
        if v.has_slab_at(slab_addr) {
            let t = choose|t: SlabView| #[trigger] v.slabs().contains(t) && t.slab_addr == slab_addr;
            assert(far_apart(t.slab_addr, slab_addr, v.slab_size));
        }
    }
    assert forall|b: usize| #[trigger] w.has_slab_at(b) == (v.has_slab_at(b) || b == slab_addr) by {
        if w.has_slab_at(b) {
            let t = choose|t: SlabView| #[trigger] w.slabs().contains(t) && t.slab_addr == b;
            if t != f {
                assert(v.slabs().contains(t));
            }
        }
        if b == slab_addr {
            assert(w.slabs().contains(f));
        } else if v.has_slab_at(b) {
            let t = choose|t: SlabView| #[trigger] v.slabs().contains(t) && t.slab_addr == b;
            assert(w.slabs().contains(t));
        }
    }
    assert forall|b: usize| #[trigger] held_slabs(w.calls).count(b) == if w.has_slab_at(b) {
        1nat
    } else {
        0nat
    } by {
        assert(held_slabs(v.calls).count(b) == if v.has_slab_at(b) {
            1nat
        } else {
            0nat
        });
    }
    assert(w.backend_wf());
    // the metadata storage
    assert forall|i: usize| #[trigger] w.has_slab_info_at(i) == (v.has_slab_info_at(i) || i == slab_info_addr) by {
        if w.has_slab_info_at(i) {
            let t = choose|t: SlabView| #[trigger] w.slabs().contains(t) && t.slab_info_addr == i;
            if t != f {
                assert(v.slabs().contains(t));
            }
        }
        if i == slab_info_addr {
            assert(w.slabs().contains(f));
        } else if v.has_slab_info_at(i) {
            let t = choose|t: SlabView| #[trigger] v.slabs().contains(t) && t.slab_info_addr == i;
            assert(w.slabs().contains(t));
        }
    }
    if v.object_size_type == ObjectSizeType::Large {
        crate::backend::lemma_held_info_push(v.calls, c[0]);
        crate::backend::lemma_held_info_push(v.calls.push(c[0]), c[1]);
        assert(v.calls + c =~= v.calls.push(c[0]).push(c[1]));
        assert forall|t: SlabView| #[trigger] v.slabs().contains(t) implies t.slab_info_addr != slab_info_addr by {}
        crate::lemmas::lemma_infos_insert(v.slabs(), f);
    } else {
        crate::backend::lemma_held_info_append_neutral(v.calls, c);
    }
    assert forall|i: usize| #[trigger] held_slab_infos(w.calls).count(i) == if w.object_size_type
        == ObjectSizeType::Large && w.has_slab_info_at(i) {
        1nat
    } else {
        0nat
    } by {
        assert(held_slab_infos(v.calls).count(i) == if v.object_size_type == ObjectSizeType::Large
            && v.has_slab_info_at(i) {
            1nat
        } else {
            0nat
        });
    }
    assert(w.slab_info_wf());
    crate::backend::lemma_association_append_neutral(v.calls, c);
    if !w.is_small_single_page() {
        assert forall|t: SlabView, x: usize|
            #![trigger w.slabs().contains(t), w.holds(t, x)]
            w.slabs().contains(t) && w.holds(t, x) implies page_association(w.calls, w.page_of(x))
            == Some(t.slab_info_addr) by {
            if t != f {
                assert(v.slabs().contains(t) && v.holds(t, x));
            } else {
                assert(!v.holds(f, x));
            }
        }
    }
    assert forall|a: usize| #[trigger] w.is_allocated(a) == v.is_allocated(a) by {
        if w.is_allocated(a) {
            let t = choose|t: SlabView| #[trigger] w.slabs().contains(t) && w.holds(t, a);
            assert(!v.holds(f, a));
            if t != f {
                assert(v.slabs().contains(t) && v.holds(t, a));
            }
        }
        if v.is_allocated(a) {
            let t = choose|t: SlabView| #[trigger] v.slabs().contains(t) && v.holds(t, a);
            assert(w.slabs().contains(t) && w.holds(t, a));
        }
    }
}

/// A list that an operation leaves alone keeps its rules.
pub proof fn lemma_list_unchanged(v: CacheView, w: CacheView, m: SlabList)
    requires
        same_config(v, w),
        v.list_wf(m),
        w.list(m) == v.list(m),
    ensures
        w.list_wf(m),
        forall|i: int| 0 <= i < w.list(m).len() ==> w.allocated_in(#[trigger] w.list(m)[i]) == v.allocated_in(v.list(m)[i]),
{
    assert forall|i: int| 0 <= i < w.list(m).len() implies w.slab_wf(#[trigger] w.list(m)[i])
        && w.fits_list(w.list(m)[i], m) by {
        assert(v.slab_wf(v.list(m)[i]) && v.fits_list(v.list(m)[i], m));
    }
}

/// A slab that occurs at two places of the lists occurs twice among the cache's slabs.
pub proof fn lemma_two_places(v: CacheView, l1: SlabList, k1: int, l2: SlabList, k2: int)
    requires
        0 <= k1 < v.list(l1).len(),
        0 <= k2 < v.list(l2).len(),
        (l1, k1) != (l2, k2),
        v.list(l1)[k1] == v.list(l2)[k2],
    ensures
        v.slabs().count(v.list(l1)[k1]) >= 2,
{
    let x = v.list(l1)[k1];
    if l1 == l2 {
        let s = v.list(l1);
        let rest = s.remove(k1);
        if k2 < k1 {
            assert(rest[k2] == x);
        } else {
            assert(rest[k2 - 1] == x);
        }
        assert(rest.contains(x));
        assert(rest.to_multiset() == s.to_multiset().remove(x));
        assert(rest.to_multiset().count(x) > 0);
        assert(s.to_multiset().count(x) >= 2);
    } else {
        assert(v.list(l1).contains(x));
        assert(v.list(l2).contains(x));
        assert(v.list(l1).to_multiset().count(x) >= 1);
        assert(v.list(l2).to_multiset().count(x) >= 1);
    }
}

/// The slab whose region holds an allocated object is the one that holds it, and its place
/// is the object's holder.
pub proof fn lemma_holder(v: CacheView, a: usize, l: SlabList, k: int)
    requires
        v.wf(),
        v.is_allocated(a),
        0 <= k < v.list(l).len(),
        v.list(l)[k].slab_addr <= a < v.list(l)[k].slab_addr + v.slab_size,
    ensures
        v.holder(a) == (l, k),
        v.holds(v.list(l)[k], a),
{
    let x = v.list(l)[k];
    lemma_list_member(v, l, k);
    let t = choose|t: SlabView| #[trigger] v.slabs().contains(t) && v.holds(t, a);
    if t != x {
        assert(far_apart(t.slab_addr, x.slab_addr, v.slab_size));
    }
    assert(v.holds(x, a));
    let (l2, k2) = v.holder(a);
    assert(0 <= k2 < v.list(l2).len() && v.holds(v.list(l2)[k2], a));
    let y = v.list(l2)[k2];
    lemma_list_member(v, l2, k2);
    if y != x {
        assert(far_apart(y.slab_addr, x.slab_addr, v.slab_size));
    }
    if (l2, k2) != (l, k) {
        lemma_two_places(v, l, k, l2, k2);
        assert(v.slabs().count(x) <= 1);
    }
}

/// Every allocated object has a holder.
pub proof fn lemma_holder_exists(v: CacheView, a: usize)
    requires
        v.is_allocated(a),
    ensures
        0 <= v.holder(a).1 < v.list(v.holder(a).0).len(),
        v.holds(v.holder_slab(a), a),
        v.slabs().contains(v.holder_slab(a)),
{
    let t = choose|t: SlabView| #[trigger] v.slabs().contains(t) && v.holds(t, a);
    let pos = lemma_member_list(v, t);
    assert(v.holds(v.list(pos.0)[pos.1], a));
    lemma_list_member(v, v.holder(a).0, v.holder(a).1);
}

/// Giving back an allocated object keeps the invariant, and the object is no longer allocated.
pub proof fn lemma_release(v: CacheView, a: usize)
    requires
        v.wf(),
        v.is_allocated(a),
    ensures
        v.released(a).wf(),
        forall|x: usize| #[trigger] v.released(a).is_allocated(x) <==> (v.is_allocated(x) && x != a),
{
    lemma_holder_exists(v, a);
    let (l, k) = v.holder(a);
    let lst = v.list(l);
    let s = lst[k];
    let s2 = s.with_free_objects(s.free_objects.push(a));
    let new = v.released(a);
    let left = v.allocated_in(s2);
    assert(v.slab_wf(s) && v.fits_list(s, l));
    lemma_push(v, s, a);
    lemma_threshold_below(v);
    lemma_free_sums(v);
    // no other slab holds `a`
    assert forall|t: SlabView| #[trigger] v.slabs().contains(t) && t != s implies !v.holds(t, a) by {
        assert(far_apart(s.slab_addr, t.slab_addr, v.slab_size));
        lemma_apart_no_common(v, s, t, a);
    }
    if left == 0 {
        lemma_release_reclaim(v, a);
    } else {
        lemma_release_keep(v, a);
    }
}

proof fn lemma_release_reclaim(v: CacheView, a: usize)
    requires
        v.wf(),
        v.is_allocated(a),
        0 <= v.holder(a).1 < v.list(v.holder(a).0).len(),
        v.holds(v.holder_slab(a), a),
        v.slabs().contains(v.holder_slab(a)),
        v.allocated_in(v.holder_slab(a)) == 1,
        forall|t: SlabView| #[trigger] v.slabs().contains(t) && t != v.holder_slab(a) ==> !v.holds(t, a),
        v.slab_wf(v.holder_slab(a)),
    ensures
        v.released(a).wf(),
        forall|x: usize| #[trigger] v.released(a).is_allocated(x) <==> (v.is_allocated(x) && x != a),
{
    let (l, k) = v.holder(a);
    let lst = v.list(l);
    let s = lst[k];
    let new = v.released(a);
    lemma_threshold_below(v);
    lemma_free_sums(v);
    assert(new.slabs() =~= v.slabs().remove(s));
    lemma_apart_remove(v.slabs(), s, v.slab_size);
    assert forall|i: int| 0 <= i < new.list(l).len() implies new.slab_wf(#[trigger] new.list(l)[i])
        && new.fits_list(new.list(l)[i], l) && (l != SlabList::Full ==> new.allocated_in(new.list(l)[i]) >= 1) by {
        if i < k {
            assert(new.list(l)[i] == lst[i]);
        } else {
            assert(new.list(l)[i] == lst[i + 1]);
        }
    }
    if l != SlabList::Low {
        lemma_list_unchanged(v, new, SlabList::Low);
    }
    if l != SlabList::High {
        lemma_list_unchanged(v, new, SlabList::High);
    }
    if l != SlabList::Full {
        lemma_list_unchanged(v, new, SlabList::Full);
    }
    assert(new.list_wf(SlabList::Low));
    assert(new.list_wf(SlabList::High));
    assert(new.list_wf(SlabList::Full));
    lemma_free_sum_remove(lst, k);
    lemma_free_sums(new);
    let cnt = v.slab_count();
    let ops = v.objects_per_slab as int;
    assert((cnt - 1) * ops == cnt * ops - ops) by (nonlinear_arith);
    assert(new.low.len() * ops + new.high.len() * ops <= (cnt - 1) * ops) by (nonlinear_arith)
        requires
            new.low.len() + new.high.len() <= cnt - 1,
            ops >= 0,
    ;
    assert((cnt - 1) * v.slab_size <= cnt * v.slab_size) by (nonlinear_arith)
        requires
            cnt >= 1,
    ;
    assert(new.statistics_wf());
    // the slab goes back to the backend
    let rc = v.reclaim_calls(s);
    assert(rc[0] == BackendCall::FreeSlab { slab_addr: s.slab_addr, slab_size: v.slab_size, page_size: v.page_size });
    crate::backend::lemma_held_push(v.calls, rc[0]);
    let rest = rc.drop_first();
    assert forall|i: int| 0 <= i < rest.len() implies !(rest[i] is AllocSlab) && !(
    rest[i] is FreeSlab) by {
        assert(rest[i] == rc[i + 1]);
    }
    crate::backend::lemma_held_append_neutral(v.calls.push(rc[0]), rest);
    assert(v.calls + rc =~= v.calls.push(rc[0]) + rest);
    assert(v.has_slab_at(s.slab_addr));
    // its metadata storage goes back too, for large objects
    crate::backend::lemma_held_info_push(v.calls, rc[0]);
    let pages = if v.is_small_single_page() {
        Seq::<BackendCall>::empty()
    } else {
        crate::backend::page_deletions(s.slab_addr, v.page_size, (v.slab_size / v.page_size) as nat)
    };
    if v.object_size_type == ObjectSizeType::Large {
        let fi = BackendCall::FreeSlabInfo { slab_info_addr: s.slab_info_addr };
        assert(rc =~= seq![rc[0], fi] + pages);
        crate::backend::lemma_held_info_push(v.calls.push(rc[0]), fi);
        crate::backend::lemma_held_info_append_neutral(v.calls.push(rc[0]).push(fi), pages);
        assert(v.calls + rc =~= v.calls.push(rc[0]).push(fi) + pages);
        assert(v.has_slab_info_at(s.slab_info_addr));
        assert(held_slab_infos(v.calls).count(s.slab_info_addr) == 1);
        crate::lemmas::lemma_infos_remove(v.slabs(), s);
        assert(new.calls == v.calls + rc);
        assert(held_slab_infos(new.calls) == held_slab_infos(v.calls).remove(s.slab_info_addr));
        assert(releases_only_held_slab_infos(new.calls));
    } else {
        assert(rc =~= seq![rc[0]] + pages);
        crate::backend::lemma_held_info_append_neutral(v.calls.push(rc[0]), pages);
        assert(v.calls + rc =~= v.calls.push(rc[0]) + pages);
        assert(held_slab_infos(new.calls) == held_slab_infos(v.calls));
    }
    assert forall|i: usize|
        v.object_size_type == ObjectSizeType::Large implies #[trigger] new.has_slab_info_at(i) == (
        v.has_slab_info_at(i) && i != s.slab_info_addr) by {
        if new.has_slab_info_at(i) {
            let t = choose|t: SlabView| #[trigger] new.slabs().contains(t) && t.slab_info_addr == i;
            assert(v.slabs().contains(t) && t != s);
            assert(v.slabs().contains(s));
        }
        if v.has_slab_info_at(i) && i != s.slab_info_addr {
            let t = choose|t: SlabView| #[trigger] v.slabs().contains(t) && t.slab_info_addr == i;
            assert(new.slabs().contains(t));
        }
    }
    assert forall|i: usize| #[trigger] held_slab_infos(new.calls).count(i) == if new.object_size_type
        == ObjectSizeType::Large && new.has_slab_info_at(i) {
        1nat
    } else {
        0nat
    } by {
        assert(held_slab_infos(v.calls).count(i) == if v.object_size_type == ObjectSizeType::Large
            && v.has_slab_info_at(i) {
            1nat
        } else {
            0nat
        });
    }
    assert(new.slab_info_wf());
    // the page associations of the other slabs stay
    if !new.is_small_single_page() {
        let k = (v.slab_size / v.page_size) as nat;
        let pre = if v.object_size_type == ObjectSizeType::Large {
            seq![rc[0], BackendCall::FreeSlabInfo { slab_info_addr: s.slab_info_addr }]
        } else {
            seq![rc[0]]
        };
        assert(rc =~= pre + pages);
        assert(v.calls + rc =~= (v.calls + pre) + pages);
        crate::backend::lemma_association_append_neutral(v.calls, pre);
        vstd::arithmetic::div_mod::lemma_fundamental_div_mod(v.slab_size as int, v.page_size as int);
        assert forall|t: SlabView, x: usize|
            #![trigger new.slabs().contains(t), new.holds(t, x)]
            new.slabs().contains(t) && new.holds(t, x) implies page_association(
                new.calls,
                new.page_of(x),
            ) == Some(t.slab_info_addr) by {
            assert(v.slabs().contains(t) && t != s && v.holds(t, x));
            assert(v.slabs().contains(s));
            assert(far_apart(s.slab_addr, t.slab_addr, v.slab_size));
            assert(v.slab_wf(t)) by {
                let pos = lemma_member_list(v, t);
                assert(v.slab_wf(v.list(pos.0)[pos.1]));
            }
            lemma_slot_in_slab(v, t, x);
            lemma_page_in_slab(v, t, x);
            assert forall|i: int| 0 <= i < k implies #[trigger] ((s.slab_addr + i * v.page_size) as usize)
                != v.page_of(x) by {
                assert(i * v.page_size < v.slab_size) by (nonlinear_arith)
                    requires
                        0 <= i < v.slab_size / v.page_size,
                        v.slab_size == v.page_size * (v.slab_size / v.page_size) + v.slab_size
                            % v.page_size,
                        v.slab_size % v.page_size == 0,
                        v.page_size > 0,
                ;
                assert(0 <= i * v.page_size) by (nonlinear_arith)
                    requires
                        0 <= i,
                        v.page_size > 0,
                ;
            }
            lemma_association_after_deletions(v.calls + pre, s.slab_addr, v.page_size, k, v.page_of(x));
        }
    }
    assert forall|b: usize| #[trigger] new.has_slab_at(b) == (v.has_slab_at(b) && b != s.slab_addr) by {
        if new.has_slab_at(b) {
            let t = choose|t: SlabView| #[trigger] new.slabs().contains(t) && t.slab_addr == b;
            assert(v.slabs().contains(t) && t != s);
            assert(far_apart(s.slab_addr, t.slab_addr, v.slab_size));
        }
        if v.has_slab_at(b) && b != s.slab_addr {
            let t = choose|t: SlabView| #[trigger] v.slabs().contains(t) && t.slab_addr == b;
            assert(new.slabs().contains(t));
        }
    }
    assert forall|b: usize| #[trigger] held_slabs(new.calls).count(b) == if new.has_slab_at(b) {
        1nat
    } else {
        0nat
    } by {
        assert(held_slabs(v.calls).count(b) == if v.has_slab_at(b) {
            1nat
        } else {
            0nat
        });
    }
    assert(new.backend_wf());
    // `s` held `a` alone
    let os = v.object_size;
    let ops_u = v.objects_per_slab;
    assert forall|x: usize| v.holds(s, x) implies x == a by {
        if x != a {
            let rem = s.allocated_objects(os, ops_u).remove(a);
            assert(rem.len() == 0);
            assert(rem.contains(x));
        }
    }
    assert forall|x: usize| #[trigger] new.is_allocated(x) <==> (v.is_allocated(x) && x != a) by {
        if new.is_allocated(x) {
            let t = choose|t: SlabView| #[trigger] new.slabs().contains(t) && new.holds(t, x);
            assert(v.slabs().contains(t) && t != s && v.holds(t, x));
        }
        if v.is_allocated(x) && x != a {
            let t = choose|t: SlabView| #[trigger] v.slabs().contains(t) && v.holds(t, x);
            assert(t != s);
            assert(new.slabs().contains(t) && new.holds(t, x));
        }
    }
}

proof fn lemma_release_keep(v: CacheView, a: usize)
    requires
        v.wf(),
        v.is_allocated(a),
        0 <= v.holder(a).1 < v.list(v.holder(a).0).len(),
        v.holds(v.holder_slab(a), a),
        v.slabs().contains(v.holder_slab(a)),
        v.allocated_in(v.holder_slab(a)) > 1,
        forall|t: SlabView| #[trigger] v.slabs().contains(t) && t != v.holder_slab(a) ==> !v.holds(t, a),
        v.slab_wf(v.holder_slab(a)),
        v.fits_list(v.holder_slab(a), v.holder(a).0),
        ({
            let s = v.holder_slab(a);
            let s2 = s.with_free_objects(s.free_objects.push(a));
            &&& v.slab_wf(s2)
            &&& forall|x: usize| #[trigger] v.holds(s2, x) <==> (v.holds(s, x) && x != a)
        }),
    ensures
        v.released(a).wf(),
        forall|x: usize| #[trigger] v.released(a).is_allocated(x) <==> (v.is_allocated(x) && x != a),
{
    let (l, k) = v.holder(a);
    let lst = v.list(l);
    let s = lst[k];
    let s2 = s.with_free_objects(s.free_objects.push(a));
    let new = v.released(a);
    let left = v.allocated_in(s2);
    let dest = if left >= v.high_occupancy_minimum {
        SlabList::High
    } else {
        SlabList::Low
    };
    lemma_threshold_below(v);
    lemma_free_sums(v);
    let moves = l == SlabList::Full || (l == SlabList::High && dest == SlabList::Low);
    if moves {
        let without = v.with_list(l, lst.remove(k));
        assert(without.list(dest).insert(0, s2).to_multiset() == without.list(dest).to_multiset().insert(s2));
        assert(new.slabs() =~= v.slabs().remove(s).insert(s2));
        lemma_free_sum_remove(lst, k);
        lemma_free_sum_insert_front(without.list(dest), s2);
        assert forall|i: int| 0 <= i < new.list(l).len() implies new.slab_wf(#[trigger] new.list(l)[i])
            && new.fits_list(new.list(l)[i], l) && (l != SlabList::Full ==> new.allocated_in(new.list(l)[i]) >= 1) by {
            if i < k {
                assert(new.list(l)[i] == lst[i]);
            } else {
                assert(new.list(l)[i] == lst[i + 1]);
            }
        }
        assert forall|i: int| 0 <= i < new.list(dest).len() implies new.slab_wf(#[trigger] new.list(dest)[i])
            && new.fits_list(new.list(dest)[i], dest) && new.allocated_in(new.list(dest)[i]) >= 1 by {
            if i > 0 {
                assert(new.list(dest)[i] == v.list(dest)[i - 1]);
            }
        }
    } else {
        assert(new.slabs() =~= v.slabs().remove(s).insert(s2));
        lemma_free_sum_update(lst, k, s2);
        assert forall|i: int| 0 <= i < new.list(l).len() implies new.slab_wf(#[trigger] new.list(l)[i])
            && new.fits_list(new.list(l)[i], l) && new.allocated_in(new.list(l)[i]) >= 1 by {
            if i != k {
                assert(new.list(l)[i] == lst[i]);
            }
        }
    }
    let touched = |m: SlabList| m == l || (moves && m == dest);
    if !touched(SlabList::Low) {
        lemma_list_unchanged(v, new, SlabList::Low);
    }
    if !touched(SlabList::High) {
        lemma_list_unchanged(v, new, SlabList::High);
    }
    if !touched(SlabList::Full) {
        lemma_list_unchanged(v, new, SlabList::Full);
    }
    assert(new.list_wf(SlabList::Low));
    assert(new.list_wf(SlabList::High));
    assert(new.list_wf(SlabList::Full));
    lemma_apart_replace(v.slabs(), s, s2, v.slab_size);
    lemma_free_sums(new);
    let cnt = v.slab_count();
    let ops = v.objects_per_slab as int;
    assert(new.slab_count() == cnt);
    assert(new.low.len() * ops + new.high.len() * ops <= cnt * ops) by (nonlinear_arith)
        requires
            new.low.len() + new.high.len() <= cnt,
            ops >= 0,
    ;
    assert(new.statistics.free_slabs_number == new.low.len() + new.high.len());
    assert(new.statistics.full_slabs_number == new.full.len());
    assert(new.statistics.free_objects_number == free_sum(new.low) + free_sum(new.high));
    assert(new.statistics.allocated_objects_number == new.slab_count() * new.objects_per_slab
        - free_sum(new.low) - free_sum(new.high));
    assert(new.statistics_wf());
    assert forall|b: usize| new.has_slab_at(b) == v.has_slab_at(b) by {
        if new.has_slab_at(b) {
            let t = choose|t: SlabView| #[trigger] new.slabs().contains(t) && t.slab_addr == b;
            if t == s2 {
                assert(v.slabs().contains(s));
            }
        }
        if v.has_slab_at(b) {
            let t = choose|t: SlabView| #[trigger] v.slabs().contains(t) && t.slab_addr == b;
            if t == s {
                assert(new.slabs().contains(s2));
            } else {
                assert(new.slabs().contains(t));
            }
        }
    }
    assert(new.backend_wf());
    lemma_info_wf_replace(v, new, s, s2);
    lemma_associations_shrink(v, new, s, s2);
    assert forall|x: usize| #[trigger] new.is_allocated(x) <==> (v.is_allocated(x) && x != a) by {
        if new.is_allocated(x) {
            let t = choose|t: SlabView| #[trigger] new.slabs().contains(t) && new.holds(t, x);
            if t == s2 {
                assert(v.holds(s2, x));
                assert(v.slabs().contains(s) && v.holds(s, x));
            } else {
                assert(v.slabs().contains(t) && v.holds(t, x));
                assert(t != s);
            }
        }
        if v.is_allocated(x) && x != a {
            let t = choose|t: SlabView| #[trigger] v.slabs().contains(t) && v.holds(t, x);
            if t == s {
                assert(v.holds(s2, x));
                assert(new.slabs().contains(s2) && new.holds(s2, x));
            } else {
                assert(new.slabs().contains(t) && new.holds(t, x));
            }
        }
    }
}

/// Calls that leave the held slabs as they were keep the invariant.
pub proof fn lemma_log_neutral(v: CacheView, c: Seq<BackendCall>)
    requires
        v.wf(),
        held_slabs(v.calls + c) == held_slabs(v.calls),
        releases_only_held(v.calls + c),
        held_slab_infos(v.calls + c) == held_slab_infos(v.calls),
        releases_only_held_slab_infos(v.calls + c),
        forall|p: usize| #[trigger] page_association(v.calls + c, p) == page_association(v.calls, p),
    ensures
        v.log(c).wf(),
        forall|a: usize| #[trigger] v.log(c).is_allocated(a) == v.is_allocated(a),
{
    let w = v.log(c);
    assert(w.slabs() == v.slabs());
    if !w.is_small_single_page() {
        assert forall|t: SlabView, x: usize|
            #![trigger w.slabs().contains(t), w.holds(t, x)]
            w.slabs().contains(t) && w.holds(t, x) implies page_association(w.calls, w.page_of(x))
            == Some(t.slab_info_addr) by {
            assert(v.slabs().contains(t) && v.holds(t, x));
        }
    }
    assert forall|i: usize| #[trigger] held_slab_infos(w.calls).count(i) == if w.object_size_type
        == ObjectSizeType::Large && w.has_slab_info_at(i) {
        1nat
    } else {
        0nat
    } by {
        assert(held_slab_infos(v.calls).count(i) == if v.object_size_type == ObjectSizeType::Large
            && v.has_slab_info_at(i) {
            1nat
        } else {
            0nat
        });
    }
    assert forall|b: usize| #[trigger] w.has_slab_at(b) == v.has_slab_at(b) by {}
    assert forall|b: usize| #[trigger] held_slabs(w.calls).count(b) == if w.has_slab_at(b) {
        1nat
    } else {
        0nat
    } by {
        assert(held_slabs(v.calls).count(b) == if v.has_slab_at(b) {
            1nat
        } else {
            0nat
        });
    }
    lemma_list_unchanged(v, w, SlabList::Low);
    lemma_list_unchanged(v, w, SlabList::High);
    lemma_list_unchanged(v, w, SlabList::Full);
    assert forall|a: usize| #[trigger] w.is_allocated(a) == v.is_allocated(a) by {
        if w.is_allocated(a) {
            let t = choose|t: SlabView| #[trigger] w.slabs().contains(t) && w.holds(t, a);
            assert(v.slabs().contains(t) && v.holds(t, a));
        }
        if v.is_allocated(a) {
            let t = choose|t: SlabView| #[trigger] v.slabs().contains(t) && v.holds(t, a);
            assert(w.slabs().contains(t) && w.holds(t, a));
        }
    }
}

/// A slab that the backend handed out and got straight back leaves the held slabs as they
/// were, with calls in between that neither take nor give back a slab.
pub proof fn lemma_held_round_trip(calls: Seq<BackendCall>, c: Seq<BackendCall>, slab_addr: usize)
    requires
        c.len() >= 2,
        slab_addr != 0,
        c[0] matches BackendCall::AllocSlab { result, .. } && result == slab_addr,
        c.last() matches BackendCall::FreeSlab { slab_addr: a, .. } && a == slab_addr,
        forall|i: int| 1 <= i < c.len() - 1 ==> !(c[i] is AllocSlab) && !(c[i] is FreeSlab),
        releases_only_held(calls),
    ensures
        held_slabs(calls + c) == held_slabs(calls),
        releases_only_held(calls + c),
{
    let init = c.drop_last();
    lemma_held_after_alloc_slab(calls, init, slab_addr);
    assert(calls + c =~= (calls + init).push(c.last()));
    crate::backend::lemma_held_push(calls + init, c.last());
    assert(held_slabs(calls).insert(slab_addr).remove(slab_addr) =~= held_slabs(calls));
}

/// The counters have room for what giving back an object does to them.
pub proof fn lemma_release_ranges(v: CacheView, a: usize)
    requires
        v.wf(),
        v.is_allocated(a),
    ensures
        v.statistics.allocated_objects_number >= 1,
        v.statistics.free_objects_number >= v.holder_slab(a).free_objects.len(),
        v.statistics.free_objects_number + 1 <= usize::MAX,
        v.holder(a).0 == SlabList::Full ==> v.statistics.full_slabs_number >= 1
            && v.statistics.free_slabs_number + 1 <= usize::MAX,
        v.holder(a).0 != SlabList::Full ==> v.statistics.free_slabs_number >= 1,
        v.holder(a).0 == SlabList::Full ==> v.holder_slab(a).free_objects.len() == 0,
{
    lemma_holder_exists(v, a);
    let (l, k) = v.holder(a);
    let lst = v.list(l);
    let s = lst[k];
    assert(v.slab_wf(s) && v.fits_list(s, l));
    assert(s.allocated_objects(v.object_size, v.objects_per_slab).contains(a));
    lemma_threshold_below(v);
    lemma_free_sums(v);
    let ops = v.objects_per_slab as int;
    let cnt = v.slab_count();
    let lh = (v.low.len() + v.high.len()) as int;
    if l != SlabList::Full {
        lemma_free_sum_remove(lst, k);
        let rest = lst.remove(k);
        assert forall|i: int| 0 <= i < rest.len() implies (#[trigger] rest[i]).free_objects.len()
            <= ops by {
            if i < k {
                assert(rest[i] == lst[i]);
            } else {
                assert(rest[i] == lst[i + 1]);
            }
            assert(v.slab_wf(lst[i]));
            assert(v.slab_wf(lst[i + 1]));
        }
        lemma_free_sum_bounds(rest, ops);
        let other = if l == SlabList::Low {
            v.high
        } else {
            v.low
        };
        assert(free_sum(v.low) + free_sum(v.high) <= (lh - 1) * ops + s.free_objects.len()) by {
            assert(rest.len() * ops + other.len() * ops == (lh - 1) * ops) by (nonlinear_arith)
                requires
                    rest.len() + other.len() == lh - 1,
            ;
        }
        assert(cnt * ops - (lh - 1) * ops >= ops) by (nonlinear_arith)
            requires
                cnt >= lh,
                ops >= 0,
        ;
    } else {
        assert(v.low.len() * ops + v.high.len() * ops <= (cnt - 1) * ops) by (nonlinear_arith)
            requires
                v.low.len() + v.high.len() <= cnt - 1,
                ops >= 0,
        ;
        assert(cnt * ops - (cnt - 1) * ops == ops) by (nonlinear_arith);
    }
}

/// An address inside a page-aligned region of one page rounds down to the region's start.
pub proof fn lemma_page_of(base: usize, a: usize, page_size: usize)
    requires
        page_size > 0,
        base % page_size == 0,
        base <= a < base + page_size,
    ensures
        a - a % page_size == base,
{
    let q = base / page_size;
    vstd::arithmetic::div_mod::lemma_fundamental_div_mod(base as int, page_size as int);
    vstd::arithmetic::div_mod::lemma_mod_multiples_vanish(q as int, (a - base) as int, page_size as int);
    vstd::arithmetic::div_mod::lemma_small_mod((a - base) as nat, page_size as nat);
    assert(page_size * q + (a - base) == a);
}

/// What an allocation does, stated over the cache's model: the invariant holds afterwards,
/// and the object handed out, if any, is the one new allocated object.
pub proof fn lemma_alloc_outcome(v: CacheView, new: CacheView, r: usize)
    requires
        v.wf(),
        v.alloc_outcome(new, r),
    ensures
        new.wf(),
        r != 0 ==> !v.is_allocated(r),
        r != 0 ==> forall|a: usize| #[trigger] new.is_allocated(a) <==> (v.is_allocated(a) || a == r),
        r == 0 ==> forall|a: usize| #[trigger] new.is_allocated(a) == v.is_allocated(a),
{
    let n = v.calls.len() as int;
    if v.low.len() > 0 || v.high.len() > 0 {
        lemma_take(v);
    } else {
        let c0 = new.calls[n];
        let s = c0->AllocSlab_result;
        let back = BackendCall::FreeSlab { slab_addr: s, slab_size: v.slab_size, page_size: v.page_size };
        let v1 = v.log(seq![c0]);
        if s == 0 {
            crate::backend::lemma_held_push(v.calls, c0);
            assert(v.calls + seq![c0] =~= v.calls.push(c0));
            crate::backend::lemma_held_info_append_neutral(v.calls, seq![c0]);
            crate::backend::lemma_association_append_neutral(v.calls, seq![c0]);
            lemma_log_neutral(v, seq![c0]);
        } else if !v.slab_usable(s) {
            lemma_held_round_trip(v.calls, seq![c0, back], s);
            assert(v.calls + seq![c0] + seq![back] =~= v.calls + seq![c0, back]);
            crate::backend::lemma_held_info_append_neutral(v.calls, seq![c0, back]);
            crate::backend::lemma_association_append_neutral(v.calls, seq![c0, back]);
            lemma_log_neutral(v, seq![c0, back]);
        } else if v.object_size_type == ObjectSizeType::Small {
            let info = crate::model::small_slab_info_addr(s as int, v.slab_size as int) as usize;
            let top = s + v.slab_size - vstd::layout::size_of::<crate::cache::SlabInfo>();
            lemma_aligned_below(top as int, vstd::layout::align_of::<crate::cache::SlabInfo>() as int);
            lemma_new_slab(v, seq![c0], s, info);
            lemma_take(v1.with_new_slab(s, info));
        } else {
            let c1 = new.calls[n + 1];
            let info = c1->AllocSlabInfo_result;
            if info == 0 {
                lemma_held_round_trip(v.calls, seq![c0, c1, back], s);
                assert(v.calls + seq![c0] + seq![c1] + seq![back] =~= v.calls + seq![c0, c1, back]);
                crate::backend::lemma_held_info_append_neutral(v.calls, seq![c0, c1, back]);
                crate::backend::lemma_association_append_neutral(v.calls, seq![c0, c1, back]);
                lemma_log_neutral(v, seq![c0, c1, back]);
            } else if v.has_slab_info_at(info) {
                let fi = BackendCall::FreeSlabInfo { slab_info_addr: info };
                assert(c1 == BackendCall::AllocSlabInfo { result: info });
                lemma_held_round_trip(v.calls, seq![c0, c1, fi, back], s);
                lemma_info_round_trip(v.calls, c0, info, back);
                assert(v.calls + seq![c0] + seq![c1] + (seq![fi] + seq![back]) =~= v.calls + seq![
                    c0,
                    c1,
                    fi,
                    back,
                ]);
                crate::backend::lemma_association_append_neutral(v.calls, seq![c0, c1, fi, back]);
                lemma_log_neutral(v, seq![c0, c1, fi, back]);
            } else {
                assert(c1 == BackendCall::AllocSlabInfo { result: info });
                assert(v.calls + seq![c0] + seq![c1] =~= v.calls + seq![c0, c1]);
                assert(v1.log(seq![c1]) == v.log(seq![c0, c1]));
                lemma_new_slab(v, seq![c0, c1], s, info);
                lemma_take(v.log(seq![c0, c1]).with_new_slab(s, info));
            }
        }
    }
}

/// What giving back an object does, stated over the cache's model.
pub proof fn lemma_free_outcome(v: CacheView, new: CacheView, a: usize, ok: bool)
    requires
        v.wf(),
        v.is_allocated(a),
        v.free_outcome(new, a, ok),
    ensures
        new.wf(),
        ok ==> forall|x: usize| #[trigger] new.is_allocated(x) <==> (v.is_allocated(x) && x != a),
        !ok ==> forall|x: usize| #[trigger] new.is_allocated(x) == v.is_allocated(x),
        v.is_small_single_page() ==> ok,
{
    if v.is_small_single_page() {
        lemma_release(v, a);
    } else {
        let n = v.calls.len() as int;
        let c = seq![new.calls[n]];
        crate::backend::lemma_held_append_neutral(v.calls, c);
        crate::backend::lemma_held_info_append_neutral(v.calls, c);
        crate::backend::lemma_association_append_neutral(v.calls, c);
        lemma_log_neutral(v, c);
        let v1 = v.log(c);
        lemma_holder_exists(v, a);
        let (l, k) = v.holder(a);
        lemma_slot_in_slab(v, v.holder_slab(a), a);
        lemma_holder(v1, a, l, k);
        if ok {
            lemma_release(v1, a);
        }
    }
}

/// Rounding a natural number down to a multiple of `d` stays between zero and it.
pub proof fn lemma_aligned_below(x: int, d: int)
    requires
        x >= 0,
        d > 0,
    ensures
        0 <= x - x % d <= x,
{
    vstd::arithmetic::div_mod::lemma_fundamental_div_mod(x, d);
    vstd::arithmetic::div_mod::lemma_mod_pos_bound(x, d);
    assert(x / d >= 0) by {
        vstd::arithmetic::div_mod::lemma_div_pos_is_pos(x, d);
    }
    assert(d * (x / d) >= 0) by (nonlinear_arith)
        requires
            d > 0,
            x / d >= 0,
    ;
}

/// How giving back an object moves the counters.
pub proof fn lemma_released_counters(v: CacheView, a: usize)
    requires
        v.wf(),
        v.is_allocated(a),
    ensures
        v.counters_after_release(a, v.released(a).statistics),
{
    lemma_release_ranges(v, a);
    lemma_holder_exists(v, a);
    lemma_threshold_below(v);
    let (l, k) = v.holder(a);
    assert(v.slab_wf(v.list(l)[k]) && v.fits_list(v.list(l)[k], l));
    if l != SlabList::Full {
        assert(v.allocated_in(v.holder_slab(a)) < v.objects_per_slab);
    }
}

/// An operation that replaces one slab by another with the same metadata address, and
/// obtains or gives back no metadata storage, keeps the storage rules.
pub proof fn lemma_info_wf_replace(v: CacheView, w: CacheView, s: SlabView, s2: SlabView)
    requires
        v.inner_wf(),
        v.slabs().contains(s),
        w.slabs() == v.slabs().remove(s).insert(s2),
        s2.slab_info_addr == s.slab_info_addr,
        s2.slab_addr == s.slab_addr,
        w.object_size_type == v.object_size_type,
        held_slab_infos(w.calls) == held_slab_infos(v.calls),
        releases_only_held_slab_infos(w.calls) == releases_only_held_slab_infos(v.calls),
    ensures
        w.slab_info_wf(),
{
    crate::lemmas::lemma_apart_replace(v.slabs(), s, s2, v.slab_size);
    assert forall|i: usize| w.has_slab_info_at(i) == v.has_slab_info_at(i) by {
        if w.has_slab_info_at(i) {
            let t = choose|t: SlabView| #[trigger] w.slabs().contains(t) && t.slab_info_addr == i;
            if t == s2 {
                assert(v.slabs().contains(s));
            }
        }
        if v.has_slab_info_at(i) {
            let t = choose|t: SlabView| #[trigger] v.slabs().contains(t) && t.slab_info_addr == i;
            if t == s {
                assert(w.slabs().contains(s2));
            } else {
                assert(w.slabs().contains(t));
            }
        }
    }
    assert forall|i: usize| #[trigger] held_slab_infos(w.calls).count(i) == if w.object_size_type
        == ObjectSizeType::Large && w.has_slab_info_at(i) {
        1nat
    } else {
        0nat
    } by {
        assert(held_slab_infos(v.calls).count(i) == if v.object_size_type == ObjectSizeType::Large
            && v.has_slab_info_at(i) {
            1nat
        } else {
            0nat
        });
    }
    if v.object_size_type == ObjectSizeType::Large {
        crate::lemmas::lemma_infos_replace(v.slabs(), s, s2);
    }
}

/// Metadata storage handed out and handed straight back leaves the storage held as it was.
pub proof fn lemma_info_round_trip(calls: Seq<BackendCall>, c0: BackendCall, info: usize, back: BackendCall)
    requires
        !(c0 is AllocSlabInfo) && !(c0 is FreeSlabInfo),
        !(back is AllocSlabInfo) && !(back is FreeSlabInfo),
        info != 0,
    ensures
        ({
            let c = seq![
                c0,
                BackendCall::AllocSlabInfo { result: info },
                BackendCall::FreeSlabInfo { slab_info_addr: info },
                back,
            ];
            &&& held_slab_infos(calls + c) == held_slab_infos(calls)
            &&& releases_only_held_slab_infos(calls + c) == releases_only_held_slab_infos(calls)
        }),
{
    let c1 = BackendCall::AllocSlabInfo { result: info };
    let c2 = BackendCall::FreeSlabInfo { slab_info_addr: info };
    let c = seq![c0, c1, c2, back];
    crate::backend::lemma_held_info_push(calls, c0);
    crate::backend::lemma_held_info_push(calls.push(c0), c1);
    crate::backend::lemma_held_info_push(calls.push(c0).push(c1), c2);
    crate::backend::lemma_held_info_push(calls.push(c0).push(c1).push(c2), back);
    assert(calls + c =~= calls.push(c0).push(c1).push(c2).push(back));
    assert(held_slab_infos(calls).insert(info).remove(info) =~= held_slab_infos(calls));
}

/// The page of an object of a slab lies inside the slab.
pub proof fn lemma_page_in_slab(v: CacheView, s: SlabView, a: usize)
    requires
        v.config_wf(),
        s.slab_addr % v.page_size == 0,
        s.slab_addr <= a < s.slab_addr + v.slab_size,
    ensures
        s.slab_addr <= v.page_of(a) <= a,
{
    let p = v.page_size as int;
    vstd::arithmetic::div_mod::lemma_fundamental_div_mod(a as int, p);
    vstd::arithmetic::div_mod::lemma_fundamental_div_mod(s.slab_addr as int, p);
    vstd::arithmetic::div_mod::lemma_mod_pos_bound(a as int, p);
    vstd::arithmetic::div_mod::lemma_div_is_ordered(s.slab_addr as int, a as int, p);
    assert(p * (s.slab_addr as int / p) <= p * (a as int / p)) by (nonlinear_arith)
        requires
            s.slab_addr as int / p <= a as int / p,
            p > 0,
    ;
}

/// Pages of two slabs that are apart differ.
pub proof fn lemma_pages_apart(v: CacheView, s: SlabView, t: SlabView, a: usize, b: usize)
    requires
        v.config_wf(),
        far_apart(s.slab_addr, t.slab_addr, v.slab_size),
        s.slab_addr % v.page_size == 0,
        t.slab_addr % v.page_size == 0,
        s.slab_addr <= a < s.slab_addr + v.slab_size,
        t.slab_addr <= b < t.slab_addr + v.slab_size,
    ensures
        v.page_of(a) != v.page_of(b),
{
    lemma_page_in_slab(v, s, a);
    lemma_page_in_slab(v, t, b);
}

/// Deleting the associations of pages other than `p` leaves that of `p`.
pub proof fn lemma_association_after_deletions(
    calls: Seq<BackendCall>,
    base: usize,
    page_size: usize,
    k: nat,
    p: usize,
)
    requires
        forall|i: int| 0 <= i < k ==> #[trigger] ((base + i * page_size) as usize) != p,
    ensures
        page_association(calls + crate::backend::page_deletions(base, page_size, k), p)
            == page_association(calls, p),
    decreases k,
{
    let d = crate::backend::page_deletions(base, page_size, k);
    if k == 0 {
        assert(calls + d =~= calls);
    } else {
        let d0 = crate::backend::page_deletions(base, page_size, (k - 1) as nat);
        lemma_association_after_deletions(calls, base, page_size, (k - 1) as nat, p);
        assert(d =~= d0.push(d[k - 1]));
        assert(calls + d =~= (calls + d0).push(d[k - 1]));
        crate::backend::lemma_association_push(calls + d0, d[k - 1]);
    }
}

/// A slab replaced by one that holds fewer objects, with no association recorded or
/// deleted, keeps the associations right.
pub proof fn lemma_associations_shrink(v: CacheView, w: CacheView, s: SlabView, s2: SlabView)
    requires
        v.inner_wf(),
        v.slabs().contains(s),
        w.slabs() == v.slabs().remove(s).insert(s2),
        same_config(v, w),
        s2.slab_info_addr == s.slab_info_addr,
        forall|p: usize| #[trigger] page_association(w.calls, p) == page_association(v.calls, p),
        forall|x: usize| #[trigger] v.holds(s2, x) ==> v.holds(s, x),
    ensures
        w.associations_wf(),
{
    if !w.is_small_single_page() {
        assert forall|t: SlabView, x: usize|
            #![trigger w.slabs().contains(t), w.holds(t, x)]
            w.slabs().contains(t) && w.holds(t, x) implies page_association(w.calls, w.page_of(x))
            == Some(t.slab_info_addr) by {
            assert(v.slabs().count(s) <= 1);
            if t == s2 {
                assert(v.holds(s2, x));
                assert(v.slabs().contains(s) && v.holds(s, x));
            } else {
                assert(v.slabs().contains(t) && v.holds(t, x));
            }
        }
    }
}

/// Handing out `v.taken()` keeps the associations right: its page is recorded, or is one
/// page of a one-page slab whose page was recorded with an earlier object.
pub proof fn lemma_associations_take(v: CacheView, new: CacheView, s: SlabView, s2: SlabView)
    requires
        v.inner_wf(),
        v.low.len() > 0 || v.high.len() > 0,
        s == v.chosen(),
        v.slabs().contains(s),
        v.slab_wf(s),
        new.slabs() == v.slabs().remove(s).insert(s2),
        same_config(v, new),
        s2.slab_info_addr == s.slab_info_addr,
        s2.slab_addr == s.slab_addr,
        new.calls == v.calls + v.save_calls(),
        s.is_slot(v.object_size, v.objects_per_slab, v.taken()),
        forall|x: usize| #[trigger] v.holds(s2, x) <==> (v.holds(s, x) || x == v.taken()),
    ensures
        new.associations_wf(),
{
    let r = v.taken();
    if !new.is_small_single_page() {
        let sc = v.save_calls();
        assert forall|p: usize| p != v.page_of(r) implies #[trigger] page_association(new.calls, p)
            == page_association(v.calls, p) by {
            if sc.len() > 0 {
                assert(v.calls + sc =~= v.calls.push(sc[0]));
                crate::backend::lemma_association_push(v.calls, sc[0]);
            } else {
                assert(v.calls + sc =~= v.calls);
            }
        }
        assert(page_association(new.calls, v.page_of(r)) == Some(s.slab_info_addr)) by {
            if sc.len() > 0 {
                assert(v.calls + sc =~= v.calls.push(sc[0]));
                crate::backend::lemma_association_push(v.calls, sc[0]);
            } else {
                assert(v.calls + sc =~= v.calls);
                // a one-page slab with objects out already had its page recorded
                let set = s.allocated_objects(v.object_size, v.objects_per_slab);
                assert(set.len() >= 2);
                vstd::set::axiom_set_choose_len(set);
                let x = set.choose();
                assert(v.holds(s, x));
                lemma_slot_in_slab(v, s, x);
                lemma_slot_in_slab(v, s, r);
                lemma_page_in_slab(v, s, x);
                lemma_page_in_slab(v, s, r);
                crate::proofs::lemma_page_of(s.slab_addr, x, v.page_size);
                crate::proofs::lemma_page_of(s.slab_addr, r, v.page_size);
                assert(page_association(v.calls, v.page_of(x)) == Some(s.slab_info_addr));
            }
        }
        assert forall|t: SlabView, x: usize|
            #![trigger new.slabs().contains(t), new.holds(t, x)]
            new.slabs().contains(t) && new.holds(t, x) implies page_association(
                new.calls,
                new.page_of(x),
            ) == Some(t.slab_info_addr) by {
            assert(v.slabs().count(s) <= 1);
            if t == s2 {
                assert(v.holds(s2, x));
                if x != r {
                    assert(v.holds(s, x));
                    if v.page_of(x) != v.page_of(r) {
                        assert(page_association(v.calls, v.page_of(x)) == Some(s.slab_info_addr));
                    }
                }
            } else {
                assert(v.slabs().contains(t) && t != s && v.holds(t, x));
                assert(far_apart(s.slab_addr, t.slab_addr, v.slab_size));
                assert(v.slab_wf(t)) by {
                    let pos = lemma_member_list(v, t);
                    assert(v.slab_wf(v.list(pos.0)[pos.1]));
                }
                lemma_slot_in_slab(v, s, r);
                lemma_slot_in_slab(v, t, x);
                lemma_pages_apart(v, s, t, r, x);
            }
        }
    }
}

} // verus!
