//! Properties of the cache over whole runs of operations, proved over the model.

use vstd::multiset::Multiset;
use vstd::prelude::*;

use crate::backend::{
    held_slab_infos, held_slabs, releases_only_held, releases_only_held_slab_infos,
};
use crate::cache::ObjectSizeType;
use crate::model::{free_sum, same_config, CacheView, SlabList, SlabView};
use crate::proofs::{
    lemma_alloc_outcome, lemma_free_outcome, lemma_free_sums, lemma_list_member,
    lemma_threshold_below,
};

verus! {

/// Round trip: once every allocated object is given back, in any order, the cache holds
/// no slab, its counters are zero, and every slab and every metadata storage record that
/// the backend handed out was handed back exactly once.
pub proof fn free_all_returns_every_slab(states: Seq<CacheView>, freed: Seq<usize>)
    requires
        states.len() == freed.len() + 1,
        states[0].wf(),
        freed.no_duplicates(),
        forall|a: usize| #[trigger] states[0].is_allocated(a) <==> freed.contains(a),
        forall|i: int|
            0 <= i < freed.len() ==> #[trigger] states[i].free_outcome(states[i + 1], freed[i], true),
    ensures
        states.last().wf(),
        states.last().low.len() == 0,
        states.last().high.len() == 0,
        states.last().full.len() == 0,
        states.last().statistics.free_slabs_number == 0,
        states.last().statistics.full_slabs_number == 0,
        states.last().statistics.free_objects_number == 0,
        states.last().statistics.allocated_objects_number == 0,
        held_slabs(states.last().calls) =~= Multiset::empty(),
        releases_only_held(states.last().calls),
        held_slab_infos(states.last().calls) =~= Multiset::empty(),
        releases_only_held_slab_infos(states.last().calls),
{
    assert(freed.subrange(0, freed.len() as int) =~= freed);
    lemma_free_from(states, freed, 0);
    no_allocated_no_slabs(states.last());
}

proof fn lemma_free_from(states: Seq<CacheView>, freed: Seq<usize>, i: int)
    requires
        0 <= i <= freed.len(),
        states.len() == freed.len() + 1,
        freed.no_duplicates(),
        states[i].wf(),
        forall|a: usize| #[trigger] states[i].is_allocated(a) <==> freed.subrange(i, freed.len() as int).contains(a),
        forall|j: int|
            0 <= j < freed.len() ==> #[trigger] states[j].free_outcome(states[j + 1], freed[j], true),
    ensures
        states.last().wf(),
        forall|a: usize| !#[trigger] states.last().is_allocated(a),
    decreases freed.len() - i,
{
    if i < freed.len() {
        let a = freed[i];
        assert(freed.subrange(i, freed.len() as int)[0] == a);
        lemma_free_outcome(states[i], states[i + 1], a, true);
        assert forall|x: usize| #[trigger] states[i + 1].is_allocated(x) <==> freed.subrange(
            i + 1,
            freed.len() as int,
        ).contains(x) by {
            let tail = freed.subrange(i, freed.len() as int);
            let tail2 = freed.subrange(i + 1, freed.len() as int);
            if tail2.contains(x) {
                let j = choose|j: int| 0 <= j < tail2.len() && tail2[j] == x;
                assert(tail[j + 1] == x);
                assert(x != a);
            }
            if tail.contains(x) && x != a {
                let j = choose|j: int| 0 <= j < tail.len() && tail[j] == x;
                assert(j != 0);
                assert(tail2[j - 1] == x);
            }
        }
        lemma_free_from(states, freed, i + 1);
    } else {
        assert(states.last() == states[i]);
        assert forall|a: usize| !#[trigger] states.last().is_allocated(a) by {
            assert(freed.subrange(i, freed.len() as int).len() == 0);
        }
    }
}


/// A cache with no allocated object holds no slab, its counters are zero, and the backend
/// holds none of its slabs or metadata storage records.
pub proof fn no_allocated_no_slabs(v: CacheView)
    requires
        v.wf(),
        forall|a: usize| !#[trigger] v.is_allocated(a),
    ensures
        v.low.len() == 0,
        v.high.len() == 0,
        v.full.len() == 0,
        v.statistics.free_slabs_number == 0,
        v.statistics.full_slabs_number == 0,
        v.statistics.free_objects_number == 0,
        v.statistics.allocated_objects_number == 0,
        held_slabs(v.calls) =~= Multiset::empty(),
        releases_only_held(v.calls),
        held_slab_infos(v.calls) =~= Multiset::empty(),
        releases_only_held_slab_infos(v.calls),
{
    lemma_threshold_below(v);
    if v.low.len() > 0 {
        lemma_slab_holds_some(v, SlabList::Low, 0);
    }
    if v.high.len() > 0 {
        lemma_slab_holds_some(v, SlabList::High, 0);
    }
    if v.full.len() > 0 {
        lemma_slab_holds_some(v, SlabList::Full, 0);
    }
    assert(v.low =~= Seq::<SlabView>::empty());
    assert(v.high =~= Seq::<SlabView>::empty());
    assert(v.slab_count() == 0);
    vstd::arithmetic::mul::lemma_mul_basics(v.objects_per_slab as int);
    assert(v.slab_count() * v.objects_per_slab == 0);
    assert(free_sum(v.low) == 0 && free_sum(v.high) == 0);
    assert forall|b: usize| held_slabs(v.calls).count(b) == 0 by {
        if v.has_slab_at(b) {
            let t = choose|t: SlabView| #[trigger] v.slabs().contains(t) && t.slab_addr == b;
            let pos = crate::proofs::lemma_member_list(v, t);
        }
    }
    assert forall|i: usize| held_slab_infos(v.calls).count(i) == 0 by {
        if v.has_slab_info_at(i) {
            let t = choose|t: SlabView| #[trigger] v.slabs().contains(t) && t.slab_info_addr == i;
            let pos = crate::proofs::lemma_member_list(v, t);
        }
    }
}

/// Between two operations, each slab holds an allocated object.
proof fn lemma_slab_holds_some(v: CacheView, l: SlabList, k: int)
    requires
        v.wf(),
        0 <= k < v.list(l).len(),
    ensures
        exists|x: usize| #[trigger] v.is_allocated(x),
{
    lemma_threshold_below(v);
    let s = v.list(l)[k];
    assert(v.slab_wf(s) && v.fits_list(s, l));
    if l == SlabList::Low {
        assert(v.allocated_in(v.low[k]) >= 1);
    } else if l == SlabList::High {
        assert(v.allocated_in(v.high[k]) >= 1);
    }
    let set = s.allocated_objects(v.object_size, v.objects_per_slab);
    assert(set.len() >= 1);
    vstd::set::axiom_set_choose_len(set);
    let x = set.choose();
    lemma_list_member(v, l, k);
    assert(v.slabs().contains(s) && v.holds(s, x));
    assert(v.is_allocated(x));
}

/// Uniqueness: over a run of allocations without a free in between, the objects handed out
/// are pairwise distinct, and each is a slot of one of the cache's slabs, all of which the
/// backend handed out.
pub proof fn allocations_are_distinct(states: Seq<CacheView>, results: Seq<usize>)
    requires
        states.len() == results.len() + 1,
        states[0].wf(),
        forall|i: int| 0 <= i < results.len() ==> #[trigger] states[i].alloc_outcome(states[i + 1], results[i]),
    ensures
        forall|i: int, j: int|
            0 <= i < j < results.len() && results[i] != 0 && results[j] != 0 ==> results[i] != results[j],
        forall|i: int|
            0 <= i < results.len() && results[i] != 0 ==> #[trigger] states.last().is_allocated(results[i]),
        states.last().wf(),
{
    lemma_alloc_from(states, results, 0);
}

proof fn lemma_alloc_from(states: Seq<CacheView>, results: Seq<usize>, k: int)
    requires
        0 <= k <= results.len(),
        states.len() == results.len() + 1,
        states[k].wf(),
        forall|i: int| 0 <= i < results.len() ==> #[trigger] states[i].alloc_outcome(states[i + 1], results[i]),
        forall|i: int| 0 <= i < k && results[i] != 0 ==> #[trigger] states[k].is_allocated(results[i]),
        forall|i: int, j: int|
            0 <= i < j < k && results[i] != 0 && results[j] != 0 ==> results[i] != results[j],
    ensures
        forall|i: int, j: int|
            0 <= i < j < results.len() && results[i] != 0 && results[j] != 0 ==> results[i] != results[j],
        forall|i: int|
            0 <= i < results.len() && results[i] != 0 ==> #[trigger] states.last().is_allocated(results[i]),
        states.last().wf(),
    decreases results.len() - k,
{
    if k < results.len() {
        lemma_alloc_outcome(states[k], states[k + 1], results[k]);
        assert forall|i: int| 0 <= i < k + 1 && results[i] != 0 implies #[trigger] states[k + 1].is_allocated(results[i]) by {
            if i < k {
                assert(states[k].is_allocated(results[i]));
            }
        }
        assert forall|i: int, j: int|
            0 <= i < j < k + 1 && results[i] != 0 && results[j] != 0 implies results[i] != results[j] by {
            if j == k {
                assert(states[k].is_allocated(results[i]));
            }
        }
        lemma_alloc_from(states, results, k + 1);
    } else {
        assert(states.last() == states[k]);
    }
}


/// Occupancy: between two operations, a slab stands in the high-occupancy list exactly when
/// its allocated objects reach the threshold without filling it, in the full list exactly
/// when all its objects are allocated, and in the low-occupancy list otherwise.
pub proof fn occupancy_lists(v: CacheView)
    requires
        v.wf(),
    ensures
        forall|i: int|
            0 <= i < v.low.len() ==> 1 <= v.allocated_in(#[trigger] v.low[i])
                < v.high_occupancy_minimum,
        forall|i: int|
            0 <= i < v.high.len() ==> v.high_occupancy_minimum <= v.allocated_in(#[trigger] v.high[i])
                < v.objects_per_slab,
        forall|i: int| 0 <= i < v.full.len() ==> v.allocated_in(#[trigger] v.full[i]) == v.objects_per_slab,
        v.high_occupancy_minimum == (75 * v.objects_per_slab) / 100,
{
    assert forall|i: int| 0 <= i < v.low.len() implies 1 <= v.allocated_in(#[trigger] v.low[i])
        < v.high_occupancy_minimum by {
        assert(v.fits_list(v.list(SlabList::Low)[i], SlabList::Low));
    }
    assert forall|i: int| 0 <= i < v.high.len() implies v.high_occupancy_minimum <= v.allocated_in(
        #[trigger] v.high[i],
    ) < v.objects_per_slab by {
        assert(v.fits_list(v.list(SlabList::High)[i], SlabList::High));
    }
    assert forall|i: int| 0 <= i < v.full.len() implies v.allocated_in(#[trigger] v.full[i])
        == v.objects_per_slab by {
        assert(v.fits_list(v.list(SlabList::Full)[i], SlabList::Full));
    }
}

/// Statistics: between two operations, the free-object counter is the sum of the free
/// objects of the slabs with free objects, the slab counters are the lengths of the lists,
/// and the allocated-object counter is the number of objects that the cache's slabs hold
/// out.
pub proof fn statistics_match_lists(v: CacheView)
    requires
        v.wf(),
    ensures
        v.statistics.free_objects_number == free_sum(v.low) + free_sum(v.high),
        v.statistics.free_slabs_number == v.low.len() + v.high.len(),
        v.statistics.full_slabs_number == v.full.len(),
        v.statistics.allocated_objects_number == v.slab_count() * v.objects_per_slab - free_sum(v.low)
            - free_sum(v.high) - free_sum(v.full),
{
    lemma_free_sums(v);
}

/// A slab that reaches the occupancy threshold while an object is handed out moves to the
/// front of the high-occupancy list, unless it fills up, in which case it goes to the back
/// of the full list.
pub proof fn threshold_crossing_moves_to_high(v: CacheView)
    requires
        v.wf(),
        v.high.len() == 0,
        v.low.len() > 0,
    ensures
        ({
            let s = v.low[0];
            let s2 = s.with_free_objects(s.free_objects.drop_last());
            let new = v.after_take();
            &&& v.allocated_in(s2) == v.objects_per_slab ==> new.full.last() == s2 && new.high.len() == 0
            &&& v.high_occupancy_minimum <= v.allocated_in(s2) < v.objects_per_slab ==> new.high
                == seq![s2] && new.low == v.low.drop_first()
            &&& v.allocated_in(s2) < v.high_occupancy_minimum ==> new.low[0] == s2 && new.high.len()
                == 0
        }),
{
    assert(v.slab_wf(v.list(SlabList::Low)[0]));
    assert(v.high.insert(0, v.low[0].with_free_objects(v.low[0].free_objects.drop_last())) =~= seq![
        v.low[0].with_free_objects(v.low[0].free_objects.drop_last()),
    ]);
}

/// Giving back an object of a full slab of at least two objects puts the slab at the front
/// of the high-occupancy list: one full slab fewer, one slab with free objects more.
pub proof fn full_slab_returns_to_front_of_high(v: CacheView, a: usize)
    requires
        v.wf(),
        v.is_allocated(a),
        v.holder(a).0 == SlabList::Full,
        v.objects_per_slab >= 2,
    ensures
        ({
            let s = v.holder_slab(a);
            let new = v.released(a);
            &&& new.high.len() == v.high.len() + 1
            &&& new.high[0] == s.with_free_objects(s.free_objects.push(a))
            &&& new.low == v.low
            &&& new.full.len() == v.full.len() - 1
            &&& new.statistics.full_slabs_number == v.statistics.full_slabs_number - 1
            &&& new.statistics.free_slabs_number == v.statistics.free_slabs_number + 1
        }),
{
    crate::proofs::lemma_holder_exists(v, a);
    crate::proofs::lemma_release_ranges(v, a);
    lemma_threshold_below(v);
    let (l, k) = v.holder(a);
    assert(v.fits_list(v.list(l)[k], l));
    assert(v.objects_per_slab - 1 >= v.high_occupancy_minimum) by {
        let n = v.objects_per_slab as int;
        assert((75 * n) / 100 <= n - 1) by (nonlinear_arith)
            requires
                n >= 2,
        ;
    }
}

/// The first slab of a list-ordered cache: of the low list, else the high one, else the
/// full one.
pub open spec fn first_slab(v: CacheView) -> SlabView {
    if v.low.len() > 0 {
        v.low[0]
    } else if v.high.len() > 0 {
        v.high[0]
    } else {
        v.full[0]
    }
}

/// The cache holds one slab, with `m` objects out.
pub open spec fn one_slab_with(v: CacheView, m: int) -> bool {
    &&& v.wf()
    &&& v.slab_count() == 1
    &&& v.allocated_in(first_slab(v)) == m
}

proof fn lemma_one_slab_step(v: CacheView, new: CacheView, r: usize, m: int)
    requires
        one_slab_with(v, m),
        1 <= m < v.objects_per_slab,
        v.alloc_outcome(new, r),
    ensures
        one_slab_with(new, m + 1),
        same_config(v, new),
        r != 0,
{
    lemma_threshold_below(v);
    if v.full.len() > 0 {
        assert(v.fits_list(v.list(SlabList::Full)[0], SlabList::Full));
    }
    crate::proofs::lemma_take(v);
    let l = v.chosen_list();
    let s = v.chosen();
    assert(s == first_slab(v));
    assert(v.slab_wf(v.list(l)[0]));
    let s2 = s.with_free_objects(s.free_objects.drop_last());
    assert(v.list(l).drop_first() =~= Seq::<SlabView>::empty());
    assert(first_slab(new) == s2);
    crate::proofs::lemma_pop(v, s);
}

proof fn lemma_first_allocation(v: CacheView, new: CacheView, r: usize)
    requires
        v.wf(),
        v.slab_count() == 0,
        v.alloc_outcome(new, r),
        r != 0,
    ensures
        one_slab_with(new, 1),
        same_config(v, new),
{
    lemma_alloc_outcome(v, new, r);
    lemma_threshold_below(v);
    let n = v.calls.len() as int;
    let c0 = new.calls[n];
    let sa = c0->AllocSlab_result;
    let w = if v.object_size_type == ObjectSizeType::Small {
        v.log(seq![c0]).with_new_slab(sa, crate::model::small_slab_info_addr(sa as int, v.slab_size as int) as usize)
    } else {
        v.log(seq![c0]).log(seq![new.calls[n + 1]]).with_new_slab(sa, new.calls[n + 1]->AllocSlabInfo_result)
    };
    assert(new == w.after_take());
    assert(w.low.len() == 1 && w.high.len() == 0 && w.full.len() == 0);
    let f = w.low[0];
    lemma_fresh_slab_full_stack(w, f);
    assert(w.low.drop_first() =~= Seq::<SlabView>::empty());
    let f2 = f.with_free_objects(f.free_objects.drop_last());
    assert(first_slab(new) == f2);
}

proof fn lemma_fresh_slab_full_stack(w: CacheView, f: SlabView)
    requires
        w.objects_per_slab > 0,
        f.free_objects.len() == w.objects_per_slab,
    ensures
        w.allocated_in(f.with_free_objects(f.free_objects.drop_last())) == 1,
{
}

/// Occupancy over a run: from a cache without slabs, `k` allocations that all succeed, with
/// `k` at most the objects of a slab, fill one slab, which then stands in the low list while
/// `k` is under the threshold, in the high list from the threshold on, and in the full list
/// once `k` objects fill it.
pub proof fn one_slab_fills_by_occupancy(states: Seq<CacheView>, results: Seq<usize>)
    requires
        states.len() == results.len() + 1,
        results.len() >= 1,
        states[0].wf(),
        states[0].slab_count() == 0,
        results.len() <= states[0].objects_per_slab,
        forall|i: int| 0 <= i < results.len() ==> #[trigger] states[i].alloc_outcome(states[i + 1], results[i]),
        forall|i: int| 0 <= i < results.len() ==> #[trigger] results[i] != 0,
    ensures
        ({
            let last = states.last();
            let k = results.len() as int;
            &&& one_slab_with(last, k)
            &&& k < last.high_occupancy_minimum ==> last.low.len() == 1 && last.high.len() == 0
                && last.full.len() == 0
            &&& last.high_occupancy_minimum <= k < last.objects_per_slab ==> last.high.len() == 1
                && last.low.len() == 0 && last.full.len() == 0
            &&& k == last.objects_per_slab ==> last.full.len() == 1 && last.low.len() == 0
                && last.high.len() == 0
        }),
{
    lemma_first_allocation(states[0], states[1], results[0]);
    lemma_one_slab_run(states, results, 1);
    let last = states.last();
    assert(last == states[results.len() as int]);
    let k = results.len() as int;
    lemma_threshold_below(last);
    if last.low.len() > 0 {
        assert(last.fits_list(last.list(SlabList::Low)[0], SlabList::Low));
    } else if last.high.len() > 0 {
        assert(last.fits_list(last.list(SlabList::High)[0], SlabList::High));
    } else {
        assert(last.fits_list(last.list(SlabList::Full)[0], SlabList::Full));
    }
}

proof fn lemma_one_slab_run(states: Seq<CacheView>, results: Seq<usize>, i: int)
    requires
        states.len() == results.len() + 1,
        1 <= i <= results.len(),
        results.len() <= states[0].objects_per_slab,
        one_slab_with(states[i], i),
        same_config(states[0], states[i]),
        forall|j: int| 0 <= j < results.len() ==> #[trigger] states[j].alloc_outcome(states[j + 1], results[j]),
    ensures
        one_slab_with(states[results.len() as int], results.len() as int),
        same_config(states[0], states[results.len() as int]),
    decreases results.len() - i,
{
    if i < results.len() {
        lemma_one_slab_step(states[i], states[i + 1], results[i], i);
        lemma_one_slab_run(states, results, i + 1);
    }
}

} // verus!
