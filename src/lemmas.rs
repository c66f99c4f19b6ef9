//! Facts about sums of free objects and about slabs that lie apart.

use vstd::multiset::Multiset;
use vstd::prelude::*;

use crate::model::{far_apart, free_sum, slab_infos_distinct, slabs_apart, SlabView};

verus! {

/// Putting a slab at the front adds its free objects to the sum.
pub proof fn lemma_free_sum_insert_front(s: Seq<SlabView>, x: SlabView)
    ensures
        free_sum(s.insert(0, x)) == free_sum(s) + x.free_objects.len(),
{
    assert(s.insert(0, x).drop_first() =~= s);
}

/// Taking a slab out subtracts its free objects from the sum.
pub proof fn lemma_free_sum_remove(s: Seq<SlabView>, k: int)
    requires
        0 <= k < s.len(),
    ensures
        free_sum(s.remove(k)) == free_sum(s) - s[k].free_objects.len(),
    decreases s.len(),
{
    if k == 0 {
        assert(s.remove(0) =~= s.drop_first());
    } else {
        lemma_free_sum_remove(s.drop_first(), k - 1);
        assert(s.remove(k).drop_first() =~= s.drop_first().remove(k - 1));
    }
}

/// Replacing a slab changes the sum by the difference of their free objects.
pub proof fn lemma_free_sum_update(s: Seq<SlabView>, k: int, x: SlabView)
    requires
        0 <= k < s.len(),
    ensures
        free_sum(s.update(k, x)) == free_sum(s) - s[k].free_objects.len() + x.free_objects.len(),
    decreases s.len(),
{
    if k == 0 {
        assert(s.update(0, x).drop_first() =~= s.drop_first());
    } else {
        lemma_free_sum_update(s.drop_first(), k - 1, x);
        assert(s.update(k, x).drop_first() =~= s.drop_first().update(k - 1, x));
    }
}

/// The sum stays between zero and the number of slabs times their largest count.
pub proof fn lemma_free_sum_bounds(s: Seq<SlabView>, most: int)
    requires
        forall|i: int| 0 <= i < s.len() ==> (#[trigger] s[i]).free_objects.len() <= most,
    ensures
        0 <= free_sum(s) <= s.len() * most,
    decreases s.len(),
{
    if s.len() > 0 {
        lemma_free_sum_bounds(s.drop_first(), most);
        assert(s.len() * most == (s.len() - 1) * most + most) by (nonlinear_arith);
    }
}

/// Slabs without free objects sum to zero.
pub proof fn lemma_free_sum_zero(s: Seq<SlabView>)
    requires
        forall|i: int| 0 <= i < s.len() ==> (#[trigger] s[i]).free_objects.len() == 0,
    ensures
        free_sum(s) == 0,
    decreases s.len(),
{
    if s.len() > 0 {
        lemma_free_sum_zero(s.drop_first());
    }
}

/// Replacing a slab by one at the same address keeps the slabs apart.
pub proof fn lemma_apart_replace(m: Multiset<SlabView>, x: SlabView, y: SlabView, slab_size: usize)
    requires
        slabs_apart(m, slab_size),
        m.contains(x),
        y.slab_addr == x.slab_addr,
        slab_size > 0,
    ensures
        slabs_apart(m.remove(x).insert(y), slab_size),
        forall|t: SlabView|
            #[trigger] m.remove(x).insert(y).contains(t) <==> (t == y || (m.contains(t) && t != x)),
{
    let n = m.remove(x).insert(y);
    if y == x {
        assert(n =~= m);
    } else {
        assert(!m.contains(y)) by {
            if m.contains(y) {
                assert(far_apart(x.slab_addr, y.slab_addr, slab_size));
            }
        }
        assert forall|t: SlabView| #[trigger] n.count(t) <= 1 by {
            assert(m.count(t) <= 1);
        }
        assert forall|s: SlabView, t: SlabView|
            #![trigger n.contains(s), n.contains(t)]
            n.contains(s) && n.contains(t) && s != t implies far_apart(
                s.slab_addr,
                t.slab_addr,
                slab_size,
            ) by {
            if s == y {
                assert(m.contains(t) && t != x);
                assert(far_apart(x.slab_addr, t.slab_addr, slab_size));
            } else if t == y {
                assert(m.contains(s) && s != x);
                assert(far_apart(s.slab_addr, x.slab_addr, slab_size));
            } else {
                assert(m.contains(s) && m.contains(t));
            }
        }
    }
}

/// Removing a slab keeps the rest apart.
pub proof fn lemma_apart_remove(m: Multiset<SlabView>, x: SlabView, slab_size: usize)
    requires
        slabs_apart(m, slab_size),
        m.contains(x),
    ensures
        slabs_apart(m.remove(x), slab_size),
        forall|t: SlabView| #[trigger] m.remove(x).contains(t) <==> (m.contains(t) && t != x),
{
    let n = m.remove(x);
    assert forall|t: SlabView| #[trigger] n.count(t) <= 1 by {
        assert(m.count(t) <= 1);
    }
    assert forall|s: SlabView, t: SlabView|
        #![trigger n.contains(s), n.contains(t)]
        n.contains(s) && n.contains(t) && s != t implies far_apart(s.slab_addr, t.slab_addr, slab_size) by {
        assert(m.contains(s) && m.contains(t));
    }
}

/// Adding a slab apart from all others keeps the slabs apart.
pub proof fn lemma_apart_insert(m: Multiset<SlabView>, y: SlabView, slab_size: usize)
    requires
        slabs_apart(m, slab_size),
        slab_size > 0,
        forall|t: SlabView| #[trigger] m.contains(t) ==> far_apart(t.slab_addr, y.slab_addr, slab_size),
    ensures
        slabs_apart(m.insert(y), slab_size),
        forall|t: SlabView| #[trigger] m.insert(y).contains(t) <==> (m.contains(t) || t == y),
{
    let n = m.insert(y);
    assert(!m.contains(y)) by {
        if m.contains(y) {
            assert(far_apart(y.slab_addr, y.slab_addr, slab_size));
        }
    }
    assert forall|t: SlabView| #[trigger] n.count(t) <= 1 by {
        assert(m.count(t) <= 1);
    }
    assert forall|s: SlabView, t: SlabView|
        #![trigger n.contains(s), n.contains(t)]
        n.contains(s) && n.contains(t) && s != t implies far_apart(s.slab_addr, t.slab_addr, slab_size) by {
        if s == y {
            assert(m.contains(t));
            assert(far_apart(t.slab_addr, y.slab_addr, slab_size));
        } else if t == y {
            assert(m.contains(s));
        } else {
            assert(m.contains(s) && m.contains(t));
        }
    }
}

/// Replacing a slab by one with the same metadata address keeps the addresses distinct.
pub proof fn lemma_infos_replace(m: Multiset<SlabView>, x: SlabView, y: SlabView)
    requires
        slab_infos_distinct(m),
        forall|s: SlabView| #[trigger] m.count(s) <= 1,
        m.contains(x),
        y.slab_info_addr == x.slab_info_addr,
    ensures
        slab_infos_distinct(m.remove(x).insert(y)),
{
    let n = m.remove(x).insert(y);
    assert forall|s: SlabView, t: SlabView|
        #![trigger n.contains(s), n.contains(t)]
        n.contains(s) && n.contains(t) && s != t implies s.slab_info_addr != t.slab_info_addr by {
        assert(m.count(x) <= 1);
        if s == y && t != y {
            assert(m.contains(t) && t != x);
        } else if t == y && s != y {
            assert(m.contains(s) && s != x);
        } else {
            assert(m.contains(s) && m.contains(t));
        }
    }
}

/// Removing a slab keeps the metadata addresses of the rest distinct.
pub proof fn lemma_infos_remove(m: Multiset<SlabView>, x: SlabView)
    requires
        slab_infos_distinct(m),
    ensures
        slab_infos_distinct(m.remove(x)),
{
    let n = m.remove(x);
    assert forall|s: SlabView, t: SlabView|
        #![trigger n.contains(s), n.contains(t)]
        n.contains(s) && n.contains(t) && s != t implies s.slab_info_addr != t.slab_info_addr by {
        assert(m.contains(s) && m.contains(t));
    }
}

/// Adding a slab with a metadata address of its own keeps the addresses distinct.
pub proof fn lemma_infos_insert(m: Multiset<SlabView>, y: SlabView)
    requires
        slab_infos_distinct(m),
        forall|t: SlabView| #[trigger] m.contains(t) ==> t.slab_info_addr != y.slab_info_addr,
    ensures
        slab_infos_distinct(m.insert(y)),
{
    let n = m.insert(y);
    assert forall|s: SlabView, t: SlabView|
        #![trigger n.contains(s), n.contains(t)]
        n.contains(s) && n.contains(t) && s != t implies s.slab_info_addr != t.slab_info_addr by {
        if s == y {
            assert(m.contains(t));
        } else if t == y {
            assert(m.contains(s));
        } else {
            assert(m.contains(s) && m.contains(t));
        }
    }
}

} // verus!
