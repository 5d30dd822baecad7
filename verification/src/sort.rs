use vstd::prelude::*;

use crate::event::{DataKind, Event};

verus! {

/// `a` may stand before `b` when events are grouped by channel and ordered
/// by tick inside a channel.
pub open spec fn ct_le(a: Event, b: Event) -> bool {
    a.channel < b.channel || (a.channel == b.channel && a.tick <= b.tick)
}

/// `a` may stand before `b` in the final (channel, lane, tick) order.
pub open spec fn cst_le(a: Event, b: Event) -> bool {
    a.channel < b.channel || (a.channel == b.channel && a.sub_channel < b.sub_channel) || (
    a.channel == b.channel && a.sub_channel == b.sub_channel && a.tick <= b.tick)
}

/// `a` must stand strictly before `b` in the (channel, lane, tick) order.
pub open spec fn cst_lt(a: Event, b: Event) -> bool {
    a.channel < b.channel || (a.channel == b.channel && a.sub_channel < b.sub_channel) || (
    a.channel == b.channel && a.sub_channel == b.sub_channel && a.tick < b.tick)
}

pub open spec fn sorted_ct(s: Seq<Event>) -> bool {
    forall|i: int, j: int| 0 <= i < j < s.len() ==> ct_le(s[i], s[j])
}

pub open spec fn sorted_cst(s: Seq<Event>) -> bool {
    forall|i: int, j: int| 0 <= i < j < s.len() ==> cst_le(s[i], s[j])
}

/// Swap the elements at `j - 1` and `j`.
fn swap_events(v: &mut Vec<Event>, j: usize)
    requires
        1 <= j < old(v)@.len(),
    ensures
        final(v)@ == old(v)@.update(j - 1, old(v)@[j as int]).update(j as int, old(v)@[j - 1]),
        final(v)@.to_multiset() == old(v)@.to_multiset(),
        final(v)@.len() == old(v)@.len(),
{
    let a = v[j - 1];
    let b = v[j];
    v[j - 1] = b;
    v[j] = a;
    proof {
        broadcast use vstd::seq_lib::group_to_multiset_ensures;
        broadcast use vstd::multiset::group_multiset_axioms;

        assert(v@.to_multiset() =~= old(v)@.to_multiset());
    }
}

/// The strict pass-1 ordering: tick inside a channel, and for equal ticks
/// the kind tie-break — note-ons by ascending key, note-offs by
/// descending key, any other pair of kinds incomparable (their existing
/// order stands).  Not a total order: cross-kind ties are incomparable.
pub open spec fn tie_before(a: Event, b: Event) -> bool {
    if a.channel != b.channel {
        a.channel < b.channel
    } else if a.tick != b.tick {
        a.tick < b.tick
    } else {
        match (a.data_kind, b.data_kind) {
            (DataKind::NoteOn(key_data1), DataKind::NoteOn(key_data2)) => key_data1.key
                < key_data2.key,
            (DataKind::NoteOff(key_data1), DataKind::NoteOff(key_data2)) => key_data2.key
                < key_data1.key,
            _ => false,
        }
    }
}

/// The strict pass-1 comparator, deciding exactly `tie_before`.
fn before1(a: &Event, b: &Event) -> (r: bool)
    ensures
        r == tie_before(*a, *b),
        r ==> ct_le(*a, *b),
        !r ==> ct_le(*b, *a),
{
    if a.channel != b.channel {
        a.channel < b.channel
    } else if a.tick != b.tick {
        a.tick < b.tick
    } else {
        match (a.data_kind, b.data_kind) {
            (DataKind::NoteOn(key_data1), DataKind::NoteOn(key_data2)) => key_data1.key
                < key_data2.key,
            (DataKind::NoteOff(key_data1), DataKind::NoteOff(key_data2)) => key_data2.key
                < key_data1.key,
            _ => false,
        }
    }
}

/// The strict (channel, lane, tick) comparator.
fn before_cst(a: &Event, b: &Event) -> (r: bool)
    ensures
        r == cst_lt(*a, *b),
{
    if a.channel != b.channel {
        a.channel < b.channel
    } else if a.sub_channel != b.sub_channel {
        a.sub_channel < b.sub_channel
    } else {
        a.tick < b.tick
    }
}

/// Stable insertion sort for pass 1: groups events by channel and orders
/// them by tick inside a channel, equal-tick runs ordered by the kind
/// tie-break.
pub fn sort_events1(v: &mut Vec<Event>)
    ensures
        final(v)@.to_multiset() == old(v)@.to_multiset(),
        final(v)@.len() == old(v)@.len(),
        sorted_ct(final(v)@),
{
    let ghost orig = v@;
    if v.len() < 2 {
        return ;
    }
    let mut i: usize = 1;
    while i < v.len()
        invariant
            1 <= i <= v@.len(),
            v@.len() == orig.len(),
            v@.to_multiset() == orig.to_multiset(),
            forall|p: int, q: int| 0 <= p < q < i ==> ct_le(v@[p], v@[q]),
        decreases v@.len() - i,
    {
        let mut j: usize = i;
        loop
            invariant
                0 <= j <= i < v@.len(),
                v@.len() == orig.len(),
                v@.to_multiset() == orig.to_multiset(),
                forall|p: int, q: int|
                    0 <= p < q <= i && q != j ==> ct_le(v@[p], v@[q]),
            ensures
                0 <= j <= i < v@.len(),
                v@.len() == orig.len(),
                v@.to_multiset() == orig.to_multiset(),
                forall|p: int, q: int|
                    0 <= p < q <= i && q != j ==> ct_le(v@[p], v@[q]),
                j == 0 || ct_le(v@[j - 1], v@[j as int]),
            decreases j,
        {
            if j == 0 {
                break ;
            }
            let swap_needed = before1(&v[j], &v[j - 1]);
            if !swap_needed {
                break ;
            }
            let ghost pre = v@;
            swap_events(v, j);
            proof {
                assert forall|p: int, q: int|
                    0 <= p < q <= i && q != j - 1 implies ct_le(v@[p], v@[q]) by {
                    if q == j {
                        if p < j - 1 {
                            assert(v@[q] == pre[j - 1]);
                            assert(v@[p] == pre[p]);
                        } else {
                            assert(v@[q] == pre[j - 1]);
                            assert(v@[p] == pre[j as int]);
                        }
                    } else if p == j - 1 {
                        assert(v@[p] == pre[j as int]);
                        assert(v@[q] == pre[q]);
                    } else if p == j {
                        assert(v@[p] == pre[j - 1]);
                        assert(v@[q] == pre[q]);
                    }
                }
            }
            j -= 1;
        }
        proof {
            assert forall|p: int, q: int| 0 <= p < q <= i implies ct_le(v@[p], v@[q]) by {
                if q == j && j > 0 && p < j - 1 {
                    assert(ct_le(v@[p], v@[j - 1]));
                    assert(ct_le(v@[j - 1], v@[j as int]));
                }
            }
        }
        i += 1;
    }
}

/// Stable insertion sort by (channel, lane, tick); sorting an already
/// sorted list changes nothing.
pub fn sort_events_cst(v: &mut Vec<Event>)
    ensures
        final(v)@.to_multiset() == old(v)@.to_multiset(),
        final(v)@.len() == old(v)@.len(),
        sorted_cst(final(v)@),
        sorted_cst(old(v)@) ==> final(v)@ == old(v)@,
{
    let ghost orig = v@;
    if v.len() < 2 {
        return ;
    }
    let mut i: usize = 1;
    while i < v.len()
        invariant
            1 <= i <= v@.len(),
            v@.len() == orig.len(),
            v@.to_multiset() == orig.to_multiset(),
            forall|p: int, q: int| 0 <= p < q < i ==> cst_le(v@[p], v@[q]),
            sorted_cst(orig) ==> v@ == orig,
        decreases v@.len() - i,
    {
        let mut j: usize = i;
        loop
            invariant
                0 <= j <= i < v@.len(),
                v@.len() == orig.len(),
                v@.to_multiset() == orig.to_multiset(),
                forall|p: int, q: int|
                    0 <= p < q <= i && q != j ==> cst_le(v@[p], v@[q]),
                sorted_cst(orig) ==> (v@ == orig && j == i),
            ensures
                0 <= j <= i < v@.len(),
                v@.len() == orig.len(),
                v@.to_multiset() == orig.to_multiset(),
                forall|p: int, q: int|
                    0 <= p < q <= i && q != j ==> cst_le(v@[p], v@[q]),
                j == 0 || cst_le(v@[j - 1], v@[j as int]),
                sorted_cst(orig) ==> v@ == orig,
            decreases j,
        {
            if j == 0 {
                break ;
            }
            let swap_needed = before_cst(&v[j], &v[j - 1]);
            if !swap_needed {
                break ;
            }
            proof {
                if sorted_cst(orig) {
                    assert(cst_le(v@[j - 1], v@[j as int]));
                    assert(false);
                }
            }
            let ghost pre = v@;
            swap_events(v, j);
            proof {
                assert forall|p: int, q: int|
                    0 <= p < q <= i && q != j - 1 implies cst_le(v@[p], v@[q]) by {
                    if q == j {
                        if p < j - 1 {
                            assert(v@[q] == pre[j - 1]);
                            assert(v@[p] == pre[p]);
                        } else {
                            assert(v@[q] == pre[j - 1]);
                            assert(v@[p] == pre[j as int]);
                        }
                    } else if p == j - 1 {
                        assert(v@[p] == pre[j as int]);
                        assert(v@[q] == pre[q]);
                    } else if p == j {
                        assert(v@[p] == pre[j - 1]);
                        assert(v@[q] == pre[q]);
                    }
                }
            }
            j -= 1;
        }
        proof {
            assert forall|p: int, q: int| 0 <= p < q <= i implies cst_le(v@[p], v@[q]) by {
                if q == j && j > 0 && p < j - 1 {
                    assert(cst_le(v@[p], v@[j - 1]));
                    assert(cst_le(v@[j - 1], v@[j as int]));
                }
            }
        }
        i += 1;
    }
}

} // verus!
