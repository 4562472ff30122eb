//! Laws that relate several operations of a queue, stated over its view.
use crate::entry::{lemma_precedes_key, HeapView, Queued};
use crate::frame::Frame;
use crate::heap::{GroupTraits, NoGrouping};
use vstd::multiset::Multiset;
use vstd::prelude::*;

verus! {

broadcast use vstd::multiset::group_multiset_axioms;

/// Frames with equal identifiers leave in the order they came: three frames
/// with one identifier, inserted into an empty queue with room for them, are
/// removed in insertion order, whichever mode the queue sorts in.
pub proof fn lemma_fifo_on_equal_ids<M, G: GroupTraits, const MTU: usize>(
    s0: HeapView<M, G, MTU>,
    cap: nat,
    a: Frame<MTU>,
    ma: M,
    ga: G,
    b: Frame<MTU>,
    mb: M,
    gb: G,
    c: Frame<MTU>,
    mc: M,
    gc: G,
)
    requires
        s0.len() == 0,
        cap >= 3,
        a.ident() == b.ident(),
        b.ident() == c.ident(),
    ensures
        ({
            let s1 = s0.push_outcome(cap, a, ma, ga).0;
            let s2 = s1.push_outcome(cap, b, mb, gb).0;
            let s3 = s2.push_outcome(cap, c, mc, gc).0;
            let (s4, r1) = s3.pop_outcome();
            let (s5, r2) = s4.pop_outcome();
            let (s6, r3) = s5.pop_outcome();
            &&& r1 == Some((a, ma))
            &&& r2 == Some((b, mb))
            &&& r3 == Some((c, mc))
            &&& s6.len() == 0
        }),
{
    assert(s0.pending =~= Multiset::empty());
    assert(s0.valid());
    let ea = s0.entry(a, ma, ga);
    let s1 = s0.push_outcome(cap, a, ma, ga).0;
    s0.lemma_insert_valid(s0.pending, ea, 3);
    let eb = s1.entry(b, mb, gb);
    let s2 = s1.push_outcome(cap, b, mb, gb).0;
    s1.lemma_insert_valid(s1.pending, eb, 2);
    let ec = s2.entry(c, mc, gc);
    let s3 = s2.push_outcome(cap, c, mc, gc).0;
    s2.lemma_insert_valid(s2.pending, ec, 1);
    s0.lemma_advanced_step(0);
    s0.lemma_advanced_step(1);
    s0.lemma_advanced_step(2);
    assert(s3.next_seq == s0.advanced(3));
    s0.lemma_age_advanced(0, 3);
    s0.lemma_age_advanced(1, 3);
    s0.lemma_age_advanced(2, 3);
    let n = s3.next_seq;
    lemma_precedes_key(ea, eb, n);
    lemma_precedes_key(ea, ec, n);
    lemma_precedes_key(eb, ec, n);
    assert(ea != eb && ea != ec && eb != ec);
    assert(s3.pending =~= Multiset::empty().insert(ea).insert(eb).insert(ec));
    assert(s3.is_first(ea));
    s3.lemma_first_is(ea);
    let (s4, r1) = s3.pop_outcome();
    s3.lemma_sub_valid(s4.pending, 0);
    assert(s4.pending =~= Multiset::empty().insert(eb).insert(ec));
    assert(s4.is_first(eb));
    s4.lemma_first_is(eb);
    let (s5, r2) = s4.pop_outcome();
    s4.lemma_sub_valid(s5.pending, 0);
    assert(s5.pending =~= Multiset::empty().insert(ec));
    assert(s5.is_first(ec));
    s5.lemma_first_is(ec);
    let (s6, r3) = s5.pop_outcome();
    assert(s6.pending =~= Multiset::empty());
}

/// In a full queue of ungrouped entries, a frame that wins over every
/// waiting frame evicts exactly one entry, the one that would leave last:
/// the result is `Ok(1)`, the length stays, and every other entry stays.
pub proof fn lemma_ungrouped_eviction<M, const MTU: usize>(
    v: HeapView<M, NoGrouping, MTU>,
    cap: nat,
    frame: Frame<MTU>,
    marker: M,
)
    requires
        v.valid(),
        v.len() == cap,
        cap > 0,
        forall|e| #[trigger] v.pending.contains(e) ==> frame.ident().wins_over(e.frame.ident()),
    ensures
        ({
            let (w, r) = v.push_outcome(cap, frame, marker, NoGrouping {});
            &&& r == Ok::<usize, Frame<MTU>>(1)
            &&& w.len() == cap
            &&& w.pending == v.pending.remove(v.last()).insert(v.entry(frame, marker, NoGrouping {}))
        }),
{
    v.lemma_last_exists();
    let t = v.last();
    let kept = v.kept_without(t);
    assert(kept =~= v.pending.remove(t));
}

/// A full queue that is offered a frame not winning over the entry that
/// would leave last hands the frame back and stays as it was.
pub proof fn lemma_rejection_changes_nothing<M, G: GroupTraits, const MTU: usize>(
    v: HeapView<M, G, MTU>,
    cap: nat,
    frame: Frame<MTU>,
    marker: M,
    group: G,
)
    requires
        v.len() == cap,
        !frame.ident().wins_over(v.last().frame.ident()),
    ensures
        v.push_outcome(cap, frame, marker, group) == (v, Err::<usize, Frame<MTU>>(frame)),
{
}

/// A cleared queue has no entries, and removing from it gives nothing and
/// changes nothing.
pub proof fn lemma_cleared_pops_nothing<M, G: GroupTraits, const MTU: usize>(v: HeapView<M, G, MTU>)
    ensures
        ({
            let w = HeapView { pending: Multiset::<Queued<M, G, MTU>>::empty(), next_seq: v.next_seq };
            &&& w.len() == 0
            &&& w.pop_outcome() == (w, None::<(Frame<MTU>, M)>)
        }),
{
}

/// Removing from a freshly made queue gives nothing and changes nothing.
pub proof fn lemma_fresh_pops_nothing<M, G: GroupTraits, const MTU: usize>()
    ensures
        ({
            let w = HeapView { pending: Multiset::<Queued<M, G, MTU>>::empty(), next_seq: 0 };
            w.pop_outcome() == (w, None::<(Frame<MTU>, M)>)
        }),
{
}

/// A group insert never leaves a group in part: of two waiting entries with
/// the same tag, after the insert either both are still waiting or neither is.
pub proof fn lemma_group_insert_keeps_groups_whole<M, const MTU: usize>(
    v: HeapView<M, u16, MTU>,
    cap: nat,
    frames: Seq<(Frame<MTU>, M)>,
    g: u16,
    x: Queued<M, u16, MTU>,
    y: Queued<M, u16, MTU>,
)
    requires
        v.pending.contains(x),
        v.pending.contains(y),
        x.group == y.group,
    ensures
        ({
            let (w, r) = v.push_group_outcome(cap, frames, g);
            let left = w.pending.sub(v.group_entries(frames, g).to_multiset());
            r is Ok ==> (left.contains(x) <==> left.contains(y))
        }),
{
    let k = frames.len();
    let added = v.group_entries(frames, g).to_multiset();
    let (w, r) = v.push_group_outcome(cap, frames, g);
    if k == 0 {
        assert(v.group_entries(frames, g) =~= Seq::empty());
        assert(added =~= Multiset::empty()) by {
            broadcast use vstd::seq_lib::group_to_multiset_ensures;
        }
        assert(w.pending.sub(added) =~= v.pending);
    } else if r is Ok {
        if v.len() + k <= cap {
            assert(w.pending.sub(added) =~= v.pending);
        } else {
            let start = cap - k;
            let kept = v.pending.filter(
                |e: Queued<M, u16, MTU>| v.ahead(e) < start && !v.tail_shares_group(start as int, e.group),
            );
            assert(w.pending.sub(added) =~= kept);
            if v.ahead(x) >= start {
                assert(v.tail_shares_group(start as int, y.group));
            }
            if v.ahead(y) >= start {
                assert(v.tail_shares_group(start as int, x.group));
            }
            assert(kept.contains(x) <==> (v.ahead(x) < start && !v.tail_shares_group(start as int, x.group)));
            assert(kept.contains(y) <==> (v.ahead(y) < start && !v.tail_shares_group(start as int, y.group)));
        }
    }
}

/// A single insert never leaves a group in part: of two waiting entries with
/// the same tag, after the insert either both are still waiting or neither is.
pub proof fn lemma_insert_keeps_groups_whole<M, const MTU: usize>(
    v: HeapView<M, u16, MTU>,
    cap: nat,
    frame: Frame<MTU>,
    marker: M,
    g: u16,
    x: Queued<M, u16, MTU>,
    y: Queued<M, u16, MTU>,
)
    requires
        v.valid(),
        v.pending.contains(x),
        v.pending.contains(y),
        x.group == y.group,
    ensures
        ({
            let (w, r) = v.push_outcome(cap, frame, marker, g);
            let left = w.pending.remove(v.entry(frame, marker, g));
            r is Ok ==> (left.contains(x) <==> left.contains(y))
        }),
{
    let e = v.entry(frame, marker, g);
    let (w, r) = v.push_outcome(cap, frame, marker, g);
    if r is Ok {
        if v.len() < cap {
            assert(w.pending.remove(e) =~= v.pending);
        } else {
            let t = v.last();
            assert(w.pending.remove(e) =~= v.kept_without(t));
            assert(v.pending.count(x) <= 1 && v.pending.count(y) <= 1);
        }
    }
}

} // verus!
