//! The fixed-capacity priority queue and its two ready-made forms.
use crate::entry::{age, lemma_age_step, lemma_tag_step, tag_age, HeapView, Queued};
use crate::frame::Frame;
use crate::slots::{
    filled_of, laid_out, lemma_at_pos, lemma_contains_index, lemma_tail_group, lemma_filled_contains, lemma_filled_len, lemma_filled_prefix,
    lemma_filled_prefix_len, lemma_filled_split, lemma_filled_update, lemma_laid_out_ends, lemma_prefix_kept,
    lemma_slots_in_window, lemma_sorted_laid_out, slot_entries, slot_key, slots_in_window, sorted_slots, HeapElement,
};
use vstd::multiset::Multiset;
use vstd::prelude::*;

verus! {

broadcast use vstd::multiset::group_multiset_axioms;

/// What a marker type must offer: it is copied in and out of the queue.
pub trait MarkerTraits: Copy {}

impl<M: Copy> MarkerTraits for M {}

/// A group tag: entries whose tags share a group are evicted together.
pub trait GroupTraits: Copy + Sized {
    /// Whether two tags name the same group.
    spec fn shares_group(self, other: Self) -> bool;

    fn same_group(&self, other: &Self) -> (r: bool)
        ensures
            r == self.shares_group(*other),
    ;
}

/// The tag of an entry that belongs to no group: it shares a group with nothing.
#[derive(Copy, Clone)]
pub struct NoGrouping {}

impl GroupTraits for NoGrouping {
    open spec fn shares_group(self, other: Self) -> bool {
        false
    }

    fn same_group(&self, other: &Self) -> (r: bool) {
        false
    }
}

impl GroupTraits for u16 {
    open spec fn shares_group(self, other: Self) -> bool {
        self == other
    }

    fn same_group(&self, other: &Self) -> (r: bool) {
        *self == *other
    }
}

/// When the array is put in priority order: after every insertion, or
/// before every removal.
#[derive(Eq, PartialEq, Structural, Copy, Clone, Debug)]
pub enum SortOn {
    Push,
    Pop,
}

/// The wrapped difference of two sequence numbers, taken modulo the
/// sequence range, is the age.
proof fn lemma_wrapping_age(x: i16, y: i16)
    ensures
        x.wrapping_sub(y) < 0 ==> x.wrapping_sub(y) + 0x1_0000 == age(x, y),
        x.wrapping_sub(y) >= 0 ==> x.wrapping_sub(y) == age(x, y),
{
    let d = x - y;
    let w = x.wrapping_sub(y);
    if d > 0x7FFF {
        assert(w == d - 0x1_0000);
    } else if d < -0x8000 {
        assert(w == d + 0x1_0000);
    } else {
        assert(w == d);
    }
}

/// A queue of at most `N` frames of payload capacity `MTU`, each with a
/// marker `M` and a group tag `G`, kept in a fixed array of slots.
pub struct Heap<M: MarkerTraits, G: GroupTraits, const MTU: usize, const N: usize> {
    data: [HeapElement<M, G, MTU>; N],
    len: usize,
    hint_idx: usize,
    sort_on: SortOn,
    seq: i16,
}

impl<M: MarkerTraits, G: GroupTraits, const MTU: usize, const N: usize> View for Heap<M, G, MTU, N> {
    type V = HeapView<M, G, MTU>;

    closed spec fn view(&self) -> HeapView<M, G, MTU> {
        HeapView { pending: filled_of(self.data@), next_seq: self.seq }
    }
}

impl<M: MarkerTraits, G: GroupTraits, const MTU: usize, const N: usize> Heap<M, G, MTU, N> {
    /// When the array is put in priority order.
    pub closed spec fn mode(&self) -> SortOn {
        self.sort_on
    }

    /// The count matches the filled slots, the cursor lies within the array,
    /// the state is valid, and in sort-on-insert mode the filled slots are
    /// exactly those from the cursor on, in priority order.
    pub closed spec fn wf(&self) -> bool {
        &&& self.len as nat == filled_of(self.data@).len()
        &&& self.hint_idx <= N
        &&& self@.valid()
        &&& self.sort_on == SortOn::Push ==> laid_out(self.data@, self.hint_idx as int, self.len as int, self.seq)
    }

    /// An empty queue that sorts at the moment `sort_on` names.
    pub fn new(sort_on: SortOn) -> (r: Self)
        ensures
            r.wf(),
            r@.pending =~= Multiset::empty(),
            r@.next_seq == 0,
            r.mode() == sort_on,
    {
        let r = Heap { data: [HeapElement::Hole; N], len: 0, hint_idx: 0, sort_on, seq: 0 };
        proof {
            lemma_filled_prefix_len(r.data@, 0);
            assert(r@.pending =~= Multiset::empty());
        }
        r
    }

    /// Puts the slots in priority order, entries first.
    fn sort(&mut self)
        requires
            old(self)@.valid(),
        ensures
            final(self)@ == old(self)@,
            sorted_slots(final(self).data@, final(self).seq),
            final(self).len == old(self).len,
            final(self).hint_idx == old(self).hint_idx,
            final(self).sort_on == old(self).sort_on,
    {
        let ghost next = self.seq;
        let ghost orig = filled_of(self.data@);
        proof {
            lemma_slots_in_window(self.data@, next);
        }
        let mut i: usize = 0;
        while i < N
            invariant
                i <= N,
                self.seq == next,
                self.len == old(self).len,
                self.hint_idx == old(self).hint_idx,
                self.sort_on == old(self).sort_on,
                filled_of(self.data@) == orig,
                slots_in_window(self.data@, next),
                forall|a: int, b: int| 0 <= a < b < i ==> slot_key(#[trigger] self.data@[a], next) <= slot_key(#[trigger] self.data@[b], next),
            decreases N - i,
        {
            let mut j: usize = i;
            while j > 0 && self.data[j].before(&self.data[j - 1], Ghost(next))
                invariant
                    j <= i < N,
                    self.seq == next,
                    self.len == old(self).len,
                    self.hint_idx == old(self).hint_idx,
                    self.sort_on == old(self).sort_on,
                    filled_of(self.data@) == orig,
                    slots_in_window(self.data@, next),
                    forall|a: int, b: int| 0 <= a < b < j ==> slot_key(#[trigger] self.data@[a], next) <= slot_key(#[trigger] self.data@[b], next),
                    forall|a: int, b: int| j < a < b <= i ==> slot_key(#[trigger] self.data@[a], next) <= slot_key(#[trigger] self.data@[b], next),
                    forall|a: int, b: int| 0 <= a < j && j < b <= i ==> slot_key(#[trigger] self.data@[a], next) <= slot_key(#[trigger] self.data@[b], next),
                    forall|b: int| j < b <= i ==> slot_key(self.data@[j as int], next) < slot_key(#[trigger] self.data@[b], next),
                decreases j,
            {
                let x = self.data[j];
                let y = self.data[j - 1];
                let ghost s0 = self.data@;
                self.data[j - 1] = x;
                let ghost s1 = self.data@;
                self.data[j] = y;
                proof {
                    lemma_filled_update(s0, j - 1, x);
                    lemma_filled_update(s1, j as int, y);
                    assert(s1 == s0.update(j - 1, x));
                    assert(self.data@ == s1.update(j as int, y));
                    assert(s1[j as int] == x);
                    assert(s0[j - 1] == y);
                    assert forall|q: Queued<M, G, MTU>| filled_of(self.data@).count(q) == orig.count(q) by {
                        assert(filled_of(self.data@).add(slot_entries(x)).count(q) == filled_of(s1).add(slot_entries(y)).count(q));
                        assert(filled_of(s1).add(slot_entries(y)).count(q) == filled_of(s0).add(slot_entries(x)).count(q));
                    }
                    assert(filled_of(self.data@) =~= orig);
                }
                j -= 1;
            }
            i += 1;
        }
    }

    /// Inserts `frame` with `marker` and `group`.
    ///
    /// With a free slot, the frame is queued and `Ok(0)` returned. When the
    /// queue is full and the frame's identifier wins over that of the entry
    /// that would leave last, that entry is replaced, every other entry of
    /// its group is evicted too, and the number evicted is returned. Otherwise
    /// the frame is handed back in `Err` and nothing changes.
    pub fn push(&mut self, frame: Frame<MTU>, marker: M, group: G) -> (r: Result<usize, Frame<MTU>>)
        requires
            old(self).wf(),
            old(self)@.room(1),
        ensures
            final(self).wf(),
            final(self).mode() == old(self).mode(),
            (final(self)@, r) == old(self)@.push_outcome(N as nat, frame, marker, group),
    {
        let ghost v = self@;
        let entry = Queued { frame, seq: self.seq, marker, group };
        let mut replaced: usize = 0;
        let ghost kept: Multiset<Queued<M, G, MTU>>;
        if self.len == N {
            if N == 0 {
                return Err(frame);
            }
            self.sort();
            self.hint_idx = 0;
            proof {
                lemma_sorted_laid_out(self.data@, self.seq);
                lemma_laid_out_ends(self.data@, 0, N as int, self.seq);
            }
            let t = match self.data[N - 1] {
                HeapElement::Filled(t) => t,
                HeapElement::Hole => {
                    proof {
                        assert(false);
                    }
                    return Err(frame);
                },
            };
            if !frame.frame_id().precedes(&t.frame.frame_id()) {
                return Err(frame);
            }
            let ghost s = self.data@;
            let mut k: usize = 0;
            while k < N - 1
                invariant
                    N > 0,
                    k <= N - 1,
                    replaced <= k,
                    self.seq == v.next_seq,
                    self.sort_on == old(self).sort_on,
                    self.hint_idx == 0,
                    s.len() == N,
                    self.data@.len() == N,
                    s[N - 1] == HeapElement::Filled(t),
                    forall|x: int| k <= x < N ==> #[trigger] self.data@[x] == s[x],
                    forall|q: Queued<M, G, MTU>|
                        #[trigger] filled_of(self.data@.subrange(0, k as int)).count(q) == if q.group.shares_group(t.group) {
                            0
                        } else {
                            filled_of(s.subrange(0, k as int)).count(q)
                        },
                    replaced + filled_of(self.data@.subrange(0, k as int)).len() == filled_of(s.subrange(0, k as int)).len(),
                    self.len + replaced == N,
                decreases N - 1 - k,
            {
                let ghost pre = self.data@;
                match self.data[k] {
                    HeapElement::Filled(o) => {
                        if o.group.same_group(&t.group) {
                            self.data[k] = HeapElement::Hole;
                            replaced += 1;
                            self.len -= 1;
                        }
                    },
                    HeapElement::Hole => {},
                }
                proof {
                    assert(self.data@.subrange(0, k as int) =~= pre.subrange(0, k as int));
                    lemma_filled_prefix(self.data@, k as int);
                    lemma_filled_prefix(s, k as int);
                    assert(pre[k as int] == s[k as int]);
                }
                k += 1;
            }
            let ghost pre = self.data@;
            self.data[N - 1] = HeapElement::Filled(entry);
            replaced += 1;
            proof {
                kept = v.kept_without(t);
                assert(self.data@.drop_last() =~= pre.subrange(0, N - 1));
                assert(s.drop_last() =~= s.subrange(0, N - 1));
                assert(v.pending == filled_of(s));
                assert forall|q: Queued<M, G, MTU>| #[trigger] filled_of(pre.subrange(0, N - 1)).count(q) == kept.count(q) by {
                    assert(filled_of(s).count(q) == filled_of(s.subrange(0, N - 1)).count(q) + slot_entries(s[N - 1]).count(q));
                }
                assert(filled_of(pre.subrange(0, N - 1)) =~= kept);
                assert(filled_of(self.data@) =~= kept.insert(entry));
                assert(v.last() == t);
                assert(v.len() == N);
                assert(replaced == v.len() - kept.len());
                assert(v.push_outcome(N as nat, frame, marker, group).1 == Ok::<usize, Frame<MTU>>(replaced));
            }
        } else {
            proof {
                lemma_filled_len(self.data@);
            }
            let mut i: usize = 0;
            while i < N && !self.data[i].is_hole()
                invariant
                    i <= N,
                    forall|x: int| 0 <= x < i ==> #[trigger] self.data@[x] is Filled,
                decreases N - i,
            {
                i += 1;
            }
            proof {
                if i == N {
                    lemma_filled_len(self.data@);
                }
            }
            let ghost s = self.data@;
            self.data[i] = HeapElement::Filled(entry);
            self.len += 1;
            proof {
                kept = v.pending;
                lemma_filled_update(s, i as int, HeapElement::Filled(entry));
                assert(filled_of(self.data@) =~= kept.insert(entry));
            }
        }
        self.seq = self.seq.wrapping_add(1);
        proof {
            assert(self.seq == v.advanced(1));
            v.lemma_insert_valid(kept, entry, 1);
        }
        proof {
            assert(self@ == v.push_outcome(N as nat, frame, marker, group).0);
        }
        if self.sort_on == SortOn::Push {
            self.sort();
            self.hint_idx = 0;
            proof {
                lemma_sorted_laid_out(self.data@, self.seq);
            }
        }
        Ok(replaced)
    }

    /// Whether a slot in `start .. end` holds an entry of a group that `g` shares.
    fn tail_has_group(&self, g: &G, start: usize, end: usize) -> (r: bool)
        requires
            start <= end <= N,
        ensures
            r == exists|y: int| start <= y < end && #[trigger] self.data@[y] is Filled && g.shares_group(self.data@[y]->Filled_0.group),
    {
        let mut y: usize = start;
        while y < end
            invariant
                start <= y <= end <= N,
                forall|z: int| start <= z < y ==> !(#[trigger] self.data@[z] is Filled && g.shares_group(self.data@[z]->Filled_0.group)),
            decreases end - y,
        {
            match self.data[y] {
                HeapElement::Filled(o) => {
                    if g.same_group(&o.group) {
                        return true;
                    }
                },
                HeapElement::Hole => {},
            }
            y += 1;
        }
        false
    }

    /// Inserts `frames`, in order, as one group tagged `group`, evicting the
    /// group at the tail when room is short; see
    /// [`HeapView::push_group_outcome`].
    pub(crate) fn push_group(&mut self, frames: &[(Frame<MTU>, M)], group: G) -> (r: Result<usize, ()>)
        requires
            old(self).wf(),
            old(self)@.room(frames@.len()),
        ensures
            final(self).wf(),
            final(self).mode() == old(self).mode(),
            (final(self)@, r) == old(self)@.push_group_outcome(N as nat, frames@, group),
    {
        let ghost v = self@;
        let k = frames.len();
        if k == 0 {
            return Ok(0);
        }
        if k > N {
            return Err(());
        }
        let mut removed: usize = 0;
        let ghost base: Multiset<Queued<M, G, MTU>>;
        proof {
            lemma_filled_len(self.data@);
        }
        if N - self.len < k {
            self.sort();
            self.hint_idx = 0;
            let ghost s = self.data@;
            proof {
                lemma_sorted_laid_out(s, self.seq);
            }
            let start = N - k;
            proof {
                lemma_at_pos(s, self.len as int, self.seq, start as int);
            }
            let t = match self.data[start] {
                HeapElement::Filled(t) => t,
                HeapElement::Hole => {
                    proof {
                        assert(false);
                    }
                    return Err(());
                },
            };
            if !frames[0].0.frame_id().precedes(&t.frame.frame_id()) {
                return Err(());
            }
            let total: usize = self.len;
            let ghost n = total as int;
            let mut cleared: usize = 0;
            let mut x: usize = 0;
            while x < start
                invariant
                    x <= start < n <= N,
                    total == n,
                    self.len + cleared == n,
                    cleared <= x,
                    self.seq == v.next_seq,
                    self.sort_on == old(self).sort_on,
                    self.hint_idx == 0,
                    laid_out(s, 0, n, v.next_seq),
                    v == (HeapView { pending: filled_of(s), next_seq: v.next_seq }),
                    v.valid(),
                    self.data@.len() == N,
                    s.len() == N,
                    forall|y: int| x <= y < N ==> #[trigger] self.data@[y] == s[y],
                    forall|q: Queued<M, G, MTU>|
                        #[trigger] filled_of(self.data@.subrange(0, x as int)).count(q) == if v.tail_shares_group(
                            start as int,
                            q.group,
                        ) {
                            0
                        } else {
                            filled_of(s.subrange(0, x as int)).count(q)
                        },
                    cleared + filled_of(self.data@.subrange(0, x as int)).len() == filled_of(s.subrange(0, x as int)).len(),
                decreases start - x,
            {
                let ghost pre = self.data@;
                match self.data[x] {
                    HeapElement::Filled(o) => {
                        let hit = self.tail_has_group(&o.group, start, total);
                        proof {
                            lemma_tail_group(s, n, v.next_seq, start as int, o.group);
                            if hit {
                                let y = choose|y: int| start <= y < n && #[trigger] self.data@[y] is Filled && o.group.shares_group(self.data@[y]->Filled_0.group);
                                assert(s[y] == self.data@[y]);
                            }
                            if exists|y: int| start <= y < n && #[trigger] s[y] is Filled && o.group.shares_group(s[y]->Filled_0.group) {
                                let y = choose|y: int| start <= y < n && #[trigger] s[y] is Filled && o.group.shares_group(s[y]->Filled_0.group);
                                assert(s[y] == self.data@[y]);
                            }
                        }
                        if hit {
                            self.data[x] = HeapElement::Hole;
                            cleared += 1;
                            self.len -= 1;
                        }
                    },
                    HeapElement::Hole => {},
                }
                proof {
                    assert(self.data@.subrange(0, x as int) =~= pre.subrange(0, x as int));
                    lemma_filled_prefix(self.data@, x as int);
                    lemma_filled_prefix(s, x as int);
                    assert(pre[x as int] == s[x as int]);
                }
                x += 1;
            }
            let ghost mid = self.data@;
            let mut x: usize = start;
            while x < N
                invariant
                    start <= x <= N,
                    total == n,
                    cleared <= start,
                    self.data@.len() == N,
                    forall|y: int| 0 <= y < start ==> #[trigger] self.data@[y] == mid[y],
                    forall|y: int| start <= y < x ==> #[trigger] self.data@[y] is Hole,
                    self.len + cleared == n,
                    self.seq == v.next_seq,
                    self.sort_on == old(self).sort_on,
                    self.hint_idx == 0,
                decreases N - x,
            {
                self.data[x] = HeapElement::Hole;
                x += 1;
            }
            self.len = start - cleared;
            removed = total - self.len;
            proof {
                let kept = v.pending.filter(
                    |e: Queued<M, G, MTU>| v.ahead(e) < start && !v.tail_shares_group(start as int, e.group),
                );
                base = kept;
                lemma_prefix_kept(s, n, v.next_seq, start as int);
                lemma_filled_split(self.data@, start as int);
                assert(self.data@.subrange(0, start as int) =~= mid.subrange(0, start as int));
                let tail = self.data@.subrange(start as int, N as int);
                assert forall|y: int| 0 <= y < tail.len() implies (#[trigger] tail[y] is Filled <==> y < 0) by {
                    assert(tail[y] == self.data@[start + y]);
                }
                lemma_filled_prefix_len(tail, 0);
                assert(filled_of(tail) =~= Multiset::empty());
                assert forall|q: Queued<M, G, MTU>| #[trigger] filled_of(self.data@).count(q) == kept.count(q) by {
                    assert(filled_of(self.data@).count(q) == filled_of(mid.subrange(0, start as int)).count(q));
                }
                assert(filled_of(self.data@) =~= base);
                assert forall|y: int| 0 <= y < start implies (#[trigger] s.subrange(0, start as int)[y] is Filled <==> y < start) by {}
                lemma_filled_prefix_len(s.subrange(0, start as int), start as int);
                assert(removed == v.len() - kept.len());
            }
        } else {
            proof {
                base = v.pending;
            }
        }
        let ghost added = v.group_entries(frames@, group);
        proof {
            v.lemma_sub_valid(base, k as nat);
            v.lemma_advanced_step(0);
            assert(added.subrange(0, 0).to_multiset() =~= Multiset::empty()) by {
                broadcast use vstd::seq_lib::group_to_multiset_ensures;
            }
            assert(base.add(added.subrange(0, 0).to_multiset()) =~= base);
        }
        let mut i: usize = 0;
        while i < k
            invariant
                i <= k,
                k == frames@.len(),
                k <= N,
                added == v.group_entries(frames@, group),
                filled_of(self.data@) == base.add(added.subrange(0, i as int).to_multiset()),
                self.len as nat == filled_of(self.data@).len(),
                self.len + (k - i) <= N,
                self.seq == v.advanced(i as nat),
                self.hint_idx <= N,
                self.sort_on == old(self).sort_on,
                self@.valid(),
                self@.room((k - i) as nat),
            decreases k - i,
        {
            proof {
                lemma_filled_len(self.data@);
            }
            let mut h: usize = 0;
            while h < N && !self.data[h].is_hole()
                invariant
                    h <= N,
                    forall|x: int| 0 <= x < h ==> #[trigger] self.data@[x] is Filled,
                decreases N - h,
            {
                h += 1;
            }
            proof {
                if h == N {
                    lemma_filled_len(self.data@);
                }
            }
            let ghost pre = self.data@;
            let ghost pv = self@;
            let e = Queued { frame: frames[i].0, seq: self.seq, marker: frames[i].1, group };
            self.data[h] = HeapElement::Filled(e);
            self.seq = self.seq.wrapping_add(1);
            self.len += 1;
            proof {
                lemma_filled_update(pre, h as int, HeapElement::Filled(e));
                assert(filled_of(self.data@) =~= pv.pending.insert(e));
                pv.lemma_insert_valid(pv.pending, e, (k - i) as nat);
                v.lemma_advanced_step(i as nat);
                assert(added[i as int] == e);
                assert(added.subrange(0, i + 1) =~= added.subrange(0, i as int).push(e));
                assert(added.subrange(0, i + 1).to_multiset() =~= added.subrange(0, i as int).to_multiset().insert(e)) by {
                    broadcast use vstd::seq_lib::group_to_multiset_ensures;
                }
                assert(filled_of(self.data@) =~= base.add(added.subrange(0, i + 1).to_multiset()));
                assert(self.seq == v.advanced((i + 1) as nat));
            }
            i += 1;
        }
        proof {
            assert(added.subrange(0, k as int) =~= added);
        }
        if self.sort_on == SortOn::Push {
            self.sort();
            self.hint_idx = 0;
            proof {
                lemma_sorted_laid_out(self.data@, self.seq);
            }
        }
        Ok(removed)
    }

    /// A consistent queue has a valid view of at most `N` entries.
    pub proof fn lemma_valid(&self)
        requires
            self.wf(),
        ensures
            self@.valid(),
            self@.len() <= N,
    {
        lemma_filled_len(self.data@);
    }

    /// Whether `k` more insertions keep every waiting entry within the
    /// comparison window.
    pub fn has_room(&self, k: usize) -> (r: bool)
        requires
            self.wf(),
        ensures
            r == self@.room(k as nat),
    {
        if k > 0x8000 {
            return false;
        }
        let mut i: usize = 0;
        while i < N
            invariant
                i <= N,
                k <= 0x8000,
                forall|j: int| 0 <= j < i && (#[trigger] self.data@[j] is Filled) ==> age(self.seq, self.data@[j]->Filled_0.seq) + k <= 0x8000,
            decreases N - i,
        {
            match self.data[i] {
                HeapElement::Filled(e) => {
                    let d = self.seq.wrapping_sub(e.seq);
                    let a: u32 = if d < 0 {
                        (d as i32 + 0x1_0000) as u32
                    } else {
                        d as u32
                    };
                    proof {
                        lemma_wrapping_age(self.seq, e.seq);
                    }
                    if a as usize + k > 0x8000 {
                        proof {
                            lemma_filled_contains(self.data@, i as int);
                            assert(self@.pending.contains(e));
                            assert(age(self@.next_seq, e.seq) + k > 0x8000);
                        }
                        return false;
                    }
                },
                HeapElement::Hole => {},
            }
            i += 1;
        }
        proof {
            assert forall|e: Queued<M, G, MTU>| #[trigger] self@.pending.contains(e) implies age(self@.next_seq, e.seq) + k <= 0x8000 by {
                let j = lemma_contains_index(self.data@, e);
                assert(self.data@[j] is Filled);
            }
        }
        true
    }

    /// The number of waiting frames, at most `N`.
    pub fn len(&self) -> (r: usize)
        requires
            self.wf(),
        ensures
            r == self@.len(),
            r <= N,
    {
        proof {
            self.lemma_valid();
        }
        self.len
    }

    /// Empties the queue; the sequence counter is kept.
    pub fn clear(&mut self)
        requires
            old(self).wf(),
        ensures
            final(self).wf(),
            final(self)@.pending =~= Multiset::empty(),
            final(self)@.next_seq == old(self)@.next_seq,
            final(self).mode() == old(self).mode(),
    {
        self.data = [HeapElement::Hole; N];
        self.len = 0;
        self.hint_idx = 0;
        proof {
            lemma_filled_prefix_len(self.data@, 0);
            assert(self@.pending =~= Multiset::empty());
        }
    }

    /// Removes the entry that leaves first and hands out its frame and
    /// marker; `None` when the queue is empty.
    pub fn pop(&mut self) -> (r: Option<(Frame<MTU>, M)>)
        requires
            old(self).wf(),
        ensures
            final(self).wf(),
            final(self).mode() == old(self).mode(),
            (final(self)@, r) == old(self)@.pop_outcome(),
    {
        if self.len == 0 {
            return None;
        }
        if self.sort_on == SortOn::Pop {
            self.sort();
            self.hint_idx = 0;
            proof {
                lemma_sorted_laid_out(self.data@, self.seq);
            }
        }
        let ghost s = self.data@;
        let ghost h = self.hint_idx as int;
        assert(old(self)@ == self@);
        proof {
            lemma_laid_out_ends(s, h, self.len as int, self.seq);
        }
        let mut i: usize = self.hint_idx;
        while i < N
            invariant
                self.data@ == s,
                self.hint_idx == h,
                old(self)@ == self@,
                old(self)@.first() == s[h]->Filled_0,
                self.sort_on == old(self).sort_on,
                h <= i <= N,
                laid_out(s, h, self.len as int, self.seq),
                self.len > 0,
                self.len as nat == filled_of(s).len(),
                self@.valid(),
                forall|k: int| h <= k < i ==> #[trigger] s[k] is Hole,
            decreases N - i,
        {
            match self.data[i] {
                HeapElement::Filled(e) => {
                    self.data[i] = HeapElement::Hole;
                    self.hint_idx = i + 1;
                    self.len -= 1;
                    proof {
                        assert(s[h] is Filled);
                        assert(i == h);
                        lemma_filled_contains(s, h);
                        lemma_filled_update(s, i as int, HeapElement::Hole);
                        assert(self.data@ == s.update(i as int, HeapElement::Hole));
                        assert forall|q: Queued<M, G, MTU>| filled_of(self.data@).count(q) == filled_of(s).remove(e).count(q) by {
                            assert(filled_of(self.data@).add(slot_entries(s[i as int])).count(q) == filled_of(s).add(slot_entries(HeapElement::<M, G, MTU>::Hole)).count(q));
                        }
                        assert(filled_of(self.data@) =~= filled_of(s).remove(e));
                        assert(old(self)@.pending == filled_of(s));
                        if self.sort_on == SortOn::Push {
                            assert forall|k: int| 0 <= k < self.data@.len() implies (#[trigger] self.data@[k] is Filled <==> h + 1 <= k < h + 1 + self.len) by {
                                assert(s[k] is Filled <==> h <= k < h + self.len + 1);
                            }
                            assert forall|a: int, b: int| h + 1 <= a < b < h + 1 + self.len implies slot_key(#[trigger] self.data@[a], self.seq) < slot_key(#[trigger] self.data@[b], self.seq) by {
                                assert(slot_key(s[a], self.seq) < slot_key(s[b], self.seq));
                            }
                        }
                        let v = self@;
                        assert forall|x: Queued<M, G, MTU>| #[trigger] v.pending.contains(x) implies old(self)@.pending.contains(x) by {}
                        assert forall|a: Queued<M, G, MTU>, b: Queued<M, G, MTU>| #[trigger] v.pending.contains(a) && #[trigger] v.pending.contains(b) && a.seq == b.seq implies a == b by {
                            assert(old(self)@.pending.contains(a) && old(self)@.pending.contains(b));
                        }
                        assert forall|x: Queued<M, G, MTU>| #[trigger] v.pending.count(x) <= 1 by {
                            assert(old(self)@.pending.count(x) <= 1);
                        }
                        assert(v.valid());
                        assert(old(self)@.first() == e);
                        assert(v == old(self)@.pop_outcome().0);
                        assert(self.wf());
                    }
                    return Some((e.frame, e.marker));
                },
                HeapElement::Hole => {},
            }
            i += 1;
        }
        proof {
            assert(s[h] is Filled);
        }
        None
    }
}

/// A queue in which no two frames share a group: an eviction removes one frame.
pub struct PlainHeap<M: MarkerTraits, const MTU: usize, const N: usize> {
    heap: Heap<M, NoGrouping, MTU, N>,
}

impl<M: MarkerTraits, const MTU: usize, const N: usize> View for PlainHeap<M, MTU, N> {
    type V = HeapView<M, NoGrouping, MTU>;

    closed spec fn view(&self) -> HeapView<M, NoGrouping, MTU> {
        self.heap@
    }
}

impl<M: MarkerTraits, const MTU: usize, const N: usize> PlainHeap<M, MTU, N> {
    /// The queue's internal consistency.
    pub closed spec fn wf(&self) -> bool {
        self.heap.wf()
    }

    /// When the array is put in priority order.
    pub closed spec fn mode(&self) -> SortOn {
        self.heap.mode()
    }

    /// An empty queue that sorts at the moment `sort_on` names.
    pub fn new(sort_on: SortOn) -> (r: Self)
        ensures
            r.wf(),
            r@.pending =~= Multiset::empty(),
            r@.next_seq == 0,
            r.mode() == sort_on,
    {
        PlainHeap { heap: Heap::new(sort_on) }
    }

    /// Inserts `frame` with `marker`, in a group of its own.
    pub fn push(&mut self, frame: Frame<MTU>, marker: M) -> (r: Result<usize, Frame<MTU>>)
        requires
            old(self).wf(),
            old(self)@.room(1),
        ensures
            final(self).wf(),
            final(self).mode() == old(self).mode(),
            (final(self)@, r) == old(self)@.push_outcome(N as nat, frame, marker, NoGrouping {}),
    {
        self.heap.push(frame, marker, NoGrouping {})
    }

    /// Removes the frame that leaves first, with its marker.
    pub fn pop(&mut self) -> (r: Option<(Frame<MTU>, M)>)
        requires
            old(self).wf(),
        ensures
            final(self).wf(),
            final(self).mode() == old(self).mode(),
            (final(self)@, r) == old(self)@.pop_outcome(),
    {
        self.heap.pop()
    }

    /// Empties the queue.
    pub fn clear(&mut self)
        requires
            old(self).wf(),
        ensures
            final(self).wf(),
            final(self)@.pending =~= Multiset::empty(),
            final(self)@.next_seq == old(self)@.next_seq,
            final(self).mode() == old(self).mode(),
    {
        self.heap.clear();
    }

    /// The number of waiting frames, at most `N`.
    pub fn len(&self) -> (r: usize)
        requires
            self.wf(),
        ensures
            r == self@.len(),
            r <= N,
    {
        self.heap.len()
    }

    /// A consistent queue has a valid view of at most `N` entries.
    pub proof fn lemma_valid(&self)
        requires
            self.wf(),
        ensures
            self@.valid(),
            self@.len() <= N,
    {
        self.heap.lemma_valid();
    }

    /// Whether `k` more insertions keep every waiting entry within the
    /// comparison window.
    pub fn has_room(&self, k: usize) -> (r: bool)
        requires
            self.wf(),
        ensures
            r == self@.room(k as nat),
    {
        self.heap.has_room(k)
    }
}

/// A queue in which each insertion gets a fresh group tag, and a whole
/// group of frames can be inserted at once.
pub struct GroupingHeap<M: MarkerTraits, const MTU: usize, const N: usize> {
    heap: Heap<M, u16, MTU, N>,
    group_seq: u16,
}

impl<M: MarkerTraits, const MTU: usize, const N: usize> View for GroupingHeap<M, MTU, N> {
    type V = HeapView<M, u16, MTU>;

    closed spec fn view(&self) -> HeapView<M, u16, MTU> {
        self.heap@
    }
}

impl<M: MarkerTraits, const MTU: usize, const N: usize> GroupingHeap<M, MTU, N> {
    /// The queue's internal consistency, and every waiting entry's tag was
    /// handed out fewer tags ago than the entry is insertions old.
    pub closed spec fn wf(&self) -> bool {
        &&& self.heap.wf()
        &&& forall|e: Queued<M, u16, MTU>| #[trigger] self.heap@.pending.contains(e)
            ==> tag_age(self.group_seq, e.group) < age(self.heap@.next_seq, e.seq)
    }

    /// When the array is put in priority order.
    pub closed spec fn mode(&self) -> SortOn {
        self.heap.mode()
    }

    /// The group tag handed out last.
    pub closed spec fn last_group(&self) -> u16 {
        self.group_seq
    }

    /// The group tag the next insertion will get.
    pub open spec fn next_group(&self) -> u16 {
        self.last_group().wrapping_add(1)
    }

    /// A consistent queue has a valid view of at most `N` entries, none of
    /// which holds the tag the next insertion will get.
    pub proof fn lemma_valid(&self)
        requires
            self.wf(),
        ensures
            self@.valid(),
            self@.len() <= N,
            forall|e: Queued<M, u16, MTU>| #[trigger] self@.pending.contains(e) ==> e.group != self.next_group(),
    {
        self.heap.lemma_valid();
        assert forall|e: Queued<M, u16, MTU>| #[trigger] self@.pending.contains(e) implies e.group != self.next_group() by {
            lemma_tag_step(self.group_seq, e.group);
        }
    }

    /// An empty queue that sorts at the moment `sort_on` names.
    pub fn new(sort_on: SortOn) -> (r: Self)
        ensures
            r.wf(),
            r@.pending =~= Multiset::empty(),
            r@.next_seq == 0,
            r.mode() == sort_on,
            r.last_group() == 0,
    {
        GroupingHeap { heap: Heap::new(sort_on), group_seq: 0 }
    }

    /// Whether `k` more insertions keep every waiting entry within the
    /// comparison window.
    pub fn has_room(&self, k: usize) -> (r: bool)
        requires
            self.wf(),
        ensures
            r == self@.room(k as nat),
    {
        self.heap.has_room(k)
    }

    /// Inserts `frame` with `marker`, as a group of its own with a tag that
    /// no waiting entry holds; the tag is used up only when the frame is queued.
    pub fn push(&mut self, frame: Frame<MTU>, marker: M) -> (r: Result<usize, Frame<MTU>>)
        requires
            old(self).wf(),
            old(self)@.room(1),
        ensures
            final(self).wf(),
            final(self).mode() == old(self).mode(),
            forall|e: Queued<M, u16, MTU>| #[trigger] old(self)@.pending.contains(e) ==> e.group != old(self).next_group(),
            final(self).last_group() == if r is Ok {
                old(self).next_group()
            } else {
                old(self).last_group()
            },
            (final(self)@, r) == old(self)@.push_outcome(N as nat, frame, marker, old(self).next_group()),
    {
        let ghost v = self.heap@;
        let ghost g = self.group_seq;
        proof {
            self.lemma_valid();
        }
        let tag = self.group_seq.wrapping_add(1);
        let r = self.heap.push(frame, marker, tag);
        if r.is_ok() {
            self.group_seq = tag;
            proof {
                let e = v.entry(frame, marker, tag);
                let w = self.heap@;
                assert forall|x: Queued<M, u16, MTU>| #[trigger] w.pending.contains(x) implies tag_age(tag, x.group) < age(w.next_seq, x.seq) by {
                    if x == e {
                        lemma_age_step(v.next_seq, x.seq);
                    } else {
                        if v.len() < N {
                            assert(v.pending.contains(x));
                        } else {
                            let t = v.last();
                            assert(v.kept_without(t).contains(x));
                            assert(v.pending.remove(t).contains(x));
                            assert(v.pending.contains(x));
                        }
                        lemma_tag_step(g, x.group);
                        lemma_age_step(v.next_seq, x.seq);
                    }
                }
            }
        }
        r
    }

    /// Inserts `frames`, in order, as one group with a tag that no waiting
    /// entry holds.
    ///
    /// An empty group changes nothing and returns `Ok(0)`. When the free
    /// slots do not suffice, the group is admitted only if its first frame
    /// wins over the entry at the start of the tail region as long as the
    /// group; that region is then evicted, with every other entry of each
    /// group that has a member there, and their number returned. A refused
    /// group gives `Err(())` and changes nothing.
    pub fn push_group(&mut self, frames: &[(Frame<MTU>, M)]) -> (r: Result<usize, ()>)
        requires
            old(self).wf(),
            old(self)@.room(frames@.len()),
        ensures
            final(self).wf(),
            final(self).mode() == old(self).mode(),
            forall|e: Queued<M, u16, MTU>| #[trigger] old(self)@.pending.contains(e) ==> e.group != old(self).next_group(),
            (final(self)@, r) == old(self)@.push_group_outcome(N as nat, frames@, old(self).next_group()),
            final(self).last_group() == if r is Ok && frames@.len() > 0 {
                old(self).next_group()
            } else {
                old(self).last_group()
            },
    {
        let ghost v = self.heap@;
        let ghost g = self.group_seq;
        proof {
            self.lemma_valid();
        }
        let tag = self.group_seq.wrapping_add(1);
        let r = self.heap.push_group(frames, tag);
        if r.is_ok() && frames.len() > 0 {
            self.group_seq = tag;
            proof {
                let k = frames@.len();
                let added = v.group_entries(frames@, tag);
                let w = self.heap@;
                assert(w.next_seq == v.advanced(k));
                assert forall|x: Queued<M, u16, MTU>| #[trigger] w.pending.contains(x) implies tag_age(tag, x.group) < age(w.next_seq, x.seq) by {
                    broadcast use vstd::seq_lib::group_to_multiset_ensures;
                    if added.contains(x) {
                        let i = choose|i: int| 0 <= i < added.len() && added[i] == x;
                        v.lemma_age_advanced(i as nat, k);
                    } else {
                        if v.len() + k <= N {
                            assert(v.pending.contains(x));
                        } else {
                            let start = N - k;
                            let kept = v.pending.filter(
                                |e: Queued<M, u16, MTU>| v.ahead(e) < start && !v.tail_shares_group(start as int, e.group),
                            );
                            assert(kept.contains(x));
                            assert(v.pending.contains(x));
                        }
                        lemma_tag_step(g, x.group);
                        v.lemma_age_shift(x.seq, k);
                    }
                }
            }
        }
        r
    }

    /// Removes the frame that leaves first, with its marker.
    pub fn pop(&mut self) -> (r: Option<(Frame<MTU>, M)>)
        requires
            old(self).wf(),
        ensures
            final(self).wf(),
            final(self).mode() == old(self).mode(),
            final(self).last_group() == old(self).last_group(),
            (final(self)@, r) == old(self)@.pop_outcome(),
    {
        let ghost v = self.heap@;
        let r = self.heap.pop();
        proof {
            assert forall|x: Queued<M, u16, MTU>| #[trigger] self.heap@.pending.contains(x) implies v.pending.contains(x) by {
                if v.len() > 0 {
                    assert(v.pending.remove(v.first()).contains(x));
                }
            }
        }
        r
    }

    /// Empties the queue.
    pub fn clear(&mut self)
        requires
            old(self).wf(),
        ensures
            final(self).wf(),
            final(self)@.pending =~= Multiset::empty(),
            final(self)@.next_seq == old(self)@.next_seq,
            final(self).mode() == old(self).mode(),
            final(self).last_group() == old(self).last_group(),
    {
        self.heap.clear();
    }

    /// The number of waiting frames, at most `N`.
    pub fn len(&self) -> (r: usize)
        requires
            self.wf(),
        ensures
            r == self@.len(),
            r <= N,
    {
        self.heap.len()
    }
}

} // verus!
