//! Queued entries, the order in which they leave, and the abstract state of a queue.
use crate::frame::Frame;
use crate::heap::GroupTraits;
use vstd::multiset::Multiset;
use vstd::prelude::*;

verus! {

broadcast use vstd::multiset::group_multiset_axioms;

/// A frame waiting in a queue, with the insertion sequence number it was
/// given, the caller's marker and its group tag.
#[derive(Copy, Clone)]
pub struct Queued<M, G, const MTU: usize> {
    pub frame: Frame<MTU>,
    pub seq: i16,
    pub marker: M,
    pub group: G,
}

/// `a` was inserted before `b`: their difference, read as a 16-bit signed
/// number, is negative.
pub open spec fn seq_before(a: i16, b: i16) -> bool {
    a.wrapping_sub(b) < 0
}

/// How many insertions ago `seq` was handed out, when `next` is the number
/// the next insertion will get.
pub open spec fn age(next: i16, seq: i16) -> int {
    (next - seq) % 0x1_0000
}

/// How many group tags ago `tag` was handed out, when `last` is the tag
/// handed out last.
pub open spec fn tag_age(last: u16, tag: u16) -> int {
    (last - tag) % 0x1_0000
}

/// Handing out one more tag ages every older tag by one, and the new tag
/// differs from every tag handed out fewer than 0xFFFF tags ago.
pub proof fn lemma_tag_step(last: u16, tag: u16)
    requires
        tag_age(last, tag) < 0xFFFF,
    ensures
        tag_age(last.wrapping_add(1), tag) == tag_age(last, tag) + 1,
        tag != last.wrapping_add(1),
{
}

/// Larger than the key of any queued entry.
pub open spec fn hole_key() -> int {
    0x1_0000_0000_0000_0000
}

impl<M, G, const MTU: usize> Queued<M, G, MTU> {
    /// `self` leaves the queue before `other`: its identifier wins
    /// arbitration, or the identifiers are equal and `self` was inserted first.
    pub open spec fn precedes(self, other: Self) -> bool {
        ||| self.frame.ident().wins_over(other.frame.ident())
        ||| (self.frame.ident() == other.frame.ident() && seq_before(self.seq, other.seq))
    }

    /// An integer that orders entries as `precedes` does while their ages
    /// stay within half the sequence range.
    pub open spec fn key(self, next: i16) -> int {
        self.frame.ident().rank() * 0x1_0000 - age(next, self.seq)
    }

    /// The age of this entry lies in the window where sequence comparison is exact.
    pub open spec fn in_window(self, next: i16) -> bool {
        1 <= age(next, self.seq) <= 0x8000
    }
}

/// Within the window, `precedes` is the order of keys, and equal keys mean
/// equal identifiers and sequence numbers.
pub proof fn lemma_precedes_key<M, G, const MTU: usize>(
    a: Queued<M, G, MTU>,
    b: Queued<M, G, MTU>,
    next: i16,
)
    requires
        a.in_window(next),
        b.in_window(next),
    ensures
        a.precedes(b) <==> a.key(next) < b.key(next),
        a.key(next) == b.key(next) <==> (a.frame.ident() == b.frame.ident() && a.seq == b.seq),
{
    a.frame.ident().lemma_rank(b.frame.ident());
    let aa = age(next, a.seq);
    let ab = age(next, b.seq);
    assert((next - a.seq) == aa + ((next - a.seq) / 0x1_0000) * 0x1_0000);
    assert((next - b.seq) == ab + ((next - b.seq) / 0x1_0000) * 0x1_0000);
    let qa = (next - a.seq) / 0x1_0000;
    let qb = (next - b.seq) / 0x1_0000;
    assert(a.seq - b.seq == ab - aa + (qb - qa) * 0x1_0000);
    assert(-0x1_0000 < a.seq - b.seq < 0x1_0000);
    assert(-0x8000 < ab - aa < 0x8000);
    assert(-2 < qb - qa < 2) by (nonlinear_arith)
        requires
            a.seq - b.seq == ab - aa + (qb - qa) * 0x1_0000,
            -0x1_0000 < a.seq - b.seq < 0x1_0000,
            -0x8000 < ab - aa < 0x8000,
    ;
    if a.frame.ident() == b.frame.ident() {
        if qb - qa == 0 {
            assert(a.seq - b.seq == ab - aa);
        } else if qb - qa == 1 {
            assert(a.seq - b.seq == ab - aa + 0x1_0000);
        } else {
            assert(a.seq - b.seq == ab - aa - 0x1_0000);
        }
    }
}

/// The state of a queue as its users see it: the multiset of waiting
/// entries and the sequence number the next insertion will get.
pub struct HeapView<M, G, const MTU: usize> {
    pub pending: Multiset<Queued<M, G, MTU>>,
    pub next_seq: i16,
}

impl<M, G: GroupTraits, const MTU: usize> HeapView<M, G, MTU> {
    /// Every waiting entry is within the comparison window, no sequence
    /// number is held twice, and no entry is held twice.
    pub open spec fn valid(self) -> bool {
        &&& forall|e: Queued<M, G, MTU>| #[trigger] self.pending.contains(e) ==> e.in_window(self.next_seq)
        &&& forall|e: Queued<M, G, MTU>| #[trigger] self.pending.count(e) <= 1
        &&& forall|a: Queued<M, G, MTU>, b: Queued<M, G, MTU>|
            #[trigger] self.pending.contains(a) && #[trigger] self.pending.contains(b) && a.seq == b.seq
                ==> a == b
    }

    /// `k` more insertions keep every waiting entry within the comparison
    /// window: fewer than half the sequence range lies between any two of them.
    pub open spec fn room(self, k: nat) -> bool {
        &&& k <= 0x8000
        &&& forall|e: Queued<M, G, MTU>| #[trigger] self.pending.contains(e)
            ==> age(self.next_seq, e.seq) + k <= 0x8000
    }

    /// The number of waiting entries.
    pub open spec fn len(self) -> nat {
        self.pending.len()
    }

    /// `e` waits and leaves before every other waiting entry.
    pub open spec fn is_first(self, e: Queued<M, G, MTU>) -> bool {
        &&& self.pending.contains(e)
        &&& forall|o: Queued<M, G, MTU>| #[trigger] self.pending.contains(o) && o != e ==> e.precedes(o)
    }

    /// `e` waits and leaves after every other waiting entry.
    pub open spec fn is_last(self, e: Queued<M, G, MTU>) -> bool {
        &&& self.pending.contains(e)
        &&& forall|o: Queued<M, G, MTU>| #[trigger] self.pending.contains(o) && o != e ==> o.precedes(e)
    }

    /// The entry that leaves next.
    pub open spec fn first(self) -> Queued<M, G, MTU> {
        choose|e: Queued<M, G, MTU>| self.is_first(e)
    }

    /// The entry that would leave last.
    pub open spec fn last(self) -> Queued<M, G, MTU> {
        choose|e: Queued<M, G, MTU>| self.is_last(e)
    }

    /// The sequence number after `next_seq`, wrapping.
    pub open spec fn advanced(self, k: nat) -> i16 {
        ((self.next_seq + k + 0x8000) % 0x1_0000 - 0x8000) as i16
    }

    /// The entry that inserting `frame` now would create.
    pub open spec fn entry(self, frame: Frame<MTU>, marker: M, group: G) -> Queued<M, G, MTU> {
        Queued { frame, seq: self.next_seq, marker, group }
    }

    /// The state with `pending` waiting, after `k` more insertions.
    pub open spec fn with_pending(self, pending: Multiset<Queued<M, G, MTU>>, k: nat) -> Self {
        HeapView { pending, next_seq: self.advanced(k) }
    }

    /// What stays when `t` is evicted: every other entry not in `t`'s group.
    pub open spec fn kept_without(self, t: Queued<M, G, MTU>) -> Multiset<Queued<M, G, MTU>> {
        self.pending.remove(t).filter(|e: Queued<M, G, MTU>| !e.group.shares_group(t.group))
    }

    /// Inserting `frame` into a queue of `cap` slots: the new state and the result.
    ///
    /// With a free slot the entry is added. When full, it replaces the last
    /// entry if its identifier wins over that entry's, and every other
    /// entry of the evicted entry's group leaves too; the result counts the
    /// entries evicted. Otherwise the frame is handed back and nothing changes.
    pub open spec fn push_outcome(self, cap: nat, frame: Frame<MTU>, marker: M, group: G) -> (
        Self,
        Result<usize, Frame<MTU>>,
    ) {
        let e = self.entry(frame, marker, group);
        if self.len() < cap {
            (self.with_pending(self.pending.insert(e), 1), Ok(0))
        } else if self.len() > 0 && frame.ident().wins_over(self.last().frame.ident()) {
            let kept = self.kept_without(self.last());
            (self.with_pending(kept.insert(e), 1), Ok((self.len() - kept.len()) as usize))
        } else {
            (self, Err(frame))
        }
    }

    /// How many waiting entries leave before `e`.
    pub open spec fn ahead(self, e: Queued<M, G, MTU>) -> nat {
        self.pending.filter(|o: Queued<M, G, MTU>| o.precedes(e)).len()
    }

    /// The waiting entry with exactly `p` entries ahead of it.
    pub open spec fn at_pos(self, p: int) -> Queued<M, G, MTU> {
        choose|e: Queued<M, G, MTU>| self.pending.contains(e) && self.ahead(e) == p
    }

    /// Some waiting entry with at least `start` entries ahead of it belongs
    /// to a group that `g` shares.
    pub open spec fn tail_shares_group(self, start: int, g: G) -> bool {
        exists|x: Queued<M, G, MTU>| #[trigger] self.pending.contains(x) && self.ahead(x) >= start && g.shares_group(x.group)
    }

    /// The entries that inserting `frames` as group `g` creates, with
    /// consecutive sequence numbers in input order.
    pub open spec fn group_entries(self, frames: Seq<(Frame<MTU>, M)>, g: G) -> Seq<Queued<M, G, MTU>> {
        Seq::new(
            frames.len(),
            |i: int| Queued { frame: frames[i].0, seq: self.advanced(i as nat), marker: frames[i].1, group: g },
        )
    }

    /// Inserting `frames` as one group tagged `g` into a queue of `cap` slots:
    /// the new state and the result.
    ///
    /// An empty group changes nothing. A group larger than the queue is
    /// refused. When the free slots suffice, all entries are added. Otherwise
    /// the tail region as long as the group is examined: unless the group's
    /// first frame wins over the entry at the start of that region, the group
    /// is refused and nothing changes; if it does, that region is evicted,
    /// together with every other entry of a group that has a member in the
    /// region, so that no group is left in part; the result counts the
    /// entries evicted.
    pub open spec fn push_group_outcome(self, cap: nat, frames: Seq<(Frame<MTU>, M)>, g: G) -> (
        Self,
        Result<usize, ()>,
    ) {
        let k = frames.len();
        let added = self.group_entries(frames, g).to_multiset();
        if k == 0 {
            (self, Ok(0))
        } else if k > cap {
            (self, Err(()))
        } else if self.len() + k <= cap {
            (self.with_pending(self.pending.add(added), k), Ok(0))
        } else {
            let start = cap - k;
            let t = self.at_pos(start);
            if frames[0].0.ident().wins_over(t.frame.ident()) {
                let kept = self.pending.filter(
                    |e: Queued<M, G, MTU>| self.ahead(e) < start && !self.tail_shares_group(start, e.group),
                );
                (self.with_pending(kept.add(added), k), Ok((self.len() - kept.len()) as usize))
            } else {
                (self, Err(()))
            }
        }
    }

    /// Removing the next entry: the new state and the frame and marker handed out.
    pub open spec fn pop_outcome(self) -> (Self, Option<(Frame<MTU>, M)>) {
        if self.len() == 0 {
            (self, None)
        } else {
            let e = self.first();
            (HeapView { pending: self.pending.remove(e), next_seq: self.next_seq }, Some((e.frame, e.marker)))
        }
    }
}

/// The age of an entry after one more insertion is one more, while it stays
/// within the window.
pub proof fn lemma_age_step(next: i16, seq: i16)
    requires
        age(next, seq) < 0x8000,
    ensures
        age(((next + 1 + 0x8000) % 0x1_0000 - 0x8000) as i16, seq) == age(next, seq) + 1,
{
    let n2 = ((next + 1 + 0x8000) % 0x1_0000 - 0x8000) as i16;
    assert(n2 == next + 1 || n2 == next + 1 - 0x1_0000);
}

impl<M, G: GroupTraits, const MTU: usize> HeapView<M, G, MTU> {
    /// Keeping part of a valid state keeps it valid, with as much room.
    pub proof fn lemma_sub_valid(self, kept: Multiset<Queued<M, G, MTU>>, k: nat)
        requires
            self.valid(),
            self.room(k),
            forall|x: Queued<M, G, MTU>| #[trigger] kept.count(x) <= self.pending.count(x),
        ensures
            (HeapView { pending: kept, next_seq: self.next_seq }).valid(),
            (HeapView { pending: kept, next_seq: self.next_seq }).room(k),
    {
        let w = HeapView { pending: kept, next_seq: self.next_seq };
        assert forall|x: Queued<M, G, MTU>| #[trigger] w.pending.contains(x) implies self.pending.contains(x) by {
            assert(kept.count(x) <= self.pending.count(x));
        }
        assert forall|x: Queued<M, G, MTU>| #[trigger] w.pending.count(x) <= 1 by {
            assert(kept.count(x) <= self.pending.count(x));
        }
        assert forall|a: Queued<M, G, MTU>, b: Queued<M, G, MTU>|
            #[trigger] w.pending.contains(a) && #[trigger] w.pending.contains(b) && a.seq == b.seq implies a == b by {
            assert(self.pending.contains(a) && self.pending.contains(b));
        }
    }

    /// Advancing by `i` and then by one is advancing by `i + 1`.
    pub proof fn lemma_advanced_step(self, i: nat)
        ensures
            (HeapView { pending: self.pending, next_seq: self.advanced(i) }).advanced(1) == self.advanced(i + 1),
            self.advanced(i).wrapping_add(1) == self.advanced(i + 1),
            self.advanced(0) == self.next_seq,
    {
        let a = self.advanced(i);
        let x = self.next_seq + i + 0x8000;
        assert(a == x % 0x1_0000 - 0x8000);
        assert((a + 1 + 0x8000) % 0x1_0000 == (x + 1) % 0x1_0000) by {
            assert(a + 1 + 0x8000 == x % 0x1_0000 + 1);
            assert(x == (x / 0x1_0000) * 0x1_0000 + x % 0x1_0000);
            vstd::arithmetic::div_mod::lemma_mod_add_multiples_vanish(x % 0x1_0000 + 1, 0x1_0000);
            vstd::arithmetic::div_mod::lemma_add_mod_noop(x, 1, 0x1_0000);
            vstd::arithmetic::div_mod::lemma_mod_twice(x, 0x1_0000);
            vstd::arithmetic::div_mod::lemma_add_mod_noop(x % 0x1_0000, 1, 0x1_0000);
        }
    }

    /// In a valid state, an entry that leaves before all others is the first.
    pub proof fn lemma_first_is(self, e: Queued<M, G, MTU>)
        requires
            self.valid(),
            self.is_first(e),
        ensures
            self.first() == e,
    {
        let f = self.first();
        if f != e {
            lemma_precedes_key(e, f, self.next_seq);
            lemma_precedes_key(f, e, self.next_seq);
        }
    }

    /// In a valid state, an entry that leaves after all others is the last.
    pub proof fn lemma_last_is(self, e: Queued<M, G, MTU>)
        requires
            self.valid(),
            self.is_last(e),
        ensures
            self.last() == e,
    {
        let l = self.last();
        if l != e {
            lemma_precedes_key(e, l, self.next_seq);
            lemma_precedes_key(l, e, self.next_seq);
        }
    }

    /// A valid state with entries has an entry that leaves last.
    pub proof fn lemma_last_exists(self)
        requires
            self.valid(),
            self.len() > 0,
        ensures
            self.is_last(self.last()),
        decreases self.len(),
    {
        let x = self.pending.choose();
        assert(self.pending.count(x) > 0);
        assert(self.pending.contains(x));
        let w = HeapView { pending: self.pending.remove(x), next_seq: self.next_seq };
        self.lemma_sub_valid(w.pending, 0);
        if w.len() == 0 {
            assert forall|o: Queued<M, G, MTU>| #[trigger] self.pending.contains(o) && o != x implies o.precedes(x) by {
                assert(w.pending.contains(o));
            }
            assert(self.is_last(x));
        } else {
            w.lemma_last_exists();
            let l = w.last();
            assert(self.pending.contains(l));
            lemma_precedes_key(l, x, self.next_seq);
            lemma_precedes_key(x, l, self.next_seq);
            if l.precedes(x) {
                assert forall|o: Queued<M, G, MTU>| #[trigger] self.pending.contains(o) && o != x implies o.precedes(x) by {
                    assert(w.pending.contains(o));
                    if o != l {
                        assert(o.precedes(l));
                        lemma_precedes_key(o, l, self.next_seq);
                        lemma_precedes_key(o, x, self.next_seq);
                    }
                }
                assert(self.is_last(x));
            } else {
                assert(self.pending.count(x) <= 1);
                assert(x != l);
                assert forall|o: Queued<M, G, MTU>| #[trigger] self.pending.contains(o) && o != l implies o.precedes(l) by {
                    if o != x {
                        assert(w.pending.contains(o));
                    }
                }
                assert(self.is_last(l));
            }
        }
        if self.is_last(x) {
            self.lemma_last_is(x);
        } else {
            self.lemma_last_is(w.last());
        }
    }

    /// After `k` more insertions an entry is `k` insertions older, while its
    /// age stays below the sequence range.
    pub proof fn lemma_age_shift(self, seq: i16, k: nat)
        requires
            age(self.next_seq, seq) + k < 0x1_0000,
        ensures
            age(self.advanced(k), seq) == age(self.next_seq, seq) + k,
    {
        let x = self.next_seq + 0x8000 + k;
        let a = age(self.next_seq, seq);
        assert(self.advanced(k) == x % 0x1_0000 - 0x8000);
        assert(self.next_seq - seq == a + ((self.next_seq - seq) / 0x1_0000) * 0x1_0000);
        assert(x == (x / 0x1_0000) * 0x1_0000 + x % 0x1_0000);
        let q1 = (self.next_seq - seq) / 0x1_0000;
        let q2 = x / 0x1_0000;
        assert(self.advanced(k) - seq == a + k + (q1 - q2) * 0x1_0000) by {
            assert(self.advanced(k) - seq == x - q2 * 0x1_0000 - 0x8000 - seq);
            assert(x - 0x8000 - seq == self.next_seq - seq + k);
        }
        vstd::arithmetic::div_mod::lemma_mod_add_multiples_vanish(a + k, 0x1_0000);
        vstd::arithmetic::div_mod::lemma_mod_multiples_vanish(q1 - q2, a + k, 0x1_0000);
        vstd::arithmetic::div_mod::lemma_small_mod((a + k) as nat, 0x1_0000);
    }

    /// The age of the entry made `i` insertions from now, `j` insertions from now.
    pub proof fn lemma_age_advanced(self, i: nat, j: nat)
        requires
            i <= j < i + 0x1_0000,
        ensures
            age(self.advanced(j), self.advanced(i)) == j - i,
    {
        let x = self.next_seq + 0x8000;
        vstd::arithmetic::div_mod::lemma_sub_mod_noop(x + j, x + i, 0x1_0000);
        assert(self.advanced(j) - self.advanced(i) == (x + j) % 0x1_0000 - (x + i) % 0x1_0000);
        vstd::arithmetic::div_mod::lemma_small_mod((j - i) as nat, 0x1_0000);
    }

    /// Adding a fresh entry to what is left of a valid state, with room for
    /// one more insertion, gives a valid state with room for one fewer.
    pub proof fn lemma_insert_valid(self, kept: Multiset<Queued<M, G, MTU>>, e: Queued<M, G, MTU>, k: nat)
        requires
            self.valid(),
            self.room(k),
            k >= 1,
            forall|x: Queued<M, G, MTU>| #[trigger] kept.count(x) <= self.pending.count(x),
            e.seq == self.next_seq,
        ensures
            self.with_pending(kept.insert(e), 1).valid(),
            self.with_pending(kept.insert(e), 1).room((k - 1) as nat),
    {
        let w = self.with_pending(kept.insert(e), 1);
        assert(w.next_seq == ((self.next_seq + 1 + 0x8000) % 0x1_0000 - 0x8000) as i16);
        assert(age(self.next_seq, e.seq) == 0);
        lemma_age_step(self.next_seq, e.seq);
        assert forall|x: Queued<M, G, MTU>| #[trigger] kept.contains(x) implies age(w.next_seq, x.seq) == age(self.next_seq, x.seq) + 1 && x.seq != e.seq by {
            assert(self.pending.contains(x));
            lemma_age_step(self.next_seq, x.seq);
        }
        assert(!kept.contains(e));
        assert forall|x: Queued<M, G, MTU>| #[trigger] w.pending.contains(x) implies x.in_window(w.next_seq) && age(w.next_seq, x.seq) + (k - 1) <= 0x8000 by {
            if x != e {
                assert(kept.contains(x));
                assert(self.pending.contains(x));
                assert(age(self.next_seq, x.seq) + k <= 0x8000);
            } else {
                assert(age(w.next_seq, x.seq) == 1);
            }
        }
        assert forall|x: Queued<M, G, MTU>| #[trigger] w.pending.count(x) <= 1 by {
            if x != e {
                assert(kept.count(x) <= self.pending.count(x));
            }
        }
        assert forall|a: Queued<M, G, MTU>, b: Queued<M, G, MTU>|
            #[trigger] w.pending.contains(a) && #[trigger] w.pending.contains(b) && a.seq == b.seq implies a == b by {
            if a != e && b != e {
                assert(kept.contains(a) && kept.contains(b));
                assert(self.pending.contains(a) && self.pending.contains(b));
            } else if a != e {
                assert(kept.contains(a));
            } else if b != e {
                assert(kept.contains(b));
            }
        }
    }
}

} // verus!
