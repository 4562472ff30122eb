//! Slots of the queue's array and the multiset of entries they hold.
use crate::entry::{hole_key, lemma_precedes_key, HeapView, Queued};
use crate::heap::GroupTraits;
use crate::id::cmp_int;
use core::cmp::Ordering;
use vstd::multiset::Multiset;
use vstd::prelude::*;

verus! {

broadcast use vstd::multiset::group_multiset_axioms;



/// One place in the queue's array: empty, or holding an entry.
#[derive(Copy, Clone)]
pub enum HeapElement<M, G, const MTU: usize> {
    Hole,
    Filled(Queued<M, G, MTU>),
}

/// The entries a single slot holds.
pub open spec fn slot_entries<M, G, const MTU: usize>(s: HeapElement<M, G, MTU>) -> Multiset<Queued<M, G, MTU>> {
    match s {
        HeapElement::Hole => Multiset::empty(),
        HeapElement::Filled(e) => Multiset::singleton(e),
    }
}

/// The entries held by a sequence of slots.
pub open spec fn filled_of<M, G, const MTU: usize>(s: Seq<HeapElement<M, G, MTU>>) -> Multiset<Queued<M, G, MTU>>
    decreases s.len(),
{
    if s.len() == 0 {
        Multiset::empty()
    } else {
        filled_of(s.drop_last()).add(slot_entries(s.last()))
    }
}

/// The sort key of a slot: an entry's key, or above every entry for a hole.
pub open spec fn slot_key<M, G, const MTU: usize>(s: HeapElement<M, G, MTU>, next: i16) -> int {
    match s {
        HeapElement::Hole => hole_key(),
        HeapElement::Filled(e) => e.key(next),
    }
}

/// Slot keys never decrease along `s`.
pub open spec fn sorted_slots<M, G, const MTU: usize>(s: Seq<HeapElement<M, G, MTU>>, next: i16) -> bool {
    forall|i: int, j: int| 0 <= i < j < s.len() ==> slot_key(#[trigger] s[i], next) <= slot_key(#[trigger] s[j], next)
}

/// Replacing one slot exchanges its entries for the new slot's.
pub proof fn lemma_filled_update<M, G, const MTU: usize>(
    s: Seq<HeapElement<M, G, MTU>>,
    i: int,
    v: HeapElement<M, G, MTU>,
)
    requires
        0 <= i < s.len(),
    ensures
        filled_of(s.update(i, v)).add(slot_entries(s[i])) =~= filled_of(s).add(slot_entries(v)),
    decreases s.len(),
{
    let t = s.update(i, v);
    assert(filled_of(t) == filled_of(t.drop_last()).add(slot_entries(t.last())));
    assert(filled_of(s) == filled_of(s.drop_last()).add(slot_entries(s.last())));
    if i == s.len() - 1 {
        assert(t.drop_last() =~= s.drop_last());
    } else {
        assert(t.drop_last() =~= s.drop_last().update(i, v));
        assert(s.drop_last()[i] == s[i]);
        assert(t.last() == s.last());
        lemma_filled_update(s.drop_last(), i, v);
    }
    assert forall|x: Queued<M, G, MTU>|
        filled_of(t).add(slot_entries(s[i])).count(x) == filled_of(s).add(slot_entries(v)).count(x) by {
        if i == s.len() - 1 {
        } else {
            assert(filled_of(t.drop_last()).add(slot_entries(s[i])).count(x)
                == filled_of(s.drop_last()).add(slot_entries(v)).count(x));
        }
    }
}

/// The entries of a prefix grow by one slot at a time.
pub proof fn lemma_filled_prefix<M, G, const MTU: usize>(s: Seq<HeapElement<M, G, MTU>>, j: int)
    requires
        0 <= j < s.len(),
    ensures
        filled_of(s.subrange(0, j + 1)) =~= filled_of(s.subrange(0, j)).add(slot_entries(s[j])),
{
    assert(s.subrange(0, j + 1).drop_last() =~= s.subrange(0, j));
}

/// An entry in a slot is among the held entries.
pub proof fn lemma_filled_contains<M, G, const MTU: usize>(s: Seq<HeapElement<M, G, MTU>>, i: int)
    requires
        0 <= i < s.len(),
        s[i] is Filled,
    ensures
        filled_of(s).contains(s[i]->Filled_0),
    decreases s.len(),
{
    if i < s.len() - 1 {
        lemma_filled_contains(s.drop_last(), i);
    }
}

/// Every held entry sits in some slot.
pub proof fn lemma_contains_index<M, G, const MTU: usize>(
    s: Seq<HeapElement<M, G, MTU>>,
    e: Queued<M, G, MTU>,
) -> (j: int)
    requires
        filled_of(s).contains(e),
    ensures
        0 <= j < s.len(),
        s[j] == HeapElement::Filled(e),
    decreases s.len(),
{
    if s.len() == 0 {
        0
    } else if s.last() == HeapElement::Filled(e) {
        s.len() - 1
    } else {
        assert(filled_of(s.drop_last()).contains(e));
        lemma_contains_index(s.drop_last(), e)
    }
}

/// An entry held in two different slots is counted twice.
pub proof fn lemma_two_slots<M, G, const MTU: usize>(s: Seq<HeapElement<M, G, MTU>>, i: int, j: int)
    requires
        0 <= i < j < s.len(),
        s[i] is Filled,
        s[i] == s[j],
    ensures
        filled_of(s).count(s[i]->Filled_0) >= 2,
    decreases s.len(),
{
    if j < s.len() - 1 {
        lemma_two_slots(s.drop_last(), i, j);
    } else {
        lemma_filled_contains(s.drop_last(), i);
    }
}

/// There are never more held entries than slots, and as many exactly when
/// no slot is a hole.
pub proof fn lemma_filled_len<M, G, const MTU: usize>(s: Seq<HeapElement<M, G, MTU>>)
    ensures
        filled_of(s).len() <= s.len(),
        filled_of(s).len() == s.len() <==> forall|i: int| 0 <= i < s.len() ==> #[trigger] s[i] is Filled,
    decreases s.len(),
{
    if s.len() > 0 {
        lemma_filled_len(s.drop_last());
        if filled_of(s).len() == s.len() {
            assert forall|i: int| 0 <= i < s.len() implies #[trigger] s[i] is Filled by {
                if i < s.len() - 1 {
                    assert(s.drop_last()[i] == s[i]);
                }
            }
        }
        if forall|i: int| 0 <= i < s.len() ==> #[trigger] s[i] is Filled {
            assert forall|i: int| 0 <= i < s.drop_last().len() implies #[trigger] s.drop_last()[i] is Filled by {
                assert(s[i] is Filled);
            }
        }
    }
}

/// When exactly the first `m` slots are filled, `m` entries are held.
pub proof fn lemma_filled_prefix_len<M, G, const MTU: usize>(s: Seq<HeapElement<M, G, MTU>>, m: int)
    requires
        0 <= m <= s.len(),
        forall|i: int| 0 <= i < s.len() ==> (#[trigger] s[i] is Filled <==> i < m),
    ensures
        filled_of(s).len() == m,
    decreases s.len(),
{
    if s.len() > 0 {
        if m == s.len() {
            lemma_filled_len(s);
        } else {
            assert forall|i: int| 0 <= i < s.drop_last().len() implies (#[trigger] s.drop_last()[i] is Filled <==> i < m) by {
                assert(s[i] is Filled <==> i < m);
            }
            lemma_filled_prefix_len(s.drop_last(), m);
        }
    }
}

/// The entries of a sequence are those of its two parts.
pub proof fn lemma_filled_split<M, G, const MTU: usize>(s: Seq<HeapElement<M, G, MTU>>, i: int)
    requires
        0 <= i <= s.len(),
    ensures
        filled_of(s) =~= filled_of(s.subrange(0, i)).add(filled_of(s.subrange(i, s.len() as int))),
    decreases s.len(),
{
    if i == s.len() {
        assert(s.subrange(0, i) =~= s);
        assert(filled_of(s.subrange(i, s.len() as int)) =~= Multiset::empty());
    } else {
        let d = s.drop_last();
        lemma_filled_split(d, i);
        assert(d.subrange(0, i) =~= s.subrange(0, i));
        assert(s.subrange(i, s.len() as int).drop_last() =~= d.subrange(i, d.len() as int));
        assert(s.subrange(i, s.len() as int).last() == s.last());
    }
}

/// Every filled slot of `s` holds an entry within the comparison window.
pub open spec fn slots_in_window<M, G, const MTU: usize>(s: Seq<HeapElement<M, G, MTU>>, next: i16) -> bool {
    forall|k: int| 0 <= k < s.len() && (#[trigger] s[k] is Filled) ==> s[k]->Filled_0.in_window(next)
}

/// Exactly the slots `h .. h + n` are filled, in strictly increasing key order.
pub open spec fn laid_out<M, G, const MTU: usize>(s: Seq<HeapElement<M, G, MTU>>, h: int, n: int, next: i16) -> bool {
    &&& 0 <= h
    &&& 0 <= n
    &&& h + n <= s.len()
    &&& forall|i: int| 0 <= i < s.len() ==> (#[trigger] s[i] is Filled <==> h <= i < h + n)
    &&& forall|i: int, j: int| h <= i < j < h + n ==> slot_key(#[trigger] s[i], next) < slot_key(#[trigger] s[j], next)
}

impl<M, G, const MTU: usize> HeapElement<M, G, MTU> {
    /// Whether the slot is empty.
    pub(crate) fn is_hole(&self) -> (r: bool)
        ensures
            r == (*self is Hole),
    {
        match self {
            HeapElement::Hole => true,
            HeapElement::Filled(_) => false,
        }
    }

    /// The priority order of two slots: an entry before a hole, entries by
    /// identifier and then by sequence number.
    pub(crate) fn cmp(&self, other: &Self, Ghost(next): Ghost<i16>) -> (r: Ordering)
        requires
            *self is Filled ==> self->Filled_0.in_window(next),
            *other is Filled ==> other->Filled_0.in_window(next),
        ensures
            r == cmp_int(slot_key(*self, next), slot_key(*other, next)),
    {
        match self {
            HeapElement::Hole => {
                match other {
                    HeapElement::Hole => Ordering::Equal,
                    HeapElement::Filled(_) => Ordering::Greater,
                }
            },
            HeapElement::Filled(a) => {
                match other {
                    HeapElement::Hole => Ordering::Less,
                    HeapElement::Filled(b) => {
                        proof {
                            lemma_precedes_key(*a, *b, next);
                            lemma_precedes_key(*b, *a, next);
                            a.frame.ident().lemma_rank(b.frame.ident());
                        }
                        let ida = a.frame.frame_id();
                        let idb = b.frame.frame_id();
                        if ida.precedes(&idb) {
                            Ordering::Less
                        } else if idb.precedes(&ida) {
                            Ordering::Greater
                        } else {
                            let d = a.seq.wrapping_sub(b.seq);
                            if d < 0 {
                                Ordering::Less
                            } else if d == 0 {
                                Ordering::Equal
                            } else {
                                Ordering::Greater
                            }
                        }
                    },
                }
            },
        }
    }
}

impl<M, G, const MTU: usize> HeapElement<M, G, MTU> {
    /// Whether this slot sorts strictly before `other`.
    pub(crate) fn before(&self, other: &Self, Ghost(next): Ghost<i16>) -> (r: bool)
        requires
            *self is Filled ==> self->Filled_0.in_window(next),
            *other is Filled ==> other->Filled_0.in_window(next),
        ensures
            r == (slot_key(*self, next) < slot_key(*other, next)),
    {
        match self.cmp(other, Ghost(next)) {
            Ordering::Less => true,
            _ => false,
        }
    }
}

/// In a valid state, the entry in a slot lies within the comparison window.
pub(crate) proof fn lemma_slots_in_window<M, G: GroupTraits, const MTU: usize>(s: Seq<HeapElement<M, G, MTU>>, next: i16)
    requires
        (HeapView { pending: filled_of(s), next_seq: next }).valid(),
    ensures
        slots_in_window(s, next),
{
    let v = HeapView { pending: filled_of(s), next_seq: next };
    assert forall|k: int| 0 <= k < s.len() && (#[trigger] s[k] is Filled) implies s[k]->Filled_0.in_window(next) by {
        lemma_filled_contains(s, k);
        assert(v.pending.contains(s[k]->Filled_0));
    }
}

/// If holes only ever follow holes, the filled slots are exactly the first
/// as many as there are entries.
pub(crate) proof fn lemma_holes_trail<M, G, const MTU: usize>(s: Seq<HeapElement<M, G, MTU>>)
    requires
        forall|i: int, j: int| 0 <= i < j < s.len() && #[trigger] s[i] is Hole ==> #[trigger] s[j] is Hole,
    ensures
        forall|i: int| 0 <= i < s.len() ==> (#[trigger] s[i] is Filled <==> i < filled_of(s).len()),
    decreases s.len(),
{
    if s.len() > 0 {
        let d = s.drop_last();
        if s.last() is Filled {
            assert forall|i: int| 0 <= i < s.len() implies #[trigger] s[i] is Filled by {
                if s[i] is Hole && i < s.len() - 1 {
                    assert(s[s.len() - 1] is Hole);
                }
            }
            lemma_filled_len(s);
        } else {
            assert forall|i: int, j: int| 0 <= i < j < d.len() && #[trigger] d[i] is Hole implies #[trigger] d[j] is Hole by {
                assert(s[i] is Hole);
            }
            lemma_holes_trail(d);
            lemma_filled_len(d);
            assert(filled_of(s) =~= filled_of(d));
            assert forall|i: int| 0 <= i < s.len() implies (#[trigger] s[i] is Filled <==> i < filled_of(s).len()) by {
                if i < s.len() - 1 {
                    assert(d[i] == s[i]);
                }
            }
        }
    }
}

/// Sorted slots of a valid state are laid out from the start.
pub(crate) proof fn lemma_sorted_laid_out<M, G: GroupTraits, const MTU: usize>(s: Seq<HeapElement<M, G, MTU>>, next: i16)
    requires
        sorted_slots(s, next),
        (HeapView { pending: filled_of(s), next_seq: next }).valid(),
    ensures
        laid_out(s, 0, filled_of(s).len() as int, next),
{
    let v = HeapView { pending: filled_of(s), next_seq: next };
    lemma_slots_in_window(s, next);
    assert forall|i: int| 0 <= i < s.len() && #[trigger] s[i] is Filled implies slot_key(s[i], next) < hole_key_of::<M, G, MTU>() by {
        let e = s[i]->Filled_0;
        e.frame.ident().lemma_rank(e.frame.ident());
    }
    assert forall|i: int, j: int| 0 <= i < j < s.len() && #[trigger] s[i] is Hole implies #[trigger] s[j] is Hole by {
        assert(slot_key(s[i], next) <= slot_key(s[j], next));
    }
    lemma_holes_trail(s);
    lemma_filled_len(s);
    let n = filled_of(s).len() as int;
    assert forall|i: int, j: int| 0 <= i < j < n implies slot_key(#[trigger] s[i], next) < slot_key(#[trigger] s[j], next) by {
        assert(s[i] is Filled && s[j] is Filled);
        let a = s[i]->Filled_0;
        let b = s[j]->Filled_0;
        lemma_filled_contains(s, i);
        lemma_filled_contains(s, j);
        assert(v.pending.contains(a) && v.pending.contains(b));
        if a == b {
            lemma_two_slots(s, i, j);
            assert(v.pending.count(a) <= 1);
        }
        lemma_precedes_key(a, b, next);
    }
}

/// The hole key, for any slot type.
pub(crate) open spec fn hole_key_of<M, G, const MTU: usize>() -> int {
    slot_key::<M, G, MTU>(HeapElement::Hole, 0)
}

/// In a valid state laid out over `h .. h + n`, the entry at `h` leaves
/// first and the one at `h + n - 1` last.
pub(crate) proof fn lemma_laid_out_ends<M, G: GroupTraits, const MTU: usize>(s: Seq<HeapElement<M, G, MTU>>, h: int, n: int, next: i16)
    requires
        laid_out(s, h, n, next),
        n > 0,
        (HeapView { pending: filled_of(s), next_seq: next }).valid(),
    ensures
        (HeapView { pending: filled_of(s), next_seq: next }).first() == s[h]->Filled_0,
        (HeapView { pending: filled_of(s), next_seq: next }).last() == s[h + n - 1]->Filled_0,
{
    let v = HeapView { pending: filled_of(s), next_seq: next };
    let e = s[h]->Filled_0;
    let z = s[h + n - 1]->Filled_0;
    lemma_filled_contains(s, h);
    lemma_filled_contains(s, h + n - 1);
    assert forall|o: Queued<M, G, MTU>| #[trigger] v.pending.contains(o) && o != e implies e.precedes(o) by {
        let j = lemma_contains_index(s, o);
        assert(s[j] is Filled);
        lemma_precedes_key(e, o, next);
    }
    assert forall|o: Queued<M, G, MTU>| #[trigger] v.pending.contains(o) && o != z implies o.precedes(z) by {
        let j = lemma_contains_index(s, o);
        assert(s[j] is Filled);
        lemma_precedes_key(o, z, next);
    }
    assert(v.is_first(e));
    assert(v.is_last(z));
    let f = v.first();
    let l = v.last();
    if f != e {
        lemma_precedes_key(e, f, next);
        lemma_precedes_key(f, e, next);
    }
    if l != z {
        lemma_precedes_key(z, l, next);
        lemma_precedes_key(l, z, next);
    }
}

/// In a valid state laid out from the start, the entry in slot `i` has
/// exactly `i` entries ahead of it.
pub(crate) proof fn lemma_ahead_index<M, G: GroupTraits, const MTU: usize>(s: Seq<HeapElement<M, G, MTU>>, n: int, next: i16, i: int)
    requires
        laid_out(s, 0, n, next),
        (HeapView { pending: filled_of(s), next_seq: next }).valid(),
        0 <= i < n,
    ensures
        (HeapView { pending: filled_of(s), next_seq: next }).ahead(s[i]->Filled_0) == i,
{
    let v = HeapView { pending: filled_of(s), next_seq: next };
    let e = s[i]->Filled_0;
    let f = v.pending.filter(|o: Queued<M, G, MTU>| o.precedes(e));
    assert(v.ahead(e) == f.len());
    let pre = s.subrange(0, i);
    let post = s.subrange(i, s.len() as int);
    lemma_filled_split(s, i);
    lemma_slots_in_window(s, next);
    assert forall|q: Queued<M, G, MTU>| #[trigger] f.count(q) == filled_of(pre).count(q) by {
        if filled_of(s).count(q) > 0 {
            let x = lemma_contains_index(s, q);
            assert(v.pending.count(q) <= 1);
            lemma_precedes_key(q, e, next);
            if x < i {
                assert(pre[x] == s[x]);
                lemma_filled_contains(pre, x);
                assert(slot_key(s[x], next) < slot_key(s[i], next));
            } else {
                assert(post[x - i] == s[x]);
                lemma_filled_contains(post, x - i);
                if x > i {
                    assert(slot_key(s[i], next) < slot_key(s[x], next));
                }
            }
        }
    }
    assert(f =~= filled_of(pre));
    assert forall|x: int| 0 <= x < pre.len() implies (#[trigger] pre[x] is Filled <==> x < i) by {
        assert(pre[x] == s[x]);
    }
    lemma_filled_prefix_len(pre, i);
}

/// In a valid state laid out from the start, the entry at position `p` is
/// the one in slot `p`.
pub(crate) proof fn lemma_at_pos<M, G: GroupTraits, const MTU: usize>(s: Seq<HeapElement<M, G, MTU>>, n: int, next: i16, p: int)
    requires
        laid_out(s, 0, n, next),
        (HeapView { pending: filled_of(s), next_seq: next }).valid(),
        0 <= p < n,
    ensures
        (HeapView { pending: filled_of(s), next_seq: next }).at_pos(p) == s[p]->Filled_0,
{
    let v = HeapView { pending: filled_of(s), next_seq: next };
    lemma_ahead_index(s, n, next, p);
    lemma_filled_contains(s, p);
    let e = v.at_pos(p);
    let x = lemma_contains_index(s, e);
    lemma_ahead_index(s, n, next, x);
}

/// In a valid state laid out from the start, the first `j` slots hold
/// exactly the entries with fewer than `j` entries ahead of them.
pub(crate) proof fn lemma_prefix_kept<M, G: GroupTraits, const MTU: usize>(s: Seq<HeapElement<M, G, MTU>>, n: int, next: i16, j: int)
    requires
        laid_out(s, 0, n, next),
        (HeapView { pending: filled_of(s), next_seq: next }).valid(),
        0 <= j <= n,
    ensures
        filled_of(s.subrange(0, j)) =~= (HeapView { pending: filled_of(s), next_seq: next }).pending.filter(
            |e: Queued<M, G, MTU>| (HeapView { pending: filled_of(s), next_seq: next }).ahead(e) < j,
        ),
{
    let v = HeapView { pending: filled_of(s), next_seq: next };
    let f = v.pending.filter(|e: Queued<M, G, MTU>| v.ahead(e) < j);
    let pre = s.subrange(0, j);
    let post = s.subrange(j, s.len() as int);
    lemma_filled_split(s, j);
    assert forall|q: Queued<M, G, MTU>| #[trigger] f.count(q) == filled_of(pre).count(q) by {
        if filled_of(s).count(q) > 0 {
            let x = lemma_contains_index(s, q);
            assert(v.pending.count(q) <= 1);
            lemma_ahead_index(s, n, next, x);
            if x < j {
                assert(pre[x] == s[x]);
                lemma_filled_contains(pre, x);
            } else {
                assert(post[x - j] == s[x]);
                lemma_filled_contains(post, x - j);
            }
        }
    }
}


/// In a valid state laid out from the start, a group has a member with at
/// least `start` entries ahead exactly when it has one in slots `start .. n`.
pub(crate) proof fn lemma_tail_group<M, G: GroupTraits, const MTU: usize>(
    s: Seq<HeapElement<M, G, MTU>>,
    n: int,
    next: i16,
    start: int,
    g: G,
)
    requires
        laid_out(s, 0, n, next),
        (HeapView { pending: filled_of(s), next_seq: next }).valid(),
        0 <= start <= n,
    ensures
        (HeapView { pending: filled_of(s), next_seq: next }).tail_shares_group(start, g) <==> exists|y: int|
            start <= y < n && #[trigger] s[y] is Filled && g.shares_group(s[y]->Filled_0.group),
{
    let v = HeapView { pending: filled_of(s), next_seq: next };
    if v.tail_shares_group(start, g) {
        let x = choose|x: Queued<M, G, MTU>| #[trigger] v.pending.contains(x) && v.ahead(x) >= start && g.shares_group(x.group);
        let y = lemma_contains_index(s, x);
        lemma_ahead_index(s, n, next, y);
        assert(s[y] is Filled);
    }
    if exists|y: int| start <= y < n && #[trigger] s[y] is Filled && g.shares_group(s[y]->Filled_0.group) {
        let y = choose|y: int| start <= y < n && #[trigger] s[y] is Filled && g.shares_group(s[y]->Filled_0.group);
        lemma_ahead_index(s, n, next, y);
        lemma_filled_contains(s, y);
        let x = s[y]->Filled_0;
        assert(v.pending.contains(x) && v.ahead(x) >= start && g.shares_group(x.group));
    }
}

} // verus!
