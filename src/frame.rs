//! Frames: an identifier with a payload of at most `MTU` bytes.
use crate::id::FrameId;
use core::cmp::Ordering;
use vstd::prelude::*;
use vstd::slice::slice_subrange;

verus! {

/// A borrowed view of a frame: its identifier and its used payload bytes.
#[derive(Eq, PartialEq)]
pub struct FrameRef<'a> {
    pub id: FrameId,
    pub data: &'a [u8],
}

/// A frame with an inline payload buffer of `MTU` bytes, of which the first
/// `len` are in use. Bytes past `len` are never observed.
#[derive(Eq, PartialEq, Copy, Clone, Hash, Debug)]
pub struct Frame<const MTU: usize> {
    pub id: FrameId,
    data: [u8; MTU],
    len: usize,
}

impl<const MTU: usize> Frame<MTU> {
    #[verifier::type_invariant]
    spec fn inv(self) -> bool {
        self.len <= MTU
    }

    /// The frame's identifier.
    pub closed spec fn ident(self) -> FrameId {
        self.id
    }

    /// The payload bytes in use.
    pub closed spec fn bytes(self) -> Seq<u8> {
        self.data@.subrange(0, self.len as int)
    }

    /// A frame with identifier `id` and payload `data`, or `None` when `data`
    /// is longer than `MTU`.
    pub fn new(id: FrameId, data: &[u8]) -> (r: Option<Self>)
        ensures
            r is Some <==> data@.len() <= MTU,
            r matches Some(f) ==> f.ident() == id && f.bytes() == data@,
    {
        if data.len() > MTU {
            return None;
        }
        Some(Self::new_unchecked(id, data))
    }

    /// A frame with identifier `id` and payload `data`; the caller guarantees
    /// that `data` fits.
    pub fn new_unchecked(id: FrameId, data: &[u8]) -> (r: Self)
        requires
            data@.len() <= MTU,
        ensures
            r.ident() == id,
            r.bytes() == data@,
    {
        let mut data_copy = [0u8; MTU];
        let n = data.len();
        let mut i: usize = 0;
        while i < n
            invariant
                n == data@.len(),
                n <= MTU,
                i <= n,
                data_copy@.len() == MTU,
                forall|k: int| 0 <= k < i ==> data_copy@[k] == data@[k],
            decreases n - i,
        {
            data_copy[i] = data[i];
            i += 1;
        }
        let r = Frame { id, data: data_copy, len: n };
        assert(r.bytes() =~= data@);
        r
    }

    /// A frame that takes `data` as its buffer, of which the first `used`
    /// bytes are the payload; `None` when `used` exceeds `MTU`.
    pub fn new_move(id: FrameId, data: [u8; MTU], used: u16) -> (r: Option<Frame<MTU>>)
        ensures
            r is Some <==> used as int <= MTU,
            r matches Some(f) ==> f.ident() == id && f.bytes() == data@.subrange(0, used as int),
    {
        if used as usize > MTU {
            return None;
        }
        Some(Self::new_move_unchecked(id, data, used))
    }

    /// As [`Frame::new_move`]; the caller guarantees that `used` fits.
    pub fn new_move_unchecked(id: FrameId, data: [u8; MTU], used: u16) -> (r: Frame<MTU>)
        requires
            used as int <= MTU,
        ensures
            r.ident() == id,
            r.bytes() == data@.subrange(0, used as int),
    {
        Frame { id, data, len: used as usize }
    }

    /// The frame's identifier.
    pub fn frame_id(&self) -> (r: FrameId)
        ensures
            r == self.ident(),
    {
        self.id
    }

    /// The payload bytes in use.
    pub fn data(&self) -> (r: &[u8])
        ensures
            r@ == self.bytes(),
    {
        proof {
            use_type_invariant(self);
        }
        slice_subrange(self.data.as_slice(), 0, self.len)
    }

    /// The frame as an identifier and a borrowed payload.
    pub fn as_frame_ref(&self) -> (r: FrameRef<'_>)
        ensures
            r.id == self.ident(),
            r.data@ == self.bytes(),
    {
        FrameRef { id: self.id, data: self.data() }
    }
}

/// Frames are ordered by their identifiers alone; the payload never takes part.
impl<const MTU: usize> PartialOrd for Frame<MTU> {
    fn partial_cmp(&self, other: &Self) -> (r: Option<Ordering>) {
        self.id.partial_cmp(&other.id)
    }
}

impl<const MTU: usize> vstd::std_specs::cmp::PartialOrdSpecImpl for Frame<MTU> {
    open spec fn obeys_partial_cmp_spec() -> bool {
        true
    }

    open spec fn partial_cmp_spec(&self, other: &Self) -> Option<Ordering> {
        Some(self.ident().order(other.ident()))
    }
}

} // verus!
