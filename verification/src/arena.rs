use crate::frame::Frame;
use vstd::prelude::*;

verus! {

// The frame arena. Frames are only ever appended during one load and the
// whole store is cleared before the next, so a key is an append position;
// keys handed out by one load stay valid and unambiguous until the next
// clear, and a reload of the same trace hands out identical keys.

/// A stable key naming one frame in the arena.
#[derive(Clone, Copy, Debug, PartialEq, Eq, Structural, Hash)]
pub struct FrameKey {
    pub idx: usize,
}

/// The arena of decoded frames, in insertion (file) order.
pub struct FrameArena {
    slots: Vec<Frame>,
}

impl View for FrameArena {
    type V = Seq<Frame>;

    closed spec fn view(&self) -> Seq<Frame> {
        self.slots@
    }
}

impl FrameArena {
    pub fn new() -> (a: FrameArena)
        ensures
            a@ =~= Seq::<Frame>::empty(),
    {
        FrameArena { slots: Vec::new() }
    }

    pub fn len(&self) -> (n: usize)
        ensures
            n == self@.len(),
    {
        self.slots.len()
    }

    /// Whether the arena holds no frames.
    pub fn is_empty(&self) -> (r: bool)
        ensures
            r == (self@.len() == 0),
    {
        self.slots.len() == 0
    }

    /// Store a frame and hand back its key.
    pub fn insert(&mut self, f: Frame) -> (k: FrameKey)
        ensures
            final(self)@ == old(self)@.push(f),
            k.idx == old(self)@.len(),
    {
        let k = FrameKey { idx: self.slots.len() };
        self.slots.push(f);
        k
    }

    /// The frame behind a key, if the key is live.
    pub fn get(&self, key: &FrameKey) -> (r: Option<&Frame>)
        ensures
            key.idx < self@.len() ==> r == Some(&self@[key.idx as int]),
            key.idx >= self@.len() ==> r is None,
    {
        if key.idx < self.slots.len() {
            Some(&self.slots[key.idx])
        } else {
            None
        }
    }

    /// Drop every frame; every key handed out so far goes dead.
    pub fn clear(&mut self)
        ensures
            final(self)@ =~= Seq::<Frame>::empty(),
    {
        self.slots = Vec::new();
    }
}

} // verus!
