use crate::database::SignalDatabase;
use crate::timestamp::Timestamp;
use vstd::prelude::*;

verus! {

// One decoded bus event, plus the two small enums the decoder tags it with.

/// Direction of a captured frame as the logger recorded it.
#[derive(Clone, Copy, Debug, PartialEq, Eq, Structural, Hash)]
pub enum Direction {
    Rx,
    Tx,
}

impl Default for Direction {
    fn default() -> (r: Self)
        ensures
            r == Direction::Rx,
    {
        Direction::Rx
    }
}

/// The kind of a decoded frame: a bus frame, a secondary-bus frame, or a
/// line the decoder recognized but could not fully parse.
#[derive(Clone, Copy, Debug, PartialEq, Eq, Structural, Hash)]
pub enum FrameType {
    Can,
    Eth,
    ErrorFrame,
}

impl Default for FrameType {
    fn default() -> (r: Self)
        ensures
            r == FrameType::Can,
    {
        FrameType::Can
    }
}

/// One decoded bus event.
pub struct Frame {
    /// Formatted absolute timestamp, `YYYY-MM-DD HH:MM:SS.mmm`.
    pub absolute_time: String,
    /// Relative timestamp since trace start, parsed from the line.
    pub timestamp: Timestamp,
    /// Logger channel index.
    pub channel: u8,
    /// What kind of frame this is.
    pub ftype: FrameType,
    /// Direction as recorded by the logger.
    pub direction: Direction,
    /// Resolved message in the channel's bound database, if any.
    pub message_ref: Option<usize>,
    /// Numeric identifier parsed from the identifier token.
    pub id: u32,
    /// The identifier token exactly as it stood in the log.
    pub id_hex: String,
    /// Declared payload length in bytes.
    pub byte_length: u16,
    /// Resolved first sender node of the message, if any.
    pub sender_node_ref: Option<usize>,
    /// Resolved signals of the message, as database keys.
    pub signal_refs: Vec<usize>,
    /// Payload bytes as hex tokens separated by single spaces.
    pub data: String,
}

/// What every field of a freshly cleared frame holds.
pub open spec fn frame_is_default(f: Frame) -> bool {
    &&& f.absolute_time@ == Seq::<char>::empty()
    &&& f.timestamp.nanos == 0
    &&& f.channel == 0
    &&& f.ftype == FrameType::Can
    &&& f.direction == Direction::Rx
    &&& f.message_ref is None
    &&& f.id == 0
    &&& f.id_hex@ == Seq::<char>::empty()
    &&& f.byte_length == 0
    &&& f.sender_node_ref is None
    &&& f.signal_refs@ == Seq::<usize>::empty()
    &&& f.data@ == Seq::<char>::empty()
}

impl Default for Frame {
    fn default() -> (r: Self)
        ensures
            frame_is_default(r),
    {
        let signal_refs: Vec<usize> = Vec::new();
        proof {
            assert(signal_refs@ =~= Seq::<usize>::empty());
        }
        Frame {
            absolute_time: String::new(),
            timestamp: Timestamp { nanos: 0 },
            channel: 0,
            ftype: FrameType::Can,
            direction: Direction::Rx,
            message_ref: None,
            id: 0,
            id_hex: String::new(),
            byte_length: 0,
            sender_node_ref: None,
            signal_refs,
            data: String::new(),
        }
    }
}

/// The protocol label of a frame with payload length `len`.
pub open spec fn protocol_text(len: u16) -> Seq<char> {
    if len <= 8 {
        "CAN"@
    } else {
        "CAN-FD"@
    }
}

impl Frame {
    /// Resets every field to its default value.
    pub fn clear(&mut self)
        ensures
            frame_is_default(*final(self)),
    {
        *self = Frame::default();
    }

    /// The protocol of the frame, from its payload length: `CAN` up to
    /// 8 bytes, `CAN-FD` beyond.
    pub fn protocol_to_string(&self) -> (r: String)
        ensures
            r@ == protocol_text(self.byte_length),
    {
        if self.byte_length <= 8 {
            String::from_str("CAN")
        } else {
            String::from_str("CAN-FD")
        }
    }

    /// The name of the frame's resolved message, or empty when unresolved.
    pub fn msg_name_to_string(&self, db: &SignalDatabase) -> (r: String)
        ensures
            r@ == frame_msg_name(*self, *db),
    {
        if let Some(k) = self.message_ref {
            if k < db.messages.len() {
                return db.messages[k].name.clone();
            }
        }
        String::new()
    }

    /// The comment of the frame's resolved message, or empty when unresolved.
    pub fn msg_comment_to_string(&self, db: &SignalDatabase) -> (r: String)
        ensures
            r@ == frame_msg_comment(*self, *db),
    {
        if let Some(k) = self.message_ref {
            if k < db.messages.len() {
                return db.messages[k].comment.clone();
            }
        }
        String::new()
    }

    /// The name of the frame's resolved sender node, or empty when
    /// unresolved.
    pub fn tx_node_name_to_string(&self, db: &SignalDatabase) -> (r: String)
        ensures
            r@ == frame_tx_node_name(*self, *db),
    {
        if let Some(k) = self.sender_node_ref {
            if k < db.nodes.len() {
                return db.nodes[k].name.clone();
            }
        }
        String::new()
    }
}

/// The resolved message name of a frame, or empty.
pub open spec fn frame_msg_name(f: Frame, db: SignalDatabase) -> Seq<char> {
    match f.message_ref {
        Some(k) => if k < db.messages.len() {
            db.messages[k as int].name@
        } else {
            Seq::empty()
        },
        None => Seq::empty(),
    }
}

/// The resolved message comment of a frame, or empty.
pub open spec fn frame_msg_comment(f: Frame, db: SignalDatabase) -> Seq<char> {
    match f.message_ref {
        Some(k) => if k < db.messages.len() {
            db.messages[k as int].comment@
        } else {
            Seq::empty()
        },
        None => Seq::empty(),
    }
}

/// The resolved sender node name of a frame, or empty.
pub open spec fn frame_tx_node_name(f: Frame, db: SignalDatabase) -> Seq<char> {
    match f.sender_node_ref {
        Some(k) => if k < db.nodes.len() {
            db.nodes[k as int].name@
        } else {
            Seq::empty()
        },
        None => Seq::empty(),
    }
}

} // verus!
