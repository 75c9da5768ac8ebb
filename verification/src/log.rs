use crate::abs_time::AbsoluteTime;
use crate::arena::{FrameArena, FrameKey};
use crate::database::SignalDatabase;
use crate::frame::Frame;
use std::collections::HashMap;
use vstd::prelude::*;

verus! {

broadcast use vstd::std_specs::hash::group_hash_axioms;

// The trace store: channel bindings, the optional absolute start time, the
// frame arena, and one key vector per presentation order. The channel map
// is populated by the caller before loading and survives reloads.

/// The bus kind of a logger channel.
#[derive(Clone, Debug, PartialEq, Eq, Structural, Hash)]
pub enum ChannelType {
    Can,
    Ethernet,
}

impl Default for ChannelType {
    fn default() -> (r: Self)
        ensures
            r == ChannelType::Can,
    {
        ChannelType::Can
    }
}

/// One logger channel: its number, bus kind, and optional bound database.
pub struct ChannelInfo {
    pub number: u8,
    pub tipo: ChannelType,
    pub database: Option<SignalDatabase>,
}

impl Default for ChannelInfo {
    fn default() -> (r: Self)
        ensures
            r.number == 0,
            r.tipo == ChannelType::Can,
            r.database is None,
    {
        ChannelInfo { number: 0, tipo: ChannelType::Can, database: None }
    }
}

impl ChannelInfo {
    /// Resets the channel to an unbound default.
    pub fn clear(&mut self)
        ensures
            final(self).number == 0,
            final(self).tipo == ChannelType::Can,
            final(self).database is None,
    {
        *self = ChannelInfo::default();
    }

    /// The name of the bound database, or empty when none is bound.
    pub fn db_name_to_string(&self) -> (r: String)
        ensures
            r@ == (match self.database {
                Some(db) => db.name@,
                None => Seq::<char>::empty(),
            }),
    {
        if let Some(db) = &self.database {
            db.name.clone()
        } else {
            String::new()
        }
    }
}

/// The decoded trace: every frame plus the derived orderings over it.
pub struct Log {
    /// Channel number to channel binding, set up by the caller.
    pub channel_map: HashMap<u8, ChannelInfo>,
    /// Absolute start time from the `date` header, if one was seen.
    pub absolute_time: AbsoluteTime,
    /// All decoded frames.
    pub frames: FrameArena,
    // all frames, ordered by generic criteria
    pub frame_by_file_order: Vec<FrameKey>,
    pub frame_by_timestamp: Vec<FrameKey>,
    pub frame_by_channel: Vec<FrameKey>,
    pub frame_by_direction: Vec<FrameKey>,
    // all frames, ordered by bus criteria
    pub frame_by_can_msg_name: Vec<FrameKey>,
    pub frame_by_can_msg_id: Vec<FrameKey>,
    pub frame_by_can_dlc: Vec<FrameKey>,
    pub frame_by_can_protocol: Vec<FrameKey>,
    pub frame_by_can_sender_node: Vec<FrameKey>,
    pub frame_by_can_data: Vec<FrameKey>,
    pub frame_by_can_comment: Vec<FrameKey>,
    // latest frame per (identifier, channel), ordered by generic criteria
    pub id_chn_by_timestamp: Vec<FrameKey>,
    pub id_chn_by_channel: Vec<FrameKey>,
    pub id_chn_by_direction: Vec<FrameKey>,
    // latest frame per (identifier, channel), ordered by bus criteria
    pub id_chn_by_can_msg_name: Vec<FrameKey>,
    pub id_chn_by_can_msg_id: Vec<FrameKey>,
    pub id_chn_by_can_dlc: Vec<FrameKey>,
    pub id_chn_by_can_protocol: Vec<FrameKey>,
    pub id_chn_by_can_sender_node: Vec<FrameKey>,
    pub id_chn_by_can_data: Vec<FrameKey>,
    pub id_chn_by_can_comment: Vec<FrameKey>,
}

/// All derived key vectors of the store are empty.
pub open spec fn indexes_empty(log: Log) -> bool {
    &&& log.frame_by_file_order@.len() == 0
    &&& log.frame_by_timestamp@.len() == 0
    &&& log.frame_by_channel@.len() == 0
    &&& log.frame_by_direction@.len() == 0
    &&& log.frame_by_can_msg_name@.len() == 0
    &&& log.frame_by_can_msg_id@.len() == 0
    &&& log.frame_by_can_dlc@.len() == 0
    &&& log.frame_by_can_protocol@.len() == 0
    &&& log.frame_by_can_sender_node@.len() == 0
    &&& log.frame_by_can_data@.len() == 0
    &&& log.frame_by_can_comment@.len() == 0
    &&& log.id_chn_by_timestamp@.len() == 0
    &&& log.id_chn_by_channel@.len() == 0
    &&& log.id_chn_by_direction@.len() == 0
    &&& log.id_chn_by_can_msg_name@.len() == 0
    &&& log.id_chn_by_can_msg_id@.len() == 0
    &&& log.id_chn_by_can_dlc@.len() == 0
    &&& log.id_chn_by_can_protocol@.len() == 0
    &&& log.id_chn_by_can_sender_node@.len() == 0
    &&& log.id_chn_by_can_data@.len() == 0
    &&& log.id_chn_by_can_comment@.len() == 0
}

impl Default for Log {
    fn default() -> (r: Self)
        ensures
            r.channel_map@ == Map::<u8, ChannelInfo>::empty(),
            r.absolute_time.text@ == Seq::<char>::empty(),
            r.absolute_time.value is None,
            r.frames@.len() == 0,
            indexes_empty(r),
    {
        Log {
            channel_map: HashMap::new(),
            absolute_time: AbsoluteTime::default(),
            frames: FrameArena::new(),
            frame_by_file_order: Vec::new(),
            frame_by_timestamp: Vec::new(),
            frame_by_channel: Vec::new(),
            frame_by_direction: Vec::new(),
            frame_by_can_msg_name: Vec::new(),
            frame_by_can_msg_id: Vec::new(),
            frame_by_can_dlc: Vec::new(),
            frame_by_can_protocol: Vec::new(),
            frame_by_can_sender_node: Vec::new(),
            frame_by_can_data: Vec::new(),
            frame_by_can_comment: Vec::new(),
            id_chn_by_timestamp: Vec::new(),
            id_chn_by_channel: Vec::new(),
            id_chn_by_direction: Vec::new(),
            id_chn_by_can_msg_name: Vec::new(),
            id_chn_by_can_msg_id: Vec::new(),
            id_chn_by_can_dlc: Vec::new(),
            id_chn_by_can_protocol: Vec::new(),
            id_chn_by_can_sender_node: Vec::new(),
            id_chn_by_can_data: Vec::new(),
            id_chn_by_can_comment: Vec::new(),
        }
    }
}

impl Log {
    /// Resets every field to its default, channel bindings included.
    pub fn clear(&mut self)
        ensures
            final(self).channel_map@ == Map::<u8, ChannelInfo>::empty(),
            final(self).absolute_time.text@ == Seq::<char>::empty(),
            final(self).absolute_time.value is None,
            final(self).frames@.len() == 0,
            indexes_empty(*final(self)),
    {
        *self = Log::default();
    }

    /// Drops every frame and every derived ordering, but keeps the channel
    /// bindings and the absolute start time.
    pub fn clear_frames(&mut self)
        ensures
            final(self).channel_map == old(self).channel_map,
            final(self).absolute_time == old(self).absolute_time,
            final(self).frames@.len() == 0,
            indexes_empty(*final(self)),
    {
        self.frames.clear();
        self.frame_by_file_order = Vec::new();
        self.frame_by_timestamp = Vec::new();
        self.frame_by_channel = Vec::new();
        self.frame_by_direction = Vec::new();
        self.frame_by_can_msg_name = Vec::new();
        self.frame_by_can_msg_id = Vec::new();
        self.frame_by_can_dlc = Vec::new();
        self.frame_by_can_protocol = Vec::new();
        self.frame_by_can_sender_node = Vec::new();
        self.frame_by_can_data = Vec::new();
        self.frame_by_can_comment = Vec::new();
        self.id_chn_by_timestamp = Vec::new();
        self.id_chn_by_channel = Vec::new();
        self.id_chn_by_direction = Vec::new();
        self.id_chn_by_can_msg_name = Vec::new();
        self.id_chn_by_can_msg_id = Vec::new();
        self.id_chn_by_can_dlc = Vec::new();
        self.id_chn_by_can_protocol = Vec::new();
        self.id_chn_by_can_sender_node = Vec::new();
        self.id_chn_by_can_data = Vec::new();
        self.id_chn_by_can_comment = Vec::new();
    }

    /// Whether any frames are present.
    pub fn is_empty(&self) -> (r: bool)
        ensures
            r == (self.frames@.len() == 0),
    {
        self.frames.is_empty()
    }

    /// The database bound to a channel, if the channel exists and has one.
    pub fn get_database_by_channel(&self, ch: u8) -> (r: Option<&SignalDatabase>)
        ensures
            r matches Some(db) ==> self.channel_map@.contains_key(ch)
                && self.channel_map@[ch].database == Some(*db),
            r is None ==> !self.channel_map@.contains_key(ch) || self.channel_map@[ch].database
                is None,
    {
        if let Some(ch_info) = self.channel_map.get(&ch) {
            ch_info.database.as_ref()
        } else {
            None
        }
    }

    /// Mutable access to the database bound to a channel, if any.
    pub fn get_mut_database_by_channel(&mut self, ch: u8) -> (r: Option<&mut SignalDatabase>)
        ensures
            r.is_some() ==> {
                &&& old(self).channel_map@.contains_key(ch)
                &&& old(self).channel_map@[ch].database == Some(*r.unwrap())
                &&& final(self).channel_map@ == old(self).channel_map@.insert(
                    ch,
                    ChannelInfo {
                        number: old(self).channel_map@[ch].number,
                        tipo: old(self).channel_map@[ch].tipo,
                        database: Some(*final(r.unwrap())),
                    },
                )
                &&& final(self).absolute_time == old(self).absolute_time
                &&& final(self).frames == old(self).frames
                &&& unchanged_indexes(*old(self), *final(self))
            },
            r.is_none() ==> {
                &&& final(self).channel_map@ == old(self).channel_map@
                &&& final(self).absolute_time == old(self).absolute_time
                &&& final(self).frames == old(self).frames
                &&& unchanged_indexes(*old(self), *final(self))
                &&& (!old(self).channel_map@.contains_key(ch) || old(self).channel_map@[ch].database
                    is None)
            },
    {
        let has: bool = match self.channel_map.get(&ch) {
            Some(info) => info.database.is_some(),
            None => false,
        };
        if has {
            match hashmap_get_mut(&mut self.channel_map, ch) {
                Some(ch_info) => ch_info.database.as_mut(),
                None => {
                    proof {
                        assert(false);
                    }
                    None
                },
            }
        } else {
            None
        }
    }

    /// The frame behind a key, if the key is live.
    pub fn get_frame_by_key(&self, frame_key: &FrameKey) -> (r: Option<&Frame>)
        ensures
            frame_key.idx < self.frames@.len() ==> r == Some(&self.frames@[frame_key.idx as int]),
            frame_key.idx >= self.frames@.len() ==> r is None,
    {
        self.frames.get(frame_key)
    }
}

/// Every derived key vector of `b` equals its counterpart in `a`.
pub open spec fn unchanged_indexes(a: Log, b: Log) -> bool {
    &&& b.frame_by_file_order == a.frame_by_file_order
    &&& unchanged_sorted_indexes(a, b)
}

/// Every sorted key vector of `b` (all but the file-order one) equals its
/// counterpart in `a`.
pub open spec fn unchanged_sorted_indexes(a: Log, b: Log) -> bool {
    &&& b.frame_by_timestamp == a.frame_by_timestamp
    &&& b.frame_by_channel == a.frame_by_channel
    &&& b.frame_by_direction == a.frame_by_direction
    &&& b.frame_by_can_msg_name == a.frame_by_can_msg_name
    &&& b.frame_by_can_msg_id == a.frame_by_can_msg_id
    &&& b.frame_by_can_dlc == a.frame_by_can_dlc
    &&& b.frame_by_can_protocol == a.frame_by_can_protocol
    &&& b.frame_by_can_sender_node == a.frame_by_can_sender_node
    &&& b.frame_by_can_data == a.frame_by_can_data
    &&& b.frame_by_can_comment == a.frame_by_can_comment
    &&& b.id_chn_by_timestamp == a.id_chn_by_timestamp
    &&& b.id_chn_by_channel == a.id_chn_by_channel
    &&& b.id_chn_by_direction == a.id_chn_by_direction
    &&& b.id_chn_by_can_msg_name == a.id_chn_by_can_msg_name
    &&& b.id_chn_by_can_msg_id == a.id_chn_by_can_msg_id
    &&& b.id_chn_by_can_dlc == a.id_chn_by_can_dlc
    &&& b.id_chn_by_can_protocol == a.id_chn_by_can_protocol
    &&& b.id_chn_by_can_sender_node == a.id_chn_by_can_sender_node
    &&& b.id_chn_by_can_data == a.id_chn_by_can_data
    &&& b.id_chn_by_can_comment == a.id_chn_by_can_comment
}

/// Relies on std's `HashMap::get_mut`: a mutable borrow of the value stored
/// under `k`, if one is there; what the borrow is left as is what the map
/// then holds under `k`, and nothing else changes.
#[verifier::external_body]
pub(crate) fn hashmap_get_mut<'a>(m: &'a mut HashMap<u8, ChannelInfo>, k: u8) -> (r: Option<
    &'a mut ChannelInfo,
>)
    ensures
        r.is_some() ==> old(m)@.contains_key(k) && *r.unwrap() == old(m)@[k] && final(m)@ == old(
            m,
        )@.insert(k, *final(r.unwrap())),
        r.is_none() ==> !old(m)@.contains_key(k) && final(m)@ == old(m)@,
{
    m.get_mut(&k)
}

} // verus!
