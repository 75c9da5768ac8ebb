use crate::timestamp::Timestamp;
use vstd::arithmetic::power2::{lemma_pow2_pos, lemma_pow2_unfold, pow2};
use vstd::prelude::*;

verus! {

// The per-channel signal database. The decode core treats it as a
// substitutable capability: numeric identifier to message, message to named
// signals and first sender node, signal to a raw integer cut out of the
// payload bytes, plus a per-signal time series that accumulates while a
// trace is decoded.

/// A node (ECU) that can send messages.
pub struct NodeDef {
    pub name: String,
}

/// One packed bit-field of a message, with its accumulating time series.
///
/// The raw value occupies `bit_length` bits starting at `start_bit`, counted
/// from bit 0 of the first payload byte, least significant bit first; bits
/// that fall outside the payload read as zero. A signed field is interpreted
/// in two's complement over its `bit_length` bits.
pub struct SignalDef {
    pub name: String,
    pub start_bit: u16,
    pub bit_length: u16,
    pub signed: bool,
    /// Accumulated (timestamp, raw value) points, in decode order.
    pub raws: Vec<(Timestamp, i64)>,
}

impl SignalDef {
    /// A layout the extractor can honor: the field is 1..=64 bits wide, and
    /// an unsigned field leaves the sign bit of `i64` free.
    pub open spec fn layout_ok(self) -> bool {
        &&& 1 <= self.bit_length <= 64
        &&& !self.signed ==> self.bit_length <= 63
    }
}

/// One message: its numeric identifier and what the database knows about it.
pub struct MessageDef {
    pub id: u32,
    pub name: String,
    pub comment: String,
    /// Indices into the database's node table; the first entry is the sender
    /// reported for decoded frames.
    pub sender_nodes: Vec<usize>,
    /// Indices into the database's signal table.
    pub signals: Vec<usize>,
}

/// A channel's signal database.
pub struct SignalDatabase {
    pub name: String,
    pub messages: Vec<MessageDef>,
    pub nodes: Vec<NodeDef>,
    pub signals: Vec<SignalDef>,
}

impl SignalDatabase {
    /// Every reference lands in its table and every signal layout is usable.
    pub open spec fn wf(self) -> bool {
        &&& forall|m: int, j: int|
            0 <= m < self.messages.len() && 0 <= j < self.messages[m].sender_nodes.len()
                ==> #[trigger] self.messages[m].sender_nodes[j] < self.nodes.len()
        &&& forall|m: int, j: int|
            0 <= m < self.messages.len() && 0 <= j < self.messages[m].signals.len()
                ==> #[trigger] self.messages[m].signals[j] < self.signals.len()
        &&& forall|k: int| 0 <= k < self.signals.len() ==> (#[trigger] self.signals[k]).layout_ok()
    }

    pub fn new(name: String) -> (db: SignalDatabase)
        ensures
            db.wf(),
            db.name == name,
            db.messages@ =~= Seq::<MessageDef>::empty(),
            db.nodes@ =~= Seq::<NodeDef>::empty(),
            db.signals@ =~= Seq::<SignalDef>::empty(),
    {
        SignalDatabase { name, messages: Vec::new(), nodes: Vec::new(), signals: Vec::new() }
    }

    /// The key (index) of the first message whose identifier is `id`.
    pub fn get_msg_key_by_id(&self, id: u32) -> (r: Option<usize>)
        ensures
            r == first_msg_with_id(self.messages@, id),
    {
        let mut m: usize = 0;
        let n: usize = self.messages.len();
        while m < n
            invariant
                m <= n,
                n == self.messages@.len(),
                forall|j: int| 0 <= j < m ==> (#[trigger] self.messages@[j]).id != id,
            decreases n - m,
        {
            if self.messages[m].id == id {
                proof {
                    lemma_first_msg_with_id(self.messages@, id, m as int);
                }
                return Some(m);
            }
            m = m + 1;
        }
        proof {
            lemma_first_msg_with_id_none(self.messages@, id);
        }
        None
    }

    /// The message behind a key, if the key is in range.
    pub fn get_message_by_key(&self, key: usize) -> (r: Option<&MessageDef>)
        ensures
            key < self.messages@.len() ==> r == Some(&self.messages@[key as int]),
            key >= self.messages@.len() ==> r is None,
    {
        if key < self.messages.len() {
            Some(&self.messages[key])
        } else {
            None
        }
    }

    /// The node behind a key, if the key is in range.
    pub fn get_node_by_key(&self, key: usize) -> (r: Option<&NodeDef>)
        ensures
            key < self.nodes@.len() ==> r == Some(&self.nodes@[key as int]),
            key >= self.nodes@.len() ==> r is None,
    {
        if key < self.nodes.len() {
            Some(&self.nodes[key])
        } else {
            None
        }
    }

    /// The signal behind a key, if the key is in range.
    pub fn get_sig_by_key(&self, key: usize) -> (r: Option<&SignalDef>)
        ensures
            key < self.signals@.len() ==> r == Some(&self.signals@[key as int]),
            key >= self.signals@.len() ==> r is None,
    {
        if key < self.signals.len() {
            Some(&self.signals[key])
        } else {
            None
        }
    }
}

/// Index of the first message in `msgs` carrying identifier `id`.
pub open spec fn first_msg_with_id(msgs: Seq<MessageDef>, id: u32) -> Option<usize>
    decreases msgs.len(),
{
    if msgs.len() == 0 {
        None
    } else if msgs[0].id == id {
        Some(0)
    } else {
        match first_msg_with_id(msgs.skip(1), id) {
            Some(k) => Some((k + 1) as usize),
            None => None,
        }
    }
}

pub proof fn lemma_first_msg_with_id(msgs: Seq<MessageDef>, id: u32, m: int)
    requires
        msgs.len() <= usize::MAX,
        0 <= m < msgs.len(),
        msgs[m].id == id,
        forall|j: int| 0 <= j < m ==> (#[trigger] msgs[j]).id != id,
    ensures
        first_msg_with_id(msgs, id) == Some(m as usize),
    decreases m,
{
    if m == 0 {
    } else {
        lemma_first_msg_with_id(msgs.skip(1), id, m - 1);
        assert(msgs.skip(1)[m - 1] == msgs[m]);
        assert(forall|j: int| 0 <= j < m - 1 ==> msgs.skip(1)[j] == #[trigger] msgs[j + 1]);
    }
}

/// A resolved message key always lands inside the message table, on a
/// message that carries the identifier looked up.
pub proof fn lemma_first_msg_with_id_bounds(msgs: Seq<MessageDef>, id: u32)
    requires
        msgs.len() <= usize::MAX,
    ensures
        first_msg_with_id(msgs, id) matches Some(k) ==> k < msgs.len() && msgs[k as int].id == id,
    decreases msgs.len(),
{
    if msgs.len() > 0 && msgs[0].id != id {
        lemma_first_msg_with_id_bounds(msgs.skip(1), id);
        if first_msg_with_id(msgs.skip(1), id) is Some {
            let k = first_msg_with_id(msgs.skip(1), id)->Some_0;
            assert(msgs.skip(1)[k as int] == msgs[k + 1]);
        }
    }
}

pub proof fn lemma_first_msg_with_id_none(msgs: Seq<MessageDef>, id: u32)
    requires
        msgs.len() <= usize::MAX,
        forall|j: int| 0 <= j < msgs.len() ==> (#[trigger] msgs[j]).id != id,
    ensures
        first_msg_with_id(msgs, id) is None,
    decreases msgs.len(),
{
    if msgs.len() > 0 {
        assert(forall|j: int|
            0 <= j < msgs.len() - 1 ==> msgs.skip(1)[j] == #[trigger] msgs[j + 1]);
        lemma_first_msg_with_id_none(msgs.skip(1), id);
    }
}

/// Whether bit `i` of the payload is set; bits beyond the payload read as 0.
pub open spec fn bit_of(payload: Seq<u8>, i: int) -> bool {
    0 <= i && i / 8 < payload.len() && (payload[i / 8] >> ((i % 8) as u8)) & 1 == 1
}

/// The unsigned value of `len` bits starting at `start`, least significant
/// first.
pub open spec fn raw_bits(payload: Seq<u8>, start: int, len: nat) -> int
    decreases len,
{
    if len == 0 {
        0
    } else {
        (if bit_of(payload, start) {
            1int
        } else {
            0int
        }) + 2 * raw_bits(payload, start + 1, (len - 1) as nat)
    }
}

/// The value of the field as the database defines it: two's complement over
/// `len` bits when signed, plain otherwise.
pub open spec fn field_value(payload: Seq<u8>, start: int, len: nat, signed: bool) -> int {
    let v = raw_bits(payload, start, len);
    if signed && len >= 1 && v >= pow2((len - 1) as nat) {
        v - pow2(len)
    } else {
        v
    }
}

/// What [`SignalDef::layout_ok`] extraction yields for a signal on a payload.
pub open spec fn sig_raw(sig: SignalDef, payload: Seq<u8>) -> int {
    field_value(payload, sig.start_bit as int, sig.bit_length as nat, sig.signed)
}

pub proof fn lemma_raw_bits_bound(payload: Seq<u8>, start: int, len: nat)
    ensures
        0 <= raw_bits(payload, start, len) < pow2(len),
    decreases len,
{
    lemma_pow2_pos(len);
    if len > 0 {
        lemma_raw_bits_bound(payload, start + 1, (len - 1) as nat);
        lemma_pow2_unfold(len);
    }
}

/// Whether bit `i` of the payload is set, executable.
fn bit_of_exec(payload: &Vec<u8>, i: usize) -> (r: bool)
    requires
        i < usize::MAX,
    ensures
        r == bit_of(payload@, i as int),
{
    let byte: usize = i / 8;
    if byte < payload.len() {
        (payload[byte] >> ((i % 8) as u8)) & 1 == 1
    } else {
        false
    }
}

/// Extract the raw integer value of one signal from the payload bytes,
/// exactly per [`sig_raw`].
pub fn extract_raw(sig: &SignalDef, payload: &Vec<u8>) -> (r: i64)
    requires
        sig.layout_ok(),
    ensures
        r as int == sig_raw(*sig, payload@),
{
    let start: usize = sig.start_bit as usize;
    let len: usize = sig.bit_length as usize;
    let mut acc: u64 = 0;
    let mut j: usize = len;
    proof {
        vstd::arithmetic::power2::lemma2_to64();
    }
    while j > 0
        invariant
            j <= len,
            len == sig.bit_length,
            start == sig.start_bit,
            1 <= len <= 64,
            acc < pow2((len - j) as nat),
            acc == raw_bits(payload@, start + j, (len - j) as nat),
        decreases j,
    {
        proof {
            lemma_pow2_unfold((len - j + 1) as nat);
            lemma_pow2_le64((len - j + 1) as nat);
        }
        let b: u64 = if bit_of_exec(payload, start + j - 1) {
            1
        } else {
            0
        };
        acc = 2 * acc + b;
        j = j - 1;
        proof {
            assert(acc == raw_bits(payload@, start + j, (len - j) as nat));
        }
    }
    proof {
        lemma_pow2_values();
        if len <= 63 {
            lemma_pow2_mono_le(len as nat, 63);
        }
        if len >= 1 {
            lemma_pow2_mono_le((len - 1) as nat, 63);
        }
    }
    if sig.signed {
        if len == 64 {
            proof {
                lemma_raw_bits_bound(payload@, start as int, 64);
            }
            if acc >= 0x8000_0000_0000_0000 {
                // two's complement wrap of the top bit
                let mag: u64 = (0xFFFF_FFFF_FFFF_FFFF - acc) + 1;
                proof {
                    assert(mag == pow2(64) - acc);
                    assert(acc - pow2(64) == -(mag as int));
                }
                if mag == 0x8000_0000_0000_0000 {
                    i64::MIN
                } else {
                    -((mag) as i64)
                }
            } else {
                acc as i64
            }
        } else {
            let half: u64 = pow2_u64((len - 1) as u64);
            proof {
                lemma_pow2_unfold(len as nat);
            }
            if acc >= half {
                let mag: u64 = (2 * half) - acc;
                -((mag) as i64)
            } else {
                acc as i64
            }
        }
    } else {
        acc as i64
    }
}

/// Two to the `k`, executable.
pub fn pow2_u64(k: u64) -> (r: u64)
    requires
        k <= 63,
    ensures
        r == pow2(k as nat),
    decreases k,
{
    if k == 0 {
        proof {
            vstd::arithmetic::power2::lemma2_to64();
        }
        1
    } else {
        let p = pow2_u64(k - 1);
        proof {
            lemma_pow2_mono_le(k as nat, 63);
            lemma_pow2_values();
            lemma_pow2_unfold(k as nat);
        }
        2 * p
    }
}

proof fn lemma_pow2_le64(k: nat)
    ensures
        k <= 64 ==> pow2(k) <= 0x1_0000_0000_0000_0000,
{
    if k <= 64 {
        lemma_pow2_mono_le(k, 64);
        lemma_pow2_values();
    }
}

proof fn lemma_pow2_mono_le(a: nat, c: nat)
    requires
        a <= c,
    ensures
        pow2(a) <= pow2(c),
    decreases c,
{
    if a < c {
        lemma_pow2_mono_le(a, (c - 1) as nat);
        lemma_pow2_pos((c - 1) as nat);
        lemma_pow2_unfold(c);
    }
}

proof fn lemma_pow2_values()
    ensures
        pow2(63) == 0x8000_0000_0000_0000,
        pow2(64) == 0x1_0000_0000_0000_0000,
{
    vstd::arithmetic::power2::lemma2_to64();
    vstd::arithmetic::power2::lemma2_to64_rest();
}

/// Append one decoded point to a signal's time series.
pub fn push_raw_point(sig: &mut SignalDef, ts: Timestamp, raw: i64)
    ensures
        final(sig).name == old(sig).name,
        final(sig).start_bit == old(sig).start_bit,
        final(sig).bit_length == old(sig).bit_length,
        final(sig).signed == old(sig).signed,
        final(sig).raws@ == old(sig).raws@.push((ts, raw)),
{
    sig.raws.push((ts, raw));
}

} // verus!
