use crate::arena::FrameKey;
use crate::frame::{Direction, Frame, FrameType};
use crate::log::{ChannelInfo, Log};
use std::collections::HashMap;
use vstd::prelude::*;
use vstd::relations::{sorted_by, total_ordering};

verus! {

broadcast use vstd::std_specs::hash::group_hash_axioms;

// The index builder: after a full ingest pass it derives, for the set of all
// frames and for the latest-frame-per-(identifier, channel) set, one fully
// sorted key vector per criterion. Ties always fall back to file order, and
// file order is the arena position, so every ordering is total and
// reproducible.

/// One sort criterion of the store.
#[derive(Clone, Copy, Debug, PartialEq, Eq, Structural)]
pub enum Criterion {
    ByTimestamp,
    ByChannel,
    ByDirection,
    ByMsgName,
    ByMsgId,
    ByDlc,
    ByProtocol,
    BySenderNode,
    ByData,
    ByComment,
}

/// The composite rank a frame key sorts by: a missing-lookup bucket, a text
/// key, two numeric keys, and the file-order position as final tie-break.
/// Components a criterion does not use stay constant.
pub struct KeyRank {
    pub bucket: int,
    pub text: Seq<u32>,
    pub n1: int,
    pub n2: int,
    pub pos: int,
}

/// The code points of a text, the form texts are ranked in.
pub open spec fn code_points(s: Seq<char>) -> Seq<u32> {
    s.map_values(|c: char| c as u32)
}

/// Rx sorts before Tx.
pub open spec fn direction_rank(d: Direction) -> int {
    match d {
        Direction::Rx => 0,
        Direction::Tx => 1,
    }
}

/// Frames with a classic-length payload sort before longer ones.
pub open spec fn protocol_rank(byte_length: u16) -> int {
    if byte_length <= 8 {
        0
    } else {
        1
    }
}

/// The resolved message of a frame, if its channel has a database binding
/// that covers the frame's message reference.
pub open spec fn frame_msg_lookup(
    cmap: Map<u8, ChannelInfo>,
    f: Frame,
) -> Option<crate::database::MessageDef> {
    if cmap.contains_key(f.channel) && cmap[f.channel].database is Some {
        let db = cmap[f.channel].database->Some_0;
        match f.message_ref {
            Some(mk) => if mk < db.messages.len() {
                Some(db.messages@[mk as int])
            } else {
                None
            },
            None => None,
        }
    } else {
        None
    }
}

/// The resolved sender node name of a frame, if any.
pub open spec fn frame_node_lookup(cmap: Map<u8, ChannelInfo>, f: Frame) -> Option<Seq<char>> {
    if cmap.contains_key(f.channel) && cmap[f.channel].database is Some {
        let db = cmap[f.channel].database->Some_0;
        match f.sender_node_ref {
            Some(nk) => if nk < db.nodes.len() {
                Some(db.nodes@[nk as int].name@)
            } else {
                None
            },
            None => None,
        }
    } else {
        None
    }
}

/// The rank of key `k` under a criterion, over a frame arena and channel
/// map. Dead keys sort after everything; unresolved lookups sort after all
/// resolved entries.
pub open spec fn crit_key(
    frames: Seq<Frame>,
    cmap: Map<u8, ChannelInfo>,
    crit: Criterion,
    k: FrameKey,
) -> KeyRank {
    if k.idx >= frames.len() {
        KeyRank { bucket: 2, text: Seq::empty(), n1: 0, n2: 0, pos: k.idx as int }
    } else {
        let f = frames[k.idx as int];
        match crit {
            Criterion::ByTimestamp => KeyRank {
                bucket: 0,
                text: Seq::empty(),
                n1: f.timestamp.nanos as int,
                n2: 0,
                pos: k.idx as int,
            },
            Criterion::ByChannel => KeyRank {
                bucket: 0,
                text: Seq::empty(),
                n1: f.channel as int,
                n2: f.timestamp.nanos as int,
                pos: k.idx as int,
            },
            Criterion::ByDirection => KeyRank {
                bucket: 0,
                text: Seq::empty(),
                n1: direction_rank(f.direction),
                n2: f.timestamp.nanos as int,
                pos: k.idx as int,
            },
            Criterion::ByMsgName => match frame_msg_lookup(cmap, f) {
                Some(msg) => KeyRank {
                    bucket: 0,
                    text: code_points(msg.name@),
                    n1: 0,
                    n2: 0,
                    pos: k.idx as int,
                },
                None => KeyRank { bucket: 1, text: Seq::empty(), n1: 0, n2: 0, pos: k.idx as int },
            },
            Criterion::ByMsgId => KeyRank {
                bucket: 0,
                text: Seq::empty(),
                n1: f.id as int,
                n2: 0,
                pos: k.idx as int,
            },
            Criterion::ByDlc => KeyRank {
                bucket: 0,
                text: Seq::empty(),
                n1: f.byte_length as int,
                n2: 0,
                pos: k.idx as int,
            },
            Criterion::ByProtocol => KeyRank {
                bucket: 0,
                text: Seq::empty(),
                n1: protocol_rank(f.byte_length),
                n2: f.byte_length as int,
                pos: k.idx as int,
            },
            Criterion::BySenderNode => match frame_node_lookup(cmap, f) {
                Some(nm) => KeyRank {
                    bucket: 0,
                    text: code_points(nm),
                    n1: 0,
                    n2: 0,
                    pos: k.idx as int,
                },
                None => KeyRank { bucket: 1, text: Seq::empty(), n1: 0, n2: 0, pos: k.idx as int },
            },
            Criterion::ByData => KeyRank {
                bucket: 0,
                text: code_points(f.data@),
                n1: 0,
                n2: 0,
                pos: k.idx as int,
            },
            Criterion::ByComment => match frame_msg_lookup(cmap, f) {
                Some(msg) => KeyRank {
                    bucket: 0,
                    text: code_points(msg.comment@),
                    n1: 0,
                    n2: 0,
                    pos: k.idx as int,
                },
                None => KeyRank { bucket: 1, text: Seq::empty(), n1: 0, n2: 0, pos: k.idx as int },
            },
        }
    }
}

/// Strict lexicographic order on code-point sequences.
pub open spec fn lex_lt(a: Seq<u32>, b: Seq<u32>) -> bool
    decreases a.len(),
{
    if b.len() == 0 {
        false
    } else if a.len() == 0 {
        true
    } else if a[0] != b[0] {
        a[0] < b[0]
    } else {
        lex_lt(a.skip(1), b.skip(1))
    }
}

/// At most one of `lex_lt(a, b)` and `lex_lt(b, a)` holds, and when neither
/// does the sequences are equal.
pub proof fn lemma_lex_trichotomy(a: Seq<u32>, b: Seq<u32>)
    ensures
        !(lex_lt(a, b) && lex_lt(b, a)),
        !lex_lt(a, b) && !lex_lt(b, a) ==> a == b,
    decreases a.len(),
{
    if a.len() == 0 || b.len() == 0 {
        if a.len() == 0 && b.len() == 0 && !lex_lt(a, b) && !lex_lt(b, a) {
            assert(a =~= b);
        }
    } else if a[0] != b[0] {
    } else {
        lemma_lex_trichotomy(a.skip(1), b.skip(1));
        if !lex_lt(a, b) && !lex_lt(b, a) {
            assert(a.skip(1) == b.skip(1));
            assert(a =~= b) by {
                assert(forall|i: int|
                    1 <= i < a.len() ==> a[i] == a.skip(1)[i - 1] && b[i] == b.skip(1)[i - 1]);
            }
        }
    }
}

pub proof fn lemma_lex_transitive(a: Seq<u32>, b: Seq<u32>, c: Seq<u32>)
    requires
        lex_lt(a, b),
        lex_lt(b, c),
    ensures
        lex_lt(a, c),
    decreases a.len(),
{
    if c.len() == 0 {
    } else if b.len() == 0 {
    } else if a.len() == 0 {
    } else {
        if a[0] == b[0] && b[0] == c[0] {
            lemma_lex_transitive(a.skip(1), b.skip(1), c.skip(1));
        }
    }
}

/// The rank order: bucket, then text, then the numeric keys, then position.
pub open spec fn rank_le(a: KeyRank, b: KeyRank) -> bool {
    if a.bucket != b.bucket {
        a.bucket < b.bucket
    } else if a.text != b.text {
        lex_lt(a.text, b.text)
    } else if a.n1 != b.n1 {
        a.n1 < b.n1
    } else if a.n2 != b.n2 {
        a.n2 < b.n2
    } else {
        a.pos <= b.pos
    }
}

/// The key order a criterion induces over one store state.
pub open spec fn key_le(
    frames: Seq<Frame>,
    cmap: Map<u8, ChannelInfo>,
    crit: Criterion,
) -> spec_fn(FrameKey, FrameKey) -> bool {
    |x: FrameKey, y: FrameKey|
        rank_le(crit_key(frames, cmap, crit, x), crit_key(frames, cmap, crit, y))
}

/// Every criterion induces a total order on frame keys (ties cannot happen:
/// the rank ends in the arena position).
pub proof fn lemma_key_le_total(frames: Seq<Frame>, cmap: Map<u8, ChannelInfo>, crit: Criterion)
    ensures
        total_ordering(key_le(frames, cmap, crit)),
{
    let leq = key_le(frames, cmap, crit);
    assert forall|x: FrameKey, y: FrameKey| #[trigger] leq(x, y) && leq(y, x) implies x == y by {
        let ka = crit_key(frames, cmap, crit, x);
        let kb = crit_key(frames, cmap, crit, y);
        lemma_lex_trichotomy(ka.text, kb.text);
        assert(ka.pos == kb.pos);
        assert(x.idx == y.idx);
    }
    assert forall|x: FrameKey, y: FrameKey| #[trigger] leq(x, y) || #[trigger] leq(y, x) by {
        let ka = crit_key(frames, cmap, crit, x);
        let kb = crit_key(frames, cmap, crit, y);
        lemma_lex_trichotomy(ka.text, kb.text);
    }
    assert forall|x: FrameKey, y: FrameKey, z: FrameKey|
        #[trigger] leq(x, y) && #[trigger] leq(y, z) implies leq(x, z) by {
        let ka = crit_key(frames, cmap, crit, x);
        let kb = crit_key(frames, cmap, crit, y);
        let kc = crit_key(frames, cmap, crit, z);
        lemma_lex_trichotomy(ka.text, kb.text);
        lemma_lex_trichotomy(kb.text, kc.text);
        lemma_lex_trichotomy(ka.text, kc.text);
        if ka.bucket == kb.bucket && kb.bucket == kc.bucket {
            if ka.text != kb.text && kb.text != kc.text {
                lemma_lex_transitive(ka.text, kb.text, kc.text);
            }
        }
    }
}

/// Two code-point sequences with equal prefixes compare as their suffixes
/// do.
proof fn lemma_lex_skip(a: Seq<u32>, b: Seq<u32>, i: int)
    requires
        0 <= i <= a.len(),
        i <= b.len(),
        forall|j: int| 0 <= j < i ==> a[j] == b[j],
    ensures
        lex_lt(a, b) == lex_lt(a.skip(i), b.skip(i)),
    decreases i,
{
    if i > 0 {
        assert(a[0] == b[0]);
        if a.len() > 0 && b.len() > 0 {
            assert(forall|j: int|
                0 <= j < i - 1 ==> a.skip(1)[j] == a[j + 1] && b.skip(1)[j] == #[trigger] b[j + 1]);
            lemma_lex_skip(a.skip(1), b.skip(1), i - 1);
            assert(a.skip(1).skip(i - 1) =~= a.skip(i));
            assert(b.skip(1).skip(i - 1) =~= b.skip(i));
        }
    } else {
        assert(a.skip(0) =~= a);
        assert(b.skip(0) =~= b);
    }
}

/// Three-way comparison of two strings by code points: `0` for fewer, `1`
/// for equal, `2` for greater.
fn str_cp_cmp(x: &str, y: &str) -> (r: u8)
    ensures
        r == 0 ==> lex_lt(code_points(x@), code_points(y@)),
        r == 2 ==> lex_lt(code_points(y@), code_points(x@)),
        r == 1 ==> code_points(x@) == code_points(y@),
        r <= 2,
{
    let xl: usize = x.unicode_len();
    let yl: usize = y.unicode_len();
    let ghost cx = code_points(x@);
    let ghost cy = code_points(y@);
    let mut i: usize = 0;
    loop
        invariant
            i <= xl,
            i <= yl,
            xl == x@.len(),
            yl == y@.len(),
            cx == code_points(x@),
            cy == code_points(y@),
            forall|j: int| 0 <= j < i ==> cx[j] == cy[j],
        decreases xl - i,
    {
        if i == xl && i == yl {
            proof {
                assert(cx =~= cy);
            }
            return 1;
        }
        if i == xl {
            proof {
                lemma_lex_skip(cx, cy, i as int);
                assert(cx.skip(i as int).len() == 0);
                assert(cy.skip(i as int).len() > 0);
            }
            return 0;
        }
        if i == yl {
            proof {
                lemma_lex_skip(cy, cx, i as int);
                assert(cy.skip(i as int).len() == 0);
                assert(cx.skip(i as int).len() > 0);
            }
            return 2;
        }
        let ca: u32 = x.get_char(i) as u32;
        let cb: u32 = y.get_char(i) as u32;
        if ca < cb {
            proof {
                lemma_lex_skip(cx, cy, i as int);
                assert(cx.skip(i as int)[0] == cx[i as int] == ca);
                assert(cy.skip(i as int)[0] == cy[i as int] == cb);
            }
            return 0;
        }
        if ca > cb {
            proof {
                lemma_lex_skip(cy, cx, i as int);
                assert(cx.skip(i as int)[0] == cx[i as int] == ca);
                assert(cy.skip(i as int)[0] == cy[i as int] == cb);
            }
            return 2;
        }
        proof {
            assert(cx[i as int] == ca && cy[i as int] == cb);
        }
        i = i + 1;
    }
}

/// The executable rank pieces of a key: bucket, text, and the two numeric
/// components.
fn crit_info<'a>(
    frames: &'a crate::arena::FrameArena,
    cmap: &'a HashMap<u8, ChannelInfo>,
    crit: Criterion,
    k: FrameKey,
) -> (r: (u8, Option<&'a String>, u64, u64))
    ensures
        ({
            let kr = crit_key(frames@, cmap@, crit, k);
            &&& r.0 as int == kr.bucket
            &&& kr.text == (match r.1 {
                Some(s) => code_points(s@),
                None => Seq::<u32>::empty(),
            })
            &&& r.2 as int == kr.n1
            &&& r.3 as int == kr.n2
        }),
{
    proof {
        assert(code_points(Seq::<char>::empty()) =~= Seq::<u32>::empty());
    }
    let f = match frames.get(&k) {
        Some(f) => f,
        None => {
            return (2, None, 0, 0);
        },
    };
    match crit {
        Criterion::ByTimestamp => (0, None, f.timestamp.nanos, 0),
        Criterion::ByChannel => (0, None, f.channel as u64, f.timestamp.nanos),
        Criterion::ByDirection => {
            let d: u64 = match f.direction {
                Direction::Rx => 0,
                Direction::Tx => 1,
            };
            (0, None, d, f.timestamp.nanos)
        },
        Criterion::ByMsgId => (0, None, f.id as u64, 0),
        Criterion::ByDlc => (0, None, f.byte_length as u64, 0),
        Criterion::ByProtocol => {
            let pr: u64 = if f.byte_length <= 8 {
                0
            } else {
                1
            };
            (0, None, pr, f.byte_length as u64)
        },
        Criterion::ByData => (0, Some(&f.data), 0, 0),
        Criterion::ByMsgName => {
            match lookup_msg(cmap, f) {
                Some(msg) => (0, Some(&msg.name), 0, 0),
                None => (1, None, 0, 0),
            }
        },
        Criterion::ByComment => {
            match lookup_msg(cmap, f) {
                Some(msg) => (0, Some(&msg.comment), 0, 0),
                None => (1, None, 0, 0),
            }
        },
        Criterion::BySenderNode => {
            match lookup_node(cmap, f) {
                Some(node) => (0, Some(&node.name), 0, 0),
                None => (1, None, 0, 0),
            }
        },
    }
}

/// The message a frame resolves to through the channel map, if any.
fn lookup_msg<'a>(cmap: &'a HashMap<u8, ChannelInfo>, f: &Frame) -> (r: Option<
    &'a crate::database::MessageDef,
>)
    ensures
        ({
            let lk = frame_msg_lookup(cmap@, *f);
            match r {
                Some(m) => lk == Some(*m),
                None => lk is None,
            }
        }),
{
    if let Some(info) = cmap.get(&f.channel) {
        if let Some(db) = &info.database {
            if let Some(mk) = f.message_ref {
                if mk < db.messages.len() {
                    return Some(&db.messages[mk]);
                }
            }
        }
    }
    None
}

/// The sender node a frame resolves to through the channel map, if any.
fn lookup_node<'a>(cmap: &'a HashMap<u8, ChannelInfo>, f: &Frame) -> (r: Option<
    &'a crate::database::NodeDef,
>)
    ensures
        ({
            let lk = frame_node_lookup(cmap@, *f);
            match r {
                Some(n) => lk == Some(n.name@),
                None => lk is None,
            }
        }),
{
    if let Some(info) = cmap.get(&f.channel) {
        if let Some(db) = &info.database {
            if let Some(nk) = f.sender_node_ref {
                if nk < db.nodes.len() {
                    return Some(&db.nodes[nk]);
                }
            }
        }
    }
    None
}

/// Whether `a` ranks at or before `b` under a criterion, exactly the order
/// [`key_le`] denotes.
fn key_le_exec(
    frames: &crate::arena::FrameArena,
    cmap: &HashMap<u8, ChannelInfo>,
    crit: Criterion,
    a: FrameKey,
    b: FrameKey,
) -> (r: bool)
    ensures
        r == key_le(frames@, cmap@, crit)(a, b),
{
    let ia = crit_info(frames, cmap, crit, a);
    let ib = crit_info(frames, cmap, crit, b);
    if ia.0 != ib.0 {
        return ia.0 < ib.0;
    }
    let tcmp: u8 = match (ia.1, ib.1) {
        (Some(x), Some(y)) => str_cp_cmp(x.as_str(), y.as_str()),
        (Some(x), None) => {
            if x.as_str().unicode_len() == 0 {
                proof {
                    assert(code_points(x@) =~= Seq::<u32>::empty());
                }
                1
            } else {
                proof {
                    assert(code_points(x@).len() > 0);
                }
                2
            }
        },
        (None, Some(y)) => {
            if y.as_str().unicode_len() == 0 {
                proof {
                    assert(code_points(y@) =~= Seq::<u32>::empty());
                }
                1
            } else {
                proof {
                    assert(code_points(y@).len() > 0);
                }
                0
            }
        },
        (None, None) => 1,
    };
    if tcmp != 1 {
        proof {
            let ka = crit_key(frames@, cmap@, crit, a);
            let kb = crit_key(frames@, cmap@, crit, b);
            lemma_lex_trichotomy(ka.text, kb.text);
        }
        return tcmp == 0;
    }
    if ia.2 != ib.2 {
        return ia.2 < ib.2;
    }
    if ia.3 != ib.3 {
        return ia.3 < ib.3;
    }
    a.idx <= b.idx
}

/// Sort a key vector by a criterion: afterwards it is exactly the sorted
/// permutation of what it held, under the total order of the criterion.
#[verifier::rlimit(100)]
#[verifier::loop_isolation(false)]
fn sort_keys(
    frames: &crate::arena::FrameArena,
    cmap: &HashMap<u8, ChannelInfo>,
    crit: Criterion,
    v: &mut Vec<FrameKey>,
)
    ensures
        final(v)@ == old(v)@.sort_by(key_le(frames@, cmap@, crit)),
{
    broadcast use vstd::seq_lib::to_multiset_update;
    broadcast use vstd::seq_lib::group_to_multiset_ensures;

    let ghost leq = key_le(frames@, cmap@, crit);
    proof {
        lemma_key_le_total(frames@, cmap@, crit);
    }
    let n: usize = v.len();
    let mut i: usize = 1;
    while i < n
        invariant
            1 <= i,
            n == 0 ==> i == 1,
            n > 0 ==> i <= n,
            v@.len() == n,
            v@.to_multiset() == old(v)@.to_multiset(),
            n > 0 ==> sorted_by(v@.take(i as int), leq),
        decreases n - i,
    {
        let mut j: usize = i;
        proof {
            assert forall|a: int, b: int|
                0 <= a < b <= i && b != j implies #[trigger] leq(v@[a], v@[b]) by {
                assert(v@.take(i as int)[a] == v@[a]);
                assert(v@.take(i as int)[b] == v@[b]);
            }
        }
        while j > 0 && !key_le_exec(frames, cmap, crit, v[j - 1], v[j])
            invariant
                j <= i,
                v@.len() == n,
                v@.to_multiset() == old(v)@.to_multiset(),
                forall|a: int, b: int|
                    0 <= a < b <= i && b != j ==> #[trigger] leq(v@[a], v@[b]),
                forall|a: int| j < a <= i ==> #[trigger] leq(v@[j as int], v@[a]),
            decreases j,
        {
            let ghost before = v@;
            let x = v[j];
            let y = v[j - 1];
            v[j] = y;
            v[j - 1] = x;
            proof {
                assert(v@ =~= before.update(j as int, y).update(j - 1, x));
                assert(v@.to_multiset() =~= before.to_multiset());
                assert(leq(x, y));
                assert forall|a: int| j - 1 < a <= i implies leq(v@[j - 1], #[trigger] v@[a]) by {
                    if a == j {
                    } else {
                        assert(before[a] == v@[a]);
                        assert(leq(before[j as int], before[a]));
                    }
                }
            }
            j = j - 1;
        }
        proof {
            assert(sorted_by(v@.take(i + 1), leq)) by {
                assert forall|a: int, b: int|
                    0 <= a < b <= i implies #[trigger] leq(v@.take(i + 1)[a], v@.take(i + 1)[b]) by {
                    if b == j {
                        if j > 0 {
                            assert(leq(v@[j - 1], v@[j as int]));
                            if a < j - 1 {
                                assert(leq(v@[a], v@[j - 1]));
                            }
                        }
                    }
                }
            }
        }
        i = i + 1;
    }
    proof {
        if n == 0 {
            assert(v@.take(n as int) =~= v@);
            assert(sorted_by(v@, leq));
        } else {
            assert(v@.take(n as int) =~= v@);
        }
        old(v)@.lemma_sort_by_ensures(leq);
        vstd::seq_lib::lemma_sorted_unique(v@, old(v)@.sort_by(leq), leq);
    }
}

/// A copy of a key vector.
fn copy_keys(v: &Vec<FrameKey>) -> (r: Vec<FrameKey>)
    ensures
        r@ == v@,
{
    let mut out: Vec<FrameKey> = Vec::new();
    let mut i: usize = 0;
    while i < v.len()
        invariant
            i <= v@.len(),
            out@ == v@.take(i as int),
        decreases v@.len() - i,
    {
        out.push(v[i]);
        proof {
            assert(v@.take(i + 1) =~= v@.take(i as int).push(v@[i as int]));
        }
        i = i + 1;
    }
    proof {
        assert(v@.take(v@.len() as int) =~= v@);
    }
    out
}

/// Whether a key names a live bus frame.
pub open spec fn is_can_key(frames: Seq<Frame>, k: FrameKey) -> bool {
    k.idx < frames.len() && frames[k.idx as int].ftype == FrameType::Can
}

/// The keys of `base` that name live bus frames, in order.
pub open spec fn can_keys_of(frames: Seq<Frame>, base: Seq<FrameKey>) -> Seq<FrameKey> {
    base.filter(|k: FrameKey| is_can_key(frames, k))
}

/// Keep only the keys of live bus frames.
fn filter_can_keys(frames: &crate::arena::FrameArena, base: &Vec<FrameKey>) -> (r: Vec<FrameKey>)
    ensures
        r@ == can_keys_of(frames@, base@),
{
    proof {
        reveal(Seq::filter);
    }
    let ghost pred = |k: FrameKey| is_can_key(frames@, k);
    let mut out: Vec<FrameKey> = Vec::new();
    let mut i: usize = 0;
    while i < base.len()
        invariant
            i <= base@.len(),
            pred == (|k: FrameKey| is_can_key(frames@, k)),
            out@ == base@.take(i as int).filter(pred),
        decreases base@.len() - i,
    {
        let k = base[i];
        let keep: bool = match frames.get(&k) {
            Some(f) => f.ftype == FrameType::Can,
            None => false,
        };
        proof {
            reveal(Seq::filter);
            assert(base@.take(i + 1).drop_last() =~= base@.take(i as int));
            assert(base@.take(i + 1).last() == base@[i as int]);
        }
        if keep {
            out.push(k);
        }
        i = i + 1;
    }
    proof {
        assert(base@.take(base@.len() as int) =~= base@);
    }
    out
}

/// Whether arena position `i` holds the last bus frame of its
/// (identifier, channel) pair.
pub open spec fn is_latest(frames: Seq<Frame>, i: int) -> bool {
    &&& 0 <= i < frames.len()
    &&& frames[i].ftype == FrameType::Can
    &&& forall|j: int|
        i < j < frames.len() ==> !((#[trigger] frames[j]).ftype == FrameType::Can && frames[j].id
            == frames[i].id && frames[j].channel == frames[i].channel)
}

/// The latest-frame-per-(identifier, channel) keys among the first `n`
/// arena positions, in file order.
pub open spec fn latest_upto(frames: Seq<Frame>, n: int) -> Seq<FrameKey>
    decreases n,
{
    if n <= 0 {
        Seq::empty()
    } else {
        latest_upto(frames, n - 1) + (if is_latest(frames, n - 1) {
            seq![FrameKey { idx: (n - 1) as usize }]
        } else {
            Seq::<FrameKey>::empty()
        })
    }
}

/// The reduced key set: one key per distinct (identifier, channel) pair
/// among bus frames, the last occurrence in file order.
pub open spec fn latest_keys(frames: Seq<Frame>) -> Seq<FrameKey> {
    latest_upto(frames, frames.len() as int)
}

/// Collect the latest-per-(identifier, channel) keys.
#[verifier::loop_isolation(false)]
fn collect_latest(frames: &crate::arena::FrameArena) -> (r: Vec<FrameKey>)
    ensures
        r@ == latest_keys(frames@),
{
    let n: usize = frames.len();
    let mut out: Vec<FrameKey> = Vec::new();
    let mut i: usize = 0;
    while i < n
        invariant
            i <= n,
            out@ == latest_upto(frames@, i as int),
        decreases n - i,
    {
        let k = FrameKey { idx: i };
        let mut keep: bool = match frames.get(&k) {
            Some(f) => f.ftype == FrameType::Can,
            None => false,
        };
        if keep {
            let mut j: usize = i + 1;
            while j < n && keep
                invariant
                    i < j <= n,
                    keep ==> forall|j2: int|
                        i < j2 < j ==> !((#[trigger] frames@[j2]).ftype == FrameType::Can
                            && frames@[j2].id == frames@[i as int].id && frames@[j2].channel
                            == frames@[i as int].channel),
                    !keep ==> !is_latest(frames@, i as int),
                decreases n - j,
            {
                let kj = FrameKey { idx: j };
                match frames.get(&kj) {
                    Some(fj) => {
                        match frames.get(&k) {
                            Some(fi) => {
                                if fj.ftype == FrameType::Can && fj.id == fi.id && fj.channel
                                    == fi.channel {
                                    keep = false;
                                }
                            },
                            None => {},
                        }
                    },
                    None => {},
                }
                j = j + 1;
            }
        }
        if keep {
            out.push(k);
        }
        i = i + 1;
    }
    out
}

/// Derive every ordering of the store in one batch pass: each of the twenty
/// sorted key vectors becomes exactly the sorted permutation of its key set
/// — the file-order keys, their bus-frame subset, or the
/// latest-per-(identifier, channel) set — under its criterion. Nothing else
/// of the store changes.
#[verifier::rlimit(100)]
pub fn build_indexes(log: &mut Log)
    ensures
        final(log).frames == old(log).frames,
        final(log).channel_map == old(log).channel_map,
        final(log).absolute_time == old(log).absolute_time,
        final(log).frame_by_file_order == old(log).frame_by_file_order,
        ({
            let frames = old(log).frames@;
            let cmap = old(log).channel_map@;
            let base = old(log).frame_by_file_order@;
            let cans = can_keys_of(frames, base);
            let latest = latest_keys(frames);
            &&& final(log).frame_by_timestamp@ == base.sort_by(
                key_le(frames, cmap, Criterion::ByTimestamp),
            )
            &&& final(log).frame_by_channel@ == base.sort_by(
                key_le(frames, cmap, Criterion::ByChannel),
            )
            &&& final(log).frame_by_direction@ == base.sort_by(
                key_le(frames, cmap, Criterion::ByDirection),
            )
            &&& final(log).frame_by_can_msg_name@ == cans.sort_by(
                key_le(frames, cmap, Criterion::ByMsgName),
            )
            &&& final(log).frame_by_can_msg_id@ == cans.sort_by(
                key_le(frames, cmap, Criterion::ByMsgId),
            )
            &&& final(log).frame_by_can_dlc@ == cans.sort_by(
                key_le(frames, cmap, Criterion::ByDlc),
            )
            &&& final(log).frame_by_can_protocol@ == cans.sort_by(
                key_le(frames, cmap, Criterion::ByProtocol),
            )
            &&& final(log).frame_by_can_sender_node@ == cans.sort_by(
                key_le(frames, cmap, Criterion::BySenderNode),
            )
            &&& final(log).frame_by_can_data@ == cans.sort_by(
                key_le(frames, cmap, Criterion::ByData),
            )
            &&& final(log).frame_by_can_comment@ == cans.sort_by(
                key_le(frames, cmap, Criterion::ByComment),
            )
            &&& final(log).id_chn_by_timestamp@ == latest.sort_by(
                key_le(frames, cmap, Criterion::ByTimestamp),
            )
            &&& final(log).id_chn_by_channel@ == latest.sort_by(
                key_le(frames, cmap, Criterion::ByChannel),
            )
            &&& final(log).id_chn_by_direction@ == latest.sort_by(
                key_le(frames, cmap, Criterion::ByDirection),
            )
            &&& final(log).id_chn_by_can_msg_name@ == latest.sort_by(
                key_le(frames, cmap, Criterion::ByMsgName),
            )
            &&& final(log).id_chn_by_can_msg_id@ == latest.sort_by(
                key_le(frames, cmap, Criterion::ByMsgId),
            )
            &&& final(log).id_chn_by_can_dlc@ == latest.sort_by(
                key_le(frames, cmap, Criterion::ByDlc),
            )
            &&& final(log).id_chn_by_can_protocol@ == latest.sort_by(
                key_le(frames, cmap, Criterion::ByProtocol),
            )
            &&& final(log).id_chn_by_can_sender_node@ == latest.sort_by(
                key_le(frames, cmap, Criterion::BySenderNode),
            )
            &&& final(log).id_chn_by_can_data@ == latest.sort_by(
                key_le(frames, cmap, Criterion::ByData),
            )
            &&& final(log).id_chn_by_can_comment@ == latest.sort_by(
                key_le(frames, cmap, Criterion::ByComment),
            )
        }),
{
    let cans = filter_can_keys(&log.frames, &log.frame_by_file_order);
    let latest = collect_latest(&log.frames);

    let mut v: Vec<FrameKey> = copy_keys(&log.frame_by_file_order);
    sort_keys(&log.frames, &log.channel_map, Criterion::ByTimestamp, &mut v);
    log.frame_by_timestamp = v;

    let mut v: Vec<FrameKey> = copy_keys(&log.frame_by_file_order);
    sort_keys(&log.frames, &log.channel_map, Criterion::ByChannel, &mut v);
    log.frame_by_channel = v;

    let mut v: Vec<FrameKey> = copy_keys(&log.frame_by_file_order);
    sort_keys(&log.frames, &log.channel_map, Criterion::ByDirection, &mut v);
    log.frame_by_direction = v;

    let mut v: Vec<FrameKey> = copy_keys(&cans);
    sort_keys(&log.frames, &log.channel_map, Criterion::ByMsgName, &mut v);
    log.frame_by_can_msg_name = v;

    let mut v: Vec<FrameKey> = copy_keys(&cans);
    sort_keys(&log.frames, &log.channel_map, Criterion::ByMsgId, &mut v);
    log.frame_by_can_msg_id = v;

    let mut v: Vec<FrameKey> = copy_keys(&cans);
    sort_keys(&log.frames, &log.channel_map, Criterion::ByDlc, &mut v);
    log.frame_by_can_dlc = v;

    let mut v: Vec<FrameKey> = copy_keys(&cans);
    sort_keys(&log.frames, &log.channel_map, Criterion::ByProtocol, &mut v);
    log.frame_by_can_protocol = v;

    let mut v: Vec<FrameKey> = copy_keys(&cans);
    sort_keys(&log.frames, &log.channel_map, Criterion::BySenderNode, &mut v);
    log.frame_by_can_sender_node = v;

    let mut v: Vec<FrameKey> = copy_keys(&cans);
    sort_keys(&log.frames, &log.channel_map, Criterion::ByData, &mut v);
    log.frame_by_can_data = v;

    let mut v: Vec<FrameKey> = copy_keys(&cans);
    sort_keys(&log.frames, &log.channel_map, Criterion::ByComment, &mut v);
    log.frame_by_can_comment = v;

    let mut v: Vec<FrameKey> = copy_keys(&latest);
    sort_keys(&log.frames, &log.channel_map, Criterion::ByTimestamp, &mut v);
    log.id_chn_by_timestamp = v;

    let mut v: Vec<FrameKey> = copy_keys(&latest);
    sort_keys(&log.frames, &log.channel_map, Criterion::ByChannel, &mut v);
    log.id_chn_by_channel = v;

    let mut v: Vec<FrameKey> = copy_keys(&latest);
    sort_keys(&log.frames, &log.channel_map, Criterion::ByDirection, &mut v);
    log.id_chn_by_direction = v;

    let mut v: Vec<FrameKey> = copy_keys(&latest);
    sort_keys(&log.frames, &log.channel_map, Criterion::ByMsgName, &mut v);
    log.id_chn_by_can_msg_name = v;

    let mut v: Vec<FrameKey> = copy_keys(&latest);
    sort_keys(&log.frames, &log.channel_map, Criterion::ByMsgId, &mut v);
    log.id_chn_by_can_msg_id = v;

    let mut v: Vec<FrameKey> = copy_keys(&latest);
    sort_keys(&log.frames, &log.channel_map, Criterion::ByDlc, &mut v);
    log.id_chn_by_can_dlc = v;

    let mut v: Vec<FrameKey> = copy_keys(&latest);
    sort_keys(&log.frames, &log.channel_map, Criterion::ByProtocol, &mut v);
    log.id_chn_by_can_protocol = v;

    let mut v: Vec<FrameKey> = copy_keys(&latest);
    sort_keys(&log.frames, &log.channel_map, Criterion::BySenderNode, &mut v);
    log.id_chn_by_can_sender_node = v;

    let mut v: Vec<FrameKey> = copy_keys(&latest);
    sort_keys(&log.frames, &log.channel_map, Criterion::ByData, &mut v);
    log.id_chn_by_can_data = v;

    let mut v: Vec<FrameKey> = copy_keys(&latest);
    sort_keys(&log.frames, &log.channel_map, Criterion::ByComment, &mut v);
    log.id_chn_by_can_comment = v;
}

// ----- the laws the index builder obeys -----

/// Every derived ordering is a permutation of its key set: sorting keeps
/// exactly the keys, with their multiplicities.
pub proof fn lemma_ordering_permutes(
    frames: Seq<Frame>,
    cmap: Map<u8, ChannelInfo>,
    crit: Criterion,
    keys: Seq<FrameKey>,
)
    ensures
        keys.sort_by(key_le(frames, cmap, crit)).to_multiset() == keys.to_multiset(),
        sorted_by(keys.sort_by(key_le(frames, cmap, crit)), key_le(frames, cmap, crit)),
{
    lemma_key_le_total(frames, cmap, crit);
    keys.lemma_sort_by_ensures(key_le(frames, cmap, crit));
}

/// An ordering is determined by its key set alone: two vectors sorted under
/// the same criterion that hold the same keys are identical, so a reload of
/// identical content reproduces every index vector byte for byte.
pub proof fn lemma_ordering_deterministic(
    frames: Seq<Frame>,
    cmap: Map<u8, ChannelInfo>,
    crit: Criterion,
    s1: Seq<FrameKey>,
    s2: Seq<FrameKey>,
)
    requires
        sorted_by(s1, key_le(frames, cmap, crit)),
        sorted_by(s2, key_le(frames, cmap, crit)),
        s1.to_multiset() == s2.to_multiset(),
    ensures
        s1 == s2,
{
    lemma_key_le_total(frames, cmap, crit);
    vstd::seq_lib::lemma_sorted_unique(s1, s2, key_le(frames, cmap, crit));
    assert(s1 =~= s2);
}

/// The reduced key set holds a key exactly for the positions that carry the
/// last bus frame of their (identifier, channel) pair.
pub proof fn lemma_latest_characterization(frames: Seq<Frame>, n: int)
    requires
        0 <= n <= frames.len(),
        frames.len() <= usize::MAX,
    ensures
        forall|k: FrameKey|
            latest_upto(frames, n).contains(k) <==> (k.idx < n && is_latest(
                frames,
                k.idx as int,
            )),
    decreases n,
{
    if n > 0 {
        lemma_latest_characterization(frames, n - 1);
        assert forall|k: FrameKey|
            latest_upto(frames, n).contains(k) <==> (k.idx < n && is_latest(
                frames,
                k.idx as int,
            )) by {
            let prev = latest_upto(frames, n - 1);
            let cur = latest_upto(frames, n);
            if is_latest(frames, n - 1) {
                assert(cur == prev + seq![FrameKey { idx: (n - 1) as usize }]);
                assert(cur.contains(k) <==> (prev.contains(k) || k == FrameKey {
                    idx: (n - 1) as usize,
                })) by {
                    if cur.contains(k) {
                        let i = choose|i: int| 0 <= i < cur.len() && cur[i] == k;
                        if i < prev.len() {
                            assert(prev[i] == k);
                        }
                    }
                    if prev.contains(k) {
                        let i = choose|i: int| 0 <= i < prev.len() && prev[i] == k;
                        assert(cur[i] == k);
                    }
                    assert(cur[cur.len() - 1] == FrameKey { idx: (n - 1) as usize });
                }
            } else {
                assert(cur =~= prev);
            }
        }
    }
}

/// Two distinct keys of the reduced set never share an
/// (identifier, channel) pair: the set holds one key per pair.
pub proof fn lemma_latest_unique_pairs(frames: Seq<Frame>, a: FrameKey, b: FrameKey)
    requires
        frames.len() <= usize::MAX,
        latest_keys(frames).contains(a),
        latest_keys(frames).contains(b),
        a != b,
    ensures
        !(frames[a.idx as int].id == frames[b.idx as int].id && frames[a.idx as int].channel
            == frames[b.idx as int].channel),
{
    lemma_latest_characterization(frames, frames.len() as int);
    assert(is_latest(frames, a.idx as int));
    assert(is_latest(frames, b.idx as int));
    if frames[a.idx as int].id == frames[b.idx as int].id && frames[a.idx as int].channel
        == frames[b.idx as int].channel {
        if a.idx < b.idx {
            assert(!(frames[b.idx as int].ftype == FrameType::Can && frames[b.idx as int].id
                == frames[a.idx as int].id && frames[b.idx as int].channel
                == frames[a.idx as int].channel));
        } else {
            assert(!(frames[a.idx as int].ftype == FrameType::Can && frames[a.idx as int].id
                == frames[b.idx as int].id && frames[a.idx as int].channel
                == frames[b.idx as int].channel));
        }
    }
}

/// The bus-specific key set holds exactly the keys of live bus frames.
pub proof fn lemma_can_keys_exact(frames: Seq<Frame>, base: Seq<FrameKey>)
    ensures
        forall|k: FrameKey| #[trigger] can_keys_of(frames, base).contains(k) ==> base.contains(k)
            && is_can_key(frames, k),
        forall|i: int|
            0 <= i < base.len() && is_can_key(frames, base[i]) ==> can_keys_of(
                frames,
                base,
            ).contains(#[trigger] base[i]),
{
    broadcast use vstd::seq_lib::group_filter_ensures;

    let pred = |k: FrameKey| is_can_key(frames, k);
    assert forall|k: FrameKey| #[trigger] can_keys_of(frames, base).contains(k) implies
        base.contains(k) && is_can_key(frames, k) by {
        let i = choose|i: int|
            0 <= i < base.filter(pred).len() && base.filter(pred)[i] == k;
        base.lemma_filter_pred(pred, i);
        base.lemma_filter_contains_rev(pred, k);
    }
    assert forall|i: int|
        0 <= i < base.len() && is_can_key(frames, base[i]) implies can_keys_of(
        frames,
        base,
    ).contains(#[trigger] base[i]) by {
        base.lemma_filter_contains(pred, i);
    }
}

} // verus!
