use crate::database::{first_msg_with_id, SignalDatabase};
use crate::frame::{Direction, Frame, FrameType};
use crate::numtext::{hex_bounded, parse_dec_bounded, parse_hex_bounded};
use crate::timestamp::Timestamp;
use crate::tokens::{tokens_of, TokenCursor};
use vstd::prelude::*;

verus! {

broadcast use vstd::std_specs::hash::group_hash_axioms;

// The line decoder and its helpers: decimal text building, the fast
// timestamp formatters, identifier-token handling, and the tokenizer that
// turns one trace line into at most one stored frame.

/// The 11-bit limit of standard frame identifiers.
pub const CAN_STD_MAX_ID: u32 = 0x7FF;

/// The flag bit marking an extended identifier during database lookup.
pub const CAN_EFF_FLAG: u32 = 0x8000_0000;

/// The character of one decimal digit.
pub open spec fn digit_char(d: int) -> char {
    ((48 + d) as u8) as char
}

/// The decimal digits of `v`, most significant first, without padding.
pub open spec fn dec_digits_of(v: int) -> Seq<char>
    decreases v,
{
    if v < 10 {
        seq![digit_char(v)]
    } else {
        dec_digits_of(v / 10).push(digit_char(v % 10))
    }
}

/// `v` modulo 100, zero-padded to two digits.
pub open spec fn pad2(v: int) -> Seq<char> {
    seq![digit_char((v / 10) % 10), digit_char(v % 10)]
}

/// `v` modulo 1000, zero-padded to three digits.
pub open spec fn pad3(v: int) -> Seq<char> {
    seq![digit_char((v / 100) % 10), digit_char((v / 10) % 10), digit_char(v % 10)]
}

/// `v` with at least two digits: zero-padded below 100, full above.
pub open spec fn min2(v: int) -> Seq<char> {
    if v < 100 {
        pad2(v)
    } else {
        dec_digits_of(v)
    }
}

/// Append the decimal digits of `v`.
pub fn push_dec_u32(buf: &mut String, v: u32)
    ensures
        final(buf)@ == old(buf)@ + dec_digits_of(v as int),
    decreases v,
{
    if v < 10 {
        buf.push(((48 + v) as u8) as char);
        proof {
            assert(final(buf)@ =~= old(buf)@ + dec_digits_of(v as int));
        }
    } else {
        push_dec_u32(buf, v / 10);
        buf.push((48 + (v % 10) as u8) as char);
        proof {
            assert(final(buf)@ =~= old(buf)@ + dec_digits_of(v as int));
        }
    }
}

/// Append `v` modulo 100 as exactly two digits.
pub fn push_2(buf: &mut String, v: u32)
    ensures
        final(buf)@ == old(buf)@ + pad2(v as int),
{
    buf.push((48 + ((v / 10) % 10) as u8) as char);
    buf.push((48 + (v % 10) as u8) as char);
    proof {
        assert(final(buf)@ =~= old(buf)@ + pad2(v as int));
    }
}

/// Append `v` modulo 1000 as exactly three digits.
pub fn push_3(buf: &mut String, v: u32)
    ensures
        final(buf)@ == old(buf)@ + pad3(v as int),
{
    buf.push((48 + ((v / 100) % 10) as u8) as char);
    buf.push((48 + ((v / 10) % 10) as u8) as char);
    buf.push((48 + (v % 10) as u8) as char);
    proof {
        assert(final(buf)@ =~= old(buf)@ + pad3(v as int));
    }
}

/// The formatted absolute timestamp `YYYY-MM-DD HH:MM:SS.mmm` of plain
/// civil fields; the year prints without padding, the rest zero-padded.
pub open spec fn fmt_ymdhms_millis(
    y: int,
    mo: int,
    d: int,
    h: int,
    mi: int,
    s: int,
    ms: int,
) -> Seq<char> {
    dec_digits_of(y) + seq!['-'] + pad2(mo) + seq!['-'] + pad2(d) + seq![' '] + pad2(h) + seq![':']
        + pad2(mi) + seq![':'] + pad2(s) + seq!['.'] + pad3(ms)
}

/// Format a civil date-time as `YYYY-MM-DD HH:MM:SS.mmm`.
pub fn format_datetime_ymdhms_millis(
    y: u32,
    mo: u32,
    d: u32,
    h: u32,
    mi: u32,
    s: u32,
    ms: u32,
) -> (r: String)
    ensures
        r@ == fmt_ymdhms_millis(
            y as int,
            mo as int,
            d as int,
            h as int,
            mi as int,
            s as int,
            ms as int,
        ),
{
    let mut out = String::new();
    push_dec_u32(&mut out, y);
    out.push('-');
    push_2(&mut out, mo);
    out.push('-');
    push_2(&mut out, d);
    out.push(' ');
    push_2(&mut out, h);
    out.push(':');
    push_2(&mut out, mi);
    out.push(':');
    push_2(&mut out, s);
    out.push('.');
    push_3(&mut out, ms);
    proof {
        assert(out@ =~= fmt_ymdhms_millis(
            y as int,
            mo as int,
            d as int,
            h as int,
            mi as int,
            s as int,
            ms as int,
        ));
    }
    out
}

/// The fallback absolute-time text of a timestamp when no header was seen:
/// the placeholder date, then the timestamp split into hours, minutes,
/// seconds and milliseconds. Millisecond totals beyond `u32` saturate, as a
/// float-to-integer cast would.
pub open spec fn hms_fallback_text(ts: Timestamp) -> Seq<char> {
    let total = if ts.spec_millis() > u32::MAX {
        u32::MAX as int
    } else {
        ts.spec_millis()
    };
    "2025-01-01 "@ + min2(total / 3_600_000) + seq![':'] + pad2((total % 3_600_000) / 60_000)
        + seq![':'] + pad2((total % 60_000) / 1000) + seq!['.'] + pad3(total % 1000)
}

/// Format a timestamp as duration-only absolute time on the placeholder
/// date, exactly per [`hms_fallback_text`].
pub fn seconds_to_hms_string(ts: &Timestamp) -> (r: String)
    ensures
        r@ == hms_fallback_text(*ts),
{
    let ms: u64 = ts.millis();
    let total: u32 = if ms > 0xFFFF_FFFF {
        0xFFFF_FFFF
    } else {
        ms as u32
    };
    let hours: u32 = total / 3_600_000;
    let minutes: u32 = (total % 3_600_000) / 60_000;
    let secs: u32 = (total % 60_000) / 1000;
    let millis: u32 = total % 1000;
    let mut out = String::from_str("2025-01-01 ");
    if hours < 100 {
        push_2(&mut out, hours);
    } else {
        push_dec_u32(&mut out, hours);
    }
    out.push(':');
    push_2(&mut out, minutes);
    out.push(':');
    push_2(&mut out, secs);
    out.push('.');
    push_3(&mut out, millis);
    proof {
        assert(out@ =~= hms_fallback_text(*ts));
    }
    out
}

/// The identifier token with every trailing extended-id marker removed.
pub open spec fn trim_x(t: Seq<char>) -> Seq<char>
    decreases t.len(),
{
    if t.len() > 0 && (t.last() == 'x' || t.last() == 'X') {
        trim_x(t.drop_last())
    } else {
        t
    }
}

/// The token after trimming, with one leading `0x`/`0X` removed.
pub open spec fn strip_0x(u: Seq<char>) -> Seq<char> {
    if u.len() >= 2 && u[0] == '0' && (u[1] == 'x' || u[1] == 'X') {
        u.skip(2)
    } else {
        u
    }
}

/// The numeric identifier of an identifier token: trailing `x`/`X` markers
/// and a `0x` prefix are dropped, the rest is read as hexadecimal, and on
/// failure or overflow re-read as decimal.
pub open spec fn id_token_value(t: Seq<char>) -> Option<u32> {
    let s = strip_0x(trim_x(t));
    match hex_bounded(s, u32::MAX as int) {
        Some(v) => Some(v as u32),
        None => match crate::numtext::dec_bounded(s, u32::MAX as int) {
            Some(v) => Some(v as u32),
            None => None,
        },
    }
}

proof fn lemma_trim_x_run(t: Seq<char>, e: int)
    requires
        0 <= e <= t.len(),
        forall|j: int| e <= j < t.len() ==> t[j] == 'x' || t[j] == 'X',
        e > 0 ==> !(t[e - 1] == 'x' || t[e - 1] == 'X'),
    ensures
        trim_x(t) == t.take(e),
    decreases t.len(),
{
    if e < t.len() {
        assert(t.last() == 'x' || t.last() == 'X');
        lemma_trim_x_run(t.drop_last(), e);
        assert(t.drop_last().take(e) =~= t.take(e));
    } else {
        if t.len() > 0 {
            assert(!(t.last() == 'x' || t.last() == 'X'));
        }
        assert(t.take(e) =~= t);
    }
}

/// Parse an identifier token, exactly per [`id_token_value`].
pub fn parse_id_u32(id_token: &str) -> (r: Option<u32>)
    ensures
        r == id_token_value(id_token@),
{
    let n: usize = id_token.unicode_len();
    let mut e: usize = n;
    while e > 0 && is_marker_char(id_token.get_char(e - 1))
        invariant
            e <= n,
            n == id_token@.len(),
            forall|j: int| e <= j < n ==> id_token@[j] == 'x' || id_token@[j] == 'X',
        decreases e,
    {
        e = e - 1;
    }
    proof {
        lemma_trim_x_run(id_token@, e as int);
    }
    let start: usize = if e >= 2 && id_token.get_char(0) == '0' && is_marker_char(
        id_token.get_char(1),
    ) {
        2
    } else {
        0
    };
    let s = id_token.substring_char(start, e);
    proof {
        assert(s@ =~= strip_0x(trim_x(id_token@)));
    }
    match parse_hex_bounded(s, 0xFFFF_FFFF) {
        Some(v) => Some(v as u32),
        None => match parse_dec_bounded(s, 0xFFFF_FFFF) {
            Some(v) => Some(v as u32),
            None => None,
        },
    }
}

/// `c` raised to ASCII upper case; other characters unchanged.
pub open spec fn upper_char(c: char) -> char {
    if 'a' <= c && c <= 'z' {
        ((c as u8) - 32) as char
    } else {
        c
    }
}

pub open spec fn upper_seq(s: Seq<char>) -> Seq<char> {
    s.map_values(|c: char| upper_char(c))
}

/// The canonical display form of an identifier token: trailing extended-id
/// markers dropped, ASCII-uppercased, and given a `0x` prefix unless the
/// uppercased text already starts with `0X`.
pub open spec fn canonical_id(t: Seq<char>) -> Seq<char> {
    let u = upper_seq(trim_x(t));
    if u.len() >= 2 && u[0] == '0' && (u[1] == 'X' || u[1] == 'x') {
        u
    } else {
        seq!['0', 'x'] + u
    }
}

fn is_marker_char(c: char) -> (r: bool)
    ensures
        r == (c == 'x' || c == 'X'),
{
    c == 'x' || c == 'X'
}

fn upper_char_exec(c: char) -> (r: char)
    ensures
        r == upper_char(c),
{
    if 'a' <= c && c <= 'z' {
        ((c as u8) - 32) as char
    } else {
        c
    }
}

/// Canonicalize an identifier token for display and keying, exactly per
/// [`canonical_id`].
pub fn canonicalize_id(id_token: &str) -> (r: String)
    ensures
        r@ == canonical_id(id_token@),
{
    let n: usize = id_token.unicode_len();
    let mut e: usize = n;
    while e > 0 && is_marker_char(id_token.get_char(e - 1))
        invariant
            e <= n,
            n == id_token@.len(),
            forall|j: int| e <= j < n ==> id_token@[j] == 'x' || id_token@[j] == 'X',
        decreases e,
    {
        e = e - 1;
    }
    proof {
        lemma_trim_x_run(id_token@, e as int);
    }
    let ghost trimmed = trim_x(id_token@);
    let mut up = String::new();
    let mut i: usize = 0;
    while i < e
        invariant
            i <= e <= n,
            n == id_token@.len(),
            trimmed == id_token@.take(e as int),
            up@ == upper_seq(trimmed.take(i as int)),
        decreases e - i,
    {
        let c = id_token.get_char(i);
        up.push(upper_char_exec(c));
        proof {
            assert(upper_seq(trimmed.take(i + 1)) =~= upper_seq(trimmed.take(i as int)).push(
                upper_char(trimmed[i as int]),
            ));
        }
        i = i + 1;
    }
    proof {
        assert(trimmed.take(e as int) =~= trimmed);
    }
    let has_prefix: bool = if up.as_str().unicode_len() >= 2 {
        let c0 = up.as_str().get_char(0);
        let c1 = up.as_str().get_char(1);
        c0 == '0' && (c1 == 'X' || c1 == 'x')
    } else {
        false
    };
    if has_prefix {
        up
    } else {
        let mut out = String::from_str("0x");
        out.append(up.as_str());
        proof {
            reveal_strlit("0x");
            assert(out@ =~= canonical_id(id_token@));
        }
        out
    }
}

/// The registry key of one decoded signal: channel, canonical identifier
/// and signal name, separated by `|`.
pub open spec fn sig_key_text(channel: u8, id_token: Seq<char>, sig_name: Seq<char>) -> Seq<char> {
    dec_digits_of(channel as int) + seq!['|'] + canonical_id(id_token) + seq!['|'] + sig_name
}

/// Build the registry key of one decoded signal, exactly per
/// [`sig_key_text`].
pub fn build_sig_key(channel: u8, id_token: &str, sig_name: &str) -> (r: String)
    ensures
        r@ == sig_key_text(channel, id_token@, sig_name@),
{
    let mut out = String::new();
    push_dec_u32(&mut out, channel as u32);
    out.push('|');
    let canon = canonicalize_id(id_token);
    out.append(canon.as_str());
    out.push('|');
    out.append(sig_name);
    proof {
        assert(out@ =~= sig_key_text(channel, id_token@, sig_name@));
    }
    out
}

/// The bytes named by the hexadecimal byte tokens among the first `k`
/// tokens; tokens that do not read as a byte are passed over.
pub open spec fn hex_bytes_upto(toks: Seq<Seq<char>>, k: int) -> Seq<u8>
    decreases k,
{
    if k <= 0 {
        Seq::empty()
    } else {
        hex_bytes_upto(toks, k - 1) + (match hex_bounded(toks[k - 1], 255) {
            Some(b) => seq![b as u8],
            None => Seq::<u8>::empty(),
        })
    }
}

/// The payload bytes named by a whitespace-separated hex dump.
pub open spec fn hex_bytes_of(s: Seq<char>) -> Seq<u8> {
    hex_bytes_upto(tokens_of(s), tokens_of(s).len() as int)
}

/// Turn a whitespace-separated hex dump such as `3E 42 03` into its bytes,
/// exactly per [`hex_bytes_of`]; unreadable tokens are passed over.
pub fn parse_hex_bytes(data: &str) -> (r: Vec<u8>)
    ensures
        r@ == hex_bytes_of(data@),
{
    let ghost toks = tokens_of(data@);
    let mut out: Vec<u8> = Vec::new();
    let mut cur = TokenCursor::new(data);
    loop
        invariant
            cur.wf(),
            cur.line_view() == data@,
            cur.consumed() <= toks.len(),
            toks == tokens_of(data@),
            out@ == hex_bytes_upto(toks, cur.consumed() as int),
        ensures
            out@ == hex_bytes_upto(toks, toks.len() as int),
        decreases toks.len() - cur.consumed(),
    {
        let tok = match cur.next() {
            Some(t) => t,
            None => {
                break ;
            },
        };
        match parse_hex_bounded(tok, 255) {
            Some(b) => {
                out.push(b as u8);
                proof {
                    assert(out@ =~= hex_bytes_upto(toks, cur.consumed() as int));
                }
            },
            None => {
                proof {
                    assert(out@ =~= hex_bytes_upto(toks, cur.consumed() as int));
                }
            },
        }
    }
    out
}

/// Where a message key resolves for a numeric identifier: the identifier
/// as-is, or with the extended-frame flag set when it lies beyond the
/// standard range.
pub open spec fn resolve_spec(db: SignalDatabase, id: u32) -> Option<usize> {
    match first_msg_with_id(db.messages@, id) {
        Some(k) => Some(k),
        None => if id > CAN_STD_MAX_ID {
            first_msg_with_id(db.messages@, id | CAN_EFF_FLAG)
        } else {
            None
        },
    }
}

/// Resolve a message key for an identifier, exactly per [`resolve_spec`].
pub fn resolve_msg_key_for_id(db: &SignalDatabase, id: u32) -> (r: Option<usize>)
    ensures
        r == resolve_spec(*db, id),
{
    match db.get_msg_key_by_id(id) {
        Some(k) => Some(k),
        None => {
            if id > CAN_STD_MAX_ID {
                db.get_msg_key_by_id(id | CAN_EFF_FLAG)
            } else {
                None
            }
        },
    }
}

// ----- the line decoder -----

/// The mathematical shape of one stored frame.
pub struct FrameModel {
    pub absolute_time: Seq<char>,
    pub timestamp: Timestamp,
    pub channel: u8,
    pub ftype: FrameType,
    pub direction: Direction,
    pub message_ref: Option<usize>,
    pub id: u32,
    pub id_hex: Seq<char>,
    pub byte_length: u16,
    pub sender_node_ref: Option<usize>,
    pub signal_refs: Seq<usize>,
    pub data: Seq<char>,
}

/// The model of a stored frame value.
pub open spec fn frame_model(f: Frame) -> FrameModel {
    FrameModel {
        absolute_time: f.absolute_time@,
        timestamp: f.timestamp,
        channel: f.channel,
        ftype: f.ftype,
        direction: f.direction,
        message_ref: f.message_ref,
        id: f.id,
        id_hex: f.id_hex@,
        byte_length: f.byte_length,
        sender_node_ref: f.sender_node_ref,
        signal_refs: f.signal_refs@,
        data: f.data@,
    }
}

/// What one line does to the store: nothing, or one stored frame together
/// with its payload bytes.
pub enum LineOutcome {
    Dropped,
    Stored(FrameModel, Seq<u8>),
}

/// The frame stored for a line the decoder recognized but could not fully
/// parse: everything beyond the fields already read stays at its default.
pub open spec fn error_model(
    ts: Timestamp,
    ch: u8,
    dir: Direction,
    id: u32,
    id_hex: Seq<char>,
) -> FrameModel {
    FrameModel {
        absolute_time: Seq::empty(),
        timestamp: ts,
        channel: ch,
        ftype: FrameType::ErrorFrame,
        direction: dir,
        message_ref: None,
        id: id,
        id_hex: id_hex,
        byte_length: 0,
        sender_node_ref: None,
        signal_refs: Seq::empty(),
        data: Seq::empty(),
    }
}

/// Index of the first data-marker token (`d` or `D`) at or after `from`, or
/// `toks.len()` if there is none.
pub open spec fn marker_index(toks: Seq<Seq<char>>, from: int) -> int
    decreases toks.len() - from,
{
    if from < 0 || from >= toks.len() {
        toks.len() as int
    } else if toks[from] == "d"@ || toks[from] == "D"@ {
        from
    } else {
        marker_index(toks, from + 1)
    }
}

proof fn lemma_marker_index_bounds(toks: Seq<Seq<char>>, from: int)
    requires
        0 <= from,
    ensures
        0 <= marker_index(toks, from) <= toks.len(),
        from <= toks.len() ==> from <= marker_index(toks, from),
    decreases toks.len() - from,
{
    if from < toks.len() && !(toks[from] == "d"@ || toks[from] == "D"@) {
        lemma_marker_index_bounds(toks, from + 1);
    }
}

proof fn lemma_marker_index_run(toks: Seq<Seq<char>>, from: int, j: int)
    requires
        0 <= from <= j <= toks.len(),
        forall|i: int| from <= i < j ==> !(toks[i] == "d"@ || toks[i] == "D"@),
        j < toks.len() ==> (toks[j] == "d"@ || toks[j] == "D"@),
    ensures
        marker_index(toks, from) == j,
    decreases j - from,
{
    if from < j {
        lemma_marker_index_run(toks, from + 1, j);
    }
}

/// The payload tokens joined with single spaces: tokens `from .. from+count`.
pub open spec fn joined_payload(toks: Seq<Seq<char>>, from: int, count: int) -> Seq<char>
    decreases count,
{
    if count <= 0 {
        Seq::empty()
    } else if count == 1 {
        toks[from]
    } else {
        joined_payload(toks, from, count - 1) + seq![' '] + toks[from + count - 1]
    }
}

/// Every payload token reads as one hexadecimal byte.
pub open spec fn payload_ok(toks: Seq<Seq<char>>, from: int, count: int) -> bool {
    forall|i: int| 0 <= i < count ==> hex_bounded(#[trigger] toks[from + i], 255) is Some
}

/// The payload bytes named by the payload tokens.
pub open spec fn payload_byte_seq(toks: Seq<Seq<char>>, from: int, count: int) -> Seq<u8> {
    Seq::new(count as nat, |i: int| hex_bounded(toks[from + i], 255)->Some_0 as u8)
}

/// The absolute-time text of a frame: start time plus the timestamp in
/// milliseconds where a header was seen and chrono accepts the sum, the
/// placeholder-date fallback otherwise.
pub open spec fn abs_time_text(abs: crate::abs_time::AbsoluteTime, ts: Timestamp) -> Seq<char> {
    match abs.value {
        Some(cv) => match crate::ext::civil_sum(
            cv.year as int,
            cv.month as int,
            cv.day as int,
            cv.hour as int,
            cv.minute as int,
            cv.second as int,
            cv.milli as int,
            ts.spec_millis(),
        ) {
            Some(t) => fmt_ymdhms_millis(t.0, t.1, t.2, t.3, t.4, t.5, t.6),
            None => hms_fallback_text(ts),
        },
        None => hms_fallback_text(ts),
    }
}

/// The message, first sender node and signal list that the channel's bound
/// database resolves for an identifier; all empty when there is no database
/// or no match.
pub open spec fn resolved_triplet(cmap: Map<u8, crate::log::ChannelInfo>, ch: u8, id: u32) -> (
    Option<usize>,
    Option<usize>,
    Seq<usize>,
) {
    match cmap[ch].database {
        Some(db) => match resolve_spec(db, id) {
            Some(mk) => if mk < db.messages.len() {
                let msg = db.messages@[mk as int];
                (
                    Some(mk),
                    if msg.sender_nodes.len() > 0 {
                        Some(msg.sender_nodes@[0])
                    } else {
                        None
                    },
                    msg.signals@,
                )
            } else {
                (None, None, Seq::empty())
            },
            None => (None, None, Seq::empty()),
        },
        None => (None, None, Seq::empty()),
    }
}

/// What the decoder does with one line against one store state.
pub open spec fn line_outcome(toks: Seq<Seq<char>>, log: crate::log::Log) -> LineOutcome {
    if toks.len() < 1 {
        LineOutcome::Dropped
    } else {
        match crate::timestamp::ts_token_nanos(toks[0]) {
            None => LineOutcome::Dropped,
            Some(nanos) => {
                let ts = Timestamp { nanos };
                if toks.len() < 2 {
                    LineOutcome::Dropped
                } else {
                    match crate::numtext::dec_bounded(toks[1], 255) {
                        None => LineOutcome::Dropped,
                        Some(chv) => {
                            let ch = chv as u8;
                            if !log.channel_map@.contains_key(ch) {
                                LineOutcome::Dropped
                            } else if log.channel_map@[ch].tipo != crate::log::ChannelType::Can {
                                LineOutcome::Dropped
                            } else {
                                can_outcome(toks, log, ts, ch)
                            }
                        },
                    }
                }
            },
        }
    }
}

pub open spec fn can_outcome(
    toks: Seq<Seq<char>>,
    log: crate::log::Log,
    ts: Timestamp,
    ch: u8,
) -> LineOutcome {
    if toks.len() < 3 {
        LineOutcome::Stored(error_model(ts, ch, Direction::Rx, 0, Seq::empty()), Seq::empty())
    } else {
        match id_token_value(toks[2]) {
            None => LineOutcome::Dropped,
            Some(id) => {
                if toks.len() < 4 {
                    LineOutcome::Stored(
                        error_model(ts, ch, Direction::Rx, id, toks[2]),
                        Seq::empty(),
                    )
                } else if toks[3] == "Tx"@ {
                    dir_outcome(toks, log, ts, ch, id, Direction::Tx)
                } else if toks[3] == "Rx"@ {
                    dir_outcome(toks, log, ts, ch, id, Direction::Rx)
                } else {
                    LineOutcome::Stored(
                        error_model(ts, ch, Direction::Rx, id, toks[2]),
                        Seq::empty(),
                    )
                }
            },
        }
    }
}

pub open spec fn dir_outcome(
    toks: Seq<Seq<char>>,
    log: crate::log::Log,
    ts: Timestamp,
    ch: u8,
    id: u32,
    dir: Direction,
) -> LineOutcome {
    let j = marker_index(toks, 4);
    if j + 1 >= toks.len() {
        LineOutcome::Stored(error_model(ts, ch, dir, id, toks[2]), Seq::empty())
    } else {
        match crate::numtext::dec_bounded(toks[j + 1], 65535) {
            None => LineOutcome::Stored(error_model(ts, ch, dir, id, toks[2]), Seq::empty()),
            Some(blv) => payload_outcome(toks, log, ts, ch, id, dir, j + 2, blv as u16),
        }
    }
}

pub open spec fn payload_outcome(
    toks: Seq<Seq<char>>,
    log: crate::log::Log,
    ts: Timestamp,
    ch: u8,
    id: u32,
    dir: Direction,
    p: int,
    bl: u16,
) -> LineOutcome {
    if toks.len() < p + bl || !payload_ok(toks, p, bl as int) {
        LineOutcome::Dropped
    } else {
        let trip = resolved_triplet(log.channel_map@, ch, id);
        LineOutcome::Stored(
            FrameModel {
                absolute_time: abs_time_text(log.absolute_time, ts),
                timestamp: ts,
                channel: ch,
                ftype: FrameType::Can,
                direction: dir,
                message_ref: trip.0,
                id: id,
                id_hex: toks[2],
                byte_length: bl,
                sender_node_ref: trip.1,
                signal_refs: trip.2,
                data: joined_payload(toks, p, bl as int),
            },
            payload_byte_seq(toks, p, bl as int),
        )
    }
}

/// The payload join, decomposed from the front.
proof fn lemma_joined_front(toks: Seq<Seq<char>>, from: int, count: int)
    requires
        count >= 2,
    ensures
        joined_payload(toks, from, count) == toks[from] + seq![' '] + joined_payload(
            toks,
            from + 1,
            count - 1,
        ),
    decreases count,
{
    if count == 2 {
        assert(joined_payload(toks, from, 2) == joined_payload(toks, from, 1) + seq![' ']
            + toks[from + 1]);
        assert(joined_payload(toks, from + 1, 1) == toks[from + 1]);
    } else {
        lemma_joined_front(toks, from, count - 1);
        assert(joined_payload(toks, from + 1, count - 1) == joined_payload(
            toks,
            from + 1,
            count - 2,
        ) + seq![' '] + toks[from + 1 + count - 2]);
        assert(joined_payload(toks, from, count) =~= toks[from] + seq![' '] + joined_payload(
            toks,
            from + 1,
            count - 1,
        ));
    }
}

/// Joining well-formed tokens with single spaces and tokenizing again gives
/// back exactly those tokens.
pub proof fn lemma_joined_payload_tokens(toks: Seq<Seq<char>>, from: int, count: int)
    requires
        0 <= from,
        count >= 0,
        from + count <= toks.len(),
        forall|i: int| from <= i < from + count ==> crate::tokens::ws_free_token(#[trigger] toks[i]),
    ensures
        tokens_of(joined_payload(toks, from, count)) =~= toks.subrange(from, from + count),
    decreases count,
{
    if count == 0 {
        assert(joined_payload(toks, from, 0).len() == 0);
        assert(tokens_of(joined_payload(toks, from, 0)).len() == 0);
    } else if count == 1 {
        crate::tokens::lemma_tokens_of_single(toks[from]);
        assert(tokens_of(joined_payload(toks, from, 1)) =~= toks.subrange(from, from + 1));
    } else {
        lemma_joined_front(toks, from, count);
        crate::tokens::lemma_tokens_of_cons(
            toks[from],
            joined_payload(toks, from + 1, count - 1),
        );
        lemma_joined_payload_tokens(toks, from + 1, count - 1);
        assert(tokens_of(joined_payload(toks, from, count)) =~= seq![toks[from]] + tokens_of(
            joined_payload(toks, from + 1, count - 1),
        ));
        assert(seq![toks[from]] + toks.subrange(from + 1, from + count) =~= toks.subrange(
            from,
            from + count,
        ));
    }
}

/// The payload of every stored bus frame holds exactly as many
/// whitespace-separated tokens as the frame's declared byte length; a line
/// whose payload runs short stores nothing at all.
pub proof fn lemma_payload_token_count(line: Seq<char>, log: crate::log::Log)
    requires
        line_outcome(tokens_of(line), log) is Stored,
        line_outcome(tokens_of(line), log)->Stored_0.ftype == FrameType::Can,
    ensures
        tokens_of(line_outcome(tokens_of(line), log)->Stored_0.data).len() == line_outcome(
            tokens_of(line),
            log,
        )->Stored_0.byte_length,
{
    let toks = tokens_of(line);
    let fm = line_outcome(toks, log)->Stored_0;
    crate::tokens::lemma_tokens_wellformed(line);
    let nanos = crate::timestamp::ts_token_nanos(toks[0])->Some_0;
    let ts = Timestamp { nanos };
    let ch = crate::numtext::dec_bounded(toks[1], 255)->Some_0 as u8;
    let id = id_token_value(toks[2])->Some_0;
    let j = marker_index(toks, 4);
    let bl = crate::numtext::dec_bounded(toks[j + 1], 65535)->Some_0 as u16;
    lemma_marker_index_bounds(toks, 4);
    assert(fm.data == joined_payload(toks, j + 2, bl as int));
    assert(fm.byte_length == bl);
    lemma_joined_payload_tokens(toks, j + 2, bl as int);
    assert(tokens_of(fm.data).len() == toks.subrange(j + 2, j + 2 + bl as int).len());
}

/// How often a signal key occurs in a frame's signal list.
pub open spec fn occurrences(refs: Seq<usize>, k: usize) -> nat {
    refs.filter(|r: usize| r == k).len()
}

/// `n` copies of one decoded point.
pub open spec fn point_run(ts: Timestamp, raw: i64, n: nat) -> Seq<(Timestamp, i64)> {
    Seq::new(n, |i: int| (ts, raw))
}

/// One signal after a decode pass appended `n` points to it (none when its
/// layout is unusable); everything but the series is untouched.
pub open spec fn sig_accumulated(
    oldsig: crate::database::SignalDef,
    newsig: crate::database::SignalDef,
    n: nat,
    ts: Timestamp,
    payload: Seq<u8>,
) -> bool {
    &&& newsig.name == oldsig.name
    &&& newsig.start_bit == oldsig.start_bit
    &&& newsig.bit_length == oldsig.bit_length
    &&& newsig.signed == oldsig.signed
    &&& newsig.raws@ == if oldsig.layout_ok() {
        oldsig.raws@ + point_run(ts, crate::database::sig_raw(oldsig, payload) as i64, n)
    } else {
        oldsig.raws@
    }
}

/// One database after a decode pass accumulated a frame's signals into it.
pub open spec fn db_accumulated(
    olddb: SignalDatabase,
    newdb: SignalDatabase,
    refs: Seq<usize>,
    ts: Timestamp,
    payload: Seq<u8>,
) -> bool {
    &&& newdb.name == olddb.name
    &&& newdb.messages == olddb.messages
    &&& newdb.nodes == olddb.nodes
    &&& newdb.signals@.len() == olddb.signals@.len()
    &&& forall|k: int|
        0 <= k < olddb.signals@.len() ==> sig_accumulated(
            olddb.signals@[k],
            #[trigger] newdb.signals@[k],
            occurrences(refs, k as usize),
            ts,
            payload,
        )
}

/// The channel map after a decode pass accumulated a frame's signals into
/// the channel's database, if the channel has one.
pub open spec fn cmap_accumulated(
    oldm: Map<u8, crate::log::ChannelInfo>,
    newm: Map<u8, crate::log::ChannelInfo>,
    ch: u8,
    refs: Seq<usize>,
    ts: Timestamp,
    payload: Seq<u8>,
) -> bool {
    if oldm.contains_key(ch) && oldm[ch].database is Some {
        &&& newm.dom() == oldm.dom()
        &&& forall|c: u8| oldm.contains_key(c) && c != ch ==> newm[c] == #[trigger] oldm[c]
        &&& newm[ch].number == oldm[ch].number
        &&& newm[ch].tipo == oldm[ch].tipo
        &&& newm[ch].database matches Some(newdb) && db_accumulated(
            oldm[ch].database->Some_0,
            newdb,
            refs,
            ts,
            payload,
        )
    } else {
        newm == oldm
    }
}

proof fn lemma_occ_take_succ(refs: Seq<usize>, si: int)
    requires
        0 <= si < refs.len(),
    ensures
        forall|k: usize|
            #[trigger] occurrences(refs.take(si + 1), k) == occurrences(refs.take(si), k) + (
            if refs[si] == k {
                1int
            } else {
                0int
            }),
{
    assert forall|k: usize|
        #[trigger] occurrences(refs.take(si + 1), k) == occurrences(refs.take(si), k) + (
        if refs[si] == k {
            1int
        } else {
            0int
        }) by {
        reveal(Seq::filter);
        let t1 = refs.take(si + 1);
        assert(t1.drop_last() =~= refs.take(si));
        assert(t1.last() == refs[si]);
    }
}

fn layout_ok_exec(sig: &crate::database::SignalDef) -> (r: bool)
    ensures
        r == sig.layout_ok(),
{
    1 <= sig.bit_length && sig.bit_length <= 64 && (sig.signed || sig.bit_length <= 63)
}

fn copy_refs(v: &Vec<usize>) -> (r: Vec<usize>)
    ensures
        r@ == v@,
{
    let mut out: Vec<usize> = Vec::new();
    let mut i: usize = 0;
    while i < v.len()
        invariant
            i <= v@.len(),
            out@ == v@.take(i as int),
        decreases v@.len() - i,
    {
        out.push(v[i]);
        proof {
            assert(v@.take(i + 1) =~= v@.take(i as int).push(v@[i as int]));
        }
        i = i + 1;
    }
    proof {
        assert(v@.take(v@.len() as int) =~= v@);
    }
    out
}

/// Accumulate one frame's decoded signal points into a database, exactly
/// per [`db_accumulated`].
fn accumulate_into_db(
    db: &mut SignalDatabase,
    refs: &Vec<usize>,
    ts: Timestamp,
    payload: &Vec<u8>,
)
    ensures
        db_accumulated(*old(db), *final(db), refs@, ts, payload@),
{
    let mut si: usize = 0;
    while si < refs.len()
        invariant
            si <= refs@.len(),
            db.name == old(db).name,
            db.messages == old(db).messages,
            db.nodes == old(db).nodes,
            db.signals@.len() == old(db).signals@.len(),
            forall|k: int|
                0 <= k < old(db).signals@.len() ==> sig_accumulated(
                    old(db).signals@[k],
                    #[trigger] db.signals@[k],
                    occurrences(refs@.take(si as int), k as usize),
                    ts,
                    payload@,
                ),
        decreases refs@.len() - si,
    {
        let k = refs[si];
        proof {
            lemma_occ_take_succ(refs@, si as int);
        }
        if k < db.signals.len() {
            if layout_ok_exec(&db.signals[k]) {
                let raw = crate::database::extract_raw(&db.signals[k], payload);
                proof {
                    assert(crate::database::sig_raw(db.signals@[k as int], payload@)
                        == crate::database::sig_raw(old(db).signals@[k as int], payload@));
                }
                let sig = &mut db.signals[k];
                crate::database::push_raw_point(sig, ts, raw);
                proof {
                    let n = occurrences(refs@.take(si as int), k);
                    assert(point_run(ts, raw, (n + 1) as nat) =~= point_run(ts, raw, n).push(
                        (ts, raw),
                    ));
                }
            }
        }
        si = si + 1;
    }
    proof {
        assert(refs@.take(refs@.len() as int) =~= refs@);
    }
}

/// Accumulate one frame's decoded signal points into the database bound to
/// its channel, if the channel has one; nothing else of the store changes.
#[verifier::rlimit(50)]
fn accumulate_channel(
    log: &mut crate::log::Log,
    ch: u8,
    refs: &Vec<usize>,
    ts: Timestamp,
    payload: &Vec<u8>,
)
    requires
        old(log).channel_map@.contains_key(ch),
    ensures
        final(log).frames == old(log).frames,
        final(log).absolute_time == old(log).absolute_time,
        final(log).frame_by_file_order == old(log).frame_by_file_order,
        crate::log::unchanged_sorted_indexes(*old(log), *final(log)),
        cmap_accumulated(
            old(log).channel_map@,
            final(log).channel_map@,
            ch,
            refs@,
            ts,
            payload@,
        ),
{
    match crate::log::hashmap_get_mut(&mut log.channel_map, ch) {
        Some(info) => {
            match info.database.as_mut() {
                Some(db) => {
                    accumulate_into_db(db, refs, ts, payload);
                },
                None => {},
            }
        },
        None => {
            proof {
                assert(false);
            }
        },
    }
    proof {
        let oldm = old(log).channel_map@;
        let newm = log.channel_map@;
        if oldm[ch].database is Some {
            assert(newm.dom() =~= oldm.dom());
        } else {
            assert(newm[ch].database is None);
            assert(newm[ch] == oldm[ch]);
            assert(newm =~= oldm);
        }
    }
}

/// Store one frame and append its key to the file-order index; nothing else
/// of the store changes.
fn store_frame(log: &mut crate::log::Log, frame: Frame)
    ensures
        final(log).frames@ == old(log).frames@.push(frame),
        final(log).frames@.len() == old(log).frames@.len() + 1,
        final(log).frames@.last() == frame,
        final(log).frames@.drop_last() == old(log).frames@,
        final(log).frame_by_file_order@ == old(log).frame_by_file_order@.push(
            crate::arena::FrameKey { idx: old(log).frames@.len() as usize },
        ),
        final(log).channel_map == old(log).channel_map,
        final(log).absolute_time == old(log).absolute_time,
        crate::log::unchanged_sorted_indexes(*old(log), *final(log)),
{
    let k = log.frames.insert(frame);
    log.frame_by_file_order.push(k);
    proof {
        assert(log.frames@.drop_last() =~= old(log).frames@);
    }
}

/// The reusable line decoder: scratch buffers survive across calls so a
/// long trace does not reallocate per line.
pub struct LineParser {
    data_buf: String,
    payload_buf: Vec<u8>,
}

/// The stored-frame obligations shared by every path that pushes a frame.
pub open spec fn stored_post(
    oldlog: crate::log::Log,
    newlog: crate::log::Log,
    fm: FrameModel,
    bytes: Seq<u8>,
) -> bool {
    &&& newlog.frames@.len() == oldlog.frames@.len() + 1
    &&& frame_model(newlog.frames@.last()) == fm
    &&& newlog.frames@.drop_last() == oldlog.frames@
    &&& newlog.frame_by_file_order@ == oldlog.frame_by_file_order@.push(
        crate::arena::FrameKey { idx: oldlog.frames@.len() as usize },
    )
    &&& newlog.absolute_time == oldlog.absolute_time
    &&& crate::log::unchanged_sorted_indexes(oldlog, newlog)
    &&& if fm.ftype == FrameType::Can {
        cmap_accumulated(
            oldlog.channel_map@,
            newlog.channel_map@,
            fm.channel,
            fm.signal_refs,
            fm.timestamp,
            bytes,
        )
    } else {
        newlog.channel_map@ == oldlog.channel_map@
    }
}

/// Finish a fully tokenized bus frame: set its absolute time, resolve it
/// against the channel's database, accumulate its signal points, store it.
#[verifier::rlimit(100)]
fn finish_frame(log: &mut crate::log::Log, frame: Frame, payload: &Vec<u8>) -> (r: Ghost<
    FrameModel,
>)
    requires
        frame.ftype == FrameType::Can,
        frame.absolute_time@ == Seq::<char>::empty(),
        frame.message_ref is None,
        frame.sender_node_ref is None,
        frame.signal_refs@ == Seq::<usize>::empty(),
        old(log).channel_map@.contains_key(frame.channel),
    ensures
        ({
            let trip = resolved_triplet(old(log).channel_map@, frame.channel, frame.id);
            let fm = FrameModel {
                absolute_time: abs_time_text(old(log).absolute_time, frame.timestamp),
                timestamp: frame.timestamp,
                channel: frame.channel,
                ftype: FrameType::Can,
                direction: frame.direction,
                message_ref: trip.0,
                id: frame.id,
                id_hex: frame.id_hex@,
                byte_length: frame.byte_length,
                sender_node_ref: trip.1,
                signal_refs: trip.2,
                data: frame.data@,
            };
            r@ == fm && stored_post(*old(log), *final(log), fm, payload@)
        }),
{
    let mut frame = frame;
    let ts = frame.timestamp;
    let ch8 = frame.channel;
    let idv = frame.id;

    // absolute time: header start plus timestamp, or the fallback
    let at: String = if let Some(cv) = log.absolute_time.value {
        let delta: u64 = ts.millis();
        match crate::ext::add_millis_to_civil(
            cv.year as i32,
            cv.month as u32,
            cv.day as u32,
            cv.hour as u32,
            cv.minute as u32,
            cv.second as u32,
            cv.milli as u32,
            delta,
        ) {
            Some(t) => format_datetime_ymdhms_millis(t.0 as u32, t.1, t.2, t.3, t.4, t.5, t.6),
            None => seconds_to_hms_string(&ts),
        }
    } else {
        seconds_to_hms_string(&ts)
    };
    frame.absolute_time = at;
    proof {
        assert(frame.absolute_time@ == abs_time_text(old(log).absolute_time, ts));
    }

    // resolve against the channel's bound database, if any
    match log.get_database_by_channel(ch8) {
        Some(db) => {
            let nmsg: usize = db.messages.len();
            proof {
                crate::database::lemma_first_msg_with_id_bounds(db.messages@, idv);
                crate::database::lemma_first_msg_with_id_bounds(db.messages@, idv | CAN_EFF_FLAG);
            }
            match resolve_msg_key_for_id(db, idv) {
                Some(mk) => {
                    match db.get_message_by_key(mk) {
                        Some(msg) => {
                            frame.message_ref = Some(mk);
                            if msg.sender_nodes.len() > 0 {
                                frame.sender_node_ref = Some(msg.sender_nodes[0]);
                            }
                            frame.signal_refs = copy_refs(&msg.signals);
                        },
                        None => {
                            proof {
                                assert(false);
                            }
                        },
                    }
                },
                None => {},
            }
        },
        None => {},
    }
    let ghost trip = resolved_triplet(old(log).channel_map@, ch8, idv);
    proof {
        assert(frame.message_ref == trip.0);
        assert(frame.sender_node_ref == trip.1);
        assert(frame.signal_refs@ == trip.2);
    }

    // accumulate the decoded points into the channel's database
    accumulate_channel(log, ch8, &frame.signal_refs, ts, payload);

    let ghost fm = frame_model(frame);
    store_frame(log, frame);
    Ghost(fm)
}

/// Advance the cursor past tokens until a data marker (`d` or `D`) has been
/// consumed, or the line is exhausted.
fn find_marker(cur: &mut TokenCursor) -> (found: bool)
    requires
        old(cur).wf(),
    ensures
        final(cur).wf(),
        final(cur).line_view() == old(cur).line_view(),
        ({
            let toks = tokens_of(old(cur).line_view());
            let from = old(cur).consumed() as int;
            if found {
                &&& marker_index(toks, from) < toks.len()
                &&& final(cur).consumed() == marker_index(toks, from) + 1
            } else {
                &&& marker_index(toks, from) == toks.len()
                &&& final(cur).consumed() == toks.len()
            }
        }),
{
    let ghost toks = tokens_of(cur.line_view());
    let ghost from = cur.consumed() as int;
    proof {
        cur.lemma_wf_bound();
    }
    loop
        invariant_except_break
            forall|i: int|
                from <= i < cur.consumed() ==> !((#[trigger] toks[i]) == "d"@ || toks[i] == "D"@),
        invariant
            cur.wf(),
            cur.line_view() == old(cur).line_view(),
            toks == tokens_of(cur.line_view()),
            0 <= from,
            from == old(cur).consumed(),
            from <= cur.consumed() <= toks.len(),
        ensures
            cur.wf(),
            cur.line_view() == old(cur).line_view(),
            cur.consumed() <= toks.len(),
            cur.consumed() > from,
            marker_index(toks, from) == cur.consumed() - 1,
            marker_index(toks, from) < toks.len(),
        decreases toks.len() - cur.consumed(),
    {
        match cur.next() {
            None => {
                proof {
                    lemma_marker_index_run(toks, from, toks.len() as int);
                }
                return false;
            },
            Some(tok) => {
                if crate::abs_time::str_eq(tok, "d") || crate::abs_time::str_eq(tok, "D") {
                    proof {
                        lemma_marker_index_run(toks, from, cur.consumed() as int - 1);
                    }
                    break ;
                }
            },
        }
    }
    true
}

impl LineParser {
    pub fn new() -> (p: LineParser) {
        LineParser { data_buf: String::new(), payload_buf: Vec::new() }
    }

    /// The tail of a bus line after a valid direction token: locate the data
    /// marker, read the declared length and exactly that many payload byte
    /// tokens, and finish the frame.
    #[verifier::rlimit(100)]
    #[verifier::loop_isolation(false)]
    fn parse_dir_tail(&mut self, cur: &mut TokenCursor, log: &mut crate::log::Log, frame: Frame)
        requires
            old(cur).wf(),
            old(cur).consumed() == 4,
            frame.ftype == FrameType::Can,
            frame.absolute_time@ == Seq::<char>::empty(),
            frame.message_ref is None,
            frame.sender_node_ref is None,
            frame.signal_refs@ == Seq::<usize>::empty(),
            frame.data@ == Seq::<char>::empty(),
            frame.byte_length == 0,
            tokens_of(old(cur).line_view()).len() >= 4,
            frame.id_hex@ == tokens_of(old(cur).line_view())[2],
            old(log).channel_map@.contains_key(frame.channel),
        ensures
            ({
                let toks = tokens_of(old(cur).line_view());
                match dir_outcome(
                    toks,
                    *old(log),
                    frame.timestamp,
                    frame.channel,
                    frame.id,
                    frame.direction,
                ) {
                    LineOutcome::Dropped => *final(log) == *old(log),
                    LineOutcome::Stored(fm, bytes) => stored_post(*old(log), *final(log), fm, bytes),
                }
            }),
    {
        let ghost toks = tokens_of(cur.line_view());
        let mut frame = frame;
        let ghost frame0 = frame;
        let ts = frame.timestamp;
        let ch8 = frame.channel;

        // scan forward to the data marker, then read the declared length
        if !find_marker(cur) {
            frame.ftype = FrameType::ErrorFrame;
            store_frame(log, frame);
            return ;
        }
        let ghost j = marker_index(toks, 4);
        let len_tok = match cur.next() {
            Some(t) => t,
            None => {
                frame.ftype = FrameType::ErrorFrame;
                store_frame(log, frame);
                return ;
            },
        };
        let bl: u16 = match parse_dec_bounded(len_tok, 65535) {
            Some(v) => v as u16,
            None => {
                frame.ftype = FrameType::ErrorFrame;
                store_frame(log, frame);
                return ;
            },
        };
        frame.byte_length = bl;

        // exactly `bl` payload byte tokens, collected as text and as bytes
        self.data_buf.clear();
        self.payload_buf.clear();
        let ghost p = j + 2;
        let mut i: usize = 0;
        while i < bl as usize
            invariant
                cur.wf(),
                cur.line_view() == old(cur).line_view(),
                toks == tokens_of(cur.line_view()),
                i <= bl as usize,
                p == marker_index(toks, 4) + 2,
                cur.consumed() == p + i,
                cur.consumed() <= toks.len(),
                self.data_buf@ == joined_payload(toks, p, i as int),
                forall|q: int| 0 <= q < i ==> hex_bounded(#[trigger] toks[p + q], 255) is Some,
                self.payload_buf@ == payload_byte_seq(toks, p, i as int),
            decreases bl as usize - i,
        {
            let tok = match cur.next() {
                Some(t) => t,
                None => {
                    proof {
                        assert(toks.len() == p + i);
                        assert(toks.len() < p + bl);
                        assert(payload_outcome(toks, *old(log), ts, ch8, frame.id, frame.direction, p, bl)
                            == LineOutcome::Dropped);
                        assert(dir_outcome(toks, *old(log), ts, ch8, frame.id, frame.direction)
                            == LineOutcome::Dropped);
                        assert(*log == *old(log));
                    }
                    return ;
                },
            };
            if i != 0 {
                self.data_buf.push(' ');
            }
            self.data_buf.append(tok);
            proof {
                if i == 0 {
                    assert(self.data_buf@ =~= joined_payload(toks, p, 1));
                } else {
                    assert(self.data_buf@ =~= joined_payload(toks, p, i as int) + seq![' '] + toks[p
                        + i]);
                }
            }
            let b: u8 = match parse_hex_bounded(tok, 255) {
                Some(v) => v as u8,
                None => {
                    proof {
                        assert(tok@ == toks[p + i]);
                        assert(hex_bounded(toks[p + i], 255) is None);
                        assert(!payload_ok(toks, p, bl as int));
                        assert(dir_outcome(toks, *old(log), ts, ch8, frame.id, frame.direction)
                            == LineOutcome::Dropped);
                        assert(*log == *old(log));
                    }
                    return ;
                },
            };
            self.payload_buf.push(b);
            proof {
                assert(self.payload_buf@ =~= payload_byte_seq(toks, p, i + 1));
            }
            i = i + 1;
        }
        core::mem::swap(&mut frame.data, &mut self.data_buf);

        let r = finish_frame(log, frame, &self.payload_buf);
        proof {
            let out = dir_outcome(toks, *old(log), ts, ch8, r@.id, r@.direction);
            assert(out matches LineOutcome::Stored(fm, bytes) && fm == r@ && bytes
                == self.payload_buf@);
        }
    }

    /// The tail of a line on a bus channel: identifier, direction, and the
    /// rest of the frame.
    #[verifier::rlimit(100)]
    fn parse_can_tail(
        &mut self,
        cur: &mut TokenCursor,
        log: &mut crate::log::Log,
        ts: Timestamp,
        ch8: u8,
    )
        requires
            old(cur).wf(),
            old(cur).consumed() == 2,
            tokens_of(old(cur).line_view()).len() >= 2,
            old(log).channel_map@.contains_key(ch8),
        ensures
            ({
                let toks = tokens_of(old(cur).line_view());
                match can_outcome(toks, *old(log), ts, ch8) {
                    LineOutcome::Dropped => *final(log) == *old(log),
                    LineOutcome::Stored(fm, bytes) => stored_post(*old(log), *final(log), fm, bytes),
                }
            }),
    {
        let ghost toks = tokens_of(cur.line_view());
        let mut frame = Frame::default();
        frame.timestamp = ts;
        frame.channel = ch8;

        // identifier
        let id_tok = match cur.next() {
            Some(t) => t,
            None => {
                frame.ftype = FrameType::ErrorFrame;
                store_frame(log, frame);
                return ;
            },
        };
        let idv: u32 = match parse_id_u32(id_tok) {
            Some(v) => v,
            None => {
                return ;
            },
        };
        frame.id = idv;
        frame.id_hex = String::from_str(id_tok);

        // direction
        let dir_tok = match cur.next() {
            Some(t) => t,
            None => {
                frame.ftype = FrameType::ErrorFrame;
                store_frame(log, frame);
                return ;
            },
        };
        if crate::abs_time::str_eq(dir_tok, "Tx") {
            frame.direction = Direction::Tx;
        } else if crate::abs_time::str_eq(dir_tok, "Rx") {
            frame.direction = Direction::Rx;
        } else {
            frame.ftype = FrameType::ErrorFrame;
            store_frame(log, frame);
            return ;
        }

        self.parse_dir_tail(cur, log, frame);
    }

    /// Decode one line into the store, exactly per [`line_outcome`]: a line
    /// that is not a frame is dropped; a recognizably broken bus line is
    /// stored as an `ErrorFrame`; a full bus line is stored decoded, its
    /// signal points accumulated into the channel's bound database.
    #[verifier::rlimit(50)]
    pub fn parse(&mut self, line: &str, log: &mut crate::log::Log)
        ensures
            ({
                let toks = tokens_of(line@);
                match line_outcome(toks, *old(log)) {
                    LineOutcome::Dropped => *final(log) == *old(log),
                    LineOutcome::Stored(fm, bytes) => stored_post(*old(log), *final(log), fm, bytes),
                }
            }),
    {
        let ghost toks = tokens_of(line@);
        let mut cur = TokenCursor::new(line);

        // timestamp
        let ts_tok = match cur.next() {
            Some(t) => t,
            None => {
                return ;
            },
        };
        let ts = match crate::timestamp::parse_timestamp(ts_tok) {
            Some(v) => v,
            None => {
                return ;
            },
        };

        // channel
        let ch_tok = match cur.next() {
            Some(t) => t,
            None => {
                return ;
            },
        };
        let ch8: u8 = match parse_dec_bounded(ch_tok, 255) {
            Some(v) => v as u8,
            None => {
                return ;
            },
        };
        let is_can: bool = match log.channel_map.get(&ch8) {
            Some(info) => info.tipo == crate::log::ChannelType::Can,
            None => {
                return ;
            },
        };
        if !is_can {
            return ;
        }

        self.parse_can_tail(&mut cur, log, ts, ch8);
    }
}

} // verus!
