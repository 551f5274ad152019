//! The relay: a minimal MQTT 3.1.1 codec carried over WebSocket frames, and
//! the rules that pick which relay URLs a community uses.
use vstd::prelude::*;
use vstd::string::StringSliceAdditionalSpecFns;
use vstd::utf8::encode_utf8;
use crate::text::{
    append_str, chars_eq, chars_of, is_whitespace, spec_is_whitespace, str_eq, trim_chars,
    trim_seq, trim_string,
};

verus! {

// ---------------------------------------------------------------------------
// Byte-level model of the wire format
// ---------------------------------------------------------------------------
/// A 16-bit integer, most significant byte first.
pub open spec fn be16(v: u16) -> Seq<u8> {
    seq![(v / 256) as u8, (v % 256) as u8]
}

/// The value of two bytes read most significant first.
pub open spec fn be16_value(hi: u8, lo: u8) -> int {
    hi * 256 + lo
}

/// MQTT's variable-length integer: seven bits per byte, least significant
/// group first, the high bit set on every byte but the last.
pub open spec fn varint(n: nat) -> Seq<u8>
    decreases n,
{
    if n < 128 {
        seq![n as u8]
    } else {
        seq![(n % 128 + 128) as u8] + varint(n / 128)
    }
}

/// The number that a run of variable-length-integer bytes encodes.
pub open spec fn digits(s: Seq<u8>) -> nat
    decreases s.len(),
{
    if s.len() == 0 {
        0
    } else {
        (s[0] % 128) as nat + 128 * digits(s.drop_first())
    }
}

/// `128` to the power `k`.
pub open spec fn pow128(k: nat) -> nat
    decreases k,
{
    if k == 0 {
        1
    } else {
        128 * pow128((k - 1) as nat)
    }
}

/// A whole control packet: the header byte, the remaining length, the rest.
pub open spec fn packet_bytes(header: u8, payload: Seq<u8>) -> Seq<u8> {
    seq![header] + varint(payload.len()) + payload
}

/// A length-prefixed field; the prefix keeps the low 16 bits of the length.
pub open spec fn str_field(b: Seq<u8>) -> Seq<u8> {
    be16((b.len() % 65536) as u16) + b
}

/// The packet type of a header byte, kept in its high nibble (`b & 0xF0`).
pub open spec fn kind_of(b: u8) -> u8 {
    ((b / 16) * 16) as u8
}

/// The quality-of-service level of a PUBLISH header byte (`(b & 6) >> 1`).
pub open spec fn qos_of(b: u8) -> u8 {
    ((b / 2) % 4) as u8
}

/// Where the scan of a remaining-length field ended.
pub enum LenField {
    /// The buffer ended before the last byte of the field.
    Incomplete,
    /// The field ran past the longest length the scan accepts.
    Malformed,
    /// The field's last byte sits just before this index.
    Ends(usize),
}

/// Scans the remaining-length field from `idx`; a byte at an index above
/// `last` may not carry the continuation bit.
pub open spec fn scan_len(buf: Seq<u8>, idx: int, last: int) -> LenField
    decreases last - idx,
{
    if idx >= buf.len() {
        LenField::Incomplete
    } else if buf[idx] < 128 {
        LenField::Ends((idx + 1) as usize)
    } else if idx >= last {
        LenField::Malformed
    } else {
        scan_len(buf, idx + 1, last)
    }
}

/// The length of the first whole frame in `buf`, if all of it has arrived.
pub open spec fn frame_total(buf: Seq<u8>) -> Option<int> {
    match scan_len(buf, 1, 5) {
        LenField::Ends(e) => {
            let total = e + digits(buf.subrange(1, e as int));
            if total <= buf.len() {
                Some(total)
            } else {
                None
            }
        },
        _ => None,
    }
}

// ---------------------------------------------------------------------------
// Encoders
// ---------------------------------------------------------------------------
/// Appends `src` to `out`.
fn append_bytes(out: &mut Vec<u8>, src: &[u8])
    ensures
        final(out)@ == old(out)@ + src@,
{
    let mut i: usize = 0;
    while i < src.len()
        invariant
            i <= src.len(),
            out@ == old(out)@ + src@.take(i as int),
        decreases src.len() - i,
    {
        out.push(src[i]);
        assert(src@.take(i as int).push(src@[i as int]) =~= src@.take(i + 1));
        i += 1;
    }
    assert(src@.take(src.len() as int) =~= src@);
}

/// The two bytes of `v`, most significant first.
pub fn be16_bytes(v: u16) -> (r: [u8; 2])
    ensures
        r@ == be16(v),
{
    [(v / 256) as u8, (v % 256) as u8]
}

/// The variable-length encoding of `n`.
pub fn remaining_len(n: usize) -> (r: Vec<u8>)
    ensures
        r@ == varint(n as nat),
{
    let mut out: Vec<u8> = Vec::new();
    let mut m: usize = n;
    loop
        invariant_except_break
            out@ + varint(m as nat) == varint(n as nat),
        ensures
            out@ == varint(n as nat),
        decreases m,
    {
        let low: u8 = (m % 128) as u8;
        let rest: usize = m / 128;
        if rest == 0 {
            out.push(low);
            break;
        }
        let ghost before = out@;
        out.push(low + 128);
        assert(varint(m as nat) == seq![(m % 128 + 128) as u8] + varint(rest as nat));
        assert(out@ + varint(rest as nat) =~= before + varint(m as nat));
        m = rest;
    }
    out
}

/// A control packet with the given header byte and payload.
pub fn packet(header: u8, payload: &[u8]) -> (r: Vec<u8>)
    ensures
        r@ == packet_bytes(header, payload@),
{
    let mut out: Vec<u8> = Vec::new();
    out.push(header);
    let len = remaining_len(payload.len());
    append_bytes(&mut out, len.as_slice());
    append_bytes(&mut out, payload);
    out
}

/// A length-prefixed byte field.
pub fn mqtt_str_bytes(b: &[u8]) -> (r: Vec<u8>)
    ensures
        r@ == str_field(b@),
{
    let mut v: Vec<u8> = Vec::new();
    let n: u16 = (b.len() % 65536) as u16;
    let prefix = be16_bytes(n);
    append_bytes(&mut v, &prefix);
    append_bytes(&mut v, b);
    v
}

/// A length-prefixed UTF-8 string field.
pub fn mqtt_str(s: &str) -> (r: Vec<u8>)
    ensures
        r@ == str_field(s.spec_bytes()),
{
    mqtt_str_bytes(s.as_bytes())
}

/// The payload of a CONNECT packet: protocol "MQTT" level 4, clean session
/// and no will, keep-alive of 60 seconds, then the client id.
pub open spec fn connect_payload(client_id: Seq<u8>) -> Seq<u8> {
    str_field(seq![0x4Du8, 0x51u8, 0x54u8, 0x54u8]) + seq![4u8, 0x02u8] + be16(60) + str_field(
        client_id,
    )
}

/// CONNECT for `client_id`.
pub fn mqtt_connect(client_id: &str) -> (r: Vec<u8>)
    ensures
        r@ == packet_bytes(0x10, connect_payload(client_id.spec_bytes())),
{
    let proto: [u8; 4] = [0x4D, 0x51, 0x54, 0x54];
    let mut payload = mqtt_str_bytes(&proto);
    payload.push(4);
    payload.push(0x02);
    let keep_alive = be16_bytes(60);
    append_bytes(&mut payload, &keep_alive);
    let id = mqtt_str(client_id);
    append_bytes(&mut payload, id.as_slice());
    proof {
        assert(proto@ =~= seq![0x4Du8, 0x51u8, 0x54u8, 0x54u8]);
        assert(payload@ =~= connect_payload(client_id.spec_bytes()));
    }
    packet(0x10, payload.as_slice())
}

/// SUBSCRIBE to one topic at QoS 1 under `packet_id`.
pub fn mqtt_subscribe(topic: &str, packet_id: u16) -> (r: Vec<u8>)
    ensures
        r@ == packet_bytes(0x82, be16(packet_id) + str_field(topic.spec_bytes()) + seq![1u8]),
{
    let mut payload: Vec<u8> = Vec::new();
    let id = be16_bytes(packet_id);
    append_bytes(&mut payload, &id);
    let t = mqtt_str(topic);
    append_bytes(&mut payload, t.as_slice());
    payload.push(1);
    packet(0x82, payload.as_slice())
}

/// The payload of a QoS 1 PUBLISH: topic, packet id, body.
pub open spec fn publish_payload_bytes(topic: Seq<u8>, body: Seq<u8>, id: u16) -> Seq<u8> {
    str_field(topic) + be16(id) + body
}

/// PUBLISH `body` on `topic` at QoS 1 under packet id `id`.
pub fn mqtt_publish(topic: &str, body: &[u8], id: u16) -> (r: Vec<u8>)
    ensures
        r@ == packet_bytes(0x32, publish_payload_bytes(topic.spec_bytes(), body@, id)),
{
    let mut payload = mqtt_str(topic);
    let idb = be16_bytes(id);
    append_bytes(&mut payload, &idb);
    append_bytes(&mut payload, body);
    packet(0x32, payload.as_slice())
}

/// PUBACK for packet id `id`.
pub fn mqtt_puback(id: u16) -> (r: Vec<u8>)
    ensures
        r@ == packet_bytes(0x40, be16(id)),
{
    let idb = be16_bytes(id);
    packet(0x40, &idb)
}

/// SUBACK granting QoS 1 to subscription `id`.
pub fn mqtt_suback(id: u16) -> (r: Vec<u8>)
    ensures
        r@ == packet_bytes(0x90, be16(id) + seq![1u8]),
{
    let idb = be16_bytes(id);
    let mut payload: Vec<u8> = Vec::new();
    append_bytes(&mut payload, &idb);
    payload.push(1);
    packet(0x90, payload.as_slice())
}

/// CONNACK accepting the connection.
pub fn mqtt_connack() -> (r: Vec<u8>)
    ensures
        r@ == seq![0x20u8, 0x02u8, 0x00u8, 0x00u8],
{
    vec![0x20, 0x02, 0x00, 0x00]
}

/// PINGREQ: the keep-alive a client sends.
pub fn mqtt_pingreq() -> (r: Vec<u8>)
    ensures
        r@ == seq![0xC0u8, 0x00u8],
{
    vec![0xC0, 0x00]
}

/// PINGRESP.
pub fn mqtt_pingresp() -> (r: Vec<u8>)
    ensures
        r@ == seq![0xD0u8, 0x00u8],
{
    vec![0xD0, 0x00]
}

/// The packet id after `id`; ids run from 1 to `u16::MAX` and wrap to 1,
/// never 0.
pub fn next_mqtt_id(id: u16) -> (r: u16)
    ensures
        r == (if id == u16::MAX { 1 } else { id + 1 }),
        r != 0,
{
    if id == u16::MAX {
        1
    } else {
        id + 1
    }
}

// ---------------------------------------------------------------------------
// Decoders
// ---------------------------------------------------------------------------
/// Appending a byte to a run of length digits adds its seven low bits at
/// the next power of 128.
pub proof fn lemma_digits_push(s: Seq<u8>, b: u8)
    ensures
        digits(s.push(b)) == digits(s) + (b % 128) * pow128(s.len()),
    decreases s.len(),
{
    if s.len() == 0 {
        assert(s.push(b).drop_first() =~= Seq::<u8>::empty());
        assert(digits(s.push(b).drop_first()) == 0);
        assert(pow128(0) == 1);
    } else {
        let t = s.drop_first();
        assert(s.push(b).drop_first() =~= t.push(b));
        assert(s.push(b)[0] == s[0]);
        assert(pow128(s.len()) == 128 * pow128(t.len()));
        lemma_digits_push(t, b);
        let x = digits(t);
        let y = (b % 128) as int;
        let z = pow128(t.len()) as int;
        assert(128 * (x + y * z) == 128 * x + y * (128 * z)) by (nonlinear_arith);
    }
}

/// Where a scan that starts at `idx` can end.
pub proof fn lemma_scan_len_bounds(buf: Seq<u8>, idx: int, last: int)
    requires
        1 <= idx <= last,
        last <= 5,
    ensures
        scan_len(buf, idx, last) matches LenField::Ends(e) ==> idx + 1 <= e <= last + 1 && e
            <= buf.len(),
    decreases last - idx,
{
    if idx < buf.len() && buf[idx] >= 128 && idx < last {
        lemma_scan_len_bounds(buf, idx + 1, last);
    }
}

/// The powers of 128 that bound a remaining length.
pub proof fn lemma_pow128_values()
    ensures
        pow128(0) == 1,
        pow128(1) == 128,
        pow128(2) == 16384,
        pow128(3) == 2097152,
        pow128(4) == 268435456,
        pow128(5) == 34359738368,
{
    reveal_with_fuel(pow128, 6);
}

/// Scans the remaining-length field that starts at index 1, and sums its
/// value.
fn scan_remaining(buf: &[u8], last: usize) -> (r: (LenField, u64))
    requires
        1 <= last <= 5,
    ensures
        r.0 == scan_len(buf@, 1, last as int),
        r.0 matches LenField::Ends(e) ==> 2 <= e <= last + 1 && e <= buf.len() && r.1 == digits(
            buf@.subrange(1, e as int),
        ) && r.1 < 34359738368,
{
    proof {
        lemma_scan_len_bounds(buf@, 1, last as int);
        lemma_pow128_values();
    }
    if buf.len() < 2 {
        return (LenField::Incomplete, 0);
    }
    let mut idx: usize = 1;
    let mut mul: u64 = 1;
    let mut val: u64 = 0;
    assert(buf@.subrange(1, 1) =~= Seq::<u8>::empty());
    loop
        invariant
            1 <= idx <= last,
            last <= 5,
            idx <= buf.len(),
            scan_len(buf@, idx as int, last as int) == scan_len(buf@, 1, last as int),
            mul == pow128((idx - 1) as nat),
            mul <= 268435456,
            val < mul,
            val == digits(buf@.subrange(1, idx as int)),
            pow128(0) == 1,
            pow128(1) == 128,
            pow128(2) == 16384,
            pow128(3) == 2097152,
            pow128(4) == 268435456,
        decreases last - idx,
    {
        if idx >= buf.len() {
            return (LenField::Incomplete, 0);
        }
        let b = buf[idx];
        let d: u64 = (b % 128) as u64;
        proof {
            lemma_digits_push(buf@.subrange(1, idx as int), b);
            assert(buf@.subrange(1, idx as int).push(b) =~= buf@.subrange(1, idx + 1));
            assert(d * mul <= 127 * mul) by (nonlinear_arith)
                requires
                    d <= 127,
            ;
        }
        val = val + d * mul;
        if b < 128 {
            return (LenField::Ends(idx + 1), val);
        }
        if idx >= last {
            return (LenField::Malformed, 0);
        }
        mul = mul * 128;
        idx = idx + 1;
    }
}

/// Takes the first whole frame off the front of `buf`. A frame that has not
/// fully arrived leaves `buf` as it is; a length field longer than five
/// bytes cannot be resynchronised, and empties `buf`.
pub fn take_packet(buf: &mut Vec<u8>) -> (r: Option<Vec<u8>>)
    ensures
        match frame_total(old(buf)@) {
            Some(t) => r matches Some(p) && p@ == old(buf)@.subrange(0, t) && final(buf)@
                == old(buf)@.subrange(t, old(buf)@.len() as int),
            None => r is None && (if scan_len(old(buf)@, 1, 5) is Malformed {
                final(buf)@ == Seq::<u8>::empty()
            } else {
                final(buf)@ == old(buf)@
            }),
        },
{
    let (field, len) = scan_remaining(buf.as_slice(), 5);
    match field {
        LenField::Incomplete => None,
        LenField::Malformed => {
            buf.clear();
            None
        },
        LenField::Ends(e) => {
            let total: u64 = e as u64 + len;
            if (buf.len() as u64) < total {
                return None;
            }
            let t = total as usize;
            let mut head = buf.split_off(t);
            core::mem::swap(buf, &mut head);
            Some(head)
        },
    }
}

/// The packet type in the high nibble of `b` (`b & 0xF0`).
fn kind_byte(b: u8) -> (r: u8)
    ensures
        r == kind_of(b),
{
    assert(b & 0xF0 == ((b / 16) * 16) as u8) by (bit_vector);
    b & 0xF0
}

/// The QoS bits of a PUBLISH header (`(b & 6) >> 1`).
fn qos_byte(b: u8) -> (r: u8)
    ensures
        r == qos_of(b),
{
    assert((b & 0x06) >> 1 == ((b / 2) % 4) as u8) by (bit_vector);
    (b & 0x06) >> 1
}

/// The packet type of a packet: its first byte's high nibble, 0 for none.
pub fn mqtt_kind(packet: &[u8]) -> (r: u8)
    ensures
        r == kind_of(if packet@.len() == 0 { 0u8 } else { packet@[0] }),
{
    if packet.len() == 0 {
        kind_byte(0)
    } else {
        kind_byte(packet[0])
    }
}

/// The length of the fixed header (the header byte and the remaining-length
/// field), if that field is whole and at most five bytes long.
pub fn mqtt_fixed_header_len(packet: &[u8]) -> (r: Option<usize>)
    ensures
        r == (match scan_len(packet@, 1, 5) {
            LenField::Ends(e) => Some(e),
            _ => None::<usize>,
        }),
{
    if packet.len() == 0 {
        return None;
    }
    let (field, _) = scan_remaining(packet, 5);
    match field {
        LenField::Ends(e) => Some(e),
        _ => None,
    }
}

/// The packet id of a SUBSCRIBE packet, read just after its fixed header.
pub open spec fn subscribe_id_of(p: Seq<u8>) -> Option<u16> {
    if p.len() == 0 || kind_of(p[0]) != 0x80 {
        None
    } else {
        match scan_len(p, 1, 5) {
            LenField::Ends(e) => if e + 2 > p.len() {
                None
            } else {
                Some(be16_value(p[e as int], p[e + 1]) as u16)
            },
            _ => None,
        }
    }
}

/// The packet id of a SUBSCRIBE packet.
pub fn mqtt_subscribe_id(packet: &[u8]) -> (r: Option<u16>)
    ensures
        r == subscribe_id_of(packet@),
{
    if mqtt_kind(packet) != 0x80 {
        return None;
    }
    let idx = match mqtt_fixed_header_len(packet) {
        Some(i) => i,
        None => {
            return None;
        },
    };
    proof {
        lemma_scan_len_bounds(packet@, 1, 5);
    }
    if idx + 2 > packet.len() {
        return None;
    }
    Some((packet[idx] as u16) * 256 + packet[idx + 1] as u16)
}

/// The view of an optional byte vector.
pub open spec fn bytes_view(o: Option<Vec<u8>>) -> Option<Seq<u8>> {
    match o {
        Some(v) => Some(v@),
        None => None,
    }
}

/// Where the topic field of a PUBLISH packet starts, if its fixed header
/// (at most four length bytes) and the topic's length prefix are whole.
pub open spec fn publish_topic_start(p: Seq<u8>) -> Option<int> {
    if p.len() == 0 || kind_of(p[0]) != 0x30 {
        None
    } else {
        match scan_len(p, 1, 4) {
            LenField::Ends(e) => if e + 2 > p.len() {
                None
            } else {
                Some(e as int)
            },
            _ => None,
        }
    }
}

/// The application message of a PUBLISH packet: what follows the topic and,
/// at QoS 1 or 2, the packet id.
pub open spec fn publish_body(p: Seq<u8>) -> Option<Seq<u8>> {
    match publish_topic_start(p) {
        Some(e) => {
            let start = e + 2 + be16_value(p[e], p[e + 1]) + (if qos_of(p[0]) > 0 {
                2int
            } else {
                0int
            });
            if start > p.len() {
                None
            } else {
                Some(p.subrange(start, p.len() as int))
            }
        },
        None => None,
    }
}

/// The packet id of a PUBLISH packet at QoS 1 or 2.
pub open spec fn publish_id_of(p: Seq<u8>) -> Option<u16> {
    match publish_topic_start(p) {
        Some(e) => {
            let i = e + 2 + be16_value(p[e], p[e + 1]);
            if qos_of(p[0]) == 0 || i + 2 > p.len() {
                None
            } else {
                Some(be16_value(p[i], p[i + 1]) as u16)
            }
        },
        None => None,
    }
}

/// A copy of `s[from..to]`.
fn copy_range(s: &[u8], from: usize, to: usize) -> (r: Vec<u8>)
    requires
        from <= to <= s.len(),
    ensures
        r@ == s@.subrange(from as int, to as int),
{
    let mut out: Vec<u8> = Vec::new();
    let mut k: usize = from;
    while k < to
        invariant
            from <= k <= to,
            to <= s.len(),
            out@ == s@.subrange(from as int, k as int),
        decreases to - k,
    {
        out.push(s[k]);
        assert(s@.subrange(from as int, k as int).push(s@[k as int]) =~= s@.subrange(
            from as int,
            k + 1,
        ));
        k += 1;
    }
    out
}

/// Where the topic of a PUBLISH packet starts.
fn publish_topic_index(packet: &[u8]) -> (r: Option<usize>)
    ensures
        r matches Some(i) ==> publish_topic_start(packet@) == Some(i as int) && i + 2 <= packet.len()
            && i <= 5,
        r is None ==> publish_topic_start(packet@) is None,
{
    if packet.len() == 0 || kind_byte(packet[0]) != 0x30 {
        return None;
    }
    let (field, _) = scan_remaining(packet, 4);
    match field {
        LenField::Ends(e) => {
            if e + 2 > packet.len() {
                None
            } else {
                Some(e)
            }
        },
        _ => None,
    }
}

/// The application message of a PUBLISH packet.
pub fn mqtt_publish_payload(packet: &[u8]) -> (r: Option<Vec<u8>>)
    ensures
        bytes_view(r) == publish_body(packet@),
{
    let e = match publish_topic_index(packet) {
        Some(i) => i,
        None => {
            return None;
        },
    };
    let topic_len: usize = (packet[e] as usize) * 256 + packet[e + 1] as usize;
    let mut idx: usize = e + 2 + topic_len;
    if qos_byte(packet[0]) > 0 {
        idx = idx + 2;
    }
    if idx > packet.len() {
        return None;
    }
    Some(copy_range(packet, idx, packet.len()))
}

/// The packet id of a PUBLISH packet at QoS 1 or 2.
pub fn mqtt_publish_id(packet: &[u8]) -> (r: Option<u16>)
    ensures
        r == publish_id_of(packet@),
{
    let e = match publish_topic_index(packet) {
        Some(i) => i,
        None => {
            return None;
        },
    };
    if qos_byte(packet[0]) == 0 {
        return None;
    }
    let topic_len: usize = (packet[e] as usize) * 256 + packet[e + 1] as usize;
    let idx: usize = e + 2 + topic_len;
    if idx + 2 > packet.len() {
        return None;
    }
    Some((packet[idx] as u16) * 256 + packet[idx + 1] as u16)
}

/// Whether some whole frame at the front of `buf`, read frame after frame,
/// has packet type `header`.
pub open spec fn buf_has_type(buf: Seq<u8>, header: u8) -> bool
    decreases buf.len(),
{
    match frame_total(buf) {
        Some(t) => {
            proof {
                lemma_scan_len_bounds(buf, 1, 5);
            }
            kind_of(buf[0]) == header || buf_has_type(buf.subrange(t, buf.len() as int), header)
        },
        None => false,
    }
}

/// Whether `buf` holds, among the whole frames at its front, one of packet
/// type `header`.
pub fn mqtt_buf_has_type(buf: &[u8], header: u8) -> (r: bool)
    ensures
        r == buf_has_type(buf@, header),
{
    let mut tmp = copy_range(buf, 0, buf.len());
    assert(buf@.subrange(0, buf@.len() as int) =~= buf@);
    loop
        invariant
            buf_has_type(tmp@, header) == buf_has_type(buf@, header),
        decreases tmp@.len(),
    {
        let ghost before = tmp@;
        proof {
            lemma_scan_len_bounds(before, 1, 5);
        }
        match take_packet(&mut tmp) {
            Some(pkt) => {
                if kind_byte(pkt[0]) == header {
                    return true;
                }
            },
            None => {
                return false;
            },
        }
    }
}

// ---------------------------------------------------------------------------
// Relay configuration
// ---------------------------------------------------------------------------
/// The characters of each string.
pub open spec fn strings_view(v: Seq<String>) -> Seq<Seq<char>> {
    v.map_values(|s: String| s@)
}

/// A string result taken by its characters.
pub open spec fn result_view(r: Result<String, String>) -> Result<Seq<char>, Seq<char>> {
    match r {
        Ok(s) => Ok(s@),
        Err(e) => Err(e@),
    }
}

/// The stored relay URLs that are in use: each trimmed, the blank ones
/// dropped, in order.
pub open spec fn effective_urls(stored: Seq<Seq<char>>) -> Seq<Seq<char>>
    decreases stored.len(),
{
    if stored.len() == 0 {
        Seq::empty()
    } else {
        let rest = effective_urls(stored.drop_last());
        let t = trim_seq(stored.last());
        if t.len() == 0 {
            rest
        } else {
            rest.push(t)
        }
    }
}

/// The relay URLs in use, out of those stored for a community.
pub fn effective(stored: &[String]) -> (r: Vec<String>)
    ensures
        strings_view(r@) == effective_urls(strings_view(stored@)),
{
    let mut out: Vec<String> = Vec::new();
    let mut i: usize = 0;
    while i < stored.len()
        invariant
            i <= stored.len(),
            strings_view(out@) == effective_urls(strings_view(stored@).take(i as int)),
        decreases stored.len() - i,
    {
        let t = trim_string(stored[i].as_str());
        let ghost before = out@;
        let ghost tv = t@;
        proof {
            assert(strings_view(stored@).take(i + 1).drop_last() =~= strings_view(stored@).take(
                i as int,
            ));
            assert(strings_view(stored@).take(i + 1).last() == stored@[i as int]@);
        }
        if !t.as_str().is_empty() {
            out.push(t);
            assert(strings_view(out@) =~= strings_view(before).push(tv));
        }
        i += 1;
    }
    assert(strings_view(stored@).take(stored.len() as int) =~= strings_view(stored@));
    out
}

/// ASCII lower case: `A`..`Z` become `a`..`z`, every other character stays.
pub open spec fn ascii_lower(c: char) -> char {
    if 65 <= (c as u32) && (c as u32) <= 90 {
        ((c as u32) + 32) as char
    } else {
        c
    }
}

/// Whether `s` begins with `p`, ignoring ASCII case in `s`.
pub open spec fn starts_with_ci(s: Seq<char>, p: Seq<char>) -> bool {
    s.len() >= p.len() && forall|k: int| 0 <= k < p.len() ==> ascii_lower(s[k]) == p[k]
}

fn to_ascii_lower(c: char) -> (r: char)
    ensures
        r == ascii_lower(c),
{
    if 'A' <= c && c <= 'Z' {
        let b: u8 = c as u8;
        assert(b == c as u32);
        ((b + 32) as char)
    } else {
        c
    }
}

pub(crate) fn has_prefix_ci(s: &[char], p: &str) -> (r: bool)
    ensures
        r == starts_with_ci(s@, p@),
{
    let pc = chars_of(p);
    if s.len() < pc.len() {
        return false;
    }
    let mut k: usize = 0;
    while k < pc.len()
        invariant
            k <= pc.len(),
            pc.len() <= s.len(),
            pc@ == p@,
            forall|j: int| 0 <= j < k ==> ascii_lower(s@[j]) == p@[j],
        decreases pc.len() - k,
    {
        if to_ascii_lower(s[k]) != pc[k] {
            return false;
        }
        k += 1;
    }
    true
}

/// What `parse_one` makes of a relay URL typed by the user: the trimmed URL,
/// or the message that says what is wrong with it.
pub open spec fn relay_url_check(raw: Seq<char>) -> Result<Seq<char>, Seq<char>> {
    let url = trim_seq(raw);
    if url.len() == 0 {
        Err("informe um relé ws:// ou wss://"@)
    } else if encode_utf8(url).len() > 255 {
        Err("relé muito longo"@)
    } else if exists|k: int| 0 <= k < url.len() && spec_is_whitespace(#[trigger] url[k]) {
        Err("relé invalido"@)
    } else {
        let n = if starts_with_ci(url, "wss://"@) {
            6int
        } else if starts_with_ci(url, "ws://"@) {
            5int
        } else {
            0int
        };
        if n == 0 {
            Err("relé deve ser ws:// ou wss://"@)
        } else if url.len() == n || url[n] == '/' {
            Err("relé invalido"@)
        } else {
            Ok(url)
        }
    }
}

/// Checks one relay URL: `ws://` or `wss://` (any case), a host after it,
/// no inner whitespace, at most 255 bytes. Gives the trimmed URL back.
pub fn parse_one(raw: &str) -> (r: Result<String, String>)
    ensures
        result_view(r) == relay_url_check(raw@),
{
    let url = trim_string(raw);
    let cs = chars_of(url.as_str());
    if cs.len() == 0 {
        return Err("informe um relé ws:// ou wss://".to_owned());
    }
    if url.as_str().as_bytes().len() > 255 {
        return Err("relé muito longo".to_owned());
    }
    let mut i: usize = 0;
    while i < cs.len()
        invariant
            i <= cs.len(),
            cs@ == url@,
            url@ == trim_seq(raw@),
            url@.len() > 0,
            encode_utf8(url@).len() <= 255,
            forall|k: int| 0 <= k < i ==> !spec_is_whitespace(#[trigger] url@[k]),
        decreases cs.len() - i,
    {
        if is_whitespace(cs[i]) {
            assert(spec_is_whitespace(url@[i as int]));
            return Err("relé invalido".to_owned());
        }
        i += 1;
    }
    let n: usize = if has_prefix_ci(cs.as_slice(), "wss://") {
        6
    } else if has_prefix_ci(cs.as_slice(), "ws://") {
        5
    } else {
        0
    };
    if n == 0 {
        return Err("relé deve ser ws:// ou wss://".to_owned());
    }
    proof {
        reveal_strlit("wss://");
        reveal_strlit("ws://");
    }
    if cs.len() == n || cs[n] == '/' {
        return Err("relé invalido".to_owned());
    }
    Ok(url)
}

/// Whether a relay setting switches the relay off: `off`, `0` or `false`,
/// around whitespace.
pub open spec fn is_off_word(v: Seq<char>) -> bool {
    v == "off"@ || v == "0"@ || v == "false"@
}

/// Whether `value`, trimmed, switches the relay off.
pub fn relay_off(value: &str) -> (r: bool)
    ensures
        r == is_off_word(trim_seq(value@)),
{
    let t = trim_string(value);
    str_eq(t.as_str(), "off") || str_eq(t.as_str(), "0") || str_eq(t.as_str(), "false")
}

/// Whether the relay is disabled for this process: the environment's relay
/// setting is exactly `off`, `0` or `false`.
pub fn relay_disabled(env_relay: Option<&str>) -> (r: bool)
    ensures
        r == (env_relay matches Some(v) && is_off_word(v@)),
{
    match env_relay {
        Some(v) => str_eq(v, "off") || str_eq(v, "0") || str_eq(v, "false"),
        None => false,
    }
}

/// The relays a new community starts with: the user's own relay when one
/// was typed, else the one the environment names, else none.
pub open spec fn relays_for_create(custom: Option<Seq<char>>, env_relay: Option<Seq<char>>) -> Result<
    Seq<Seq<char>>,
    Seq<char>,
> {
    if custom matches Some(c) && trim_seq(c).len() > 0 {
        match relay_url_check(trim_seq(custom->0)) {
            Ok(u) => Ok(seq![u]),
            Err(e) => Err(e),
        }
    } else {
        match env_relay {
            Some(v) => if is_off_word(trim_seq(v)) || trim_seq(v).len() == 0 {
                Ok(Seq::empty())
            } else {
                match relay_url_check(v) {
                    Ok(u) => Ok(seq![u]),
                    Err(e) => Err(e),
                }
            },
            None => Ok(Seq::empty()),
        }
    }
}

/// The relays for a new community, from the user's choice and the value of
/// the environment's relay setting (`None` when it is not set).
pub fn choose_for_create(custom: Option<&str>, env_relay: Option<&str>) -> (r: Result<
    Vec<String>,
    String,
>)
    ensures
        match r {
            Ok(v) => relays_for_create(
                option_view(custom),
                option_view(env_relay),
            ) == Ok::<Seq<Seq<char>>, Seq<char>>(strings_view(v@)),
            Err(e) => relays_for_create(option_view(custom), option_view(env_relay)) == Err::<
                Seq<Seq<char>>,
                Seq<char>,
            >(e@),
        },
{
    if let Some(c) = custom {
        let t = trim_string(c);
        if !t.as_str().is_empty() {
            match parse_one(t.as_str()) {
                Ok(u) => {
                    let v = vec![u];
                    assert(strings_view(v@) =~= seq![v@[0]@]);
                    return Ok(v);
                },
                Err(e) => {
                    return Err(e);
                },
            }
        }
    }
    match env_relay {
        Some(v) => {
            if relay_off(v) {
                let out: Vec<String> = Vec::new();
                assert(strings_view(out@) =~= Seq::<Seq<char>>::empty());
                return Ok(out);
            }
            let t = trim_string(v);
            if t.as_str().is_empty() {
                let out: Vec<String> = Vec::new();
                assert(strings_view(out@) =~= Seq::<Seq<char>>::empty());
                return Ok(out);
            }
            match parse_one(v) {
                Ok(u) => {
                    let out = vec![u];
                    assert(strings_view(out@) =~= seq![out@[0]@]);
                    Ok(out)
                },
                Err(e) => Err(e),
            }
        },
        None => {
            let out: Vec<String> = Vec::new();
            assert(strings_view(out@) =~= Seq::<Seq<char>>::empty());
            Ok(out)
        },
    }
}

/// A borrowed string taken by its characters.
pub open spec fn option_view(o: Option<&str>) -> Option<Seq<char>> {
    match o {
        Some(s) => Some(s@),
        None => None,
    }
}

/// The MQTT topic of a community: `cc/v1/` and its id.
pub fn topic(community_id: &str) -> (r: String)
    ensures
        r@ == "cc/v1/"@ + community_id@,
{
    let mut t = "cc/v1/".to_owned();
    append_str(&mut t, community_id);
    t
}

/// The hub clients a broadcast from client `except` reaches: every other one,
/// in order.
pub fn hub_broadcast(except: u64, clients: &[u64]) -> (r: Vec<u64>)
    ensures
        r@ == clients@.filter(|id: u64| id != except),
{
    let mut out: Vec<u64> = Vec::new();
    let mut i: usize = 0;
    while i < clients.len()
        invariant
            i <= clients.len(),
            out@ == clients@.take(i as int).filter(|id: u64| id != except),
        decreases clients.len() - i,
    {
        proof {
            clients@.take(i as int).lemma_filter_push(clients@[i as int], |id: u64| id != except);
            assert(clients@.take(i as int).push(clients@[i as int]) =~= clients@.take(i + 1));
        }
        if clients[i] != except {
            out.push(clients[i]);
        }
        i += 1;
    }
    assert(clients@.take(clients.len() as int) =~= clients@);
    out
}

// ---------------------------------------------------------------------------
// Session decisions
// ---------------------------------------------------------------------------
/// What the local hub answers to one packet from a client.
pub enum HubReply {
    /// Send `bytes`; when `required`, a failed send ends the session.
    Send { bytes: Vec<u8>, required: bool },
    /// A PUBLISH: acknowledge it with `ack` when there is one, and hand
    /// `body` on to the other clients and to the node when there is one.
    Deliver { ack: Option<Vec<u8>>, body: Option<Vec<u8>> },
    /// DISCONNECT: end the session.
    Close,
    /// Nothing to do.
    Ignore,
}

/// The first byte of a packet, 0 for an empty one.
pub open spec fn first_byte(p: Seq<u8>) -> u8 {
    if p.len() == 0 {
        0
    } else {
        p[0]
    }
}

/// The PUBACK owed for a PUBLISH, if it has a packet id.
pub open spec fn puback_for(p: Seq<u8>) -> Option<Seq<u8>> {
    match publish_id_of(p) {
        Some(id) => Some(packet_bytes(0x40, be16(id))),
        None => None,
    }
}

/// The hub's answer to one client packet, by packet type: CONNECT gets
/// CONNACK, SUBSCRIBE gets SUBACK, PUBLISH is acknowledged and delivered,
/// PINGREQ gets PINGRESP, DISCONNECT closes, anything else is ignored.
pub fn hub_reply(packet: &[u8]) -> (r: HubReply)
    ensures
        ({
            let k = kind_of(first_byte(packet@));
            if k == 0x10 {
                r matches HubReply::Send { bytes, required } && bytes@ == seq![
                    0x20u8,
                    0x02u8,
                    0x00u8,
                    0x00u8,
                ] && required
            } else if k == 0x80 {
                match subscribe_id_of(packet@) {
                    Some(id) => r matches HubReply::Send { bytes, required } && bytes@
                        == packet_bytes(0x90, be16(id) + seq![1u8]) && required,
                    None => r is Ignore,
                }
            } else if k == 0x30 {
                r matches HubReply::Deliver { ack, body } && bytes_view(ack) == puback_for(packet@)
                    && bytes_view(body) == publish_body(packet@)
            } else if k == 0xC0 {
                r matches HubReply::Send { bytes, required } && bytes@ == seq![0xD0u8, 0x00u8]
                    && !required
            } else if k == 0xE0 {
                r is Close
            } else {
                r is Ignore
            }
        }),
{
    let k = mqtt_kind(packet);
    if k == 0x10 {
        HubReply::Send { bytes: mqtt_connack(), required: true }
    } else if k == 0x80 {
        match mqtt_subscribe_id(packet) {
            Some(id) => HubReply::Send { bytes: mqtt_suback(id), required: true },
            None => HubReply::Ignore,
        }
    } else if k == 0x30 {
        let ack = match mqtt_publish_id(packet) {
            Some(id) => Some(mqtt_puback(id)),
            None => None,
        };
        HubReply::Deliver { ack, body: mqtt_publish_payload(packet) }
    } else if k == 0xC0 {
        HubReply::Send { bytes: mqtt_pingresp(), required: false }
    } else if k == 0xE0 {
        HubReply::Close
    } else {
        HubReply::Ignore
    }
}

/// The largest message, in bytes, that goes out through a relay.
pub const MAX_RELAY_PAYLOAD: usize = 48000;

/// The PUBLISH that carries an outgoing message, with the packet id it
/// takes; a message over `MAX_RELAY_PAYLOAD` bytes is not sent, and the
/// packet id does not move.
pub fn outgoing_publish(topic: &str, message: &str, last_id: u16) -> (r: Option<(u16, Vec<u8>)>)
    ensures
        encode_utf8(message@).len() > MAX_RELAY_PAYLOAD ==> r is None,
        encode_utf8(message@).len() <= MAX_RELAY_PAYLOAD ==> (r matches Some((id, bytes)) && id
            == (if last_id == u16::MAX {
            1
        } else {
            last_id + 1
        }) && bytes@ == packet_bytes(
            0x32,
            publish_payload_bytes(topic.spec_bytes(), message.spec_bytes(), id),
        )),
{
    let body = message.as_bytes();
    if body.len() > MAX_RELAY_PAYLOAD {
        return None;
    }
    let id = next_mqtt_id(last_id);
    Some((id, mqtt_publish(topic, body, id)))
}

/// Whether a relay's first answer accepts the connection: a CONNACK whose
/// return code, the fourth byte, is 0.
pub fn connack_accepted(data: &[u8]) -> (r: bool)
    ensures
        r == (data@.len() >= 4 && data@[0] == 0x20 && data@[3] == 0),
{
    data.len() >= 4 && data[0] == 0x20 && data[3] == 0
}

/// The wait, in seconds, before the next reconnection: twice the last one,
/// at most 15.
pub fn next_backoff(secs: u64) -> (r: u64)
    ensures
        r == (if 2 * secs < 15 {
            2 * secs
        } else {
            15
        }),
{
    if secs >= 8 {
        15
    } else {
        secs * 2
    }
}

/// The whole frames at the front of `buf`, taken one after the other.
pub open spec fn frames_of(buf: Seq<u8>) -> Seq<Seq<u8>>
    decreases buf.len(),
{
    match frame_total(buf) {
        Some(t) => {
            proof {
                lemma_scan_len_bounds(buf, 1, 5);
            }
            seq![buf.subrange(0, t)] + frames_of(buf.subrange(t, buf.len() as int))
        },
        None => Seq::empty(),
    }
}

/// What stays of `buf` once its whole frames are taken: the partial frame
/// at the end, or nothing after a malformed length.
pub open spec fn after_frames(buf: Seq<u8>) -> Seq<u8>
    decreases buf.len(),
{
    match frame_total(buf) {
        Some(t) => {
            proof {
                lemma_scan_len_bounds(buf, 1, 5);
            }
            after_frames(buf.subrange(t, buf.len() as int))
        },
        None => if scan_len(buf, 1, 5) is Malformed {
            Seq::empty()
        } else {
            buf
        },
    }
}

/// The views of a vector of byte vectors.
pub open spec fn bytes_seqs(v: Seq<Vec<u8>>) -> Seq<Seq<u8>> {
    v.map_values(|b: Vec<u8>| b@)
}

/// Takes every whole frame off `buf`: the packet ids to acknowledge and the
/// bodies of the PUBLISH packets among them, in order.
pub fn drain_mqtt_publishes(buf: &mut Vec<u8>) -> (r: (Vec<u16>, Vec<Vec<u8>>))
    ensures
        r.0@ == frames_of(old(buf)@).filter_map(|f: Seq<u8>| publish_id_of(f)),
        bytes_seqs(r.1@) == frames_of(old(buf)@).filter_map(|f: Seq<u8>| publish_body(f)),
        final(buf)@ == after_frames(old(buf)@),
{
    let mut acks: Vec<u16> = Vec::new();
    let mut bodies: Vec<Vec<u8>> = Vec::new();
    let ghost orig = buf@;
    let ghost mut taken: Seq<Seq<u8>> = Seq::empty();
    assert(taken + frames_of(orig) =~= frames_of(orig));
    loop
        invariant
            orig == old(buf)@,
            frames_of(orig) == taken + frames_of(buf@),
            after_frames(orig) == after_frames(buf@),
            acks@ == taken.filter_map(|f: Seq<u8>| publish_id_of(f)),
            bytes_seqs(bodies@) == taken.filter_map(|f: Seq<u8>| publish_body(f)),
        decreases buf@.len(),
    {
        let ghost before = buf@;
        proof {
            lemma_scan_len_bounds(before, 1, 5);
        }
        match take_packet(buf) {
            Some(pkt) => {
                proof {
                    assert(taken.push(pkt@).drop_last() =~= taken);
                    assert((taken + frames_of(before)) =~= (taken.push(pkt@) + frames_of(buf@)));
                    taken = taken.push(pkt@);
                }
                match mqtt_publish_id(pkt.as_slice()) {
                    Some(id) => {
                        acks.push(id);
                    },
                    None => {},
                }
                let ghost bodies_before = bodies@;
                match mqtt_publish_payload(pkt.as_slice()) {
                    Some(b) => {
                        bodies.push(b);
                        assert(bytes_seqs(bodies@) =~= bytes_seqs(bodies_before).push(
                            bodies@.last()@,
                        ));
                    },
                    None => {},
                }
                assert(acks@ =~= taken.filter_map(|f: Seq<u8>| publish_id_of(f)));
                assert(bytes_seqs(bodies@) =~= taken.filter_map(|f: Seq<u8>| publish_body(f)));
            },
            None => {
                assert(frames_of(before) == Seq::<Seq<u8>>::empty());
                assert(taken + Seq::<Seq<u8>>::empty() =~= taken);
                return (acks, bodies);
            },
        }
    }
}

// ---------------------------------------------------------------------------
// Laws of the codec
// ---------------------------------------------------------------------------
/// The shape of a variable-length integer: one to many bytes, the
/// continuation bit on all but the last, and its digits give `n` back.
pub proof fn lemma_varint(n: nat)
    ensures
        varint(n).len() >= 1,
        varint(n).last() < 128,
        forall|k: int| 0 <= k < varint(n).len() - 1 ==> varint(n)[k] >= 128,
        varint(n)[0] >= 128 <==> n >= 128,
        digits(varint(n)) == n,
    decreases n,
{
    if n >= 128 {
        lemma_varint(n / 128);
        let v = varint(n);
        let w = varint(n / 128);
        assert(v =~= seq![(n % 128 + 128) as u8] + w);
        assert(v.drop_first() =~= w);
        assert(((n % 128 + 128) as u8) % 128 == n % 128);
        assert forall|k: int| 0 <= k < v.len() - 1 implies v[k] >= 128 by {
            if k > 0 {
                assert(v[k] == w[k - 1]);
            }
        }
    } else {
        assert(digits(varint(n).drop_first()) == 0);
    }
}

/// A number below `128^k` takes at most `k` bytes.
pub proof fn lemma_varint_len(n: nat, k: nat)
    requires
        1 <= k,
        n < pow128(k),
    ensures
        varint(n).len() <= k,
    decreases k,
{
    if n >= 128 {
        if k == 1 {
            assert(pow128(1) == 128) by {
                reveal_with_fuel(pow128, 2);
            }
        } else {
            assert(pow128(k) == 128 * pow128((k - 1) as nat));
            lemma_varint_len(n / 128, (k - 1) as nat);
        }
    }
}

/// Scanning a variable-length integer that ends by `last + 1` finds its end.
pub proof fn lemma_scan_varint(buf: Seq<u8>, idx: int, last: int, n: nat)
    requires
        1 <= idx,
        idx + varint(n).len() <= buf.len(),
        buf.subrange(idx, idx + varint(n).len()) == varint(n),
        idx + varint(n).len() <= last + 1,
        last <= 5,
    ensures
        scan_len(buf, idx, last) == LenField::Ends((idx + varint(n).len()) as usize),
    decreases n,
{
    lemma_varint(n);
    let v = varint(n);
    assert(buf[idx] == buf.subrange(idx, idx + v.len())[0]);
    if n >= 128 {
        let w = varint(n / 128);
        assert(v =~= seq![(n % 128 + 128) as u8] + w);
        assert(v.drop_first() =~= w);
        assert(buf.subrange(idx + 1, idx + 1 + w.len()) =~= buf.subrange(idx, idx + v.len()).drop_first());
        lemma_scan_varint(buf, idx + 1, last, n / 128);
    }
}

/// On a prefix of `full`, a scan that ends in `full` either runs out of
/// bytes or ends at the same place.
proof fn lemma_scan_prefix(full: Seq<u8>, buf: Seq<u8>, idx: int, last: int, e: int)
    requires
        buf.len() <= full.len(),
        buf == full.subrange(0, buf.len() as int),
        1 <= idx <= last,
        last <= 5,
        0 <= e <= 6,
        scan_len(full, idx, last) == LenField::Ends(e as usize),
    ensures
        buf.len() < e ==> scan_len(buf, idx, last) is Incomplete,
        buf.len() >= e ==> scan_len(buf, idx, last) == LenField::Ends(e as usize),
    decreases last - idx,
{
    lemma_scan_len_bounds(full, idx, last);
    if idx < buf.len() {
        assert(buf[idx] == full[idx]);
        if full[idx] >= 128 && idx < last {
            lemma_scan_prefix(full, buf, idx + 1, last, e);
        }
    }
}

/// The bytes of a PUBLISH or SUBSCRIBE header, laid out for the proofs below.
proof fn lemma_packet_layout(header: u8, payload: Seq<u8>, rest: Seq<u8>, last: int)
    requires
        payload.len() < pow128(last as nat),
        1 <= last <= 5,
    ensures
        ({
            let buf = packet_bytes(header, payload) + rest;
            let e: int = 1 + varint(payload.len()).len() as int;
            &&& e <= last + 1
            &&& scan_len(buf, 1, last) == LenField::Ends(e as usize)
            &&& buf[0] == header
            &&& buf.subrange(e, e + payload.len()) == payload
            &&& buf.subrange(1, e) == varint(payload.len())
            &&& packet_bytes(header, payload).len() == e + payload.len()
        }),
{
    let buf = packet_bytes(header, payload) + rest;
    let v = varint(payload.len());
    lemma_varint_len(payload.len(), last as nat);
    assert(buf.subrange(1, 1 + v.len() as int) =~= v);
    assert(buf.subrange(1 + v.len() as int, 1 + v.len() + payload.len() as int) =~= payload);
    lemma_scan_varint(buf, 1, last, payload.len());
}

/// A packet followed by anything is taken off whole, and what follows
/// stays: `take_packet` gives back exactly the frames that `packet` wrote.
pub proof fn law_frame_roundtrip(header: u8, payload: Seq<u8>, rest: Seq<u8>)
    requires
        payload.len() < pow128(5),
    ensures
        ({
            let pk = packet_bytes(header, payload);
            let buf = pk + rest;
            &&& frame_total(buf) == Some(pk.len() as int)
            &&& buf.subrange(0, pk.len() as int) == pk
            &&& buf.subrange(pk.len() as int, buf.len() as int) == rest
        }),
{
    let pk = packet_bytes(header, payload);
    let buf = pk + rest;
    lemma_packet_layout(header, payload, rest, 5);
    lemma_varint(payload.len());
    assert(buf.subrange(0, pk.len() as int) =~= pk);
    assert(buf.subrange(pk.len() as int, buf.len() as int) =~= rest);
}

/// A frame that has not fully arrived waits: on every strict prefix of a
/// packet, `take_packet` takes nothing and keeps the bytes.
pub proof fn law_partial_frame_waits(header: u8, payload: Seq<u8>, k: int)
    requires
        payload.len() < pow128(5),
        0 <= k < packet_bytes(header, payload).len(),
    ensures
        frame_total(packet_bytes(header, payload).subrange(0, k)) is None,
        !(scan_len(packet_bytes(header, payload).subrange(0, k), 1, 5) is Malformed),
{
    let pk = packet_bytes(header, payload);
    let buf = pk.subrange(0, k);
    lemma_packet_layout(header, payload, Seq::<u8>::empty(), 5);
    assert(pk + Seq::<u8>::empty() =~= pk);
    let e: int = 1 + varint(payload.len()).len() as int;
    assert(buf =~= pk.subrange(0, buf.len() as int));
    lemma_scan_prefix(pk, buf, 1, 5, e);
    lemma_varint(payload.len());
    if buf.len() >= e {
        assert(buf.subrange(1, e) =~= pk.subrange(1, e));
    }
}

/// A QoS 1 PUBLISH reads back: its body and its packet id are what was
/// written, for topics that fit the 16-bit length prefix and packets whose
/// remaining length fits the four bytes the reader accepts.
pub proof fn law_publish_roundtrip(topic: Seq<u8>, body: Seq<u8>, id: u16)
    requires
        topic.len() <= 65535,
        publish_payload_bytes(topic, body, id).len() < pow128(4),
    ensures
        publish_body(packet_bytes(0x32, publish_payload_bytes(topic, body, id))) == Some(body),
        publish_id_of(packet_bytes(0x32, publish_payload_bytes(topic, body, id))) == Some(id),
{
    let payload = publish_payload_bytes(topic, body, id);
    let pk = packet_bytes(0x32, payload);
    lemma_packet_layout(0x32, payload, Seq::<u8>::empty(), 4);
    assert(pk + Seq::<u8>::empty() =~= pk);
    let e: int = 1 + varint(payload.len()).len() as int;
    assert(kind_of(0x32) == 0x30);
    assert(qos_of(0x32) == 1);
    let tl = topic.len() as int;
    let tl16 = (topic.len() % 65536) as u16;
    assert(tl16 == tl);
    assert(pk[e] == payload[0] && pk[e + 1] == payload[1]);
    assert(be16_value(pk[e], pk[e + 1]) == tl);
    let i = e + 2 + tl;
    assert(pk[i] == payload[2 + tl] && pk[i + 1] == payload[3 + tl]);
    assert(payload[2 + tl] == be16(id)[0] && payload[3 + tl] == be16(id)[1]);
    assert(be16_value(pk[i], pk[i + 1]) == id);
    assert(pk.subrange(i + 2, pk.len() as int) =~= body);
}

/// A SUBSCRIBE reads back: its packet id is the one written.
pub proof fn law_subscribe_roundtrip(topic: Seq<u8>, id: u16)
    requires
        (be16(id) + str_field(topic) + seq![1u8]).len() < pow128(5),
    ensures
        subscribe_id_of(packet_bytes(0x82, be16(id) + str_field(topic) + seq![1u8])) == Some(id),
{
    let payload = be16(id) + str_field(topic) + seq![1u8];
    let pk = packet_bytes(0x82, payload);
    lemma_packet_layout(0x82, payload, Seq::<u8>::empty(), 5);
    assert(pk + Seq::<u8>::empty() =~= pk);
    let e: int = 1 + varint(payload.len()).len() as int;
    assert(kind_of(0x82) == 0x80);
    assert(pk[e] == payload[0] && pk[e + 1] == payload[1]);
    assert(be16_value(pk[e], pk[e + 1]) == id);
}

/// A QoS 0 PUBLISH reads back: it carries no packet id, and its body is
/// exactly what follows the topic, for topics that fit the 16-bit length
/// prefix and packets whose remaining length fits the four bytes the reader
/// accepts.
pub proof fn law_publish_qos0_roundtrip(topic: Seq<u8>, body: Seq<u8>)
    requires
        topic.len() <= 65535,
        (str_field(topic) + body).len() < pow128(4),
    ensures
        publish_body(packet_bytes(0x30, str_field(topic) + body)) == Some(body),
        publish_id_of(packet_bytes(0x30, str_field(topic) + body)) is None,
{
    let payload = str_field(topic) + body;
    let pk = packet_bytes(0x30, payload);
    lemma_packet_layout(0x30, payload, Seq::<u8>::empty(), 4);
    assert(pk + Seq::<u8>::empty() =~= pk);
    let e: int = 1 + varint(payload.len()).len() as int;
    assert(kind_of(0x30) == 0x30);
    assert(qos_of(0x30) == 0);
    let tl = topic.len() as int;
    let tl16 = (topic.len() % 65536) as u16;
    assert(tl16 == tl);
    assert(pk[e] == payload[0] && pk[e + 1] == payload[1]);
    assert(be16_value(pk[e], pk[e + 1]) == tl);
    let i = e + 2 + tl;
    assert(pk.subrange(i, pk.len() as int) =~= body);
}

/// The relay a user typed decides a new community's relays whatever the
/// environment says: when it is not blank, the result is the same with any
/// environment value as with none, and on success it is that relay alone,
/// trimmed.
pub proof fn law_typed_relay_wins(custom: Seq<char>, env_relay: Option<Seq<char>>)
    requires
        trim_seq(custom).len() > 0,
    ensures
        relays_for_create(Some(custom), env_relay) == relays_for_create(Some(custom), None),
        relays_for_create(Some(custom), env_relay) is Ok ==> relays_for_create(Some(custom), env_relay)
            == Ok::<Seq<Seq<char>>, Seq<char>>(seq![trim_seq(custom)]),
{
    crate::text::lemma_trim_idempotent(custom);
}

} // verus!
