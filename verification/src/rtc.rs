//! Voice and video calls: who dials whom in the star around a hub, how
//! received audio is mixed, G.711 mu-law samples, and which incoming video
//! is a screen share.
use vstd::prelude::*;
use crate::text::{chars_of, seq_lt, str_eq, str_less};
use crate::relay::{ascii_lower, strings_view};
use crate::erasure::{insert_sorted, sorted_keys};
use crate::keyed::{keyed_find, keyed_set, keyed_view};

verus! {

/// Samples in one 20 ms frame of 8 kHz audio.
pub const FRAME_SAMPLES: usize = 160;

// ---------------------------------------------------------------------------
// Who talks to whom
// ---------------------------------------------------------------------------
/// Whether `me` is the polite side of a negotiation with `peer`: the one
/// whose key sorts after the other's.
pub fn polite(me: &str, peer: &str) -> (r: bool)
    ensures
        r == seq_lt(peer@, me@),
{
    str_less(peer, me)
}

/// A copy of a list of strings.
fn copy_strings(v: &[String]) -> (r: Vec<String>)
    ensures
        strings_view(r@) == strings_view(v@),
{
    let mut out: Vec<String> = Vec::new();
    let mut i: usize = 0;
    while i < v.len()
        invariant
            i <= v.len(),
            strings_view(out@) == strings_view(v@).take(i as int),
        decreases v.len() - i,
    {
        let s = v[i].clone();
        let ghost before = strings_view(out@);
        let ghost sv = s@;
        out.push(s);
        assert(strings_view(out@) =~= before.push(sv));
        assert(strings_view(v@).take(i + 1) =~= strings_view(v@).take(i as int).push(sv));
        i += 1;
    }
    assert(strings_view(v@).take(v.len() as int) =~= strings_view(v@));
    out
}

/// The peers a call member connects to: in a star (a hub, and at least two
/// others) every member but the hub dials only the hub; otherwise every
/// other member.
pub open spec fn wanted(me: Seq<char>, others: Seq<Seq<char>>, hub: Option<Seq<char>>) -> Seq<
    Seq<char>,
> {
    match hub {
        Some(h) => if others.len() >= 2 && me != h {
            seq![h]
        } else {
            others
        },
        None => others,
    }
}

/// The peers a call member connects to.
pub fn wanted_peers(me: &str, others: &[String], hub: Option<&str>) -> (r: Vec<String>)
    ensures
        strings_view(r@) == wanted(
            me@,
            strings_view(others@),
            match hub {
                Some(h) => Some(h@),
                None => None,
            },
        ),
{
    let h = match hub {
        None => {
            return copy_strings(others);
        },
        Some(h) => h,
    };
    if others.len() < 2 || str_eq(me, h) {
        return copy_strings(others);
    }
    let v = vec![h.to_owned()];
    assert(strings_view(v@) =~= seq![h@]);
    v
}

/// The members whose media the hub forwards to `remote`: the others and the
/// hub itself, without the hub's own key, `remote` and blank keys, each
/// once, in order.
pub open spec fn forward_set(
    hub: Seq<char>,
    remote: Seq<char>,
    me: Seq<char>,
    others: Seq<Seq<char>>,
) -> Set<Seq<char>> {
    Set::new(
        |k: Seq<char>|
            (others.contains(k) || k == me) && k.len() > 0 && k != hub && k != remote,
    )
}

/// The members whose media the hub forwards to `remote`, sorted.
pub fn forward_peers(hub: &str, remote: &str, me: &str, others: &[String]) -> (r: Vec<String>)
    ensures
        sorted_keys(strings_view(r@)),
        strings_view(r@).to_set() == forward_set(hub@, remote@, me@, strings_view(others@)),
{
    let ghost ov = strings_view(others@);
    let mut all: Vec<String> = Vec::new();
    let mut i: usize = 0;
    assert(strings_view(all@).to_set() =~= Set::<Seq<char>>::empty());
    while i < others.len()
        invariant
            i <= others.len(),
            ov == strings_view(others@),
            sorted_keys(strings_view(all@)),
            strings_view(all@).to_set() == Set::new(
                |k: Seq<char>| ov.take(i as int).contains(k) && k.len() > 0 && k != hub@ && k != remote@,
            ),
        decreases others.len() - i,
    {
        let x: String = others[i].clone();
        let ghost before = strings_view(all@).to_set();
        let ghost xv = x@;
        add_candidate(&mut all, x, hub, remote);
        proof {
            let next = Set::new(
                |k: Seq<char>| ov.take(i + 1).contains(k) && k.len() > 0 && k != hub@ && k != remote@,
            );
            assert(ov.take(i + 1) =~= ov.take(i as int).push(xv));
            assert forall|k: Seq<char>| next.contains(k) implies strings_view(all@).to_set().contains(
                k,
            ) by {
                if k != xv {
                    let w = choose|w: int| 0 <= w < i + 1 && #[trigger] ov.take(i + 1)[w] == k;
                    assert(ov.take(i as int)[w] == k);
                }
            }
            assert forall|k: Seq<char>| strings_view(all@).to_set().contains(k) implies next.contains(
                k,
            ) by {
                if k != xv {
                    assert(before.contains(k));
                    let w = choose|w: int| 0 <= w < i && #[trigger] ov.take(i as int)[w] == k;
                    assert(ov.take(i + 1)[w] == k);
                } else {
                    assert(ov.take(i + 1)[i as int] == k);
                }
            }
            assert(strings_view(all@).to_set() =~= next);
        }
        i += 1;
    }
    assert(ov.take(others.len() as int) =~= ov);
    let ghost before = strings_view(all@).to_set();
    add_candidate(&mut all, me.to_owned(), hub, remote);
    assert(strings_view(all@).to_set() =~= forward_set(hub@, remote@, me@, ov));
    all
}

/// Adds `x` to the sorted `all` unless it is blank, the hub or the remote.
fn add_candidate(all: &mut Vec<String>, x: String, hub: &str, remote: &str)
    requires
        sorted_keys(strings_view(old(all)@)),
    ensures
        sorted_keys(strings_view(final(all)@)),
        strings_view(final(all)@).to_set() == (if x@.len() > 0 && x@ != hub@ && x@ != remote@ {
            strings_view(old(all)@).to_set().insert(x@)
        } else {
            strings_view(old(all)@).to_set()
        }),
{
    if !x.as_str().is_empty() && !str_eq(x.as_str(), hub) && !str_eq(x.as_str(), remote) {
        insert_sorted(all, x);
    }
}

// ---------------------------------------------------------------------------
// Audio: G.711 mu-law and the playback mixer
// ---------------------------------------------------------------------------
/// `2^e` for a mu-law segment `e` (0 to 7).
pub open spec fn segment_scale(e: int) -> int {
    if e == 0 {
        1
    } else if e == 1 {
        2
    } else if e == 2 {
        4
    } else if e == 3 {
        8
    } else if e == 4 {
        16
    } else if e == 5 {
        32
    } else if e == 6 {
        64
    } else {
        128
    }
}

/// The sample a mu-law byte stands for: the byte is stored inverted; its
/// top bit is the sign, then three bits of segment and four of mantissa.
pub open spec fn ulaw_value(ulaw: u8) -> int {
    let u = 255 - ulaw;
    let e = (u / 16) % 8;
    let m = u % 16;
    let mag = (8 * m + 132) * segment_scale(e) - 132;
    if u >= 128 {
        -mag
    } else {
        mag
    }
}

/// The segment of a biased magnitude: the position of its leading one
/// above bit 7.
pub open spec fn ulaw_segment(b: int) -> int {
    if b >= 16384 {
        7
    } else if b >= 8192 {
        6
    } else if b >= 4096 {
        5
    } else if b >= 2048 {
        4
    } else if b >= 1024 {
        3
    } else if b >= 512 {
        2
    } else if b >= 256 {
        1
    } else {
        0
    }
}

/// The mu-law byte for a 16-bit sample: magnitude clipped to 32635 and
/// biased by 132, then sign, segment and the four bits below the leading
/// one, all inverted.
pub open spec fn ulaw_of(sample: i16) -> u8 {
    let mag = if sample < 0 {
        -(sample as int) - 1
    } else {
        sample as int
    };
    let b = (if mag > 32635 {
        32635
    } else {
        mag
    }) + 132;
    let e = ulaw_segment(b);
    let m = (b / (8 * segment_scale(e))) % 16;
    let sign = if sample < 0 {
        128int
    } else {
        0int
    };
    (255 - (sign + 16 * e + m)) as u8
}

/// The 16-bit sample for a mu-law byte.
pub fn ulaw_to_linear(ulaw: u8) -> (r: i16)
    ensures
        r == ulaw_value(ulaw),
{
    let u: u8 = 255 - ulaw;
    let e: u8 = (u / 16) % 8;
    let m: i16 = (u % 16) as i16;
    let scale: i16 = if e == 0 {
        1
    } else if e == 1 {
        2
    } else if e == 2 {
        4
    } else if e == 3 {
        8
    } else if e == 4 {
        16
    } else if e == 5 {
        32
    } else if e == 6 {
        64
    } else {
        128
    };
    assert((8 * m + 132) * scale <= 252 * 128) by (nonlinear_arith)
        requires
            0 <= m < 16,
            1 <= scale <= 128,
    ;
    assert((8 * m + 132) * scale >= 132) by (nonlinear_arith)
        requires
            0 <= m < 16,
            1 <= scale <= 128,
    ;
    let mag: i16 = (8 * m + 132) * scale - 132;
    if u >= 128 {
        -mag
    } else {
        mag
    }
}

/// The mu-law byte for a 16-bit sample.
pub fn linear_to_ulaw(sample: i16) -> (r: u8)
    ensures
        r == ulaw_of(sample),
{
    let mag: i16 = if sample < 0 {
        -(sample + 1)
    } else {
        sample
    };
    let clipped: i16 = if mag > 32635 {
        32635
    } else {
        mag
    };
    let b: i16 = clipped + 132;
    let (e, unit): (u8, i16) = if b >= 16384 {
        (7, 1024)
    } else if b >= 8192 {
        (6, 512)
    } else if b >= 4096 {
        (5, 256)
    } else if b >= 2048 {
        (4, 128)
    } else if b >= 1024 {
        (3, 64)
    } else if b >= 512 {
        (2, 32)
    } else if b >= 256 {
        (1, 16)
    } else {
        (0, 8)
    };
    let m: u8 = ((b / unit) % 16) as u8;
    let sign: u8 = if sample < 0 {
        128
    } else {
        0
    };
    255 - (sign + 16 * e + m)
}

/// Decoding then encoding a mu-law byte gives it back, for every byte but
/// the second zero (0x7F, "minus zero"), which comes back as 0xFF.
pub proof fn law_ulaw_roundtrip(u: u8)
    requires
        u != 0x7F,
    ensures
        ulaw_of(ulaw_value(u) as i16) == u,
{
    assert(ulaw_of(ulaw_value(u) as i16) == u) by (bit_vector)
        requires
            u != 0x7F,
    ;
}

/// The playback mixer: one running sum per sample of the current frame.
pub struct MixBuf {
    pub acc: [i32; 160],
}

/// `a + b`, held within the range of `i32`.
pub open spec fn saturating_sum(a: int, b: int) -> int {
    if a + b > i32::MAX {
        i32::MAX as int
    } else if a + b < i32::MIN {
        i32::MIN as int
    } else {
        a + b
    }
}

/// `v` held within the range of `i16`.
pub open spec fn clamp16(v: int) -> int {
    if v > i16::MAX {
        i16::MAX as int
    } else if v < i16::MIN {
        i16::MIN as int
    } else {
        v
    }
}

/// Adds a frame of mu-law audio into the mixer, sample by sample: talkers
/// are summed, not queued one after the other. Bytes past one frame are
/// ignored.
pub fn mix_ulaw_frame(buf: &mut MixBuf, payload: &[u8])
    ensures
        forall|i: int|
            0 <= i < 160 ==> #[trigger] final(buf).acc@[i] == if i < payload@.len() {
                saturating_sum(old(buf).acc@[i] as int, ulaw_value(payload@[i]))
            } else {
                old(buf).acc@[i] as int
            },
{
    let n: usize = if payload.len() < FRAME_SAMPLES {
        payload.len()
    } else {
        FRAME_SAMPLES
    };
    let mut i: usize = 0;
    while i < n
        invariant
            i <= n,
            n <= 160,
            n <= payload.len(),
            n == (if payload@.len() < 160 {
                payload@.len() as int
            } else {
                160
            }),
            forall|k: int|
                0 <= k < 160 ==> #[trigger] buf.acc@[k] == if k < i {
                    saturating_sum(old(buf).acc@[k] as int, ulaw_value(payload@[k]))
                } else {
                    old(buf).acc@[k] as int
                },
        decreases n - i,
    {
        let v: i64 = buf.acc[i] as i64 + ulaw_to_linear(payload[i]) as i64;
        let s: i32 = if v > i32::MAX as i64 {
            i32::MAX
        } else if v < i32::MIN as i64 {
            i32::MIN
        } else {
            v as i32
        };
        buf.acc[i] = s;
        i += 1;
    }
}

/// Takes the mixed frame out, each sum held within the range of `i16`, and
/// empties the mixer.
pub fn take_mix_frame(buf: &mut MixBuf) -> (r: [i16; 160])
    ensures
        forall|i: int| 0 <= i < 160 ==> #[trigger] r@[i] == clamp16(old(buf).acc@[i] as int),
        forall|i: int| 0 <= i < 160 ==> #[trigger] final(buf).acc@[i] == 0,
{
    let mut pcm: [i16; 160] = [0i16; 160];
    let mut i: usize = 0;
    while i < FRAME_SAMPLES
        invariant
            i <= 160,
            forall|k: int|
                0 <= k < i ==> #[trigger] pcm@[k] == clamp16(old(buf).acc@[k] as int),
            forall|k: int| 0 <= k < i ==> #[trigger] buf.acc@[k] == 0,
            forall|k: int| i <= k < 160 ==> #[trigger] buf.acc@[k] == old(buf).acc@[k],
        decreases 160 - i,
    {
        let a = buf.acc[i];
        let c: i16 = if a > i16::MAX as i32 {
            i16::MAX
        } else if a < i16::MIN as i32 {
            i16::MIN
        } else {
            a as i16
        };
        pcm[i] = c;
        buf.acc[i] = 0;
        i += 1;
    }
    pcm
}

// ---------------------------------------------------------------------------
// Which incoming video is a screen share
// ---------------------------------------------------------------------------
/// Whether `needle` occurs in `hay`.
pub open spec fn contains_seq(hay: Seq<char>, needle: Seq<char>) -> bool {
    exists|i: int| 0 <= i <= hay.len() - needle.len() && #[trigger] hay.subrange(i, i + needle.len()) == needle
}

/// `s` in ASCII lower case.
pub open spec fn lower_seq(s: Seq<char>) -> Seq<char> {
    s.map_values(|c: char| ascii_lower(c))
}

/// Whether `c` is an ASCII decimal digit.
pub open spec fn is_digit(c: char) -> bool {
    48 <= (c as u32) <= 57
}

/// The number that decimal digits spell.
pub open spec fn digits_value(s: Seq<char>) -> nat
    decreases s.len(),
{
    if s.len() == 0 {
        0
    } else {
        10 * digits_value(s.drop_last()) + ((s.last() as u32) - 48) as nat
    }
}

/// Whether every character of `s` is a decimal digit.
pub open spec fn all_digits(s: Seq<char>) -> bool {
    forall|i: int| 0 <= i < s.len() ==> is_digit(#[trigger] s[i])
}

/// `s` without a leading `+`.
pub open spec fn unsigned_body(s: Seq<char>) -> Seq<char> {
    if s.len() > 0 && s[0] == '+' {
        s.drop_first()
    } else {
        s
    }
}

/// `str::parse::<usize>`: an optional `+`, then one or more decimal digits,
/// of a value that fits a `usize`.
pub open spec fn parse_usize(s: Seq<char>) -> Option<nat> {
    let body = unsigned_body(s);
    if body.len() > 0 && all_digits(body) && digits_value(body) <= usize::MAX {
        Some(digits_value(body))
    } else {
        None
    }
}

/// The value of a run of decimal digits stays within `usize` once a longer
/// run does.
proof fn lemma_digits_value_prefix(s: Seq<char>, i: int)
    requires
        0 <= i <= s.len(),
        all_digits(s),
    ensures
        digits_value(s.take(i)) <= digits_value(s),
    decreases s.len() - i,
{
    if i < s.len() {
        assert(s.drop_last().take(i) =~= s.take(i));
        lemma_digits_value_prefix(s.drop_last(), i);
    } else {
        assert(s.take(i) =~= s);
    }
}

/// Parses a decimal `usize` the way `str::parse` does.
pub fn parse_usize_str(text: &str) -> (r: Option<usize>)
    ensures
        r matches Some(n) ==> parse_usize(text@) == Some(n as nat),
        r is None ==> parse_usize(text@) is None,
{
    let cs = chars_of(text);
    let start: usize = if cs.len() > 0 && cs[0] == '+' {
        1
    } else {
        0
    };
    let ghost body = unsigned_body(text@);
    assert(body =~= cs@.skip(start as int));
    if start >= cs.len() {
        return None;
    }
    let mut value: usize = 0;
    let mut i: usize = start;
    while i < cs.len()
        invariant
            start <= i <= cs.len(),
            cs@ == text@,
            body == cs@.skip(start as int),
            body == unsigned_body(text@),
            forall|k: int| 0 <= k < i - start ==> is_digit(#[trigger] body[k]),
            value == digits_value(body.take(i - start)),
        decreases cs.len() - i,
    {
        let c = cs[i];
        let cu: u32 = c as u32;
        assert(body[i - start] == cs@[i as int]);
        if !(48 <= cu && cu <= 57) {
            assert(!is_digit(body[i - start]));
            assert(!all_digits(body));
            return None;
        }
        let d: usize = (cu - 48) as usize;
        assert(body.take(i - start + 1).drop_last() =~= body.take(i - start));
        let next = match value.checked_mul(10) {
            Some(v) => v.checked_add(d),
            None => None,
        };
        match next {
            Some(v) => {
                value = v;
            },
            None => {
                proof {
                    let t = body.take(i - start + 1);
                    assert(digits_value(t) > usize::MAX);
                    if all_digits(body) {
                        lemma_digits_value_prefix(body, i - start + 1);
                    }
                }
                return None;
            },
        }
        i += 1;
    }
    assert(body.take(body.len() as int) =~= body);
    Some(value)
}

/// Whether `needle` occurs in `hay`.
fn chars_contain(hay: &[char], needle: &[char]) -> (r: bool)
    ensures
        r == contains_seq(hay@, needle@),
{
    if needle.len() > hay.len() {
        return false;
    }
    let mut i: usize = 0;
    while i <= hay.len() - needle.len()
        invariant
            needle.len() <= hay.len(),
            i <= hay.len() - needle.len() + 1,
            forall|k: int| 0 <= k < i ==> #[trigger] hay@.subrange(k, k + needle@.len()) != needle@,
        decreases hay.len() - needle.len() + 1 - i,
    {
        let mut j: usize = 0;
        while j < needle.len() && hay[i + j] == needle[j]
            invariant
                j <= needle.len(),
                i + needle.len() <= hay.len(),
                forall|k: int| 0 <= k < j ==> hay@[i + k] == needle@[k],
            decreases needle.len() - j,
        {
            j += 1;
        }
        if j == needle.len() {
            assert(hay@.subrange(i as int, i + needle@.len()) =~= needle@);
            return true;
        }
        assert(hay@.subrange(i as int, i + needle@.len())[j as int] != needle@[j as int]);
        i += 1;
    }
    false
}

/// Whether an incoming video track is a screen share: its stream or track
/// name says "screen" or "display" (in any ASCII case), or else its media
/// line number leaves 2 when divided by 3 (camera and screen alternate).
pub open spec fn is_screen_video(mid: Option<Seq<char>>, stream_id: Seq<char>, track_id: Seq<char>) -> bool {
    let blob = lower_seq(stream_id + seq![' '] + track_id);
    if contains_seq(blob, "screen"@) || contains_seq(blob, "display"@) {
        true
    } else {
        match mid {
            Some(m) => match parse_usize(m) {
                Some(n) => n % 3 == 2,
                None => false,
            },
            None => false,
        }
    }
}

/// Whether an incoming video track is a screen share.
pub fn video_is_screen(mid: Option<&str>, stream_id: &str, track_id: &str) -> (r: bool)
    ensures
        r == is_screen_video(
            match mid {
                Some(m) => Some(m@),
                None => None,
            },
            stream_id@,
            track_id@,
        ),
{
    let a = chars_of(stream_id);
    let b = chars_of(track_id);
    let mut blob: Vec<char> = Vec::new();
    let mut i: usize = 0;
    let ghost full = stream_id@ + seq![' '] + track_id@;
    while i < a.len()
        invariant
            i <= a.len(),
            a@ == stream_id@,
            blob@ == lower_seq(full).take(i as int),
            full == stream_id@ + seq![' '] + track_id@,
        decreases a.len() - i,
    {
        blob.push(to_ascii_lower_char(a[i]));
        assert(lower_seq(full).take(i + 1) =~= lower_seq(full).take(i as int).push(
            ascii_lower(a@[i as int]),
        ));
        i += 1;
    }
    blob.push(' ');
    assert(lower_seq(full).take(a.len() + 1) =~= lower_seq(full).take(a.len() as int).push(' '));
    let mut j: usize = 0;
    while j < b.len()
        invariant
            j <= b.len(),
            a@ == stream_id@,
            b@ == track_id@,
            blob@ == lower_seq(full).take(a.len() + 1 + j),
            full == stream_id@ + seq![' '] + track_id@,
        decreases b.len() - j,
    {
        blob.push(to_ascii_lower_char(b[j]));
        assert(lower_seq(full).take(a.len() + 1 + j + 1) =~= lower_seq(full).take(
            a.len() + 1 + j,
        ).push(ascii_lower(b@[j as int])));
        j += 1;
    }
    assert(lower_seq(full).take(a.len() + 1 + b.len()) =~= lower_seq(full));
    let screen = chars_of("screen");
    let display = chars_of("display");
    if chars_contain(blob.as_slice(), screen.as_slice()) || chars_contain(
        blob.as_slice(),
        display.as_slice(),
    ) {
        return true;
    }
    match mid {
        Some(m) => match parse_usize_str(m) {
            Some(n) => n % 3 == 2,
            None => false,
        },
        None => false,
    }
}

/// ASCII lower case of one character.
fn to_ascii_lower_char(c: char) -> (r: char)
    ensures
        r == ascii_lower(c),
{
    if 'A' <= c && c <= 'Z' {
        let b: u8 = c as u8;
        ((b + 32) as char)
    } else {
        c
    }
}

/// Which member a forwarded track slot carries: the first three slots are
/// the remote peer's own, then three per extra member in order; past the
/// extras, the remote peer again.
pub fn slot_peer<'a>(index: usize, remote: &'a str, extras: &'a [String]) -> (r: &'a str)
    ensures
        r@ == (if index < 3 {
            remote@
        } else if (index - 3) / 3 < extras@.len() {
            extras@[(index - 3) / 3]@
        } else {
            remote@
        }),
{
    if index < 3 {
        remote
    } else {
        let k = (index - 3) / 3;
        if k < extras.len() {
            extras[k].as_str()
        } else {
            remote
        }
    }
}

// ---------------------------------------------------------------------------
// Bringing the links in line with the roster
// ---------------------------------------------------------------------------
/// The other members of a call, from the room's roster: the non-blank keys
/// other than `me`, in order.
pub fn call_others(me: &str, peers: &[String]) -> (r: Vec<String>)
    ensures
        strings_view(r@) == strings_view(peers@).filter(|k: Seq<char>| k.len() > 0 && k != me@),
{
    let ghost pv = strings_view(peers@);
    let ghost f = |k: Seq<char>| k.len() > 0 && k != me@;
    let mut out: Vec<String> = Vec::new();
    let mut i: usize = 0;
    while i < peers.len()
        invariant
            i <= peers.len(),
            pv == strings_view(peers@),
            f == (|k: Seq<char>| k.len() > 0 && k != me@),
            strings_view(out@) == pv.take(i as int).filter(f),
        decreases peers.len() - i,
    {
        proof {
            pv.take(i as int).lemma_filter_push(pv[i as int], f);
            assert(pv.take(i as int).push(pv[i as int]) =~= pv.take(i + 1));
        }
        if !peers[i].as_str().is_empty() && !str_eq(peers[i].as_str(), me) {
            let ghost before = strings_view(out@);
            out.push(peers[i].clone());
            assert(strings_view(out@) =~= before.push(pv[i as int]));
        }
        i += 1;
    }
    assert(pv.take(peers.len() as int) =~= pv);
    out
}

/// The hub of a call: the named hub only when at least two others are in
/// the call.
pub fn call_hub(others: &[String], hub: Option<String>) -> (r: Option<String>)
    ensures
        others@.len() >= 2 ==> r == hub,
        others@.len() < 2 ==> r is None,
{
    if others.len() >= 2 {
        hub
    } else {
        None
    }
}

/// The links to close: those open to a peer the member no longer wants, in
/// order.
pub fn links_to_drop(existing: &[String], want: &[String]) -> (r: Vec<String>)
    ensures
        strings_view(r@) == strings_view(existing@).filter(|k: Seq<char>| !strings_view(want@).contains(k)),
{
    let ghost ev = strings_view(existing@);
    let ghost wv = strings_view(want@);
    let ghost f = |k: Seq<char>| !wv.contains(k);
    let mut out: Vec<String> = Vec::new();
    let mut i: usize = 0;
    while i < existing.len()
        invariant
            i <= existing.len(),
            ev == strings_view(existing@),
            wv == strings_view(want@),
            f == (|k: Seq<char>| !wv.contains(k)),
            strings_view(out@) == ev.take(i as int).filter(f),
        decreases existing.len() - i,
    {
        proof {
            ev.take(i as int).lemma_filter_push(ev[i as int], f);
            assert(ev.take(i as int).push(ev[i as int]) =~= ev.take(i + 1));
        }
        if !crate::peer::list_contains(want, existing[i].as_str()) {
            let ghost before = strings_view(out@);
            out.push(existing[i].clone());
            assert(strings_view(out@) =~= before.push(ev[i as int]));
        }
        i += 1;
    }
    assert(ev.take(existing.len() as int) =~= ev);
    out
}

/// The members whose media a link to `remote` carries besides `remote`'s
/// own: with a hub and at least two others, those the hub forwards to
/// `remote`; none otherwise.
pub fn link_extras(hub: Option<&str>, remote: &str, me: &str, others: &[String]) -> (r: Vec<String>)
    ensures
        hub is None || others@.len() < 2 ==> r@.len() == 0,
        others@.len() >= 2 ==> match hub {
            Some(h) => sorted_keys(strings_view(r@)) && strings_view(r@).to_set() == forward_set(
                h@,
                remote@,
                me@,
                strings_view(others@),
            ),
            None => true,
        },
{
    match hub {
        Some(h) => {
            if others.len() >= 2 {
                forward_peers(h, remote, me, others)
            } else {
                Vec::new()
            }
        },
        None => Vec::new(),
    }
}

// ---------------------------------------------------------------------------
// Signaling frames
// ---------------------------------------------------------------------------
/// Whether a signaling frame reaches this call member: it is for this room,
/// from someone else, addressed to this member, and, in a star (a hub and
/// at least two others), a member other than the hub takes frames from the
/// hub alone.
pub fn rtc_frame_accepted(
    room: &str,
    me: &str,
    hub: Option<&str>,
    others_len: usize,
    frame_room: &str,
    from: &str,
    to: &str,
) -> (r: bool)
    ensures
        r == (frame_room@ == room@ && from@ != me@ && to@ == me@ && !(match hub {
            Some(h) => others_len >= 2 && me@ != h@ && from@ != h@,
            None => false,
        })),
{
    if !str_eq(frame_room, room) || str_eq(from, me) || !str_eq(to, me) {
        return false;
    }
    match hub {
        Some(h) => !(others_len >= 2 && !str_eq(me, h) && !str_eq(from, h)),
        None => true,
    }
}

/// Whether a `bye` is stale and ignored: it names another session of the
/// peer than the live one, or it is older than the peer's latest signal
/// (both times known).
pub fn bye_is_stale(ts: i64, last: i64, bye_sess: Option<&str>, live_sess: Option<&str>) -> (r: bool)
    ensures
        r == ((match (bye_sess, live_sess) {
            (Some(b), Some(l)) => b@ != l@,
            _ => false,
        }) || (ts > 0 && last > 0 && ts < last)),
{
    let other_sess = match (bye_sess, live_sess) {
        (Some(b), Some(l)) => !str_eq(b, l),
        _ => false,
    };
    other_sess || (ts > 0 && last > 0 && ts < last)
}

/// Whether an incoming offer is taken: on a collision (an offer of this
/// member's own under way, or a negotiation not stable) only the polite
/// side takes it, and only in a stable state.
pub fn offer_taken(collision: bool, me: &str, from: &str, stable: bool) -> (r: bool)
    ensures
        r == ((!collision || seq_lt(from@, me@)) && stable),
{
    if collision && !polite(me, from) {
        return false;
    }
    stable
}

/// The latest signal time kept for a peer after a signal stamped `ts`.
pub fn next_last_sig(last: i64, ts: i64) -> (r: i64)
    ensures
        r == (if ts >= last {
            ts
        } else {
            last
        }),
{
    if ts >= last {
        ts
    } else {
        last
    }
}

/// Notes a signal from `from`: its session (when given) becomes the live
/// one, and its time (when given) raises the peer's latest signal time,
/// which starts at 0.
pub fn note_signal(
    last_sig: &mut Vec<(String, i64)>,
    last_sess: &mut Vec<(String, String)>,
    from: &str,
    sess: Option<&str>,
    ts: Option<i64>,
)
    ensures
        (match sess {
            Some(x) => {
                &&& keyed_view(final(last_sess)@).dom() == keyed_view(old(last_sess)@).dom().insert(from@)
                &&& keyed_view(final(last_sess)@)[from@]@ == x@
                &&& forall|k: Seq<char>|
                    k != from@ && #[trigger] keyed_view(old(last_sess)@).contains_key(k) ==> keyed_view(
                        final(last_sess)@,
                    )[k] == keyed_view(old(last_sess)@)[k]
            },
            None => final(last_sess)@ == old(last_sess)@,
        }),
        (match ts {
            Some(t) => keyed_view(final(last_sig)@) == keyed_view(old(last_sig)@).insert(
                from@,
                (if keyed_view(old(last_sig)@).contains_key(from@) {
                    if t >= keyed_view(old(last_sig)@)[from@] { t } else { keyed_view(old(last_sig)@)[from@] }
                } else {
                    if t >= 0 { t } else { 0 }
                }),
            ),
            None => final(last_sig)@ == old(last_sig)@,
        }),
{
    if let Some(x) = sess {
        keyed_set(last_sess, from, x.to_owned());
        assert(keyed_view(last_sess@).dom() =~= keyed_view(old(last_sess)@).dom().insert(from@));
    }
    if let Some(t) = ts {
        let last: i64 = match keyed_find(last_sig, from) {
            Some(i) => last_sig[i].1,
            None => 0,
        };
        keyed_set(last_sig, from, next_last_sig(last, t));
    }
}

// ---------------------------------------------------------------------------
// Video frames from RTP packets
// ---------------------------------------------------------------------------
/// The most bytes a video frame being put together may reach before it is
/// dropped.
pub const MAX_VIDEO_FRAME: usize = 1_000_000;

/// Before an RTP packet with timestamp `ts` is read: when the timestamp
/// changed and bytes are pending, the pending bytes are a finished frame
/// (and the depacketizer starts afresh); the packet's timestamp is the last
/// one from now on.
pub fn rtp_boundary(acc: &mut Vec<u8>, last_ts: &mut Option<u32>, ts: u32) -> (r: Option<Vec<u8>>)
    ensures
        *final(last_ts) == Some(ts),
        (match *old(last_ts) {
            Some(t) => t != ts && old(acc)@.len() > 0,
            None => false,
        }) ==> (r matches Some(f) && f@ == old(acc)@ && final(acc)@.len() == 0),
        !(match *old(last_ts) {
            Some(t) => t != ts && old(acc)@.len() > 0,
            None => false,
        }) ==> (r is None && final(acc)@ == old(acc)@),
{
    let flush = match *last_ts {
        Some(t) => t != ts && acc.len() > 0,
        None => false,
    };
    *last_ts = Some(ts);
    if flush {
        let mut frame: Vec<u8> = Vec::new();
        std::mem::swap(acc, &mut frame);
        Some(frame)
    } else {
        None
    }
}

/// After an RTP packet was read into `nal`: its bytes join the pending
/// ones; a packet with the marker bit ends the frame, which is returned;
/// pending bytes past `MAX_VIDEO_FRAME` are dropped.
pub fn rtp_append(acc: &mut Vec<u8>, nal: &[u8], marker: bool) -> (r: Option<Vec<u8>>)
    requires
        old(acc)@.len() + nal@.len() <= usize::MAX,
    ensures
        marker && old(acc)@.len() + nal@.len() > 0 ==> (r matches Some(f) && f@ == old(acc)@ + nal@ && final(acc)@.len() == 0),
        !(marker && old(acc)@.len() + nal@.len() > 0) ==> r is None && final(acc)@ == (if old(acc)@.len() + nal@.len() > MAX_VIDEO_FRAME {
            Seq::<u8>::empty()
        } else {
            old(acc)@ + nal@
        }),
{
    let mut i: usize = 0;
    let ghost start = acc@;
    while i < nal.len()
        invariant
            i <= nal.len(),
            acc@ == start + nal@.take(i as int),
        decreases nal.len() - i,
    {
        acc.push(nal[i]);
        assert(acc@ =~= start + nal@.take(i + 1));
        i += 1;
    }
    assert(nal@.take(nal@.len() as int) =~= nal@);
    if marker && acc.len() > 0 {
        let mut frame: Vec<u8> = Vec::new();
        std::mem::swap(acc, &mut frame);
        return Some(frame);
    }
    if acc.len() > MAX_VIDEO_FRAME {
        acc.clear();
    }
    None
}

} // verus!
