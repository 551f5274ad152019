//! Peer addresses: reading `ws://` URLs and IP addresses, and choosing
//! which of them to dial or to put in an invite.
use vstd::prelude::*;
use crate::text::{
    append_str, chars_of, decimal, decimal_chars, has_prefix, push_char, slice_chars, starts_with,
    str_eq, string_from_chars, trim_seq, trim_string,
};
use crate::relay::strings_view;
use crate::rtc::{all_digits, digits_value, parse_usize, parse_usize_str, unsigned_body};

verus! {

// ---------------------------------------------------------------------------
// Finding characters
// ---------------------------------------------------------------------------
/// The index of the first `c` in `s` (its length when there is none).
pub open spec fn find_char(s: Seq<char>, c: char) -> int
    decreases s.len(),
{
    if s.len() == 0 {
        0
    } else if s[0] == c {
        0
    } else {
        1 + find_char(s.drop_first(), c)
    }
}

/// The index of the last `c` in `s` (-1 when there is none).
pub open spec fn rfind_char(s: Seq<char>, c: char) -> int
    decreases s.len(),
{
    if s.len() == 0 {
        -1
    } else if s.last() == c {
        s.len() - 1
    } else {
        rfind_char(s.drop_last(), c)
    }
}

/// `find_char` is the first index that holds `c`.
proof fn lemma_find_char(s: Seq<char>, c: char, i: int)
    requires
        0 <= i <= s.len(),
        forall|k: int| 0 <= k < i ==> s[k] != c,
        i < s.len() ==> s[i] == c,
    ensures
        find_char(s, c) == i,
    decreases i,
{
    if i > 0 {
        lemma_find_char(s.drop_first(), c, i - 1);
    }
}

/// `rfind_char` is the last index that holds `c`.
proof fn lemma_rfind_char(s: Seq<char>, c: char, j: int)
    requires
        -1 <= j < s.len(),
        forall|k: int| j < k < s.len() ==> s[k] != c,
        j >= 0 ==> s[j] == c,
    ensures
        rfind_char(s, c) == j,
    decreases s.len(),
{
    if s.len() > 0 && j < s.len() - 1 {
        lemma_rfind_char(s.drop_last(), c, j);
    }
}

/// The index of the first `c` in `s`, or its length.
fn find_index(s: &[char], c: char) -> (r: usize)
    ensures
        r == find_char(s@, c),
        r <= s.len(),
{
    let mut i: usize = 0;
    while i < s.len() && s[i] != c
        invariant
            i <= s.len(),
            forall|k: int| 0 <= k < i ==> s@[k] != c,
        decreases s.len() - i,
    {
        i += 1;
    }
    proof {
        lemma_find_char(s@, c, i as int);
    }
    i
}

/// The index of the last `c` in `s`, if any.
fn rfind_index(s: &[char], c: char) -> (r: Option<usize>)
    ensures
        r matches Some(j) ==> rfind_char(s@, c) == j && j < s.len(),
        r is None ==> rfind_char(s@, c) == -1,
{
    let mut j: usize = s.len();
    while j > 0 && s[j - 1] != c
        invariant
            j <= s.len(),
            forall|k: int| j <= k < s.len() ==> s@[k] != c,
        decreases j,
    {
        j -= 1;
    }
    proof {
        lemma_rfind_char(s@, c, j - 1);
    }
    if j == 0 {
        None
    } else {
        Some(j - 1)
    }
}

// ---------------------------------------------------------------------------
// ws:// URLs
// ---------------------------------------------------------------------------
/// A port number the way `str::parse::<u16>` reads it.
pub open spec fn parse_port(s: Seq<char>) -> Option<nat> {
    let body = unsigned_body(s);
    if body.len() > 0 && all_digits(body) && digits_value(body) <= 65535 {
        Some(digits_value(body))
    } else {
        None
    }
}

/// `s` without the leading `[` and `]` characters.
pub open spec fn trim_start_brackets(s: Seq<char>) -> Seq<char>
    decreases s.len(),
{
    if s.len() > 0 && (s[0] == '[' || s[0] == ']') {
        trim_start_brackets(s.drop_first())
    } else {
        s
    }
}

/// `s` without the trailing `[` and `]` characters.
pub open spec fn trim_end_brackets(s: Seq<char>) -> Seq<char>
    decreases s.len(),
{
    if s.len() > 0 && (s.last() == '[' || s.last() == ']') {
        trim_end_brackets(s.drop_last())
    } else {
        s
    }
}

/// The part of a URL after `ws://` or `wss://`.
pub open spec fn after_scheme(url: Seq<char>) -> Option<Seq<char>> {
    if has_prefix(url, "ws://"@) {
        Some(url.skip(5))
    } else if has_prefix(url, "wss://"@) {
        Some(url.skip(6))
    } else {
        None
    }
}

/// Host and port of a `ws://` or `wss://` URL: the part before the first
/// `/` split at its last `:`, the host without brackets; nothing when the
/// scheme, the `:` or the port is missing or the port is no `u16`.
pub open spec fn ws_host_port(url: Seq<char>) -> Option<(Seq<char>, nat)> {
    match after_scheme(url) {
        None => None,
        Some(rest) => {
            let auth = rest.take(find_char(rest, '/'));
            let j = rfind_char(auth, ':');
            if j < 0 {
                None
            } else {
                match parse_port(auth.skip(j + 1)) {
                    None => None,
                    Some(port) => Some((trim_end_brackets(trim_start_brackets(auth.take(j))), port)),
                }
            }
        },
    }
}

proof fn lemma_trim_start_brackets_skip(s: Seq<char>, i: int)
    requires
        0 <= i <= s.len(),
        forall|k: int| 0 <= k < i ==> (#[trigger] s[k] == '[' || s[k] == ']'),
    ensures
        trim_start_brackets(s) == trim_start_brackets(s.skip(i)),
    decreases i,
{
    if i > 0 {
        lemma_trim_start_brackets_skip(s.drop_first(), i - 1);
        assert(s.drop_first().skip(i - 1) =~= s.skip(i));
    } else {
        assert(s.skip(0) =~= s);
    }
}

proof fn lemma_trim_end_brackets_take(s: Seq<char>, j: int)
    requires
        0 <= j <= s.len(),
        forall|k: int| j <= k < s.len() ==> (#[trigger] s[k] == '[' || s[k] == ']'),
    ensures
        trim_end_brackets(s) == trim_end_brackets(s.take(j)),
    decreases s.len() - j,
{
    if j < s.len() {
        lemma_trim_end_brackets_take(s.drop_last(), j);
        assert(s.drop_last().take(j) =~= s.take(j));
    } else {
        assert(s.take(j) =~= s);
    }
}

/// `s` without leading and trailing `[` and `]`.
fn trim_brackets(s: &[char]) -> (r: Vec<char>)
    ensures
        r@ == trim_end_brackets(trim_start_brackets(s@)),
{
    let n = s.len();
    let mut i: usize = 0;
    while i < n && (s[i] == '[' || s[i] == ']')
        invariant
            i <= n,
            n == s.len(),
            forall|k: int| 0 <= k < i ==> (#[trigger] s@[k] == '[' || s@[k] == ']'),
        decreases n - i,
    {
        i += 1;
    }
    proof {
        lemma_trim_start_brackets_skip(s@, i as int);
    }
    let ghost rest = s@.skip(i as int);
    assert(trim_start_brackets(rest) == rest);
    let mut j: usize = n;
    while j > i && (s[j - 1] == '[' || s[j - 1] == ']')
        invariant
            i <= j <= n,
            n == s.len(),
            forall|k: int| j <= k < n ==> (#[trigger] s@[k] == '[' || s@[k] == ']'),
        decreases j,
    {
        j -= 1;
    }
    proof {
        lemma_trim_end_brackets_take(rest, j - i);
        assert(rest.take(j - i) =~= s@.subrange(i as int, j as int));
        let t = s@.subrange(i as int, j as int);
        assert(t.len() == 0 || !(t.last() == '[' || t.last() == ']'));
    }
    slice_chars(s, i, j)
}

/// Reads a port number the way `str::parse::<u16>` does.
pub fn parse_port_str(text: &str) -> (r: Option<u16>)
    ensures
        r matches Some(n) ==> parse_port(text@) == Some(n as nat),
        r is None ==> parse_port(text@) is None,
{
    match parse_usize_str(text) {
        Some(n) => {
            if n <= 65535 {
                Some(n as u16)
            } else {
                None
            }
        },
        None => None,
    }
}

/// Host and port of a `ws://` or `wss://` URL (an IPv6 host without its
/// brackets).
pub fn parse_ws(url: &str) -> (r: Option<(String, u16)>)
    ensures
        r matches Some(hp) ==> ws_host_port(url@) == Some((hp.0@, hp.1 as nat)),
        r is None ==> ws_host_port(url@) is None,
{
    let cs = chars_of(url);
    let skip: usize = if starts_with(url, "ws://") {
        5
    } else if starts_with(url, "wss://") {
        6
    } else {
        return None;
    };
    proof {
        reveal_strlit("ws://");
        reveal_strlit("wss://");
    }
    let rest = slice_chars(cs.as_slice(), skip, cs.len());
    assert(rest@ == url@.skip(skip as int));
    let slash = find_index(rest.as_slice(), '/');
    let auth = slice_chars(rest.as_slice(), 0, slash);
    assert(auth@ =~= rest@.take(slash as int));
    match rfind_index(auth.as_slice(), ':') {
        None => None,
        Some(j) => {
            let port_chars = slice_chars(auth.as_slice(), j + 1, auth.len());
            assert(port_chars@ =~= auth@.skip(j + 1));
            let port_text = string_from_chars(port_chars.as_slice());
            match parse_port_str(port_text.as_str()) {
                None => None,
                Some(port) => {
                    let host_chars = slice_chars(auth.as_slice(), 0, j);
                    assert(host_chars@ =~= auth@.take(j as int));
                    let host = trim_brackets(host_chars.as_slice());
                    Some((string_from_chars(host.as_slice()), port))
                },
            }
        },
    }
}

/// Whether a host names this machine's loopback.
pub open spec fn loopback_host(host: Seq<char>) -> bool {
    host == "127.0.0.1"@ || host == "localhost"@ || host == "::1"@
}

/// Whether a host names this machine's loopback (`127.0.0.1`, `localhost`
/// or `::1`).
pub fn is_loopback_host(host: &str) -> (r: bool)
    ensures
        r == loopback_host(host@),
{
    str_eq(host, "127.0.0.1") || str_eq(host, "localhost") || str_eq(host, "::1")
}

/// Whether a link key names a relay link.
pub open spec fn relay_key(key: Seq<char>) -> bool {
    key == "relay"@ || has_prefix(key, "relay:"@)
}

/// Whether a link key names a relay link (`relay` or `relay:...`).
pub fn is_relay_key(key: &str) -> (r: bool)
    ensures
        r == relay_key(key@),
{
    str_eq(key, "relay") || starts_with(key, "relay:")
}

/// Whether a link key names a direct link to a peer: not a relay, not a
/// dial still pending.
pub fn is_direct_remote_key(key: &str) -> (r: bool)
    ensures
        r == (!relay_key(key@) && !has_prefix(key@, "pending:"@)),
{
    !is_relay_key(key) && !starts_with(key, "pending:")
}

// ---------------------------------------------------------------------------
// IP addresses
// ---------------------------------------------------------------------------
/// `s` cut at every `sep`: one more piece than there are separators.
pub open spec fn split_on(s: Seq<char>, sep: char) -> Seq<Seq<char>>
    decreases s.len(),
{
    if s.len() == 0 {
        seq![Seq::<char>::empty()]
    } else {
        let r = split_on(s.drop_last(), sep);
        if s.last() == sep {
            r.push(Seq::<char>::empty())
        } else {
            r.update(r.len() - 1, r.last().push(s.last()))
        }
    }
}

proof fn lemma_split_on_len(s: Seq<char>, sep: char)
    ensures
        split_on(s, sep).len() >= 1,
    decreases s.len(),
{
    if s.len() > 0 {
        lemma_split_on_len(s.drop_last(), sep);
    }
}

/// The pieces of a character list, as views.
pub open spec fn pieces_view(v: Seq<Vec<char>>) -> Seq<Seq<char>> {
    v.map_values(|p: Vec<char>| p@)
}

/// Cuts `s` at every `sep`.
fn split_chars(s: &[char], sep: char) -> (r: Vec<Vec<char>>)
    ensures
        pieces_view(r@) == split_on(s@, sep),
{
    let mut done: Vec<Vec<char>> = Vec::new();
    let mut cur: Vec<char> = Vec::new();
    let mut i: usize = 0;
    assert(s@.take(0) =~= Seq::<char>::empty());
    assert(pieces_view(done@).push(cur@) =~= split_on(s@.take(0), sep));
    while i < s.len()
        invariant
            i <= s.len(),
            pieces_view(done@).push(cur@) == split_on(s@.take(i as int), sep),
        decreases s.len() - i,
    {
        let ghost before = split_on(s@.take(i as int), sep);
        assert(s@.take(i + 1).drop_last() =~= s@.take(i as int));
        assert(s@.take(i + 1).last() == s@[i as int]);
        if s[i] == sep {
            let piece = cur;
            cur = Vec::new();
            done.push(piece);
            assert(pieces_view(done@).push(cur@) =~= before.push(Seq::<char>::empty()));
        } else {
            cur.push(s[i]);
            assert(pieces_view(done@).push(cur@) =~= before.update(before.len() - 1, before.last().push(s@[i as int])));
        }
        i += 1;
    }
    assert(s@.take(s.len() as int) =~= s@);
    done.push(cur);
    assert(pieces_view(done@) =~= split_on(s@, sep));
    done
}

/// A decimal octet as an IPv4 address writes it: one to three digits, no
/// leading zero, at most 255.
pub open spec fn octet_text(s: Seq<char>) -> bool {
    1 <= s.len() <= 3 && all_digits(s) && (s.len() == 1 || s[0] != '0') && digits_value(s) <= 255
}

/// The IPv4 address that `s` writes (`a.b.c.d`, as `str::parse::<Ipv4Addr>`
/// reads it), by its octets.
pub open spec fn ipv4_of(s: Seq<char>) -> Option<Seq<u8>> {
    let p = split_on(s, '.');
    if p.len() == 4 && octet_text(p[0]) && octet_text(p[1]) && octet_text(p[2]) && octet_text(p[3]) {
        Some(seq![digits_value(p[0]) as u8, digits_value(p[1]) as u8, digits_value(p[2]) as u8, digits_value(p[3]) as u8])
    } else {
        None
    }
}

/// Reads a decimal octet.
fn parse_octet(s: &[char]) -> (r: Option<u8>)
    ensures
        r matches Some(v) ==> octet_text(s@) && v == digits_value(s@),
        r is None ==> !octet_text(s@),
{
    if s.len() == 0 || s.len() > 3 {
        return None;
    }
    if s.len() > 1 && s[0] == '0' {
        return None;
    }
    let mut v: u32 = 0;
    let mut i: usize = 0;
    while i < s.len()
        invariant
            i <= s.len() <= 3,
            forall|k: int| 0 <= k < i ==> crate::rtc::is_digit(#[trigger] s@[k]),
            v == digits_value(s@.take(i as int)),
            i == 0 ==> v == 0,
            i == 1 ==> v < 10,
            i == 2 ==> v < 100,
            i == 3 ==> v < 1000,
        decreases s.len() - i,
    {
        let c = s[i] as u32;
        if !(48 <= c && c <= 57) {
            assert(!crate::rtc::is_digit(s@[i as int]));
            return None;
        }
        assert(s@.take(i + 1).drop_last() =~= s@.take(i as int));
        v = v * 10 + (c - 48);
        i += 1;
    }
    assert(s@.take(s.len() as int) =~= s@);
    if v > 255 {
        return None;
    }
    Some(v as u8)
}

/// Reads an IPv4 address the way `str::parse::<Ipv4Addr>` does.
pub fn parse_ipv4(host: &str) -> (r: Option<[u8; 4]>)
    ensures
        r matches Some(o) ==> ipv4_of(host@) == Some(o@),
        r is None ==> ipv4_of(host@) is None,
{
    let cs = chars_of(host);
    let parts = split_chars(cs.as_slice(), '.');
    let ghost pv = pieces_view(parts@);
    if parts.len() != 4 {
        return None;
    }
    assert(pv[0] == parts@[0]@ && pv[1] == parts@[1]@ && pv[2] == parts@[2]@ && pv[3] == parts@[3]@);
    let a = parse_octet(parts[0].as_slice());
    let b = parse_octet(parts[1].as_slice());
    let c = parse_octet(parts[2].as_slice());
    let d = parse_octet(parts[3].as_slice());
    match (a, b, c, d) {
        (Some(a), Some(b), Some(c), Some(d)) => {
            let o = [a, b, c, d];
            assert(o@ =~= seq![a, b, c, d]);
            Some(o)
        },
        _ => None,
    }
}

/// The value of a hexadecimal digit (-1 for any other character).
pub open spec fn hex_digit(c: char) -> int {
    let u = c as u32;
    if 48 <= u <= 57 {
        u - 48
    } else if 97 <= u <= 102 {
        u - 87
    } else if 65 <= u <= 70 {
        u - 55
    } else {
        -1
    }
}

/// The number that hexadecimal digits spell.
pub open spec fn hex_value(s: Seq<char>) -> nat
    decreases s.len(),
{
    if s.len() == 0 {
        0
    } else {
        16 * hex_value(s.drop_last()) + hex_digit(s.last()) as nat
    }
}

/// A group of an IPv6 address: one to four hexadecimal digits.
pub open spec fn group_text(s: Seq<char>) -> bool {
    1 <= s.len() <= 4 && forall|i: int| 0 <= i < s.len() ==> hex_digit(#[trigger] s[i]) >= 0
}

/// The 16-bit groups that colon-separated pieces write: each piece a
/// group; the last piece may also be an IPv4 address (two groups) when
/// `v4_last` allows it.
pub open spec fn piece_groups(pieces: Seq<Seq<char>>, v4_last: bool) -> Option<Seq<u16>>
    decreases pieces.len(),
{
    if pieces.len() == 0 {
        Some(Seq::empty())
    } else {
        let last = pieces.last();
        match piece_groups(pieces.drop_last(), false) {
            None => None,
            Some(g) => if group_text(last) {
                Some(g.push(hex_value(last) as u16))
            } else if v4_last && ipv4_of(last) is Some {
                let o = ipv4_of(last).unwrap();
                Some(g.push((o[0] * 256 + o[1]) as u16).push((o[2] * 256 + o[3]) as u16))
            } else {
                None
            },
        }
    }
}

/// The index of the first `::` in `s` (-1 when there is none).
pub open spec fn find_double_colon(s: Seq<char>) -> int
    decreases s.len(),
{
    if s.len() < 2 {
        -1
    } else if s[0] == ':' && s[1] == ':' {
        0
    } else {
        let r = find_double_colon(s.drop_first());
        if r < 0 {
            -1
        } else {
            r + 1
        }
    }
}

/// The groups that a run of colon-separated groups writes (none for an
/// empty run).
pub open spec fn run_groups(s: Seq<char>, v4_last: bool) -> Option<Seq<u16>> {
    if s.len() == 0 {
        Some(Seq::empty())
    } else {
        piece_groups(split_on(s, ':'), v4_last)
    }
}

/// The IPv6 address that `s` writes, by its eight groups, as
/// `str::parse::<Ipv6Addr>` reads it: eight groups (the last two may be
/// written as an IPv4 address), or groups before and after one `::` that
/// stands for at least one zero group.
pub open spec fn ipv6_of(s: Seq<char>) -> Option<Seq<u16>> {
    let i = find_double_colon(s);
    if i < 0 {
        match piece_groups(split_on(s, ':'), true) {
            Some(g) => if g.len() == 8 {
                Some(g)
            } else {
                None
            },
            None => None,
        }
    } else {
        match (run_groups(s.take(i), false), run_groups(s.skip(i + 2), true)) {
            (Some(a), Some(b)) => if a.len() + b.len() <= 7 {
                Some(a + Seq::new((8 - a.len() - b.len()) as nat, |k: int| 0u16) + b)
            } else {
                None
            },
            _ => None,
        }
    }
}

proof fn lemma_find_double_colon(s: Seq<char>, i: int)
    requires
        0 <= i,
        i + 1 < s.len() ==> s[i] == ':' && s[i + 1] == ':',
        i + 1 >= s.len() ==> i == s.len(),
        forall|k: int| 0 <= k < i && k + 1 < s.len() ==> !(#[trigger] s[k] == ':' && s[k + 1] == ':'),
    ensures
        find_double_colon(s) == (if i + 1 < s.len() { i } else { -1 }),
    decreases s.len(),
{
    if s.len() >= 2 && i > 0 {
        let t = s.drop_first();
        assert forall|k: int| 0 <= k < i - 1 && k + 1 < t.len() implies !(#[trigger] t[k] == ':' && t[k + 1] == ':') by {
            assert(t[k] == s[k + 1] && t[k + 1] == s[k + 2]);
            assert(!(s[k + 1] == ':' && s[k + 2] == ':'));
        }
        assert(!(s[0] == ':' && s[1] == ':'));
        lemma_find_double_colon(t, i - 1);
    }
}

/// The value of a group of hexadecimal digits.
fn parse_group(s: &[char]) -> (r: Option<u16>)
    ensures
        r matches Some(v) ==> group_text(s@) && v == hex_value(s@),
        r is None ==> !group_text(s@),
{
    if s.len() == 0 || s.len() > 4 {
        return None;
    }
    let mut v: u32 = 0;
    let mut i: usize = 0;
    while i < s.len()
        invariant
            i <= s.len() <= 4,
            forall|k: int| 0 <= k < i ==> hex_digit(#[trigger] s@[k]) >= 0,
            v == hex_value(s@.take(i as int)),
            i == 0 ==> v == 0,
            i == 1 ==> v < 16,
            i == 2 ==> v < 256,
            i == 3 ==> v < 4096,
            i == 4 ==> v < 65536,
        decreases s.len() - i,
    {
        let c = s[i] as u32;
        let d: u32 = if 48 <= c && c <= 57 {
            c - 48
        } else if 97 <= c && c <= 102 {
            c - 87
        } else if 65 <= c && c <= 70 {
            c - 55
        } else {
            assert(hex_digit(s@[i as int]) < 0);
            return None;
        };
        assert(s@.take(i + 1).drop_last() =~= s@.take(i as int));
        v = v * 16 + d;
        i += 1;
    }
    assert(s@.take(s.len() as int) =~= s@);
    Some(v as u16)
}

/// Once a prefix of the pieces writes no groups, no longer prefix does.
proof fn lemma_piece_groups_none(p: Seq<Seq<char>>, j: int, b: bool)
    requires
        0 <= j <= p.len(),
        j < p.len() || !b,
        piece_groups(p.take(j), false) is None,
    ensures
        piece_groups(p, b) is None,
    decreases p.len() - j,
{
    if j == p.len() {
        assert(p.take(j) =~= p);
    } else {
        assert(p.drop_last().take(j) =~= p.take(j));
        lemma_piece_groups_none(p.drop_last(), j, false);
    }
}

/// The groups that colon-separated pieces write.
fn groups_of_pieces(pieces: &Vec<Vec<char>>, v4_last: bool) -> (r: Option<Vec<u16>>)
    ensures
        r matches Some(g) ==> piece_groups(pieces_view(pieces@), v4_last) == Some(g@),
        r is None ==> piece_groups(pieces_view(pieces@), v4_last) is None,
{
    let ghost pv = pieces_view(pieces@);
    let mut out: Vec<u16> = Vec::new();
    let mut i: usize = 0;
    assert(pv.take(0) =~= Seq::<Seq<char>>::empty());
    while i < pieces.len()
        invariant
            i <= pieces.len(),
            pv == pieces_view(pieces@),
            i < pieces.len() ==> piece_groups(pv.take(i as int), false) == Some(out@),
            i == pieces.len() ==> piece_groups(pv, v4_last) == Some(out@),
        decreases pieces.len() - i,
    {
        let last = i + 1 == pieces.len();
        let ghost flag = if last { v4_last } else { false };
        proof {
            assert(pv.take(i + 1).drop_last() =~= pv.take(i as int));
            assert(pv.take(i + 1).last() == pieces@[i as int]@);
            if last {
                assert(pv.take(i + 1) =~= pv);
            }
        }
        match parse_group(pieces[i].as_slice()) {
            Some(g) => {
                out.push(g);
            },
            None => {
                if last && v4_last {
                    let text = string_from_chars(pieces[i].as_slice());
                    assert(text@ == pv[i as int]);
                    match parse_ipv4(text.as_str()) {
                        Some(o) => {
                            let hi: u16 = (o[0] as u16) * 256 + (o[1] as u16);
                            let lo: u16 = (o[2] as u16) * 256 + (o[3] as u16);
                            out.push(hi);
                            out.push(lo);
                        },
                        None => {
                            return None;
                        },
                    }
                } else {
                    proof {
                        assert(piece_groups(pv.take(i + 1), false) is None);
                        lemma_piece_groups_none(pv, i + 1, v4_last);
                    }
                    return None;
                }
            },
        }
        i += 1;
        proof {
            if i < pieces.len() {
                assert(!last);
            }
        }
    }
    proof {
        if pieces.len() == 0 {
            assert(pv =~= Seq::<Seq<char>>::empty());
        }
    }
    Some(out)
}

/// The groups of a run of colon-separated groups.
fn run_groups_of(s: &[char], v4_last: bool) -> (r: Option<Vec<u16>>)
    ensures
        r matches Some(g) ==> run_groups(s@, v4_last) == Some(g@),
        r is None ==> run_groups(s@, v4_last) is None,
{
    if s.len() == 0 {
        return Some(Vec::new());
    }
    let pieces = split_chars(s, ':');
    groups_of_pieces(&pieces, v4_last)
}

/// Reads an IPv6 address the way `str::parse::<Ipv6Addr>` does.
pub fn parse_ipv6(host: &str) -> (r: Option<[u16; 8]>)
    ensures
        r matches Some(g) ==> ipv6_of(host@) == Some(g@),
        r is None ==> ipv6_of(host@) is None,
{
    let cs = chars_of(host);
    let n = cs.len();
    let mut i: usize = 0;
    while n > 0 && i < n - 1 && !(cs[i] == ':' && cs[i + 1] == ':')
        invariant
            n == cs.len(),
            cs@ == host@,
            i <= n,
            forall|k: int| 0 <= k < i && k + 1 < n ==> !(#[trigger] cs@[k] == ':' && cs@[k + 1] == ':'),
        decreases n - i,
    {
        i += 1;
    }
    let found = n > 0 && i < n - 1;
    let stop: usize = if found { i } else { n };
    proof {
        if !found {
            assert forall|k: int| 0 <= k < stop && k + 1 < n implies !(#[trigger] cs@[k] == ':' && cs@[k + 1] == ':') by {}
        }
        lemma_find_double_colon(host@, stop as int);
    }
    let mut out: [u16; 8] = [0u16; 8];
    if !found {
        let pieces = split_chars(cs.as_slice(), ':');
        match groups_of_pieces(&pieces, true) {
            Some(g) => {
                if g.len() != 8 {
                    return None;
                }
                let mut k: usize = 0;
                while k < 8
                    invariant
                        k <= 8,
                        g@.len() == 8,
                        forall|j: int| 0 <= j < k ==> out@[j] == g@[j],
                    decreases 8 - k,
                {
                    out[k] = g[k];
                    k += 1;
                }
                assert(out@ =~= g@);
                Some(out)
            },
            None => None,
        }
    } else {
        let head = slice_chars(cs.as_slice(), 0, i);
        let tail = slice_chars(cs.as_slice(), i + 2, n);
        assert(head@ =~= host@.take(i as int));
        assert(tail@ =~= host@.skip(i + 2));
        match (run_groups_of(head.as_slice(), false), run_groups_of(tail.as_slice(), true)) {
            (Some(a), Some(b)) => {
                if a.len() > 7 || b.len() > 7 - a.len() {
                    return None;
                }
                let ghost want = a@ + Seq::new((8 - a@.len() - b@.len()) as nat, |k: int| 0u16) + b@;
                let mut k: usize = 0;
                while k < a.len()
                    invariant
                        k <= a.len(),
                        a.len() + b.len() <= 7,
                        want == a@ + Seq::new((8 - a@.len() - b@.len()) as nat, |k: int| 0u16) + b@,
                        forall|j: int| 0 <= j < k ==> out@[j] == want[j],
                        forall|j: int| k <= j < 8 ==> out@[j] == 0,
                    decreases a.len() - k,
                {
                    out[k] = a[k];
                    k += 1;
                }
                let off: usize = 8 - b.len();
                let mut m: usize = 0;
                while m < b.len()
                    invariant
                        m <= b.len(),
                        a.len() + b.len() <= 7,
                        off == 8 - b.len(),
                        want == a@ + Seq::new((8 - a@.len() - b@.len()) as nat, |k: int| 0u16) + b@,
                        forall|j: int| 0 <= j < a.len() ==> out@[j] == want[j],
                        forall|j: int| a.len() <= j < off ==> out@[j] == 0,
                        forall|j: int| off <= j < off + m ==> out@[j] == want[j],
                        forall|j: int| off + m <= j < 8 ==> out@[j] == 0,
                    decreases b.len() - m,
                {
                    out[off + m] = b[m];
                    m += 1;
                }
                assert(out@ =~= want);
                Some(out)
            },
            _ => None,
        }
    }
}

// ---------------------------------------------------------------------------
// Which addresses are worth dialing
// ---------------------------------------------------------------------------
/// Whether an IPv4 address (by its octets) can carry a friend's dial: not
/// loopback (127/8), link-local (169.254/16) or unspecified, and not the
/// Hyper-V default switch (192.168.137/24).
pub open spec fn usable_v4_octets(o: Seq<u8>) -> bool {
    !(o[0] == 127 || (o[0] == 169 && o[1] == 254) || (o[0] == 0 && o[1] == 0 && o[2] == 0 && o[3] == 0))
        && !(o[0] == 192 && o[1] == 168 && o[2] == 137)
}

/// Whether an IPv4 address can carry a friend's dial.
pub fn usable_v4(o: [u8; 4]) -> (r: bool)
    ensures
        r == usable_v4_octets(o@),
{
    if o[0] == 127 || (o[0] == 169 && o[1] == 254) || (o[0] == 0 && o[1] == 0 && o[2] == 0 && o[3] == 0) {
        return false;
    }
    !(o[0] == 192 && o[1] == 168 && o[2] == 137)
}

/// Whether an IPv6 address (by its groups) can carry a friend's dial: not
/// loopback, multicast or unspecified, not unique-local (fc00::/7) nor
/// link-local (fe80::/10), and no Teredo (2001::/32) or 6to4 (2002::/16)
/// tunnel.
pub open spec fn usable_v6_groups(g: Seq<u16>) -> bool {
    let zero6 = g[0] == 0 && g[1] == 0 && g[2] == 0 && g[3] == 0 && g[4] == 0 && g[5] == 0 && g[6] == 0;
    &&& !(zero6 && g[7] == 1)
    &&& (g[0] & 0xff00u16) != 0xff00u16
    &&& !(zero6 && g[7] == 0)
    &&& (g[0] & 0xfe00u16) != 0xfc00u16
    &&& (g[0] & 0xffc0u16) != 0xfe80u16
    &&& !(g[0] == 0x2001 && g[1] == 0)
    &&& g[0] != 0x2002
}

/// Whether an IPv6 address can carry a friend's dial.
pub fn usable_v6(g: [u16; 8]) -> (r: bool)
    ensures
        r == usable_v6_groups(g@),
{
    let zero6 = g[0] == 0 && g[1] == 0 && g[2] == 0 && g[3] == 0 && g[4] == 0 && g[5] == 0 && g[6] == 0;
    if zero6 && g[7] == 1 {
        return false;
    }
    if (g[0] & 0xff00u16) == 0xff00u16 {
        return false;
    }
    if zero6 && g[7] == 0 {
        return false;
    }
    if (g[0] & 0xfe00u16) == 0xfc00u16 {
        return false;
    }
    if (g[0] & 0xffc0u16) == 0xfe80u16 {
        return false;
    }
    if g[0] == 0x2001 && g[1] == 0 {
        return false;
    }
    g[0] != 0x2002
}

/// Whether an IPv4 address lies in the shared address space 100.64/10
/// (carrier-grade NAT, and Tailscale).
pub fn is_cgnat_v4(o: [u8; 4]) -> (r: bool)
    ensures
        r == (o@[0] == 100 && 64 <= o@[1] < 128),
{
    o[0] == 100 && 64 <= o[1] && o[1] < 128
}

/// Whether two IPv4 addresses sit on the same home network: the same
/// 10.x/16, 192.168.x/24 or 172.16-31.x.y/24 block, or the same address.
pub open spec fn same_lan(a: Seq<u8>, b: Seq<u8>) -> bool {
    if a[0] == 10 && b[0] == 10 {
        a[1] == b[1]
    } else if a[0] == 192 && a[1] == 168 && b[0] == 192 && b[1] == 168 {
        a[2] == b[2]
    } else if a[0] == 172 && 16 <= a[1] <= 31 && b[0] == 172 && 16 <= b[1] <= 31 {
        a[1] == b[1] && a[2] == b[2]
    } else {
        a == b
    }
}

/// Whether two IPv4 addresses sit on the same home network.
pub fn same_home_lan(a: [u8; 4], b: [u8; 4]) -> (r: bool)
    ensures
        r == same_lan(a@, b@),
{
    if a[0] == 10 && b[0] == 10 {
        return a[1] == b[1];
    }
    if a[0] == 192 && a[1] == 168 && b[0] == 192 && b[1] == 168 {
        return a[2] == b[2];
    }
    if a[0] == 172 && 16 <= a[1] && a[1] <= 31 && b[0] == 172 && 16 <= b[1] && b[1] <= 31 {
        return a[1] == b[1] && a[2] == b[2];
    }
    let r = a[0] == b[0] && a[1] == b[1] && a[2] == b[2] && a[3] == b[3];
    assert(r == (a@ == b@)) by {
        if r {
            assert(a@ =~= b@);
        }
    }
    r
}

/// Whether an IPv4 address belongs to a mesh VPN people run beside the
/// app: Hamachi (25/8), Radmin VPN (26/8), or 100.64/10 (Tailscale).
pub open spec fn mesh_v4(o: Seq<u8>) -> bool {
    o[0] == 25 || o[0] == 26 || (o[0] == 100 && 64 <= o[1] < 128)
}

/// Whether an IPv4 address belongs to a mesh VPN.
pub fn is_mesh_vpn_v4(o: [u8; 4]) -> (r: bool)
    ensures
        r == mesh_v4(o@),
{
    if o[0] == 25 {
        return true;
    }
    if o[0] == 26 {
        return true;
    }
    is_cgnat_v4(o)
}

/// Whether a host is an address of a private network: a private IPv4
/// address (10/8, 172.16/12, 192.168/16) or a link-local one
/// (169.254/16), or a unique-local IPv6 address (fc00::/7).
pub open spec fn private_host(host: Seq<char>) -> bool {
    match ipv4_of(host) {
        Some(o) => o[0] == 10 || (o[0] == 172 && 16 <= o[1] <= 31) || (o[0] == 192 && o[1] == 168) || (o[0] == 169 && o[1] == 254),
        None => match ipv6_of(host) {
            Some(g) => (g[0] & 0xfe00u16) == 0xfc00u16,
            None => false,
        },
    }
}

/// Whether a host is an address of a private network.
pub fn is_private_host(host: &str) -> (r: bool)
    ensures
        r == private_host(host@),
{
    match parse_ipv4(host) {
        Some(o) => o[0] == 10 || (o[0] == 172 && 16 <= o[1] && o[1] <= 31) || (o[0] == 192 && o[1] == 168) || (o[0] == 169 && o[1] == 254),
        None => match parse_ipv6(host) {
            Some(g) => (g[0] & 0xfe00u16) == 0xfc00u16,
            None => false,
        },
    }
}

/// Whether a host is the IPv4 address of a mesh VPN.
pub open spec fn mesh_host(host: Seq<char>) -> bool {
    match ipv4_of(host) {
        Some(o) => mesh_v4(o),
        None => false,
    }
}

/// Whether a host is the IPv4 address of a mesh VPN.
pub fn is_mesh_vpn_host(host: &str) -> (r: bool)
    ensures
        r == mesh_host(host@),
{
    match parse_ipv4(host) {
        Some(o) => is_mesh_vpn_v4(o),
        None => false,
    }
}

/// Whether a URL is worth dialing: a `ws://` URL whose host is loopback, or
/// a usable IPv4 or IPv6 address (names are never dialed).
pub open spec fn dial_ok(url: Seq<char>) -> bool {
    match ws_host_port(url) {
        None => false,
        Some(hp) => if loopback_host(hp.0) {
            true
        } else {
            match ipv4_of(hp.0) {
                Some(o) => usable_v4_octets(o),
                None => match ipv6_of(hp.0) {
                    Some(g) => usable_v6_groups(g),
                    None => false,
                },
            }
        },
    }
}

/// Whether a URL is worth dialing.
pub fn should_dial(url: &str) -> (r: bool)
    ensures
        r == dial_ok(url@),
{
    let (host, _) = match parse_ws(url) {
        Some(hp) => hp,
        None => {
            return false;
        },
    };
    if is_loopback_host(host.as_str()) {
        return true;
    }
    match parse_ipv4(host.as_str()) {
        Some(o) => usable_v4(o),
        None => match parse_ipv6(host.as_str()) {
            Some(g) => usable_v6(g),
            None => false,
        },
    }
}

// ---------------------------------------------------------------------------
// Lists of URLs
// ---------------------------------------------------------------------------
/// Whether a URL is a `ws://` URL whose host is not loopback.
pub open spec fn non_loopback_url(u: Seq<char>) -> bool {
    match ws_host_port(u) {
        Some(hp) => !loopback_host(hp.0),
        None => false,
    }
}

/// The URLs whose host is not loopback, in order.
pub open spec fn non_loopback_urls(s: Seq<Seq<char>>) -> Seq<Seq<char>>
    decreases s.len(),
{
    if s.len() == 0 {
        s
    } else if non_loopback_url(s.last()) {
        non_loopback_urls(s.drop_last()).push(s.last())
    } else {
        non_loopback_urls(s.drop_last())
    }
}

/// The URLs whose host is not loopback, or all of them when every one is.
pub open spec fn prefer_non_loopback_of(s: Seq<Seq<char>>) -> Seq<Seq<char>> {
    if non_loopback_urls(s).len() == 0 {
        s
    } else {
        non_loopback_urls(s)
    }
}

/// Keeps the URLs whose host is not loopback, unless that leaves none: a
/// loopback URL is only worth giving out when there is nothing else.
pub fn prefer_non_loopback(urls: Vec<String>) -> (r: Vec<String>)
    ensures
        strings_view(r@) == prefer_non_loopback_of(strings_view(urls@)),
{
    let ghost uv = strings_view(urls@);
    let mut lan: Vec<String> = Vec::new();
    let mut i: usize = 0;
    while i < urls.len()
        invariant
            i <= urls.len(),
            uv == strings_view(urls@),
            strings_view(lan@) == non_loopback_urls(uv.take(i as int)),
        decreases urls.len() - i,
    {
        assert(uv.take(i + 1).drop_last() =~= uv.take(i as int));
        assert(uv.take(i + 1).last() == urls@[i as int]@);
        let keep = match parse_ws(urls[i].as_str()) {
            Some(hp) => !is_loopback_host(hp.0.as_str()),
            None => false,
        };
        if keep {
            let ghost before = strings_view(lan@);
            lan.push(urls[i].clone());
            assert(strings_view(lan@) =~= before.push(urls@[i as int]@));
        }
        i += 1;
    }
    assert(uv.take(urls.len() as int) =~= uv);
    if lan.len() == 0 {
        urls
    } else {
        lan
    }
}

/// Whether a URL's host is on a private network.
pub open spec fn lan_url(u: Seq<char>) -> bool {
    match ws_host_port(u) {
        Some(hp) => private_host(hp.0),
        None => false,
    }
}

/// Whether a URL's host is on a mesh VPN (and not a private network).
pub open spec fn mesh_url(u: Seq<char>) -> bool {
    match ws_host_port(u) {
        Some(hp) => !private_host(hp.0) && mesh_host(hp.0),
        None => false,
    }
}

/// The URLs on a private network, in order.
pub open spec fn lan_urls(s: Seq<Seq<char>>) -> Seq<Seq<char>>
    decreases s.len(),
{
    if s.len() == 0 {
        s
    } else if lan_url(s.last()) {
        lan_urls(s.drop_last()).push(s.last())
    } else {
        lan_urls(s.drop_last())
    }
}

/// The URLs on a mesh VPN, in order.
pub open spec fn mesh_urls(s: Seq<Seq<char>>) -> Seq<Seq<char>>
    decreases s.len(),
{
    if s.len() == 0 {
        s
    } else if mesh_url(s.last()) {
        mesh_urls(s.drop_last()).push(s.last())
    } else {
        mesh_urls(s.drop_last())
    }
}

/// Orders URLs home network first, then mesh VPN; public and unknown
/// hosts are dropped, as invites never carry them.
pub fn prefer_reachability_order(urls: Vec<String>) -> (r: Vec<String>)
    ensures
        strings_view(r@) == lan_urls(strings_view(urls@)) + mesh_urls(strings_view(urls@)),
{
    let ghost uv = strings_view(urls@);
    let mut lan: Vec<String> = Vec::new();
    let mut mesh: Vec<String> = Vec::new();
    let mut i: usize = 0;
    while i < urls.len()
        invariant
            i <= urls.len(),
            uv == strings_view(urls@),
            strings_view(lan@) == lan_urls(uv.take(i as int)),
            strings_view(mesh@) == mesh_urls(uv.take(i as int)),
        decreases urls.len() - i,
    {
        assert(uv.take(i + 1).drop_last() =~= uv.take(i as int));
        assert(uv.take(i + 1).last() == urls@[i as int]@);
        match parse_ws(urls[i].as_str()) {
            Some(hp) => {
                if is_private_host(hp.0.as_str()) {
                    let ghost before = strings_view(lan@);
                    lan.push(urls[i].clone());
                    assert(strings_view(lan@) =~= before.push(urls@[i as int]@));
                } else if is_mesh_vpn_host(hp.0.as_str()) {
                    let ghost before = strings_view(mesh@);
                    mesh.push(urls[i].clone());
                    assert(strings_view(mesh@) =~= before.push(urls@[i as int]@));
                }
            },
            None => {},
        }
        i += 1;
    }
    assert(uv.take(urls.len() as int) =~= uv);
    let ghost l0 = strings_view(lan@);
    let mut k: usize = 0;
    while k < mesh.len()
        invariant
            k <= mesh.len(),
            strings_view(lan@) == l0 + strings_view(mesh@).take(k as int),
        decreases mesh.len() - k,
    {
        let ghost before = strings_view(lan@);
        lan.push(mesh[k].clone());
        assert(strings_view(lan@) =~= before.push(mesh@[k as int]@));
        assert(strings_view(mesh@).take(k + 1) =~= strings_view(mesh@).take(k as int).push(mesh@[k as int]@));
        assert(strings_view(lan@) =~= l0 + strings_view(mesh@).take(k + 1));
        k += 1;
    }
    assert(strings_view(mesh@).take(mesh.len() as int) =~= strings_view(mesh@));
    lan
}

/// URLs trimmed, without empty ones and repeats, in first-seen order.
pub open spec fn unique_trimmed(s: Seq<Seq<char>>) -> Seq<Seq<char>>
    decreases s.len(),
{
    if s.len() == 0 {
        s
    } else {
        let r = unique_trimmed(s.drop_last());
        let t = trim_seq(s.last());
        if t.len() == 0 || r.contains(t) {
            r
        } else {
            r.push(t)
        }
    }
}

/// Whether a list of strings holds `x`.
fn holds_string(v: &Vec<String>, x: &str) -> (r: bool)
    ensures
        r == strings_view(v@).contains(x@),
{
    let mut i: usize = 0;
    while i < v.len()
        invariant
            i <= v.len(),
            forall|k: int| 0 <= k < i ==> v@[k]@ != x@,
        decreases v.len() - i,
    {
        if str_eq(v[i].as_str(), x) {
            assert(strings_view(v@)[i as int] == x@);
            return true;
        }
        i += 1;
    }
    proof {
        if strings_view(v@).contains(x@) {
            let k = choose|k: int| 0 <= k < strings_view(v@).len() && strings_view(v@)[k] == x@;
            assert(v@[k]@ == x@);
        }
    }
    false
}

/// The URLs trimmed, without empty ones and repeats.
pub fn unique_urls(urls: &[String]) -> (r: Vec<String>)
    ensures
        strings_view(r@) == unique_trimmed(strings_view(urls@)),
{
    let ghost uv = strings_view(urls@);
    let mut out: Vec<String> = Vec::new();
    let mut i: usize = 0;
    while i < urls.len()
        invariant
            i <= urls.len(),
            uv == strings_view(urls@),
            strings_view(out@) == unique_trimmed(uv.take(i as int)),
        decreases urls.len() - i,
    {
        assert(uv.take(i + 1).drop_last() =~= uv.take(i as int));
        assert(uv.take(i + 1).last() == urls@[i as int]@);
        let t = trim_string(urls[i].as_str());
        if !t.as_str().is_empty() && !holds_string(&out, t.as_str()) {
            let ghost before = strings_view(out@);
            out.push(t);
            assert(strings_view(out@) =~= before.push(trim_seq(urls@[i as int]@)));
        }
        i += 1;
    }
    assert(uv.take(urls.len() as int) =~= uv);
    out
}

/// Whether a URL may go in an invite: worth dialing, and its host on a
/// private network or a mesh VPN (never loopback, never a public address).
pub open spec fn invitable_url(u: Seq<char>) -> bool {
    dial_ok(u) && match ws_host_port(u) {
        Some(hp) => !loopback_host(hp.0) && (private_host(hp.0) || mesh_host(hp.0)),
        None => false,
    }
}

/// The URLs that may go in an invite, in order.
pub open spec fn invitable_urls(s: Seq<Seq<char>>) -> Seq<Seq<char>>
    decreases s.len(),
{
    if s.len() == 0 {
        s
    } else if invitable_url(s.last()) {
        invitable_urls(s.drop_last()).push(s.last())
    } else {
        invitable_urls(s.drop_last())
    }
}

/// The peer URLs an invite carries: this node's own listening URLs that
/// may go in an invite, home network first, then mesh VPN, at most three.
pub open spec fn invite_peers_of(listen_urls: Seq<Seq<char>>, listen_url: Seq<char>) -> Seq<Seq<char>> {
    let own = invitable_urls(unique_trimmed(listen_urls.push(listen_url)));
    let kept = prefer_non_loopback_of(own);
    let peers = lan_urls(kept) + mesh_urls(kept);
    if peers.len() <= 3 {
        peers
    } else {
        peers.take(3)
    }
}

/// The peer URLs to put in an invite (loopback would make a friend dial
/// itself; a public address is never given out).
pub fn invite_peer_list(listen_urls: &[String], listen_url: &str) -> (r: Vec<String>)
    ensures
        strings_view(r@) == invite_peers_of(strings_view(listen_urls@), listen_url@),
{
    let mut all: Vec<String> = Vec::new();
    let mut i: usize = 0;
    while i < listen_urls.len()
        invariant
            i <= listen_urls.len(),
            strings_view(all@) == strings_view(listen_urls@).take(i as int),
        decreases listen_urls.len() - i,
    {
        let ghost before = strings_view(all@);
        let c = listen_urls[i].clone();
        all.push(c);
        assert(strings_view(all@) =~= before.push(listen_urls@[i as int]@));
        assert(strings_view(listen_urls@).take(i + 1) =~= strings_view(listen_urls@).take(i as int).push(listen_urls@[i as int]@));
        assert(strings_view(all@) =~= strings_view(listen_urls@).take(i + 1));
        i += 1;
    }
    let ghost lv = strings_view(listen_urls@);
    assert(lv.take(listen_urls.len() as int) =~= lv);
    all.push(listen_url.to_owned());
    assert(strings_view(all@) =~= lv.push(listen_url@));
    let uniq = unique_urls(all.as_slice());
    let ghost uv = strings_view(uniq@);
    let mut own: Vec<String> = Vec::new();
    let mut k: usize = 0;
    while k < uniq.len()
        invariant
            k <= uniq.len(),
            uv == strings_view(uniq@),
            strings_view(own@) == invitable_urls(uv.take(k as int)),
        decreases uniq.len() - k,
    {
        assert(uv.take(k + 1).drop_last() =~= uv.take(k as int));
        assert(uv.take(k + 1).last() == uniq@[k as int]@);
        let ok = should_dial(uniq[k].as_str()) && match parse_ws(uniq[k].as_str()) {
            Some(hp) => !is_loopback_host(hp.0.as_str()) && (is_private_host(hp.0.as_str()) || is_mesh_vpn_host(hp.0.as_str())),
            None => false,
        };
        if ok {
            let ghost before = strings_view(own@);
            own.push(uniq[k].clone());
            assert(strings_view(own@) =~= before.push(uniq@[k as int]@));
        }
        k += 1;
    }
    assert(uv.take(uniq.len() as int) =~= uv);
    let mut peers = prefer_reachability_order(prefer_non_loopback(own));
    if peers.len() > 3 {
        peers.truncate(3);
        assert(strings_view(peers@) =~= (lan_urls(prefer_non_loopback_of(invitable_urls(uv))) + mesh_urls(prefer_non_loopback_of(invitable_urls(uv)))).take(3));
    }
    peers
}

/// Whether `u` is a `ws://` URL with host `host`.
pub open spec fn url_host_is(u: Seq<char>, host: Seq<char>) -> bool {
    match ws_host_port(u) {
        Some(hp) => hp.0 == host,
        None => false,
    }
}

/// Whether a URL reaches this node itself: one of its own listening URLs,
/// or its listening port on loopback or on one of its own hosts.
pub open spec fn self_url(listen_url: Seq<char>, listen_urls: Seq<Seq<char>>, listen_port: u16, url: Seq<char>) -> bool {
    if url == listen_url || listen_urls.contains(url) {
        true
    } else {
        match ws_host_port(url) {
            None => false,
            Some(hp) => listen_port != 0 && hp.1 == listen_port && (loopback_host(hp.0) || exists|i: int|
                0 <= i < listen_urls.len() && #[trigger] url_host_is(listen_urls[i], hp.0)),
        }
    }
}

/// Whether a URL reaches this node itself.
pub fn is_self_url(listen_url: &str, listen_urls: &Vec<String>, listen_port: u16, url: &str) -> (r: bool)
    ensures
        r == self_url(listen_url@, strings_view(listen_urls@), listen_port, url@),
{
    if str_eq(url, listen_url) || holds_string(listen_urls, url) {
        return true;
    }
    let (host, port) = match parse_ws(url) {
        Some(hp) => hp,
        None => {
            return false;
        },
    };
    if listen_port == 0 || port != listen_port {
        return false;
    }
    if is_loopback_host(host.as_str()) {
        return true;
    }
    let ghost lv = strings_view(listen_urls@);
    let mut i: usize = 0;
    while i < listen_urls.len()
        invariant
            i <= listen_urls.len(),
            lv == strings_view(listen_urls@),
            ws_host_port(url@) == Some((host@, port as nat)),
            listen_port != 0,
            port == listen_port,
            url@ != listen_url@,
            !lv.contains(url@),
            !loopback_host(host@),
            forall|k: int| 0 <= k < i ==> !#[trigger] url_host_is(lv[k], host@),
        decreases listen_urls.len() - i,
    {
        assert(lv[i as int] == listen_urls@[i as int]@);
        match parse_ws(listen_urls[i].as_str()) {
            Some(hp) => {
                if str_eq(hp.0.as_str(), host.as_str()) {
                    assert(url_host_is(lv[i as int], host@));
                    assert(ws_host_port(url@) == Some((host@, port as nat)));
                    assert(exists|k: int| 0 <= k < lv.len() && #[trigger] url_host_is(lv[k], host@));
                    return true;
                }
            },
            None => {},
        }
        i += 1;
    }
    false
}

/// Whether a URL from an invite is worth dialing from this node: a
/// `ws://` or `wss://` URL, not this node itself, and worth dialing.
pub open spec fn inviter_url_ok(listen_url: Seq<char>, listen_urls: Seq<Seq<char>>, listen_port: u16, u: Seq<char>) -> bool {
    (has_prefix(u, "ws://"@) || has_prefix(u, "wss://"@)) && !self_url(listen_url, listen_urls, listen_port, u) && dial_ok(u)
}

/// The URLs of `s` worth dialing from this node, in order.
pub open spec fn inviter_urls(listen_url: Seq<char>, listen_urls: Seq<Seq<char>>, listen_port: u16, s: Seq<Seq<char>>) -> Seq<Seq<char>>
    decreases s.len(),
{
    if s.len() == 0 {
        s
    } else if inviter_url_ok(listen_url, listen_urls, listen_port, s.last()) {
        inviter_urls(listen_url, listen_urls, listen_port, s.drop_last()).push(s.last())
    } else {
        inviter_urls(listen_url, listen_urls, listen_port, s.drop_last())
    }
}

/// The URLs of an invite to dial from this node: trimmed and without
/// repeats, worth dialing, not this node itself, loopback only when
/// nothing else is left.
pub fn inviter_dial_urls(listen_url: &str, listen_urls: &Vec<String>, listen_port: u16, urls: &[String]) -> (r: Vec<String>)
    ensures
        strings_view(r@) == prefer_non_loopback_of(
            inviter_urls(listen_url@, strings_view(listen_urls@), listen_port, unique_trimmed(strings_view(urls@))),
        ),
{
    let uniq = unique_urls(urls);
    let ghost uv = strings_view(uniq@);
    let ghost lv = strings_view(listen_urls@);
    let mut usable: Vec<String> = Vec::new();
    let mut k: usize = 0;
    while k < uniq.len()
        invariant
            k <= uniq.len(),
            uv == strings_view(uniq@),
            lv == strings_view(listen_urls@),
            strings_view(usable@) == inviter_urls(listen_url@, lv, listen_port, uv.take(k as int)),
        decreases uniq.len() - k,
    {
        assert(uv.take(k + 1).drop_last() =~= uv.take(k as int));
        assert(uv.take(k + 1).last() == uniq@[k as int]@);
        let u = uniq[k].as_str();
        let ok = (starts_with(u, "ws://") || starts_with(u, "wss://")) && !is_self_url(listen_url, listen_urls, listen_port, u) && should_dial(u);
        if ok {
            let ghost before = strings_view(usable@);
            usable.push(uniq[k].clone());
            assert(strings_view(usable@) =~= before.push(uniq@[k as int]@));
        }
        k += 1;
    }
    assert(uv.take(uniq.len() as int) =~= uv);
    prefer_non_loopback(usable)
}

// ---------------------------------------------------------------------------
// This node's own URLs
// ---------------------------------------------------------------------------
/// `a.b.c.d` for an IPv4 address.
pub open spec fn v4_text(o: Seq<u8>) -> Seq<char> {
    decimal(o[0] as nat) + "."@ + decimal(o[1] as nat) + "."@ + decimal(o[2] as nat) + "."@ + decimal(o[3] as nat)
}

/// `ws://host:port`.
pub open spec fn ws_url_of(host: Seq<char>, port: u16) -> Seq<char> {
    "ws://"@ + host + ":"@ + decimal(port as nat)
}

/// The list with `u` added at the end unless it holds it already.
pub open spec fn with_new(list: Seq<Seq<char>>, u: Seq<char>) -> Seq<Seq<char>> {
    if list.contains(u) {
        list
    } else {
        list.push(u)
    }
}

/// The URL a forced host stands for: itself when it is a URL already,
/// else `ws://host:port`.
pub open spec fn forced_url(f: Seq<char>, port: u16) -> Seq<char> {
    if has_prefix(f, "ws://"@) || has_prefix(f, "wss://"@) {
        f
    } else {
        ws_url_of(f, port)
    }
}

/// The list with the URL of each IPv4 address added.
pub open spec fn with_v4_urls(list: Seq<Seq<char>>, v4s: Seq<[u8; 4]>, port: u16) -> Seq<Seq<char>>
    decreases v4s.len(),
{
    if v4s.len() == 0 {
        list
    } else {
        with_new(with_v4_urls(list, v4s.drop_last(), port), ws_url_of(v4_text(v4s.last()@), port))
    }
}

/// The list with the URL of each IPv6 host (as text) added, in brackets.
pub open spec fn with_v6_urls(list: Seq<Seq<char>>, hosts: Seq<Seq<char>>, port: u16) -> Seq<Seq<char>>
    decreases hosts.len(),
{
    if hosts.len() == 0 {
        list
    } else {
        with_new(with_v6_urls(list, hosts.drop_last(), port), ws_url_of("["@ + hosts.last() + "]"@, port))
    }
}

/// The URLs this node listens on, for `port`: loopback first, then a host
/// forced by the user, then each usable IPv4 and IPv6 address.
pub open spec fn advertised(port: u16, forced: Option<Seq<char>>, v4s: Seq<[u8; 4]>, v6_hosts: Seq<Seq<char>>) -> Seq<Seq<char>> {
    let base = seq![ws_url_of("127.0.0.1"@, port)];
    let with_forced = match forced {
        Some(f) => if f.len() > 0 {
            with_new(base, forced_url(f, port))
        } else {
            base
        },
        None => base,
    };
    with_v6_urls(with_v4_urls(with_forced, v4s, port), v6_hosts, port)
}

/// An optional text, by its characters.
pub open spec fn text_option(t: Option<&str>) -> Option<Seq<char>> {
    match t {
        Some(s) => Some(s@),
        None => None,
    }
}

/// `ws://host:port`.
fn make_ws_url(host: &str, port: u16) -> (r: String)
    ensures
        r@ == ws_url_of(host@, port),
{
    let mut out = String::new();
    append_str(&mut out, "ws://");
    append_str(&mut out, host);
    push_char(&mut out, ':');
    let digits = decimal_chars(port as u64);
    let d = string_from_chars(digits.as_slice());
    append_str(&mut out, d.as_str());
    proof {
        reveal_strlit("ws://");
        reveal_strlit(":");
        assert(out@ =~= ws_url_of(host@, port));
    }
    out
}

/// `a.b.c.d` for an IPv4 address.
fn v4_string(o: [u8; 4]) -> (r: String)
    ensures
        r@ == v4_text(o@),
{
    let mut out = String::new();
    let mut k: usize = 0;
    while k < 4
        invariant
            k <= 4,
            k == 0 ==> out@ == Seq::<char>::empty(),
            k == 1 ==> out@ == decimal(o@[0] as nat),
            k == 2 ==> out@ == decimal(o@[0] as nat) + "."@ + decimal(o@[1] as nat),
            k == 3 ==> out@ == decimal(o@[0] as nat) + "."@ + decimal(o@[1] as nat) + "."@ + decimal(o@[2] as nat),
            k == 4 ==> out@ == v4_text(o@),
        decreases 4 - k,
    {
        let ghost before = out@;
        if k > 0 {
            push_char(&mut out, '.');
        }
        let digits = decimal_chars(o[k] as u64);
        let d = string_from_chars(digits.as_slice());
        append_str(&mut out, d.as_str());
        proof {
            reveal_strlit(".");
            if k == 0 {
                assert(out@ =~= decimal(o@[0] as nat));
            } else {
                assert(out@ =~= before + "."@ + decimal(o@[k as int] as nat));
            }
        }
        k += 1;
    }
    out
}

/// Adds `u` to `list` unless it holds it already.
fn push_new(list: &mut Vec<String>, u: String)
    ensures
        strings_view(final(list)@) == with_new(strings_view(old(list)@), u@),
{
    if !holds_string(list, u.as_str()) {
        let ghost before = strings_view(list@);
        let ghost uv = u@;
        list.push(u);
        assert(strings_view(list@) =~= before.push(uv));
    }
}

/// The URLs this node listens on, for `port`: loopback first, then the
/// forced host if any, then each usable LAN address (IPv6 hosts as text).
pub fn advertise_urls(port: u16, forced: Option<&str>, v4s: &[[u8; 4]], v6_hosts: &[String]) -> (r: Vec<String>)
    ensures
        strings_view(r@) == advertised(port, text_option(forced), v4s@, strings_view(v6_hosts@)),
{
    let mut urls: Vec<String> = Vec::new();
    urls.push(make_ws_url("127.0.0.1", port));
    let ghost base = seq![ws_url_of("127.0.0.1"@, port)];
    assert(strings_view(urls@) =~= base);
    match forced {
        Some(f) => {
            if !f.is_empty() {
                let url = if starts_with(f, "ws://") || starts_with(f, "wss://") {
                    f.to_owned()
                } else {
                    make_ws_url(f, port)
                };
                push_new(&mut urls, url);
            }
        },
        None => {},
    }
    let ghost start = strings_view(urls@);
    let mut i: usize = 0;
    while i < v4s.len()
        invariant
            i <= v4s.len(),
            strings_view(urls@) == with_v4_urls(start, v4s@.take(i as int), port),
        decreases v4s.len() - i,
    {
        assert(v4s@.take(i + 1).drop_last() =~= v4s@.take(i as int));
        assert(v4s@.take(i + 1).last() == v4s@[i as int]);
        let text = v4_string(v4s[i]);
        let url = make_ws_url(text.as_str(), port);
        push_new(&mut urls, url);
        i += 1;
    }
    assert(v4s@.take(v4s.len() as int) =~= v4s@);
    let ghost mid = strings_view(urls@);
    let ghost hv = strings_view(v6_hosts@);
    let mut j: usize = 0;
    while j < v6_hosts.len()
        invariant
            j <= v6_hosts.len(),
            hv == strings_view(v6_hosts@),
            strings_view(urls@) == with_v6_urls(mid, hv.take(j as int), port),
        decreases v6_hosts.len() - j,
    {
        assert(hv.take(j + 1).drop_last() =~= hv.take(j as int));
        assert(hv.take(j + 1).last() == v6_hosts@[j as int]@);
        let mut host = String::new();
        push_char(&mut host, '[');
        append_str(&mut host, v6_hosts[j].as_str());
        push_char(&mut host, ']');
        proof {
            reveal_strlit("[");
            reveal_strlit("]");
            assert(host@ =~= "["@ + v6_hosts@[j as int]@ + "]"@);
        }
        let url = make_ws_url(host.as_str(), port);
        push_new(&mut urls, url);
        j += 1;
    }
    assert(hv.take(v6_hosts.len() as int) =~= hv);
    urls
}

/// Whether a URL a peer gave in its hello is worth dialing from this node:
/// worth dialing, and not this node itself.
pub open spec fn hello_url_ok(listen_url: Seq<char>, listen_urls: Seq<Seq<char>>, listen_port: u16, u: Seq<char>) -> bool {
    dial_ok(u) && !self_url(listen_url, listen_urls, listen_port, u)
}

/// The URLs of `s` worth dialing after a hello, in order.
pub open spec fn hello_urls(listen_url: Seq<char>, listen_urls: Seq<Seq<char>>, listen_port: u16, s: Seq<Seq<char>>) -> Seq<Seq<char>>
    decreases s.len(),
{
    if s.len() == 0 {
        s
    } else if hello_url_ok(listen_url, listen_urls, listen_port, s.last()) {
        hello_urls(listen_url, listen_urls, listen_port, s.drop_last()).push(s.last())
    } else {
        hello_urls(listen_url, listen_urls, listen_port, s.drop_last())
    }
}

/// The URLs to dial after a peer's hello: its listening URL and the other
/// URLs it gave, trimmed and without repeats, worth dialing and not this
/// node itself.
pub fn hello_dial_urls(listen_url: &str, listen_urls: &Vec<String>, listen_port: u16, their_listen: &str, their_urls: &[String]) -> (r: Vec<String>)
    ensures
        strings_view(r@) == hello_urls(
            listen_url@,
            strings_view(listen_urls@),
            listen_port,
            unique_trimmed(seq![their_listen@] + strings_view(their_urls@)),
        ),
{
    let mut all: Vec<String> = Vec::new();
    all.push(their_listen.to_owned());
    let mut i: usize = 0;
    while i < their_urls.len()
        invariant
            i <= their_urls.len(),
            strings_view(all@) == seq![their_listen@] + strings_view(their_urls@).take(i as int),
        decreases their_urls.len() - i,
    {
        let ghost before = strings_view(all@);
        let c = their_urls[i].clone();
        all.push(c);
        assert(strings_view(all@) =~= before.push(their_urls@[i as int]@));
        assert(strings_view(their_urls@).take(i + 1) =~= strings_view(their_urls@).take(i as int).push(their_urls@[i as int]@));
        i += 1;
    }
    assert(strings_view(their_urls@).take(their_urls.len() as int) =~= strings_view(their_urls@));
    let uniq = unique_urls(all.as_slice());
    let ghost uv = strings_view(uniq@);
    let ghost lv = strings_view(listen_urls@);
    let mut out: Vec<String> = Vec::new();
    let mut k: usize = 0;
    while k < uniq.len()
        invariant
            k <= uniq.len(),
            uv == strings_view(uniq@),
            lv == strings_view(listen_urls@),
            strings_view(out@) == hello_urls(listen_url@, lv, listen_port, uv.take(k as int)),
        decreases uniq.len() - k,
    {
        assert(uv.take(k + 1).drop_last() =~= uv.take(k as int));
        assert(uv.take(k + 1).last() == uniq@[k as int]@);
        let u = uniq[k].as_str();
        if should_dial(u) && !is_self_url(listen_url, listen_urls, listen_port, u) {
            let ghost before = strings_view(out@);
            out.push(uniq[k].clone());
            assert(strings_view(out@) =~= before.push(uniq@[k as int]@));
        }
        k += 1;
    }
    assert(uv.take(uniq.len() as int) =~= uv);
    out
}

} // verus!
