//! The per-community erasure archive: the encrypted history is split into
//! Reed-Solomon shards, each member holds some of them, and the rules below
//! decide who holds what, what to fetch, and what to hand over on leaving.
use vstd::prelude::*;
use crate::text::{
    lemma_seq_lt_asymmetric, lemma_seq_lt_irreflexive, lemma_seq_lt_total,
    lemma_seq_lt_transitive, seq_lt, str_less, trim_seq, trim_string,
};
use crate::relay::strings_view;
use crate::encoding::{hex_chars, hex_encode, lemma_hex_chars_len, sha256, sha256_digest};
use crate::text::{chars_of, str_eq, string_from_chars};

verus! {

/// Shards that carry the archive itself.
pub const DATA_SHARDS: usize = 4;

/// Shards that carry Reed-Solomon parity.
pub const PARITY_SHARDS: usize = 2;

/// All shards of an archive.
pub const TOTAL_SHARDS: usize = DATA_SHARDS + PARITY_SHARDS;

/// How many online copies of each shard the swarm aims for.
pub const MIN_ONLINE_REPLICAS: usize = 2;

// ---------------------------------------------------------------------------
// Shard layout
// ---------------------------------------------------------------------------
/// A 32-bit integer, most significant byte first.
pub open spec fn be32(v: u32) -> Seq<u8> {
    seq![(v / 16777216) as u8, ((v / 65536) % 256) as u8, ((v / 256) % 256) as u8, (v % 256) as u8]
}

/// The value of four bytes read most significant first.
pub open spec fn be32_value(b: Seq<u8>) -> nat {
    (b[0] * 16777216 + b[1] * 65536 + b[2] * 256 + b[3]) as nat
}

/// `n` zero bytes.
pub open spec fn zeros(n: nat) -> Seq<u8> {
    Seq::new(n, |i: int| 0u8)
}

/// How many archive bytes each data shard carries.
pub open spec fn payload_len(len: nat) -> nat {
    (len + 3) / 4
}

/// The part of the archive that data shard `i` carries.
pub open spec fn data_piece(data: Seq<u8>, i: int) -> Seq<u8> {
    let p = payload_len(data.len());
    let start = i * p;
    if start < data.len() {
        let end = if start + p < data.len() {
            start + p
        } else {
            data.len() as int
        };
        data.subrange(start, end)
    } else {
        Seq::empty()
    }
}

/// Data shard `i`: the archive's length (its low 32 bits), the piece it
/// carries, zeros up to the common shard length.
pub open spec fn data_shard(data: Seq<u8>, i: int) -> Seq<u8> {
    be32((data.len() % 4294967296) as u32) + data_piece(data, i) + zeros(
        (payload_len(data.len()) - data_piece(data, i).len()) as nat,
    )
}

/// The four data shards of an archive.
pub open spec fn padded(data: Seq<u8>) -> Seq<Seq<u8>> {
    Seq::new(4, |i: int| data_shard(data, i))
}

/// The length every shard of an archive has.
pub open spec fn shard_len(len: nat) -> nat {
    payload_len(len) + 4
}

/// The views of a sequence of byte vectors.
pub open spec fn shards_view(v: Seq<Vec<u8>>) -> Seq<Seq<u8>> {
    v.map_values(|s: Vec<u8>| s@)
}

/// Reads the archive back from data shards, shard after shard, checking
/// each one against the first, until the length in the header is reached.
pub open spec fn unpad_from(s: Seq<Seq<u8>>, k: int, len: nat, p: nat, out: Seq<u8>) -> Result<
    Seq<u8>,
    Seq<char>,
>
    decreases 4 - k,
{
    if k >= 4 {
        if out.len() == len {
            Ok(out)
        } else {
            Err("truncated archive"@)
        }
    } else if s[k].len() != s[0].len() {
        Err("uneven shards"@)
    } else if s[k].subrange(0, 4) != s[0].subrange(0, 4) {
        Err("corrupt shard header"@)
    } else {
        let take = if len - out.len() < p {
            len - out.len()
        } else {
            p as int
        };
        let next = out + s[k].subrange(4, 4 + take);
        if next.len() >= len {
            Ok(next)
        } else {
            unpad_from(s, k + 1, len, p, next)
        }
    }
}

/// The archive that data shards carry, or why they carry none.
pub open spec fn unpadded(s: Seq<Seq<u8>>) -> Result<Seq<u8>, Seq<char>> {
    if s.len() < 4 {
        Err("not enough data shards"@)
    } else if s[0].len() < 4 {
        Err("corrupt shard"@)
    } else {
        unpad_from(s, 0, be32_value(s[0]), (s[0].len() - 4) as nat, Seq::empty())
    }
}

/// A byte result taken by its view.
pub open spec fn bytes_result(r: Result<Vec<u8>, String>) -> Result<Seq<u8>, Seq<char>> {
    match r {
        Ok(v) => Ok(v@),
        Err(e) => Err(e@),
    }
}

/// The four bytes of `v`, most significant first.
fn be32_bytes(v: u32) -> (r: [u8; 4])
    ensures
        r@ == be32(v),
{
    [(v / 16777216) as u8, ((v / 65536) % 256) as u8, ((v / 256) % 256) as u8, (v % 256) as u8]
}

/// Appends `src[from..to]` to `out`.
fn append_range(out: &mut Vec<u8>, src: &[u8], from: usize, to: usize)
    requires
        from <= to <= src.len(),
    ensures
        final(out)@ == old(out)@ + src@.subrange(from as int, to as int),
{
    let mut k: usize = from;
    while k < to
        invariant
            from <= k <= to,
            to <= src.len(),
            out@ == old(out)@ + src@.subrange(from as int, k as int),
        decreases to - k,
    {
        out.push(src[k]);
        assert(src@.subrange(from as int, k as int).push(src@[k as int]) =~= src@.subrange(
            from as int,
            k + 1,
        ));
        k += 1;
    }
}

/// Appends zeros to `out` until it is `n` bytes long.
fn zero_fill(out: &mut Vec<u8>, n: usize)
    requires
        old(out).len() <= n,
    ensures
        final(out)@ == old(out)@ + zeros((n - old(out).len()) as nat),
{
    let ghost start = out@;
    while out.len() < n
        invariant
            start.len() <= out.len() <= n,
            out@ == start + zeros((out.len() - start.len()) as nat),
        decreases n - out.len(),
    {
        out.push(0);
        assert(start + zeros((out.len() - start.len()) as nat) =~= out@);
    }
}

/// Splits an archive into its four data shards and two zeroed parity
/// shards, all of the same length.
fn pad_shards(data: &[u8]) -> (r: Result<Vec<Vec<u8>>, String>)
    requires
        data.len() + 3 <= usize::MAX,
    ensures
        r matches Ok(s) && shards_view(s@) == padded(data@) + seq![
            zeros(shard_len(data.len() as nat)),
            zeros(shard_len(data.len() as nat)),
        ],
{
    let len = data.len();
    let p: usize = (len + 3) / 4;
    let total: usize = match p.checked_add(4) {
        Some(v) => v,
        None => {
            return Err("archive too large".to_owned());
        },
    };
    let header = be32_bytes(((len as u64) % 4294967296) as u32);
    let mut shards: Vec<Vec<u8>> = Vec::new();
    let mut i: usize = 0;
    while i < 4
        invariant
            i <= 4,
            len == data.len(),
            p == payload_len(len as nat),
            total == p + 4,
            header@ == be32(((len as int) % 4294967296) as u32),
            len + 3 <= usize::MAX,
            shards_view(shards@) == padded(data@).take(i as int),
        decreases 4 - i,
    {
        let mut shard: Vec<u8> = Vec::new();
        append_range(&mut shard, &header, 0, 4);
        assert(header@.subrange(0, 4) =~= header@);
        assert(i * p <= 3 * p) by (nonlinear_arith)
            requires
                i <= 3,
        ;
        let start: usize = i * p;
        if start < len {
            let end: usize = if start + p < len {
                start + p
            } else {
                len
            };
            append_range(&mut shard, data, start, end);
        }
        zero_fill(&mut shard, total);
        assert(shard@ =~= data_shard(data@, i as int));
        let ghost before = shards@;
        shards.push(shard);
        assert(shards_view(shards@) =~= shards_view(before).push(data_shard(data@, i as int)));
        assert(padded(data@).take(i + 1) =~= padded(data@).take(i as int).push(
            data_shard(data@, i as int),
        ));
        i += 1;
    }
    let mut j: usize = 0;
    while j < 2
        invariant
            j <= 2,
            total == shard_len(data.len() as nat),
            shards_view(shards@) == padded(data@) + Seq::new(
                j as nat,
                |k: int| zeros(shard_len(data.len() as nat)),
            ),
        decreases 2 - j,
    {
        let mut z: Vec<u8> = Vec::new();
        zero_fill(&mut z, total);
        let ghost before = shards@;
        shards.push(z);
        assert(shards_view(shards@) =~= shards_view(before).push(
            zeros(shard_len(data.len() as nat)),
        ));
        j += 1;
    }
    assert(Seq::new(2, |k: int| zeros(shard_len(data.len() as nat))) =~= seq![
        zeros(shard_len(data.len() as nat)),
        zeros(shard_len(data.len() as nat)),
    ]);
    Ok(shards)
}

/// Whether the first four bytes of two shards agree.
fn same_header(a: &[u8], b: &[u8]) -> (r: bool)
    requires
        a.len() >= 4,
        b.len() >= 4,
    ensures
        r == (a@.subrange(0, 4) == b@.subrange(0, 4)),
{
    let same = a[0] == b[0] && a[1] == b[1] && a[2] == b[2] && a[3] == b[3];
    if same {
        assert(a@.subrange(0, 4) =~= b@.subrange(0, 4));
    } else {
        let ghost x = a@.subrange(0, 4);
        let ghost y = b@.subrange(0, 4);
        assert(x[0] != y[0] || x[1] != y[1] || x[2] != y[2] || x[3] != y[3]);
    }
    same
}

/// Reads the archive back out of its data shards.
fn unpad_data_shards(shards: &[Vec<u8>]) -> (r: Result<Vec<u8>, String>)
    ensures
        bytes_result(r) == unpadded(shards_view(shards@)),
{
    let ghost s = shards_view(shards@);
    if shards.len() < 4 {
        return Err("not enough data shards".to_owned());
    }
    let first = &shards[0];
    assert(s[0] == first@);
    if first.len() < 4 {
        return Err("corrupt shard".to_owned());
    }
    let len: usize = (first[0] as usize) * 16777216 + (first[1] as usize) * 65536 + (first[2] as usize)
        * 256 + first[3] as usize;
    assert(len == be32_value(s[0]));
    let p: usize = first.len() - 4;
    let mut out: Vec<u8> = Vec::new();
    let mut k: usize = 0;
    while k < 4
        invariant
            k <= 4,
            shards.len() >= 4,
            s == shards_view(shards@),
            s[0] == shards@[0]@,
            p == s[0].len() - 4,
            len == be32_value(s[0]),
            out.len() < len || (k == 0 && len == 0),
            unpad_from(s, k as int, len as nat, p as nat, out@) == unpad_from(
                s,
                0,
                len as nat,
                p as nat,
                Seq::empty(),
            ),
        decreases 4 - k,
    {
        let shard = &shards[k];
        assert(s[k as int] == shard@);
        if shard.len() != shards[0].len() {
            return Err("uneven shards".to_owned());
        }
        if !same_header(shard.as_slice(), shards[0].as_slice()) {
            return Err("corrupt shard header".to_owned());
        }
        let take: usize = if len - out.len() < p {
            len - out.len()
        } else {
            p
        };
        append_range(&mut out, shard.as_slice(), 4, 4 + take);
        if out.len() >= len {
            return Ok(out);
        }
        k += 1;
    }
    if out.len() != len {
        return Err("truncated archive".to_owned());
    }
    Ok(out)
}

// ---------------------------------------------------------------------------
// Reed-Solomon coding (reed-solomon-erasure, GF(2^8))
// ---------------------------------------------------------------------------
/// A Reed-Solomon codec over GF(2^8) for four data and two parity shards.
/// Nothing inside it is read: it is only handed to the coding calls.
#[verifier::external_body]
struct RsCodec {
    inner: reed_solomon_erasure::galois_8::ReedSolomon,
}

#[verifier::external_type_specification]
#[verifier::external_body]
pub struct ExRsError(reed_solomon_erasure::Error);

/// The parity shards that Reed-Solomon coding computes from four data
/// shards of one length.
pub uninterp spec fn rs_parity(data: Seq<Seq<u8>>) -> Seq<Seq<u8>>;

/// The six shards that Reed-Solomon reconstruction rebuilds from the pieces
/// present.
pub uninterp spec fn rs_rebuilt(pieces: Seq<Option<Seq<u8>>>) -> Seq<Seq<u8>>;

/// The data shards followed by the parity shards coded from them.
pub open spec fn codeword(d: Seq<Seq<u8>>) -> Seq<Seq<u8>> {
    d + rs_parity(d)
}

/// The views of shard pieces, some missing.
pub open spec fn pieces_view(p: Seq<Option<Vec<u8>>>) -> Seq<Option<Seq<u8>>> {
    p.map_values(
        |o: Option<Vec<u8>>|
            match o {
                Some(v) => Some(v@),
                None => None,
            },
    )
}

/// How many pieces are present.
pub open spec fn present_count(p: Seq<Option<Seq<u8>>>) -> nat
    decreases p.len(),
{
    if p.len() == 0 {
        0
    } else {
        present_count(p.drop_last()) + if p.last() is Some {
            1nat
        } else {
            0nat
        }
    }
}

/// Six pieces, at least four present, all present ones non-empty and of
/// one length: the pieces reconstruction works from.
pub open spec fn pieces_ok(p: Seq<Option<Seq<u8>>>) -> bool {
    &&& p.len() == 6
    &&& present_count(p) >= 4
    &&& forall|i: int| 0 <= i < 6 && p[i] is Some ==> p[i]->0.len() > 0
    &&& forall|i: int, j: int|
        0 <= i < 6 && 0 <= j < 6 && p[i] is Some && p[j] is Some ==> p[i]->0.len()
            == p[j]->0.len()
}

/// Whether the pieces present agree with the codeword of data shards `d`.
pub open spec fn consistent(p: Seq<Option<Seq<u8>>>, d: Seq<Seq<u8>>) -> bool {
    &&& p.len() == 6
    &&& d.len() == 4
    &&& d[0].len() > 0
    &&& forall|i: int| 0 <= i < 4 ==> #[trigger] d[i].len() == d[0].len()
    &&& forall|i: int|
        0 <= i < 6 && (#[trigger] p[i]) is Some ==> p[i]->0 == codeword(d)[i] && p[i]->0.len()
            == d[0].len()
}

/// Every piece present, holding `s`.
pub open spec fn all_present(s: Seq<Seq<u8>>) -> Seq<Option<Seq<u8>>> {
    s.map_values(|x: Seq<u8>| Some(x))
}

/// `ReedSolomon::new` over GF(2^8), for four data and two parity shards.
/// The crate refuses only zero data or parity shards, or more than 256 in
/// all, so for this shape it always gives a codec.
#[verifier::external_body]
fn rs_new(data_shards: usize, parity_shards: usize) -> (r: Result<
    RsCodec,
    reed_solomon_erasure::Error,
>)
    requires
        data_shards == DATA_SHARDS,
        parity_shards == PARITY_SHARDS,
    ensures
        r is Ok,
{
    match reed_solomon_erasure::galois_8::ReedSolomon::new(data_shards, parity_shards) {
        Ok(inner) => Ok(RsCodec { inner }),
        Err(e) => Err(e),
    }
}

/// `ReedSolomon::encode` with the codec of `rs_new`: given six shards of one
/// non-zero length it overwrites the two parity shards with the parity of
/// the four data shards and leaves those as they were; otherwise it fails
/// and touches nothing.
#[verifier::external_body]
fn rs_encode(
    codec: &RsCodec,
    shards: &mut Vec<Vec<u8>>,
) -> (r: Result<(), reed_solomon_erasure::Error>)
    ensures
        ({
            let o = shards_view(old(shards)@);
            let ok = o.len() == 6 && o[0].len() > 0 && forall|i: int|
                0 <= i < 6 ==> #[trigger] o[i].len() == o[0].len();
            &&& ok ==> r is Ok && final(shards)@.len() == 6 && shards_view(final(shards)@) == o.take(
                4,
            ) + rs_parity(o.take(4))
                && forall|i: int|
                0 <= i < 6 ==> #[trigger] final(shards)@[i]@.len() == o[0].len()
            &&& !ok ==> r is Err && final(shards)@ == old(shards)@
        }),
{
    codec.inner.encode(shards)
}

/// The first fault the Reed-Solomon reconstruction finds in the pieces
/// from `i` on, having seen pieces of length `len`: `Some(true)` for an
/// empty piece, `Some(false)` for a piece of another length, `None` when
/// there is none.
pub open spec fn shape_fault(p: Seq<Option<Seq<u8>>>, i: int, len: Option<nat>) -> Option<bool>
    decreases p.len() - i,
{
    if i < 0 || i >= p.len() {
        None
    } else {
        match p[i] {
            None => shape_fault(p, i + 1, len),
            Some(x) => if x.len() == 0 {
                Some(true)
            } else if len matches Some(l) && l != x.len() {
                Some(false)
            } else {
                shape_fault(p, i + 1, Some(x.len()))
            },
        }
    }
}

/// The message for a fault in the pieces' shapes.
pub open spec fn shape_fault_text(empty: bool) -> Seq<char> {
    if empty {
        "The first shard provided is of zero length"@
    } else {
        "At least one of the provided shards is not of the correct size"@
    }
}

/// `ReedSolomon::reconstruct` with the codec of `rs_new`, its error as
/// text (`Display`). From six pieces of which at least four are present,
/// non-empty and of one length, it fills in the missing ones and keeps the
/// present ones; when at least four pieces are present and they agree with
/// a codeword, the result is that codeword, as any four shards of a
/// Reed-Solomon code determine the rest. Otherwise it fails and touches
/// nothing; of six pieces, the first empty piece, or the first of another
/// length than those before it, fails with the crate's message for it.
#[verifier::external_body]
fn rs_reconstruct(
    codec: &RsCodec,
    pieces: &mut Vec<Option<Vec<u8>>>,
) -> (r: Result<(), String>)
    ensures
        pieces_ok(pieces_view(old(pieces)@)) ==> r is Ok,
        pieces_ok(pieces_view(old(pieces)@)) ==> pieces_view(final(pieces)@) == all_present(
            rs_rebuilt(pieces_view(old(pieces)@)),
        ),
        pieces_ok(pieces_view(old(pieces)@)) ==> final(pieces)@.len() == 6,
        forall|i: int|
            0 <= i < 6 && pieces_ok(pieces_view(old(pieces)@)) && pieces_view(old(pieces)@)[i] is Some
                ==> #[trigger] pieces_view(final(pieces)@)[i] == pieces_view(old(pieces)@)[i],
        forall|d: Seq<Seq<u8>>|
            present_count(pieces_view(old(pieces)@)) >= 4 && #[trigger] consistent(pieces_view(old(pieces)@), d)
                ==> pieces_view(final(pieces)@) == all_present(codeword(d)),
        !pieces_ok(pieces_view(old(pieces)@)) ==> r is Err && final(pieces)@ == old(pieces)@,
        r matches Err(t) ==> (old(pieces)@.len() == 6 ==> match shape_fault(pieces_view(old(pieces)@), 0, None) {
            Some(empty) => t@ == shape_fault_text(empty),
            None => true,
        }),
{
    match codec.inner.reconstruct(pieces) {
        Ok(()) => Ok(()),
        Err(e) => Err(e.to_string()),
    }
}

/// Pieces whose scan finds no fault are all non-empty and of the length
/// seen, and of one length among themselves.
proof fn lemma_no_shape_fault(p: Seq<Option<Seq<u8>>>, i: int, len: Option<nat>)
    requires
        0 <= i <= p.len(),
        shape_fault(p, i, len) is None,
    ensures
        forall|j: int| i <= j < p.len() && (#[trigger] p[j]) is Some ==> p[j]->0.len() > 0
            && (len matches Some(l) ==> p[j]->0.len() == l),
        forall|j: int, k: int|
            i <= j < p.len() && i <= k < p.len() && (#[trigger] p[j]) is Some && (#[trigger] p[k]) is Some
                ==> p[j]->0.len() == p[k]->0.len(),
    decreases p.len() - i,
{
    if i < p.len() {
        match p[i] {
            None => {
                lemma_no_shape_fault(p, i + 1, len);
            },
            Some(x) => {
                lemma_no_shape_fault(p, i + 1, Some(x.len()));
            },
        }
    }
}

/// Six pieces with at least four present that do not fit together have a
/// fault that the reconstruction reports.
proof fn lemma_shape_fault_found(p: Seq<Option<Seq<u8>>>)
    requires
        p.len() == 6,
        present_count(p) >= 4,
        !pieces_ok(p),
    ensures
        shape_fault(p, 0, None) is Some,
{
    if shape_fault(p, 0, None) is None {
        lemma_no_shape_fault(p, 0, None);
        assert(pieces_ok(p));
    }
}

/// The message of a Reed-Solomon error (its `Display`); nothing is claimed
/// of the text.
#[verifier::external_body]
fn rs_error_text(e: reed_solomon_erasure::Error) -> String {
    e.to_string()
}

/// Six shards of an archive: its padded data shards, then their parity,
/// all of the archive's shard length.
pub open spec fn encoded(data: Seq<u8>, s: Seq<Seq<u8>>) -> bool {
    &&& s.len() == 6
    &&& s.take(4) == padded(data)
    &&& s.skip(4) == rs_parity(padded(data))
    &&& forall|i: int| 0 <= i < 6 ==> #[trigger] s[i].len() == shard_len(data.len())
}

/// Splits a non-empty archive into six shards, any four of which give it
/// back.
pub fn encode(data: &[u8]) -> (r: Result<Vec<Vec<u8>>, String>)
    requires
        data.len() + 3 <= usize::MAX,
    ensures
        data.len() == 0 ==> (r matches Err(e) && e@ == "empty archive"@),
        data.len() > 0 ==> (r matches Ok(s) && encoded(data@, shards_view(s@))),
{
    if data.len() == 0 {
        return Err("empty archive".to_owned());
    }
    let mut shards = match pad_shards(data) {
        Ok(s) => s,
        Err(e) => {
            return Err(e);
        },
    };
    let ghost before = shards_view(shards@);
    proof {
        assert(before[0] == padded(data@)[0]);
        assert(before[0] == data_shard(data@, 0));
        assert forall|i: int| 0 <= i < 6 implies #[trigger] before[i].len() == before[0].len() by {
            if i < 4 {
                assert(before[i] == data_shard(data@, i));
            } else {
                assert(before[i] == zeros(shard_len(data.len() as nat)));
            }
        }
    }
    let codec = match rs_new(DATA_SHARDS, PARITY_SHARDS) {
        Ok(c) => c,
        Err(e) => {
            return Err(rs_error_text(e));
        },
    };
    match rs_encode(&codec, &mut shards) {
        Ok(()) => {},
        Err(e) => {
            return Err(rs_error_text(e));
        },
    }
    proof {
        let s = shards_view(shards@);
        assert(before.take(4) =~= padded(data@));
        assert(s.take(4) =~= padded(data@));
        assert(s.skip(4) =~= rs_parity(padded(data@)));
        assert forall|i: int| 0 <= i < 6 implies #[trigger] s[i].len() == shard_len(
            data.len() as nat,
        ) by {
            assert(s[i] == shards@[i]@);
        }
    }
    Ok(shards)
}

/// A copy of `s`.
pub(crate) fn copy_bytes(s: &[u8]) -> (r: Vec<u8>)
    ensures
        r@ == s@,
{
    let mut out: Vec<u8> = Vec::new();
    append_range(&mut out, s, 0, s.len());
    assert(s@.subrange(0, s@.len() as int) =~= s@);
    out
}

/// Rebuilds an archive from its shards, `pieces[i]` holding shard `i` or
/// `None` where it is missing; any four shards will do.
pub fn reconstruct(pieces: &mut Vec<Option<Vec<u8>>>) -> (r: Result<Vec<u8>, String>)
    ensures
        ({
            let o = pieces_view(old(pieces)@);
            &&& o.len() != 6 ==> (r matches Err(e) && e@ == "wrong shard count"@ && final(pieces)@
                == old(pieces)@)
            &&& o.len() == 6 && present_count(o) < 4 ==> (r matches Err(e) && e@
                == "need more shards"@ && final(pieces)@ == old(pieces)@)
            &&& o.len() == 6 && present_count(o) >= 4 && !pieces_ok(o) ==> r is Err && final(pieces)@ == old(pieces)@
                && (r matches Err(e) && shape_fault(o, 0, None) matches Some(empty) && e@ == shape_fault_text(empty))
            &&& pieces_ok(o) ==> bytes_result(r) == unpadded(rs_rebuilt(o).take(4)) && pieces_view(final(pieces)@) == all_present(rs_rebuilt(o))
            &&& forall|d: Seq<Seq<u8>>|
                present_count(o) >= 4 && #[trigger] consistent(o, d) ==> bytes_result(r)
                    == unpadded(d) && pieces_view(final(pieces)@) == all_present(codeword(d))
        }),
{
    let ghost o = pieces_view(pieces@);
    if pieces.len() != 6 {
        return Err("wrong shard count".to_owned());
    }
    let mut present: usize = 0;
    let mut i: usize = 0;
    while i < pieces.len()
        invariant
            i <= pieces.len(),
            pieces.len() == 6,
            o == pieces_view(pieces@),
            present == present_count(o.take(i as int)),
            present <= i,
        decreases pieces.len() - i,
    {
        proof {
            assert(o.take(i + 1).drop_last() =~= o.take(i as int));
        }
        if pieces[i].is_some() {
            present += 1;
        }
        i += 1;
    }
    assert(o.take(6) =~= o);
    if present < DATA_SHARDS {
        proof {
            assert forall|d: Seq<Seq<u8>>| !(present_count(o) >= 4 && #[trigger] consistent(o, d)) by {}
        }
        return Err("need more shards".to_owned());
    }
    let codec = match rs_new(DATA_SHARDS, PARITY_SHARDS) {
        Ok(c) => c,
        Err(e) => {
            return Err(rs_error_text(e));
        },
    };
    proof {
        assert forall|d: Seq<Seq<u8>>| #[trigger] consistent(o, d) implies pieces_ok(o) by {
            assert forall|i: int| 0 <= i < 6 && o[i] is Some implies o[i]->0.len() > 0 by {}
        }
    }
    proof {
        if present_count(o) >= 4 && !pieces_ok(o) {
            lemma_shape_fault_found(o);
        }
    }
    match rs_reconstruct(&codec, pieces) {
        Ok(()) => {},
        Err(e) => {
            return Err(e);
        },
    }
    let ghost rebuilt = rs_rebuilt(o);
    assert(pieces_ok(o));
    assert(pieces_view(pieces@).len() == pieces@.len());
    assert(all_present(rebuilt).len() == rebuilt.len());
    let mut data_shards: Vec<Vec<u8>> = Vec::new();
    let mut k: usize = 0;
    while k < DATA_SHARDS
        invariant
            k <= 4,
            pieces.len() == 6,
            rebuilt.len() == 6,
            pieces_view(pieces@) == all_present(rebuilt),
            shards_view(data_shards@) == rebuilt.take(k as int),
        decreases 4 - k,
    {
        assert(pieces_view(pieces@)[k as int] == Some(rebuilt[k as int]));
        let piece = match &pieces[k] {
            Some(v) => copy_bytes(v.as_slice()),
            None => {
                return Err("reconstruct incomplete".to_owned());
            },
        };
        let ghost before = data_shards@;
        data_shards.push(piece);
        assert(shards_view(data_shards@) =~= shards_view(before).push(rebuilt[k as int]));
        assert(rebuilt.take(k + 1) =~= rebuilt.take(k as int).push(rebuilt[k as int]));
        k += 1;
    }
    proof {
        assert forall|d: Seq<Seq<u8>>| #[trigger] consistent(o, d) implies rebuilt.take(4) == d by {
            assert(all_present(rebuilt) == all_present(codeword(d)));
            assert forall|i: int| 0 <= i < 4 implies rebuilt[i] == d[i] by {
                assert(all_present(rebuilt)[i] == all_present(codeword(d))[i]);
            }
            assert(rebuilt.take(4) =~= d);
        }
    }
    unpad_data_shards(data_shards.as_slice())
}

// ---------------------------------------------------------------------------
// Who holds which shard
// ---------------------------------------------------------------------------
/// The member keys: each member trimmed, blank ones left out.
pub open spec fn member_keys(members: Seq<Seq<char>>) -> Set<Seq<char>> {
    Set::new(
        |k: Seq<char>|
            k.len() > 0 && exists|i: int| 0 <= i < members.len() && #[trigger] trim_seq(members[i]) == k,
    )
}

/// Keys in strictly increasing order (`String`'s order), so each once.
pub open spec fn sorted_keys(s: Seq<Seq<char>>) -> bool {
    forall|i: int, j: int| 0 <= i < j < s.len() ==> seq_lt(#[trigger] s[i], #[trigger] s[j])
}

/// The holder of each shard: shard `i` goes to `keys[i % n]`; with no keys,
/// every holder is the empty string.
pub open spec fn spread(keys: Seq<Seq<char>>) -> Seq<Seq<char>> {
    if keys.len() == 0 {
        Seq::new(6, |i: int| Seq::<char>::empty())
    } else {
        Seq::new(6, |i: int| keys[i % (keys.len() as int)])
    }
}

/// Inserts `k` into strictly sorted `keys`, unless it is already there.
pub(crate) fn insert_sorted(keys: &mut Vec<String>, k: String)
    requires
        sorted_keys(strings_view(old(keys)@)),
    ensures
        sorted_keys(strings_view(final(keys)@)),
        strings_view(final(keys)@).to_set() == strings_view(old(keys)@).to_set().insert(k@),
{
    let ghost ks = strings_view(keys@);
    let mut p: usize = 0;
    while p < keys.len() && str_less(keys[p].as_str(), k.as_str())
        invariant
            p <= keys.len(),
            ks == strings_view(keys@),
            keys@ == old(keys)@,
            forall|j: int| 0 <= j < p ==> seq_lt(#[trigger] ks[j], k@),
        decreases keys.len() - p,
    {
        p += 1;
    }
    if p < keys.len() && keys[p] == k {
        assert(ks.to_set().insert(k@) =~= ks.to_set()) by {
            assert(ks[p as int] == k@);
        }
        return;
    }
    proof {
        if p < keys.len() {
            assert(ks[p as int] == keys@[p as int]@);
            lemma_seq_lt_total(ks[p as int], k@);
            assert(seq_lt(k@, ks[p as int]));
        }
    }
    let ghost kv = k@;
    keys.insert(p, k);
    proof {
        let ns = strings_view(keys@);
        assert(ns =~= ks.insert(p as int, kv));
        assert forall|i: int, j: int| 0 <= i < j < ns.len() implies seq_lt(
            #[trigger] ns[i],
            #[trigger] ns[j],
        ) by {
            if j < p {
            } else if j == p {
            } else if i < p {
                if j - 1 > p {
                    assert(seq_lt(ks[p as int], ks[j - 1]));
                    lemma_seq_lt_transitive(kv, ks[p as int], ks[j - 1]);
                }
                assert(seq_lt(kv, ks[j - 1]));
                lemma_seq_lt_transitive(ks[i], kv, ks[j - 1]);
            } else if i == p {
                if j - 1 > p {
                    lemma_seq_lt_transitive(kv, ks[p as int], ks[j - 1]);
                }
            } else {
                assert(seq_lt(ks[i - 1], ks[j - 1]));
            }
        }
        assert forall|x: Seq<char>| ns.to_set().contains(x) implies ks.to_set().insert(kv).contains(
            x,
        ) by {
            let w = choose|w: int| 0 <= w < ns.len() && ns[w] == x;
            if w < p {
                assert(ks[w] == x);
            } else if w > p {
                assert(ks[w - 1] == x);
            }
        }
        assert forall|x: Seq<char>| ks.to_set().insert(kv).contains(x) implies ns.to_set().contains(
            x,
        ) by {
            if x == kv {
                assert(ns[p as int] == kv);
            } else {
                let w = choose|w: int| 0 <= w < ks.len() && ks[w] == x;
                if w < p {
                    assert(ns[w] == x);
                } else {
                    assert(ns[w + 1] == x);
                }
            }
        }
        assert(ns.to_set() =~= ks.to_set().insert(kv));
    }
}

/// Stable assignment of shards to members: the member keys in order, shard
/// `i` to key `i % n`; one member holds every shard; with no members every
/// holder is empty.
pub fn assign_holders(members: &[String]) -> (r: Vec<String>)
    ensures
        r@.len() == TOTAL_SHARDS,
        exists|keys: Seq<Seq<char>>|
            sorted_keys(keys) && keys.to_set() == member_keys(strings_view(members@))
                && strings_view(r@) == spread(keys),
{
    let ghost m = strings_view(members@);
    let mut keys: Vec<String> = Vec::new();
    let mut i: usize = 0;
    assert(strings_view(keys@).to_set() =~= member_keys(m.take(0)));
    while i < members.len()
        invariant
            i <= members.len(),
            m == strings_view(members@),
            sorted_keys(strings_view(keys@)),
            strings_view(keys@).to_set() == member_keys(m.take(i as int)),
        decreases members.len() - i,
    {
        let t = trim_string(members[i].as_str());
        assert(m[i as int] == members@[i as int]@);
        let ghost before = strings_view(keys@).to_set();
        if !t.as_str().is_empty() {
            insert_sorted(&mut keys, t);
            assert(member_keys(m.take(i + 1)) =~= before.insert(trim_seq(m[i as int]))) by {
                assert forall|k: Seq<char>| member_keys(m.take(i + 1)).contains(k) implies before.insert(
                    trim_seq(m[i as int]),
                ).contains(k) by {
                    let w = choose|w: int| 0 <= w < i + 1 && #[trigger] trim_seq(m.take(i + 1)[w]) == k;
                    if w < i {
                        assert(m.take(i as int)[w] == m.take(i + 1)[w]);
                    }
                }
                assert forall|k: Seq<char>| before.insert(trim_seq(m[i as int])).contains(
                    k,
                ) implies member_keys(m.take(i + 1)).contains(k) by {
                    if k != trim_seq(m[i as int]) {
                        let w = choose|w: int| 0 <= w < i && #[trigger] trim_seq(m.take(i as int)[w]) == k;
                        assert(m.take(i + 1)[w] == m.take(i as int)[w]);
                    } else {
                        assert(m.take(i + 1)[i as int] == m[i as int]);
                    }
                }
            }
        } else {
            assert(member_keys(m.take(i + 1)) =~= before) by {
                assert forall|k: Seq<char>| member_keys(m.take(i + 1)).contains(k) implies before.contains(
                    k,
                ) by {
                    let w = choose|w: int| 0 <= w < i + 1 && #[trigger] trim_seq(m.take(i + 1)[w]) == k;
                    if w < i {
                        assert(m.take(i as int)[w] == m.take(i + 1)[w]);
                    } else {
                        assert(m.take(i + 1)[w] == m[i as int]);
                    }
                }
                assert forall|k: Seq<char>| before.contains(k) implies member_keys(
                    m.take(i + 1),
                ).contains(k) by {
                    let w = choose|w: int| 0 <= w < i && #[trigger] trim_seq(m.take(i as int)[w]) == k;
                    assert(m.take(i + 1)[w] == m.take(i as int)[w]);
                }
            }
        }
        i += 1;
    }
    assert(m.take(members.len() as int) =~= m);
    let ghost kv = strings_view(keys@);
    let mut out: Vec<String> = Vec::new();
    let mut j: usize = 0;
    if keys.len() == 0 {
        while j < TOTAL_SHARDS
            invariant
                j <= 6,
                kv.len() == 0,
                strings_view(out@) == spread(kv).take(j as int),
            decreases 6 - j,
        {
            let ghost before = strings_view(out@);
            let e = String::new();
            let ghost ev = e@;
            out.push(e);
            assert(strings_view(out@) =~= before.push(ev));
            assert(spread(kv).take(j + 1) =~= spread(kv).take(j as int).push(spread(kv)[j as int]));
            assert(strings_view(out@) =~= spread(kv).take(j + 1));
            j += 1;
        }
    } else {
        while j < TOTAL_SHARDS
            invariant
                j <= 6,
                kv == strings_view(keys@),
                kv.len() > 0,
                strings_view(out@) == spread(kv).take(j as int),
            decreases 6 - j,
        {
            let h = keys[j % keys.len()].clone();
            assert(h@ == kv[(j as int) % (kv.len() as int)]);
            let ghost before = strings_view(out@);
            let ghost hv = h@;
            out.push(h);
            assert(strings_view(out@) =~= before.push(hv));
            assert(spread(kv).take(j + 1) =~= spread(kv).take(j as int).push(spread(kv)[j as int]));
            assert(strings_view(out@) =~= spread(kv).take(j + 1));
            j += 1;
        }
    }
    assert(spread(kv).take(6) =~= spread(kv));
    out
}

/// The smallest key of a strictly sorted sequence is its first.
proof fn lemma_sorted_first_least(s: Seq<Seq<char>>, x: Seq<char>)
    requires
        sorted_keys(s),
        s.len() > 0,
        s.contains(x),
    ensures
        x == s[0] || seq_lt(s[0], x),
{
    let j = choose|j: int| 0 <= j < s.len() && s[j] == x;
    if j > 0 {
        assert(seq_lt(s[0], s[j]));
    }
}

/// A strictly sorted sequence of keys is fixed by the set of its keys.
pub proof fn lemma_sorted_keys_unique(a: Seq<Seq<char>>, b: Seq<Seq<char>>)
    requires
        sorted_keys(a),
        sorted_keys(b),
        a.to_set() == b.to_set(),
    ensures
        a == b,
    decreases a.len(),
{
    if a.len() == 0 {
        if b.len() > 0 {
            assert(b.to_set().contains(b[0]));
            assert(!a.to_set().contains(b[0]));
        }
        assert(a =~= b);
    } else {
        assert(a.to_set().contains(a[0]));
        assert(b.to_set().contains(a[0]));
        assert(b.len() > 0);
        assert(a.to_set().contains(b[0]));
        lemma_sorted_first_least(a, b[0]);
        lemma_sorted_first_least(b, a[0]);
        if a[0] != b[0] {
            lemma_seq_lt_asymmetric(a[0], b[0]);
        }
        let a1 = a.drop_first();
        let b1 = b.drop_first();
        assert(sorted_keys(a1)) by {
            assert forall|i: int, j: int| 0 <= i < j < a1.len() implies seq_lt(
                #[trigger] a1[i],
                #[trigger] a1[j],
            ) by {
                assert(seq_lt(a[i + 1], a[j + 1]));
            }
        }
        assert(sorted_keys(b1)) by {
            assert forall|i: int, j: int| 0 <= i < j < b1.len() implies seq_lt(
                #[trigger] b1[i],
                #[trigger] b1[j],
            ) by {
                assert(seq_lt(b[i + 1], b[j + 1]));
            }
        }
        assert(a1.to_set() =~= b1.to_set()) by {
            assert forall|x: Seq<char>| a1.to_set().contains(x) implies b1.to_set().contains(x) by {
                let i = choose|i: int| 0 <= i < a1.len() && a1[i] == x;
                assert(seq_lt(a[0], a[i + 1]));
                lemma_seq_lt_irreflexive(a[0]);
                assert(b.to_set().contains(x));
                let j = choose|j: int| 0 <= j < b.len() && b[j] == x;
                assert(j != 0);
                assert(b1[j - 1] == x);
            }
            assert forall|x: Seq<char>| b1.to_set().contains(x) implies a1.to_set().contains(x) by {
                let i = choose|i: int| 0 <= i < b1.len() && b1[i] == x;
                assert(seq_lt(b[0], b[i + 1]));
                lemma_seq_lt_irreflexive(b[0]);
                assert(a.to_set().contains(x));
                let j = choose|j: int| 0 <= j < a.len() && a[j] == x;
                assert(j != 0);
                assert(a1[j - 1] == x);
            }
        }
        lemma_sorted_keys_unique(a1, b1);
        assert(a =~= seq![a[0]] + a1);
        assert(b =~= seq![b[0]] + b1);
    }
}

/// The assignment is stable: the holders depend only on the set of member
/// keys, not on the order in which members are listed nor on repeats.
pub proof fn law_assign_holders_stable(a: Seq<Seq<char>>, b: Seq<Seq<char>>)
    requires
        sorted_keys(a),
        sorted_keys(b),
        a.to_set() == b.to_set(),
    ensures
        spread(a) == spread(b),
{
    lemma_sorted_keys_unique(a, b);
}

/// Every shard has a holder, and every holder is a member: with at least
/// one member key, each of the six holders is one of the keys.
pub proof fn law_assign_holders_cover(keys: Seq<Seq<char>>, i: int)
    requires
        keys.len() > 0,
        0 <= i < 6,
    ensures
        keys.contains(spread(keys)[i]),
        spread(keys)[i].len() == keys[i % (keys.len() as int)].len(),
{
    assert(keys[i % (keys.len() as int)] == spread(keys)[i]);
}

// ---------------------------------------------------------------------------
// Archive plan and status
// ---------------------------------------------------------------------------
/// How much of a community's history a member can show.
#[derive(Clone, Copy, Debug, PartialEq, Eq, Structural)]
pub enum ArchiveStatus {
    /// The local plaintext cache is enough.
    Live,
    /// Shards exist but too few are online, or none are held here.
    PendingK,
    /// Not enough shards anywhere known.
    Lost,
}

/// An encrypted archive cut into shards, with the holder of each shard.
#[derive(Clone, Debug)]
pub struct ArchivePlan {
    pub blob_id: String,
    pub shards: Vec<Vec<u8>>,
    /// The holder's public key for each shard index.
    pub holders: Vec<String>,
}

/// The archive status from what is known locally: live with any local
/// message, else pending while any shard or holder is known, else lost.
pub fn swarm_archive_status(
    local_messages: usize,
    distinct_shards_known: usize,
    online_holders: usize,
) -> (r: ArchiveStatus)
    ensures
        r == (if local_messages > 0 {
            ArchiveStatus::Live
        } else if distinct_shards_known >= DATA_SHARDS || distinct_shards_known > 0 || online_holders
            > 0 {
            ArchiveStatus::PendingK
        } else {
            ArchiveStatus::Lost
        }),
{
    if local_messages > 0 {
        return ArchiveStatus::Live;
    }
    if distinct_shards_known >= DATA_SHARDS {
        return ArchiveStatus::PendingK;
    }
    if distinct_shards_known > 0 || online_holders > 0 {
        return ArchiveStatus::PendingK;
    }
    ArchiveStatus::Lost
}

/// The archive id for a SHA-256 digest: its first 32 hex digits.
pub open spec fn blob_id_of(digest: Seq<u8>) -> Seq<char> {
    hex_chars(digest).take(32)
}

/// The archive id for a digest of at least 16 bytes.
pub fn blob_id_from_digest(digest: &[u8]) -> (r: String)
    requires
        digest.len() >= 16,
    ensures
        r@ == blob_id_of(digest@),
{
    let h = hex_encode(digest);
    proof {
        lemma_hex_chars_len(digest@);
    }
    let cs = chars_of(h.as_str());
    let mut first: Vec<char> = Vec::new();
    let mut i: usize = 0;
    while i < 32
        invariant
            i <= 32,
            cs@ == hex_chars(digest@),
            cs@.len() >= 32,
            first@ == cs@.take(i as int),
        decreases 32 - i,
    {
        first.push(cs[i]);
        assert(cs@.take(i as int).push(cs@[i as int]) =~= cs@.take(i + 1));
        i += 1;
    }
    string_from_chars(first.as_slice())
}

/// The archive id of an encrypted archive: the first 32 hex digits of its
/// SHA-256 digest.
pub fn blob_id_for(ciphertext: &[u8]) -> (r: String)
    ensures
        r@ == blob_id_of(sha256_digest(ciphertext@)),
{
    let d = sha256(ciphertext);
    blob_id_from_digest(d.as_slice())
}

/// Shards, holders and id for an encrypted archive.
pub fn plan_archive(ciphertext: &[u8], members: &[String]) -> (r: Result<ArchivePlan, String>)
    requires
        ciphertext.len() + 3 <= usize::MAX,
    ensures
        ciphertext.len() == 0 ==> (r matches Err(e) && e@ == "empty archive"@),
        ciphertext.len() > 0 ==> (r matches Ok(plan) && encoded(
            ciphertext@,
            shards_view(plan.shards@),
        ) && plan.blob_id@ == blob_id_of(sha256_digest(ciphertext@)) && plan.holders@.len() == 6
            && exists|keys: Seq<Seq<char>>|
            sorted_keys(keys) && keys.to_set() == member_keys(strings_view(members@))
                && strings_view(plan.holders@) == spread(keys)),
{
    let shards = match encode(ciphertext) {
        Ok(s) => s,
        Err(e) => {
            return Err(e);
        },
    };
    let holders = assign_holders(members);
    Ok(ArchivePlan { blob_id: blob_id_for(ciphertext), shards, holders })
}

/// The indices `0..n`.
pub open spec fn index_range(n: nat) -> Seq<usize> {
    Seq::new(n, |i: int| i as usize)
}

/// The shard indices assigned to `me`, in order.
pub fn my_shard_indices(me: &str, holders: &[String]) -> (r: Vec<usize>)
    ensures
        r@ == index_range(holders@.len()).filter(|i: usize| holders@[i as int]@ == me@),
{
    let ghost f = |i: usize| holders@[i as int]@ == me@;
    let mut out: Vec<usize> = Vec::new();
    let mut i: usize = 0;
    while i < holders.len()
        invariant
            i <= holders.len(),
            f == (|i: usize| holders@[i as int]@ == me@),
            out@ == index_range(holders@.len()).take(i as int).filter(f),
        decreases holders.len() - i,
    {
        proof {
            let rg = index_range(holders@.len());
            rg.take(i as int).lemma_filter_push(i, f);
            assert(rg.take(i as int).push(i) =~= rg.take(i + 1));
        }
        if str_eq(holders[i].as_str(), me) {
            out.push(i);
        }
        i += 1;
    }
    assert(index_range(holders@.len()).take(holders.len() as int) =~= index_range(holders@.len()));
    out
}

/// The shards to push before leaving: every index assigned to `me`, when
/// some other peer is online to take them; none otherwise.
pub fn handoff_indices(me: &str, holders: &[String], online_others: &[String]) -> (r: Vec<usize>)
    ensures
        (forall|j: int| 0 <= j < online_others@.len() ==> #[trigger] online_others@[j]@ == me@)
            ==> r@.len() == 0,
        (exists|j: int| 0 <= j < online_others@.len() && #[trigger] online_others@[j]@ != me@)
            ==> r@ == index_range(holders@.len()).filter(|i: usize| holders@[i as int]@ == me@),
{
    let mut j: usize = 0;
    while j < online_others.len()
        invariant
            j <= online_others.len(),
            forall|k: int| 0 <= k < j ==> #[trigger] online_others@[k]@ == me@,
        decreases online_others.len() - j,
    {
        if !str_eq(online_others[j].as_str(), me) {
            return my_shard_indices(me, holders);
        }
        j += 1;
    }
    Vec::new()
}

/// The online peers other than `me`.
pub open spec fn others_of(me: Seq<char>, online: Seq<Seq<char>>) -> Set<Seq<char>> {
    Set::new(|k: Seq<char>| online.contains(k) && k != me)
}

/// Adding a peer to the list adds it to the others, unless it is `me`.
proof fn lemma_others_push(me: Seq<char>, s: Seq<Seq<char>>, x: Seq<char>)
    ensures
        others_of(me, s.push(x)) == (if x == me {
            others_of(me, s)
        } else {
            others_of(me, s).insert(x)
        }),
{
    let a = others_of(me, s.push(x));
    let b = if x == me {
        others_of(me, s)
    } else {
        others_of(me, s).insert(x)
    };
    assert forall|k: Seq<char>| a.contains(k) implies b.contains(k) by {
        let w = choose|w: int| 0 <= w < s.push(x).len() && s.push(x)[w] == k;
        if w < s.len() {
            assert(s[w] == k);
        }
    }
    assert forall|k: Seq<char>| b.contains(k) implies a.contains(k) by {
        if k == x && x != me {
            assert(s.push(x)[s.len() as int] == k);
        } else {
            let w = choose|w: int| 0 <= w < s.len() && s[w] == k;
            assert(s.push(x)[w] == k);
        }
    }
    assert(a =~= b);
}

/// `x` is the smallest key of `s`.
pub open spec fn is_least(x: Seq<char>, s: Set<Seq<char>>) -> bool {
    s.contains(x) && forall|y: Seq<char>| #[trigger] s.contains(y) ==> y == x || seq_lt(x, y)
}

/// Who receives the shards of a leaving member: the smallest online key
/// other than `me` and the owner, else the smallest other than `me`.
pub fn pick_handoff_target(me: &str, owner: &str, online: &[String]) -> (r: Option<String>)
    ensures
        r is None <==> others_of(me@, strings_view(online@)) == Set::<Seq<char>>::empty(),
        r matches Some(v) ==> (if others_of(me@, strings_view(online@)).remove(owner@)
            != Set::<Seq<char>>::empty() {
            is_least(v@, others_of(me@, strings_view(online@)).remove(owner@))
        } else {
            is_least(v@, others_of(me@, strings_view(online@)))
        }),
{
    let ghost ov = strings_view(online@);
    let mut best_any: Option<usize> = None;
    let mut best_other: Option<usize> = None;
    let mut i: usize = 0;
    while i < online.len()
        invariant
            i <= online.len(),
            ov == strings_view(online@),
            best_any matches Some(b) ==> b < i && is_least(
                ov[b as int],
                others_of(me@, ov.take(i as int)),
            ),
            best_any is None ==> others_of(me@, ov.take(i as int)) == Set::<Seq<char>>::empty(),
            best_other matches Some(b) ==> b < i && is_least(
                ov[b as int],
                others_of(me@, ov.take(i as int)).remove(owner@),
            ),
            best_other is None ==> others_of(me@, ov.take(i as int)).remove(owner@) == Set::<
                Seq<char>,
            >::empty(),
        decreases online.len() - i,
    {
        let ghost prev = others_of(me@, ov.take(i as int));
        let ghost next = others_of(me@, ov.take(i + 1));
        let ghost x = ov[i as int];
        assert(ov.take(i + 1) =~= ov.take(i as int).push(x));
        assert(x == online@[i as int]@);
        proof {
            lemma_others_push(me@, ov.take(i as int), x);
        }
        let is_me = str_eq(online[i].as_str(), me);
        if is_me {
            assert(next =~= prev);
        } else {
            assert(next =~= prev.insert(x));
            let better_any = match best_any {
                None => true,
                Some(b) => str_less(online[i].as_str(), online[b].as_str()),
            };
            if better_any {
                proof {
                    if best_any is Some {
                        let b = best_any->0;
                        assert forall|y: Seq<char>| #[trigger] next.contains(y) implies y == x
                            || seq_lt(x, y) by {
                            if y != x {
                                assert(prev.contains(y));
                                if y != ov[b as int] {
                                    lemma_seq_lt_transitive(x, ov[b as int], y);
                                }
                            }
                        }
                    } else {
                        assert forall|y: Seq<char>| #[trigger] next.contains(y) implies y == x
                            || seq_lt(x, y) by {
                            if y != x {
                                assert(prev.contains(y));
                            }
                        }
                    }
                }
                best_any = Some(i);
            } else {
                proof {
                    let b = best_any->0;
                    lemma_seq_lt_total(x, ov[b as int]);
                }
            }
            if !str_eq(online[i].as_str(), owner) {
                assert(next.remove(owner@) =~= prev.remove(owner@).insert(x));
                let better_other = match best_other {
                    None => true,
                    Some(b) => str_less(online[i].as_str(), online[b].as_str()),
                };
                if better_other {
                    proof {
                        if best_other is Some {
                            let b = best_other->0;
                            assert forall|y: Seq<char>| #[trigger] next.remove(owner@).contains(
                                y,
                            ) implies y == x || seq_lt(x, y) by {
                                if y != x {
                                    assert(prev.remove(owner@).contains(y));
                                    if y != ov[b as int] {
                                        lemma_seq_lt_transitive(x, ov[b as int], y);
                                    }
                                }
                            }
                        } else {
                            assert forall|y: Seq<char>| #[trigger] next.remove(owner@).contains(
                                y,
                            ) implies y == x || seq_lt(x, y) by {
                                if y != x {
                                    assert(prev.remove(owner@).contains(y));
                                }
                            }
                        }
                    }
                    best_other = Some(i);
                } else {
                    proof {
                        let b = best_other->0;
                        lemma_seq_lt_total(x, ov[b as int]);
                    }
                }
            } else {
                assert(next.remove(owner@) =~= prev.remove(owner@));
            }
        }
        i += 1;
    }
    assert(ov.take(online.len() as int) =~= ov);
    match best_other {
        Some(b) => Some(online[b].clone()),
        None => match best_any {
            Some(b) => Some(online[b].clone()),
            None => None,
        },
    }
}

/// The shard indices `0..6`.
pub open spec fn shard_indices() -> Seq<usize> {
    index_range(6)
}

/// Whether `x` occurs in `s`.
pub(crate) fn contains_u8(s: &[u8], x: u8) -> (r: bool)
    ensures
        r == s@.contains(x),
{
    let mut i: usize = 0;
    while i < s.len()
        invariant
            i <= s.len(),
            forall|k: int| 0 <= k < i ==> s@[k] != x,
        decreases s.len() - i,
    {
        if s[i] == x {
            assert(s@[i as int] == x);
            return true;
        }
        i += 1;
    }
    false
}

/// The shard indices not in `have`, in order.
pub fn missing_indices(have: &[u8]) -> (r: Vec<usize>)
    ensures
        r@ == shard_indices().filter(|i: usize| !have@.contains(i as u8)),
{
    let ghost f = |i: usize| !have@.contains(i as u8);
    let mut out: Vec<usize> = Vec::new();
    let mut i: usize = 0;
    while i < TOTAL_SHARDS
        invariant
            i <= 6,
            f == (|i: usize| !have@.contains(i as u8)),
            out@ == shard_indices().take(i as int).filter(f),
        decreases 6 - i,
    {
        proof {
            shard_indices().take(i as int).lemma_filter_push(i, f);
            assert(shard_indices().take(i as int).push(i) =~= shard_indices().take(i + 1));
        }
        if !contains_u8(have, i as u8) {
            out.push(i);
        }
        i += 1;
    }
    assert(shard_indices().take(6) =~= shard_indices());
    out
}

/// The shard indices `0..6` as bytes.
pub open spec fn shard_bytes() -> Seq<u8> {
    Seq::new(6, |i: int| i as u8)
}

/// The shards to ask `remote` for: those it has and `mine` lacks, each
/// once, in increasing order.
pub fn indices_to_pull(mine: &[u8], remote: &[u8]) -> (r: Vec<u8>)
    ensures
        r@ == shard_bytes().filter(|i: u8| remote@.contains(i) && !mine@.contains(i)),
{
    let ghost f = |i: u8| remote@.contains(i) && !mine@.contains(i);
    let mut out: Vec<u8> = Vec::new();
    let mut i: u8 = 0;
    while i < 6
        invariant
            i <= 6,
            f == (|i: u8| remote@.contains(i) && !mine@.contains(i)),
            out@ == shard_bytes().take(i as int).filter(f),
        decreases 6 - i,
    {
        proof {
            shard_bytes().take(i as int).lemma_filter_push(i, f);
            assert(shard_bytes().take(i as int).push(i) =~= shard_bytes().take(i + 1));
        }
        if contains_u8(remote, i) && !contains_u8(mine, i) {
            out.push(i);
        }
        i += 1;
    }
    assert(shard_bytes().take(6) =~= shard_bytes());
    out
}

/// How many online copies each shard should have: one when at most one
/// peer is online, else `min_replicas` (at least 1) but no more than the
/// peers online.
pub open spec fn replica_target(online_peers: nat, min_replicas: nat) -> nat {
    if online_peers <= 1 {
        1
    } else {
        let m = if min_replicas < 1 {
            1
        } else {
            min_replicas
        };
        if m < online_peers {
            m
        } else {
            online_peers
        }
    }
}

/// The shards, among the first six of `copies`, with fewer online copies
/// than the target.
pub fn under_replicated(copies: &[usize], online_peers: usize, min_replicas: usize) -> (r: Vec<
    usize,
>)
    ensures
        r@ == index_range(if copies@.len() < 6 {
            copies@.len()
        } else {
            6
        }).filter(
            |i: usize| copies@[i as int] < replica_target(online_peers as nat, min_replicas as nat),
        ),
{
    let target: usize = if online_peers <= 1 {
        1
    } else {
        let m: usize = if min_replicas < 1 {
            1
        } else {
            min_replicas
        };
        if m < online_peers {
            m
        } else {
            online_peers
        }
    };
    let n: usize = if copies.len() < TOTAL_SHARDS {
        copies.len()
    } else {
        TOTAL_SHARDS
    };
    let ghost f = |i: usize| copies@[i as int] < replica_target(online_peers as nat, min_replicas as nat);
    let mut out: Vec<usize> = Vec::new();
    let mut i: usize = 0;
    while i < n
        invariant
            i <= n,
            n <= copies.len(),
            n == (if copies@.len() < 6 {
                copies@.len()
            } else {
                6
            }),
            target == replica_target(online_peers as nat, min_replicas as nat),
            f == (|i: usize| copies@[i as int] < replica_target(online_peers as nat, min_replicas as nat)),
            out@ == index_range(n as nat).take(i as int).filter(f),
        decreases n - i,
    {
        proof {
            index_range(n as nat).take(i as int).lemma_filter_push(i, f);
            assert(index_range(n as nat).take(i as int).push(i) =~= index_range(n as nat).take(i + 1));
        }
        if copies[i] < target {
            out.push(i);
        }
        i += 1;
    }
    assert(index_range(n as nat).take(n as int) =~= index_range(n as nat));
    out
}

/// A peer's shard inventory, by key and the indices it holds.
pub open spec fn inventory_view(inv: Seq<(String, Vec<u8>)>) -> Seq<(Seq<char>, Seq<u8>)> {
    inv.map_values(|e: (String, Vec<u8>)| (e.0@, e.1@))
}

/// Whether the inventory's entry for `pk` (its first) lists shard `idx`;
/// false when `pk` has no entry.
pub open spec fn holds_shard(inv: Seq<(Seq<char>, Seq<u8>)>, pk: Seq<char>, idx: u8) -> bool
    decreases inv.len(),
{
    if inv.len() == 0 {
        false
    } else if inv[0].0 == pk {
        inv[0].1.contains(idx)
    } else {
        holds_shard(inv.drop_first(), pk, idx)
    }
}

/// The order in which repair targets are preferred: peers without the
/// shard first, then by key.
pub open spec fn repair_before(
    inv: Seq<(Seq<char>, Seq<u8>)>,
    idx: u8,
    a: Seq<char>,
    b: Seq<char>,
) -> bool {
    let ha = holds_shard(inv, a, idx);
    let hb = holds_shard(inv, b, idx);
    (!ha && hb) || (ha == hb && (a == b || seq_lt(a, b)))
}

fn inventory_holds(inventory: &[(String, Vec<u8>)], pk: &str, idx: u8) -> (r: bool)
    ensures
        r == holds_shard(inventory_view(inventory@), pk@, idx),
{
    let ghost iv = inventory_view(inventory@);
    let mut i: usize = 0;
    assert(iv.skip(0) =~= iv);
    while i < inventory.len()
        invariant
            i <= inventory.len(),
            iv == inventory_view(inventory@),
            holds_shard(iv.skip(i as int), pk@, idx) == holds_shard(iv, pk@, idx),
        decreases inventory.len() - i,
    {
        assert(iv.skip(i as int)[0] == iv[i as int]);
        assert(iv.skip(i as int).drop_first() =~= iv.skip(i + 1));
        if str_eq(inventory[i].0.as_str(), pk) {
            return contains_u8(inventory[i].1.as_slice(), idx);
        }
        i += 1;
    }
    false
}

/// Who gets a spare copy of shard `shard_index`: among the online peers
/// other than `me`, one that does not hold it yet, smallest key first.
pub fn pick_repair_target(
    me: &str,
    online: &[String],
    inventory: &[(String, Vec<u8>)],
    shard_index: usize,
) -> (r: Option<String>)
    ensures
        r is None <==> others_of(me@, strings_view(online@)) == Set::<Seq<char>>::empty(),
        r matches Some(v) ==> others_of(me@, strings_view(online@)).contains(v@) && forall|
            k: Seq<char>,
        |
            #[trigger] others_of(me@, strings_view(online@)).contains(k) ==> repair_before(
                inventory_view(inventory@),
                (shard_index % 256) as u8,
                v@,
                k,
            ),
{
    let idx: u8 = (shard_index % 256) as u8;
    let ghost ov = strings_view(online@);
    let ghost iv = inventory_view(inventory@);
    let mut best: Option<usize> = None;
    let mut best_has: bool = false;
    let mut i: usize = 0;
    while i < online.len()
        invariant
            i <= online.len(),
            ov == strings_view(online@),
            iv == inventory_view(inventory@),
            best matches Some(b) ==> b < i && others_of(me@, ov.take(i as int)).contains(ov[b as int])
                && best_has == holds_shard(iv, ov[b as int], idx) && forall|k: Seq<char>|
                #[trigger] others_of(me@, ov.take(i as int)).contains(k) ==> repair_before(
                    iv,
                    idx,
                    ov[b as int],
                    k,
                ),
            best is None ==> others_of(me@, ov.take(i as int)) == Set::<Seq<char>>::empty(),
        decreases online.len() - i,
    {
        let ghost prev = others_of(me@, ov.take(i as int));
        let ghost next = others_of(me@, ov.take(i + 1));
        let ghost x = ov[i as int];
        assert(ov.take(i + 1) =~= ov.take(i as int).push(x));
        assert(x == online@[i as int]@);
        proof {
            lemma_others_push(me@, ov.take(i as int), x);
        }
        if str_eq(online[i].as_str(), me) {
            assert(next =~= prev);
        } else {
            assert(next =~= prev.insert(x));
            let holds = inventory_holds(inventory, online[i].as_str(), idx);
            let better = match best {
                None => true,
                Some(b) => (!holds && best_has) || (holds == best_has && str_less(
                    online[i].as_str(),
                    online[b].as_str(),
                )),
            };
            if better {
                proof {
                    assert forall|k: Seq<char>| #[trigger] next.contains(k) implies repair_before(
                        iv,
                        idx,
                        x,
                        k,
                    ) by {
                        if k != x {
                            assert(prev.contains(k));
                            let b = best->0;
                            let y = ov[b as int];
                            assert(repair_before(iv, idx, y, k));
                            if y != k && holds == best_has && holds_shard(iv, y, idx)
                                == holds_shard(iv, k, idx) {
                                lemma_seq_lt_transitive(x, y, k);
                            }
                        }
                    }
                }
                best = Some(i);
                best_has = holds;
            } else {
                proof {
                    let b = best->0;
                    let y = ov[b as int];
                    lemma_seq_lt_total(x, y);
                    assert(repair_before(iv, idx, y, x));
                }
            }
        }
        i += 1;
    }
    assert(ov.take(online.len() as int) =~= ov);
    match best {
        Some(b) => Some(online[b].clone()),
        None => None,
    }
}

// ---------------------------------------------------------------------------
// Laws of the layout
// ---------------------------------------------------------------------------
/// Four bytes of a 32-bit number read back as that number.
pub proof fn lemma_be32_roundtrip(v: u32)
    ensures
        be32_value(be32(v)) == v,
{
}

/// What the first `k` data shards of an archive carry, laid end to end.
proof fn lemma_pieces_prefix(data: Seq<u8>, k: int)
    requires
        0 <= k <= 4,
        data.len() > 0,
    ensures
        ({
            let p = payload_len(data.len()) as int;
            let m = if k * p < data.len() {
                k * p
            } else {
                data.len() as int
            };
            &&& 0 <= m <= data.len()
            &&& k < 4 ==> data_piece(data, k).len() == (if data.len() - m < p {
                data.len() - m
            } else {
                p
            })
            &&& k < 4 ==> data_piece(data, k) == data.subrange(m, m + data_piece(data, k).len())
            &&& k < 4 && m < data.len() ==> m == k * p
            &&& (k + 1) * p == k * p + p
            &&& 4 * p >= data.len()
            &&& m == data.len() ==> k * p >= data.len()
        }),
{
    let p = payload_len(data.len()) as int;
    assert((k + 1) * p == k * p + p) by (nonlinear_arith);
    assert(k * p >= 0) by (nonlinear_arith)
        requires
            k >= 0,
            p >= 0,
    ;
}

/// Data shards read back as the archive they were cut from: unpadding the
/// padded shards of a non-empty archive of less than 4 GiB gives it back.
pub proof fn law_unpad_pad(data: Seq<u8>)
    requires
        0 < data.len() < 4294967296,
    ensures
        unpadded(padded(data)) == Ok::<Seq<u8>, Seq<char>>(data),
{
    let s = padded(data);
    let len = data.len();
    let p = payload_len(len);
    assert(s[0] == data_shard(data, 0));
    assert(s[0].subrange(0, 4) =~= be32((len % 4294967296) as u32));
    assert(be32_value(s[0]) == len) by {
        lemma_be32_roundtrip((len % 4294967296) as u32);
        assert(be32_value(s[0]) == be32_value(s[0].subrange(0, 4)));
    }
    lemma_pieces_prefix(data, 0);
    assert(s[0].len() == p + 4);
    assert(0 * p == 0);
    assert(data.subrange(0, (0 * p) as int) =~= Seq::<u8>::empty());
    lemma_unpad_steps(data, 0, Seq::empty());
}

/// One step of reading back: after `k` shards the output is the archive's
/// first `k * p` bytes, and the rest of the read gives the whole archive.
proof fn lemma_unpad_steps(data: Seq<u8>, k: int, out: Seq<u8>)
    requires
        0 < data.len() < 4294967296,
        0 <= k <= 4,
        k * payload_len(data.len()) < data.len(),
        out == data.subrange(0, k * payload_len(data.len())),
    ensures
        unpad_from(
            padded(data),
            k,
            data.len(),
            payload_len(data.len()),
            out,
        ) == Ok::<Seq<u8>, Seq<char>>(data),
    decreases 4 - k,
{
    let s = padded(data);
    let len = data.len() as int;
    let p = payload_len(data.len()) as int;
    lemma_pieces_prefix(data, k);
    if k >= 4 {
        assert(4 * p >= len);
        assert(false);
    } else {
        assert(s[k] == data_shard(data, k));
        assert(s[0] == data_shard(data, 0));
        lemma_pieces_prefix(data, 0);
        assert(s[k].len() == p + 4);
        assert(s[0].len() == p + 4);
        assert(s[k].subrange(0, 4) =~= s[0].subrange(0, 4));
        let take = if len - out.len() < p {
            len - out.len()
        } else {
            p
        };
        assert(s[k].subrange(4, 4 + take) =~= data_piece(data, k));
        let next = out + s[k].subrange(4, 4 + take);
        if next.len() >= len {
            assert(next =~= data);
        } else {
            assert(next =~= data.subrange(0, (k + 1) * p));
            lemma_unpad_steps(data, k + 1, next);
        }
    }
}

/// Every data shard of an archive has the archive's shard length.
proof fn lemma_data_shard_len(data: Seq<u8>, i: int)
    requires
        0 < data.len(),
        0 <= i < 4,
    ensures
        data_shard(data, i).len() == shard_len(data.len()),
{
    lemma_pieces_prefix(data, i);
}

/// An archive survives the loss of any two of its six shards: whatever
/// pieces keep at least four of the shards that `encode` made agree with the
/// archive's data shards, whose codeword is those six shards, so
/// `reconstruct` gives back the archive itself and puts every missing shard
/// back as it was.
pub proof fn law_archive_survives_lost_shards(
    data: Seq<u8>,
    shards: Seq<Seq<u8>>,
    pieces: Seq<Option<Seq<u8>>>,
)
    requires
        0 < data.len() < 4294967296,
        encoded(data, shards),
        pieces.len() == 6,
        present_count(pieces) >= 4,
        forall|i: int| 0 <= i < 6 && (#[trigger] pieces[i]) is Some ==> pieces[i]->0 == shards[i],
    ensures
        consistent(pieces, padded(data)),
        unpadded(padded(data)) == Ok::<Seq<u8>, Seq<char>>(data),
        codeword(padded(data)) == shards,
{
    let d = padded(data);
    assert forall|i: int| 0 <= i < 4 implies #[trigger] d[i].len() == shard_len(data.len()) by {
        lemma_data_shard_len(data, i);
    }
    assert(shards =~= shards.take(4) + shards.skip(4));
    assert(shards == codeword(d));
    assert forall|i: int| 0 <= i < 6 && (#[trigger] pieces[i]) is Some implies pieces[i]->0
        == codeword(d)[i] && pieces[i]->0.len() == d[0].len() by {
        assert(shards[i].len() == shard_len(data.len()));
    }
    law_unpad_pad(data);
}

/// Pulling is complete: once the shards to pull from `remote` are added to
/// `mine`, nothing is left to pull from it, and every shard pulled was one
/// that `mine` was missing.
pub proof fn law_pull_completes(mine: Seq<u8>, remote: Seq<u8>)
    ensures
        ({
            let pulled = shard_bytes().filter(|i: u8| remote.contains(i) && !mine.contains(i));
            &&& shard_bytes().filter(|i: u8| remote.contains(i) && !(mine + pulled).contains(i)).len() == 0
            &&& forall|j: int|
                0 <= j < pulled.len() ==> shard_indices().filter(|i: usize| !mine.contains(i as u8)).contains(
                    #[trigger] pulled[j] as usize,
                )
        }),
{
    let f1 = |i: u8| remote.contains(i) && !mine.contains(i);
    let pulled = shard_bytes().filter(f1);
    let f2 = |i: u8| remote.contains(i) && !(mine + pulled).contains(i);
    let g = |i: usize| !mine.contains(i as u8);
    let left = shard_bytes().filter(f2);
    if left.len() > 0 {
        let x = left[0];
        assert(left.contains(x));
        shard_bytes().lemma_filter_pred(f2, 0);
        shard_bytes().lemma_filter_contains_rev(f2, x);
        let k = choose|k: int| 0 <= k < 6 && shard_bytes()[k] == x;
        assert(!(mine + pulled).contains(x));
        if mine.contains(x) {
            let w = choose|w: int| 0 <= w < mine.len() && mine[w] == x;
            assert((mine + pulled)[w] == x);
        }
        assert(f1(shard_bytes()[k]));
        shard_bytes().lemma_filter_contains(f1, k);
        assert(pulled.contains(x));
        let w = choose|w: int| 0 <= w < pulled.len() && pulled[w] == x;
        assert((mine + pulled)[mine.len() + w] == x);
    }
    assert forall|j: int| 0 <= j < pulled.len() implies shard_indices().filter(g).contains(
        #[trigger] pulled[j] as usize,
    ) by {
        let x = pulled[j];
        shard_bytes().lemma_filter_pred(f1, j);
        assert(pulled.contains(x));
        shard_bytes().lemma_filter_contains_rev(f1, x);
        let k = choose|k: int| 0 <= k < 6 && shard_bytes()[k] == x;
        assert(shard_indices()[k] == x as usize);
        assert(((x as usize) as u8) == x);
        shard_indices().lemma_filter_contains(g, k);
    }
}

} // verus!
