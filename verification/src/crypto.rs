//! Identities, communities and invites: Ed25519 keys and signatures,
//! community genesis records, the compact invite format, and sealed chat.
use vstd::prelude::*;
use vstd::utf8::{decode_utf8, encode_utf8, valid_utf8};
use rand::RngCore;
use base64::Engine;
use chacha20poly1305::aead::{Aead, KeyInit};
use ed25519_dalek::{Signer, Verifier};
use crate::text::{
    has_prefix, append_str, chars_of, decimal, decimal_chars, push_char, spec_is_whitespace, is_whitespace,
    string_from_chars, trim_seq, trim_string,
};
use crate::encoding::{hex_chars, hex_encode, sha256, sha256_digest};
use crate::relay::{ascii_lower, has_prefix_ci, starts_with_ci, strings_view};

verus! {

/// The current time in milliseconds since the Unix epoch, from the system
/// clock (`SystemTime::now`); 0 when the clock reads before the epoch.
/// Nothing is claimed of the value.
#[verifier::external_body]
pub fn now_ms() -> i64 {
    match std::time::SystemTime::now().duration_since(std::time::UNIX_EPOCH) {
        Ok(d) => d.as_millis() as i64,
        Err(_) => 0,
    }
}

// ---------------------------------------------------------------------------
// Records
// ---------------------------------------------------------------------------
/// The record a community is founded on: its name, its owner's public key
/// (hex) and when it was made (milliseconds since the epoch).
#[derive(Clone, Debug, PartialEq, Eq)]
pub struct Genesis {
    pub name: String,
    pub owner: String,
    pub created_at: i64,
}

/// A community: the id (hex SHA-256 of its canonical genesis), the
/// genesis, the owner's signature over it (hex) and the key that seals its
/// chat (hex).
#[derive(Clone, Debug, PartialEq, Eq)]
pub struct Community {
    pub id: String,
    pub genesis: Genesis,
    pub signature: String,
    pub live_key: String,
}

/// An invite: its format version, the community, peer URLs to dial and
/// relay URLs.
#[derive(Clone, Debug, PartialEq, Eq)]
pub struct Invite {
    pub v: u8,
    pub community: Community,
    pub peers: Vec<String>,
    pub relays: Vec<String>,
}

/// A chat message before sealing.
#[derive(Clone, Debug, PartialEq, Eq)]
pub struct ChatPlain {
    pub channel: String,
    pub text: String,
    pub ts: i64,
}

/// A sealed chat message as it travels: kind, sender key, nonce,
/// ciphertext and signature (hex), and the community it belongs to (empty
/// when unnamed).
#[derive(Clone, Debug, PartialEq, Eq)]
pub struct WireMessage {
    pub kind: String,
    pub sender: String,
    pub nonce: String,
    pub ciphertext: String,
    pub signature: String,
    pub community_id: String,
}

/// The non-empty strings of `s`, in order.
pub open spec fn non_empty_strings(s: Seq<Seq<char>>) -> Seq<Seq<char>>
    decreases s.len(),
{
    if s.len() == 0 {
        s
    } else if s.last().len() > 0 {
        non_empty_strings(s.drop_last()).push(s.last())
    } else {
        non_empty_strings(s.drop_last())
    }
}

impl Invite {
    /// An invite for `community`: empty relay URLs are dropped, and the
    /// format is version 3 when relays remain, else version 2.
    pub fn new(community: Community, peers: Vec<String>, relays: Vec<String>) -> (r: Invite)
        ensures
            r.community == community,
            r.peers == peers,
            strings_view(r.relays@) == non_empty_strings(strings_view(relays@)),
            r.v == (if non_empty_strings(strings_view(relays@)).len() == 0 {
                2u8
            } else {
                3u8
            }),
    {
        let ghost rv = strings_view(relays@);
        let mut kept: Vec<String> = Vec::new();
        let mut i: usize = 0;
        while i < relays.len()
            invariant
                i <= relays.len(),
                rv == strings_view(relays@),
                strings_view(kept@) == non_empty_strings(rv.take(i as int)),
            decreases relays.len() - i,
        {
            assert(rv.take(i + 1).drop_last() =~= rv.take(i as int));
            assert(rv.take(i + 1).last() == relays@[i as int]@);
            if !relays[i].as_str().is_empty() {
                let ghost before = strings_view(kept@);
                kept.push(relays[i].clone());
                assert(strings_view(kept@) =~= before.push(relays@[i as int]@));
            }
            i += 1;
        }
        assert(rv.take(relays.len() as int) =~= rv);
        let v: u8 = if kept.len() == 0 {
            2
        } else {
            3
        };
        Invite { v, community, peers, relays: kept }
    }
}

// ---------------------------------------------------------------------------
// Canonical genesis text
// ---------------------------------------------------------------------------
/// The lower-case hexadecimal digit for a value below 16.
pub open spec fn low_hex(n: int) -> char {
    if n < 10 {
        (48 + n) as char
    } else {
        (87 + n) as char
    }
}

/// How a JSON string writes one character: `"` and `\` escaped, the
/// control characters as `\b \t \n \f \r` or `\u00XX`, all others as they
/// are.
pub open spec fn json_char(c: char) -> Seq<char> {
    let u = c as u32;
    if c == '"' {
        seq!['\\', '"']
    } else if c == '\\' {
        seq!['\\', '\\']
    } else if u == 8 {
        seq!['\\', 'b']
    } else if u == 9 {
        seq!['\\', 't']
    } else if u == 10 {
        seq!['\\', 'n']
    } else if u == 12 {
        seq!['\\', 'f']
    } else if u == 13 {
        seq!['\\', 'r']
    } else if u < 32 {
        seq!['\\', 'u', '0', '0', low_hex(u as int / 16), low_hex(u as int % 16)]
    } else {
        seq![c]
    }
}

/// The escaped characters of a JSON string.
pub open spec fn json_escaped(s: Seq<char>) -> Seq<char>
    decreases s.len(),
{
    if s.len() == 0 {
        Seq::empty()
    } else {
        json_escaped(s.drop_last()) + json_char(s.last())
    }
}

/// A string as a JSON string literal.
pub open spec fn json_quoted(s: Seq<char>) -> Seq<char> {
    seq!['"'] + json_escaped(s) + seq!['"']
}

/// `serde_json::to_string` on a string: the JSON literal, quoted, with
/// `"` and `\` escaped and control characters written as `\b \t \n \f \r`
/// or `\u00XX` (lower-case hex), every other character as it is (the
/// crate's `ESCAPE` table).
#[verifier::external_body]
fn json_string(s: &str) -> (r: String)
    ensures
        r@ == json_quoted(s@),
{
    match serde_json::to_string(s) {
        Ok(t) => t,
        Err(_) => String::new(),
    }
}

/// An integer in decimal, with `-` before a negative one.
pub open spec fn signed_decimal(n: int) -> Seq<char> {
    if n < 0 {
        seq!['-'] + decimal((-n) as nat)
    } else {
        decimal(n as nat)
    }
}

/// The canonical text of a genesis, which its id hashes and its owner
/// signs: `{"name":N,"owner":O,"createdAt":T}` with N and O as JSON
/// strings.
pub open spec fn canonical_text(g: Genesis) -> Seq<char> {
    canonical_parts(g.name@, g.owner@, g.created_at)
}

/// The canonical text of a genesis given by its parts.
pub open spec fn canonical_parts(name: Seq<char>, owner: Seq<char>, created_at: i64) -> Seq<char> {
    "{\"name\":"@ + json_quoted(name) + ",\"owner\":"@ + json_quoted(owner) + ",\"createdAt\":"@ + signed_decimal(
        created_at as int,
    ) + "}"@
}

/// The canonical text of a genesis.
pub fn canonical_genesis(genesis: &Genesis) -> (r: String)
    ensures
        r@ == canonical_text(*genesis),
{
    let mut out = String::new();
    append_str(&mut out, "{\"name\":");
    let name = json_string(genesis.name.as_str());
    append_str(&mut out, name.as_str());
    append_str(&mut out, ",\"owner\":");
    let owner = json_string(genesis.owner.as_str());
    append_str(&mut out, owner.as_str());
    append_str(&mut out, ",\"createdAt\":");
    let t = genesis.created_at;
    let digits = if t < 0 {
        push_char(&mut out, '-');
        let m: u64 = (0i128 - t as i128) as u64;
        decimal_chars(m)
    } else {
        decimal_chars(t as u64)
    };
    let d = string_from_chars(digits.as_slice());
    append_str(&mut out, d.as_str());
    append_str(&mut out, "}");
    proof {
        reveal_strlit("{\"name\":");
        reveal_strlit(",\"owner\":");
        reveal_strlit(",\"createdAt\":");
        reveal_strlit("}");
        assert(out@ =~= canonical_text(*genesis));
    }
    out
}

// ---------------------------------------------------------------------------
// Hex text, keys and signatures
// ---------------------------------------------------------------------------
/// The value of a hexadecimal digit of either case (-1 for any other
/// character).
pub open spec fn hex_value_of(c: char) -> int {
    let u = c as u32;
    if 48 <= u <= 57 {
        u - 48
    } else if 97 <= u <= 102 {
        u - 87
    } else if 65 <= u <= 70 {
        u - 55
    } else {
        -1
    }
}

/// The bytes that hexadecimal text spells, two digits of either case per
/// byte, high nibble first; nothing for text of odd length or with any
/// other character.
pub open spec fn hex_decoded(s: Seq<char>) -> Option<Seq<u8>> {
    if s.len() % 2 == 0 && forall|i: int| 0 <= i < s.len() ==> hex_value_of(#[trigger] s[i]) >= 0 {
        Some(Seq::new((s.len() / 2) as nat, |i: int| (hex_value_of(s[2 * i]) * 16 + hex_value_of(s[2 * i + 1])) as u8))
    } else {
        None
    }
}

/// The characters of a byte's hex text.
proof fn lemma_hex_chars_index(b: Seq<u8>, i: int)
    requires
        0 <= i < b.len(),
    ensures
        hex_chars(b).len() == 2 * b.len(),
        hex_chars(b)[2 * i] == crate::encoding::hex_digit(b[i] / 16),
        hex_chars(b)[2 * i + 1] == crate::encoding::hex_digit(b[i] % 16),
    decreases b.len(),
{
    crate::encoding::lemma_hex_chars_len(b);
    crate::encoding::lemma_hex_chars_len(b.drop_last());
    if i < b.len() - 1 {
        lemma_hex_chars_index(b.drop_last(), i);
    }
}

/// A hex digit reads back as its value.
proof fn lemma_hex_digit_value(n: u8)
    requires
        n < 16,
    ensures
        hex_value_of(crate::encoding::hex_digit(n)) == n,
{
}

/// Hex text is ASCII.
proof fn lemma_hex_ascii(b: Seq<u8>)
    ensures
        vstd::utf8::is_ascii_chars(hex_chars(b)),
{
    let h = hex_chars(b);
    crate::encoding::lemma_hex_chars_len(b);
    assert forall|j: int| 0 <= j < h.len() implies '\0' <= #[trigger] h[j] <= '\u{7f}' by {
        lemma_hex_chars_index(b, j / 2);
    }
}

/// Text that decodes as hex is ASCII.
proof fn lemma_hex_text_ascii(t: Seq<char>)
    requires
        hex_decoded(t) is Some,
    ensures
        vstd::utf8::is_ascii_chars(t),
{
    assert forall|i: int| 0 <= i < t.len() implies '\0' <= #[trigger] t[i] <= '\u{7f}' by {
        assert(hex_value_of(t[i]) >= 0);
        let u = t[i] as u32;
        assert(48 <= u <= 57 || 97 <= u <= 102 || 65 <= u <= 70);
        vstd::utf8::char_u32_cast(t[i], u);
        assert('\0' <= (u as char) <= '\u{7f}');
    }
}

/// Hex text decodes to the bytes it was made from.
pub proof fn lemma_hex_roundtrip(b: Seq<u8>)
    ensures
        hex_decoded(hex_chars(b)) == Some(b),
{
    let h = hex_chars(b);
    crate::encoding::lemma_hex_chars_len(b);
    assert forall|j: int| 0 <= j < h.len() implies hex_value_of(#[trigger] h[j]) >= 0 by {
        let i = j / 2;
        lemma_hex_chars_index(b, i);
        lemma_hex_digit_value(b[i] / 16);
        lemma_hex_digit_value(b[i] % 16);
    }
    let d = Seq::new((h.len() / 2) as nat, |i: int| (hex_value_of(h[2 * i]) * 16 + hex_value_of(h[2 * i + 1])) as u8);
    assert forall|i: int| 0 <= i < b.len() implies d[i] == b[i] by {
        lemma_hex_chars_index(b, i);
        lemma_hex_digit_value(b[i] / 16);
        lemma_hex_digit_value(b[i] % 16);
        assert((b[i] / 16) * 16 + b[i] % 16 == b[i]);
    }
    assert(d =~= b);
}

/// `hex::decode`: the bytes that hexadecimal text of either case spells;
/// an error for text of an odd number of UTF-8 bytes (`Odd number of
/// digits`, checked first) or for any character that is not a hex digit,
/// with the error's text.
#[verifier::external_body]
fn hex_decode(s: &str) -> (r: Result<Vec<u8>, String>)
    ensures
        r is Ok <==> hex_decoded(s@) is Some,
        r matches Ok(v) ==> v@ == hex_decoded(s@).unwrap(),
        r matches Err(t) ==> (encode_utf8(s@).len() % 2 == 1 ==> t@ == "Odd number of digits"@),
{
    match hex::decode(s) {
        Ok(v) => Ok(v),
        Err(e) => Err(e.to_string()),
    }
}

/// The Ed25519 public key of a secret key.
pub uninterp spec fn ed25519_public(secret: Seq<u8>) -> Seq<u8>;

/// The Ed25519 signature of a message under a secret key.
pub uninterp spec fn ed25519_signature(secret: Seq<u8>, msg: Seq<u8>) -> Seq<u8>;

/// Whether an Ed25519 public key accepts a signature on a message.
pub uninterp spec fn ed25519_accepts(public: Seq<u8>, msg: Seq<u8>, sig: Seq<u8>) -> bool;

/// `SigningKey::from_bytes(secret).verifying_key()` from `ed25519-dalek`:
/// the public key of a secret key.
#[verifier::external_body]
fn ed25519_public_key(secret: &[u8; 32]) -> (r: [u8; 32])
    ensures
        r@ == ed25519_public(secret@),
{
    ed25519_dalek::SigningKey::from_bytes(secret).verifying_key().to_bytes()
}

/// `Signer::sign` of an `ed25519-dalek` signing key: the (deterministic,
/// RFC 8032) signature of `msg`, which the key's own public key accepts.
#[verifier::external_body]
fn ed25519_sign(secret: &[u8; 32], msg: &[u8]) -> (r: [u8; 64])
    ensures
        r@ == ed25519_signature(secret@, msg@),
        ed25519_accepts(ed25519_public(secret@), msg@, r@),
{
    ed25519_dalek::SigningKey::from_bytes(secret).sign(msg).to_bytes()
}

/// `Verifier::verify` of an `ed25519-dalek` verifying key made from
/// `public` (a key that does not decompress accepts nothing): whether the
/// signature is valid.
#[verifier::external_body]
fn ed25519_verify(public: &[u8; 32], msg: &[u8], sig: &[u8; 64]) -> (r: bool)
    ensures
        r == ed25519_accepts(public@, msg@, sig@),
{
    match ed25519_dalek::VerifyingKey::from_bytes(public) {
        Ok(vk) => vk.verify(msg, &ed25519_dalek::Signature::from_bytes(sig)).is_ok(),
        Err(_) => false,
    }
}

/// `n` bytes from the operating system's random source (`OsRng` of
/// `rand`). Nothing is claimed of their values.
#[verifier::external_body]
fn random_bytes(n: usize) -> (r: Vec<u8>)
    ensures
        r@.len() == n,
{
    let mut buf = vec![0u8; n];
    rand::rngs::OsRng.fill_bytes(&mut buf);
    buf
}

/// The first 32 bytes of a list that has them, as an array.
fn to_array32(v: &Vec<u8>) -> (r: [u8; 32])
    requires
        v@.len() == 32,
    ensures
        r@ == v@,
{
    let mut out = [0u8; 32];
    let mut i: usize = 0;
    while i < 32
        invariant
            i <= 32,
            v@.len() == 32,
            forall|j: int| 0 <= j < i ==> out@[j] == v@[j],
        decreases 32 - i,
    {
        out[i] = v[i];
        i += 1;
    }
    assert(out@ =~= v@);
    out
}

/// The first 64 bytes of a list that has them, as an array.
fn to_array64(v: &Vec<u8>) -> (r: [u8; 64])
    requires
        v@.len() == 64,
    ensures
        r@ == v@,
{
    let mut out = [0u8; 64];
    let mut i: usize = 0;
    while i < 64
        invariant
            i <= 64,
            v@.len() == 64,
            forall|j: int| 0 <= j < i ==> out@[j] == v@[j],
        decreases 64 - i,
    {
        out[i] = v[i];
        i += 1;
    }
    assert(out@ =~= v@);
    out
}

/// A node's identity: its Ed25519 secret key.
pub struct Identity {
    pub secret: [u8; 32],
}

impl Identity {
    /// A fresh identity from the operating system's random source.
    pub fn generate() -> (r: Identity) {
        let bytes = random_bytes(32);
        Identity { secret: to_array32(&bytes) }
    }

    /// The identity whose secret key is written in hex; an error when the
    /// text is no hex (the decoder's message; `Odd number of digits` for
    /// text of an odd number of UTF-8 bytes) or not 32 bytes long.
    pub fn from_secret_hex(secret: &str) -> (r: Result<Identity, String>)
        ensures
            r matches Ok(id) ==> hex_decoded(secret@) == Some(id.secret@),
            r is Ok <==> (hex_decoded(secret@) is Some && hex_decoded(secret@).unwrap().len() == 32),
            r matches Err(t) ==> (hex_decoded(secret@) is Some ==> t@ == "chave secreta invalida"@)
                && (encode_utf8(secret@).len() % 2 == 1 ==> t@ == "Odd number of digits"@),
    {
        match hex_decode(secret) {
            Ok(bytes) => {
                if bytes.len() != 32 {
                    proof {
                        lemma_hex_text_ascii(secret@);
                        vstd::utf8::is_ascii_chars_encode_utf8(secret@);
                    }
                    return Err("chave secreta invalida".to_owned());
                }
                Ok(Identity { secret: to_array32(&bytes) })
            },
            Err(e) => Err(e),
        }
    }

    /// The public key, in hex.
    pub fn public_hex(&self) -> (r: String)
        ensures
            r@ == hex_chars(ed25519_public(self.secret@)),
            ed25519_public(self.secret@).len() == 32,
    {
        let pk = ed25519_public_key(&self.secret);
        hex_encode(&pk)
    }

    /// The secret key, in hex.
    pub fn secret_hex(&self) -> (r: String)
        ensures
            r@ == hex_chars(self.secret@),
    {
        hex_encode(&self.secret)
    }

    /// The signature of `msg`, in hex.
    pub fn sign(&self, msg: &[u8]) -> (r: String)
        ensures
            r@ == hex_chars(ed25519_signature(self.secret@, msg@)),
            ed25519_signature(self.secret@, msg@).len() == 64,
            ed25519_accepts(ed25519_public(self.secret@), msg@, ed25519_signature(self.secret@, msg@)),
    {
        let sig = ed25519_sign(&self.secret, msg);
        hex_encode(&sig)
    }
}

/// Whether a hex public key accepts a hex signature on a message: both
/// must be hex of the right length (32 and 64 bytes).
pub open spec fn signature_ok(public_hex: Seq<char>, message: Seq<u8>, signature_hex: Seq<char>) -> bool {
    match (hex_decoded(public_hex), hex_decoded(signature_hex)) {
        (Some(pk), Some(sig)) => pk.len() == 32 && sig.len() == 64 && ed25519_accepts(pk, message, sig),
        _ => false,
    }
}

/// Whether a hex public key accepts a hex signature on a message.
pub fn verify_ed25519(public_hex: &str, message: &[u8], signature_hex: &str) -> (r: bool)
    ensures
        r == signature_ok(public_hex@, message@, signature_hex@),
{
    let pk = match hex_decode(public_hex) {
        Ok(b) => b,
        Err(_) => {
            return false;
        },
    };
    if pk.len() != 32 {
        return false;
    }
    let sig = match hex_decode(signature_hex) {
        Ok(b) => b,
        Err(_) => {
            return false;
        },
    };
    if sig.len() != 64 {
        return false;
    }
    let pk_arr = to_array32(&pk);
    let sig_arr = to_array64(&sig);
    ed25519_verify(&pk_arr, message, &sig_arr)
}

// ---------------------------------------------------------------------------
// Communities
// ---------------------------------------------------------------------------
/// A community's id: hex SHA-256 of its genesis's canonical text.
pub open spec fn genesis_id(g: Genesis) -> Seq<char> {
    parts_id(g.name@, g.owner@, g.created_at)
}

/// The id of a genesis given by its parts.
pub open spec fn parts_id(name: Seq<char>, owner: Seq<char>, created_at: i64) -> Seq<char> {
    hex_chars(sha256_digest(encode_utf8(canonical_parts(name, owner, created_at))))
}

/// The name a community is founded under: the given one trimmed, or
/// `comunidade` when that leaves nothing.
pub open spec fn community_name(name: Seq<char>) -> Seq<char> {
    if trim_seq(name).len() == 0 {
        "comunidade"@
    } else {
        trim_seq(name)
    }
}

/// The community `owner` founds under `name` at `created_at`, with chat
/// key `live_key`: the genesis is signed by the owner and hashed into the
/// id.
pub fn community_from(owner: &Identity, name: &str, created_at: i64, live_key: &[u8]) -> (r: Community)
    ensures
        r.genesis.name@ == community_name(name@),
        r.genesis.owner@ == hex_chars(ed25519_public(owner.secret@)),
        r.genesis.created_at == created_at,
        r.id@ == genesis_id(r.genesis),
        r.signature@ == hex_chars(ed25519_signature(owner.secret@, encode_utf8(canonical_text(r.genesis)))),
        r.live_key@ == hex_chars(live_key@),
        community_ok(r),
{
    let trimmed = trim_string(name);
    let name_s = if trimmed.as_str().is_empty() {
        "comunidade".to_owned()
    } else {
        trimmed
    };
    let genesis = Genesis { name: name_s, owner: owner.public_hex(), created_at };
    let payload = canonical_genesis(&genesis);
    let bytes = payload.as_str().as_bytes();
    let signature = owner.sign(bytes);
    let digest = sha256(bytes);
    let id = hex_encode(digest.as_slice());
    let key = hex_encode(live_key);
    let r = Community { id, genesis, signature, live_key: key };
    proof {
        let pk = ed25519_public(owner.secret@);
        lemma_hex_roundtrip(pk);
        lemma_hex_roundtrip(ed25519_signature(owner.secret@, bytes@));
        lemma_hex_ascii(pk);
        vstd::utf8::is_ascii_chars_encode_utf8(hex_chars(pk));
        crate::encoding::lemma_hex_chars_len(pk);
    }
    r
}

/// Founds a community under `name` now, with a fresh random chat key.
pub fn create_community(owner: &Identity, name: &str) -> (r: Community)
    ensures
        r.genesis.name@ == community_name(name@),
        r.genesis.owner@ == hex_chars(ed25519_public(owner.secret@)),
        r.id@ == genesis_id(r.genesis),
        r.signature@ == hex_chars(ed25519_signature(owner.secret@, encode_utf8(canonical_text(r.genesis)))),
        r.live_key@.len() == 64,
        exists|k: Seq<u8>| k.len() == 32 && #[trigger] hex_chars(k) == r.live_key@,
        community_ok(r),
{
    let created_at = now_ms();
    let key = random_bytes(32);
    let r = community_from(owner, name, created_at, key.as_slice());
    assert(hex_chars(key@) == r.live_key@);
    proof {
        crate::encoding::lemma_hex_chars_len(key@);
    }
    r
}

/// Whether a community checks out: its owner key is 64 characters of text,
/// its id is the hash of its genesis, and the owner signed the genesis.
pub open spec fn community_ok(c: Community) -> bool {
    community_parts_ok(c.genesis.name@, c.genesis.owner@, c.genesis.created_at, c.id@, c.signature@)
}

/// Whether a community given by its parts checks out.
pub open spec fn community_parts_ok(name: Seq<char>, owner: Seq<char>, created_at: i64, id: Seq<char>, signature: Seq<char>) -> bool {
    encode_utf8(owner).len() == 64 && id == parts_id(name, owner, created_at) && signature_ok(
        owner,
        encode_utf8(canonical_parts(name, owner, created_at)),
        signature,
    )
}

/// Whether a community checks out.
pub fn verify_community(community: &Community) -> (r: bool)
    ensures
        r == community_ok(*community),
{
    let owner_len = community.genesis.owner.as_str().as_bytes().len();
    if owner_len != 64 {
        return false;
    }
    let payload = canonical_genesis(&community.genesis);
    let bytes = payload.as_str().as_bytes();
    assert(bytes@ == encode_utf8(canonical_text(community.genesis)));
    let digest = sha256(bytes);
    let id = hex_encode(digest.as_slice());
    assert(id@ == genesis_id(community.genesis));
    if !crate::text::str_eq(id.as_str(), community.id.as_str()) {
        return false;
    }
    verify_ed25519(community.genesis.owner.as_str(), bytes, community.signature.as_str())
}

// ---------------------------------------------------------------------------
// Base64
// ---------------------------------------------------------------------------
/// The URL-safe base64 digit for a value below 64 (`A-Z a-z 0-9 - _`).
pub open spec fn b64_digit(v: int) -> char {
    if v < 26 {
        (65 + v) as char
    } else if v < 52 {
        (97 + v - 26) as char
    } else if v < 62 {
        (48 + v - 52) as char
    } else if v == 62 {
        '-'
    } else {
        '_'
    }
}

/// URL-safe base64 without padding (RFC 4648 §5): each three bytes become
/// four digits, a last one or two bytes two or three digits.
pub open spec fn b64_url(b: Seq<u8>) -> Seq<char>
    decreases b.len(),
{
    if b.len() == 0 {
        Seq::empty()
    } else if b.len() == 1 {
        seq![b64_digit(b[0] as int / 4), b64_digit((b[0] % 4) * 16)]
    } else if b.len() == 2 {
        seq![b64_digit(b[0] as int / 4), b64_digit((b[0] % 4) * 16 + b[1] / 16), b64_digit((b[1] % 16) * 4)]
    } else {
        seq![
            b64_digit(b[0] as int / 4),
            b64_digit((b[0] % 4) * 16 + b[1] / 16),
            b64_digit((b[1] % 16) * 4 + b[2] / 64),
            b64_digit(b[2] as int % 64),
        ] + b64_url(b.skip(3))
    }
}

/// The bytes URL-safe base64 text without padding decodes to, if it
/// decodes.
pub uninterp spec fn b64_url_decoded(text: Seq<char>) -> Option<Seq<u8>>;

/// The bytes URL-safe base64 text with padding decodes to, if it decodes.
pub uninterp spec fn b64_url_padded_decoded(text: Seq<char>) -> Option<Seq<u8>>;

/// The bytes standard base64 text with padding decodes to, if it decodes.
pub uninterp spec fn b64_std_decoded(text: Seq<char>) -> Option<Seq<u8>>;

/// `URL_SAFE_NO_PAD.encode` from `base64`: URL-safe base64 without
/// padding.
#[verifier::external_body]
fn b64_url_encode(bytes: &[u8]) -> (r: String)
    ensures
        r@ == b64_url(bytes@),
{
    base64::engine::general_purpose::URL_SAFE_NO_PAD.encode(bytes)
}

/// `URL_SAFE_NO_PAD.decode` from `base64`: the bytes, if the text decodes.
/// The URL-safe unpadded encoding of any bytes decodes back to them, and
/// only such encodings decode: the engine refuses padding, other
/// characters, a lone last symbol and non-zero trailing bits.
#[verifier::external_body]
fn b64_url_decode(text: &str) -> (r: Option<Vec<u8>>)
    ensures
        r matches Some(v) ==> b64_url_decoded(text@) == Some(v@),
        r matches Some(v) ==> b64_url(v@) == text@,
        r is None ==> b64_url_decoded(text@) is None,
        forall|b: Seq<u8>| #[trigger] b64_url(b) == text@ ==> r is Some && r.unwrap()@ == b,
{
    match base64::engine::general_purpose::URL_SAFE_NO_PAD.decode(text) {
        Ok(v) => Some(v),
        Err(_) => None,
    }
}

/// `URL_SAFE.decode` from `base64`: the bytes, if the text decodes.
#[verifier::external_body]
fn b64_url_padded_decode(text: &str) -> (r: Option<Vec<u8>>)
    ensures
        r matches Some(v) ==> b64_url_padded_decoded(text@) == Some(v@),
        r is None ==> b64_url_padded_decoded(text@) is None,
{
    match base64::engine::general_purpose::URL_SAFE.decode(text) {
        Ok(v) => Some(v),
        Err(_) => None,
    }
}

/// `STANDARD.decode` from `base64`: the bytes, if the text decodes.
#[verifier::external_body]
pub(crate) fn b64_std_decode(text: &str) -> (r: Option<Vec<u8>>)
    ensures
        r matches Some(v) ==> b64_std_decoded(text@) == Some(v@),
        r is None ==> b64_std_decoded(text@) is None,
{
    match base64::engine::general_purpose::STANDARD.decode(text) {
        Ok(v) => Some(v),
        Err(_) => None,
    }
}

/// `String::from_utf8`: the text that bytes encode in UTF-8, if they are
/// valid UTF-8.
#[verifier::external_body]
fn utf8_string(bytes: Vec<u8>) -> (r: Option<String>)
    ensures
        r is Some <==> valid_utf8(bytes@),
        r matches Some(t) ==> t@ == decode_utf8(bytes@),
{
    match String::from_utf8(bytes) {
        Ok(t) => Some(t),
        Err(_) => None,
    }
}

// ---------------------------------------------------------------------------
// The compact invite format
// ---------------------------------------------------------------------------
/// A URL list entry worth packing: not empty, at most 255 bytes.
pub open spec fn packable_url(u: Seq<char>) -> bool {
    u.len() > 0 && encode_utf8(u).len() <= 255
}

/// The URLs worth packing, in order.
pub open spec fn packable_urls(s: Seq<Seq<char>>) -> Seq<Seq<char>>
    decreases s.len(),
{
    if s.len() == 0 {
        s
    } else if packable_url(s.last()) {
        packable_urls(s.drop_last()).push(s.last())
    } else {
        packable_urls(s.drop_last())
    }
}

/// Every URL kept for packing is worth packing.
proof fn lemma_packable_all(s: Seq<Seq<char>>, j: int)
    requires
        0 <= j < packed_urls(s).len(),
    ensures
        packable_url(packed_urls(s)[j]),
{
    lemma_packable_each(s, j);
}

proof fn lemma_packable_each(s: Seq<Seq<char>>, j: int)
    requires
        0 <= j < packable_urls(s).len(),
    ensures
        packable_url(packable_urls(s)[j]),
    decreases s.len(),
{
    if s.len() > 0 {
        let r = packable_urls(s.drop_last());
        if packable_url(s.last()) && j == r.len() {
        } else {
            lemma_packable_each(s.drop_last(), j);
        }
    }
}

/// The URLs a list packs: the first four worth packing.
pub open spec fn packed_urls(s: Seq<Seq<char>>) -> Seq<Seq<char>> {
    if packable_urls(s).len() <= 4 {
        packable_urls(s)
    } else {
        packable_urls(s).take(4)
    }
}

/// The bytes of URL entries: each its UTF-8 length, then its bytes.
pub open spec fn url_entries_bytes(l: Seq<Seq<char>>) -> Seq<u8>
    decreases l.len(),
{
    if l.len() == 0 {
        Seq::empty()
    } else {
        url_entries_bytes(l.drop_last()) + seq![encode_utf8(l.last()).len() as u8] + encode_utf8(l.last())
    }
}

/// The bytes of a packed URL list: the count, then the entries.
pub open spec fn url_list_bytes(urls: Seq<Seq<char>>) -> Seq<u8> {
    seq![packed_urls(urls).len() as u8] + url_entries_bytes(packed_urls(urls))
}

/// Appends the packed form of a URL list.
fn pack_url_list(out: &mut Vec<u8>, urls: &[String])
    ensures
        final(out)@ == old(out)@ + url_list_bytes(strings_view(urls@)),
{
    let ghost uv = strings_view(urls@);
    let mut list: Vec<String> = Vec::new();
    let mut i: usize = 0;
    while i < urls.len()
        invariant
            i <= urls.len(),
            uv == strings_view(urls@),
            strings_view(list@) == packable_urls(uv.take(i as int)),
        decreases urls.len() - i,
    {
        assert(uv.take(i + 1).drop_last() =~= uv.take(i as int));
        assert(uv.take(i + 1).last() == urls@[i as int]@);
        let n = urls[i].as_str().as_bytes().len();
        if !urls[i].as_str().is_empty() && n <= 255 {
            let ghost before = strings_view(list@);
            list.push(urls[i].clone());
            assert(strings_view(list@) =~= before.push(urls@[i as int]@));
        }
        i += 1;
    }
    assert(uv.take(urls.len() as int) =~= uv);
    if list.len() > 4 {
        list.truncate(4);
        assert(strings_view(list@) =~= packable_urls(uv).take(4));
    }
    let ghost lv = strings_view(list@);
    proof {
        assert forall|j: int| 0 <= j < lv.len() implies packable_url(#[trigger] lv[j]) by {
            lemma_packable_all(uv, j);
        }
    }
    let ghost start = out@;
    out.push(list.len() as u8);
    let mut k: usize = 0;
    assert(lv.take(0) =~= Seq::<Seq<char>>::empty());
    while k < list.len()
        invariant
            k <= list.len() <= 4,
            lv == strings_view(list@),
            lv == packed_urls(uv),
            out@ == start + seq![list.len() as u8] + url_entries_bytes(lv.take(k as int)),
            forall|j: int| 0 <= j < lv.len() ==> packable_url(#[trigger] lv[j]),
        decreases list.len() - k,
    {
        let bytes = list[k].as_str().as_bytes();
        let ghost before = out@;
        out.push(bytes.len() as u8);
        let mut b: usize = 0;
        while b < bytes.len()
            invariant
                b <= bytes.len(),
                out@ == before + seq![bytes.len() as u8] + bytes@.take(b as int),
            decreases bytes.len() - b,
        {
            out.push(bytes[b]);
            assert(bytes@.take(b + 1) =~= bytes@.take(b as int).push(bytes@[b as int]));
            b += 1;
        }
        proof {
            assert(bytes@.take(bytes.len() as int) =~= bytes@);
            assert(lv.take(k + 1).drop_last() =~= lv.take(k as int));
            assert(lv.take(k + 1).last() == lv[k as int]);
            assert(out@ =~= start + seq![list.len() as u8] + url_entries_bytes(lv.take(k + 1)));
        }
        k += 1;
    }
    proof {
        assert(lv.take(list.len() as int) =~= lv);
    }
}

/// An `i64` as eight big-endian bytes of its two's complement.
pub open spec fn be64(t: i64) -> Seq<u8> {
    let u = t as u64;
    seq![
        (u >> 56u64) as u8,
        (u >> 48u64) as u8,
        (u >> 40u64) as u8,
        (u >> 32u64) as u8,
        (u >> 24u64) as u8,
        (u >> 16u64) as u8,
        (u >> 8u64) as u8,
        u as u8,
    ]
}

/// The `i64` that eight big-endian bytes hold.
pub open spec fn from_be64(b: Seq<u8>) -> i64 {
    ((b[0] as u64) << 56u64 | (b[1] as u64) << 48u64 | (b[2] as u64) << 40u64 | (b[3] as u64) << 32u64 | (b[4] as u64)
        << 24u64 | (b[5] as u64) << 16u64 | (b[6] as u64) << 8u64 | (b[7] as u64)) as i64
}

/// Eight big-endian bytes give back the `i64` they were made from.
pub proof fn lemma_be64_roundtrip(t: i64)
    ensures
        from_be64(be64(t)) == t,
{
    let b = be64(t);
    let u = t as u64;
    let (b0, b1, b2, b3, b4, b5, b6, b7) = (b[0], b[1], b[2], b[3], b[4], b[5], b[6], b[7]);
    assert(b0 == (u >> 56u64) as u8 && b1 == (u >> 48u64) as u8 && b2 == (u >> 40u64) as u8 && b3 == (u >> 32u64) as u8);
    assert(b4 == (u >> 24u64) as u8 && b5 == (u >> 16u64) as u8 && b6 == (u >> 8u64) as u8 && b7 == u as u8);
    assert(((b0 as u64) << 56u64 | (b1 as u64) << 48u64 | (b2 as u64) << 40u64 | (b3 as u64) << 32u64 | (b4 as u64) << 24u64
        | (b5 as u64) << 16u64 | (b6 as u64) << 8u64 | (b7 as u64)) == u) by (bit_vector)
        requires
            b0 == (u >> 56u64) as u8,
            b1 == (u >> 48u64) as u8,
            b2 == (u >> 40u64) as u8,
            b3 == (u >> 32u64) as u8,
            b4 == (u >> 24u64) as u8,
            b5 == (u >> 16u64) as u8,
            b6 == (u >> 8u64) as u8,
            b7 == u as u8,
    ;
    assert((t as u64) as i64 == t) by (bit_vector);
}

/// The compact form of an invite, or why it has none: the version (3 when
/// some relay is not empty, else 2), the name's length and bytes (1 to 64
/// bytes), the owner key (32 bytes), the founding time, the signature (64
/// bytes) and the chat key (32 bytes), the peers, and for version 3 the
/// relays.
pub open spec fn packed_invite(inv: Invite) -> Result<Seq<u8>, Seq<char>> {
    let name = encode_utf8(inv.community.genesis.name@);
    let v: u8 = if non_empty_strings(strings_view(inv.relays@)).len() > 0 {
        3
    } else {
        2
    };
    if name.len() == 0 || name.len() > 64 {
        Err("nome da comunidade invalido"@)
    } else {
        match (hex_decoded(inv.community.genesis.owner@), hex_decoded(inv.community.signature@), hex_decoded(inv.community.live_key@)) {
            (Some(owner), Some(sig), Some(key)) => if owner.len() == 32 && sig.len() == 64 && key.len() == 32 {
                Ok(seq![v, name.len() as u8] + name + owner + be64(inv.community.genesis.created_at) + sig + key + url_list_bytes(
                    strings_view(inv.peers@),
                ) + (if v == 3 {
                    url_list_bytes(strings_view(inv.relays@))
                } else {
                    Seq::empty()
                }))
            } else {
                Err("convite invalido"@)
            },
            _ => Err("convite invalido"@),
        }
    }
}

/// Appends bytes.
fn push_all(out: &mut Vec<u8>, b: &[u8])
    ensures
        final(out)@ == old(out)@ + b@,
{
    let mut i: usize = 0;
    while i < b.len()
        invariant
            i <= b.len(),
            out@ == old(out)@ + b@.take(i as int),
        decreases b.len() - i,
    {
        out.push(b[i]);
        assert(b@.take(i + 1) =~= b@.take(i as int).push(b@[i as int]));
        i += 1;
    }
    assert(b@.take(b.len() as int) =~= b@);
}

/// Whether some string of a list is not empty.
fn any_non_empty(v: &Vec<String>) -> (r: bool)
    ensures
        r == (non_empty_strings(strings_view(v@)).len() > 0),
{
    let ghost sv = strings_view(v@);
    let mut i: usize = 0;
    while i < v.len()
        invariant
            i <= v.len(),
            sv == strings_view(v@),
            non_empty_strings(sv.take(i as int)).len() == 0,
        decreases v.len() - i,
    {
        assert(sv.take(i + 1).drop_last() =~= sv.take(i as int));
        assert(sv.take(i + 1).last() == v@[i as int]@);
        if !v[i].as_str().is_empty() {
            proof {
                lemma_non_empty_grows(sv, i as int + 1);
            }
            return true;
        }
        i += 1;
    }
    assert(sv.take(v.len() as int) =~= sv);
    false
}

/// Once a prefix holds a non-empty string, the whole list does.
proof fn lemma_non_empty_grows(s: Seq<Seq<char>>, j: int)
    requires
        0 <= j <= s.len(),
        non_empty_strings(s.take(j)).len() > 0,
    ensures
        non_empty_strings(s).len() > 0,
    decreases s.len() - j,
{
    if j == s.len() {
        assert(s.take(j) =~= s);
    } else {
        assert(s.drop_last().take(j) =~= s.take(j));
        lemma_non_empty_grows(s.drop_last(), j);
    }
}

/// Packs an invite into its compact form.
pub fn pack_invite(invite: &Invite) -> (r: Result<Vec<u8>, String>)
    ensures
        r matches Ok(b) ==> packed_invite(*invite) == Ok::<Seq<u8>, Seq<char>>(b@),
        r matches Err(e) ==> packed_invite(*invite) == Err::<Seq<u8>, Seq<char>>(e@),
{
    let name = invite.community.genesis.name.as_str().as_bytes();
    if name.len() == 0 || name.len() > 64 {
        return Err("nome da comunidade invalido".to_owned());
    }
    let owner = match hex_decode(invite.community.genesis.owner.as_str()) {
        Ok(b) => b,
        Err(_) => {
            return Err("convite invalido".to_owned());
        },
    };
    let signature = match hex_decode(invite.community.signature.as_str()) {
        Ok(b) => b,
        Err(_) => {
            return Err("convite invalido".to_owned());
        },
    };
    let live_key = match hex_decode(invite.community.live_key.as_str()) {
        Ok(b) => b,
        Err(_) => {
            return Err("convite invalido".to_owned());
        },
    };
    if owner.len() != 32 || signature.len() != 64 || live_key.len() != 32 {
        return Err("convite invalido".to_owned());
    }
    let version: u8 = if any_non_empty(&invite.relays) {
        3
    } else {
        2
    };
    let mut out: Vec<u8> = Vec::new();
    out.push(version);
    out.push(name.len() as u8);
    push_all(&mut out, name);
    push_all(&mut out, owner.as_slice());
    let u = invite.community.genesis.created_at as u64;
    let be: [u8; 8] = [(u >> 56u64) as u8, (u >> 48u64) as u8, (u >> 40u64) as u8, (u >> 32u64) as u8, (u >> 24u64) as u8, (u >> 16u64) as u8, (u >> 8u64) as u8, u as u8];
    assert(be@ =~= be64(invite.community.genesis.created_at));
    push_all(&mut out, &be);
    push_all(&mut out, signature.as_slice());
    push_all(&mut out, live_key.as_slice());
    pack_url_list(&mut out, invite.peers.as_slice());
    if version == 3 {
        pack_url_list(&mut out, invite.relays.as_slice());
    }
    proof {
        let want = packed_invite(*invite);
        assert(want matches Ok(w) && w =~= out@);
    }
    Ok(out)
}

/// Reads `k` URL entries from the front of `b` (each a length byte, then
/// that many UTF-8 bytes; empty entries are read and dropped): the URLs
/// and what follows, or nothing when the bytes run out or are no UTF-8.
pub open spec fn read_entries(b: Seq<u8>, k: nat) -> Option<(Seq<Seq<char>>, Seq<u8>)>
    decreases k,
{
    if k == 0 {
        Some((Seq::empty(), b))
    } else {
        match read_entries(b, (k - 1) as nat) {
            None => None,
            Some(p) => {
                let rest = p.1;
                if rest.len() >= 1 && rest.len() - 1 >= rest[0] && valid_utf8(rest.subrange(1, 1 + rest[0] as int)) {
                    let u = decode_utf8(rest.subrange(1, 1 + rest[0] as int));
                    Some(
                        (
                            if u.len() > 0 {
                                p.0.push(u)
                            } else {
                                p.0
                            },
                            rest.skip(1 + rest[0] as int),
                        ),
                    )
                } else {
                    None
                }
            },
        }
    }
}

/// Reads a packed URL list from the front of `b`: a count (at most 8),
/// then the entries.
pub open spec fn read_url_list(b: Seq<u8>) -> Option<(Seq<Seq<char>>, Seq<u8>)> {
    if b.len() >= 1 && b[0] <= 8 {
        read_entries(b.skip(1), b[0] as nat)
    } else {
        None
    }
}

/// Once reading runs out, reading more entries does too.
proof fn lemma_read_entries_none(b: Seq<u8>, k: nat, m: nat)
    requires
        k <= m,
        read_entries(b, k) is None,
    ensures
        read_entries(b, m) is None,
    decreases m - k,
{
    if k < m {
        lemma_read_entries_none(b, k, (m - 1) as nat);
    }
}

/// Reads a packed URL list at `i`: the URLs and where the list ends.
fn unpack_url_list(bytes: &[u8], i: usize) -> (r: Result<(Vec<String>, usize), String>)
    requires
        i <= bytes.len(),
    ensures
        r matches Ok(p) ==> read_url_list(bytes@.skip(i as int)) == Some((strings_view(p.0@), bytes@.skip(p.1 as int))) && p.1 <= bytes.len(),
        r is Err ==> read_url_list(bytes@.skip(i as int)) is None,
        r matches Err(e) ==> e@ == "convite invalido"@,
{
    let ghost b = bytes@.skip(i as int);
    if i >= bytes.len() {
        return Err("convite invalido".to_owned());
    }
    let count = bytes[i];
    assert(b[0] == count);
    if count > 8 {
        return Err("convite invalido".to_owned());
    }
    let mut pos: usize = i + 1;
    let ghost body = b.skip(1);
    assert(body =~= bytes@.skip(pos as int));
    let mut urls: Vec<String> = Vec::new();
    let mut k: u8 = 0;
    while k < count
        invariant
            k <= count <= 8,
            i < bytes.len(),
            pos <= bytes.len(),
            body == bytes@.skip(i + 1),
            read_entries(body, k as nat) == Some((strings_view(urls@), bytes@.skip(pos as int))),
            read_url_list(bytes@.skip(i as int)) == read_entries(body, count as nat),
        decreases count - k,
    {
        let ghost rest = bytes@.skip(pos as int);
        if pos >= bytes.len() {
            proof {
                assert(read_entries(body, (k + 1) as nat) is None);
                lemma_read_entries_none(body, (k + 1) as nat, count as nat);
            }
            return Err("convite invalido".to_owned());
        }
        let len = bytes[pos] as usize;
        assert(rest[0] == bytes@[pos as int]);
        if bytes.len() - pos - 1 < len {
            proof {
                assert(read_entries(body, (k + 1) as nat) is None);
                lemma_read_entries_none(body, (k + 1) as nat, count as nat);
            }
            return Err("convite invalido".to_owned());
        }
        let mut chunk: Vec<u8> = Vec::new();
        let mut j: usize = 0;
        while j < len
            invariant
                j <= len,
                pos + 1 + len <= bytes.len(),
                chunk@ == bytes@.subrange(pos + 1, pos + 1 + j),
            decreases len - j,
        {
            chunk.push(bytes[pos + 1 + j]);
            assert(bytes@.subrange(pos + 1, pos + 1 + j + 1) =~= bytes@.subrange(pos + 1, pos + 1 + j).push(bytes@[pos + 1 + j]));
            j += 1;
        }
        assert(chunk@ =~= rest.subrange(1, 1 + rest[0] as int));
        let ghost cv = chunk@;
        match utf8_string(chunk) {
            None => {
                proof {
                    assert(read_entries(body, (k + 1) as nat) is None);
                    lemma_read_entries_none(body, (k + 1) as nat, count as nat);
                }
                return Err("convite invalido".to_owned());
            },
            Some(url) => {
                let ghost before = strings_view(urls@);
                if !url.as_str().is_empty() {
                    urls.push(url);
                    assert(strings_view(urls@) =~= before.push(decode_utf8(cv)));
                }
                pos = pos + 1 + len;
                assert(rest.skip(1 + rest[0] as int) =~= bytes@.skip(pos as int));
            },
        }
        k += 1;
    }
    Ok((urls, pos))
}

/// What the compact form of an invite holds, if it is well formed: the
/// version, the name, the owner key, the founding time, the signature and
/// chat key bytes, the peers and the relays; nothing when a field runs
/// short, the version or name length is off, the name is no UTF-8, or
/// bytes are left over.
pub open spec fn read_invite(b: Seq<u8>) -> Option<(u8, Seq<char>, Seq<u8>, i64, Seq<u8>, Seq<u8>, Seq<Seq<char>>, Seq<Seq<char>>)> {
    if b.len() < 2 || (b[0] != 2 && b[0] != 3) || b[1] == 0 || b[1] > 64 {
        None
    } else {
        let nl = b[1] as int;
        let r = b.skip(2);
        if r.len() < nl + 136 || !valid_utf8(r.take(nl)) {
            None
        } else {
            match read_url_list(r.skip(nl + 136)) {
                None => None,
                Some(pl) => {
                    let after = if b[0] == 3 {
                        read_url_list(pl.1)
                    } else {
                        Some((Seq::<Seq<char>>::empty(), pl.1))
                    };
                    match after {
                        None => None,
                        Some(rl) => if rl.1.len() != 0 {
                            None
                        } else {
                            Some(
                                (
                                    b[0],
                                    decode_utf8(r.take(nl)),
                                    r.subrange(nl, nl + 32),
                                    from_be64(r.subrange(nl + 32, nl + 40)),
                                    r.subrange(nl + 40, nl + 104),
                                    r.subrange(nl + 104, nl + 136),
                                    pl.0,
                                    rl.0,
                                ),
                            )
                        },
                    }
                },
            }
        }
    }
}

/// Whether `inv` is the invite that a read compact form `t` describes:
/// keys in lower-case hex, the id the hash of the genesis.
pub open spec fn invite_of_packet(inv: Invite, t: (u8, Seq<char>, Seq<u8>, i64, Seq<u8>, Seq<u8>, Seq<Seq<char>>, Seq<Seq<char>>)) -> bool {
    &&& inv.v == t.0
    &&& inv.community.genesis.name@ == t.1
    &&& inv.community.genesis.owner@ == hex_chars(t.2)
    &&& inv.community.genesis.created_at == t.3
    &&& inv.community.signature@ == hex_chars(t.4)
    &&& inv.community.live_key@ == hex_chars(t.5)
    &&& strings_view(inv.peers@) == t.6
    &&& strings_view(inv.relays@) == t.7
    &&& inv.community.id@ == parts_id(t.1, hex_chars(t.2), t.3)
}

/// Whether the community of a read compact form checks out.
pub open spec fn packet_ok(t: (u8, Seq<char>, Seq<u8>, i64, Seq<u8>, Seq<u8>, Seq<Seq<char>>, Seq<Seq<char>>)) -> bool {
    community_parts_ok(t.1, hex_chars(t.2), t.3, parts_id(t.1, hex_chars(t.2), t.3), hex_chars(t.4))
}

/// The bytes from `i` up to `j`.
fn byte_range(b: &[u8], i: usize, j: usize) -> (r: Vec<u8>)
    requires
        i <= j <= b.len(),
    ensures
        r@ == b@.subrange(i as int, j as int),
{
    let mut out: Vec<u8> = Vec::new();
    let mut k: usize = i;
    while k < j
        invariant
            i <= k <= j,
            j <= b.len(),
            out@ == b@.subrange(i as int, k as int),
        decreases j - k,
    {
        out.push(b[k]);
        assert(b@.subrange(i as int, k + 1) =~= b@.subrange(i as int, k as int).push(b@[k as int]));
        k += 1;
    }
    out
}

/// Unpacks the compact form of an invite, checking its community; any
/// fault is `convite invalido`.
pub fn unpack_invite(bytes: &[u8]) -> (r: Result<Invite, String>)
    ensures
        r is Ok <==> (read_invite(bytes@) matches Some(t) && packet_ok(t)),
        r matches Ok(inv) ==> (read_invite(bytes@) matches Some(t) && invite_of_packet(inv, t)),
        r matches Err(e) ==> e@ == "convite invalido"@,
{
    let ghost b = bytes@;
    if bytes.len() < 2 || (bytes[0] != 2 && bytes[0] != 3) || bytes[1] == 0 || bytes[1] > 64 {
        return Err("convite invalido".to_owned());
    }
    let version = bytes[0];
    let nl = bytes[1] as usize;
    let ghost r = b.skip(2);
    if bytes.len() - 2 < nl + 136 {
        return Err("convite invalido".to_owned());
    }
    let name_bytes = byte_range(bytes, 2, 2 + nl);
    assert(name_bytes@ =~= r.take(nl as int));
    let name = match utf8_string(name_bytes) {
        Some(t) => t,
        None => {
            return Err("convite invalido".to_owned());
        },
    };
    let owner_b = byte_range(bytes, 2 + nl, 2 + nl + 32);
    let created_b = byte_range(bytes, 2 + nl + 32, 2 + nl + 40);
    let sig_b = byte_range(bytes, 2 + nl + 40, 2 + nl + 104);
    let key_b = byte_range(bytes, 2 + nl + 104, 2 + nl + 136);
    assert(owner_b@ =~= r.subrange(nl as int, nl + 32));
    assert(created_b@ =~= r.subrange(nl + 32, nl + 40));
    assert(sig_b@ =~= r.subrange(nl + 40, nl + 104));
    assert(key_b@ =~= r.subrange(nl + 104, nl + 136));
    let u: u64 = (created_b[0] as u64) << 56u64 | (created_b[1] as u64) << 48u64 | (created_b[2] as u64) << 40u64 | (created_b[3] as u64) << 32u64
        | (created_b[4] as u64) << 24u64 | (created_b[5] as u64) << 16u64 | (created_b[6] as u64) << 8u64 | (created_b[7] as u64);
    let created_at = u as i64;
    assert(created_at == from_be64(created_b@));
    assert(r.skip(nl + 136) =~= bytes@.skip(2 + nl + 136));
    let (peers, p1) = match unpack_url_list(bytes, 2 + nl + 136) {
        Ok(p) => p,
        Err(e) => {
            return Err(e);
        },
    };
    let (relays, p2) = if version == 3 {
        match unpack_url_list(bytes, p1) {
            Ok(p) => p,
            Err(e) => {
                return Err(e);
            },
        }
    } else {
        let none: Vec<String> = Vec::new();
        assert(strings_view(none@) =~= Seq::<Seq<char>>::empty());
        (none, p1)
    };
    if p2 != bytes.len() {
        return Err("convite invalido".to_owned());
    }
    let owner = hex_encode(owner_b.as_slice());
    let genesis = Genesis { name, owner, created_at };
    let payload = canonical_genesis(&genesis);
    let digest = sha256(payload.as_str().as_bytes());
    let id = hex_encode(digest.as_slice());
    let signature = hex_encode(sig_b.as_slice());
    let live_key = hex_encode(key_b.as_slice());
    let invite = Invite { v: version, community: Community { id, genesis, signature, live_key }, peers, relays };
    if !verify_community(&invite.community) {
        return Err("convite invalido".to_owned());
    }
    Ok(invite)
}

// ---------------------------------------------------------------------------
// Invite text
// ---------------------------------------------------------------------------
/// The characters of `s` that are not whitespace, in order.
pub open spec fn without_whitespace(s: Seq<char>) -> Seq<char>
    decreases s.len(),
{
    if s.len() == 0 {
        s
    } else if spec_is_whitespace(s.last()) {
        without_whitespace(s.drop_last())
    } else {
        without_whitespace(s.drop_last()).push(s.last())
    }
}

/// Whether an invite starts at the front of `s`: `cc/` or `chaincord:`,
/// ignoring ASCII case.
pub open spec fn invite_mark(s: Seq<char>) -> bool {
    starts_with_ci(s, "cc/"@) || starts_with_ci(s, "chaincord:"@)
}

/// Where the first invite mark in `s` starts, if any.
pub open spec fn invite_mark_at(s: Seq<char>) -> Option<int>
    decreases s.len(),
{
    if s.len() == 0 {
        None
    } else if invite_mark(s) {
        Some(0)
    } else {
        match invite_mark_at(s.drop_first()) {
            Some(i) => Some(i + 1),
            None => None,
        }
    }
}

/// The invite inside a text: from its first invite mark on, or the whole
/// text when it has none.
pub open spec fn invite_blob(s: Seq<char>) -> Seq<char> {
    match invite_mark_at(s) {
        Some(i) => s.skip(i),
        None => s,
    }
}

/// An invite without its `cc/`, `CC/` or `chaincord:` prefix.
pub open spec fn invite_body(s: Seq<char>) -> Seq<char> {
    if crate::text::has_prefix(s, "cc/"@) || crate::text::has_prefix(s, "CC/"@) {
        s.skip(3)
    } else if crate::text::has_prefix(s, "chaincord:"@) {
        s.skip(10)
    } else {
        s
    }
}

proof fn lemma_invite_mark_at(s: Seq<char>, i: int)
    requires
        0 <= i <= s.len(),
        forall|k: int| 0 <= k < i ==> !invite_mark(#[trigger] s.skip(k)),
        i < s.len() ==> invite_mark(s.skip(i)),
    ensures
        invite_mark_at(s) == (if i < s.len() { Some(i) } else { None::<int> }),
    decreases i,
{
    if s.len() > 0 {
        assert(s.skip(0) =~= s);
        if i > 0 {
            assert forall|k: int| 0 <= k < i - 1 implies !invite_mark(#[trigger] s.drop_first().skip(k)) by {
                assert(s.drop_first().skip(k) =~= s.skip(k + 1));
            }
            if i < s.len() {
                assert(s.drop_first().skip(i - 1) =~= s.skip(i));
            }
            lemma_invite_mark_at(s.drop_first(), i - 1);
        }
    }
}

/// The characters of a text that are not whitespace.
fn strip_whitespace(raw: &str) -> (r: Vec<char>)
    ensures
        r@ == without_whitespace(raw@),
{
    let cs = chars_of(raw);
    let mut out: Vec<char> = Vec::new();
    let mut i: usize = 0;
    while i < cs.len()
        invariant
            i <= cs.len(),
            cs@ == raw@,
            out@ == without_whitespace(cs@.take(i as int)),
        decreases cs.len() - i,
    {
        assert(cs@.take(i + 1).drop_last() =~= cs@.take(i as int));
        if !is_whitespace(cs[i]) {
            out.push(cs[i]);
        }
        i += 1;
    }
    assert(cs@.take(cs.len() as int) =~= cs@);
    out
}

/// The invite inside a text.
fn extract_invite_blob(raw: &[char]) -> (r: Vec<char>)
    ensures
        r@ == invite_blob(raw@),
{
    let mut i: usize = 0;
    while i < raw.len()
        invariant
            i <= raw.len(),
            forall|k: int| 0 <= k < i ==> !invite_mark(#[trigger] raw@.skip(k)),
        decreases raw.len() - i,
    {
        let rest = crate::text::slice_chars(raw, i, raw.len());
        assert(rest@ =~= raw@.skip(i as int));
        if has_prefix_ci(rest.as_slice(), "cc/") || has_prefix_ci(rest.as_slice(), "chaincord:") {
            proof {
                lemma_invite_mark_at(raw@, i as int);
            }
            return rest;
        }
        i += 1;
    }
    proof {
        lemma_invite_mark_at(raw@, raw.len() as int);
    }
    crate::text::slice_chars(raw, 0, raw.len())
}

/// Whether `s` begins with `p`.
fn chars_start_with(s: &[char], p: &str) -> (r: bool)
    ensures
        r == crate::text::has_prefix(s@, p@),
{
    let pc = chars_of(p);
    if s.len() < pc.len() {
        return false;
    }
    let head = crate::text::slice_chars(s, 0, pc.len());
    assert(head@ =~= s@.take(p@.len() as int));
    crate::text::chars_eq(head.as_slice(), pc.as_slice())
}

/// An invite without its prefix.
fn invite_prefix(blob: &[char]) -> (r: Vec<char>)
    ensures
        r@ == invite_body(blob@),
{
    proof {
        reveal_strlit("cc/");
        reveal_strlit("CC/");
        reveal_strlit("chaincord:");
    }
    if chars_start_with(blob, "cc/") || chars_start_with(blob, "CC/") {
        crate::text::slice_chars(blob, 3, blob.len())
    } else if chars_start_with(blob, "chaincord:") {
        crate::text::slice_chars(blob, 10, blob.len())
    } else {
        crate::text::slice_chars(blob, 0, blob.len())
    }
}

/// What an invite text decodes to: a checked compact invite, or the bytes
/// of an older JSON invite for the caller to read.
pub enum DecodedInvite {
    Compact(Invite),
    Json(Vec<u8>),
}

/// The bytes inside an invite text, if its base64 decodes under one of
/// the three engines tried in turn.
pub open spec fn invite_bytes(raw: Seq<char>) -> Option<Seq<u8>> {
    let body = invite_body(invite_blob(without_whitespace(raw)));
    if b64_url_decoded(body) is Some {
        b64_url_decoded(body)
    } else if b64_url_padded_decoded(body) is Some {
        b64_url_padded_decoded(body)
    } else {
        b64_std_decoded(body)
    }
}

/// Decodes an invite text: whitespace is ignored, the invite is taken from
/// its first `cc/` or `chaincord:` mark on, its prefix dropped and its
/// base64 decoded; bytes that begin with version 2 or 3 are a compact
/// invite, unpacked and checked; any other bytes are an older JSON invite.
/// Text that does not decode is `convite invalido`.
pub fn decode_invite(raw: &str) -> (r: Result<DecodedInvite, String>)
    ensures
        invite_bytes(raw@) is None ==> (r matches Err(e) && e@ == "convite invalido"@),
        invite_bytes(raw@) matches Some(b) ==> {
            if b.len() > 0 && (b[0] == 2 || b[0] == 3) {
                &&& (r is Ok <==> (read_invite(b) matches Some(t) && packet_ok(t)))
                &&& (r matches Ok(d) ==> (d matches DecodedInvite::Compact(inv) && read_invite(b) matches Some(t) && invite_of_packet(inv, t)))
                &&& (r matches Err(e) ==> e@ == "convite invalido"@)
            } else {
                (r matches Ok(d) && (d matches DecodedInvite::Json(v) && v@ == b))
            }
        },
        forall|b: Seq<u8>| #[trigger] b64_url(b) == without_whitespace(raw@).skip(3) && has_prefix(without_whitespace(raw@), "cc/"@) ==> invite_bytes(raw@) == Some(b),
        forall|b: Seq<u8>, i: int|
            invite_mark_at(without_whitespace(raw@)) == Some(i) && has_prefix(without_whitespace(raw@).skip(i), "cc/"@)
                && #[trigger] b64_url(b) == #[trigger] without_whitespace(raw@).skip(i).skip(3) ==> invite_bytes(raw@) == Some(b),
{
    let compact = strip_whitespace(raw);
    let blob = extract_invite_blob(compact.as_slice());
    let body_chars = invite_prefix(blob.as_slice());
    let body = string_from_chars(body_chars.as_slice());
    proof {
        let w = without_whitespace(raw@);
        if has_prefix(w, "cc/"@) {
            reveal_strlit("cc/");
            reveal_strlit("chaincord:");
            assert(invite_mark(w)) by {
                assert("cc/"@ =~= seq!['c', 'c', '/']);
                assert(w.take(3) == "cc/"@);
                assert(w.take(3)[0] == w[0] && w.take(3)[1] == w[1] && w.take(3)[2] == w[2]);
                assert(w[0] == 'c' && w[1] == 'c' && w[2] == '/');
            }
            assert(invite_blob(w) =~= w);
            assert(body@ == w.skip(3));
        }
    }
    let bytes = match b64_url_decode(body.as_str()) {
        Some(b) => b,
        None => match b64_url_padded_decode(body.as_str()) {
            Some(b) => b,
            None => match b64_std_decode(body.as_str()) {
                Some(b) => b,
                None => {
                    return Err("convite invalido".to_owned());
                },
            },
        },
    };
    if bytes.len() > 0 && (bytes[0] == 2 || bytes[0] == 3) {
        return match unpack_invite(bytes.as_slice()) {
            Ok(inv) => Ok(DecodedInvite::Compact(inv)),
            Err(e) => Err(e),
        };
    }
    Ok(DecodedInvite::Json(bytes))
}

/// Checks an invite read from an older JSON invite: version 1, 2 or 3,
/// and its community checks out; else `convite invalido`.
pub fn check_legacy_invite(invite: Invite) -> (r: Result<Invite, String>)
    ensures
        r is Ok <==> ((invite.v == 1 || invite.v == 2 || invite.v == 3) && community_ok(invite.community)),
        r matches Ok(inv) ==> inv == invite,
        r matches Err(e) ==> e@ == "convite invalido"@,
{
    if (invite.v != 1 && invite.v != 2 && invite.v != 3) || !verify_community(&invite.community) {
        return Err("convite invalido".to_owned());
    }
    Ok(invite)
}

/// The text of an invite: `cc/` and its compact form in URL-safe base64.
pub fn encode_invite(invite: &Invite) -> (r: String)
    requires
        packed_invite(*invite) is Ok,
    ensures
        (packed_invite(*invite) matches Ok(b) && r@ == "cc/"@ + b64_url(b)),
{
    let packed = match pack_invite(invite) {
        Ok(b) => b,
        Err(_) => {
            return String::new();
        },
    };
    let body = b64_url_encode(packed.as_slice());
    let mut out = "cc/".to_owned();
    append_str(&mut out, body.as_str());
    out
}

// ---------------------------------------------------------------------------
// The compact form gives the invite back
// ---------------------------------------------------------------------------
/// Whether `text` is the lower-case hex of `n` bytes.
pub open spec fn lower_hex_of_len(text: Seq<char>, n: nat) -> bool {
    hex_decoded(text) matches Some(b) && b.len() == n && hex_chars(b) == text
}

/// Whether every URL of a list is worth packing and there are at most four.
pub open spec fn urls_in_form(s: Seq<Seq<char>>) -> bool {
    s.len() <= 4 && forall|i: int| 0 <= i < s.len() ==> packable_url(#[trigger] s[i])
}

/// An invite in the form its compact text keeps whole: a name of 1 to 64
/// bytes, keys in lower-case hex of the right lengths, at most four peers
/// and four relays, none empty nor over 255 bytes, version 3 exactly when
/// it has relays, and a community that checks out.
pub open spec fn invite_in_form(inv: Invite) -> bool {
    let name = encode_utf8(inv.community.genesis.name@);
    &&& 1 <= name.len() <= 64
    &&& lower_hex_of_len(inv.community.genesis.owner@, 32)
    &&& lower_hex_of_len(inv.community.signature@, 64)
    &&& lower_hex_of_len(inv.community.live_key@, 32)
    &&& urls_in_form(strings_view(inv.peers@))
    &&& urls_in_form(strings_view(inv.relays@))
    &&& inv.v == (if inv.relays@.len() > 0 {
        3u8
    } else {
        2u8
    })
    &&& community_ok(inv.community)
}

/// The read form of an invite in form.
pub open spec fn packet_of(inv: Invite) -> (u8, Seq<char>, Seq<u8>, i64, Seq<u8>, Seq<u8>, Seq<Seq<char>>, Seq<Seq<char>>) {
    (
        inv.v,
        inv.community.genesis.name@,
        hex_decoded(inv.community.genesis.owner@).unwrap(),
        inv.community.genesis.created_at,
        hex_decoded(inv.community.signature@).unwrap(),
        hex_decoded(inv.community.live_key@).unwrap(),
        strings_view(inv.peers@),
        strings_view(inv.relays@),
    )
}

proof fn lemma_packable_keeps(s: Seq<Seq<char>>)
    requires
        forall|i: int| 0 <= i < s.len() ==> packable_url(#[trigger] s[i]),
    ensures
        packable_urls(s) == s,
        non_empty_strings(s) == s,
    decreases s.len(),
{
    if s.len() > 0 {
        assert forall|i: int| 0 <= i < s.drop_last().len() implies packable_url(#[trigger] s.drop_last()[i]) by {
            assert(s.drop_last()[i] == s[i]);
        }
        lemma_packable_keeps(s.drop_last());
        assert(packable_url(s[s.len() - 1]));
        assert(s.drop_last().push(s.last()) =~= s);
    }
}

proof fn lemma_read_entries(p: Seq<Seq<char>>, rest: Seq<u8>)
    requires
        forall|i: int| 0 <= i < p.len() ==> packable_url(#[trigger] p[i]),
    ensures
        read_entries(url_entries_bytes(p) + rest, p.len()) == Some((p, rest)),
    decreases p.len(),
{
    broadcast use vstd::utf8::encode_utf8_valid_utf8, vstd::utf8::encode_utf8_decode_utf8;

    if p.len() > 0 {
        let q = p.drop_last();
        let x = p.last();
        let e = encode_utf8(x);
        assert(packable_url(p[p.len() - 1]));
        let rest2 = seq![e.len() as u8] + e + rest;
        assert forall|i: int| 0 <= i < q.len() implies packable_url(#[trigger] q[i]) by {
            assert(q[i] == p[i]);
        }
        lemma_read_entries(q, rest2);
        assert(url_entries_bytes(p) + rest =~= url_entries_bytes(q) + rest2);
        assert(rest2[0] == e.len() as u8);
        assert(rest2.subrange(1, 1 + rest2[0] as int) =~= e);
        assert(rest2.skip(1 + rest2[0] as int) =~= rest);
        assert(q.push(x) =~= p);
    }
}

proof fn lemma_read_url_list(urls: Seq<Seq<char>>, rest: Seq<u8>)
    requires
        urls_in_form(urls),
    ensures
        read_url_list(url_list_bytes(urls) + rest) == Some((urls, rest)),
{
    lemma_packable_keeps(urls);
    let x = url_list_bytes(urls) + rest;
    assert(x.skip(1) =~= url_entries_bytes(urls) + rest);
    lemma_read_entries(urls, rest);
}

/// The compact form of an invite in form reads back as that invite: its
/// version, name, keys, founding time, peers and relays, with a community
/// that checks out. With `decode_invite`, which reads the bytes of
/// `cc/` and their URL-safe base64 back whatever whitespace stands in the
/// text, an invite's text decodes to the invite.
#[verifier::rlimit(80)]
pub proof fn law_invite_pack_roundtrip(inv: Invite)
    requires
        invite_in_form(inv),
    ensures
        packed_invite(inv) is Ok,
        packed_invite(inv) matches Ok(b) && b.len() > 0 && (b[0] == 2 || b[0] == 3) && read_invite(b) == Some(packet_of(inv)),
        packet_ok(packet_of(inv)),
        invite_of_packet(inv, packet_of(inv)),
{
    broadcast use vstd::utf8::encode_utf8_valid_utf8, vstd::utf8::encode_utf8_decode_utf8;

    let name = encode_utf8(inv.community.genesis.name@);
    let owner = hex_decoded(inv.community.genesis.owner@).unwrap();
    let sig = hex_decoded(inv.community.signature@).unwrap();
    let key = hex_decoded(inv.community.live_key@).unwrap();
    let pv = strings_view(inv.peers@);
    let rv = strings_view(inv.relays@);
    lemma_packable_keeps(rv);
    assert(rv.len() == inv.relays@.len());
    let v: u8 = if non_empty_strings(rv).len() > 0 {
        3
    } else {
        2
    };
    assert(v == inv.v);
    let l1 = url_list_bytes(pv);
    let l2 = if v == 3 {
        url_list_bytes(rv)
    } else {
        Seq::<u8>::empty()
    };
    let b = seq![v, name.len() as u8] + name + owner + be64(inv.community.genesis.created_at) + sig + key + l1 + l2;
    assert(packed_invite(inv) == Ok::<Seq<u8>, Seq<char>>(b));
    let nl = name.len() as int;
    let r = b.skip(2);
    assert(b[0] == v);
    assert(b[1] == name.len() as u8);
    assert(r =~= name + owner + be64(inv.community.genesis.created_at) + sig + key + (l1 + l2));
    assert(r.take(nl) =~= name);
    assert(r.subrange(nl, nl + 32) =~= owner);
    assert(r.subrange(nl + 32, nl + 40) =~= be64(inv.community.genesis.created_at));
    assert(r.subrange(nl + 40, nl + 104) =~= sig);
    assert(r.subrange(nl + 104, nl + 136) =~= key);
    assert(r.skip(nl + 136) =~= l1 + l2);
    lemma_read_url_list(pv, l2);
    if v == 3 {
        lemma_read_url_list(rv, Seq::empty());
        assert(l2 + Seq::<u8>::empty() =~= l2);
    }
    lemma_be64_roundtrip(inv.community.genesis.created_at);
    assert(read_invite(b) == Some(packet_of(inv)));
}

/// No invite mark starts at `k` within `prefix` in `prefix` followed by
/// text that starts with `cc/`, when none starts there in `prefix` alone.
proof fn lemma_no_mark_at(prefix: Seq<char>, tail: Seq<char>, k: int)
    requires
        0 <= k < prefix.len(),
        !invite_mark(prefix.skip(k)),
        tail.len() >= 3,
        tail[0] == 'c' && tail[1] == 'c' && tail[2] == '/',
    ensures
        !invite_mark((prefix + tail).skip(k)),
{
    reveal_strlit("cc/");
    reveal_strlit("chaincord:");
    let w = prefix + tail;
    let ps = prefix.skip(k);
    let ws = w.skip(k);
    let l = ps.len() as int;
    assert forall|j: int| 0 <= j < l implies ws[j] == ps[j] by {
        assert(ws[j] == w[k + j]);
    }
    assert(ws[l] == 'c' && ws[l + 1] == 'c' && ws[l + 2] == '/') by {
        assert(ws[l] == w[prefix.len() as int]);
        assert(ws[l + 1] == w[prefix.len() as int + 1]);
        assert(ws[l + 2] == w[prefix.len() as int + 2]);
    }
    assert("cc/"@.len() == 3 && "cc/"@[1] == 'c' && "cc/"@[2] == '/');
    if starts_with_ci(ws, "cc/"@) {
        if l >= 3 {
            assert(starts_with_ci(ps, "cc/"@));
        } else {
            assert(ascii_lower(ws[2]) == "cc/"@[2]);
            assert(ascii_lower(ws[1]) == "cc/"@[1]);
        }
    }
    if starts_with_ci(ws, "chaincord:"@) {
        if l >= 10 {
            assert(starts_with_ci(ps, "chaincord:"@));
        } else {
            assert(ascii_lower(ws[l]) == "chaincord:"@[l]);
            assert(ascii_lower(ws[l + 1]) == "chaincord:"@[l + 1]);
        }
    }
}

/// In a prefix without invite marks followed by `cc/` and more, the first
/// invite mark is that `cc/`.
proof fn lemma_first_mark(prefix: Seq<char>, tail: Seq<char>)
    requires
        forall|k: int| 0 <= k < prefix.len() ==> !invite_mark(#[trigger] prefix.skip(k)),
        tail.len() >= 3,
        tail[0] == 'c' && tail[1] == 'c' && tail[2] == '/',
    ensures
        invite_mark_at(prefix + tail) == Some(prefix.len() as int),
{
    reveal_strlit("cc/");
    let w = prefix + tail;
    let p = prefix.len() as int;
    assert forall|k: int| 0 <= k < p implies !invite_mark(#[trigger] w.skip(k)) by {
        lemma_no_mark_at(prefix, tail, k);
    }
    assert(w.skip(p) =~= tail);
    assert(starts_with_ci(tail, "cc/"@));
    lemma_invite_mark_at(w, p);
}

/// An invite's text decodes back to the invite: for an invite in form,
/// text whose characters other than whitespace are `cc/` and the URL-safe
/// base64 of its compact form, alone or after text that holds no invite
/// mark, has its first invite mark just at that `cc/`, and the base64
/// after it is that of the compact form, which reads back as the invite
/// with a community that checks out. So `decode_invite` gives a compact
/// invite equal to it in every field it carries.
pub proof fn law_invite_text_roundtrip(inv: Invite, raw: Seq<char>, prefix: Seq<char>)
    requires
        invite_in_form(inv),
        forall|k: int| 0 <= k < prefix.len() ==> !invite_mark(#[trigger] prefix.skip(k)),
        packed_invite(inv) matches Ok(b) && without_whitespace(raw) == prefix + "cc/"@ + b64_url(b),
    ensures
        packed_invite(inv) matches Ok(b) && {
            let w = without_whitespace(raw);
            &&& invite_mark_at(w) == Some(prefix.len() as int)
            &&& has_prefix(w.skip(prefix.len() as int), "cc/"@)
            &&& w.skip(prefix.len() as int).skip(3) == b64_url(b)
            &&& b.len() > 0 && (b[0] == 2 || b[0] == 3)
            &&& read_invite(b) == Some(packet_of(inv))
        },
        packet_ok(packet_of(inv)),
        invite_of_packet(inv, packet_of(inv)),
{
    law_invite_pack_roundtrip(inv);
    let b = packed_invite(inv)->Ok_0;
    let w = without_whitespace(raw);
    let p = prefix.len() as int;
    let tail = "cc/"@ + b64_url(b);
    reveal_strlit("cc/");
    assert(w =~= prefix + tail);
    assert(tail[0] == 'c' && tail[1] == 'c' && tail[2] == '/');
    lemma_first_mark(prefix, tail);
    assert(w.skip(p) =~= tail);
    assert(tail.take(3) =~= "cc/"@);
    assert(tail.skip(3) =~= b64_url(b));
}

// ---------------------------------------------------------------------------
// Sealed chat
// ---------------------------------------------------------------------------
/// The XChaCha20-Poly1305 ciphertext (with its tag) of a message under a
/// key and nonce.
pub uninterp spec fn xchacha_sealed(key: Seq<u8>, nonce: Seq<u8>, plain: Seq<u8>) -> Seq<u8>;

/// The message an XChaCha20-Poly1305 ciphertext opens to under a key and
/// nonce, if its tag checks out.
pub uninterp spec fn xchacha_opened(key: Seq<u8>, nonce: Seq<u8>, sealed: Seq<u8>) -> Option<Seq<u8>>;

/// The longest message XChaCha20-Poly1305 seals is one byte short of this
/// many bytes (64-byte blocks, a 32-bit block counter).
pub const XCHACHA_MAX_BYTES: u64 = 274877906880;

/// `Aead::encrypt` of `XChaCha20Poly1305` from `chacha20poly1305`: the
/// ciphertext with its tag; the crate refuses a message only when it holds
/// `64 * (2^32 - 1)` bytes or more. Decrypting the ciphertext under the
/// same key and nonce gives the message back.
#[verifier::external_body]
fn xchacha_encrypt(key: &[u8; 32], nonce: &[u8; 24], plain: &[u8]) -> (r: Option<Vec<u8>>)
    ensures
        r is Some <==> plain@.len() < XCHACHA_MAX_BYTES,
        r matches Some(c) ==> c@ == xchacha_sealed(key@, nonce@, plain@),
        r matches Some(c) ==> xchacha_opened(key@, nonce@, c@) == Some(plain@),
{
    let cipher = chacha20poly1305::XChaCha20Poly1305::new(key.into());
    match cipher.encrypt(chacha20poly1305::XNonce::from_slice(nonce), plain) {
        Ok(c) => Some(c),
        Err(_) => None,
    }
}

/// `Aead::decrypt` of `XChaCha20Poly1305` from `chacha20poly1305`: the
/// message, if the tag checks out.
#[verifier::external_body]
fn xchacha_decrypt(key: &[u8; 32], nonce: &[u8; 24], sealed: &[u8]) -> (r: Option<Vec<u8>>)
    ensures
        r matches Some(p) ==> xchacha_opened(key@, nonce@, sealed@) == Some(p@),
        r is None ==> xchacha_opened(key@, nonce@, sealed@) is None,
{
    let cipher = chacha20poly1305::XChaCha20Poly1305::new(key.into());
    match cipher.decrypt(chacha20poly1305::XNonce::from_slice(nonce), sealed) {
        Ok(p) => Some(p),
        Err(_) => None,
    }
}

/// A chat key: 32 bytes in hex; else `chave invalida`.
fn hex_to_32(text: &str) -> (r: Result<[u8; 32], String>)
    ensures
        r matches Ok(k) ==> hex_decoded(text@) == Some(k@),
        r is Ok <==> (hex_decoded(text@) is Some && hex_decoded(text@).unwrap().len() == 32),
        r matches Err(e) ==> e@ == "chave invalida"@,
{
    match hex_decode(text) {
        Ok(b) => {
            if b.len() != 32 {
                return Err("chave invalida".to_owned());
            }
            Ok(to_array32(&b))
        },
        Err(_) => Err("chave invalida".to_owned()),
    }
}

/// The first 24 bytes of a list that has them, as an array.
fn to_array24(v: &Vec<u8>) -> (r: [u8; 24])
    requires
        v@.len() == 24,
    ensures
        r@ == v@,
{
    let mut out = [0u8; 24];
    let mut i: usize = 0;
    while i < 24
        invariant
            i <= 24,
            v@.len() == 24,
            forall|j: int| 0 <= j < i ==> out@[j] == v@[j],
        decreases 24 - i,
    {
        out[i] = v[i];
        i += 1;
    }
    assert(out@ =~= v@);
    out
}

/// Seals a chat message body (its JSON bytes) under the community's chat
/// key with `nonce`: the ciphertext, signed with the nonce by the sender;
/// `chave invalida` for a key that is not 32 bytes of hex, `falha ao
/// cifrar` when the cipher refuses the message (only one of `XCHACHA_MAX_BYTES`
/// bytes or more).
pub fn seal_chat_with(identity: &Identity, live_key: &str, body: &[u8], nonce: &[u8; 24]) -> (r: Result<WireMessage, String>)
    ensures
        !(hex_decoded(live_key@) is Some && hex_decoded(live_key@).unwrap().len() == 32) ==> (r matches Err(e) && e@ == "chave invalida"@),
        r matches Err(e) ==> e@ == "chave invalida"@ || e@ == "falha ao cifrar"@,
        r matches Ok(w) ==> {
            let key = hex_decoded(live_key@).unwrap();
            let sealed = xchacha_sealed(key, nonce@, body@);
            &&& hex_decoded(live_key@) is Some && key.len() == 32
            &&& w.kind@ == "chat"@
            &&& w.sender@ == hex_chars(ed25519_public(identity.secret@))
            &&& w.nonce@ == hex_chars(nonce@)
            &&& w.ciphertext@ == hex_chars(sealed)
            &&& w.signature@ == hex_chars(ed25519_signature(identity.secret@, nonce@ + sealed))
            &&& w.community_id@.len() == 0
        },
        r matches Ok(w) ==> opened_body(live_key@, w) == Some(body@),
        r is Ok <==> (hex_decoded(live_key@) is Some && hex_decoded(live_key@).unwrap().len() == 32
            && body@.len() < XCHACHA_MAX_BYTES),
{
    let key = match hex_to_32(live_key) {
        Ok(k) => k,
        Err(e) => {
            return Err(e);
        },
    };
    let ciphertext = match xchacha_encrypt(&key, nonce, body) {
        Some(c) => c,
        None => {
            return Err("falha ao cifrar".to_owned());
        },
    };
    let mut to_sign: Vec<u8> = Vec::new();
    push_all(&mut to_sign, nonce);
    push_all(&mut to_sign, ciphertext.as_slice());
    let w = WireMessage {
        kind: "chat".to_owned(),
        sender: identity.public_hex(),
        nonce: hex_encode(nonce),
        ciphertext: hex_encode(ciphertext.as_slice()),
        signature: identity.sign(to_sign.as_slice()),
        community_id: String::new(),
    };
    proof {
        assert(to_sign@ == nonce@ + ciphertext@);
        lemma_hex_roundtrip(nonce@);
        lemma_hex_roundtrip(ciphertext@);
        lemma_hex_roundtrip(ed25519_public(identity.secret@));
        lemma_hex_roundtrip(ed25519_signature(identity.secret@, to_sign@));
        assert(signature_ok(w.sender@, nonce@ + ciphertext@, w.signature@));
    }
    Ok(w)
}

/// Seals a chat message body with a fresh random nonce.
pub fn seal_chat(identity: &Identity, live_key: &str, body: &[u8]) -> (r: Result<WireMessage, String>)
    ensures
        !(hex_decoded(live_key@) is Some && hex_decoded(live_key@).unwrap().len() == 32) ==> (r matches Err(e) && e@ == "chave invalida"@),
        r matches Err(e) ==> e@ == "chave invalida"@ || e@ == "falha ao cifrar"@,
        r matches Ok(w) ==> w.kind@ == "chat"@ && w.sender@ == hex_chars(ed25519_public(identity.secret@)) && w.nonce@.len() == 48,
        r matches Ok(w) ==> opened_body(live_key@, w) == Some(body@),
        r is Ok <==> (hex_decoded(live_key@) is Some && hex_decoded(live_key@).unwrap().len() == 32
            && body@.len() < XCHACHA_MAX_BYTES),
{
    let nonce_bytes = random_bytes(24);
    let nonce = to_array24(&nonce_bytes);
    proof {
        crate::encoding::lemma_hex_chars_len(nonce@);
    }
    seal_chat_with(identity, live_key, body, &nonce)
}

/// What a sealed message opens to under the chat key: its body, when the
/// nonce and ciphertext are hex, the nonce 24 bytes, the sender's
/// signature over nonce and ciphertext checks out, the key is 32 bytes of
/// hex and the ciphertext's tag checks out.
pub open spec fn opened_body(live_key: Seq<char>, msg: WireMessage) -> Option<Seq<u8>> {
    match (hex_decoded(msg.nonce@), hex_decoded(msg.ciphertext@)) {
        (Some(n), Some(c)) => if n.len() == 24 && signature_ok(msg.sender@, n + c, msg.signature@) {
            match hex_decoded(live_key) {
                Some(k) => if k.len() == 32 {
                    xchacha_opened(k, n, c)
                } else {
                    None
                },
                None => None,
            }
        } else {
            None
        },
        _ => None,
    }
}

/// Opens a sealed chat message: its body's bytes (JSON), or nothing.
pub fn open_chat(live_key: &str, msg: &WireMessage) -> (r: Option<Vec<u8>>)
    ensures
        r matches Some(b) ==> opened_body(live_key@, *msg) == Some(b@),
        r is None ==> opened_body(live_key@, *msg) is None,
{
    let nonce = match hex_decode(msg.nonce.as_str()) {
        Ok(b) => b,
        Err(_) => {
            return None;
        },
    };
    let ciphertext = match hex_decode(msg.ciphertext.as_str()) {
        Ok(b) => b,
        Err(_) => {
            return None;
        },
    };
    if nonce.len() != 24 {
        return None;
    }
    let mut to_sign: Vec<u8> = Vec::new();
    push_all(&mut to_sign, nonce.as_slice());
    push_all(&mut to_sign, ciphertext.as_slice());
    if !verify_ed25519(msg.sender.as_str(), to_sign.as_slice(), msg.signature.as_str()) {
        return None;
    }
    let key = match hex_to_32(live_key) {
        Ok(k) => k,
        Err(_) => {
            return None;
        },
    };
    let n = to_array24(&nonce);
    xchacha_decrypt(&key, &n, ciphertext.as_slice())
}

} // verus!
