use vstd::prelude::*;

use crate::error::StreamError;
use crate::text::{hex_encode, hex_decode, hex_of, lemma_ascii_bytes_utf8, lemma_parse_hex_of,
    parse_hex, string_from_utf8};
use crate::ticket::ShareTicket;
use crate::types::MediaHash;
use crate::watcher::{blake3_digest, blake3_hash_hex, content_hash, hash_chars_of};

verus! {

use vstd::utf8::{decode_utf8, encode_utf8, valid_utf8};
use vstd::string::StrSliceExecFns;
use vstd::string::StringExecFns;

// ============================================================
// Node identity
//
// The node's secret key is persisted hex-encoded in a file under
// its data directory, generated once and reused across restarts;
// the public identifier derives deterministically from it. The
// codec below is what makes the identity persistent: what one run
// writes, the next run reads back bit for bit.
// ============================================================

/// ASCII whitespace, as trimmed around the stored key.
pub open spec fn is_ws(b: u8) -> bool {
    b == 0x20 || b == 0x09 || b == 0x0a || b == 0x0d
}

pub open spec fn trim_end_ws(s: Seq<u8>) -> Seq<u8>
    decreases s.len(),
{
    if s.len() > 0 && is_ws(s.last()) {
        trim_end_ws(s.drop_last())
    } else {
        s
    }
}

pub open spec fn trim_start_ws(s: Seq<u8>) -> Seq<u8>
    decreases s.len(),
{
    if s.len() > 0 && is_ws(s[0]) {
        trim_start_ws(s.drop_first())
    } else {
        s
    }
}

/// The stored key text with surrounding whitespace removed.
pub open spec fn trim_ws(s: Seq<u8>) -> Seq<u8> {
    trim_start_ws(trim_end_ws(s))
}

/// What a key file's content denotes: its trimmed hex decoding,
/// accepted only at the fixed key length of 32 bytes.
pub open spec fn key_of_file(content: Seq<char>) -> Option<Seq<u8>> {
    match parse_hex(trim_ws(encode_utf8(content))) {
        Some(k) => if k.len() == 32 {
            Some(k)
        } else {
            None
        },
        None => None,
    }
}

proof fn lemma_trim_end_char(s: Seq<u8>, j: int)
    requires
        0 <= j <= s.len(),
        forall|t: int| j <= t < s.len() ==> is_ws(#[trigger] s[t]),
        j == 0 || !is_ws(s[j - 1]),
    ensures
        trim_end_ws(s) == s.take(j),
    decreases s.len(),
{
    if j == s.len() {
        assert(s.take(j) =~= s);
    } else {
        assert(is_ws(s.last()));
        assert(forall|t: int|
            j <= t < s.drop_last().len() ==> is_ws(#[trigger] s.drop_last()[t]));
        lemma_trim_end_char(s.drop_last(), j);
        assert(s.drop_last().take(j) =~= s.take(j));
    }
}

proof fn lemma_trim_start_char(s: Seq<u8>, i: int)
    requires
        0 <= i <= s.len(),
        forall|t: int| 0 <= t < i ==> is_ws(#[trigger] s[t]),
        i == s.len() || !is_ws(s[i]),
    ensures
        trim_start_ws(s) == s.skip(i),
    decreases i,
{
    if i == 0 {
        assert(s.skip(0) =~= s);
        if s.len() > 0 {
            assert(!is_ws(s[0]));
        }
    } else {
        assert(is_ws(s[0]));
        assert(forall|t: int|
            0 <= t < i - 1 ==> is_ws(#[trigger] s.drop_first()[t]));
        lemma_trim_start_char(s.drop_first(), i - 1);
        assert(s.drop_first().skip(i - 1) =~= s.skip(i));
    }
}

/// Hex text holds no whitespace, so trimming leaves it alone.
proof fn lemma_trim_hex(b: Seq<u8>)
    ensures
        trim_ws(hex_of(b)) == hex_of(b),
{
    crate::text::lemma_hex_digits_ascii(b);
    let h = hex_of(b);
    if h.len() > 0 {
        assert(!is_ws(h[h.len() - 1]));
        assert(!is_ws(h[0]));
    }
    lemma_trim_end_char(h, h.len() as int);
    assert(h.take(h.len() as int) =~= h);
    lemma_trim_start_char(h, 0);
    assert(h.skip(0) =~= h);
}

/// Serializes a secret key for its file: lowercase hex.
pub fn encode_secret_key(key: &Vec<u8>) -> (r: String)
    ensures
        encode_utf8(r@) == hex_of(key@),
{
    let h = hex_encode(key);
    proof {
        crate::text::lemma_hex_digits_ascii(key@);
        lemma_ascii_bytes_utf8(h@);
        broadcast use vstd::utf8::decode_utf8_encode_utf8;

    }
    match string_from_utf8(h) {
        Some(s) => s,
        None => {
            proof {
                assert(false);
            }
            String::new()
        },
    }
}

/// Reads a stored secret key back: trims whitespace, decodes the
/// hex, and accepts exactly 32 bytes; anything else is rejected.
pub fn parse_secret_key(content: &str) -> (r: Result<Vec<u8>, StreamError>)
    ensures
        r matches Ok(k) ==> key_of_file(content@) == Some(k@) && k@.len() == 32,
        r is Err ==> key_of_file(content@) is None,
        r matches Err(e) ==> e matches StreamError::Io(_),
{
    let b = content.as_bytes_vec();
    let ghost s = b@;
    let n = b.len();
    let mut j: usize = n;
    while j > 0 && (b[j - 1] == 0x20 || b[j - 1] == 0x09 || b[j - 1] == 0x0a || b[j - 1] == 0x0d)
        invariant
            s == b@,
            j <= n == s.len(),
            forall|t: int| j <= t < s.len() ==> is_ws(#[trigger] s[t]),
        decreases j,
    {
        j = j - 1;
    }
    proof {
        lemma_trim_end_char(s, j as int);
    }
    let mut i: usize = 0;
    while i < j && (b[i] == 0x20 || b[i] == 0x09 || b[i] == 0x0a || b[i] == 0x0d)
        invariant
            s == b@,
            i <= j <= s.len(),
            forall|t: int| j <= t < s.len() ==> is_ws(#[trigger] s[t]),
            forall|t: int| 0 <= t < i ==> is_ws(#[trigger] s[t]),
        decreases j - i,
    {
        i = i + 1;
    }
    proof {
        if i < j {
            assert(s.take(j as int)[i as int] == s[i as int]);
        }
        lemma_trim_start_char(s.take(j as int), i as int);
    }
    let mut core: Vec<u8> = Vec::new();
    let mut t: usize = i;
    while t < j
        invariant
            s == b@,
            i <= t <= j <= s.len(),
            core@ == s.subrange(i as int, t as int),
        decreases j - t,
    {
        core.push(b[t]);
        proof {
            assert(s.subrange(i as int, t + 1) =~= s.subrange(i as int, t as int).push(
                s[t as int],
            ));
        }
        t = t + 1;
    }
    proof {
        assert(s.take(j as int).skip(i as int) =~= s.subrange(i as int, j as int));
        assert(core@ =~= trim_ws(s));
    }
    match hex_decode(&core) {
        None => Err(StreamError::Io(String::from_str("key file is not hex"))),
        Some(k) => {
            if k.len() != 32 {
                return Err(StreamError::Io(String::from_str("key file has the wrong length")));
            }
            Ok(k)
        },
    }
}

/// A key written by `encode_secret_key` is read back exactly, so two
/// node instantiations against the same data directory derive their
/// identity from the same key.
pub proof fn lemma_identity_round_trip(key: Seq<u8>)
    requires
        key.len() == 32,
    ensures
        key_of_file(decode_utf8(hex_of(key))) == Some(key),
{
    crate::text::lemma_hex_digits_ascii(key);
    lemma_ascii_bytes_utf8(hex_of(key));
    broadcast use vstd::utf8::decode_utf8_encode_utf8;

    lemma_trim_hex(key);
    lemma_parse_hex_of(key);
}

/// The node's public identifier: a one-way digest of the secret
/// key, so it derives deterministically from the persisted key.
pub fn node_id_of_key(key: &Vec<u8>) -> (r: String)
    ensures
        encode_utf8(r@) == hex_of(blake3_digest(key@)),
{
    blake3_hash_hex(key)
}

// ============================================================
// Collections
//
// A collection manifest is the fixed-width concatenation of its
// members' raw 32-byte digests — no header, no count; the member
// count is the manifest's length over the digest width. The
// manifest is itself stored content-addressed, so the collection
// hash is a function of the ordered member list alone.
// ============================================================

/// The views of a hash list.
pub open spec fn hash_views(hs: Seq<MediaHash>) -> Seq<Seq<char>> {
    hs.map_values(|h: MediaHash| h@)
}

/// The manifest of an ordered hash list, or `None` when any member
/// fails to parse as a well-formed 32-byte hex digest.
pub open spec fn manifest_of(hs: Seq<Seq<char>>) -> Option<Seq<u8>>
    decreases hs.len(),
{
    if hs.len() == 0 {
        Some(Seq::empty())
    } else {
        match manifest_of(hs.drop_last()) {
            None => None,
            Some(m) => match parse_hex(encode_utf8(hs.last())) {
                Some(d) => if d.len() == 32 {
                    Some(m + d)
                } else {
                    None
                },
                None => None,
            },
        }
    }
}

/// A malformed member anywhere poisons the whole manifest.
proof fn lemma_manifest_none_prefix(hs: Seq<Seq<char>>, i: int)
    requires
        0 <= i < hs.len(),
        manifest_of(hs.take(i + 1)) is None,
    ensures
        manifest_of(hs) is None,
    decreases hs.len(),
{
    if hs.len() == i + 1 {
        assert(hs.take(i + 1) =~= hs);
    } else {
        assert(hs.drop_last().take(i + 1) =~= hs.take(i + 1));
        lemma_manifest_none_prefix(hs.drop_last(), i);
    }
}

/// Builds the manifest bytes for an ordered hash list: each member's
/// digest decoded and concatenated, 32 bytes per member; an
/// invalid-hash error if any member is malformed.
pub fn collection_manifest(hashes: &Vec<MediaHash>) -> (r: Result<Vec<u8>, StreamError>)
    ensures
        r matches Ok(v) ==> manifest_of(hash_views(hashes@)) == Some(v@) && v@.len() == 32
            * hashes@.len(),
        r is Err ==> manifest_of(hash_views(hashes@)) is None,
        r matches Err(e) ==> e matches StreamError::InvalidHash(_),
{
    let ghost hv = hash_views(hashes@);
    let mut out: Vec<u8> = Vec::new();
    let mut i: usize = 0;
    while i < hashes.len()
        invariant
            i <= hashes@.len(),
            hv == hash_views(hashes@),
            manifest_of(hv.take(i as int)) == Some(out@),
            out@.len() == 32 * i,
        decreases hashes@.len() - i,
    {
        proof {
            assert(hv.take(i + 1).drop_last() =~= hv.take(i as int));
            assert(hv.take(i + 1).last() == hashes@[i as int]@);
        }
        let hb = hashes[i].0.as_bytes_vec();
        let d = match hex_decode(&hb) {
            Some(d) => d,
            None => {
                proof {
                    assert(manifest_of(hv.take(i + 1)) is None);
                    lemma_manifest_none_prefix(hv, i as int);
                }
                return Err(
                    StreamError::InvalidHash(String::from_str("collection member is not hex")),
                );
            },
        };
        if d.len() != 32 {
            proof {
                assert(manifest_of(hv.take(i + 1)) is None);
                lemma_manifest_none_prefix(hv, i as int);
            }
            return Err(
                StreamError::InvalidHash(
                    String::from_str("collection member is not a 32-byte digest"),
                ),
            );
        }
        crate::text::append_bytes(&mut out, &d);
        proof {
            assert(manifest_of(hv.take(i + 1)) == Some(out@));
        }
        i = i + 1;
    }
    proof {
        assert(hv.take(hv.len() as int) =~= hv);
    }
    Ok(out)
}

/// Builds a collection over the given ordered hashes and returns
/// the collection's own content hash: the digest of the manifest
/// bytes. The result is a function of the ordered hash list alone,
/// so the same list always yields the same collection hash.
pub fn create_collection(hashes: &Vec<MediaHash>) -> (r: Result<MediaHash, StreamError>)
    ensures
        r matches Ok(h) ==> manifest_of(hash_views(hashes@)) is Some && h@ == hash_chars_of(
            manifest_of(hash_views(hashes@))->Some_0,
        ),
        r is Err ==> manifest_of(hash_views(hashes@)) is None,
        r matches Err(e) ==> e matches StreamError::InvalidHash(_),
{
    let manifest = collection_manifest(hashes)?;
    Ok(content_hash(&manifest))
}

// ============================================================
// Ticket issuance
// ============================================================

/// What a node presents to its peers: its identifier and the relay
/// address it is reachable through; with no relay discovered the
/// address reads as the text `None`.
pub struct NodeProfile {
    pub node_id: String,
    pub relay_url: String,
}

/// Relies on `std::time::SystemTime::now` and `duration_since`:
/// the current unix time in seconds. Nothing is promised of the
/// clock's value.
#[verifier::external_body]
pub fn unix_now_secs() -> u64 {
    match std::time::SystemTime::now().duration_since(std::time::UNIX_EPOCH) {
        Ok(d) => d.as_secs(),
        Err(_) => 0,
    }
}

impl NodeProfile {
    /// Issues a shareable ticket: a pure, synchronous capture of the
    /// node id, the current relay address, the content hash, the
    /// display name and the current time; no network or storage I/O.
    pub fn generate_ticket(&self, hash: MediaHash, name: String) -> (t: ShareTicket)
        ensures
            t@.node_id == self.node_id@,
            t@.relay_url == self.relay_url@,
            t@.hash == hash@,
            t@.name == name@,
    {
        let created_at = unix_now_secs();
        ShareTicket {
            node_id: self.node_id.clone(),
            relay_url: self.relay_url.clone(),
            hash,
            name,
            created_at,
        }
    }
}

} // verus!
