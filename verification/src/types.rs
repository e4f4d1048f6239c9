use vstd::prelude::*;

use crate::text::{digits_of, lp, num_field, parse_lp, parse_num, take_lp,
    take_num, string_from_utf8};

verus! {

use vstd::utf8::{decode_utf8, encode_utf8, valid_utf8};

// ============================================================
// Value types
// ============================================================

/// A content hash: the lowercase hex form of a 256-bit digest over
/// file bytes, used both as storage key and as network reference.
/// Equality and ordering go by the string value.
#[derive(Debug, Clone, PartialEq, Eq, Hash)]
pub struct MediaHash(pub String);

impl View for MediaHash {
    type V = Seq<char>;

    open spec fn view(&self) -> Seq<char> {
        self.0@
    }
}

impl From<String> for MediaHash {
    fn from(s: String) -> (r: Self) {
        MediaHash(s)
    }
}

impl vstd::std_specs::convert::FromSpecImpl<String> for MediaHash {
    open spec fn obeys_from_spec() -> bool {
        true
    }

    open spec fn from_spec(s: String) -> Self {
        MediaHash(s)
    }
}

/// Metadata for one indexed file. The index keeps at most one record
/// per path: the path is the primary key.
#[derive(Debug, Clone, PartialEq)]
pub struct FileMetadata {
    /// Absolute canonical path of the file on the host.
    pub path: String,
    /// Content hash of the file's bytes.
    pub hash: MediaHash,
    /// File size in bytes.
    pub size: u64,
    /// MIME type, e.g. `video/mp4`.
    pub mime_type: String,
    /// Unix timestamp (seconds) of file creation.
    pub created_at: u64,
}

/// The mathematical value of a metadata record.
#[verifier::ext_equal]
pub ghost struct MetaView {
    pub path: Seq<char>,
    pub hash: Seq<char>,
    pub size: u64,
    pub mime_type: Seq<char>,
    pub created_at: u64,
}

impl View for FileMetadata {
    type V = MetaView;

    open spec fn view(&self) -> MetaView {
        MetaView {
            path: self.path@,
            hash: self.hash@,
            size: self.size,
            mime_type: self.mime_type@,
            created_at: self.created_at,
        }
    }
}

// ============================================================
// The record encoding
//
// The index stores each record under its path key as one compact
// byte string: the three text fields length-prefixed, the two
// numbers in decimal. `encode_meta` is the format's definition;
// `decode_meta` reads any stored bytes back and refuses malformed
// ones, and the round-trip lemma shows nothing is lost.
// ============================================================

/// The stored form of a record.
pub open spec fn encode_meta(m: MetaView) -> Seq<u8> {
    lp(encode_utf8(m.path)) + lp(encode_utf8(m.hash)) + num_field(m.size) + lp(
        encode_utf8(m.mime_type),
    ) + num_field(m.created_at)
}

/// The text fields' encodings fit the length prefix.
pub open spec fn meta_wf(m: MetaView) -> bool {
    &&& encode_utf8(m.path).len() <= u64::MAX
    &&& encode_utf8(m.hash).len() <= u64::MAX
    &&& encode_utf8(m.mime_type).len() <= u64::MAX
}

/// The record denoted by stored bytes, or `None` if malformed.
pub open spec fn decode_meta(s: Seq<u8>) -> Option<MetaView> {
    match parse_lp(s) {
        None => None,
        Some((pb, s1)) => match parse_lp(s1) {
            None => None,
            Some((hb, s2)) => match parse_num(s2, 0x3b) {
                None => None,
                Some((size, s3)) => match parse_lp(s3) {
                    None => None,
                    Some((mb, s4)) => match parse_num(s4, 0x3b) {
                        None => None,
                        Some((created_at, s5)) => {
                            if s5.len() == 0 && valid_utf8(pb) && valid_utf8(hb) && valid_utf8(mb) {
                                Some(
                                    MetaView {
                                        path: decode_utf8(pb),
                                        hash: decode_utf8(hb),
                                        size,
                                        mime_type: decode_utf8(mb),
                                        created_at,
                                    },
                                )
                            } else {
                                None
                            }
                        },
                    },
                },
            },
        },
    }
}

/// Decoding a stored record recovers it exactly.
#[verifier::rlimit(60)]
pub proof fn lemma_meta_round_trip(m: MetaView)
    requires
        meta_wf(m),
    ensures
        decode_meta(encode_meta(m)) == Some(m),
{
    broadcast use vstd::utf8::encode_utf8_valid_utf8, vstd::utf8::encode_utf8_decode_utf8;

    let pb = encode_utf8(m.path);
    let hb = encode_utf8(m.hash);
    let mb = encode_utf8(m.mime_type);
    let s = encode_meta(m);
    let s1 = lp(hb) + num_field(m.size) + lp(mb) + num_field(m.created_at);
    assert(s =~= lp(pb) + s1);
    crate::text::lemma_parse_lp_round(pb, s1);
    let s2 = num_field(m.size) + lp(mb) + num_field(m.created_at);
    assert(s1 =~= lp(hb) + s2);
    crate::text::lemma_parse_lp_round(hb, s2);
    let s3 = lp(mb) + num_field(m.created_at);
    assert(s2 =~= digits_of(m.size as nat) + seq![0x3b] + s3);
    crate::text::lemma_parse_num_round(m.size, 0x3b, s3);
    let s4 = num_field(m.created_at);
    crate::text::lemma_parse_lp_round(mb, s4);
    assert(s4 =~= digits_of(m.created_at as nat) + seq![0x3b] + Seq::<u8>::empty());
    crate::text::lemma_parse_num_round(m.created_at, 0x3b, Seq::<u8>::empty());
    assert(decode_meta(s) == Some(
        MetaView {
            path: decode_utf8(pb),
            hash: decode_utf8(hb),
            size: m.size,
            mime_type: decode_utf8(mb),
            created_at: m.created_at,
        },
    ));
    assert(decode_meta(s)->Some_0 =~= m);
}

/// Serializes a record into its stored form.
pub fn encode_meta_bytes(m: &FileMetadata) -> (r: Vec<u8>)
    ensures
        r@ == encode_meta(m@),
        meta_wf(m@),
{
    let mut out: Vec<u8> = Vec::new();
    crate::text::append_lp(&mut out, m.path.as_str());
    crate::text::append_lp(&mut out, m.hash.0.as_str());
    crate::text::append_num(&mut out, m.size);
    crate::text::append_lp(&mut out, m.mime_type.as_str());
    crate::text::append_num(&mut out, m.created_at);
    proof {
        assert(out@ =~= encode_meta(m@));
    }
    out
}

/// Reads a stored record back; `None` exactly on malformed bytes.
pub fn decode_meta_bytes(v: &Vec<u8>) -> (r: Option<FileMetadata>)
    ensures
        match r {
            Some(m) => decode_meta(v@) == Some(m@),
            None => decode_meta(v@) is None,
        },
{
    proof {
        assert(v@.skip(0) =~= v@);
    }
    let (pb, i1) = match take_lp(v, 0) {
        Some(p) => p,
        None => { return None; },
    };
    let (hb, i2) = match take_lp(v, i1) {
        Some(p) => p,
        None => { return None; },
    };
    let (size, i3) = match take_num(v, i2, 0x3b) {
        Some(p) => p,
        None => { return None; },
    };
    let (mb, i4) = match take_lp(v, i3) {
        Some(p) => p,
        None => { return None; },
    };
    let (created_at, i5) = match take_num(v, i4, 0x3b) {
        Some(p) => p,
        None => { return None; },
    };
    if i5 != v.len() {
        proof {
            assert(v@.skip(i5 as int).len() > 0);
        }
        return None;
    }
    proof {
        assert(v@.skip(i5 as int).len() == 0);
    }
    let path = match string_from_utf8(pb) {
        Some(s) => s,
        None => { return None; },
    };
    let hash = match string_from_utf8(hb) {
        Some(s) => s,
        None => { return None; },
    };
    let mime_type = match string_from_utf8(mb) {
        Some(s) => s,
        None => { return None; },
    };
    let m = FileMetadata { path, hash: MediaHash(hash), size, mime_type, created_at };
    proof {
        assert(decode_meta(v@)->Some_0 =~= m@);
    }
    Some(m)
}

} // verus!
