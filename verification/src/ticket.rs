use vstd::prelude::*;

use crate::error::StreamError;
use crate::types::MediaHash;
use crate::text::{digits_of, hex_digit, hex_val, hex_digit_exec, hex_val_exec, u64_to_dec,
    append_bytes, string_from_utf8, take_num, parse_num};

verus! {

use vstd::utf8::{decode_utf8, encode_utf8, valid_utf8};
use vstd::string::StrSliceExecFns;
use vstd::string::StringExecFns;
use vstd::string::StringSliceAdditionalSpecFns;

// ============================================================
// The share ticket and its wire format
//
// A ticket carries everything a peer needs to locate and fetch
// one piece of content. On the wire it is the base64 form of a
// JSON object with five fields; the JSON body is printed here
// byte by byte, with every quote, backslash and control byte
// escaped as `\u00xx`, so that `decode` can be shown to invert
// `encode` for every ticket.
// ============================================================

/// An opaque shareable token: node identity, relay address,
/// content hash, display name, creation time.
#[derive(Debug, Clone, PartialEq)]
pub struct ShareTicket {
    pub node_id: String,
    pub relay_url: String,
    pub hash: MediaHash,
    /// File or collection name.
    pub name: String,
    pub created_at: u64,
}

/// The mathematical value of a ticket.
#[verifier::ext_equal]
pub ghost struct TicketView {
    pub node_id: Seq<char>,
    pub relay_url: Seq<char>,
    pub hash: Seq<char>,
    pub name: Seq<char>,
    pub created_at: u64,
}

impl View for ShareTicket {
    type V = TicketView;

    open spec fn view(&self) -> TicketView {
        TicketView {
            node_id: self.node_id@,
            relay_url: self.relay_url@,
            hash: self.hash@,
            name: self.name@,
            created_at: self.created_at,
        }
    }
}

// ============================================================
// JSON string escaping, at the byte level
// ============================================================

/// Bytes that may not stand raw inside a JSON string.
pub open spec fn esc_needed(b: u8) -> bool {
    b < 0x20 || b == 0x22 || b == 0x5c
}

/// How one byte of string content is printed: raw, or `\u00xx`.
pub open spec fn esc_byte(b: u8) -> Seq<u8> {
    if esc_needed(b) {
        seq![0x5c, 0x75, 0x30, 0x30, hex_digit(b / 16), hex_digit(b % 16)]
    } else {
        seq![b]
    }
}

/// The printed form of a string's bytes.
pub open spec fn esc(s: Seq<u8>) -> Seq<u8>
    decreases s.len(),
{
    if s.len() == 0 {
        Seq::empty()
    } else {
        esc_byte(s[0]) + esc(s.drop_first())
    }
}

pub proof fn lemma_esc_concat(a: Seq<u8>, b: Seq<u8>)
    ensures
        esc(a + b) == esc(a) + esc(b),
    decreases a.len(),
{
    if a.len() == 0 {
        assert(a + b =~= b);
        assert(esc(a) + esc(b) =~= esc(b));
    } else {
        assert((a + b).drop_first() =~= a.drop_first() + b);
        lemma_esc_concat(a.drop_first(), b);
        assert(esc(a + b) =~= esc(a) + esc(b));
    }
}

/// Extending the string by one byte appends that byte's printed form.
pub proof fn lemma_esc_snoc(s: Seq<u8>, j: int)
    requires
        0 <= j < s.len(),
    ensures
        esc(s.take(j + 1)) == esc(s.take(j)) + esc_byte(s[j]),
{
    assert(s.take(j + 1) =~= s.take(j) + seq![s[j]]);
    lemma_esc_concat(s.take(j), seq![s[j]]);
    assert(seq![s[j]].drop_first() =~= Seq::<u8>::empty());
    assert(esc(seq![s[j]]) =~= esc_byte(s[j]) + esc(Seq::<u8>::empty()));
    assert(esc(seq![s[j]]) =~= esc_byte(s[j]));
}

// ============================================================
// The JSON body
// ============================================================

pub open spec fn lit_open() -> Seq<u8> {
    seq![0x7b, 0x22, 0x6e, 0x6f, 0x64, 0x65, 0x5f, 0x69, 0x64, 0x22, 0x3a, 0x22]
}

pub open spec fn lit_relay() -> Seq<u8> {
    seq![0x2c, 0x22, 0x72, 0x65, 0x6c, 0x61, 0x79, 0x5f, 0x75, 0x72, 0x6c, 0x22, 0x3a, 0x22]
}

pub open spec fn lit_hash() -> Seq<u8> {
    seq![0x2c, 0x22, 0x68, 0x61, 0x73, 0x68, 0x22, 0x3a, 0x22]
}

pub open spec fn lit_name() -> Seq<u8> {
    seq![0x2c, 0x22, 0x6e, 0x61, 0x6d, 0x65, 0x22, 0x3a, 0x22]
}

pub open spec fn lit_created() -> Seq<u8> {
    seq![0x2c, 0x22, 0x63, 0x72, 0x65, 0x61, 0x74, 0x65, 0x64, 0x5f, 0x61, 0x74, 0x22, 0x3a]
}

/// The JSON body of a ticket:
/// `{"node_id":"...","relay_url":"...","hash":"...","name":"...","created_at":N}`
/// with each string field escaped as above.
pub open spec fn json_of_ticket(t: TicketView) -> Seq<u8> {
    lit_open() + (esc(encode_utf8(t.node_id)) + (seq![0x22u8] + (lit_relay() + (esc(
        encode_utf8(t.relay_url),
    ) + (seq![0x22u8] + (lit_hash() + (esc(encode_utf8(t.hash)) + (seq![0x22u8] + (lit_name() + (
    esc(encode_utf8(t.name)) + (seq![0x22u8] + (lit_created() + (digits_of(t.created_at as nat)
        + seq![0x7du8])))))))))))))
}

/// What one byte's standard base64 encoding holds.
pub uninterp spec fn base64_of(b: Seq<u8>) -> Seq<u8>;

/// The wire form of a ticket: base64 of its JSON body.
pub open spec fn ticket_wire(t: TicketView) -> Seq<u8> {
    base64_of(json_of_ticket(t))
}

/// Relies on base64's `STANDARD` engine `encode`: the standard
/// encoding of the input bytes, as an ASCII string.
#[verifier::external_body]
fn b64_encode(data: &Vec<u8>) -> (r: String)
    ensures
        encode_utf8(r@) == base64_of(data@),
{
    base64::Engine::encode(&base64::prelude::BASE64_STANDARD, data.as_slice())
}

/// Relies on base64's `STANDARD` engine `decode`: it inverts the
/// standard encoding, so input that is the encoding of some bytes
/// comes back as exactly those bytes.
#[verifier::external_body]
fn b64_decode(s: &str) -> (r: Option<Vec<u8>>)
    ensures
        r is None ==> forall|b: Seq<u8>| s.spec_bytes() != base64_of(b),
        r matches Some(v) ==> forall|b: Seq<u8>| s.spec_bytes() == base64_of(b) ==> v@ == b,
{
    match base64::Engine::decode(&base64::prelude::BASE64_STANDARD, s) {
        Ok(v) => Some(v),
        Err(_) => None,
    }
}

// ============================================================
// Printing
// ============================================================

/// Appends the escaped form of a string field.
fn append_esc(out: &mut Vec<u8>, field: &str)
    ensures
        final(out)@ == old(out)@ + esc(field.spec_bytes()),
{
    let b = field.as_bytes_vec();
    let ghost s = b@;
    let mut i: usize = 0;
    while i < b.len()
        invariant
            i <= s.len(),
            s == b@,
            out@ == old(out)@ + esc(s.take(i as int)),
        decreases s.len() - i,
    {
        let x = b[i];
        proof {
            lemma_esc_snoc(s, i as int);
        }
        if x < 0x20 || x == 0x22 || x == 0x5c {
            out.push(0x5c);
            out.push(0x75);
            out.push(0x30);
            out.push(0x30);
            out.push(hex_digit_exec(x / 16));
            out.push(hex_digit_exec(x % 16));
            proof {
                assert(out@ =~= old(out)@ + esc(s.take(i + 1)));
            }
        } else {
            out.push(x);
            proof {
                assert(out@ =~= old(out)@ + esc(s.take(i + 1)));
            }
        }
        i = i + 1;
    }
    proof {
        assert(s.take(s.len() as int) =~= s);
    }
}

fn lit_open_vec() -> (r: Vec<u8>)
    ensures
        r@ == lit_open(),
{
    let v: Vec<u8> = vec![0x7b, 0x22, 0x6e, 0x6f, 0x64, 0x65, 0x5f, 0x69, 0x64, 0x22, 0x3a, 0x22];
    proof {
        assert(v@ =~= lit_open());
    }
    v
}

fn lit_relay_vec() -> (r: Vec<u8>)
    ensures
        r@ == lit_relay(),
{
    let v: Vec<u8> = vec![0x2c, 0x22, 0x72, 0x65, 0x6c, 0x61, 0x79, 0x5f, 0x75, 0x72, 0x6c, 0x22,
        0x3a, 0x22];
    proof {
        assert(v@ =~= lit_relay());
    }
    v
}

fn lit_hash_vec() -> (r: Vec<u8>)
    ensures
        r@ == lit_hash(),
{
    let v: Vec<u8> = vec![0x2c, 0x22, 0x68, 0x61, 0x73, 0x68, 0x22, 0x3a, 0x22];
    proof {
        assert(v@ =~= lit_hash());
    }
    v
}

fn lit_name_vec() -> (r: Vec<u8>)
    ensures
        r@ == lit_name(),
{
    let v: Vec<u8> = vec![0x2c, 0x22, 0x6e, 0x61, 0x6d, 0x65, 0x22, 0x3a, 0x22];
    proof {
        assert(v@ =~= lit_name());
    }
    v
}

fn lit_created_vec() -> (r: Vec<u8>)
    ensures
        r@ == lit_created(),
{
    let v: Vec<u8> = vec![0x2c, 0x22, 0x63, 0x72, 0x65, 0x61, 0x74, 0x65, 0x64, 0x5f, 0x61, 0x74,
        0x22, 0x3a];
    proof {
        assert(v@ =~= lit_created());
    }
    v
}

/// Prints the JSON body of a ticket, exactly as `json_of_ticket` says.
pub fn ticket_to_json(t: &ShareTicket) -> (r: Vec<u8>)
    ensures
        r@ == json_of_ticket(t@),
{
    let mut out: Vec<u8> = Vec::new();
    let l1 = lit_open_vec();
    append_bytes(&mut out, &l1);
    append_esc(&mut out, t.node_id.as_str());
    out.push(0x22);
    let l2 = lit_relay_vec();
    append_bytes(&mut out, &l2);
    append_esc(&mut out, t.relay_url.as_str());
    out.push(0x22);
    let l3 = lit_hash_vec();
    append_bytes(&mut out, &l3);
    append_esc(&mut out, t.hash.0.as_str());
    out.push(0x22);
    let l4 = lit_name_vec();
    append_bytes(&mut out, &l4);
    append_esc(&mut out, t.name.as_str());
    out.push(0x22);
    let l5 = lit_created_vec();
    append_bytes(&mut out, &l5);
    let d = u64_to_dec(t.created_at);
    append_bytes(&mut out, &d);
    out.push(0x7d);
    proof {
        assert(out@ =~= json_of_ticket(t@));
    }
    out
}

impl ShareTicket {
    /// The wire form of this ticket: base64 of its JSON body.
    /// Together with `decode`'s contract this says that decoding
    /// an encoded ticket yields the ticket back.
    pub fn encode(&self) -> (r: String)
        ensures
            encode_utf8(r@) == ticket_wire(self@),
    {
        let json = ticket_to_json(self);
        b64_encode(&json)
    }
}

// ============================================================
// Parsing
// ============================================================

/// The escaped form of `s`, then a closing quote, stands at `i`.
pub open spec fn jstr_at(buf: Seq<u8>, i: int, s: Seq<u8>) -> bool {
    &&& 0 <= i
    &&& i + esc(s).len() + 1 <= buf.len()
    &&& buf.subrange(i, i + esc(s).len() as int) == esc(s)
    &&& buf[i + esc(s).len() as int] == 0x22
}

pub proof fn lemma_esc_decompose(s: Seq<u8>, j: int)
    requires
        0 <= j < s.len(),
    ensures
        esc(s) == esc(s.take(j)) + esc_byte(s[j]) + esc(s.skip(j + 1)),
{
    assert(s =~= s.take(j) + seq![s[j]] + s.skip(j + 1));
    lemma_esc_concat(s.take(j) + seq![s[j]], s.skip(j + 1));
    lemma_esc_concat(s.take(j), seq![s[j]]);
    assert(seq![s[j]].drop_first() =~= Seq::<u8>::empty());
    assert(esc(seq![s[j]]) =~= esc_byte(s[j]) + esc(Seq::<u8>::empty()));
    assert(esc(seq![s[j]]) =~= esc_byte(s[j]));
    assert(esc(s) =~= esc(s.take(j)) + esc_byte(s[j]) + esc(s.skip(j + 1)));
}

/// Where the escaped form of `s` stands at `i`, the bytes of the
/// `j`-th byte's printed form stand right after `esc(s.take(j))`.
proof fn lemma_jstr_byte(buf: Seq<u8>, i: int, s: Seq<u8>, j: int)
    requires
        jstr_at(buf, i, s),
        0 <= j < s.len(),
    ensures
        i + esc(s.take(j)).len() + esc_byte(s[j]).len() + 1 <= buf.len(),
        forall|t: int|
            0 <= t < esc_byte(s[j]).len() ==> buf[i + esc(s.take(j)).len() + t] == esc_byte(
                s[j],
            )[t],
{
    lemma_esc_decompose(s, j);
    let a = esc(s.take(j));
    let m = esc_byte(s[j]);
    assert forall|t: int| 0 <= t < m.len() implies buf[i + a.len() + t] == m[t] by {
        assert(esc(s)[a.len() + t] == m[t]);
        assert(buf.subrange(i, i + esc(s).len() as int)[a.len() + t] == buf[i + a.len() + t]);
    }
}

/// Reads one escaped string up to its closing quote. Where the
/// escaped form of some `s` stands at `i`, the parse succeeds and
/// yields exactly `s`.
fn parse_jstring(buf: &Vec<u8>, i: usize) -> (r: Option<(Vec<u8>, usize)>)
    requires
        i <= buf@.len(),
    ensures
        r matches Some(p) ==> {
            &&& i < p.1 <= buf@.len()
            &&& buf@.subrange(i as int, p.1 - 1) == esc(p.0@)
            &&& buf@[p.1 - 1] == 0x22
        },
        forall|s: Seq<u8>|
            #[trigger] jstr_at(buf@, i as int, s) ==> (r matches Some(p) && p.0@ == s && p.1 == i
                + esc(s).len() + 1),
{
    let mut out: Vec<u8> = Vec::new();
    let mut pos: usize = i;
    loop
        invariant
            i <= pos <= buf@.len(),
            buf@.subrange(i as int, pos as int) == esc(out@),
            forall|s: Seq<u8>|
                #[trigger] jstr_at(buf@, i as int, s) ==> out@.len() <= s.len() && out@ == s.take(
                    out@.len() as int,
                ) && pos == i + esc(s.take(out@.len() as int)).len(),
        decreases buf@.len() - pos,
    {
        let ghost j = out@.len() as int;
        if pos >= buf.len() {
            proof {
                assert forall|s: Seq<u8>| !(#[trigger] jstr_at(buf@, i as int, s)) by {
                    if jstr_at(buf@, i as int, s) {
                        if j < s.len() {
                            lemma_jstr_byte(buf@, i as int, s, j);
                            assert(false);
                        } else {
                            assert(s.take(s.len() as int) =~= s);
                            assert(pos == i + esc(s).len());
                            assert(false);
                        }
                    }
                }
            }
            return None;
        }
        let b = buf[pos];
        if b == 0x22 {
            proof {
                assert forall|s: Seq<u8>| #[trigger] jstr_at(buf@, i as int, s) implies out@ == s
                    && pos + 1 == i + esc(s).len() + 1 by {
                    if j < s.len() {
                        lemma_jstr_byte(buf@, i as int, s, j);
                        assert(buf@[pos as int] == esc_byte(s[j])[0]);
                        if esc_needed(s[j]) {
                            assert(false);
                        } else {
                            assert(s[j] == 0x22);
                            assert(false);
                        }
                    }
                    assert(s.take(s.len() as int) =~= s);
                    assert(pos == i + esc(s).len());
                }
            }
            return Some((out, pos + 1));
        } else if b == 0x5c {
            proof {
                assert forall|s: Seq<u8>| #[trigger] jstr_at(buf@, i as int, s) implies j < s.len()
                    && esc_needed(s[j]) && pos + 7 <= buf@.len() by {
                    if j == s.len() {
                        assert(s.take(s.len() as int) =~= s);
                        assert(pos == i + esc(s).len());
                        assert(buf@[pos as int] == 0x22);
                        assert(false);
                    }
                    lemma_jstr_byte(buf@, i as int, s, j);
                    assert(buf@[pos as int] == esc_byte(s[j])[0]);
                    if !esc_needed(s[j]) {
                        assert(esc_byte(s[j])[0] == s[j]);
                        assert(s[j] == 0x5c);
                        assert(false);
                    }
                    assert(esc_byte(s[j]).len() == 6);
                }
            }
            if buf.len() - pos < 6 {
                proof {
                    assert forall|s: Seq<u8>| !(#[trigger] jstr_at(buf@, i as int, s)) by {}
                }
                return None;
            }
            let b1 = buf[pos + 1];
            let b2 = buf[pos + 2];
            let b3 = buf[pos + 3];
            let d1 = buf[pos + 4];
            let d2 = buf[pos + 5];
            proof {
                assert forall|s: Seq<u8>| #[trigger] jstr_at(buf@, i as int, s) implies b1 == 0x75
                    && b2 == 0x30 && b3 == 0x30 && d1 == hex_digit(s[j] / 16) && d2 == hex_digit(
                    s[j] % 16,
                ) by {
                    lemma_jstr_byte(buf@, i as int, s, j);
                }
            }
            if b1 != 0x75 || b2 != 0x30 || b3 != 0x30 {
                proof {
                    assert forall|s: Seq<u8>| !(#[trigger] jstr_at(buf@, i as int, s)) by {}
                }
                return None;
            }
            let h1 = match hex_val_exec(d1) {
                Some(h) => h,
                None => {
                    proof {
                        assert forall|s: Seq<u8>| !(#[trigger] jstr_at(buf@, i as int, s)) by {
                            if jstr_at(buf@, i as int, s) {
                                assert(hex_val(hex_digit(s[j] / 16)) is Some);
                            }
                        }
                    }
                    return None;
                },
            };
            let h2 = match hex_val_exec(d2) {
                Some(h) => h,
                None => {
                    proof {
                        assert forall|s: Seq<u8>| !(#[trigger] jstr_at(buf@, i as int, s)) by {
                            if jstr_at(buf@, i as int, s) {
                                assert(hex_val(hex_digit(s[j] % 16)) is Some);
                            }
                        }
                    }
                    return None;
                },
            };
            let v = 16 * h1 + h2;
            proof {
                assert forall|s: Seq<u8>| #[trigger] jstr_at(buf@, i as int, s) implies v == s[j]
                    by {
                    assert(hex_val(hex_digit(s[j] / 16)) == Some((s[j] / 16) as u8));
                    assert(hex_val(hex_digit(s[j] % 16)) == Some((s[j] % 16) as u8));
                    vstd::arithmetic::div_mod::lemma_fundamental_div_mod(s[j] as int, 16);
                }
            }
            if !(v < 0x20 || v == 0x22 || v == 0x5c) {
                proof {
                    assert forall|s: Seq<u8>| !(#[trigger] jstr_at(buf@, i as int, s)) by {}
                }
                return None;
            }
            let c1 = hex_digit_exec(v / 16);
            let c2 = hex_digit_exec(v % 16);
            if d1 != c1 || d2 != c2 {
                proof {
                    assert forall|s: Seq<u8>| !(#[trigger] jstr_at(buf@, i as int, s)) by {}
                }
                return None;
            }
            proof {
                assert(esc_byte(v) =~= seq![0x5c, 0x75, 0x30, 0x30, d1, d2]);
                lemma_esc_concat(out@, seq![v]);
                assert(seq![v].drop_first() =~= Seq::<u8>::empty());
                assert(esc(seq![v]) =~= esc_byte(v) + esc(Seq::<u8>::empty()));
                assert(esc(seq![v]) =~= esc_byte(v));
                assert(buf@.subrange(i as int, pos + 6) =~= buf@.subrange(i as int, pos as int)
                    + seq![
                    buf@[pos as int],
                    buf@[pos + 1],
                    buf@[pos + 2],
                    buf@[pos + 3],
                    buf@[pos + 4],
                    buf@[pos + 5],
                ]);
                assert(out@.push(v) =~= out@ + seq![v]);
                assert(buf@.subrange(i as int, pos + 6) =~= esc(out@.push(v)));
                assert forall|s: Seq<u8>| #[trigger] jstr_at(buf@, i as int, s) implies out@.push(
                    v,
                ).len() <= s.len() && out@.push(v) == s.take(out@.push(v).len() as int) by {
                    assert(v == s[j]);
                    assert(s.take(j + 1) =~= s.take(j).push(s[j]));
                }
            }
            out.push(v);
            pos = pos + 6;
        } else if b < 0x20 {
            proof {
                assert forall|s: Seq<u8>| !(#[trigger] jstr_at(buf@, i as int, s)) by {
                    if jstr_at(buf@, i as int, s) {
                        if j == s.len() {
                            assert(s.take(s.len() as int) =~= s);
                            assert(pos == i + esc(s).len());
                            assert(buf@[pos as int] == 0x22);
                        } else {
                            lemma_jstr_byte(buf@, i as int, s, j);
                            if esc_needed(s[j]) {
                                assert(esc_byte(s[j])[0] == 0x5c);
                            } else {
                                assert(esc_byte(s[j])[0] == s[j]);
                            }
                        }
                    }
                }
            }
            return None;
        } else {
            proof {
                lemma_esc_concat(out@, seq![b]);
                assert(seq![b].drop_first() =~= Seq::<u8>::empty());
                assert(esc(seq![b]) =~= esc_byte(b) + esc(Seq::<u8>::empty()));
                assert(esc(seq![b]) =~= esc_byte(b));
                assert(esc_byte(b) =~= seq![b]);
                assert(buf@.subrange(i as int, pos + 1) =~= buf@.subrange(i as int, pos as int)
                    + seq![buf@[pos as int]]);
                assert(out@.push(b) =~= out@ + seq![b]);
                assert(buf@.subrange(i as int, pos + 1) =~= esc(out@.push(b)));
                assert forall|s: Seq<u8>| #[trigger] jstr_at(buf@, i as int, s) implies out@.push(
                    b,
                ).len() <= s.len() && out@.push(b) == s.take(out@.push(b).len() as int) && pos + 1
                    == i + esc(s.take(out@.push(b).len() as int)).len() by {
                    if j == s.len() {
                        assert(s.take(s.len() as int) =~= s);
                        assert(pos == i + esc(s).len());
                        assert(buf@[pos as int] == 0x22);
                        assert(false);
                    }
                    lemma_jstr_byte(buf@, i as int, s, j);
                    assert(buf@[pos as int] == esc_byte(s[j])[0]);
                    if esc_needed(s[j]) {
                        assert(esc_byte(s[j])[0] == 0x5c);
                        assert(false);
                    }
                    assert(s[j] == b);
                    assert(s.take(j + 1) =~= s.take(j).push(s[j]));
                }
            }
            out.push(b);
            pos = pos + 1;
        }
    }
}

/// Peeling one segment off the front of the unread tail.
proof fn lemma_peel(buf: Seq<u8>, p: int, seg: Seq<u8>, rest: Seq<u8>)
    requires
        0 <= p <= buf.len(),
        buf.skip(p) == seg + rest,
    ensures
        p + seg.len() + rest.len() == buf.len(),
        buf.subrange(p, p + seg.len() as int) == seg,
        buf.skip(p + seg.len() as int) == rest,
{
    assert(buf.skip(p).len() == buf.len() - p);
    assert forall|k: int| 0 <= k < seg.len() implies buf[p + k] == seg[k] by {
        assert(buf.skip(p)[k] == seg[k]);
        assert(buf.skip(p)[k] == buf[p + k]);
    }
    assert(buf.subrange(p, p + seg.len() as int) =~= seg);
    assert forall|k: int| 0 <= k < rest.len() implies buf[p + seg.len() + k] == rest[k] by {
        assert(buf.skip(p)[seg.len() + k] == rest[k]);
        assert(buf.skip(p)[seg.len() + k] == buf[p + seg.len() + k]);
    }
    assert(buf.skip(p + seg.len() as int) =~= rest);
}

/// Where `buf` is the JSON body of `t`, each literal, each escaped
/// field and the trailing number stand at their fixed offsets.
proof fn lemma_json_positions(buf: Seq<u8>, t: TicketView)
    requires
        buf == json_of_ticket(t),
    ensures
        ({
            let e1 = esc(encode_utf8(t.node_id));
            let e2 = esc(encode_utf8(t.relay_url));
            let e3 = esc(encode_utf8(t.hash));
            let e4 = esc(encode_utf8(t.name));
            let p2 = 12 + e1.len() + 1;
            let p3 = p2 + 14;
            let p4 = p3 + e2.len() + 1;
            let p5 = p4 + 9;
            let p6 = p5 + e3.len() + 1;
            let p7 = p6 + 9;
            let p8 = p7 + e4.len() + 1;
            let p9 = p8 + 14;
            &&& 12 <= buf.len()
            &&& buf.subrange(0, 12) == lit_open()
            &&& jstr_at(buf, 12, encode_utf8(t.node_id))
            &&& p2 + 14 <= buf.len()
            &&& buf.subrange(p2 as int, p3 as int) == lit_relay()
            &&& jstr_at(buf, p3 as int, encode_utf8(t.relay_url))
            &&& p4 + 9 <= buf.len()
            &&& buf.subrange(p4 as int, p5 as int) == lit_hash()
            &&& jstr_at(buf, p5 as int, encode_utf8(t.hash))
            &&& p6 + 9 <= buf.len()
            &&& buf.subrange(p6 as int, p7 as int) == lit_name()
            &&& jstr_at(buf, p7 as int, encode_utf8(t.name))
            &&& p8 + 14 <= buf.len()
            &&& buf.subrange(p8 as int, p9 as int) == lit_created()
            &&& parse_num(buf.skip(p9 as int), 0x7d) == Some::<(u64, Seq<u8>)>(
                (t.created_at, Seq::empty()),
            )
        }),
{
    let e1 = esc(encode_utf8(t.node_id));
    let e2 = esc(encode_utf8(t.relay_url));
    let e3 = esc(encode_utf8(t.hash));
    let e4 = esc(encode_utf8(t.name));
    let q = seq![0x22u8];
    let d = digits_of(t.created_at as nat);
    let r14 = d + seq![0x7du8];
    let r13 = lit_created() + r14;
    let r12 = q + r13;
    let r11 = e4 + r12;
    let r10 = lit_name() + r11;
    let r9 = q + r10;
    let r8 = e3 + r9;
    let r7 = lit_hash() + r8;
    let r6 = q + r7;
    let r5 = e2 + r6;
    let r4 = lit_relay() + r5;
    let r3 = q + r4;
    let r2 = e1 + r3;
    assert(buf.skip(0) =~= buf);
    lemma_peel(buf, 0, lit_open(), r2);
    lemma_peel(buf, 12, e1, r3);
    let c1 = 12 + e1.len() as int;
    lemma_peel(buf, c1, q, r4);
    assert(buf[c1] == buf.subrange(c1, c1 + 1)[0]);
    assert(jstr_at(buf, 12, encode_utf8(t.node_id)));
    let p2 = c1 + 1;
    lemma_peel(buf, p2, lit_relay(), r5);
    let p3 = p2 + 14;
    lemma_peel(buf, p3, e2, r6);
    let c2 = p3 + e2.len() as int;
    lemma_peel(buf, c2, q, r7);
    assert(buf[c2] == buf.subrange(c2, c2 + 1)[0]);
    assert(jstr_at(buf, p3, encode_utf8(t.relay_url)));
    let p4 = c2 + 1;
    lemma_peel(buf, p4, lit_hash(), r8);
    let p5 = p4 + 9;
    lemma_peel(buf, p5, e3, r9);
    let c3 = p5 + e3.len() as int;
    lemma_peel(buf, c3, q, r10);
    assert(buf[c3] == buf.subrange(c3, c3 + 1)[0]);
    assert(jstr_at(buf, p5, encode_utf8(t.hash)));
    let p6 = c3 + 1;
    lemma_peel(buf, p6, lit_name(), r11);
    let p7 = p6 + 9;
    lemma_peel(buf, p7, e4, r12);
    let c4 = p7 + e4.len() as int;
    lemma_peel(buf, c4, q, r13);
    assert(buf[c4] == buf.subrange(c4, c4 + 1)[0]);
    assert(jstr_at(buf, p7, encode_utf8(t.name)));
    let p8 = c4 + 1;
    lemma_peel(buf, p8, lit_created(), r14);
    let p9 = p8 + 14;
    assert(buf.skip(p9) =~= d + seq![0x7du8] + Seq::<u8>::empty());
    crate::text::lemma_parse_num_round(t.created_at, 0x7d, Seq::empty());
}

/// Matches an exact literal at `i`.
fn expect_lit(buf: &Vec<u8>, i: usize, lit: &Vec<u8>) -> (r: Option<usize>)
    requires
        i <= buf@.len(),
    ensures
        r matches Some(ni) ==> ni == i + lit@.len() && ni <= buf@.len() && buf@.subrange(
            i as int,
            ni as int,
        ) == lit@,
        r is None ==> !(i + lit@.len() <= buf@.len() && buf@.subrange(
            i as int,
            i + lit@.len() as int,
        ) == lit@),
{
    if buf.len() - i < lit.len() {
        return None;
    }
    let mut k: usize = 0;
    while k < lit.len()
        invariant
            i + lit@.len() <= buf@.len() <= usize::MAX,
            k <= lit@.len(),
            forall|z: int| 0 <= z < k ==> buf@[i + z] == lit@[z],
        decreases lit@.len() - k,
    {
        if buf[i + k] != lit[k] {
            proof {
                if buf@.subrange(i as int, i + lit@.len() as int) == lit@ {
                    assert(buf@.subrange(i as int, i + lit@.len() as int)[k as int] == buf@[i
                        + k]);
                }
            }
            return None;
        }
        k = k + 1;
    }
    proof {
        assert(buf@.subrange(i as int, (i + lit@.len()) as int) =~= lit@);
    }
    Some(i + lit.len())
}

/// Reads a ticket's JSON body back. Where the bytes are the printed
/// form of some ticket, the parse succeeds and yields exactly it.
#[verifier::rlimit(100)]
fn parse_json_ticket(buf: &Vec<u8>) -> (r: Option<ShareTicket>)
    ensures
        forall|t: TicketView|
            buf@ == #[trigger] json_of_ticket(t) ==> (r matches Some(tk) && tk@ == t),
{
    let l1 = lit_open_vec();
    let i1 = match expect_lit(buf, 0, &l1) {
        Some(x) => x,
        None => {
            proof {
                assert forall|t: TicketView| buf@ != #[trigger] json_of_ticket(t) by {
                    if buf@ == json_of_ticket(t) {
                        lemma_json_positions(buf@, t);
                    }
                }
            }
            return None;
        },
    };
    let (nb, i2) = match parse_jstring(buf, i1) {
        Some(p) => p,
        None => {
            proof {
                assert forall|t: TicketView| buf@ != #[trigger] json_of_ticket(t) by {
                    if buf@ == json_of_ticket(t) {
                        lemma_json_positions(buf@, t);
                    }
                }
            }
            return None;
        },
    };
    let l2 = lit_relay_vec();
    let i3 = match expect_lit(buf, i2, &l2) {
        Some(x) => x,
        None => {
            proof {
                assert forall|t: TicketView| buf@ != #[trigger] json_of_ticket(t) by {
                    if buf@ == json_of_ticket(t) {
                        lemma_json_positions(buf@, t);
                    }
                }
            }
            return None;
        },
    };
    let (rb, i4) = match parse_jstring(buf, i3) {
        Some(p) => p,
        None => {
            proof {
                assert forall|t: TicketView| buf@ != #[trigger] json_of_ticket(t) by {
                    if buf@ == json_of_ticket(t) {
                        lemma_json_positions(buf@, t);
                    }
                }
            }
            return None;
        },
    };
    let l3 = lit_hash_vec();
    let i5 = match expect_lit(buf, i4, &l3) {
        Some(x) => x,
        None => {
            proof {
                assert forall|t: TicketView| buf@ != #[trigger] json_of_ticket(t) by {
                    if buf@ == json_of_ticket(t) {
                        lemma_json_positions(buf@, t);
                    }
                }
            }
            return None;
        },
    };
    let (hb, i6) = match parse_jstring(buf, i5) {
        Some(p) => p,
        None => {
            proof {
                assert forall|t: TicketView| buf@ != #[trigger] json_of_ticket(t) by {
                    if buf@ == json_of_ticket(t) {
                        lemma_json_positions(buf@, t);
                    }
                }
            }
            return None;
        },
    };
    let l4 = lit_name_vec();
    let i7 = match expect_lit(buf, i6, &l4) {
        Some(x) => x,
        None => {
            proof {
                assert forall|t: TicketView| buf@ != #[trigger] json_of_ticket(t) by {
                    if buf@ == json_of_ticket(t) {
                        lemma_json_positions(buf@, t);
                    }
                }
            }
            return None;
        },
    };
    let (mb, i8) = match parse_jstring(buf, i7) {
        Some(p) => p,
        None => {
            proof {
                assert forall|t: TicketView| buf@ != #[trigger] json_of_ticket(t) by {
                    if buf@ == json_of_ticket(t) {
                        lemma_json_positions(buf@, t);
                    }
                }
            }
            return None;
        },
    };
    let l5 = lit_created_vec();
    let i9 = match expect_lit(buf, i8, &l5) {
        Some(x) => x,
        None => {
            proof {
                assert forall|t: TicketView| buf@ != #[trigger] json_of_ticket(t) by {
                    if buf@ == json_of_ticket(t) {
                        lemma_json_positions(buf@, t);
                    }
                }
            }
            return None;
        },
    };
    let (created_at, i10) = match take_num(buf, i9, 0x7d) {
        Some(p) => p,
        None => {
            proof {
                assert forall|t: TicketView| buf@ != #[trigger] json_of_ticket(t) by {
                    if buf@ == json_of_ticket(t) {
                        lemma_json_positions(buf@, t);
                    }
                }
            }
            return None;
        },
    };
    if i10 != buf.len() {
        proof {
            assert forall|t: TicketView| buf@ != #[trigger] json_of_ticket(t) by {
                if buf@ == json_of_ticket(t) {
                    lemma_json_positions(buf@, t);
                    assert(buf@.skip(i10 as int).len() == 0);
                }
            }
        }
        return None;
    }
    proof {
        broadcast use vstd::utf8::encode_utf8_valid_utf8, vstd::utf8::encode_utf8_decode_utf8;

    }
    let node_id = match string_from_utf8(nb) {
        Some(s) => s,
        None => {
            proof {
                assert forall|t: TicketView| buf@ != #[trigger] json_of_ticket(t) by {
                    if buf@ == json_of_ticket(t) {
                        lemma_json_positions(buf@, t);
                    }
                }
            }
            return None;
        },
    };
    let relay_url = match string_from_utf8(rb) {
        Some(s) => s,
        None => {
            proof {
                assert forall|t: TicketView| buf@ != #[trigger] json_of_ticket(t) by {
                    if buf@ == json_of_ticket(t) {
                        lemma_json_positions(buf@, t);
                    }
                }
            }
            return None;
        },
    };
    let hash = match string_from_utf8(hb) {
        Some(s) => s,
        None => {
            proof {
                assert forall|t: TicketView| buf@ != #[trigger] json_of_ticket(t) by {
                    if buf@ == json_of_ticket(t) {
                        lemma_json_positions(buf@, t);
                    }
                }
            }
            return None;
        },
    };
    let name = match string_from_utf8(mb) {
        Some(s) => s,
        None => {
            proof {
                assert forall|t: TicketView| buf@ != #[trigger] json_of_ticket(t) by {
                    if buf@ == json_of_ticket(t) {
                        lemma_json_positions(buf@, t);
                    }
                }
            }
            return None;
        },
    };
    let tk = ShareTicket { node_id, relay_url, hash: MediaHash(hash), name, created_at };
    proof {
        assert forall|t: TicketView| buf@ == #[trigger] json_of_ticket(t) implies tk@ =~= t by {
            lemma_json_positions(buf@, t);
        }
    }
    Some(tk)
}

impl ShareTicket {
    /// Reads a wire-form ticket back. Decoding the wire form of any
    /// ticket yields exactly that ticket; every failure (malformed
    /// base64, or a payload that is not a printed ticket) is an
    /// invalid-hash error.
    pub fn decode(ticket: &str) -> (r: Result<ShareTicket, StreamError>)
        ensures
            forall|t: TicketView|
                ticket.spec_bytes() == #[trigger] ticket_wire(t) ==> (r matches Ok(tk) && tk@
                    == t),
            r matches Err(e) ==> e matches StreamError::InvalidHash(_),
    {
        let bytes = match b64_decode(ticket) {
            Some(v) => v,
            None => {
                return Err(
                    StreamError::InvalidHash(String::from_str("ticket is not valid base64")),
                );
            },
        };
        match parse_json_ticket(&bytes) {
            Some(tk) => Ok(tk),
            None => Err(
                StreamError::InvalidHash(String::from_str("ticket payload is not a ticket")),
            ),
        }
    }
}

} // verus!
