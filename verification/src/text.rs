use vstd::prelude::*;

verus! {

use vstd::string::StrSliceExecFns;
use vstd::string::StringSliceAdditionalSpecFns;

// ============================================================
// Decimal numerals
//
// The index's record encoding, the ticket's JSON body and the
// transcoder's argument list all print unsigned numbers in
// decimal ASCII. `digits_of` is the canonical numeral; `dec_val`
// reads one back; the lemmas tie the two together so that every
// parser below can recover exactly the number that was printed.
// ============================================================

/// ASCII decimal digit.
pub open spec fn is_digit(b: u8) -> bool {
    0x30 <= b <= 0x39
}

/// The canonical decimal numeral of `n`, most significant digit first.
pub open spec fn digits_of(n: nat) -> Seq<u8>
    decreases n,
{
    if n < 10 {
        seq![(0x30 + n) as u8]
    } else {
        digits_of(n / 10).push((0x30 + n % 10) as u8)
    }
}

/// The number denoted by a digit string (most significant first).
pub open spec fn dec_val(s: Seq<u8>) -> nat
    decreases s.len(),
{
    if s.len() == 0 {
        0
    } else {
        dec_val(s.drop_last()) * 10 + (if is_digit(s.last()) {
            (s.last() - 0x30) as nat
        } else {
            0
        })
    }
}

pub proof fn lemma_digits_of_digits(n: nat)
    ensures
        digits_of(n).len() >= 1,
        forall|i: int| 0 <= i < digits_of(n).len() ==> is_digit(#[trigger] digits_of(n)[i]),
    decreases n,
{
    if n >= 10 {
        lemma_digits_of_digits(n / 10);
    }
}

/// Reading the canonical numeral of `n` gives back `n`.
pub proof fn lemma_dec_val_digits_of(n: nat)
    ensures
        dec_val(digits_of(n)) == n,
    decreases n,
{
    if n < 10 {
        assert(digits_of(n) == seq![(0x30 + n) as u8]);
        assert(digits_of(n).drop_last() =~= Seq::<u8>::empty());
        assert(dec_val(Seq::<u8>::empty()) == 0);
        assert(digits_of(n).last() == (0x30 + n) as u8);
        assert((0x30 + n) as u8 == 0x30 + n);
        assert(is_digit(digits_of(n).last()));
        assert(dec_val(digits_of(n)) == n);
    } else {
        lemma_dec_val_digits_of(n / 10);
        assert(digits_of(n).drop_last() =~= digits_of(n / 10));
        assert(digits_of(n).last() == (0x30 + n % 10) as u8);
        assert((0x30 + n % 10) as u8 == 0x30 + n % 10);
        assert(dec_val(digits_of(n)) == (n / 10) * 10 + n % 10);
        vstd::arithmetic::div_mod::lemma_fundamental_div_mod(n as int, 10);
        assert((n / 10) * 10 + n % 10 == n);
    }
}

/// Appending one digit multiplies the value by ten and adds the digit.
pub proof fn lemma_dec_val_step(s: Seq<u8>, i: int)
    requires
        0 <= i < s.len(),
        is_digit(s[i]),
    ensures
        dec_val(s.take(i + 1)) == dec_val(s.take(i)) * 10 + (s[i] - 0x30),
{
    assert(s.take(i + 1).drop_last() =~= s.take(i));
    assert(s.take(i + 1).last() == s[i]);
}

// ============================================================
// The longest digit prefix, and delimiter-terminated numbers
// ============================================================

pub open spec fn digit_prefix_len(s: Seq<u8>) -> nat
    decreases s.len(),
{
    if s.len() == 0 || !is_digit(s[0]) {
        0
    } else {
        1 + digit_prefix_len(s.drop_first())
    }
}

/// Any point where digits stop marks the longest digit prefix.
pub proof fn lemma_digit_prefix_char(s: Seq<u8>, k: int)
    requires
        0 <= k <= s.len(),
        forall|j: int| 0 <= j < k ==> is_digit(#[trigger] s[j]),
        k == s.len() || !is_digit(s[k]),
    ensures
        digit_prefix_len(s) == k,
    decreases s.len(),
{
    if k == 0 {
    } else {
        assert(is_digit(s[0]));
        lemma_digit_prefix_char(s.drop_first(), k - 1);
    }
}

/// A number terminated by a delimiter, read from the front of `s`:
/// the digit run, its value (which must fit in `u64`), then the
/// delimiter; what follows is handed back.
pub open spec fn parse_num(s: Seq<u8>, delim: u8) -> Option<(u64, Seq<u8>)> {
    let k = digit_prefix_len(s) as int;
    if k == 0 {
        None
    } else if dec_val(s.take(k)) > u64::MAX {
        None
    } else if k < s.len() && s[k] == delim {
        Some(((dec_val(s.take(k)) as u64), s.skip(k + 1)))
    } else {
        None
    }
}

/// Printing a number and a non-digit delimiter, then parsing,
/// recovers the number and the remainder.
pub proof fn lemma_parse_num_round(n: u64, delim: u8, rest: Seq<u8>)
    requires
        !is_digit(delim),
    ensures
        parse_num(digits_of(n as nat) + seq![delim] + rest, delim) == Some::<(u64, Seq<u8>)>(
            (n, rest),
        ),
{
    let d = digits_of(n as nat);
    let s = d + seq![delim] + rest;
    lemma_digits_of_digits(n as nat);
    lemma_dec_val_digits_of(n as nat);
    assert(forall|j: int| 0 <= j < d.len() ==> is_digit(#[trigger] s[j]));
    assert(s[d.len() as int] == delim);
    lemma_digit_prefix_char(s, d.len() as int);
    assert(s.take(d.len() as int) =~= d);
    assert(s.skip(d.len() as int + 1) =~= rest);
}

/// Prints `n` in decimal, exactly as `digits_of` says.
pub fn u64_to_dec(n: u64) -> (r: Vec<u8>)
    ensures
        r@ == digits_of(n as nat),
    decreases n,
{
    if n < 10 {
        let mut v: Vec<u8> = Vec::new();
        v.push(0x30 + n as u8);
        proof {
            assert(v@ =~= digits_of(n as nat));
        }
        v
    } else {
        let mut v = u64_to_dec(n / 10);
        v.push(0x30 + (n % 10) as u8);
        proof {
            assert(v@ =~= digits_of(n as nat));
        }
        v
    }
}

/// Reads a delimiter-terminated decimal number starting at `i`,
/// exactly as `parse_num` says on the tail of the buffer.
pub fn take_num(buf: &Vec<u8>, i: usize, delim: u8) -> (r: Option<(u64, usize)>)
    requires
        i <= buf@.len(),
    ensures
        match r {
            Some(p) => {
                &&& i <= p.1 <= buf@.len()
                &&& parse_num(buf@.skip(i as int), delim) == Some::<(u64, Seq<u8>)>(
                    (p.0, buf@.skip(p.1 as int)),
                )
            },
            None => parse_num(buf@.skip(i as int), delim) is None,
        },
{
    let ghost s = buf@.skip(i as int);
    let mut j: usize = i;
    let mut acc: u64 = 0;
    let mut over: bool = false;
    while j < buf.len() && 0x30 <= buf[j] && buf[j] <= 0x39
        invariant
            i <= j <= buf@.len(),
            s == buf@.skip(i as int),
            forall|t: int| 0 <= t < j - i ==> is_digit(#[trigger] s[t]),
            !over ==> acc as nat == dec_val(s.take(j - i)),
            over ==> dec_val(s.take(j - i)) > u64::MAX,
        decreases buf@.len() - j,
    {
        let d: u8 = buf[j] - 0x30;
        proof {
            assert(s[j - i] == buf@[j as int]);
            lemma_dec_val_step(s, j - i);
        }
        if over || acc > (u64::MAX - d as u64) / 10 {
            proof {
                if !over {
                    assert(dec_val(s.take(j - i)) * 10 + d as nat > u64::MAX) by (nonlinear_arith)
                        requires
                            dec_val(s.take(j - i)) == acc as nat,
                            acc > (u64::MAX - d as u64) / 10,
                            d < 10,
                    ;
                }
                assert(dec_val(s.take(j - i + 1)) > u64::MAX) by (nonlinear_arith)
                    requires
                        dec_val(s.take(j - i + 1)) == dec_val(s.take(j - i)) * 10 + (s[j - i]
                            - 0x30),
                        s[j - i] - 0x30 == d as int,
                        dec_val(s.take(j - i)) * 10 + d as nat > u64::MAX,
                ;
            }
            over = true;
        } else {
            acc = acc * 10 + d as u64;
        }
        j = j + 1;
    }
    let ghost k = j - i;
    proof {
        lemma_digit_prefix_char(s, k);
        assert(s.take(k) =~= s.take(k as int));
    }
    if j == i {
        return None;
    }
    if over {
        return None;
    }
    if j < buf.len() && buf[j] == delim {
        proof {
            assert(s[k] == buf@[j as int]);
            assert(s.skip(k + 1) =~= buf@.skip(j as int + 1));
        }
        Some((acc, j + 1))
    } else {
        proof {
            if k < s.len() {
                assert(s[k] == buf@[j as int]);
            }
        }
        None
    }
}

// ============================================================
// Length-prefixed fields
//
// A text field is stored as its byte length in decimal, a colon,
// then the bytes; a number as its decimal digits and a semicolon.
// ============================================================

/// A length-prefixed field: `len ':' bytes`.
pub open spec fn lp(b: Seq<u8>) -> Seq<u8> {
    digits_of(b.len()) + seq![0x3a] + b
}

/// A number field: `digits ';'`.
pub open spec fn num_field(n: u64) -> Seq<u8> {
    digits_of(n as nat) + seq![0x3b]
}

/// Reads one length-prefixed field off the front of `s`.
pub open spec fn parse_lp(s: Seq<u8>) -> Option<(Seq<u8>, Seq<u8>)> {
    match parse_num(s, 0x3a) {
        None => None,
        Some((n, rest)) => if n <= rest.len() {
            Some((rest.take(n as int), rest.skip(n as int)))
        } else {
            None
        },
    }
}

/// Printing a field and parsing it back recovers the bytes and the rest.
pub proof fn lemma_parse_lp_round(b: Seq<u8>, rest: Seq<u8>)
    requires
        b.len() <= u64::MAX,
    ensures
        parse_lp(lp(b) + rest) == Some::<(Seq<u8>, Seq<u8>)>((b, rest)),
{
    let s = lp(b) + rest;
    assert(s =~= digits_of((b.len() as u64) as nat) + seq![0x3a] + (b + rest));
    lemma_parse_num_round(b.len() as u64, 0x3a, b + rest);
    assert((b + rest).take(b.len() as int) =~= b);
    assert((b + rest).skip(b.len() as int) =~= rest);
}

/// Appends the contents of `v` to `out`.
pub fn append_bytes(out: &mut Vec<u8>, v: &Vec<u8>)
    ensures
        final(out)@ == old(out)@ + v@,
{
    let mut i: usize = 0;
    while i < v.len()
        invariant
            i <= v@.len(),
            out@ == old(out)@ + v@.take(i as int),
        decreases v@.len() - i,
    {
        out.push(v[i]);
        proof {
            assert(v@.take(i + 1) =~= v@.take(i as int).push(v@[i as int]));
            assert(old(out)@ + v@.take(i + 1) =~= (old(out)@ + v@.take(i as int)).push(
                v@[i as int],
            ));
        }
        i = i + 1;
    }
    proof {
        assert(v@.take(v@.len() as int) =~= v@);
    }
}

/// Appends a length-prefixed text field.
pub fn append_lp(out: &mut Vec<u8>, s: &str)
    ensures
        final(out)@ == old(out)@ + lp(s.spec_bytes()),
        s.spec_bytes().len() <= u64::MAX,
{
    let b = s.as_bytes_vec();
    let d = u64_to_dec(b.len() as u64);
    append_bytes(out, &d);
    out.push(0x3a);
    append_bytes(out, &b);
    proof {
        assert(out@ =~= old(out)@ + lp(s.spec_bytes()));
    }
}

/// Appends a number field.
pub fn append_num(out: &mut Vec<u8>, n: u64)
    ensures
        final(out)@ == old(out)@ + num_field(n),
{
    let d = u64_to_dec(n);
    append_bytes(out, &d);
    out.push(0x3b);
    proof {
        assert(out@ =~= old(out)@ + num_field(n));
    }
}

/// Reads one length-prefixed field starting at `i`, exactly as
/// `parse_lp` says on the tail of the buffer.
pub fn take_lp(buf: &Vec<u8>, i: usize) -> (r: Option<(Vec<u8>, usize)>)
    requires
        i <= buf@.len(),
    ensures
        match r {
            Some(p) => {
                &&& i <= p.1 <= buf@.len()
                &&& parse_lp(buf@.skip(i as int)) == Some::<(Seq<u8>, Seq<u8>)>(
                    (p.0@, buf@.skip(p.1 as int)),
                )
            },
            None => parse_lp(buf@.skip(i as int)) is None,
        },
{
    let (n, j) = match take_num(buf, i, 0x3a) {
        Some(p) => p,
        None => { return None; },
    };
    let ghost rest = buf@.skip(j as int);
    if n > (buf.len() - j) as u64 {
        return None;
    }
    let n_us: usize = n as usize;
    let mut out: Vec<u8> = Vec::new();
    let mut k: usize = 0;
    while k < n_us
        invariant
            j + n_us <= buf@.len() <= usize::MAX,
            k <= n_us,
            out@ == buf@.subrange(j as int, j + k),
        decreases n_us - k,
    {
        out.push(buf[j + k]);
        proof {
            assert(buf@.subrange(j as int, j + k + 1) =~= buf@.subrange(j as int, j + k).push(
                buf@[j + k],
            ));
        }
        k = k + 1;
    }
    proof {
        assert(out@ =~= rest.take(n as int));
        assert(buf@.skip(j + n_us) =~= rest.skip(n as int));
    }
    Some((out, j + n_us))
}

// ============================================================
// Hexadecimal
//
// Content hashes travel as lowercase hex strings, and the node's
// secret key is persisted hex-encoded. `hex_of` is the canonical
// lowercase encoding; `parse_hex` accepts either case.
// ============================================================

/// The lowercase hex digit for a value below 16.
pub open spec fn hex_digit(v: u8) -> u8 {
    if v < 10 {
        (0x30 + v) as u8
    } else {
        (0x57 + v) as u8
    }
}

/// Lowercase hex encoding of a byte string, two digits per byte.
pub open spec fn hex_of(b: Seq<u8>) -> Seq<u8>
    decreases b.len(),
{
    if b.len() == 0 {
        Seq::empty()
    } else {
        hex_of(b.drop_last()).push(hex_digit(b.last() / 16)).push(hex_digit(b.last() % 16))
    }
}

/// The value of one hex digit, either case.
pub open spec fn hex_val(c: u8) -> Option<u8> {
    if 0x30 <= c <= 0x39 {
        Some((c - 0x30) as u8)
    } else if 0x61 <= c <= 0x66 {
        Some((c - 0x57) as u8)
    } else if 0x41 <= c <= 0x46 {
        Some((c - 0x37) as u8)
    } else {
        None
    }
}

/// The bytes denoted by a hex string: `None` unless the length is
/// even and every character is a hex digit.
pub open spec fn parse_hex(s: Seq<u8>) -> Option<Seq<u8>>
    decreases s.len(),
{
    if s.len() == 0 {
        Some(Seq::empty())
    } else if s.len() == 1 {
        None
    } else {
        match parse_hex(s.drop_last().drop_last()) {
            None => None,
            Some(p) => match (hex_val(s[s.len() - 2]), hex_val(s.last())) {
                (Some(hi), Some(lo)) => Some(p.push((16 * hi + lo) as u8)),
                _ => None,
            },
        }
    }
}

pub proof fn lemma_hex_of_len(b: Seq<u8>)
    ensures
        hex_of(b).len() == 2 * b.len(),
    decreases b.len(),
{
    if b.len() > 0 {
        lemma_hex_of_len(b.drop_last());
    }
}

/// Hex encoding loses nothing: parsing it back yields the bytes.
pub proof fn lemma_parse_hex_of(b: Seq<u8>)
    ensures
        parse_hex(hex_of(b)) == Some(b),
    decreases b.len(),
{
    if b.len() == 0 {
        assert(hex_of(b) =~= Seq::<u8>::empty());
        assert(parse_hex(hex_of(b)) == Some(Seq::<u8>::empty()));
        assert(Seq::<u8>::empty() =~= b);
    } else {
        let d = b.drop_last();
        let x = b.last();
        lemma_parse_hex_of(d);
        lemma_hex_of_len(d);
        let s = hex_of(b);
        assert(s.drop_last().drop_last() =~= hex_of(d));
        assert(s[s.len() - 2] == hex_digit(x / 16));
        assert(s.last() == hex_digit(x % 16));
        assert(hex_val(hex_digit(x / 16)) == Some((x / 16) as u8));
        assert(hex_val(hex_digit(x % 16)) == Some((x % 16) as u8));
        vstd::arithmetic::div_mod::lemma_fundamental_div_mod(x as int, 16);
        assert((16 * (x / 16) + x % 16) as u8 == x);
        assert(d.push(x) =~= b);
    }
}

/// An odd-length string is not a hex encoding.
pub proof fn lemma_parse_hex_odd(s: Seq<u8>)
    requires
        s.len() % 2 == 1,
    ensures
        parse_hex(s) is None,
    decreases s.len(),
{
    if s.len() > 1 {
        lemma_parse_hex_odd(s.drop_last().drop_last());
    }
}

/// A bad pair anywhere poisons the whole parse.
pub proof fn lemma_parse_hex_none_prefix(s: Seq<u8>, i: int)
    requires
        s.len() % 2 == 0,
        0 <= 2 * i + 2 <= s.len(),
        parse_hex(s.take(2 * i + 2)) is None,
    ensures
        parse_hex(s) is None,
    decreases s.len(),
{
    if s.len() == 2 * i + 2 {
        assert(s.take(2 * i + 2) =~= s);
    } else {
        assert(s.drop_last().drop_last() =~= s.take(s.len() - 2));
        assert(s.take(s.len() - 2).take(2 * i + 2) =~= s.take(2 * i + 2));
        lemma_parse_hex_none_prefix(s.take(s.len() - 2), i);
    }
}

/// Exec form of `hex_digit`.
pub fn hex_digit_exec(v: u8) -> (r: u8)
    requires
        v < 16,
    ensures
        r == hex_digit(v),
{
    if v < 10 {
        0x30 + v
    } else {
        0x57 + v
    }
}

/// Exec form of `hex_val`.
pub fn hex_val_exec(c: u8) -> (r: Option<u8>)
    ensures
        r == hex_val(c),
{
    if 0x30 <= c && c <= 0x39 {
        Some(c - 0x30)
    } else if 0x61 <= c && c <= 0x66 {
        Some(c - 0x57)
    } else if 0x41 <= c && c <= 0x46 {
        Some(c - 0x37)
    } else {
        None
    }
}

/// Encodes bytes as lowercase hex, exactly as `hex_of` says.
pub fn hex_encode(data: &Vec<u8>) -> (r: Vec<u8>)
    ensures
        r@ == hex_of(data@),
{
    let mut out: Vec<u8> = Vec::new();
    let mut i: usize = 0;
    while i < data.len()
        invariant
            i <= data@.len(),
            out@ == hex_of(data@.take(i as int)),
        decreases data@.len() - i,
    {
        let b = data[i];
        out.push(hex_digit_exec(b / 16));
        out.push(hex_digit_exec(b % 16));
        proof {
            assert(data@.take(i + 1).drop_last() =~= data@.take(i as int));
            assert(data@.take(i + 1).last() == data@[i as int]);
        }
        i = i + 1;
    }
    proof {
        assert(data@.take(data@.len() as int) =~= data@);
    }
    out
}

/// Decodes a hex string, exactly as `parse_hex` says.
pub fn hex_decode(data: &Vec<u8>) -> (r: Option<Vec<u8>>)
    ensures
        match r {
            Some(v) => parse_hex(data@) == Some(v@),
            None => parse_hex(data@) is None,
        },
{
    if data.len() % 2 != 0 {
        proof {
            lemma_parse_hex_odd(data@);
        }
        return None;
    }
    let mut out: Vec<u8> = Vec::new();
    let mut i: usize = 0;
    while i < data.len() / 2
        invariant
            data@.len() % 2 == 0,
            2 * i <= data@.len(),
            out@.len() == i,
            parse_hex(data@.take(2 * i)) == Some(out@),
        decreases data@.len() - 2 * i,
    {
        let hi = hex_val_exec(data[2 * i]);
        let lo = hex_val_exec(data[2 * i + 1]);
        proof {
            let t = data@.take(2 * i + 2);
            assert(t.drop_last().drop_last() =~= data@.take(2 * i));
            assert(t[t.len() - 2] == data@[2 * i]);
            assert(t.last() == data@[2 * i + 1]);
        }
        match (hi, lo) {
            (Some(h), Some(l)) => {
                out.push(16 * h + l);
                proof {
                    assert(parse_hex(data@.take(2 * i + 2)) == Some(out@));
                }
            },
            _ => {
                proof {
                    assert(parse_hex(data@.take(2 * i + 2)) is None);
                    lemma_parse_hex_none_prefix(data@, i as int);
                }
                return None;
            },
        }
        i = i + 1;
    }
    proof {
        assert(data@.take(2 * (data@.len() as int / 2)) =~= data@);
    }
    Some(out)
}

/// Hex text is ASCII, and every byte of it is a digit or letter.
pub proof fn lemma_hex_digits_ascii(b: Seq<u8>)
    ensures
        ascii_bytes(hex_of(b)),
        forall|i: int| 0 <= i < hex_of(b).len() ==> 0x30 <= #[trigger] hex_of(b)[i] <= 0x66,
    decreases b.len(),
{
    if b.len() > 0 {
        lemma_hex_digits_ascii(b.drop_last());
        assert forall|i: int| 0 <= i < hex_of(b).len() implies 0x30 <= #[trigger] hex_of(b)[i]
            <= 0x66 && hex_of(b)[i] < 0x80 by {
            lemma_hex_of_len(b.drop_last());
            if i < hex_of(b.drop_last()).len() {
                assert(hex_of(b)[i] == hex_of(b.drop_last())[i]);
            }
        }
    }
}

// ============================================================
// ASCII bytes and UTF-8
// ============================================================

/// Every byte is below 0x80.
pub open spec fn ascii_bytes(b: Seq<u8>) -> bool {
    forall|i: int| 0 <= i < b.len() ==> b[i] < 0x80
}

/// ASCII bytes are valid UTF-8 and decode byte-for-byte.
pub proof fn lemma_ascii_bytes_utf8(b: Seq<u8>)
    requires
        ascii_bytes(b),
    ensures
        vstd::utf8::valid_utf8(b),
        vstd::utf8::decode_utf8(b) == b.map_values(|x: u8| x as char),
    decreases b.len(),
{
    if b.len() == 0 {
        assert(b.map_values(|x: u8| x as char) =~= Seq::<char>::empty());
    } else {
        let b0 = b[0];
        assert(vstd::utf8::leading_bits_width_1(b0) == b0 as u32) by (bit_vector)
            requires
                b0 < 0x80,
        ;
        let rest = vstd::utf8::pop_first_scalar(b);
        assert(rest =~= b.drop_first());
        lemma_ascii_bytes_utf8(b.drop_first());
        assert(vstd::utf8::decode_utf8(b) == seq![(b0 as u32) as char] + vstd::utf8::decode_utf8(
            rest,
        ));
        assert(b.map_values(|x: u8| x as char) =~= seq![(b0 as u32) as char] + b.drop_first(
        ).map_values(|x: u8| x as char));
    }
}

/// Relies on `String::from_utf8`: `Ok` exactly on valid UTF-8, and the
/// returned string holds the characters those bytes encode.
#[verifier::external_body]
pub fn string_from_utf8(v: Vec<u8>) -> (r: Option<String>)
    ensures
        r matches Some(s) ==> vstd::utf8::valid_utf8(v@) && s@ == vstd::utf8::decode_utf8(v@),
        r is Some <==> vstd::utf8::valid_utf8(v@),
{
    match String::from_utf8(v) {
        Ok(s) => Some(s),
        Err(_) => None,
    }
}

} // verus!
