//! The wire codec: big-endian variable-length integers, length-prefixed
//! byte and string payloads, and the message envelope built from them.
use bincode::Options;
use vstd::prelude::*;
use vstd::utf8::{decode_utf8, encode_utf8, valid_utf8};

verus! {

/// `256` raised to `width`.
pub open spec fn pow256(width: nat) -> nat
    decreases width,
{
    if width == 0 {
        1
    } else {
        256 * pow256((width - 1) as nat)
    }
}

/// The `width` low bytes of `v`, most significant first.
pub open spec fn be_bytes(v: nat, width: nat) -> Seq<u8>
    decreases width,
{
    if width == 0 {
        seq![]
    } else {
        be_bytes(v / 256, (width - 1) as nat).push((v % 256) as u8)
    }
}

/// The number whose big-endian bytes are `s`.
pub open spec fn be_value(s: Seq<u8>) -> nat
    decreases s.len(),
{
    if s.len() == 0 {
        0
    } else {
        be_value(s.drop_last()) * 256 + s.last() as nat
    }
}

/// Largest value written as a single byte.
pub const SINGLE_BYTE_MAX: u8 = 250;

/// Marker byte before a two-byte value.
pub const U16_MARKER: u8 = 251;

/// Marker byte before a four-byte value.
pub const U32_MARKER: u8 = 252;

/// Marker byte before an eight-byte value.
pub const U64_MARKER: u8 = 253;

/// The variable-length encoding of `n`: one byte up to 250, otherwise a
/// marker byte and the value in two, four or eight big-endian bytes.
pub open spec fn varint(n: u64) -> Seq<u8> {
    if n <= 250 {
        seq![n as u8]
    } else if n <= 0xffff {
        seq![U16_MARKER].add(be_bytes(n as nat, 2))
    } else if n <= 0xffff_ffff {
        seq![U32_MARKER].add(be_bytes(n as nat, 4))
    } else {
        seq![U64_MARKER].add(be_bytes(n as nat, 8))
    }
}

/// Why a byte sequence could not be decoded.
#[derive(Debug, Clone, Copy, PartialEq, Eq, Structural)]
pub enum CodecError {
    /// The input ended before the value did.
    Truncated,
    /// A marker or variant tag that no value uses.
    InvalidTag,
    /// A number too large for the field that holds it.
    Overflow,
    /// A string payload that is not UTF-8.
    InvalidUtf8,
    /// Bytes left over after the value.
    TrailingBytes,
    /// A JSON field whose text is not JSON.
    InvalidJson,
}

/// Width of the big-endian number that follows marker `b`, if `b` is a
/// marker byte.
pub open spec fn marker_width(b: u8) -> nat {
    if b == U16_MARKER {
        2
    } else if b == U32_MARKER {
        4
    } else {
        8
    }
}

/// Reading a variable-length integer at the start of `s`: its value and
/// the number of bytes it takes.
pub open spec fn parse_varint(s: Seq<u8>) -> Result<(u64, nat), CodecError> {
    if s.len() == 0 {
        Err(CodecError::Truncated)
    } else if s[0] <= SINGLE_BYTE_MAX {
        Ok((s[0] as u64, 1))
    } else if s[0] == U16_MARKER || s[0] == U32_MARKER || s[0] == U64_MARKER {
        let w = marker_width(s[0]);
        if s.len() < 1 + w {
            Err(CodecError::Truncated)
        } else {
            Ok((be_value(s.subrange(1, 1 + w as int)) as u64, 1 + w))
        }
    } else {
        Err(CodecError::InvalidTag)
    }
}

proof fn lemma_pow256_values()
    ensures
        pow256(2) == 0x1_0000,
        pow256(4) == 0x1_0000_0000,
        pow256(8) == 0x1_0000_0000_0000_0000,
{
    reveal_with_fuel(pow256, 9);
}

proof fn lemma_pow256_positive(w: nat)
    ensures
        pow256(w) >= 1,
    decreases w,
{
    if w > 0 {
        lemma_pow256_positive((w - 1) as nat);
    }
}

proof fn lemma_be_bytes_len(v: nat, w: nat)
    ensures
        be_bytes(v, w).len() == w,
    decreases w,
{
    if w > 0 {
        lemma_be_bytes_len(v / 256, (w - 1) as nat);
    }
}

/// Reading back `width` big-endian bytes of `v` gives `v`, when `v` fits.
proof fn lemma_be_round_trip(v: nat, w: nat)
    requires
        v < pow256(w),
    ensures
        be_value(be_bytes(v, w)) == v,
    decreases w,
{
    if w == 0 {
    } else {
        let p = pow256((w - 1) as nat);
        assert(v / 256 < p) by (nonlinear_arith)
            requires
                v < 256 * p,
        ;
        lemma_be_round_trip(v / 256, (w - 1) as nat);
        let s = be_bytes(v, w);
        assert(s.drop_last() =~= be_bytes(v / 256, (w - 1) as nat));
        assert((v / 256) * 256 + v % 256 == v) by (nonlinear_arith);
    }
}

proof fn lemma_be_value_bound(s: Seq<u8>)
    ensures
        be_value(s) < pow256(s.len()),
    decreases s.len(),
{
    if s.len() > 0 {
        lemma_be_value_bound(s.drop_last());
        let a = be_value(s.drop_last());
        let p = pow256((s.len() - 1) as nat);
        let b = s.last() as nat;
        assert(a * 256 + b < 256 * p) by (nonlinear_arith)
            requires
                a < p,
                b < 256,
        ;
    }
}

/// The encoding of a number is read back as that number, whatever follows it.
pub proof fn lemma_varint_round_trip(n: u64, rest: Seq<u8>)
    ensures
        parse_varint(varint(n).add(rest)) == Ok::<(u64, nat), CodecError>((n, varint(n).len())),
{
    let s = varint(n).add(rest);
    lemma_pow256_values();
    if n <= 250 {
    } else {
        let w: nat = if n <= 0xffff {
            2
        } else if n <= 0xffff_ffff {
            4
        } else {
            8
        };
        lemma_be_bytes_len(n as nat, w);
        lemma_be_round_trip(n as nat, w);
        assert(s.subrange(1, 1 + w as int) =~= be_bytes(n as nat, w));
    }
}

/// Reads `width` big-endian bytes of `bytes` from `pos` on.
fn read_be(bytes: &[u8], pos: usize, width: usize) -> (r: u64)
    requires
        width <= 8,
        pos + width <= bytes@.len(),
    ensures
        r as nat == be_value(bytes@.subrange(pos as int, pos + width)),
{
    let len = bytes.len();
    let mut acc: u64 = 0;
    let mut k: usize = 0;
    proof {
        lemma_pow256_values();
    }
    while k < width
        invariant
            k <= width,
            width <= 8,
            pos + width <= bytes@.len(),
            len == bytes@.len(),
            acc as nat == be_value(bytes@.subrange(pos as int, pos + k)),
            pow256(8) == 0x1_0000_0000_0000_0000,
        decreases width - k,
    {
        let ghost prefix = bytes@.subrange(pos as int, pos + k);
        let ghost next = bytes@.subrange(pos as int, pos + k + 1);
        proof {
            assert(next.drop_last() =~= prefix);
            lemma_be_value_bound(prefix);
            lemma_pow256_mono(k as nat, 7);
            reveal_with_fuel(pow256, 9);
            assert(acc * 256 + 255 < 0x1_0000_0000_0000_0000) by (nonlinear_arith)
                requires
                    acc < pow256(7),
                    pow256(7) == 0x100_0000_0000_0000,
            ;
        }
        acc = acc * 256 + bytes[pos + k] as u64;
        k = k + 1;
    }
    acc
}

proof fn lemma_pow256_mono(a: nat, b: nat)
    requires
        a <= b,
    ensures
        pow256(a) <= pow256(b),
    decreases b,
{
    if a < b {
        lemma_pow256_mono(a, (b - 1) as nat);
        lemma_pow256_positive((b - 1) as nat);
    }
}

/// Reads a variable-length integer at `pos`: its value and the position
/// just after it.
pub fn decode_varint(bytes: &[u8], pos: usize) -> (r: Result<(u64, usize), CodecError>)
    requires
        pos <= bytes@.len(),
    ensures
        match parse_varint(bytes@.subrange(pos as int, bytes@.len() as int)) {
            Ok((v, n)) => r matches Ok((x, p)) && x == v && p == pos + n,
            Err(e) => r == Err::<(u64, usize), CodecError>(e),
        },
        r matches Ok((_, p)) ==> pos < p <= bytes@.len(),
{
    let ghost s = bytes@.subrange(pos as int, bytes@.len() as int);
    if pos == bytes.len() {
        return Err(CodecError::Truncated);
    }
    let b = bytes[pos];
    if b <= SINGLE_BYTE_MAX {
        return Ok((b as u64, pos + 1));
    }
    let width: usize = if b == U16_MARKER {
        2
    } else if b == U32_MARKER {
        4
    } else if b == U64_MARKER {
        8
    } else {
        return Err(CodecError::InvalidTag);
    };
    if bytes.len() - pos - 1 < width {
        return Err(CodecError::Truncated);
    }
    let v = read_be(bytes, pos + 1, width);
    proof {
        assert(s.subrange(1, 1 + width as int) =~= bytes@.subrange(pos + 1, pos + 1 + width));
    }
    Ok((v, pos + 1 + width))
}

/// Relies on bincode's `Options::serialize` under big-endian, variable-length
/// integer options (the settings this wire format uses): a `u64` is written as
/// `varint`. The default options carry no size limit and the writer is a
/// `Vec`, so the call cannot fail.
#[verifier::external_body]
fn bincode_varint(n: u64) -> (r: Option<Vec<u8>>)
    ensures
        r is Some,
        r matches Some(b) ==> b@ == varint(n),
{
    bincode::options().with_big_endian().with_varint_encoding().serialize(&n).ok()
}

/// Appends the variable-length encoding of `n` to `out`.
pub fn encode_varint(n: u64, out: &mut Vec<u8>)
    ensures
        final(out)@ == old(out)@ + varint(n),
{
    match bincode_varint(n) {
        Some(mut b) => out.append(&mut b),
        None => {},
    }
}

/// Reading a variable-length integer at `pos` of `s`: its value and the
/// position just after it.
pub open spec fn parse_varint_at(s: Seq<u8>, pos: nat) -> Result<(u64, nat), CodecError> {
    match parse_varint(s.subrange(pos as int, s.len() as int)) {
        Ok((v, n)) => Ok((v, pos + n)),
        Err(e) => Err(e),
    }
}

/// Reading a `u32` field at `pos`: a variable-length integer that must fit.
pub open spec fn parse_u32_at(s: Seq<u8>, pos: nat) -> Result<(u32, nat), CodecError> {
    match parse_varint_at(s, pos) {
        Ok((v, p)) => if v <= u32::MAX {
            Ok((v as u32, p))
        } else {
            Err(CodecError::Overflow)
        },
        Err(e) => Err(e),
    }
}

/// Reading a length-prefixed byte payload at `pos`.
pub open spec fn parse_bytes_at(s: Seq<u8>, pos: nat) -> Result<(Seq<u8>, nat), CodecError> {
    match parse_varint_at(s, pos) {
        Ok((n, p)) => if p + n > s.len() {
            Err(CodecError::Truncated)
        } else {
            Ok((s.subrange(p as int, p + n), (p + n) as nat))
        },
        Err(e) => Err(e),
    }
}

/// Reading a length-prefixed UTF-8 string at `pos`.
pub open spec fn parse_string_at(s: Seq<u8>, pos: nat) -> Result<(Seq<char>, nat), CodecError> {
    match parse_bytes_at(s, pos) {
        Ok((b, p)) => if valid_utf8(b) {
            Ok((decode_utf8(b), p))
        } else {
            Err(CodecError::InvalidUtf8)
        },
        Err(e) => Err(e),
    }
}

/// The encoding of a byte payload: its length, then the bytes.
pub open spec fn bytes_field(b: Seq<u8>) -> Seq<u8> {
    varint(b.len() as u64) + b
}

/// The encoding of a string: its UTF-8 bytes as a byte payload.
pub open spec fn string_field(c: Seq<char>) -> Seq<u8> {
    bytes_field(encode_utf8(c))
}

/// A number is read back from its encoding, wherever it stands.
pub proof fn lemma_varint_at(pre: Seq<u8>, n: u64, rest: Seq<u8>)
    ensures
        parse_varint_at(pre + varint(n) + rest, pre.len()) == Ok::<(u64, nat), CodecError>(
            (n, pre.len() + varint(n).len()),
        ),
{
    let s = pre + varint(n) + rest;
    assert(s.subrange(pre.len() as int, s.len() as int) =~= varint(n) + rest);
    lemma_varint_round_trip(n, rest);
}

/// A `u32` field is read back from its encoding.
pub proof fn lemma_u32_at(pre: Seq<u8>, n: u32, rest: Seq<u8>)
    ensures
        parse_u32_at(pre + varint(n as u64) + rest, pre.len()) == Ok::<(u32, nat), CodecError>(
            (n, pre.len() + varint(n as u64).len()),
        ),
{
    lemma_varint_at(pre, n as u64, rest);
}

/// A byte payload is read back from its encoding.
pub proof fn lemma_bytes_at(pre: Seq<u8>, b: Seq<u8>, rest: Seq<u8>)
    requires
        b.len() <= u64::MAX,
    ensures
        parse_bytes_at(pre + bytes_field(b) + rest, pre.len()) == Ok::<(Seq<u8>, nat), CodecError>(
            (b, pre.len() + bytes_field(b).len()),
        ),
{
    let n = b.len() as u64;
    let s = pre + bytes_field(b) + rest;
    assert(s =~= pre + varint(n) + (b + rest));
    lemma_varint_at(pre, n, b + rest);
    let p = pre.len() + varint(n).len();
    assert(s.subrange(p as int, p + b.len() as int) =~= b);
}

/// A string is read back from its encoding.
pub proof fn lemma_string_at(pre: Seq<u8>, c: Seq<char>, rest: Seq<u8>)
    requires
        encode_utf8(c).len() <= u64::MAX,
    ensures
        parse_string_at(pre + string_field(c) + rest, pre.len()) == Ok::<(Seq<char>, nat), CodecError>(
            (c, pre.len() + string_field(c).len()),
        ),
{
    lemma_bytes_at(pre, encode_utf8(c), rest);
    vstd::utf8::encode_utf8_valid_utf8(c);
    vstd::utf8::encode_utf8_decode_utf8(c);
}

/// Reads a `u32` field at `pos`.
pub fn decode_u32(bytes: &[u8], pos: usize) -> (r: Result<(u32, usize), CodecError>)
    requires
        pos <= bytes@.len(),
    ensures
        match parse_u32_at(bytes@, pos as nat) {
            Ok((v, p)) => r matches Ok((x, q)) && x == v && q == p,
            Err(e) => r == Err::<(u32, usize), CodecError>(e),
        },
        r matches Ok((_, p)) ==> pos < p <= bytes@.len(),
{
    match decode_varint(bytes, pos) {
        Ok((v, p)) => {
            if v <= 0xffff_ffff {
                Ok((v as u32, p))
            } else {
                Err(CodecError::Overflow)
            }
        },
        Err(e) => Err(e),
    }
}

/// Copies `bytes[from..to]` into a new vector.
pub(crate) fn copy_range(bytes: &[u8], from: usize, to: usize) -> (r: Vec<u8>)
    requires
        from <= to <= bytes@.len(),
    ensures
        r@ == bytes@.subrange(from as int, to as int),
{
    let mut r: Vec<u8> = Vec::new();
    let mut i: usize = from;
    while i < to
        invariant
            from <= i <= to,
            to <= bytes@.len(),
            r@ == bytes@.subrange(from as int, i as int),
        decreases to - i,
    {
        r.push(bytes[i]);
        i = i + 1;
        proof {
            assert(r@ =~= bytes@.subrange(from as int, i as int));
        }
    }
    r
}

/// Reads a length-prefixed byte payload at `pos`.
pub fn decode_bytes(bytes: &[u8], pos: usize) -> (r: Result<(Vec<u8>, usize), CodecError>)
    requires
        pos <= bytes@.len(),
    ensures
        match parse_bytes_at(bytes@, pos as nat) {
            Ok((b, p)) => r matches Ok((v, q)) && v@ == b && q == p,
            Err(e) => r == Err::<(Vec<u8>, usize), CodecError>(e),
        },
{
    match decode_varint(bytes, pos) {
        Ok((n, p)) => {
            if n > (bytes.len() - p) as u64 {
                Err(CodecError::Truncated)
            } else {
                let end = p + n as usize;
                Ok((copy_range(bytes, p, end), end))
            }
        },
        Err(e) => Err(e),
    }
}

/// Relies on `String::from_utf8`: it returns the string whose UTF-8
/// encoding is `b`, and fails exactly when `b` is not UTF-8.
#[verifier::external_body]
fn string_from_utf8(b: Vec<u8>) -> (r: Option<String>)
    ensures
        match r {
            Some(s) => valid_utf8(b@) && s@ == decode_utf8(b@),
            None => !valid_utf8(b@),
        },
{
    String::from_utf8(b).ok()
}

/// Reads a length-prefixed UTF-8 string at `pos`.
pub fn decode_string(bytes: &[u8], pos: usize) -> (r: Result<(String, usize), CodecError>)
    requires
        pos <= bytes@.len(),
    ensures
        match parse_string_at(bytes@, pos as nat) {
            Ok((c, p)) => r matches Ok((v, q)) && v@ == c && q == p,
            Err(e) => r == Err::<(String, usize), CodecError>(e),
        },
{
    match decode_bytes(bytes, pos) {
        Ok((b, p)) => match string_from_utf8(b) {
            Some(s) => Ok((s, p)),
            None => Err(CodecError::InvalidUtf8),
        },
        Err(e) => Err(e),
    }
}

/// Appends a length-prefixed byte payload to `out`.
pub fn encode_bytes(b: &[u8], out: &mut Vec<u8>)
    ensures
        final(out)@ == old(out)@ + bytes_field(b@),
{
    encode_varint(b.len() as u64, out);
    let mut i: usize = 0;
    let ghost mid = out@;
    while i < b.len()
        invariant
            i <= b@.len(),
            out@ == mid + b@.subrange(0, i as int),
        decreases b@.len() - i,
    {
        out.push(b[i]);
        i = i + 1;
        proof {
            assert(out@ =~= mid + b@.subrange(0, i as int));
        }
    }
    proof {
        assert(b@.subrange(0, b@.len() as int) =~= b@);
        assert(old(out)@ + bytes_field(b@) =~= old(out)@ + varint(b@.len() as u64) + b@);
    }
}

/// Appends a length-prefixed UTF-8 string to `out`.
pub fn encode_string(s: &str, out: &mut Vec<u8>)
    ensures
        final(out)@ == old(out)@ + string_field(s@),
{
    encode_bytes(s.as_bytes(), out);
}

} // verus!
