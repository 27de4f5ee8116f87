//! COSE header maps, and the CBOR items their labels and values are.
use vstd::prelude::*;

use crate::kademlia::id::{be_value, lemma_be_value_split, pow256};
use vstd::string::StringSliceAdditionalSpecFns;
use vstd::utf8::valid_utf8;

verus! {

/// A label or value that is an integer or a text string.
#[derive(Clone, Copy, Debug, PartialEq, Eq)]
pub enum IntOrStr<'a> {
    Int(i64),
    Str(&'a str),
}

/// The big-endian `k` bytes of `n` (modulo `256^k`).
pub open spec fn be_bytes(n: nat, k: nat) -> Seq<u8>
    decreases k,
{
    if k == 0 {
        Seq::empty()
    } else {
        be_bytes(n / 256, (k - 1) as nat).push((n % 256) as u8)
    }
}

/// The shortest CBOR head of major type `major` (below 8) with argument
/// `n` (below `2^64`): the argument in the first byte below 24, else in the
/// 1, 2, 4 or 8 bytes that follow it.
pub open spec fn cbor_head(major: nat, n: nat) -> Seq<u8> {
    let m = 32 * major;
    if n < 24 {
        seq![(m + n) as u8]
    } else if n < 0x100 {
        seq![(m + 24) as u8] + be_bytes(n, 1)
    } else if n < 0x10000 {
        seq![(m + 25) as u8] + be_bytes(n, 2)
    } else if n < 0x1_0000_0000 {
        seq![(m + 26) as u8] + be_bytes(n, 4)
    } else {
        seq![(m + 27) as u8] + be_bytes(n, 8)
    }
}

/// The CBOR encoding of the integer `x`: an unsigned integer, or a
/// negative one carrying `-1 - x`.
pub open spec fn cbor_int_bytes(x: int) -> Seq<u8> {
    if x >= 0 {
        cbor_head(0, x as nat)
    } else {
        cbor_head(1, (-1 - x) as nat)
    }
}

/// The CBOR encoding of a text string with UTF-8 bytes `s`.
pub open spec fn cbor_text_bytes(s: Seq<u8>) -> Seq<u8> {
    cbor_head(3, s.len()) + s
}

/// The argument of the CBOR head at `p` whose low five bits are `info`,
/// and the position after the head: none when `info` is above 27 or the
/// head is cut short.
pub open spec fn head_argument(b: Seq<u8>, p: int, info: int) -> Option<(nat, int)> {
    let k: int = if info < 24 {
        0
    } else if info == 24 {
        1
    } else if info == 25 {
        2
    } else if info == 26 {
        4
    } else if info == 27 {
        8
    } else {
        -1
    };
    if k < 0 || p + 1 + k > b.len() {
        None
    } else if k == 0 {
        Some((info as nat, p + 1))
    } else {
        Some((be_value(b.subrange(p + 1, p + 1 + k)), p + 1 + k))
    }
}

/// The integer that reading a CBOR integer at `p` of `b` gives, and the
/// position after it: none when there is no integer there, or it does not
/// fit in an `i64`.
pub open spec fn cbor_int_at(b: Seq<u8>, p: int) -> Option<(int, int)> {
    if p < 0 || p >= b.len() {
        None
    } else {
        let major = b[p] / 32;
        match head_argument(b, p, (b[p] % 32) as int) {
            None => None,
            Some((n, q)) => if major == 0 && n <= i64::MAX {
                Some((n as int, q))
            } else if major == 1 && n <= i64::MAX {
                Some((-1 - n, q))
            } else {
                None
            },
        }
    }
}

/// The UTF-8 bytes that reading a CBOR text string of definite length at
/// `p` of `b` gives, and the position after it: none when there is no such
/// string there, it is cut short, or its bytes are not UTF-8.
pub open spec fn cbor_text_at(b: Seq<u8>, p: int) -> Option<(Seq<u8>, int)> {
    if p < 0 || p >= b.len() || b[p] / 32 != 3 || b[p] % 32 == 31 {
        None
    } else {
        match head_argument(b, p, (b[p] % 32) as int) {
            None => None,
            Some((n, q)) => if n > usize::MAX || q + n > b.len() || !valid_utf8(
                b.subrange(q, q + n),
            ) {
                None
            } else {
                Some((b.subrange(q, q + n), q + n))
            },
        }
    }
}

/// Reads a CBOR integer at `pos` with minicbor's `Decoder::i64`, giving it
/// and the position after it, or nothing where `Decoder::i64` fails. Per
/// its source, it reads the head as `cbor_int_at` says, failing on any
/// other major type, on an argument above `i64::MAX`, and at the end of the
/// input.
#[verifier::external_body]
fn decode_i64(bytes: &[u8], pos: usize) -> (r: Option<(i64, usize)>)
    ensures
        match cbor_int_at(bytes@, pos as int) {
            Some((v, q)) => r == Some((v as i64, q as usize)),
            None => r is None,
        },
{
    let mut d = minicbor::Decoder::new(bytes);
    d.set_position(pos);
    match d.i64() {
        Ok(v) => Some((v, d.position())),
        Err(_) => None,
    }
}

/// Reads a CBOR text string at `pos` with minicbor's `Decoder::str`,
/// giving it and the position after it, or nothing where `Decoder::str`
/// fails. Per its source, it reads a definite-length text head, takes that
/// many bytes and checks that they are UTF-8, as `cbor_text_at` says.
#[verifier::external_body]
pub(crate) fn decode_str<'a>(bytes: &'a [u8], pos: usize) -> (r: Option<(&'a str, usize)>)
    ensures
        match cbor_text_at(bytes@, pos as int) {
            Some((t, q)) => r matches Some((s, n)) && s.spec_bytes() == t && n == q,
            None => r is None,
        },
{
    let mut d = minicbor::Decoder::new(bytes);
    d.set_position(pos);
    match d.str() {
        Ok(s) => Some((s, d.position())),
        Err(_) => None,
    }
}

/// Appends the CBOR encoding of `x` with minicbor's `Encoder::i64`, which
/// writes the shortest head, as `cbor_int_bytes` says; writing to a
/// vector cannot fail.
#[verifier::external_body]
fn encode_i64(x: i64, out: &mut Vec<u8>)
    ensures
        final(out)@ == old(out)@ + cbor_int_bytes(x as int),
{
    let _ = minicbor::Encoder::new(out).i64(x);
}

/// Appends the CBOR encoding of `s` with minicbor's `Encoder::str`, which
/// writes the shortest text head for its length and then its bytes, as
/// `cbor_text_bytes` says; writing to a vector cannot fail.
#[verifier::external_body]
pub(crate) fn encode_str(s: &str, out: &mut Vec<u8>)
    ensures
        final(out)@ == old(out)@ + cbor_text_bytes(s.spec_bytes()),
{
    let _ = minicbor::Encoder::new(out).str(s);
}

/// Appends the head of a map of `len` entries with minicbor's
/// `Encoder::map`, which writes the shortest head of major type 5, as
/// `cbor_head` says; writing to a vector cannot fail.
#[verifier::external_body]
fn encode_map(len: u64, out: &mut Vec<u8>)
    ensures
        final(out)@ == old(out)@ + cbor_head(5, len as nat),
{
    let _ = minicbor::Encoder::new(out).map(len);
}

/// Appends the head of an array of `len` items with minicbor's
/// `Encoder::array`, which writes the shortest head of major type 4, as
/// `cbor_head` says; writing to a vector cannot fail.
#[verifier::external_body]
fn encode_array(len: u64, out: &mut Vec<u8>)
    ensures
        final(out)@ == old(out)@ + cbor_head(4, len as nat),
{
    let _ = minicbor::Encoder::new(out).array(len);
}

/// Appends the unsigned integer `x` with minicbor's `Encoder::u8`, which
/// writes it in the first byte below 24 and after a byte 24 otherwise, as
/// `cbor_head` of major type 0 says; writing to a vector cannot fail.
#[verifier::external_body]
fn encode_u8(x: u8, out: &mut Vec<u8>)
    ensures
        final(out)@ == old(out)@ + cbor_head(0, x as nat),
{
    let _ = minicbor::Encoder::new(out).u8(x);
}

/// Appends the byte string `x` with minicbor's `Encoder::bytes`, which
/// writes the shortest head of major type 2 for its length and then its
/// bytes, as `cbor_bytes_bytes` says; writing to a vector cannot fail.
#[verifier::external_body]
fn encode_bytes(x: &[u8], out: &mut Vec<u8>)
    ensures
        final(out)@ == old(out)@ + cbor_bytes_bytes(x@),
{
    let _ = minicbor::Encoder::new(out).bytes(x);
}

/// The CBOR encoding of a byte string `b`.
pub open spec fn cbor_bytes_bytes(b: Seq<u8>) -> Seq<u8> {
    cbor_head(2, b.len()) + b
}

/// Where the CBOR item that starts at `pos` of `b` ends, as minicbor's
/// `Decoder::skip` finds it; none when it is not a well-formed item.
pub uninterp spec fn cbor_item_end(b: Seq<u8>, pos: nat) -> Option<nat>;

/// Skips the CBOR item at `pos` with minicbor's `Decoder::skip`, giving
/// the position after it, or nothing where `Decoder::skip` fails. Per its
/// source, skipping reads at least the item's first byte and never reads
/// past the input.
#[verifier::external_body]
fn skip_item(bytes: &[u8], pos: usize) -> (r: Option<usize>)
    ensures
        match r {
            Some(e) => cbor_item_end(bytes@, pos as nat) == Some(e as nat) && pos < e <= bytes@.len(),
            None => cbor_item_end(bytes@, pos as nat) is None,
        },
{
    let mut d = minicbor::Decoder::new(bytes);
    d.set_position(pos);
    match d.skip() {
        Ok(()) => Some(d.position()),
        Err(_) => None,
    }
}

/// Why a CBOR item could not be read.
#[derive(Clone, Copy, Debug, PartialEq, Eq)]
pub enum DecodeError {
    /// The item at this position is neither an integer nor a text string.
    NotIntOrStr { at: usize },
    /// No well-formed item starts at this position.
    Malformed { at: usize },
}

/// The encoding of a label or value.
pub open spec fn int_or_str_bytes(x: IntOrStr) -> Seq<u8> {
    match x {
        IntOrStr::Int(i) => cbor_int_bytes(i as int),
        IntOrStr::Str(s) => cbor_text_bytes(s.spec_bytes()),
    }
}

impl<'a> IntOrStr<'a> {
    /// Reads a label or value at `pos` of `bytes`: an integer if one is
    /// there, else a text string; gives it and the position after it.
    pub fn decode(bytes: &'a [u8], pos: usize) -> (r: Result<(IntOrStr<'a>, usize), DecodeError>)
        ensures
            match cbor_int_at(bytes@, pos as int) {
                Some((v, q)) => r == Ok::<(IntOrStr<'a>, usize), DecodeError>(
                    (IntOrStr::Int(v as i64), q as usize),
                ),
                None => match cbor_text_at(bytes@, pos as int) {
                    Some((t, q)) => r matches Ok((IntOrStr::Str(s), n)) && s.spec_bytes() == t
                        && n == q,
                    None => r == Err::<(IntOrStr<'a>, usize), DecodeError>(
                        DecodeError::NotIntOrStr { at: pos },
                    ),
                },
            },
    {
        match decode_i64(bytes, pos) {
            Some((v, q)) => Ok((IntOrStr::Int(v), q)),
            None => match decode_str(bytes, pos) {
                Some((s, q)) => Ok((IntOrStr::Str(s), q)),
                None => Err(DecodeError::NotIntOrStr { at: pos }),
            },
        }
    }

    /// Appends the CBOR encoding of the label or value to `out`.
    pub fn encode(&self, out: &mut Vec<u8>)
        ensures
            final(out)@ == old(out)@ + int_or_str_bytes(*self),
    {
        match self {
            IntOrStr::Int(i) => encode_i64(*i, out),
            IntOrStr::Str(s) => encode_str(s, out),
        }
    }
}

/// Big-endian bytes read back give the number they were made of.
proof fn lemma_be_bytes(n: nat, k: nat)
    requires
        n < pow256(k),
    ensures
        be_bytes(n, k).len() == k,
        be_value(be_bytes(n, k)) == n,
    decreases k,
{
    if k > 0 {
        let k1 = (k - 1) as nat;
        let p = pow256(k1);
        assert(pow256(k) == 256 * p);
        assert(n / 256 < p) by (nonlinear_arith)
            requires
                n < 256 * p,
        ;
        lemma_be_bytes(n / 256, k1);
        let s = be_bytes(n / 256, k1);
        let t = s.push((n % 256) as u8);
        lemma_be_value_split(t, k1 as int);
        assert(t.take(k1 as int) =~= s);
        let last = t.skip(k1 as int);
        assert(last =~= seq![(n % 256) as u8]);
        assert(last.drop_first() =~= Seq::<u8>::empty());
        assert(pow256(0) == 1);
        assert(be_value(Seq::<u8>::empty()) == 0);
        assert(last.len() == 1);
        assert(((n % 256) as u8) as nat == n % 256);
        assert(be_value(last) == last[0] as nat * pow256(0) + be_value(last.drop_first()));
        assert(last[0] as nat * pow256(0) == last[0] as nat) by (nonlinear_arith)
            requires
                pow256(0) == 1,
        ;
        assert(last[0] == (n % 256) as u8);
        assert(be_value(last) == n % 256);
        assert(pow256(1) == 256);
        assert(t.len() - k1 == 1);
        assert(n == (n / 256) * 256 + n % 256);
    }
}

/// The length of a shortest head: one byte, and the 1, 2, 4 or 8 bytes of
/// a larger argument.
pub proof fn lemma_cbor_head_len(major: nat, n: nat)
    ensures
        cbor_head(major, n).len() == if n < 24 {
            1nat
        } else if n < 0x100 {
            2
        } else if n < 0x10000 {
            3
        } else if n < 0x1_0000_0000 {
            5
        } else {
            9
        },
{
    lemma_be_bytes_len(n, 1);
    lemma_be_bytes_len(n, 2);
    lemma_be_bytes_len(n, 4);
    lemma_be_bytes_len(n, 8);
}

/// Big-endian bytes of `k` bytes are `k` bytes long.
proof fn lemma_be_bytes_len(n: nat, k: nat)
    ensures
        be_bytes(n, k).len() == k,
    decreases k,
{
    if k > 0 {
        lemma_be_bytes_len(n / 256, (k - 1) as nat);
    }
}

/// A shortest head is read back as its major type and argument, and ends
/// where it was written to end, whatever follows it.
proof fn lemma_head_argument(major: nat, n: nat, rest: Seq<u8>)
    requires
        major < 8,
        n < 0x1_0000_0000_0000_0000,
    ensures
        ({
            let h = cbor_head(major, n);
            let b = h + rest;
            &&& h.len() > 0
            &&& b[0] / 32 == major
            &&& b[0] % 32 <= 27
            &&& head_argument(b, 0, (b[0] % 32) as int) == Some((n, h.len() as int))
        }),
{
    reveal_with_fuel(pow256, 9);
    let h = cbor_head(major, n);
    let b = h + rest;
    let m = 32 * major;
    if n < 24 {
        assert(b[0] == (m + n) as u8);
    } else {
        let k: nat = if n < 0x100 {
            1
        } else if n < 0x10000 {
            2
        } else if n < 0x1_0000_0000 {
            4
        } else {
            8
        };
        assert(n < pow256(k));
        lemma_be_bytes(n, k);
        assert(b.subrange(1, 1 + k as int) =~= be_bytes(n, k));
    }
}

/// Reading a label or value back from its encoding, with any bytes after
/// it, gives it back and ends where its encoding ends: an integer as the
/// integer, and a text string, which reads as no integer, as its bytes.
pub proof fn lemma_int_or_str_roundtrip(x: IntOrStr, rest: Seq<u8>)
    requires
        x matches IntOrStr::Str(s) ==> s.spec_bytes().len() <= usize::MAX,
    ensures
        ({
            let e = int_or_str_bytes(x);
            let b = e + rest;
            match x {
                IntOrStr::Int(i) => cbor_int_at(b, 0) == Some((i as int, e.len() as int)),
                IntOrStr::Str(s) => {
                    &&& cbor_int_at(b, 0) is None
                    &&& cbor_text_at(b, 0) == Some((s.spec_bytes(), e.len() as int))
                },
            }
        }),
{
    match x {
        IntOrStr::Int(i) => {
            if i >= 0 {
                lemma_head_argument(0, i as nat, rest);
            } else {
                lemma_head_argument(1, (-1 - i) as nat, rest);
            }
        },
        IntOrStr::Str(s) => {
            let t = s.spec_bytes();
            let h = cbor_head(3, t.len());
            lemma_head_argument(3, t.len(), t + rest);
            let b = h + t + rest;
            assert(b =~= h + (t + rest));
            assert(b.subrange(h.len() as int, (h.len() + t.len()) as int) =~= t);
            vstd::utf8::encode_utf8_valid_utf8(s@);
        },
    }
}

/// An encoded CBOR item, kept as its bytes.
#[derive(Clone, Copy, Debug)]
pub struct Any<'de>(pub &'de [u8]);

impl<'de> Any<'de> {
    /// Reads the CBOR item at `pos` of `bytes` as it is, whatever it is;
    /// gives its bytes and the position after it.
    pub fn decode(bytes: &'de [u8], pos: usize) -> (r: Result<(Any<'de>, usize), DecodeError>)
        ensures
            match cbor_item_end(bytes@, pos as nat) {
                Some(e) => r matches Ok((a, n)) && n == e && a.0@ == bytes@.subrange(
                    pos as int,
                    e as int,
                ),
                None => r == Err::<(Any<'de>, usize), DecodeError>(
                    DecodeError::Malformed { at: pos },
                ),
            },
    {
        match skip_item(bytes, pos) {
            Some(end) => Ok((Any(vstd::slice::slice_subrange(bytes, pos, end)), end)),
            None => Err(DecodeError::Malformed { at: pos }),
        }
    }

    /// Appends the item's bytes to `out` as they are.
    pub fn encode(&self, out: &mut Vec<u8>)
        ensures
            final(out)@ == old(out)@ + self.0@,
    {
        crate::net::ip::append_bytes(out, self.0);
    }
}

/// A COSE header map: the generic headers, and the other labels with their
/// encoded values.
pub struct HeaderMap<'de> {
    /// algorithm identifier
    pub alg: Option<IntOrStr<'de>>,
    /// criticality
    pub crit: Option<&'de [IntOrStr<'de>]>,
    /// content type
    pub content_type: Option<IntOrStr<'de>>,
    /// key identifier
    pub kid: Option<&'de [u8]>,
    /// IV
    pub iv: Option<&'de [u8]>,
    /// Partial IV
    pub partial_iv: Option<&'de [u8]>,
    /// The other labels and their values, one entry per label (see
    /// `labels_distinct`).
    pub rest: Vec<(IntOrStr<'de>, Any<'de>)>,
}

/// 1 for a present header, 0 for an absent one.
pub open spec fn present<T>(o: Option<T>) -> nat {
    if o is Some {
        1
    } else {
        0
    }
}

/// The encodings of the labels or values of `s`, one after another.
pub open spec fn int_or_str_seq_bytes(s: Seq<IntOrStr>) -> Seq<u8>
    decreases s.len(),
{
    if s.len() == 0 {
        Seq::empty()
    } else {
        int_or_str_seq_bytes(s.drop_last()) + int_or_str_bytes(s.last())
    }
}

/// The encoding of an array of labels: its head, then each label.
pub open spec fn crit_bytes(s: Seq<IntOrStr>) -> Seq<u8> {
    cbor_head(4, s.len()) + int_or_str_seq_bytes(s)
}

/// The entry of a generic header with label `label`: the label as an
/// unsigned integer, then the value's encoding; nothing when absent.
pub open spec fn header_entry(label: nat, value: Option<Seq<u8>>) -> Seq<u8> {
    match value {
        Some(v) => cbor_head(0, label) + v,
        None => Seq::empty(),
    }
}

/// The encoding of a present label or value.
pub open spec fn opt_int_or_str_bytes(o: Option<IntOrStr>) -> Option<Seq<u8>> {
    match o {
        Some(x) => Some(int_or_str_bytes(x)),
        None => None,
    }
}

/// The encoding of a present array of labels.
pub open spec fn opt_crit_bytes(o: Option<&[IntOrStr]>) -> Option<Seq<u8>> {
    match o {
        Some(c) => Some(crit_bytes(c@)),
        None => None,
    }
}

/// The encoding of a present byte string.
pub open spec fn opt_bstr_bytes(o: Option<&[u8]>) -> Option<Seq<u8>> {
    match o {
        Some(b) => Some(cbor_bytes_bytes(b@)),
        None => None,
    }
}

/// Whether no label of the other entries occurs twice: a map holds one
/// value per label.
pub open spec fn labels_distinct(r: Seq<(IntOrStr, Any)>) -> bool {
    forall|i: int, j: int| 0 <= i < j < r.len() ==> r[i].0 != r[j].0
}

/// The other entries: each label's encoding followed by its value's bytes
/// as they are.
pub open spec fn rest_bytes(r: Seq<(IntOrStr, Any)>) -> Seq<u8>
    decreases r.len(),
{
    if r.len() == 0 {
        Seq::empty()
    } else {
        rest_bytes(r.drop_last()) + int_or_str_bytes(r.last().0) + r.last().1.0@
    }
}

/// The encoding of a header map: the head of a map of `spec_len()`
/// entries; the generic headers present, by label from 1 to 6; then the
/// other entries in order.
pub open spec fn header_map_bytes(m: HeaderMap) -> Seq<u8> {
    cbor_head(5, m.spec_len()) + header_entry(1, opt_int_or_str_bytes(m.alg)) + header_entry(
        2,
        opt_crit_bytes(m.crit),
    ) + header_entry(3, opt_int_or_str_bytes(m.content_type)) + header_entry(
        4,
        opt_bstr_bytes(m.kid),
    ) + header_entry(5, opt_bstr_bytes(m.iv)) + header_entry(6, opt_bstr_bytes(m.partial_iv))
        + rest_bytes(m.rest@)
}

/// Appending pieces one after another is appending them joined.
proof fn lemma_seq_assoc7(
    o: Seq<u8>,
    h: Seq<u8>,
    e1: Seq<u8>,
    e2: Seq<u8>,
    e3: Seq<u8>,
    e4: Seq<u8>,
    e5: Seq<u8>,
    e6: Seq<u8>,
    rb: Seq<u8>,
)
    ensures
        o + h + e1 + e2 + e3 + e4 + e5 + e6 + rb == o + (h + e1 + e2 + e3 + e4 + e5 + e6 + rb),
{
    assert(o + h + e1 + e2 + e3 + e4 + e5 + e6 + rb =~= o + (h + e1 + e2 + e3 + e4 + e5 + e6 + rb));
}

/// Appends a generic header with label `label` and a label or value.
fn encode_int_or_str_entry(label: u8, o: Option<IntOrStr>, out: &mut Vec<u8>)
    ensures
        final(out)@ == old(out)@ + header_entry(label as nat, opt_int_or_str_bytes(o)),
{
    if let Some(x) = o {
        let ghost start = out@;
        encode_u8(label, out);
        x.encode(out);
        assert(out@ =~= start + (cbor_head(0, label as nat) + int_or_str_bytes(x)));
    } else {
        assert(out@ =~= old(out)@ + Seq::<u8>::empty());
    }
}

/// Appends a generic header with label `label` and a byte string.
fn encode_bstr_entry(label: u8, o: Option<&[u8]>, out: &mut Vec<u8>)
    ensures
        final(out)@ == old(out)@ + header_entry(label as nat, opt_bstr_bytes(o)),
{
    if let Some(b) = o {
        let ghost start = out@;
        encode_u8(label, out);
        encode_bytes(b, out);
        assert(out@ =~= start + (cbor_head(0, label as nat) + cbor_bytes_bytes(b@)));
    } else {
        assert(out@ =~= old(out)@ + Seq::<u8>::empty());
    }
}

/// Appends the criticality header, an array of labels, with label 2.
fn encode_crit_entry(o: Option<&[IntOrStr]>, out: &mut Vec<u8>)
    ensures
        final(out)@ == old(out)@ + header_entry(2, opt_crit_bytes(o)),
{
    if let Some(c) = o {
        let ghost start = out@;
        encode_u8(2, out);
        encode_array(c.len() as u64, out);
        let ghost heads = out@;
        let mut i: usize = 0;
        while i < c.len()
            invariant
                i <= c@.len(),
                out@ == heads + int_or_str_seq_bytes(c@.take(i as int)),
            decreases c@.len() - i,
        {
            let ghost before = out@;
            c[i].encode(out);
            proof {
                assert(c@.take(i + 1).drop_last() =~= c@.take(i as int));
                assert(c@.take(i + 1).last() == c@[i as int]);
                assert(out@ =~= heads + int_or_str_seq_bytes(c@.take(i + 1)));
            }
            i = i + 1;
        }
        proof {
            assert(c@.take(c@.len() as int) =~= c@);
            assert(out@ =~= start + (cbor_head(0, 2) + crit_bytes(c@)));
        }
    } else {
        assert(out@ =~= old(out)@ + Seq::<u8>::empty());
    }
}

impl<'de> HeaderMap<'de> {
    /// Appends the map's CBOR encoding to `out` (see `header_map_bytes`):
    /// the map head, the generic headers present, and each other label
    /// with its value's bytes as they are.
    pub fn encode(&self, out: &mut Vec<u8>)
        requires
            self.rest@.len() <= u64::MAX - 6,
            labels_distinct(self.rest@),
        ensures
            final(out)@ == old(out)@ + header_map_bytes(*self),
    {
        let n = self.len();
        encode_map(n, out);
        let ghost p0 = out@;
        encode_int_or_str_entry(1, self.alg, out);
        let ghost p1 = out@;
        encode_crit_entry(self.crit, out);
        let ghost p2 = out@;
        encode_int_or_str_entry(3, self.content_type, out);
        let ghost p3 = out@;
        encode_bstr_entry(4, self.kid, out);
        let ghost p4 = out@;
        encode_bstr_entry(5, self.iv, out);
        let ghost p5 = out@;
        encode_bstr_entry(6, self.partial_iv, out);
        let ghost p6 = out@;
        let mut i: usize = 0;
        while i < self.rest.len()
            invariant
                i <= self.rest@.len(),
                out@ == p6 + rest_bytes(self.rest@.take(i as int)),
            decreases self.rest@.len() - i,
        {
            let ghost before = out@;
            self.rest[i].0.encode(out);
            self.rest[i].1.encode(out);
            proof {
                let r = self.rest@;
                assert(r.take(i + 1).drop_last() =~= r.take(i as int));
                assert(r.take(i + 1).last() == r[i as int]);
                assert(out@ =~= p6 + rest_bytes(r.take(i + 1)));
            }
            i = i + 1;
        }
        proof {
            assert(self.rest@.take(self.rest@.len() as int) =~= self.rest@);
            let h = cbor_head(5, self.spec_len());
            let e1 = header_entry(1, opt_int_or_str_bytes(self.alg));
            let e2 = header_entry(2, opt_crit_bytes(self.crit));
            let e3 = header_entry(3, opt_int_or_str_bytes(self.content_type));
            let e4 = header_entry(4, opt_bstr_bytes(self.kid));
            let e5 = header_entry(5, opt_bstr_bytes(self.iv));
            let e6 = header_entry(6, opt_bstr_bytes(self.partial_iv));
            let rb = rest_bytes(self.rest@);
            lemma_seq_assoc7(old(out)@, h, e1, e2, e3, e4, e5, e6, rb);
        }
    }

    /// The number of entries the map encodes to.
    pub open spec fn spec_len(&self) -> nat {
        present(self.alg) + present(self.crit) + present(self.content_type) + present(self.kid)
            + present(self.iv) + present(self.partial_iv) + self.rest@.len()
    }

    /// The number of entries: the generic headers present and the other
    /// labels.
    pub fn len(&self) -> (n: u64)
        requires
            self.rest@.len() <= u64::MAX - 6,
        ensures
            n == self.spec_len(),
    {
        let flags: [bool; 6] = [
            self.alg.is_some(),
            self.crit.is_some(),
            self.content_type.is_some(),
            self.kid.is_some(),
            self.iv.is_some(),
            self.partial_iv.is_some(),
        ];
        let mut sum: u64 = 0;
        let mut i: usize = 0;
        while i < 6
            invariant
                i <= 6,
                sum <= i,
                flags@.len() == 6,
                sum == (if i > 0 && flags@[0] { 1int } else { 0int }) + (if i > 1 && flags@[1] {
                    1int
                } else {
                    0int
                }) + (if i > 2 && flags@[2] { 1int } else { 0int }) + (if i > 3 && flags@[3] {
                    1int
                } else {
                    0int
                }) + (if i > 4 && flags@[4] { 1int } else { 0int }) + (if i > 5 && flags@[5] {
                    1int
                } else {
                    0int
                }),
            decreases 6 - i,
        {
            if flags[i] {
                sum = sum + 1;
            }
            i = i + 1;
        }
        sum + self.rest.len() as u64
    }
}

} // verus!
