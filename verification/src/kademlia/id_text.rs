//! How identifiers and distances are written out for people: upper-case
//! hexadecimal, shortened where the identifier is long.
use vstd::prelude::*;

use crate::kademlia::id::{Distance, Id};

verus! {

/// The upper-case hexadecimal digit of `n` (below 16), as an ASCII byte.
pub open spec fn hex_digit(n: int) -> u8 {
    if n < 10 {
        (48 + n) as u8
    } else {
        (55 + n) as u8
    }
}

/// Each byte written as two upper-case hexadecimal digits.
pub open spec fn hex_text(s: Seq<u8>) -> Seq<u8>
    decreases s.len(),
{
    if s.len() == 0 {
        Seq::empty()
    } else {
        hex_text(s.drop_last()) + seq![hex_digit((s.last() / 16) as int), hex_digit((s.last() % 16) as int)]
    }
}

/// The index at which the trailing zero bytes start: the length of the
/// prefix that ends with the last non-zero byte.
pub open spec fn first_zero_byte(s: Seq<u8>) -> nat
    decreases s.len(),
{
    if s.len() == 0 {
        0
    } else if s.last() != 0 {
        s.len()
    } else {
        first_zero_byte(s.drop_last())
    }
}

/// "..." in ASCII.
pub open spec fn ellipsis() -> Seq<u8> {
    seq![46u8, 46u8, 46u8]
}

/// The short form: up to the last non-zero byte, all of it when that is
/// less than two bytes, else the first two bytes, "...", and the last
/// whole pair of bytes before the trailing zeros.
pub open spec fn display_id_text(s: Seq<u8>) -> Seq<u8> {
    let off = first_zero_byte(s);
    if off < 2 {
        hex_text(s.take(off as int))
    } else {
        hex_text(s.take(2)) + ellipsis() + hex_text(
            s.subrange((off / 2 - 1) * 2, (off / 2) as int * 2),
        )
    }
}

/// The first `n` chunks of eight bytes, each in hexadecimal, with `sep`
/// between two chunks.
pub open spec fn chunk_text(s: Seq<u8>, n: nat, sep: Seq<u8>) -> Seq<u8>
    decreases n,
{
    if n == 0 {
        Seq::empty()
    } else if n == 1 {
        hex_text(s.subrange(0, 8))
    } else {
        chunk_text(s, (n - 1) as nat, sep) + sep + hex_text(s.subrange(8 * (n - 1), 8 * n as int))
    }
}

/// The long form: the whole chunks of eight bytes before the trailing
/// zeros, a line each in the alternate form.
pub open spec fn debug_id_text(s: Seq<u8>, first_zero_offset: nat, alternate: bool) -> Seq<u8> {
    chunk_text(s, first_zero_offset / 8, if alternate { seq![10u8] } else { Seq::empty() })
}

/// `s` with four spaces put before the first byte and before each byte
/// that follows a line feed, `start` saying whether the text before `s`
/// ended a line.
pub open spec fn indented(s: Seq<u8>, start: bool) -> Seq<u8>
    decreases s.len(),
{
    if s.len() == 0 {
        Seq::empty()
    } else {
        let before = if s.len() == 1 {
            start
        } else {
            s[s.len() - 2] == 10u8
        };
        indented(s.drop_last(), start) + (if before {
            seq![32u8, 32u8, 32u8, 32u8]
        } else {
            Seq::empty()
        }) + seq![s.last()]
    }
}

/// A value written as a tuple of one field named `name`: `name(field)`,
/// or in the alternate form the field on lines of its own, indented and
/// followed by a comma.
pub open spec fn tuple_text(name: Seq<u8>, field: Seq<u8>, alternate: bool) -> Seq<u8> {
    if alternate {
        name + seq![40u8, 10u8] + indented(field + seq![44u8, 10u8], true) + seq![41u8]
    } else {
        name + seq![40u8] + field + seq![41u8]
    }
}

/// "Id" in ASCII.
pub open spec fn id_name() -> Seq<u8> {
    seq![73u8, 100u8]
}

/// "Distance" in ASCII.
pub open spec fn distance_name() -> Seq<u8> {
    seq![68u8, 105u8, 115u8, 116u8, 97u8, 110u8, 99u8, 101u8]
}

/// The debug form of a value named `name` with bytes `s`: the bare
/// `name()` when every byte is zero.
pub open spec fn debug_text(name: Seq<u8>, s: Seq<u8>, alternate: bool) -> Seq<u8> {
    let off = first_zero_byte(s);
    if off == 0 {
        name + seq![40u8, 41u8]
    } else {
        tuple_text(name, debug_id_text(s, off, alternate), alternate)
    }
}

proof fn lemma_first_zero_byte_bound(s: Seq<u8>)
    ensures
        first_zero_byte(s) <= s.len(),
    decreases s.len(),
{
    if s.len() > 0 {
        lemma_first_zero_byte_bound(s.drop_last());
    }
}

fn hex_digit_of(n: u8) -> (d: u8)
    requires
        n < 16,
    ensures
        d == hex_digit(n as int),
{
    if n < 10 {
        48 + n
    } else {
        55 + n
    }
}

/// Appends `bytes[from..to]` in hexadecimal to `out`.
fn push_hex(out: &mut Vec<u8>, bytes: &[u8], from: usize, to: usize)
    requires
        from <= to <= bytes@.len(),
    ensures
        final(out)@ == old(out)@ + hex_text(bytes@.subrange(from as int, to as int)),
{
    let ghost start = out@;
    let mut i = from;
    assert(bytes@.subrange(from as int, from as int) =~= Seq::<u8>::empty());
    assert(start + Seq::<u8>::empty() =~= start);
    while i < to
        invariant
            from <= i <= to <= bytes@.len(),
            out@ == start + hex_text(bytes@.subrange(from as int, i as int)),
        decreases to - i,
    {
        let b = bytes[i];
        out.push(hex_digit_of(b / 16));
        out.push(hex_digit_of(b % 16));
        assert(bytes@.subrange(from as int, i + 1).drop_last() =~= bytes@.subrange(
            from as int,
            i as int,
        ));
        i = i + 1;
    }
}

/// Appends `bytes` to `out`.
fn push_all(out: &mut Vec<u8>, bytes: &[u8])
    ensures
        final(out)@ == old(out)@ + bytes@,
{
    let ghost start = out@;
    let mut i: usize = 0;
    while i < bytes.len()
        invariant
            i <= bytes@.len(),
            out@ == start + bytes@.take(i as int),
        decreases bytes@.len() - i,
    {
        out.push(bytes[i]);
        assert(bytes@.take(i + 1) =~= bytes@.take(i as int).push(bytes@[i as int]));
        i = i + 1;
    }
    assert(bytes@.take(bytes@.len() as int) =~= bytes@);
}

/// The index at which the trailing zero bytes of `bytes` start.
fn first_zero_byte_of(bytes: &[u8]) -> (r: usize)
    ensures
        r == first_zero_byte(bytes@),
{
    let mut i = bytes.len();
    assert(bytes@.take(i as int) =~= bytes@);
    while i > 0 && bytes[i - 1] == 0
        invariant
            i <= bytes@.len(),
            first_zero_byte(bytes@.take(i as int)) == first_zero_byte(bytes@),
        decreases i,
    {
        assert(bytes@.take(i as int).drop_last() =~= bytes@.take(i - 1));
        i = i - 1;
    }
    i
}

/// The short form of `bytes` in hexadecimal.
fn display_bytes(bytes: &[u8]) -> (out: Vec<u8>)
    ensures
        out@ == display_id_text(bytes@),
{
    let off = first_zero_byte_of(bytes);
    proof {
        lemma_first_zero_byte_bound(bytes@);
    }
    let mut out: Vec<u8> = Vec::new();
    if off < 2 {
        push_hex(&mut out, bytes, 0, off);
        assert(bytes@.subrange(0, off as int) =~= bytes@.take(off as int));
        assert(Seq::<u8>::empty() + hex_text(bytes@.take(off as int)) =~= hex_text(
            bytes@.take(off as int),
        ));
    } else {
        push_hex(&mut out, bytes, 0, 2);
        out.push(46);
        out.push(46);
        out.push(46);
        let ghost mid = out@;
        push_hex(&mut out, bytes, (off / 2 - 1) * 2, (off / 2) * 2);
        assert(bytes@.subrange(0, 2) =~= bytes@.take(2));
        assert(mid =~= Seq::<u8>::empty() + hex_text(bytes@.take(2)) + ellipsis());
        assert(out@ =~= display_id_text(bytes@));
    }
    out
}

/// The long form of `bytes[..first_zero_offset]`: its whole chunks of
/// eight bytes in hexadecimal, with a line feed between two chunks in the
/// alternate form.
fn debug_bytes(bytes: &[u8], first_zero_offset: usize, alternate: bool) -> (out: Vec<u8>)
    requires
        first_zero_offset <= bytes@.len(),
    ensures
        out@ == debug_id_text(bytes@, first_zero_offset as nat, alternate),
{
    let ghost sep: Seq<u8> = if alternate {
        seq![10u8]
    } else {
        Seq::empty()
    };
    let chunks = first_zero_offset / 8;
    let mut out: Vec<u8> = Vec::new();
    let mut c: usize = 0;
    while c < chunks
        invariant
            chunks == first_zero_offset / 8,
            first_zero_offset <= bytes@.len(),
            c <= chunks,
            sep == (if alternate { seq![10u8] } else { Seq::<u8>::empty() }),
            out@ == chunk_text(bytes@, c as nat, sep),
        decreases chunks - c,
    {
        if c > 0 && alternate {
            out.push(10);
        }
        let ghost before = out@;
        assert(8 * c + 8 <= first_zero_offset) by (nonlinear_arith)
            requires
                c < chunks,
                chunks == first_zero_offset / 8,
        ;
        push_hex(&mut out, bytes, 8 * c, 8 * c + 8);
        proof {
            if c == 0 {
                assert(out@ =~= hex_text(bytes@.subrange(0, 8)));
            } else {
                assert(before =~= chunk_text(bytes@, c as nat, sep) + sep);
            }
        }
        c = c + 1;
    }
    out
}

impl<const N: usize> Id<N> {
    /// The index at which the trailing zero bytes start.
    pub fn get_first_zero_byte(&self) -> (r: usize)
        ensures
            r == first_zero_byte(self.0@),
            r <= N,
    {
        proof {
            lemma_first_zero_byte_bound(self.0@);
        }
        first_zero_byte_of(self.0.as_slice())
    }

    /// The short hexadecimal form of the identifier.
    pub fn display_id_bytes(&self) -> (out: Vec<u8>)
        ensures
            out@ == display_id_text(self.0@),
    {
        display_bytes(self.0.as_slice())
    }

    /// The chunks of eight bytes before `first_zero_offset` in hexadecimal,
    /// a line each in the alternate form.
    pub fn debug_id_bytes(&self, first_zero_offset: usize, alternate: bool) -> (out: Vec<u8>)
        requires
            first_zero_offset <= N,
        ensures
            out@ == debug_id_text(self.0@, first_zero_offset as nat, alternate),
    {
        debug_bytes(self.0.as_slice(), first_zero_offset, alternate)
    }

    /// The identifier as it is displayed: `Id(` and its short form `)`.
    pub fn display_text(&self) -> (out: Vec<u8>)
        ensures
            out@ == tuple_text(id_name(), display_id_text(self.0@), false),
    {
        let field = self.display_id_bytes();
        tuple_bytes(&[73u8, 100u8], &field, false)
    }

    /// The identifier as it is written for debugging: `Id()` when it is
    /// zero, else its long form as a tuple field.
    pub fn debug_text(&self, alternate: bool) -> (out: Vec<u8>)
        ensures
            out@ == debug_text(id_name(), self.0@, alternate),
    {
        proof {
            lemma_first_zero_byte_bound(self.0@);
        }
        debug_text_of(&[73u8, 100u8], self.0.as_slice(), alternate)
    }
}

impl<const N: usize> Distance<N> {
    /// The distance as it is displayed: its short hexadecimal form.
    pub fn display_text(&self) -> (out: Vec<u8>)
        ensures
            out@ == display_id_text(self.0@),
    {
        display_bytes(self.0.as_slice())
    }

    /// The distance as it is written for debugging: `Distance()` when it
    /// is zero, else its long form as a tuple field.
    pub fn debug_text(&self, alternate: bool) -> (out: Vec<u8>)
        ensures
            out@ == debug_text(distance_name(), self.0@, alternate),
    {
        debug_text_of(&[68u8, 105u8, 115u8, 116u8, 97u8, 110u8, 99u8, 101u8], self.0.as_slice(), alternate)
    }
}

/// The debug form of a value named `name` with bytes `bytes`.
fn debug_text_of(name: &[u8], bytes: &[u8], alternate: bool) -> (out: Vec<u8>)
    ensures
        out@ == debug_text(name@, bytes@, alternate),
{
    let off = first_zero_byte_of(bytes);
    proof {
        lemma_first_zero_byte_bound(bytes@);
    }
    if off == 0 {
        let mut out: Vec<u8> = Vec::new();
        push_all(&mut out, name);
        out.push(40);
        out.push(41);
        assert(out@ =~= name@ + seq![40u8, 41u8]);
        out
    } else {
        let field = debug_bytes(bytes, off, alternate);
        tuple_bytes(name, &field, alternate)
    }
}

/// `field` written as the one field of a tuple named `name`.
fn tuple_bytes(name: &[u8], field: &[u8], alternate: bool) -> (out: Vec<u8>)
    ensures
        out@ == tuple_text(name@, field@, alternate),
{
    let mut out: Vec<u8> = Vec::new();
    push_all(&mut out, name);
    if !alternate {
        out.push(40);
        push_all(&mut out, field);
        out.push(41);
        assert(out@ =~= name@ + seq![40u8] + field@ + seq![41u8]);
        return out;
    }
    out.push(40);
    out.push(10);
    let ghost head = out@;
    let ghost body = field@ + seq![44u8, 10u8];
    // the field and its trailing comma, indented line by line
    let mut i: usize = 0;
    assert(body.take(0) =~= Seq::<u8>::empty());
    while i < field.len()
        invariant
            body == field@ + seq![44u8, 10u8],
            i <= field@.len(),
            out@ == head + indented(body.take(i as int), true),
        decreases field@.len() - i,
    {
        let b: u8 = field[i];
        let line_start = i == 0 || field[i - 1] == 10;
        if line_start {
            out.push(32);
            out.push(32);
            out.push(32);
            out.push(32);
        }
        out.push(b);
        proof {
            let t = body.take(i + 1);
            assert(t.drop_last() =~= body.take(i as int));
            assert(t.last() == b);
            if i > 0 {
                assert(t[t.len() - 2] == field@[i - 1]);
            }
        }
        i = i + 1;
    }
    let n = field.len();
    let comma_starts_line = n == 0 || field[n - 1] == 10;
    if comma_starts_line {
        out.push(32);
        out.push(32);
        out.push(32);
        out.push(32);
    }
    out.push(44);
    proof {
        let t = body.take(n + 1);
        assert(t.drop_last() =~= body.take(n as int));
        if n > 0 {
            assert(t[t.len() - 2] == field@[n - 1]);
        }
        assert(t.last() == 44u8);
        assert(out@ =~= head + indented(t, true));
    }
    out.push(10);
    proof {
        let t = body.take(n + 2);
        assert(t.drop_last() =~= body.take(n + 1));
        assert(t[t.len() - 2] == 44u8);
        assert(t.last() == 10u8);
        assert(out@ =~= head + indented(t, true));
    }
    out.push(41);
    assert(body.take(n + 2) =~= body);
    assert(out@ =~= head + indented(body, true) + seq![41u8]);
    assert(head =~= name@ + seq![40u8, 10u8]);
    out
}

} // verus!
