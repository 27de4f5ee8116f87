use vstd::prelude::*;

verus! {

/// Sum of a sequence of 16-bit words, as a mathematical integer.
pub open spec fn word_sum(words: Seq<u16>) -> int
    decreases words.len(),
{
    if words.len() == 0 {
        0
    } else {
        word_sum(words.drop_last()) + words.last()
    }
}

/// The big-endian 16-bit word made of two bytes.
pub open spec fn be_word(hi: u8, lo: u8) -> u16 {
    (hi as int * 256 + lo as int) as u16
}

/// The bytes read as consecutive big-endian 16-bit words; a trailing odd
/// byte is not part of any word.
pub open spec fn be_words(bytes: Seq<u8>) -> Seq<u16> {
    Seq::new(bytes.len() / 2, |i: int| be_word(bytes[2 * i], bytes[2 * i + 1]))
}

/// The 16-bit wrapping sum of the big-endian words of `bytes`.
pub open spec fn words_checksum(bytes: Seq<u8>) -> int {
    word_sum(be_words(bytes)) % 0x10000
}

/// The checksum value that a correct header or packet sums to.
pub const VALID_CHECKSUM: u16 = 0xffff;

/// Adds up 16-bit words with wrap-around on overflow.
pub fn wrapping_sum(nums: &[u16]) -> (out: u16)
    ensures
        out == word_sum(nums@) % 0x10000,
{
    let mut out: u16 = 0;
    let mut i: usize = 0;
    while i < nums.len()
        invariant
            i <= nums.len(),
            out == word_sum(nums@.take(i as int)) % 0x10000,
        decreases nums.len() - i,
    {
        assert(nums@.take(i as int + 1).drop_last() =~= nums@.take(i as int));
        out = out.wrapping_add(nums[i]);
        i = i + 1;
    }
    assert(nums@.take(nums.len() as int) =~= nums@);
    out
}

/// Splits bytes into big-endian 16-bit words, dropping a trailing odd byte.
pub fn bytes_to_be_words(bytes: &[u8]) -> (words: Vec<u16>)
    ensures
        words@ == be_words(bytes@),
{
    let mut words: Vec<u16> = Vec::new();
    let n: usize = bytes.len() / 2;
    let mut i: usize = 0;
    while i < n
        invariant
            n == bytes.len() / 2,
            i <= n,
            words@.len() == i,
            forall|j: int| 0 <= j < i ==> words@[j] == be_word(bytes@[2 * j], bytes@[2 * j + 1]),
        decreases n - i,
    {
        let hi: u8 = bytes[2 * i];
        let lo: u8 = bytes[2 * i + 1];
        words.push(hi as u16 * 256 + lo as u16);
        i = i + 1;
    }
    assert(words@ =~= be_words(bytes@));
    words
}

/// The wrapping sum of the big-endian 16-bit words of an array of even
/// length.
pub fn checksum_arr<const LEN: usize>(arr: &[u8; LEN]) -> (out: u16)
    requires
        LEN % 2 == 0,
    ensures
        out == words_checksum(arr@),
{
    let words = bytes_to_be_words(arr.as_slice());
    wrapping_sum(words.as_slice())
}

/// Replacing one word changes the word sum by the difference.
pub proof fn lemma_word_sum_update(words: Seq<u16>, k: int, v: u16)
    requires
        0 <= k < words.len(),
    ensures
        word_sum(words.update(k, v)) == word_sum(words) - words[k] + v,
    decreases words.len(),
{
    if k == words.len() - 1 {
        assert(words.update(k, v).drop_last() =~= words.drop_last());
    } else {
        lemma_word_sum_update(words.drop_last(), k, v);
        assert(words.update(k, v).drop_last() =~= words.drop_last().update(k, v));
    }
}

/// The word sum of a concatenation is the sum of the word sums.
pub proof fn lemma_word_sum_append(a: Seq<u16>, b: Seq<u16>)
    ensures
        word_sum(a + b) == word_sum(a) + word_sum(b),
    decreases b.len(),
{
    if b.len() == 0 {
        assert(a + b =~= a);
    } else {
        lemma_word_sum_append(a, b.drop_last());
        assert((a + b).drop_last() =~= a + b.drop_last());
    }
}

/// Words made only of zero bytes add nothing.
pub proof fn lemma_word_sum_zeros(words: Seq<u16>)
    requires
        forall|i: int| 0 <= i < words.len() ==> words[i] == 0,
    ensures
        word_sum(words) == 0,
    decreases words.len(),
{
    if words.len() > 0 {
        lemma_word_sum_zeros(words.drop_last());
    }
}

/// Word sums are never negative.
pub proof fn lemma_word_sum_nonneg(words: Seq<u16>)
    ensures
        word_sum(words) >= 0,
    decreases words.len(),
{
    if words.len() > 0 {
        lemma_word_sum_nonneg(words.drop_last());
    }
}

/// The bytes with one zero byte after them when their number is odd, so
/// that they fill whole words.
pub open spec fn pad_to_words(bytes: Seq<u8>) -> Seq<u8> {
    if bytes.len() % 2 == 1 {
        bytes.push(0u8)
    } else {
        bytes
    }
}

/// The words of an even number of bytes followed by more bytes are the
/// words of the first, then those of the second.
pub proof fn lemma_be_words_concat(a: Seq<u8>, b: Seq<u8>)
    requires
        a.len() % 2 == 0,
    ensures
        be_words(a + b) == be_words(a) + be_words(b),
{
    let l = be_words(a + b);
    let r = be_words(a) + be_words(b);
    assert((a.len() + b.len()) / 2 == a.len() / 2 + b.len() / 2);
    assert forall|i: int| 0 <= i < l.len() implies l[i] == r[i] by {
        if i < a.len() / 2 {
            assert((a + b)[2 * i] == a[2 * i]);
            assert((a + b)[2 * i + 1] == a[2 * i + 1]);
        } else {
            let k = i - a.len() / 2;
            assert(2 * i == a.len() + 2 * k);
            assert((a + b)[2 * i] == b[2 * k]);
            assert((a + b)[2 * i + 1] == b[2 * k + 1]);
        }
    }
    assert(l =~= r);
}

/// Padding adds the odd last byte as the high byte of one more word.
pub proof fn lemma_padded_word_sum(b: Seq<u8>)
    ensures
        word_sum(be_words(pad_to_words(b))) == word_sum(be_words(b)) + if b.len() % 2 == 1 {
            b.last() as int * 256
        } else {
            0
        },
{
    if b.len() % 2 == 1 {
        let p = b.push(0u8);
        let w = be_words(p);
        assert(w.len() == be_words(b).len() + 1);
        assert(w.drop_last() =~= be_words(b)) by {
            assert forall|i: int| 0 <= i < be_words(b).len() implies w.drop_last()[i] == be_words(b)[i] by {
                assert(p[2 * i] == b[2 * i]);
                assert(p[2 * i + 1] == b[2 * i + 1]);
            }
        }
        let k = be_words(b).len() as int;
        assert(2 * k == b.len() - 1);
        assert(p[2 * k] == b.last());
        assert(p[2 * k + 1] == 0u8);
        assert(w.last() == be_word(b.last(), 0u8));
        assert(b.last() as int * 256 + 0 < 0x10000);
        assert(be_word(b.last(), 0u8) as int == b.last() as int * 256);
    }
}

/// The 16-bit wrapping sum of the words of an even number of bytes
/// followed by more bytes: the sums of the two parts, added with wrap.
pub proof fn lemma_words_checksum_concat(a: Seq<u8>, b: Seq<u8>)
    requires
        a.len() % 2 == 0,
    ensures
        words_checksum(a + b) == (words_checksum(a) + word_sum(be_words(b))) % 0x10000,
{
    lemma_be_words_concat(a, b);
    lemma_word_sum_append(be_words(a), be_words(b));
    lemma_word_sum_nonneg(be_words(a));
    lemma_word_sum_nonneg(be_words(b));
    let x = word_sum(be_words(a));
    let y = word_sum(be_words(b));
    vstd::arithmetic::div_mod::lemma_add_mod_noop(x, y, 0x10000);
    vstd::arithmetic::div_mod::lemma_mod_twice(y, 0x10000);
    vstd::arithmetic::div_mod::lemma_add_mod_noop(x % 0x10000, y, 0x10000);
}

/// Summing the words of an even-length head, then the whole words of a
/// body, then its odd last byte as a high byte, each with wrap, is summing
/// the words of the head followed by the body padded to whole words.
pub proof fn lemma_split_sum_is_padded_sum(head: Seq<u8>, data: Seq<u8>)
    requires
        head.len() % 2 == 0,
    ensures
        (words_checksum(head) + (word_sum(be_words(data)) % 0x10000 + if data.len() % 2 == 1 {
            data.last() as int * 256
        } else {
            0
        }) % 0x10000) % 0x10000 == words_checksum(head + pad_to_words(data)),
{
    lemma_words_checksum_concat(head, pad_to_words(data));
    lemma_padded_word_sum(data);
    lemma_word_sum_nonneg(be_words(data));
    let w = words_checksum(head);
    let sd = word_sum(be_words(data));
    let t: int = if data.len() % 2 == 1 {
        data.last() as int * 256
    } else {
        0
    };
    vstd::arithmetic::div_mod::lemma_add_mod_noop(sd, t, 0x10000);
    vstd::arithmetic::div_mod::lemma_mod_twice(t, 0x10000);
    assert((sd % 0x10000 + t) % 0x10000 == (sd + t) % 0x10000) by {
        vstd::arithmetic::div_mod::lemma_add_mod_noop(sd % 0x10000, t, 0x10000);
        vstd::arithmetic::div_mod::lemma_mod_twice(sd, 0x10000);
    }
    vstd::arithmetic::div_mod::lemma_add_mod_noop(w, sd + t, 0x10000);
    vstd::arithmetic::div_mod::lemma_mod_twice(sd + t, 0x10000);
    assert(w % 0x10000 == w) by {
        vstd::arithmetic::div_mod::lemma_mod_twice(word_sum(be_words(head)), 0x10000);
    }
}

/// Replacing the odd last byte of a body by another byte changes the
/// wrapped word sum of a head followed by the padded body: the last word
/// changes by a nonzero multiple of 256 below `0x10000`.
pub proof fn lemma_padded_sum_sees_last_byte(head: Seq<u8>, data: Seq<u8>, x: u8)
    requires
        head.len() % 2 == 0,
        data.len() % 2 == 1,
        x != data.last(),
    ensures
        words_checksum(head + pad_to_words(data.update(data.len() - 1, x))) != words_checksum(
            head + pad_to_words(data),
        ),
{
    let d2 = data.update(data.len() - 1, x);
    assert(d2.len() == data.len());
    assert(d2.last() == x);
    assert(be_words(d2) =~= be_words(data)) by {
        assert forall|i: int| 0 <= i < be_words(data).len() implies be_words(d2)[i] == be_words(data)[i] by {
            assert(2 * i + 1 < data.len() - 1);
            assert(d2[2 * i] == data[2 * i]);
            assert(d2[2 * i + 1] == data[2 * i + 1]);
        }
    }
    lemma_words_checksum_concat(head, pad_to_words(data));
    lemma_words_checksum_concat(head, pad_to_words(d2));
    lemma_padded_word_sum(data);
    lemma_padded_word_sum(d2);
    lemma_word_sum_nonneg(be_words(data));
    let base = words_checksum(head) + word_sum(be_words(data));
    let a = base + data.last() as int * 256;
    let b = base + x as int * 256;
    assert(a % 0x10000 != b % 0x10000) by {
        if a % 0x10000 == b % 0x10000 {
            vstd::arithmetic::div_mod::lemma_mod_equivalence(a, b, 0x10000);
            let delta = a - b;
            assert(delta == (data.last() as int - x as int) * 256);
            assert(delta != 0);
            assert(-0x10000 < delta < 0x10000);
            if delta > 0 {
                vstd::arithmetic::div_mod::lemma_small_mod(delta as nat, 0x10000);
            } else {
                vstd::arithmetic::div_mod::lemma_mod_equivalence(b, a, 0x10000);
                vstd::arithmetic::div_mod::lemma_small_mod((-delta) as nat, 0x10000);
            }
        }
    }
}

} // verus!
