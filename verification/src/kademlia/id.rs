use vstd::prelude::*;

verus! {

/// Bit `i` of a byte string, counting from the most significant bit of the
/// first byte.
pub open spec fn bit_at(s: Seq<u8>, i: int) -> bool {
    (s[i / 8] >> ((7 - i % 8) as u8)) & 1u8 != 0u8
}

/// The value of a byte string read as a big-endian unsigned number.
pub open spec fn be_value(s: Seq<u8>) -> nat
    decreases s.len(),
{
    if s.len() == 0 {
        0
    } else {
        s[0] as nat * pow256((s.len() - 1) as nat) + be_value(s.drop_first())
    }
}

/// 256 to the power `n`.
pub open spec fn pow256(n: nat) -> nat
    decreases n,
{
    if n == 0 {
        1
    } else {
        256 * pow256((n - 1) as nat)
    }
}

/// The number of leading zero bits of a byte string.
pub open spec fn spec_leading_zeros(s: Seq<u8>) -> nat
    decreases s.len(),
{
    if s.len() == 0 {
        0
    } else if s[0] == 0 {
        8 + spec_leading_zeros(s.drop_first())
    } else {
        vstd::std_specs::bits::u8_leading_zeros(s[0]) as nat
    }
}

/// Bit `index` of a byte string, counting from the most significant bit of
/// the first byte, for an identifier of `N` bytes.
pub fn bit_of_array<const N: usize>(id: &[u8], index: usize) -> (b: bool)
    requires
        N * 8 <= usize::MAX,
        index <= N * 8,
        index / 8 < id@.len(),
    ensures
        b == bit_at(id@, index as int),
{
    let byte: u8 = id[index / 8];
    let shift: u8 = (7 - (index % 8)) as u8;
    (byte >> shift) & 1u8 != 0
}

/// A node or key identifier of `N` bytes.
#[derive(Clone, Copy, Debug, PartialEq, Eq)]
pub struct Id<const N: usize>(pub [u8; N]);

/// The XOR distance between two identifiers of `N` bytes.
#[derive(Clone, Copy, Debug, PartialEq, Eq)]
pub struct Distance<const N: usize>(pub [u8; N]);

/// Something identified by an `Id` of `N` bytes.
pub trait HasId<const N: usize> {
    spec fn spec_id(&self) -> Id<N>;

    fn id(&self) -> (r: &Id<N>)
        ensures
            *r == self.spec_id(),
    ;
}

impl<const N: usize> HasId<N> for Id<N> {
    open spec fn spec_id(&self) -> Id<N> {
        *self
    }

    fn id(&self) -> (r: &Id<N>) {
        self
    }
}

/// The bytewise XOR of two byte strings of equal length.
pub open spec fn xor_seq(a: Seq<u8>, b: Seq<u8>) -> Seq<u8> {
    Seq::new(a.len(), |i: int| a[i] ^ b[i])
}

fn xor_arrays<const N: usize>(a: &[u8; N], b: &[u8; N]) -> (out: [u8; N])
    ensures
        out@ == xor_seq(a@, b@),
{
    let mut out: [u8; N] = vstd::array::array_fill_for_copy_types::<u8, N>(0u8);
    let mut i: usize = 0;
    while i < N
        invariant
            i <= N,
            out@.len() == N,
            a@.len() == N,
            b@.len() == N,
            forall|j: int| 0 <= j < i ==> out@[j] == a@[j] ^ b@[j],
        decreases N - i,
    {
        out[i] = a[i] ^ b[i];
        i = i + 1;
    }
    assert(out@ =~= xor_seq(a@, b@));
    out
}

impl<const N: usize> Id<N> {
    /// The identifier made of `value` padded with zero bytes to `N` bytes.
    pub fn from_array<const M: usize>(value: [u8; M]) -> (id: Id<N>)
        requires
            M <= N,
        ensures
            id.0@ == value@ + Seq::new((N - M) as nat, |i: int| 0u8),
    {
        let mut out: [u8; N] = vstd::array::array_fill_for_copy_types::<u8, N>(0u8);
        let mut i: usize = 0;
        while i < M
            invariant
                M <= N,
                i <= M,
                out@.len() == N,
                forall|j: int| 0 <= j < i ==> out@[j] == value@[j],
                forall|j: int| M <= j < N ==> out@[j] == 0,
            decreases M - i,
        {
            out[i] = value[i];
            i = i + 1;
        }
        assert(out@ =~= value@ + Seq::new((N - M) as nat, |i: int| 0u8));
        Id(out)
    }

    /// Whether two identifiers are the same.
    pub fn same_as(&self, other: &Id<N>) -> (r: bool)
        ensures
            r == (*self == *other),
    {
        let mut i: usize = 0;
        while i < N
            invariant
                i <= N,
                self.0@.len() == N,
                other.0@.len() == N,
                forall|j: int| 0 <= j < i ==> self.0@[j] == other.0@[j],
            decreases N - i,
        {
            if self.0[i] != other.0[i] {
                return false;
            }
            i = i + 1;
        }
        assert(self.0 =~= other.0);
        true
    }

    /// The bytes of the identifier.
    pub fn bytes(&self) -> (b: &[u8])
        ensures
            b@ == self.0@,
    {
        self.0.as_slice()
    }

    /// The XOR distance to another identifier.
    pub fn xor_distance(&self, rhs: &Self) -> (d: Distance<N>)
        ensures
            d.0@ == xor_seq(self.0@, rhs.0@),
    {
        Distance(xor_arrays(&self.0, &rhs.0))
    }

    /// The identifier at distance `d` from this one.
    pub fn xor_with_distance(&self, d: &Distance<N>) -> (out: Id<N>)
        ensures
            out.0@ == xor_seq(self.0@, d.0@),
    {
        Id(xor_arrays(&self.0, &d.0))
    }

    /// In-place XOR with another identifier.
    pub fn bitxor_assign(&mut self, rhs: Self)
        ensures
            final(self).0@ == xor_seq(old(self).0@, rhs.0@),
    {
        let x = xor_arrays(&self.0, &rhs.0);
        self.0 = x;
    }

    /// The byte at `index`.
    pub fn index(&self, index: usize) -> (b: u8)
        requires
            index < N,
        ensures
            b == self.0@[index as int],
    {
        self.0[index]
    }
}

impl<const N: usize> Distance<N> {
    /// The big-endian value of the distance.
    pub open spec fn value(&self) -> nat {
        be_value(self.0@)
    }

    /// The distance made of the given bytes.
    pub fn new(bytes: [u8; N]) -> (d: Distance<N>)
        ensures
            d.0@ == bytes@,
    {
        Distance(bytes)
    }

    /// The zero distance.
    pub fn zero() -> (d: Distance<N>)
        ensures
            forall|i: int| 0 <= i < N ==> d.0@[i] == 0,
    {
        Distance(vstd::array::array_fill_for_copy_types::<u8, N>(0u8))
    }

    /// The largest distance: every byte is 0xff.
    pub fn max() -> (d: Distance<N>)
        ensures
            forall|i: int| 0 <= i < N ==> d.0@[i] == 0xff,
    {
        Distance(vstd::array::array_fill_for_copy_types::<u8, N>(0xffu8))
    }

    /// The distance one: every byte is zero but the last, which is 1.
    pub fn one() -> (d: Distance<N>)
        ensures
            forall|i: int| 0 <= i < N ==> d.0@[i] == if i == N - 1 { 1u8 } else { 0u8 },
    {
        let mut arr: [u8; N] = vstd::array::array_fill_for_copy_types::<u8, N>(0u8);
        if N > 0 {
            arr[N - 1] = 1;
        }
        Distance(arr)
    }

    /// The byte at `index`.
    pub fn index(&self, index: usize) -> (b: u8)
        requires
            index < N,
        ensures
            b == self.0@[index as int],
    {
        self.0[index]
    }

    /// The identifier at this distance from `id`.
    pub fn xor_with_id(&self, id: &Id<N>) -> (out: Id<N>)
        ensures
            out.0@ == xor_seq(self.0@, id.0@),
    {
        Id(xor_arrays(&self.0, &id.0))
    }

    /// The number of leading zero bits.
    pub fn leading_zeros(&self) -> (count: usize)
        requires
            N * 8 <= usize::MAX,
        ensures
            count == spec_leading_zeros(self.0@),
    {
        let mut count: usize = 0;
        let mut i: usize = 0;
        assert(self.0@.skip(0) =~= self.0@);
        while i < N
            invariant
                N * 8 <= usize::MAX,
                i <= N,
                self.0@.len() == N,
                count == 8 * i,
                forall|j: int| 0 <= j < i ==> self.0@[j] == 0,
                spec_leading_zeros(self.0@) == count + spec_leading_zeros(self.0@.skip(i as int)),
            decreases N - i,
        {
            let byte = self.0[i];
            proof {
                assert(self.0@.skip(i as int).drop_first() =~= self.0@.skip(i as int + 1));
            }
            if byte == 0 {
                count = count + 8;
            } else {
                count = count + byte.leading_zeros() as usize;
                return count;
            }
            i = i + 1;
        }
        proof {
            assert(self.0@.skip(N as int) =~= Seq::<u8>::empty());
        }
        count
    }
}

/// A byte string's value splits into the value of its first `k` bytes,
/// shifted, and the value of the rest.
pub proof fn lemma_be_value_split(s: Seq<u8>, k: int)
    requires
        0 <= k <= s.len(),
    ensures
        be_value(s) == be_value(s.take(k)) * pow256((s.len() - k) as nat) + be_value(s.skip(k)),
    decreases k,
{
    if k == 0 {
        assert(s.take(0) =~= Seq::<u8>::empty());
        assert(s.skip(0) =~= s);
    } else {
        let t = s.drop_first();
        lemma_be_value_split(t, k - 1);
        assert(t.take(k - 1) =~= s.take(k).drop_first());
        assert(t.skip(k - 1) =~= s.skip(k));
        let p = pow256((s.len() - k) as nat);
        let q = pow256((k - 1) as nat);
        lemma_pow256_add((k - 1) as nat, (s.len() - k) as nat);
        assert((k - 1) as nat + (s.len() - k) as nat == (s.len() - 1) as nat);
        let h = be_value(s.take(k));
        let ht = be_value(t.take(k - 1));
        assert(s.take(k)[0] == s[0]);
        assert(h == s[0] as nat * q + ht);
        assert(be_value(s) == s[0] as nat * pow256((s.len() - 1) as nat) + be_value(t));
        assert(be_value(t) == ht * p + be_value(s.skip(k)));
        assert(s[0] as nat * pow256((s.len() - 1) as nat) == (s[0] as nat * q) * p) by (nonlinear_arith)
            requires pow256((s.len() - 1) as nat) == q * p;
        assert(h * p == (s[0] as nat * q) * p + ht * p) by (nonlinear_arith)
            requires h == s[0] as nat * q + ht;
    }
}

/// Powers of 256 multiply by adding exponents.
pub proof fn lemma_pow256_add(a: nat, b: nat)
    ensures
        pow256(a + b) == pow256(a) * pow256(b),
    decreases a,
{
    if a > 0 {
        let a1 = (a - 1) as nat;
        lemma_pow256_add(a1, b);
        assert(a + b == (a1 + b) + 1);
        assert(pow256(a + b) == 256 * pow256(a1 + b));
        assert(pow256(a) == 256 * pow256(a1));
        assert(256 * (pow256(a1) * pow256(b)) == (256 * pow256(a1)) * pow256(b)) by (nonlinear_arith);
    } else {
        assert(pow256(0) == 1);
    }
}

/// Powers of 256 are positive.
pub proof fn lemma_pow256_pos(n: nat)
    ensures
        pow256(n) > 0,
    decreases n,
{
    if n > 0 {
        lemma_pow256_pos((n - 1) as nat);
    }
}

/// A byte string of `n` bytes has a value below 256 to the `n`.
pub proof fn lemma_be_value_bound(s: Seq<u8>)
    ensures
        be_value(s) < pow256(s.len()),
    decreases s.len(),
{
    if s.len() > 0 {
        lemma_be_value_bound(s.drop_first());
        let p = pow256((s.len() - 1) as nat);
        assert(s[0] as nat * p + be_value(s.drop_first()) < 256 * p) by (nonlinear_arith)
            requires s[0] < 256, be_value(s.drop_first()) < p;
    }
}

/// Of two byte strings of equal length that agree on their first `k` bytes,
/// the one with the smaller byte at `k` has the smaller value.
pub proof fn lemma_be_value_lt(s: Seq<u8>, t: Seq<u8>, k: int)
    requires
        s.len() == t.len(),
        0 <= k < s.len(),
        s.take(k) == t.take(k),
        s[k] < t[k],
    ensures
        be_value(s) < be_value(t),
{
    lemma_be_value_split(s, k);
    lemma_be_value_split(t, k);
    let ss = s.skip(k);
    let ts = t.skip(k);
    let p = pow256((ss.len() - 1) as nat);
    lemma_be_value_bound(ss.drop_first());
    assert(ss[0] == s[k] && ts[0] == t[k]);
    assert(be_value(ss) < be_value(ts)) by (nonlinear_arith)
        requires
            be_value(ss) == ss[0] as nat * p + be_value(ss.drop_first()),
            be_value(ts) == ts[0] as nat * p + be_value(ts.drop_first()),
            be_value(ss.drop_first()) < p,
            ss[0] < ts[0],
    ;
    let h = be_value(s.take(k));
    let q = pow256((s.len() - k) as nat);
    assert(h * q + be_value(ss) < h * q + be_value(ts));
}

impl<const N: usize> Distance<N> {
    /// Whether this distance is smaller than `other`: the first differing
    /// byte decides.
    pub fn is_less_than(&self, other: &Self) -> (b: bool)
        ensures
            b == (self.value() < other.value()),
    {
        let mut i: usize = 0;
        while i < N
            invariant
                i <= N,
                self.0@.len() == N,
                other.0@.len() == N,
                self.0@.take(i as int) == other.0@.take(i as int),
            decreases N - i,
        {
            let a = self.0[i];
            let c = other.0[i];
            if a < c {
                proof {
                    lemma_be_value_lt(self.0@, other.0@, i as int);
                }
                return true;
            }
            if a > c {
                proof {
                    lemma_be_value_lt(other.0@, self.0@, i as int);
                }
                return false;
            }
            assert(self.0@.take(i + 1) =~= self.0@.take(i as int).push(a));
            assert(other.0@.take(i + 1) =~= other.0@.take(i as int).push(c));
            i = i + 1;
        }
        assert(self.0@ =~= self.0@.take(N as int));
        assert(other.0@ =~= other.0@.take(N as int));
        false
    }

    /// Whether the two distances are the same.
    pub fn same_as(&self, other: &Self) -> (b: bool)
        ensures
            b == (*self == *other),
    {
        let mut i: usize = 0;
        while i < N
            invariant
                i <= N,
                self.0@.len() == N,
                other.0@.len() == N,
                forall|j: int| 0 <= j < i ==> self.0@[j] == other.0@[j],
            decreases N - i,
        {
            if self.0[i] != other.0[i] {
                return false;
            }
            i = i + 1;
        }
        assert(self.0 =~= other.0);
        true
    }

    /// The sum of two distances, wrapping around at 256 to the `N`.
    pub fn add(&self, rhs: &Self) -> (out: Distance<N>)
        ensures
            out.value() == (self.value() + rhs.value()) % pow256(N as nat),
    {
        let mut out: [u8; N] = vstd::array::array_fill_for_copy_types::<u8, N>(0u8);
        let mut carry: u8 = 0;
        let mut i: usize = N;
        proof {
            assert(out@.skip(N as int) =~= Seq::<u8>::empty());
            assert(self.0@.skip(N as int) =~= Seq::<u8>::empty());
            assert(rhs.0@.skip(N as int) =~= Seq::<u8>::empty());
        }
        while i > 0
            invariant
                i <= N,
                out@.len() == N,
                self.0@.len() == N,
                rhs.0@.len() == N,
                carry <= 1,
                be_value(out@.skip(i as int)) + carry * pow256((N - i) as nat) == be_value(
                    self.0@.skip(i as int),
                ) + be_value(rhs.0@.skip(i as int)),
            decreases i,
        {
            i = i - 1;
            let sum: u16 = self.0[i] as u16 + rhs.0[i] as u16 + carry as u16;
            let ghost old_out = out@;
            let ghost old_carry = carry;
            out[i] = (sum % 256) as u8;
            carry = (sum / 256) as u8;
            proof {
                let p = pow256((N - i - 1) as nat);
                assert(out@.skip(i + 1) =~= old_out.skip(i + 1));
                assert(out@.skip(i as int).drop_first() =~= out@.skip(i + 1));
                assert(self.0@.skip(i as int).drop_first() =~= self.0@.skip(i + 1));
                assert(rhs.0@.skip(i as int).drop_first() =~= rhs.0@.skip(i + 1));
                assert(pow256((N - i) as nat) == 256 * p);
                assert(out@[i as int] as int * p + carry * (256 * p) == (self.0@[i as int] as int
                    + rhs.0@[i as int] as int + old_carry) * p) by (nonlinear_arith)
                    requires
                        sum == self.0@[i as int] as int + rhs.0@[i as int] as int + old_carry,
                        out@[i as int] == sum % 256,
                        carry == sum / 256,
                ;
                assert((self.0@[i as int] as int + rhs.0@[i as int] as int + old_carry) * p
                    == self.0@[i as int] as int * p + rhs.0@[i as int] as int * p + old_carry * p)
                    by (nonlinear_arith);
            }
        }
        proof {
            assert(out@.skip(0) =~= out@);
            assert(self.0@.skip(0) =~= self.0@);
            assert(rhs.0@.skip(0) =~= rhs.0@);
            lemma_be_value_bound(out@);
            lemma_pow256_pos(N as nat);
            let m = pow256(N as nat) as int;
            let v = be_value(out@) as int;
            vstd::arithmetic::div_mod::lemma_fundamental_div_mod_converse(
                v + carry * m,
                m,
                carry as int,
                v,
            );
        }
        Distance(out)
    }
}

/// The bytes of `s` moved `bs` places toward the front, zero-filled.
pub open spec fn bytes_moved_front(s: Seq<u8>, bs: int) -> Seq<u8> {
    Seq::new(s.len(), |j: int| if j + bs < s.len() { s[j + bs] } else { 0u8 })
}

/// The bytes of `s` moved `bs` places toward the back, zero-filled.
pub open spec fn bytes_moved_back(s: Seq<u8>, bs: int) -> Seq<u8> {
    Seq::new(s.len(), |j: int| if j >= bs { s[j - bs] } else { 0u8 })
}

/// What `Distance::shl` makes of bytes `s` and a shift `rhs`: the bytes move
/// `rhs / 8` places toward the front; then, for a remaining shift `b` above
/// zero, each byte is shifted left by `b` and takes the top `b` bits of the
/// byte before it as its low bits.
pub open spec fn spec_shl(s: Seq<u8>, rhs: int) -> Seq<u8> {
    let bs = rhs / 8;
    let b = rhs % 8;
    if bs >= s.len() {
        Seq::new(s.len(), |i: int| 0u8)
    } else {
        let m = bytes_moved_front(s, bs);
        if b == 0 {
            m
        } else {
            Seq::new(
                s.len(),
                |i: int|
                    (m[i] << (b as u8)) | if i > 0 {
                        m[i - 1] >> ((8 - b) as u8)
                    } else {
                        0u8
                    },
            )
        }
    }
}

/// What `Distance::shr` makes of bytes `s` and a shift `rhs`: the bytes move
/// `rhs / 8` places toward the back; then, for a remaining shift `b` above
/// zero, each byte is shifted right by `b` and takes the low `b` bits of the
/// byte after it as its top bits.
pub open spec fn spec_shr(s: Seq<u8>, rhs: int) -> Seq<u8> {
    let bs = rhs / 8;
    let b = rhs % 8;
    if bs >= s.len() {
        Seq::new(s.len(), |i: int| 0u8)
    } else {
        let m = bytes_moved_back(s, bs);
        if b == 0 {
            m
        } else {
            Seq::new(
                s.len(),
                |i: int|
                    (m[i] >> (b as u8)) | if i < s.len() - 1 {
                        (m[i + 1] & (((1u8 << (b as u8)) - 1) as u8)) << ((8 - b) as u8)
                    } else {
                        0u8
                    },
            )
        }
    }
}

impl<const N: usize> Distance<N> {
    /// The distance shifted by `rhs` bits toward the front (see `spec_shl`).
    pub fn shl(self, rhs: usize) -> (out: Distance<N>)
        ensures
            out.0@ == spec_shl(self.0@, rhs as int),
    {
        let byte_shift: usize = rhs / 8;
        let bit_shift: usize = rhs % 8;
        if byte_shift >= N {
            let z = Distance(vstd::array::array_fill_for_copy_types::<u8, N>(0u8));
            assert(z.0@ =~= spec_shl(self.0@, rhs as int));
            return z;
        }
        let mut out: [u8; N] = vstd::array::array_fill_for_copy_types::<u8, N>(0u8);
        let mut i: usize = 0;
        while i < N - byte_shift
            invariant
                byte_shift < N,
                i <= N - byte_shift,
                out@.len() == N,
                self.0@.len() == N,
                forall|j: int| 0 <= j < i ==> out@[j] == self.0@[j + byte_shift],
                forall|j: int| N - byte_shift <= j < N ==> out@[j] == 0,
            decreases N - byte_shift - i,
        {
            out[i] = self.0[i + byte_shift];
            i = i + 1;
        }
        let ghost m = out@;
        assert(m =~= bytes_moved_front(self.0@, byte_shift as int));
        if bit_shift > 0 {
            let b: u8 = bit_shift as u8;
            let mut carry: u8 = 0;
            let mut k: usize = 0;
            while k < N
                invariant
                    0 < b < 8,
                    b == bit_shift,
                    k <= N,
                    out@.len() == N,
                    m.len() == N,
                    forall|j: int| k <= j < N ==> out@[j] == m[j],
                    forall|j: int|
                        0 <= j < k ==> out@[j] == (m[j] << b) | if j > 0 {
                            m[j - 1] >> ((8 - b) as u8)
                        } else {
                            0u8
                        },
                    carry == if k > 0 {
                        m[k - 1] >> ((8 - b) as u8)
                    } else {
                        0u8
                    },
                decreases N - k,
            {
                let cur = out[k];
                let new_carry: u8 = cur >> (8 - b);
                out[k] = (cur << b) | carry;
                carry = new_carry;
                k = k + 1;
            }
        }
        assert(out@ =~= spec_shl(self.0@, rhs as int));
        Distance(out)
    }

    /// The distance shifted by `rhs` bits toward the back (see `spec_shr`).
    pub fn shr(self, rhs: usize) -> (out: Distance<N>)
        ensures
            out.0@ == spec_shr(self.0@, rhs as int),
    {
        let byte_shift: usize = rhs / 8;
        let bit_shift: usize = rhs % 8;
        if byte_shift >= N {
            let z = Distance(vstd::array::array_fill_for_copy_types::<u8, N>(0u8));
            assert(z.0@ =~= spec_shr(self.0@, rhs as int));
            return z;
        }
        let mut out: [u8; N] = vstd::array::array_fill_for_copy_types::<u8, N>(0u8);
        let mut i: usize = 0;
        while i < N - byte_shift
            invariant
                byte_shift < N,
                i <= N - byte_shift,
                out@.len() == N,
                self.0@.len() == N,
                forall|j: int| byte_shift <= j < byte_shift + i ==> out@[j] == self.0@[j - byte_shift],
                forall|j: int| 0 <= j < byte_shift ==> out@[j] == 0,
                forall|j: int| byte_shift + i <= j < N ==> out@[j] == 0,
            decreases N - byte_shift - i,
        {
            out[byte_shift + i] = self.0[i];
            i = i + 1;
        }
        let ghost m = out@;
        assert(m =~= bytes_moved_back(self.0@, byte_shift as int));
        if bit_shift > 0 {
            let b: u8 = bit_shift as u8;
            assert(1u8 << b >= 1u8) by (bit_vector)
                requires
                    0 < b < 8,
            ;
            let mask: u8 = (1u8 << b) - 1;
            let mut carry: u8 = 0;
            let mut k: usize = N;
            while k > 0
                invariant
                    0 < b < 8,
                    b == bit_shift,
                    mask == ((1u8 << b) - 1) as u8,
                    k <= N,
                    out@.len() == N,
                    m.len() == N,
                    forall|j: int| 0 <= j < k ==> out@[j] == m[j],
                    forall|j: int|
                        k <= j < N ==> out@[j] == (m[j] >> b) | if j < N - 1 {
                            (m[j + 1] & mask) << ((8 - b) as u8)
                        } else {
                            0u8
                        },
                    carry == if k < N {
                        m[k as int] & mask
                    } else {
                        0u8
                    },
                decreases k,
            {
                k = k - 1;
                let cur = out[k];
                let new_carry: u8 = cur & mask;
                let shift: u8 = 8 - b;
                assert(0u8 << shift == 0u8) by (bit_vector);
                assert(shift == (8 - b) as u8);
                out[k] = (cur >> b) | (carry << shift);
                carry = new_carry;
            }
        }
        assert(out@ =~= spec_shr(self.0@, rhs as int));
        Distance(out)
    }
}

/// The XOR distance between identifiers is symmetric.
pub proof fn lemma_xor_distance_symmetric<const N: usize>(a: Id<N>, b: Id<N>)
    ensures
        xor_seq(a.0@, b.0@) == xor_seq(b.0@, a.0@),
{
    assert forall|i: int| 0 <= i < N implies a.0@[i] ^ b.0@[i] == b.0@[i] ^ a.0@[i] by {
        let x = a.0@[i];
        let y = b.0@[i];
        assert(x ^ y == y ^ x) by (bit_vector);
    }
    assert(xor_seq(a.0@, b.0@) =~= xor_seq(b.0@, a.0@));
}

/// An identifier is at distance zero from itself and from no other.
pub proof fn lemma_xor_distance_zero<const N: usize>(a: Id<N>, b: Id<N>)
    ensures
        (forall|i: int| 0 <= i < N ==> #[trigger] xor_seq(a.0@, b.0@)[i] == 0) <==> a == b,
{
    if forall|i: int| 0 <= i < N ==> #[trigger] xor_seq(a.0@, b.0@)[i] == 0 {
        assert forall|i: int| 0 <= i < N implies a.0@[i] == b.0@[i] by {
            let x = a.0@[i];
            let y = b.0@[i];
            assert(xor_seq(a.0@, b.0@)[i] == 0);
            assert(x ^ y == 0 ==> x == y) by (bit_vector);
        }
        assert(a.0 =~= b.0);
    }
    if a == b {
        assert forall|i: int| 0 <= i < N implies #[trigger] xor_seq(a.0@, b.0@)[i] == 0 by {
            let x = a.0@[i];
            assert(x ^ x == 0) by (bit_vector);
        }
    }
}

/// Moving from `a` by the distance from `a` to `b` arrives at `b`.
pub proof fn lemma_xor_distance_inverse<const N: usize>(a: Id<N>, b: Id<N>)
    ensures
        xor_seq(a.0@, xor_seq(a.0@, b.0@)) == b.0@,
        xor_seq(xor_seq(a.0@, b.0@), a.0@) == b.0@,
{
    assert forall|i: int| 0 <= i < N implies a.0@[i] ^ (a.0@[i] ^ b.0@[i]) == b.0@[i]
        && (a.0@[i] ^ b.0@[i]) ^ a.0@[i] == b.0@[i] by {
        let x = a.0@[i];
        let y = b.0@[i];
        assert(x ^ (x ^ y) == y) by (bit_vector);
        assert((x ^ y) ^ x == y) by (bit_vector);
    }
    assert(xor_seq(a.0@, xor_seq(a.0@, b.0@)) =~= b.0@);
    assert(xor_seq(xor_seq(a.0@, b.0@), a.0@) =~= b.0@);
}

/// The leading zeros of a byte string count the bits before its first set
/// bit: all bits before are clear, and the bit there, if any, is set.
pub proof fn lemma_leading_zeros_first_set_bit(s: Seq<u8>)
    ensures
        spec_leading_zeros(s) <= 8 * s.len(),
        forall|j: int| 0 <= j < spec_leading_zeros(s) ==> !#[trigger] bit_at(s, j),
        spec_leading_zeros(s) < 8 * s.len() ==> bit_at(s, spec_leading_zeros(s) as int),
    decreases s.len(),
{
    if s.len() > 0 {
        let t = s.drop_first();
        lemma_leading_zeros_first_set_bit(t);
        if s[0] == 0 {
            assert forall|j: int| 0 <= j < spec_leading_zeros(s) implies !#[trigger] bit_at(s, j) by {
                if j < 8 {
                    let z = s[0];
                    let sh = (7 - j % 8) as u8;
                    assert(z == 0 ==> (z >> sh) & 1u8 == 0u8) by (bit_vector);
                } else {
                    assert(!bit_at(t, j - 8));
                    assert((j - 8) / 8 == j / 8 - 1);
                    assert((j - 8) % 8 == j % 8);
                }
            }
            let l = spec_leading_zeros(s) as int;
            if l < 8 * s.len() {
                assert(bit_at(t, l - 8));
                assert((l - 8) / 8 == l / 8 - 1);
                assert((l - 8) % 8 == l % 8);
            }
        } else {
            let z = s[0];
            vstd::std_specs::bits::axiom_u8_leading_zeros(z);
            let l = vstd::std_specs::bits::u8_leading_zeros(z);
            assert forall|j: int| 0 <= j < spec_leading_zeros(s) implies !#[trigger] bit_at(s, j) by {
                let sh = (7 - j) as u8;
                assert(8 - l <= sh < 8);
                assert((z >> sh) & 1u8 == 0u8);
            }
        }
    }
}

/// A byte string has as many leading zero bits as it has bits only when
/// every byte is zero.
pub proof fn lemma_leading_zeros_full(s: Seq<u8>)
    ensures
        spec_leading_zeros(s) == 8 * s.len() ==> forall|i: int| 0 <= i < s.len() ==> s[i] == 0,
    decreases s.len(),
{
    if s.len() > 0 {
        let t = s.drop_first();
        lemma_leading_zeros_full(t);
        if s[0] != 0 {
            vstd::std_specs::bits::axiom_u8_leading_zeros(s[0]);
        } else if spec_leading_zeros(s) == 8 * s.len() {
            assert forall|i: int| 0 <= i < s.len() implies s[i] == 0 by {
                if i > 0 {
                    assert(t[i - 1] == s[i]);
                }
            }
        }
    }
}

} // verus!
