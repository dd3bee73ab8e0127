//! Bit-level output and input over byte strings, most significant bit first.
use vstd::prelude::*;

verus! {

/// Bit `i` of a byte string read most significant bit first; zero before the
/// start and past the end.
pub open spec fn bit_at(bytes: Seq<u8>, i: int) -> bool {
    &&& 0 <= i < 8 * bytes.len()
    &&& (bytes[i / 8] >> ((7 - i % 8) as u8)) & 1u8 == 1u8
}

/// Bit `i` of a bit string; zero before the start and past the end.
pub open spec fn padded(bits: Seq<bool>, i: int) -> bool {
    0 <= i < bits.len() && bits[i]
}

/// The byte string holds exactly the bits of `bits`, padded with zeros to a
/// whole number of bytes.
pub open spec fn packs(bytes: Seq<u8>, bits: Seq<bool>) -> bool {
    &&& bytes.len() == (bits.len() + 7) / 8
    &&& forall|i: int| #[trigger] bit_at(bytes, i) == padded(bits, i)
}

/// Reading back the bytes a writer finished with: the `j`-th bit read (the
/// reader's `get` returns `bit_at` of its source at the count of bits read so
/// far) is the `j`-th bit written, and zero once the written bits are
/// exhausted; the bytes are the bits padded to whole bytes.
pub proof fn lemma_read_back(bytes: Seq<u8>, bits: Seq<bool>, j: int)
    requires
        packs(bytes, bits),
        0 <= j,
    ensures
        bytes.len() == (bits.len() + 7) / 8,
        j < bits.len() ==> bit_at(bytes, j) == bits[j],
        j >= bits.len() ==> !bit_at(bytes, j),
{
    assert(bit_at(bytes, j) == padded(bits, j));
}

/// Appending a bit to the low end of an `n`-bit register leaves the old bits
/// one place higher.
proof fn lemma_push_bit(cur: u8, n: u8, b: u8, j: u8)
    by (bit_vector)
    requires
        n < 8,
        cur >> n == 0,
        b <= 1,
        j < n,
    ensures
        ((cur << 1) | b) >> ((n + 1) as u8) == 0,
        ((cur << 1) | b) & 1 == b,
        (((cur << 1) | b) >> ((n - j) as u8)) & 1 == (cur >> ((n - 1 - j) as u8)) & 1,
{
}

proof fn lemma_push_bit_low(cur: u8, n: u8, b: u8)
    by (bit_vector)
    requires
        n < 8,
        cur >> n == 0,
        b <= 1,
    ensures
        ((cur << 1) | b) >> ((n + 1) as u8) == 0,
        ((cur << 1) | b) & 1 == b,
        ((((cur << 1) | b) >> 0) & 1) == b,
{
}

/// Shifting an `n`-bit register to the top of a byte: the `n` bits come first,
/// zeros after them.
proof fn lemma_flush_bit(cur: u8, n: u8, k: u8)
    by (bit_vector)
    requires
        0 < n < 8,
        cur >> n == 0,
        k < 8,
    ensures
        k < n ==> ((cur << ((8 - n) as u8)) >> ((7 - k) as u8)) & 1 == (cur >> ((n - 1 - k) as u8)) & 1,
        k >= n ==> ((cur << ((8 - n) as u8)) >> ((7 - k) as u8)) & 1 == 0,
{
}

/// Collects bits, most significant first, into whole bytes.
pub struct BitWriter {
    bytes: Vec<u8>,
    cur: u8,
    nbits: u8,
    bits: Ghost<Seq<bool>>,
}

impl BitWriter {
    /// All bits written so far.
    pub closed spec fn written(&self) -> Seq<bool> {
        self.bits@
    }

    /// The bytes and the partial byte hold exactly the bits written so far.
    pub closed spec fn wf(&self) -> bool {
        &&& self.nbits < 8
        &&& self.cur >> self.nbits == 0
        &&& self.bits@.len() == 8 * self.bytes@.len() + self.nbits
        &&& forall|i: int| 0 <= i < 8 * self.bytes@.len() ==> #[trigger] bit_at(self.bytes@, i) == self.bits@[i]
        &&& forall|j: int|
            0 <= j < self.nbits ==> #[trigger] self.bits@[8 * self.bytes@.len() + j] == ((self.cur >> ((self.nbits - 1 - j) as u8)) & 1u8 == 1u8)
    }

    /// An empty writer.
    pub fn new() -> (w: Self)
        ensures
            w.wf(),
            w.written() == Seq::<bool>::empty(),
    {
        assert(0u8 >> 0u8 == 0u8) by (bit_vector);
        BitWriter { bytes: Vec::new(), cur: 0, nbits: 0, bits: Ghost(Seq::empty()) }
    }

    /// Appends one bit.
    pub fn put(&mut self, bit: bool)
        requires
            old(self).wf(),
        ensures
            final(self).wf(),
            final(self).written() == old(self).written().push(bit),
    {
        let b: u8 = if bit { 1 } else { 0 };
        let ghost old_cur = self.cur;
        let ghost n = self.nbits;
        let ghost len = self.bytes@.len();
        let ghost old_bits = self.bits@;
        proof {
            lemma_push_bit_low(old_cur, n, b);
        }
        self.cur = (self.cur << 1) | b;
        self.nbits = self.nbits + 1;
        self.bits = Ghost(self.bits@.push(bit));
        assert forall|j: int| 0 <= j < self.nbits implies #[trigger] self.bits@[8 * len + j] == ((self.cur
            >> ((self.nbits - 1 - j) as u8)) & 1u8 == 1u8) by {
            if j < n {
                lemma_push_bit(old_cur, n, b, j as u8);
                assert(old_bits[8 * len + j] == ((old_cur >> ((n - 1 - j) as u8)) & 1u8 == 1u8));
            }
        }
        if self.nbits == 8 {
            let c = self.cur;
            self.bytes.push(c);
            self.cur = 0;
            self.nbits = 0;
            assert forall|i: int| 0 <= i < 8 * self.bytes@.len() implies #[trigger] bit_at(
                self.bytes@,
                i,
            ) == self.bits@[i] by {
                if i < 8 * len {
                    assert(bit_at(old(self).bytes@, i) == old_bits[i]);
                    assert(self.bytes@[i / 8] == old(self).bytes@[i / 8]);
                } else {
                    let j = i - 8 * len;
                    assert(i / 8 == len);
                    assert(i % 8 == j);
                    assert(self.bits@[8 * len + j] == ((c >> ((7 - j) as u8)) & 1u8 == 1u8));
                }
            }
            assert(0u8 >> 0u8 == 0u8) by (bit_vector);
        }
    }

    /// The written bits padded with zeros to whole bytes.
    pub fn finish(self) -> (out: Vec<u8>)
        requires
            self.wf(),
        ensures
            packs(out@, self.written()),
    {
        let mut bytes = self.bytes;
        let ghost len = bytes@.len();
        let ghost bits = self.bits@;
        if self.nbits > 0 {
            let last: u8 = self.cur << (8 - self.nbits);
            bytes.push(last);
            assert forall|i: int| #[trigger] bit_at(bytes@, i) == padded(bits, i) by {
                if 0 <= i < 8 * len {
                    assert(bit_at(self.bytes@, i) == bits[i]);
                    assert(bytes@[i / 8] == self.bytes@[i / 8]);
                } else if 8 * len <= i < 8 * len + 8 {
                    let k = i - 8 * len;
                    assert(i / 8 == len);
                    assert(i % 8 == k);
                    lemma_flush_bit(self.cur, self.nbits, k as u8);
                    if k < self.nbits {
                        assert(bits[8 * len + k] == ((self.cur >> ((self.nbits - 1 - k) as u8)) & 1u8
                            == 1u8));
                    }
                }
            }
        } else {
            assert forall|i: int| #[trigger] bit_at(bytes@, i) == padded(bits, i) by {
                if 0 <= i < 8 * len {
                    assert(bit_at(self.bytes@, i) == bits[i]);
                }
            }
        }
        bytes
    }
}

/// Reads the bits of a byte string, most significant first; past the end it
/// reads zeros.
pub struct BitReader<'a> {
    bytes: &'a [u8],
    pos: usize,
    nbits: u8,
    read: Ghost<nat>,
}

impl<'a> BitReader<'a> {
    /// The bytes being read.
    pub closed spec fn source(&self) -> Seq<u8> {
        self.bytes@
    }

    /// How many bits have been read.
    pub closed spec fn consumed(&self) -> nat {
        self.read@
    }

    /// The byte position and bit offset follow the count of bits read.
    pub closed spec fn wf(&self) -> bool {
        &&& self.nbits < 8
        &&& self.read@ < 8 * self.bytes@.len() ==> self.read@ == 8 * self.pos + self.nbits
        &&& self.read@ >= 8 * self.bytes@.len() ==> self.pos == self.bytes@.len()
    }

    /// A reader at the first bit of `bytes`.
    pub fn new(bytes: &'a [u8]) -> (r: Self)
        ensures
            r.wf(),
            r.source() == bytes@,
            r.consumed() == 0,
    {
        BitReader { bytes, pos: 0, nbits: 0, read: Ghost(0) }
    }

    /// The next bit.
    pub fn get(&mut self) -> (bit: bool)
        requires
            old(self).wf(),
        ensures
            final(self).wf(),
            final(self).source() == old(self).source(),
            final(self).consumed() == old(self).consumed() + 1,
            bit == bit_at(old(self).source(), old(self).consumed() as int),
    {
        let ghost i = self.read@ as int;
        let byte: u8 = if self.pos < self.bytes.len() {
            self.bytes[self.pos]
        } else {
            0
        };
        let bit = (byte >> (7 - self.nbits)) & 1 == 1;
        proof {
            if i < 8 * self.bytes@.len() {
                assert(i / 8 == self.pos as int) by (nonlinear_arith)
                    requires
                        i == 8 * self.pos + self.nbits,
                        0 <= self.nbits < 8,
                ;
                assert(i % 8 == self.nbits as int) by (nonlinear_arith)
                    requires
                        i == 8 * self.pos + self.nbits,
                        0 <= self.nbits < 8,
                ;
            } else {
                let nb = self.nbits;
                assert((0u8 >> ((7 - nb) as u8)) & 1u8 == 0u8) by (bit_vector);
            }
        }
        self.nbits = self.nbits + 1;
        if self.nbits == 8 {
            self.nbits = 0;
            if self.pos < self.bytes.len() {
                self.pos = self.pos + 1;
            }
        }
        self.read = Ghost(self.read@ + 1);
        bit
    }
}

/// Bit `i` of a bit string as a number, zero past the end.
pub open spec fn bit_num(bits: Seq<bool>, i: int) -> int {
    if padded(bits, i) {
        1
    } else {
        0
    }
}

/// Byte `j` of a bit string packed most significant bit first.
pub open spec fn byte_of(bits: Seq<bool>, j: int) -> u8 {
    (128 * bit_num(bits, 8 * j) + 64 * bit_num(bits, 8 * j + 1) + 32 * bit_num(bits, 8 * j + 2) + 16
        * bit_num(bits, 8 * j + 3) + 8 * bit_num(bits, 8 * j + 4) + 4 * bit_num(bits, 8 * j + 5) + 2
        * bit_num(bits, 8 * j + 6) + bit_num(bits, 8 * j + 7)) as u8
}

/// A bit string packed into bytes, most significant bit first, the last byte
/// padded with zeros.
pub open spec fn pack_bits(bits: Seq<bool>) -> Seq<u8> {
    Seq::new((bits.len() + 7) / 8, |j: int| byte_of(bits, j))
}

proof fn lemma_byte_bits(b: u8, c0: u8, c1: u8, c2: u8, c3: u8, c4: u8, c5: u8, c6: u8, c7: u8)
    by (bit_vector)
    requires
        c0 == (b >> 7u8) & 1,
        c1 == (b >> 6u8) & 1,
        c2 == (b >> 5u8) & 1,
        c3 == (b >> 4u8) & 1,
        c4 == (b >> 3u8) & 1,
        c5 == (b >> 2u8) & 1,
        c6 == (b >> 1u8) & 1,
        c7 == (b >> 0u8) & 1,
    ensures
        b == 128 * c0 + 64 * c1 + 32 * c2 + 16 * c3 + 8 * c4 + 4 * c5 + 2 * c6 + c7,
{
}

/// Bit `i` of a byte string sits in byte `i / 8` at offset `i % 8`.
proof fn lemma_bit_at_split(bytes: Seq<u8>, j: int, k: int)
    requires
        0 <= j < bytes.len(),
        0 <= k < 8,
    ensures
        bit_at(bytes, 8 * j + k) == ((bytes[j] >> ((7 - k) as u8)) & 1u8 == 1u8),
{
    assert((8 * j + k) / 8 == j) by (nonlinear_arith)
        requires
            0 <= k < 8,
    ;
    assert((8 * j + k) % 8 == k) by (nonlinear_arith)
        requires
            0 <= k < 8,
    ;
    assert(8 * j + k < 8 * bytes.len()) by (nonlinear_arith)
        requires
            0 <= k < 8,
            j < bytes.len(),
    ;
}

proof fn lemma_bit_num_at(bytes: Seq<u8>, bits: Seq<bool>, j: int, k: int)
    requires
        packs(bytes, bits),
        0 <= j < bytes.len(),
        0 <= k < 8,
    ensures
        bit_num(bits, 8 * j + k) == ((bytes[j] >> ((7 - k) as u8)) & 1u8),
{
    lemma_bit_at_split(bytes, j, k);
    assert(bit_at(bytes, 8 * j + k) == padded(bits, 8 * j + k));
    let b = bytes[j];
    let s = (7 - k) as u8;
    assert(((b >> s) & 1u8) == 0u8 || ((b >> s) & 1u8) == 1u8) by (bit_vector);
}

/// Bytes that hold exactly the bits of `bits` are `pack_bits(bits)`.
pub proof fn lemma_packs_is_pack_bits(bytes: Seq<u8>, bits: Seq<bool>)
    requires
        packs(bytes, bits),
    ensures
        bytes == pack_bits(bits),
{
    assert forall|j: int| 0 <= j < bytes.len() implies #[trigger] bytes[j] == byte_of(bits, j) by {
        let b = bytes[j];
        let c0: u8 = (b >> 7u8) & 1;
        let c1: u8 = (b >> 6u8) & 1;
        let c2: u8 = (b >> 5u8) & 1;
        let c3: u8 = (b >> 4u8) & 1;
        let c4: u8 = (b >> 3u8) & 1;
        let c5: u8 = (b >> 2u8) & 1;
        let c6: u8 = (b >> 1u8) & 1;
        let c7: u8 = (b >> 0u8) & 1;
        lemma_byte_bits(b, c0, c1, c2, c3, c4, c5, c6, c7);
        lemma_bit_num_at(bytes, bits, j, 0);
        lemma_bit_num_at(bytes, bits, j, 1);
        lemma_bit_num_at(bytes, bits, j, 2);
        lemma_bit_num_at(bytes, bits, j, 3);
        lemma_bit_num_at(bytes, bits, j, 4);
        lemma_bit_num_at(bytes, bits, j, 5);
        lemma_bit_num_at(bytes, bits, j, 6);
        lemma_bit_num_at(bytes, bits, j, 7);
        assert(bit_num(bits, 8 * j + 0) == c0);
        assert(bit_num(bits, 8 * j + 1) == c1);
        assert(bit_num(bits, 8 * j + 2) == c2);
        assert(bit_num(bits, 8 * j + 3) == c3);
        assert(bit_num(bits, 8 * j + 4) == c4);
        assert(bit_num(bits, 8 * j + 5) == c5);
        assert(bit_num(bits, 8 * j + 6) == c6);
        assert(bit_num(bits, 8 * j + 7) == c7);
    }
    assert(bytes =~= pack_bits(bits));
}

/// `pack_bits` holds exactly the given bits.
pub proof fn lemma_pack_bits_packs(bits: Seq<bool>)
    ensures
        packs(pack_bits(bits), bits),
{
    let bytes = pack_bits(bits);
    assert forall|i: int| #[trigger] bit_at(bytes, i) == padded(bits, i) by {
        if 0 <= i < 8 * bytes.len() {
            let j = i / 8;
            let k = i % 8;
            assert(i == 8 * j + k);
            lemma_bit_at_split(bytes, j, k);
            let c0 = bit_num(bits, 8 * j) as u8;
            let c1 = bit_num(bits, 8 * j + 1) as u8;
            let c2 = bit_num(bits, 8 * j + 2) as u8;
            let c3 = bit_num(bits, 8 * j + 3) as u8;
            let c4 = bit_num(bits, 8 * j + 4) as u8;
            let c5 = bit_num(bits, 8 * j + 5) as u8;
            let c6 = bit_num(bits, 8 * j + 6) as u8;
            let c7 = bit_num(bits, 8 * j + 7) as u8;
            let kk = k as u8;
            let b = bytes[j];
            assert(b == (128 * c0 + 64 * c1 + 32 * c2 + 16 * c3 + 8 * c4 + 4 * c5 + 2 * c6 + c7) as u8);
            lemma_pick_bit(b, c0, c1, c2, c3, c4, c5, c6, c7, kk);
            assert(bit_num(bits, 8 * j + k) == if k == 0 { c0 } else if k == 1 { c1 } else if k == 2 { c2 } else if k == 3 { c3 } else if k == 4 { c4 } else if k == 5 { c5 } else if k == 6 { c6 } else { c7 });
        } else {
            assert(i < 0 || i >= bits.len()) by (nonlinear_arith)
                requires
                    !(0 <= i < 8 * bytes.len()),
                    bytes.len() == (bits.len() + 7) / 8,
            ;
        }
    }
}

proof fn lemma_pick_bit(b: u8, c0: u8, c1: u8, c2: u8, c3: u8, c4: u8, c5: u8, c6: u8, c7: u8, k: u8)
    by (bit_vector)
    requires
        c0 <= 1,
        c1 <= 1,
        c2 <= 1,
        c3 <= 1,
        c4 <= 1,
        c5 <= 1,
        c6 <= 1,
        c7 <= 1,
        k < 8,
        b == (128 * c0 + 64 * c1 + 32 * c2 + 16 * c3 + 8 * c4 + 4 * c5 + 2 * c6 + c7) as u8,
    ensures
        (b >> ((7 - k) as u8)) & 1 == if k == 0 {
            c0
        } else if k == 1 {
            c1
        } else if k == 2 {
            c2
        } else if k == 3 {
            c3
        } else if k == 4 {
            c4
        } else if k == 5 {
            c5
        } else if k == 6 {
            c6
        } else {
            c7
        },
{
}

// -------------------- Variable-length integers --------------------

/// The little-endian base-128 encoding of `n`: seven bits per byte, the high
/// bit set on every byte but the last.
pub open spec fn varint_bytes(n: nat) -> Seq<u8>
    decreases n,
{
    if n < 128 {
        seq![n as u8]
    } else {
        seq![(n % 128 + 128) as u8] + varint_bytes(n / 128)
    }
}

/// Length of the varint that starts at `at`, if it ends inside the string
/// within `fuel` bytes.
pub open spec fn varint_size(bs: Seq<u8>, at: int, fuel: nat) -> Option<nat>
    decreases fuel,
{
    if fuel == 0 || at < 0 || at >= bs.len() {
        None
    } else if bs[at] < 128 {
        Some(1)
    } else {
        match varint_size(bs, at + 1, (fuel - 1) as nat) {
            Some(k) => Some(k + 1),
            None => None,
        }
    }
}

/// The value carried by the `k` bytes from `at`, seven bits per byte, least
/// significant first.
pub open spec fn varint_value(bs: Seq<u8>, at: int, k: nat) -> nat
    decreases k,
{
    if k == 0 {
        0
    } else {
        (bs[at] % 128) as nat + 128 * varint_value(bs, at + 1, (k - 1) as nat)
    }
}

/// The longest varint the reader takes: ten bytes carry the 64 bits of a `u64`.
pub open spec fn varint_ok(bs: Seq<u8>, at: int) -> bool {
    varint_size(bs, at, 10) is Some
}

pub proof fn lemma_varint_size_shape(bs: Seq<u8>, at: int, fuel: nat)
    requires
        varint_size(bs, at, fuel) is Some,
    ensures
        ({
            let k = varint_size(bs, at, fuel)->0;
            &&& 1 <= k <= fuel
            &&& 0 <= at
            &&& at + k <= bs.len()
            &&& forall|j: int| 0 <= j < k - 1 ==> #[trigger] bs[at + j] >= 128
            &&& bs[at + k - 1] < 128
        }),
    decreases fuel,
{
    if bs[at] >= 128 {
        lemma_varint_size_shape(bs, at + 1, (fuel - 1) as nat);
        let k = varint_size(bs, at, fuel)->0;
        assert forall|j: int| 0 <= j < k - 1 implies #[trigger] bs[at + j] >= 128 by {
            if j > 0 {
                assert(bs[(at + 1) + (j - 1)] >= 128);
            }
        }
    }
}

/// The value of `k + 1` bytes is the value of the first `k` plus the last
/// byte's seven bits in place.
pub proof fn lemma_varint_value_last(bs: Seq<u8>, at: int, k: nat)
    ensures
        varint_value(bs, at, k + 1) == varint_value(bs, at, k) + (bs[at + k] % 128) as nat
            * vstd::arithmetic::power2::pow2(7 * k),
    decreases k,
{
    vstd::arithmetic::power2::lemma2_to64();
    let g = (bs[at + k] % 128) as int;
    if k == 0 {
        assert(varint_value(bs, at, 1) == (bs[at] % 128) as nat + 128 * varint_value(bs, at + 1, 0));
        assert(g * vstd::arithmetic::power2::pow2(0) == g) by (nonlinear_arith)
            requires
                vstd::arithmetic::power2::pow2(0) == 1,
        ;
    } else {
        let km: nat = (k - 1) as nat;
        lemma_varint_value_last(bs, at + 1, km);
        vstd::arithmetic::power2::lemma_pow2_adds(7, 7 * km);
        assert(7 + 7 * km == 7 * k);
        let p = vstd::arithmetic::power2::pow2(7 * km) as int;
        assert(bs[(at + 1) + km] == bs[at + k]);
        let a = varint_value(bs, at + 1, km) as int;
        assert(varint_value(bs, at + 1, k) == a + g * p);
        assert(varint_value(bs, at, k + 1) == (bs[at] % 128) as int + 128 * varint_value(bs, at + 1, k));
        assert(varint_value(bs, at, k) == (bs[at] % 128) as int + 128 * a);
        assert(vstd::arithmetic::power2::pow2(7 * k) == 128 * p);
        assert(128 * (a + g * p) == 128 * a + g * (128 * p)) by (nonlinear_arith);
    }
}

/// A `u64` takes at most ten bytes, and reading its encoding gives it back,
/// whatever follows it.
pub proof fn lemma_varint_roundtrip(n: nat, bs: Seq<u8>, at: int, fuel: nat)
    requires
        0 <= at,
        at + varint_bytes(n).len() <= bs.len(),
        bs.subrange(at, at + varint_bytes(n).len()) == varint_bytes(n),
        n < vstd::arithmetic::power2::pow2(7 * fuel),
        fuel >= 1,
    ensures
        varint_size(bs, at, fuel) == Some(varint_bytes(n).len()),
        varint_value(bs, at, varint_bytes(n).len()) == n,
        1 <= varint_bytes(n).len() <= fuel,
    decreases n,
{
    vstd::arithmetic::power2::lemma2_to64();
    let vb = varint_bytes(n);
    assert(bs[at] == bs.subrange(at, at + vb.len())[0]);
    if n < 128 {
        assert(bs[at] == n);
        assert(vb.len() == 1);
        assert(varint_value(bs, at, 1) == (bs[at] % 128) as nat + 128 * varint_value(bs, at + 1, 0));
    } else {
        let rest = varint_bytes(n / 128);
        assert(vb == seq![(n % 128 + 128) as u8] + rest);
        assert(bs.subrange(at + 1, at + 1 + rest.len()) =~= rest) by {
            assert forall|j: int| 0 <= j < rest.len() implies #[trigger] bs.subrange(at + 1, at + 1 + rest.len())[j]
                == rest[j] by {
                assert(bs.subrange(at, at + vb.len())[j + 1] == vb[j + 1]);
            }
        }
        vstd::arithmetic::power2::lemma_pow2_adds(7, 7 * (fuel - 1) as nat);
        if fuel == 1 {
            assert(vstd::arithmetic::power2::pow2(7) == 128);
            assert(false);
        }
        assert(7 + 7 * (fuel - 1) == 7 * fuel);
        assert(n / 128 < vstd::arithmetic::power2::pow2(7 * (fuel - 1) as nat)) by {
            let q = vstd::arithmetic::power2::pow2(7 * (fuel - 1) as nat) as int;
            assert(n < 128 * q);
            assert(n / 128 < q) by (nonlinear_arith)
                requires
                    n < 128 * q,
                    0 <= n,
            ;
        }
        lemma_varint_roundtrip(n / 128, bs, at + 1, (fuel - 1) as nat);
        assert(bs[at] == (n % 128 + 128) as u8);
        assert(bs[at] % 128 == n % 128);
        assert(vb.len() == 1 + rest.len());
        assert(varint_value(bs, at, vb.len()) == (bs[at] % 128) as nat + 128 * varint_value(bs, at + 1, rest.len()));
        assert(n == n % 128 + 128 * (n / 128)) by (nonlinear_arith);
    }
}

/// Length of the varint at `at`, if it ends inside the bytes within ten bytes.
pub fn varint_len(bytes: &[u8], at: usize) -> (r: Option<usize>)
    ensures
        r matches Some(k) ==> varint_size(bytes@, at as int, 10) == Some(k as nat),
        r is None ==> varint_size(bytes@, at as int, 10) is None,
{
    let mut i: usize = 0;
    while i < 10
        invariant
            i <= 10,
            forall|j: int| 0 <= j < i ==> at + j < bytes@.len() && #[trigger] bytes@[at + j] >= 128,
            varint_size(bytes@, at as int, 10) == match varint_size(bytes@, at + i, (10 - i) as nat) {
                Some(k) => Some((k + i) as nat),
                None => None::<nat>,
            },
        decreases 10 - i,
    {
        if at >= bytes.len() || bytes.len() - at <= i {
            return None;
        }
        if bytes[at + i] < 128 {
            return Some(i + 1);
        }
        i += 1;
    }
    None
}

/// ORing a 7-bit group above the bits already collected is adding it.
proof fn lemma_or_group(n: u64, x: u64, s: u64)
    by (bit_vector)
    requires
        s < 64,
        n >> s == 0,
        x < 128,
    ensures
        n | (x << s) == n + (x << s),
        s + 7 < 64 ==> (n | (x << s)) >> ((s + 7) as u64) == 0,
        s == 63 ==> x << s == (x % 2) * 0x8000_0000_0000_0000,
{
}

/// Appends the varint encoding of `n`.
pub fn put_varint(out: &mut Vec<u8>, n: u64)
    ensures
        final(out)@ == old(out)@ + varint_bytes(n as nat),
{
    let mut n = n;
    let ghost start = out@;
    let ghost n0 = n;
    while n >= 0x80
        invariant
            out@ + varint_bytes(n as nat) == start + varint_bytes(n0 as nat),
        decreases n,
    {
        let ghost prev = out@;
        let ghost m = n;
        assert((m as u8) | 0x80u8 == ((m % 128) + 128) as u8) by (bit_vector);
        assert(m >> 7u64 == m / 128) by (bit_vector);
        out.push(n as u8 | 0x80);
        n >>= 7;
        assert(varint_bytes(m as nat) == seq![((m % 128) + 128) as u8] + varint_bytes(n as nat));
        assert(out@ + varint_bytes(n as nat) =~= prev + varint_bytes(m as nat));
    }
    out.push(n as u8);
    assert(varint_bytes(n as nat) == seq![n as u8]);
    assert(out@ =~= start + varint_bytes(n0 as nat));
}

/// Reads the varint at `*at` and moves `*at` past it. A value wider than 64
/// bits keeps its low 64 bits.
pub fn take_varint(bytes: &[u8], at: &mut usize) -> (n: u64)
    requires
        varint_ok(bytes@, *old(at) as int),
    ensures
        *final(at) == *old(at) + varint_size(bytes@, *old(at) as int, 10)->0,
        n == varint_value(bytes@, *old(at) as int, varint_size(bytes@, *old(at) as int, 10)->0)
            % 0x1_0000_0000_0000_0000,
{
    let ghost start = *at as int;
    let ghost k = varint_size(bytes@, start, 10)->0;
    proof {
        lemma_varint_size_shape(bytes@, start, 10);
        vstd::arithmetic::power2::lemma2_to64();
    }
    let mut n: u64 = 0;
    let mut shift: u64 = 0;
    assert(0u64 >> 0u64 == 0u64) by (bit_vector);
    loop
        invariant_except_break
            0 <= start,
            1 <= k <= 10,
            start + k <= bytes@.len(),
            forall|j: int| 0 <= j < k - 1 ==> #[trigger] bytes@[start + j] >= 128,
            bytes@[start + k - 1] < 128,
            start <= *at < start + k,
            shift == 7 * (*at - start),
            n == varint_value(bytes@, start, (*at - start) as nat),
            n >> shift == 0,
            k == varint_size(bytes@, start, 10)->0,
        ensures
            *at == start + k,
            n == varint_value(bytes@, start, k) % 0x1_0000_0000_0000_0000,
        decreases start + k - *at,
    {
        let ghost i = (*at - start) as nat;
        let b = bytes[*at];
        *at += 1;
        let x: u64 = (b & 0x7f) as u64;
        assert(x == b % 128) by (bit_vector)
            requires
                x == (b & 0x7f) as u64,
        ;
        let ghost n_old = n;
        proof {
            vstd::arithmetic::power2::lemma2_to64();
            vstd::arithmetic::power2::lemma2_to64_rest();
            if b >= 128 {
                assert(i < k - 1);
            }
            lemma_or_group(n, x, shift);
            lemma_varint_value_last(bytes@, start, i);
            assert(bytes@[start + i] == b);
            if shift <= 56 {
                vstd::arithmetic::power2::lemma_pow2_pos(shift as nat);
                if shift < 56 {
                    vstd::arithmetic::power2::lemma_pow2_strictly_increases(shift as nat, 56);
                }
                assert(x * vstd::arithmetic::power2::pow2(shift as nat) <= 127 * 0x0100_0000_0000_0000) by (nonlinear_arith)
                    requires
                        x <= 127,
                        vstd::arithmetic::power2::pow2(shift as nat) <= 0x0100_0000_0000_0000,
                ;
                vstd::bits::lemma_u64_shl_is_mul(x, shift);
            }
        }
        n = n | (x << shift);
        if b & 0x80 == 0 {
            assert(b < 128) by (bit_vector)
                requires
                    b & 0x80 == 0,
            ;
            proof {
                if i < k - 1 {
                    assert(bytes@[start + i] >= 128);
                }
                if shift <= 56 {
                    assert(n == varint_value(bytes@, start, i + 1));
                    vstd::arithmetic::div_mod::lemma_small_mod(n as nat, 0x1_0000_0000_0000_0000);
                } else {
                    assert(shift == 63);
                    let v = varint_value(bytes@, start, i) as int;
                    assert(n_old < 0x8000_0000_0000_0000) by (bit_vector)
                        requires
                            n_old >> 63u64 == 0,
                    ;
                    assert((v + x * 0x8000_0000_0000_0000) % 0x1_0000_0000_0000_0000 == v + (x % 2)
                        * 0x8000_0000_0000_0000) by (nonlinear_arith)
                        requires
                            0 <= v < 0x8000_0000_0000_0000,
                            0 <= x,
                    ;
                }
            }
            break;
        }
        assert(b >= 128) by (bit_vector)
            requires
                b & 0x80 != 0,
        ;
        shift += 7;
    }
    n
}

} // verus!
