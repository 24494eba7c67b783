//! Reading a byte string bit by bit, most significant bit first: fixed-width fields
//! and Exp-Golomb codes.
use vstd::prelude::*;
use vstd::arithmetic::power2::{lemma2_to64, lemma2_to64_rest, lemma_pow2_strictly_increases, lemma_pow2_unfold, pow2};

verus! {

/// The bit at position `p` of `b`.
pub open spec fn bit_at(b: Seq<u8>, p: nat) -> nat {
    ((b[(p / 8) as int] >> ((7 - p % 8) as u8)) & 1) as nat
}

/// How many bits `b` holds.
pub open spec fn bit_len(b: Seq<u8>) -> nat {
    8 * b.len()
}

/// The `n` bits from position `p` on, as an unsigned number.
pub open spec fn bits_value(b: Seq<u8>, p: nat, n: nat) -> nat
    decreases n,
{
    if n == 0 {
        0
    } else {
        2 * bits_value(b, p, (n - 1) as nat) + bit_at(b, (p + n - 1) as nat)
    }
}

/// How many zero bits stand in a row from position `p` on.
pub open spec fn zero_run(b: Seq<u8>, p: nat) -> nat
    decreases bit_len(b) - p,
{
    if p >= bit_len(b) || bit_at(b, p) == 1 {
        0
    } else {
        1 + zero_run(b, p + 1)
    }
}

/// One bit from position `p`: its value where there is one, and the position behind it.
pub open spec fn bit(b: Seq<u8>, p: nat) -> (Option<nat>, nat) {
    if p < bit_len(b) {
        (Some(bit_at(b, p)), p + 1)
    } else {
        (None, p)
    }
}

/// A field of `n` bits. A field that the data ends in has no value and takes up what
/// is left; no field is wider than 64 bits.
pub open spec fn bits(b: Seq<u8>, p: nat, n: nat) -> (Option<nat>, nat) {
    if n > 64 {
        (None, p)
    } else if p + n <= bit_len(b) {
        (Some(bits_value(b, p, n)), p + n)
    } else {
        (None, bit_len(b))
    }
}

/// An unsigned Exp-Golomb code: `z` zeros, a one and `z` more bits stand for
/// `2^z - 1` plus those bits. More than 32 zeros are no code.
pub open spec fn ue(b: Seq<u8>, p: nat) -> (Option<nat>, nat) {
    let z = zero_run(b, p);
    if z > 32 {
        (None, p + 33)
    } else if p + z >= bit_len(b) {
        (None, p + z)
    } else {
        let (suffix, q) = bits(b, p + z + 1, z);
        match suffix {
            Some(s) => (Some((pow2(z) - 1 + s) as nat), q),
            None => (None, q),
        }
    }
}

/// What the number `k` of an Exp-Golomb code stands for where it is signed:
/// 0, 1, -1, 2, -2 and so on.
pub open spec fn signed_of(k: nat) -> int {
    if k % 2 == 1 {
        k as int / 2 + 1
    } else {
        -(k as int / 2)
    }
}

/// A signed Exp-Golomb code.
pub open spec fn se(b: Seq<u8>, p: nat) -> (Option<int>, nat) {
    let (k, q) = ue(b, p);
    match k {
        Some(k) => (Some(signed_of(k)), q),
        None => (None, q),
    }
}

// A cursor is a position, or `None` once a field was missing; from then on every
// field is missing.

/// A bit at the cursor.
pub open spec fn next_bit(b: Seq<u8>, c: Option<nat>) -> (nat, Option<nat>) {
    match c {
        None => (0, None),
        Some(p) => match bit(b, p) {
            (Some(v), q) => (v, Some(q)),
            (None, _) => (0, None),
        },
    }
}

/// A field of `n` bits at the cursor.
pub open spec fn next_bits(b: Seq<u8>, c: Option<nat>, n: nat) -> (nat, Option<nat>) {
    match c {
        None => (0, None),
        Some(p) => match bits(b, p, n) {
            (Some(v), q) => (v, Some(q)),
            (None, _) => (0, None),
        },
    }
}

/// An unsigned Exp-Golomb code at the cursor.
pub open spec fn next_ue(b: Seq<u8>, c: Option<nat>) -> (nat, Option<nat>) {
    match c {
        None => (0, None),
        Some(p) => match ue(b, p) {
            (Some(v), q) => (v, Some(q)),
            (None, _) => (0, None),
        },
    }
}

/// A signed Exp-Golomb code at the cursor.
pub open spec fn next_se(b: Seq<u8>, c: Option<nat>) -> (int, Option<nat>) {
    match c {
        None => (0, None),
        Some(p) => match se(b, p) {
            (Some(v), q) => (v, Some(q)),
            (None, _) => (0, None),
        },
    }
}

/// The cursor behind `n` unsigned Exp-Golomb codes.
pub open spec fn skip_ues(b: Seq<u8>, c: Option<nat>, n: nat) -> Option<nat>
    decreases n,
{
    if n == 0 {
        c
    } else {
        skip_ues(b, next_ue(b, c).1, (n - 1) as nat)
    }
}

/// The cursor behind `n` signed Exp-Golomb codes.
pub open spec fn skip_ses(b: Seq<u8>, c: Option<nat>, n: nat) -> Option<nat>
    decreases n,
{
    if n == 0 {
        c
    } else {
        skip_ses(b, next_se(b, c).1, (n - 1) as nat)
    }
}

/// The cursor behind `n` fields of `w` bits.
pub open spec fn skip_fields(b: Seq<u8>, c: Option<nat>, w: nat, n: nat) -> Option<nat>
    decreases n,
{
    if n == 0 {
        c
    } else {
        skip_fields(b, next_bits(b, c, w).1, w, (n - 1) as nat)
    }
}

pub proof fn lemma_skip_none(b: Seq<u8>, w: nat, n: nat)
    ensures
        skip_ues(b, None, n) is None,
        skip_ses(b, None, n) is None,
        skip_fields(b, None, w, n) is None,
    decreases n,
{
    if n > 0 {
        lemma_skip_none(b, w, (n - 1) as nat);
    }
}

/// Bits stay what they are where more bytes follow.
proof fn lemma_longer_bits(b: Seq<u8>, x: Seq<u8>, p: nat, n: nat)
    requires
        p + n <= bit_len(b),
    ensures
        bits_value(b + x, p, n) == bits_value(b, p, n),
    decreases n,
{
    if n > 0 {
        lemma_longer_bits(b, x, p, (n - 1) as nat);
        let i = (p + n - 1) / 8;
        assert((b + x)[i] == b[i]);
    }
}

proof fn lemma_longer_run(b: Seq<u8>, x: Seq<u8>, p: nat)
    requires
        p + zero_run(b, p) < bit_len(b),
    ensures
        zero_run(b + x, p) == zero_run(b, p),
    decreases bit_len(b) - p,
{
    assert((b + x)[(p / 8) as int] == b[(p / 8) as int]);
    if bit_at(b, p) != 1 {
        lemma_longer_run(b, x, p + 1);
    }
}

/// What is read at a cursor stays what it is where more bytes follow, if there is enough for
/// it without them.
pub proof fn lemma_longer(b: Seq<u8>, x: Seq<u8>, c: Option<nat>, n: nat)
    ensures
        next_bit(b, c).1 is Some ==> next_bit(b + x, c) == next_bit(b, c),
        next_bits(b, c, n).1 is Some ==> next_bits(b + x, c, n) == next_bits(b, c, n),
        next_ue(b, c).1 is Some ==> next_ue(b + x, c) == next_ue(b, c),
        next_se(b, c).1 is Some ==> next_se(b + x, c) == next_se(b, c),
{
    if let Some(p) = c {
        if p < bit_len(b) {
            assert((b + x)[(p / 8) as int] == b[(p / 8) as int]);
        }
        if p + n <= bit_len(b) {
            lemma_longer_bits(b, x, p, n);
        }
        let z = zero_run(b, p);
        if z <= 32 && p + z < bit_len(b) {
            lemma_longer_run(b, x, p);
            if p + z + 1 + z <= bit_len(b) {
                lemma_longer_bits(b, x, p + z + 1, z);
            }
        }
    }
}

/// The same of what is skipped.
pub proof fn lemma_longer_skip(b: Seq<u8>, x: Seq<u8>, c: Option<nat>, w: nat, n: nat)
    ensures
        skip_ues(b, c, n) is Some ==> skip_ues(b + x, c, n) == skip_ues(b, c, n),
        skip_fields(b, c, w, n) is Some ==> skip_fields(b + x, c, w, n) == skip_fields(b, c, w, n),
    decreases n,
{
    if n > 0 {
        let m = (n - 1) as nat;
        lemma_longer(b, x, c, w);
        lemma_skip_none(b, w, m);
        lemma_longer_skip(b, x, next_ue(b, c).1, w, m);
        lemma_longer_skip(b, x, next_bits(b, c, w).1, w, m);
    }
}

pub proof fn lemma_bit_at(b: Seq<u8>, p: nat)
    ensures
        bit_at(b, p) == 0 || bit_at(b, p) == 1,
{
    let x = b[(p / 8) as int];
    let s = (7 - p % 8) as u8;
    assert((x >> s) & 1 == 0 || (x >> s) & 1 == 1) by (bit_vector);
}

pub proof fn lemma_bits_value_bound(b: Seq<u8>, p: nat, n: nat)
    ensures
        bits_value(b, p, n) < pow2(n),
    decreases n,
{
    lemma2_to64();
    if n > 0 {
        lemma_bits_value_bound(b, p, (n - 1) as nat);
        lemma_bit_at(b, (p + n - 1) as nat);
        lemma_pow2_unfold(n);
    }
}

pub proof fn lemma_zero_run(b: Seq<u8>, p: nat)
    ensures
        p <= bit_len(b) ==> p + zero_run(b, p) <= bit_len(b),
        p + zero_run(b, p) < bit_len(b) ==> bit_at(b, p + zero_run(b, p)) == 1,
    decreases bit_len(b) - p,
{
    if p < bit_len(b) {
        lemma_bit_at(b, p);
        if bit_at(b, p) == 0 {
            lemma_zero_run(b, p + 1);
        }
    }
}

/// An Exp-Golomb number that was read is below 2^33 and the position stays inside.
pub proof fn lemma_ue_bound(b: Seq<u8>, p: nat)
    requires
        p <= bit_len(b),
    ensures
        ue(b, p).0 matches Some(v) ==> v < 0x2_0000_0000,
        p <= ue(b, p).1 <= bit_len(b),
{
    let z = zero_run(b, p);
    lemma_zero_run(b, p);
    if z <= 32 && p + z < bit_len(b) {
        lemma_bits_value_bound(b, p + z + 1, z);
        lemma2_to64();
        if z < 32 {
            lemma_pow2_strictly_increases(z, 32);
        }
    }
}

/// A byte string and the position of the next bit in it.
pub struct BitReader<'a> {
    pub bytes: &'a [u8],
    /// The byte that holds the next bit; the length of `bytes` at the end.
    pub byte: usize,
    /// How many bits of that byte are read already.
    pub bit: u8,
}

impl<'a> BitReader<'a> {
    /// The position of the next bit.
    pub open spec fn pos(&self) -> nat {
        (8 * self.byte + self.bit) as nat
    }

    pub open spec fn wf(&self) -> bool {
        &&& self.byte <= self.bytes@.len()
        &&& self.bit < 8
        &&& self.byte == self.bytes@.len() ==> self.bit == 0
    }

    /// What a read leaves behind: the same data, at another position.
    pub open spec fn moved(&self, from: &BitReader, to: nat) -> bool {
        &&& self.wf()
        &&& self.bytes == from.bytes
        &&& self.pos() == to
    }

    pub fn new(bytes: &'a [u8]) -> (r: BitReader<'a>)
        ensures
            r.wf(),
            r.bytes == bytes,
            r.pos() == 0,
    {
        BitReader { bytes, byte: 0, bit: 0 }
    }

    pub fn read_bit(&mut self) -> (r: Option<u8>)
        requires
            old(self).wf(),
        ensures
            final(self).moved(old(self), bit(old(self).bytes@, old(self).pos()).1),
            match r {
                Some(v) => bit(old(self).bytes@, old(self).pos()).0 == Some(v as nat) && v <= 1,
                None => bit(old(self).bytes@, old(self).pos()).0 is None,
            },
    {
        if self.byte >= self.bytes.len() {
            return None;
        }
        let shift: u8 = 7 - self.bit;
        let v: u8 = (self.bytes[self.byte] >> shift) & 1;
        proof {
            let p = self.pos();
            assert(p / 8 == self.byte && p % 8 == self.bit);
            lemma_bit_at(self.bytes@, p);
        }
        if self.bit == 7 {
            self.byte = self.byte + 1;
            self.bit = 0;
        } else {
            self.bit = self.bit + 1;
        }
        Some(v)
    }

    pub fn read_bits(&mut self, n: usize) -> (r: Option<u64>)
        requires
            old(self).wf(),
        ensures
            final(self).moved(old(self), bits(old(self).bytes@, old(self).pos(), n as nat).1),
            match r {
                Some(v) => bits(old(self).bytes@, old(self).pos(), n as nat).0 == Some(v as nat) && v < pow2(n as nat),
                None => bits(old(self).bytes@, old(self).pos(), n as nat).0 is None,
            },
    {
        if n > 64 {
            return None;
        }
        let mut v: u64 = 0;
        let mut i: usize = 0;
        proof {
            lemma2_to64();
        }
        while i < n
            invariant
                i <= n <= 64,
                old(self).wf(),
                self.moved(old(self), old(self).pos() + i as nat),
                old(self).pos() + i <= bit_len(old(self).bytes@),
                v == bits_value(old(self).bytes@, old(self).pos(), i as nat),
            decreases n - i,
        {
            let ghost p = old(self).pos();
            let ghost b = old(self).bytes@;
            proof {
                lemma_bits_value_bound(b, p, i as nat);
                lemma2_to64_rest();
                lemma2_to64();
                if i < 63 {
                    lemma_pow2_strictly_increases(i as nat, 63);
                }
            }
            let d: u8 = match self.read_bit() {
                Some(d) => d,
                None => {
                    return None;
                },
            };
            proof {
                assert(v < 0x8000_0000_0000_0000);
                assert((v << 1) | (d as u64) == 2 * v + d) by (bit_vector)
                    requires
                        v < 0x8000_0000_0000_0000,
                        d <= 1,
                ;
            }
            v = (v << 1) | (d as u64);
            i = i + 1;
        }
        proof {
            lemma_bits_value_bound(old(self).bytes@, old(self).pos(), n as nat);
        }
        Some(v)
    }

    /// An unsigned Exp-Golomb code.
    pub fn read_ue(&mut self) -> (r: Option<u64>)
        requires
            old(self).wf(),
        ensures
            final(self).moved(old(self), ue(old(self).bytes@, old(self).pos()).1),
            match r {
                Some(v) => ue(old(self).bytes@, old(self).pos()).0 == Some(v as nat) && v < 0x2_0000_0000,
                None => ue(old(self).bytes@, old(self).pos()).0 is None,
            },
    {
        let mut zeros: usize = 0;
        let ghost b = self.bytes@;
        let ghost p = self.pos();
        loop
            invariant_except_break
                self.moved(old(self), p + zeros as nat),
            invariant
                zeros <= 32,
                old(self).wf(),
                b == old(self).bytes@,
                p == old(self).pos(),
                zero_run(b, p) == zeros + zero_run(b, p + zeros as nat),
            ensures
                zeros <= 32,
                zero_run(b, p) == zeros,
                p + zeros < bit_len(b),
                self.moved(old(self), p + zeros as nat + 1),
            decreases 33 - zeros,
        {
            let d: u8 = match self.read_bit() {
                Some(d) => d,
                None => {
                    return None;
                },
            };
            if d == 1 {
                break;
            }
            zeros = zeros + 1;
            if zeros > 32 {
                return None;
            }
        }
        proof {
            lemma2_to64();
        }
        if zeros == 0 {
            proof {
                assert(bits(b, p + 1, 0) == (Some(0nat), (p + 1) as nat));
                assert(pow2(0) == 1);
            }
            return Some(0);
        }
        let suffix: u64 = match self.read_bits(zeros) {
            Some(v) => v,
            None => {
                return None;
            },
        };
        proof {
            lemma_ue_bound(b, p);
            vstd::bits::lemma_u64_shl_is_mul(1, zeros as u64);
            if zeros < 32 {
                lemma_pow2_strictly_increases(zeros as nat, 32);
            }
        }
        Some((1u64 << zeros as u64) - 1 + suffix)
    }

    /// A signed Exp-Golomb code.
    pub fn read_se(&mut self) -> (r: Option<i64>)
        requires
            old(self).wf(),
        ensures
            final(self).moved(old(self), se(old(self).bytes@, old(self).pos()).1),
            match r {
                Some(v) => se(old(self).bytes@, old(self).pos()).0 == Some(v as int)
                    && -0x1_0000_0000 <= v <= 0x1_0000_0000,
                None => se(old(self).bytes@, old(self).pos()).0 is None,
            },
    {
        let k: u64 = match self.read_ue() {
            Some(k) => k,
            None => {
                return None;
            },
        };
        let half: i64 = (k / 2) as i64;
        if k % 2 == 1 {
            Some(half + 1)
        } else {
            Some(-half)
        }
    }
}

} // verus!
