//! How encoders write things down: numbers as bits, and parameter sets as numbers. What is read
//! here was written by others; this says what reading it must give.
use vstd::arithmetic::power2::{lemma2_to64, lemma_pow2_strictly_increases, lemma_pow2_unfold, pow2};
use vstd::prelude::*;
use crate::bits::{bit, bit_at, bit_len, bits, bits_value, next_bit, next_ue, skip_ses, ue, zero_run};
use crate::pps::{PpsInfo, h264_pps};
use crate::single::{Single, law_small_quotients_are_exact, single};
use crate::slice::{slice_body, slice_excess, slice_frame, slice_order, slice_refs};
use crate::sps::{crop_offsets, crop_unit, cropped_size, extended_profile, h264_chroma, h264_front, h264_order_count};
use crate::sps::{h264_picture, h264_sps, hevc_front, hevc_lists_end, hevc_refs_end, hevc_size, hevc_sps, hevc_vui};
use crate::sps::{SpsView, pass_ues, pix_fmt_name, transfer_name, vui_head, vui_rate};
use crate::text::decimal;

verus! {

// --- Bits ------------------------------------------------------------------------------------

/// A number in base two, with `n` digits, the highest first.
pub open spec fn binary(v: nat, n: nat) -> Seq<bool>
    decreases n,
{
    if n == 0 {
        Seq::empty()
    } else {
        binary(v / 2, (n - 1) as nat).push(v % 2 == 1)
    }
}

/// How many digits a number has in base two.
pub open spec fn digits(v: nat) -> nat
    decreases v,
{
    if v == 0 {
        0
    } else {
        1 + digits(v / 2)
    }
}

/// The Exp-Golomb code of a number: the number and one more in base two, behind as many zeros as
/// it has digits, less one.
pub open spec fn golomb(v: nat) -> Seq<bool> {
    let n = digits(v + 1);
    Seq::new((n - 1) as nat, |i: int| false) + binary(v + 1, n)
}

/// What is written: a number of a fixed width, or one as a code.
pub enum Field {
    Bits { value: nat, width: nat },
    Code { value: nat },
}

/// A flag.
pub open spec fn flag(on: bool) -> Field {
    Field::Bits {
        value: if on {
            1
        } else {
            0
        },
        width: 1,
    }
}

/// A number of a fixed width.
pub open spec fn fixed(value: nat, width: nat) -> Field {
    Field::Bits { value, width }
}

/// A number as a code.
pub open spec fn code(value: nat) -> Field {
    Field::Code { value }
}

/// The field where it is there, or nothing.
pub open spec fn given(there: bool, f: Field) -> Field {
    if there {
        f
    } else {
        Field::Bits { value: 0, width: 0 }
    }
}

impl Field {
    /// The number can be written so.
    pub open spec fn fits(self) -> bool {
        match self {
            Field::Bits { value, width } => width <= 64 && value < pow2(width),
            Field::Code { value } => value < 0x1_0000_0000,
        }
    }

    pub open spec fn spelled(self) -> Seq<bool> {
        match self {
            Field::Bits { value, width } => binary(value, width),
            Field::Code { value } => golomb(value),
        }
    }
}

/// The fields one behind the other.
pub open spec fn spelled(fs: Seq<Field>) -> Seq<bool>
    decreases fs.len(),
{
    if fs.len() == 0 {
        Seq::empty()
    } else {
        spelled(fs.drop_last()) + fs.last().spelled()
    }
}

/// All fields can be written.
pub open spec fn fit(fs: Seq<Field>) -> bool {
    forall|k: int| 0 <= k < fs.len() ==> (#[trigger] fs[k]).fits()
}

/// Bit `i`, or zero behind the end.
pub open spec fn bit_or_zero(s: Seq<bool>, i: int) -> u8 {
    if 0 <= i < s.len() && s[i] {
        1
    } else {
        0
    }
}

/// Eight bits as a byte, the first one highest.
pub open spec fn byte_from(s: Seq<bool>, i: int) -> u8 {
    (bit_or_zero(s, i) << 7) | (bit_or_zero(s, i + 1) << 6) | (bit_or_zero(s, i + 2) << 5) | (bit_or_zero(s, i + 3) << 4) | (
    bit_or_zero(s, i + 4) << 3) | (bit_or_zero(s, i + 5) << 2) | (bit_or_zero(s, i + 6) << 1) | bit_or_zero(s, i + 7)
}

/// The bits in bytes, with zeros up to the end of the last one.
pub open spec fn packed(s: Seq<bool>) -> Seq<u8> {
    Seq::new((s.len() + 7) / 8, |k: int| byte_from(s, 8 * k))
}

/// The bit stands in the bytes at position `p`.
pub open spec fn stands(b: Seq<u8>, p: int, on: bool) -> bool {
    bit_at(b, p as nat) == (if on {
        1nat
    } else {
        0
    })
}

/// The bits stand in the bytes from position `p` on.
#[verifier::opaque]
pub open spec fn holds(b: Seq<u8>, p: nat, s: Seq<bool>) -> bool {
    &&& p + s.len() <= bit_len(b)
    &&& forall|i: int| 0 <= i < s.len() ==> stands(b, p + i, #[trigger] s[i])
}

proof fn lemma_byte_from(a: u8, b: u8, c: u8, d: u8, e: u8, f: u8, g: u8, h: u8, x: u8)
    requires
        a <= 1,
        b <= 1,
        c <= 1,
        d <= 1,
        e <= 1,
        f <= 1,
        g <= 1,
        h <= 1,
        x == (a << 7) | (b << 6) | (c << 5) | (d << 4) | (e << 3) | (f << 2) | (g << 1) | h,
    ensures
        (x >> 7) & 1 == a,
        (x >> 6) & 1 == b,
        (x >> 5) & 1 == c,
        (x >> 4) & 1 == d,
        (x >> 3) & 1 == e,
        (x >> 2) & 1 == f,
        (x >> 1) & 1 == g,
        (x >> 0) & 1 == h,
{
    assert((x >> 7) & 1 == a && (x >> 6) & 1 == b && (x >> 5) & 1 == c && (x >> 4) & 1 == d && (x >> 3) & 1 == e && (x >> 2) & 1
        == f && (x >> 1) & 1 == g && (x >> 0) & 1 == h) by (bit_vector)
        requires
            a <= 1,
            b <= 1,
            c <= 1,
            d <= 1,
            e <= 1,
            f <= 1,
            g <= 1,
            h <= 1,
            x == (a << 7) | (b << 6) | (c << 5) | (d << 4) | (e << 3) | (f << 2) | (g << 1) | h,
    ;
}

/// Bits that are packed are found in their order.
pub proof fn lemma_packed(s: Seq<bool>)
    ensures
        holds(packed(s), 0, s),
{
    reveal(holds);
    let b = packed(s);
    assert forall|i: int| 0 <= i < s.len() implies stands(b, 0 + i, #[trigger] s[i]) by {
        let k = i / 8;
        let j = 8 * k;
        assert(b[k] == byte_from(s, j));
        lemma_byte_from(
            bit_or_zero(s, j),
            bit_or_zero(s, j + 1),
            bit_or_zero(s, j + 2),
            bit_or_zero(s, j + 3),
            bit_or_zero(s, j + 4),
            bit_or_zero(s, j + 5),
            bit_or_zero(s, j + 6),
            bit_or_zero(s, j + 7),
            b[k],
        );
        let r = i % 8;
        assert(i == j + r);
        assert(r == 0 || r == 1 || r == 2 || r == 3 || r == 4 || r == 5 || r == 6 || r == 7);
        assert(bit_at(b, i as nat) == bit_or_zero(s, i));
    }
}

pub proof fn lemma_holds_parts(b: Seq<u8>, p: nat, s: Seq<bool>, t: Seq<bool>)
    requires
        holds(b, p, s + t),
    ensures
        holds(b, p, s),
        holds(b, p + s.len(), t),
{
    reveal(holds);
    assert((s + t).len() == s.len() + t.len());
    assert forall|i: int| 0 <= i < s.len() implies stands(b, p + i, #[trigger] s[i]) by {
        assert((s + t)[i] == s[i]);
    }
    assert forall|i: int| 0 <= i < t.len() implies stands(b, p + s.len() + i, #[trigger] t[i]) by {
        assert((s + t)[s.len() + i] == t[i]);
    }
}

proof fn lemma_binary_len(v: nat, n: nat)
    ensures
        binary(v, n).len() == n,
    decreases n,
{
    if n > 0 {
        lemma_binary_len(v / 2, (n - 1) as nat);
    }
}

proof fn lemma_binary_value(b: Seq<u8>, p: nat, v: nat, n: nat)
    requires
        holds(b, p, binary(v, n)),
        v < pow2(n),
    ensures
        bits_value(b, p, n) == v,
    decreases n,
{
    reveal(holds);
    lemma2_to64();
    lemma_binary_len(v, n);
    if n > 0 {
        let m = (n - 1) as nat;
        lemma_pow2_unfold(n);
        lemma_binary_len(v / 2, m);
        let s = binary(v / 2, m);
        let last = seq![v % 2 == 1];
        assert(binary(v, n) =~= s + last);
        lemma_holds_parts(b, p, s, last);
        lemma_binary_value(b, p, v / 2, m);
        assert(stands(b, (p + m) as int, last[0]));
    }
}

/// A number of a fixed width is read as it was written.
pub proof fn lemma_fixed(b: Seq<u8>, p: nat, v: nat, n: nat)
    requires
        holds(b, p, binary(v, n)),
        v < pow2(n),
        n <= 64,
    ensures
        bits(b, p, n) == (Some(v), p + n),
        n == 1 ==> bit(b, p) == (Some(v), (p + 1) as nat),
{
    reveal(holds);
    lemma_binary_len(v, n);
    lemma_binary_value(b, p, v, n);
    if n == 1 {
        reveal_with_fuel(bits_value, 2);
    }
}

proof fn lemma_digits(v: nat)
    requires
        v > 0,
    ensures
        digits(v) >= 1,
        pow2((digits(v) - 1) as nat) <= v < pow2(digits(v)),
    decreases v,
{
    lemma2_to64();
    lemma_pow2_unfold(digits(v));
    if v > 1 {
        lemma_digits(v / 2);
        lemma_pow2_unfold((digits(v) - 1) as nat);
    } else {
        assert(digits(1) == 1) by {
            reveal_with_fuel(digits, 3);
        }
    }
}

/// The highest digit of a number, and what is left without it.
proof fn lemma_binary_head(v: nat, n: nat)
    requires
        n >= 1,
        pow2((n - 1) as nat) <= v < pow2(n),
    ensures
        binary(v, n) == seq![true] + binary((v - pow2((n - 1) as nat)) as nat, (n - 1) as nat),
    decreases n,
{
    lemma2_to64();
    let m = (n - 1) as nat;
    if m == 0 {
        assert(v == 1);
        assert(binary(0, 0) =~= Seq::empty());
        assert(binary(v, n) =~= seq![true]) by {
            reveal_with_fuel(binary, 2);
        }
        assert(seq![true] + Seq::<bool>::empty() =~= seq![true]);
    } else {
        let h = pow2((m - 1) as nat);
        lemma_pow2_unfold(n);
        lemma_pow2_unfold(m);
        lemma_binary_head(v / 2, m);
        let w = (v - pow2(m)) as nat;
        assert(w / 2 == v / 2 - h && w % 2 == v % 2);
        assert(binary(v, n) == binary(v / 2, m).push(v % 2 == 1));
        assert(binary(w, m) == binary(w / 2, (m - 1) as nat).push(w % 2 == 1));
        assert(binary(v, n) =~= seq![true] + binary(w, m));
    }
}

proof fn lemma_zero_run(b: Seq<u8>, p: nat, z: nat)
    requires
        p + z < bit_len(b),
        forall|i: int| 0 <= i < z ==> #[trigger] bit_at(b, (p + i) as nat) != 1,
        bit_at(b, p + z) == 1,
    ensures
        zero_run(b, p) == z,
    decreases z,
{
    if z > 0 {
        assert(bit_at(b, (p + 0) as nat) != 1);
        assert forall|i: int| 0 <= i < z - 1 implies #[trigger] bit_at(b, (p + 1 + i) as nat) != 1 by {
            assert(bit_at(b, (p + (i + 1)) as nat) != 1);
        }
        lemma_zero_run(b, p + 1, (z - 1) as nat);
    }
}

/// A code is read as the number that it was written for.
pub proof fn lemma_code(b: Seq<u8>, p: nat, v: nat)
    requires
        holds(b, p, golomb(v)),
        v < 0x1_0000_0000,
    ensures
        ue(b, p) == (Some(v), p + golomb(v).len()),
{
    reveal(holds);
    let n = digits(v + 1);
    let z = (n - 1) as nat;
    lemma_digits(v + 1);
    lemma2_to64();
    vstd::arithmetic::power2::lemma2_to64_rest();
    if z > 32 {
        if z > 33 {
            lemma_pow2_strictly_increases(33, z);
        }
        assert(false);
    }
    let zeros = Seq::new(z, |i: int| false);
    lemma_binary_head(v + 1, n);
    let w = (v + 1 - pow2(z)) as nat;
    lemma_binary_len(w, z);
    lemma_binary_len(v + 1, n);
    lemma_holds_parts(b, p, zeros, binary(v + 1, n));
    lemma_holds_parts(b, p + z, seq![true], binary(w, z));
    assert(stands(b, (p + z) as int, seq![true][0]));
    assert forall|i: int| 0 <= i < z implies #[trigger] bit_at(b, (p + i) as nat) != 1 by {
        assert(stands(b, p + i, zeros[i]));
    }
    lemma_zero_run(b, p, z);
    lemma_pow2_unfold(n);
    lemma_fixed(b, p + z + 1, w, z);
}

pub proof fn lemma_spelled_adds(a: Seq<Field>, b: Seq<Field>)
    ensures
        spelled(a + b) == spelled(a) + spelled(b),
    decreases b.len(),
{
    if b.len() == 0 {
        assert(a + b =~= a);
        assert(spelled(a) + spelled(b) =~= spelled(a));
    } else {
        lemma_spelled_adds(a, b.drop_last());
        assert((a + b).drop_last() =~= a + b.drop_last());
        assert(spelled(a + b) =~= spelled(a) + spelled(b));
    }
}

/// Where field `k` begins, of fields that begin at `p`.
#[verifier::opaque]
pub open spec fn place(p: nat, fs: Seq<Field>, k: int) -> nat {
    p + spelled(fs.take(k)).len()
}

/// Where the fields stand.
proof fn lemma_places(b: Seq<u8>, p: nat, fs: Seq<Field>, k: int)
    requires
        holds(b, p, spelled(fs)),
        0 <= k < fs.len(),
    ensures
        place(p, fs, 0) == p,
        place(p, fs, fs.len() as int) == p + spelled(fs).len(),
        place(p, fs, k + 1) == place(p, fs, k) + fs[k].spelled().len(),
        holds(b, place(p, fs, k), fs[k].spelled()),
{
    reveal(place);
    let head = fs.take(k);
    let tail = fs.skip(k + 1);
    assert(fs.take(0) =~= Seq::empty());
    assert(fs.take(fs.len() as int) =~= fs);
    assert(fs.take(k + 1).drop_last() =~= head);
    assert(fs.take(k + 1).last() == fs[k]);
    assert(fs =~= fs.take(k + 1) + tail);
    lemma_spelled_adds(fs.take(k + 1), tail);
    lemma_holds_parts(b, p, spelled(fs.take(k + 1)), spelled(tail));
    lemma_holds_parts(b, p, spelled(head), fs[k].spelled());
}

/// A field is read at its place as it was written.
pub proof fn lemma_field(b: Seq<u8>, p: nat, fs: Seq<Field>, k: int)
    requires
        holds(b, p, spelled(fs)),
        0 <= k < fs.len(),
        fs[k].fits(),
    ensures
        place(p, fs, 0) == p,
        place(p, fs, fs.len() as int) == p + spelled(fs).len(),
        match fs[k] {
            Field::Bits { value, width } => {
                &&& bits(b, place(p, fs, k), width) == (Some(value), place(p, fs, k + 1))
                &&& width == 1 ==> bit(b, place(p, fs, k)) == (Some(value), place(p, fs, k + 1))
                &&& width == 0 ==> place(p, fs, k + 1) == place(p, fs, k)
            },
            Field::Code { value } => ue(b, place(p, fs, k)) == (Some(value), place(p, fs, k + 1)),
        },
{
    lemma_places(b, p, fs, k);
    let q = place(p, fs, k);
    match fs[k] {
        Field::Bits { value, width } => {
            lemma_binary_len(value, width);
            lemma_fixed(b, q, value, width);
        },
        Field::Code { value } => {
            lemma_code(b, q, value);
        },
    }
}

/// What was written as fields is read back field by field, whatever follows.
pub proof fn law_fields_are_read_back(fs: Seq<Field>, rest: Seq<bool>, k: int)
    requires
        0 <= k < fs.len(),
        fs[k].fits(),
    ensures
        ({
            let b = packed(spelled(fs) + rest);
            match fs[k] {
                Field::Bits { value, width } => bits(b, place(0, fs, k), width) == (Some(value), place(0, fs, k + 1)),
                Field::Code { value } => ue(b, place(0, fs, k)) == (Some(value), place(0, fs, k + 1)),
            }
        }),
{
    let b = packed(spelled(fs) + rest);
    lemma_packed(spelled(fs) + rest);
    lemma_holds_parts(b, 0, spelled(fs), rest);
    lemma_field(b, 0, fs, k);
}

// --- Usability information -------------------------------------------------------------------

/// What encoders say of how to show the picture.
pub struct Usability {
    /// The number of an aspect ratio, and the ratio itself, which counts for number 255.
    pub aspect: Option<(nat, nat, nat)>,
    pub overscan: Option<bool>,
    /// The format, whether the range is full, and the colours, where they are given.
    pub signal: Option<(nat, bool, Option<Colours>)>,
    pub location: Option<(nat, nat)>,
    /// Units in a tick, and units in a second.
    pub timing: Option<(nat, nat)>,
}

/// Numbers of the primaries, of the transfer characteristic and of the matrix.
pub struct Colours {
    pub primaries: nat,
    pub transfer: nat,
    pub matrix: nat,
}

impl Usability {
    /// The number of the transfer characteristic.
    pub open spec fn transfer(self) -> Option<nat> {
        match self.signal {
            Some((_, _, Some(c))) => Some(c.transfer),
            _ => None,
        }
    }

    /// What both codecs begin with.
    pub open spec fn head(self) -> Seq<Field> {
        let (idc, across, down) = match self.aspect {
            Some(a) => a,
            None => (0, 0, 0),
        };
        let own = self.aspect is Some && idc == 255;
        let (format, full, colours) = match self.signal {
            Some(s) => s,
            None => (0, false, None),
        };
        let signal = self.signal is Some;
        let coloured = signal && colours is Some;
        let c = match colours {
            Some(c) => c,
            None => Colours { primaries: 0, transfer: 0, matrix: 0 },
        };
        let (top, bottom) = match self.location {
            Some(l) => l,
            None => (0, 0),
        };
        seq![
            flag(self.aspect is Some),
            given(self.aspect is Some, fixed(idc, 8)),
            given(own, fixed(across, 16)),
            given(own, fixed(down, 16)),
            flag(self.overscan is Some),
            given(self.overscan is Some, flag(self.overscan == Some(true))),
            flag(signal),
            given(signal, fixed(format, 3)),
            given(signal, flag(full)),
            given(signal, flag(coloured)),
            given(coloured, fixed(c.primaries, 8)),
            given(coloured, fixed(c.transfer, 8)),
            given(coloured, fixed(c.matrix, 8)),
            flag(self.location is Some),
            given(self.location is Some, code(top)),
            given(self.location is Some, code(bottom)),
        ]
    }

    /// What the timing comes to.
    pub open spec fn clock(self) -> Seq<Field> {
        let (tick, scale) = match self.timing {
            Some(t) => t,
            None => (0, 0),
        };
        seq![
            flag(self.timing is Some),
            given(self.timing is Some, fixed(tick, 32)),
            given(self.timing is Some, fixed(scale, 32)),
        ]
    }

    pub open spec fn fits(self) -> bool {
        fit(self.head()) && fit(self.clock())
    }
}

#[verifier::spinoff_prover]
#[verifier::rlimit(80)]
proof fn lemma_vui_head(b: Seq<u8>, p: nat, u: Usability)
    requires
        holds(b, p, spelled(u.head())),
        fit(u.head()),
    ensures
        vui_head(b, p).1 == p + spelled(u.head()).len(),
        u.transfer() is None ==> vui_head(b, p).0 is None,
        u.transfer() matches Some(t) ==> vui_head(b, p).0 == transfer_name(t),
{
    let fs = u.head();
    assert(fs.len() == 16);
    lemma_field(b, p, fs, 0);
    lemma_field(b, p, fs, 1);
    lemma_field(b, p, fs, 2);
    lemma_field(b, p, fs, 3);
    lemma_field(b, p, fs, 4);
    lemma_field(b, p, fs, 5);
    lemma_field(b, p, fs, 6);
    lemma_field(b, p, fs, 7);
    lemma_field(b, p, fs, 8);
    lemma_field(b, p, fs, 9);
    lemma_field(b, p, fs, 10);
    lemma_field(b, p, fs, 11);
    lemma_field(b, p, fs, 12);
    lemma_field(b, p, fs, 13);
    lemma_field(b, p, fs, 14);
    lemma_field(b, p, fs, 15);
}

/// The frames per second that the timing comes to, where a frame takes so many ticks.
pub open spec fn frames(u: Usability, ticks: nat) -> Option<Single> {
    match u.timing {
        Some((tick, scale)) => if tick > 0 {
            Some(single(single(scale, 1).units(), ticks * single(tick, 1).units()))
        } else {
            None
        },
        None => None,
    }
}

proof fn lemma_vui_rate(b: Seq<u8>, p: nat, u: Usability, ticks: nat)
    requires
        holds(b, p, spelled(u.clock())),
        fit(u.clock()),
    ensures
        vui_rate(b, p, ticks) == frames(u, ticks),
{
    let fs = u.clock();
    assert(fs.len() == 3);
    lemma_field(b, p, fs, 0);
    lemma_field(b, p, fs, 1);
    lemma_field(b, p, fs, 2);
}

// --- Parameter sets --------------------------------------------------------------------------

/// An HEVC sequence parameter set of one layer, as an encoder fills it in.
pub struct HevcSet {
    pub vps: nat,
    pub nesting: bool,
    /// Profile, compatibility, constraints and level.
    pub profile: (nat, nat, nat, nat),
    pub id: nat,
    pub chroma: nat,
    pub planes: bool,
    pub width: nat,
    pub height: nat,
    /// What is cut off on the left, on the right, at the top and at the bottom.
    pub window: Option<(nat, nat, nat, nat)>,
    /// Bits of a sample, less eight.
    pub depth: nat,
    pub chroma_depth: nat,
    pub order: nat,
    pub ordering: bool,
    /// Sizes of buffers and blocks.
    pub sizes: (nat, nat, nat, nat, nat, nat, nat, nat, nat),
    pub tools: (bool, bool, bool, bool),
    pub usability: Option<Usability>,
    pub layout: (bool, bool, bool),
    /// The part that a display shows.
    pub display: Option<(nat, nat, nat, nat)>,
}

impl HevcSet {
    pub open spec fn front(self) -> Seq<Field> {
        seq![
            fixed(self.vps, 4),
            fixed(0, 3),
            flag(self.nesting),
            fixed(self.profile.0, 8),
            fixed(self.profile.1, 32),
            fixed(self.profile.2, 48),
            fixed(self.profile.3, 8),
            code(self.id),
        ]
    }

    pub open spec fn picture(self) -> Seq<Field> {
        let (l, r, t, b) = match self.window {
            Some(w) => w,
            None => (0, 0, 0, 0),
        };
        let cut = self.window is Some;
        seq![
            code(self.chroma),
            given(self.chroma == 3, flag(self.planes)),
            code(self.width),
            code(self.height),
            flag(cut),
            given(cut, code(l)),
            given(cut, code(r)),
            given(cut, code(t)),
            given(cut, code(b)),
            code(self.depth),
            code(self.chroma_depth),
        ]
    }

    pub open spec fn lists(self) -> Seq<Field> {
        seq![
            code(self.order),
            flag(self.ordering),
            code(self.sizes.0),
            code(self.sizes.1),
            code(self.sizes.2),
            code(self.sizes.3),
            code(self.sizes.4),
            code(self.sizes.5),
            code(self.sizes.6),
            code(self.sizes.7),
            code(self.sizes.8),
            flag(false),
        ]
    }

    pub open spec fn refs(self) -> Seq<Field> {
        seq![
            flag(self.tools.0),
            flag(self.tools.1),
            flag(false),
            code(0),
            flag(false),
            flag(self.tools.2),
            flag(self.tools.3),
            flag(self.usability is Some),
        ]
    }

    pub open spec fn extra(self) -> Seq<Field> {
        let (l, r, t, b) = match self.display {
            Some(w) => w,
            None => (0, 0, 0, 0),
        };
        let cut = self.display is Some;
        seq![
            flag(self.layout.0),
            flag(self.layout.1),
            flag(self.layout.2),
            flag(cut),
            given(cut, code(l)),
            given(cut, code(r)),
            given(cut, code(t)),
            given(cut, code(b)),
        ]
    }

    /// All of it.
    pub open spec fn fields(self) -> Seq<Field> {
        self.front() + (self.picture() + (self.lists() + (self.refs() + match self.usability {
            Some(u) => u.head() + (self.extra() + u.clock()),
            None => Seq::empty(),
        })))
    }

    pub open spec fn fits(self) -> bool {
        &&& fit(self.front())
        &&& fit(self.picture())
        &&& fit(self.lists())
        &&& fit(self.refs())
        &&& fit(self.extra())
        &&& self.usability matches Some(u) ==> u.fits()
    }
}

#[verifier::spinoff_prover]
#[verifier::rlimit(80)]
proof fn lemma_hevc_front(b: Seq<u8>, s: HevcSet)
    requires
        holds(b, 0, spelled(s.front())),
        fit(s.front()),
    ensures
        hevc_front(b) == (0nat, Some(spelled(s.front()).len())),
{
    let fs = s.front();
    assert(fs.len() == 8);
    lemma_field(b, 0, fs, 0);
    lemma_field(b, 0, fs, 1);
    lemma_field(b, 0, fs, 2);
    lemma_field(b, 0, fs, 3);
    lemma_field(b, 0, fs, 4);
    lemma_field(b, 0, fs, 5);
    lemma_field(b, 0, fs, 6);
    lemma_field(b, 0, fs, 7);
}

#[verifier::spinoff_prover]
#[verifier::rlimit(80)]
proof fn lemma_hevc_lists(b: Seq<u8>, p: nat, s: HevcSet)
    requires
        holds(b, p, spelled(s.lists())),
        fit(s.lists()),
    ensures
        hevc_lists_end(b, p, 0) == Some(p + spelled(s.lists()).len()),
{
    let fs = s.lists();
    assert(fs.len() == 12);
    lemma_field(b, p, fs, 0);
    lemma_field(b, p, fs, 1);
    lemma_field(b, p, fs, 2);
    lemma_field(b, p, fs, 3);
    lemma_field(b, p, fs, 4);
    lemma_field(b, p, fs, 5);
    lemma_field(b, p, fs, 6);
    lemma_field(b, p, fs, 7);
    lemma_field(b, p, fs, 8);
    lemma_field(b, p, fs, 9);
    lemma_field(b, p, fs, 10);
    lemma_field(b, p, fs, 11);
    reveal_with_fuel(pass_ues, 7);
}

#[verifier::spinoff_prover]
#[verifier::rlimit(80)]
proof fn lemma_hevc_refs(b: Seq<u8>, p: nat, s: HevcSet)
    requires
        holds(b, p, spelled(s.refs())),
        fit(s.refs()),
    ensures
        s.usability is Some ==> hevc_refs_end(b, p) == Some(p + spelled(s.refs()).len()),
        s.usability is None ==> hevc_refs_end(b, p) is None,
{
    let fs = s.refs();
    assert(fs.len() == 8);
    lemma_field(b, p, fs, 0);
    lemma_field(b, p, fs, 1);
    lemma_field(b, p, fs, 2);
    lemma_field(b, p, fs, 3);
    lemma_field(b, p, fs, 4);
    lemma_field(b, p, fs, 5);
    lemma_field(b, p, fs, 6);
    lemma_field(b, p, fs, 7);
}

#[verifier::spinoff_prover]
#[verifier::rlimit(80)]
proof fn lemma_hevc_usability(b: Seq<u8>, p: nat, s: HevcSet, u: Usability)
    requires
        holds(b, p, spelled(u.head() + (s.extra() + u.clock()))),
        fit(s.extra()),
        u.fits(),
    ensures
        hevc_vui(b, p).0 == frames(u, 1),
        u.transfer() is None ==> hevc_vui(b, p).1 is None,
        u.transfer() matches Some(t) ==> hevc_vui(b, p).1 == transfer_name(t),
{
    lemma_spelled_adds(u.head(), s.extra() + u.clock());
    lemma_spelled_adds(s.extra(), u.clock());
    lemma_holds_parts(b, p, spelled(u.head()), spelled(s.extra() + u.clock()));
    let q = p + spelled(u.head()).len();
    lemma_holds_parts(b, q, spelled(s.extra()), spelled(u.clock()));
    lemma_vui_head(b, p, u);
    let fs = s.extra();
    assert(fs.len() == 8);
    lemma_field(b, q, fs, 0);
    lemma_field(b, q, fs, 1);
    lemma_field(b, q, fs, 2);
    lemma_field(b, q, fs, 3);
    lemma_field(b, q, fs, 4);
    lemma_field(b, q, fs, 5);
    lemma_field(b, q, fs, 6);
    lemma_field(b, q, fs, 7);
    lemma_vui_rate(b, q + spelled(fs).len(), u, 1);
}

/// The parts of an HEVC set stand one behind the other.
proof fn lemma_hevc_parts(b: Seq<u8>, s: HevcSet)
    requires
        holds(b, 0, spelled(s.fields())),
    ensures
        ({
            let p1 = spelled(s.front()).len();
            let p2 = p1 + spelled(s.picture()).len();
            let p3 = p2 + spelled(s.lists()).len();
            let p4 = p3 + spelled(s.refs()).len();
            &&& holds(b, 0, spelled(s.front()))
            &&& holds(b, p1, spelled(s.picture()))
            &&& holds(b, p2, spelled(s.lists()))
            &&& holds(b, p3, spelled(s.refs()))
            &&& s.usability matches Some(u) ==> holds(b, p4, spelled(u.head() + (s.extra() + u.clock())))
        }),
{
    let behind = match s.usability {
        Some(u) => u.head() + (s.extra() + u.clock()),
        None => Seq::empty(),
    };
    let r3 = s.refs() + behind;
    let r2 = s.lists() + r3;
    let r1 = s.picture() + r2;
    lemma_spelled_adds(s.front(), r1);
    lemma_spelled_adds(s.picture(), r2);
    lemma_spelled_adds(s.lists(), r3);
    lemma_spelled_adds(s.refs(), behind);
    lemma_holds_parts(b, 0, spelled(s.front()), spelled(r1));
    let p1 = spelled(s.front()).len();
    lemma_holds_parts(b, p1, spelled(s.picture()), spelled(r2));
    let p2 = p1 + spelled(s.picture()).len();
    lemma_holds_parts(b, p2, spelled(s.lists()), spelled(r3));
    let p3 = p2 + spelled(s.lists()).len();
    lemma_holds_parts(b, p3, spelled(s.refs()), spelled(behind));
}

/// What is read where the picture of an HEVC set stands.
#[verifier::spinoff_prover]
#[verifier::rlimit(80)]
proof fn lemma_hevc_picture(b: Seq<u8>, p: nat, s: HevcSet)
    requires
        holds(b, p, spelled(s.picture())),
        fit(s.picture()),
    ensures
        ({
            let (l, r, t, m) = match s.window {
                Some(w) => w,
                None => (0, 0, 0, 0),
            };
            let fs = s.picture();
            let c = if s.chroma == 3 {
                place(p, fs, 2)
            } else {
                place(p, fs, 1)
            };
            &&& next_ue(b, Some(p)) == (s.chroma, Some(place(p, fs, 1)))
            &&& s.chroma == 3 ==> next_bit(b, Some(place(p, fs, 1))).1 == Some(c)
            &&& next_ue(b, Some(c)) == (s.width, Some(place(p, fs, 3)))
            &&& next_ue(b, Some(place(p, fs, 3))) == (s.height, Some(place(p, fs, 4)))
            &&& crop_offsets(b, Some(place(p, fs, 4))) == ((l, r, t, m), Some(place(p, fs, 9)))
            &&& next_ue(b, Some(place(p, fs, 9))) == (s.depth, Some(place(p, fs, 10)))
            &&& next_ue(b, Some(place(p, fs, 10))).1 == Some(p + spelled(fs).len())
        }),
{
    let fs = s.picture();
    assert(fs.len() == 11);
    lemma_field(b, p, fs, 0);
    lemma_field(b, p, fs, 1);
    lemma_field(b, p, fs, 2);
    lemma_field(b, p, fs, 3);
    lemma_field(b, p, fs, 4);
    lemma_field(b, p, fs, 5);
    lemma_field(b, p, fs, 6);
    lemma_field(b, p, fs, 7);
    lemma_field(b, p, fs, 8);
    lemma_field(b, p, fs, 9);
    lemma_field(b, p, fs, 10);
}

/// What is read of an HEVC set.
#[verifier::opaque]
spec fn hevc_read(s: HevcSet, v: SpsView) -> bool {
    &&& v.width == Some(hevc_size(s.width, crop_unit(s.chroma).0, (cut_off(s.window).0, cut_off(s.window).1)))
    &&& v.height == Some(hevc_size(s.height, crop_unit(s.chroma).1, (cut_off(s.window).2, cut_off(s.window).3)))
    &&& v.pix_fmt == Some(pix_fmt_name(s.chroma, s.depth + 8))
    &&& s.usability is None ==> v.framerate is None && v.color_transfer is None
    &&& s.usability matches Some(u) ==> v.framerate == frames(u, 1) && (u.transfer() is None ==> v.color_transfer is None)
        && (u.transfer() matches Some(t) ==> v.color_transfer == transfer_name(t))
}

#[verifier::spinoff_prover]
#[verifier::rlimit(80)]
proof fn lemma_hevc_set(b: Seq<u8>, s: HevcSet)
    requires
        holds(b, 0, spelled(s.fields())),
        s.fits(),
    ensures
        hevc_sps(b) is Some,
        hevc_read(s, hevc_sps(b)->0),
{
    lemma_hevc_parts(b, s);
    let p1 = spelled(s.front()).len();
    let p2 = p1 + spelled(s.picture()).len();
    let p3 = p2 + spelled(s.lists()).len();
    let p4 = p3 + spelled(s.refs()).len();
    lemma_hevc_front(b, s);
    lemma_hevc_lists(b, p2, s);
    lemma_hevc_refs(b, p3, s);
    if let Some(u) = s.usability {
        lemma_hevc_usability(b, p4, s, u);
    }
    lemma_hevc_picture(b, p1, s);
    reveal(hevc_read);
}

/// How much smaller a window makes a picture, in samples of luma: its units are those of chroma.
pub open spec fn window_units(chroma: nat) -> (nat, nat) {
    if chroma == 1 {
        (2, 2)
    } else if chroma == 2 {
        (2, 1)
    } else {
        (1, 1)
    }
}

/// The names that are told of a picture: of its pixels by chroma format and depth, and of its
/// transfer characteristic by number.
pub open spec fn names_fit(chroma: nat, depth: nat, pix_fmt: Option<Seq<char>>) -> bool {
    let name = if chroma == 3 {
        "yuv444p"@
    } else if chroma == 2 {
        "yuv422p"@
    } else {
        "yuv420p"@
    };
    &&& depth <= 8 ==> pix_fmt == Some(name)
    &&& depth > 8 ==> pix_fmt == Some(name + decimal(depth) + "le"@)
}

/// The name of the transfer characteristic with a number: one for what is plain, others for what
/// is not.
pub open spec fn transfer_fits(number: Option<nat>, name: Option<Seq<char>>) -> bool {
    &&& number == Some(1nat) ==> name == Some("bt709"@)
    &&& number == Some(6nat) ==> name == Some("bt709"@)
    &&& number == Some(14nat) ==> name == Some("bt2020-10"@)
    &&& number == Some(15nat) ==> name == Some("bt2020-12"@)
    &&& number == Some(16nat) ==> name == Some("smpte2084"@)
    &&& number == Some(17nat) ==> name == Some("smpte428"@)
    &&& number == Some(18nat) ==> name == Some("arib-std-b67"@)
    &&& (match number {
        Some(n) => n != 1 && n != 6 && (n < 14 || n > 18),
        None => true,
    }) ==> name is None
}

proof fn lemma_hevc_size(raw: nat, unit: nat, l: nat, r: nat)
    requires
        raw < 0x1_0000_0000,
        l < 0x1_0000_0000,
        r < 0x1_0000_0000,
        unit == 1 || unit == 2,
        unit * (l + r) <= raw,
    ensures
        hevc_size(raw, unit, (l, r)) == raw - unit * (l + r),
{
    assert(raw % 0x1_0000_0000 == raw && l % 0x1_0000_0000 == l && r % 0x1_0000_0000 == r);
    let left = (raw - unit * (l + r)) as nat;
    assert(left % 0x1_0000_0000 == left);
}

proof fn lemma_avc_size(raw: nat, cut: nat)
    requires
        cut <= raw <= u32::MAX,
    ensures
        cropped_size(raw, cut) == raw - cut,
{
    let left = (raw - cut) as nat;
    assert(left % 0x1_0000_0000 == left);
}

/// What an HEVC set tells: the size of the picture within its window, its pixels, its transfer
/// characteristic and its frame rate.
#[verifier::opaque]
pub open spec fn hevc_told(s: HevcSet, v: SpsView) -> bool {
    let (l, r, t, m) = cut_off(s.window);
    let (across, down) = window_units(s.chroma);
    &&& across * (l + r) <= s.width ==> v.width == Some((s.width - across * (l + r)) as u32)
    &&& down * (t + m) <= s.height ==> v.height == Some((s.height - down * (t + m)) as u32)
    &&& names_fit(s.chroma, s.depth + 8, v.pix_fmt)
    &&& s.usability is None ==> v.color_transfer is None && v.framerate is None
    &&& s.usability matches Some(u) ==> transfer_fits(u.transfer(), v.color_transfer) && v.framerate == frames(u, 1)
}

proof fn lemma_hevc_told(s: HevcSet, v: SpsView)
    requires
        fit(s.picture()),
        hevc_read(s, v),
    ensures
        hevc_told(s, v),
{
    reveal(hevc_read);
    reveal(hevc_told);
    let (l, r, t, m) = cut_off(s.window);
    let (across, down) = window_units(s.chroma);
    let fs = s.picture();
    assert(fs.len() == 11);
    assert(fs[2].fits() && fs[3].fits());
    if s.window is Some {
        assert(fs[5].fits() && fs[6].fits() && fs[7].fits() && fs[8].fits());
    }
    if across * (l + r) <= s.width {
        lemma_hevc_size(s.width, across, l, r);
    }
    if down * (t + m) <= s.height {
        lemma_hevc_size(s.height, down, t, m);
    }
}

/// The numbers of a window, or nothing cut off.
pub open spec fn cut_off(window: Option<(nat, nat, nat, nat)>) -> (nat, nat, nat, nat) {
    match window {
        Some(w) => w,
        None => (0, 0, 0, 0),
    }
}

/// An HEVC set is read as it was written, whatever follows.
pub proof fn law_hevc_sets_are_read_back(s: HevcSet, rest: Seq<bool>)
    requires
        s.fits(),
    ensures
        hevc_sps(packed(spelled(s.fields()) + rest)) is Some,
        hevc_told(s, hevc_sps(packed(spelled(s.fields()) + rest))->0),
{
    let b = packed(spelled(s.fields()) + rest);
    lemma_packed(spelled(s.fields()) + rest);
    lemma_holds_parts(b, 0, spelled(s.fields()), rest);
    lemma_hevc_set(b, s);
    lemma_hevc_told(s, hevc_sps(b)->0);
}

/// The picture of an HEVC set in 4:2:0 is as wide and as high as its window leaves it.
pub proof fn law_hevc_pictures_keep_their_size(s: HevcSet, rest: Seq<bool>, l: nat, r: nat, t: nat, m: nat)
    requires
        s.fits(),
        s.chroma == 1,
        s.window == Some((l, r, t, m)),
        2 * (l + r) <= s.width,
        2 * (t + m) <= s.height,
    ensures
        hevc_sps(packed(spelled(s.fields()) + rest)) matches Some(v) && v.width == Some((s.width - 2 * (l + r)) as u32)
            && v.height == Some((s.height - 2 * (t + m)) as u32),
{
    law_hevc_sets_are_read_back(s, rest);
    lemma_hevc_window(s, hevc_sps(packed(spelled(s.fields()) + rest))->0, l, r, t, m);
}

proof fn lemma_hevc_window(s: HevcSet, v: SpsView, l: nat, r: nat, t: nat, m: nat)
    requires
        hevc_told(s, v),
        s.chroma == 1,
        s.window == Some((l, r, t, m)),
        2 * (l + r) <= s.width,
        2 * (t + m) <= s.height,
    ensures
        v.width == Some((s.width - 2 * (l + r)) as u32),
        v.height == Some((s.height - 2 * (t + m)) as u32),
{
    reveal(hevc_told);
}

/// A stream whose second has `n` times as many units as a frame shows `n` frames in it: of one tick
/// each in HEVC, and of two in H.264.
pub proof fn law_frame_rates_are_units_by_ticks(u: Usability, n: nat, tick: nat, ticks: nat)
    requires
        0 < tick < 0x100_0000,
        ticks == 1 || ticks == 2,
        n * (ticks * tick) < 0x100_0000,
        u.timing == Some((tick, n * (ticks * tick))),
    ensures
        frames(u, ticks) == Some(single(n, 1)),
{
    law_small_quotients_are_exact(n, tick, ticks);
}

// --- H.264 -----------------------------------------------------------------------------------

/// An H.264 sequence parameter set, as an encoder fills it in.
pub struct AvcSet {
    pub profile: nat,
    pub constraints: nat,
    pub level: nat,
    pub id: nat,
    /// Chroma format, depths less eight and whether planes are separate, in profiles that have them.
    pub chroma: nat,
    pub planes: bool,
    pub depth: nat,
    pub chroma_depth: nat,
    pub bypass: bool,
    pub frame_num: nat,
    /// The kind of picture order count, and its fields: of kind 0 and of kind 1.
    pub order: nat,
    pub order_lsb: nat,
    pub order_fields: (bool, nat, nat),
    pub ref_frames: nat,
    pub gaps: bool,
    /// In blocks of 16 samples, less one; down, in blocks of fields where there are fields.
    pub width: nat,
    pub height: nat,
    pub frames_only: bool,
    pub adaptive: bool,
    pub direct: bool,
    pub window: Option<(nat, nat, nat, nat)>,
    pub usability: Option<Usability>,
}

/// The profiles whose sets say what the chroma is like.
pub open spec fn tells_chroma(profile: nat) -> bool {
    seq![100nat, 110, 122, 244, 44, 83, 86, 118, 128, 138, 139, 134, 135].contains(profile)
}

impl AvcSet {
    pub open spec fn front(self) -> Seq<Field> {
        let high = tells_chroma(self.profile);
        seq![
            fixed(self.profile, 8),
            fixed(self.constraints, 8),
            fixed(self.level, 8),
            code(self.id),
            given(high, code(self.chroma)),
            given(high && self.chroma == 3, flag(self.planes)),
            given(high, code(self.depth)),
            given(high, code(self.chroma_depth)),
            given(high, flag(self.bypass)),
            given(high, flag(false)),
            code(self.frame_num),
            code(self.order),
            given(self.order == 0, code(self.order_lsb)),
            given(self.order == 1, flag(self.order_fields.0)),
            given(self.order == 1, code(self.order_fields.1)),
            given(self.order == 1, code(self.order_fields.2)),
            given(self.order == 1, code(0)),
            code(self.ref_frames),
            flag(self.gaps),
        ]
    }

    pub open spec fn picture(self) -> Seq<Field> {
        let (l, r, t, b) = match self.window {
            Some(w) => w,
            None => (0, 0, 0, 0),
        };
        let cut = self.window is Some;
        seq![
            code(self.width),
            code(self.height),
            flag(self.frames_only),
            given(!self.frames_only, flag(self.adaptive)),
            flag(self.direct),
            flag(cut),
            given(cut, code(l)),
            given(cut, code(r)),
            given(cut, code(t)),
            given(cut, code(b)),
        ]
    }

    pub open spec fn fields(self) -> Seq<Field> {
        self.front() + (self.picture() + (seq![flag(self.usability is Some)] + match self.usability {
            Some(u) => u.head() + u.clock(),
            None => Seq::empty(),
        }))
    }

    pub open spec fn fits(self) -> bool {
        &&& fit(self.front())
        &&& fit(self.picture())
        &&& self.usability matches Some(u) ==> u.fits()
    }
}

#[verifier::spinoff_prover]
#[verifier::rlimit(80)]
proof fn lemma_avc_chroma(b: Seq<u8>, s: AvcSet)
    requires
        holds(b, 0, spelled(s.front())),
        fit(s.front()),
    ensures
        ({
            let fs = s.front();
            let (c, q) = h264_chroma(b, Some(place(0, fs, 4)), s.profile);
            &&& q == Some(place(0, fs, 10))
            &&& tells_chroma(s.profile) ==> c.format_idc == s.chroma && c.depth_minus8 == s.depth && (s.chroma == 3
                ==> c.separate_planes == (if s.planes {
                1u8
            } else {
                0
            })) && (s.chroma != 3 ==> c.separate_planes == 0)
            &&& !tells_chroma(s.profile) ==> c.format_idc == 1 && c.depth_minus8 == 0 && c.separate_planes == 0
        }),
{
    let fs = s.front();
    assert(fs.len() == 19);
    lemma_field(b, 0, fs, 4);
    lemma_field(b, 0, fs, 5);
    lemma_field(b, 0, fs, 6);
    lemma_field(b, 0, fs, 7);
    lemma_field(b, 0, fs, 8);
    lemma_field(b, 0, fs, 9);
    lemma_tells_chroma(s.profile);
}

proof fn lemma_tells_chroma(profile: nat)
    ensures
        extended_profile(profile) == tells_chroma(profile),
{
    let all = seq![100nat, 110, 122, 244, 44, 83, 86, 118, 128, 138, 139, 134, 135];
    assert(all[0] == 100 && all[1] == 110 && all[2] == 122 && all[3] == 244 && all[4] == 44 && all[5] == 83 && all[6] == 86
        && all[7] == 118 && all[8] == 128 && all[9] == 138 && all[10] == 139 && all[11] == 134 && all[12] == 135);
    assert(all.len() == 13);
}

#[verifier::spinoff_prover]
#[verifier::rlimit(80)]
proof fn lemma_avc_order(b: Seq<u8>, s: AvcSet)
    requires
        holds(b, 0, spelled(s.front())),
        fit(s.front()),
    ensures
        ({
            let fs = s.front();
            let (o, q) = h264_order_count(b, Some(place(0, fs, 11)));
            &&& q == Some(place(0, fs, 17))
            &&& o.kind == s.order
            &&& s.order == 0 ==> o.log2_lsb_minus4 == Some(s.order_lsb as u64)
            &&& s.order != 0 ==> o.log2_lsb_minus4 is None
            &&& s.order == 1 ==> o.delta_always_zero == Some(
                if s.order_fields.0 {
                    1u8
                } else {
                    0
                },
            )
            &&& s.order != 1 ==> o.delta_always_zero is None
        }),
{
    let fs = s.front();
    assert(fs.len() == 19);
    lemma_field(b, 0, fs, 11);
    lemma_field(b, 0, fs, 12);
    lemma_field(b, 0, fs, 13);
    lemma_field(b, 0, fs, 14);
    lemma_field(b, 0, fs, 15);
    lemma_field(b, 0, fs, 16);
    assert(fs[11].fits());
    reveal_with_fuel(skip_ses, 1);
}

#[verifier::spinoff_prover]
#[verifier::rlimit(80)]
proof fn lemma_avc_front(b: Seq<u8>, s: AvcSet)
    requires
        holds(b, 0, spelled(s.front())),
        fit(s.front()),
    ensures
        ({
            let (f, q) = h264_front(b);
            let (c, q1) = h264_chroma(b, Some(place(0, s.front(), 4)), s.profile);
            let (o, q2) = h264_order_count(b, Some(place(0, s.front(), 11)));
            &&& q == Some(spelled(s.front()).len())
            &&& f.id == s.id
            &&& f.chroma == c
            &&& f.log2_frame_num_minus4 == s.frame_num
            &&& f.order == o
            &&& f.ref_frames == s.ref_frames
        }),
{
    let fs = s.front();
    assert(fs.len() == 19);
    lemma_avc_chroma(b, s);
    lemma_avc_order(b, s);
    lemma_field(b, 0, fs, 0);
    lemma_field(b, 0, fs, 1);
    lemma_field(b, 0, fs, 2);
    lemma_field(b, 0, fs, 3);
    lemma_field(b, 0, fs, 10);
    lemma_field(b, 0, fs, 17);
    lemma_field(b, 0, fs, 18);
    assert(fs[3].fits() && fs[10].fits() && fs[17].fits());
}

#[verifier::spinoff_prover]
#[verifier::rlimit(80)]
proof fn lemma_avc_picture(b: Seq<u8>, p: nat, s: AvcSet, chroma: nat)
    requires
        holds(b, p, spelled(s.picture())),
        fit(s.picture()),
    ensures
        ({
            let (l, r, t, m) = match s.window {
                Some(w) => w,
                None => (0, 0, 0, 0),
            };
            let (unit_w, unit_h) = crop_unit(chroma);
            let fields: nat = if s.frames_only {
                1
            } else {
                2
            };
            let (v, q) = h264_picture(b, Some(p), chroma);
            &&& q == Some(p + spelled(s.picture()).len())
            &&& v.width == cropped_size((s.width + 1) * 16, (l + r) * unit_w)
            &&& v.height == cropped_size((s.height + 1) * 16 * fields, (t + m) * unit_h * fields)
            &&& v.frames_only == (if s.frames_only {
                1u8
            } else {
                0
            })
        }),
{
    let fs = s.picture();
    assert(fs.len() == 10);
    lemma_field(b, p, fs, 0);
    lemma_field(b, p, fs, 1);
    lemma_field(b, p, fs, 2);
    lemma_field(b, p, fs, 3);
    lemma_field(b, p, fs, 4);
    lemma_field(b, p, fs, 5);
    lemma_field(b, p, fs, 6);
    lemma_field(b, p, fs, 7);
    lemma_field(b, p, fs, 8);
    lemma_field(b, p, fs, 9);
}

#[verifier::spinoff_prover]
#[verifier::rlimit(80)]
proof fn lemma_avc_parts(b: Seq<u8>, s: AvcSet)
    requires
        holds(b, 0, spelled(s.fields())),
    ensures
        ({
            let p1 = spelled(s.front()).len();
            let p2 = p1 + spelled(s.picture()).len();
            &&& holds(b, 0, spelled(s.front()))
            &&& holds(b, p1, spelled(s.picture()))
            &&& bit(b, p2) == (
                Some(
                    if s.usability is Some {
                        1nat
                    } else {
                        0
                    },
                ),
                (p2 + 1) as nat,
            )
            &&& s.usability matches Some(u) ==> holds(b, p2 + 1, spelled(u.head())) && holds(
                b,
                p2 + 1 + spelled(u.head()).len(),
                spelled(u.clock()),
            )
        }),
{
    let behind = match s.usability {
        Some(u) => u.head() + u.clock(),
        None => Seq::empty(),
    };
    let one = seq![flag(s.usability is Some)];
    let on: nat = if s.usability is Some {
        1
    } else {
        0
    };
    let r2 = one + behind;
    let r1 = s.picture() + r2;
    lemma_spelled_adds(s.front(), r1);
    lemma_spelled_adds(s.picture(), r2);
    lemma_spelled_adds(one, behind);
    lemma_holds_parts(b, 0, spelled(s.front()), spelled(r1));
    let p1 = spelled(s.front()).len();
    lemma_holds_parts(b, p1, spelled(s.picture()), spelled(r2));
    let p2 = p1 + spelled(s.picture()).len();
    lemma_holds_parts(b, p2, spelled(one), spelled(behind));
    lemma2_to64();
    lemma_field(b, p2, one, 0);
    lemma_binary_len(on, 1);
    assert(one.drop_last() =~= Seq::empty());
    assert(spelled(one) =~= binary(on, 1)) by {
        reveal_with_fuel(spelled, 2);
    }
    if let Some(u) = s.usability {
        lemma_spelled_adds(u.head(), u.clock());
        lemma_holds_parts(b, p2 + 1, spelled(u.head()), spelled(u.clock()));
    }
}

/// What is read of an H.264 set.
#[verifier::opaque]
spec fn avc_read(s: AvcSet, v: SpsView) -> bool {
    let chroma = avc_chroma(s).0;
    let (l, r, t, m) = cut_off(s.window);
    let (unit_w, unit_h) = crop_unit(chroma);
    let fields: nat = if s.frames_only {
        1
    } else {
        2
    };
    &&& v.width == Some(cropped_size((s.width + 1) * 16, (l + r) * unit_w))
    &&& v.height == Some(cropped_size((s.height + 1) * 16 * fields, (t + m) * unit_h * fields))
    &&& v.pix_fmt == Some(pix_fmt_name(chroma, avc_chroma(s).1 + 8))
    &&& s.usability is None ==> v.framerate is None && v.color_transfer is None
    &&& s.usability matches Some(u) ==> v.framerate == frames(u, 2) && (u.transfer() is None ==> v.color_transfer is None)
        && (u.transfer() matches Some(t) ==> v.color_transfer == transfer_name(t))
    &&& avc_references(s, v)
}

/// Chroma format and depth less eight: those of 8 bits in 4:2:0 where the profile tells none.
pub open spec fn avc_chroma(s: AvcSet) -> (nat, nat) {
    if tells_chroma(s.profile) {
        (s.chroma, s.depth)
    } else {
        (1, 0)
    }
}

/// What slices refer to.
pub open spec fn avc_references(s: AvcSet, v: SpsView) -> bool {
    &&& v.seq_parameter_set_id == Some(s.id as u64)
    &&& v.num_ref_frames == Some(s.ref_frames as u64)
    &&& v.log2_max_frame_num_minus4 == Some(s.frame_num as u64)
    &&& v.pic_order_cnt_type == Some(s.order as u64)
    &&& s.order == 0 ==> v.log2_max_pic_order_cnt_lsb_minus4 == Some(s.order_lsb as u64)
    &&& s.order == 1 ==> v.delta_pic_order_always_zero_flag == Some(
        if s.order_fields.0 {
            1u8
        } else {
            0
        },
    )
    &&& v.frame_mbs_only_flag == Some(
        if s.frames_only {
            1u8
        } else {
            0
        },
    )
    &&& v.separate_colour_plane_flag == Some(
        if tells_chroma(s.profile) && s.chroma == 3 && s.planes {
            1u8
        } else {
            0
        },
    )
}

#[verifier::spinoff_prover]
#[verifier::rlimit(80)]
proof fn lemma_avc_set(b: Seq<u8>, s: AvcSet)
    requires
        holds(b, 0, spelled(s.fields())),
        s.fits(),
    ensures
        h264_sps(b) is Some,
        avc_read(s, h264_sps(b)->0),
{
    lemma_avc_parts(b, s);
    lemma_avc_front(b, s);
    lemma_avc_chroma(b, s);
    lemma_avc_order(b, s);
    let p1 = spelled(s.front()).len();
    let p2 = p1 + spelled(s.picture()).len();
    let chroma = avc_chroma(s).0;
    lemma_avc_picture(b, p1, s, chroma);
    if let Some(u) = s.usability {
        lemma_vui_head(b, p2 + 1, u);
        lemma_vui_rate(b, p2 + 1 + spelled(u.head()).len(), u, 2);
    }
    reveal(avc_read);
}

/// What an H.264 set tells: the size of the picture within its window, its pixels, its transfer
/// characteristic, its frame rate, of which a frame takes two ticks, and what slices refer to.
#[verifier::opaque]
pub open spec fn avc_told(s: AvcSet, v: SpsView) -> bool {
    let (l, r, t, m) = cut_off(s.window);
    let (across, down) = window_units(avc_chroma(s).0);
    let fields: nat = if s.frames_only {
        1
    } else {
        2
    };
    let (wide, high) = (16 * (s.width + 1), 16 * fields * (s.height + 1));
    &&& across * (l + r) <= wide <= u32::MAX ==> v.width == Some((wide - across * (l + r)) as u32)
    &&& down * fields * (t + m) <= high <= u32::MAX ==> v.height == Some((high - down * fields * (t + m)) as u32)
    &&& names_fit(avc_chroma(s).0, avc_chroma(s).1 + 8, v.pix_fmt)
    &&& s.usability is None ==> v.color_transfer is None && v.framerate is None
    &&& s.usability matches Some(u) ==> transfer_fits(u.transfer(), v.color_transfer) && v.framerate == frames(u, 2)
    &&& avc_references(s, v)
}

proof fn lemma_avc_told(s: AvcSet, v: SpsView)
    requires
        avc_read(s, v),
    ensures
        avc_told(s, v),
{
    reveal(avc_read);
    reveal(avc_told);
    let (l, r, t, m) = cut_off(s.window);
    let (across, down) = window_units(avc_chroma(s).0);
    let fields: nat = if s.frames_only {
        1
    } else {
        2
    };
    let (wide, high) = (16 * (s.width + 1), 16 * fields * (s.height + 1));
    assert((s.height + 1) * 16 * fields == high) by (nonlinear_arith)
        requires
            high == 16 * fields * (s.height + 1),
    ;
    assert((l + r) * across == across * (l + r)) by (nonlinear_arith);
    assert((t + m) * down * fields == down * fields * (t + m)) by (nonlinear_arith);
    if across * (l + r) <= wide <= u32::MAX {
        lemma_avc_size(wide, across * (l + r));
    }
    if down * fields * (t + m) <= high <= u32::MAX {
        lemma_avc_size(high, down * fields * (t + m));
    }
}

/// An H.264 set is read as it was written, whatever follows.
pub proof fn law_avc_sets_are_read_back(s: AvcSet, rest: Seq<bool>)
    requires
        s.fits(),
    ensures
        h264_sps(packed(spelled(s.fields()) + rest)) is Some,
        avc_told(s, h264_sps(packed(spelled(s.fields()) + rest))->0),
{
    let b = packed(spelled(s.fields()) + rest);
    lemma_packed(spelled(s.fields()) + rest);
    lemma_holds_parts(b, 0, spelled(s.fields()), rest);
    lemma_avc_set(b, s);
    lemma_avc_told(s, h264_sps(b)->0);
}

// --- Picture parameter sets and slices --------------------------------------------------------

/// An H.264 picture parameter set without slice groups, as an encoder fills it in.
pub struct PictureSet {
    pub id: nat,
    pub sps_id: nat,
    pub entropy: bool,
    pub bottom: bool,
    /// How many frames the two lists refer to, less one.
    pub l0: nat,
    pub l1: nat,
    pub weights: (bool, nat),
    /// Quantisers, as codes.
    pub quantisers: (nat, nat, nat),
    pub filters: (bool, bool),
    pub redundant: bool,
}

impl PictureSet {
    pub open spec fn fields(self) -> Seq<Field> {
        seq![
            code(self.id),
            code(self.sps_id),
            flag(self.entropy),
            flag(self.bottom),
            code(0),
            code(self.l0),
            code(self.l1),
            flag(self.weights.0),
            fixed(self.weights.1, 2),
            code(self.quantisers.0),
            code(self.quantisers.1),
            code(self.quantisers.2),
            flag(self.filters.0),
            flag(self.filters.1),
            flag(self.redundant),
        ]
    }
}

#[verifier::spinoff_prover]
#[verifier::rlimit(80)]
proof fn lemma_picture_set(b: Seq<u8>, s: PictureSet)
    requires
        holds(b, 0, spelled(s.fields())),
        fit(s.fields()),
    ensures
        h264_pps(b) matches Some(v) && {
            &&& v.pic_parameter_set_id == s.id
            &&& v.seq_parameter_set_id == s.sps_id
            &&& v.num_ref_idx_l0_default_active_minus1 == s.l0
            &&& v.num_ref_idx_l1_default_active_minus1 == s.l1
            &&& (v.bottom_field_pic_order_in_frame_present_flag == 1) == s.bottom
            &&& (v.redundant_pic_cnt_present_flag == 1) == s.redundant
        },
{
    let fs = s.fields();
    assert(fs.len() == 15);
    lemma_field(b, 0, fs, 0);
    lemma_field(b, 0, fs, 1);
    lemma_field(b, 0, fs, 2);
    lemma_field(b, 0, fs, 3);
    lemma_field(b, 0, fs, 4);
    lemma_field(b, 0, fs, 5);
    lemma_field(b, 0, fs, 6);
    lemma_field(b, 0, fs, 7);
    lemma_field(b, 0, fs, 8);
    lemma_field(b, 0, fs, 9);
    lemma_field(b, 0, fs, 10);
    lemma_field(b, 0, fs, 11);
    lemma_field(b, 0, fs, 12);
    lemma_field(b, 0, fs, 13);
    lemma_field(b, 0, fs, 14);
    assert(fs[0].fits() && fs[1].fits() && fs[5].fits() && fs[6].fits());
}

/// A picture parameter set is read as it was written, whatever follows.
pub proof fn law_picture_sets_are_read_back(s: PictureSet, rest: Seq<bool>)
    requires
        fit(s.fields()),
    ensures
        h264_pps(packed(spelled(s.fields()) + rest)) matches Some(v) && {
            &&& v.pic_parameter_set_id == s.id
            &&& v.seq_parameter_set_id == s.sps_id
            &&& v.num_ref_idx_l0_default_active_minus1 == s.l0
            &&& v.num_ref_idx_l1_default_active_minus1 == s.l1
            &&& (v.bottom_field_pic_order_in_frame_present_flag == 1) == s.bottom
            &&& (v.redundant_pic_cnt_present_flag == 1) == s.redundant
        },
{
    let b = packed(spelled(s.fields()) + rest);
    lemma_packed(spelled(s.fields()) + rest);
    lemma_holds_parts(b, 0, spelled(s.fields()), rest);
    lemma_picture_set(b, s);
}

/// The header of a slice, as an encoder fills it in.
pub struct SliceHeader {
    pub first: nat,
    pub kind: nat,
    pub pps_id: nat,
    pub plane: nat,
    pub frame_num: nat,
    /// The picture is a field, and whether it is the lower one.
    pub field: bool,
    pub lower: bool,
    pub idr: nat,
    /// The picture order count, its parts as codes.
    pub lsb: nat,
    pub deltas: (nat, nat),
    pub redundant: nat,
    pub direct: bool,
    /// How many frames the two lists refer to, less one, where the header says so itself.
    pub lists: Option<(nat, nat)>,
}

impl SliceHeader {
    /// A B slice has two lists.
    pub open spec fn two_lists(self) -> bool {
        self.kind % 5 == 1
    }

    /// P, B and SP slices refer to other frames; I and SI slices do not.
    pub open spec fn has_lists(self) -> bool {
        self.kind % 5 != 2 && self.kind % 5 != 4
    }

    #[verifier::opaque]
    pub open spec fn fields(self, sps: SpsView, pps: PpsInfo, nal_type: u8) -> Seq<Field> {
        let fields = sps.frame_mbs_only_flag == Some(0u8);
        let field = fields && self.field;
        let order = sps.pic_order_cnt_type;
        let lower = pps.bottom_field_pic_order_in_frame_present_flag == 1 && !field;
        let counted = order == Some(1u64) && sps.delta_pic_order_always_zero_flag == Some(0u8);
        let (l0, l1) = match self.lists {
            Some(l) => l,
            None => (0, 0),
        };
        let own = self.has_lists() && self.lists is Some;
        seq![
            code(self.first),
            code(self.kind),
            code(self.pps_id),
            given(sps.separate_colour_plane_flag == Some(1u8), fixed(self.plane, 2)),
            fixed(self.frame_num, (sps.log2_max_frame_num_minus4->0 + 4) as nat),
            given(fields, flag(self.field)),
            given(field, flag(self.lower)),
            given(nal_type == 5, code(self.idr)),
            given(order == Some(0u64), fixed(self.lsb, (sps.log2_max_pic_order_cnt_lsb_minus4->0 + 4) as nat)),
            given(order == Some(0u64) && lower, code(self.deltas.0)),
            given(counted, code(self.deltas.0)),
            given(counted && lower, code(self.deltas.1)),
            given(pps.redundant_pic_cnt_present_flag == 1, code(self.redundant)),
            given(self.two_lists(), flag(self.direct)),
            given(self.has_lists(), flag(self.lists is Some)),
            given(own, code(l0)),
            given(own && self.two_lists(), code(l1)),
        ]
    }

    /// How many frames the slice refers to: as many as the longer of its lists, by the header where it
    /// says so itself, or else by the picture parameter set; a B slice has two.
    pub open spec fn frames(self, pps: PpsInfo) -> nat {
        let (l0, l1) = match self.lists {
            Some(l) => l,
            None => (
                pps.num_ref_idx_l0_default_active_minus1 as nat,
                pps.num_ref_idx_l1_default_active_minus1 as nat,
            ),
        };
        if !self.has_lists() {
            0
        } else if self.two_lists() && l1 > l0 {
            l1 + 1
        } else {
            l0 + 1
        }
    }
}

/// The set says all that a slice goes by.
pub open spec fn complete(sps: SpsView) -> bool {
    &&& sps.num_ref_frames is Some
    &&& sps.log2_max_frame_num_minus4 is Some
    &&& sps.pic_order_cnt_type is Some
    &&& sps.pic_order_cnt_type == Some(0u64) ==> sps.log2_max_pic_order_cnt_lsb_minus4 is Some
    &&& sps.pic_order_cnt_type == Some(1u64) ==> sps.delta_pic_order_always_zero_flag is Some
    &&& sps.frame_mbs_only_flag matches Some(f) && f <= 1
    &&& sps.separate_colour_plane_flag matches Some(f) && f <= 1
}

#[verifier::spinoff_prover]
#[verifier::rlimit(80)]
proof fn lemma_slice_frame(b: Seq<u8>, h: SliceHeader, sps: SpsView, pps: PpsInfo, nal_type: u8)
    requires
        holds(b, 0, spelled(h.fields(sps, pps, nal_type))),
        fit(h.fields(sps, pps, nal_type)),
        complete(sps),
    ensures
        ({
            let fs = h.fields(sps, pps, nal_type);
            let (field, c) = slice_frame(b, Some(place(0, fs, 3)), sps, nal_type);
            &&& c == Some(place(0, fs, 8))
            &&& field == (if sps.frame_mbs_only_flag == Some(0u8) && h.field {
                1nat
            } else {
                0
            })
        }),
{
    reveal(SliceHeader::fields);
    let fs = h.fields(sps, pps, nal_type);
    assert(fs.len() == 17);
    lemma_field(b, 0, fs, 3);
    lemma_field(b, 0, fs, 4);
    lemma_field(b, 0, fs, 5);
    lemma_field(b, 0, fs, 6);
    lemma_field(b, 0, fs, 7);
}

#[verifier::spinoff_prover]
#[verifier::rlimit(80)]
proof fn lemma_slice_order(b: Seq<u8>, h: SliceHeader, sps: SpsView, pps: PpsInfo, nal_type: u8)
    requires
        holds(b, 0, spelled(h.fields(sps, pps, nal_type))),
        fit(h.fields(sps, pps, nal_type)),
        complete(sps),
    ensures
        ({
            let fs = h.fields(sps, pps, nal_type);
            let field = sps.frame_mbs_only_flag == Some(0u8) && h.field;
            slice_order(b, Some(place(0, fs, 8)), sps, pps.bottom_field_pic_order_in_frame_present_flag == 1 && !field) == Some(
                place(0, fs, 12),
            )
        }),
{
    reveal(SliceHeader::fields);
    let fs = h.fields(sps, pps, nal_type);
    assert(fs.len() == 17);
    lemma_field(b, 0, fs, 8);
    lemma_field(b, 0, fs, 9);
    lemma_field(b, 0, fs, 10);
    lemma_field(b, 0, fs, 11);
}

/// What is read where the lists of a slice stand.
#[verifier::spinoff_prover]
#[verifier::rlimit(80)]
proof fn lemma_slice_lists(b: Seq<u8>, h: SliceHeader, sps: SpsView, pps: PpsInfo, nal_type: u8)
    requires
        holds(b, 0, spelled(h.fields(sps, pps, nal_type))),
        fit(h.fields(sps, pps, nal_type)),
    ensures
        ({
            let fs = h.fields(sps, pps, nal_type);
            let (p, q, r) = (place(0, fs, 12), place(0, fs, 13), place(0, fs, 14));
            &&& pps.redundant_pic_cnt_present_flag == 1 ==> next_ue(b, Some(p)).1 == Some(q)
            &&& pps.redundant_pic_cnt_present_flag != 1 ==> p == q
            &&& h.two_lists() ==> next_bit(b, Some(q)).1 == Some(r)
            &&& !h.two_lists() ==> q == r
            &&& h.has_lists() ==> slice_refs(b, Some(r), pps, h.kind).1 is Some && slice_refs(b, Some(r), pps, h.kind).0 + 1
                == h.frames(pps)
        }),
{
    reveal(SliceHeader::fields);
    let fs = h.fields(sps, pps, nal_type);
    assert(fs.len() == 17);
    lemma_field(b, 0, fs, 12);
    lemma_field(b, 0, fs, 13);
    lemma_field(b, 0, fs, 14);
    lemma_field(b, 0, fs, 15);
    lemma_field(b, 0, fs, 16);
}

#[verifier::spinoff_prover]
#[verifier::rlimit(80)]
proof fn lemma_slice_body(b: Seq<u8>, h: SliceHeader, sps: SpsView, pps: PpsInfo, nal_type: u8)
    requires
        holds(b, 0, spelled(h.fields(sps, pps, nal_type))),
        fit(h.fields(sps, pps, nal_type)),
        complete(sps),
    ensures
        slice_body(
            b,
            place(0, h.fields(sps, pps, nal_type), 3),
            sps,
            pps,
            h.kind,
            nal_type,
            sps.num_ref_frames->0,
        ) == Some(h.frames(pps) > sps.num_ref_frames->0),
{
    let fs = h.fields(sps, pps, nal_type);
    lemma_slice_frame(b, h, sps, pps, nal_type);
    lemma_slice_order(b, h, sps, pps, nal_type);
    lemma_slice_lists(b, h, sps, pps, nal_type);
    assert(h.kind % 5 == 0 || h.kind % 5 == 1 || h.kind % 5 == 2 || h.kind % 5 == 3 || h.kind % 5 == 4);
}

proof fn lemma_slice_start(b: Seq<u8>, h: SliceHeader, sps: SpsView, pps: PpsInfo, nal_type: u8)
    requires
        holds(b, 0, spelled(h.fields(sps, pps, nal_type))),
        fit(h.fields(sps, pps, nal_type)),
    ensures
        ({
            let fs = h.fields(sps, pps, nal_type);
            &&& next_ue(b, Some(0)).1 == Some(place(0, fs, 1))
            &&& next_ue(b, Some(place(0, fs, 1))) == (h.kind, Some(place(0, fs, 2)))
            &&& next_ue(b, Some(place(0, fs, 2))) == (h.pps_id, Some(place(0, fs, 3)))
        }),
{
    reveal(SliceHeader::fields);
    let fs = h.fields(sps, pps, nal_type);
    assert(fs.len() == 17);
    lemma_field(b, 0, fs, 0);
    lemma_field(b, 0, fs, 1);
    lemma_field(b, 0, fs, 2);
}

/// A slice that refers to more frames than its sequence parameter set allows is found out, and one
/// that does not is cleared: by the sets that it names, and whatever follows.
pub proof fn law_slices_are_held_against_their_sets(
    h: SliceHeader,
    sps_set: Map<u64, SpsView>,
    pps_set: Map<u64, PpsInfo>,
    nal_type: u8,
    rest: Seq<bool>,
)
    requires
        h.pps_id <= u64::MAX,
        pps_set.contains_key(h.pps_id as u64),
        sps_set.contains_key(pps_set[h.pps_id as u64].seq_parameter_set_id),
        complete(sps_set[pps_set[h.pps_id as u64].seq_parameter_set_id]),
        fit(h.fields(sps_set[pps_set[h.pps_id as u64].seq_parameter_set_id], pps_set[h.pps_id as u64], nal_type)),
    ensures
        ({
            let pps = pps_set[h.pps_id as u64];
            let sps = sps_set[pps.seq_parameter_set_id];
            slice_excess(packed(spelled(h.fields(sps, pps, nal_type)) + rest), sps_set, pps_set, nal_type) == Some(
                h.frames(pps) > sps.num_ref_frames->0,
            )
        }),
{
    reveal(slice_excess);
    let pps = pps_set[h.pps_id as u64];
    let sps = sps_set[pps.seq_parameter_set_id];
    let fs = h.fields(sps, pps, nal_type);
    let b = packed(spelled(fs) + rest);
    lemma_packed(spelled(fs) + rest);
    lemma_holds_parts(b, 0, spelled(fs), rest);
    lemma_slice_start(b, h, sps, pps, nal_type);
    lemma_slice_body(b, h, sps, pps, nal_type);
}

} // verus!
