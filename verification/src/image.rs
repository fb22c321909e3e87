//! The raster: a grid of quantized colors, stored row by row.

use vstd::prelude::*;
use vstd::arithmetic::div_mod::{
    lemma_basic_div, lemma_div_is_ordered, lemma_div_is_ordered_by_denominator,
    lemma_div_multiples_vanish, lemma_div_multiples_vanish_quotient, lemma_fundamental_div_mod,
    lemma_fundamental_div_mod_converse,
};
use vstd::arithmetic::power2::{
    pow2, lemma2_to64, lemma_pow2_adds, lemma_pow2_pos, lemma_pow2_strictly_increases,
    lemma_pow2_unfold,
};
use vstd::bits::lemma_u64_shr_is_div;
use vstd::std_specs::convert::FromSpecImpl;
use crate::scalar::Scalar;
use crate::vec3::Vec3;

verus! {

/// One pixel: three 8-bit channels.
#[derive(Copy, Clone, Debug, PartialEq, Eq, Structural)]
pub struct Color {
    pub r: u8,
    pub g: u8,
    pub b: u8,
}

/// The 24-bit significand of the single-precision number nearest to 255.99,
/// which is this significand divided by 2^16.
pub const SCALE_SIGNIFICAND: u64 = 0xFF_FD71;

/// `n / d` rounded to the nearest whole number, a tie going to the even one.
pub open spec fn round_half_even(n: nat, d: nat) -> nat {
    let q = n / d;
    let rest = n % d;
    if 2 * rest < d {
        q
    } else if 2 * rest > d {
        q + 1
    } else if q % 2 == 0 {
        q
    } else {
        q + 1
    }
}

/// The product of the significands of 255.99 and of `c`, rounded to 24 bits
/// as the machine rounds: to the nearest, a tie going to the even side. The
/// exact product of two 24-bit significands has 47 or 48 bits, of which the
/// last 23 or 24 are rounded away.
pub open spec fn rounded_product(c: Scalar) -> nat {
    let product = (SCALE_SIGNIFICAND * (0x80_0000 + c.fraction())) as nat;
    if product < 0x8000_0000_0000 {
        round_half_even(product, 0x80_0000) * 0x80_0000
    } else {
        round_half_even(product, 0x100_0000) * 0x100_0000
    }
}

/// The channel value of a number `c`: the single-precision product of
/// 255.99 and `c`, cut down to a whole number and held within 0 and 255.
///
/// A NaN, a negative number, zero and the numbers too small to have a full
/// significand give 0, and plus infinity gives 255. For any other `c`, with
/// exponent bits `e`, the machine's product is `rounded_product(c)` times
/// 2^(e - 166).
pub open spec fn spec_quantize(c: Scalar) -> u8 {
    if c.spec_is_nan() || c.is_negative() || c.exponent() == 0 {
        0
    } else if c.exponent() >= 166 {
        255
    } else {
        let whole = rounded_product(c) / pow2((166 - c.exponent()) as nat);
        if whole >= 255 {
            255
        } else {
            whole as u8
        }
    }
}

/// The channel value of `c`: as the machine computes `255.99 * c` in single
/// precision and turns the product into a byte, cutting off the fraction,
/// with 0 for a NaN or a negative product and 255 for one above 255.
#[verifier::when_used_as_spec(spec_quantize)]
pub fn quantize(c: Scalar) -> (byte: u8)
    ensures
        byte == spec_quantize(c),
{
    let bits: u32 = c.bits;
    let e: u32 = (bits >> 23) & 0xff;
    let f: u32 = bits & 0x7f_ffff;
    proof {
        assert((bits >> 23) & 0xff == (bits / 0x80_0000) % 0x100) by (bit_vector);
        assert(bits & 0x7f_ffff == bits % 0x80_0000) by (bit_vector);
        lemma2_to64();
    }
    if bits >= 0x8000_0000 || e == 0 || (e == 255 && f != 0) {
        return 0;
    }
    if e >= 166 {
        return 255;
    }
    let significand: u64 = 0x80_0000 + f as u64;
    let product: u64 = SCALE_SIGNIFICAND * significand;
    let dropped: u64 = if product < 0x8000_0000_0000 {
        23
    } else {
        24
    };
    let q: u64 = product >> dropped;
    let rest: u64 = if dropped == 23 {
        product & 0x7f_ffff
    } else {
        product & 0xff_ffff
    };
    let half: u64 = if dropped == 23 {
        0x40_0000
    } else {
        0x80_0000
    };
    proof {
        if dropped == 23 {
            assert(product >> 23 == product / 0x80_0000) by (bit_vector);
            assert(product & 0x7f_ffff == product % 0x80_0000) by (bit_vector);
        } else {
            assert(product >> 24 == product / 0x100_0000) by (bit_vector);
            assert(product & 0xff_ffff == product % 0x100_0000) by (bit_vector);
        }
        assert(q & 1 == q % 2) by (bit_vector);
    }
    let kept: u64 = if rest > half || (rest == half && q & 1 == 1) {
        q + 1
    } else {
        q
    };
    proof {
        assert(kept == round_half_even(product as nat, pow2(dropped as nat)));
        assert(rounded_product(c) == kept * pow2(dropped as nat));
        assert(0x80_0000 <= kept <= 0x100_0000);
        lemma_whole_part(kept as nat, dropped as nat, e as nat);
    }
    if e as u64 + dropped >= 166 {
        return 255;
    }
    let shift: u64 = 166 - dropped - e as u64;
    if shift > 24 {
        return 0;
    }
    proof {
        lemma_u64_shr_is_div(kept, shift);
    }
    let whole: u64 = kept >> shift;
    if whole >= 255 {
        255
    } else {
        whole as u8
    }
}

/// The whole part of `kept * 2^dropped * 2^(e - 166)`, for a significand
/// `kept` of 24 bits: large where `e + dropped` reaches 166, else `kept`
/// without its last `166 - dropped - e` bits, which is zero where those are
/// more than 24.
proof fn lemma_whole_part(kept: nat, dropped: nat, e: nat)
    requires
        0x80_0000 <= kept <= 0x100_0000,
        23 <= dropped <= 24,
        e < 166,
    ensures
        e + dropped >= 166 ==> kept * pow2(dropped) / pow2((166 - e) as nat) >= 0x80_0000,
        e + dropped < 166 ==> kept * pow2(dropped) / pow2((166 - e) as nat) == kept / pow2(
            (166 - dropped - e) as nat,
        ),
        e + dropped + 24 < 166 ==> kept / pow2((166 - dropped - e) as nat) == 0,
{
    let below = (166 - e) as nat;
    lemma_pow2_pos(dropped);
    lemma_pow2_pos(below);
    if e + dropped >= 166 {
        let extra = (dropped - below) as nat;
        lemma_pow2_adds(below, extra);
        lemma_pow2_pos(extra);
        let s = pow2(below);
        let t = pow2(extra);
        assert(kept * pow2(dropped) == s * (kept * t)) by (nonlinear_arith)
            requires
                pow2(dropped) == s * t,
        ;
        lemma_div_multiples_vanish((kept * t) as int, s as int);
        assert(kept * t >= kept) by (nonlinear_arith)
            requires
                t >= 1,
        ;
    } else {
        let shift = (166 - dropped - e) as nat;
        lemma_pow2_adds(dropped, shift);
        lemma_pow2_pos(shift);
        let d = pow2(dropped);
        let t = pow2(shift);
        lemma_div_multiples_vanish_quotient(d as int, kept as int, t as int);
        assert(kept * d == d * kept) by (nonlinear_arith);
        assert(pow2(below) == d * t);
        if shift > 24 {
            lemma2_to64();
            lemma_pow2_strictly_increases(24, shift);
            lemma_basic_div(kept as int, t as int);
        }
    }
}

/// Rounding keeps within one above the whole part of the quotient, and it
/// keeps the order.
proof fn lemma_round_half_even(n: nat, m: nat, d: nat)
    requires
        d > 0,
        n <= m,
    ensures
        n / d <= round_half_even(n, d) <= n / d + 1,
        round_half_even(n, d) <= round_half_even(m, d),
{
    let qn = n / d;
    let qm = m / d;
    lemma_fundamental_div_mod(n as int, d as int);
    lemma_fundamental_div_mod(m as int, d as int);
    lemma_div_is_ordered(n as int, m as int, d as int);
    if qn == qm {
        assert(n % d <= m % d);
    }
}

/// The rounded product lies between the products of 255.99's significand
/// with the smallest and with twice the smallest 24-bit significand, and it
/// grows with the fraction bits of `c`.
proof fn lemma_rounded_product(a: Scalar, b: Scalar)
    ensures
        SCALE_SIGNIFICAND * 0x80_0000 <= rounded_product(a) <= SCALE_SIGNIFICAND * 0x100_0000,
        a.fraction() <= b.fraction() ==> rounded_product(a) <= rounded_product(b),
{
    let pa = (SCALE_SIGNIFICAND * (0x80_0000 + a.fraction())) as nat;
    let pb = (SCALE_SIGNIFICAND * (0x80_0000 + b.fraction())) as nat;
    let low: nat = 0xFF_FD71 * 0x80_0000;
    let high: nat = 0xFF_FD71 * 0x100_0000;
    let middle: nat = 0x8000_0000_0000;
    assert(low <= pa < high);
    assert(low <= pb < high);
    lemma_bounds_of_rounding(pa);
    lemma_bounds_of_rounding(pb);
    if a.fraction() <= b.fraction() {
        assert(pa <= pb);
        if pa < middle && pb < middle {
            lemma_round_half_even(pa, pb, 0x80_0000);
        } else if pa >= middle && pb >= middle {
            lemma_round_half_even(pa, pb, 0x100_0000);
        }
    }
}

/// A product of 47 bits rounds to between the least product and 2^47, and
/// one of 48 bits to between 2^47 and the largest product.
proof fn lemma_bounds_of_rounding(p: nat)
    requires
        0xFF_FD71 * 0x80_0000 <= p < 0xFF_FD71 * 0x100_0000,
    ensures
        p < 0x8000_0000_0000 ==> 0xFF_FD71 * 0x80_0000 <= round_half_even(p, 0x80_0000)
            * 0x80_0000 <= 0x8000_0000_0000,
        p >= 0x8000_0000_0000 ==> 0x8000_0000_0000 <= round_half_even(p, 0x100_0000)
            * 0x100_0000 <= 0xFF_FD71 * 0x100_0000,
{
    if p < 0x8000_0000_0000 {
        let d: nat = 0x80_0000;
        lemma_round_half_even(p, p, d);
        lemma_div_is_ordered((0xFF_FD71 * d) as int, p as int, d as int);
        lemma_div_multiples_vanish(0xFF_FD71, d as int);
        lemma_div_is_ordered(p as int, (0x100_0000 * d - 1) as int, d as int);
        lemma_fundamental_div_mod_converse(
            (0x100_0000 * d - 1) as int,
            d as int,
            0xFF_FFFF,
            (d - 1) as int,
        );
    } else {
        let d: nat = 0x100_0000;
        lemma_round_half_even(p, p, d);
        lemma_div_is_ordered((0x80_0000 * d) as int, p as int, d as int);
        lemma_div_multiples_vanish(0x80_0000, d as int);
        lemma_div_is_ordered(p as int, (0xFF_FD71 * d - 1) as int, d as int);
        lemma_fundamental_div_mod_converse(
            (0xFF_FD71 * d - 1) as int,
            d as int,
            0xFF_FD70,
            (d - 1) as int,
        );
    }
}

/// A larger number never has a smaller channel value: from 0 for everything
/// up to zero the value climbs to 255 and stays there, without ever wrapping
/// around.
pub proof fn lemma_quantize_monotone(a: Scalar, b: Scalar)
    requires
        a.spec_le(b),
    ensures
        spec_quantize(a) <= spec_quantize(b),
{
    crate::scalar::lemma_magnitude_order(a, b);
    crate::scalar::lemma_magnitude_order(b, a);
    let ea = a.exponent();
    let eb = b.exponent();
    if !a.is_negative() && ea > 0 && eb < 166 {
        lemma_pow2_pos((ea - 1) as nat);
        assert(a.magnitude() > 0) by (nonlinear_arith)
            requires
                a.magnitude() == (0x80_0000 + a.fraction()) * pow2((ea - 1) as nat),
                pow2((ea - 1) as nat) > 0,
        ;
        assert(!b.is_negative());
        assert(a.bits % 0x8000_0000 <= b.bits % 0x8000_0000);
        assert(ea <= eb);
        lemma_rounded_product(a, b);
        lemma_rounded_product(b, a);
        let below_a = (166 - ea) as nat;
        let below_b = (166 - eb) as nat;
        lemma_pow2_pos(below_a);
        lemma_pow2_pos(below_b);
        if ea == eb {
            assert(a.fraction() <= b.fraction());
            lemma_div_is_ordered(
                rounded_product(a) as int,
                rounded_product(b) as int,
                pow2(below_a) as int,
            );
        } else {
            let s = pow2(below_b);
            let t = pow2((eb - ea) as nat);
            let low = (SCALE_SIGNIFICAND * 0x80_0000) as int;
            lemma_pow2_adds(below_b, (eb - ea) as nat);
            lemma_pow2_pos((eb - ea - 1) as nat);
            lemma_pow2_unfold((eb - ea) as nat);
            assert(2 * s <= s * t) by (nonlinear_arith)
                requires
                    t >= 2,
                    s >= 1,
            ;
            lemma_div_is_ordered(rounded_product(a) as int, 2 * low, pow2(below_a) as int);
            lemma_div_is_ordered_by_denominator(2 * low, (2 * s) as int, pow2(below_a) as int);
            lemma_div_multiples_vanish_quotient(2, low, s as int);
            lemma_div_is_ordered(low, rounded_product(b) as int, s as int);
        }
    }
}

/// A `width` by `height` grid of colors in row-major order: the pixel at
/// column `x` of row `y` is stored at position `x + y * width`.
#[derive(Debug, PartialEq)]
pub struct Image {
    pub width: u32,
    pub height: u32,
    pub pixels: Vec<Color>,
}

impl From<Vec3> for Color {
    /// The color of a vector whose components are the red, green and blue
    /// parts, each quantized by itself.
    fn from(col: Vec3) -> (color: Color) {
        Color { r: quantize(col.x), g: quantize(col.y), b: quantize(col.z) }
    }
}

impl FromSpecImpl<Vec3> for Color {
    open spec fn obeys_from_spec() -> bool {
        true
    }

    open spec fn from_spec(col: Vec3) -> Color {
        Color { r: spec_quantize(col.x), g: spec_quantize(col.y), b: spec_quantize(col.z) }
    }
}

impl Image {
    /// The grid holds exactly one color per cell, and every position fits
    /// in 32 bits.
    pub open spec fn wf(&self) -> bool {
        &&& self.pixels@.len() == self.width * self.height
        &&& self.width * self.height <= u32::MAX
    }

    /// Position of cell `(x, y)` in row-major order.
    pub open spec fn spec_index_of(&self, x: u32, y: u32) -> int {
        x + y * self.width
    }

    /// A raster filled with black.
    pub fn new(width: u32, height: u32) -> (image: Image)
        requires
            width * height <= u32::MAX,
        ensures
            image.width == width,
            image.height == height,
            image.pixels@ == Seq::new((width * height) as nat, |i: int| Color { r: 0, g: 0, b: 0 }),
            image.wf(),
    {
        Image::with_background(width, height, Color { r: 0, g: 0, b: 0 })
    }

    /// A raster with every cell set to `color`.
    pub fn with_background(width: u32, height: u32, color: Color) -> (image: Image)
        requires
            width * height <= u32::MAX,
        ensures
            image.width == width,
            image.height == height,
            image.pixels@ == Seq::new((width * height) as nat, |i: int| color),
            image.wf(),
    {
        let cells: usize = (width * height) as usize;
        let mut pixels: Vec<Color> = Vec::with_capacity(cells);
        let mut filled: usize = 0;
        while filled < cells
            invariant
                filled <= cells,
                pixels@ == Seq::new(filled as nat, |i: int| color),
            decreases cells - filled,
        {
            pixels.push(color);
            filled += 1;
        }
        Image { width, height, pixels }
    }

    pub fn width(self) -> (w: u32)
        ensures
            w == self.width,
    {
        self.width
    }

    pub fn height(self) -> (h: u32)
        ensures
            h == self.height,
    {
        self.height
    }

    /// Appends the raster to `handle` as plain text: the line `P3`, a line
    /// with width and height, the line `255`, then one line for each pixel
    /// with its three channel values, in the order in which they are stored.
    pub fn write_ppm(self, handle: &mut Vec<u8>) -> (status: i32)
        ensures
            status == 0,
            final(handle)@ == old(handle)@ + ppm_text(self.width, self.height, self.pixels@),
    {
        handle.push(80);
        handle.push(51);
        handle.push(10);
        push_decimal(handle, self.width);
        handle.push(32);
        push_decimal(handle, self.height);
        handle.push(10);
        push_decimal(handle, 255);
        handle.push(10);
        assert(handle@ == old(handle)@ + ppm_header(self.width, self.height));
        let n: usize = self.pixels.len();
        let mut i: usize = 0;
        while i < n
            invariant
                n == self.pixels@.len(),
                i <= n,
                handle@ == old(handle)@ + ppm_header(self.width, self.height) + pixel_lines(
                    self.pixels@.take(i as int),
                ),
            decreases n - i,
        {
            proof {
                assert(self.pixels@.take(i + 1).drop_last() == self.pixels@.take(i as int));
                assert(self.pixels@.take(i + 1).last() == self.pixels@[i as int]);
            }
            let pixel: Color = self.pixels[i];
            push_decimal(handle, pixel.r as u32);
            handle.push(32);
            push_decimal(handle, pixel.g as u32);
            handle.push(32);
            push_decimal(handle, pixel.b as u32);
            handle.push(10);
            i += 1;
        }
        proof {
            assert(self.pixels@.take(n as int) == self.pixels@);
        }
        0
    }

    /// The cell `(x, y)`, to be written; the other cells stay as they are.
    pub fn index_mut(&mut self, index: (u32, u32)) -> (color: &mut Color)
        requires
            old(self).wf(),
            index.0 < old(self).width,
            index.1 < old(self).height,
        ensures
            *color == old(self).pixels@[old(self).spec_index_of(index.0, index.1)],
            final(self).width == old(self).width,
            final(self).height == old(self).height,
            final(self).pixels@ == old(self).pixels@.update(
                old(self).spec_index_of(index.0, index.1),
                *final(color),
            ),
    {
        proof {
            lemma_index_in_range(self.width, self.height, index.0, index.1);
        }
        let at: usize = self.index_of(index.0, index.1);
        &mut self.pixels[at]
    }

    /// Position of cell `(x, y)` in `pixels`.
    pub fn index_of(&self, x: u32, y: u32) -> (index: usize)
        requires
            x + y * self.width <= u32::MAX,
        ensures
            index == self.spec_index_of(x, y),
    {
        (x + y * self.width) as usize
    }
}

/// The decimal digits of `n` as ASCII bytes, without leading zeros.
pub open spec fn decimal(n: nat) -> Seq<u8>
    decreases n,
{
    if n < 10 {
        seq![(48 + n) as u8]
    } else {
        decimal(n / 10).push((48 + n % 10) as u8)
    }
}

/// The number that a run of decimal digits stands for.
pub open spec fn decimal_value(digits: Seq<u8>) -> nat
    decreases digits.len(),
{
    if digits.len() == 0 {
        0
    } else {
        decimal_value(digits.drop_last()) * 10 + (digits.last() - 48) as nat
    }
}

/// The digits of a number are between one and as many as the number is
/// large, each is one of `0` to `9`, the first is `0` only for the number
/// zero, and together they stand for the number.
pub proof fn lemma_decimal(n: nat)
    ensures
        decimal(n).len() >= 1,
        forall|i: int| 0 <= i < decimal(n).len() ==> 48 <= #[trigger] decimal(n)[i] <= 57,
        decimal(n)[0] == 48 <==> n == 0,
        decimal_value(decimal(n)) == n,
    decreases n,
{
    if n >= 10 {
        lemma_decimal(n / 10);
        let front = decimal(n / 10);
        assert(decimal(n).drop_last() == front);
        assert(decimal(n).last() == (48 + n % 10) as u8);
        assert(decimal(n)[0] == front[0]);
    } else {
        assert(decimal(n).drop_last() == Seq::<u8>::empty());
        assert(decimal_value(Seq::<u8>::empty()) == 0);
    }
}

/// The three header lines: `P3`, width and height, and the largest channel
/// value.
pub open spec fn ppm_header(width: u32, height: u32) -> Seq<u8> {
    seq![80u8, 51u8, 10u8] + decimal(width as nat) + seq![32u8] + decimal(height as nat) + seq![10u8]
        + decimal(255) + seq![10u8]
}

/// The line of one pixel: its three channel values, separated by one space.
pub open spec fn pixel_line(c: Color) -> Seq<u8> {
    decimal(c.r as nat) + seq![32u8] + decimal(c.g as nat) + seq![32u8] + decimal(c.b as nat)
        + seq![10u8]
}

/// The lines of all pixels in the order given.
pub open spec fn pixel_lines(pixels: Seq<Color>) -> Seq<u8>
    decreases pixels.len(),
{
    if pixels.len() == 0 {
        Seq::empty()
    } else {
        pixel_lines(pixels.drop_last()) + pixel_line(pixels.last())
    }
}

/// The whole plain-text encoding of a raster.
pub open spec fn ppm_text(width: u32, height: u32, pixels: Seq<Color>) -> Seq<u8> {
    ppm_header(width, height) + pixel_lines(pixels)
}

/// A cell inside the grid has its position inside the grid's storage.
pub proof fn lemma_index_in_range(width: u32, height: u32, x: u32, y: u32)
    requires
        x < width,
        y < height,
    ensures
        0 <= x + y * width < width * height,
{
    assert(y * width + width <= height * width) by (nonlinear_arith)
        requires
            y + 1 <= height,
            0 <= width,
    ;
    assert(height * width == width * height) by (nonlinear_arith);
    assert(0 <= y * width) by (nonlinear_arith)
        requires
            0 <= y,
            0 <= width,
    ;
}

/// Two cells inside the grid that share a position are the same cell.
pub proof fn lemma_index_injective(width: u32, x1: u32, y1: u32, x2: u32, y2: u32)
    requires
        x1 < width,
        x2 < width,
        x1 + y1 * width == x2 + y2 * width,
    ensures
        x1 == x2,
        y1 == y2,
{
    assert(y1 == y2) by (nonlinear_arith)
        requires
            x1 < width,
            x2 < width,
            0 <= x1,
            0 <= x2,
            0 <= y1,
            0 <= y2,
            x1 + y1 * width == x2 + y2 * width,
    ;
}

/// Appends the decimal digits of `n`.
fn push_decimal(out: &mut Vec<u8>, n: u32)
    ensures
        final(out)@ == old(out)@ + decimal(n as nat),
    decreases n,
{
    if n >= 10 {
        push_decimal(out, n / 10);
    }
    out.push(48 + (n % 10) as u8);
}

impl core::ops::Index<(u32, u32)> for Image {
    type Output = Color;

    /// The color of cell `(x, y)`.
    fn index(&self, index: (u32, u32)) -> (color: &Color)
        ensures
            *color == self.pixels@[self.spec_index_of(index.0, index.1)],
    {
        proof {
            lemma_index_in_range(self.width, self.height, index.0, index.1);
        }
        let at: usize = self.index_of(index.0, index.1);
        &self.pixels[at]
    }
}

impl vstd::std_specs::core::IndexSpecImpl<(u32, u32)> for Image {
    open spec fn index_req(&self, index: &(u32, u32)) -> bool {
        self.wf() && index.0 < self.width && index.1 < self.height
    }
}

} // verus!
