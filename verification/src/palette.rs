//! Pseudo-color palettes.
//!
//! A palette assigns a color to each of the 256 levels. Most are given by formulas over binary64
//! values, which are evaluated exactly as written, rounding included.

use crate::double::{
    byte_of, double_add, double_div, double_mul, double_sub, fraction, integer, lemma_whole_within,
    minus, nearest_byte, over, plus, ratio, times, to_byte, to_nearest_byte, whole_double, within,
};
use crate::float::{whole, Double};
use crate::rounding::lemma_pow2_below;
use vstd::arithmetic::power2::{
    lemma2_to64, lemma2_to64_rest, lemma_pow2_adds, lemma_pow2_pos, pow2,
};
use vstd::prelude::*;

verus! {

/// A palette's colors: a red, green and blue part for each level.
pub type Lut = [[u8; 3]; 256];

/// A palette with the name it is shown by.
pub struct Palette {
    pub name: &'static str,
    pub lut: Lut,
}

/// The red, green and blue parts of a color, as integers.
pub struct Rgb {
    pub r: int,
    pub g: int,
    pub b: int,
}

/// Whether three bytes hold a color.
pub open spec fn is_color(bytes: [u8; 3], c: Rgb) -> bool {
    &&& bytes[0] == c.r
    &&& bytes[1] == c.g
    &&& bytes[2] == c.b
}

/// Whether a table holds the color that a formula gives for each level.
pub open spec fn follows(lut: Lut, formula: spec_fn(int) -> Rgb) -> bool {
    forall|i: int| 0 <= i < 256 ==> is_color(#[trigger] lut[i], formula(i))
}

/// The gray of a level.
pub open spec fn gray_color(i: int) -> Rgb {
    Rgb { r: i, g: i, b: i }
}

/// The gray of the opposite level.
pub open spec fn gray_inverted_color(i: int) -> Rgb {
    Rgb { r: 255 - i, g: 255 - i, b: 255 - i }
}

/// A level's place between 0 and 1.
pub open spec fn place(i: int) -> int {
    fraction(i, 255)
}

/// Black through purple, red and yellow to white, in four equal steps.
pub open spec fn ironbow_color(i: int) -> Rgb {
    let t = place(i);
    let quarter = fraction(1, 4);
    let full = whole_double(255);
    let (r, g, b) = if t < quarter {
        let u = double_div(t, quarter);
        (double_mul(u, whole_double(128)), 0, double_mul(u, whole_double(80)))
    } else if t < fraction(1, 2) {
        let u = double_div(double_sub(t, quarter), quarter);
        (
            double_add(whole_double(128), double_mul(u, whole_double(127))),
            double_mul(u, whole_double(128)),
            double_sub(whole_double(80), double_mul(u, whole_double(80))),
        )
    } else if t < fraction(3, 4) {
        let u = double_div(double_sub(t, fraction(1, 2)), quarter);
        (full, double_add(whole_double(128), double_mul(u, whole_double(127))), 0)
    } else {
        let u = double_div(double_sub(t, fraction(3, 4)), quarter);
        (full, full, double_mul(u, full))
    };
    Rgb { r: byte_of(r), g: byte_of(g), b: byte_of(b) }
}

/// The byte of `(t - start) * slope * 255`.
pub open spec fn ramp(t: int, start: int, slope: int) -> int {
    byte_of(double_mul(double_mul(double_sub(t, start), slope), whole_double(255)))
}

/// The byte of `t * slope * 255`.
pub open spec fn rise(t: int, slope: int) -> int {
    byte_of(double_mul(double_mul(t, slope), whole_double(255)))
}

/// Red first, then green, then blue.
pub open spec fn hot_iron_color(i: int) -> Rgb {
    let t = place(i);
    Rgb {
        r: rise(t, whole_double(2)),
        g: ramp(t, fraction(4, 10), fraction(5, 2)),
        b: ramp(t, fraction(7, 10), fraction(33, 10)),
    }
}

/// Blue fades to its half while green and then red rise.
pub open spec fn arctic_color(i: int) -> Rgb {
    let t = place(i);
    let fade = double_sub(whole_double(1), double_mul(t, fraction(1, 2)));
    Rgb {
        r: ramp(t, fraction(1, 2), whole_double(2)),
        g: rise(t, fraction(3, 2)),
        b: byte_of(double_mul(fade, whole_double(255))),
    }
}

/// The sixth of the color circle that a hue lies in, as a fraction.
pub open spec fn sextant(h_deg: int) -> int {
    double_div(h_deg % whole_double(360), whole_double(60))
}

/// The distance of a value from 1.
pub open spec fn from_one(v: int) -> int {
    let d = double_sub(v, whole_double(1));
    if d < 0 {
        -d
    } else {
        d
    }
}

/// The byte of a color part raised by `m`.
pub open spec fn raised(part: int, m: int) -> int {
    nearest_byte(double_mul(double_add(part, m), whole_double(255)))
}

/// The color of a hue in degrees, a saturation and a value.
pub open spec fn hsv_color(h_deg: int, s: int, v: int) -> Rgb {
    let h = sextant(h_deg);
    let c = double_mul(v, s);
    let x = double_mul(c, double_sub(whole_double(1), from_one(h % whole_double(2))));
    let m = double_sub(v, c);
    let k = whole(1074, h);
    let (r, g, b) = if k == 0 {
        (c, x, 0)
    } else if k == 1 {
        (x, c, 0)
    } else if k == 2 {
        (0, c, x)
    } else if k == 3 {
        (0, x, c)
    } else if k == 4 {
        (x, 0, c)
    } else {
        (c, 0, x)
    };
    Rgb { r: raised(r, m), g: raised(g, m), b: raised(b, m) }
}

/// The color circle, in steps of two degrees.
pub open spec fn rainbow_color(i: int) -> Rgb {
    let h_deg = double_mul(whole_double(i * 180 / 255), whole_double(2));
    hsv_color(h_deg, whole_double(1), whole_double(1))
}

/// The plain gray ramp.
fn gray() -> (lut: Lut)
    ensures
        follows(lut, |i: int| gray_color(i)),
{
    let mut lut: Lut = [[0u8; 3]; 256];
    let mut i: usize = 0;
    while i < 256
        invariant
            i <= 256,
            forall|j: int| 0 <= j < i ==> is_color(#[trigger] lut[j], gray_color(j)),
        decreases 256 - i,
    {
        lut[i] = [i as u8, i as u8, i as u8];
        i = i + 1;
    }
    lut
}

/// The gray ramp upside down.
fn gray_inverted() -> (lut: Lut)
    ensures
        follows(lut, |i: int| gray_inverted_color(i)),
{
    let mut lut: Lut = [[0u8; 3]; 256];
    let mut i: usize = 0;
    while i < 256
        invariant
            i <= 256,
            forall|j: int| 0 <= j < i ==> is_color(#[trigger] lut[j], gray_inverted_color(j)),
        decreases 256 - i,
    {
        let level: u8 = 255 - i as u8;
        lut[i] = [level, level, level];
        i = i + 1;
    }
    lut
}

/// A level's place between 0 and 1.
fn level_place(i: usize) -> (t: Double)
    requires
        i < 256,
    ensures
        t@ == place(i as int),
        within(t@, 1106),
{
    ratio(i as u32, 255)
}

/// The distance from `start` in quarters.
fn quarters_from(t: &Double, start: &Double) -> (u: Double)
    requires
        within(t@, 1106),
        within(start@, 1106),
    ensures
        u@ == double_div(double_sub(t@, start@), fraction(1, 4)),
        within(u@, 1139),
{
    let d = minus(t, start, Ghost(1106));
    let quarter = ratio(1, 4);
    over(&d, &quarter, Ghost(1107), Ghost(1042))
}

/// The color of a level in the iron bow palette.
fn ironbow_entry(i: usize) -> (c: [u8; 3])
    requires
        i < 256,
    ensures
        is_color(c, ironbow_color(i as int)),
{
    let t = level_place(i);
    let quarter = ratio(1, 4);
    let half = ratio(1, 2);
    let three_quarters = ratio(3, 4);
    let zero = integer(0);
    proof {
        assert(0 * pow2(1074) == 0);
        lemma_pow2_below(1106, 1171);
    }
    if t.lt(&quarter) {
        let u = over(&t, &quarter, Ghost(1106), Ghost(1042));
        let r = times(&u, &integer(128), Ghost(1138), Ghost(1106));
        let b = times(&u, &integer(80), Ghost(1138), Ghost(1106));
        [to_byte(&r), to_byte(&zero), to_byte(&b)]
    } else if t.lt(&half) {
        let u = quarters_from(&t, &quarter);
        let r_rise = times(&u, &integer(127), Ghost(1139), Ghost(1106));
        let r = plus(&integer(128), &r_rise, Ghost(1171));
        let g = times(&u, &integer(128), Ghost(1139), Ghost(1106));
        let b_fall = times(&u, &integer(80), Ghost(1139), Ghost(1106));
        let b = minus(&integer(80), &b_fall, Ghost(1171));
        [to_byte(&r), to_byte(&g), to_byte(&b)]
    } else if t.lt(&three_quarters) {
        let u = quarters_from(&t, &half);
        let g_rise = times(&u, &integer(127), Ghost(1139), Ghost(1106));
        let g = plus(&integer(128), &g_rise, Ghost(1171));
        [to_byte(&integer(255)), to_byte(&g), to_byte(&zero)]
    } else {
        let u = quarters_from(&t, &three_quarters);
        let full = integer(255);
        let b = times(&u, &full, Ghost(1139), Ghost(1106));
        [to_byte(&full), to_byte(&full), to_byte(&b)]
    }
}

/// Black through purple, red and yellow to white.
fn ironbow() -> (lut: Lut)
    ensures
        follows(lut, |i: int| ironbow_color(i)),
{
    let mut lut: Lut = [[0u8; 3]; 256];
    let mut i: usize = 0;
    while i < 256
        invariant
            i <= 256,
            forall|j: int| 0 <= j < i ==> is_color(#[trigger] lut[j], ironbow_color(j)),
        decreases 256 - i,
    {
        lut[i] = ironbow_entry(i);
        i = i + 1;
    }
    lut
}

/// The byte of `t * slope * 255`.
fn rising(t: &Double, slope: &Double) -> (b: u8)
    requires
        within(t@, 1107),
        within(slope@, 1106),
    ensures
        b == rise(t@, slope@),
{
    let s = times(t, slope, Ghost(1107), Ghost(1106));
    let v = times(&s, &integer(255), Ghost(1139), Ghost(1106));
    to_byte(&v)
}

/// The byte of `(t - start) * slope * 255`.
fn ramping(t: &Double, start: &Double, slope: &Double) -> (b: u8)
    requires
        within(t@, 1106),
        within(start@, 1106),
        within(slope@, 1106),
    ensures
        b == ramp(t@, start@, slope@),
{
    let d = minus(t, start, Ghost(1106));
    rising(&d, slope)
}

/// Red first, then green, then blue.
fn hot_iron() -> (lut: Lut)
    ensures
        follows(lut, |i: int| hot_iron_color(i)),
{
    let mut lut: Lut = [[0u8; 3]; 256];
    let mut i: usize = 0;
    while i < 256
        invariant
            i <= 256,
            forall|j: int| 0 <= j < i ==> is_color(#[trigger] lut[j], hot_iron_color(j)),
        decreases 256 - i,
    {
        let t = level_place(i);
        proof {
            lemma_pow2_below(1106, 1107);
        }
        let r: u8 = rising(&t, &integer(2));
        let g: u8 = ramping(&t, &ratio(4, 10), &ratio(5, 2));
        let b: u8 = ramping(&t, &ratio(7, 10), &ratio(33, 10));
        lut[i] = [r, g, b];
        i = i + 1;
    }
    lut
}

/// Blue to white.
fn arctic() -> (lut: Lut)
    ensures
        follows(lut, |i: int| arctic_color(i)),
{
    let mut lut: Lut = [[0u8; 3]; 256];
    let mut i: usize = 0;
    while i < 256
        invariant
            i <= 256,
            forall|j: int| 0 <= j < i ==> is_color(#[trigger] lut[j], arctic_color(j)),
        decreases 256 - i,
    {
        let t = level_place(i);
        let half = ratio(1, 2);
        proof {
            lemma_pow2_below(1106, 1107);
            lemma_pow2_below(1106, 1138);
        }
        let r: u8 = ramping(&t, &half, &integer(2));
        let g: u8 = rising(&t, &ratio(3, 2));
        let halved = times(&t, &half, Ghost(1106), Ghost(1106));
        let fade = minus(&integer(1), &halved, Ghost(1138));
        let blue = times(&fade, &integer(255), Ghost(1139), Ghost(1106));
        lut[i] = [r, g, to_byte(&blue)];
        i = i + 1;
    }
    lut
}

/// The byte of a color part raised by `m`.
fn raise(part: &Double, m: &Double) -> (b: u8)
    requires
        within(part@, 1077),
        within(m@, 1077),
    ensures
        b == raised(part@, m@),
{
    let sum = plus(part, m, Ghost(1077));
    let v = times(&sum, &integer(255), Ghost(1078), Ghost(1106));
    proof {
        lemma_pow2_below(1110, 1130);
    }
    to_nearest_byte(&v)
}

/// The color of a hue in degrees, a saturation and a value.
pub fn hsv_to_rgb(h_deg: &Double, s: &Double, v: &Double) -> (c: [u8; 3])
    requires
        0 <= h_deg@ < whole_double(0x10_0000_0000_0000),
        0 <= s@ <= whole_double(1),
        0 <= v@ <= whole_double(1),
    ensures
        is_color(c, hsv_color(h_deg@, s@, v@)),
{
    let ghost u = pow2(1074);
    proof {
        lemma2_to64();
        lemma2_to64_rest();
        lemma_pow2_pos(1074);
        lemma_pow2_adds(52, 1074);
        lemma_pow2_adds(63, 1074);
        lemma_pow2_adds(1, 1074);
        lemma_pow2_adds(32, 1074);
        assert(1 * u == u);
        assert(0 * u == 0);
        assert(h_deg@ < pow2(52) * u) by (nonlinear_arith)
            requires
                h_deg@ < 0x10_0000_0000_0000 * u,
                u > 0,
                pow2(52) == 0x10_0000_0000_0000,
        ;
    }
    let around = h_deg.modulo(360);
    proof {
        vstd::arithmetic::div_mod::lemma_mod_bound(h_deg@, 360 * u as int);
        assert(360 * u <= pow2(32) * u) by (nonlinear_arith)
            requires
                pow2(32) == 0x1_0000_0000,
        ;
        assert(around@ * u >= 0) by (nonlinear_arith)
            requires
                around@ >= 0,
        ;
        assert(60 * u >= 0);
    }
    let h = over(&around, &integer(60), Ghost(1106), Ghost(1074));
    proof {
        lemma_pow2_below(1106, 1126);
        assert(pow2(32) * u < pow2(52) * u) by (nonlinear_arith)
            requires
                pow2(32) < pow2(52),
                u > 0,
        ;
        assert(pow2(32) * u < pow2(63) * u) by (nonlinear_arith)
            requires
                pow2(32) < pow2(63),
                u > 0,
        ;
    }
    let k: u64 = h.floor();
    let wave = h.modulo(2);
    let one = integer(1);
    let zero = integer(0);
    proof {
        vstd::arithmetic::div_mod::lemma_mod_bound(h@, 2 * u as int);
        lemma_pow2_below(1074, 1075);
        lemma_pow2_below(1074, 1076);
        lemma_pow2_below(1074, 1077);
        lemma_pow2_below(1075, 1077);
    }
    let c = times(v, s, Ghost(1074), Ghost(1074));
    let d = minus(&wave, &one, Ghost(1075));
    let dist = if d.lt(&zero) {
        d.negated()
    } else {
        d
    };
    let rest = minus(&one, &dist, Ghost(1076));
    let x = times(&c, &rest, Ghost(1074), Ghost(1077));
    let m = minus(v, &c, Ghost(1074));
    if k == 0 {
        [raise(&c, &m), raise(&x, &m), raise(&zero, &m)]
    } else if k == 1 {
        [raise(&x, &m), raise(&c, &m), raise(&zero, &m)]
    } else if k == 2 {
        [raise(&zero, &m), raise(&c, &m), raise(&x, &m)]
    } else if k == 3 {
        [raise(&zero, &m), raise(&x, &m), raise(&c, &m)]
    } else if k == 4 {
        [raise(&x, &m), raise(&zero, &m), raise(&c, &m)]
    } else {
        [raise(&c, &m), raise(&zero, &m), raise(&x, &m)]
    }
}

/// The color circle, in steps of two degrees.
fn rainbow() -> (lut: Lut)
    ensures
        follows(lut, |i: int| rainbow_color(i)),
{
    let mut lut: Lut = [[0u8; 3]; 256];
    let mut i: usize = 0;
    while i < 256
        invariant
            i <= 256,
            forall|j: int| 0 <= j < i ==> is_color(#[trigger] lut[j], rainbow_color(j)),
        decreases 256 - i,
    {
        let n: u32 = i as u32 * 180 / 255;
        let one = integer(1);
        proof {
            let u = pow2(1074);
            lemma2_to64();
            lemma_pow2_pos(1074);
            lemma_pow2_adds(16, 1074);
            lemma_whole_within(n as int, 8);
            lemma_whole_within(2, 8);
            lemma_pow2_below(1090, 1090);
            assert(whole_double(0x1_0000) == pow2(1090));
            assert(1 * u == u);
            assert(n * u * (2 * u) >= 0) by (nonlinear_arith);
        }
        let h_deg = times(&integer(n), &integer(2), Ghost(1082), Ghost(1082));
        lut[i] = hsv_to_rgb(&h_deg, &one, &one);
        i = i + 1;
    }
    lut
}

/// All palettes, in the order of the keys 1 to 9. The last three are tables.
pub fn all(jet: &Lut, inferno: &Lut, turbo: &Lut) -> (palettes: Vec<Palette>)
    ensures
        palettes.len() == 9,
        palettes[0].name@ == "White Hot"@,
        follows(palettes[0].lut, |i: int| gray_color(i)),
        palettes[1].name@ == "Black Hot"@,
        follows(palettes[1].lut, |i: int| gray_inverted_color(i)),
        palettes[2].name@ == "Iron Bow"@,
        follows(palettes[2].lut, |i: int| ironbow_color(i)),
        palettes[3].name@ == "Hot Iron"@,
        follows(palettes[3].lut, |i: int| hot_iron_color(i)),
        palettes[4].name@ == "Rainbow"@,
        follows(palettes[4].lut, |i: int| rainbow_color(i)),
        palettes[5].name@ == "Arctic"@,
        follows(palettes[5].lut, |i: int| arctic_color(i)),
        palettes[6].name@ == "Jet"@,
        palettes[6].lut == *jet,
        palettes[7].name@ == "Inferno"@,
        palettes[7].lut == *inferno,
        palettes[8].name@ == "Turbo"@,
        palettes[8].lut == *turbo,
{
    vec![
        Palette { name: "White Hot", lut: gray() },
        Palette { name: "Black Hot", lut: gray_inverted() },
        Palette { name: "Iron Bow", lut: ironbow() },
        Palette { name: "Hot Iron", lut: hot_iron() },
        Palette { name: "Rainbow", lut: rainbow() },
        Palette { name: "Arctic", lut: arctic() },
        Palette { name: "Jet", lut: *jet },
        Palette { name: "Inferno", lut: *inferno },
        Palette { name: "Turbo", lut: *turbo },
    ]
}

/// The palette in use while the palette is switched off: plain gray.
pub fn grayscale() -> (lut: Lut)
    ensures
        follows(lut, |i: int| gray_color(i)),
{
    gray()
}

/// Black hot is white hot upside down.
pub proof fn lemma_black_hot_mirrors(white: Lut, black: Lut, i: int)
    requires
        follows(white, |j: int| gray_color(j)),
        follows(black, |j: int| gray_inverted_color(j)),
        0 <= i < 256,
    ensures
        black[i] == white[255 - i],
{
    let f = |j: int| gray_color(j);
    let g = |j: int| gray_inverted_color(j);
    assert(is_color(white[255 - i], f(255 - i)));
    assert(is_color(black[i], g(i)));
    assert(black[i]@ =~= white[255 - i]@);
}

/// Hues are angles: a full turn more makes no difference.
pub proof fn lemma_hue_turns(h_deg: int, s: int, v: int)
    ensures
        hsv_color(h_deg + 360 * pow2(1074), s, v) == hsv_color(h_deg, s, v),
{
    let turn = whole_double(360);
    lemma_pow2_pos(1074);
    assert(turn > 0) by (nonlinear_arith)
        requires
            turn == 360 * pow2(1074),
            pow2(1074) > 0,
    ;
    vstd::arithmetic::div_mod::lemma_mod_add_multiples_vanish(h_deg, turn);
    assert(turn + h_deg == h_deg + 360 * pow2(1074));
}

/// The color circle: from red over yellow, green, cyan, blue and magenta, one part is at the full
/// value in each sixth, one is at the least, and one moves between them.
pub proof fn lemma_hue_sixths(h_deg: int, s: int, v: int)
    ensures
        ({
            let u = pow2(1074) as int;
            let h = double_div(h_deg % (360 * u), 60 * u);
            let c = double_mul(v, s);
            let m = double_sub(v, c);
            let d = double_sub(h % (2 * u), u);
            let x = double_mul(c, double_sub(u, if d < 0 {
                -d
            } else {
                d
            }));
            let full = nearest_byte(double_mul(double_add(c, m), 255 * u));
            let least = nearest_byte(double_mul(double_add(0, m), 255 * u));
            let moving = nearest_byte(double_mul(double_add(x, m), 255 * u));
            let k = h / u;
            let color = hsv_color(h_deg, s, v);
            &&& k == 0 ==> color == (Rgb { r: full, g: moving, b: least })
            &&& k == 1 ==> color == (Rgb { r: moving, g: full, b: least })
            &&& k == 2 ==> color == (Rgb { r: least, g: full, b: moving })
            &&& k == 3 ==> color == (Rgb { r: least, g: moving, b: full })
            &&& k == 4 ==> color == (Rgb { r: moving, g: least, b: full })
            &&& k < 0 || k > 4 ==> color == (Rgb { r: full, g: least, b: moving })
        }),
{
    assert(1 * pow2(1074) == pow2(1074));
}

/// A table follows a formula if each of its entries has the three parts of the formula's color.
pub proof fn lemma_follows(lut: Lut, formula: spec_fn(int) -> Rgb, i: int)
    requires
        follows(lut, formula),
        0 <= i < 256,
    ensures
        lut@[i]@[0] == formula(i).r,
        lut@[i]@[1] == formula(i).g,
        lut@[i]@[2] == formula(i).b,
{
    assert(is_color(lut[i], formula(i)));
}

} // verus!
