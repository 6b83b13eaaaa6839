//! The colour sequence of a segment sequence: each chunk of a registry is
//! given the colour of the source that owns it, and the sequence is resampled
//! to a fixed number of colours.
//!
//! All positions are exact fractions over `SEQUENCE_LENGTH`, and every
//! colour is rounded once, down, at the end.

use vstd::prelude::*;

verus! {

/// Side of the square image that a colour sequence fills.
pub const IMAGE_DIM: usize = 256;

/// Height, in pixels, of one row of blocks of the image.
pub const BLOCK_DIM: usize = 8;

/// The number of colours of a colour sequence.
pub const SEQUENCE_LENGTH: usize = 8192;

/// The number of colours of the palette.
pub const PALETTE_SIZE: usize = 32;

/// The palette, each colour as `0xRRGGBB`.
pub const PALETTE: [u32; 32] = [
    0x00ff00,
    0xff0000,
    0x0000ff,
    0xffff00,
    0xffa500,
    0x800080,
    0x00ffff,
    0xff00ff,
    0xc0c0c0,
    0x808080,
    0x800000,
    0x808000,
    0x008000,
    0x008080,
    0x000080,
    0xff69b4,
    0xff1493,
    0x4b0082,
    0xf0e68c,
    0xadd8e6,
    0xffb6c1,
    0x90ee90,
    0xffffe0,
    0x00ff7f,
    0x4682b4,
    0xd2691e,
    0xff4500,
    0xffe4b5,
    0xffdab9,
    0xfff0f5,
    0xfffacd,
    0xffe4e1,
];

/// A colour of three 8-bit channels.
#[derive(Clone, Copy, Debug, PartialEq, Eq, Structural)]
pub struct Rgb {
    pub r: u8,
    pub g: u8,
    pub b: u8,
}

/// One of the three channels of a colour.
#[derive(Clone, Copy, Debug, PartialEq, Eq, Structural)]
pub enum Channel {
    Red,
    Green,
    Blue,
}

/// The given channel of the palette colour of the source `owner`; sources
/// beyond the palette share its colours in turn.
pub open spec fn shade(owner: int, channel: Channel) -> int {
    let packed = PALETTE[owner % 32] as int;
    match channel {
        Channel::Red => (packed / 0x10000) % 0x100,
        Channel::Green => (packed / 0x100) % 0x100,
        Channel::Blue => packed % 0x100,
    }
}

/// The position `x`, or the last position of a sequence of `n` if `x` is
/// beyond it.
pub open spec fn capped(x: int, n: int) -> int {
    if x < n - 1 {
        x
    } else {
        n - 1
    }
}

/// The colour channel at the position `at + part / SEQUENCE_LENGTH` of the
/// segment sequence, times `SEQUENCE_LENGTH`: the colours of the two
/// segments next to the position, weighted by how near each is.
pub open spec fn sample(s: Seq<usize>, at: int, part: int, channel: Channel) -> int {
    let n = s.len() as int;
    (SEQUENCE_LENGTH - part) * shade(s[capped(at, n)] as int, channel) + part * shade(
        s[capped(at + 1, n)] as int,
        channel,
    )
}

/// The sum of the first `count` samples of a colour: they start at
/// `at + part / SEQUENCE_LENGTH` and lie one segment apart.
pub open spec fn sample_sum(s: Seq<usize>, at: int, part: int, count: int, channel: Channel) -> int
    decreases count,
{
    if count <= 0 {
        0
    } else {
        sample_sum(s, at, part, count - 1, channel) + sample(s, at + count - 1, part, channel)
    }
}

/// Where the samples of the colour `i` start: the whole and the fractional
/// part, in units of `1 / SEQUENCE_LENGTH`, of `i * n / SEQUENCE_LENGTH`,
/// moved back to the last segment if it lies beyond it.
pub open spec fn sample_start(n: int, i: int) -> (int, int) {
    let at = (i * n) / (SEQUENCE_LENGTH as int);
    let part = (i * n) % (SEQUENCE_LENGTH as int);
    if at > n - 1 || (at == n - 1 && part > 0) {
        (n - 1, 0)
    } else {
        (at, part)
    }
}

/// The number of samples of each colour: one for each whole segment that a
/// colour covers, and at least one.
pub open spec fn sample_count(n: int) -> int {
    (n + SEQUENCE_LENGTH - 1) / (SEQUENCE_LENGTH as int)
}

/// One channel of the colour `i` of the colour sequence of `s`: the mean of
/// its samples, rounded down.
pub open spec fn color_channel(s: Seq<usize>, i: int, channel: Channel) -> int {
    let n = s.len() as int;
    let start = sample_start(n, i);
    let count = sample_count(n);
    sample_sum(s, start.0, start.1, count, channel) / (SEQUENCE_LENGTH * count)
}

/// The colour `i` of the colour sequence of `s`.
pub open spec fn color_at(s: Seq<usize>, i: int) -> Rgb {
    Rgb {
        r: color_channel(s, i, Channel::Red) as u8,
        g: color_channel(s, i, Channel::Green) as u8,
        b: color_channel(s, i, Channel::Blue) as u8,
    }
}

/// A sample is at most the brightest shade times `SEQUENCE_LENGTH`.
pub proof fn lemma_sample_bounds(s: Seq<usize>, at: int, part: int, channel: Channel)
    requires
        0 <= part < SEQUENCE_LENGTH,
    ensures
        0 <= sample(s, at, part, channel) <= SEQUENCE_LENGTH * 255,
{
    let n = s.len() as int;
    let left = shade(s[capped(at, n)] as int, channel);
    let right = shade(s[capped(at + 1, n)] as int, channel);
    assert(0 <= left <= 255 && 0 <= right <= 255);
    assert(0 <= (SEQUENCE_LENGTH - part) * left + part * right <= SEQUENCE_LENGTH * 255)
        by (nonlinear_arith)
        requires
            0 <= part < SEQUENCE_LENGTH,
            0 <= left <= 255,
            0 <= right <= 255,
    ;
}

/// The given channel of the palette colour of the source `owner`.
fn shade_of(owner: usize, channel: Channel) -> (v: u128)
    ensures
        v == shade(owner as int, channel),
        v <= 255,
{
    let packed = PALETTE[owner % PALETTE_SIZE];
    let v = match channel {
        Channel::Red => (packed / 0x10000) % 0x100,
        Channel::Green => (packed / 0x100) % 0x100,
        Channel::Blue => packed % 0x100,
    };
    v as u128
}

/// The sample of one channel at the position `at + part / SEQUENCE_LENGTH`,
/// where `at` counts segments from the start of `s`.
fn sample_of(s: &[usize], at: u128, part: u128, channel: Channel) -> (v: u128)
    requires
        s@.len() > 0,
        at <= 2 * usize::MAX,
        part < SEQUENCE_LENGTH,
    ensures
        v == sample(s@, at as int, part as int, channel),
        v <= SEQUENCE_LENGTH * 255,
{
    let n = s.len();
    let last = n - 1;
    let left = if at < last as u128 {
        at as usize
    } else {
        last
    };
    let right = if at + 1 < last as u128 {
        (at + 1) as usize
    } else {
        last
    };
    proof {
        lemma_sample_bounds(s@, at as int, part as int, channel);
    }
    let l = shade_of(s[left], channel);
    let r = shade_of(s[right], channel);
    assert((SEQUENCE_LENGTH - part) * l <= SEQUENCE_LENGTH * 255 && part * r <= SEQUENCE_LENGTH
        * 255) by (nonlinear_arith)
        requires
            part < SEQUENCE_LENGTH,
            l <= 255,
            r <= 255,
    ;
    (SEQUENCE_LENGTH as u128 - part) * l + part * r
}

/// The mean, rounded down, of the `count` samples of one channel that start
/// at `at + part / SEQUENCE_LENGTH`.
fn mean_of(s: &[usize], at: usize, part: u128, count: usize, channel: Channel) -> (v: u8)
    requires
        s@.len() > 0,
        part < SEQUENCE_LENGTH,
        count >= 1,
    ensures
        v == sample_sum(s@, at as int, part as int, count as int, channel) / (SEQUENCE_LENGTH
            * count),
{
    let mut sum: u128 = 0;
    let mut k: usize = 0;
    while k < count
        invariant
            k <= count,
            s@.len() > 0,
            part < SEQUENCE_LENGTH,
            sum == sample_sum(s@, at as int, part as int, k as int, channel),
            sum <= k * (SEQUENCE_LENGTH * 255),
        decreases count - k,
    {
        let v = sample_of(s, at as u128 + k as u128, part, channel);
        assert((k + 1) * (SEQUENCE_LENGTH * 255) == k * (SEQUENCE_LENGTH * 255) + SEQUENCE_LENGTH
            * 255) by (nonlinear_arith);
        assert((k + 1) * (SEQUENCE_LENGTH * 255) <= usize::MAX * (SEQUENCE_LENGTH * 255))
            by (nonlinear_arith)
            requires
                k + 1 <= usize::MAX,
        ;
        sum = sum + v;
        k = k + 1;
    }
    let span = SEQUENCE_LENGTH as u128 * count as u128;
    assert(sum / span <= 255) by (nonlinear_arith)
        requires
            sum <= count * (SEQUENCE_LENGTH * 255),
            span == SEQUENCE_LENGTH * count,
            count >= 1,
    ;
    (sum / span) as u8
}

/// The colour sequence of the segment sequence `s`: `SEQUENCE_LENGTH`
/// colours, each the mean colour of the stretch of `s` that it stands for.
pub fn generate_color_sequence(s: &[usize]) -> (colors: Vec<Rgb>)
    requires
        s@.len() > 0,
    ensures
        colors@.len() == SEQUENCE_LENGTH,
        forall|i: int| 0 <= i < SEQUENCE_LENGTH ==> #[trigger] colors@[i] == color_at(s@, i),
{
    let n = s.len();
    let count: usize = n / SEQUENCE_LENGTH + if n % SEQUENCE_LENGTH == 0 {
        0
    } else {
        1
    };
    assert(count == sample_count(n as int));
    let mut colors: Vec<Rgb> = Vec::new();
    let mut i: usize = 0;
    while i < SEQUENCE_LENGTH
        invariant
            i <= SEQUENCE_LENGTH,
            n == s@.len(),
            n > 0,
            count >= 1,
            count == sample_count(n as int),
            colors@.len() == i,
            forall|k: int| 0 <= k < i ==> #[trigger] colors@[k] == color_at(s@, k),
        decreases SEQUENCE_LENGTH - i,
    {
        assert(i * n <= SEQUENCE_LENGTH * usize::MAX) by (nonlinear_arith)
            requires
                i < SEQUENCE_LENGTH,
                n <= usize::MAX,
        ;
        let scaled: u128 = i as u128 * n as u128;
        let whole: u128 = scaled / SEQUENCE_LENGTH as u128;
        let rest: u128 = scaled % SEQUENCE_LENGTH as u128;
        let last = n - 1;
        let behind = whole > last as u128 || (whole == last as u128 && rest > 0);
        let at: usize = if behind {
            last
        } else {
            whole as usize
        };
        let part: u128 = if behind {
            0
        } else {
            rest
        };
        assert(sample_start(n as int, i as int) == (at as int, part as int));
        let r = mean_of(s, at, part, count, Channel::Red);
        let g = mean_of(s, at, part, count, Channel::Green);
        let b = mean_of(s, at, part, count, Channel::Blue);
        colors.push(Rgb { r, g, b });
        i = i + 1;
    }
    colors
}

} // verus!
