//! Gradients: rows of colours that run in even steps from one colour to
//! another.

use vstd::prelude::*;
use vstd::arithmetic::div_mod::{
    lemma_div_is_ordered,
    lemma_div_multiples_vanish,
    lemma_fundamental_div_mod_converse,
};
use rand::rngs::ThreadRng;
use crate::color::Color;
use crate::random::{random_channel, shuffle_colors};

verus! {

/// The number of colours in the gradients that the game is played with.
pub const GRADIENT_LEN: usize = 10;

/// The channel value at position `i` of a row of `n` that runs from `a` at
/// position 0 to `b` at position `n - 1`. The division rounds down.
pub open spec fn lerp(a: int, b: int, i: int, n: int) -> int
    recommends
        n >= 2,
{
    a + ((b - a) * i) / (n - 1)
}

/// Whether `x` lies between `a` and `b`, the two included, whichever of them
/// is the larger.
pub open spec fn between(x: int, a: int, b: int) -> bool {
    (a <= x && x <= b) || (b <= x && x <= a)
}

/// Whether each channel of `c` lies between that channel of `first` and of
/// `last`.
pub open spec fn color_between(c: Color, first: Color, last: Color) -> bool {
    &&& between(c.red as int, first.red as int, last.red as int)
    &&& between(c.green as int, first.green as int, last.green as int)
    &&& between(c.blue as int, first.blue as int, last.blue as int)
    &&& between(c.alpha as int, first.alpha as int, last.alpha as int)
}

/// The colour at position `i` of the gradient of `n` colours from `first` to
/// `last`: each channel is interpolated by itself.
pub open spec fn blend(first: Color, last: Color, i: int, n: int) -> Color
    recommends
        n >= 2,
        0 <= i < n,
{
    Color {
        red: lerp(first.red as int, last.red as int, i, n) as u8,
        green: lerp(first.green as int, last.green as int, i, n) as u8,
        blue: lerp(first.blue as int, last.blue as int, i, n) as u8,
        alpha: lerp(first.alpha as int, last.alpha as int, i, n) as u8,
    }
}

/// The gradient of `n` colours from `first` to `last`.
pub open spec fn gradient(first: Color, last: Color, n: nat) -> Seq<Color>
    recommends
        n >= 2,
{
    Seq::new(n, |i: int| blend(first, last, i, n as int))
}

/// Whether `s` is the gradient between its own first and last colour.
pub open spec fn is_gradient(s: Seq<Color>) -> bool {
    s.len() >= 2 && s == gradient(s.first(), s.last(), s.len())
}

/// Whether every colour of `s` is opaque.
pub open spec fn all_opaque(s: Seq<Color>) -> bool {
    forall|i: int| 0 <= i < s.len() ==> (#[trigger] s[i]).is_opaque()
}

/// An interpolation starts at `a` and ends at `b`.
pub proof fn lemma_lerp_ends(a: int, b: int, n: int)
    requires
        n >= 2,
    ensures
        lerp(a, b, 0, n) == a,
        lerp(a, b, n - 1, n) == b,
{
    assert((b - a) * 0 == 0);
    assert(0int / (n - 1) == 0) by {
        lemma_div_multiples_vanish(0, n - 1);
        assert((n - 1) * 0 == 0);
    }
    assert(((b - a) * (n - 1)) / (n - 1) == b - a) by {
        lemma_div_multiples_vanish(b - a, n - 1);
        assert((n - 1) * (b - a) == (b - a) * (n - 1)) by (nonlinear_arith);
    }
}

/// An interpolation moves in one direction only: towards `b` as the position
/// grows.
pub proof fn lemma_lerp_monotonic(a: int, b: int, i: int, j: int, n: int)
    requires
        n >= 2,
        i <= j,
    ensures
        a <= b ==> lerp(a, b, i, n) <= lerp(a, b, j, n),
        a >= b ==> lerp(a, b, i, n) >= lerp(a, b, j, n),
{
    if a <= b {
        assert((b - a) * i <= (b - a) * j) by (nonlinear_arith)
            requires
                a <= b,
                i <= j,
        ;
        lemma_div_is_ordered((b - a) * i, (b - a) * j, n - 1);
    }
    if a >= b {
        assert((b - a) * j <= (b - a) * i) by (nonlinear_arith)
            requires
                a >= b,
                i <= j,
        ;
        lemma_div_is_ordered((b - a) * j, (b - a) * i, n - 1);
    }
}

/// An interpolation never leaves the span between its two ends.
pub proof fn lemma_lerp_between(a: int, b: int, i: int, n: int)
    requires
        n >= 2,
        0 <= i < n,
    ensures
        between(lerp(a, b, i, n), a, b),
{
    lemma_lerp_ends(a, b, n);
    lemma_lerp_monotonic(a, b, 0, i, n);
    lemma_lerp_monotonic(a, b, i, n - 1, n);
}

/// Every colour of a gradient lies, channel by channel, between the two
/// colours it was made from, and the gradient starts and ends with them.
pub proof fn lemma_gradient_between(first: Color, last: Color, n: nat)
    requires
        n >= 2,
    ensures
        gradient(first, last, n).len() == n,
        gradient(first, last, n).first() == first,
        gradient(first, last, n).last() == last,
        forall|i: int|
            0 <= i < n ==> color_between(
                #[trigger] gradient(first, last, n)[i],
                first,
                last,
            ),
{
    let g = gradient(first, last, n);
    assert forall|i: int| 0 <= i < n implies color_between(#[trigger] g[i], first, last) by {
        lemma_lerp_between(first.red as int, last.red as int, i, n as int);
        lemma_lerp_between(first.green as int, last.green as int, i, n as int);
        lemma_lerp_between(first.blue as int, last.blue as int, i, n as int);
        lemma_lerp_between(first.alpha as int, last.alpha as int, i, n as int);
    }
    lemma_lerp_ends(first.red as int, last.red as int, n as int);
    lemma_lerp_ends(first.green as int, last.green as int, n as int);
    lemma_lerp_ends(first.blue as int, last.blue as int, n as int);
    lemma_lerp_ends(first.alpha as int, last.alpha as int, n as int);
}

/// Along a gradient each channel only rises, or only falls.
pub proof fn lemma_gradient_monotonic(first: Color, last: Color, n: nat, i: int, j: int)
    requires
        n >= 2,
        0 <= i <= j < n,
    ensures
        between(
            gradient(first, last, n)[j].red as int,
            gradient(first, last, n)[i].red as int,
            last.red as int,
        ),
        between(
            gradient(first, last, n)[j].green as int,
            gradient(first, last, n)[i].green as int,
            last.green as int,
        ),
        between(
            gradient(first, last, n)[j].blue as int,
            gradient(first, last, n)[i].blue as int,
            last.blue as int,
        ),
        between(
            gradient(first, last, n)[j].alpha as int,
            gradient(first, last, n)[i].alpha as int,
            last.alpha as int,
        ),
{
    let m = n as int;
    lemma_gradient_between(first, last, n);
    lemma_lerp_between(first.red as int, last.red as int, i, m);
    lemma_lerp_between(first.red as int, last.red as int, j, m);
    lemma_lerp_monotonic(first.red as int, last.red as int, i, j, m);
    lemma_lerp_between(first.green as int, last.green as int, i, m);
    lemma_lerp_between(first.green as int, last.green as int, j, m);
    lemma_lerp_monotonic(first.green as int, last.green as int, i, j, m);
    lemma_lerp_between(first.blue as int, last.blue as int, i, m);
    lemma_lerp_between(first.blue as int, last.blue as int, j, m);
    lemma_lerp_monotonic(first.blue as int, last.blue as int, i, j, m);
    lemma_lerp_between(first.alpha as int, last.alpha as int, i, m);
    lemma_lerp_between(first.alpha as int, last.alpha as int, j, m);
    lemma_lerp_monotonic(first.alpha as int, last.alpha as int, i, j, m);
}

/// Rounding a negative quotient down is rounding its positive twin up.
proof fn lemma_floor_of_negative(x: int, m: int)
    requires
        x >= 0,
        m > 0,
    ensures
        (-x) / m == -((x + m - 1) / m),
{
    let q = (x + m - 1) / m;
    let r = (x + m - 1) % m;
    assert(x + m - 1 == q * m + r && 0 <= r < m) by (nonlinear_arith)
        requires
            m > 0,
            q == (x + m - 1) / m,
            r == (x + m - 1) % m,
    ;
    assert(-x == (-q) * m + (m - 1 - r)) by (nonlinear_arith)
        requires
            x + m - 1 == q * m + r,
    ;
    lemma_fundamental_div_mod_converse(-x, m, -q, m - 1 - r);
}

/// One channel of the colour at position `i` of `n`.
fn lerp_channel(a: u8, b: u8, i: usize, n: usize) -> (c: u8)
    requires
        n >= 2,
        i < n,
    ensures
        c as int == lerp(a as int, b as int, i as int, n as int),
{
    let steps: u128 = (n - 1) as u128;
    let pos: u128 = i as u128;
    proof {
        lemma_lerp_between(a as int, b as int, i as int, n as int);
    }
    if b >= a {
        let span: u128 = (b - a) as u128;
        assert(span * pos <= 255 * 0xffff_ffff_ffff_ffff) by (nonlinear_arith)
            requires
                span <= 255,
                pos <= 0xffff_ffff_ffff_ffff,
        ;
        let rise: u128 = (span * pos) / steps;
        assert((span * pos) as int == (b as int - a as int) * (i as int));
        a + (rise as u8)
    } else {
        let span: u128 = (a - b) as u128;
        assert(span * pos <= 255 * 0xffff_ffff_ffff_ffff) by (nonlinear_arith)
            requires
                span <= 255,
                pos <= 0xffff_ffff_ffff_ffff,
        ;
        let fall: u128 = (span * pos + (steps - 1)) / steps;
        proof {
            lemma_floor_of_negative((span * pos) as int, steps as int);
            assert(-((span * pos) as int) == (b as int - a as int) * (i as int))
                by (nonlinear_arith)
                requires
                    span as int == a as int - b as int,
                    pos as int == i as int,
                    (span * pos) as int == (span as int) * (pos as int),
            ;
        }
        a - (fall as u8)
    }
}

/// The colour at position `i` of the gradient of `n` colours from `first`
/// to `last`.
fn blend_at(first: Color, last: Color, i: usize, n: usize) -> (c: Color)
    requires
        n >= 2,
        i < n,
    ensures
        c == blend(first, last, i as int, n as int),
{
    Color {
        red: lerp_channel(first.red, last.red, i, n),
        green: lerp_channel(first.green, last.green, i, n),
        blue: lerp_channel(first.blue, last.blue, i, n),
        alpha: lerp_channel(first.alpha, last.alpha, i, n),
    }
}

/// The gradient of `n` colours that starts with `first` and ends with
/// `last`. The colour at position `i` has, in each channel, the value of
/// `first` plus `i` of the `n - 1` equal steps that lead to `last`, rounded
/// down.
pub fn gradient_between(first: Color, last: Color, n: usize) -> (g: Vec<Color>)
    requires
        n >= 2,
    ensures
        g@ == gradient(first, last, n as nat),
        is_gradient(g@),
        g@.len() == n,
        g@.first() == first,
        g@.last() == last,
        forall|i: int| 0 <= i < n ==> color_between(#[trigger] g@[i], first, last),
{
    let mut g: Vec<Color> = Vec::new();
    let mut i: usize = 0;
    while i < n
        invariant
            n >= 2,
            i <= n,
            g@.len() == i,
            forall|k: int| 0 <= k < i ==> g@[k] == blend(first, last, k, n as int),
        decreases n - i,
    {
        g.push(blend_at(first, last, i, n));
        i += 1;
    }
    proof {
        lemma_gradient_between(first, last, n as nat);
        assert(g@ =~= gradient(first, last, n as nat));
    }
    g
}

/// A colour drawn at random: red, green and blue are drawn one after the
/// other, and the colour is opaque.
fn random_color(rng: &mut ThreadRng) -> (c: Color)
    ensures
        c.is_opaque(),
{
    let red: u8 = random_channel(rng);
    let green: u8 = random_channel(rng);
    let blue: u8 = random_channel(rng);
    Color::opaque(red, green, blue)
}

/// A gradient of `n` colours between two opaque colours drawn at random.
pub fn random_gradient(n: usize) -> (g: Vec<Color>)
    requires
        n >= 2,
    ensures
        g@.len() == n,
        is_gradient(g@),
        all_opaque(g@),
        forall|i: int| 0 <= i < n ==> color_between(#[trigger] g@[i], g@.first(), g@.last()),
{
    let mut rng = rand::thread_rng();
    let first = random_color(&mut rng);
    let last = random_color(&mut rng);
    gradient_between(first, last, n)
}

/// A gradient of [`GRADIENT_LEN`] colours between two opaque colours drawn
/// at random.
pub fn generate_gradient() -> (g: Vec<Color>)
    ensures
        g@.len() == GRADIENT_LEN,
        is_gradient(g@),
        all_opaque(g@),
        forall|i: int|
            0 <= i < GRADIENT_LEN ==> color_between(#[trigger] g@[i], g@.first(), g@.last()),
{
    random_gradient(GRADIENT_LEN)
}

/// The colours of `s` between its first and its last: the only ones that
/// ever change places.
pub open spec fn interior(s: Seq<Color>) -> Seq<Color> {
    if s.len() >= 2 {
        s.subrange(1, s.len() - 1)
    } else {
        Seq::empty()
    }
}

/// Whether `a` is `b` with its interior in some other order: the two are
/// of one length, start with the same colour and end with the same colour,
/// and hold each colour as often in their interiors.
pub open spec fn is_arrangement(a: Seq<Color>, b: Seq<Color>) -> bool {
    &&& a.len() == b.len()
    &&& a.len() >= 1 ==> a.first() == b.first() && a.last() == b.last()
    &&& interior(a).to_multiset() == interior(b).to_multiset()
}

/// The colours of `g` from position `lo` up to, not including, `hi`.
fn copy_range(g: &Vec<Color>, lo: usize, hi: usize) -> (part: Vec<Color>)
    requires
        lo <= hi <= g@.len(),
    ensures
        part@ == g@.subrange(lo as int, hi as int),
{
    let mut part: Vec<Color> = Vec::new();
    let mut i: usize = lo;
    while i < hi
        invariant
            lo <= i <= hi <= g@.len(),
            part@ == g@.subrange(lo as int, i as int),
        decreases hi - i,
    {
        part.push(g[i]);
        i += 1;
        assert(part@ =~= g@.subrange(lo as int, i as int));
    }
    assert(part@ =~= g@.subrange(lo as int, hi as int));
    part
}

/// A copy of `g` with its interior in a random order. The first and the
/// last colour keep their places.
pub fn shuffled_gradient(g: &Vec<Color>) -> (shuffled: Vec<Color>)
    ensures
        is_arrangement(shuffled@, g@),
{
    let len = g.len();
    if len < 3 {
        let same = copy_range(g, 0, len);
        assert(same@ =~= g@);
        return same;
    }
    let mut inner = copy_range(g, 1, len - 1);
    let mut rng = rand::thread_rng();
    shuffle_colors(&mut inner, &mut rng);
    let mut shuffled: Vec<Color> = Vec::new();
    shuffled.push(g[0]);
    let mut i: usize = 0;
    while i < inner.len()
        invariant
            g@.len() >= 3,
            i <= inner@.len(),
            shuffled@ == seq![g@[0]] + inner@.subrange(0, i as int),
        decreases inner@.len() - i,
    {
        shuffled.push(inner[i]);
        i += 1;
        assert(shuffled@ =~= seq![g@[0]] + inner@.subrange(0, i as int));
    }
    shuffled.push(g[len - 1]);
    assert(interior(shuffled@) =~= inner@);
    shuffled
}

} // verus!
