//! Arithmetic for drawing a board as a grid of squares.

use crate::game::shape::Shape;
use vstd::arithmetic::div_mod::{lemma_fundamental_div_mod, lemma_mod_bound};
use vstd::prelude::*;

verus! {

/// The quotient of `a` by `b`, rounded toward zero.
pub open spec fn quotient(a: int, b: int) -> int
    recommends
        b != 0,
{
    if a >= 0 {
        a / b
    } else {
        -((-a) / b)
    }
}

/// The remainder that goes with `quotient`; it has the sign of `a`.
pub open spec fn remainder(a: int, b: int) -> int
    recommends
        b != 0,
{
    if a >= 0 {
        a % b
    } else {
        -((-a) % b)
    }
}

/// Quotient and remainder make up the number they came from, and the
/// remainder is nearer to zero than the divisor, on the side of `a`.
pub proof fn lemma_quotient_remainder(a: int, b: int)
    requires
        b != 0,
    ensures
        a == b * quotient(a, b) + remainder(a, b),
        a >= 0 ==> 0 <= remainder(a, b) && (remainder(a, b) < b || remainder(a, b) < -b),
        a < 0 ==> remainder(a, b) <= 0 && (-b < remainder(a, b) || b < remainder(a, b)),
        a >= 0 && b > 0 ==> 0 <= remainder(a, b) < b && quotient(a, b) >= 0,
{
    let n = if a >= 0 {
        a
    } else {
        -a
    };
    assert(0 <= n % b && (n % b < b || n % b < -b)) by (nonlinear_arith)
        requires
            b != 0,
    ;
    if a >= 0 {
        lemma_fundamental_div_mod(a, b);
        if b > 0 {
            lemma_mod_bound(a, b);
            assert(a / b >= 0) by (nonlinear_arith)
                requires
                    a >= 0,
                    b > 0,
            ;
        }
    } else {
        lemma_fundamental_div_mod(-a, b);
        assert(b * (-((-a) / b)) == -(b * ((-a) / b))) by (nonlinear_arith);
    }
}

/// The quotient is no further from zero than the number divided.
pub proof fn lemma_quotient_bound(a: int, b: int)
    requires
        b != 0,
    ensures
        a >= 0 ==> -a <= quotient(a, b) <= a,
        a < 0 ==> a <= quotient(a, b) <= -a,
{
    let n = if a >= 0 {
        a
    } else {
        -a
    };
    lemma_fundamental_div_mod(n, b);
    let q = n / b;
    let r = n % b;
    assert(0 <= r) by (nonlinear_arith)
        requires
            r == n % b,
            b != 0,
    ;
    assert(-n <= q <= n) by (nonlinear_arith)
        requires
            n == b * q + r,
            0 <= r,
            n >= 0,
            b != 0,
            r < b || r < -b,
    ;
}

/// The column and the row of square number `index` in a grid that is
/// `width` squares wide and numbered row by row from zero.
pub fn convert_index_to_cords(index: i32, width: i32) -> (r: (i32, i32))
    requires
        width != 0,
        !(index == i32::MIN && width == -1),
    ensures
        r.0 == remainder(index as int, width as int),
        r.1 == quotient(index as int, width as int),
        index == r.1 * width + r.0,
        index >= 0 && width > 0 ==> 0 <= r.0 < width && r.1 >= 0,
{
    let x = index % width;
    let y = index / width;
    proof {
        lemma_quotient_remainder(index as int, width as int);
        lemma_quotient_bound(index as int, width as int);
        assert(y * width == width * y) by (nonlinear_arith);
    }
    (x, y)
}

/// The colour of each tag, as red, green and blue.
pub open spec fn rgb_of(shape: Shape) -> (u8, u8, u8) {
    match shape {
        Shape::I => (0, 255, 255),
        Shape::O => (255, 255, 0),
        Shape::T => (128, 0, 128),
        Shape::J => (0, 255, 0),
        Shape::L => (255, 0, 0),
        Shape::S => (0, 0, 255),
        Shape::Z => (255, 127, 0),
    }
}

/// The colour in which a piece of the given tag is drawn.
pub fn shape_rgb(shape: Shape) -> (r: (u8, u8, u8))
    ensures
        r == rgb_of(shape),
{
    match shape {
        Shape::I => (0, 255, 255),
        Shape::O => (255, 255, 0),
        Shape::T => (128, 0, 128),
        Shape::J => (0, 255, 0),
        Shape::L => (255, 0, 0),
        Shape::S => (0, 0, 255),
        Shape::Z => (255, 127, 0),
    }
}

/// The colour of a square of the board: that of the piece on it, or grey
/// where there is none.
pub fn square_rgb(occupant: Option<Shape>) -> (r: (u8, u8, u8))
    ensures
        r == (match occupant {
            Some(shape) => rgb_of(shape),
            None => (127u8, 127u8, 127u8),
        }),
{
    match occupant {
        Some(shape) => shape_rgb(shape),
        None => (127, 127, 127),
    }
}

} // verus!
