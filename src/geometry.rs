use vstd::prelude::*;

verus! {

/// A circular piece on the plane. Coordinates and radius, like every
/// direction component and force in this crate, are fixed-point numbers:
/// an `i32` counting thousandths of a unit.
#[derive(Debug, Clone, Copy, PartialEq, Eq, Structural)]
pub struct Piece {
    /// Player slot, 0 or 1.
    pub owner: u8,
    pub x: i32,
    pub y: i32,
    pub radius: i32,
}

/// Why a move was not applied.
#[derive(Debug, Clone, Copy, PartialEq, Eq, Structural)]
pub enum Rejection {
    NotYourTurn,
    NonPositiveRadius,
    Overlap,
    ZeroDirection,
    IndexOutOfRange,
    NotOwner,
}

pub open spec fn sq(a: int) -> int {
    a * a
}

/// A circle at `(x, y)` with `radius` overlaps `p`: the distance between the
/// centers is strictly less than the sum of the radii. Both radii are
/// positive, so this is stated over squares.
pub open spec fn overlaps(p: Piece, x: int, y: int, radius: int) -> bool {
    sq(p.x - x) + sq(p.y - y) < sq(p.radius + radius)
}

/// Outcome of placing a circle among `pieces`.
pub open spec fn placement_check(pieces: Seq<Piece>, x: int, y: int, radius: int) -> Result<
    (),
    Rejection,
> {
    if radius <= 0 {
        Err(Rejection::NonPositiveRadius)
    } else if exists|i: int| 0 <= i < pieces.len() && overlaps(#[trigger] pieces[i], x, y, radius) {
        Err(Rejection::Overlap)
    } else {
        Ok(())
    }
}

/// `r` is the integer square root of `n`.
pub open spec fn is_isqrt(n: int, r: int) -> bool {
    0 <= r && r * r <= n < (r + 1) * (r + 1)
}

/// The integer square root (rounded down) of a non-negative integer.
pub open spec fn isqrt(n: int) -> int {
    choose|r: int| is_isqrt(n, r)
}

/// Length of a direction vector, in millionths of a unit.
pub open spec fn direction_length(dx: int, dy: int) -> int {
    isqrt((sq(dx) + sq(dy)) * 1_000_000)
}

/// Movement along one axis of a shot: `force * d / |direction|`, rounded
/// toward zero.
pub open spec fn shot_offset(d: int, force: int, len: int) -> int {
    let m = (if d * force < 0 { -(d * force) } else { d * force }) * 1000 / len;
    if d * force < 0 {
        -m
    } else {
        m
    }
}

/// A coordinate kept within the range of `i32`.
pub open spec fn clamp_coord(v: int) -> int {
    if v < i32::MIN {
        i32::MIN as int
    } else if v > i32::MAX {
        i32::MAX as int
    } else {
        v
    }
}

/// Outcome of shooting `p` in direction `(dx, dy)` with `force`. A direction
/// of zero length is refused: any other direction is at least a thousandth
/// of a unit long, so normalising it is always well defined.
pub open spec fn shot_check(p: Piece, dx: int, dy: int, force: int) -> Result<(int, int), Rejection> {
    if dx == 0 && dy == 0 {
        Err(Rejection::ZeroDirection)
    } else {
        let len = direction_length(dx, dy);
        Ok(
            (
                clamp_coord(p.x + shot_offset(dx, force, len)),
                clamp_coord(p.y + shot_offset(dy, force, len)),
            ),
        )
    }
}

proof fn lemma_isqrt_unique(n: int, r: int)
    requires
        is_isqrt(n, r),
    ensures
        isqrt(n) == r,
{
    let s = isqrt(n);
    assert(is_isqrt(n, s));
    if s < r {
        assert((s + 1) * (s + 1) <= r * r) by (nonlinear_arith)
            requires
                0 <= s,
                s + 1 <= r,
        ;
    } else if r < s {
        assert((r + 1) * (r + 1) <= s * s) by (nonlinear_arith)
            requires
                0 <= r,
                r + 1 <= s,
        ;
    }
}

/// Integer square root of `n`, rounded down.
pub fn integer_sqrt(n: u128) -> (r: u128)
    ensures
        is_isqrt(n as int, r as int),
        r as int == isqrt(n as int),
{
    let mut lo: u128 = 0;
    let mut hi: u128 = 0x1_0000_0000_0000_0000;
    assert(hi * hi == 0x1_0000_0000_0000_0000_0000_0000_0000_0000);
    while hi - lo > 1
        invariant
            lo < hi <= 0x1_0000_0000_0000_0000,
            lo * lo <= n,
            n < hi * hi,
        decreases hi - lo,
    {
        let mid = lo + (hi - lo) / 2;
        assert(mid * mid <= 0xffff_ffff_ffff_fffe_0000_0000_0000_0001) by (nonlinear_arith)
            requires
                mid <= 0xffff_ffff_ffff_ffff,
        ;
        if mid * mid <= n {
            lo = mid;
        } else {
            hi = mid;
        }
    }
    proof {
        lemma_isqrt_unique(n as int, lo as int);
    }
    lo
}

/// Checks that a circle may be placed among `pieces`: its radius must be
/// positive and it may touch but not overlap any existing piece.
pub fn validate_placement(pieces: &Vec<Piece>, x: i32, y: i32, radius: i32) -> (r: Result<
    (),
    Rejection,
>)
    ensures
        r == placement_check(pieces@, x as int, y as int, radius as int),
{
    if radius <= 0 {
        return Err(Rejection::NonPositiveRadius);
    }
    let mut i: usize = 0;
    while i < pieces.len()
        invariant
            0 <= i <= pieces@.len(),
            radius > 0,
            forall|j: int| 0 <= j < i ==> !overlaps(#[trigger] pieces@[j], x as int, y as int, radius as int),
        decreases pieces@.len() - i,
    {
        let p = pieces[i];
        let ddx: i128 = p.x as i128 - x as i128;
        let ddy: i128 = p.y as i128 - y as i128;
        let rs: i128 = p.radius as i128 + radius as i128;
        assert(0 <= ddx * ddx <= 0x1_0000_0000_0000_0000) by (nonlinear_arith)
            requires
                -0x1_0000_0000 <= ddx <= 0x1_0000_0000,
        ;
        assert(0 <= ddy * ddy <= 0x1_0000_0000_0000_0000) by (nonlinear_arith)
            requires
                -0x1_0000_0000 <= ddy <= 0x1_0000_0000,
        ;
        assert(0 <= rs * rs <= 0x1_0000_0000_0000_0000) by (nonlinear_arith)
            requires
                -0x1_0000_0000 <= rs <= 0x1_0000_0000,
        ;
        if ddx * ddx + ddy * ddy < rs * rs {
            assert(overlaps(pieces@[i as int], x as int, y as int, radius as int));
            return Err(Rejection::Overlap);
        }
        i += 1;
    }
    Ok(())
}

/// Magnitude-times-sign form of `shot_offset`, computed without overflow.
fn offset_along(d: i32, force: i32, len: u128) -> (r: i128)
    requires
        len > 0,
    ensures
        r as int == shot_offset(d as int, force as int, len as int),
        -0x100_0000_0000_0000_0000 <= r <= 0x100_0000_0000_0000_0000,
{
    let di: i128 = d as i128;
    let fi: i128 = force as i128;
    assert(-0x4000_0000_0000_0000 <= di * fi <= 0x4000_0000_0000_0000) by (nonlinear_arith)
        requires
            -0x8000_0000 <= di <= 0x7fff_ffff,
            -0x8000_0000 <= fi <= 0x7fff_ffff,
    ;
    let prod: i128 = di * fi;
    let mag: u128 = if prod < 0 { (-prod) as u128 } else { prod as u128 };
    let m: u128 = mag * 1000 / len;
    assert(m as int <= mag as int * 1000) by (nonlinear_arith)
        requires
            len > 0,
            m as int == (mag as int * 1000) / len as int,
    ;
    if prod < 0 {
        -(m as i128)
    } else {
        m as i128
    }
}

fn clamp_i32(v: i128) -> (r: i32)
    ensures
        r as int == clamp_coord(v as int),
{
    if v < i32::MIN as i128 {
        i32::MIN
    } else if v > i32::MAX as i128 {
        i32::MAX
    } else {
        v as i32
    }
}

/// Where a shot moves `piece`: its position plus the normalised direction
/// times `force`. Refused when the direction has zero length.
pub fn apply_shoot(piece: &Piece, dx: i32, dy: i32, force: i32) -> (r: Result<(i32, i32), Rejection>)
    ensures
        match r {
            Ok((nx, ny)) => shot_check(*piece, dx as int, dy as int, force as int) == Ok::<
                (int, int),
                Rejection,
            >((nx as int, ny as int)),
            Err(e) => shot_check(*piece, dx as int, dy as int, force as int) == Err::<
                (int, int),
                Rejection,
            >(e),
        },
{
    if dx == 0 && dy == 0 {
        return Err(Rejection::ZeroDirection);
    }
    let ax: u128 = if dx < 0 { (-(dx as i128)) as u128 } else { dx as u128 };
    let ay: u128 = if dy < 0 { (-(dy as i128)) as u128 } else { dy as u128 };
    assert(ax * ax <= 0x4000_0000_0000_0000 && ay * ay <= 0x4000_0000_0000_0000) by (nonlinear_arith)
        requires
            ax <= 0x8000_0000,
            ay <= 0x8000_0000,
    ;
    let s2: u128 = ax * ax + ay * ay;
    let n: u128 = s2 * 1_000_000;
    assert(sq(dx as int) == ax * ax && sq(dy as int) == ay * ay) by (nonlinear_arith)
        requires
            ax == dx || ax == -dx,
            ay == dy || ay == -dy,
    ;
    let len = integer_sqrt(n);
    assert(len > 0) by (nonlinear_arith)
        requires
            n == (ax * ax + ay * ay) * 1_000_000,
            ax > 0 || ay > 0,
            n < (len + 1) * (len + 1),
            len >= 0,
    ;
    let ox = offset_along(dx, force, len);
    let oy = offset_along(dy, force, len);
    let nx = clamp_i32(piece.x as i128 + ox);
    let ny = clamp_i32(piece.y as i128 + oy);
    Ok((nx, ny))
}

} // verus!
