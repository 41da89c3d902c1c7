//! Steering: what the held direction keys do to an entity's velocity.
//!
//! Each held direction pushes the velocity by [`ACCELERATION`] along its
//! axis. A velocity faster than [`MAX_SPEED`] is then scaled down to that
//! speed, so that moving diagonally is no faster than moving along an axis.

use crate::entity::Entity;
use crate::units::{div_toward_zero, offset, saturate};
use vstd::prelude::*;

verus! {

/// Change of velocity per step and held direction: 15/128 of a tile.
pub const ACCELERATION: i64 = 0x1E00_0000;

/// Greatest speed that steering leaves an entity with: a quarter of a tile
/// per step.
pub const MAX_SPEED: i64 = 0x4000_0000;

/// The directions that are held during a step.
#[derive(Debug, Copy, Clone, PartialEq, Eq, Structural)]
pub struct Input {
    pub up: bool,
    pub down: bool,
    pub left: bool,
    pub right: bool,
}

/// Push along one axis: [`ACCELERATION`] for the held direction, nothing
/// where neither or both directions are held.
pub open spec fn push(backward: bool, forward: bool) -> int {
    (if forward {
        ACCELERATION as int
    } else {
        0
    }) - (if backward {
        ACCELERATION as int
    } else {
        0
    })
}

/// Square of the speed of the velocity `(dx, dy)`.
pub open spec fn speed_squared(dx: int, dy: int) -> int {
    dx * dx + dy * dy
}

/// Size of `d` without its sign.
pub open spec fn magnitude(d: int) -> int {
    if d >= 0 {
        d
    } else {
        -d
    }
}

/// Whether `root` is the square root of `n`, rounded up: the least natural
/// number whose square is at least `n`.
pub open spec fn is_root_above(n: int, root: int) -> bool {
    &&& 0 <= root
    &&& n <= root * root
    &&& root == 0 || (root - 1) * (root - 1) < n
}

/// The square root of `n`, rounded up.
pub open spec fn root_above(n: int) -> int {
    choose|root: int| is_root_above(n, root)
}

/// The velocity `(dx, dy)`, scaled down to [`MAX_SPEED`] where it is faster.
///
/// A component `d` of a velocity that is too fast becomes
/// `d * MAX_SPEED / speed`, with the speed rounded up and the quotient
/// rounded towards zero.
pub open spec fn clamped(dx: int, dy: int) -> (int, int) {
    if speed_squared(dx, dy) <= MAX_SPEED * MAX_SPEED {
        (dx, dy)
    } else {
        let speed = root_above(speed_squared(dx, dy));
        (div_toward_zero(dx * MAX_SPEED, speed), div_toward_zero(dy * MAX_SPEED, speed))
    }
}

/// The entity after one step of steering: pushed by the held directions,
/// then slowed down to [`MAX_SPEED`]. Up is the direction of falling `y`.
pub open spec fn steered(entity: Entity, input: Input) -> Entity {
    let dx = saturate(entity.dx + push(input.left, input.right));
    let dy = saturate(entity.dy + push(input.up, input.down));
    Entity { dx: clamped(dx, dy).0 as i64, dy: clamped(dx, dy).1 as i64, ..entity }
}

/// One step of steering: pushes the entity's velocity by the held
/// directions, then slows it down to [`MAX_SPEED`]. Opposite directions
/// cancel each other.
pub fn steer(entity: Entity, input: Input) -> (result: Entity)
    ensures
        result == steered(entity, input),
        speed_squared(result.dx as int, result.dy as int) <= MAX_SPEED * MAX_SPEED,
{
    let dx = offset(entity.dx, axis_push(input.left, input.right));
    let dy = offset(entity.dy, axis_push(input.up, input.down));
    let velocity = clamp_speed(dx, dy);
    Entity { dx: velocity.0, dy: velocity.1, ..entity }
}

fn axis_push(backward: bool, forward: bool) -> (d: i64)
    ensures
        d == push(backward, forward),
{
    if forward && !backward {
        ACCELERATION
    } else if backward && !forward {
        -ACCELERATION
    } else {
        0
    }
}

/// Scales the velocity `(dx, dy)` down to [`MAX_SPEED`] where it is faster,
/// and leaves it as it is where it is not.
pub fn clamp_speed(dx: i64, dy: i64) -> (velocity: (i64, i64))
    ensures
        (velocity.0 as int, velocity.1 as int) == clamped(dx as int, dy as int),
        speed_squared(velocity.0 as int, velocity.1 as int) <= MAX_SPEED * MAX_SPEED,
        speed_squared(dx as int, dy as int) > MAX_SPEED * MAX_SPEED ==> (MAX_SPEED - 3) * (MAX_SPEED
            - 3) <= speed_squared(velocity.0 as int, velocity.1 as int),
{
    proof {
        lemma_clamped_speed(dx as int, dy as int);
        if speed_squared(dx as int, dy as int) > MAX_SPEED * MAX_SPEED {
            lemma_clamped_speed_reached(dx as int, dy as int);
        }
    }
    let a = magnitude_of(dx);
    let b = magnitude_of(dy);
    assert(a * a <= 0x4000_0000_0000_0000_0000_0000_0000_0000 && a * a == dx * dx)
        by (nonlinear_arith)
        requires
            a == magnitude(dx as int),
            a <= 0x8000_0000_0000_0000,
    ;
    assert(b * b <= 0x4000_0000_0000_0000_0000_0000_0000_0000 && b * b == dy * dy)
        by (nonlinear_arith)
        requires
            b == magnitude(dy as int),
            b <= 0x8000_0000_0000_0000,
    ;
    let n = a * a + b * b;
    if n <= 0x1000_0000_0000_0000 {
        (dx, dy)
    } else {
        let speed = ceil_sqrt(n);
        proof {
            lemma_components_below_root(dx as int, dy as int, speed as int);
        }
        (scale(dx, speed), scale(dy, speed))
    }
}

fn scale(d: i64, speed: u128) -> (scaled: i64)
    requires
        0 < speed,
        magnitude(d as int) <= speed,
    ensures
        scaled == div_toward_zero(d * MAX_SPEED, speed as int),
{
    proof {
        lemma_scaled(d as int, speed as int);
    }
    let m = magnitude_of(d);
    assert(m * MAX_SPEED <= 0x2000_0000_0000_0000_0000_0000) by (nonlinear_arith)
        requires
            0 <= m <= 0x8000_0000_0000_0000,
            MAX_SPEED == 0x4000_0000,
    ;
    let quotient = (m * (MAX_SPEED as u128)) / speed;
    if d >= 0 {
        quotient as i64
    } else {
        -(quotient as i64)
    }
}

fn magnitude_of(d: i64) -> (m: u128)
    ensures
        m == magnitude(d as int),
        m <= 0x8000_0000_0000_0000,
{
    if d >= 0 {
        d as u128
    } else {
        (-(d as i128)) as u128
    }
}

/// The square root of `n`, rounded up.
pub fn ceil_sqrt(n: u128) -> (root: u128)
    ensures
        is_root_above(n as int, root as int),
        root == root_above(n as int),
        root <= 0x1_0000_0000_0000_0000,
{
    if n == 0 {
        proof {
            lemma_root_above_unique(0, 0);
        }
        return 0;
    }
    let mut low: u128 = 0;
    let mut high: u128 = 0x1_0000_0000_0000_0000;
    assert(n <= high * high) by (nonlinear_arith)
        requires
            high == 0x1_0000_0000_0000_0000,
            n <= u128::MAX,
    ;
    while high - low > 1
        invariant
            low < high <= 0x1_0000_0000_0000_0000,
            low * low < n <= high * high,
        decreases high - low,
    {
        let middle = low + (high - low) / 2;
        assert(middle * middle <= u128::MAX) by (nonlinear_arith)
            requires
                0 <= middle < 0x1_0000_0000_0000_0000,
        ;
        if middle * middle >= n {
            high = middle;
        } else {
            low = middle;
        }
    }
    proof {
        lemma_root_above_unique(n as int, high as int);
    }
    high
}

/// Opposite directions cancel: with both or neither direction held on each
/// axis, steering changes a velocity only by slowing it down to
/// [`MAX_SPEED`], and an entity at rest stays at rest.
pub proof fn lemma_opposite_directions_cancel(entity: Entity, input: Input)
    requires
        input.left == input.right,
        input.up == input.down,
    ensures
        steered(entity, input).dx == clamped(entity.dx as int, entity.dy as int).0,
        steered(entity, input).dy == clamped(entity.dx as int, entity.dy as int).1,
        entity.dx == 0 && entity.dy == 0 ==> steered(entity, input) == entity,
{
    lemma_clamped_speed(entity.dx as int, entity.dy as int);
}

/// Steering caps the speed: whatever is held, and however fast the entity
/// was, it is left no faster than [`MAX_SPEED`], the speed that one held
/// direction leads to.
pub proof fn lemma_steered_speed(entity: Entity, input: Input)
    ensures
        speed_squared(steered(entity, input).dx as int, steered(entity, input).dy as int)
            <= MAX_SPEED * MAX_SPEED,
{
    let dx = saturate(entity.dx + push(input.left, input.right));
    let dy = saturate(entity.dy + push(input.up, input.down));
    lemma_clamped_speed(dx, dy);
}


/// Steering never leaves a velocity faster than [`MAX_SPEED`]: whatever the
/// velocity, scaled down it is at most that fast, and a velocity that is not
/// too fast stays as it is.
pub proof fn lemma_clamped_speed(dx: int, dy: int)
    ensures
        speed_squared(clamped(dx, dy).0, clamped(dx, dy).1) <= MAX_SPEED * MAX_SPEED,
        magnitude(clamped(dx, dy).0) <= magnitude(dx),
        magnitude(clamped(dx, dy).1) <= magnitude(dy),
        speed_squared(dx, dy) <= MAX_SPEED * MAX_SPEED ==> clamped(dx, dy) == (dx, dy),
        speed_squared(dx, dy) > MAX_SPEED * MAX_SPEED ==> magnitude(clamped(dx, dy).0)
            <= MAX_SPEED && magnitude(clamped(dx, dy).1) <= MAX_SPEED,
{
    let n = speed_squared(dx, dy);
    if n > MAX_SPEED * MAX_SPEED {
        assert(0 < speed_squared(dx, dy));
        let speed = root_above(n);
        lemma_root_above(n);
        lemma_components_below_root(dx, dy, speed);
        lemma_scaled(dx, speed);
        lemma_scaled(dy, speed);
        let a = magnitude(dx);
        let b = magnitude(dy);
        let p = magnitude(clamped(dx, dy).0);
        let q = magnitude(clamped(dx, dy).1);
        let m = MAX_SPEED as int;
        assert(a * a + b * b == n) by (nonlinear_arith)
            requires
                a == magnitude(dx),
                b == magnitude(dy),
                n == dx * dx + dy * dy,
        ;
        lemma_square_ascends(p * speed, a * m);
        lemma_square_ascends(q * speed, b * m);
        let root_squared = speed * speed;
        assert((p * speed) * (p * speed) == (p * p) * root_squared) by (nonlinear_arith)
            requires
                root_squared == speed * speed,
        ;
        assert((q * speed) * (q * speed) == (q * q) * root_squared) by (nonlinear_arith)
            requires
                root_squared == speed * speed,
        ;
        assert((a * m) * (a * m) + (b * m) * (b * m) == n * (m * m)) by (nonlinear_arith)
            requires
                a * a + b * b == n,
        ;
        assert(n * (m * m) <= root_squared * (m * m)) by (nonlinear_arith)
            requires
                n <= root_squared,
                0 <= m * m,
        ;
        assert((p * p + q * q) * root_squared == (p * p) * root_squared + (q * q) * root_squared)
            by (nonlinear_arith);
        assert(p * p + q * q <= m * m) by (nonlinear_arith)
            requires
                (p * p + q * q) * root_squared <= root_squared * (m * m),
                0 < root_squared,
        ;
        assert(speed_squared(clamped(dx, dy).0, clamped(dx, dy).1) == p * p + q * q)
            by (nonlinear_arith)
            requires
                p == magnitude(clamped(dx, dy).0),
                q == magnitude(clamped(dx, dy).1),
        ;
        assert(p <= a) by (nonlinear_arith)
            requires
                p * speed <= a * m,
                0 <= p,
                0 <= a <= speed,
                0 < m < speed,
        ;
        assert(q <= b) by (nonlinear_arith)
            requires
                q * speed <= b * m,
                0 <= q,
                0 <= b <= speed,
                0 < m < speed,
        ;
    }
}

/// Scaling down reaches the greatest speed: a velocity that was too fast is
/// left less than three units slower than [`MAX_SPEED`]. What is missing is
/// the rounding of the speed and of the two components.
pub proof fn lemma_clamped_speed_reached(dx: int, dy: int)
    requires
        speed_squared(dx, dy) > MAX_SPEED * MAX_SPEED,
    ensures
        (MAX_SPEED - 3) * (MAX_SPEED - 3) <= speed_squared(clamped(dx, dy).0, clamped(dx, dy).1),
{
    let n = speed_squared(dx, dy);
    let speed = root_above(n);
    lemma_root_above(n);
    lemma_components_below_root(dx, dy, speed);
    lemma_scaled(dx, speed);
    lemma_scaled(dy, speed);
    lemma_clamped_speed(dx, dy);
    let a = magnitude(dx);
    let b = magnitude(dy);
    let p = magnitude(clamped(dx, dy).0);
    let q = magnitude(clamped(dx, dy).1);
    let m = MAX_SPEED as int;
    assert(a * a + b * b == n) by (nonlinear_arith)
        requires
            a == magnitude(dx),
            b == magnitude(dy),
            n == dx * dx + dy * dy,
    ;
    assert(speed_squared(clamped(dx, dy).0, clamped(dx, dy).1) == p * p + q * q)
        by (nonlinear_arith)
        requires
            p == magnitude(clamped(dx, dy).0),
            q == magnitude(clamped(dx, dy).1),
    ;
    // Rounded up by one, each component times the speed exceeds the exact product.
    assert(a * m < (p + 1) * speed && b * m < (q + 1) * speed) by (nonlinear_arith)
        requires
            0 < speed,
            p == (a * m) / speed,
            q == (b * m) / speed,
    ;
    let p_above = (p + 1) * speed;
    let q_above = (q + 1) * speed;
    assert(0 <= a * m && 0 <= b * m) by (nonlinear_arith)
        requires
            0 <= a,
            0 <= b,
            0 <= m,
    ;
    lemma_square_ascends(a * m, p_above);
    lemma_square_ascends(b * m, q_above);
    let root_squared = speed * speed;
    let sum = (p + 1) * (p + 1) + (q + 1) * (q + 1);
    assert(p_above * p_above + q_above * q_above == sum * root_squared) by (nonlinear_arith)
        requires
            p_above == (p + 1) * speed,
            q_above == (q + 1) * speed,
            root_squared == speed * speed,
            sum == (p + 1) * (p + 1) + (q + 1) * (q + 1),
    ;
    assert((a * m) * (a * m) + (b * m) * (b * m) == n * (m * m)) by (nonlinear_arith)
        requires
            a * a + b * b == n,
    ;
    // sum * speed^2 >= n * m^2 > (speed - 1)^2 * m^2
    let below = (speed - 1) * (speed - 1);
    assert(below * (m * m) < n * (m * m)) by (nonlinear_arith)
        requires
            below < n,
            0 < m * m,
    ;
    assert(below * (m * m) < sum * root_squared);
    // (speed - 1)^2 * m^2 >= (m^2 - 2m) * speed^2, as m < speed
    assert((m * m - 2 * m) * root_squared <= below * (m * m)) by (nonlinear_arith)
        requires
            0 < m < speed,
            root_squared == speed * speed,
            below == (speed - 1) * (speed - 1),
    ;
    assert(m * m - 2 * m < sum) by (nonlinear_arith)
        requires
            (m * m - 2 * m) * root_squared < sum * root_squared,
            0 < root_squared,
    ;
    // p + q is well below 2m - 5, as p^2 + q^2 <= m^2
    assert(p + q <= 2 * m - 5) by (nonlinear_arith)
        requires
            0 <= p <= m,
            0 <= q <= m,
            p * p + q * q <= m * m,
            m == 0x4000_0000,
    ;
    assert(sum == p * p + q * q + 2 * (p + q) + 2) by (nonlinear_arith)
        requires
            sum == (p + 1) * (p + 1) + (q + 1) * (q + 1),
    ;
    assert((m - 3) * (m - 3) == m * m - 6 * m + 9) by (nonlinear_arith);
}

/// A number has one square root rounded up.
pub proof fn lemma_root_above_unique(n: int, root: int)
    requires
        is_root_above(n, root),
    ensures
        root_above(n) == root,
{
    let other = root_above(n);
    assert(is_root_above(n, other));
    if other < root {
        lemma_square_ascends(other, root - 1);
    } else if root < other {
        lemma_square_ascends(root, other - 1);
    }
}

/// Every number has a square root rounded up.
pub proof fn lemma_root_above(n: int)
    ensures
        is_root_above(n, root_above(n)),
{
    lemma_root_exists_from(n, 0);
}

proof fn lemma_root_exists_from(n: int, candidate: int)
    requires
        0 <= candidate,
        candidate == 0 || (candidate - 1) * (candidate - 1) < n,
    ensures
        exists|root: int| is_root_above(n, root),
    decreases n - candidate,
{
    if n <= candidate * candidate {
        assert(is_root_above(n, candidate));
    } else {
        assert(candidate < n) by (nonlinear_arith)
            requires
                0 <= candidate,
                candidate * candidate < n,
        ;
        lemma_root_exists_from(n, candidate + 1);
    }
}

/// Neither component of a velocity is larger than its speed rounded up, and
/// a velocity faster than [`MAX_SPEED`] has a speed above it.
proof fn lemma_components_below_root(dx: int, dy: int, speed: int)
    requires
        is_root_above(speed_squared(dx, dy), speed),
    ensures
        magnitude(dx) <= speed,
        magnitude(dy) <= speed,
        speed_squared(dx, dy) > MAX_SPEED * MAX_SPEED ==> MAX_SPEED < speed,
{
    let a = magnitude(dx);
    let b = magnitude(dy);
    assert(a * a == dx * dx && b * b == dy * dy) by (nonlinear_arith)
        requires
            a == magnitude(dx),
            b == magnitude(dy),
    ;
    assert(0 <= a * a && 0 <= b * b) by (nonlinear_arith);
    if a > speed {
        lemma_square_ascends(speed + 1, a);
        assert((speed + 1) * (speed + 1) > speed * speed) by (nonlinear_arith)
            requires
                0 <= speed,
        ;
    }
    if b > speed {
        lemma_square_ascends(speed + 1, b);
        assert((speed + 1) * (speed + 1) > speed * speed) by (nonlinear_arith)
            requires
                0 <= speed,
        ;
    }
    if speed_squared(dx, dy) > MAX_SPEED * MAX_SPEED && speed <= MAX_SPEED {
        lemma_square_ascends(speed, MAX_SPEED as int);
    }
}

/// What scaling a component down does: with a speed that is no less than the
/// component, the result is no larger than [`MAX_SPEED`], and its product
/// with the speed no larger than that of the component with `MAX_SPEED`.
proof fn lemma_scaled(d: int, speed: int)
    requires
        0 < speed,
        magnitude(d) <= speed,
    ensures
        magnitude(div_toward_zero(d * MAX_SPEED, speed)) == (magnitude(d) * MAX_SPEED) / speed,
        magnitude(div_toward_zero(d * MAX_SPEED, speed)) <= MAX_SPEED,
        magnitude(div_toward_zero(d * MAX_SPEED, speed)) * speed <= magnitude(d) * MAX_SPEED,
{
    let m = magnitude(d);
    let product = m * MAX_SPEED;
    assert(0 <= product <= speed * MAX_SPEED) by (nonlinear_arith)
        requires
            0 <= m <= speed,
            product == m * MAX_SPEED,
    ;
    if d < 0 {
        assert(-(d * MAX_SPEED) == product) by (nonlinear_arith)
            requires
                product == (-d) * MAX_SPEED,
        ;
        assert(d * MAX_SPEED <= 0) by (nonlinear_arith)
            requires
                d < 0,
        ;
    } else {
        assert(d * MAX_SPEED >= 0) by (nonlinear_arith)
            requires
                d >= 0,
        ;
    }
    let quotient = product / speed;
    assert(0 <= quotient <= MAX_SPEED && quotient * speed <= product) by (nonlinear_arith)
        requires
            0 < speed,
            0 <= product <= speed * MAX_SPEED,
            quotient == product / speed,
    ;
    if d < 0 && product == 0 {
        assert(d * MAX_SPEED == 0);
    }
}

proof fn lemma_square_ascends(a: int, b: int)
    requires
        0 <= a <= b,
    ensures
        a * a <= b * b,
{
    assert(a * a <= b * b) by (nonlinear_arith)
        requires
            0 <= a <= b,
    ;
}

} // verus!
