use platformer::control::{ceil_sqrt, clamp_speed, steer, Input, ACCELERATION, MAX_SPEED};
use platformer::entity::{Entity, EntityType};
use platformer::units::UNITS_PER_TILE;

const NONE: Input = Input { up: false, down: false, left: false, right: false };

fn at_rest() -> Entity {
    Entity { entity_type: EntityType::Player, x: 17, y: -4, dx: 0, dy: 0 }
}

fn moving(dx: i64, dy: i64) -> Entity {
    Entity { entity_type: EntityType::Player, x: 17, y: -4, dx, dy }
}

fn speed_squared(entity: Entity) -> i128 {
    entity.dx as i128 * entity.dx as i128 + entity.dy as i128 * entity.dy as i128
}

#[test]
fn constants_in_tiles() {
    // 60 / 16 / 32 of a tile, and a quarter of a tile.
    assert_eq!(ACCELERATION as f64 / UNITS_PER_TILE as f64, 60.0 / 16.0 / 32.0);
    assert_eq!(MAX_SPEED as f64 / UNITS_PER_TILE as f64, 0.25);
    assert_eq!(ACCELERATION, 503_316_480);
    assert_eq!(MAX_SPEED, 1_073_741_824);
}

#[test]
fn ceil_sqrt_of_small_numbers() {
    let roots: Vec<u128> = [0u128, 1, 2, 3, 4, 5, 15, 16, 17].iter().map(|n| ceil_sqrt(*n)).collect();
    assert_eq!(roots, vec![0, 1, 2, 2, 2, 3, 4, 4, 5]);
}

#[test]
fn ceil_sqrt_of_large_numbers() {
    assert_eq!(ceil_sqrt(1 << 60), 1 << 30);
    assert_eq!(ceil_sqrt((1 << 60) + 1), (1 << 30) + 1);
    assert_eq!(ceil_sqrt((1 << 60) - 1), 1 << 30);
    assert_eq!(ceil_sqrt(1 << 127), 13_043_817_825_332_782_213);
    assert_eq!(ceil_sqrt(u128::MAX), 1 << 64);
}

#[test]
fn ceil_sqrt_is_the_least_root() {
    for n in 1..2000u128 {
        let root = ceil_sqrt(n);
        assert!(root * root >= n);
        assert!((root - 1) * (root - 1) < n);
    }
}

#[test]
fn clamp_leaves_a_slow_velocity() {
    assert_eq!(clamp_speed(0, 0), (0, 0));
    assert_eq!(clamp_speed(ACCELERATION, 0), (ACCELERATION, 0));
    assert_eq!(clamp_speed(ACCELERATION, -ACCELERATION), (ACCELERATION, -ACCELERATION));
    assert_eq!(clamp_speed(-5, 7), (-5, 7));
}

#[test]
fn clamp_leaves_a_velocity_at_the_threshold() {
    assert_eq!(clamp_speed(MAX_SPEED, 0), (MAX_SPEED, 0));
    assert_eq!(clamp_speed(0, -MAX_SPEED), (0, -MAX_SPEED));
}

#[test]
fn clamp_scales_a_fast_velocity_down_to_the_threshold() {
    assert_eq!(clamp_speed(MAX_SPEED + 1, 0), (MAX_SPEED, 0));
    assert_eq!(clamp_speed(0, -MAX_SPEED - 1), (0, -MAX_SPEED));
    assert_eq!(clamp_speed(-3 * ACCELERATION, 0), (-MAX_SPEED, 0));
    assert_eq!(clamp_speed(2 * ACCELERATION, 2 * ACCELERATION), (759_250_124, 759_250_124));
    assert_eq!(clamp_speed(2 * ACCELERATION, -2 * ACCELERATION), (759_250_124, -759_250_124));
    assert_eq!(clamp_speed(3 * ACCELERATION, ACCELERATION), (1_018_640_934, 339_546_978));
    assert_eq!(clamp_speed(MAX_SPEED, 1), (1_073_741_823, 0));
}

#[test]
fn clamp_takes_every_velocity() {
    assert_eq!(clamp_speed(i64::MIN, i64::MIN), (-759_250_124, -759_250_124));
    assert_eq!(clamp_speed(i64::MAX, i64::MAX), (759_250_124, 759_250_124));
    assert_eq!(clamp_speed(i64::MIN, 0), (-MAX_SPEED, 0));
    assert_eq!(clamp_speed(0, i64::MAX), (0, MAX_SPEED));
}

#[test]
fn clamp_never_leaves_more_than_the_threshold() {
    let limit = MAX_SPEED as i128 * MAX_SPEED as i128;
    let mut dx = -3 * MAX_SPEED;
    while dx <= 3 * MAX_SPEED {
        let mut dy = -3 * MAX_SPEED;
        while dy <= 3 * MAX_SPEED {
            let (cx, cy) = clamp_speed(dx, dy);
            assert!(speed_squared(moving(cx, cy)) <= limit);
            assert!(cx.abs() <= dx.abs() && cy.abs() <= dy.abs());
            assert!(cx.signum() * dx.signum() >= 0 && cy.signum() * dy.signum() >= 0);
            if speed_squared(moving(dx, dy)) <= limit {
                assert_eq!((cx, cy), (dx, dy));
            } else {
                let least = (MAX_SPEED - 3) as i128 * (MAX_SPEED - 3) as i128;
                assert!(speed_squared(moving(cx, cy)) >= least);
            }
            dy += 123_456_789;
        }
        dx += 98_765_432;
    }
}

#[test]
fn each_direction_pushes_along_its_axis() {
    let up = steer(at_rest(), Input { up: true, ..NONE });
    assert_eq!((up.dx, up.dy), (0, -ACCELERATION));
    let down = steer(at_rest(), Input { down: true, ..NONE });
    assert_eq!((down.dx, down.dy), (0, ACCELERATION));
    let left = steer(at_rest(), Input { left: true, ..NONE });
    assert_eq!((left.dx, left.dy), (-ACCELERATION, 0));
    let right = steer(at_rest(), Input { right: true, ..NONE });
    assert_eq!((right.dx, right.dy), (ACCELERATION, 0));
}

#[test]
fn steering_changes_only_the_velocity() {
    let steered = steer(at_rest(), Input { up: true, down: false, left: true, right: false });
    assert_eq!(steered.x, 17);
    assert_eq!(steered.y, -4);
    assert_eq!(steered.entity_type, EntityType::Player);
}

#[test]
fn no_direction_keeps_the_velocity() {
    assert_eq!(steer(at_rest(), NONE), at_rest());
    assert_eq!(steer(moving(1000, -2000), NONE), moving(1000, -2000));
}

#[test]
fn opposite_directions_cancel() {
    let both_ways = Input { up: false, down: false, left: true, right: true };
    assert_eq!(steer(at_rest(), both_ways), at_rest());
    let all = Input { up: true, down: true, left: true, right: true };
    assert_eq!(steer(at_rest(), all), at_rest());
    assert_eq!(steer(moving(-77, 99), all), moving(-77, 99));
    let up_and_down_and_left = Input { up: true, down: true, left: true, right: false };
    assert_eq!(steer(at_rest(), up_and_down_and_left), moving(-ACCELERATION, 0));
}

#[test]
fn one_held_direction_reaches_the_greatest_speed() {
    let right = Input { right: true, ..NONE };
    let mut entity = at_rest();
    let mut speeds = Vec::new();
    for _ in 0..5 {
        entity = steer(entity, right);
        speeds.push(entity.dx);
        assert_eq!(entity.dy, 0);
    }
    assert_eq!(speeds, vec![ACCELERATION, 2 * ACCELERATION, MAX_SPEED, MAX_SPEED, MAX_SPEED]);
}

#[test]
fn two_perpendicular_directions_are_no_faster_than_one() {
    let down_right = Input { up: false, down: true, left: false, right: true };
    let mut entity = at_rest();
    entity = steer(entity, down_right);
    assert_eq!((entity.dx, entity.dy), (ACCELERATION, ACCELERATION));
    for _ in 0..5 {
        entity = steer(entity, down_right);
        assert_eq!((entity.dx, entity.dy), (759_250_124, 759_250_124));
    }
    // The speed is the greatest speed, up to the rounding of the components.
    let speed = (speed_squared(entity) as f64).sqrt();
    assert!(speed <= MAX_SPEED as f64);
    assert!(speed > MAX_SPEED as f64 - 2.0);
    let sum_of_axes = 2.0 * MAX_SPEED as f64;
    assert!(speed < sum_of_axes / 1.9);
}

#[test]
fn steering_at_the_end_of_the_range() {
    let right = Input { right: true, ..NONE };
    assert_eq!(steer(moving(i64::MAX, 0), right), moving(MAX_SPEED, 0));
    let left = Input { left: true, ..NONE };
    assert_eq!(steer(moving(i64::MIN, 0), left), moving(-MAX_SPEED, 0));
    let up_left = Input { up: true, down: false, left: true, right: false };
    assert_eq!(steer(moving(i64::MIN, i64::MIN), up_left), moving(-759_250_124, -759_250_124));
}
