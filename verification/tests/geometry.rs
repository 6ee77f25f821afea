use slhack::geometry::{
    distance, distance_squared, distance_up, isqrt, lerp, mean3, Point3, Vector3,
};

#[test]
fn isqrt_rounds_down() {
    assert_eq!(isqrt(0), 0);
    assert_eq!(isqrt(1), 1);
    assert_eq!(isqrt(3), 1);
    assert_eq!(isqrt(4), 2);
    assert_eq!(isqrt(99), 9);
    assert_eq!(isqrt(100), 10);
    assert_eq!(isqrt(u128::MAX), u64::MAX);
    assert_eq!(isqrt(1u128 << 64), 1u64 << 32);
    assert_eq!(isqrt((1u128 << 64) - 1), (1u64 << 32) - 1);
}

#[test]
fn distances_are_exact_at_the_extremes() {
    let a = Point3::new(i32::MIN, i32::MIN, i32::MIN);
    let b = Point3::new(i32::MAX, i32::MAX, i32::MAX);
    let side = u32::MAX as u128;
    assert_eq!(distance_squared(&a, &b), 3 * side * side);
    assert_eq!(distance(&a, &b), 7439101571);
    assert_eq!(distance(&a, &a), 0);
}

#[test]
fn distance_of_a_right_triangle() {
    let a = Point3::new(0, 0, 0);
    let b = Point3::new(3, 4, 12);
    assert_eq!(distance_squared(&a, &b), 169);
    assert_eq!(distance(&a, &b), 13);
    assert_eq!(distance(&b, &a), 13);
    assert_eq!(distance(&a, &Point3::new(1, 1, 1)), 1);
}

#[test]
fn lerp_rounds_toward_the_start() {
    assert_eq!(lerp(0, 10, 1, 2), 5);
    assert_eq!(lerp(0, 10, 1, 3), 3);
    assert_eq!(lerp(10, 0, 1, 3), 7);
    assert_eq!(lerp(-10, 10, 0, 7), -10);
    assert_eq!(lerp(-10, 10, 7, 7), 10);
    assert_eq!(lerp(i32::MIN, i32::MAX, u64::MAX, u64::MAX), i32::MAX);
    assert_eq!(lerp(i32::MAX, i32::MIN, u64::MAX - 1, u64::MAX), i32::MIN + 1);
}

#[test]
fn points_and_vectors_lerp_per_coordinate() {
    let p = Point3::new(0, 100, -100).lerp(&Point3::new(10, 0, 100), 1, 4);
    assert_eq!(p, Point3::new(2, 75, -50));
    let v = Vector3::new(1, 1, 1).lerp(&Vector3::new(3, 5, 9), 1, 2);
    assert_eq!(v, Vector3::new(2, 3, 5));
}

#[test]
fn mean_of_three_rounds_toward_zero() {
    assert_eq!(mean3(1, 2, 3), 2);
    assert_eq!(mean3(1, 1, 2), 1);
    assert_eq!(mean3(-1, -1, -2), -1);
    assert_eq!(mean3(-7, 0, 0), -2);
    assert_eq!(mean3(i32::MAX, i32::MAX, i32::MAX), i32::MAX);
    assert_eq!(mean3(i32::MIN, i32::MIN, i32::MIN), i32::MIN);
}

#[test]
fn rounded_up_distance_is_least_upper_root() {
    let a = Point3::new(0, 0, 0);
    assert_eq!(distance_up(&a, &a), 0);
    assert_eq!(distance_up(&a, &Point3::new(3, 4, 12)), 13);
    assert_eq!(distance_up(&a, &Point3::new(3, 4, 13)), 14);
    assert_eq!(distance(&a, &Point3::new(3, 4, 13)), 13);
    assert_eq!(distance_up(&a, &Point3::new(1, 0, 0)), 1);
}
