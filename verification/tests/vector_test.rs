use sagume::vector::{Element, Vector};

fn magnitude(v: &Vector) -> f64 {
    (v.magnitude_squared() as f64).sqrt()
}

fn similarity(v: &Vector, other: &Vector) -> f64 {
    let m = magnitude(v);
    if m == 0.0 {
        0.0
    } else {
        v.dot(other) as f64 / m
    }
}

#[test]
fn test_magnitude() {
    let v = Vector::from(vec![4, 5, 6]);
    assert_eq!(magnitude(&v), 77.0f64.sqrt());
}

#[test]
fn test_dot() {
    let v1 = Vector::from(vec![1, 3, -5]);
    let v2 = Vector::from(vec![4, -2, -1]);
    assert_eq!(v1.dot(&v2), 3);
    assert_eq!(v2.dot(&v1), 3);
}

#[test]
fn test_similarity() {
    let v1 = Vector::from(vec![1, 3, -5]);
    let v2 = Vector::from(vec![4, -2, -1]);
    assert_eq!(similarity(&v1, &v2).floor(), 0.5f64.floor());
    assert_eq!(similarity(&v2, &v1).floor(), 0.5f64.floor());
}

#[test]
fn test_non_overlapping_vector() {
    let mut v1 = Vector::new();
    let mut v2 = Vector::new();
    v1.insert(0, 1);
    v2.insert(1, 1);

    assert_eq!(similarity(&v1, &v2), 0.0);
    assert_eq!(similarity(&v2, &v1), 0.0);
}

#[test]
fn test_empty_vector() {
    let v1 = Vector::from(vec![]);
    let v2 = Vector::from(vec![1]);
    assert_eq!(similarity(&v1, &v2), 0.0);
    assert_eq!(similarity(&v2, &v1), 0.0);
}

#[test]
fn insert_keeps_dimensions_in_order() {
    let mut v = Vector::new();
    v.insert(7, 70);
    v.insert(2, 20);
    v.insert(5, 50);
    assert_eq!(v.len(), 3);
    assert_eq!(v.element(0), Element { index: 2, value: 20 });
    assert_eq!(v.element(1), Element { index: 5, value: 50 });
    assert_eq!(v.element(2), Element { index: 7, value: 70 });
    assert_eq!(v.get(5), Some(50));
    assert_eq!(v.get(6), None);
}

#[test]
fn upsert_adds_to_a_held_value() {
    let mut v = Vector::new();
    v.upsert(3, 2);
    v.upsert(1, 5);
    v.upsert(3, 4);
    assert_eq!(v.len(), 2);
    assert_eq!(v.get(3), Some(6));
    assert_eq!(v.get(1), Some(5));
}

#[test]
fn upsert_stops_at_the_end_of_the_range() {
    let mut v = Vector::new();
    v.upsert(0, i32::MAX);
    v.upsert(0, 1);
    assert_eq!(v.get(0), Some(i32::MAX));
    v.upsert(1, i32::MIN);
    v.upsert(1, -1);
    assert_eq!(v.get(1), Some(i32::MIN));
}

#[test]
fn dot_joins_on_equal_dimensions() {
    let mut a = Vector::new();
    let mut b = Vector::new();
    a.insert(1, 2);
    a.insert(4, 3);
    a.insert(9, 5);
    b.insert(0, 7);
    b.insert(4, 11);
    b.insert(9, -1);
    b.insert(12, 100);
    assert_eq!(a.dot(&b), 3 * 11 - 5);
    assert_eq!(b.dot(&a), a.dot(&b));
}

#[test]
fn dot_of_extreme_values_does_not_overflow() {
    let a = Vector::from(vec![i32::MIN, i32::MIN, i32::MAX]);
    let expected = 2 * (i32::MIN as i128) * (i32::MIN as i128) + (i32::MAX as i128) * (i32::MAX as i128);
    assert_eq!(a.dot(&a), expected);
    assert_eq!(a.magnitude_squared(), expected);
}

#[test]
fn dot_with_itself_is_the_square_of_the_length() {
    let v = Vector::from(vec![3, -4]);
    assert_eq!(v.dot(&v), 25);
    assert_eq!(v.magnitude_squared(), 25);
    assert_eq!(similarity(&v, &v), magnitude(&v));
}

#[test]
fn similarity_divides_by_the_length_of_its_receiver() {
    let v1 = Vector::from(vec![3, 4]);
    let v2 = Vector::from(vec![1, 0]);
    assert_eq!(similarity(&v1, &v2), 3.0 / 5.0);
    assert_eq!(similarity(&v2, &v1), 3.0);
}

#[test]
fn no_similarity_exceeds_the_length_of_the_other_vector() {
    let v = Vector::from(vec![3, -4, 12]);
    let others = vec![
        Vector::from(vec![1, 1, 1]),
        Vector::from(vec![-7, 2]),
        Vector::from(vec![3, -4, 12]),
        Vector::from(vec![0, 0, 0, 5]),
    ];
    for w in others.iter() {
        let d = v.dot(w);
        assert!(d * d <= v.magnitude_squared() * w.magnitude_squared());
        assert!(similarity(&v, w) <= magnitude(w));
    }
}
