use msdfont::vector::Vector2;

#[test]
fn vec_test() {
    let v1 = Vector2::new(1, 10);
    assert_eq!(v1.dot(v1), 101);
}

#[test]
fn vector_algebra() {
    let a = Vector2::new(3, 4);
    let b = Vector2::from((-2, 5));
    assert_eq!(a.add(b), Vector2::new(1, 9));
    assert_eq!(a.sub(b), Vector2::new(5, -1));
    assert_eq!(a.neg(), Vector2::new(-3, -4));
    assert_eq!(a.cross(b), 3 * 5 - 4 * (-2));
    assert_eq!(a.magnitude2(), 25);
    assert_eq!(a.magnitude(), 5);
    assert!(Vector2::new(0, 0).is_zero());
    assert!(!a.is_zero());
}
