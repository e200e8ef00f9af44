use zqtt::uid::UidGen;

#[test]
fn uid_starts_at_one_and_increments() {
    let mut g = UidGen::new();
    assert!(g.can_allocate());
    assert_eq!(g.allocate(), 1);
    assert_eq!(g.allocate(), 2);
    assert_eq!(g.allocate(), 3);
}
