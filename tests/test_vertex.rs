use mu_parity::vertex::Vertex;

#[test]
fn test_vertex_test_get_all_states() {
    let v = Vertex::new(1, 0, 1, Vec::<i64>::from([1, 2]));
    assert_eq!(v.identifier, 1);
    assert_eq!(v.priority, 0);
    assert_eq!(v.owner, 1);
    assert_eq!(v.successors, Vec::<i64>::from([1, 2]));
}
