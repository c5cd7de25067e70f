use rust_distributed_systems::course_name;

#[test]
fn exposes_course_name() {
    assert_eq!(course_name(), "rust-distributed-systems");
}
