use qdb::buffer_manager::BufferManager;
use qdb::hash_join::simple_hash_join;
use qdb::nested_loop_join::join;

#[test]
fn nested_loop_join_it_works() {}

#[test]
fn join_takes_a_fresh_output_page() {
    let mut mm = BufferManager::new(2);
    let out = join(&mut mm).unwrap();
    assert_eq!(out.page, 0);
    assert_eq!(out.frame, 0);
    assert!(out.write_back.is_none());
    assert_eq!(mm.pages_free(), 1);
    assert_eq!(mm.page(0).unwrap().pin_count, 1);
    assert!(join(&mut mm).is_some());
    assert!(join(&mut mm).is_none());
}

#[test]
fn simple_hash_join_reads_nothing() {
    simple_hash_join("no such file");
}
