use qdb::catalog::{Catalog, Schema};

#[test]
fn catalog_it_works() {}

#[test]
fn tables_are_numbered_in_the_order_of_their_creation() {
    let mut c = Catalog::new();
    assert_eq!(c.create_table("movies", &Schema {}), Ok(0));
    assert_eq!(c.create_table("actors", &Schema {}), Ok(1));
    assert_eq!(c.create_table("roles", &Schema {}), Ok(2));
    let t = c.get_table("actors").unwrap();
    assert_eq!(t.name, "actors");
    assert_eq!(t.id, 1);
    assert_eq!(c.get_table("movies").unwrap().id, 0);
    assert!(c.get_table("Movies").is_none());
    assert!(c.get_table("").is_none());
}

#[test]
fn a_name_is_taken_once() {
    let mut c = Catalog::new();
    assert_eq!(c.create_table("movies", &Schema {}), Ok(0));
    assert_eq!(c.create_table("movies", &Schema {}), Err(""));
    assert_eq!(c.create_table("actors", &Schema {}), Ok(1));
    assert_eq!(c.get_table("movies").unwrap().id, 0);
}

#[test]
fn indices_are_not_kept() {
    let mut c = Catalog::new();
    c.create_table("movies", &Schema {}).unwrap();
    c.create_index("by_title", "movies");
    c.get_index("by_title", "movies");
    c.get_table_indices("movies");
    assert_eq!(c.get_table("movies").unwrap().id, 0);
    assert!(c.get_table("by_title").is_none());
}
