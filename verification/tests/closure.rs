use makegen::closure::{
    complementary_file, flatten_dependencies, get_all_file_dependencies,
};
use makegen::graph::DependencyMap;

fn graph(units: &[(&str, &[&str], bool)]) -> DependencyMap {
    let mut map = DependencyMap::new();
    for (path, includes, has_main) in units {
        map.insert(
            path.to_string(),
            includes.iter().map(|s| s.to_string()).collect(),
            *has_main,
        );
    }
    map
}

#[test]
fn a_file_depends_on_itself_first() {
    let map = graph(&[("main.c", &[], true)]);
    assert_eq!(get_all_file_dependencies("main.c", "c", &map), vec!["main.c"]);
}

#[test]
fn a_file_outside_the_graph_depends_on_nothing() {
    let map = graph(&[("main.c", &[], true)]);
    assert!(get_all_file_dependencies("other.c", "c", &map).is_empty());
}

#[test]
fn the_source_beside_a_header_is_pulled_in() {
    let map = graph(&[
        ("main.c", &["foo.h"], true),
        ("foo.h", &[], false),
        ("foo.c", &[], false),
    ]);
    assert_eq!(
        get_all_file_dependencies("main.c", "c", &map),
        vec!["main.c", "foo.h", "foo.c"]
    );
}

#[test]
fn the_header_beside_a_source_is_pulled_in() {
    let map = graph(&[
        ("main.c", &["impl.c"], true),
        ("impl.c", &[], false),
        ("impl.h", &[], false),
    ]);
    assert_eq!(
        get_all_file_dependencies("main.c", "c", &map),
        vec!["main.c", "impl.c", "impl.h"]
    );
}

#[test]
fn cycles_end_and_list_each_file_once() {
    let map = graph(&[("a.h", &["b.h"], false), ("b.h", &["a.h"], false)]);
    assert_eq!(get_all_file_dependencies("a.h", "c", &map), vec!["a.h", "b.h"]);
    assert_eq!(get_all_file_dependencies("b.h", "c", &map), vec!["b.h", "a.h"]);
}

#[test]
fn a_file_that_names_itself_is_listed_once() {
    let map = graph(&[("a.h", &["a.h", "a.h"], false)]);
    assert_eq!(get_all_file_dependencies("a.h", "c", &map), vec!["a.h"]);
}

#[test]
fn files_come_in_the_order_of_the_first_visit() {
    let map = graph(&[
        ("main.c", &["x.h", "y.h"], true),
        ("x.h", &["z.h"], false),
        ("y.h", &["z.h"], false),
        ("z.h", &[], false),
        ("y.c", &["w.h"], false),
        ("w.h", &[], false),
    ]);
    assert_eq!(
        get_all_file_dependencies("main.c", "c", &map),
        vec!["main.c", "x.h", "z.h", "y.h", "y.c", "w.h"]
    );
}

#[test]
fn named_files_outside_the_graph_are_left_out() {
    let map = graph(&[("main.c", &["gone.h", "here.h"], true), ("here.h", &[], false)]);
    assert_eq!(
        get_all_file_dependencies("main.c", "c", &map),
        vec!["main.c", "here.h"]
    );
}

#[test]
fn the_same_walk_gives_the_same_list() {
    let map = graph(&[
        ("main.c", &["foo.h", "bar.h"], true),
        ("foo.h", &["bar.h"], false),
        ("bar.h", &["foo.h"], false),
        ("bar.c", &["bar.h"], false),
    ]);
    let first = get_all_file_dependencies("main.c", "c", &map);
    let second = get_all_file_dependencies("main.c", "c", &map);
    assert_eq!(first, second);
    assert_eq!(first, vec!["main.c", "foo.h", "bar.h", "bar.c"]);
    for file in first.iter() {
        assert!(map.contains_key(file));
    }
}

#[test]
fn complements() {
    assert_eq!(complementary_file("foo.h", "c"), "foo.c");
    assert_eq!(complementary_file("foo.c", "c"), "foo.h");
    assert_eq!(complementary_file("dir/foo.hpp", "cpp"), "dir/foo.cpp");
    assert_eq!(complementary_file("dir/foo.cpp", "cpp"), "dir/foo.h");
    assert_eq!(complementary_file("foo", "c"), "foo.c");
    assert_eq!(complementary_file("a.b.c", "c"), "a.h");
}

#[test]
fn flattening_keeps_the_source_files() {
    let map = graph(&[
        ("main.c", &["util.h"], true),
        ("util.h", &[], false),
        ("util.c", &["util.h"], false),
    ]);
    let flat = flatten_dependencies(&map, "c");
    assert_eq!(flat.len(), 2);
    assert_eq!(flat.unit(0).path, "main.c");
    assert_eq!(flat.unit(0).includes, vec!["main.c", "util.h", "util.c"]);
    assert!(flat.unit(0).has_main);
    assert_eq!(flat.unit(1).path, "util.c");
    assert_eq!(flat.unit(1).includes, vec!["util.c", "util.h"]);
    assert!(!flat.unit(1).has_main);
    assert!(!flat.contains_key("util.h"));
}

#[test]
fn the_graph_keeps_the_first_unit_of_a_path() {
    let mut map = graph(&[("a.c", &["x.h"], true)]);
    map.insert("a.c".to_string(), vec!["y.h".to_string()], false);
    assert_eq!(map.len(), 1);
    let unit = map.get("a.c").unwrap();
    assert_eq!(unit.includes, vec!["x.h"]);
    assert!(unit.has_main);
    assert!(map.get("b.c").is_none());
    assert_eq!(map.position("a.c"), Some(0));
    assert_eq!(map.position("x.h"), None);
}
