use makegen::graph::DependencyMap;
use makegen::visit::{Event, ParseContext, Step};

fn read(file: &str) -> Step {
    Step::Read(file.to_string())
}

fn resolve(from: &str, name: &str) -> Step {
    Step::Resolve { from: from.to_string(), name: name.to_string() }
}

fn start(ctx: &mut ParseContext, file: &str) -> Step {
    ctx.advance(Event::Start(file.to_string()))
}

fn contents(ctx: &mut ParseContext, text: &str) -> Step {
    ctx.advance(Event::Contents(text.to_string()))
}

fn resolved(ctx: &mut ParseContext, path: &str) -> Step {
    ctx.advance(Event::Resolved(path.to_string()))
}

#[test]
fn a_file_without_directives_is_entered_at_once() {
    let mut ctx = ParseContext::new(DependencyMap::new(), Vec::new());
    assert!(ctx.is_idle());
    assert_eq!(start(&mut ctx, "main.c"), read("main.c"));
    assert!(!ctx.is_idle());
    assert_eq!(contents(&mut ctx, "int main() { return 0; }\n"), Step::Done);
    assert!(ctx.is_idle());
    let result = ctx.into_result();
    assert_eq!(result.dependency_map.len(), 1);
    let unit = result.dependency_map.get("main.c").unwrap();
    assert!(unit.has_main);
    assert!(unit.includes.is_empty());
    assert!(result.dlls.is_empty());
}

#[test]
fn named_files_are_read_depth_first() {
    let mut ctx = ParseContext::new(DependencyMap::new(), Vec::new());
    assert_eq!(start(&mut ctx, "main.c"), read("main.c"));
    assert_eq!(
        contents(
            &mut ctx,
            "#include <math.h>\n#include \"util.h\"\n#include \"sub/x.h\"\nint main() {}\n"
        ),
        resolve("main.c", "util.h")
    );
    assert_eq!(resolved(&mut ctx, "util.h"), read("util.h"));
    assert_eq!(contents(&mut ctx, "#include \"sub/x.h\"\n"), resolve("util.h", "sub/x.h"));
    assert_eq!(resolved(&mut ctx, "sub/x.h"), read("sub/x.h"));
    assert_eq!(contents(&mut ctx, "#include <pthread.h>\n"), resolve("main.c", "sub/x.h"));
    assert_eq!(resolved(&mut ctx, "sub/x.h"), Step::Done);
    let result = ctx.into_result();
    let map = &result.dependency_map;
    assert_eq!(map.len(), 3);
    assert_eq!(map.unit(0).path, "sub/x.h");
    assert_eq!(map.unit(1).path, "util.h");
    assert_eq!(map.unit(1).includes, vec!["sub/x.h"]);
    assert_eq!(map.unit(2).path, "main.c");
    assert_eq!(map.unit(2).includes, vec!["util.h", "sub/x.h"]);
    assert!(map.unit(2).has_main);
    assert!(!map.unit(1).has_main);
    assert_eq!(result.dlls, vec!["m", "pthread"]);
}

#[test]
fn files_that_name_each_other_end() {
    let mut ctx = ParseContext::new(DependencyMap::new(), Vec::new());
    assert_eq!(start(&mut ctx, "a.c"), read("a.c"));
    assert_eq!(contents(&mut ctx, "#include \"b.h\"\n"), resolve("a.c", "b.h"));
    assert_eq!(resolved(&mut ctx, "b.h"), read("b.h"));
    assert_eq!(contents(&mut ctx, "#include \"a.c\"\n"), resolve("b.h", "a.c"));
    assert_eq!(resolved(&mut ctx, "a.c"), read("a.c"));
    assert_eq!(contents(&mut ctx, "#include \"b.h\"\n"), resolve("a.c", "b.h"));
    assert_eq!(resolved(&mut ctx, "b.h"), Step::Done);
    let result = ctx.into_result();
    let map = &result.dependency_map;
    assert_eq!(map.len(), 2);
    assert_eq!(map.get("a.c").unwrap().includes, vec!["b.h"]);
    assert_eq!(map.get("b.h").unwrap().includes, vec!["a.c"]);
}

#[test]
fn a_file_in_the_graph_is_not_read_again_through_a_directive() {
    let mut ctx = ParseContext::new(DependencyMap::new(), Vec::new());
    assert_eq!(start(&mut ctx, "a.c"), read("a.c"));
    assert_eq!(contents(&mut ctx, "#include \"h.h\"\n"), resolve("a.c", "h.h"));
    assert_eq!(resolved(&mut ctx, "h.h"), read("h.h"));
    assert_eq!(contents(&mut ctx, ""), Step::Done);
    assert_eq!(start(&mut ctx, "b.c"), read("b.c"));
    assert_eq!(contents(&mut ctx, "#include \"h.h\"\n"), resolve("b.c", "h.h"));
    assert_eq!(resolved(&mut ctx, "h.h"), Step::Done);
    assert_eq!(ctx.into_result().dependency_map.len(), 3);
}

#[test]
fn a_directive_without_a_name_stops_the_reading() {
    let mut ctx = ParseContext::new(DependencyMap::new(), Vec::new());
    assert_eq!(start(&mut ctx, "a.c"), read("a.c"));
    assert_eq!(
        contents(&mut ctx, "#include <math.h>\n#include BROKEN\n"),
        Step::Malformed("a.c".to_string())
    );
    assert!(!ctx.is_idle());
    let result = ctx.into_result();
    assert_eq!(result.dependency_map.len(), 0);
    assert!(result.dlls.is_empty());
}

#[test]
fn events_out_of_turn_change_nothing() {
    let mut ctx = ParseContext::new(DependencyMap::new(), Vec::new());
    assert_eq!(contents(&mut ctx, "x"), Step::Unexpected);
    assert_eq!(resolved(&mut ctx, "x.h"), Step::Unexpected);
    assert_eq!(start(&mut ctx, "a.c"), read("a.c"));
    assert_eq!(start(&mut ctx, "b.c"), Step::Unexpected);
    assert_eq!(resolved(&mut ctx, "x.h"), Step::Unexpected);
    assert_eq!(contents(&mut ctx, "#include \"h.h\"\n"), resolve("a.c", "h.h"));
    assert_eq!(contents(&mut ctx, ""), Step::Unexpected);
    assert_eq!(start(&mut ctx, "b.c"), Step::Unexpected);
    assert_eq!(resolved(&mut ctx, "h.h"), read("h.h"));
    assert_eq!(contents(&mut ctx, ""), Step::Done);
    assert_eq!(ctx.into_result().dependency_map.len(), 2);
}
