use makegen::cli::{Cli, Matches};
use makegen::graph::DependencyMap;
use makegen::partition::{contained_in_partition, PartitionedFiles};

fn cli<'a>(tests: &[&'a str], benchmarks: &[&'a str], examples: &[&'a str]) -> Cli<'a> {
    Cli {
        main_file: "main.c",
        compiler: "gcc",
        extension: "c",
        binary: "prog",
        standard: "c99",
        opt_level: "O0",
        tests: tests.to_vec(),
        benchmarks: benchmarks.to_vec(),
        examples: examples.to_vec(),
    }
}

fn graph(units: &[(&str, bool)]) -> DependencyMap {
    let mut map = DependencyMap::new();
    for (path, has_main) in units {
        map.insert(path.to_string(), Vec::new(), *has_main);
    }
    map
}

#[test]
fn a_named_test_is_a_test_and_not_standalone() {
    let map = graph(&[("main.c", true), ("check.c", true), ("util.c", false)]);
    let settings = cli(&["check.c"], &["benchmarks"], &["examples"]);
    let parts = PartitionedFiles::partition(&settings, &map);
    assert_eq!(parts.tests, vec!["check"]);
    assert_eq!(parts.standalone, vec!["main"]);
    assert!(parts.benchmarks.is_empty());
    assert!(parts.examples.is_empty());
}

#[test]
fn directories_claim_what_lies_under_them() {
    let map = graph(&[
        ("main.c", true),
        ("tests/a.c", true),
        ("tests/deep/b.c", true),
        ("benchmarks/speed.c", true),
        ("examples/hello.c", true),
        ("tools/gen.c", true),
        ("tests/helper.c", false),
    ]);
    let settings = cli(&["tests"], &["benchmarks"], &["examples"]);
    let parts = PartitionedFiles::partition(&settings, &map);
    assert_eq!(parts.standalone, vec!["main", "tools/gen"]);
    assert_eq!(parts.tests, vec!["tests/a", "tests/deep/b"]);
    assert_eq!(parts.benchmarks, vec!["benchmarks/speed"]);
    assert_eq!(parts.examples, vec!["examples/hello"]);
}

#[test]
fn a_program_named_twice_is_listed_twice() {
    let map = graph(&[("both.c", true)]);
    let settings = cli(&["both.c"], &["both"], &["examples"]);
    let parts = PartitionedFiles::partition(&settings, &map);
    assert_eq!(parts.tests, vec!["both"]);
    assert_eq!(parts.benchmarks, vec!["both"]);
    assert!(parts.standalone.is_empty());
}

#[test]
fn a_prefix_claims_character_by_character() {
    assert!(contained_in_partition(&vec!["tests"], "tests_old/a"));
    assert!(contained_in_partition(&vec!["tests"], "tests"));
    assert!(contained_in_partition(&vec!["x", "tests/a.c"], "tests/a"));
    assert!(!contained_in_partition(&vec!["tests"], "test"));
    assert!(!contained_in_partition(&vec!["tests"], "src/tests"));
    assert!(!contained_in_partition(&vec![], "tests"));
    assert!(contained_in_partition(&vec![".hidden"], "anything"));
}

#[test]
fn settings_come_from_the_command_line() {
    let matches = Matches {
        extension: Some("cpp"),
        bin: Some("prog"),
        main_file: Some("main.cpp"),
        compiler: Some("g++"),
        std: Some("c++11"),
        opt: Some("O2"),
        tests: Some(vec!["tests", "t.cpp"]),
        benchmarks: Some(vec!["benchmarks"]),
        examples: Some(vec!["examples"]),
    };
    let settings = Cli::from_matches(&matches).ok().unwrap();
    assert_eq!(settings.extension, "cpp");
    assert_eq!(settings.binary, "prog");
    assert_eq!(settings.main_file, "main.cpp");
    assert_eq!(settings.compiler, "g++");
    assert_eq!(settings.standard, "c++11");
    assert_eq!(settings.opt_level, "O2");
    assert_eq!(settings.tests, vec!["tests", "t.cpp"]);
    assert_eq!(settings.benchmarks, vec!["benchmarks"]);
    assert_eq!(settings.examples, vec!["examples"]);
}

fn rejected(matches: &Matches) -> &'static str {
    match Cli::from_matches(matches) {
        Ok(_) => panic!("accepted"),
        Err(message) => message,
    }
}

fn full<'a>() -> Matches<'a> {
    Matches {
        extension: Some("c"),
        bin: Some("prog"),
        main_file: Some("main.c"),
        compiler: Some("gcc"),
        std: Some("c99"),
        opt: Some("O0"),
        tests: Some(vec!["tests"]),
        benchmarks: Some(vec!["benchmarks"]),
        examples: Some(vec!["examples"]),
    }
}

#[test]
fn settings_are_rejected_with_a_reason() {
    let mut m = full();
    m.extension = None;
    m.bin = None;
    assert_eq!(rejected(&m), "You must provide and file extension to search for");
    let mut m = full();
    m.extension = Some("rs");
    m.std = None;
    assert_eq!(
        rejected(&m),
        "Only C or C++ files are allowed (extension should be either c or cpp)"
    );
    let mut m = full();
    m.bin = None;
    m.main_file = None;
    assert_eq!(rejected(&m), "You must provide a name for your executable");
    let mut m = full();
    m.main_file = None;
    m.compiler = None;
    assert_eq!(rejected(&m), "You must provide the main source file");
    let mut m = full();
    m.compiler = None;
    assert_eq!(rejected(&m), "");
}
