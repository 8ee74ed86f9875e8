use makegen::cli::Cli;
use makegen::generate::{
    escape_folder, file_dependencies_var_name, generate_makefile,
    object_file_dependencies_var_name, source_file_dependencies_var_name, to_ascii_uppercase,
};
use makegen::graph::DependencyMap;
use makegen::parser::ParseResult;

fn cli<'a>(tests: &[&'a str]) -> Cli<'a> {
    Cli {
        main_file: "main.c",
        compiler: "gcc",
        extension: "c",
        binary: "prog",
        standard: "c99",
        opt_level: "O0",
        tests: tests.to_vec(),
        benchmarks: vec!["benchmarks"],
        examples: vec!["examples"],
    }
}

fn graph(units: &[(&str, &[&str], bool)]) -> DependencyMap {
    let mut map = DependencyMap::new();
    for (path, includes, has_main) in units {
        map.insert(
            path.to_string(),
            includes.iter().map(|s| s.to_string()).collect(),
            *has_main,
        );
    }
    map
}

#[test]
fn names_of_variables() {
    assert_eq!(escape_folder("a/b/c"), "a_b_c");
    assert_eq!(escape_folder("plain"), "plain");
    assert_eq!(escape_folder("/"), "_");
    assert_eq!(to_ascii_uppercase("aZ09_\u{e9}z"), "AZ09_\u{e9}Z");
    assert_eq!(to_ascii_uppercase("aZ09_\u{e9}z"), "aZ09_\u{e9}z".to_ascii_uppercase());
    assert_eq!(file_dependencies_var_name("src/util", "X"), "SRC_UTIL_X_DEPS");
    assert_eq!(source_file_dependencies_var_name("main"), "MAIN_SOURCE_DEPS");
    assert_eq!(object_file_dependencies_var_name("tests/a"), "TESTS_A_OBJECT_DEPS");
}

#[test]
fn a_small_project_gives_its_makefile() {
    let map = graph(&[
        ("main.c", &["util.h"], true),
        ("util.h", &[], false),
        ("util.c", &["util.h"], false),
    ]);
    let result = ParseResult::new(map, Vec::new());
    let makefile = generate_makefile(&cli(&["tests"]), &result).unwrap();
    let expected = "CC := gcc\n\
CFLAGS := -Wall\n\
CFLAGS += -std=c99\n\
CFLAGS += -O0\n\
LFLAGS := \n\
\n\
ODIR := .OBJ\n\
\n\
MAIN_SOURCE_DEPS := util.h\n\
UTIL_SOURCE_DEPS := util.h\n\
\n\
all: binaries\n\
\n\
$(ODIR):\n\
\t@mkdir $(ODIR)\n\
\n\
binaries: prog \n\
\n\
MAIN_OBJECT_DEPS := $(ODIR)/main.o $(ODIR)/util.o\n\
\n\
prog: $(ODIR) $(MAIN_OBJECT_DEPS)\n\
\t$(CC) $(CFLAGS) $(MAIN_OBJECT_DEPS) -o prog $(LFLAGS)\n\
\n\
$(ODIR)/main.o: $(ODIR) $(MAIN_SOURCE_DEPS)\n\
\t$(CC) -c $(CFLAGS) main.c -o $(ODIR)/main.o\n\
\n\
$(ODIR)/util.o: $(ODIR) $(UTIL_SOURCE_DEPS)\n\
\t$(CC) -c $(CFLAGS) util.c -o $(ODIR)/util.o\n\
\n\
.PHONY: clean\n\
clean:\n\
\trm -rf .OBJ prog \n";
    assert_eq!(makefile, expected);
}

#[test]
fn the_source_beside_a_header_is_linked() {
    let map = graph(&[
        ("main.c", &["foo.h"], true),
        ("foo.h", &[], false),
        ("foo.c", &[], false),
    ]);
    let result = ParseResult::new(map, Vec::new());
    let makefile = generate_makefile(&cli(&["tests"]), &result).unwrap();
    assert!(makefile.contains("MAIN_OBJECT_DEPS := $(ODIR)/main.o $(ODIR)/foo.o\n"));
}

#[test]
fn a_library_is_linked_once() {
    let mut dlls = Vec::new();
    makegen::parser::get_include_files_and_update_dlls(
        "#include <math.h>\n#include <pthread.h>\n",
        &mut dlls,
    );
    makegen::parser::get_include_files_and_update_dlls("#include <math.h>\n", &mut dlls);
    let map = graph(&[("main.c", &[], true), ("other.c", &[], false)]);
    let result = ParseResult::new(map, dlls);
    let makefile = generate_makefile(&cli(&["tests"]), &result).unwrap();
    assert!(makefile.contains("LFLAGS := -lm -lpthread\n"));
    assert_eq!(makefile.matches("-lm").count(), 1);
}

#[test]
fn every_kind_has_its_target() {
    let map = graph(&[
        ("main.c", &[], true),
        ("tools/gen.c", &["tools/gen.h"], true),
        ("tools/gen.h", &[], false),
        ("tests/a.c", &["tools/gen.h"], true),
        ("benchmarks/b.c", &[], true),
        ("examples/e.c", &[], true),
    ]);
    let result = ParseResult::new(map, vec!["m".to_string()]);
    let makefile = generate_makefile(&cli(&["tests"]), &result).unwrap();
    assert!(makefile.contains("binaries: prog bin_tools_gen \n\n"));
    assert!(makefile.contains(
        "TOOLS_GEN_OBJECT_DEPS := $(ODIR)/tools_gen.o\n\nbin_tools_gen: $(ODIR) $(TOOLS_GEN_OBJECT_DEPS)\n\t$(CC) $(CFLAGS) $(TOOLS_GEN_OBJECT_DEPS) -o tools/gen $(LFLAGS)\n\n"
    ));
    assert!(makefile.contains(
        "tests: tests_a \n\nTESTS_A_OBJECT_DEPS := $(ODIR)/tests_a.o $(ODIR)/tools_gen.o\n\ntests_a: $(ODIR) $(TESTS_A_OBJECT_DEPS)\n\t$(CC) $(CFLAGS) $(TESTS_A_OBJECT_DEPS) -o tests/a\n\n"
    ));
    assert!(makefile.contains("benchmarks: benchmarks_b \n\n"));
    assert!(makefile.contains("examples: examples_e \n\n"));
    assert!(makefile.contains(
        "$(ODIR)/tools_gen.o: $(ODIR) $(TOOLS_GEN_SOURCE_DEPS)\n\t$(CC) -c $(CFLAGS) tools/gen.c -o $(ODIR)/tools_gen.o\n\n"
    ));
    assert!(makefile.contains("TOOLS_GEN_SOURCE_DEPS := tools/gen.h\n"));
    assert!(makefile
        .ends_with("clean:\n\trm -rf .OBJ prog tools/gen tests/a benchmarks/b examples/e \n"));
    assert!(makefile.contains("LFLAGS := -lm\n"));
}

#[test]
fn a_kind_without_programs_has_no_target() {
    let map = graph(&[("main.c", &[], true)]);
    let result = ParseResult::new(map, Vec::new());
    let makefile = generate_makefile(&cli(&["tests"]), &result).unwrap();
    assert!(!makefile.contains("tests:"));
    assert!(!makefile.contains("benchmarks:"));
    assert!(!makefile.contains("examples:"));
}

#[test]
fn a_program_without_its_source_file_is_an_error() {
    let map = graph(&[("main.c", &["conf.h"], true), ("conf.h", &[], true)]);
    let result = ParseResult::new(map, Vec::new());
    let error = generate_makefile(&cli(&["tests"]), &result).unwrap_err();
    assert_eq!(error.path, "conf.c");
    let map = graph(&[("tests/a.b.c", &[], true)]);
    let result = ParseResult::new(map, Vec::new());
    let error = generate_makefile(&cli(&["tests"]), &result).unwrap_err();
    assert_eq!(error.path, "tests/a.c");
}
