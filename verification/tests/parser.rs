use makegen::parser::{
    checked_include_filename, extract_include_filename, get_include_files_and_update_dlls,
    has_main, is_well_formed, library_for, IncludeFile,
};
use makegen::text::starts_with;

#[test]
fn extract_include_filename_works() {
    let source = r##"
            #include <stdio.h>
            #include <stdlib.h>
            #include "my_header.h"
            #include "string_interning.h"

            int main() {
                return 0;
            }
        "##;

    let includes: Vec<_> = source
        .lines()
        .filter(|l| l.trim_start().starts_with("#include"))
        .map(|l| extract_include_filename(l))
        .collect();

    assert_eq!(
        includes,
        vec![
            IncludeFile::System("stdio.h"),
            IncludeFile::System("stdlib.h"),
            IncludeFile::User("my_header.h"),
            IncludeFile::User("string_interning.h")
        ]
    );
}

#[test]
fn get_include_files_and_update_dlls_works() {
    let source = r##"
            #include <stdio.h>
            #include <stdlib.h>
            #include <math.h>
            #include <pthread.h>
            #include "my_header.h"
            #include "string_interning.h"

            int main() {
                return 0;
            }
        "##;

    let mut dlls = Vec::new();
    let include_files = get_include_files_and_update_dlls(source, &mut dlls);

    assert_eq!(include_files, vec!["my_header.h", "string_interning.h"]);
    assert_eq!(dlls, vec!["m", "pthread"]);
}

#[test]
fn angle_brackets_name_a_system_file() {
    assert_eq!(extract_include_filename("#include <math.h>"), IncludeFile::System("math.h"));
}

#[test]
fn double_quotes_name_a_user_file() {
    assert_eq!(extract_include_filename("#include \"a.h\""), IncludeFile::User("a.h"));
}

#[test]
fn angle_brackets_win_over_quotes() {
    assert_eq!(
        extract_include_filename("#include \"a<b>.h\""),
        IncludeFile::System("b")
    );
    assert_eq!(
        extract_include_filename("#include \"a.h\" // <stdio.h>"),
        IncludeFile::System("stdio.h")
    );
}

#[test]
fn a_lone_angle_bracket_leaves_the_quotes() {
    assert_eq!(
        extract_include_filename("/* a < b */ #include \"util.h\""),
        IncludeFile::User("util.h")
    );
    assert_eq!(
        extract_include_filename("#include \"a<b.h\""),
        IncludeFile::User("a<b.h")
    );
}

#[test]
fn empty_names_are_names() {
    assert_eq!(extract_include_filename("#include <>"), IncludeFile::System(""));
    assert_eq!(extract_include_filename("#include \"\""), IncludeFile::User(""));
}

#[test]
fn names_keep_characters_beyond_ascii() {
    assert_eq!(
        extract_include_filename("  #include \"h\u{e9}llo/w\u{f6}rld.h\" // \u{2603}"),
        IncludeFile::User("h\u{e9}llo/w\u{f6}rld.h")
    );
}

#[test]
fn lines_without_a_name_are_found() {
    assert_eq!(checked_include_filename("#include FOO"), None);
    assert_eq!(checked_include_filename("#include <stdio.h"), None);
    assert_eq!(checked_include_filename("#include \"a.h"), None);
    assert_eq!(checked_include_filename("#include >a<"), None);
    assert_eq!(checked_include_filename("#include \"a.h\" > <"), None);
    assert_eq!(
        checked_include_filename("#include <a.h>"),
        Some(IncludeFile::System("a.h"))
    );
    assert_eq!(
        checked_include_filename("#include \"a.h\""),
        Some(IncludeFile::User("a.h"))
    );
}

#[test]
fn well_formed_texts() {
    assert!(is_well_formed(""));
    assert!(is_well_formed("int x;\n#include <a.h>\n  #include \"b.h\"\n"));
    assert!(is_well_formed("// #include nothing\nint x;"));
    assert!(!is_well_formed("int x;\n#include FOO\n"));
    assert!(!is_well_formed("\t#include <a.h\n"));
    assert!(!is_well_formed("#include \"b.h"));
    assert!(is_well_formed("#define X <\n"));
}

#[test]
fn known_headers_have_libraries() {
    assert_eq!(library_for("math.h"), Some("m"));
    assert_eq!(library_for("pthread.h"), Some("pthread"));
    assert_eq!(library_for("ncurses.h"), Some("ncurses"));
    assert_eq!(library_for("stdio.h"), None);
    assert_eq!(library_for("math"), None);
    assert_eq!(library_for(""), None);
}

#[test]
fn a_library_is_listed_once() {
    let mut dlls = vec!["pthread".to_string()];
    let first = "#include <math.h>\n#include <math.h>\n#include <pthread.h>\n";
    let names = get_include_files_and_update_dlls(first, &mut dlls);
    assert!(names.is_empty());
    assert_eq!(dlls, vec!["pthread", "m"]);
    let second = "#include <ncurses.h>\r\n#include <math.h>\r\n";
    get_include_files_and_update_dlls(second, &mut dlls);
    assert_eq!(dlls, vec!["pthread", "m", "ncurses"]);
}

#[test]
fn user_files_keep_order_and_repetition() {
    let mut dlls = Vec::new();
    let source = "#include \"b.h\"\n\n#include \"a.h\"\r\n   #include \"b.h\"\nint f();\n#include \"c.h\"";
    let names = get_include_files_and_update_dlls(source, &mut dlls);
    assert_eq!(names, vec!["b.h", "a.h", "b.h", "c.h"]);
    assert!(dlls.is_empty());
}

#[test]
fn directives_agree_with_the_standard_library() {
    let source = "\u{a0}#include \"nbsp.h\"\n\u{3000}\t #include <math.h>\nx #include \"no.h\"\n#includes \"odd.h\"\n\u{200b}#include \"zero_width.h\"\n";
    let expected: Vec<String> = source
        .lines()
        .filter(|l| l.trim_start().starts_with("#include"))
        .filter_map(|l| match extract_include_filename(l) {
            IncludeFile::User(name) => Some(name.to_string()),
            IncludeFile::System(_) => None,
        })
        .collect();
    let mut dlls = Vec::new();
    let names = get_include_files_and_update_dlls(source, &mut dlls);
    assert_eq!(names, expected);
    assert_eq!(names, vec!["nbsp.h", "odd.h"]);
    assert_eq!(dlls, vec!["m"]);
}

#[test]
fn entry_points_are_found_by_text() {
    assert!(has_main("int main() { return 0; }"));
    assert!(has_main("int main(void)"));
    assert!(has_main("// calls main(\n"));
    assert!(has_main("domain(x)"));
    assert!(!has_main("int main () { }"));
    assert!(!has_main("int main"));
    assert!(!has_main(""));
    assert!(!has_main("mai(n"));
}

#[test]
fn prefixes() {
    assert!(starts_with("tests/a", "tests"));
    assert!(starts_with("tests", "tests"));
    assert!(starts_with("tests", ""));
    assert!(!starts_with("test", "tests"));
    assert!(!starts_with("a/tests", "tests"));
}
