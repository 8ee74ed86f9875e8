//! Reading one file's text: its directives, the libraries they ask for, and
//! whether it defines an entry point.
//!
//! The reading is by line and by character. Nothing is expanded or
//! evaluated, so a directive inside a comment counts, and so does `main(`
//! inside a string.

use crate::cli::Cli;
use crate::filename_utils::{extension, has_extension};
use crate::graph::DependencyMap;
use crate::text::{
    chars_of, first_index, has_prefix_at, has_substring, lines, position_from, skip_spaces,
    split_lines, string_of, trimmed_start,
};
use vstd::prelude::*;

verus! {

/// The file that a directive names.
#[derive(Debug, PartialEq, Eq)]
pub enum IncludeFile<'i> {
    /// A name between `<` and `>`.
    System(&'i str),
    /// A name between double quotes.
    User(&'i str),
}

/// What an `IncludeFile` holds, as mathematical values.
pub enum IncludeView {
    System(Seq<char>),
    User(Seq<char>),
}

impl<'i> View for IncludeFile<'i> {
    type V = IncludeView;

    open spec fn view(&self) -> IncludeView {
        match self {
            IncludeFile::System(name) => IncludeView::System(name@),
            IncludeFile::User(name) => IncludeView::User(name@),
        }
    }
}

/// Whether `line` is a directive: after the whitespace at its start it
/// begins with `#include`.
pub open spec fn is_directive(line: Seq<char>) -> bool {
    "#include"@.is_prefix_of(trimmed_start(line))
}

/// Whether `line` holds both a `<` and a `>`, in whatever order.
pub open spec fn has_angles(line: Seq<char>) -> bool {
    first_index(line, '<') < line.len() && first_index(line, '>') < line.len()
}

/// What follows the first double quote of `line`.
pub open spec fn after_quote(line: Seq<char>) -> Seq<char> {
    line.skip(first_index(line, '"') + 1)
}

/// Whether a name can be taken from `line`: either its first `<` stands
/// before its first `>`, or it lacks one of the two and holds two double
/// quotes. A line with a `>` before its first `<` has no name, whatever
/// else it holds.
pub open spec fn delimited(line: Seq<char>) -> bool {
    if has_angles(line) {
        first_index(line, '<') < first_index(line, '>')
    } else {
        first_index(line, '"') < line.len() && first_index(after_quote(line), '"') < after_quote(
            line,
        ).len()
    }
}

/// The file that `line` names. Where the line holds both a `<` and a `>`,
/// it is the system file between the first of each, even if a quoted name
/// follows or surrounds them; otherwise it is the user file between the
/// first two double quotes.
pub open spec fn classified(line: Seq<char>) -> IncludeView {
    if has_angles(line) {
        IncludeView::System(line.subrange(first_index(line, '<') + 1, first_index(line, '>')))
    } else {
        IncludeView::User(after_quote(line).take(first_index(after_quote(line), '"')))
    }
}

/// The library to link for a system header, for the headers that are known
/// to need one.
pub open spec fn library_of(header: Seq<char>) -> Option<Seq<char>> {
    if header == "math.h"@ {
        Some("m"@)
    } else if header == "pthread.h"@ {
        Some("pthread"@)
    } else if header == "ncurses.h"@ {
        Some("ncurses"@)
    } else {
        None
    }
}

/// The user files that the directives among `ls` name, in their order.
/// A file named twice stands twice.
pub open spec fn user_includes(ls: Seq<Seq<char>>) -> Seq<Seq<char>>
    decreases ls.len(),
{
    if ls.len() == 0 {
        Seq::empty()
    } else {
        let before = user_includes(ls.drop_last());
        if is_directive(ls.last()) {
            match classified(ls.last()) {
                IncludeView::User(name) => before.push(name),
                IncludeView::System(_) => before,
            }
        } else {
            before
        }
    }
}

/// `libs` after the line `line`: where the line is a directive that names
/// a system header with a library that `libs` lacks, the library is added
/// at the end.
pub open spec fn with_library(libs: Seq<Seq<char>>, line: Seq<char>) -> Seq<Seq<char>> {
    if is_directive(line) {
        match classified(line) {
            IncludeView::System(name) => match library_of(name) {
                Some(lib) => if libs.contains(lib) {
                    libs
                } else {
                    libs.push(lib)
                },
                None => libs,
            },
            IncludeView::User(_) => libs,
        }
    } else {
        libs
    }
}

/// `libs` after the lines `ls`, taken in their order.
pub open spec fn libraries_after(libs: Seq<Seq<char>>, ls: Seq<Seq<char>>) -> Seq<Seq<char>>
    decreases ls.len(),
{
    if ls.len() == 0 {
        libs
    } else {
        with_library(libraries_after(libs, ls.drop_last()), ls.last())
    }
}

/// Whether a name can be taken from every directive among `ls`.
pub open spec fn all_delimited(ls: Seq<Seq<char>>) -> bool {
    forall|i: int| 0 <= i < ls.len() && is_directive(#[trigger] ls[i]) ==> delimited(ls[i])
}

/// Whether a name can be taken from every directive of the text `source`.
pub open spec fn well_formed(source: Seq<char>) -> bool {
    all_delimited(lines(source))
}

/// Whether the text `contents` defines an entry point: it holds `main(`
/// somewhere.
pub open spec fn defines_main(contents: Seq<char>) -> bool {
    has_substring(contents, "main("@)
}

/// The libraries keep what they held, at their places.
pub proof fn lemma_libraries_kept(libs: Seq<Seq<char>>, ls: Seq<Seq<char>>)
    ensures
        libs.is_prefix_of(libraries_after(libs, ls)),
    decreases ls.len(),
{
    if ls.len() > 0 {
        lemma_libraries_kept(libs, ls.drop_last());
        let before = libraries_after(libs, ls.drop_last());
        let after = with_library(before, ls.last());
        if after != before {
            assert(after == before.push(after.last()));
        }
        assert(libs =~= after.subrange(0, libs.len() as int));
    }
}

/// The libraries stay free of repetition.
pub proof fn lemma_libraries_distinct(libs: Seq<Seq<char>>, ls: Seq<Seq<char>>)
    requires
        libs.no_duplicates(),
    ensures
        libraries_after(libs, ls).no_duplicates(),
    decreases ls.len(),
{
    if ls.len() > 0 {
        lemma_libraries_distinct(libs, ls.drop_last());
        let before = libraries_after(libs, ls.drop_last());
        let after = with_library(before, ls.last());
        if after != before {
            let lib = after.last();
            assert(after == before.push(lib));
            assert(!before.contains(lib));
            assert forall|i: int, j: int| 0 <= i < after.len() && 0 <= j < after.len() && i
                != j implies after[i] != after[j] by {
                if i < before.len() && j < before.len() {
                } else if i < before.len() {
                    assert(before[i] == after[i]);
                } else {
                    assert(before[j] == after[j]);
                }
            }
        }
    }
}

/// After the lines `ls`, the library of every known system header that a
/// directive among them names is there.
pub proof fn lemma_library_present(libs: Seq<Seq<char>>, ls: Seq<Seq<char>>, i: int)
    requires
        0 <= i < ls.len(),
        is_directive(ls[i]),
        classified(ls[i]) is System,
        library_of(classified(ls[i])->System_0) is Some,
    ensures
        libraries_after(libs, ls).contains(library_of(classified(ls[i])->System_0)->0),
    decreases ls.len(),
{
    let lib = library_of(classified(ls[i])->System_0)->0;
    let before = libraries_after(libs, ls.drop_last());
    let after = libraries_after(libs, ls);
    if i == ls.len() - 1 {
        if !before.contains(lib) {
            assert(after == before.push(lib));
            assert(after[before.len() as int] == lib);
        }
    } else {
        lemma_library_present(libs, ls.drop_last(), i);
        let k = choose|k: int| 0 <= k < before.len() && before[k] == lib;
        if after != before {
            assert(after == before.push(after.last()));
        }
        assert(after[k] == lib);
    }
}

/// Where the name of a directive stands in its line.
struct NameRange {
    system: bool,
    from: usize,
    to: usize,
}

/// Finds the name in the line `v`, if one can be taken from it.
fn locate(v: &Vec<char>) -> (r: Option<NameRange>)
    ensures
        match r {
            Some(range) => delimited(v@) && range.from <= range.to <= v.len() && classified(v@)
                == (if range.system {
                IncludeView::System(v@.subrange(range.from as int, range.to as int))
            } else {
                IncludeView::User(v@.subrange(range.from as int, range.to as int))
            }),
            None => !delimited(v@),
        },
{
    assert(v@.skip(0) =~= v@);
    let lt = position_from(v, 0, '<');
    let gt = position_from(v, 0, '>');
    if lt < v.len() && gt < v.len() {
        if lt < gt {
            Some(NameRange { system: true, from: lt + 1, to: gt })
        } else {
            None
        }
    } else {
        let open = position_from(v, 0, '"');
        if open == v.len() {
            return None;
        }
        let close = position_from(v, open + 1, '"');
        if close == v.len() {
            return None;
        }
        assert(after_quote(v@).take(first_index(after_quote(v@), '"')) =~= v@.subrange(
            open + 1,
            close as int,
        ));
        Some(NameRange { system: false, from: open + 1, to: close })
    }
}

/// Whether the line `v` is a directive.
fn is_directive_line(v: &Vec<char>) -> (r: bool)
    ensures
        r == is_directive(v@),
{
    let keyword = chars_of("#include");
    let start = skip_spaces(v);
    has_prefix_at(v, start, &keyword)
}

/// The file that the directive `line` names.
pub fn extract_include_filename(line: &str) -> (r: IncludeFile<'_>)
    requires
        delimited(line@),
    ensures
        r@ == classified(line@),
{
    let v = chars_of(line);
    let range = locate(&v).unwrap();
    let name = line.substring_char(range.from, range.to);
    if range.system {
        IncludeFile::System(name)
    } else {
        IncludeFile::User(name)
    }
}

/// The file that `line` names, if a name can be taken from it.
pub fn checked_include_filename(line: &str) -> (r: Option<IncludeFile<'_>>)
    ensures
        match r {
            Some(file) => delimited(line@) && file@ == classified(line@),
            None => !delimited(line@),
        },
{
    let v = chars_of(line);
    if locate(&v).is_some() {
        Some(extract_include_filename(line))
    } else {
        None
    }
}

/// The library to link for the system header `header`, if it needs one.
pub fn library_for(header: &str) -> (r: Option<&'static str>)
    ensures
        match r {
            Some(lib) => library_of(header@) == Some(lib@),
            None => library_of(header@) is None,
        },
{
    if *header == *"math.h" {
        Some("m")
    } else if *header == *"pthread.h" {
        Some("pthread")
    } else if *header == *"ncurses.h" {
        Some("ncurses")
    } else {
        None
    }
}

/// Whether `items` holds the text `s`.
pub fn holds(items: &Vec<String>, s: &str) -> (r: bool)
    ensures
        r == items.deep_view().contains(s@),
{
    let mut i: usize = 0;
    while i < items.len()
        invariant
            i <= items.len(),
            forall|j: int| 0 <= j < i ==> items.deep_view()[j] != s@,
        decreases items.len() - i,
    {
        if *items[i].as_str() == *s {
            assert(items.deep_view()[i as int] == s@);
            return true;
        }
        i += 1;
    }
    false
}

/// Whether a name can be taken from every directive of `source`.
pub fn is_well_formed(source: &str) -> (r: bool)
    ensures
        r == well_formed(source@),
{
    let ls = split_lines(source);
    let mut i: usize = 0;
    while i < ls.len()
        invariant
            i <= ls.len(),
            ls.deep_view() == lines(source@),
            all_delimited(ls.deep_view().take(i as int)),
        decreases ls.len() - i,
    {
        assert(ls.deep_view()[i as int] =~= ls[i as int]@);
        if is_directive_line(&ls[i]) && locate(&ls[i]).is_none() {
            return false;
        }
        i += 1;
        assert forall|k: int|
            0 <= k < i && is_directive(#[trigger] ls.deep_view().take(i as int)[k]) implies delimited(
            ls.deep_view().take(i as int)[k],
        ) by {
            if k < i - 1 {
                assert(ls.deep_view().take(i - 1)[k] == ls.deep_view().take(i as int)[k]);
            }
        }
    }
    assert(ls.deep_view().take(i as int) =~= ls.deep_view());
    true
}

/// Whether the text `contents` defines an entry point.
pub fn has_main(contents: &str) -> (r: bool)
    ensures
        r == defines_main(contents@),
{
    crate::text::contains(contents, "main(")
}

/// Reads the directives of `source`. Returns the user files they name, in
/// their order, and adds to `dlls` the library of every known system
/// header they name, unless `dlls` has it already.
pub fn get_include_files_and_update_dlls(source: &str, dlls: &mut Vec<String>) -> (r: Vec<String>)
    requires
        well_formed(source@),
    ensures
        r.deep_view() == user_includes(lines(source@)),
        final(dlls).deep_view() == libraries_after(old(dlls).deep_view(), lines(source@)),
        old(dlls).deep_view().no_duplicates() ==> final(dlls).deep_view().no_duplicates(),
        old(dlls).deep_view().is_prefix_of(final(dlls).deep_view()),
{
    let ls = split_lines(source);
    let mut include_files: Vec<String> = Vec::new();
    let mut i: usize = 0;
    assert(include_files.deep_view() =~= user_includes(ls.deep_view().take(0)));
    while i < ls.len()
        invariant
            i <= ls.len(),
            ls.deep_view() == lines(source@),
            all_delimited(ls.deep_view()),
            include_files.deep_view() == user_includes(ls.deep_view().take(i as int)),
            dlls.deep_view() == libraries_after(old(dlls).deep_view(), ls.deep_view().take(i as int)),
        decreases ls.len() - i,
    {
        let ghost done = ls.deep_view().take(i as int);
        let ghost next = ls.deep_view().take(i + 1);
        let ghost line = ls.deep_view()[i as int];
        assert(line =~= ls[i as int]@);
        assert(next.drop_last() =~= done);
        assert(next.last() == line);
        if is_directive_line(&ls[i]) {
            let range = locate(&ls[i]).unwrap();
            let name = string_of(&ls[i], range.from, range.to);
            if range.system {
                match library_for(name.as_str()) {
                    Some(lib) => {
                        if !holds(dlls, lib) {
                            let ghost before = dlls.deep_view();
                            dlls.push(lib.to_owned());
                            assert(dlls.deep_view() =~= before.push(lib@));
                        }
                    },
                    None => {},
                }
            } else {
                let ghost before = include_files.deep_view();
                include_files.push(name);
                assert(include_files.deep_view() =~= before.push(name@));
            }
        }
        i += 1;
    }
    assert(ls.deep_view().take(i as int) =~= ls.deep_view());
    proof {
        lemma_libraries_kept(old(dlls).deep_view(), lines(source@));
        if old(dlls).deep_view().no_duplicates() {
            lemma_libraries_distinct(old(dlls).deep_view(), lines(source@));
        }
    }
    include_files
}

/// What one run has found: the graph of the project and the libraries to
/// link, in the order in which they were first asked for.
pub struct ParseResult {
    pub dependency_map: DependencyMap,
    pub dlls: Vec<String>,
}

impl ParseResult {
    /// The graph and the libraries, put together.
    pub fn new(dependency_map: DependencyMap, dlls: Vec<String>) -> (r: Self)
        ensures
            r.dependency_map == dependency_map,
            r.dlls == dlls,
    {
        Self { dependency_map, dlls }
    }
}

/// The reader of one project: the directory it is rooted at and the
/// settings of the run.
pub struct Parser<'cli> {
    root_dir: String,
    cli: &'cli Cli<'cli>,
}

impl<'cli> Parser<'cli> {
    /// The reader of the project rooted at `root_dir`.
    pub fn new(root_dir: String, cli: &'cli Cli<'cli>) -> (r: Self)
        ensures
            r.root_dir() == root_dir,
            r.cli() == cli,
    {
        Self { root_dir, cli }
    }

    /// The directory the project is rooted at.
    pub closed spec fn root_dir(&self) -> String {
        self.root_dir
    }

    /// The settings of the run.
    pub closed spec fn cli(&self) -> &'cli Cli<'cli> {
        self.cli
    }

    /// The directory the project is rooted at.
    pub fn root(&self) -> (r: &str)
        ensures
            r@ == self.root_dir()@,
    {
        self.root_dir.as_str()
    }

    /// Whether the walk of the project starts a reading at this entry: it
    /// is a regular file and has the extension of the run.
    pub fn selects(&self, path: &str, is_file: bool) -> (r: bool)
        ensures
            r == (is_file && extension(path@) == Some(self.cli().extension@)),
    {
        is_file && has_extension(path, self.cli.extension)
    }
}

} // verus!
