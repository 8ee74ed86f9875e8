//! The makefile of a project, as text.
//!
//! The makefile sets the compiler and its flags, gives every source file a
//! variable with the files it names, links every program from the objects
//! of what its source file depends on, compiles every source file into the
//! object directory, and removes what it made on `clean`.

use crate::cli::{Cli, CliView};
use crate::closure::{flatten_dependencies, flattened, sources};
use crate::filename_utils::{extension, has_extension, stem, strip_extension};
use crate::graph::{has_key, unit_of, DependencyMap, UnitView};
use crate::parser::ParseResult;
use crate::partition::{partitioned, PartitionView, PartitionedFiles};
use crate::text::{chars_of, concat, join, joined, lemma_concat_push};
use vstd::prelude::*;

verus! {

/// What the makefile is written from.
pub struct GenerateContext<'c, 'p, 'd> {
    /// The settings of the run.
    pub cli: &'c Cli<'c>,
    /// The programs, by kind.
    pub partitioned: &'p PartitionedFiles<'p>,
    /// The graph of the project: every file with the files it names.
    pub graph: &'d DependencyMap,
    /// The source files, each with all that it depends on.
    pub dep_map: &'d DependencyMap,
    /// The libraries to link.
    pub dlls: &'d Vec<String>,
}

/// What a `GenerateContext` holds, as mathematical values.
pub struct ContextView {
    pub cli: CliView,
    pub partitioned: PartitionView,
    pub graph: Seq<UnitView>,
    pub dep_map: Seq<UnitView>,
    pub dlls: Seq<Seq<char>>,
}

impl<'c, 'p, 'd> View for GenerateContext<'c, 'p, 'd> {
    type V = ContextView;

    open spec fn view(&self) -> ContextView {
        ContextView {
            cli: self.cli@,
            partitioned: self.partitioned@,
            graph: self.graph@,
            dep_map: self.dep_map@,
            dlls: self.dlls.deep_view(),
        }
    }
}

impl<'c, 'p, 'd> GenerateContext<'c, 'p, 'd> {
    /// What a makefile is written from, put together.
    pub fn new(
        cli: &'c Cli<'c>,
        partitioned: &'p PartitionedFiles<'p>,
        graph: &'d DependencyMap,
        dep_map: &'d DependencyMap,
        dlls: &'d Vec<String>,
    ) -> (r: Self)
        ensures
            r.cli == cli,
            r.partitioned == partitioned,
            r.graph == graph,
            r.dep_map == dep_map,
            r.dlls == dlls,
    {
        Self { cli, partitioned, graph, dep_map, dlls }
    }
}

/// `c` in upper case where it is an ASCII letter.
pub open spec fn upper(c: char) -> char {
    if 'a' <= c && c <= 'z' {
        ((c as u8) - 32) as char
    } else {
        c
    }
}

/// `filename` with `_` in place of every `/`.
pub open spec fn escaped(filename: Seq<char>) -> Seq<char> {
    filename.map_values(|c: char| if c == '/' { '_' } else { c })
}

/// `name` with its ASCII letters in upper case.
pub open spec fn uppercase(name: Seq<char>) -> Seq<char> {
    name.map_values(|c: char| upper(c))
}

/// The name of the variable of the kind `category` for the file of the
/// stem `filename`.
pub open spec fn dependencies_var(filename: Seq<char>, category: Seq<char>) -> Seq<char> {
    uppercase(escaped(filename)) + "_"@ + category + "_DEPS"@
}

/// The name of the variable with the files that a source file names.
pub open spec fn source_var(filename: Seq<char>) -> Seq<char> {
    dependencies_var(filename, "SOURCE"@)
}

/// The name of the variable with the objects that a program is linked
/// from.
pub open spec fn object_var(filename: Seq<char>) -> Seq<char> {
    dependencies_var(filename, "OBJECT"@)
}

/// The flags that link `dlls`.
pub open spec fn link_flags(dlls: Seq<Seq<char>>) -> Seq<char> {
    joined(dlls.map_values(|dll: Seq<char>| "-l"@ + dll), " "@)
}

/// The lines that set the compiler and its flags.
pub open spec fn compiler_variables(ctx: ContextView) -> Seq<char> {
    "CC := "@ + ctx.cli.compiler + "\nCFLAGS := -Wall\nCFLAGS += -std="@ + ctx.cli.standard
        + "\nCFLAGS += -"@ + ctx.cli.opt_level + "\nLFLAGS := "@ + link_flags(ctx.dlls) + "\n"@
}

/// The line that sets the variable of the source file `file` to the files
/// that it names.
pub open spec fn source_variable(ctx: ContextView, file: Seq<char>) -> Seq<char> {
    source_var(stem(file)) + " := "@ + joined(unit_of(ctx.graph, file).includes, " "@) + "\n"@
}

/// The lines that set the object directory and the variable of every
/// source file.
pub open spec fn file_variables(ctx: ContextView) -> Seq<char> {
    "\nODIR := .OBJ\n\n"@ + concat(
        ctx.dep_map.map_values(|u: UnitView| source_variable(ctx, u.path)),
    ) + "\n"@
}

/// The object that the source file `file` is compiled into.
pub open spec fn object_of(file: Seq<char>) -> Seq<char> {
    "$(ODIR)/"@ + escaped(stem(file)) + ".o"@
}

/// The objects of the source files among `files`, in their order.
pub open spec fn objects(ctx: ContextView, files: Seq<Seq<char>>) -> Seq<Seq<char>> {
    files.filter(|d: Seq<char>| extension(d) == Some(ctx.cli.extension)).map_values(
        |d: Seq<char>| object_of(d),
    )
}

/// The line that sets the variable of the source file `file` to the
/// objects of all that it depends on.
pub open spec fn object_variable(ctx: ContextView, file: Seq<char>) -> Seq<char> {
    object_var(stem(file)) + " := "@ + joined(
        objects(ctx, unit_of(ctx.dep_map, file).includes),
        " "@,
    ) + "\n"@
}

/// The source file of the program `program`.
pub open spec fn source_of(ctx: ContextView, program: Seq<char>) -> Seq<char> {
    program + "."@ + ctx.cli.extension
}

/// The file that the program `program`, which stands alone, is linked
/// into: the binary of the settings for the program of the main file, the
/// program's own name for another.
pub open spec fn binary_output(ctx: ContextView, program: Seq<char>) -> Seq<char> {
    if program != stem(ctx.cli.main_file) {
        program
    } else {
        ctx.cli.binary
    }
}

/// The target that links the program `program`, which stands alone.
pub open spec fn binary_target(ctx: ContextView, program: Seq<char>) -> Seq<char> {
    if program != stem(ctx.cli.main_file) {
        "bin_"@ + escaped(program)
    } else {
        escaped(ctx.cli.binary)
    }
}

/// The line of the target `binaries`, which makes every program that
/// stands alone.
pub open spec fn binaries_line(ctx: ContextView) -> Seq<char> {
    "binaries: "@ + concat(
        ctx.partitioned.standalone.map_values(|p: Seq<char>| binary_target(ctx, p) + " "@),
    ) + "\n\n"@
}

/// The variable and the rule that link the program `program`, which
/// stands alone.
pub open spec fn binary_rule(ctx: ContextView, program: Seq<char>) -> Seq<char> {
    object_variable(ctx, source_of(ctx, program)) + "\n"@ + binary_target(ctx, program)
        + ": $(ODIR) $("@ + object_var(program) + ")\n\t$(CC) $(CFLAGS) $("@ + object_var(program)
        + ") -o "@ + binary_output(ctx, program) + " $(LFLAGS)\n\n"@
}

/// The variable and the rule that link the program `program` of one of the
/// three kinds.
pub open spec fn member_rule(ctx: ContextView, program: Seq<char>) -> Seq<char> {
    object_variable(ctx, source_of(ctx, program)) + "\n"@ + escaped(program) + ": $(ODIR) $("@
        + object_var(program) + ")\n\t$(CC) $(CFLAGS) $("@ + object_var(program) + ") -o "@
        + program + "\n\n"@
}

/// The target `id` that makes all of `members` and the rules that link
/// them, or nothing where there are no members.
pub open spec fn category(ctx: ContextView, id: Seq<char>, members: Seq<Seq<char>>) -> Seq<char> {
    if members.len() > 0 {
        id + ": "@ + concat(members.map_values(|m: Seq<char>| escaped(m) + " "@)) + "\n\n"@
            + concat(members.map_values(|m: Seq<char>| member_rule(ctx, m)))
    } else {
        Seq::empty()
    }
}

/// The rule that compiles the source file `file`.
pub open spec fn compile_rule(ctx: ContextView, file: Seq<char>) -> Seq<char> {
    "$(ODIR)/"@ + escaped(stem(file)) + ".o: $(ODIR) $("@ + source_var(stem(file))
        + ")\n\t$(CC) -c $(CFLAGS) "@ + stem(file) + "."@ + ctx.cli.extension + " -o $(ODIR)/"@
        + escaped(stem(file)) + ".o\n\n"@
}

/// The rules that compile the source files.
pub open spec fn compile_rules(ctx: ContextView) -> Seq<char> {
    concat(sources(ctx.dep_map, ctx.cli.extension).map_values(|u: UnitView| compile_rule(ctx, u.path)))
}

/// The files that the makefile produces besides the objects, in the order
/// of the programs: those that stand alone, then tests, benchmarks and
/// examples.
pub open spec fn produced(ctx: ContextView) -> Seq<Seq<char>> {
    ctx.partitioned.standalone.map_values(|p: Seq<char>| binary_output(ctx, p))
        + ctx.partitioned.tests + ctx.partitioned.benchmarks + ctx.partitioned.examples
}

/// The target `clean`.
pub open spec fn clean_target(ctx: ContextView) -> Seq<char> {
    ".PHONY: clean\nclean:\n\trm -rf .OBJ "@ + concat(
        produced(ctx).map_values(|f: Seq<char>| f + " "@),
    ) + "\n"@
}

/// The targets of the makefile.
pub open spec fn targets(ctx: ContextView) -> Seq<char> {
    "all: binaries\n\n$(ODIR):\n\t@mkdir $(ODIR)\n\n"@ + binaries_line(ctx) + concat(
        ctx.partitioned.standalone.map_values(|p: Seq<char>| binary_rule(ctx, p)),
    ) + category(ctx, "tests"@, ctx.partitioned.tests) + category(
        ctx,
        "benchmarks"@,
        ctx.partitioned.benchmarks,
    ) + category(ctx, "examples"@, ctx.partitioned.examples) + compile_rules(ctx) + clean_target(
        ctx,
    )
}

/// The makefile.
pub open spec fn makefile_text(ctx: ContextView) -> Seq<char> {
    compiler_variables(ctx) + file_variables(ctx) + targets(ctx)
}

/// Every program among `members` has its source file in the graph of
/// source files.
pub open spec fn have_sources(ctx: ContextView, members: Seq<Seq<char>>) -> bool {
    forall|i: int|
        0 <= i < members.len() ==> has_key(ctx.dep_map, source_of(ctx, #[trigger] members[i]))
}

/// Every source file is a file of the project.
pub open spec fn sources_known(ctx: ContextView) -> bool {
    forall|i: int| 0 <= i < ctx.dep_map.len() ==> has_key(ctx.graph, (#[trigger] ctx.dep_map[i]).path)
}

/// Every program has its source file in the graph of source files.
pub open spec fn programs_have_sources(ctx: ContextView) -> bool {
    have_sources(ctx, ctx.partitioned.standalone) && have_sources(ctx, ctx.partitioned.tests)
        && have_sources(ctx, ctx.partitioned.benchmarks) && have_sources(
        ctx,
        ctx.partitioned.examples,
    )
}

/// `filename` with `_` in place of every `/`.
pub fn escape_folder(filename: &str) -> (r: String)
    ensures
        r@ == escaped(filename@),
{
    let v = chars_of(filename);
    let mut r = String::new();
    let mut i: usize = 0;
    while i < v.len()
        invariant
            i <= v.len(),
            v@ == filename@,
            r@ == escaped(v@.take(i as int)),
        decreases v.len() - i,
    {
        let c = v[i];
        r.push(if c == '/' { '_' } else { c });
        i += 1;
        assert(escaped(v@.take(i as int)) =~= escaped(v@.take(i - 1)).push(
            if c == '/' { '_' } else { c },
        ));
    }
    assert(v@.take(i as int) =~= v@);
    r
}

/// `name` with its ASCII letters in upper case.
pub fn to_ascii_uppercase(name: &str) -> (r: String)
    ensures
        r@ == uppercase(name@),
{
    let v = chars_of(name);
    let mut r = String::new();
    let mut i: usize = 0;
    while i < v.len()
        invariant
            i <= v.len(),
            v@ == name@,
            r@ == uppercase(v@.take(i as int)),
        decreases v.len() - i,
    {
        let c = v[i];
        let u = if 'a' <= c && c <= 'z' { ((c as u8) - 32) as char } else { c };
        r.push(u);
        i += 1;
        assert(uppercase(v@.take(i as int)) =~= uppercase(v@.take(i - 1)).push(upper(c)));
    }
    assert(v@.take(i as int) =~= v@);
    r
}

/// The name of the variable of the kind `category` for the file of the
/// stem `filename`.
pub fn file_dependencies_var_name(filename: &str, category: &str) -> (r: String)
    ensures
        r@ == dependencies_var(filename@, category@),
{
    let var_name = escape_folder(filename);
    let mut r = to_ascii_uppercase(var_name.as_str());
    r.append("_");
    r.append(category);
    r.append("_DEPS");
    r
}

/// The name of the variable with the files that a source file names.
pub fn source_file_dependencies_var_name(filename: &str) -> (r: String)
    ensures
        r@ == source_var(filename@),
{
    file_dependencies_var_name(filename, "SOURCE")
}

/// The name of the variable with the objects that a program is linked
/// from.
pub fn object_file_dependencies_var_name(filename: &str) -> (r: String)
    ensures
        r@ == object_var(filename@),
{
    file_dependencies_var_name(filename, "OBJECT")
}

/// Writes the lines that set the compiler and its flags.
pub fn generate_compiler_variables(makefile: &mut String, ctx: &GenerateContext)
    ensures
        final(makefile)@ == old(makefile)@ + compiler_variables(ctx@),
{
    let ghost all = ctx.dlls.deep_view();
    let ghost flag = |dll: Seq<char>| "-l"@ + dll;
    let mut flags: Vec<String> = Vec::new();
    let mut i: usize = 0;
    assert(flags.deep_view() =~= all.take(0).map_values(flag));
    while i < ctx.dlls.len()
        invariant
            i <= ctx.dlls.len(),
            all == ctx.dlls.deep_view(),
            flag == (|dll: Seq<char>| "-l"@ + dll),
            flags.deep_view() == all.take(i as int).map_values(flag),
        decreases ctx.dlls.len() - i,
    {
        let ghost before = flags.deep_view();
        let mut f = "-l".to_owned();
        f.append(ctx.dlls[i].as_str());
        flags.push(f);
        i += 1;
        assert(flags.deep_view() =~= before.push(flag(all[i - 1])));
        assert(all.take(i as int).map_values(flag) =~= before.push(flag(all[i - 1])));
    }
    assert(all.take(i as int) =~= all);
    let link_flags = join(&flags, " ");
    let mut s = "CC := ".to_owned();
    s.append(ctx.cli.compiler);
    s.append("\nCFLAGS := -Wall\nCFLAGS += -std=");
    s.append(ctx.cli.standard);
    s.append("\nCFLAGS += -");
    s.append(ctx.cli.opt_level);
    s.append("\nLFLAGS := ");
    s.append(link_flags.as_str());
    s.append("\n");
    makefile.append(s.as_str());
}

/// Writes the line that sets the variable of the source file `file` to the
/// files that it names.
pub fn generate_source_file_dependencies_variable_for_file(
    makefile: &mut String,
    file: &str,
    ctx: &GenerateContext,
)
    requires
        has_key(ctx@.graph, file@),
    ensures
        final(makefile)@ == old(makefile)@ + source_variable(ctx@, file@),
{
    let var_name = strip_extension(file);
    let mut s = source_file_dependencies_var_name(var_name);
    s.append(" := ");
    let unit = ctx.graph.get(file).unwrap();
    let dependencies = join(&unit.includes, " ");
    s.append(dependencies.as_str());
    s.append("\n");
    makefile.append(s.as_str());
}

/// Writes the lines that set the object directory and the variable of
/// every source file.
pub fn generate_file_variables(makefile: &mut String, ctx: &GenerateContext)
    requires
        sources_known(ctx@),
    ensures
        final(makefile)@ == old(makefile)@ + file_variables(ctx@),
{
    let ghost units = ctx@.dep_map;
    let ghost line = |u: UnitView| source_variable(ctx@, u.path);
    let mut lines = String::new();
    let mut i: usize = 0;
    assert(units.take(0).map_values(line) =~= Seq::<Seq<char>>::empty());
    while i < ctx.dep_map.len()
        invariant
            i <= units.len(),
            units == ctx@.dep_map,
            sources_known(ctx@),
            line == (|u: UnitView| source_variable(ctx@, u.path)),
            lines@ == concat(units.take(i as int).map_values(line)),
        decreases units.len() - i,
    {
        let unit = ctx.dep_map.unit(i);
        proof {
            assert(units.take(i + 1).map_values(line) =~= units.take(i as int).map_values(
                line,
            ).push(line(units[i as int])));
            lemma_concat_push(units.take(i as int).map_values(line), line(units[i as int]));
        }
        generate_source_file_dependencies_variable_for_file(&mut lines, unit.path.as_str(), ctx);
        i += 1;
    }
    assert(units.take(i as int) =~= units);
    let mut s = "\nODIR := .OBJ\n\n".to_owned();
    s.append(lines.as_str());
    s.append("\n");
    makefile.append(s.as_str());
}

/// Writes the line that sets the variable of the source file `file` to the
/// objects of all that it depends on.
pub fn generate_object_file_dependencies_variable_for_file(
    makefile: &mut String,
    file: &str,
    ctx: &GenerateContext,
)
    requires
        has_key(ctx@.dep_map, file@),
    ensures
        final(makefile)@ == old(makefile)@ + object_variable(ctx@, file@),
{
    let var_name = strip_extension(file);
    let mut s = object_file_dependencies_var_name(var_name);
    s.append(" := ");
    let unit = ctx.dep_map.get(file).unwrap();
    let ghost all = unit@.includes;
    let ghost is_source = |d: Seq<char>| extension(d) == Some(ctx@.cli.extension);
    let ghost object = |d: Seq<char>| object_of(d);
    let mut object_dependencies: Vec<String> = Vec::new();
    let mut i: usize = 0;
    assert(object_dependencies.deep_view() =~= all.take(0).filter(is_source).map_values(object))
        by {
        reveal(Seq::filter);
    }
    while i < unit.includes.len()
        invariant
            i <= unit.includes.len(),
            all == unit@.includes,
            is_source == (|d: Seq<char>| extension(d) == Some(ctx@.cli.extension)),
            object == (|d: Seq<char>| object_of(d)),
            object_dependencies.deep_view() == all.take(i as int).filter(is_source).map_values(
                object,
            ),
        decreases unit.includes.len() - i,
    {
        let d = &unit.includes[i];
        let ghost before = object_dependencies.deep_view();
        proof {
            assert(all.take(i + 1) =~= all.take(i as int).push(all[i as int]));
            all.take(i as int).lemma_filter_push(all[i as int], is_source);
        }
        if has_extension(d.as_str(), ctx.cli.extension) {
            let mut o = "$(ODIR)/".to_owned();
            o.append(escape_folder(strip_extension(d.as_str())).as_str());
            o.append(".o");
            object_dependencies.push(o);
            assert(object_dependencies.deep_view() =~= before.push(object(all[i as int])));
            assert(all.take(i as int).filter(is_source).push(all[i as int]).map_values(object)
                =~= before.push(object(all[i as int])));
        }
        i += 1;
    }
    assert(all.take(i as int) =~= all);
    s.append(join(&object_dependencies, " ").as_str());
    s.append("\n");
    makefile.append(s.as_str());
}

/// The file that the program `program`, which stands alone, is linked
/// into.
fn output_of<'a>(ctx: &GenerateContext<'a, 'a, 'a>, program: &'a str) -> (r: &'a str)
    ensures
        r@ == binary_output(ctx@, program@),
{
    let main_file = strip_extension(ctx.cli.main_file);
    if !(*program == *main_file) {
        program
    } else {
        ctx.cli.binary
    }
}

/// The target that links the program `program`, which stands alone.
fn target_of(ctx: &GenerateContext, program: &str) -> (r: String)
    ensures
        r@ == binary_target(ctx@, program@),
{
    let main_file = strip_extension(ctx.cli.main_file);
    if !(*program == *main_file) {
        let mut r = "bin_".to_owned();
        r.append(escape_folder(program).as_str());
        r
    } else {
        escape_folder(ctx.cli.binary)
    }
}

/// The source file of the program `program`.
fn source_file_of(ctx: &GenerateContext, program: &str) -> (r: String)
    ensures
        r@ == source_of(ctx@, program@),
{
    let mut r = program.to_owned();
    r.append(".");
    r.append(ctx.cli.extension);
    r
}

/// Writes the line of the target `binaries`.
fn generate_binaries_line(makefile: &mut String, ctx: &GenerateContext)
    ensures
        final(makefile)@ == old(makefile)@ + binaries_line(ctx@),
{
    let ghost members = ctx@.partitioned.standalone;
    let ghost word = |p: Seq<char>| binary_target(ctx@, p) + " "@;
    let mut names = String::new();
    let mut i: usize = 0;
    assert(members.take(0).map_values(word) =~= Seq::<Seq<char>>::empty());
    while i < ctx.partitioned.standalone.len()
        invariant
            i <= members.len(),
            members == ctx@.partitioned.standalone,
            word == (|p: Seq<char>| binary_target(ctx@, p) + " "@),
            names@ == concat(members.take(i as int).map_values(word)),
        decreases members.len() - i,
    {
        let bin_file = ctx.partitioned.standalone[i];
        proof {
            assert(members.take(i + 1).map_values(word) =~= members.take(i as int).map_values(
                word,
            ).push(word(members[i as int])));
            lemma_concat_push(members.take(i as int).map_values(word), word(members[i as int]));
        }
        let mut w = target_of(ctx, bin_file);
        w.append(" ");
        names.append(w.as_str());
        i += 1;
    }
    assert(members.take(i as int) =~= members);
    let mut s = "binaries: ".to_owned();
    s.append(names.as_str());
    s.append("\n\n");
    makefile.append(s.as_str());
}

/// Writes the variable and the rule that link the program `bin_file`,
/// which stands alone.
fn generate_binary_rule(makefile: &mut String, bin_file: &str, ctx: &GenerateContext)
    requires
        has_key(ctx@.dep_map, source_of(ctx@, bin_file@)),
    ensures
        final(makefile)@ == old(makefile)@ + binary_rule(ctx@, bin_file@),
{
    let mut variable = String::new();
    generate_object_file_dependencies_variable_for_file(
        &mut variable,
        source_file_of(ctx, bin_file).as_str(),
        ctx,
    );
    assert(variable@ =~= object_variable(ctx@, source_of(ctx@, bin_file@)));
    let dep_var = object_file_dependencies_var_name(bin_file);
    let mut s = variable;
    s.append("\n");
    s.append(target_of(ctx, bin_file).as_str());
    s.append(": $(ODIR) $(");
    s.append(dep_var.as_str());
    s.append(")\n\t$(CC) $(CFLAGS) $(");
    s.append(dep_var.as_str());
    s.append(") -o ");
    s.append(output_of(ctx, bin_file));
    s.append(" $(LFLAGS)\n\n");
    makefile.append(s.as_str());
}

/// Writes the variable and the rule that link the program `file` of one
/// of the three kinds.
fn generate_member_rule(makefile: &mut String, file: &str, ctx: &GenerateContext)
    requires
        has_key(ctx@.dep_map, source_of(ctx@, file@)),
    ensures
        final(makefile)@ == old(makefile)@ + member_rule(ctx@, file@),
{
    let mut variable = String::new();
    generate_object_file_dependencies_variable_for_file(
        &mut variable,
        source_file_of(ctx, file).as_str(),
        ctx,
    );
    assert(variable@ =~= object_variable(ctx@, source_of(ctx@, file@)));
    let dep_var = object_file_dependencies_var_name(file);
    let mut s = variable;
    s.append("\n");
    s.append(escape_folder(file).as_str());
    s.append(": $(ODIR) $(");
    s.append(dep_var.as_str());
    s.append(")\n\t$(CC) $(CFLAGS) $(");
    s.append(dep_var.as_str());
    s.append(") -o ");
    s.append(file);
    s.append("\n\n");
    makefile.append(s.as_str());
}

/// Writes the target `id` that makes all of `members` and the rules that
/// link them, or nothing where there are no members.
pub fn generate_target(makefile: &mut String, ctx: &GenerateContext, id: &str, members: &Vec<&str>)
    requires
        have_sources(ctx@, members.deep_view()),
    ensures
        final(makefile)@ == old(makefile)@ + category(ctx@, id@, members.deep_view()),
{
    if members.len() > 0 {
        let ghost all = members.deep_view();
        let ghost word = |m: Seq<char>| escaped(m) + " "@;
        let ghost rule = |m: Seq<char>| member_rule(ctx@, m);
        let mut names = String::new();
        let mut rules = String::new();
        let mut i: usize = 0;
        assert(all.take(0).map_values(word) =~= Seq::<Seq<char>>::empty());
        assert(all.take(0).map_values(rule) =~= Seq::<Seq<char>>::empty());
        while i < members.len()
            invariant
                i <= members.len(),
                all == members.deep_view(),
                have_sources(ctx@, all),
                word == (|m: Seq<char>| escaped(m) + " "@),
                rule == (|m: Seq<char>| member_rule(ctx@, m)),
                names@ == concat(all.take(i as int).map_values(word)),
                rules@ == concat(all.take(i as int).map_values(rule)),
            decreases members.len() - i,
        {
            let file = members[i];
            proof {
                assert(all[i as int] == file@);
                assert(all.take(i + 1).map_values(word) =~= all.take(i as int).map_values(
                    word,
                ).push(word(all[i as int])));
                lemma_concat_push(all.take(i as int).map_values(word), word(all[i as int]));
                assert(all.take(i + 1).map_values(rule) =~= all.take(i as int).map_values(
                    rule,
                ).push(rule(all[i as int])));
                lemma_concat_push(all.take(i as int).map_values(rule), rule(all[i as int]));
            }
            let mut w = escape_folder(file);
            w.append(" ");
            names.append(w.as_str());
            generate_member_rule(&mut rules, file, ctx);
            i += 1;
        }
        assert(all.take(i as int) =~= all);
        let mut s = id.to_owned();
        s.append(": ");
        s.append(names.as_str());
        s.append("\n\n");
        s.append(rules.as_str());
        makefile.append(s.as_str());
    } else {
        assert(makefile@ + Seq::<char>::empty() =~= makefile@);
    }
}

/// Writes the rules that compile the source files.
fn generate_compile_rules(makefile: &mut String, ctx: &GenerateContext)
    ensures
        final(makefile)@ == old(makefile)@ + compile_rules(ctx@),
{
    let ghost units = ctx@.dep_map;
    let ghost is_source = |u: UnitView| extension(u.path) == Some(ctx@.cli.extension);
    let ghost rule = |u: UnitView| compile_rule(ctx@, u.path);
    let mut rules = String::new();
    let mut i: usize = 0;
    assert(units.take(0).filter(is_source).map_values(rule) =~= Seq::<Seq<char>>::empty()) by {
        reveal(Seq::filter);
    }
    while i < ctx.dep_map.len()
        invariant
            i <= units.len(),
            units == ctx@.dep_map,
            is_source == (|u: UnitView| extension(u.path) == Some(ctx@.cli.extension)),
            rule == (|u: UnitView| compile_rule(ctx@, u.path)),
            rules@ == concat(units.take(i as int).filter(is_source).map_values(rule)),
        decreases units.len() - i,
    {
        let unit = ctx.dep_map.unit(i);
        proof {
            assert(units.take(i + 1) =~= units.take(i as int).push(units[i as int]));
            units.take(i as int).lemma_filter_push(units[i as int], is_source);
        }
        if has_extension(unit.path.as_str(), ctx.cli.extension) {
            proof {
                let done = units.take(i as int).filter(is_source);
                assert(done.push(units[i as int]).map_values(rule) =~= done.map_values(rule).push(
                    rule(units[i as int]),
                ));
                lemma_concat_push(done.map_values(rule), rule(units[i as int]));
            }
            let file = strip_extension(unit.path.as_str());
            let out = escape_folder(file);
            let mut s = "$(ODIR)/".to_owned();
            s.append(out.as_str());
            s.append(".o: $(ODIR) $(");
            s.append(source_file_dependencies_var_name(file).as_str());
            s.append(")\n\t$(CC) -c $(CFLAGS) ");
            s.append(file);
            s.append(".");
            s.append(ctx.cli.extension);
            s.append(" -o $(ODIR)/");
            s.append(out.as_str());
            s.append(".o\n\n");
            rules.append(s.as_str());
        }
        i += 1;
    }
    assert(units.take(i as int) =~= units);
    makefile.append(rules.as_str());
}

/// Writes the targets of the makefile.
pub fn generate_targets(makefile: &mut String, ctx: &GenerateContext)
    requires
        programs_have_sources(ctx@),
    ensures
        final(makefile)@ == old(makefile)@ + targets(ctx@),
{
    let mut s = "all: binaries\n\n$(ODIR):\n\t@mkdir $(ODIR)\n\n".to_owned();
    generate_binaries_line(&mut s, ctx);

    let ghost members = ctx@.partitioned.standalone;
    let ghost rule = |p: Seq<char>| binary_rule(ctx@, p);
    let mut rules = String::new();
    let mut i: usize = 0;
    assert(members.take(0).map_values(rule) =~= Seq::<Seq<char>>::empty());
    while i < ctx.partitioned.standalone.len()
        invariant
            i <= members.len(),
            members == ctx@.partitioned.standalone,
            have_sources(ctx@, members),
            rule == (|p: Seq<char>| binary_rule(ctx@, p)),
            rules@ == concat(members.take(i as int).map_values(rule)),
        decreases members.len() - i,
    {
        let bin_file = ctx.partitioned.standalone[i];
        proof {
            assert(members[i as int] == bin_file@);
            assert(members.take(i + 1).map_values(rule) =~= members.take(i as int).map_values(
                rule,
            ).push(rule(members[i as int])));
            lemma_concat_push(members.take(i as int).map_values(rule), rule(members[i as int]));
        }
        generate_binary_rule(&mut rules, bin_file, ctx);
        i += 1;
    }
    assert(members.take(i as int) =~= members);
    s.append(rules.as_str());

    generate_target(&mut s, ctx, "tests", &ctx.partitioned.tests);
    generate_target(&mut s, ctx, "benchmarks", &ctx.partitioned.benchmarks);
    generate_target(&mut s, ctx, "examples", &ctx.partitioned.examples);
    generate_compile_rules(&mut s, ctx);
    generate_clean_target(&mut s, ctx);
    makefile.append(s.as_str());
}

/// Appends to `names` every file of `files`, each followed by a space.
fn append_words(names: &mut String, files: &Vec<&str>)
    ensures
        final(names)@ == old(names)@ + concat(
            files.deep_view().map_values(|f: Seq<char>| f + " "@),
        ),
{
    let ghost all = files.deep_view();
    let ghost word = |f: Seq<char>| f + " "@;
    let mut words = String::new();
    let mut i: usize = 0;
    assert(all.take(0).map_values(word) =~= Seq::<Seq<char>>::empty());
    while i < files.len()
        invariant
            i <= files.len(),
            all == files.deep_view(),
            word == (|f: Seq<char>| f + " "@),
            words@ == concat(all.take(i as int).map_values(word)),
        decreases files.len() - i,
    {
        proof {
            assert(all[i as int] == files[i as int]@);
            assert(all.take(i + 1).map_values(word) =~= all.take(i as int).map_values(word).push(
                word(all[i as int]),
            ));
            lemma_concat_push(all.take(i as int).map_values(word), word(all[i as int]));
        }
        let mut w = files[i].to_owned();
        w.append(" ");
        words.append(w.as_str());
        i += 1;
    }
    assert(all.take(i as int) =~= all);
    names.append(words.as_str());
}

/// Writing words list after list is writing the words of the lists put
/// together.
pub proof fn lemma_concat_add(a: Seq<Seq<char>>, b: Seq<Seq<char>>)
    ensures
        concat(a + b) == concat(a) + concat(b),
    decreases b.len(),
{
    if b.len() == 0 {
        assert(a + b =~= a);
        assert(concat(a) + concat(b) =~= concat(a));
    } else {
        lemma_concat_add(a, b.drop_last());
        assert((a + b).drop_last() =~= a + b.drop_last());
        assert(concat(a + b) =~= concat(a) + concat(b));
    }
}

/// Writes the target `clean`.
pub fn generate_clean_target(makefile: &mut String, ctx: &GenerateContext)
    ensures
        final(makefile)@ == old(makefile)@ + clean_target(ctx@),
{
    let ghost word = |f: Seq<char>| f + " "@;
    let ghost output = |p: Seq<char>| binary_output(ctx@, p);
    let ghost alone = ctx@.partitioned.standalone;
    let mut outputs: Vec<&str> = Vec::new();
    let mut i: usize = 0;
    assert(outputs.deep_view() =~= alone.take(0).map_values(output));
    while i < ctx.partitioned.standalone.len()
        invariant
            i <= alone.len(),
            alone == ctx@.partitioned.standalone,
            output == (|p: Seq<char>| binary_output(ctx@, p)),
            outputs.deep_view() == alone.take(i as int).map_values(output),
        decreases alone.len() - i,
    {
        let ghost before = outputs.deep_view();
        let f = ctx.partitioned.standalone[i];
        assert(alone[i as int] == f@);
        outputs.push(output_of(ctx, f));
        i += 1;
        assert(outputs.deep_view() =~= before.push(output(alone[i - 1])));
        assert(alone.take(i as int).map_values(output) =~= before.push(output(alone[i - 1])));
    }
    assert(alone.take(i as int) =~= alone);
    let mut names = String::new();
    append_words(&mut names, &outputs);
    append_words(&mut names, &ctx.partitioned.tests);
    append_words(&mut names, &ctx.partitioned.benchmarks);
    append_words(&mut names, &ctx.partitioned.examples);
    proof {
        let a = alone.map_values(output);
        let b = ctx@.partitioned.tests;
        let c = ctx@.partitioned.benchmarks;
        let d = ctx@.partitioned.examples;
        assert((a + b + c + d).map_values(word) =~= a.map_values(word) + b.map_values(word)
            + c.map_values(word) + d.map_values(word));
        lemma_concat_add(a.map_values(word) + b.map_values(word) + c.map_values(word), d.map_values(word));
        lemma_concat_add(a.map_values(word) + b.map_values(word), c.map_values(word));
        lemma_concat_add(a.map_values(word), b.map_values(word));
        assert(names@ =~= concat(produced(ctx@).map_values(word)));
    }
    let mut s = ".PHONY: clean\nclean:\n\trm -rf .OBJ ".to_owned();
    s.append(names.as_str());
    s.append("\n");
    makefile.append(s.as_str());
}

/// The source file of the first program among `members` that has none in
/// the graph of source files.
pub open spec fn first_missing(ctx: ContextView, members: Seq<Seq<char>>) -> Option<Seq<char>>
    decreases members.len(),
{
    if members.len() == 0 {
        None
    } else if !has_key(ctx.dep_map, source_of(ctx, members[0])) {
        Some(source_of(ctx, members[0]))
    } else {
        first_missing(ctx, members.drop_first())
    }
}

/// The source file of the first program that has none in the graph of
/// source files: of those that stand alone, then of the tests, the
/// benchmarks and the examples.
pub open spec fn missing_source(ctx: ContextView) -> Option<Seq<char>> {
    if first_missing(ctx, ctx.partitioned.standalone) is Some {
        first_missing(ctx, ctx.partitioned.standalone)
    } else if first_missing(ctx, ctx.partitioned.tests) is Some {
        first_missing(ctx, ctx.partitioned.tests)
    } else if first_missing(ctx, ctx.partitioned.benchmarks) is Some {
        first_missing(ctx, ctx.partitioned.benchmarks)
    } else {
        first_missing(ctx, ctx.partitioned.examples)
    }
}

/// No source file is missing exactly when every program has its own.
pub proof fn lemma_first_missing(ctx: ContextView, members: Seq<Seq<char>>)
    ensures
        first_missing(ctx, members) is None <==> have_sources(ctx, members),
        first_missing(ctx, members) matches Some(file) ==> !has_key(ctx.dep_map, file),
    decreases members.len(),
{
    if members.len() > 0 {
        let rest = members.drop_first();
        lemma_first_missing(ctx, rest);
        if has_key(ctx.dep_map, source_of(ctx, members[0])) {
            if have_sources(ctx, rest) {
                assert forall|i: int| 0 <= i < members.len() implies has_key(
                    ctx.dep_map,
                    source_of(ctx, #[trigger] members[i]),
                ) by {
                    if i > 0 {
                        assert(members[i] == rest[i - 1]);
                    }
                }
            }
            if have_sources(ctx, members) {
                assert forall|i: int| 0 <= i < rest.len() implies has_key(
                    ctx.dep_map,
                    source_of(ctx, #[trigger] rest[i]),
                ) by {
                    assert(rest[i] == members[i + 1]);
                }
            }
        }
    }
}

/// No source file is missing exactly when every program has its own.
pub proof fn lemma_missing_source(ctx: ContextView)
    ensures
        missing_source(ctx) is None <==> programs_have_sources(ctx),
        missing_source(ctx) matches Some(file) ==> !has_key(ctx.dep_map, file),
{
    lemma_first_missing(ctx, ctx.partitioned.standalone);
    lemma_first_missing(ctx, ctx.partitioned.tests);
    lemma_first_missing(ctx, ctx.partitioned.benchmarks);
    lemma_first_missing(ctx, ctx.partitioned.examples);
}

/// The source file of the first program among `members` that has none in
/// the graph of source files.
fn find_missing(ctx: &GenerateContext, members: &Vec<&str>) -> (r: Option<String>)
    ensures
        match r {
            Some(file) => first_missing(ctx@, members.deep_view()) == Some(file@),
            None => first_missing(ctx@, members.deep_view()) is None,
        },
{
    let ghost all = members.deep_view();
    let mut i: usize = 0;
    assert(all.skip(0) =~= all);
    while i < members.len()
        invariant
            i <= members.len(),
            all == members.deep_view(),
            first_missing(ctx@, all) == first_missing(ctx@, all.skip(i as int)),
        decreases members.len() - i,
    {
        let file = source_file_of(ctx, members[i]);
        proof {
            assert(all.skip(i as int)[0] == members[i as int]@);
            assert(all.skip(i as int).drop_first() =~= all.skip(i + 1));
        }
        if !ctx.dep_map.contains_key(file.as_str()) {
            return Some(file);
        }
        i += 1;
    }
    None
}

/// The source file of the first program that has none in the graph of
/// source files.
pub fn find_missing_source(ctx: &GenerateContext) -> (r: Option<String>)
    ensures
        match r {
            Some(file) => missing_source(ctx@) == Some(file@),
            None => missing_source(ctx@) is None && programs_have_sources(ctx@),
        },
{
    proof {
        lemma_missing_source(ctx@);
    }
    match find_missing(ctx, &ctx.partitioned.standalone) {
        Some(file) => {
            return Some(file);
        },
        None => {},
    }
    match find_missing(ctx, &ctx.partitioned.tests) {
        Some(file) => {
            return Some(file);
        },
        None => {},
    }
    match find_missing(ctx, &ctx.partitioned.benchmarks) {
        Some(file) => {
            return Some(file);
        },
        None => {},
    }
    find_missing(ctx, &ctx.partitioned.examples)
}

/// A program whose source file is not in the graph.
#[derive(Debug)]
pub struct MissingSource {
    /// The source file that the program would be compiled from.
    pub path: String,
}

/// What the makefile of a project is written from: the settings, the
/// graph and the libraries, with the programs and the source files that
/// follow from them.
pub open spec fn context_of(cli: CliView, graph: Seq<UnitView>, dlls: Seq<Seq<char>>) -> ContextView {
    ContextView {
        cli,
        partitioned: partitioned(cli, graph),
        graph,
        dep_map: flattened(graph, cli.extension),
        dlls,
    }
}

/// Every source file of a graph is a file of the graph.
pub proof fn lemma_sources_known(cli: CliView, graph: Seq<UnitView>, dlls: Seq<Seq<char>>)
    ensures
        sources_known(context_of(cli, graph, dlls)),
{
    let ctx = context_of(cli, graph, dlls);
    let is_source = |u: UnitView| extension(u.path) == Some(cli.extension);
    let kept = sources(graph, cli.extension);
    assert forall|i: int| 0 <= i < ctx.dep_map.len() implies has_key(
        ctx.graph,
        (#[trigger] ctx.dep_map[i]).path,
    ) by {
        assert(ctx.dep_map[i].path == kept[i].path);
        assert(kept.contains(kept[i]));
        graph.lemma_filter_contains_rev(is_source, kept[i]);
        let k = choose|k: int| 0 <= k < graph.len() && graph[k] == kept[i];
        assert(graph[k].path == kept[i].path);
    }
}

/// The makefile of the project that `parse_result` describes, or the
/// source file that a program lacks: a file with an entry point is no
/// program unless the source file of its stem is in the graph.
pub fn generate_makefile(cli: &Cli, parse_result: &ParseResult) -> (r: Result<String, MissingSource>)
    ensures
        match r {
            Ok(makefile) => {
                &&& missing_source(
                    context_of(cli@, parse_result.dependency_map@, parse_result.dlls.deep_view()),
                ) is None
                &&& makefile@ == makefile_text(
                    context_of(cli@, parse_result.dependency_map@, parse_result.dlls.deep_view()),
                )
            },
            Err(e) => missing_source(
                context_of(cli@, parse_result.dependency_map@, parse_result.dlls.deep_view()),
            ) == Some(e.path@),
        },
{
    let dep_map = flatten_dependencies(&parse_result.dependency_map, cli.extension);
    let partitioned = PartitionedFiles::partition(cli, &parse_result.dependency_map);
    let ctx = GenerateContext::new(
        cli,
        &partitioned,
        &parse_result.dependency_map,
        &dep_map,
        &parse_result.dlls,
    );
    assert(ctx@ == context_of(cli@, parse_result.dependency_map@, parse_result.dlls.deep_view()));
    match find_missing_source(&ctx) {
        Some(path) => {
            return Err(MissingSource { path });
        },
        None => {},
    }
    proof {
        lemma_sources_known(cli@, parse_result.dependency_map@, parse_result.dlls.deep_view());
    }
    let mut makefile = String::new();
    generate_compiler_variables(&mut makefile, &ctx);
    generate_file_variables(&mut makefile, &ctx);
    generate_targets(&mut makefile, &ctx);
    assert(makefile@ =~= makefile_text(ctx@));
    Ok(makefile)
}

} // verus!
