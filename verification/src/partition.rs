//! The programs of a project, by kind.
//!
//! Every file with an entry point gives a program, named by the file's
//! stem. A program is a test, a benchmark or an example where the settings
//! name it, or a directory or prefix it lies under, as one; a program that
//! they name as none of the three stands alone. The three kinds are looked
//! at one by one: a program that the settings name as two of them is
//! listed under both.

use crate::cli::{Cli, CliView};
use crate::filename_utils::{stem, strip_extension};
use crate::graph::{DependencyMap, UnitView};
use crate::text::starts_with;
use vstd::prelude::*;

verus! {

/// The programs of a project, by kind.
pub struct PartitionedFiles<'f> {
    pub standalone: Vec<&'f str>,
    pub tests: Vec<&'f str>,
    pub benchmarks: Vec<&'f str>,
    pub examples: Vec<&'f str>,
}

/// What a `PartitionedFiles` holds, as mathematical values.
pub struct PartitionView {
    pub standalone: Seq<Seq<char>>,
    pub tests: Seq<Seq<char>>,
    pub benchmarks: Seq<Seq<char>>,
    pub examples: Seq<Seq<char>>,
}

impl<'f> View for PartitionedFiles<'f> {
    type V = PartitionView;

    open spec fn view(&self) -> PartitionView {
        PartitionView {
            standalone: self.standalone.deep_view(),
            tests: self.tests.deep_view(),
            benchmarks: self.benchmarks.deep_view(),
            examples: self.examples.deep_view(),
        }
    }
}

/// The programs of `g`: the stems of its units with an entry point, in
/// their order.
pub open spec fn programs(g: Seq<UnitView>) -> Seq<Seq<char>> {
    g.filter(|u: UnitView| u.has_main).map_values(|u: UnitView| stem(u.path))
}

/// Whether one of `names` claims `program`: the name's stem is the program
/// or a prefix of it, character by character.
pub open spec fn claimed(program: Seq<char>, names: Seq<Seq<char>>) -> bool {
    exists|i: int| 0 <= i < names.len() && stem(#[trigger] names[i]).is_prefix_of(program)
}

/// Whether `program` is of none of the three kinds.
pub open spec fn unclaimed(program: Seq<char>, cli: CliView) -> bool {
    !claimed(program, cli.tests) && !claimed(program, cli.benchmarks) && !claimed(
        program,
        cli.examples,
    )
}

/// The programs of `g` by kind, each kind in the order of `g`.
pub open spec fn partitioned(cli: CliView, g: Seq<UnitView>) -> PartitionView {
    PartitionView {
        standalone: programs(g).filter(|p: Seq<char>| unclaimed(p, cli)),
        tests: programs(g).filter(|p: Seq<char>| claimed(p, cli.tests)),
        benchmarks: programs(g).filter(|p: Seq<char>| claimed(p, cli.benchmarks)),
        examples: programs(g).filter(|p: Seq<char>| claimed(p, cli.examples)),
    }
}

/// Every unit with an entry point gives a program.
pub proof fn lemma_programs_contains(g: Seq<UnitView>, i: int)
    requires
        0 <= i < g.len(),
        g[i].has_main,
    ensures
        programs(g).contains(stem(g[i].path)),
{
    let with_main = g.filter(|u: UnitView| u.has_main);
    g.lemma_filter_contains(|u: UnitView| u.has_main, i);
    let k = choose|k: int| 0 <= k < with_main.len() && with_main[k] == g[i];
    assert(programs(g)[k] == stem(g[i].path));
}

/// A program whose name is the stem of a name given for tests is a test
/// and does not stand alone.
pub proof fn lemma_named_test(cli: CliView, g: Seq<UnitView>, i: int, k: int)
    requires
        0 <= i < g.len(),
        g[i].has_main,
        0 <= k < cli.tests.len(),
        stem(cli.tests[k]) == stem(g[i].path),
    ensures
        partitioned(cli, g).tests.contains(stem(g[i].path)),
        !partitioned(cli, g).standalone.contains(stem(g[i].path)),
{
    let program = stem(g[i].path);
    lemma_programs_contains(g, i);
    let all = programs(g);
    let j = choose|j: int| 0 <= j < all.len() && all[j] == program;
    assert(program =~= program.subrange(0, program.len() as int));
    assert(stem(cli.tests[k]).is_prefix_of(program));
    assert(claimed(program, cli.tests));
    all.lemma_filter_contains(|p: Seq<char>| claimed(p, cli.tests), j);
    let alone = all.filter(|p: Seq<char>| unclaimed(p, cli));
    if alone.contains(program) {
        let a = choose|a: int| 0 <= a < alone.len() && alone[a] == program;
        all.lemma_filter_pred(|p: Seq<char>| unclaimed(p, cli), a);
    }
}

/// Every program is listed: alone or under at least one kind, and never
/// both.
pub proof fn lemma_partition_covers(cli: CliView, g: Seq<UnitView>, program: Seq<char>)
    requires
        programs(g).contains(program),
    ensures
        partitioned(cli, g).standalone.contains(program) <==> !(partitioned(cli, g).tests.contains(
            program,
        ) || partitioned(cli, g).benchmarks.contains(program) || partitioned(
            cli,
            g,
        ).examples.contains(program)),
{
    let all = programs(g);
    let j = choose|j: int| 0 <= j < all.len() && all[j] == program;
    let parts = partitioned(cli, g);
    if unclaimed(program, cli) {
        all.lemma_filter_contains(|p: Seq<char>| unclaimed(p, cli), j);
    }
    if claimed(program, cli.tests) {
        all.lemma_filter_contains(|p: Seq<char>| claimed(p, cli.tests), j);
    }
    if claimed(program, cli.benchmarks) {
        all.lemma_filter_contains(|p: Seq<char>| claimed(p, cli.benchmarks), j);
    }
    if claimed(program, cli.examples) {
        all.lemma_filter_contains(|p: Seq<char>| claimed(p, cli.examples), j);
    }
    if parts.standalone.contains(program) {
        let a = choose|a: int| 0 <= a < parts.standalone.len() && parts.standalone[a] == program;
        all.lemma_filter_pred(|p: Seq<char>| unclaimed(p, cli), a);
    }
    if parts.tests.contains(program) {
        let a = choose|a: int| 0 <= a < parts.tests.len() && parts.tests[a] == program;
        all.lemma_filter_pred(|p: Seq<char>| claimed(p, cli.tests), a);
    }
    if parts.benchmarks.contains(program) {
        let a = choose|a: int| 0 <= a < parts.benchmarks.len() && parts.benchmarks[a] == program;
        all.lemma_filter_pred(|p: Seq<char>| claimed(p, cli.benchmarks), a);
    }
    if parts.examples.contains(program) {
        let a = choose|a: int| 0 <= a < parts.examples.len() && parts.examples[a] == program;
        all.lemma_filter_pred(|p: Seq<char>| claimed(p, cli.examples), a);
    }
}

/// Whether one of `names` claims `program`.
pub fn contained_in_partition(names: &Vec<&str>, program: &str) -> (r: bool)
    ensures
        r == claimed(program@, names.deep_view()),
{
    let mut i: usize = 0;
    while i < names.len()
        invariant
            i <= names.len(),
            forall|j: int| 0 <= j < i ==> !stem(#[trigger] names.deep_view()[j]).is_prefix_of(program@),
        decreases names.len() - i,
    {
        let f = strip_extension(names[i]);
        assert(names.deep_view()[i as int] == names[i as int]@);
        if starts_with(program, f) {
            return true;
        }
        i += 1;
    }
    false
}

/// The programs among `with_main` that one of `names` claims.
fn claimed_by<'f>(with_main: &Vec<&'f str>, names: &Vec<&str>) -> (r: Vec<&'f str>)
    ensures
        r.deep_view() == with_main.deep_view().filter(
            |p: Seq<char>| claimed(p, names.deep_view()),
        ),
{
    let ghost all = with_main.deep_view();
    let ghost wanted = |p: Seq<char>| claimed(p, names.deep_view());
    let mut r: Vec<&'f str> = Vec::new();
    let mut i: usize = 0;
    assert(r.deep_view() =~= all.take(0).filter(wanted)) by {
        reveal(Seq::filter);
    }
    while i < with_main.len()
        invariant
            i <= with_main.len(),
            all == with_main.deep_view(),
            wanted == (|p: Seq<char>| claimed(p, names.deep_view())),
            r.deep_view() == all.take(i as int).filter(wanted),
        decreases with_main.len() - i,
    {
        let ghost before = r.deep_view();
        proof {
            assert(all.take(i + 1) =~= all.take(i as int).push(all[i as int]));
            all.take(i as int).lemma_filter_push(all[i as int], wanted);
        }
        if contained_in_partition(names, with_main[i]) {
            r.push(with_main[i]);
            assert(r.deep_view() =~= before.push(all[i as int]));
        }
        i += 1;
    }
    assert(all.take(i as int) =~= all);
    r
}

impl<'f> PartitionedFiles<'f> {
    /// The programs of `map`, by kind.
    pub fn partition(cli: &Cli, map: &'f DependencyMap) -> (r: Self)
        ensures
            r@ == partitioned(cli@, map@),
    {
        let ghost g = map@;
        let ghost entry = |u: UnitView| u.has_main;
        let ghost name = |u: UnitView| stem(u.path);
        let mut with_main: Vec<&'f str> = Vec::new();
        let mut i: usize = 0;
        assert(with_main.deep_view() =~= g.take(0).filter(entry).map_values(name)) by {
            reveal(Seq::filter);
        }
        while i < map.len()
            invariant
                i <= g.len(),
                g == map@,
                entry == (|u: UnitView| u.has_main),
                name == (|u: UnitView| stem(u.path)),
                with_main.deep_view() == g.take(i as int).filter(entry).map_values(name),
            decreases g.len() - i,
        {
            let unit = map.unit(i);
            let ghost before = with_main.deep_view();
            proof {
                assert(g.take(i + 1) =~= g.take(i as int).push(g[i as int]));
                g.take(i as int).lemma_filter_push(g[i as int], entry);
            }
            if unit.has_main {
                with_main.push(strip_extension(unit.path.as_str()));
                assert(with_main.deep_view() =~= before.push(name(g[i as int])));
                assert(g.take(i as int).filter(entry).push(g[i as int]).map_values(name)
                    =~= before.push(name(g[i as int])));
            }
            i += 1;
        }
        assert(g.take(i as int) =~= g);
        let tests = claimed_by(&with_main, &cli.tests);
        let benchmarks = claimed_by(&with_main, &cli.benchmarks);
        let examples = claimed_by(&with_main, &cli.examples);

        let ghost all = with_main.deep_view();
        let ghost alone = |p: Seq<char>| unclaimed(p, cli@);
        let mut standalone: Vec<&'f str> = Vec::new();
        let mut k: usize = 0;
        assert(standalone.deep_view() =~= all.take(0).filter(alone)) by {
            reveal(Seq::filter);
        }
        while k < with_main.len()
            invariant
                k <= with_main.len(),
                all == with_main.deep_view(),
                alone == (|p: Seq<char>| unclaimed(p, cli@)),
                standalone.deep_view() == all.take(k as int).filter(alone),
            decreases with_main.len() - k,
        {
            let ghost before = standalone.deep_view();
            proof {
                assert(all.take(k + 1) =~= all.take(k as int).push(all[k as int]));
                all.take(k as int).lemma_filter_push(all[k as int], alone);
            }
            let v = with_main[k];
            if !contained_in_partition(&cli.tests, v) && !contained_in_partition(
                &cli.benchmarks,
                v,
            ) && !contained_in_partition(&cli.examples, v) {
                standalone.push(v);
                assert(standalone.deep_view() =~= before.push(all[k as int]));
            }
            k += 1;
        }
        assert(all.take(k as int) =~= all);
        Self { standalone, tests, benchmarks, examples }
    }
}

} // verus!
