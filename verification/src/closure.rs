//! What a file depends on, directly or through other files.
//!
//! The files are visited depth first from the file asked for. A file is
//! listed when it is first visited, and never twice, so a graph with cycles
//! is walked like any other. After a file, the walk goes on to every file
//! it names and to that file's complement: the header beside a source
//! file, the source file beside a header.

use crate::filename_utils::{extension, has_extension, stem, strip_extension};
use crate::graph::{distinct_keys, has_key, unit_of, DependencyMap, UnitView};
use vstd::hash_set::StringHashSet;
use vstd::prelude::*;

verus! {

/// The complement of `path` where `ext` is the extension of source files:
/// the header of the same stem for a source file, the source file of the
/// same stem for anything else.
pub open spec fn complement(path: Seq<char>, ext: Seq<char>) -> Seq<char> {
    if extension(path) == Some(ext) {
        stem(path) + ".h"@
    } else {
        stem(path) + "."@ + ext
    }
}

/// The files to visit after a file that names `includes`, as a stack whose
/// top is its last element: each named file on top of its complement, the
/// first named file on top of all.
pub open spec fn pending(includes: Seq<Seq<char>>, ext: Seq<char>) -> Seq<Seq<char>>
    decreases includes.len(),
{
    if includes.len() == 0 {
        Seq::empty()
    } else {
        pending(includes.drop_first(), ext).push(complement(includes[0], ext)).push(includes[0])
    }
}

/// The number of units of `g` whose path is not in `out`.
pub open spec fn unvisited(g: Seq<UnitView>, out: Seq<Seq<char>>) -> nat
    decreases g.len(),
{
    if g.len() == 0 {
        0
    } else if out.contains(g.last().path) {
        unvisited(g.drop_last(), out)
    } else {
        unvisited(g.drop_last(), out) + 1
    }
}

/// Listing one more path leaves no more units unvisited, and fewer where
/// the path is a key that was not listed.
pub proof fn lemma_unvisited_push(g: Seq<UnitView>, out: Seq<Seq<char>>, p: Seq<char>)
    ensures
        unvisited(g, out.push(p)) <= unvisited(g, out),
        has_key(g, p) && !out.contains(p) ==> unvisited(g, out.push(p)) < unvisited(g, out),
    decreases g.len(),
{
    if g.len() > 0 {
        let h = g.drop_last();
        lemma_unvisited_push(h, out, p);
        let last = g.last().path;
        assert(out.push(p)[out.len() as int] == p);
        if out.contains(last) {
            let k = choose|k: int| 0 <= k < out.len() && out[k] == last;
            assert(out.push(p)[k] == last);
        }
        if has_key(g, p) && !out.contains(p) && last != p {
            let i = choose|i: int| 0 <= i < g.len() && (#[trigger] g[i]).path == p;
            assert(h[i].path == p);
        }
    }
}

/// The list `out` after the walk has emptied `stack`, a stack whose top is
/// its last element. The file on top is taken off. Where it is a key of
/// `g` that `out` lacks, it is added to `out` and the files to visit after
/// it are put on the stack; otherwise nothing else changes.
pub open spec fn drain(
    g: Seq<UnitView>,
    ext: Seq<char>,
    stack: Seq<Seq<char>>,
    out: Seq<Seq<char>>,
) -> Seq<Seq<char>>
    decreases unvisited(g, out), stack.len(),
{
    if stack.len() == 0 {
        out
    } else {
        let p = stack.last();
        if has_key(g, p) && !out.contains(p) {
            proof {
                lemma_unvisited_push(g, out, p);
            }
            drain(g, ext, stack.drop_last() + pending(unit_of(g, p).includes, ext), out.push(p))
        } else {
            drain(g, ext, stack.drop_last(), out)
        }
    }
}

/// What `file` depends on in `g`, itself first, in the order of the first
/// visit. It is empty where `file` is no key of `g`.
pub open spec fn closure(g: Seq<UnitView>, ext: Seq<char>, file: Seq<char>) -> Seq<Seq<char>> {
    drain(g, ext, seq![file], Seq::empty())
}

/// Every path of `s` is a key of `g`.
pub open spec fn all_keys(g: Seq<UnitView>, s: Seq<Seq<char>>) -> bool {
    forall|i: int| 0 <= i < s.len() ==> has_key(g, #[trigger] s[i])
}

/// Every key of `g` that a file of `out` names, and every key that is the
/// complement of a file it names, is in `out` or on `stack`.
pub open spec fn followed(
    g: Seq<UnitView>,
    ext: Seq<char>,
    stack: Seq<Seq<char>>,
    out: Seq<Seq<char>>,
) -> bool {
    forall|i: int, k: int|
        #![trigger out[i], unit_of(g, out[i]).includes[k]]
        0 <= i < out.len() && 0 <= k < unit_of(g, out[i]).includes.len() ==> {
            let d = unit_of(g, out[i]).includes[k];
            &&& has_key(g, d) ==> out.contains(d) || stack.contains(d)
            &&& has_key(g, complement(d, ext)) ==> out.contains(complement(d, ext))
                || stack.contains(complement(d, ext))
        }
}

/// The stack of files to visit holds every named file and its complement.
pub proof fn lemma_pending_contains(includes: Seq<Seq<char>>, ext: Seq<char>, k: int)
    requires
        0 <= k < includes.len(),
    ensures
        pending(includes, ext).contains(includes[k]),
        pending(includes, ext).contains(complement(includes[k], ext)),
    decreases includes.len(),
{
    let rest = pending(includes.drop_first(), ext);
    let all = pending(includes, ext);
    assert(all == rest.push(complement(includes[0], ext)).push(includes[0]));
    if k == 0 {
        assert(all[rest.len() as int] == complement(includes[0], ext));
        assert(all[rest.len() as int + 1] == includes[0]);
    } else {
        lemma_pending_contains(includes.drop_first(), ext, k - 1);
        assert(includes.drop_first()[k - 1] == includes[k]);
        let a = choose|a: int| 0 <= a < rest.len() && rest[a] == includes[k];
        assert(all[a] == includes[k]);
        let b = choose|b: int| 0 <= b < rest.len() && rest[b] == complement(includes[k], ext);
        assert(all[b] == complement(includes[k], ext));
    }
}

/// The walk lists keys of the graph only, lists no file twice, and keeps
/// what was listed before it, at its place.
pub proof fn lemma_drain(
    g: Seq<UnitView>,
    ext: Seq<char>,
    stack: Seq<Seq<char>>,
    out: Seq<Seq<char>>,
)
    ensures
        out.is_prefix_of(drain(g, ext, stack, out)),
        all_keys(g, out) ==> all_keys(g, drain(g, ext, stack, out)),
        out.no_duplicates() ==> drain(g, ext, stack, out).no_duplicates(),
    decreases unvisited(g, out), stack.len(),
{
    if stack.len() > 0 {
        let p = stack.last();
        let result = drain(g, ext, stack, out);
        if has_key(g, p) && !out.contains(p) {
            lemma_unvisited_push(g, out, p);
            let next = out.push(p);
            lemma_drain(g, ext, stack.drop_last() + pending(unit_of(g, p).includes, ext), next);
            assert(out =~= result.subrange(0, out.len() as int)) by {
                assert(next =~= result.subrange(0, next.len() as int));
                assert forall|i: int| 0 <= i < out.len() implies out[i] == result[i] by {
                    assert(next[i] == result.subrange(0, next.len() as int)[i]);
                }
            }
            if all_keys(g, out) {
                assert forall|i: int| 0 <= i < next.len() implies has_key(g, #[trigger] next[i]) by {
                    if i < out.len() {
                        assert(next[i] == out[i]);
                    }
                }
            }
            if out.no_duplicates() {
                assert forall|i: int, j: int|
                    0 <= i < next.len() && 0 <= j < next.len() && i != j implies next[i]
                    != next[j] by {
                    if i < out.len() && j < out.len() {
                    } else if i < out.len() {
                        assert(out[i] == next[i]);
                    } else {
                        assert(out[j] == next[j]);
                    }
                }
            }
        } else {
            lemma_drain(g, ext, stack.drop_last(), out);
        }
    } else {
        assert(out =~= out.subrange(0, out.len() as int));
    }
}

/// When the walk ends, it has followed every file it lists: what such a
/// file names is listed where it is a key, and so is the complement of
/// what it names.
pub proof fn lemma_drain_follows(
    g: Seq<UnitView>,
    ext: Seq<char>,
    stack: Seq<Seq<char>>,
    out: Seq<Seq<char>>,
)
    requires
        followed(g, ext, stack, out),
    ensures
        followed(g, ext, Seq::empty(), drain(g, ext, stack, out)),
    decreases unvisited(g, out), stack.len(),
{
    if stack.len() > 0 {
        let p = stack.last();
        let rest = stack.drop_last();
        if has_key(g, p) && !out.contains(p) {
            lemma_unvisited_push(g, out, p);
            let next = out.push(p);
            let next_stack = rest + pending(unit_of(g, p).includes, ext);
            assert forall|x: Seq<char>| out.contains(x) || stack.contains(x) implies next.contains(
                x,
            ) || next_stack.contains(x) by {
                if out.contains(x) {
                    let i = choose|i: int| 0 <= i < out.len() && out[i] == x;
                    assert(next[i] == x);
                } else {
                    let i = choose|i: int| 0 <= i < stack.len() && stack[i] == x;
                    if i == stack.len() - 1 {
                        assert(next[out.len() as int] == x);
                    } else {
                        assert(next_stack[i] == x);
                    }
                }
            }
            assert forall|i: int, k: int|
                #![trigger next[i], unit_of(g, next[i]).includes[k]]
                0 <= i < next.len() && 0 <= k < unit_of(g, next[i]).includes.len() implies {
                let d = unit_of(g, next[i]).includes[k];
                &&& has_key(g, d) ==> next.contains(d) || next_stack.contains(d)
                &&& has_key(g, complement(d, ext)) ==> next.contains(complement(d, ext))
                    || next_stack.contains(complement(d, ext))
            } by {
                let d = unit_of(g, next[i]).includes[k];
                if i < out.len() {
                    assert(next[i] == out[i]);
                    assert(unit_of(g, out[i]).includes[k] == d);
                } else {
                    let found = pending(unit_of(g, p).includes, ext);
                    lemma_pending_contains(unit_of(g, p).includes, ext, k);
                    let a = choose|a: int| 0 <= a < found.len() && found[a] == d;
                    assert(next_stack[rest.len() + a] == d);
                    let b = choose|b: int|
                        0 <= b < found.len() && found[b] == complement(d, ext);
                    assert(next_stack[rest.len() + b] == complement(d, ext));
                }
            }
            lemma_drain_follows(g, ext, next_stack, next);
        } else {
            assert forall|x: Seq<char>|
                has_key(g, x) && (out.contains(x) || stack.contains(x)) implies out.contains(x)
                || rest.contains(x) by {
                if !out.contains(x) {
                    let i = choose|i: int| 0 <= i < stack.len() && stack[i] == x;
                    if i < stack.len() - 1 {
                        assert(rest[i] == x);
                    }
                }
            }
            lemma_drain_follows(g, ext, rest, out);
        }
    } else {
        assert(stack =~= Seq::<Seq<char>>::empty());
    }
}

/// Whether one of the first `bound` files of `out` names `x`, or names the
/// file that `x` is the complement of.
pub open spec fn led_to(
    g: Seq<UnitView>,
    ext: Seq<char>,
    out: Seq<Seq<char>>,
    bound: int,
    x: Seq<char>,
) -> bool {
    exists|i: int, k: int|
        #![trigger out[i], unit_of(g, out[i]).includes[k]]
        0 <= i < bound && i < out.len() && 0 <= k < unit_of(g, out[i]).includes.len() && (x
            == unit_of(g, out[i]).includes[k] || x == complement(
            unit_of(g, out[i]).includes[k],
            ext,
        ))
}

/// Every file of `out` is `root` or a file that an earlier file of `out`
/// led to.
pub open spec fn traced(
    g: Seq<UnitView>,
    ext: Seq<char>,
    root: Seq<char>,
    out: Seq<Seq<char>>,
) -> bool {
    forall|j: int| 0 <= j < out.len() ==> #[trigger] out[j] == root || led_to(g, ext, out, j, out[j])
}

/// Every file on `stack` is `root` or a file that a file of `out` led to.
pub open spec fn awaited(
    g: Seq<UnitView>,
    ext: Seq<char>,
    root: Seq<char>,
    stack: Seq<Seq<char>>,
    out: Seq<Seq<char>>,
) -> bool {
    forall|j: int|
        0 <= j < stack.len() ==> #[trigger] stack[j] == root || led_to(
            g,
            ext,
            out,
            out.len() as int,
            stack[j],
        )
}

/// The stack of files to visit holds named files and their complements
/// only.
pub proof fn lemma_pending_named(includes: Seq<Seq<char>>, ext: Seq<char>, j: int)
    requires
        0 <= j < pending(includes, ext).len(),
    ensures
        exists|k: int|
            0 <= k < includes.len() && (pending(includes, ext)[j] == #[trigger] includes[k]
                || pending(includes, ext)[j] == complement(includes[k], ext)),
    decreases includes.len(),
{
    if includes.len() > 0 {
        let rest = pending(includes.drop_first(), ext);
        if j < rest.len() {
            lemma_pending_named(includes.drop_first(), ext, j);
            let k = choose|k: int|
                0 <= k < includes.drop_first().len() && (rest[j]
                    == #[trigger] includes.drop_first()[k] || rest[j] == complement(
                    includes.drop_first()[k],
                    ext,
                ));
            assert(includes.drop_first()[k] == includes[k + 1]);
        } else {
            assert(pending(includes, ext)[j] == includes[0] || pending(includes, ext)[j]
                == complement(includes[0], ext));
        }
    }
}

/// The walk lists nothing but the file it started from and what the
/// listed files led to.
pub proof fn lemma_drain_traced(
    g: Seq<UnitView>,
    ext: Seq<char>,
    root: Seq<char>,
    stack: Seq<Seq<char>>,
    out: Seq<Seq<char>>,
)
    requires
        traced(g, ext, root, out),
        awaited(g, ext, root, stack, out),
    ensures
        traced(g, ext, root, drain(g, ext, stack, out)),
    decreases unvisited(g, out), stack.len(),
{
    if stack.len() > 0 {
        let p = stack.last();
        let rest = stack.drop_last();
        if has_key(g, p) && !out.contains(p) {
            lemma_unvisited_push(g, out, p);
            let next = out.push(p);
            let found = pending(unit_of(g, p).includes, ext);
            let next_stack = rest + found;
            assert forall|x: Seq<char>, bound: int|
                bound <= out.len() && led_to(g, ext, out, bound, x) implies led_to(
                g,
                ext,
                next,
                bound,
                x,
            ) by {
                let (i, k) = choose|i: int, k: int|
                    #![trigger out[i], unit_of(g, out[i]).includes[k]]
                    0 <= i < bound && i < out.len() && 0 <= k < unit_of(g, out[i]).includes.len()
                        && (x == unit_of(g, out[i]).includes[k] || x == complement(
                        unit_of(g, out[i]).includes[k],
                        ext,
                    ));
                assert(next[i] == out[i]);
                assert(x == unit_of(g, next[i]).includes[k] || x == complement(
                    unit_of(g, next[i]).includes[k],
                    ext,
                ));
            }
            assert forall|j: int| 0 <= j < next.len() implies #[trigger] next[j] == root
                || led_to(g, ext, next, j, next[j]) by {
                if j < out.len() {
                    assert(next[j] == out[j]);
                } else {
                    assert(stack[stack.len() - 1] == p);
                }
            }
            assert forall|j: int| 0 <= j < next_stack.len() implies #[trigger] next_stack[j]
                == root || led_to(g, ext, next, next.len() as int, next_stack[j]) by {
                if j < rest.len() {
                    assert(next_stack[j] == stack[j]);
                } else {
                    let a = j - rest.len();
                    assert(next_stack[j] == found[a]);
                    lemma_pending_named(unit_of(g, p).includes, ext, a);
                    let k = choose|k: int|
                        0 <= k < unit_of(g, p).includes.len() && (found[a]
                            == #[trigger] unit_of(g, p).includes[k] || found[a] == complement(
                            unit_of(g, p).includes[k],
                            ext,
                        ));
                    let i = out.len() as int;
                    assert(next[i] == p);
                    assert(next_stack[j] == unit_of(g, next[i]).includes[k] || next_stack[j]
                        == complement(unit_of(g, next[i]).includes[k], ext));
                }
            }
            lemma_drain_traced(g, ext, root, next_stack, next);
        } else {
            assert forall|j: int| 0 <= j < rest.len() implies #[trigger] rest[j] == root
                || led_to(g, ext, out, out.len() as int, rest[j]) by {
                assert(rest[j] == stack[j]);
            }
            lemma_drain_traced(g, ext, root, rest, out);
        }
    }
}

/// What a file depends on: only keys of the graph, none of them twice,
/// the file itself first where it is a key; with every listed file the
/// keys it names and the keys that are complements of what it names; and
/// no file but the file itself and what a file listed before it led to.
pub proof fn lemma_closure(g: Seq<UnitView>, ext: Seq<char>, file: Seq<char>)
    ensures
        all_keys(g, closure(g, ext, file)),
        closure(g, ext, file).no_duplicates(),
        has_key(g, file) ==> closure(g, ext, file).len() > 0 && closure(g, ext, file)[0] == file,
        !has_key(g, file) ==> closure(g, ext, file).len() == 0,
        followed(g, ext, Seq::empty(), closure(g, ext, file)),
        traced(g, ext, file, closure(g, ext, file)),
{
    let none = Seq::<Seq<char>>::empty();
    lemma_drain(g, ext, seq![file], none);
    lemma_drain_follows(g, ext, seq![file], none);
    lemma_drain_traced(g, ext, file, seq![file], none);
    if has_key(g, file) {
        lemma_unvisited_push(g, none, file);
        let first = none.push(file);
        let next = seq![file].drop_last() + pending(unit_of(g, file).includes, ext);
        lemma_drain(g, ext, next, first);
        assert(first[0] == closure(g, ext, file).subrange(0, 1)[0]);
    } else {
        assert(seq![file].drop_last().len() == 0);
        assert(drain(g, ext, seq![file].drop_last(), none) == none);
    }
}

/// Walking again from a file that is listed changes nothing.
pub proof fn lemma_drain_listed(
    g: Seq<UnitView>,
    ext: Seq<char>,
    file: Seq<char>,
    out: Seq<Seq<char>>,
)
    requires
        out.contains(file) || !has_key(g, file),
    ensures
        drain(g, ext, seq![file], out) == out,
{
    assert(seq![file].last() == file);
    assert(seq![file].drop_last().len() == 0);
    assert(drain(g, ext, seq![file].drop_last(), out) == out);
}

/// The complement of `dependency` where `ext` is the extension of source
/// files.
pub fn complementary_file(dependency: &str, ext: &str) -> (r: String)
    ensures
        r@ == complement(dependency@, ext@),
{
    let stripped = strip_extension(dependency);
    let mut r = stripped.to_owned();
    if has_extension(dependency, ext) {
        r.append(".h");
    } else {
        r.append(".");
        r.append(ext);
    }
    r
}

/// Goes on with a walk that has listed `file_deps` so far: visits `file`
/// and, from it, every file that the walk reaches and has not listed.
/// `seen` holds the listed files.
pub fn get_all_file_dependencies_r(
    file: &str,
    ext: &str,
    dep_map: &DependencyMap,
    seen: &mut StringHashSet,
    file_deps: &mut Vec<String>,
)
    requires
        old(seen)@ == old(file_deps).deep_view().to_set(),
    ensures
        final(file_deps).deep_view() == drain(
            dep_map@,
            ext@,
            seq![file@],
            old(file_deps).deep_view(),
        ),
        final(seen)@ == final(file_deps).deep_view().to_set(),
{
    let mut stack: Vec<String> = Vec::new();
    stack.push(file.to_owned());
    assert(stack.deep_view() =~= seq![file@]);
    while stack.len() > 0
        invariant
            seen@ == file_deps.deep_view().to_set(),
            drain(dep_map@, ext@, stack.deep_view(), file_deps.deep_view()) == drain(
                dep_map@,
                ext@,
                seq![file@],
                old(file_deps).deep_view(),
            ),
        decreases unvisited(dep_map@, file_deps.deep_view()), stack.len(),
    {
        let ghost before = stack.deep_view();
        let ghost listed = file_deps.deep_view();
        let path = stack.pop().unwrap();
        assert(path@ == before.last());
        assert(stack.deep_view() =~= before.drop_last());
        let known = seen.contains(path.as_str());
        assert(known == listed.contains(path@));
        if !known {
            match dep_map.get(path.as_str()) {
                Some(unit) => {
                    proof {
                        lemma_unvisited_push(dep_map@, listed, path@);
                    }
                    seen.insert(path.clone());
                    file_deps.push(path);
                    assert(file_deps.deep_view() =~= listed.push(path@));
                    assert(seen@ =~= file_deps.deep_view().to_set()) by {
                        assert forall|x: Seq<char>|
                            listed.push(path@).contains(x) <==> listed.contains(x) || x
                                == path@ by {
                            if listed.contains(x) {
                                let i = choose|i: int| 0 <= i < listed.len() && listed[i] == x;
                                assert(listed.push(path@)[i] == x);
                            }
                            assert(listed.push(path@)[listed.len() as int] == path@);
                        }
                    }
                    let ghost rest = stack.deep_view();
                    let ghost names = unit@.includes;
                    let mut i: usize = unit.includes.len();
                    assert(names.skip(i as int) =~= Seq::<Seq<char>>::empty());
                    assert(rest + pending(names.skip(i as int), ext@) =~= rest);
                    while i > 0
                        invariant
                            i <= unit.includes.len(),
                            names == unit@.includes,
                            stack.deep_view() == rest + pending(names.skip(i as int), ext@),
                        decreases i,
                    {
                        i -= 1;
                        let ghost above = stack.deep_view();
                        let dependency = &unit.includes[i];
                        assert(dependency@ == names[i as int]);
                        assert(names.skip(i as int).drop_first() =~= names.skip(i + 1));
                        assert(names.skip(i as int)[0] == names[i as int]);
                        stack.push(complementary_file(dependency.as_str(), ext));
                        stack.push(dependency.clone());
                        assert(stack.deep_view() =~= above.push(
                            complement(names[i as int], ext@),
                        ).push(names[i as int]));
                        assert(stack.deep_view() =~= rest + pending(names.skip(i as int), ext@));
                    }
                    assert(names.skip(0) =~= names);
                },
                None => {},
            }
        }
    }
}

/// What `file` depends on in `dep_map`, directly or through other files,
/// itself first: every file that the walk from it reaches, once, in the
/// order of the first visit.
pub fn get_all_file_dependencies(file: &str, ext: &str, dep_map: &DependencyMap) -> (r: Vec<String>)
    ensures
        r.deep_view() == closure(dep_map@, ext@, file@),
        all_keys(dep_map@, r.deep_view()),
        r.deep_view().no_duplicates(),
        followed(dep_map@, ext@, Seq::empty(), r.deep_view()),
        traced(dep_map@, ext@, file@, r.deep_view()),
{
    let mut seen = StringHashSet::new();
    let mut file_deps: Vec<String> = Vec::new();
    assert(file_deps.deep_view() =~= Seq::<Seq<char>>::empty());
    assert(seen@ =~= file_deps.deep_view().to_set());
    get_all_file_dependencies_r(file, ext, dep_map, &mut seen, &mut file_deps);
    proof {
        lemma_closure(dep_map@, ext@, file@);
    }
    file_deps
}

/// The units of `g` that are source files: those with the extension `ext`.
pub open spec fn sources(g: Seq<UnitView>, ext: Seq<char>) -> Seq<UnitView> {
    g.filter(|u: UnitView| extension(u.path) == Some(ext))
}

/// `u` with what it depends on in `g` in place of what it names.
pub open spec fn flat_unit(g: Seq<UnitView>, ext: Seq<char>, u: UnitView) -> UnitView {
    UnitView { path: u.path, includes: closure(g, ext, u.path), has_main: u.has_main }
}

/// The source files of `g`, in their order, each with what it depends on
/// in place of what it names.
pub open spec fn flattened(g: Seq<UnitView>, ext: Seq<char>) -> Seq<UnitView> {
    sources(g, ext).map_values(|u: UnitView| flat_unit(g, ext, u))
}

/// The graph of the source files of `dep_map`, each with what it depends
/// on in place of what it names.
pub fn flatten_dependencies(dep_map: &DependencyMap, ext: &str) -> (r: DependencyMap)
    ensures
        r@ == flattened(dep_map@, ext@),
{
    let mut new_dep_map = DependencyMap::new();
    let ghost g = dep_map@;
    let ghost is_source = |u: UnitView| extension(u.path) == Some(ext@);
    let ghost flat = |u: UnitView| flat_unit(g, ext@, u);
    dep_map.keys_are_distinct();
    let mut i: usize = 0;
    assert(g.take(0).filter(is_source).map_values(flat) =~= Seq::<UnitView>::empty()) by {
        reveal(Seq::filter);
    }
    while i < dep_map.len()
        invariant
            i <= g.len(),
            g == dep_map@,
            distinct_keys(g),
            is_source == (|u: UnitView| extension(u.path) == Some(ext@)),
            flat == (|u: UnitView| flat_unit(g, ext@, u)),
            new_dep_map@ == g.take(i as int).filter(is_source).map_values(flat),
            forall|j: int|
                0 <= j < new_dep_map@.len() ==> exists|k: int|
                    0 <= k < i && (#[trigger] g[k]).path == (#[trigger] new_dep_map@[j]).path,
        decreases g.len() - i,
    {
        let unit = dep_map.unit(i);
        let ghost done = g.take(i as int);
        let ghost before = new_dep_map@;
        proof {
            assert(g.take(i + 1) =~= done.push(g[i as int]));
            done.lemma_filter_push(g[i as int], is_source);
        }
        if has_extension(unit.path.as_str(), ext) {
            let file_deps = get_all_file_dependencies(unit.path.as_str(), ext, dep_map);
            proof {
                if has_key(before, unit@.path) {
                    let j = choose|j: int| 0 <= j < before.len() && (#[trigger] before[j]).path
                        == unit@.path;
                    let k = choose|k: int| 0 <= k < i && (#[trigger] g[k]).path == before[j].path;
                    assert(g[k].path != g[i as int].path);
                }
            }
            new_dep_map.insert(unit.path.clone(), file_deps, unit.has_main);
            assert(new_dep_map@ =~= before.push(flat(g[i as int])));
            assert(done.filter(is_source).push(g[i as int]).map_values(flat) =~= before.push(
                flat(g[i as int]),
            ));
            assert forall|j: int| 0 <= j < new_dep_map@.len() implies exists|k: int|
                0 <= k < i + 1 && (#[trigger] g[k]).path == (#[trigger] new_dep_map@[j]).path by {
                if j < before.len() {
                    assert(new_dep_map@[j] == before[j]);
                    let k = choose|k: int| 0 <= k < i && (#[trigger] g[k]).path == before[j].path;
                    assert(g[k].path == new_dep_map@[j].path);
                } else {
                    assert(g[i as int].path == new_dep_map@[j].path);
                }
            }
        }
        i += 1;
    }
    assert(g.take(i as int) =~= g);
    new_dep_map
}

} // verus!
