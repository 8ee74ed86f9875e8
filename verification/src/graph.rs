//! The dependency graph of a project: one unit per file, keyed by the
//! file's path from the project root, in the order in which the files were
//! first seen.

use vstd::prelude::*;

verus! {

/// One file of the project.
pub struct SourceUnit {
    /// The file's path from the project root.
    pub path: String,
    /// The paths of the files it names in its directives, in their order.
    pub includes: Vec<String>,
    /// Whether its text defines a program entry point.
    pub has_main: bool,
}

/// What a `SourceUnit` holds, as mathematical values.
pub struct UnitView {
    pub path: Seq<char>,
    pub includes: Seq<Seq<char>>,
    pub has_main: bool,
}

impl View for SourceUnit {
    type V = UnitView;

    open spec fn view(&self) -> UnitView {
        UnitView {
            path: self.path@,
            includes: self.includes.deep_view(),
            has_main: self.has_main,
        }
    }
}

/// Whether some unit of `g` has the path `path`.
pub open spec fn has_key(g: Seq<UnitView>, path: Seq<char>) -> bool {
    exists|i: int| 0 <= i < g.len() && (#[trigger] g[i]).path == path
}

/// The index in `g` of a unit with the path `path`.
pub open spec fn key_index(g: Seq<UnitView>, path: Seq<char>) -> int {
    choose|i: int| 0 <= i < g.len() && (#[trigger] g[i]).path == path
}

/// The unit of `g` with the path `path`.
pub open spec fn unit_of(g: Seq<UnitView>, path: Seq<char>) -> UnitView {
    g[key_index(g, path)]
}

/// No two units of `g` have the same path.
pub open spec fn distinct_keys(g: Seq<UnitView>) -> bool {
    forall|i: int, j: int| 0 <= i < j < g.len() ==> (#[trigger] g[i]).path != (#[trigger] g[j]).path
}

/// `g` with `unit` added at its end, or `g` itself where it already has a
/// unit with that path.
pub open spec fn with_unit(g: Seq<UnitView>, unit: UnitView) -> Seq<UnitView> {
    if has_key(g, unit.path) {
        g
    } else {
        g.push(unit)
    }
}

/// Every path that a unit of `g` names is itself the path of a unit of `g`.
pub open spec fn closed(g: Seq<UnitView>) -> bool {
    forall|i: int, k: int|
        0 <= i < g.len() && 0 <= k < g[i].includes.len() ==> has_key(g, #[trigger] g[i].includes[k])
}

/// Where the keys are distinct, the unit found under a path is the only
/// one with that path.
pub proof fn lemma_unit_of(g: Seq<UnitView>, i: int)
    requires
        distinct_keys(g),
        0 <= i < g.len(),
    ensures
        has_key(g, g[i].path),
        key_index(g, g[i].path) == i,
        unit_of(g, g[i].path) == g[i],
{
    let k = key_index(g, g[i].path);
    assert(0 <= k < g.len() && g[k].path == g[i].path);
    if k < i {
        assert(g[k].path != g[i].path);
    } else if i < k {
        assert(g[i].path != g[k].path);
    }
}

/// Adding a unit keeps the keys distinct, keeps every unit that was there,
/// and makes the unit's path a key.
pub proof fn lemma_with_unit(g: Seq<UnitView>, unit: UnitView)
    requires
        distinct_keys(g),
    ensures
        distinct_keys(with_unit(g, unit)),
        has_key(with_unit(g, unit), unit.path),
        forall|p: Seq<char>| has_key(g, p) ==> has_key(with_unit(g, unit), p),
        forall|p: Seq<char>| has_key(g, p) ==> unit_of(with_unit(g, unit), p) == unit_of(g, p),
        forall|p: Seq<char>|
            has_key(with_unit(g, unit), p) ==> has_key(g, p) || p == unit.path,
        !has_key(g, unit.path) ==> unit_of(with_unit(g, unit), unit.path) == unit,
{
    let h = with_unit(g, unit);
    if has_key(g, unit.path) {
    } else {
        assert(h[g.len() as int] == unit);
        assert forall|i: int, j: int| 0 <= i < j < h.len() implies (#[trigger] h[i]).path != (
        #[trigger] h[j]).path by {
            if j < g.len() {
                assert(g[i].path != g[j].path);
            } else {
                assert(h[i] == g[i]);
            }
        }
        assert forall|p: Seq<char>| has_key(g, p) implies has_key(h, p) && unit_of(h, p)
            == unit_of(g, p) by {
            let i = key_index(g, p);
            assert(h[i] == g[i]);
            lemma_unit_of(g, i);
            lemma_unit_of(h, i);
        }
        assert forall|p: Seq<char>| has_key(h, p) implies has_key(g, p) || p == unit.path by {
            let i = key_index(h, p);
            if i < g.len() {
                assert(g[i] == h[i]);
            }
        }
        lemma_unit_of(h, g.len() as int);
    }
}

/// The units of a project, each under its path. A path is held once: the
/// unit that came first stays.
pub struct DependencyMap {
    units: Vec<SourceUnit>,
}

/// The views of `units`, in their order.
pub open spec fn unit_views(units: Seq<SourceUnit>) -> Seq<UnitView> {
    Seq::new(units.len(), |i: int| units[i]@)
}

impl View for DependencyMap {
    type V = Seq<UnitView>;

    closed spec fn view(&self) -> Seq<UnitView> {
        unit_views(self.units@)
    }
}

impl DependencyMap {
    #[verifier::type_invariant]
    spec fn distinct(&self) -> bool {
        distinct_keys(self@)
    }

    /// A graph with no unit.
    pub fn new() -> (r: Self)
        ensures
            r@ == Seq::<UnitView>::empty(),
    {
        let r = DependencyMap { units: Vec::new() };
        assert(r@ =~= Seq::<UnitView>::empty());
        r
    }

    /// The keys of a graph are distinct.
    pub fn keys_are_distinct(&self)
        ensures
            distinct_keys(self@),
    {
        proof {
            use_type_invariant(self);
        }
    }

    /// The number of units.
    pub fn len(&self) -> (n: usize)
        ensures
            n == self@.len(),
    {
        self.units.len()
    }

    /// The unit at index `i`, in the order in which the units were added.
    pub fn unit(&self, i: usize) -> (u: &SourceUnit)
        requires
            i < self@.len(),
        ensures
            u@ == self@[i as int],
    {
        &self.units[i]
    }

    /// The index of the unit with the path `path`.
    pub fn position(&self, path: &str) -> (r: Option<usize>)
        ensures
            match r {
                Some(i) => i < self@.len() && self@[i as int].path == path@ && i == key_index(
                    self@,
                    path@,
                ),
                None => !has_key(self@, path@),
            },
    {
        proof {
            use_type_invariant(self);
        }
        let mut i: usize = 0;
        while i < self.units.len()
            invariant
                i <= self.units.len(),
                distinct_keys(self@),
                forall|j: int| 0 <= j < i ==> (#[trigger] self@[j]).path != path@,
            decreases self.units.len() - i,
        {
            if *self.units[i].path.as_str() == *path {
                proof {
                    lemma_unit_of(self@, i as int);
                }
                return Some(i);
            }
            i += 1;
        }
        None
    }

    /// Whether a unit has the path `path`.
    pub fn contains_key(&self, path: &str) -> (r: bool)
        ensures
            r == has_key(self@, path@),
    {
        self.position(path).is_some()
    }

    /// The unit with the path `path`.
    pub fn get(&self, path: &str) -> (r: Option<&SourceUnit>)
        ensures
            match r {
                Some(u) => has_key(self@, path@) && u@ == unit_of(self@, path@),
                None => !has_key(self@, path@),
            },
    {
        match self.position(path) {
            Some(i) => Some(&self.units[i]),
            None => None,
        }
    }

    /// Adds the unit `path` with what it names and whether it has an entry
    /// point. Where the graph already has a unit with that path, nothing
    /// changes.
    pub fn insert(&mut self, path: String, includes: Vec<String>, has_main: bool)
        ensures
            final(self)@ == with_unit(
                old(self)@,
                (UnitView { path: path@, includes: includes.deep_view(), has_main }),
            ),
    {
        proof {
            use_type_invariant(&*self);
        }
        if self.position(path.as_str()).is_none() {
            let ghost before = self@;
            let unit = SourceUnit { path, includes, has_main };
            proof {
                lemma_with_unit(before, unit@);
            }
            let mut units: Vec<SourceUnit> = Vec::new();
            std::mem::swap(&mut self.units, &mut units);
            units.push(unit);
            assert(unit_views(units@) =~= before.push(unit@));
            std::mem::swap(&mut self.units, &mut units);
        }
    }
}

} // verus!
