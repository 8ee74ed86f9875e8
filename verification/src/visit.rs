//! Building the graph of a project, one answer at a time.
//!
//! A `ParseContext` decides what to do next and leaves the doing to its
//! caller: it asks for the text of a file, or for the place of a file that
//! a directive names, and is told the outcome as the next event. A reading
//! starts at one file of the project and ends when that file and every
//! file reached from it are in the graph. A file is entered when all that
//! it names has been located; a file that is in the graph, or was reached
//! before in the same reading, is not read again.

use crate::graph::{closed, distinct_keys, has_key, lemma_with_unit, with_unit, DependencyMap, UnitView};
use crate::parser::{
    defines_main, get_include_files_and_update_dlls, has_main, is_well_formed, libraries_after,
    user_includes, well_formed, ParseResult,
};
use crate::text::lines;
use vstd::hash_set::StringHashSet;
use vstd::prelude::*;

verus! {

/// A file whose directives are being followed.
pub struct Frame {
    path: String,
    has_main: bool,
    /// The user files that the file names, as written.
    names: Vec<String>,
    /// The paths of the first of them, as far as they have been located.
    resolved: Vec<String>,
}

/// What a `Frame` holds, as mathematical values.
pub struct FrameView {
    pub path: Seq<char>,
    pub has_main: bool,
    pub names: Seq<Seq<char>>,
    pub resolved: Seq<Seq<char>>,
}

impl View for Frame {
    type V = FrameView;

    closed spec fn view(&self) -> FrameView {
        FrameView {
            path: self.path@,
            has_main: self.has_main,
            names: self.names.deep_view(),
            resolved: self.resolved.deep_view(),
        }
    }
}

/// What the caller reports.
pub enum Event {
    /// A reading is to start at this file of the project.
    Start(String),
    /// The text of the file that was asked for.
    Contents(String),
    /// The path, from the project root, of the file that was to be
    /// located.
    Resolved(String),
}

/// What an `Event` holds, as mathematical values.
pub enum EventView {
    Start(Seq<char>),
    Contents(Seq<char>),
    Resolved(Seq<char>),
}

impl View for Event {
    type V = EventView;

    open spec fn view(&self) -> EventView {
        match self {
            Event::Start(file) => EventView::Start(file@),
            Event::Contents(text) => EventView::Contents(text@),
            Event::Resolved(path) => EventView::Resolved(path@),
        }
    }
}

/// What the caller is to do next.
#[derive(Debug, PartialEq, Eq)]
pub enum Step {
    /// Read this file and report its text.
    Read(String),
    /// Locate the file that `from` names as `name`, and report its path
    /// from the project root.
    Resolve { from: String, name: String },
    /// The reading is complete.
    Done,
    /// A directive of this file names no file: the project cannot be
    /// read. Nothing has changed.
    Malformed(String),
    /// The event is not the one that was asked for. Nothing has changed.
    Unexpected,
}

/// What a `Step` holds, as mathematical values.
pub enum StepView {
    Read(Seq<char>),
    Resolve { from: Seq<char>, name: Seq<char> },
    Done,
    Malformed(Seq<char>),
    Unexpected,
}

impl View for Step {
    type V = StepView;

    open spec fn view(&self) -> StepView {
        match self {
            Step::Read(file) => StepView::Read(file@),
            Step::Resolve { from, name } => StepView::Resolve { from: from@, name: name@ },
            Step::Done => StepView::Done,
            Step::Malformed(file) => StepView::Malformed(file@),
            Step::Unexpected => StepView::Unexpected,
        }
    }
}

/// The state of the building of a graph.
pub struct ParseContext {
    dependency_map: DependencyMap,
    dlls: Vec<String>,
    /// The files reached in the current reading through a directive.
    seen: StringHashSet,
    /// The files whose directives are being followed, the one that is
    /// followed now last.
    stack: Vec<Frame>,
    /// The file whose text has been asked for.
    reading: Option<String>,
}

/// What a `ParseContext` holds, as mathematical values.
pub struct ContextState {
    pub graph: Seq<UnitView>,
    pub libs: Seq<Seq<char>>,
    pub seen: Set<Seq<char>>,
    pub frames: Seq<FrameView>,
    pub reading: Option<Seq<char>>,
}

/// The views of `frames`, in their order.
pub open spec fn frame_views(frames: Seq<Frame>) -> Seq<FrameView> {
    Seq::new(frames.len(), |i: int| frames[i]@)
}

impl View for ParseContext {
    type V = ContextState;

    closed spec fn view(&self) -> ContextState {
        ContextState {
            graph: self.dependency_map@,
            libs: self.dlls.deep_view(),
            seen: self.seen@,
            frames: frame_views(self.stack@),
            reading: match self.reading {
                Some(file) => Some(file@),
                None => None,
            },
        }
    }
}

/// The unit that a file becomes when all that it names has been located.
pub open spec fn unit_of_frame(frame: FrameView) -> UnitView {
    UnitView { path: frame.path, includes: frame.resolved, has_main: frame.has_main }
}

/// Whether a file that the frame names is still to be located.
pub open spec fn unfinished(frame: FrameView) -> bool {
    frame.resolved.len() < frame.names.len()
}

/// The state after every file that has nothing left to locate has been
/// entered in the graph, from the last frame down to the first that is
/// unfinished.
pub open spec fn settled(s: ContextState) -> ContextState
    decreases s.frames.len(),
{
    if s.frames.len() == 0 || unfinished(s.frames.last()) {
        s
    } else {
        settled(
            ContextState {
                graph: with_unit(s.graph, unit_of_frame(s.frames.last())),
                frames: s.frames.drop_last(),
                ..s
            },
        )
    }
}

/// What the state `s` asks of the caller.
pub open spec fn request(s: ContextState) -> StepView {
    if s.reading is Some {
        StepView::Read(s.reading->0)
    } else if s.frames.len() == 0 {
        StepView::Done
    } else {
        StepView::Resolve {
            from: s.frames.last().path,
            name: s.frames.last().names[s.frames.last().resolved.len() as int],
        }
    }
}

/// Whether nothing is being read.
pub open spec fn idle(s: ContextState) -> bool {
    s.reading is None && s.frames.len() == 0
}

/// Whether the event `e` is the one that the state `s` asks for.
pub open spec fn expected(s: ContextState, e: EventView) -> bool {
    match e {
        EventView::Start(_) => idle(s),
        EventView::Contents(_) => s.reading is Some,
        EventView::Resolved(_) => s.reading is None && s.frames.len() > 0 && unfinished(
            s.frames.last(),
        ),
    }
}

/// The state in which the text `text` of the awaited file has been read:
/// its libraries are noted, and the file is the one whose directives are
/// followed.
pub open spec fn opened(s: ContextState, text: Seq<char>) -> ContextState {
    ContextState {
        libs: libraries_after(s.libs, lines(text)),
        frames: s.frames.push(
            FrameView {
                path: s.reading->0,
                has_main: defines_main(text),
                names: user_includes(lines(text)),
                resolved: Seq::empty(),
            },
        ),
        reading: None,
        ..s
    }
}

/// The state in which the file that was to be located is noted under the
/// path `path`.
pub open spec fn located(s: ContextState, path: Seq<char>) -> ContextState {
    ContextState {
        frames: s.frames.drop_last().push(
            FrameView { resolved: s.frames.last().resolved.push(path), ..s.frames.last() },
        ),
        ..s
    }
}

/// The state after the event `e`.
pub open spec fn after(s: ContextState, e: EventView) -> ContextState {
    if !expected(s, e) {
        s
    } else {
        match e {
            EventView::Start(file) => ContextState {
                seen: Set::empty(),
                reading: Some(file),
                ..s
            },
            EventView::Contents(text) => if well_formed(text) {
                settled(opened(s, text))
            } else {
                s
            },
            EventView::Resolved(path) => if !has_key(s.graph, path) && !s.seen.contains(path) {
                ContextState { seen: s.seen.insert(path), reading: Some(path), ..located(s, path) }
            } else {
                settled(located(s, path))
            },
        }
    }
}

/// What the caller is to do after the event `e`.
pub open spec fn answer(s: ContextState, e: EventView) -> StepView {
    if !expected(s, e) {
        StepView::Unexpected
    } else if e matches EventView::Contents(text) && !well_formed(text) {
        StepView::Malformed(s.reading->0)
    } else {
        request(after(s, e))
    }
}

/// Every path among `names` is a key of the graph or was reached in the
/// current reading.
pub open spec fn known(s: ContextState, names: Seq<Seq<char>>) -> bool {
    forall|k: int|
        0 <= k < names.len() ==> has_key(s.graph, #[trigger] names[k]) || s.seen.contains(names[k])
}

/// Whether the file `path` is being read: its text is awaited, or its
/// directives are being followed.
pub open spec fn in_progress(s: ContextState, path: Seq<char>) -> bool {
    s.reading == Some(path) || exists|i: int|
        0 <= i < s.frames.len() && (#[trigger] s.frames[i]).path == path
}

/// What holds of every state that the events lead to from a graph that
/// names only its own files. The keys of the graph are distinct. Every
/// file that a unit names, and every file located so far for a file in
/// progress, is in the graph or was reached in the current reading; and
/// every file reached in the current reading is in the graph or in
/// progress.
pub open spec fn consistent(s: ContextState) -> bool {
    &&& distinct_keys(s.graph)
    &&& forall|i: int| 0 <= i < s.graph.len() ==> known(s, (#[trigger] s.graph[i]).includes)
    &&& forall|i: int| 0 <= i < s.frames.len() ==> known(s, (#[trigger] s.frames[i]).resolved)
    &&& forall|p: Seq<char>| #[trigger] s.seen.contains(p) ==> has_key(s.graph, p) || in_progress(s, p)
}

/// When nothing is being read, the graph names only its own files.
pub proof fn lemma_idle_is_closed(s: ContextState)
    requires
        consistent(s),
        idle(s),
    ensures
        closed(s.graph),
{
    assert forall|i: int, k: int|
        0 <= i < s.graph.len() && 0 <= k < s.graph[i].includes.len() implies has_key(
        s.graph,
        #[trigger] s.graph[i].includes[k],
    ) by {
        assert(known(s, s.graph[i].includes));
    }
}

/// A graph that names only its own files, with nothing being read and
/// nothing reached, is a state from which the events can start.
pub proof fn lemma_closed_is_consistent(s: ContextState)
    requires
        distinct_keys(s.graph),
        closed(s.graph),
        idle(s),
        s.seen == Set::<Seq<char>>::empty(),
    ensures
        consistent(s),
{
    assert forall|i: int| 0 <= i < s.graph.len() implies known(
        s,
        (#[trigger] s.graph[i]).includes,
    ) by {
        assert forall|k: int| 0 <= k < s.graph[i].includes.len() implies has_key(
            s.graph,
            #[trigger] s.graph[i].includes[k],
        ) by {}
    }
}

/// Entering the files that have nothing left to locate keeps the state
/// consistent.
pub proof fn lemma_settled_is_consistent(s: ContextState)
    requires
        consistent(s),
    ensures
        consistent(settled(s)),
    decreases s.frames.len(),
{
    if s.frames.len() == 0 || unfinished(s.frames.last()) {
    } else {
        let top = s.frames.last();
        let unit = unit_of_frame(top);
        let next = ContextState {
            graph: with_unit(s.graph, unit),
            frames: s.frames.drop_last(),
            ..s
        };
        lemma_with_unit(s.graph, unit);
        assert(known(s, top.resolved));
        assert forall|i: int| 0 <= i < next.graph.len() implies known(
            next,
            (#[trigger] next.graph[i]).includes,
        ) by {
            if i < s.graph.len() {
                assert(next.graph[i] == s.graph[i]);
                assert(known(s, s.graph[i].includes));
            } else {
                assert(next.graph[i] == unit);
            }
        }
        assert forall|i: int| 0 <= i < next.frames.len() implies known(
            next,
            (#[trigger] next.frames[i]).resolved,
        ) by {
            assert(next.frames[i] == s.frames[i]);
            assert(known(s, s.frames[i].resolved));
        }
        assert forall|p: Seq<char>| next.seen.contains(p) implies has_key(next.graph, p)
            || in_progress(next, p) by {
            if !has_key(s.graph, p) && s.reading != Some(p) {
                let i = choose|i: int| 0 <= i < s.frames.len() && (#[trigger] s.frames[i]).path == p;
                if i < s.frames.len() - 1 {
                    assert(next.frames[i].path == p);
                }
            }
        }
        lemma_settled_is_consistent(next);
    }
}

/// Every event keeps the state consistent.
pub proof fn lemma_after_is_consistent(s: ContextState, e: EventView)
    requires
        consistent(s),
    ensures
        consistent(after(s, e)),
{
    if expected(s, e) {
        match e {
            EventView::Start(file) => {
                lemma_idle_is_closed(s);
            },
            EventView::Contents(text) => {
                if well_formed(text) {
                    let next = opened(s, text);
                    assert forall|i: int| 0 <= i < next.graph.len() implies known(
                        next,
                        (#[trigger] next.graph[i]).includes,
                    ) by {
                        assert(known(s, s.graph[i].includes));
                    }
                    assert forall|i: int| 0 <= i < next.frames.len() implies known(
                        next,
                        (#[trigger] next.frames[i]).resolved,
                    ) by {
                        if i < s.frames.len() {
                            assert(next.frames[i] == s.frames[i]);
                            assert(known(s, s.frames[i].resolved));
                        }
                    }
                    assert forall|p: Seq<char>| next.seen.contains(p) implies has_key(
                        next.graph,
                        p,
                    ) || in_progress(next, p) by {
                        if !has_key(s.graph, p) {
                            if s.reading == Some(p) {
                                assert(next.frames[s.frames.len() as int].path == p);
                            } else {
                                let i = choose|i: int|
                                    0 <= i < s.frames.len() && (#[trigger] s.frames[i]).path == p;
                                assert(next.frames[i].path == p);
                            }
                        }
                    }
                    lemma_settled_is_consistent(next);
                }
            },
            EventView::Resolved(path) => {
                let fresh = !has_key(s.graph, path) && !s.seen.contains(path);
                let found = located(s, path);
                let next = if fresh {
                    ContextState { seen: s.seen.insert(path), reading: Some(path), ..found }
                } else {
                    found
                };
                let top = s.frames.last();
                assert forall|i: int| 0 <= i < next.graph.len() implies known(
                    next,
                    (#[trigger] next.graph[i]).includes,
                ) by {
                    assert(known(s, s.graph[i].includes));
                }
                assert forall|i: int| 0 <= i < next.frames.len() implies known(
                    next,
                    (#[trigger] next.frames[i]).resolved,
                ) by {
                    if i < s.frames.len() - 1 {
                        assert(next.frames[i] == s.frames[i]);
                        assert(known(s, s.frames[i].resolved));
                    } else {
                        assert(known(s, top.resolved));
                        let all = next.frames[i].resolved;
                        assert(all == top.resolved.push(path));
                        assert forall|k: int| 0 <= k < all.len() implies has_key(
                            next.graph,
                            #[trigger] all[k],
                        ) || next.seen.contains(all[k]) by {
                            if k < top.resolved.len() {
                                assert(all[k] == top.resolved[k]);
                            }
                        }
                    }
                }
                assert forall|p: Seq<char>| next.seen.contains(p) implies has_key(next.graph, p)
                    || in_progress(next, p) by {
                    if s.seen.contains(p) && !has_key(s.graph, p) {
                        let i = choose|i: int|
                            0 <= i < s.frames.len() && (#[trigger] s.frames[i]).path == p;
                        assert(next.frames[i].path == p);
                    }
                }
                if !fresh {
                    lemma_settled_is_consistent(next);
                }
            },
        }
    }
}

impl ParseContext {
    /// The state in which nothing is being read, with the graph and the
    /// libraries found so far.
    pub fn new(dependency_map: DependencyMap, dlls: Vec<String>) -> (r: Self)
        ensures
            r@ == (ContextState {
                graph: dependency_map@,
                libs: dlls.deep_view(),
                seen: Set::empty(),
                frames: Seq::empty(),
                reading: None,
            }),
            closed(dependency_map@) ==> consistent(r@),
    {
        dependency_map.keys_are_distinct();
        let ghost graph = dependency_map@;
        let r = Self {
            dependency_map,
            dlls,
            seen: StringHashSet::new(),
            stack: Vec::new(),
            reading: None,
        };
        assert(r@.frames =~= Seq::<FrameView>::empty());
        proof {
            if closed(graph) {
                lemma_closed_is_consistent(r@);
            }
        }
        r
    }

    /// Whether nothing is being read.
    pub fn is_idle(&self) -> (r: bool)
        ensures
            r == idle(self@),
    {
        self.reading.is_none() && self.stack.len() == 0
    }

    /// The graph and the libraries found so far.
    pub fn into_result(self) -> (r: ParseResult)
        ensures
            r.dependency_map@ == self@.graph,
            r.dlls.deep_view() == self@.libs,
            consistent(self@) && idle(self@) ==> closed(r.dependency_map@),
    {
        proof {
            if consistent(self@) && idle(self@) {
                lemma_idle_is_closed(self@);
            }
        }
        ParseResult::new(self.dependency_map, self.dlls)
    }

    /// Enters in the graph every file that has nothing left to locate, and
    /// says what to do next.
    fn settle(&mut self) -> (step: Step)
        requires
            old(self)@.reading is None,
        ensures
            final(self)@ == settled(old(self)@),
            step@ == request(final(self)@),
    {
        loop
            invariant
                self@.reading is None,
                settled(self@) == settled(old(self)@),
            decreases self.stack.len(),
        {
            let n = self.stack.len();
            if n == 0 {
                return Step::Done;
            }
            let top = &self.stack[n - 1];
            assert(self@.frames.last() == top@);
            if top.resolved.len() < top.names.len() {
                let name = top.names[top.resolved.len()].clone();
                assert(name@ == top@.names[top@.resolved.len() as int]);
                return Step::Resolve { from: top.path.clone(), name };
            }
            let ghost before = self@;
            let frame = self.stack.pop().unwrap();
            assert(self@.frames =~= before.frames.drop_last());
            self.dependency_map.insert(frame.path, frame.resolved, frame.has_main);
        }
    }

    /// Takes the event `event` and says what to do next.
    pub fn advance(&mut self, event: Event) -> (step: Step)
        ensures
            final(self)@ == after(old(self)@, event@),
            step@ == answer(old(self)@, event@),
            consistent(old(self)@) ==> consistent(final(self)@),
    {
        proof {
            if consistent(self@) {
                lemma_after_is_consistent(self@, event@);
            }
        }
        match event {
            Event::Start(file) => {
                if !self.is_idle() {
                    return Step::Unexpected;
                }
                self.seen.clear();
                let step = Step::Read(file.clone());
                self.reading = Some(file);
                step
            },
            Event::Contents(text) => {
                if self.reading.is_none() {
                    return Step::Unexpected;
                }
                if !is_well_formed(text.as_str()) {
                    return Step::Malformed(self.reading.as_ref().unwrap().clone());
                }
                let ghost before = self@;
                let path = self.reading.take().unwrap();
                let has_main = has_main(text.as_str());
                let names = get_include_files_and_update_dlls(text.as_str(), &mut self.dlls);
                let frame = Frame { path, has_main, names, resolved: Vec::new() };
                assert(frame@.resolved =~= Seq::<Seq<char>>::empty());
                assert(frame@ == opened(before, text@).frames.last());
                self.stack.push(frame);
                assert(self@.frames =~= opened(before, text@).frames);
                self.settle()
            },
            Event::Resolved(path) => {
                if self.reading.is_some() || self.stack.len() == 0 {
                    return Step::Unexpected;
                }
                let ghost before = self@;
                let mut top = self.stack.pop().unwrap();
                assert(top@ == before.frames.last());
                if top.resolved.len() >= top.names.len() {
                    self.stack.push(top);
                    assert(self@.frames =~= before.frames);
                    return Step::Unexpected;
                }
                let ghost resolved = top@.resolved;
                top.resolved.push(path.clone());
                assert(top@.resolved =~= resolved.push(path@));
                self.stack.push(top);
                assert(self@.frames =~= located(before, path@).frames);
                if !self.dependency_map.contains_key(path.as_str()) && !self.seen.contains(
                    path.as_str(),
                ) {
                    self.seen.insert(path.clone());
                    let step = Step::Read(path.clone());
                    self.reading = Some(path);
                    step
                } else {
                    self.settle()
                }
            },
        }
    }
}

} // verus!
