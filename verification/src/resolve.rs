//! The repository resolver: a strict precedence search over the storage
//! roots, written as a state machine.
//!
//! The machine asks the caller one filesystem question at a time and is
//! fed the answer; every decision between two questions is verified. The
//! order is the one the storage layout demands: a pinned request checks
//! the local versioned path, then the fetched one, then the local
//! floating copy if its declared version matches; a floating request
//! follows the enclosing repository's dependency pin first, then the
//! local floating copy, then the newest local stored version, then the
//! newest fetched one.

use vstd::prelude::*;

use crate::config::{Config, ConfigView};
use crate::error::BatlError;
use crate::name::{
    repository_components, version_folder_components, Name, NameView,
};
use crate::text::{str_views, unesc_plus, unescape_plus};
use crate::version::{
    version_of_text, version_lt, Version, VersionView, lemma_version_lt_irrefl,
    lemma_version_lt_trans,
};

verus! {

/// Which storage root a path lives under.
#[derive(Clone, Copy, PartialEq, Eq, Structural, Debug)]
pub enum Root {
    Local,
    Fetched,
}

/// A question the resolver asks the caller.
pub enum Probe {
    /// Does this directory exist under the root?
    Dir(Root, Vec<String>),
    /// Load and migrate the configuration of the repository at this
    /// directory; answer nothing if it cannot be read or accepted.
    Load(Root, Vec<String>),
    /// The names of the immediate children of this version folder.
    ListVersions(Root, Vec<String>),
    /// The enclosing repository's pinned version for the requested name,
    /// if the working directory sits inside a repository that declares
    /// one.
    CwdDependency,
}

/// The caller's answer to the corresponding probe.
pub enum Event {
    Dir(bool),
    Load(Option<Config>),
    Listing(Vec<String>),
    CwdDependency(Option<Version>),
}

/// How a resolution ends.
pub enum Outcome {
    /// The repository was found at this root-relative path with this
    /// canonical configuration.
    Found(Root, Vec<String>, Config),
    /// Absence: a valid outcome, distinct from a malformed repository.
    Absent,
    Failed(BatlError),
}

/// What the resolver wants next.
pub enum Step {
    Ask(Probe),
    Done(Outcome),
}

/// The resolver's position in the precedence order.
#[derive(Clone, Copy, PartialEq, Eq, Structural, Debug)]
pub enum Phase {
    PinnedLocalDir,
    PinnedLocalLoad,
    PinnedFetchedDir,
    PinnedFetchedLoad,
    PinnedFloatingDir,
    PinnedFloatingLoad,
    FloatCwd,
    FloatLocalDir,
    FloatLocalLoad,
    FloatVersionDirLocal,
    FloatListLocal,
    FloatVersionDirFetched,
    FloatListFetched,
    Finished,
}

/// An in-progress resolution.
pub struct Resolver {
    name: Name,
    phase: Phase,
}

/// The mathematical shapes.
#[verifier::ext_equal]
pub ghost struct ResolverView {
    pub name: NameView,
    pub phase: Phase,
}

#[verifier::ext_equal]
pub ghost enum ProbeView {
    Dir(Root, Seq<Seq<char>>),
    Load(Root, Seq<Seq<char>>),
    ListVersions(Root, Seq<Seq<char>>),
    CwdDependency,
}

#[verifier::ext_equal]
pub ghost enum EventView {
    Dir(bool),
    Load(Option<ConfigView>),
    Listing(Seq<Seq<char>>),
    CwdDependency(Option<VersionView>),
}

#[verifier::ext_equal]
pub ghost enum OutcomeView {
    Found(Root, Seq<Seq<char>>, ConfigView),
    Absent,
    Failed(BatlError),
}

#[verifier::ext_equal]
pub ghost enum StepView {
    Ask(ProbeView),
    Done(OutcomeView),
}

impl View for Resolver {
    type V = ResolverView;

    closed spec fn view(&self) -> ResolverView {
        ResolverView { name: self.name@, phase: self.phase }
    }
}

impl View for Probe {
    type V = ProbeView;

    open spec fn view(&self) -> ProbeView {
        match self {
            Probe::Dir(r, p) => ProbeView::Dir(*r, str_views(p@)),
            Probe::Load(r, p) => ProbeView::Load(*r, str_views(p@)),
            Probe::ListVersions(r, p) => ProbeView::ListVersions(*r, str_views(p@)),
            Probe::CwdDependency => ProbeView::CwdDependency,
        }
    }
}

impl View for Event {
    type V = EventView;

    open spec fn view(&self) -> EventView {
        match self {
            Event::Dir(b) => EventView::Dir(*b),
            Event::Load(c) => EventView::Load(
                match c {
                    Some(cc) => Some(cc@),
                    None => None,
                },
            ),
            Event::Listing(items) => EventView::Listing(str_views(items@)),
            Event::CwdDependency(v) => EventView::CwdDependency(
                match v {
                    Some(vv) => Some(vv@),
                    None => None,
                },
            ),
        }
    }
}

impl View for Outcome {
    type V = OutcomeView;

    open spec fn view(&self) -> OutcomeView {
        match self {
            Outcome::Found(r, p, c) => OutcomeView::Found(*r, str_views(p@), c@),
            Outcome::Absent => OutcomeView::Absent,
            Outcome::Failed(e) => OutcomeView::Failed(*e),
        }
    }
}

impl View for Step {
    type V = StepView;

    open spec fn view(&self) -> StepView {
        match self {
            Step::Ask(p) => StepView::Ask(p@),
            Step::Done(o) => StepView::Done(o@),
        }
    }
}

// ---------------------------------------------------------------------------
// The transition relation
// ---------------------------------------------------------------------------

/// The versions a listing denotes: each child has its escape undone and
/// must parse as a version; one bad child fails the whole listing.
pub open spec fn versions_of_listing(items: Seq<Seq<char>>) -> Option<Seq<VersionView>>
    decreases items.len(),
{
    if items.len() == 0 {
        Some(Seq::empty())
    } else {
        match version_of_text(unesc_plus(items[0])) {
            Some(v) => match versions_of_listing(items.skip(1)) {
                Some(rest) => Some(seq![v] + rest),
                None => None,
            },
            None => None,
        }
    }
}

/// The newest version of a non-empty collection under the precedence
/// order.
pub open spec fn max_version_of(vs: Seq<VersionView>) -> VersionView
    decreases vs.len(),
{
    if vs.len() <= 1 {
        vs[0]
    } else {
        let m = max_version_of(vs.skip(1));
        if version_lt(m, vs[0]) {
            vs[0]
        } else {
            m
        }
    }
}

/// The newest version is one of the collection and no member is newer.
pub proof fn lemma_max_version_props(vs: Seq<VersionView>)
    requires
        vs.len() > 0,
    ensures
        vs.contains(max_version_of(vs)),
        forall|j: int| 0 <= j < vs.len() ==> !version_lt(max_version_of(vs), #[trigger] vs[j]),
    decreases vs.len(),
{
    if vs.len() == 1 {
        assert(vs[0] == max_version_of(vs));
        lemma_version_lt_irrefl(vs[0]);
    } else {
        lemma_max_version_props(vs.skip(1));
        let m = max_version_of(vs.skip(1));
        let w = max_version_of(vs);
        if vs.skip(1).contains(m) {
            let i = choose|i: int| 0 <= i < vs.skip(1).len() && vs.skip(1)[i] == m;
            assert(vs[i + 1] == m);
        }
        assert forall|j: int| 0 <= j < vs.len() implies !version_lt(w, #[trigger] vs[j]) by {
            if j == 0 {
                if version_lt(m, vs[0]) {
                    lemma_version_lt_irrefl(vs[0]);
                }
            }
            if j > 0 {
                assert(vs.skip(1)[j - 1] == vs[j]);
                assert(!version_lt(m, vs[j]));
                if version_lt(m, vs[0]) {
                    if version_lt(vs[0], vs[j]) {
                        lemma_version_lt_trans(m, vs[0], vs[j]);
                    }
                }
            }
        }
    }
}

/// The name pinned to a version.
pub open spec fn pinned(n: NameView, v: VersionView) -> NameView {
    NameView { segments: n.segments, version: Some(v) }
}

/// One transition of the resolver: from a phase and the answer to its
/// pending question, to the next phase and the next question or the
/// outcome. An answer of the wrong kind ends the resolution as a
/// filesystem failure.
pub open spec fn step_spec(r: ResolverView, e: EventView) -> (ResolverView, StepView) {
    let n = r.name;
    let fail = (
        ResolverView { name: n, phase: Phase::Finished },
        StepView::Done(OutcomeView::Failed(BatlError::IoFailure)),
    );
    match (r.phase, e) {
        (Phase::PinnedLocalDir, EventView::Dir(b)) => {
            if b {
                (
                    ResolverView { name: n, phase: Phase::PinnedLocalLoad },
                    StepView::Ask(ProbeView::Load(Root::Local, repository_components(n))),
                )
            } else {
                (
                    ResolverView { name: n, phase: Phase::PinnedFetchedDir },
                    StepView::Ask(ProbeView::Dir(Root::Fetched, repository_components(n))),
                )
            }
        },
        (Phase::PinnedLocalLoad, EventView::Load(c)) => {
            match c {
                Some(cfg) => (
                    ResolverView { name: n, phase: Phase::Finished },
                    StepView::Done(
                        OutcomeView::Found(Root::Local, repository_components(n), cfg),
                    ),
                ),
                None => (
                    ResolverView { name: n, phase: Phase::Finished },
                    StepView::Done(OutcomeView::Failed(BatlError::ConfigInvalid)),
                ),
            }
        },
        (Phase::PinnedFetchedDir, EventView::Dir(b)) => {
            if b {
                (
                    ResolverView { name: n, phase: Phase::PinnedFetchedLoad },
                    StepView::Ask(ProbeView::Load(Root::Fetched, repository_components(n))),
                )
            } else {
                (
                    ResolverView { name: n, phase: Phase::PinnedFloatingDir },
                    StepView::Ask(
                        ProbeView::Dir(Root::Local, repository_components(n.floating())),
                    ),
                )
            }
        },
        (Phase::PinnedFetchedLoad, EventView::Load(c)) => {
            match c {
                Some(cfg) => (
                    ResolverView { name: n, phase: Phase::Finished },
                    StepView::Done(
                        OutcomeView::Found(Root::Fetched, repository_components(n), cfg),
                    ),
                ),
                None => (
                    ResolverView { name: n, phase: Phase::Finished },
                    StepView::Done(OutcomeView::Failed(BatlError::ConfigInvalid)),
                ),
            }
        },
        (Phase::PinnedFloatingDir, EventView::Dir(b)) => {
            if b {
                (
                    ResolverView { name: n, phase: Phase::PinnedFloatingLoad },
                    StepView::Ask(
                        ProbeView::Load(Root::Local, repository_components(n.floating())),
                    ),
                )
            } else {
                (
                    ResolverView { name: n, phase: Phase::Finished },
                    StepView::Done(OutcomeView::Absent),
                )
            }
        },
        (Phase::PinnedFloatingLoad, EventView::Load(c)) => {
            match c {
                Some(cfg) => {
                    if n.version == Some(cfg.version) {
                        (
                            ResolverView { name: n, phase: Phase::Finished },
                            StepView::Done(
                                OutcomeView::Found(
                                    Root::Local,
                                    repository_components(n.floating()),
                                    cfg,
                                ),
                            ),
                        )
                    } else {
                        (
                            ResolverView { name: n, phase: Phase::Finished },
                            StepView::Done(OutcomeView::Absent),
                        )
                    }
                },
                None => (
                    ResolverView { name: n, phase: Phase::Finished },
                    StepView::Done(OutcomeView::Failed(BatlError::ConfigInvalid)),
                ),
            }
        },
        (Phase::FloatCwd, EventView::CwdDependency(pin)) => {
            match pin {
                Some(v) => (
                    ResolverView { name: pinned(n, v), phase: Phase::PinnedLocalDir },
                    StepView::Ask(
                        ProbeView::Dir(Root::Local, repository_components(pinned(n, v))),
                    ),
                ),
                None => (
                    ResolverView { name: n, phase: Phase::FloatLocalDir },
                    StepView::Ask(ProbeView::Dir(Root::Local, repository_components(n))),
                ),
            }
        },
        (Phase::FloatLocalDir, EventView::Dir(b)) => {
            if b {
                (
                    ResolverView { name: n, phase: Phase::FloatLocalLoad },
                    StepView::Ask(ProbeView::Load(Root::Local, repository_components(n))),
                )
            } else {
                (
                    ResolverView { name: n, phase: Phase::FloatVersionDirLocal },
                    StepView::Ask(
                        ProbeView::Dir(Root::Local, version_folder_components(n)),
                    ),
                )
            }
        },
        (Phase::FloatLocalLoad, EventView::Load(c)) => {
            match c {
                Some(cfg) => (
                    ResolverView { name: n, phase: Phase::Finished },
                    StepView::Done(
                        OutcomeView::Found(Root::Local, repository_components(n), cfg),
                    ),
                ),
                None => (
                    ResolverView { name: n, phase: Phase::Finished },
                    StepView::Done(OutcomeView::Failed(BatlError::ConfigInvalid)),
                ),
            }
        },
        (Phase::FloatVersionDirLocal, EventView::Dir(b)) => {
            if b {
                (
                    ResolverView { name: n, phase: Phase::FloatListLocal },
                    StepView::Ask(
                        ProbeView::ListVersions(Root::Local, version_folder_components(n)),
                    ),
                )
            } else {
                (
                    ResolverView { name: n, phase: Phase::FloatVersionDirFetched },
                    StepView::Ask(
                        ProbeView::Dir(Root::Fetched, version_folder_components(n)),
                    ),
                )
            }
        },
        (Phase::FloatListLocal, EventView::Listing(items)) => {
            match versions_of_listing(items) {
                Some(vs) => {
                    if vs.len() == 0 {
                        (
                            ResolverView { name: n, phase: Phase::FloatVersionDirFetched },
                            StepView::Ask(
                                ProbeView::Dir(Root::Fetched, version_folder_components(n)),
                            ),
                        )
                    } else {
                        let p = pinned(n, max_version_of(vs));
                        (
                            ResolverView { name: p, phase: Phase::PinnedLocalDir },
                            StepView::Ask(ProbeView::Dir(Root::Local, repository_components(p))),
                        )
                    }
                },
                None => (
                    ResolverView { name: n, phase: Phase::Finished },
                    StepView::Done(OutcomeView::Failed(BatlError::InvalidName)),
                ),
            }
        },
        (Phase::FloatVersionDirFetched, EventView::Dir(b)) => {
            if b {
                (
                    ResolverView { name: n, phase: Phase::FloatListFetched },
                    StepView::Ask(
                        ProbeView::ListVersions(Root::Fetched, version_folder_components(n)),
                    ),
                )
            } else {
                (
                    ResolverView { name: n, phase: Phase::Finished },
                    StepView::Done(OutcomeView::Absent),
                )
            }
        },
        (Phase::FloatListFetched, EventView::Listing(items)) => {
            match versions_of_listing(items) {
                Some(vs) => {
                    if vs.len() == 0 {
                        (
                            ResolverView { name: n, phase: Phase::Finished },
                            StepView::Done(OutcomeView::Absent),
                        )
                    } else {
                        let p = pinned(n, max_version_of(vs));
                        (
                            ResolverView { name: p, phase: Phase::PinnedLocalDir },
                            StepView::Ask(ProbeView::Dir(Root::Local, repository_components(p))),
                        )
                    }
                },
                None => (
                    ResolverView { name: n, phase: Phase::Finished },
                    StepView::Done(OutcomeView::Failed(BatlError::InvalidName)),
                ),
            }
        },
        _ => fail,
    }
}

/// Where a resolution starts: the pinned chain for a pinned name, the
/// enclosing repository's pin for a floating one.
pub open spec fn start_spec(n: NameView) -> (ResolverView, StepView) {
    if n.version is Some {
        (
            ResolverView { name: n, phase: Phase::PinnedLocalDir },
            StepView::Ask(ProbeView::Dir(Root::Local, repository_components(n))),
        )
    } else {
        (
            ResolverView { name: n, phase: Phase::FloatCwd },
            StepView::Ask(ProbeView::CwdDependency),
        )
    }
}

// ---------------------------------------------------------------------------
// Running the machine
// ---------------------------------------------------------------------------

/// The versions of Vec-held versions.
pub open spec fn version_views(vs: Seq<Version>) -> Seq<VersionView> {
    vs.map_values(|v: Version| v@)
}

/// Parses a version-folder listing.
#[verifier::loop_isolation(false)]
fn parse_listing(items: &Vec<String>) -> (r: Option<Vec<Version>>)
    ensures
        match r {
            Some(vs) => versions_of_listing(str_views(items@)) == Some(version_views(vs@))
                && (forall|j: int| 0 <= j < vs@.len() ==> (#[trigger] vs@[j]@).wf()),
            None => versions_of_listing(str_views(items@)) is None,
        },
{
    let ghost t = str_views(items@);
    let mut out: Vec<Version> = Vec::new();
    let mut i: usize = 0;
    proof {
        assert(t.skip(0) =~= t);
        if versions_of_listing(t) is Some {
            assert(version_views(out@) + versions_of_listing(t)->Some_0 =~= versions_of_listing(
                t,
            )->Some_0);
        }
    }
    while i < items.len()
        invariant
            i <= items@.len(),
            versions_of_listing(t) == match versions_of_listing(t.skip(i as int)) {
                Some(rest) => Some(version_views(out@) + rest),
                None => None::<Seq<VersionView>>,
            },
            forall|j: int| 0 <= j < out@.len() ==> (#[trigger] out@[j]@).wf(),
        decreases items@.len() - i,
    {
        let ghost out0 = out@;
        proof {
            assert(t.skip(i as int)[0] == items@[i as int]@);
            assert(t.skip(i as int).skip(1) =~= t.skip(i as int + 1));
        }
        if !items[i].as_str().is_ascii() {
            proof {
                crate::name::lemma_nonascii_version_comp(items@[i as int]@);
            }
            return None;
        }
        let unescaped = unescape_plus(items[i].as_str());
        match Version::parse(unescaped.as_str()) {
            Ok(v) => {
                out.push(v);
                proof {
                    assert(version_views(out@) =~= version_views(out0) + seq![out@.last()@]);
                    if versions_of_listing(t.skip(i as int + 1)) is Some {
                        assert(version_views(out0) + (seq![out@.last()@] + versions_of_listing(
                            t.skip(i as int + 1),
                        )->Some_0) =~= version_views(out@) + versions_of_listing(
                            t.skip(i as int + 1),
                        )->Some_0);
                    }
                }
            },
            Err(_) => {
                return None;
            },
        }
        i = i + 1;
    }
    proof {
        assert(t.skip(items@.len() as int).len() == 0);
        assert(version_views(out@) + Seq::<VersionView>::empty() =~= version_views(out@));
    }
    Some(out)
}

/// The newest of the versions from position `k` on.
fn max_from(vs: &Vec<Version>, k: usize) -> (r: Version)
    requires
        k < vs@.len(),
    ensures
        r@ == max_version_of(version_views(vs@).skip(k as int)),
    decreases vs@.len() - k,
{
    proof {
        assert(version_views(vs@).skip(k as int)[0] == vs@[k as int]@);
    }
    if k == vs.len() - 1 {
        vs[k].duplicate()
    } else {
        let m = max_from(vs, k + 1);
        proof {
            assert(version_views(vs@).skip(k as int).skip(1) =~= version_views(vs@).skip(
                k as int + 1,
            ));
        }
        if m.precedes(&vs[k]) {
            vs[k].duplicate()
        } else {
            m
        }
    }
}

impl Resolver {
    /// The machine's state is always a well-formed name and a phase.
    pub open spec fn inv(&self) -> bool {
        self@.name.wf()
    }

    /// Whether an answer fits what the resolver can take next: a version
    /// handed in from the enclosing repository's pin must be well formed.
    pub open spec fn event_wf(e: EventView) -> bool {
        match e {
            EventView::CwdDependency(Some(v)) => v.wf(),
            _ => true,
        }
    }

    /// Begins resolving `name` and returns the first question.
    pub fn start(name: Name) -> (r: (Resolver, Step))
        requires
            name@.wf(),
        ensures
            (r.0@, r.1@) == start_spec(name@),
            r.0.inv(),
    {
        if name.version().is_some() {
            let probe = Probe::Dir(Root::Local, name.path_segments_as_repository_name());
            let resolver = Resolver { name, phase: Phase::PinnedLocalDir };
            (resolver, Step::Ask(probe))
        } else {
            let resolver = Resolver { name, phase: Phase::FloatCwd };
            (resolver, Step::Ask(Probe::CwdDependency))
        }
    }

    /// The repository path of the current request without its version.
    fn floating_repo_path(&self) -> (r: Vec<String>)
        requires
            self.inv(),
        ensures
            str_views(r@) == repository_components(self@.name.floating()),
    {
        let floating = self.name.duplicate().without_version();
        floating.path_segments_as_repository_name()
    }

    /// Feeds the answer to the pending question and takes one step.
    #[verifier::rlimit(100)]
    pub fn next(&mut self, event: Event) -> (step: Step)
        requires
            old(self).inv(),
            Resolver::event_wf(event@),
        ensures
            (final(self)@, step@) == step_spec(old(self)@, event@),
            final(self).inv(),
    {
        match (self.phase, event) {
            (Phase::PinnedLocalDir, Event::Dir(b)) => {
                if b {
                    self.phase = Phase::PinnedLocalLoad;
                    Step::Ask(Probe::Load(Root::Local, self.name.path_segments_as_repository_name()))
                } else {
                    self.phase = Phase::PinnedFetchedDir;
                    Step::Ask(Probe::Dir(Root::Fetched, self.name.path_segments_as_repository_name()))
                }
            },
            (Phase::PinnedLocalLoad, Event::Load(c)) => {
                self.phase = Phase::Finished;
                match c {
                    Some(cfg) => Step::Done(
                        Outcome::Found(
                            Root::Local,
                            self.name.path_segments_as_repository_name(),
                            cfg,
                        ),
                    ),
                    None => Step::Done(Outcome::Failed(BatlError::ConfigInvalid)),
                }
            },
            (Phase::PinnedFetchedDir, Event::Dir(b)) => {
                if b {
                    self.phase = Phase::PinnedFetchedLoad;
                    Step::Ask(Probe::Load(Root::Fetched, self.name.path_segments_as_repository_name()))
                } else {
                    self.phase = Phase::PinnedFloatingDir;
                    Step::Ask(Probe::Dir(Root::Local, self.floating_repo_path()))
                }
            },
            (Phase::PinnedFetchedLoad, Event::Load(c)) => {
                self.phase = Phase::Finished;
                match c {
                    Some(cfg) => Step::Done(
                        Outcome::Found(
                            Root::Fetched,
                            self.name.path_segments_as_repository_name(),
                            cfg,
                        ),
                    ),
                    None => Step::Done(Outcome::Failed(BatlError::ConfigInvalid)),
                }
            },
            (Phase::PinnedFloatingDir, Event::Dir(b)) => {
                if b {
                    self.phase = Phase::PinnedFloatingLoad;
                    Step::Ask(Probe::Load(Root::Local, self.floating_repo_path()))
                } else {
                    self.phase = Phase::Finished;
                    Step::Done(Outcome::Absent)
                }
            },
            (Phase::PinnedFloatingLoad, Event::Load(c)) => {
                self.phase = Phase::Finished;
                match c {
                    Some(cfg) => {
                        let matches_pin = match self.name.version() {
                            Some(v) => v.same_as(&cfg.version),
                            None => false,
                        };
                        if matches_pin {
                            Step::Done(
                                Outcome::Found(Root::Local, self.floating_repo_path(), cfg),
                            )
                        } else {
                            Step::Done(Outcome::Absent)
                        }
                    },
                    None => Step::Done(Outcome::Failed(BatlError::ConfigInvalid)),
                }
            },
            (Phase::FloatCwd, Event::CwdDependency(pin)) => {
                match pin {
                    Some(v) => {
                        self.name = self.name.duplicate().with_version(v);
                        self.phase = Phase::PinnedLocalDir;
                        Step::Ask(
                            Probe::Dir(Root::Local, self.name.path_segments_as_repository_name()),
                        )
                    },
                    None => {
                        self.phase = Phase::FloatLocalDir;
                        Step::Ask(
                            Probe::Dir(Root::Local, self.name.path_segments_as_repository_name()),
                        )
                    },
                }
            },
            (Phase::FloatLocalDir, Event::Dir(b)) => {
                if b {
                    self.phase = Phase::FloatLocalLoad;
                    Step::Ask(Probe::Load(Root::Local, self.name.path_segments_as_repository_name()))
                } else {
                    self.phase = Phase::FloatVersionDirLocal;
                    Step::Ask(Probe::Dir(Root::Local, self.name.path_segments_as_version_folder()))
                }
            },
            (Phase::FloatLocalLoad, Event::Load(c)) => {
                self.phase = Phase::Finished;
                match c {
                    Some(cfg) => Step::Done(
                        Outcome::Found(
                            Root::Local,
                            self.name.path_segments_as_repository_name(),
                            cfg,
                        ),
                    ),
                    None => Step::Done(Outcome::Failed(BatlError::ConfigInvalid)),
                }
            },
            (Phase::FloatVersionDirLocal, Event::Dir(b)) => {
                if b {
                    self.phase = Phase::FloatListLocal;
                    Step::Ask(
                        Probe::ListVersions(
                            Root::Local,
                            self.name.path_segments_as_version_folder(),
                        ),
                    )
                } else {
                    self.phase = Phase::FloatVersionDirFetched;
                    Step::Ask(Probe::Dir(Root::Fetched, self.name.path_segments_as_version_folder()))
                }
            },
            (Phase::FloatListLocal, Event::Listing(items)) => {
                match parse_listing(&items) {
                    Some(vs) => {
                        if vs.len() == 0 {
                            self.phase = Phase::FloatVersionDirFetched;
                            Step::Ask(
                                Probe::Dir(
                                    Root::Fetched,
                                    self.name.path_segments_as_version_folder(),
                                ),
                            )
                        } else {
                            let best = max_from(&vs, 0);
                            proof {
                                assert(version_views(vs@).skip(0) =~= version_views(vs@));
                                lemma_max_version_props(version_views(vs@));
                                let m = max_version_of(version_views(vs@));
                                let w = choose|w: int|
                                    0 <= w < version_views(vs@).len() && version_views(vs@)[w]
                                        == m;
                                assert(vs@[w]@.wf());
                            }
                            self.name = self.name.duplicate().with_version(best);
                            self.phase = Phase::PinnedLocalDir;
                            Step::Ask(
                                Probe::Dir(
                                    Root::Local,
                                    self.name.path_segments_as_repository_name(),
                                ),
                            )
                        }
                    },
                    None => {
                        self.phase = Phase::Finished;
                        Step::Done(Outcome::Failed(BatlError::InvalidName))
                    },
                }
            },
            (Phase::FloatVersionDirFetched, Event::Dir(b)) => {
                if b {
                    self.phase = Phase::FloatListFetched;
                    Step::Ask(
                        Probe::ListVersions(
                            Root::Fetched,
                            self.name.path_segments_as_version_folder(),
                        ),
                    )
                } else {
                    self.phase = Phase::Finished;
                    Step::Done(Outcome::Absent)
                }
            },
            (Phase::FloatListFetched, Event::Listing(items)) => {
                match parse_listing(&items) {
                    Some(vs) => {
                        if vs.len() == 0 {
                            self.phase = Phase::Finished;
                            Step::Done(Outcome::Absent)
                        } else {
                            let best = max_from(&vs, 0);
                            proof {
                                assert(version_views(vs@).skip(0) =~= version_views(vs@));
                                lemma_max_version_props(version_views(vs@));
                                let m = max_version_of(version_views(vs@));
                                let w = choose|w: int|
                                    0 <= w < version_views(vs@).len() && version_views(vs@)[w]
                                        == m;
                                assert(vs@[w]@.wf());
                            }
                            self.name = self.name.duplicate().with_version(best);
                            self.phase = Phase::PinnedLocalDir;
                            Step::Ask(
                                Probe::Dir(
                                    Root::Local,
                                    self.name.path_segments_as_repository_name(),
                                ),
                            )
                        }
                    },
                    None => {
                        self.phase = Phase::Finished;
                        Step::Done(Outcome::Failed(BatlError::InvalidName))
                    },
                }
            },
            (_, _) => {
                self.phase = Phase::Finished;
                Step::Done(Outcome::Failed(BatlError::IoFailure))
            },
        }
    }
}

// ---------------------------------------------------------------------------
// Resolution against a filesystem model
// ---------------------------------------------------------------------------

/// An abstract snapshot of the storage roots: which directories exist,
/// which of them load to which configuration, what the version folders
/// list, and what the enclosing repository pins.
pub ghost struct FsModel {
    pub dirs: Set<(Root, Seq<Seq<char>>)>,
    pub configs: Map<(Root, Seq<Seq<char>>), ConfigView>,
    pub listings: Map<(Root, Seq<Seq<char>>), Seq<Seq<char>>>,
    pub cwd_pin: Option<VersionView>,
}

/// The answer the model gives to a question.
pub open spec fn model_answer(m: FsModel, p: ProbeView) -> EventView {
    match p {
        ProbeView::Dir(r, path) => EventView::Dir(m.dirs.contains((r, path))),
        ProbeView::Load(r, path) => EventView::Load(
            if m.configs.dom().contains((r, path)) {
                Some(m.configs[(r, path)])
            } else {
                None
            },
        ),
        ProbeView::ListVersions(r, path) => EventView::Listing(
            if m.listings.dom().contains((r, path)) {
                m.listings[(r, path)]
            } else {
                Seq::empty()
            },
        ),
        ProbeView::CwdDependency => EventView::CwdDependency(m.cwd_pin),
    }
}

/// Runs the machine to completion against the model, within a step
/// budget; the budget covers every path the machine can take.
pub open spec fn run_resolver(m: FsModel, r: ResolverView, s: StepView, fuel: nat) -> OutcomeView
    decreases fuel,
{
    match s {
        StepView::Done(o) => o,
        StepView::Ask(p) => {
            if fuel == 0 {
                OutcomeView::Failed(BatlError::IoFailure)
            } else {
                let n = step_spec(r, model_answer(m, p));
                run_resolver(m, n.0, n.1, (fuel - 1) as nat)
            }
        },
    }
}

/// What resolving `n` returns against the model.
pub open spec fn resolve_in_model(m: FsModel, n: NameView) -> OutcomeView {
    run_resolver(m, start_spec(n).0, start_spec(n).1, 12)
}

/// A pinned name stored under the local root resolves to the local copy,
/// whatever the fetched root holds: the local copy always takes
/// precedence.
pub proof fn lemma_pinned_prefers_local(m: FsModel, n: NameView)
    requires
        n.version is Some,
        m.dirs.contains((Root::Local, repository_components(n))),
        m.configs.dom().contains((Root::Local, repository_components(n))),
    ensures
        resolve_in_model(m, n) == OutcomeView::Found(
            Root::Local,
            repository_components(n),
            m.configs[(Root::Local, repository_components(n))],
        ),
{
    let rel = repository_components(n);
    let s0 = start_spec(n);
    let e0 = model_answer(m, ProbeView::Dir(Root::Local, rel));
    let s1 = step_spec(s0.0, e0);
    let e1 = model_answer(m, ProbeView::Load(Root::Local, rel));
    let s2 = step_spec(s1.0, e1);
    assert(resolve_in_model(m, n) == run_resolver(m, s1.0, s1.1, 11));
    assert(run_resolver(m, s1.0, s1.1, 11) == run_resolver(m, s2.0, s2.1, 10));
}

/// A pinned name absent from the local root but stored under the fetched
/// root resolves to the fetched copy.
pub proof fn lemma_pinned_falls_back_to_fetched(m: FsModel, n: NameView)
    requires
        n.version is Some,
        !m.dirs.contains((Root::Local, repository_components(n))),
        m.dirs.contains((Root::Fetched, repository_components(n))),
        m.configs.dom().contains((Root::Fetched, repository_components(n))),
    ensures
        resolve_in_model(m, n) == OutcomeView::Found(
            Root::Fetched,
            repository_components(n),
            m.configs[(Root::Fetched, repository_components(n))],
        ),
{
    let rel = repository_components(n);
    let s0 = start_spec(n);
    let e0 = model_answer(m, ProbeView::Dir(Root::Local, rel));
    let s1 = step_spec(s0.0, e0);
    let e1 = model_answer(m, ProbeView::Dir(Root::Fetched, rel));
    let s2 = step_spec(s1.0, e1);
    let e2 = model_answer(m, ProbeView::Load(Root::Fetched, rel));
    let s3 = step_spec(s2.0, e2);
    assert(resolve_in_model(m, n) == run_resolver(m, s1.0, s1.1, 11));
    assert(run_resolver(m, s1.0, s1.1, 11) == run_resolver(m, s2.0, s2.1, 10));
    assert(run_resolver(m, s2.0, s2.1, 10) == run_resolver(m, s3.0, s3.1, 9));
}

} // verus!
