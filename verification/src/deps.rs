//! The transitive dependency walk.
//!
//! Starting from one repository's direct dependencies, the walk discovers
//! the full transitive set, one resolved configuration at a time. Nodes
//! are visited post-order — a node's dependencies are recorded before the
//! node itself — and a visited set keyed by (name without version,
//! version) collapses repeated and diamond dependencies into one visit. A
//! node met again while its own expansion is still open is a cycle, and
//! the walk fails cleanly with `CyclicDependency` instead of recursing
//! forever.

use vstd::prelude::*;

use crate::config::{Config, Settings, Condition};
use crate::error::BatlError;
use crate::name::{Name, NameView};
use crate::repository::Repository;
use crate::version::{Version, VersionView};

verus! {

/// The visit key of a dependency edge: the name without its version,
/// plus the pinned version.
pub open spec fn dep_key(p: (NameView, VersionView)) -> (NameView, VersionView) {
    (p.0.floating(), p.1)
}

/// The views of a vector of edges.
pub open spec fn edge_views(s: Seq<(Name, Version)>) -> Seq<(NameView, VersionView)> {
    s.map_values(|p: (Name, Version)| (p.0@, p.1@))
}

/// No two edges share a visit key.
pub open spec fn no_dup_edges(s: Seq<(NameView, VersionView)>) -> bool {
    forall|i: int, j: int|
        0 <= i < j < s.len() ==> dep_key(#[trigger] s[i]) != dep_key(#[trigger] s[j])
}

/// Every edge holds a well-formed name and version.
pub open spec fn edges_wf(s: Seq<(NameView, VersionView)>) -> bool {
    forall|i: int| 0 <= i < s.len() ==> (#[trigger] s[i]).0.wf() && s[i].1.wf()
}

/// The key occurs among the edges.
pub open spec fn has_key(s: Seq<(NameView, VersionView)>, k: (NameView, VersionView)) -> bool {
    exists|i: int| 0 <= i < s.len() && dep_key(#[trigger] s[i]) == k
}

/// Checks whether the visit key of `(n, v)` occurs in `list`.
fn key_in(list: &Vec<(Name, Version)>, n: &Name, v: &Version) -> (r: bool)
    ensures
        r == has_key(edge_views(list@), dep_key((n@, v@))),
{
    let ghost t = edge_views(list@);
    let mut i: usize = 0;
    while i < list.len()
        invariant
            i <= list@.len(),
            t == edge_views(list@),
            forall|j: int| 0 <= j < i ==> dep_key(#[trigger] t[j]) != dep_key((n@, v@)),
        decreases list@.len() - i,
    {
        if list[i].0.same_floating(n) && list[i].1.same_as(v) {
            proof {
                assert(dep_key(t[i as int]) == dep_key((n@, v@)));
            }
            return true;
        }
        proof {
            assert(t[i as int] == (list@[i as int].0@, list@[i as int].1@));
            assert(dep_key(t[i as int]) != dep_key((n@, v@)));
        }
        i = i + 1;
    }
    proof {
        if has_key(t, dep_key((n@, v@))) {
            let w = choose|w: int| 0 <= w < t.len() && dep_key(#[trigger] t[w]) == dep_key(
                (n@, v@),
            );
            assert(dep_key(t[w]) != dep_key((n@, v@)));
        }
    }
    false
}

/// Copies a vector of edges.
fn copy_edges(list: &Vec<(Name, Version)>) -> (r: Vec<(Name, Version)>)
    ensures
        edge_views(r@) == edge_views(list@),
{
    let mut r: Vec<(Name, Version)> = Vec::new();
    let mut i: usize = 0;
    while i < list.len()
        invariant
            i <= list@.len(),
            r@.len() == i,
            forall|j: int|
                0 <= j < i ==> #[trigger] r@[j].0@ == list@[j].0@ && r@[j].1@ == list@[j].1@,
        decreases list@.len() - i,
    {
        r.push((list[i].0.duplicate(), list[i].1.duplicate()));
        i = i + 1;
    }
    proof {
        assert(edge_views(r@) =~= edge_views(list@));
    }
    r
}

/// What the walk wants next.
pub enum WalkStep {
    /// Resolve this pinned name and supply its configuration.
    Need(Name),
    /// The walk finished with the de-duplicated transitive set, or
    /// failed.
    Done(Result<RecursedRepositoryDeps, BatlError>),
}

/// The de-duplicated transitive dependency set, in post-order insertion
/// order.
pub struct RecursedRepositoryDeps(Vec<(Name, Version)>);

impl RecursedRepositoryDeps {
    /// The edges of the set.
    pub closed spec fn edges(&self) -> Seq<(NameView, VersionView)> {
        edge_views(self.0@)
    }

    /// The collected edges, in insertion order.
    pub fn entries(&self) -> (r: &Vec<(Name, Version)>)
        ensures
            edge_views(r@) == self.edges(),
    {
        &self.0
    }

    /// Takes the collected edges.
    pub fn into_vec(self) -> (r: Vec<(Name, Version)>)
        ensures
            edge_views(r@) == self.edges(),
    {
        let RecursedRepositoryDeps(v) = self;
        v
    }
}

/// The nodes of `chain` form one expansion path: the first is a root
/// edge, and each next one is a declared dependency edge of the node
/// before it.
pub open spec fn open_chain(
    roots: Seq<(NameView, VersionView)>,
    supplied: Map<(NameView, VersionView), Seq<(NameView, VersionView)>>,
    chain: Seq<(NameView, VersionView)>,
) -> bool {
    &&& (chain.len() >= 1 ==> has_key(roots, dep_key(chain[0])))
    &&& (forall|i: int|
        0 <= i < chain.len() - 1 ==> supplied.dom().contains(dep_key(#[trigger] chain[i]))
            && has_key(supplied[dep_key(chain[i])], dep_key(chain[i + 1])))
}

/// What a consumed entry of the frame at position `k` may be: a key
/// already collected, the key of that frame's one still-open descendant,
/// or — for the top frame only — the key currently asked about.
#[verifier::opaque]
pub open spec fn entry_settled(
    v: Seq<(NameView, VersionView)>,
    o: Seq<(NameView, VersionView)>,
    pending: Option<(NameView, VersionView)>,
    k: int,
    top: int,
    e: (NameView, VersionView),
) -> bool {
    ||| has_key(v, e)
    ||| (k < o.len() && dep_key(o[k]) == e)
    ||| (k == top && pending == Some(e))
}

/// `k` was reached from the walk: it is a root edge, or a dependency edge
/// of some collected or still-open node.
#[verifier::opaque]
pub open spec fn reached(
    v: Seq<(NameView, VersionView)>,
    o: Seq<(NameView, VersionView)>,
    roots: Seq<(NameView, VersionView)>,
    supplied: Map<(NameView, VersionView), Seq<(NameView, VersionView)>>,
    k: (NameView, VersionView),
) -> bool {
    ||| has_key(roots, k)
    ||| exists|j: int|
        0 <= j < v.len() && supplied.dom().contains(dep_key(#[trigger] v[j])) && has_key(
            supplied[dep_key(v[j])],
            k,
        )
    ||| exists|j: int|
        0 <= j < o.len() && supplied.dom().contains(dep_key(#[trigger] o[j])) && has_key(
            supplied[dep_key(o[j])],
            k,
        )
}

/// A key found in a sequence is still found after a push.
proof fn lemma_has_key_push(
    s: Seq<(NameView, VersionView)>,
    d: (NameView, VersionView),
    k: (NameView, VersionView),
)
    requires
        has_key(s, k),
    ensures
        has_key(s.push(d), k),
{
    let w = choose|w: int| 0 <= w < s.len() && dep_key(#[trigger] s[w]) == k;
    assert(s.push(d)[w] == s[w]);
}

/// A key found after a push was the pushed key or was already there.
proof fn lemma_has_key_unpush(
    s: Seq<(NameView, VersionView)>,
    d: (NameView, VersionView),
    k: (NameView, VersionView),
)
    requires
        has_key(s.push(d), k),
    ensures
        has_key(s, k) || k == dep_key(d),
{
    let w = choose|w: int| 0 <= w < s.push(d).len() && dep_key(#[trigger] s.push(d)[w]) == k;
    if w < s.len() {
        assert(s[w] == s.push(d)[w]);
    }
}

/// Under the walk's success contract, a dependency edge between two
/// members always points at a strictly earlier member: the finished set
/// is in topological order.
pub proof fn lemma_member_edge_descends(
    s: Seq<(NameView, VersionView)>,
    m: Map<(NameView, VersionView), Seq<(NameView, VersionView)>>,
    a: int,
    b: int,
)
    requires
        no_dup_edges(s),
        forall|i: int| 0 <= i < s.len() ==> m.dom().contains(dep_key(#[trigger] s[i])),
        forall|i: int, j: int|
            0 <= i < s.len() && 0 <= j < m[dep_key(s[i])].len() ==> has_key(
                s.take(i),
                dep_key(#[trigger] m[dep_key(#[trigger] s[i])][j]),
            ),
        0 <= a < s.len(),
        0 <= b < s.len(),
        has_key(m[dep_key(s[a])], dep_key(s[b])),
    ensures
        b < a,
{
    let j = choose|j: int|
        0 <= j < m[dep_key(s[a])].len() && dep_key(#[trigger] m[dep_key(s[a])][j]) == dep_key(
            s[b],
        );
    assert(has_key(s.take(a), dep_key(m[dep_key(s[a])][j])));
    let w = choose|w: int|
        0 <= w < s.take(a).len() && dep_key(#[trigger] s.take(a)[w]) == dep_key(s[b]);
    assert(s.take(a)[w] == s[w]);
    if w != b {
        assert(dep_key(s[w]) != dep_key(s[b]));
    }
}

/// Under the walk's success contract, the collected sub-graph has no
/// cycle: along any dependency chain between members the positions
/// strictly descend, so no edge can lead from the chain's end back to
/// its start.
pub proof fn lemma_collected_set_acyclic(
    s: Seq<(NameView, VersionView)>,
    m: Map<(NameView, VersionView), Seq<(NameView, VersionView)>>,
    c: Seq<int>,
)
    requires
        no_dup_edges(s),
        forall|i: int| 0 <= i < s.len() ==> m.dom().contains(dep_key(#[trigger] s[i])),
        forall|i: int, j: int|
            0 <= i < s.len() && 0 <= j < m[dep_key(s[i])].len() ==> has_key(
                s.take(i),
                dep_key(#[trigger] m[dep_key(#[trigger] s[i])][j]),
            ),
        c.len() >= 1,
        forall|t: int| 0 <= t < c.len() ==> 0 <= #[trigger] c[t] < s.len(),
        forall|t: int|
            0 <= t < c.len() - 1 ==> has_key(m[dep_key(s[#[trigger] c[t]])], dep_key(s[c[t + 1]])),
    ensures
        !has_key(m[dep_key(s[c.last()])], dep_key(s[c[0]])),
{
    if has_key(m[dep_key(s[c.last()])], dep_key(s[c[0]])) {
        lemma_member_edge_descends(s, m, c.last(), c[0]);
        if c.len() >= 2 {
            lemma_descent(s, m, c, c.len() - 1);
        }
    }
}

/// Along a dependency chain between members, every node sits strictly
/// below the first in the set's order.
proof fn lemma_descent(
    s: Seq<(NameView, VersionView)>,
    m: Map<(NameView, VersionView), Seq<(NameView, VersionView)>>,
    c: Seq<int>,
    t: int,
)
    requires
        no_dup_edges(s),
        forall|i: int| 0 <= i < s.len() ==> m.dom().contains(dep_key(#[trigger] s[i])),
        forall|i: int, j: int|
            0 <= i < s.len() && 0 <= j < m[dep_key(s[i])].len() ==> has_key(
                s.take(i),
                dep_key(#[trigger] m[dep_key(#[trigger] s[i])][j]),
            ),
        forall|u: int| 0 <= u < c.len() ==> 0 <= #[trigger] c[u] < s.len(),
        forall|u: int|
            0 <= u < c.len() - 1 ==> has_key(m[dep_key(s[#[trigger] c[u]])], dep_key(s[c[u + 1]])),
        1 <= t < c.len(),
    ensures
        c[t] < c[0],
    decreases t,
{
    lemma_member_edge_descends(s, m, c[t - 1], c[t]);
    if t > 1 {
        lemma_descent(s, m, c, t - 1);
    }
}

/// An in-progress transitive walk, with its ghost history: the starting
/// repository's direct dependency edges and, for every visit key, the
/// dependency list that was supplied for it. The contracts tie the
/// finished set to this history: it contains every root edge, it is
/// closed under the supplied lists, every member was reached from the
/// walk, and members come after their dependencies, which rules out any
/// cycle among them.
pub struct DepWalk {
    visited: Vec<(Name, Version)>,
    open_nodes: Vec<(Name, Version)>,
    frames: Vec<(Vec<(Name, Version)>, usize)>,
    awaiting: Option<(Name, Version)>,
    failed: Option<BatlError>,
    root_edges: Ghost<Seq<(NameView, VersionView)>>,
    supplied_lists: Ghost<Map<(NameView, VersionView), Seq<(NameView, VersionView)>>>,
}

impl DepWalk {
    /// The starting repository's direct dependency edges.
    pub closed spec fn roots(&self) -> Seq<(NameView, VersionView)> {
        self.root_edges@
    }

    /// The dependency lists supplied so far, by visit key.
    pub closed spec fn supplied(&self) -> Map<
        (NameView, VersionView),
        Seq<(NameView, VersionView)>,
    > {
        self.supplied_lists@
    }

    /// The visit key the walk is waiting on, if any.
    pub closed spec fn pending(&self) -> Option<(NameView, VersionView)> {
        match self.awaiting {
            Some(d) => Some(dep_key((d.0@, d.1@))),
            None => None,
        }
    }

    /// The failure the walk has committed to, if any.
    pub closed spec fn failure(&self) -> Option<BatlError> {
        self.failed
    }

    /// The keys of the nodes whose expansion is still open.
    pub closed spec fn open_keys(&self) -> Seq<(NameView, VersionView)> {
        edge_views(self.open_nodes@)
    }

    /// The walk's internal consistency: visited keys are unique and
    /// disjoint from the open nodes; one frame per open node plus the
    /// root frame, the root frame holding the root edges and every other
    /// frame the supplied list of its open node; every consumed frame
    /// entry is settled; every collected node was supplied, with its list
    /// sitting among the earlier collected nodes; the open nodes form one
    /// expansion chain; everything recorded was reached and every
    /// supplied key is still recorded or open; and once the frames are
    /// gone, every root edge has been collected.
    pub closed spec fn inv(&self) -> bool {
        let v = edge_views(self.visited@);
        let o = edge_views(self.open_nodes@);
        let roots = self.root_edges@;
        let supplied = self.supplied_lists@;
        &&& no_dup_edges(v)
        &&& no_dup_edges(o)
        &&& edges_wf(v)
        &&& edges_wf(o)
        &&& (forall|k: int| 0 <= k < o.len() ==> !has_key(v, dep_key(#[trigger] o[k])))
        &&& (self.frames@.len() == 0 ==> self.open_nodes@.len() == 0)
        &&& (self.frames@.len() >= 1 ==> self.open_nodes@.len() == self.frames@.len() - 1)
        &&& (forall|k: int|
            0 <= k < self.frames@.len() ==> (#[trigger] self.frames@[k]).1 <= self.frames@[
                k
            ].0@.len() && edges_wf(edge_views(self.frames@[k].0@)))
        &&& (self.frames@.len() >= 1 ==> edge_views(self.frames@[0].0@) == roots)
        &&& (forall|i: int|
            0 <= i < self.open_nodes@.len() ==> supplied.dom().contains(dep_key(#[trigger] o[i]))
                && edge_views(self.frames@[i + 1].0@) == supplied[dep_key(o[i])])
        &&& (self.failed is None ==> forall|k: int, j: int|
            0 <= k < self.frames@.len() && 0 <= j < self.frames@[k].1 ==> entry_settled(
                v,
                o,
                self.pending(),
                k,
                self.frames@.len() - 1,
                dep_key(#[trigger] edge_views(self.frames@[k].0@)[j]),
            ))
        &&& (forall|i: int|
            0 <= i < v.len() ==> supplied.dom().contains(dep_key(#[trigger] v[i])))
        &&& (forall|i: int, j: int|
            0 <= i < v.len() && 0 <= j < supplied[dep_key(v[i])].len() ==> has_key(
                v.take(i),
                dep_key(#[trigger] supplied[dep_key(#[trigger] v[i])][j]),
            ))
        &&& open_chain(roots, supplied, o)
        &&& (forall|kk: (NameView, VersionView)|
            supplied.dom().contains(kk) ==> has_key(v, kk) || has_key(o, kk))
        &&& (forall|i: int| 0 <= i < v.len() ==> reached(v, o, roots, supplied, dep_key(#[trigger] v[i])))
        &&& (forall|i: int| 0 <= i < o.len() ==> reached(v, o, roots, supplied, dep_key(#[trigger] o[i])))
        &&& (self.frames@.len() == 0 ==> forall|i: int|
            0 <= i < roots.len() ==> has_key(v, dep_key(#[trigger] roots[i])))
        &&& match self.awaiting {
            Some(d) => {
                &&& d.0@.wf() && d.1@.wf()
                &&& self.frames@.len() >= 1
                &&& !has_key(v, dep_key((d.0@, d.1@)))
                &&& !has_key(o, dep_key((d.0@, d.1@)))
                &&& reached(v, o, roots, supplied, dep_key((d.0@, d.1@)))
                &&& (o.len() == 0 ==> has_key(roots, dep_key((d.0@, d.1@))))
                &&& (o.len() >= 1 ==> supplied.dom().contains(dep_key(o.last())) && has_key(
                    supplied[dep_key(o.last())],
                    dep_key((d.0@, d.1@)),
                ))
            },
            None => true,
        }
    }

    /// Begins a walk from a repository's direct dependencies.
    pub fn start(repo: &Repository) -> (r: DepWalk)
        requires
            repo.wf(),
        ensures
            r.inv(),
            r.roots() == repo@.config.dependencies,
            r.supplied() == Map::<(NameView, VersionView), Seq<(NameView, VersionView)>>::empty(),
            r.pending() is None,
            r.failure() is None,
    {
        let deps = copy_edges(&repo.config().dependencies);
        let ghost roots = edge_views(deps@);
        let mut frames: Vec<(Vec<(Name, Version)>, usize)> = Vec::new();
        proof {
            assert(roots =~= repo@.config.dependencies);
            assert forall|i: int|
                0 <= i < roots.len() implies (#[trigger] roots[i]).0.wf() && roots[i].1.wf() by {
                assert(repo@.config.dependencies[i].0.wf());
            }
        }
        frames.push((deps, 0));
        DepWalk {
            visited: Vec::new(),
            open_nodes: Vec::new(),
            frames,
            awaiting: None,
            failed: None,
            root_edges: Ghost(roots),
            supplied_lists: Ghost(
                Map::<(NameView, VersionView), Seq<(NameView, VersionView)>>::empty(),
            ),
        }
    }

    /// Runs until the walk needs a configuration or is done. With the
    /// history intact the outcome is pinned: a committed failure is
    /// returned as it stands; a pending question is asked again; a
    /// successful finish hands back a duplicate-free set that contains
    /// every root edge, is closed under every supplied list, holds only
    /// nodes reached from the walk, and lists every node after all of its
    /// dependencies — a topological order, so the collected sub-graph is
    /// acyclic. A fresh failure can only be the cycle report, and it
    /// carries a genuine loop: the open nodes form one expansion chain,
    /// and the deepest one's dependency list points back at a member of
    /// that chain.
    #[verifier::loop_isolation(false)]
    pub fn advance(&mut self) -> (step: WalkStep)
        requires
            old(self).inv(),
        ensures
            final(self).inv(),
            final(self).roots() == old(self).roots(),
            match old(self).failure() {
                Some(e) => *final(self) == *old(self) && match step {
                    WalkStep::Done(r) => r == Err::<RecursedRepositoryDeps, BatlError>(e),
                    WalkStep::Need(_) => false,
                },
                None => match old(self).pending() {
                    Some(k) => *final(self) == *old(self) && match step {
                        WalkStep::Need(n) => n@.wf() && n@.version is Some && Some(
                            (n@.floating(), n@.version->Some_0),
                        ) == old(self).pending(),
                        WalkStep::Done(_) => false,
                    },
                    None => match step {
                        WalkStep::Need(n) => {
                            &&& n@.wf()
                            &&& n@.version is Some
                            &&& final(self).pending() == Some(
                                (n@.floating(), n@.version->Some_0),
                            )
                            &&& !final(self).supplied().dom().contains(
                                (n@.floating(), n@.version->Some_0),
                            )
                            &&& final(self).supplied() == old(self).supplied()
                            &&& final(self).failure() is None
                        },
                        WalkStep::Done(r) => match r {
                            Ok(set) => {
                                &&& no_dup_edges(set.edges())
                                &&& edges_wf(set.edges())
                                &&& (forall|i: int|
                                    0 <= i < old(self).roots().len() ==> has_key(
                                        set.edges(),
                                        dep_key(#[trigger] old(self).roots()[i]),
                                    ))
                                &&& (forall|i: int|
                                    0 <= i < set.edges().len() ==> final(self).supplied().dom().contains(
                                        dep_key(#[trigger] set.edges()[i]),
                                    ))
                                &&& (forall|i: int, j: int|
                                    0 <= i < set.edges().len() && 0 <= j < final(self).supplied()[dep_key(set.edges()[i])].len() ==> has_key(
                                        set.edges(),
                                        dep_key(
                                            #[trigger] final(self).supplied()[dep_key(
                                                #[trigger] set.edges()[i],
                                            )][j],
                                        ),
                                    ))
                                &&& (forall|i: int, j: int|
                                    0 <= i < set.edges().len() && 0 <= j < final(self).supplied()[dep_key(set.edges()[i])].len() ==> has_key(
                                        set.edges().take(i),
                                        dep_key(
                                            #[trigger] final(self).supplied()[dep_key(
                                                #[trigger] set.edges()[i],
                                            )][j],
                                        ),
                                    ))
                                &&& (forall|i: int|
                                    0 <= i < set.edges().len() ==> has_key(
                                        old(self).roots(),
                                        dep_key(#[trigger] set.edges()[i]),
                                    ) || exists|w: int|
                                        0 <= w < set.edges().len() && final(self).supplied().dom().contains(
                                            dep_key(#[trigger] set.edges()[w]),
                                        ) && has_key(
                                            final(self).supplied()[dep_key(set.edges()[w])],
                                            dep_key(set.edges()[i]),
                                        ))
                                &&& final(self).supplied() == old(self).supplied()
                                &&& final(self).pending() is None
                                &&& final(self).failure() is None
                            },
                            Err(e) => {
                                &&& e == BatlError::CyclicDependency
                                &&& final(self).failure() == Some(e)
                                &&& final(self).supplied() == old(self).supplied()
                                &&& final(self).open_keys().len() >= 1
                                &&& open_chain(
                                    final(self).roots(),
                                    final(self).supplied(),
                                    final(self).open_keys(),
                                )
                                &&& final(self).supplied().dom().contains(
                                    dep_key(final(self).open_keys().last()),
                                )
                                &&& exists|j: int|
                                    0 <= j < final(self).open_keys().len() && has_key(
                                        final(self).supplied()[dep_key(
                                            final(self).open_keys().last(),
                                        )],
                                        dep_key(#[trigger] final(self).open_keys()[j]),
                                    )
                            },
                        },
                    },
                },
            },
    {
        if let Some(e) = &self.failed {
            let err = *e;
            return WalkStep::Done(Err(err));
        }
        if let Some(d) = &self.awaiting {
            let pinned = d.0.duplicate().without_version().with_version(d.1.duplicate());
            proof {
                assert(pinned@.floating() =~= (d.0@).floating());
            }
            return WalkStep::Need(pinned);
        }
        loop
            invariant
                self.inv(),
                self.awaiting is None,
                self.failed is None,
                self.root_edges@ == old(self).root_edges@,
                self.supplied_lists@ == old(self).supplied_lists@,
            decreases
                self.frames@.len(),
                (if self.frames@.len() > 0 {
                    self.frames@.last().0@.len() + 1 - self.frames@.last().1
                } else {
                    0
                }),
        {
            if self.frames.len() == 0 {
                return WalkStep::Done(Ok(self.finish()));
            }
            let k = self.frames.len() - 1;
            if self.frames[k].1 >= self.frames[k].0.len() {
                self.complete_top();
            } else {
                match self.consume_next() {
                    Some(step) => {
                        return step;
                    },
                    None => {},
                }
            }
        }
    }

    /// Collects the finished set: with no frame left, no node is still
    /// open, so the visited list is the whole closure.
    #[verifier::spinoff_prover]
    fn finish(&self) -> (set: RecursedRepositoryDeps)
        requires
            self.inv(),
            self.frames@.len() == 0,
        ensures
            no_dup_edges(set.edges()),
            edges_wf(set.edges()),
            forall|i: int|
                0 <= i < self.root_edges@.len() ==> has_key(
                    set.edges(),
                    dep_key(#[trigger] self.root_edges@[i]),
                ),
            forall|i: int|
                0 <= i < set.edges().len() ==> self.supplied_lists@.dom().contains(
                    dep_key(#[trigger] set.edges()[i]),
                ),
            forall|i: int, j: int|
                0 <= i < set.edges().len() && 0 <= j < self.supplied_lists@[dep_key(
                    set.edges()[i],
                )].len() ==> has_key(
                    set.edges(),
                    dep_key(
                        #[trigger] self.supplied_lists@[dep_key(#[trigger] set.edges()[i])][j],
                    ),
                ),
            forall|i: int, j: int|
                0 <= i < set.edges().len() && 0 <= j < self.supplied_lists@[dep_key(
                    set.edges()[i],
                )].len() ==> has_key(
                    set.edges().take(i),
                    dep_key(
                        #[trigger] self.supplied_lists@[dep_key(#[trigger] set.edges()[i])][j],
                    ),
                ),
            forall|i: int|
                0 <= i < set.edges().len() ==> has_key(
                    self.root_edges@,
                    dep_key(#[trigger] set.edges()[i]),
                ) || exists|w: int|
                    0 <= w < set.edges().len() && self.supplied_lists@.dom().contains(
                        dep_key(#[trigger] set.edges()[w]),
                    ) && has_key(
                        self.supplied_lists@[dep_key(set.edges()[w])],
                        dep_key(set.edges()[i]),
                    ),
    {
        let result = copy_edges(&self.visited);
        proof {
            let v = edge_views(self.visited@);
            assert(edge_views(result@) == v);
            assert(edge_views(self.open_nodes@).len() == 0);
            // Every member's dependencies already precede it; in
            // particular they are members themselves.
            assert forall|i: int, j: int|
                0 <= i < v.len() && 0 <= j < self.supplied_lists@[dep_key(
                    v[i],
                )].len() implies has_key(
                v,
                dep_key(#[trigger] self.supplied_lists@[dep_key(#[trigger] v[i])][j]),
            ) by {
                let kk = dep_key(self.supplied_lists@[dep_key(v[i])][j]);
                assert(has_key(v.take(i), kk));
                let w = choose|w: int|
                    0 <= w < v.take(i).len() && dep_key(#[trigger] v.take(i)[w]) == kk;
                assert(v[w] == v.take(i)[w]);
            }
            assert forall|i: int, j: int|
                0 <= i < v.len() && 0 <= j < self.supplied_lists@[dep_key(
                    v[i],
                )].len() implies has_key(
                edge_views(result@).take(i),
                dep_key(#[trigger] self.supplied_lists@[dep_key(#[trigger] v[i])][j]),
            ) by {
                assert(edge_views(result@).take(i) =~= v.take(i));
            }
            assert forall|i: int|
                0 <= i < v.len() implies has_key(
                self.root_edges@,
                dep_key(#[trigger] v[i]),
            ) || exists|w: int|
                0 <= w < v.len() && self.supplied_lists@.dom().contains(
                    dep_key(#[trigger] v[w]),
                ) && has_key(self.supplied_lists@[dep_key(v[w])], dep_key(v[i])) by {
                reveal(reached);
                assert(reached(
                    v,
                    edge_views(self.open_nodes@),
                    self.root_edges@,
                    self.supplied_lists@,
                    dep_key(v[i]),
                ));
            }
        }
        RecursedRepositoryDeps(result)
    }

    /// Completes the node whose frame is exhausted: the node leaves the
    /// open list and is recorded, after all of its dependencies.
    #[verifier::spinoff_prover]
    #[verifier::rlimit(100)]
    fn complete_top(&mut self)
        requires
            old(self).inv(),
            old(self).awaiting is None,
            old(self).failed is None,
            old(self).frames@.len() >= 1,
            old(self).frames@.last().1 >= old(self).frames@.last().0@.len(),
        ensures
            final(self).inv(),
            final(self).awaiting is None,
            final(self).failed is None,
            final(self).root_edges@ == old(self).root_edges@,
            final(self).supplied_lists@ == old(self).supplied_lists@,
            final(self).frames@.len() == old(self).frames@.len() - 1,
    {
        let ghost frames_top = self.frames@;
        let ghost pend_top = self.pending();
        self.frames.pop();
        proof {
            let fr = self.frames@;
            assert forall|k2: int|
                0 <= k2 < fr.len() implies (#[trigger] fr[k2]).1 <= fr[k2].0@.len()
                && edges_wf(edge_views(fr[k2].0@)) by {
                assert(fr[k2] == frames_top[k2]);
            }
            if fr.len() >= 1 {
                assert(fr[0] == frames_top[0]);
            }
        }
        if self.frames.len() > 0 {
            let ghost open_top = edge_views(self.open_nodes@);
            let ghost v_before = edge_views(self.visited@);
            let d = match self.open_nodes.pop() {
                Some(d) => d,
                None => {
                    proof {
                        assert(false);
                    }
                    return;
                },
            };
            proof {
                let last = open_top.len() - 1;
                assert(open_top[last] == (d.0@, d.1@));
                assert(!has_key(v_before, dep_key(open_top[last])));
                assert((d.0@).wf() && (d.1@).wf());
            }
            self.visited.push(d);
            proof {
                let last = open_top.len() - 1;
                let dk = dep_key(open_top[last]);
                let v = edge_views(self.visited@);
                let o = edge_views(self.open_nodes@);
                let roots = self.root_edges@;
                let supplied = self.supplied_lists@;
                let klast = frames_top.len() - 1;
                assert(v =~= v_before.push(open_top[last]));
                assert(v[v.len() - 1] == open_top[last]);
                assert(o =~= open_top.take(last));
                assert forall|i: int| 0 <= i < o.len() implies #[trigger] o[i]
                    == open_top[i] by {}
                // the completed frame belonged to the completed node
                assert(supplied.dom().contains(dk) && edge_views(frames_top[klast].0@)
                    == supplied[dk]) by {
                    assert(frames_top[klast] == frames_top[klast]);
                }
                // uniqueness and well-formedness of the grown visited list
                assert forall|i: int, j: int|
                    0 <= i < j < v.len() implies dep_key(#[trigger] v[i]) != dep_key(
                    #[trigger] v[j]) by {
                    if j < v.len() - 1 {
                        assert(v[i] == v_before[i]);
                        assert(v[j] == v_before[j]);
                    } else {
                        assert(v[i] == v_before[i]);
                        if dep_key(v[i]) == dep_key(v[j]) {
                            assert(has_key(v_before, dk));
                        }
                    }
                }
                assert forall|i: int|
                    0 <= i < v.len() implies (#[trigger] v[i]).0.wf() && v[i].1.wf() by {
                    if i < v.len() - 1 {
                        assert(v[i] == v_before[i]);
                    }
                }
                // open keys stay disjoint from the visited ones
                assert forall|k2: int|
                    0 <= k2 < o.len() implies !has_key(v, dep_key(#[trigger] o[k2])) by {
                    if has_key(v, dep_key(o[k2])) {
                        lemma_has_key_unpush(v_before, open_top[last], dep_key(o[k2]));
                        assert(dep_key(open_top[k2]) != dep_key(open_top[last]));
                    }
                }
                // frames still mirror the open nodes
                assert forall|i: int|
                    0 <= i < self.open_nodes@.len() implies supplied.dom().contains(
                    dep_key(#[trigger] o[i]),
                ) && edge_views(self.frames@[i + 1].0@) == supplied[dep_key(o[i])] by {
                    assert(self.frames@[i + 1] == frames_top[i + 1]);
                    assert(o[i] == open_top[i]);
                }
                // every supplied key stays recorded or open
                assert forall|kk: (NameView, VersionView)|
                    supplied.dom().contains(kk) implies has_key(v, kk) || has_key(o, kk) by {
                    if has_key(v_before, kk) {
                        lemma_has_key_push(v_before, open_top[last], kk);
                    } else {
                        let w = choose|w: int|
                            0 <= w < open_top.len() && dep_key(#[trigger] open_top[w]) == kk;
                        if w < last {
                            assert(o[w] == open_top[w]);
                        } else {
                            assert(v[v.len() - 1] == open_top[last]);
                        }
                    }
                }
                // consumed entries stay settled: the completed node's key
                // moves from the open list into the visited one
                assert forall|k2: int, j: int|
                    0 <= k2 < self.frames@.len() && 0 <= j < self.frames@[k2].1 implies entry_settled(
                    v,
                    o,
                    self.pending(),
                    k2,
                    self.frames@.len() - 1,
                    dep_key(#[trigger] edge_views(self.frames@[k2].0@)[j]),
                ) by {
                    reveal(entry_settled);
                    assert(self.frames@[k2] == frames_top[k2]);
                    let key = dep_key(edge_views(frames_top[k2].0@)[j]);
                    assert(entry_settled(v_before, open_top, pend_top, k2, klast, key));
                    if has_key(v_before, key) {
                        lemma_has_key_push(v_before, open_top[last], key);
                    } else if k2 < open_top.len() && dep_key(open_top[k2]) == key {
                        if k2 < last {
                            assert(o[k2] == open_top[k2]);
                        } else {
                            assert(v[v.len() - 1] == open_top[last]);
                        }
                    }
                }
                // the new member was supplied, and its list stays inside
                assert forall|i: int|
                    0 <= i < v.len() implies supplied.dom().contains(
                    dep_key(#[trigger] v[i]),
                ) by {
                    if i < v.len() - 1 {
                        assert(v[i] == v_before[i]);
                    }
                }
                // every member's dependencies precede it: the completed
                // frame was fully consumed and its node has no open
                // descendant left, so its list sits inside the earlier
                // members
                assert forall|i: int, j: int|
                    0 <= i < v.len() && 0 <= j < supplied[dep_key(v[i])].len() implies has_key(
                    v.take(i),
                    dep_key(#[trigger] supplied[dep_key(#[trigger] v[i])][j]),
                ) by {
                    reveal(entry_settled);
                    let key = dep_key(supplied[dep_key(v[i])][j]);
                    if i < v.len() - 1 {
                        assert(v[i] == v_before[i]);
                        assert(has_key(v_before.take(i), key));
                        assert(v.take(i) =~= v_before.take(i));
                    } else {
                        assert(edge_views(frames_top[klast].0@)[j] == supplied[dk][j]);
                        assert(entry_settled(
                            v_before,
                            open_top,
                            pend_top,
                            klast,
                            klast,
                            dep_key(edge_views(frames_top[klast].0@)[j]),
                        ));
                        assert(open_top.len() == klast);
                        assert(has_key(v_before, key));
                        assert(v.take(i) =~= v_before);
                    }
                }
                // the open nodes still form the expansion chain
                assert(open_chain(roots, supplied, o)) by {
                    if o.len() >= 1 {
                        assert(o[0] == open_top[0]);
                    }
                    assert forall|i: int|
                        0 <= i < o.len() - 1 implies supplied.dom().contains(
                        dep_key(#[trigger] o[i]),
                    ) && has_key(supplied[dep_key(o[i])], dep_key(o[i + 1])) by {
                        assert(o[i] == open_top[i]);
                        assert(o[i + 1] == open_top[i + 1]);
                    }
                }
                // everything recorded stays reached
                assert forall|key: (NameView, VersionView)|
                    reached(v_before, open_top, roots, supplied, key) implies reached(
                    v,
                    o,
                    roots,
                    supplied,
                    key,
                ) by {
                    reveal(reached);
                    if !has_key(roots, key) {
                        if exists|j: int|
                            0 <= j < v_before.len() && supplied.dom().contains(
                                dep_key(#[trigger] v_before[j]),
                            ) && has_key(supplied[dep_key(v_before[j])], key) {
                            let j = choose|j: int|
                                0 <= j < v_before.len() && supplied.dom().contains(
                                    dep_key(#[trigger] v_before[j]),
                                ) && has_key(supplied[dep_key(v_before[j])], key);
                            assert(v[j] == v_before[j]);
                        } else {
                            let j = choose|j: int|
                                0 <= j < open_top.len() && supplied.dom().contains(
                                    dep_key(#[trigger] open_top[j]),
                                ) && has_key(supplied[dep_key(open_top[j])], key);
                            if j < last {
                                assert(o[j] == open_top[j]);
                            } else {
                                assert(v[v.len() - 1] == open_top[last]);
                            }
                        }
                    }
                }
                assert forall|i: int|
                    0 <= i < v.len() implies reached(
                    v,
                    o,
                    roots,
                    supplied,
                    dep_key(#[trigger] v[i]),
                ) by {
                    if i < v.len() - 1 {
                        assert(v[i] == v_before[i]);
                        assert(reached(v_before, open_top, roots, supplied, dep_key(v[i])));
                    } else {
                        assert(reached(v_before, open_top, roots, supplied, dk));
                    }
                }
                assert forall|i: int|
                    0 <= i < o.len() implies reached(
                    v,
                    o,
                    roots,
                    supplied,
                    dep_key(#[trigger] o[i]),
                ) by {
                    assert(o[i] == open_top[i]);
                    assert(reached(v_before, open_top, roots, supplied, dep_key(o[i])));
                }
            }
        } else {
            // the root frame itself completed: every root edge was
            // consumed, and with no open node left, collected
            proof {
                let v = edge_views(self.visited@);
                let roots = self.root_edges@;
                assert(edge_views(frames_top[0].0@) == roots);
                assert forall|i: int|
                    0 <= i < roots.len() implies has_key(v, dep_key(#[trigger] roots[i])) by {
                    reveal(entry_settled);
                    assert(entry_settled(
                        v,
                        edge_views(self.open_nodes@),
                        pend_top,
                        0,
                        0,
                        dep_key(edge_views(frames_top[0].0@)[i]),
                    ));
                    assert(edge_views(self.open_nodes@).len() == 0);
                }
            }
        }
    }

    /// Takes the next entry of the top frame: a collected key is skipped,
    /// a still-open key closes a loop in the expansion chain and is the
    /// cycle report, anything else becomes the next question.
    #[verifier::spinoff_prover]
    #[verifier::rlimit(100)]
    fn consume_next(&mut self) -> (r: Option<WalkStep>)
        requires
            old(self).inv(),
            old(self).awaiting is None,
            old(self).failed is None,
            old(self).frames@.len() >= 1,
            old(self).frames@.last().1 < old(self).frames@.last().0@.len(),
        ensures
            final(self).inv(),
            final(self).root_edges@ == old(self).root_edges@,
            final(self).supplied_lists@ == old(self).supplied_lists@,
            final(self).frames@.len() == old(self).frames@.len(),
            final(self).frames@.last().0@.len() == old(self).frames@.last().0@.len(),
            final(self).frames@.last().1 == old(self).frames@.last().1 + 1,
            match r {
                None => final(self).awaiting is None && final(self).failed is None,
                Some(step) => match step {
                    WalkStep::Need(n) => {
                        &&& n@.wf()
                        &&& n@.version is Some
                        &&& final(self).pending() == Some((n@.floating(), n@.version->Some_0))
                        &&& !final(self).supplied().dom().contains(
                            (n@.floating(), n@.version->Some_0),
                        )
                        &&& final(self).failed is None
                    },
                    WalkStep::Done(res) => match res {
                        Err(e) => {
                            &&& e == BatlError::CyclicDependency
                            &&& final(self).failure() == Some(e)
                            &&& final(self).open_keys().len() >= 1
                            &&& open_chain(
                                final(self).roots(),
                                final(self).supplied(),
                                final(self).open_keys(),
                            )
                            &&& final(self).supplied().dom().contains(
                                dep_key(final(self).open_keys().last()),
                            )
                            &&& exists|j: int|
                                0 <= j < final(self).open_keys().len() && has_key(
                                    final(self).supplied()[dep_key(
                                        final(self).open_keys().last(),
                                    )],
                                    dep_key(#[trigger] final(self).open_keys()[j]),
                                )
                        },
                        Ok(_) => false,
                    },
                },
            },
    {
        let ghost frames_top = self.frames@;
        let ghost pend_top = self.pending();
        let k = self.frames.len() - 1;
        let next_index = self.frames[k].1;
        let total = self.frames[k].0.len();
        proof {
            assert(next_index < total);
        }
        let dep_name = self.frames[k].0[next_index].0.duplicate();
        let dep_version = self.frames[k].0[next_index].1.duplicate();
        let (deps, _) = match self.frames.pop() {
            Some(f) => f,
            None => {
                proof {
                    assert(false);
                }
                return None;
            },
        };
        self.frames.push((deps, next_index + 1));
        proof {
            let fr = self.frames@;
            assert(fr.last().0@ == frames_top[k as int].0@);
            if k == 0 {
                assert(fr[0].0@ == frames_top[0].0@);
            } else {
                assert(fr[0] == frames_top[0]);
            }
            assert forall|k2: int|
                0 <= k2 < fr.len() implies (#[trigger] fr[k2]).1 <= fr[k2].0@.len()
                && edges_wf(edge_views(fr[k2].0@)) by {
                if k2 < fr.len() - 1 {
                    assert(fr[k2] == frames_top[k2]);
                }
            }
            assert forall|i: int|
                0 <= i < self.open_nodes@.len() implies self.supplied_lists@.dom().contains(
                dep_key(#[trigger] edge_views(self.open_nodes@)[i]),
            ) && edge_views(self.frames@[i + 1].0@) == self.supplied_lists@[dep_key(
                edge_views(self.open_nodes@)[i],
            )] by {
                if i + 1 < fr.len() - 1 {
                    assert(fr[i + 1] == frames_top[i + 1]);
                } else {
                    assert(fr[i + 1].0@ == frames_top[i + 1].0@);
                }
            }
            assert(edge_views(self.frames@.last().0@)[next_index as int]
                == (dep_name@, dep_version@));
        }
        let ghost entry = (dep_name@, dep_version@);
        if key_in(&self.visited, &dep_name, &dep_version) {
            // already collected: diamond or repeat, skip
            proof {
                assert forall|k2: int, j: int|
                    0 <= k2 < self.frames@.len() && 0 <= j < self.frames@[k2].1 implies entry_settled(
                    edge_views(self.visited@),
                    edge_views(self.open_nodes@),
                    self.pending(),
                    k2,
                    self.frames@.len() - 1,
                    dep_key(#[trigger] edge_views(self.frames@[k2].0@)[j]),
                ) by {
                    reveal(entry_settled);
                    if k2 == self.frames@.len() - 1 && j == next_index {
                        assert(dep_key(edge_views(self.frames@[k2].0@)[j]) == dep_key(entry));
                    } else {
                        assert(self.frames@[k2].0@ == frames_top[k2].0@);
                        assert(entry_settled(
                            edge_views(self.visited@),
                            edge_views(self.open_nodes@),
                            pend_top,
                            k2,
                            self.frames@.len() - 1,
                            dep_key(edge_views(frames_top[k2].0@)[j]),
                        ));
                    }
                }
            }
            None
        } else if key_in(&self.open_nodes, &dep_name, &dep_version) {
            self.failed = Some(BatlError::CyclicDependency);
            proof {
                let o = edge_views(self.open_nodes@);
                let w = choose|w: int|
                    0 <= w < o.len() && dep_key(#[trigger] o[w]) == dep_key(entry);
                // a hit in the open list means the top frame is not the
                // root frame, so the taken edge closes a genuine loop:
                // it sits in the deepest open node's supplied list and
                // equals a node of the expansion chain
                assert(o.len() >= 1);
                assert(k >= 1);
                let owner = dep_key(o[k - 1]);
                assert(o[k - 1] == o.last());
                assert(self.supplied_lists@.dom().contains(owner));
                assert(has_key(self.supplied_lists@[owner], dep_key(entry)));
                assert(0 <= w < self.open_keys().len() && has_key(
                    self.supplied_lists@[dep_key(self.open_keys().last())],
                    dep_key(self.open_keys()[w]),
                ));
            }
            Some(WalkStep::Done(Err(BatlError::CyclicDependency)))
        } else {
            self.awaiting = Some((dep_name.duplicate(), dep_version.duplicate()));
            proof {
                assert(self.pending() == Some(dep_key(entry)));
                assert forall|k2: int, j: int|
                    0 <= k2 < self.frames@.len() && 0 <= j < self.frames@[k2].1 implies entry_settled(
                    edge_views(self.visited@),
                    edge_views(self.open_nodes@),
                    self.pending(),
                    k2,
                    self.frames@.len() - 1,
                    dep_key(#[trigger] edge_views(self.frames@[k2].0@)[j]),
                ) by {
                    reveal(entry_settled);
                    if k2 == self.frames@.len() - 1 && j == next_index {
                    } else {
                        assert(self.frames@[k2].0@ == frames_top[k2].0@);
                        assert(entry_settled(
                            edge_views(self.visited@),
                            edge_views(self.open_nodes@),
                            pend_top,
                            k2,
                            self.frames@.len() - 1,
                            dep_key(edge_views(frames_top[k2].0@)[j]),
                        ));
                    }
                }
                if k == 0 {
                    assert(edge_views(self.open_nodes@).len() == 0);
                    assert(has_key(self.root_edges@, dep_key(entry)));
                } else {
                    let oi = k - 1;
                    assert(edge_views(self.open_nodes@)[oi] == edge_views(
                        self.open_nodes@,
                    ).last());
                    assert(self.supplied_lists@.dom().contains(
                        dep_key(edge_views(self.open_nodes@)[oi]),
                    ));
                    assert(has_key(
                        self.supplied_lists@[dep_key(edge_views(self.open_nodes@)[oi])],
                        dep_key(entry),
                    ));
                }
                assert(reached(
                    edge_views(self.visited@),
                    edge_views(self.open_nodes@),
                    self.root_edges@,
                    self.supplied_lists@,
                    dep_key(entry),
                )) by {
                    reveal(reached);
                }
            }
            let pinned = dep_name.without_version().with_version(dep_version);
            proof {
                assert(pinned@.floating() =~= (entry.0).floating());
            }
            Some(WalkStep::Need(pinned))
        }
    }

    /// Supplies the configuration of the requested dependency, or nothing
    /// if it could not be resolved. A missing configuration commits the
    /// walk to `NotFound`; a well-formed one records its dependency list
    /// under the pending key; a call out of turn, or a configuration with
    /// malformed names, commits the walk to `IoFailure`.
    pub fn supply(&mut self, config: Option<Config>)
        requires
            old(self).inv(),
        ensures
            final(self).inv(),
            final(self).roots() == old(self).roots(),
            match old(self).failure() {
                Some(_) => *final(self) == *old(self),
                None => match old(self).pending() {
                    None => final(self).failure() == Some(BatlError::IoFailure) && final(self).supplied() == old(self).supplied(),
                    Some(key) => match config {
                        None => {
                            &&& final(self).failure() == Some(BatlError::NotFound)
                            &&& final(self).supplied() == old(self).supplied()
                            &&& final(self).pending() is None
                        },
                        Some(cfg) => {
                            &&& (edges_wf(cfg@.dependencies) ==> final(self).failure() is None
                                && final(self).supplied() == old(self).supplied().insert(
                                key,
                                cfg@.dependencies,
                            ) && final(self).pending() is None)
                            &&& (!edges_wf(cfg@.dependencies) ==> final(self).failure() == Some(
                                BatlError::IoFailure,
                            ) && final(self).supplied() == old(self).supplied())
                        },
                    },
                },
            },
    {
        if self.failed.is_some() {
            return;
        }
        if self.awaiting.is_none() {
            self.failed = Some(BatlError::IoFailure);
            return;
        }
        match config {
            Some(cfg) => {
                let deps = copy_edges(&cfg.dependencies);
                proof {
                    assert(edge_views(deps@) =~= cfg@.dependencies);
                }
                if !edges_all_wf(&deps) {
                    self.awaiting = None;
                    self.failed = Some(BatlError::IoFailure);
                    return;
                }
                self.record_supplied(deps, Ghost(cfg@.dependencies));
            },
            None => {
                self.awaiting = None;
                self.failed = Some(BatlError::NotFound);
            },
        }
    }

    /// Records a supplied dependency list under the pending key and opens
    /// the node for expansion.
    #[verifier::spinoff_prover]
    #[verifier::rlimit(100)]
    fn record_supplied(
        &mut self,
        deps: Vec<(Name, Version)>,
        Ghost(list): Ghost<Seq<(NameView, VersionView)>>,
    )
        requires
            old(self).inv(),
            old(self).failed is None,
            old(self).awaiting is Some,
            edge_views(deps@) == list,
            edges_wf(list),
        ensures
            final(self).inv(),
            final(self).failed is None,
            final(self).awaiting is None,
            final(self).root_edges@ == old(self).root_edges@,
            final(self).supplied_lists@ == old(self).supplied_lists@.insert(
                old(self).pending()->Some_0,
                list,
            ),
    {
        let mut taken: Option<(Name, Version)> = None;
        core::mem::swap(&mut taken, &mut self.awaiting);
        let d = match taken {
            Some(d) => d,
            None => {
                proof {
                    assert(false);
                }
                return;
            },
        };
        let ghost key = dep_key((d.0@, d.1@));
        let ghost open0 = edge_views(self.open_nodes@);
        let ghost v0 = edge_views(self.visited@);
        let ghost frames0 = self.frames@;
        let ghost supplied0 = self.supplied_lists@;
        let ghost dpair = (d.0@, d.1@);
        proof {
            assert((d.0@).wf() && (d.1@).wf());
            assert(!has_key(v0, key));
            assert(!has_key(open0, key));
            self.supplied_lists@ = supplied0.insert(key, list);
        }
        self.open_nodes.push(d);
        self.frames.push((deps, 0));
        proof {
            let v = edge_views(self.visited@);
            let o = edge_views(self.open_nodes@);
            let roots = self.root_edges@;
            let supplied = self.supplied_lists@;
            assert(o =~= open0.push(dpair));
            assert(o[o.len() - 1] == dpair);
            assert forall|i: int| 0 <= i < o.len() - 1 implies #[trigger] o[i] == open0[i] by {}
            // lookups under untouched keys are unchanged
            assert forall|kk: (NameView, VersionView)|
                kk != key implies supplied.dom().contains(kk) == supplied0.dom().contains(kk)
                && (supplied0.dom().contains(kk) ==> #[trigger] supplied[kk]
                    == supplied0[kk]) by {}
            assert forall|i: int| 0 <= i < o.len() implies (#[trigger] o[i]).0.wf()
                && o[i].1.wf() by {
                if i < o.len() - 1 {
                    assert(o[i] == open0[i]);
                }
            }
            assert forall|i: int, j: int|
                0 <= i < j < o.len() implies dep_key(#[trigger] o[i]) != dep_key(
                #[trigger] o[j]) by {
                if j < o.len() - 1 {
                    assert(o[i] == open0[i]);
                    assert(o[j] == open0[j]);
                } else {
                    assert(o[i] == open0[i]);
                    if dep_key(o[i]) == dep_key(o[j]) {
                        assert(has_key(open0, key));
                    }
                }
            }
            assert forall|k2: int|
                0 <= k2 < o.len() implies !has_key(v, dep_key(#[trigger] o[k2])) by {
                if k2 < o.len() - 1 {
                    assert(o[k2] == open0[k2]);
                }
            }
            // frames still mirror the open nodes
            assert(self.frames@[0] == frames0[0]);
            assert forall|i: int|
                0 <= i < self.open_nodes@.len() implies supplied.dom().contains(
                dep_key(#[trigger] o[i]),
            ) && edge_views(self.frames@[i + 1].0@) == supplied[dep_key(o[i])] by {
                if i < self.open_nodes@.len() - 1 {
                    assert(self.frames@[i + 1] == frames0[i + 1]);
                    assert(o[i] == open0[i]);
                    assert(dep_key(open0[i]) != key);
                } else {
                    assert(o[i] == dpair);
                    assert(edge_views(self.frames@[i + 1].0@) == list);
                }
            }
            assert forall|k2: int|
                0 <= k2 < self.frames@.len() implies (#[trigger] self.frames@[k2]).1
                <= self.frames@[k2].0@.len() && edges_wf(edge_views(self.frames@[k2].0@)) by {
                if k2 < self.frames@.len() - 1 {
                    assert(self.frames@[k2] == frames0[k2]);
                }
            }
            // every supplied key stays recorded or open
            assert forall|kk: (NameView, VersionView)|
                supplied.dom().contains(kk) implies has_key(v, kk) || has_key(o, kk) by {
                if kk == key {
                    assert(has_key(o, kk)) by {
                        assert(o[o.len() - 1] == dpair);
                    }
                } else {
                    assert(supplied0.dom().contains(kk));
                    if has_key(open0, kk) {
                        lemma_has_key_push(open0, dpair, kk);
                    }
                }
            }
            // consumed entries stay settled: the pending key becomes the
            // old top frame's open descendant
            assert forall|k2: int, j: int|
                0 <= k2 < self.frames@.len() && 0 <= j < self.frames@[k2].1 implies entry_settled(
                v,
                o,
                self.pending(),
                k2,
                self.frames@.len() - 1,
                dep_key(#[trigger] edge_views(self.frames@[k2].0@)[j]),
            ) by {
                reveal(entry_settled);
                if k2 < self.frames@.len() - 1 {
                    assert(self.frames@[k2].0@ == frames0[k2].0@);
                    let kk = dep_key(edge_views(frames0[k2].0@)[j]);
                    assert(entry_settled(v0, open0, Some(key), k2, frames0.len() - 1, kk));
                    if k2 < open0.len() && dep_key(open0[k2]) == kk {
                        assert(o[k2] == open0[k2]);
                    }
                    if k2 == frames0.len() - 1 && kk == key {
                        assert(k2 == o.len() - 1);
                        assert(dep_key(o[k2]) == kk) by {
                            assert(o[o.len() - 1] == dpair);
                        }
                    }
                }
            }
            // members keep their supplied lists, which still point inside
            assert forall|i: int|
                0 <= i < v.len() implies supplied.dom().contains(dep_key(#[trigger] v[i])) by {
                assert(dep_key(v[i]) != key);
            }
            assert forall|i: int, j: int|
                0 <= i < v.len() && 0 <= j < supplied[dep_key(v[i])].len() implies has_key(
                v.take(i),
                dep_key(#[trigger] supplied[dep_key(#[trigger] v[i])][j]),
            ) by {
                assert(dep_key(v[i]) != key);
                assert(supplied[dep_key(v[i])] == supplied0[dep_key(v[i])]);
            }
            // the new node extends the expansion chain
            assert(open_chain(roots, supplied, o)) by {
                if open0.len() == 0 {
                    assert(o[0] == dpair);
                    assert(has_key(roots, key));
                } else {
                    assert(o[0] == open0[0]);
                }
                assert forall|i: int|
                    0 <= i < o.len() - 1 implies supplied.dom().contains(
                    dep_key(#[trigger] o[i]),
                ) && has_key(supplied[dep_key(o[i])], dep_key(o[i + 1])) by {
                    if i < open0.len() - 1 {
                        assert(o[i] == open0[i]);
                        assert(o[i + 1] == open0[i + 1]);
                        assert(dep_key(open0[i]) != key);
                        assert(supplied[dep_key(o[i])] == supplied0[dep_key(open0[i])]);
                    } else {
                        assert(o[i] == open0[i]);
                        assert(o[i] == open0.last());
                        assert(o[i + 1] == dpair);
                        assert(dep_key(open0[i]) != key);
                        assert(supplied[dep_key(o[i])] == supplied0[dep_key(open0[i])]);
                        assert(supplied0.dom().contains(dep_key(open0.last())));
                        assert(has_key(supplied0[dep_key(open0.last())], key));
                    }
                }
            }
            // everything recorded stays reached
            assert forall|kk: (NameView, VersionView)|
                reached(v0, open0, roots, supplied0, kk) implies reached(
                v,
                o,
                roots,
                supplied,
                kk,
            ) by {
                reveal(reached);
                if !has_key(roots, kk) {
                    if exists|j: int|
                        0 <= j < v0.len() && supplied0.dom().contains(
                            dep_key(#[trigger] v0[j]),
                        ) && has_key(supplied0[dep_key(v0[j])], kk) {
                        let j = choose|j: int|
                            0 <= j < v0.len() && supplied0.dom().contains(
                                dep_key(#[trigger] v0[j]),
                            ) && has_key(supplied0[dep_key(v0[j])], kk);
                        assert(dep_key(v0[j]) != key);
                        assert(supplied[dep_key(v[j])] == supplied0[dep_key(v0[j])]);
                    } else {
                        let j = choose|j: int|
                            0 <= j < open0.len() && supplied0.dom().contains(
                                dep_key(#[trigger] open0[j]),
                            ) && has_key(supplied0[dep_key(open0[j])], kk);
                        assert(o[j] == open0[j]);
                        assert(dep_key(open0[j]) != key);
                        assert(supplied[dep_key(o[j])] == supplied0[dep_key(open0[j])]);
                    }
                }
            }
            assert forall|i: int|
                0 <= i < v.len() implies reached(
                v,
                o,
                roots,
                supplied,
                dep_key(#[trigger] v[i]),
            ) by {
                assert(reached(v0, open0, roots, supplied0, dep_key(v[i])));
            }
            assert forall|i: int|
                0 <= i < o.len() implies reached(
                v,
                o,
                roots,
                supplied,
                dep_key(#[trigger] o[i]),
            ) by {
                if i < o.len() - 1 {
                    assert(o[i] == open0[i]);
                    assert(reached(v0, open0, roots, supplied0, dep_key(o[i])));
                } else {
                    assert(reached(v0, open0, roots, supplied0, key));
                }
            }
        }
    }
}

/// Checks whether every edge is well formed.
fn edges_all_wf(list: &Vec<(Name, Version)>) -> (r: bool)
    ensures
        r == edges_wf(edge_views(list@)),
{
    let mut i: usize = 0;
    while i < list.len()
        invariant
            i <= list@.len(),
            forall|j: int|
                0 <= j < i ==> (#[trigger] edge_views(list@)[j]).0.wf() && edge_views(
                    list@,
                )[j].1.wf(),
        decreases list@.len() - i,
    {
        proof {
            assert(edge_views(list@)[i as int] == (list@[i as int].0@, list@[i as int].1@));
        }
        if !list[i].0.is_wf() || !list[i].1.is_wf() {
            proof {
                assert(!((edge_views(list@)[i as int]).0.wf() && edge_views(
                    list@,
                )[i as int].1.wf()));
            }
            return false;
        }
        i = i + 1;
    }
    true
}

/// The summary of a repository: its identity, its transitive dependency
/// set and its restrictions.
pub struct RepositorySummary {
    pub name: Name,
    pub version: Version,
    pub dependencies: RecursedRepositoryDeps,
    pub restrict: Vec<(Condition, Settings)>,
}

impl RepositorySummary {
    /// Assembles the summary of a repository from its finished walk.
    #[verifier::loop_isolation(false)]
    pub fn of_repository(repo: &Repository, dependencies: RecursedRepositoryDeps) -> (r:
        RepositorySummary)
        requires
            repo.wf(),
        ensures
            r.name@ == repo@.config.name,
            r.version@ == repo@.config.version,
            r.dependencies.edges() == dependencies.edges(),
            crate::config::cpairs(r.restrict@) == repo@.config.restrict,
    {
        let name = repo.config().name.duplicate();
        let version = repo.config().version.duplicate();
        let mut restrict: Vec<(Condition, Settings)> = Vec::new();
        let src = &repo.config().restrict;
        let mut i: usize = 0;
        while i < src.len()
            invariant
                i <= src@.len(),
                restrict@.len() == i,
                forall|j: int|
                    0 <= j < i ==> #[trigger] restrict@[j].0 == src@[j].0 && restrict@[j].1@
                        == src@[j].1@,
            decreases src@.len() - i,
        {
            let deps_copy = match &src[i].1.dependencies {
                Some(d) => Some(crate::config::copy_strings(d)),
                None => None,
            };
            restrict.push((src[i].0, Settings { inclusion: src[i].1.inclusion, dependencies: deps_copy }));
            proof {
                assert(restrict@[i as int].0 == src@[i as int].0);
                assert(restrict@[i as int].1@ =~= src@[i as int].1@);
                assert(restrict@[i as int].1@ == src@[i as int].1@);
            }
            i = i + 1;
        }
        proof {
            assert(crate::config::cpairs(restrict@) =~= crate::config::cpairs(src@));
        }
        RepositorySummary { name, version, dependencies, restrict }
    }
}

} // verus!
