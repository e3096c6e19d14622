//! The history walker: a snapshot of the reachable commit graph, and a
//! level-synchronized breadth-first search over it that collects the
//! `(version, height)` candidates — the nearest tagged ancestors of the
//! head and their distances.

use vstd::prelude::*;

use crate::error::MinverError;
use crate::repo::commit_parent_ids;
use crate::semver::Version;
use crate::semver::VersionView;
use crate::tag_index::trie_get;
use crate::tag_index::trie_model;
use crate::tag_index::TagTrie;

verus! {

/// A snapshot of the commit ancestry: each entry maps a commit id to the
/// ids of its parents. Ids are the hex texts git uses.
pub struct CommitGraph {
    pub entries: Vec<(String, Vec<String>)>,
}

/// The abstract shape of the snapshot.
pub open spec fn entries_model(es: Seq<(String, Vec<String>)>) -> Map<Seq<char>, Seq<Seq<char>>>
    decreases es.len(),
{
    if es.len() == 0 {
        Map::empty()
    } else {
        entries_model(es.drop_last()).insert(es.last().0@, es.last().1.deep_view())
    }
}

impl CommitGraph {
    /// Each commit appears at most once.
    pub open spec fn wf(self) -> bool {
        forall|i: int, j: int|
            0 <= i < j < self.entries@.len() ==> (#[trigger] self.entries@[i]).0@ != (
            #[trigger] self.entries@[j]).0@
    }

    pub open spec fn model(self) -> Map<Seq<char>, Seq<Seq<char>>> {
        entries_model(self.entries@)
    }

    /// The parents recorded for a commit, if the snapshot holds it.
    pub fn parents_of<'a>(&'a self, id: &String) -> (r: Option<&'a Vec<String>>)
        requires
            self.wf(),
        ensures
            match r {
                Some(ps) => self.model().contains_key(id@) && ps.deep_view() == self.model()[id@],
                None => !self.model().contains_key(id@),
            },
    {
        proof {
            lemma_entries_model(self.entries@);
        }
        let n = self.entries.len();
        let mut i: usize = 0;
        while i < n
            invariant
                self.wf(),
                n == self.entries@.len(),
                i <= n,
                forall|j: int| 0 <= j < i ==> (#[trigger] self.entries@[j]).0@ != id@,
            decreases n - i,
        {
            let entry = &self.entries[i];
            if crate::grammar::str_eq(entry.0.as_str(), id.as_str()) {
                proof {
                    lemma_entries_model(self.entries@);
                    assert(self.entries@[i as int].0@ == id@);
                }
                return Some(&entry.1);
            }
            i = i + 1;
        }
        proof {
            assert(forall|j: int| 0 <= j < self.entries@.len()
                ==> (#[trigger] self.entries@[j]).0@ != id@);
        }
        None
    }

    /// Whether the snapshot holds a commit.
    pub fn contains_id(&self, id: &String) -> (r: bool)
        requires
            self.wf(),
        ensures
            r == self.model().contains_key(id@),
    {
        match self.parents_of(id) {
            Some(_) => true,
            None => false,
        }
    }

    /// Records a commit that is not yet in the snapshot.
    fn push_entry(&mut self, id: String, parents: Vec<String>)
        requires
            old(self).wf(),
            !old(self).model().contains_key(id@),
        ensures
            final(self).wf(),
            final(self).model() == old(self).model().insert(id@, parents.deep_view()),
    {
        proof {
            lemma_entries_model(self.entries@);
        }
        let ghost es0 = self.entries@;
        self.entries.push((id, parents));
        proof {
            assert(self.entries@.drop_last() =~= es0);
            assert(forall|j: int| 0 <= j < es0.len() ==> (#[trigger] es0[j]).0@
                != self.entries@.last().0@);
        }
    }
}

/// What the model of an entry list holds: exactly the listed keys, each at
/// its recorded parents (keys being unique).
proof fn lemma_entries_model(es: Seq<(String, Vec<String>)>)
    requires
        forall|i: int, j: int|
            0 <= i < j < es.len() ==> (#[trigger] es[i]).0@ != (#[trigger] es[j]).0@,
    ensures
        forall|k: Seq<char>|
            #[trigger] entries_model(es).contains_key(k) <==> exists|i: int|
                0 <= i < es.len() && (#[trigger] es[i]).0@ == k,
        forall|i: int|
            0 <= i < es.len() ==> entries_model(es).contains_key((#[trigger] es[i]).0@)
                && entries_model(es)[es[i].0@] == es[i].1.deep_view(),
    decreases es.len(),
{
    if es.len() > 0 {
        let prefix = es.drop_last();
        lemma_entries_model(prefix);
        assert(forall|i: int| 0 <= i < prefix.len() ==> es[i] == prefix[i]);
        assert forall|i: int| 0 <= i < es.len() implies entries_model(es).contains_key(
            (#[trigger] es[i]).0@,
        ) && entries_model(es)[es[i].0@] == es[i].1.deep_view() by {
            if i < es.len() - 1 {
                assert(es[i].0@ != es.last().0@);
            }
        }
        assert forall|k: Seq<char>| #[trigger] entries_model(es).contains_key(k) implies exists|
            i: int,
        | 0 <= i < es.len() && (#[trigger] es[i]).0@ == k by {
            if k == es.last().0@ {
                assert(es[es.len() - 1].0@ == k);
            } else {
                assert(entries_model(prefix).contains_key(k));
                let i = choose|i: int| 0 <= i < prefix.len() && (#[trigger] prefix[i]).0@ == k;
                assert(es[i].0@ == k);
            }
        }
        assert forall|k: Seq<char>|
            exists|i: int| 0 <= i < es.len() && (#[trigger] es[i]).0@
                == k implies #[trigger] entries_model(es).contains_key(k) by {
            let i = choose|i: int| 0 <= i < es.len() && (#[trigger] es[i]).0@ == k;
            if i == es.len() - 1 {
            } else {
                assert(prefix[i].0@ == k);
                assert(entries_model(prefix).contains_key(k));
            }
        }
    }
}

/// A snapshot that mentions every parent it records: no recorded parent id
/// is absent from it.
pub open spec fn closed_under_parents(m: Map<Seq<char>, Seq<Seq<char>>>) -> bool {
    forall|k: Seq<char>, j: int|
        m.contains_key(k) && 0 <= j < m[k].len() ==> m.contains_key(#[trigger] m[k][j])
}

/// Closure up to the ids still waiting to be fetched.
spec fn closed_except(m: Map<Seq<char>, Seq<Seq<char>>>, waiting: Seq<Seq<char>>) -> bool {
    forall|k: Seq<char>, j: int|
        m.contains_key(k) && 0 <= j < m[k].len() ==> m.contains_key(#[trigger] m[k][j])
            || waiting.contains(m[k][j])
}

/// Fetches the ancestry reachable from `head`, one wrapper call per
/// commit, until the snapshot is closed under parents. Fails only if the
/// repository cannot be read, or on the (practically unreachable)
/// exhaustion of its step budget.
pub fn fetch_commit_graph(repository: &git2::Repository, head: &String) -> (r: Result<
    CommitGraph,
    MinverError,
>)
    ensures
        r matches Ok(g) ==> g.wf() && g.model().contains_key(head@) && closed_under_parents(
            g.model(),
        ),
        r matches Err(e) ==> (e is Repository || e is Overflow),
{
    let head_parents = match commit_parent_ids(repository, head) {
        Ok(p) => p,
        Err(e) => {
            return Err(MinverError::Repository(e));
        },
    };
    let mut pending: Vec<String> = Vec::new();
    let mut j: usize = 0;
    while j < head_parents.len()
        invariant
            j <= head_parents@.len(),
            pending.deep_view() =~= head_parents.deep_view().take(j as int),
        decreases head_parents@.len() - j,
    {
        let ghost pd0 = pending.deep_view();
        pending.push(head_parents[j].clone());
        proof {
            assert(pending.deep_view() =~= pd0.push(head_parents.deep_view()[j as int]));
            assert(pd0.push(head_parents.deep_view()[j as int]) =~= head_parents.deep_view().take(
                j as int + 1,
            ));
        }
        j = j + 1;
    }
    let mut graph = CommitGraph { entries: Vec::new() };
    proof {
        assert(graph.entries@ =~= Seq::<(String, Vec<String>)>::empty());
        assert(pending.deep_view() =~= head_parents.deep_view());
    }
    graph.push_entry(head.clone(), head_parents);
    proof {
        assert(closed_except(graph.model(), pending.deep_view())) by {
            assert forall|k: Seq<char>, j2: int|
                graph.model().contains_key(k) && 0 <= j2 < graph.model()[k].len() implies
                graph.model().contains_key(#[trigger] graph.model()[k][j2])
                    || pending.deep_view().contains(graph.model()[k][j2]) by {
                assert(k == head@);
                assert(pending.deep_view()[j2] == graph.model()[k][j2]);
            }
        }
    }
    let mut budget: u64 = u64::MAX;
    while pending.len() > 0 && budget > 0
        invariant
            graph.wf(),
            graph.model().contains_key(head@),
            closed_except(graph.model(), pending.deep_view()),
        decreases budget,
    {
        budget = budget - 1;
        let ghost p0 = pending.deep_view();
        let id = match pending.pop() {
            Some(x) => x,
            None => {
                break ;
            },
        };
        let ghost p1 = pending.deep_view();
        proof {
            assert(p1 =~= p0.drop_last());
            assert(id@ == p0.last());
        }
        let ghost m0 = graph.model();
        if !graph.contains_id(&id) {
            let parents = match commit_parent_ids(repository, &id) {
                Ok(p) => p,
                Err(e) => {
                    return Err(MinverError::Repository(e));
                },
            };
            let mut k: usize = 0;
            while k < parents.len()
                invariant
                    k <= parents@.len(),
                    pending.deep_view() =~= p1 + parents.deep_view().take(k as int),
                decreases parents@.len() - k,
            {
                let ghost pd0 = pending.deep_view();
                pending.push(parents[k].clone());
                proof {
                    assert(pending.deep_view() =~= pd0.push(parents.deep_view()[k as int]));
                    assert(pd0.push(parents.deep_view()[k as int]) =~= p1
                        + parents.deep_view().take(k as int + 1));
                }
                k = k + 1;
            }
            proof {
                assert(pending.deep_view() =~= p1 + parents.deep_view());
            }
            graph.push_entry(id, parents);
            proof {
                let m1 = graph.model();
                let p2 = pending.deep_view();
                assert forall|k2: Seq<char>, j2: int|
                    m1.contains_key(k2) && 0 <= j2 < m1[k2].len() implies m1.contains_key(
                    #[trigger] m1[k2][j2],
                ) || p2.contains(m1[k2][j2]) by {
                    let q = m1[k2][j2];
                    if k2 == id@ {
                        assert(p2[p1.len() + j2] == q);
                    } else {
                        assert(m0.contains_key(k2) && m0[k2] == m1[k2]);
                        if !m0.contains_key(q) && p0.contains(q) {
                            let w = choose|w: int| 0 <= w < p0.len() && p0[w] == q;
                            if w == p0.len() - 1 {
                                assert(q == id@);
                            } else {
                                assert(p2[w] == q);
                            }
                        }
                    }
                }
            }
        } else {
            proof {
                assert forall|k2: Seq<char>, j2: int|
                    m0.contains_key(k2) && 0 <= j2 < m0[k2].len() implies m0.contains_key(
                    #[trigger] m0[k2][j2],
                ) || p1.contains(m0[k2][j2]) by {
                    let q = m0[k2][j2];
                    if !m0.contains_key(q) && p0.contains(q) {
                        let w = choose|w: int| 0 <= w < p0.len() && p0[w] == q;
                        if w == p0.len() - 1 {
                            assert(q == id@);
                            assert(m0.contains_key(id@));
                        } else {
                            assert(p1[w] == q);
                        }
                    }
                }
            }
        }
    }
    if pending.len() > 0 {
        return Err(MinverError::Overflow);
    }
    proof {
        assert(pending.deep_view().len() == 0);
        assert forall|k: Seq<char>, j2: int|
            graph.model().contains_key(k) && 0 <= j2 < graph.model()[k].len() implies
            graph.model().contains_key(#[trigger] graph.model()[k][j2]) by {
            assert(!pending.deep_view().contains(graph.model()[k][j2]));
        }
    }
    Ok(graph)
}

/// One step of the level-synchronized walk: each frontier commit is
/// skipped if already visited; recorded as a hit (and not expanded) if the
/// index holds it; expanded into its parents otherwise.
pub open spec fn step_level(
    g: Map<Seq<char>, Seq<Seq<char>>>,
    idx: Map<Seq<char>, VersionView>,
    frontier: Seq<Seq<char>>,
    visited: Set<Seq<char>>,
) -> (Seq<VersionView>, Seq<Seq<char>>, Set<Seq<char>>)
    decreases frontier.len(),
{
    if frontier.len() == 0 {
        (Seq::empty(), Seq::empty(), visited)
    } else {
        let c = frontier[0];
        if visited.contains(c) {
            step_level(g, idx, frontier.skip(1), visited)
        } else if idx.contains_key(c) {
            let r = step_level(g, idx, frontier.skip(1), visited.insert(c));
            (seq![idx[c]] + r.0, r.1, r.2)
        } else {
            let ps = if g.contains_key(c) {
                g[c]
            } else {
                Seq::empty()
            };
            let r = step_level(g, idx, frontier.skip(1), visited.insert(c));
            (r.0, ps + r.1, r.2)
        }
    }
}

/// Pairs each hit of one level with that level's height.
pub open spec fn with_height_at(hits: Seq<VersionView>, height: nat) -> Seq<(VersionView, nat)> {
    hits.map_values(|v: VersionView| (v, height))
}

/// The whole walk, level by level; `fuel` bounds the number of levels, and
/// `None` means the bound was hit with commits still to explore.
pub open spec fn walk_levels(
    g: Map<Seq<char>, Seq<Seq<char>>>,
    idx: Map<Seq<char>, VersionView>,
    frontier: Seq<Seq<char>>,
    visited: Set<Seq<char>>,
    height: nat,
    fuel: nat,
) -> Option<Seq<(VersionView, nat)>>
    decreases fuel,
{
    if frontier.len() == 0 {
        Some(Seq::empty())
    } else if fuel == 0 {
        None
    } else {
        let sl = step_level(g, idx, frontier, visited);
        match walk_levels(g, idx, sl.1, sl.2, height + 1, (fuel - 1) as nat) {
            Some(rest) => Some(with_height_at(sl.0, height) + rest),
            None => None,
        }
    }
}

/// The walk explores at most this many levels; a height must fit in `u32`.
pub open spec fn walk_fuel() -> nat {
    0x1_0000_0000
}

/// The complete candidate set of a walk from `head`.
pub open spec fn spec_candidates(
    g: Map<Seq<char>, Seq<Seq<char>>>,
    idx: Map<Seq<char>, VersionView>,
    head: Seq<char>,
) -> Option<Seq<(VersionView, nat)>> {
    walk_levels(g, idx, seq![head], Set::empty(), 0, walk_fuel())
}

/// The abstract shape of a collected candidate list.
pub open spec fn cands_view(s: Seq<(Version, u32)>) -> Seq<(VersionView, nat)> {
    s.map_values(|p: (Version, u32)| (p.0@, p.1 as nat))
}

/// The abstract shape of a list of versions.
pub open spec fn versions_view(s: Seq<Version>) -> Seq<VersionView> {
    s.map_values(|v: Version| v@)
}

/// Prepends finished candidates to the outcome of the remaining walk.
pub open spec fn opt_prepend(
    done: Seq<(VersionView, nat)>,
    rest: Option<Seq<(VersionView, nat)>>,
) -> Option<Seq<(VersionView, nat)>> {
    match rest {
        Some(r) => Some(done + r),
        None => None,
    }
}

/// Pushing onto a sequence inserts into its set of elements.
proof fn lemma_push_to_set(s: Seq<Seq<char>>, x: Seq<char>)
    ensures
        s.push(x).to_set() == s.to_set().insert(x),
{
    let p = s.push(x);
    assert forall|a: Seq<char>| #[trigger] p.to_set().contains(a) implies s.to_set().insert(
        x,
    ).contains(a) by {
        let i = choose|i: int| 0 <= i < p.len() && p[i] == a;
        if i < s.len() {
            assert(s[i] == a);
        }
    }
    assert forall|a: Seq<char>| #[trigger] s.to_set().insert(x).contains(a) implies
        p.to_set().contains(a) by {
        if a == x {
            assert(p[s.len() as int] == a);
        } else {
            let i = choose|i: int| 0 <= i < s.len() && s[i] == a;
            assert(p[i] == a);
        }
    }
    assert(p.to_set() =~= s.to_set().insert(x));
}

/// Whether a list of ids holds one.
fn vec_contains_id(v: &Vec<String>, id: &String) -> (r: bool)
    ensures
        r == v.deep_view().contains(id@),
{
    let mut i: usize = 0;
    while i < v.len()
        invariant
            i <= v@.len(),
            forall|j: int| 0 <= j < i ==> v.deep_view()[j] != id@,
        decreases v@.len() - i,
    {
        if crate::grammar::str_eq(v[i].as_str(), id.as_str()) {
            proof {
                assert(v.deep_view()[i as int] == id@);
            }
            return true;
        }
        i = i + 1;
    }
    false
}

/// Processes one frontier level: fills `hits` with the versions of the
/// newly visited tagged commits, `next` with the parents of the newly
/// visited untagged ones, and extends `visited`, exactly as `step_level`
/// says.
#[verifier::loop_isolation(false)]
fn process_level(
    graph: &CommitGraph,
    index: &TagTrie,
    frontier: &Vec<String>,
    visited: &mut Vec<String>,
) -> (r: (Vec<Version>, Vec<String>))
    requires
        graph.wf(),
    ensures
        step_level(
            graph.model(),
            trie_model(*index),
            frontier.deep_view(),
            old(visited).deep_view().to_set(),
        ) == (versions_view(r.0@), r.1.deep_view(), final(visited).deep_view().to_set()),
{
    let ghost gm = graph.model();
    let ghost im = trie_model(*index);
    let ghost fdv = frontier.deep_view();
    let ghost v0 = old(visited).deep_view().to_set();
    let mut hits: Vec<Version> = Vec::new();
    let mut next: Vec<String> = Vec::new();
    let mut i: usize = 0;
    proof {
        assert(fdv.skip(0) =~= fdv);
        assert(versions_view(hits@) =~= Seq::<VersionView>::empty());
        assert(next.deep_view() =~= Seq::<Seq<char>>::empty());
    }
    while i < frontier.len()
        invariant
            i <= fdv.len(),
            step_level(gm, im, fdv, v0) == {
                let r = step_level(gm, im, fdv.skip(i as int), visited.deep_view().to_set());
                (versions_view(hits@) + r.0, next.deep_view() + r.1, r.2)
            },
        decreases fdv.len() - i,
    {
        let id = &frontier[i];
        let ghost fr = fdv.skip(i as int);
        let ghost hv0 = versions_view(hits@);
        let ghost nd0 = next.deep_view();
        let ghost vdv0 = visited.deep_view();
        let ghost vs = vdv0.to_set();
        proof {
            assert(fr[0] == fdv[i as int]);
            assert(fdv[i as int] == id@);
            assert(fr.skip(1) =~= fdv.skip(i as int + 1));
        }
        if vec_contains_id(visited, id) {
            proof {
                assert(vs.contains(id@));
            }
        } else {
            visited.push(id.clone());
            proof {
                assert(visited.deep_view() =~= vdv0.push(id@));
                lemma_push_to_set(vdv0, id@);
                assert(visited.deep_view().to_set() == vs.insert(id@));
            }
            match trie_get(index, id) {
                Some(version) => {
                    let owned = version.clone();
                    hits.push(owned);
                    proof {
                        let r = step_level(
                            gm,
                            im,
                            fdv.skip(i as int + 1),
                            visited.deep_view().to_set(),
                        );
                        assert(versions_view(hits@) =~= hv0.push(im[id@]));
                        assert(step_level(gm, im, fr, vs) == (seq![im[id@]] + r.0, r.1, r.2));
                        assert(hv0 + (seq![im[id@]] + r.0) =~= versions_view(hits@) + r.0);
                    }
                },
                None => {
                    match graph.parents_of(id) {
                        Some(parents) => {
                            let ghost pdv = parents.deep_view();
                            let mut j: usize = 0;
                            proof {
                                assert(next.deep_view() =~= nd0 + pdv.take(0));
                            }
                            while j < parents.len()
                                invariant
                                    j <= pdv.len(),
                                    pdv == parents.deep_view(),
                                    next.deep_view() =~= nd0 + pdv.take(j as int),
                                decreases pdv.len() - j,
                            {
                                next.push(parents[j].clone());
                                proof {
                                    assert(next.deep_view() =~= (nd0 + pdv.take(j as int)).push(
                                        pdv[j as int],
                                    ));
                                    assert((nd0 + pdv.take(j as int)).push(pdv[j as int]) =~= nd0
                                        + pdv.take(j as int + 1));
                                }
                                j = j + 1;
                            }
                            proof {
                                let r = step_level(
                                    gm,
                                    im,
                                    fdv.skip(i as int + 1),
                                    visited.deep_view().to_set(),
                                );
                                assert(pdv.take(pdv.len() as int) =~= pdv);
                                assert(next.deep_view() =~= nd0 + pdv);
                                assert(step_level(gm, im, fr, vs) == (r.0, gm[id@] + r.1, r.2));
                                assert(nd0 + (gm[id@] + r.1) =~= next.deep_view() + r.1);
                            }
                        },
                        None => {
                            proof {
                                let r = step_level(
                                    gm,
                                    im,
                                    fdv.skip(i as int + 1),
                                    visited.deep_view().to_set(),
                                );
                                assert(step_level(gm, im, fr, vs) == (
                                    r.0,
                                    Seq::<Seq<char>>::empty() + r.1,
                                    r.2,
                                ));
                                assert(nd0 + (Seq::<Seq<char>>::empty() + r.1) =~= nd0 + r.1);
                            }
                        },
                    }
                },
            }
        }
        i = i + 1;
    }
    proof {
        assert(fdv.skip(fdv.len() as int) =~= Seq::<Seq<char>>::empty());
    }
    (hits, next)
}

/// Collects the `(version, height)` candidates reachable from `head` in
/// the snapshot: exactly what the level-synchronized walk specifies. Fails
/// only in the (practically unreachable) case of a history deeper than a
/// height can count.
pub fn collect_candidates(graph: &CommitGraph, index: &TagTrie, head: &String) -> (r: Result<
    Vec<(Version, u32)>,
    MinverError,
>)
    requires
        graph.wf(),
    ensures
        r matches Ok(c) ==> Some(cands_view(c@)) == spec_candidates(
            graph.model(),
            trie_model(*index),
            head@,
        ),
        r is Err ==> spec_candidates(graph.model(), trie_model(*index), head@) is None,
        r matches Err(e) ==> e is Overflow,
{
    let ghost gm = graph.model();
    let ghost im = trie_model(*index);
    let mut results: Vec<(Version, u32)> = Vec::new();
    let mut frontier: Vec<String> = Vec::new();
    frontier.push(head.clone());
    let mut visited: Vec<String> = Vec::new();
    let mut height: u32 = 0;
    proof {
        assert(frontier.deep_view() =~= seq![head@]);
        assert(visited.deep_view() =~= Seq::<Seq<char>>::empty());
        assert(visited.deep_view().to_set() =~= Set::<Seq<char>>::empty());
        assert(cands_view(results@) =~= Seq::<(VersionView, nat)>::empty());
        assert(Seq::<(VersionView, nat)>::empty() + spec_candidates(gm, im, head@)->0
            =~= spec_candidates(gm, im, head@)->0);
    }
    loop
        invariant
            graph.wf(),
            gm == graph.model(),
            im == trie_model(*index),
            spec_candidates(gm, im, head@) == opt_prepend(
                cands_view(results@),
                walk_levels(
                    gm,
                    im,
                    frontier.deep_view(),
                    visited.deep_view().to_set(),
                    height as nat,
                    (walk_fuel() - height as nat) as nat,
                ),
            ),
        ensures
            frontier.deep_view().len() == 0,
        decreases u32::MAX - height,
    {
        if frontier.len() == 0 {
            break ;
        }
        let ghost fdv = frontier.deep_view();
        let ghost vs0 = visited.deep_view().to_set();
        let ghost fuel = (walk_fuel() - height as nat) as nat;
        let (hits, next) = process_level(graph, index, &frontier, &mut visited);
        let ghost sl = step_level(gm, im, fdv, vs0);
        proof {
            assert(fuel > 0);
            assert(walk_levels(gm, im, fdv, vs0, height as nat, fuel) == (match walk_levels(
                gm,
                im,
                sl.1,
                sl.2,
                height as nat + 1,
                (fuel - 1) as nat,
            ) {
                Some(rest) => Some(with_height_at(sl.0, height as nat) + rest),
                None => None,
            }));
        }
        let ghost results0 = results@;
        let mut k: usize = 0;
        while k < hits.len()
            invariant
                k <= hits@.len(),
                cands_view(results@) =~= cands_view(results0) + with_height_at(
                    versions_view(hits@.take(k as int)),
                    height as nat,
                ),
            decreases hits@.len() - k,
        {
            let v = hits[k].clone();
            proof {
                assert(v@ == versions_view(hits@)[k as int]);
            }
            results.push((v, height));
            proof {
                assert(cands_view(results@) =~= cands_view(results@.drop_last()).push(
                    (v@, height as nat),
                ));
                assert(cands_view(results@.drop_last()) =~= cands_view(results0) + with_height_at(
                    versions_view(hits@.take(k as int)),
                    height as nat,
                ));
                assert(cands_view(results0) + with_height_at(
                    versions_view(hits@.take(k as int)),
                    height as nat,
                ).push((v@, height as nat)) =~= cands_view(results@));
                assert(with_height_at(versions_view(hits@.take(k as int)), height as nat).push(
                    (v@, height as nat),
                ) =~= with_height_at(versions_view(hits@.take(k as int + 1)), height as nat));
            }
            k = k + 1;
        }
        proof {
            assert(hits@.take(hits@.len() as int) =~= hits@);
            assert(cands_view(results@) =~= cands_view(results0) + with_height_at(
                versions_view(hits@),
                height as nat,
            ));
            let rest_walk = walk_levels(
                gm,
                im,
                next.deep_view(),
                visited.deep_view().to_set(),
                height as nat + 1,
                (fuel - 1) as nat,
            );
            if rest_walk is Some {
                assert(cands_view(results0) + (with_height_at(sl.0, height as nat)
                    + rest_walk->0) =~= cands_view(results@) + rest_walk->0);
            }
            assert(spec_candidates(gm, im, head@) == opt_prepend(
                cands_view(results@),
                rest_walk,
            ));
        }
        frontier = next;
        if frontier.len() > 0 {
            if height == u32::MAX {
                proof {
                    assert((fuel - 1) as nat == 0);
                    assert(walk_levels(
                        gm,
                        im,
                        frontier.deep_view(),
                        visited.deep_view().to_set(),
                        height as nat + 1,
                        0,
                    ) is None);
                }
                return Err(MinverError::Overflow);
            }
            height = height + 1;
        } else {
            proof {
                assert(walk_levels(
                    gm,
                    im,
                    frontier.deep_view(),
                    visited.deep_view().to_set(),
                    height as nat + 1,
                    (fuel - 1) as nat,
                ) == Some(Seq::<(VersionView, nat)>::empty()));
                assert(walk_levels(
                    gm,
                    im,
                    frontier.deep_view(),
                    visited.deep_view().to_set(),
                    height as nat,
                    (walk_fuel() - height as nat) as nat,
                ) == Some(Seq::<(VersionView, nat)>::empty()));
            }
            break ;
        }
    }
    proof {
        assert(walk_levels(
            gm,
            im,
            frontier.deep_view(),
            visited.deep_view().to_set(),
            height as nat,
            (walk_fuel() - height as nat) as nat,
        ) == Some(Seq::<(VersionView, nat)>::empty()));
        assert(cands_view(results@) + Seq::<(VersionView, nat)>::empty() =~= cands_view(
            results@,
        ));
    }
    Ok(results)
}

/// Whether a version stands somewhere in an index.
pub open spec fn in_index(idx: Map<Seq<char>, VersionView>, v: VersionView) -> bool {
    exists|k: Seq<char>| #[trigger] idx.contains_key(k) && idx[k] == v
}

/// Every hit of one level is a value of the index.
proof fn lemma_step_level_hits(
    g: Map<Seq<char>, Seq<Seq<char>>>,
    idx: Map<Seq<char>, VersionView>,
    frontier: Seq<Seq<char>>,
    visited: Set<Seq<char>>,
)
    ensures
        forall|i: int|
            0 <= i < step_level(g, idx, frontier, visited).0.len() ==> in_index(
                idx,
                #[trigger] step_level(g, idx, frontier, visited).0[i],
            ),
    decreases frontier.len(),
{
    if frontier.len() > 0 {
        let c = frontier[0];
        let sl = step_level(g, idx, frontier, visited);
        if visited.contains(c) {
            lemma_step_level_hits(g, idx, frontier.skip(1), visited);
            let r = step_level(g, idx, frontier.skip(1), visited);
            assert forall|i: int| 0 <= i < sl.0.len() implies in_index(idx, #[trigger] sl.0[i]) by {
                assert(sl.0[i] == r.0[i]);
            }
        } else if idx.contains_key(c) {
            lemma_step_level_hits(g, idx, frontier.skip(1), visited.insert(c));
            let r = step_level(g, idx, frontier.skip(1), visited.insert(c));
            assert forall|i: int| 0 <= i < sl.0.len() implies in_index(idx, #[trigger] sl.0[i]) by {
                if i == 0 {
                    assert(idx.contains_key(c) && idx[c] == sl.0[0]);
                } else {
                    assert(sl.0[i] == r.0[i - 1]);
                }
            }
        } else {
            lemma_step_level_hits(g, idx, frontier.skip(1), visited.insert(c));
            let r = step_level(g, idx, frontier.skip(1), visited.insert(c));
            assert forall|i: int| 0 <= i < sl.0.len() implies in_index(idx, #[trigger] sl.0[i]) by {
                assert(sl.0[i] == r.0[i]);
            }
        }
    }
}

/// Every candidate a completed walk yields carries a version of the index.
pub proof fn lemma_walk_hits_in_index(
    g: Map<Seq<char>, Seq<Seq<char>>>,
    idx: Map<Seq<char>, VersionView>,
    frontier: Seq<Seq<char>>,
    visited: Set<Seq<char>>,
    height: nat,
    fuel: nat,
)
    ensures
        walk_levels(g, idx, frontier, visited, height, fuel) matches Some(r) ==> forall|i: int|
            0 <= i < r.len() ==> in_index(idx, (#[trigger] r[i]).0),
    decreases fuel,
{
    if frontier.len() == 0 || fuel == 0 {
    } else {
        let sl = step_level(g, idx, frontier, visited);
        lemma_step_level_hits(g, idx, frontier, visited);
        lemma_walk_hits_in_index(g, idx, sl.1, sl.2, height + 1, (fuel - 1) as nat);
        match walk_levels(g, idx, sl.1, sl.2, height + 1, (fuel - 1) as nat) {
            Some(rest) => {
                let whole = with_height_at(sl.0, height) + rest;
                assert forall|i: int| 0 <= i < whole.len() implies in_index(
                    idx,
                    (#[trigger] whole[i]).0,
                ) by {
                    if i < sl.0.len() {
                        assert(whole[i].0 == sl.0[i]);
                    } else {
                        assert(whole[i] == rest[i - sl.0.len()]);
                    }
                }
            },
            None => {},
        }
    }
}

/// A chain through the ancestry: each id is followed by one of its
/// recorded parents.
pub open spec fn is_parent_path(g: Map<Seq<char>, Seq<Seq<char>>>, p: Seq<Seq<char>>) -> bool {
    &&& p.len() >= 1
    &&& forall|i: int|
        0 <= i < p.len() - 1 ==> g.contains_key(#[trigger] p[i]) && g[p[i]].contains(p[i + 1])
}

/// Whether `target` stands exactly `h` edges below `start` along a chain
/// whose commits before `target` are all untagged: `target` is the first
/// tag-bearing candidate on that chain.
pub open spec fn reaches(
    g: Map<Seq<char>, Seq<Seq<char>>>,
    idx: Map<Seq<char>, VersionView>,
    start: Seq<char>,
    target: Seq<char>,
    h: nat,
) -> bool {
    exists|p: Seq<Seq<char>>|
        {
            &&& #[trigger] is_parent_path(g, p)
            &&& p.len() == h + 1
            &&& p[0] == start
            &&& p.last() == target
            &&& forall|i: int| 0 <= i < p.len() - 1 ==> !idx.contains_key(#[trigger] p[i])
        }
}

/// Whether a commit tagged `v` stands at the end of a chain of exactly
/// `h` edges from `start` whose earlier commits are all untagged.
pub open spec fn has_tagged_ancestor_at(
    g: Map<Seq<char>, Seq<Seq<char>>>,
    idx: Map<Seq<char>, VersionView>,
    start: Seq<char>,
    v: VersionView,
    h: nat,
) -> bool {
    exists|c: Seq<char>|
        #[trigger] reaches(g, idx, start, c, h) && idx.contains_key(c) && idx[c] == v
}

/// Whether `v` is the tag of one of the listed commits.
pub open spec fn tag_of_one(
    idx: Map<Seq<char>, VersionView>,
    ids: Seq<Seq<char>>,
    v: VersionView,
) -> bool {
    exists|j: int| 0 <= j < ids.len() && idx.contains_key(#[trigger] ids[j]) && idx[ids[j]] == v
}

/// Whether `q` is a recorded parent of one of the listed commits, that
/// commit itself being untagged.
pub open spec fn parent_of_untagged(
    g: Map<Seq<char>, Seq<Seq<char>>>,
    idx: Map<Seq<char>, VersionView>,
    ids: Seq<Seq<char>>,
    q: Seq<char>,
) -> bool {
    exists|j: int|
        0 <= j < ids.len() && g.contains_key(#[trigger] ids[j]) && !idx.contains_key(ids[j])
            && g[ids[j]].contains(q)
}

/// Each hit of a level is the tag of some frontier commit, and each member
/// of the next frontier is a recorded parent of some untagged frontier
/// commit.
proof fn lemma_step_level_witness(
    g: Map<Seq<char>, Seq<Seq<char>>>,
    idx: Map<Seq<char>, VersionView>,
    frontier: Seq<Seq<char>>,
    visited: Set<Seq<char>>,
)
    ensures
        forall|i: int|
            0 <= i < step_level(g, idx, frontier, visited).0.len() ==> tag_of_one(
                idx,
                frontier,
                #[trigger] step_level(g, idx, frontier, visited).0[i],
            ),
        forall|i: int|
            0 <= i < step_level(g, idx, frontier, visited).1.len() ==> parent_of_untagged(
                g,
                idx,
                frontier,
                #[trigger] step_level(g, idx, frontier, visited).1[i],
            ),
    decreases frontier.len(),
{
    if frontier.len() > 0 {
        let c = frontier[0];
        let sl = step_level(g, idx, frontier, visited);
        let rest = frontier.skip(1);
        let v2 = if visited.contains(c) {
            visited
        } else {
            visited.insert(c)
        };
        let r = step_level(g, idx, rest, v2);
        lemma_step_level_witness(g, idx, rest, v2);
        assert(forall|j: int| 0 <= j < rest.len() ==> rest[j] == frontier[j + 1]);
        assert forall|i: int|
            0 <= i < sl.0.len() implies tag_of_one(
            idx,
            frontier,
            #[trigger] step_level(g, idx, frontier, visited).0[i],
        ) by {
            if !visited.contains(c) && idx.contains_key(c) && i == 0 {
                assert(idx.contains_key(frontier[0]) && idx[frontier[0]] == sl.0[0]);
            } else {
                let i0: int = if !visited.contains(c) && idx.contains_key(c) {
                    i - 1
                } else {
                    i
                };
                assert(sl.0[i] == step_level(g, idx, rest, v2).0[i0]);
                assert(tag_of_one(idx, rest, step_level(g, idx, rest, v2).0[i0]));
                let j0 = choose|j0: int|
                    0 <= j0 < rest.len() && idx.contains_key(#[trigger] rest[j0]) && idx[rest[j0]]
                        == step_level(g, idx, rest, v2).0[i0];
                assert(idx.contains_key(frontier[j0 + 1]) && idx[frontier[j0 + 1]] == sl.0[i]);
            }
        }
        assert forall|i: int|
            0 <= i < sl.1.len() implies parent_of_untagged(
            g,
            idx,
            frontier,
            #[trigger] step_level(g, idx, frontier, visited).1[i],
        ) by {
            let expands = !visited.contains(c) && !idx.contains_key(c);
            let ps = if g.contains_key(c) {
                g[c]
            } else {
                Seq::<Seq<char>>::empty()
            };
            if expands && i < ps.len() {
                assert(g.contains_key(frontier[0]));
                assert(!idx.contains_key(frontier[0]));
                assert(g[frontier[0]][i] == sl.1[i]);
                assert(g[frontier[0]].contains(sl.1[i]));
            } else {
                let i0: int = if expands {
                    i - ps.len()
                } else {
                    i
                };
                assert(sl.1[i] == step_level(g, idx, rest, v2).1[i0]);
                assert(parent_of_untagged(g, idx, rest, step_level(g, idx, rest, v2).1[i0]));
                let j0 = choose|j0: int|
                    0 <= j0 < rest.len() && g.contains_key(#[trigger] rest[j0])
                        && !idx.contains_key(rest[j0]) && g[rest[j0]].contains(
                        step_level(g, idx, rest, v2).1[i0],
                    );
                assert(g.contains_key(frontier[j0 + 1]) && !idx.contains_key(frontier[j0 + 1])
                    && g[frontier[j0 + 1]].contains(sl.1[i]));
            }
        }
    }
}

/// Soundness of the reported heights, level by level: when every frontier
/// commit stands `height` edges below `start`, every candidate `(v, h)` of
/// a completed walk has a commit tagged `v` exactly `h` edges below
/// `start`.
proof fn lemma_walk_heights_sound(
    g: Map<Seq<char>, Seq<Seq<char>>>,
    idx: Map<Seq<char>, VersionView>,
    frontier: Seq<Seq<char>>,
    visited: Set<Seq<char>>,
    height: nat,
    fuel: nat,
    start: Seq<char>,
)
    requires
        forall|j: int|
            0 <= j < frontier.len() ==> reaches(g, idx, start, #[trigger] frontier[j], height),
    ensures
        walk_levels(g, idx, frontier, visited, height, fuel) matches Some(r) ==> forall|i: int|
            0 <= i < r.len() ==> has_tagged_ancestor_at(
                g,
                idx,
                start,
                (#[trigger] r[i]).0,
                r[i].1,
            ),
    decreases fuel,
{
    if frontier.len() == 0 || fuel == 0 {
    } else {
        let sl = step_level(g, idx, frontier, visited);
        lemma_step_level_witness(g, idx, frontier, visited);
        assert forall|j: int|
            0 <= j < sl.1.len() implies reaches(g, idx, start, #[trigger] sl.1[j], height + 1) by {
            assert(parent_of_untagged(g, idx, frontier, sl.1[j]));
            let f = choose|f: int|
                0 <= f < frontier.len() && g.contains_key(#[trigger] frontier[f])
                    && !idx.contains_key(frontier[f]) && g[frontier[f]].contains(sl.1[j]);
            assert(reaches(g, idx, start, frontier[f], height));
            let p0 = choose|p0: Seq<Seq<char>>|
                {
                    &&& #[trigger] is_parent_path(g, p0)
                    &&& p0.len() == height + 1
                    &&& p0[0] == start
                    &&& p0.last() == frontier[f]
                    &&& forall|i: int| 0 <= i < p0.len() - 1 ==> !idx.contains_key(
                        #[trigger] p0[i],
                    )
                };
            let p = p0.push(sl.1[j]);
            assert(is_parent_path(g, p)) by {
                assert forall|i: int|
                    0 <= i < p.len() - 1 implies g.contains_key(#[trigger] p[i])
                    && g[p[i]].contains(p[i + 1]) by {
                    if i < p0.len() - 1 {
                        assert(p[i] == p0[i] && p[i + 1] == p0[i + 1]);
                    } else {
                        assert(p[i] == p0.last() && p[i + 1] == sl.1[j]);
                    }
                }
            }
            assert forall|i: int| 0 <= i < p.len() - 1 implies !idx.contains_key(
                #[trigger] p[i],
            ) by {
                if i < p0.len() - 1 {
                    assert(p[i] == p0[i]);
                } else {
                    assert(p[i] == p0.last());
                    assert(p0.last() == frontier[f]);
                }
            }
            assert(p.last() == sl.1[j] && p[0] == start && p.len() == height + 2);
        }
        lemma_walk_heights_sound(g, idx, sl.1, sl.2, height + 1, (fuel - 1) as nat, start);
        match walk_levels(g, idx, sl.1, sl.2, height + 1, (fuel - 1) as nat) {
            Some(rest) => {
                let whole = with_height_at(sl.0, height) + rest;
                assert forall|i: int| 0 <= i < whole.len() implies has_tagged_ancestor_at(
                    g,
                    idx,
                    start,
                    (#[trigger] whole[i]).0,
                    whole[i].1,
                ) by {
                    if i < sl.0.len() {
                        assert(whole[i] == (sl.0[i], height));
                        assert(tag_of_one(idx, frontier, sl.0[i]));
                        let f = choose|f: int|
                            0 <= f < frontier.len() && idx.contains_key(#[trigger] frontier[f])
                                && idx[frontier[f]] == sl.0[i];
                        assert(reaches(g, idx, start, frontier[f], height));
                        assert(has_tagged_ancestor_at(g, idx, start, whole[i].0, whole[i].1));
                    } else {
                        assert(whole[i] == rest[i - sl.0.len()]);
                    }
                }
            },
            None => {},
        }
    }
}

/// Soundness of the candidate set: every candidate `(v, h)` the walk
/// reports is witnessed by an ancestry chain of exactly `h` edges from the
/// head to a commit tagged `v`, with every commit before it untagged — the
/// tag found is the nearest along that chain.
pub proof fn lemma_candidates_sound(
    g: Map<Seq<char>, Seq<Seq<char>>>,
    idx: Map<Seq<char>, VersionView>,
    head: Seq<char>,
)
    ensures
        spec_candidates(g, idx, head) matches Some(r) ==> forall|i: int|
            0 <= i < r.len() ==> has_tagged_ancestor_at(g, idx, head, (#[trigger] r[i]).0, r[i].1),
{
    let f0 = seq![head];
    assert forall|j: int| 0 <= j < f0.len() implies reaches(g, idx, head, #[trigger] f0[j], 0) by {
        let p = seq![head];
        assert(is_parent_path(g, p) && p.len() == 1 && p[0] == head && p.last() == f0[j]);
    }
    lemma_walk_heights_sound(g, idx, f0, Set::empty(), 0, walk_fuel(), head);
}

/// If the head itself is tagged, the walk yields exactly that version at
/// height zero, and no ancestor is visited.
pub proof fn lemma_tagged_head(
    g: Map<Seq<char>, Seq<Seq<char>>>,
    idx: Map<Seq<char>, VersionView>,
    head: Seq<char>,
)
    requires
        idx.contains_key(head),
    ensures
        spec_candidates(g, idx, head) == Some(seq![(idx[head], 0 as nat)]),
{
    let f = seq![head];
    assert(f.skip(1) =~= Seq::<Seq<char>>::empty());
    let sl = step_level(g, idx, f, Set::empty());
    assert(step_level(g, idx, f.skip(1), Set::empty().insert(head)) == (
        Seq::<VersionView>::empty(),
        Seq::<Seq<char>>::empty(),
        Set::empty().insert(head),
    ));
    assert(sl.0 =~= seq![idx[head]]);
    assert(sl.1.len() == 0);
    assert(walk_levels(g, idx, sl.1, sl.2, 1, (walk_fuel() - 1) as nat) == Some(
        Seq::<(VersionView, nat)>::empty(),
    ));
    assert(with_height_at(sl.0, 0) =~= seq![(idx[head], 0 as nat)]);
    assert(with_height_at(sl.0, 0) + Seq::<(VersionView, nat)>::empty() =~= seq![
        (idx[head], 0 as nat),
    ]);
}

/// With no tags in the index at all, a level yields no hits.
proof fn lemma_step_level_no_tags(
    g: Map<Seq<char>, Seq<Seq<char>>>,
    idx: Map<Seq<char>, VersionView>,
    frontier: Seq<Seq<char>>,
    visited: Set<Seq<char>>,
)
    requires
        forall|k: Seq<char>| !idx.contains_key(k),
    ensures
        step_level(g, idx, frontier, visited).0 =~= Seq::<VersionView>::empty(),
    decreases frontier.len(),
{
    if frontier.len() > 0 {
        let c = frontier[0];
        if visited.contains(c) {
            lemma_step_level_no_tags(g, idx, frontier.skip(1), visited);
        } else {
            lemma_step_level_no_tags(g, idx, frontier.skip(1), visited.insert(c));
        }
    }
}

/// With no tags in the index at all, whatever the walk returns is empty.
pub proof fn lemma_no_reachable_tags(
    g: Map<Seq<char>, Seq<Seq<char>>>,
    idx: Map<Seq<char>, VersionView>,
    frontier: Seq<Seq<char>>,
    visited: Set<Seq<char>>,
    height: nat,
    fuel: nat,
)
    requires
        forall|k: Seq<char>| !idx.contains_key(k),
    ensures
        walk_levels(g, idx, frontier, visited, height, fuel) matches Some(r) ==> r =~= Seq::<
            (VersionView, nat),
        >::empty(),
    decreases fuel,
{
    if frontier.len() == 0 || fuel == 0 {
    } else {
        let sl = step_level(g, idx, frontier, visited);
        lemma_step_level_no_tags(g, idx, frontier, visited);
        assert(with_height_at(sl.0, height) =~= Seq::<(VersionView, nat)>::empty());
        lemma_no_reachable_tags(g, idx, sl.1, sl.2, height + 1, (fuel - 1) as nat);
        match walk_levels(g, idx, sl.1, sl.2, height + 1, (fuel - 1) as nat) {
            Some(rest) => {
                assert(with_height_at(sl.0, height) + rest =~= rest);
            },
            None => {},
        }
    }
}

/// A linear history: from each commit in the chain to the next, with only
/// the last one tagged, the walk from position `k` finds that tag at the
/// remaining distance.
proof fn lemma_linear_walk(
    g: Map<Seq<char>, Seq<Seq<char>>>,
    idx: Map<Seq<char>, VersionView>,
    ids: Seq<Seq<char>>,
    v: VersionView,
    k: int,
    visited: Set<Seq<char>>,
    height: nat,
    fuel: nat,
)
    requires
        forall|i: int, j: int| 0 <= i < j < ids.len() ==> ids[i] != ids[j],
        forall|i: int|
            0 <= i < ids.len() - 1 ==> #[trigger] g.contains_key(ids[i]) && g[ids[i]] == seq![
                ids[i + 1],
            ],
        forall|i: int| 0 <= i < ids.len() - 1 ==> !idx.contains_key(#[trigger] ids[i]),
        idx.contains_key(ids.last()),
        idx[ids.last()] == v,
        0 <= k < ids.len(),
        forall|j: int| k <= j < ids.len() ==> !visited.contains(#[trigger] ids[j]),
        fuel >= ids.len() - k,
    ensures
        walk_levels(g, idx, seq![ids[k]], visited, height, fuel) == Some(
            seq![(v, (height + ids.len() - 1 - k) as nat)],
        ),
    decreases ids.len() - k,
{
    let f = seq![ids[k]];
    assert(f.skip(1) =~= Seq::<Seq<char>>::empty());
    let sl = step_level(g, idx, f, visited);
    if k == ids.len() - 1 {
        assert(ids[k] == ids.last());
        assert(!visited.contains(ids[k]));
        assert(step_level(g, idx, f.skip(1), visited.insert(ids[k])) == (
            Seq::<VersionView>::empty(),
            Seq::<Seq<char>>::empty(),
            visited.insert(ids[k]),
        ));
        assert(sl.0 =~= seq![v]);
        assert(sl.1.len() == 0);
        assert(walk_levels(g, idx, sl.1, sl.2, height + 1, (fuel - 1) as nat) == Some(
            Seq::<(VersionView, nat)>::empty(),
        ));
        assert(with_height_at(sl.0, height) + Seq::<(VersionView, nat)>::empty() =~= seq![
            (v, height as nat),
        ]);
    } else {
        assert(!idx.contains_key(ids[k]));
        assert(!visited.contains(ids[k]));
        assert(g[ids[k]] == seq![ids[k + 1]]);
        assert(step_level(g, idx, f.skip(1), visited.insert(ids[k])) == (
            Seq::<VersionView>::empty(),
            Seq::<Seq<char>>::empty(),
            visited.insert(ids[k]),
        ));
        assert(sl.0 =~= Seq::<VersionView>::empty());
        assert(sl.1 =~= seq![ids[k + 1]]);
        assert(forall|j: int|
            k + 1 <= j < ids.len() ==> !visited.insert(ids[k]).contains(#[trigger] ids[j]));
        lemma_linear_walk(g, idx, ids, v, k + 1, visited.insert(ids[k]), height + 1, (fuel
            - 1) as nat);
        assert(walk_levels(g, idx, sl.1, sl.2, height + 1, (fuel - 1) as nat) == Some(
            seq![(v, (height + ids.len() - 1 - k) as nat)],
        ));
        assert(with_height_at(sl.0, height) + seq![(v, (height + ids.len() - 1 - k) as nat)] =~= seq![
            (v, (height + ids.len() - 1 - k) as nat),
        ]);
    }
}

/// Linear history: a head with `n` untagged commits above a single tagged
/// ancestor resolves to that tag at height exactly `n`.
pub proof fn lemma_linear_history(
    g: Map<Seq<char>, Seq<Seq<char>>>,
    idx: Map<Seq<char>, VersionView>,
    ids: Seq<Seq<char>>,
    v: VersionView,
)
    requires
        ids.len() >= 1,
        ids.len() <= walk_fuel(),
        forall|i: int, j: int| 0 <= i < j < ids.len() ==> ids[i] != ids[j],
        forall|i: int|
            0 <= i < ids.len() - 1 ==> #[trigger] g.contains_key(ids[i]) && g[ids[i]] == seq![
                ids[i + 1],
            ],
        forall|i: int| 0 <= i < ids.len() - 1 ==> !idx.contains_key(#[trigger] ids[i]),
        idx.contains_key(ids.last()),
        idx[ids.last()] == v,
    ensures
        spec_candidates(g, idx, ids[0]) == Some(seq![(v, (ids.len() - 1) as nat)]),
{
    lemma_linear_walk(g, idx, ids, v, 0, Set::empty(), 0, walk_fuel());
}

} // verus!
