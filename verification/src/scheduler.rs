//! The scheduling engine: graph construction and the per-cycle state machine.

use vstd::prelude::*;

use crate::graph::acyclic;
use crate::graph::count_eq;
use crate::graph::count_true;
use crate::graph::is_first_match;
use crate::graph::is_prereq;
use crate::graph::lemma_count_eq_bounds;
use crate::graph::lemma_count_eq_push;
use crate::graph::lemma_count_eq_take_le;
use crate::graph::lemma_count_eq_take_step;
use crate::graph::lemma_count_true_bounds;
use crate::graph::lemma_count_true_eq_pointwise;
use crate::graph::lemma_count_true_full;
use crate::graph::lemma_count_true_le;
use crate::graph::lemma_count_true_push;
use crate::graph::lemma_count_true_update;
use crate::graph::lemma_count_true_zero;
use crate::graph::lemma_closed_full;
use crate::graph::lemma_first_match_unique;
use crate::graph::lemma_push_no_dup;
use crate::graph::lemma_occ_le_unmet;
use crate::graph::lemma_resolve_is_first_match;
use crate::graph::lemma_unmet_all_true;
use crate::graph::lemma_unmet_all_false;
use crate::graph::lemma_unmet_pos_witness;
use crate::graph::lemma_unmet_update;
use crate::graph::lemma_unmet_zero_prereqs;
use crate::graph::occ;
use crate::graph::occ_upto;
use crate::graph::ready_upto;
use crate::graph::resolve;
use crate::graph::resolves;
use crate::graph::resolves_all;
use crate::graph::unmet;
use crate::graph::valid_topo;
use crate::system::views_of;
use crate::system::System;
use crate::system::SystemV;

verus! {

/// Why a scheduler could not be built.
#[derive(Debug, PartialEq, Eq, Structural, Clone, Copy)]
pub enum BuildError {
    /// Some prerequisite name matches no descriptor in the set.
    UnresolvedName,
    /// The prerequisite relation has a cycle, so the tasks on it could never
    /// reach a remaining count of zero and would silently never run.
    DependencyCycle,
}

/// The scheduling engine.
///
/// Built once from a descriptor list, it holds the immutable dependency
/// graph — the ready list, each task's base prerequisite count, and the
/// reverse adjacency rows — together with the bookkeeping of the current
/// cycle: the remaining-prerequisite counts, which tasks have been spawned
/// and which have released their completion handle this cycle, and how many
/// spawned tasks are still outstanding.
///
/// The engine itself performs no concurrency: the host embedding it calls
/// [`Scheduler::start_cycle`] at a cycle boundary and actually spawns the
/// returned tasks, then feeds every completion notification to
/// [`Scheduler::on_release`] and spawns the tasks that call returns, until
/// [`Scheduler::cycle_complete`] reports that the cycle is over and the next
/// one may start from the same ready set.
pub struct Scheduler {
    systems: Vec<System>,
    ready: Vec<usize>,
    lock: Vec<usize>,
    deps: Vec<Vec<usize>>,
    counts: Vec<usize>,
    spawned: Vec<bool>,
    released: Vec<bool>,
    alive: usize,
}

impl Scheduler {
    /// The view of the descriptor list; index = task identity.
    pub closed spec fn sys(&self) -> Seq<SystemV> {
        views_of(self.systems@)
    }

    /// The indices of the tasks with no prerequisites, in ascending order.
    pub closed spec fn ready_ids(&self) -> Seq<usize> {
        self.ready@
    }

    /// This cycle's remaining-prerequisite count of every task.
    pub closed spec fn remaining_counts(&self) -> Seq<usize> {
        self.counts@
    }

    /// Which tasks have been spawned in the current cycle.
    pub closed spec fn spawned_flags(&self) -> Seq<bool> {
        self.spawned@
    }

    /// Which tasks have released their completion handle in the current cycle.
    pub closed spec fn released_flags(&self) -> Seq<bool> {
        self.released@
    }

    /// How many spawned tasks have not released their handle yet.
    pub closed spec fn outstanding_count(&self) -> int {
        self.alive as int
    }

    /// The engine invariant.  It ties the stored graph to the descriptor
    /// list — `lock` holds each task's prerequisite-list length, `ready`
    /// lists exactly the prerequisite-free tasks, and row `c` of `deps`
    /// holds each dependent `d` once per `after` entry of `d` resolving to
    /// `c` — and ties the cycle state together: a task is spawned exactly
    /// when its remaining count is zero, the remaining count is exactly the
    /// number of its `after` entries whose task has not released, and
    /// `alive` is the number of spawned-but-unreleased tasks.
    pub closed spec fn wf(&self) -> bool {
        let ss = self.sys();
        let n = ss.len() as int;
        &&& self.lock@.len() == n
        &&& self.deps@.len() == n
        &&& self.counts@.len() == n
        &&& self.spawned@.len() == n
        &&& self.released@.len() == n
        &&& resolves_all(ss)
        &&& forall|d: int| 0 <= d < n ==> #[trigger] self.lock@[d] == ss[d].after.len()
        &&& forall|i: int|
            0 <= i < self.ready@.len() ==> (#[trigger] self.ready@[i] as int) < n
                && ss[self.ready@[i] as int].after.len() == 0
        &&& forall|i: int, j: int|
            0 <= i < j < self.ready@.len() ==> self.ready@[i] < self.ready@[j]
        &&& forall|x: usize|
            (x as int) < n && ss[x as int].after.len() == 0 ==> self.ready@.contains(x)
        &&& self.ready@.len() == ready_upto(ss, n)
        &&& forall|c: int, j: int|
            0 <= c < n && 0 <= j < self.deps@[c]@.len() ==> (#[trigger] self.deps@[c]@[j] as int)
                < n
        &&& forall|c: int, x: usize|
            0 <= c < n && (x as int) < n ==> #[trigger] count_eq(self.deps@[c]@, x) == occ(
                ss,
                x as int,
                c,
            )
        &&& forall|i: int| 0 <= i < n ==> (#[trigger] self.released@[i] ==> self.spawned@[i])
        &&& self.alive as int == count_true(self.spawned@) - count_true(self.released@)
        &&& forall|d: int|
            0 <= d < n ==> #[trigger] self.counts@[d] as int == unmet(ss, self.released@, d)
        &&& forall|d: int| 0 <= d < n ==> (#[trigger] self.spawned@[d] <==> self.counts@[d] == 0)
    }

    /// The number of tasks.
    pub fn num_tasks(&self) -> (r: usize)
        ensures
            r == self.sys().len(),
    {
        self.systems.len()
    }

    /// How many spawned tasks of the current cycle have not released yet.
    pub fn outstanding(&self) -> (r: usize)
        ensures
            r == self.outstanding_count(),
    {
        self.alive
    }

    /// Whether the current cycle is over: every spawned task has released.
    pub fn cycle_complete(&self) -> (r: bool)
        ensures
            r <==> self.outstanding_count() == 0,
    {
        self.alive == 0
    }

    /// This cycle's remaining-prerequisite count of task `id`.
    pub fn remaining(&self, id: usize) -> (r: usize)
        requires
            self.wf(),
            (id as int) < self.sys().len(),
        ensures
            r == self.remaining_counts()[id as int],
    {
        self.counts[id]
    }

    /// Whether task `id` has been spawned in the current cycle.
    pub fn is_spawned(&self, id: usize) -> (r: bool)
        requires
            self.wf(),
            (id as int) < self.sys().len(),
        ensures
            r == self.spawned_flags()[id as int],
    {
        self.spawned[id]
    }

    /// Whether task `id` has released its handle in the current cycle.
    pub fn is_released(&self, id: usize) -> (r: bool)
        requires
            self.wf(),
            (id as int) < self.sys().len(),
        ensures
            r == self.released_flags()[id as int],
    {
        self.released[id]
    }

    /// Begins a new cycle: restores every remaining-prerequisite count to
    /// its base value, marks exactly the prerequisite-free tasks as spawned,
    /// and returns their indices — the host must now run each of them.  The
    /// returned list is the same, cycle after cycle: the graph is never
    /// mutated.
    #[verifier::loop_isolation(false)]
    pub fn start_cycle(&mut self) -> (ready: Vec<usize>)
        requires
            old(self).wf(),
            old(self).outstanding_count() == 0,
        ensures
            final(self).wf(),
            final(self).sys() == old(self).sys(),
            final(self).ready_ids() == old(self).ready_ids(),
            ready@ == old(self).ready_ids(),
            forall|x: usize|
                (x as int) < old(self).sys().len() && old(self).sys()[x as int].after.len() == 0
                    ==> ready@.contains(x),
            forall|i: int|
                0 <= i < ready@.len() ==> (#[trigger] ready@[i] as int) < old(self).sys().len()
                    && old(self).sys()[ready@[i] as int].after.len() == 0,
            forall|a: int, b: int| 0 <= a < b < ready@.len() ==> ready@[a] < ready@[b],
            ready@.no_duplicates(),
            final(self).outstanding_count() == ready@.len(),
            forall|d: int|
                0 <= d < old(self).sys().len() ==> (#[trigger] final(self).spawned_flags()[d]
                    <==> old(self).sys()[d].after.len() == 0),
            forall|d: int|
                0 <= d < old(self).sys().len() ==> !(#[trigger] final(self).released_flags()[d]),
            forall|d: int|
                0 <= d < old(self).sys().len() ==> #[trigger] final(self).remaining_counts()[d]
                    == old(self).sys()[d].after.len(),
    {
        let ghost ss = self.sys();
        let n = self.systems.len();
        let mut counts: Vec<usize> = Vec::new();
        let mut spawned: Vec<bool> = Vec::new();
        let mut released: Vec<bool> = Vec::new();
        let mut alive: usize = 0;
        let mut d: usize = 0;
        while d < n
            invariant
                d <= n,
                counts@.len() == d,
                spawned@.len() == d,
                released@.len() == d,
                forall|x: int| 0 <= x < d ==> #[trigger] counts@[x] == ss[x].after.len(),
                forall|x: int|
                    0 <= x < d ==> (#[trigger] spawned@[x] <==> ss[x].after.len() == 0),
                forall|x: int| 0 <= x < d ==> !(#[trigger] released@[x]),
                alive as int == count_true(spawned@),
                alive as int == ready_upto(ss, d as int),
            decreases n - d,
        {
            let l = self.lock[d];
            counts.push(l);
            proof {
                lemma_count_true_push(spawned@, l == 0);
                lemma_count_true_bounds(spawned@);
            }
            if l == 0 {
                spawned.push(true);
                alive = alive + 1;
            } else {
                spawned.push(false);
            }
            released.push(false);
            d = d + 1;
        }
        self.counts = counts;
        self.spawned = spawned;
        self.released = released;
        self.alive = alive;
        let m = self.ready.len();
        let mut out: Vec<usize> = Vec::new();
        let mut i: usize = 0;
        while i < m
            invariant
                i <= m,
                out@ == self.ready@.take(i as int),
            decreases m - i,
        {
            let x = self.ready[i];
            out.push(x);
            proof {
                assert(self.ready@.take(i as int).push(x) =~= self.ready@.take(i + 1 as int));
            }
            i = i + 1;
        }
        proof {
            assert(self.ready@.take(m as int) =~= self.ready@);
            assert forall|a: int, b: int|
                0 <= a < out@.len() && 0 <= b < out@.len() && a != b implies out@[a] != out@[b] by {
                if a < b {
                    assert(out@[a] < out@[b]);
                } else {
                    assert(out@[b] < out@[a]);
                }
            }
            assert(out@.no_duplicates());
            lemma_count_true_zero(self.released@);
            assert forall|dd: int| 0 <= dd < n implies #[trigger] self.counts@[dd] as int == unmet(
                ss,
                self.released@,
                dd,
            ) by {
                lemma_unmet_all_false(ss, self.released@, dd, ss[dd].after.len() as int);
            }
        }
        out
    }

    /// Builds the engine from a descriptor list.  The position of a
    /// descriptor in the list is the task's index.
    ///
    /// Construction resolves every prerequisite name to the first descriptor
    /// carrying it, derives the ready list, the base prerequisite counts and
    /// the reverse adjacency rows, and validates the graph: a prerequisite
    /// name matching no descriptor yields `UnresolvedName`, and a cyclic
    /// prerequisite relation — whose tasks could never run — yields
    /// `DependencyCycle`.  Both checks are exact: construction succeeds if
    /// and only if every name resolves and the graph is acyclic.
    ///
    /// A fresh engine stands at a cycle boundary — no task is outstanding
    /// and [`Scheduler::cycle_complete`] holds — so the host's first call is
    /// [`Scheduler::start_cycle`].
    #[verifier::loop_isolation(false)]
    #[verifier::rlimit(100)]
    pub fn new(systems: Vec<System>) -> (r: Result<Scheduler, BuildError>)
        ensures
            r is Ok <==> resolves_all(views_of(systems@)) && acyclic(views_of(systems@)),
            match r {
                Ok(s) => {
                    &&& s.wf()
                    &&& s.sys() == views_of(systems@)
                    &&& s.outstanding_count() == 0
                },
                Err(e) => {
                    &&& (e == BuildError::UnresolvedName <==> !resolves_all(views_of(systems@)))
                    &&& (e == BuildError::DependencyCycle <==> resolves_all(views_of(systems@))
                        && !acyclic(views_of(systems@)))
                },
            },
    {
        let ghost ss = views_of(systems@);
        let n = systems.len();
        let mut ready: Vec<usize> = Vec::new();
        let mut lock: Vec<usize> = Vec::new();
        let mut deps: Vec<Vec<usize>> = Vec::new();
        let mut i: usize = 0;
        while i < n
            invariant
                i <= n,
                deps@.len() == i,
                forall|c: int| 0 <= c < i ==> #[trigger] deps@[c]@.len() == 0,
            decreases n - i,
        {
            deps.push(Vec::new());
            i = i + 1;
        }
        let mut d: usize = 0;
        while d < n
            invariant
                d <= n,
                lock@.len() == d,
                deps@.len() == n,
                forall|x: int| 0 <= x < d ==> #[trigger] lock@[x] == ss[x].after.len(),
                forall|idx: int|
                    0 <= idx < ready@.len() ==> (#[trigger] ready@[idx] as int) < d
                        && ss[ready@[idx] as int].after.len() == 0,
                forall|a: int, b: int| 0 <= a < b < ready@.len() ==> ready@[a] < ready@[b],
                forall|x: usize|
                    (x as int) < d && ss[x as int].after.len() == 0 ==> ready@.contains(x),
                ready@.len() == ready_upto(ss, d as int),
                forall|c: int, jj: int|
                    0 <= c < n && 0 <= jj < deps@[c]@.len() ==> (#[trigger] deps@[c]@[jj] as int)
                        < d,
                forall|c: int, x: usize|
                    0 <= c < n && (x as int) < n ==> #[trigger] count_eq(deps@[c]@, x) == (
                    if (x as int) < d {
                        occ(ss, x as int, c)
                    } else {
                        0int
                    }),
                forall|dd: int, k: int|
                    0 <= dd < d && 0 <= k < ss[dd].after.len() ==> resolves(ss, ss[dd].after[k]),
            decreases n - d,
        {
            let alen = systems[d].after.len();
            assert(alen == ss[d as int].after.len());
            lock.push(alen);
            if alen == 0 {
                let ghost r0 = ready@;
                ready.push(d);
                proof {
                    assert forall|x: usize|
                        (x as int) < d + 1 && ss[x as int].after.len() == 0 implies ready@.contains(
                        x,
                    ) by {
                        if (x as int) < d {
                            assert(r0.contains(x));
                            let idx = choose|idx: int| 0 <= idx < r0.len() && r0[idx] == x;
                            assert(ready@[idx] == x);
                        } else {
                            assert(ready@[ready@.len() - 1] == x);
                        }
                    }
                }
            } else {
                let mut k: usize = 0;
                while k < alen
                    invariant
                        k <= alen,
                        deps@.len() == n,
                        forall|c: int, jj: int|
                            0 <= c < n && 0 <= jj < deps@[c]@.len() ==> (#[trigger] deps@[c]@[jj]
                                as int) <= d as int,
                        forall|c: int, x: usize|
                            0 <= c < n && (x as int) < n ==> #[trigger] count_eq(deps@[c]@, x)
                                == (if (x as int) < d {
                                occ(ss, x as int, c)
                            } else if x == d {
                                occ_upto(ss, d as int, c, k as int)
                            } else {
                                0int
                            }),
                        forall|kk: int|
                            0 <= kk < k ==> resolves(ss, ss[d as int].after[kk]),
                    decreases alen - k,
                {
                    let name = &systems[d].after[k];
                    assert(name@ == ss[d as int].after[k as int]);
                    match find_index(&systems, name) {
                        None => {
                            proof {
                                assert(!resolves(ss, ss[d as int].after[k as int]));
                                assert(!resolves_all(ss));
                            }
                            return Err(BuildError::UnresolvedName);
                        },
                        Some(cid) => {
                            proof {
                                lemma_resolve_is_first_match(ss, name@);
                                lemma_first_match_unique(
                                    ss,
                                    name@,
                                    cid as int,
                                    resolve(ss, name@),
                                );
                                assert(resolve(ss, ss[d as int].after[k as int]) == cid as int);
                            }
                            let ghost row0 = deps@[cid as int]@;
                            deps[cid].push(d);
                            proof {
                                assert(deps@[cid as int]@ == row0.push(d));
                                assert forall|c: int, x: usize|
                                    0 <= c < n && (x as int) < n implies #[trigger] count_eq(
                                    deps@[c]@,
                                    x,
                                ) == (if (x as int) < d {
                                    occ(ss, x as int, c)
                                } else if x == d {
                                    occ_upto(ss, d as int, c, k as int + 1)
                                } else {
                                    0int
                                }) by {
                                    if c == cid as int {
                                        lemma_count_eq_push(row0, d, x);
                                    }
                                }
                            }
                        },
                    }
                    k = k + 1;
                }
            }
            d = d + 1;
        }
        assert(resolves_all(ss));
        let mut counts: Vec<usize> = Vec::new();
        let mut spawned: Vec<bool> = Vec::new();
        let mut released: Vec<bool> = Vec::new();
        let mut t: usize = 0;
        while t < n
            invariant
                t <= n,
                counts@.len() == t,
                spawned@.len() == t,
                released@.len() == t,
                forall|x: int| 0 <= x < t ==> #[trigger] counts@[x] == 0,
                forall|x: int| 0 <= x < t ==> #[trigger] spawned@[x],
                forall|x: int| 0 <= x < t ==> #[trigger] released@[x],
            decreases n - t,
        {
            counts.push(0);
            spawned.push(true);
            released.push(true);
            t = t + 1;
        }
        let mut s = Scheduler { systems, ready, lock, deps, counts, spawned, released, alive: 0 };
        proof {
            assert(s.sys() == ss);
            assert(s.spawned@ =~= s.released@);
            assert forall|dd: int|
                0 <= dd < n implies #[trigger] s.counts@[dd] as int == unmet(
                ss,
                s.released@,
                dd,
            ) by {
                lemma_unmet_all_true(ss, s.released@, dd, ss[dd].after.len() as int);
            }
            assert(s.wf());
        }
        let mut q = s.start_cycle();
        let mut head: usize = 0;
        let ghost mut ord: Seq<int> = Seq::new(q@.len() as nat, |idx: int| q@[idx] as int);
        proof {
            assert forall|a: int, b: int|
                0 <= a < q@.len() && 0 <= b < q@.len() && is_prereq(ss, ord[b], ord[a]) implies b
                < a by {
                assert(ss[ord[a]].after.len() == 0);
            }
            assert(q@.no_duplicates()) by {
                assert forall|a: int, b: int|
                    0 <= a < q@.len() && 0 <= b < q@.len() && a != b implies q@[a] != q@[b] by {
                    if a < b {
                        assert(q@[a] < q@[b]);
                    } else {
                        assert(q@[b] < q@[a]);
                    }
                }
            }
            assert(s.spawned_flags() == s.spawned@);
            assert(s.released_flags() == s.released@);
            assert forall|ii: int| 0 <= ii < s.released@.len() implies !s.released@[ii] by {
                assert(!s.released_flags()[ii]);
            }
            lemma_count_true_zero(s.released@);
            lemma_count_true_bounds(s.spawned@);
            assert forall|x: usize|
                (x as int) < n implies (q@.contains(x) <==> s.spawned@[x as int]) by {
                if q@.contains(x) {
                    let idx = choose|idx: int| 0 <= idx < q@.len() && q@[idx] == x;
                    assert(s.ready@[idx] == x);
                }
                if s.spawned@[x as int] {
                    assert(s.spawned_flags()[x as int]);
                    assert(ss[x as int].after.len() == 0);
                    assert(s.ready@.contains(x));
                    let idx = choose|idx: int| 0 <= idx < s.ready@.len() && s.ready@[idx] == x;
                    assert(q@[idx] == x);
                }
            }
        }
        while head < q.len()
            invariant
                s.wf(),
                s.sys() == ss,
                head <= q@.len(),
                q@.len() as int <= n as int,
                q@.no_duplicates(),
                forall|jj: int| 0 <= jj < q@.len() ==> (#[trigger] q@[jj] as int) < n,
                forall|x: usize|
                    (x as int) < n ==> (q@.contains(x) <==> s.spawned@[x as int]),
                forall|jj: int|
                    0 <= jj < q@.len() ==> (s.released@[#[trigger] q@[jj] as int] <==> jj
                        < head),
                q@.len() as int == count_true(s.spawned@),
                head as int == count_true(s.released@),
                ord.len() == q@.len(),
                forall|jj: int| 0 <= jj < q@.len() ==> ord[jj] == #[trigger] q@[jj] as int,
                forall|a: int, b: int|
                    0 <= a < q@.len() && 0 <= b < q@.len() && is_prereq(ss, ord[b], ord[a])
                        ==> b < a,
            decreases n - head,
        {
            let id = q[head];
            proof {
                assert(q@.contains(id));
                assert(s.spawned@[id as int]);
                assert(!s.released@[id as int]);
            }
            let ghost q0 = q@;
            let ghost sp0 = s.spawned@;
            let ghost rel0 = s.released@;
            let ghost cnt0 = s.counts@;
            let mut news = s.on_release(id);
            let ghost newsv = news@;
            q.append(&mut news);
            head = head + 1;
            proof {
                assert(s.spawned_flags() == s.spawned@);
                assert(s.released_flags() == s.released@);
                assert(s.remaining_counts() == s.counts@);
                lemma_count_true_update(rel0, id as int);
                assert(q@ == q0 + newsv);
                ord = ord + Seq::new(newsv.len() as nat, |idx: int| newsv[idx] as int);
                // membership of the grown queue
                assert forall|x: usize|
                    (x as int) < n implies (q@.contains(x) <==> s.spawned@[x as int]) by {
                    if q@.contains(x) {
                        let idx = choose|idx: int| 0 <= idx < q@.len() && q@[idx] == x;
                        if idx < q0.len() {
                            assert(q0[idx] == x);
                            assert(q0.contains(x));
                        } else {
                            assert(newsv[idx - q0.len()] == x);
                            assert(newsv.contains(x));
                        }
                    }
                    if s.spawned@[x as int] {
                        if sp0[x as int] {
                            assert(q0.contains(x));
                            let idx = choose|idx: int| 0 <= idx < q0.len() && q0[idx] == x;
                            assert(q@[idx] == x);
                        } else {
                            assert(newsv.contains(x));
                            let idx = choose|idx: int|
                                0 <= idx < newsv.len() && newsv[idx] == x;
                            assert(q@[q0.len() + idx] == x);
                        }
                    }
                }
                // no duplicates in the grown queue
                assert forall|a: int, b: int|
                    0 <= a < q@.len() && 0 <= b < q@.len() && a != b implies q@[a] != q@[b] by {
                    if a < q0.len() && b < q0.len() {
                        assert(q0[a] == q@[a] && q0[b] == q@[b]);
                    } else if a < q0.len() {
                        assert(q0.contains(q0[a]));
                        assert(sp0[q0[a] as int]);
                        assert(newsv[b - q0.len()] == q@[b]);
                        assert(!sp0[newsv[b - q0.len()] as int]);
                    } else if b < q0.len() {
                        assert(q0.contains(q0[b]));
                        assert(sp0[q0[b] as int]);
                        assert(newsv[a - q0.len()] == q@[a]);
                        assert(!sp0[newsv[a - q0.len()] as int]);
                    } else {
                        assert(newsv[a - q0.len()] != newsv[b - q0.len()]);
                    }
                }
                assert(q@.no_duplicates());
                // released flags track the popped prefix
                assert forall|jj: int|
                    0 <= jj < q@.len() implies (s.released@[#[trigger] q@[jj] as int] <==> jj
                        < head) by {
                    if jj < q0.len() {
                        assert(q@[jj] == q0[jj]);
                        if jj == head - 1 {
                            assert(q0[jj] == id);
                        } else if q0[jj] == id {
                            assert(q0[head - 1] == id);
                            assert(false);
                        }
                    } else {
                        let x = newsv[jj - q0.len()];
                        assert(!sp0[x as int]);
                        assert(!rel0[x as int]);
                        assert(x != id);
                    }
                }
                // the spawn order is topological
                assert forall|a: int, b: int|
                    0 <= a < q@.len() && 0 <= b < q@.len() && is_prereq(ss, ord[b], ord[a])
                        implies b < a by {
                    if a < q0.len() && b < q0.len() {
                        assert(is_prereq(ss, ord[b], ord[a]));
                    } else if a >= q0.len() {
                        let x = newsv[a - q0.len()];
                        assert(s.spawned@[x as int] && s.counts@[x as int] == 0);
                        lemma_unmet_zero_prereqs(ss, s.released@, x as int);
                        assert(s.released@[ord[b]]);
                        assert(s.released@[q@[b] as int]);
                        assert(b < head);
                        assert(head <= q0.len());
                    } else {
                        // a new task cannot be a prerequisite of an already
                        // spawned one: those prerequisites were all released
                        let y = q0[a];
                        assert(q0.contains(y));
                        assert(sp0[y as int]);
                        assert(cnt0[y as int] == 0);
                        lemma_unmet_zero_prereqs(ss, rel0, y as int);
                        let x = newsv[b - q0.len()];
                        assert(rel0[x as int]);
                        assert(sp0[x as int]);
                        assert(false);
                    }
                }
                lemma_count_true_bounds(s.spawned@);
            }
        }
        if q.len() == n {
            proof {
                lemma_count_true_full(s.spawned@);
                lemma_count_true_full(s.released@);
                assert forall|x: int| 0 <= x < n implies ord.contains(x) by {
                    let ux = x as usize;
                    assert(s.spawned@[x]);
                    assert(q@.contains(ux));
                    let idx = choose|idx: int| 0 <= idx < q@.len() && q@[idx] == ux;
                    assert(ord[idx] == x);
                }
                assert forall|idx: int|
                    0 <= idx < ord.len() implies 0 <= #[trigger] ord[idx] < ss.len() by {
                    assert(ord[idx] == q@[idx] as int);
                }
                assert(valid_topo(ss, ord));
                assert(acyclic(ss));
            }
            Ok(s)
        } else {
            proof {
                lemma_count_true_eq_pointwise(s.released@, s.spawned@);
                if acyclic(ss) {
                    let tt = choose|tt: Seq<int>| valid_topo(ss, tt);
                    assert forall|dd: int|
                        0 <= dd < n && !s.spawned@[dd] implies exists|p: int|
                        is_prereq(ss, p, dd) && !s.spawned@[p] by {
                        assert(s.counts@[dd] != 0);
                        lemma_unmet_pos_witness(ss, s.released@, dd);
                        let p = choose|p: int| is_prereq(ss, p, dd) && !s.released@[p];
                        assert(!s.spawned@[p]);
                        assert(is_prereq(ss, p, dd) && !s.spawned@[p]);
                    }
                    lemma_closed_full(ss, tt, s.spawned@);
                    lemma_count_true_full(s.spawned@);
                    assert(false);
                }
            }
            Err(BuildError::DependencyCycle)
        }
    }

    /// Records that the spawned task `id` has released its completion
    /// handle.  Every dependent of `id` has its remaining count lowered by
    /// one per `after` entry naming `id`; a dependent whose count thereby
    /// reaches exactly zero is marked spawned and returned — the host must
    /// now run each returned task.  A count never goes below zero and no
    /// task is returned twice: a task is spawned at most once per cycle.
    #[verifier::loop_isolation(false)]
    pub fn on_release(&mut self, id: usize) -> (spawn: Vec<usize>)
        requires
            old(self).wf(),
            (id as int) < old(self).sys().len(),
            old(self).spawned_flags()[id as int],
            !old(self).released_flags()[id as int],
        ensures
            final(self).wf(),
            final(self).sys() == old(self).sys(),
            final(self).ready_ids() == old(self).ready_ids(),
            final(self).released_flags() == old(self).released_flags().update(id as int, true),
            forall|d: int|
                0 <= d < old(self).sys().len() ==> #[trigger] final(self).remaining_counts()[d]
                    as int == old(self).remaining_counts()[d] - occ(old(self).sys(), d, id as int),
            forall|x: usize|
                (x as int) < old(self).sys().len() ==> (#[trigger] final(self).spawned_flags()[x
                    as int] <==> old(self).spawned_flags()[x as int] || spawn@.contains(x)),
            forall|x: usize|
                (x as int) < old(self).sys().len() ==> (#[trigger] spawn@.contains(x)
                    <==> old(self).remaining_counts()[x as int] > 0
                    && final(self).remaining_counts()[x as int] == 0),
            spawn@.no_duplicates(),
            forall|j: int|
                0 <= j < spawn@.len() ==> (#[trigger] spawn@[j] as int) < old(self).sys().len()
                    && !old(self).spawned_flags()[spawn@[j] as int]
                    && final(self).spawned_flags()[spawn@[j] as int],
            final(self).outstanding_count() == old(self).outstanding_count() - 1 + spawn@.len(),
    {
        let ghost ss = self.sys();
        let nn = self.systems.len();
        let ghost n = ss.len() as int;
        let ghost rel0 = self.released@;
        let ghost sp0 = self.spawned@;
        let ghost cnt0 = self.counts@;
        proof {
            lemma_count_true_update(rel0, id as int);
            assert forall|i: int|
                0 <= i < n && rel0.update(id as int, true)[i] implies sp0[i] by {}
            lemma_count_true_le(rel0.update(id as int, true), sp0);
        }
        self.released.set(id, true);
        self.alive = self.alive - 1;
        let ghost rel1 = self.released@;
        proof {
            assert forall|d: int|
                0 <= d < n implies unmet(ss, rel1, d) == unmet(ss, rel0, d) - occ(
                ss,
                d,
                id as int,
            ) by {
                lemma_unmet_update(ss, rel0, d, id as int, ss[d].after.len() as int);
            }
        }
        let mut spawn: Vec<usize> = Vec::new();
        let m = self.deps[id].len();
        let ghost row = self.deps@[id as int]@;
        let mut j: usize = 0;
        while j < m
            invariant
                j <= m,
                m == row.len(),
                self.systems == old(self).systems,
                self.ready == old(self).ready,
                self.lock == old(self).lock,
                self.deps == old(self).deps,
                self.released@ == rel1,
                self.counts@.len() == n,
                self.spawned@.len() == n,
                forall|x: usize|
                    (x as int) < n ==> #[trigger] self.counts@[x as int] as int == cnt0[x as int]
                        - count_eq(row.take(j as int), x),
                forall|x: int|
                    0 <= x < n ==> (#[trigger] self.spawned@[x] <==> self.counts@[x] == 0),
                forall|x: usize|
                    (x as int) < n ==> (#[trigger] spawn@.contains(x) <==> (cnt0[x as int] > 0
                        && self.counts@[x as int] == 0)),
                spawn@.no_duplicates(),
                forall|jj: int| 0 <= jj < spawn@.len() ==> (#[trigger] spawn@[jj] as int) < n,
                self.alive as int == count_true(self.spawned@) - count_true(self.released@),
                self.alive as int == old(self).outstanding_count() - 1 + spawn@.len(),
            decreases m - j,
        {
            let d = self.deps[id][j];
            assert((d as int) < n);
            let c = self.counts[d];
            proof {
                lemma_count_eq_take_step(row, j as int, d);
                lemma_count_eq_take_le(row, j as int + 1, d);
                lemma_occ_le_unmet(ss, rel0, d as int, id as int, ss[d as int].after.len() as int);
                assert(count_eq(row, d) == occ(ss, d as int, id as int));
                assert(c >= 1);
            }
            self.counts.set(d, c - 1);
            let ghost sp_mid = self.spawned@;
            let ghost spawn_mid = spawn@;
            if c == 1 {
                proof {
                    assert(!sp_mid[d as int]);
                    assert(!spawn_mid.contains(d));
                    lemma_count_true_update(sp_mid, d as int);
                    lemma_count_true_bounds(self.released@);
                    lemma_count_true_bounds(sp_mid.update(d as int, true));
                    lemma_push_no_dup(spawn_mid, d);
                }
                self.spawned.set(d, true);
                spawn.push(d);
                self.alive = self.alive + 1;
            }
            j = j + 1;
            proof {
                assert forall|x: usize|
                    (x as int) < n implies #[trigger] self.counts@[x as int] as int == cnt0[x
                    as int] - count_eq(row.take(j as int), x) by {
                    lemma_count_eq_take_step(row, j - 1 as int, x);
                }
                assert forall|x: usize|
                    (x as int) < n implies (#[trigger] spawn@.contains(x) <==> (cnt0[x as int]
                        > 0 && self.counts@[x as int] == 0)) by {
                    lemma_count_eq_bounds(row.take(j as int), x);
                    lemma_count_eq_bounds(row.take(j as int - 1), x);
                    if c == 1 {
                        assert(spawn@ == spawn_mid.push(d));
                        if spawn_mid.contains(x) {
                            let i = choose|i: int|
                                0 <= i < spawn_mid.len() && spawn_mid[i] == x;
                            assert(spawn@[i] == x);
                        }
                        if spawn@.contains(x) && x != d {
                            let i = choose|i: int| 0 <= i < spawn@.len() && spawn@[i] == x;
                            assert(spawn_mid[i] == x);
                        }
                        if x == d {
                            assert(spawn@[spawn@.len() - 1] == d);
                        }
                    }
                }
            }
        }
        proof {
            assert(row.take(m as int) =~= row);
            assert forall|x: usize|
                (x as int) < n implies #[trigger] self.counts@[x as int] as int == unmet(
                ss,
                rel1,
                x as int,
            ) by {
                assert(count_eq(row, x) == occ(ss, x as int, id as int));
            }
            assert forall|x: usize|
                (x as int) < n implies (#[trigger] self.spawned@[x as int] <==> sp0[x as int]
                    || spawn@.contains(x)) by {
                lemma_count_eq_bounds(row, x);
            }
            assert forall|jj: int|
                0 <= jj < spawn@.len() implies (#[trigger] spawn@[jj] as int) < n && !sp0[spawn@[jj]
                as int] && self.spawned@[spawn@[jj] as int] by {
                let x = spawn@[jj];
                assert(spawn@.contains(x));
                lemma_count_eq_bounds(row, x);
            }
            assert forall|i: int|
                0 <= i < n && #[trigger] self.released@[i] implies self.spawned@[i] by {
                if rel1[i] {
                    if i == id as int {
                        assert(cnt0[i] == 0);
                    } else {
                        assert(sp0[i]);
                        assert(cnt0[i] == 0);
                    }
                    assert(self.counts@[i] as int <= cnt0[i] as int) by {
                        lemma_count_eq_bounds(row, i as usize);
                        assert((i as usize) as int == i);
                    }
                }
            }
        }
        spawn
    }
}

/// A well-formed engine keeps one flag and one count per task: the
/// per-cycle state sequences all have the task set's length, and the ready
/// list only holds task indices.
pub proof fn lemma_wf_sizes(s: &Scheduler)
    requires
        s.wf(),
    ensures
        s.spawned_flags().len() == s.sys().len(),
        s.released_flags().len() == s.sys().len(),
        s.remaining_counts().len() == s.sys().len(),
        forall|i: int|
            0 <= i < s.ready_ids().len() ==> (#[trigger] s.ready_ids()[i] as int) < s.sys().len(),
{
    assert(s.spawned_flags() == s.spawned@);
    assert(s.released_flags() == s.released@);
    assert(s.remaining_counts() == s.counts@);
    assert(s.ready_ids() == s.ready@);
}

/// A task never starts before its prerequisites are done: in every reachable
/// engine state, a task marked spawned has every one of its prerequisites
/// marked released for the current cycle.
pub proof fn lemma_spawn_waits_for_prereqs(s: &Scheduler, d: int, p: int)
    requires
        s.wf(),
        0 <= d < s.sys().len(),
        s.spawned_flags()[d],
        is_prereq(s.sys(), p, d),
    ensures
        s.released_flags()[p],
{
    assert(s.spawned_flags() == s.spawned@);
    assert(s.released_flags() == s.released@);
    assert(s.counts@[d] == 0);
    lemma_unmet_zero_prereqs(s.sys(), s.released@, d);
}

/// A task with an empty prerequisite list always stands in the ready set,
/// the set spawned at the start of every cycle.
pub proof fn lemma_no_prereq_always_ready(s: &Scheduler, d: usize)
    requires
        s.wf(),
        (d as int) < s.sys().len(),
        s.sys()[d as int].after.len() == 0,
    ensures
        s.ready_ids().contains(d),
{
    assert(s.ready_ids() == s.ready@);
    assert(s.ready@.contains(d));
}

/// On an acyclic graph, a cycle is over — no spawned task is outstanding —
/// exactly when every task in the graph has released its handle; and an
/// ended cycle has spawned every task.
pub proof fn lemma_cycle_ends_iff_all_released(s: &Scheduler)
    requires
        s.wf(),
        acyclic(s.sys()),
    ensures
        (s.outstanding_count() == 0) <==> (forall|i: int|
            0 <= i < s.sys().len() ==> s.released_flags()[i]),
        s.outstanding_count() == 0 ==> (forall|i: int|
            0 <= i < s.sys().len() ==> s.spawned_flags()[i]),
{
    let ss = s.sys();
    let n = ss.len() as int;
    assert(s.spawned_flags() == s.spawned@);
    assert(s.released_flags() == s.released@);
    if s.outstanding_count() == 0 {
        lemma_count_true_eq_pointwise(s.released@, s.spawned@);
        let tt = choose|tt: Seq<int>| valid_topo(ss, tt);
        assert forall|dd: int|
            0 <= dd < n && !s.spawned@[dd] implies exists|p: int|
            is_prereq(ss, p, dd) && !s.spawned@[p] by {
            assert(s.counts@[dd] != 0);
            lemma_unmet_pos_witness(ss, s.released@, dd);
            let p = choose|p: int| is_prereq(ss, p, dd) && !s.released@[p];
            assert(is_prereq(ss, p, dd) && !s.spawned@[p]);
        }
        lemma_closed_full(ss, tt, s.spawned@);
        assert forall|i: int| 0 <= i < n implies s.released@[i] by {
            assert(s.spawned@[i]);
        }
    }
    if forall|i: int| 0 <= i < n ==> s.released_flags()[i] {
        assert forall|i: int| 0 <= i < s.spawned@.len() implies s.spawned@[i] by {
            assert(s.released_flags()[i]);
        }
        lemma_count_true_full(s.spawned@);
        lemma_count_true_full(s.released@);
    }
}

/// Cycles are alike: two completed cycles over the same graph spawned the
/// same set of tasks — every task, each exactly once.  The graph itself —
/// descriptors and ready set — is never mutated by running a cycle, so what
/// cycle `N` spawns, cycle `N + 1` spawns again.
pub proof fn lemma_completed_cycles_spawn_alike(s1: &Scheduler, s2: &Scheduler)
    requires
        s1.wf(),
        s2.wf(),
        acyclic(s1.sys()),
        s1.sys() == s2.sys(),
        s1.outstanding_count() == 0,
        s2.outstanding_count() == 0,
    ensures
        forall|i: int|
            0 <= i < s1.sys().len() ==> s1.spawned_flags()[i] && s2.spawned_flags()[i],
{
    lemma_cycle_ends_iff_all_released(s1);
    lemma_cycle_ends_iff_all_released(s2);
}

/// Finds the first descriptor carrying `name`, if any.
fn find_index(systems: &Vec<System>, name: &String) -> (r: Option<usize>)
    ensures
        match r {
            Some(i) => is_first_match(
                systems@.map_values(|s: System| s@),
                name@,
                i as int,
            ),
            None => !resolves(systems@.map_values(|s: System| s@), name@),
        },
{
    let ghost ss = systems@.map_values(|s: System| s@);
    let n = systems.len();
    for i in 0..n
        invariant
            n == systems.len(),
            ss == systems@.map_values(|s: System| s@),
            forall|j: int| 0 <= j < i ==> ss[j].name != name@,
    {
        if systems[i].name.eq(name) {
            return Some(i);
        }
    }
    None
}

} // verus!
