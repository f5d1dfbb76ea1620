//! The solver: a depth-first search over the variables that, after every
//! assignment, makes the domains arc consistent again, and undoes what it
//! pruned when it turns back.

use vstd::prelude::*;
use crate::consistency::ac::{has_kernel, initial, neighbor_arcs, neighbors_of, propagate};
use crate::consistency::model::{
    all_consistent, all_wf, arc_consistent, can_undo, family_closed, fits, lemma_undo_len,
    shrinks, sub_family, supported, supports, undo, Doms,
};
use crate::consistency::solutions::{satisfies, takes, within};
use crate::domains::{Chain, Dom, DomMap};
use crate::problem::{is_solution, well_formed, Problem, Solution, Value, Variable};
use crate::solver::model::{
    digits_ok, distinct, lemma_descend, lemma_digits_bounded, lemma_distinct_shrinks, lemma_emit, lemma_exhausted,
    lemma_popped, lemma_refused, lemma_unassign, lemma_unseen_descend, lemma_unseen_emit, lemma_unseen_unassign,
    linked, radix_of, searching, shaped, unseen, valued, Frame, Search,
};
use crate::solver::order::{arranged, ordered, sort_variables};

verus! {

/// `time::Duration`, a span of time. It is carried through and never read.
#[verifier::external_type_specification]
#[verifier::external_body]
pub struct ExDuration(time::Duration);

/// `time::OffsetDateTime`, a moment. It is carried through and never read.
#[verifier::external_type_specification]
#[verifier::external_body]
pub struct ExOffsetDateTime(time::OffsetDateTime);

/// The present moment, from `time::OffsetDateTime::now_utc`. Nothing is
/// claimed of it.
#[verifier::external_body]
fn now() -> time::OffsetDateTime {
    time::OffsetDateTime::now_utc()
}

/// The time from `from` to `to`, by the subtraction of two
/// `time::OffsetDateTime`. Nothing is claimed of it.
#[verifier::external_body]
fn between(from: &time::OffsetDateTime, to: &time::OffsetDateTime) -> time::Duration {
    *to - *from
}

/// A duration to start with, from the `Default` of `time::Duration`. Nothing
/// is claimed of it.
#[verifier::external_body]
fn no_time() -> time::Duration {
    time::Duration::default()
}

/// What one assignment has to remember: the domain that it replaced, and the
/// removals made while it stood.
pub struct Trail {
    pub removals: Vec<(Variable, usize)>,
    pub dom: Dom,
}

impl Trail {
    /// A trail that has seen no removal yet.
    pub fn new(dom: Dom) -> (r: Trail)
        ensures
            r.removals@.len() == 0,
            r.dom == dom,
    {
        Trail { removals: Vec::new(), dom }
    }
}

/// How the solver searches.
#[derive(Clone, Debug)]
pub struct BTConfig {
    /// Sort the variables after the first run of arc consistency, largest
    /// domain first.
    pub sort_stack: bool,
    /// Stop at the first solution.
    pub stop_at_first: bool,
    /// Record statistics during the search.
    pub record_stats: bool,
}

impl Default for BTConfig {
    fn default() -> (r: BTConfig)
        ensures
            r.sort_stack,
            !r.stop_at_first,
            r.record_stats,
    {
        BTConfig { sort_stack: true, stop_at_first: false, record_stats: true }
    }
}

/// Statistics of a search.
#[derive(Debug)]
pub struct BTStats {
    /// Number of consistency checks.
    pub ccks: u32,
    /// Number of assignments that arc consistency refused.
    pub backtracks: u32,
    /// Number of solutions found.
    pub solutions: u32,
    /// Duration of the first run of arc consistency.
    pub ac3_time: time::Duration,
    /// Duration of the search.
    pub mac3_time: time::Duration,
}

impl Clone for BTStats {
    fn clone(&self) -> (r: BTStats)
        ensures
            r == *self,
    {
        BTStats {
            ccks: self.ccks,
            backtracks: self.backtracks,
            solutions: self.solutions,
            ac3_time: self.ac3_time,
            mac3_time: self.mac3_time,
        }
    }
}

impl Default for BTStats {
    fn default() -> (r: BTStats)
        ensures
            r.ccks == 0,
            r.backtracks == 0,
            r.solutions == 0,
    {
        BTStats { ccks: 0, backtracks: 0, solutions: 0, ac3_time: no_time(), mac3_time: no_time() }
    }
}

/// `a + b`, or the largest `u32` where that is less.
pub fn saturating(a: u32, b: u32) -> (r: u32)
    ensures
        r == if a + b <= u32::MAX { (a + b) as u32 } else { u32::MAX },
{
    if a <= u32::MAX - b {
        a + b
    } else {
        u32::MAX
    }
}

/// A backtracking solver for the problem that it was made for.
pub struct BTSolver<'p, P: Problem> {
    problem: &'p P,
    domains: DomMap,
    neighbors: Vec<Vec<(Variable, Variable)>>,
    variables: Vec<Variable>,
    place: Ghost<Seq<int>>,
    assignments: Vec<(Variable, usize)>,
    config: BTConfig,
    stats: Option<BTStats>,
    trails: Vec<Trail>,
    root: Vec<(Variable, usize)>,
}

impl<'p, P: Problem> BTSolver<'p, P> {
    /// The problem that the solver was made for.
    pub closed spec fn problem(&self) -> &P {
        self.problem
    }

    /// The domains as they stand.
    pub closed spec fn domains(&self) -> Doms {
        self.domains@
    }

    /// The configuration.
    pub closed spec fn config(&self) -> BTConfig {
        self.config
    }

    /// The statistics, where they are recorded.
    pub closed spec fn counters(&self) -> Option<BTStats> {
        self.stats
    }

    /// The order in which the variables are taken.
    pub closed spec fn order(&self) -> Seq<Variable> {
        self.variables@
    }

    /// The search as the proofs see it.
    pub closed spec fn model(&self) -> Search {
        Search {
            vars: self.variables@,
            doms: self.domains@,
            frames: Seq::new(
                self.trails.len() as nat,
                |k: int|
                    Frame {
                        x: self.assignments[k].0,
                        slot: self.assignments[k].1,
                        saved: self.trails[k].dom@,
                        log: self.trails[k].removals@,
                    },
            ),
            root: self.root@,
        }
    }

    /// What holds of the solver's parts whatever the search is doing.
    pub closed spec fn steady(&self) -> bool {
        let n = self.domains@.len();
        &&& self.domains.wf()
        &&& well_formed(self.problem)
        &&& n == self.problem.spec_size()
        &&& self.variables.len() == n
        &&& self.neighbors@.len() == n
        &&& neighbors_of(self.problem, self.neighbors@)
        &&& self.assignments.len() == self.trails.len()
        &&& forall|k: int| 0 <= k < self.trails.len() ==> (#[trigger] self.trails[k]).dom.wf()
    }

    /// `other` is a solver for the same problem with the same configuration,
    /// neighbours and order of variables.
    pub closed spec fn same_setting(&self, other: &Self) -> bool {
        &&& self.problem == other.problem
        &&& self.neighbors == other.neighbors
        &&& self.variables == other.variables
        &&& self.place == other.place
        &&& self.config == other.config
    }

    /// The solver is at rest: no assignment stands, the domains fit the
    /// problem, and every solution of the problem lies within them.
    pub closed spec fn inv(&self) -> bool {
        &&& self.steady()
        &&& arranged(self.variables@, self.place@)
        &&& self.trails.len() == 0
        &&& self.root.len() == 0
        &&& fits(self.problem, self.domains@)
        &&& valued(self.problem, self.domains@)
        &&& forall|s: Seq<Value>| #[trigger] is_solution(self.problem, s) ==> within(self.domains@, s)
    }

    /// A solver that is not searching is steady, with no assignment
    /// standing; the search as the proofs see it has the solver's domains
    /// and order of variables.
    pub proof fn lemma_at_rest(&self)
        ensures
            self.inv() ==> self.steady() && self.model().depth() == 0,
            self.model().doms == self.domains(),
            self.model().vars == self.order(),
    {
    }

    /// A solver for `problem` with the default configuration.
    pub fn new(problem: &'p P) -> (r: BTSolver<'p, P>)
        requires
            well_formed(problem),
        ensures
            r.inv(),
            r.problem() == problem,
            r.config().sort_stack && !r.config().stop_at_first && r.config().record_stats,
            r.domains() == initial(problem),
    {
        BTSolver::with_config(problem, BTConfig::default())
    }

    /// A solver for `problem` with the given configuration.
    pub fn with_config(problem: &'p P, config: BTConfig) -> (r: BTSolver<'p, P>)
        requires
            well_formed(problem),
        ensures
            r.inv(),
            r.problem() == problem,
            r.config() == config,
            r.counters().is_some() == config.record_stats,
            r.domains() == initial(problem),
    {
        let n = problem.size();
        let neighbors = neighbor_arcs(problem, n);
        let domains = DomMap::new(problem);
        let mut variables: Vec<Variable> = Vec::new();
        let mut x: usize = 0;
        while x < n
            invariant
                x <= n,
                variables.len() == x,
                forall|k: int| 0 <= k < x ==> variables[k] == Variable(k as usize),
            decreases n - x,
        {
            variables.push(Variable(x));
            x = x + 1;
        }
        let stats = if config.record_stats {
            Some(BTStats::default())
        } else {
            None
        };
        let r = BTSolver {
            problem,
            domains,
            neighbors,
            variables,
            place: Ghost(Seq::new(n as nat, |k: int| k)),
            stats,
            config,
            trails: Vec::new(),
            assignments: Vec::new(),
            root: Vec::new(),
        };
        proof {
            let d = r.domains@;
            assert(d =~= initial(problem));
            assert forall|y: usize, i: int| y < d.len() && 1 <= i < d[y as int].nodes.len() implies problem.admits(
                (Variable(y), #[trigger] d[y as int].item(i)),
            ) && problem.spec_domain(Variable(y)).contains(d[y as int].item(i)) by {
                assert(d[y as int] == Chain::fresh(problem.spec_domain(Variable(y))));
                assert(d[y as int].wf());
                assert(d[y as int].item(i) == problem.spec_domain(Variable(y))[i - 1]);
            }
            assert forall|s: Seq<Value>| #[trigger] is_solution(problem, s) implies within(d, s) by {
                assert forall|y: int| 0 <= y < d.len() implies takes(d, y, #[trigger] s[y]) by {
                    let dom = problem.spec_domain(Variable(y as usize));
                    assert(dom.contains(s[y as usize as int]));
                    let k = dom.index_of(s[y]);
                    assert(d[y] == Chain::fresh(dom));
                    assert(d[y].wf());
                    let i = (k + 1) as usize;
                    assert(d[y].order[k] == i);
                    assert(d[y].order.contains(i) && d[y].item(i as int) == s[y]);
                }
            }
        }
        r
    }

    /// The statistics, where they are recorded.
    pub fn stats(&self) -> (r: Option<&BTStats>)
        ensures
            r.is_some() == self.counters().is_some(),
            r.is_some() ==> *r.unwrap() == self.counters().unwrap(),
    {
        self.stats.as_ref()
    }
}

impl<'p, P: Problem> BTSolver<'p, P> {
    /// Gives `x` the value of its slot `index`: the assignment is pushed,
    /// with a trail that keeps the domain that `x` had.
    pub fn assign(&mut self, x: Variable, index: usize)
        requires
            old(self).steady(),
            x.0 < old(self).domains().len(),
            old(self).domains()[x.0 as int].order.contains(index),
        ensures
            final(self).steady(),
            final(self).same_setting(old(self)),
            final(self).counters() == old(self).counters(),
            final(self).model() == old(self).model().assign(x, index),
            final(self).model().depth() == old(self).model().depth() + 1,
    {
        proof {
            assert(self.domains@[x.0 as int].wf());
            let c = self.domains@[x.0 as int];
            assert(c.order[c.order.index_of(index)] == index);
        }
        self.assignments.push((x, index));
        let replaced = self.domains.set(x, index);
        self.trails.push(Trail::new(replaced.unwrap()));
        proof {
            let m1 = old(self).model().assign(x, index);
            let last = old(self).trails.len() as int;
            assert(self.trails[last].removals@ =~= Seq::empty());
            assert forall|k: int| 0 <= k < m1.frames.len() implies self.model().frames[k] == m1.frames[k] by {
                if k < last {
                    assert(self.trails[k] == old(self).trails[k]);
                    assert(self.assignments[k] == old(self).assignments[k]);
                }
            }
            assert(self.model().frames =~= m1.frames);
            assert(self.model() =~= m1);
        }
    }

    /// Unlinks slot `i` of `x` and logs the removal in the trail of the last
    /// assignment, or in the root log where none stands.
    fn remove(&mut self, x: Variable, i: usize)
        requires
            old(self).steady(),
            x.0 < old(self).domains@.len(),
            old(self).domains@[x.0 as int].order.contains(i),
        ensures
            final(self).steady(),
            final(self).same_setting(old(self)),
            final(self).stats == old(self).stats,
            final(self).model() == old(self).model().removed(x, i),
            final(self).trails.len() == old(self).trails.len(),
    {
        self.domains.remove(x, i);
        let d = self.trails.len();
        if d > 0 {
            self.trails[d - 1].removals.push((x, i));
        } else {
            self.root.push((x, i));
        }
        proof {
            assert(self.model().frames =~= old(self).model().removed(x, i).frames);
            assert(self.model() =~= old(self).model().removed(x, i));
        }
    }

    /// Takes the last assignment back: the removals of its trail are undone,
    /// the last one first, and its variable gets the domain that the trail
    /// kept. Returns the variable and the slot that it had been given.
    fn undo_frame(&mut self) -> (r: (Variable, usize))
        requires
            old(self).steady(),
            old(self).trails.len() > 0,
            old(self).model().frames.last().x.0 < old(self).domains@.len(),
            can_undo(old(self).domains@, old(self).model().frames.last().log),
        ensures
            final(self).steady(),
            final(self).same_setting(old(self)),
            final(self).stats == old(self).stats,
            final(self).model() == old(self).model().popped(),
            final(self).trails.len() == old(self).trails.len() - 1,
            r.0 == old(self).model().frames.last().x,
            r.1 == old(self).model().frames.last().slot,
    {
        let ghost d0 = self.domains@;
        let ghost f = self.model().frames.last();
        let (x, i) = self.assignments.pop().unwrap();
        let trail = self.trails.pop().unwrap();
        proof {
            assert(f.log == trail.removals@);
            assert(f.saved == trail.dom@);
            assert(f.x == x && f.slot == i);
            assert(trail.removals@.take(trail.removals@.len() as int) =~= trail.removals@);
        }
        let mut k: usize = trail.removals.len();
        while k > 0
            invariant
                self.domains.wf(),
                self.domains@.len() == d0.len(),
                self.same_setting(old(self)),
                self.stats == old(self).stats,
                self.root == old(self).root,
                self.trails@ == old(self).trails@.drop_last(),
                self.assignments@ == old(self).assignments@.drop_last(),
                k <= trail.removals.len(),
                can_undo(self.domains@, trail.removals@.take(k as int)),
                undo(self.domains@, trail.removals@.take(k as int)) == undo(d0, trail.removals@),
            decreases k,
        {
            let ghost log = trail.removals@.take(k as int);
            k = k - 1;
            let (y, a) = trail.removals[k];
            proof {
                assert(log.last() == (y, a));
                assert(log.drop_last() =~= trail.removals@.take(k as int));
            }
            self.domains.restore(y, a);
        }
        proof {
            assert(trail.removals@.take(0).len() == 0);
            assert(undo(self.domains@, trail.removals@.take(0)) == self.domains@);
            assert(self.domains@ == undo(d0, f.log));
        }
        self.domains.insert(x, trail.dom);
        proof {
            let mp = old(self).model().popped();
            assert(self.domains@ == undo(d0, f.log).update(x.0 as int, f.saved));
            assert forall|k: int| 0 <= k < mp.frames.len() implies self.model().frames[k] == mp.frames[k] by {
                assert(self.trails[k] == old(self).trails[k]);
                assert(self.assignments[k] == old(self).assignments[k]);
            }
            assert(self.model().frames =~= mp.frames);
            assert(self.model() =~= mp);
        }
        (x, i)
    }

    /// Takes the last assignment, which is one of `x`, back and unlinks the
    /// slot that it had given `x`.
    pub fn unassign(&mut self, x: Variable)
        requires
            old(self).steady(),
            old(self).model().depth() > 0,
            old(self).model().frames.last().x == x,
            x.0 < old(self).domains().len(),
            can_undo(old(self).domains(), old(self).model().frames.last().log),
            old(self).model().frames.last().saved.order.contains(old(self).model().frames.last().slot),
        ensures
            final(self).steady(),
            final(self).same_setting(old(self)),
            final(self).counters() == old(self).counters(),
            final(self).model() == old(self).model().popped().removed(
                x,
                old(self).model().frames.last().slot,
            ),
            final(self).model().depth() == old(self).model().depth() - 1,
    {
        let ghost f = self.model().frames.last();
        let ghost d0 = self.domains@;
        let (y, i) = self.undo_frame();
        proof {
            assert(self.domains@ == undo(d0, f.log).update(x.0 as int, f.saved));
            assert(undo(d0, f.log).len() == d0.len()) by {
                lemma_undo_len(d0, f.log);
            }
            assert(self.domains@[x.0 as int] == f.saved);
        }
        self.remove(x, i);
    }

    /// Undoes the removals of the root log, the last one first, and empties
    /// the log.
    fn restore_root(&mut self)
        requires
            old(self).steady(),
            old(self).trails.len() == 0,
            can_undo(old(self).domains@, old(self).root@),
        ensures
            final(self).steady(),
            final(self).same_setting(old(self)),
            final(self).stats == old(self).stats,
            final(self).trails.len() == 0,
            final(self).root@.len() == 0,
            final(self).domains@ == undo(old(self).domains@, old(self).root@),
    {
        let ghost d0 = self.domains@;
        let ghost log0 = self.root@;
        proof {
            assert(log0.take(log0.len() as int) =~= log0);
        }
        let mut k: usize = self.root.len();
        while k > 0
            invariant
                self.steady(),
                self.same_setting(old(self)),
                self.stats == old(self).stats,
                self.trails.len() == 0,
                self.root@ == log0,
                self.domains@.len() == d0.len(),
                k <= log0.len(),
                can_undo(self.domains@, log0.take(k as int)),
                undo(self.domains@, log0.take(k as int)) == undo(d0, log0),
            decreases k,
        {
            let ghost log = log0.take(k as int);
            k = k - 1;
            let (y, a) = self.root[k];
            proof {
                assert(log.last() == (y, a));
                assert(log.drop_last() =~= log0.take(k as int));
            }
            self.domains.restore(y, a);
        }
        proof {
            assert(log0.take(0).len() == 0);
        }
        self.root.clear();
    }
}

/// `a + b`, or the largest `u32` where that is less.
pub open spec fn capped(a: int, b: int) -> u32 {
    if a + b <= u32::MAX {
        (a + b) as u32
    } else {
        u32::MAX
    }
}

impl<'p, P: Problem> BTSolver<'p, P> {
    /// Adds `checks` to the number of consistency checks.
    fn count_checks(&mut self, checks: u32)
        ensures
            final(self).problem == old(self).problem,
            final(self).domains == old(self).domains,
            final(self).neighbors == old(self).neighbors,
            final(self).variables == old(self).variables,
            final(self).place == old(self).place,
            final(self).assignments == old(self).assignments,
            final(self).config == old(self).config,
            final(self).trails == old(self).trails,
            final(self).root == old(self).root,
            final(self).stats.is_some() == old(self).stats.is_some(),
            final(self).stats.is_some() ==> final(self).stats.unwrap().solutions == old(self).stats.unwrap().solutions,
            final(self).stats == (match old(self).stats {
                Some(st) => Some(BTStats { ccks: capped(st.ccks as int, checks as int), ..st }),
                None => None,
            }),
    {
        match &mut self.stats {
            Some(st) => {
                st.ccks = saturating(st.ccks, checks);
            },
            None => {},
        }
    }

    /// Counts one assignment that arc consistency refused.
    fn count_backtrack(&mut self)
        ensures
            final(self).problem == old(self).problem,
            final(self).domains == old(self).domains,
            final(self).neighbors == old(self).neighbors,
            final(self).variables == old(self).variables,
            final(self).place == old(self).place,
            final(self).assignments == old(self).assignments,
            final(self).config == old(self).config,
            final(self).trails == old(self).trails,
            final(self).root == old(self).root,
            final(self).stats.is_some() == old(self).stats.is_some(),
            final(self).stats.is_some() ==> final(self).stats.unwrap().solutions == old(self).stats.unwrap().solutions,
            final(self).stats == (match old(self).stats {
                Some(st) => Some(BTStats { backtracks: capped(st.backtracks as int, 1), ..st }),
                None => None,
            }),
    {
        match &mut self.stats {
            Some(st) => {
                st.backtracks = saturating(st.backtracks, 1);
            },
            None => {},
        }
    }

    /// Counts one solution.
    fn count_solution(&mut self)
        ensures
            final(self).problem == old(self).problem,
            final(self).domains == old(self).domains,
            final(self).neighbors == old(self).neighbors,
            final(self).variables == old(self).variables,
            final(self).place == old(self).place,
            final(self).assignments == old(self).assignments,
            final(self).config == old(self).config,
            final(self).trails == old(self).trails,
            final(self).root == old(self).root,
            final(self).stats.is_some() == old(self).stats.is_some(),
            final(self).stats.is_some() ==> final(self).stats.unwrap().solutions == capped(
                old(self).stats.unwrap().solutions as int,
                1,
            ),
    {
        match &mut self.stats {
            Some(st) => {
                st.solutions = saturating(st.solutions, 1);
            },
            None => {},
        }
    }

    /// Makes the domains arc consistent again, starting from the arcs of
    /// `work_list`. Where `record` is set, the removals are logged in the
    /// trail of the last assignment, or in the root log where none stands.
    fn mac3(&mut self, work_list: Vec<(Variable, Variable)>, record: bool) -> (r: bool)
        requires
            old(self).steady(),
            fits(old(self).problem, old(self).domains@),
            forall|k: int|
                0 <= k < work_list@.len() ==> old(self).problem.spec_arcs().contains(#[trigger] work_list@[k]),
            forall|k: int|
                0 <= k < old(self).problem.spec_arcs().len() ==> arc_consistent(
                    old(self).problem,
                    old(self).domains@,
                    (#[trigger] old(self).problem.spec_arcs()[k]).0,
                    old(self).problem.spec_arcs()[k].1,
                ) || work_list@.contains(old(self).problem.spec_arcs()[k]),
        ensures
            final(self).steady(),
            final(self).same_setting(old(self)),
            final(self).stats.is_some() == old(self).stats.is_some(),
            final(self).stats.is_some() ==> final(self).stats.unwrap().solutions == old(self).stats.unwrap().solutions,
            final(self).trails.len() == old(self).trails.len(),
            final(self).model() == old(self).model().with_top(
                final(self).domains@,
                final(self).model().log_at(old(self).trails.len() as int),
            ),
            all_wf(final(self).domains@),
            fits(old(self).problem, final(self).domains@),
            shrinks(old(self).domains@, final(self).domains@),
            forall|f: Seq<Set<usize>>| #[trigger]
                sub_family(f, old(self).domains@) && family_closed(old(self).problem, old(self).domains@, f)
                    ==> sub_family(f, final(self).domains@),
            r ==> all_consistent(old(self).problem, final(self).domains@),
            r ==> forall|x: int|
                0 <= x < old(self).domains@.len() && old(self).domains@[x].order.len() > 0 ==> (#[trigger] final(self).domains@[x]).order.len()
                    > 0,
            !r ==> exists|x: int|
                0 <= x < old(self).domains@.len() && (#[trigger] final(self).domains@[x]).order.len() == 0 && old(
                    self,
                ).domains@[x].order.len() > 0,
            !record ==> final(self).model().log_at(old(self).trails.len() as int) == old(self).model().log_at(
                old(self).trails.len() as int,
            ),
            record && can_undo(old(self).domains@, old(self).model().log_at(old(self).trails.len() as int))
                ==> can_undo(
                final(self).domains@,
                final(self).model().log_at(old(self).trails.len() as int),
            ),
            record ==> undo(final(self).domains@, final(self).model().log_at(old(self).trails.len() as int))
                == undo(old(self).domains@, old(self).model().log_at(old(self).trails.len() as int)),
    {
        let mut log: Vec<(Variable, usize)> = Vec::new();
        let d = self.trails.len();
        if d > 0 {
            std::mem::swap(&mut self.trails[d - 1].removals, &mut log);
        } else {
            std::mem::swap(&mut self.root, &mut log);
        }
        let ghost log0 = log@;
        assert(log0 == old(self).model().log_at(d as int));
        let mut checks: u32 = 0;
        let r = propagate(
            &mut self.domains,
            self.problem,
            &self.neighbors,
            work_list,
            &mut log,
            record,
            &mut checks,
        );
        let ghost log1 = log@;
        if d > 0 {
            std::mem::swap(&mut self.trails[d - 1].removals, &mut log);
        } else {
            std::mem::swap(&mut self.root, &mut log);
        }
        self.count_checks(checks);
        proof {
            let m = old(self).model();
            let m2 = m.with_top(self.domains@, log1);
            assert(self.model().log_at(d as int) == log1);
            assert forall|k: int| 0 <= k < m2.frames.len() implies self.model().frames[k] == m2.frames[k] by {
                if k < d - 1 {
                    assert(self.trails[k] == old(self).trails[k]);
                }
            }
            assert(self.model().frames =~= m2.frames);
            assert(self.model() =~= m2);
            assert forall|k: int| 0 <= k < self.trails.len() implies (#[trigger] self.trails[k]).dom.wf() by {
                assert(old(self).trails[k].dom.wf());
            }
        }
        r
    }

    /// Takes every assignment back and undoes the root log, so that the
    /// domains are what they were when the search began.
    fn unwind(&mut self, Ghost(base): Ghost<Doms>, Ghost(lv): Ghost<Seq<Doms>>)
        requires
            old(self).steady(),
            shaped(old(self).model(), old(self).place@),
            linked(old(self).model(), base, lv),
        ensures
            final(self).steady(),
            final(self).same_setting(old(self)),
            final(self).stats == old(self).stats,
            final(self).trails.len() == 0,
            final(self).root@.len() == 0,
            final(self).domains@ == base,
    {
        let ghost mut levels = lv;
        while self.trails.len() > 0
            invariant
                self.steady(),
                self.same_setting(old(self)),
                self.stats == old(self).stats,
                shaped(self.model(), self.place@),
                linked(self.model(), base, levels),
            decreases self.trails.len(),
        {
            proof {
                lemma_popped(self.model(), self.place@, base, levels);
                let f = self.model().frames.last();
                assert(f.x == self.model().vars[self.model().depth() - 1]);
            }
            let _ = self.undo_frame();
            proof {
                levels = levels.drop_last();
            }
        }
        proof {
            assert(levels[0] == self.domains@);
            assert(can_undo(levels[0], self.model().log_at(0)));
        }
        self.restore_root();
    }
}

/// No two of the solutions are the same.
pub open spec fn once(out: Seq<Solution>) -> bool {
    forall|a: int, b: int| 0 <= a < b < out.len() ==> (#[trigger] out[a])@ != (#[trigger] out[b])@
}

/// The solutions that were handed out are the solutions that were found.
pub open spec fn handed(out: Seq<Solution>, found: Seq<Seq<Value>>) -> bool {
    &&& out.len() == found.len()
    &&& forall|e: int| 0 <= e < out.len() ==> (#[trigger] out[e])@ == found[e]
}

/// What the proof of the search keeps beside the solver: the domains of
/// every level, the solutions found, and the digits of the measure.
pub struct Notes {
    pub lv: Seq<Doms>,
    pub found: Seq<Seq<Value>>,
    pub digits: Seq<nat>,
}

impl<'p, P: Problem> BTSolver<'p, P> {
    /// The search is under way, with `base` the domains that it began with.
    pub closed spec fn running(&self, base: Doms, g: Notes, dead: bool) -> bool {
        &&& self.steady()
        &&& searching(self.problem, self.model(), self.place@, base, g.lv, g.found, dead)
        &&& digits_ok(self.model(), base, g.digits, dead)
    }

    /// The measure of what the search still has to do.
    pub closed spec fn measure(&self, base: Doms, g: Notes) -> nat {
        crate::solver::measure::weight(g.digits, radix_of(self.variables@, base), 0)
    }

    /// The number of recorded solutions is the same in `other`.
    pub closed spec fn same_count(&self, other: &Self) -> bool {
        &&& self.stats.is_some() == other.stats.is_some()
        &&& self.stats.is_some() ==> self.stats.unwrap().solutions == other.stats.unwrap().solutions
    }

    /// Takes the last assignment, which has nothing more to give, back and
    /// unlinks its slot.
    fn retreat(&mut self, x: Variable, Ghost(base): Ghost<Doms>, Ghost(g): Ghost<Notes>) -> (r: Ghost<Notes>)
        requires
            old(self).running(base, g, true),
            old(self).trails.len() > 0,
            x == old(self).variables[old(self).trails.len() - 1],
        ensures
            final(self).running(base, r@, false),
            final(self).same_setting(old(self)),
            final(self).same_count(old(self)),
            final(self).trails.len() == old(self).trails.len() - 1,
            r@.found == g.found,
            final(self).measure(base, r@) < old(self).measure(base, g),
            distinct(base) && unseen(old(self).model(), g.lv, g.found, true) ==> unseen(
                final(self).model(),
                r@.lv,
                r@.found,
                false,
            ),
    {
        let ghost p = self.problem;
        let ghost place = self.place@;
        let ghost m = self.model();
        let ghost n = self.variables@.len() as int;
        let ghost d = m.depth() - 1;
        proof {
            lemma_unassign(p, m, place, base, g.lv, g.found);
            if distinct(base) && unseen(m, g.lv, g.found, true) {
                lemma_unseen_unassign(p, m, place, base, g.lv, g.found);
            }
            lemma_popped(m, place, base, g.lv);
            assert(m.frames[d].x == m.vars[d]);
            assert(m.frames.last().saved.order.contains(m.frames.last().slot));
            lemma_digits_bounded(p, m, place, base, g.lv, g.found, true, g.digits);
        }
        self.unassign(x);
        let ghost m3 = self.model();
        let ghost f = m.frames.last();
        let ghost lv3 = g.lv.drop_last().update(d, m3.doms);
        let ghost digits = Seq::new(
            n as nat,
            |k: int|
                if k < d {
                    g.digits[k]
                } else if k == d {
                    (g.digits[d] - 1) as nat
                } else {
                    base[m.vars[k].0 as int].nodes.len()
                },
        );
        let ghost g3 = Notes { lv: lv3, found: g.found, digits };
        proof {
            let dd = m.popped().doms;
            lemma_undo_len(m.doms, f.log);
            assert(dd[x.0 as int] == f.saved);
            assert(m3.doms == dd.update(x.0 as int, dd[x.0 as int].unlink(f.slot)));
            f.saved.lemma_unlink_relink(f.slot);
            assert forall|k: int| 0 <= k < m3.depth() implies #[trigger] digits[k] == m3.frames[k].saved.order.len() by {
                assert(m3.frames[k].saved == m.frames[k].saved);
            }
            assert(digits_ok(m3, base, digits, false));
            lemma_digits_bounded(p, m3, place, base, lv3, g.found, false, digits);
            crate::solver::measure::lemma_weight_lex(g.digits, digits, radix_of(m.vars, base), d, 0);
        }
        Ghost(g3)
    }

    /// Gives `x` the value of its first linked slot `i` and makes the
    /// domains arc consistent again. Answers whether no domain was emptied.
    fn advance(&mut self, x: Variable, i: usize, Ghost(base): Ghost<Doms>, Ghost(g): Ghost<Notes>) -> (r: (
        bool,
        Ghost<Notes>,
    ))
        requires
            old(self).running(base, g, false),
            old(self).trails.len() < old(self).variables.len(),
            x == old(self).variables[old(self).trails.len() as int],
            old(self).domains@[x.0 as int].order.len() > 0,
            i == old(self).domains@[x.0 as int].order[0],
        ensures
            final(self).running(base, r.1@, !r.0),
            final(self).same_setting(old(self)),
            final(self).same_count(old(self)),
            final(self).trails.len() == old(self).trails.len() + 1,
            r.1@.found == g.found,
            final(self).measure(base, r.1@) <= old(self).measure(base, g),
            r.0 && final(self).trails.len() < final(self).variables.len() ==> final(self).measure(base, r.1@)
                < old(self).measure(base, g),
            unseen(old(self).model(), g.lv, g.found, false) ==> unseen(
                final(self).model(),
                r.1@.lv,
                r.1@.found,
                !r.0,
            ),
    {
        let ghost p = self.problem;
        let ghost place = self.place@;
        let ghost m = self.model();
        let ghost n = self.variables@.len() as int;
        let ghost d = m.depth();
        proof {
            assert(m.doms[m.vars[d].0 as int].order[0] == i);
            crate::solver::model::lemma_assign(p, m, place, base, g.lv, g.found, i);
            lemma_digits_bounded(p, m, place, base, g.lv, g.found, false, g.digits);
            assert(m.vars[d].0 < m.vars.len());
        }
        self.assign(x, i);
        let work_list = copy_arcs(&self.neighbors[x.0]);
        let ghost d1 = self.domains@;
        proof {
            let m1 = self.model();
            assert forall|k: int| 0 <= k < work_list@.len() implies p.spec_arcs().contains(#[trigger] work_list@[k]) by {
                assert(p.spec_arcs().contains(self.neighbors@[x.0 as int]@[k]));
            }
            assert forall|k: int| 0 <= k < p.spec_arcs().len() implies arc_consistent(
                p,
                d1,
                (#[trigger] p.spec_arcs()[k]).0,
                p.spec_arcs()[k].1,
            ) || work_list@.contains(p.spec_arcs()[k]) by {
                if p.spec_arcs()[k].1 == x {
                    assert(self.neighbors@[p.spec_arcs()[k].1.0 as int]@.contains(p.spec_arcs()[k]));
                }
            }
            assert(undo(d1, Seq::empty()) == d1);
            assert(can_undo(d1, Seq::empty()));
            assert(m1.log_at(m1.depth()) =~= Seq::empty());
        }
        let ok = self.mac3(work_list, true);
        let ghost d2 = self.domains@;
        let ghost log = self.model().log_at(d + 1);
        let ghost m2 = self.model();
        let ghost lv2 = g.lv.push(d2);
        proof {
            assert(m2 == m.assign(x, i).with_top(d2, log));
            assert(crate::solver::model::propagated(p, d1, d2, log));
            if unseen(m, g.lv, g.found, false) {
                lemma_unseen_descend(p, m, place, base, g.lv, g.found, i, d2, log, !ok);
            }
        }
        if ok {
            let ghost digits = if d + 1 < n {
                g.digits.update(d + 1, m2.doms[m2.vars[d + 1].0 as int].order.len())
            } else {
                g.digits
            };
            proof {
                lemma_descend(p, m, place, base, g.lv, g.found, i, d2, log);
                assert forall|k: int| 0 <= k < m2.depth() implies #[trigger] digits[k] == m2.frames[k].saved.order.len() by {
                    if k < d {
                        assert(m2.frames[k].saved == m.frames[k].saved);
                    }
                }
                assert(digits_ok(m2, base, digits, false));
                lemma_digits_bounded(p, m2, place, base, lv2, g.found, false, digits);
                if d + 1 < n {
                    let z = m2.vars[d + 1].0 as int;
                    assert(crate::solver::model::level_ok(p, m2, base, lv2, g.found, d + 1));
                    assert(lv2[d + 1] == d2);
                    assert(crate::solver::model::shrinks_at(base[m2.vars[d + 1].0 as int], d2[z]));
                    assert(d2[z].wf());
                    d2[z].lemma_order_bound();
                    assert(g.digits[d + 1] == base[m.vars[d + 1].0 as int].nodes.len());
                    crate::solver::measure::lemma_weight_lex(g.digits, digits, radix_of(m.vars, base), d + 1, 0);
                }
            }
            (true, Ghost(Notes { lv: lv2, found: g.found, digits }))
        } else {
            let ghost digits = Seq::new(n as nat, |k: int| if k <= d { g.digits[k] } else { 0nat });
            proof {
                lemma_refused(p, m, place, base, g.lv, g.found, i, d2, log);
                assert forall|k: int| 0 <= k < m2.depth() implies #[trigger] digits[k] == m2.frames[k].saved.order.len() by {
                    if k < d {
                        assert(m2.frames[k].saved == m.frames[k].saved);
                    }
                }
                assert(digits_ok(m2, base, digits, true));
                crate::solver::measure::lemma_weight_le(g.digits, digits, radix_of(m.vars, base), 0);
            }
            (false, Ghost(Notes { lv: lv2, found: g.found, digits }))
        }
    }

    /// Appends the values of the variables, all of which are assigned, to
    /// `out` as a solution.
    fn emit(&mut self, out: &mut Vec<Solution>, Ghost(base): Ghost<Doms>, Ghost(g): Ghost<Notes>) -> (r: Ghost<
        Notes,
    >)
        requires
            old(self).running(base, g, false),
            old(self).trails.len() == old(self).variables.len(),
            handed(old(out)@, g.found),
        ensures
            final(self).steady(),
            final(self).same_setting(old(self)),
            final(self).trails.len() == old(self).trails.len(),
            final(self).stats.is_some() == old(self).stats.is_some(),
            final(self).stats.is_some() ==> final(self).stats.unwrap().solutions == capped(
                old(self).stats.unwrap().solutions as int,
                1,
            ),
            shaped(final(self).model(), final(self).place@),
            linked(final(self).model(), base, r@.lv),
            handed(final(out)@, r@.found),
            r@.found.len() == g.found.len() + 1,
            forall|e: int| 0 <= e < r@.found.len() ==> is_solution(old(self).problem, #[trigger] r@.found[e]),
            final(self).trails.len() > 0 ==> final(self).running(base, r@, true),
            final(self).trails.len() == 0 ==> forall|s: Seq<Value>| #[trigger]
                is_solution(old(self).problem, s) ==> r@.found.contains(s),
            final(self).measure(base, r@) == old(self).measure(base, g),
            unseen(old(self).model(), g.lv, g.found, false) ==> unseen(
                final(self).model(),
                r@.lv,
                r@.found,
                true,
            ),
    {
        let ghost p = self.problem;
        let ghost place = self.place@;
        let ghost m = self.model();
        let ghost n = self.variables@.len() as int;
        proof {
            assert(g.lv[m.depth()] == m.doms);
            assert(crate::solver::model::level_ok(p, m, base, g.lv, g.found, m.depth()));
            crate::solver::model::lemma_all_single(m, place, m.doms, n);
            assert forall|x: int| 0 <= x < self.domains@.len() implies (#[trigger] self.domains@[x]).order.len() == 1 by {
                assert(self.domains@[x].order == seq![1usize]);
            }
        }
        let solution = self.domains.assignment().unwrap();
        let ghost found = g.found.push(solution@);
        proof {
            lemma_emit(p, m, place, base, g.lv, g.found, solution@);
            if unseen(m, g.lv, g.found, false) {
                lemma_unseen_emit(p, m, place, base, g.lv, g.found, solution@);
            }
        }
        out.push(solution);
        self.count_solution();
        proof {
            assert(self.model() == m);
            assert(digits_ok(m, base, g.digits, true));
        }
        Ghost(Notes { lv: g.lv, found, digits: g.digits })
    }

    /// The variable of this level has no slot left: the level is given up.
    fn give_up(&self, Ghost(base): Ghost<Doms>, Ghost(g): Ghost<Notes>) -> (r: Ghost<Notes>)
        requires
            self.running(base, g, false),
            self.trails.len() < self.variables.len(),
            self.domains@[self.variables[self.trails.len() as int].0 as int].order.len() == 0,
        ensures
            shaped(self.model(), self.place@),
            linked(self.model(), base, r@.lv),
            r@.found == g.found,
            self.trails.len() > 0 ==> self.running(base, r@, true),
            self.trails.len() == 0 ==> forall|s: Seq<Value>| #[trigger]
                is_solution(self.problem, s) ==> r@.found.contains(s),
            self.measure(base, r@) <= self.measure(base, g),
            unseen(self.model(), g.lv, g.found, false) ==> unseen(self.model(), r@.lv, r@.found, true),
    {
        let ghost m = self.model();
        let ghost n = self.variables@.len() as int;
        let ghost d = m.depth();
        let ghost digits = Seq::new(n as nat, |k: int| if k < d { g.digits[k] } else { 0nat });
        proof {
            lemma_exhausted(self.problem, m, self.place@, base, g.lv, g.found);
            crate::solver::measure::lemma_weight_le(g.digits, digits, radix_of(m.vars, base), 0);
        }
        Ghost(Notes { lv: g.lv, found: g.found, digits })
    }

    /// The search. It takes the variables in their order. At each level it
    /// gives the variable the value of its first linked slot and makes the
    /// domains arc consistent again; where that empties a domain, or when the
    /// levels below are done with, the assignment is taken back and the slot
    /// unlinked. Every full assignment is a solution and is appended to
    /// `out`.
    ///
    /// Every solution that it appends is a solution of the problem. Where it
    /// does not stop at the first, it appends every solution of the problem.
    /// At the end the domains are what they were at the start, link by link.
    pub fn solve_inner(&mut self, out: &mut Vec<Solution>)
        requires
            old(self).inv(),
            all_consistent(old(self).problem(), old(self).domains()),
            old(out)@.len() == 0,
        ensures
            final(self).inv(),
            final(self).same_setting(old(self)),
            final(self).domains() == old(self).domains(),
            final(self).counters().is_some() == old(self).counters().is_some(),
            final(self).counters().is_some() ==> final(self).counters().unwrap().solutions == capped(
                old(self).counters().unwrap().solutions as int,
                final(out)@.len() as int,
            ),
            forall|e: int|
                0 <= e < final(out)@.len() ==> is_solution(old(self).problem(), (#[trigger] final(out)@[e])@),
            !old(self).config().stop_at_first ==> forall|s: Seq<Value>| #[trigger]
                is_solution(old(self).problem(), s) ==> exists|e: int|
                    0 <= e < final(out)@.len() && (#[trigger] final(out)@[e])@ == s,
            old(self).config().stop_at_first ==> final(out)@.len() <= 1,
            final(out)@.len() == 0 ==> forall|s: Seq<Value>| !#[trigger] is_solution(old(self).problem(), s),
            distinct(old(self).domains()) ==> once(final(out)@),
    {
        let n = self.domains.vars_count();
        let ghost p = self.problem;
        let ghost base = self.domains@;
        let ghost mut g = Notes {
            lv: seq![base],
            found: Seq::empty(),
            digits: Seq::new(
                n as nat,
                |k: int|
                    if k == 0 {
                        base[self.variables@[0].0 as int].order.len()
                    } else {
                        base[self.variables@[k].0 as int].nodes.len()
                    },
            ),
        };
        let mut backtrack = false;
        let mut depth: usize = 0;
        proof {
            let m = self.model();
            assert(m.frames.len() == 0);
            assert(undo(base, m.root) == base);
            assert(can_undo(base, m.root));
            assert(g.lv[0] == base);
            assert forall|j: int| 0 <= j < m.vars.len() implies crate::solver::model::shrinks_at(
                base[(#[trigger] m.vars[j]).0 as int],
                base[m.vars[j].0 as int],
            ) by {}
            assert(crate::solver::model::level_ok(p, m, base, g.lv, g.found, 0)) by {
                assert(crate::solver::model::consistent_but(p, m, base, 0));
                assert(crate::solver::model::owed(p, m, base, g.found, 0));
            }
            assert(searching(p, m, self.place@, base, g.lv, g.found, false));
        }
        loop
            invariant
                self.running(base, g, backtrack),
                self.same_setting(old(self)),
                p == self.problem,
                n == self.variables.len(),
                base == old(self).domains@,
                fits(p, base),
                valued(p, base),
                arranged(self.variables@, self.place@),
                forall|s: Seq<Value>| #[trigger] is_solution(p, s) ==> within(base, s),
                depth + (if backtrack { 1int } else { 0int }) == self.trails.len(),
                depth <= n,
                handed(out@, g.found),
                distinct(base) ==> unseen(self.model(), g.lv, g.found, backtrack),
                self.stats.is_some() == old(self).stats.is_some(),
                self.stats.is_some() ==> self.stats.unwrap().solutions == capped(
                    old(self).stats.unwrap().solutions as int,
                    g.found.len() as int,
                ),
                self.config.stop_at_first ==> g.found.len() == 0,
            decreases self.measure(base, g), (if backtrack { 0int } else { 1int }), n - depth,
        {
            if depth == n {
                let noted = self.emit(out, Ghost(base), Ghost(g));
                proof {
                    g = noted@;
                }
                if self.config.stop_at_first || depth == 0 {
                    self.unwind(Ghost(base), Ghost(g.lv));
                    proof {
                        assert forall|s: Seq<Value>|
                            !self.config.stop_at_first && #[trigger] is_solution(p, s) implies exists|e: int|
                            0 <= e < out@.len() && (#[trigger] out@[e])@ == s by {
                            assert(g.found.contains(s));
                            let e = g.found.index_of(s);
                            assert(out@[e]@ == s);
                        }
                    }
                    return ;
                }
                backtrack = true;
                depth = depth - 1;
            }
            let x = self.variables[depth];
            if backtrack {
                let noted = self.retreat(x, Ghost(base), Ghost(g));
                proof {
                    g = noted@;
                }
                backtrack = false;
            } else {
                match self.domains.first(x) {
                    Some(i) => {
                        let (ok, noted) = self.advance(x, i, Ghost(base), Ghost(g));
                        proof {
                            g = noted@;
                        }
                        if ok {
                            depth = depth + 1;
                        } else {
                            let ghost before = self.model();
                            self.count_backtrack();
                            proof {
                                assert(self.model() == before);
                            }
                            let noted = self.retreat(x, Ghost(base), Ghost(g));
                            proof {
                                g = noted@;
                            }
                        }
                    },
                    None => {
                        let noted = self.give_up(Ghost(base), Ghost(g));
                        proof {
                            g = noted@;
                        }
                        if depth == 0 {
                            self.unwind(Ghost(base), Ghost(g.lv));
                            proof {
                                assert forall|s: Seq<Value>| #[trigger] is_solution(p, s) implies exists|e: int|
                                    0 <= e < out@.len() && (#[trigger] out@[e])@ == s by {
                                    assert(g.found.contains(s));
                                    let e = g.found.index_of(s);
                                    assert(out@[e]@ == s);
                                }
                            }
                            return ;
                        }
                        backtrack = true;
                        depth = depth - 1;
                    },
                }
            }
        }
    }
}

impl<'p, P: Problem> BTSolver<'p, P> {
    /// Records `span` as the time that the first run of arc consistency
    /// took.
    fn time_ac3(&mut self, span: time::Duration)
        ensures
            final(self).problem == old(self).problem,
            final(self).domains == old(self).domains,
            final(self).neighbors == old(self).neighbors,
            final(self).variables == old(self).variables,
            final(self).place == old(self).place,
            final(self).assignments == old(self).assignments,
            final(self).config == old(self).config,
            final(self).trails == old(self).trails,
            final(self).root == old(self).root,
            final(self).same_count(old(self)),
            final(self).stats == (match old(self).stats {
                Some(st) => Some(BTStats { ac3_time: span, ..st }),
                None => None,
            }),
    {
        match &mut self.stats {
            Some(st) => {
                st.ac3_time = span;
            },
            None => {},
        }
    }

    /// Records `span` as the time that the search took.
    fn time_mac3(&mut self, span: time::Duration)
        ensures
            final(self).problem == old(self).problem,
            final(self).domains == old(self).domains,
            final(self).neighbors == old(self).neighbors,
            final(self).variables == old(self).variables,
            final(self).place == old(self).place,
            final(self).assignments == old(self).assignments,
            final(self).config == old(self).config,
            final(self).trails == old(self).trails,
            final(self).root == old(self).root,
            final(self).same_count(old(self)),
            final(self).stats == (match old(self).stats {
                Some(st) => Some(BTStats { mac3_time: span, ..st }),
                None => None,
            }),
    {
        match &mut self.stats {
            Some(st) => {
                st.mac3_time = span;
            },
            None => {},
        }
    }

    /// Sorts the variables: largest domain first, and of equal domains the
    /// variable with the lower number.
    fn sort_stack(&mut self)
        requires
            old(self).inv(),
        ensures
            final(self).inv(),
            final(self).problem == old(self).problem,
            final(self).domains == old(self).domains,
            final(self).config == old(self).config,
            final(self).stats == old(self).stats,
            ordered(final(self).sizes(), final(self).variables@, final(self).variables@.len() as int),
    {
        let n = self.domains.vars_count();
        let mut sizes: Vec<usize> = Vec::new();
        let mut x: usize = 0;
        while x < n
            invariant
                self.domains.wf(),
                n == self.domains@.len(),
                x <= n,
                sizes.len() == x,
                forall|k: int| 0 <= k < x ==> #[trigger] sizes[k] == self.domains@[k].order.len(),
            decreases n - x,
        {
            sizes.push(self.domains.live(Variable(x)));
            x = x + 1;
        }
        let place = sort_variables(&mut self.variables, &sizes, self.place);
        self.place = place;
        proof {
            assert(sizes@ =~= self.sizes());
        }
    }

    /// The number of linked slots of each variable.
    pub closed spec fn sizes(&self) -> Seq<usize> {
        Seq::new(self.domains@.len(), |k: int| self.domains@[k].order.len() as usize)
    }

    /// Makes the domains arc consistent: the first step of every search.
    /// Answers whether no domain was emptied.
    ///
    /// The domains shrink. Every choice of slots that is consistent along
    /// all arcs stays linked; where the answer is `true` the linked slots are
    /// such a choice themselves. Where the answer is `false` the problem has
    /// no solution.
    pub fn preprocess(&mut self) -> (r: bool)
        requires
            old(self).inv(),
        ensures
            final(self).inv(),
            final(self).same_setting(old(self)),
            final(self).counters().is_some() == old(self).counters().is_some(),
            final(self).counters().is_some() ==> final(self).counters().unwrap().solutions == old(
                self,
            ).counters().unwrap().solutions,
            shrinks(old(self).domains(), final(self).domains()),
            forall|f: Seq<Set<usize>>| #[trigger]
                sub_family(f, old(self).domains()) && family_closed(old(self).problem(), old(self).domains(), f)
                    ==> sub_family(f, final(self).domains()),
            r ==> all_consistent(old(self).problem(), final(self).domains()),
            !r ==> forall|s: Seq<Value>| !#[trigger] is_solution(old(self).problem(), s),
            r == has_kernel(old(self).problem(), old(self).domains()),
    {
        let ghost p = self.problem;
        let ghost d0 = self.domains@;
        let tstart = now();
        let arcs = self.problem.arcs();
        let ac = self.mac3(arcs, false);
        let tend = now();
        self.time_ac3(between(&tstart, &tend));
        let ghost d1 = self.domains@;
        proof {
            assert(self.model().log_at(0) == self.root@);
            assert(old(self).model().log_at(0) == old(self).root@);
            crate::solver::model::lemma_valued_shrinks(p, d0, d1);
            crate::consistency::ac::lemma_kernel(p, d0, d1, ac);
            assert forall|s: Seq<Value>| #[trigger] is_solution(p, s) implies within(d1, s) by {
                crate::consistency::solutions::lemma_solution_kept(p, d0, d1, s);
            }
            if !ac {
                let z = choose|z: int| 0 <= z < d0.len() && (#[trigger] d1[z]).order.len() == 0;
                assert forall|s: Seq<Value>| !#[trigger] is_solution(p, s) by {
                    if is_solution(p, s) {
                        assert(within(d1, s));
                        assert(takes(d1, z, s[z]));
                    }
                }
            }
        }
        ac
    }

    /// Makes the domains arc consistent, sorts the variables where the
    /// configuration asks for it, and searches.
    fn solve(&mut self) -> (r: Vec<Solution>)
        requires
            old(self).inv(),
        ensures
            final(self).inv(),
            final(self).problem() == old(self).problem(),
            final(self).config() == old(self).config(),
            final(self).counters().is_some() == old(self).counters().is_some(),
            final(self).counters().is_some() ==> final(self).counters().unwrap().solutions == capped(
                old(self).counters().unwrap().solutions as int,
                r@.len() as int,
            ),
            shrinks(old(self).domains(), final(self).domains()),
            forall|f: Seq<Set<usize>>| #[trigger]
                sub_family(f, old(self).domains()) && family_closed(old(self).problem(), old(self).domains(), f)
                    ==> sub_family(f, final(self).domains()),
            r@.len() > 0 ==> all_consistent(old(self).problem(), final(self).domains()),
            has_kernel(old(self).problem(), old(self).domains()) ==> all_consistent(
                old(self).problem(),
                final(self).domains(),
            ),
            forall|e: int| 0 <= e < r@.len() ==> is_solution(old(self).problem(), (#[trigger] r@[e])@),
            !old(self).config().stop_at_first ==> forall|s: Seq<Value>| #[trigger]
                is_solution(old(self).problem(), s) ==> exists|e: int|
                    0 <= e < r@.len() && (#[trigger] r@[e])@ == s,
            old(self).config().stop_at_first ==> r@.len() <= 1,
            r@.len() == 0 ==> forall|s: Seq<Value>| !#[trigger] is_solution(old(self).problem(), s),
            distinct(old(self).domains()) ==> once(r@),
    {
        let mut out: Vec<Solution> = Vec::new();
        let ghost p = self.problem();
        let ac = self.preprocess();
        proof {
            if distinct(old(self).domains()) {
                lemma_distinct_shrinks(old(self).domains(), self.domains());
            }
        }
        assert(!ac ==> forall|s: Seq<Value>| !#[trigger] is_solution(p, s));
        if self.config.sort_stack {
            self.sort_stack();
        }
        assert(self.problem() == p);
        if ac {
            let tstart = now();
            self.solve_inner(&mut out);
            let tend = now();
            self.time_mac3(between(&tstart, &tend));
        }
        out
    }

    /// Whether the problem has a solution.
    pub fn solution_exists(&mut self) -> (r: bool)
        requires
            old(self).inv(),
        ensures
            final(self).inv(),
            final(self).problem() == old(self).problem(),
            r == exists|s: Seq<Value>| #[trigger] is_solution(old(self).problem(), s),
    {
        let first = self.solve_first();
        proof {
            if first.is_some() {
                assert(is_solution(old(self).problem(), first.unwrap()@));
            }
        }
        first.is_some()
    }

    /// A solution of the problem, where it has one: the first that the
    /// search comes upon.
    pub fn solve_first(&mut self) -> (r: Option<Solution>)
        requires
            old(self).inv(),
        ensures
            final(self).inv(),
            final(self).problem() == old(self).problem(),
            r.is_some() ==> is_solution(old(self).problem(), r.unwrap()@),
            r.is_none() ==> forall|s: Seq<Value>| !#[trigger] is_solution(old(self).problem(), s),
            final(self).counters().is_some() == old(self).counters().is_some(),
            final(self).counters().is_some() ==> final(self).counters().unwrap().solutions == capped(
                old(self).counters().unwrap().solutions as int,
                if r.is_some() { 1int } else { 0int },
            ),
            shrinks(old(self).domains(), final(self).domains()),
            forall|f: Seq<Set<usize>>| #[trigger]
                sub_family(f, old(self).domains()) && family_closed(old(self).problem(), old(self).domains(), f)
                    ==> sub_family(f, final(self).domains()),
            has_kernel(old(self).problem(), old(self).domains()) ==> all_consistent(
                old(self).problem(),
                final(self).domains(),
            ),
    {
        self.config.stop_at_first = true;
        let mut found = self.solve();
        let ghost all = found@;
        let r = found.pop();
        proof {
            if r.is_some() {
                assert(r.unwrap() == all[all.len() - 1]);
            }
        }
        r
    }

    /// Every solution of the problem, in the order in which the search comes
    /// upon them.
    ///
    /// Each one is a solution, and every solution of the problem is among
    /// them; none is there twice where no domain holds a value in two
    /// slots. Afterwards the domains are what the first pass of arc
    /// consistency left of what they were before: they have shrunk, in their
    /// order, and every choice of slots that is consistent along all arcs is
    /// still linked; where the domains had such a choice, every arc is
    /// consistent, which leaves one outcome only.
    pub fn solve_all(&mut self) -> (r: Vec<Solution>)
        requires
            old(self).inv(),
        ensures
            final(self).inv(),
            final(self).problem() == old(self).problem(),
            forall|e: int| 0 <= e < r@.len() ==> is_solution(old(self).problem(), (#[trigger] r@[e])@),
            forall|s: Seq<Value>| #[trigger]
                is_solution(old(self).problem(), s) ==> exists|e: int| 0 <= e < r@.len() && (#[trigger] r@[e])@ == s,
            final(self).counters().is_some() == old(self).counters().is_some(),
            final(self).counters().is_some() ==> final(self).counters().unwrap().solutions == capped(
                old(self).counters().unwrap().solutions as int,
                r@.len() as int,
            ),
            shrinks(old(self).domains(), final(self).domains()),
            forall|f: Seq<Set<usize>>| #[trigger]
                sub_family(f, old(self).domains()) && family_closed(old(self).problem(), old(self).domains(), f)
                    ==> sub_family(f, final(self).domains()),
            r@.len() > 0 ==> all_consistent(old(self).problem(), final(self).domains()),
            has_kernel(old(self).problem(), old(self).domains()) ==> all_consistent(
                old(self).problem(),
                final(self).domains(),
            ),
            distinct(old(self).domains()) ==> once(r@),
    {
        self.config.stop_at_first = false;
        self.solve()
    }
}

/// A copy of a list of arcs.
fn copy_arcs(arcs: &Vec<(Variable, Variable)>) -> (r: Vec<(Variable, Variable)>)
    ensures
        r@ == arcs@,
{
    let mut r: Vec<(Variable, Variable)> = Vec::new();
    let mut k: usize = 0;
    while k < arcs.len()
        invariant
            k <= arcs.len(),
            r@ == arcs@.take(k as int),
        decreases arcs.len() - k,
    {
        r.push(arcs[k]);
        proof {
            assert(r@ =~= arcs@.take(k as int + 1));
        }
        k = k + 1;
    }
    proof {
        assert(arcs@.take(arcs@.len() as int) =~= arcs@);
    }
    r
}

} // verus!
