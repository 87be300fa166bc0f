use vstd::prelude::*;

use crate::assignment::Assignment;
use crate::assignment::Partial;
use crate::assignment::PartialAssign;
use crate::assignment::clause_false_under;
use crate::assignment::clause_sat;
use crate::assignment::cnf_sat;
use crate::assignment::entry_true;
use crate::assignment::lemma_clause_false_monotone;
use crate::assignment::lemma_cnf_sat_monotone;
use crate::assignment::lemma_residual_equiv;
use crate::assignment::lemma_residual_mem;
use crate::assignment::lemma_unassigned_mem;
use crate::assignment::residual_of;
use crate::assignment::unassigned_of;
use crate::cnf::Cnf;
use crate::cnf::Entry;
use crate::cnf::Header;
use crate::cnf::Var;

verus! {

// ---------------------------------------------------------------------------
// Spec vocabulary of the search.
// ---------------------------------------------------------------------------

/// A formula that is nonempty yet holds only empty clauses: branching on it
/// has no variable left to choose, the one fatal state of the search.
pub open spec fn degenerate(cs: Seq<Seq<Entry>>) -> bool {
    cs.len() > 0 && forall|i: int| 0 <= i < cs.len() ==> (#[trigger] cs[i]).len() == 0
}

/// `m` assigns every variable in `1..=n`.
pub open spec fn total_over(m: Map<int, bool>, n: int) -> bool {
    forall|k: int| 1 <= k <= n ==> m.contains_key(k)
}

/// Every variable the formula still mentions is unassigned: the shape each
/// residual subproblem keeps, since evaluation drops assigned literals.
pub open spec fn fresh_vars(cs: Seq<Seq<Entry>>, m: Map<int, bool>) -> bool {
    forall|i: int, j: int|
        0 <= i < cs.len() && 0 <= j < cs[i].len() ==> !m.contains_key(
            (#[trigger] cs[i][j]).var().id(),
        )
}

/// Every variable occurrence of a formula, clause by clause, in order.
pub open spec fn flat_vars(cs: Seq<Seq<Entry>>) -> Seq<Var>
    decreases cs.len(),
{
    if cs.len() == 0 {
        Seq::empty()
    } else {
        flat_vars(cs.drop_last()) + cs.last().map_values(|e: Entry| e.var())
    }
}

/// How often a variable occurs in a list of occurrences.
pub open spec fn occurrences(s: Seq<Var>, v: Var) -> nat
    decreases s.len(),
{
    if s.len() == 0 {
        0
    } else {
        occurrences(s.drop_last(), v) + if s.last() == v {
            1nat
        } else {
            0nat
        }
    }
}

/// Three to the power `k`: the termination measure of one subproblem with
/// `k` unassigned variables, covering the at most two smaller subproblems a
/// step pushes in its place.
pub open spec fn pow3(k: nat) -> nat
    decreases k,
{
    if k == 0 {
        1
    } else {
        3 * pow3((k - 1) as nat)
    }
}

/// How many variables of `1..=n` the assignment leaves unassigned.
pub open spec fn unassigned_count(m: Map<int, bool>, n: int) -> nat
    decreases n,
{
    if n <= 0 {
        0
    } else {
        unassigned_count(m, n - 1) + if m.contains_key(n) {
            0nat
        } else {
            1nat
        }
    }
}

/// The termination measure of the work list: each pending subproblem counts
/// for three to the power of its unassigned variables.
pub open spec fn stack_measure(items: Seq<StackItem>) -> nat
    decreases items.len(),
{
    if items.len() == 0 {
        0
    } else {
        stack_measure(items.drop_last()) + pow3(
            unassigned_count(
                items.last().assignment@,
                items.last().cnf.header.var_count as int,
            ),
        )
    }
}

proof fn lemma_pow3_pos(k: nat)
    ensures
        pow3(k) >= 1,
    decreases k,
{
    if k > 0 {
        lemma_pow3_pos((k - 1) as nat);
    }
}

proof fn lemma_unassigned_agree(m1: Map<int, bool>, m2: Map<int, bool>, n: int)
    requires
        forall|i: int| 1 <= i <= n ==> (m1.contains_key(i) <==> m2.contains_key(i)),
    ensures
        unassigned_count(m1, n) == unassigned_count(m2, n),
    decreases n,
{
    if n > 0 {
        lemma_unassigned_agree(m1, m2, n - 1);
    }
}

/// Binding one fresh in-range variable lowers the unassigned count by one.
proof fn lemma_unassigned_insert(m: Map<int, bool>, n: int, k: int, b: bool)
    requires
        1 <= k <= n,
        !m.contains_key(k),
    ensures
        unassigned_count(m.insert(k, b), n) + 1 == unassigned_count(m, n),
    decreases n,
{
    if k == n {
        lemma_unassigned_agree(m.insert(k, b), m, n - 1);
    } else {
        lemma_unassigned_insert(m, n - 1, k, b);
    }
}

/// Some variable occurrence of the formula names the identifier `x`.
pub open spec fn occurs_in(cs: Seq<Seq<Entry>>, x: int) -> bool {
    exists|i: int, j: int|
        0 <= i < cs.len() && 0 <= j < cs[i].len() && (#[trigger] cs[i][j]).var().id() == x
}

/// The identifiers a subproblem is about: already bound by its assignment,
/// or still occurring in its residual formula.
pub open spec fn scope_of(item: StackItem, x: int) -> bool {
    item.assignment@.contains_key(x) || occurs_in(item.cnf@, x)
}

/// `t` solves some pending subproblem whose scope covers the scope of
/// `item`: the shape the soundness invariant carries from each subproblem
/// back to the one it descends from.
spec fn solved_in_scope(items: Seq<StackItem>, t: Map<int, bool>, item: StackItem) -> bool {
    exists|k: int|
        0 <= k < items.len() && (#[trigger] items[k]).assignment@.submap_of(t) && cnf_sat(
            items[k].cnf@,
            t,
        ) && (forall|x: int| scope_of(item, x) ==> scope_of(items[k], x))
}

/// `t` solves some pending subproblem, extending its assignment and binding
/// no identifier outside that subproblem's scope.
pub open spec fn witness_solves(items: Seq<StackItem>, t: Map<int, bool>) -> bool {
    exists|k: int|
        0 <= k < items.len() && (#[trigger] items[k]).assignment@.submap_of(t) && cnf_sat(
            items[k].cnf@,
            t,
        ) && (forall|x: int| t.contains_key(x) ==> scope_of(items[k], x))
}

/// `t` solves some pending subproblem that carries the header `h`.
spec fn pending_solved_under(items: Seq<StackItem>, t: Map<int, bool>, h: Header) -> bool {
    exists|k: int|
        0 <= k < items.len() && (#[trigger] items[k]).assignment@.submap_of(t) && cnf_sat(
            items[k].cnf@,
            t,
        ) && items[k].cnf.header == h
}

proof fn lemma_scope_witness(orig: Seq<StackItem>, t: Map<int, bool>, item: StackItem)
    requires
        solved_in_scope(orig, t, item),
        forall|x: int| t.contains_key(x) ==> scope_of(item, x),
    ensures
        witness_solves(orig, t),
{
    let j = choose|j: int|
        0 <= j < orig.len() && (#[trigger] orig[j]).assignment@.submap_of(t) && cnf_sat(
            orig[j].cnf@,
            t,
        ) && (forall|x: int| scope_of(item, x) ==> scope_of(orig[j], x));
    assert forall|x: int| t.contains_key(x) implies scope_of(orig[j], x) by {
        assert(scope_of(item, x));
    }
    assert(orig[j].assignment@.submap_of(t) && cnf_sat(orig[j].cnf@, t) && (forall|x: int|
        t.contains_key(x) ==> scope_of(orig[j], x)));
}

proof fn lemma_scope_chain(orig: Seq<StackItem>, t: Map<int, bool>, item: StackItem, sub: StackItem)
    requires
        solved_in_scope(orig, t, item),
        forall|x: int| scope_of(sub, x) ==> scope_of(item, x),
    ensures
        solved_in_scope(orig, t, sub),
{
    let j = choose|j: int|
        0 <= j < orig.len() && (#[trigger] orig[j]).assignment@.submap_of(t) && cnf_sat(
            orig[j].cnf@,
            t,
        ) && (forall|x: int| scope_of(item, x) ==> scope_of(orig[j], x));
    assert forall|x: int| scope_of(sub, x) implies scope_of(orig[j], x) by {
        assert(scope_of(item, x));
    }
    assert(orig[j].assignment@.submap_of(t) && cnf_sat(orig[j].cnf@, t) && (forall|x: int|
        scope_of(sub, x) ==> scope_of(orig[j], x)));
}

// ---------------------------------------------------------------------------
// Small map lemmas the search proof leans on.
// ---------------------------------------------------------------------------

proof fn lemma_submap_refl(a: Map<int, bool>)
    ensures
        a.submap_of(a),
{
}

proof fn lemma_submap_key(a: Map<int, bool>, t: Map<int, bool>, k: int)
    requires
        a.submap_of(t),
        a.dom().contains(k),
    ensures
        t.dom().contains(k),
        a[k] == t[k],
{
    assert(a.dom().contains(k));
    assert(t.dom().contains(k) && a[k] == t[k]);
}

proof fn lemma_submap_trans(a: Map<int, bool>, b: Map<int, bool>, c: Map<int, bool>)
    requires
        a.submap_of(b),
        b.submap_of(c),
    ensures
        a.submap_of(c),
{
    assert forall|k: int| #[trigger] a.dom().contains(k) implies c.dom().contains(k) && a[k]
        == c[k] by {
        lemma_submap_key(a, b, k);
        lemma_submap_key(b, c, k);
    }
}

proof fn lemma_submap_insert(a: Map<int, bool>, k: int, b: bool)
    requires
        !a.contains_key(k),
    ensures
        a.submap_of(a.insert(k, b)),
{
}

proof fn lemma_insert_submap(a: Map<int, bool>, t: Map<int, bool>, k: int, b: bool)
    requires
        a.submap_of(t),
        t.contains_key(k),
        t[k] == b,
    ensures
        a.insert(k, b).submap_of(t),
{
    assert forall|x: int| #[trigger] a.insert(k, b).dom().contains(x) implies t.dom().contains(x)
        && a.insert(k, b)[x] == t[x] by {
        if x != k {
            assert(a.dom().contains(x));
            lemma_submap_key(a, t, x);
        }
    }
}

// ---------------------------------------------------------------------------
// Lemmas about the flattened variable occurrences.
// ---------------------------------------------------------------------------

proof fn lemma_flat_vars_mem(cs: Seq<Seq<Entry>>)
    ensures
        forall|v: Var|
            #[trigger] flat_vars(cs).contains(v) <==> exists|i: int, j: int|
                0 <= i < cs.len() && 0 <= j < cs[i].len() && (#[trigger] cs[i][j]).var() == v,
    decreases cs.len(),
{
    if cs.len() == 0 {
        assert forall|v: Var| #[trigger] flat_vars(cs).contains(v) implies false by {
            let j = choose|j: int| 0 <= j < flat_vars(cs).len() && flat_vars(cs)[j] == v;
        }
    } else {
        let dl = cs.drop_last();
        let last = cs.last();
        lemma_flat_vars_mem(dl);
        let f = flat_vars(cs);
        let fdl = flat_vars(dl);
        let lm = last.map_values(|e: Entry| e.var());
        assert(f == fdl + lm);
        assert forall|v: Var| #[trigger] f.contains(v) implies exists|i: int, j: int|
            0 <= i < cs.len() && 0 <= j < cs[i].len() && (#[trigger] cs[i][j]).var() == v by {
            let p = choose|p: int| 0 <= p < f.len() && f[p] == v;
            if p < fdl.len() {
                assert(fdl[p] == v);
                assert(fdl.contains(v));
                let (i, j) = choose|i: int, j: int|
                    0 <= i < dl.len() && 0 <= j < dl[i].len() && (#[trigger] dl[i][j]).var() == v;
                assert(cs[i] == dl[i]);
                assert(cs[i][j].var() == v);
            } else {
                let j = p - fdl.len();
                assert(lm[j] == v);
                assert(last[j].var() == v);
                assert(cs[cs.len() - 1] == last);
                assert(cs[cs.len() - 1][j].var() == v);
            }
        }
        assert forall|i: int, j: int|
            0 <= i < cs.len() && 0 <= j < cs[i].len() implies f.contains(
            (#[trigger] cs[i][j]).var(),
        ) by {
            let v = cs[i][j].var();
            if i < cs.len() - 1 {
                assert(dl[i] == cs[i]);
                assert(dl[i][j].var() == v);
                assert(fdl.contains(v));
                let p = choose|p: int| 0 <= p < fdl.len() && fdl[p] == v;
                assert(f[p] == v);
            } else {
                assert(last == cs[i]);
                assert(lm[j] == v);
                assert(f[fdl.len() + j] == v);
            }
        }
    }
}

proof fn lemma_flat_vars_empty(cs: Seq<Seq<Entry>>)
    ensures
        (flat_vars(cs).len() == 0) <==> (forall|i: int|
            0 <= i < cs.len() ==> (#[trigger] cs[i]).len() == 0),
    decreases cs.len(),
{
    if cs.len() == 0 {
    } else {
        let dl = cs.drop_last();
        lemma_flat_vars_empty(dl);
        assert(flat_vars(cs).len() == flat_vars(dl).len() + cs.last().len());
        assert(cs[cs.len() - 1] == cs.last());
        if flat_vars(cs).len() == 0 {
            assert forall|i: int| 0 <= i < cs.len() implies (#[trigger] cs[i]).len() == 0 by {
                if i < cs.len() - 1 {
                    assert(cs[i] == dl[i]);
                }
            }
        }
        if forall|i: int| 0 <= i < cs.len() ==> (#[trigger] cs[i]).len() == 0 {
            assert forall|i: int| 0 <= i < dl.len() implies (#[trigger] dl[i]).len() == 0 by {
                assert(dl[i] == cs[i]);
            }
        }
    }
}

// ---------------------------------------------------------------------------
// The search engine.
// ---------------------------------------------------------------------------

/// One pending subproblem: a residual formula and the assignment under which
/// it arose.
#[derive(Debug)]
pub struct StackItem {
    pub cnf: Cnf,
    pub assignment: Assignment,
}

/// The verdict of the search: a witness assignment, or that none exists.
#[derive(Debug, Clone)]
pub enum Solution {
    Satisfiable(Assignment),
    Unsatisfiable,
}

/// The search's own errors. `NoUnassignedVar` is the one fatal state:
/// branching found no variable although clauses remain.
#[derive(Debug, Clone, PartialEq, Eq, Structural)]
pub enum SolverError {
    EmptyStack,
    NoUnassignedVar,
}

/// The search engine: a work list of pending subproblems, explored
/// depth-first, most recently pushed first.
#[derive(Debug)]
pub struct Solver {
    stack: Vec<StackItem>,
}

impl Solver {
    /// The pending subproblems, bottom of the work list first.
    pub closed spec fn items(self) -> Seq<StackItem> {
        self.stack@
    }

    /// Seed the work list with the whole formula and the empty assignment.
    pub fn new(cnf: Cnf) -> (r: Self)
        ensures
            r.items().len() == 1,
            r.items()[0].cnf == cnf,
            r.items()[0].assignment@ == Map::<int, bool>::empty(),
    {
        let assignment = Assignment::new();
        let item = StackItem { cnf, assignment };
        let mut stack: Vec<StackItem> = Vec::new();
        stack.push(item);
        Solver { stack }
    }

    /// The first literal of a clause that has shrunk to exactly one literal,
    /// if any clause has.
    pub fn find_unit(cnf: &Cnf) -> (r: Option<Entry>)
        ensures
            match r {
                Some(e) => exists|i: int|
                    0 <= i < cnf@.len() && (#[trigger] cnf@[i]).len() == 1 && cnf@[i][0] == e,
                None => forall|i: int| 0 <= i < cnf@.len() ==> (#[trigger] cnf@[i]).len() != 1,
            },
    {
        let n = cnf.clauses.len();
        let mut i: usize = 0;
        while i < n
            invariant
                0 <= i <= n,
                n == cnf.clauses@.len(),
                forall|j: int| 0 <= j < i ==> (#[trigger] cnf@[j]).len() != 1,
            decreases n - i,
        {
            if cnf.clauses[i].entries.len() == 1 {
                let e = cnf.clauses[i].entries[0];
                proof {
                    assert(cnf@[i as int].len() == 1 && cnf@[i as int][0] == e);
                }
                return Some(e);
            }
            i += 1;
        }
        None
    }

    /// Every variable occurrence of the formula, in clause order.
    fn collect_vars(cnf: &Cnf) -> (r: Vec<Var>)
        ensures
            r@ == flat_vars(cnf@),
    {
        let mut vars: Vec<Var> = Vec::new();
        let n = cnf.clauses.len();
        let mut i: usize = 0;
        while i < n
            invariant
                0 <= i <= n,
                n == cnf.clauses@.len(),
                vars@ == flat_vars(cnf@.take(i as int)),
            decreases n - i,
        {
            let m = cnf.clauses[i].entries.len();
            let mut j: usize = 0;
            while j < m
                invariant
                    0 <= i < n,
                    0 <= j <= m,
                    n == cnf.clauses@.len(),
                    m == cnf.clauses@[i as int]@.len(),
                    vars@ == flat_vars(cnf@.take(i as int)) + cnf@[i as int].take(
                        j as int,
                    ).map_values(|e: Entry| e.var()),
                decreases m - j,
            {
                vars.push(cnf.clauses[i].entries[j].var());
                proof {
                    assert(cnf@[i as int].take(j + 1).map_values(|e: Entry| e.var()) =~= cnf@[
                        i as int].take(j as int).map_values(|e: Entry| e.var()).push(
                        cnf@[i as int][j as int].var(),
                    ));
                    assert(vars@ =~= flat_vars(cnf@.take(i as int)) + cnf@[i as int].take(
                        j + 1,
                    ).map_values(|e: Entry| e.var()));
                }
                j += 1;
            }
            proof {
                assert(cnf@.take(i + 1).drop_last() =~= cnf@.take(i as int));
                assert(cnf@.take(i + 1).last() == cnf@[i as int]);
                assert(cnf@[i as int].take(m as int) =~= cnf@[i as int]);
                assert(vars@ =~= flat_vars(cnf@.take(i + 1)));
            }
            i += 1;
        }
        proof {
            assert(cnf@.take(n as int) =~= cnf@);
        }
        vars
    }

    /// How often `v` occurs in the collected occurrence list.
    fn count_occurrences(vars: &Vec<Var>, v: Var) -> (c: usize)
        ensures
            c == occurrences(vars@, v),
    {
        let n = vars.len();
        let mut c: usize = 0;
        let mut j: usize = 0;
        while j < n
            invariant
                0 <= j <= n,
                n == vars@.len(),
                c <= j,
                c == occurrences(vars@.take(j as int), v),
            decreases n - j,
        {
            proof {
                assert(vars@.take(j + 1).drop_last() =~= vars@.take(j as int));
                assert(vars@.take(j + 1).last() == vars@[j as int]);
            }
            if vars[j] == v {
                c += 1;
            }
            j += 1;
        }
        proof {
            assert(vars@.take(n as int) =~= vars@);
        }
        c
    }

    /// The branching heuristic: a variable that occurs in the residual
    /// formula at least as often as any other; among equally frequent
    /// variables the first occurrence in clause order wins.
    pub fn pick_var(cnf: &Cnf) -> (r: Option<Var>)
        ensures
            match r {
                Some(v) => flat_vars(cnf@).contains(v) && forall|w: Var|
                    #[trigger] flat_vars(cnf@).contains(w) ==> occurrences(flat_vars(cnf@), w)
                        <= occurrences(flat_vars(cnf@), v),
                None => flat_vars(cnf@).len() == 0,
            },
    {
        let vars = Self::collect_vars(cnf);
        let n = vars.len();
        if n == 0 {
            return None;
        }
        let mut best = vars[0];
        let mut best_c = Self::count_occurrences(&vars, best);
        proof {
            assert(vars@[0] == best);
            assert(vars@.contains(best));
        }
        let mut i: usize = 1;
        while i < n
            invariant
                1 <= i <= n,
                n == vars@.len(),
                vars@ == flat_vars(cnf@),
                best_c == occurrences(vars@, best),
                vars@.contains(best),
                forall|j: int|
                    0 <= j < i ==> occurrences(vars@, #[trigger] vars@[j]) <= best_c,
            decreases n - i,
        {
            let c = Self::count_occurrences(&vars, vars[i]);
            if c > best_c {
                best = vars[i];
                best_c = c;
                proof {
                    assert(vars@.contains(best));
                }
            }
            i += 1;
        }
        proof {
            assert forall|w: Var| #[trigger] vars@.contains(w) implies occurrences(vars@, w)
                <= best_c by {
                let j = choose|j: int| 0 <= j < vars@.len() && vars@[j] == w;
            }
        }
        Some(best)
    }

    /// Extend the assignment with one binding and evaluate. A definite
    /// `true` hands the witness back; a definite `false` abandons the
    /// branch; a residual subproblem is pushed onto the work list.
    pub fn extend_push(
        &mut self,
        cnf: &Cnf,
        assignment: &Assignment,
        var: Var,
        b: bool,
    ) -> (r: Option<Assignment>)
        ensures
            ({
                let m2 = assignment@.insert(var.id(), b);
                match r {
                    Some(a) => {
                        &&& final(self).items() == old(self).items()
                        &&& a@ == m2
                        &&& cnf_sat(cnf@, m2)
                    },
                    None => {
                        &&& !cnf_sat(cnf@, m2)
                        &&& if exists|i: int|
                            0 <= i < cnf@.len() && clause_false_under(#[trigger] cnf@[i], m2) {
                            // some clause is definitely false: the branch is
                            // abandoned, the work list untouched
                            &&& final(self).items() == old(self).items()
                            &&& forall|t: Map<int, bool>|
                                m2.submap_of(t) ==> !cnf_sat(cnf@, t)
                        } else {
                            // indefinite: exactly the residual subproblem is
                            // pushed, paired with the extended assignment
                            &&& final(self).items().len() == old(self).items().len() + 1
                            &&& final(self).items().drop_last() == old(self).items()
                            &&& final(self).items().last().assignment@ == m2
                            &&& final(self).items().last().cnf.header == cnf.header
                            &&& final(self).items().last().cnf@ == residual_of(cnf@, m2)
                            &&& final(self).items().last().cnf@.len() > 0
                            &&& forall|i: int|
                                0 <= i < final(self).items().last().cnf@.len() ==> (
                                #[trigger] final(self).items().last().cnf@[i]).len() > 0
                            &&& (cnf.wf() ==> final(self).items().last().cnf.wf())
                            &&& fresh_vars(final(self).items().last().cnf@, m2)
                            &&& forall|x: int|
                                occurs_in(final(self).items().last().cnf@, x) ==> occurs_in(
                                    cnf@,
                                    x,
                                )
                            &&& forall|t: Map<int, bool>|
                                m2.submap_of(t) ==> (cnf_sat(cnf@, t) <==> cnf_sat(
                                    final(self).items().last().cnf@,
                                    t,
                                ))
                        }
                    },
                }
            }),
    {
        let assignment2 = assignment.extend(var, b);
        let ghost m2 = assignment2@;
        match cnf.partial_assign(&assignment2) {
            Partial::Definite(true) => Some(assignment2),
            Partial::Definite(false) => {
                proof {
                    let i = choose|i: int|
                        0 <= i < cnf@.len() && clause_false_under(#[trigger] cnf@[i], m2);
                    assert(!clause_sat(cnf@[i], m2));
                    assert(!cnf_sat(cnf@, m2));
                    assert forall|t: Map<int, bool>| m2.submap_of(t) implies !cnf_sat(
                        cnf@,
                        t,
                    ) by {
                        lemma_clause_false_monotone(cnf@[i], m2, t);
                    }
                }
                None
            },
            Partial::Indefinite(res) => {
                proof {
                    let rs = res@;
                    lemma_residual_mem(cnf@, m2);
                    assert forall|i: int| 0 <= i < rs.len() implies (#[trigger] rs[i]).len()
                        > 0 by {
                        let i0 = choose|i0: int|
                            0 <= i0 < cnf@.len() && !clause_sat(#[trigger] cnf@[i0], m2) && rs[i]
                                == unassigned_of(cnf@[i0], m2);
                        assert(!clause_false_under(cnf@[i0], m2));
                    }
                    assert forall|i: int, j: int|
                        0 <= i < rs.len() && 0 <= j < rs[i].len() implies {
                        &&& !m2.contains_key((#[trigger] rs[i][j]).var().id())
                        &&& (cnf.wf() ==> 1 <= rs[i][j].var().id() <= cnf.header.var_count)
                    } by {
                        let i0 = choose|i0: int|
                            0 <= i0 < cnf@.len() && !clause_sat(#[trigger] cnf@[i0], m2) && rs[i]
                                == unassigned_of(cnf@[i0], m2);
                        let e = rs[i][j];
                        assert(unassigned_of(cnf@[i0], m2).contains(e));
                        lemma_unassigned_mem(cnf@[i0], m2);
                        assert(cnf@[i0].contains(e));
                        let j0 = choose|j0: int| 0 <= j0 < cnf@[i0].len() && cnf@[i0][j0] == e;
                        assert(cnf.wf() ==> 1 <= cnf@[i0][j0].var().id() <= cnf.header.var_count);
                    }
                    assert forall|t: Map<int, bool>| m2.submap_of(t) implies (cnf_sat(cnf@, t)
                        <==> cnf_sat(rs, t)) by {
                        lemma_residual_equiv(cnf@, m2, t);
                    }
                    // the residual is nonempty, so the assignment does not
                    // yet satisfy the formula
                    let i1 = choose|i1: int|
                        0 <= i1 < cnf@.len() && !clause_sat(#[trigger] cnf@[i1], m2) && rs[0]
                            == unassigned_of(cnf@[i1], m2);
                    assert(!cnf_sat(cnf@, m2));
                    // every variable of the residual occurs in the formula
                    assert forall|x: int| occurs_in(rs, x) implies occurs_in(cnf@, x) by {
                        let (i, j) = choose|i: int, j: int|
                            0 <= i < rs.len() && 0 <= j < rs[i].len() && (#[trigger] rs[i][j]).var().id()
                                == x;
                        let i0 = choose|i0: int|
                            0 <= i0 < cnf@.len() && !clause_sat(#[trigger] cnf@[i0], m2) && rs[i]
                                == unassigned_of(cnf@[i0], m2);
                        let e = rs[i][j];
                        lemma_unassigned_mem(cnf@[i0], m2);
                        assert(unassigned_of(cnf@[i0], m2).contains(e));
                        assert(cnf@[i0].contains(e));
                        let j0 = choose|j0: int| 0 <= j0 < cnf@[i0].len() && cnf@[i0][j0] == e;
                        assert(cnf@[i0][j0].var().id() == x);
                    }
                }
                let item = StackItem { cnf: res, assignment: assignment2 };
                self.stack.push(item);
                proof {
                    assert(self.items().drop_last() =~= old(self).items());
                }
                None
            },
        }
    }


    /// Run the search to completion. From a well-formed work list it reports
    /// `Satisfiable` with an assignment solving some pending subproblem,
    /// `Unsatisfiable` when no extension of any pending assignment can solve
    /// its subproblem, and the fatal `NoUnassignedVar` only when a pending
    /// formula is degenerate (nonempty, all clauses empty); a degenerate
    /// formula on top of the work list is examined first and always fails so.
    pub fn solve(&mut self) -> (r: Result<Solution, SolverError>)
        requires
            forall|k: int|
                0 <= k < old(self).items().len() ==> (#[trigger] old(self).items()[k]).cnf.wf(),
            forall|k: int|
                0 <= k < old(self).items().len() ==> fresh_vars(
                    (#[trigger] old(self).items()[k]).cnf@,
                    old(self).items()[k].assignment@,
                ),
        ensures
            ({
                let orig = old(self).items();
                match r {
                    Ok(Solution::Satisfiable(a)) => witness_solves(orig, a@),
                    Ok(Solution::Unsatisfiable) => forall|k: int, t: Map<int, bool>|
                        0 <= k < orig.len() && orig[k].assignment@.submap_of(t) ==> !(
                        #[trigger] cnf_sat(orig[k].cnf@, t)),
                    Err(e) => (e matches SolverError::NoUnassignedVar) && exists|k: int|
                        0 <= k < orig.len() && degenerate((#[trigger] orig[k]).cnf@),
                }
            }),
            old(self).items().len() > 0 && degenerate(old(self).items().last().cnf@) ==> (
            r matches Err(SolverError::NoUnassignedVar)),
    {
        let ghost orig = old(self).items();
        proof {
            assert forall|k: int, t: Map<int, bool>|
                0 <= k < self.items().len() && self.items()[k].assignment@.submap_of(t) && #[trigger] cnf_sat(
                    self.items()[k].cnf@,
                    t,
                ) implies solved_in_scope(orig, t, self.items()[k]) by {
                assert(orig[k].assignment@.submap_of(t) && cnf_sat(orig[k].cnf@, t) && (forall|
                    x: int,
                | scope_of(self.items()[k], x) ==> scope_of(orig[k], x)));
            }
            assert forall|j: int, t: Map<int, bool>|
                0 <= j < orig.len() && orig[j].assignment@.submap_of(t) && #[trigger] cnf_sat(
                    orig[j].cnf@,
                    t,
                ) && total_over(t, orig[j].cnf.header.var_count as int) implies pending_solved_under(
                self.items(),
                t,
                orig[j].cnf.header,
            ) by {
                assert(self.items()[j].assignment@.submap_of(t) && cnf_sat(self.items()[j].cnf@, t)
                    && self.items()[j].cnf.header == orig[j].cnf.header);
            }
        }
        while self.stack.len() != 0
            invariant
                orig == old(self).items(),
                forall|k: int| 0 <= k < orig.len() ==> (#[trigger] orig[k]).cnf.wf(),
                forall|k: int|
                    0 <= k < self.items().len() ==> (#[trigger] self.items()[k]).cnf.wf(),
                forall|k: int|
                    0 <= k < self.items().len() ==> fresh_vars(
                        (#[trigger] self.items()[k]).cnf@,
                        self.items()[k].assignment@,
                    ),
                forall|k: int, t: Map<int, bool>|
                    0 <= k < self.items().len() && self.items()[k].assignment@.submap_of(t)
                        && #[trigger] cnf_sat(self.items()[k].cnf@, t) ==> solved_in_scope(
                        orig,
                        t,
                        self.items()[k],
                    ),
                forall|j: int, t: Map<int, bool>|
                    0 <= j < orig.len() && orig[j].assignment@.submap_of(t) && #[trigger] cnf_sat(
                        orig[j].cnf@,
                        t,
                    ) && total_over(t, orig[j].cnf.header.var_count as int)
                        ==> pending_solved_under(self.items(), t, orig[j].cnf.header),
                forall|k: int|
                    0 <= k < self.items().len() && degenerate((#[trigger] self.items()[k]).cnf@)
                        ==> exists|j: int|
                        0 <= j < orig.len() && degenerate((#[trigger] orig[j]).cnf@),
                (orig.len() > 0 && degenerate(orig.last().cnf@)) ==> self.items() == orig,
            decreases stack_measure(self.items()),
        {
            let ghost pre = self.items();
            let item = self.stack.pop().unwrap();
            let ghost popped = self.items();
            proof {
                assert(popped =~= pre.drop_last());
                assert(item == pre.last());
                assert(pre[pre.len() - 1] == pre.last());
                assert(forall|k: int| 0 <= k < popped.len() ==> popped[k] == pre[k]);
            }
            let StackItem { cnf, assignment } = item;
            let ghost a = assignment@;

            // A residual with no clauses left is already satisfied.
            if cnf.clauses.len() == 0 {
                proof {
                    assert(cnf@.len() == 0);
                    assert(cnf_sat(cnf@, a));
                    lemma_submap_refl(a);
                    assert(pre[pre.len() - 1].assignment@.submap_of(a) && cnf_sat(
                        pre[pre.len() - 1].cnf@,
                        a,
                    ));
                    assert(solved_in_scope(orig, a, pre[pre.len() - 1]));
                    assert forall|x: int| a.contains_key(x) implies scope_of(
                        pre[pre.len() - 1],
                        x,
                    ) by {}
                    lemma_scope_witness(orig, a, pre[pre.len() - 1]);
                }
                return Ok(Solution::Satisfiable(assignment));
            }
            proof {
                assert(cnf@.len() > 0);
            }

            if let Some(entry) = Self::find_unit(&cnf) {
                // Unit propagation: the literal's variable must take the
                // value making the literal true.
                let var = entry.var();
                let b = entry.sign().apply(true);
                let ghost m2 = a.insert(var.id(), b);
                let ghost u = choose|i: int|
                    0 <= i < cnf@.len() && (#[trigger] cnf@[i]).len() == 1 && cnf@[i][0] == entry;
                let ghost n_i = cnf.header.var_count as int;
                let ghost kq = unassigned_count(a, n_i);
                proof {
                    assert(fresh_vars(cnf@, a));
                    assert(!a.contains_key(cnf@[u][0].var().id()));
                    lemma_submap_insert(a, var.id(), b);
                    assert(cnf.wf());
                    assert(1 <= cnf@[u][0].var().id() <= cnf.header.var_count);
                    assert(popped == pre.drop_last());
                    assert(stack_measure(pre) == stack_measure(popped) + pow3(kq));
                    lemma_unassigned_insert(a, n_i, var.id(), b);
                    lemma_pow3_pos((kq - 1) as nat);
                }
                let opt = self.extend_push(&cnf, &assignment, var, b);
                if let Some(res) = opt {
                    proof {
                        lemma_submap_trans(a, m2, res@);
                        assert(cnf_sat(cnf@, res@));
                        assert(pre[pre.len() - 1].assignment@.submap_of(res@) && cnf_sat(
                            pre[pre.len() - 1].cnf@,
                            res@,
                        ));
                        assert(solved_in_scope(orig, res@, pre[pre.len() - 1]));
                        assert forall|x: int| res@.contains_key(x) implies scope_of(
                            pre[pre.len() - 1],
                            x,
                        ) by {
                            if x == var.id() {
                                assert(cnf@[u][0].var().id() == x);
                                assert(occurs_in(cnf@, x));
                            } else {
                                assert(a.contains_key(x));
                            }
                        }
                        lemma_scope_witness(orig, res@, pre[pre.len() - 1]);
                    }
                    return Ok(Solution::Satisfiable(res));
                }
                let ghost cur = self.items();
                proof {
                    let pushed = cur.len() == popped.len() + 1;
                    if pushed {
                        assert(cur.drop_last() == popped);
                        assert(forall|k: int| 0 <= k < popped.len() ==> cur[k] == popped[k]);
                        assert(cur[cur.len() - 1] == cur.last());
                    } else {
                        assert(cur == popped);
                    }
                    // soundness invariant
                    assert forall|k: int, t: Map<int, bool>|
                        0 <= k < cur.len() && cur[k].assignment@.submap_of(t) && #[trigger] cnf_sat(
                            cur[k].cnf@,
                            t,
                        ) implies solved_in_scope(orig, t, cur[k]) by {
                        if k < popped.len() {
                            assert(pre[k].assignment@.submap_of(t) && cnf_sat(pre[k].cnf@, t));
                            assert(solved_in_scope(orig, t, pre[k]));
                        } else {
                            assert(cur[k] == cur.last());
                            assert(m2.submap_of(t));
                            assert(cnf_sat(cnf@, t));
                            lemma_submap_trans(a, m2, t);
                            assert(pre[pre.len() - 1].assignment@.submap_of(t) && cnf_sat(
                                pre[pre.len() - 1].cnf@,
                                t,
                            ));
                            assert(solved_in_scope(orig, t, pre[pre.len() - 1]));
                            assert forall|x: int| scope_of(cur[k], x) implies scope_of(
                                pre[pre.len() - 1],
                                x,
                            ) by {
                                if cur[k].assignment@.contains_key(x) {
                                    if x == var.id() {
                                        assert(cnf@[u][0].var().id() == x);
                                        assert(occurs_in(cnf@, x));
                                    } else {
                                        assert(a.contains_key(x));
                                    }
                                } else {
                                    assert(occurs_in(cur[k].cnf@, x));
                                    assert(occurs_in(cnf@, x));
                                }
                            }
                            lemma_scope_chain(orig, t, pre[pre.len() - 1], cur[k]);
                        }
                    }
                    // completeness invariant
                    assert forall|j: int, t: Map<int, bool>|
                        0 <= j < orig.len() && orig[j].assignment@.submap_of(t) && #[trigger] cnf_sat(
                            orig[j].cnf@,
                            t,
                        ) && total_over(t, orig[j].cnf.header.var_count as int) implies
                        pending_solved_under(cur, t, orig[j].cnf.header) by {
                        assert(pending_solved_under(pre, t, orig[j].cnf.header));
                        let k = choose|k: int|
                            0 <= k < pre.len() && (#[trigger] pre[k]).assignment@.submap_of(t)
                                && cnf_sat(pre[k].cnf@, t) && pre[k].cnf.header
                                == orig[j].cnf.header;
                        if k < pre.len() - 1 {
                            assert(cur[k] == pre[k]);
                            assert(cur[k].assignment@.submap_of(t) && cnf_sat(cur[k].cnf@, t)
                                && cur[k].cnf.header == orig[j].cnf.header);
                        } else {
                            // the popped subproblem was the witness: t makes
                            // its unit literal true, so t extends m2
                            assert(cnf_sat(cnf@, t));
                            assert(clause_sat(cnf@[u], t));
                            let l = choose|l: int| 0 <= l < cnf@[u].len() && entry_true(#[trigger] cnf@[u][l], t);
                            assert(l == 0);
                            assert(entry_true(entry, t));
                            assert(t[var.id()] == b);
                            lemma_insert_submap(a, t, var.id(), b);
                            assert(m2.submap_of(t));
                            if pushed {
                                assert(cnf_sat(cur.last().cnf@, t));
                                assert(cur[cur.len() - 1].assignment@.submap_of(t) && cnf_sat(
                                    cur[cur.len() - 1].cnf@,
                                    t,
                                ) && cur[cur.len() - 1].cnf.header == orig[j].cnf.header);
                            } else {
                                assert(!cnf_sat(cnf@, t));
                                assert(false);
                            }
                        }
                    }
                    // degenerate trace invariant
                    assert forall|k: int|
                        0 <= k < cur.len() && degenerate((#[trigger] cur[k]).cnf@) implies exists|j: int|
                        0 <= j < orig.len() && degenerate((#[trigger] orig[j]).cnf@) by {
                        if k < popped.len() {
                            assert(degenerate(pre[k].cnf@));
                        } else {
                            assert(cur[k] == cur.last());
                            assert(cur.last().cnf@[0].len() > 0);
                            assert(false);
                        }
                    }
                    // a degenerate original top would not have a unit clause
                    if orig.len() > 0 && degenerate(orig.last().cnf@) {
                        assert(pre == orig);
                        assert(cnf@ == orig.last().cnf@);
                        assert(cnf@[u].len() == 1);
                        assert(false);
                    }
                    // the measure shrinks: the popped subproblem is replaced
                    // by at most one with one variable fewer unassigned
                    if pushed {
                        assert(stack_measure(cur) == stack_measure(popped) + pow3(
                            unassigned_count(cur.last().assignment@, n_i),
                        ));
                        assert(unassigned_count(m2, n_i) + 1 == kq);
                        assert(pow3(kq) == 3 * pow3((kq - 1) as nat));
                    } else {
                        lemma_pow3_pos(kq);
                    }
                    assert(stack_measure(cur) < stack_measure(pre));
                }
            } else {
                match Self::pick_var(&cnf) {
                    None => {
                        proof {
                            lemma_flat_vars_empty(cnf@);
                            assert(degenerate(cnf@));
                            assert(degenerate(pre[pre.len() - 1].cnf@));
                        }
                        return Err(SolverError::NoUnassignedVar);
                    },
                    Some(var) => {
                        // Branch: try the variable true first, then false.
                        let ghost mt = a.insert(var.id(), true);
                        let ghost mf = a.insert(var.id(), false);
                        let ghost n_i = cnf.header.var_count as int;
                        let ghost kq = unassigned_count(a, n_i);
                        proof {
                            lemma_flat_vars_mem(cnf@);
                            let (i, j) = choose|i: int, j: int|
                                0 <= i < cnf@.len() && 0 <= j < cnf@[i].len() && (#[trigger] cnf@[
                                i][j]).var() == var;
                            assert(fresh_vars(cnf@, a));
                            assert(!a.contains_key(cnf@[i][j].var().id()));
                            assert(!a.contains_key(var.id()));
                            assert(cnf.wf());
                            assert(1 <= cnf@[i][j].var().id() <= cnf.header.var_count);
                            assert(1 <= var.id() <= cnf.header.var_count);
                            lemma_submap_insert(a, var.id(), true);
                            lemma_submap_insert(a, var.id(), false);
                            assert(popped == pre.drop_last());
                            assert(stack_measure(pre) == stack_measure(popped) + pow3(kq));
                            lemma_unassigned_insert(a, n_i, var.id(), true);
                            lemma_unassigned_insert(a, n_i, var.id(), false);
                            lemma_pow3_pos((kq - 1) as nat);
                        }
                        let opt_t = self.extend_push(&cnf, &assignment, var, true);
                        if let Some(res) = opt_t {
                            proof {
                                lemma_submap_trans(a, mt, res@);
                                assert(pre[pre.len() - 1].assignment@.submap_of(res@) && cnf_sat(
                                    pre[pre.len() - 1].cnf@,
                                    res@,
                                ));
                                assert(solved_in_scope(orig, res@, pre[pre.len() - 1]));
                                assert forall|x: int| res@.contains_key(x) implies scope_of(
                                    pre[pre.len() - 1],
                                    x,
                                ) by {
                                    if x == var.id() {
                                        let (oi, oj) = choose|oi: int, oj: int|
                                            0 <= oi < cnf@.len() && 0 <= oj < cnf@[oi].len() && (
                                            #[trigger] cnf@[oi][oj]).var() == var;
                                        assert(cnf@[oi][oj].var().id() == x);
                                        assert(occurs_in(cnf@, x));
                                    } else {
                                        assert(a.contains_key(x));
                                    }
                                }
                                lemma_scope_witness(orig, res@, pre[pre.len() - 1]);
                            }
                            return Ok(Solution::Satisfiable(res));
                        }
                        let ghost after_t = self.items();
                        let opt_f = self.extend_push(&cnf, &assignment, var, false);
                        if let Some(res) = opt_f {
                            proof {
                                lemma_submap_trans(a, mf, res@);
                                assert(pre[pre.len() - 1].assignment@.submap_of(res@) && cnf_sat(
                                    pre[pre.len() - 1].cnf@,
                                    res@,
                                ));
                                assert(solved_in_scope(orig, res@, pre[pre.len() - 1]));
                                assert forall|x: int| res@.contains_key(x) implies scope_of(
                                    pre[pre.len() - 1],
                                    x,
                                ) by {
                                    if x == var.id() {
                                        let (oi, oj) = choose|oi: int, oj: int|
                                            0 <= oi < cnf@.len() && 0 <= oj < cnf@[oi].len() && (
                                            #[trigger] cnf@[oi][oj]).var() == var;
                                        assert(cnf@[oi][oj].var().id() == x);
                                        assert(occurs_in(cnf@, x));
                                    } else {
                                        assert(a.contains_key(x));
                                    }
                                }
                                lemma_scope_witness(orig, res@, pre[pre.len() - 1]);
                            }
                            return Ok(Solution::Satisfiable(res));
                        }
                        let ghost cur = self.items();
                        proof {
                            let pushed_t = after_t.len() == popped.len() + 1;
                            let pushed_f = cur.len() == after_t.len() + 1;
                            if pushed_t {
                                assert(after_t.drop_last() == popped);
                                assert(forall|k: int|
                                    0 <= k < popped.len() ==> after_t[k] == popped[k]);
                            } else {
                                assert(after_t == popped);
                            }
                            if pushed_f {
                                assert(cur.drop_last() == after_t);
                                assert(forall|k: int|
                                    0 <= k < after_t.len() ==> cur[k] == after_t[k]);
                            } else {
                                assert(cur == after_t);
                            }
                            assert(forall|k: int| 0 <= k < popped.len() ==> cur[k] == popped[k]);
                            // soundness invariant
                            assert forall|k: int, t: Map<int, bool>|
                                0 <= k < cur.len() && cur[k].assignment@.submap_of(t)
                                    && #[trigger] cnf_sat(cur[k].cnf@, t) implies solved_in_scope(
                                orig,
                                t,
                                cur[k],
                            ) by {
                                if k < popped.len() {
                                    assert(pre[k].assignment@.submap_of(t) && cnf_sat(
                                        pre[k].cnf@,
                                        t,
                                    ));
                                    assert(solved_in_scope(orig, t, pre[k]));
                                } else {
                                    // one of the two pushed children
                                    if pushed_t && k == popped.len() {
                                        assert(cur[k] == after_t.last());
                                        assert(mt.submap_of(t));
                                        assert(cnf_sat(cnf@, t));
                                        lemma_submap_trans(a, mt, t);
                                    } else {
                                        assert(pushed_f && k == cur.len() - 1);
                                        assert(cur[k] == cur.last());
                                        assert(mf.submap_of(t));
                                        assert(cnf_sat(cnf@, t));
                                        lemma_submap_trans(a, mf, t);
                                    }
                                    assert(pre[pre.len() - 1].assignment@.submap_of(t) && cnf_sat(
                                        pre[pre.len() - 1].cnf@,
                                        t,
                                    ));
                                    assert(solved_in_scope(orig, t, pre[pre.len() - 1]));
                                    assert forall|x: int| scope_of(cur[k], x) implies scope_of(
                                        pre[pre.len() - 1],
                                        x,
                                    ) by {
                                        if cur[k].assignment@.contains_key(x) {
                                            if x == var.id() {
                                                let (oi, oj) = choose|oi: int, oj: int|
                                                    0 <= oi < cnf@.len() && 0 <= oj < cnf@[oi].len()
                                                        && (#[trigger] cnf@[oi][oj]).var() == var;
                                                assert(cnf@[oi][oj].var().id() == x);
                                                assert(occurs_in(cnf@, x));
                                            } else {
                                                assert(a.contains_key(x));
                                            }
                                        } else {
                                            assert(occurs_in(cur[k].cnf@, x));
                                            assert(occurs_in(cnf@, x));
                                        }
                                    }
                                    lemma_scope_chain(orig, t, pre[pre.len() - 1], cur[k]);
                                }
                            }
                            // completeness invariant
                            assert forall|j: int, t: Map<int, bool>|
                                0 <= j < orig.len() && orig[j].assignment@.submap_of(t)
                                    && #[trigger] cnf_sat(orig[j].cnf@, t) && total_over(
                                    t,
                                    orig[j].cnf.header.var_count as int,
                                ) implies pending_solved_under(cur, t, orig[j].cnf.header) by {
                                assert(pending_solved_under(pre, t, orig[j].cnf.header));
                                let k = choose|k: int|
                                    0 <= k < pre.len() && (#[trigger] pre[k]).assignment@.submap_of(
                                        t,
                                    ) && cnf_sat(pre[k].cnf@, t) && pre[k].cnf.header
                                        == orig[j].cnf.header;
                                if k < pre.len() - 1 {
                                    assert(cur[k] == pre[k]);
                                    assert(cur[k].assignment@.submap_of(t) && cnf_sat(
                                        cur[k].cnf@,
                                        t,
                                    ) && cur[k].cnf.header == orig[j].cnf.header);
                                } else {
                                    // the popped subproblem was the witness;
                                    // t is total over its header, so it
                                    // assigns the branch variable
                                    assert(cnf_sat(cnf@, t));
                                    assert(cnf.header == orig[j].cnf.header);
                                    assert(t.contains_key(var.id()));
                                    if t[var.id()] {
                                        lemma_insert_submap(a, t, var.id(), true);
                                        assert(mt.submap_of(t));
                                        if pushed_t {
                                            assert(cnf_sat(after_t.last().cnf@, t));
                                            let w = popped.len() as int;
                                            assert(cur[w] == after_t.last());
                                            assert(cur[w].assignment@.submap_of(t) && cnf_sat(
                                                cur[w].cnf@,
                                                t,
                                            ) && cur[w].cnf.header == orig[j].cnf.header);
                                        } else {
                                            assert(!cnf_sat(cnf@, t));
                                            assert(false);
                                        }
                                    } else {
                                        lemma_insert_submap(a, t, var.id(), false);
                                        assert(mf.submap_of(t));
                                        if pushed_f {
                                            assert(cnf_sat(cur.last().cnf@, t));
                                            let w = cur.len() as int - 1;
                                            assert(cur[w] == cur.last());
                                            assert(cur[w].assignment@.submap_of(t) && cnf_sat(
                                                cur[w].cnf@,
                                                t,
                                            ) && cur[w].cnf.header == orig[j].cnf.header);
                                        } else {
                                            assert(!cnf_sat(cnf@, t));
                                            assert(false);
                                        }
                                    }
                                }
                            }
                            // degenerate trace invariant
                            assert forall|k: int|
                                0 <= k < cur.len() && degenerate((#[trigger] cur[k]).cnf@) implies
                                exists|j: int|
                                0 <= j < orig.len() && degenerate((#[trigger] orig[j]).cnf@) by {
                                if k < popped.len() {
                                    assert(degenerate(pre[k].cnf@));
                                } else {
                                    if pushed_t && k == popped.len() {
                                        assert(cur[k] == after_t.last());
                                        assert(after_t.last().cnf@[0].len() > 0);
                                    } else {
                                        assert(pushed_f && k == cur.len() - 1);
                                        assert(cur[k] == cur.last());
                                        assert(cur.last().cnf@[0].len() > 0);
                                    }
                                    assert(false);
                                }
                            }
                            // a degenerate original top has no variable to pick
                            if orig.len() > 0 && degenerate(orig.last().cnf@) {
                                assert(pre == orig);
                                assert(cnf@ == orig.last().cnf@);
                                lemma_flat_vars_mem(cnf@);
                                assert(flat_vars(cnf@).contains(var));
                                let (i, j) = choose|i: int, j: int|
                                    0 <= i < cnf@.len() && 0 <= j < cnf@[i].len() && (
                                    #[trigger] cnf@[i][j]).var() == var;
                                assert(cnf@[i].len() == 0);
                                assert(false);
                            }
                            // the measure shrinks: the popped subproblem is
                            // replaced by at most two, each with one
                            // variable fewer unassigned
                            assert(pow3(kq) == 3 * pow3((kq - 1) as nat));
                            if pushed_t {
                                assert(stack_measure(after_t) == stack_measure(popped) + pow3(
                                    unassigned_count(after_t.last().assignment@, n_i),
                                ));
                                assert(unassigned_count(mt, n_i) + 1 == kq);
                            } else {
                                assert(stack_measure(after_t) == stack_measure(popped));
                            }
                            if pushed_f {
                                assert(stack_measure(cur) == stack_measure(after_t) + pow3(
                                    unassigned_count(cur.last().assignment@, n_i),
                                ));
                                assert(unassigned_count(mf, n_i) + 1 == kq);
                            } else {
                                assert(stack_measure(cur) == stack_measure(after_t));
                            }
                            assert(stack_measure(cur) < stack_measure(pre));
                        }
                    },
                }
            }
        }
        // The work list is exhausted without a definite `true`: no extension
        // of any original assignment satisfies its formula.
        proof {
            assert forall|k: int, t: Map<int, bool>|
                0 <= k < orig.len() && orig[k].assignment@.submap_of(t) implies !(
            #[trigger] cnf_sat(orig[k].cnf@, t)) by {
                if cnf_sat(orig[k].cnf@, t) {
                    let n = orig[k].cnf.header.var_count as int;
                    let t2 = Map::<int, bool>::new(
                        |x: int| t.contains_key(x) || (1 <= x <= n),
                        |x: int|
                            if t.contains_key(x) {
                                t[x]
                            } else {
                                true
                            },
                    );
                    assert forall|x: int| #[trigger] t.dom().contains(x) implies t2.dom().contains(
                        x,
                    ) && t[x] == t2[x] by {}
                    assert(t.submap_of(t2));
                    lemma_cnf_sat_monotone(orig[k].cnf@, t, t2);
                    assert(total_over(t2, n));
                    lemma_submap_trans(orig[k].assignment@, t, t2);
                    assert(pending_solved_under(self.items(), t2, orig[k].cnf.header));
                    let w = choose|w: int|
                        0 <= w < self.items().len() && (#[trigger] self.items()[w]).assignment@.submap_of(
                            t2,
                        ) && cnf_sat(self.items()[w].cnf@, t2) && self.items()[w].cnf.header
                            == orig[k].cnf.header;
                    assert(false);
                }
            }
        }
        Ok(Solution::Unsatisfiable)
    }
}

} // verus!
