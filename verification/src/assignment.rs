use vstd::prelude::*;

use crate::cnf::Clause;
use crate::cnf::Cnf;
use crate::cnf::Entry;
use crate::cnf::Header;
use crate::cnf::Var;

verus! {

// ---------------------------------------------------------------------------
// The mathematical meaning of assignments, clauses and formulas.
// ---------------------------------------------------------------------------

/// The valuation a list of bindings denotes; a later binding for the same
/// variable overrides an earlier one.
spec fn map_of(s: Seq<(Var, bool)>) -> Map<int, bool>
    decreases s.len(),
{
    if s.len() == 0 {
        Map::empty()
    } else {
        map_of(s.drop_last()).insert(s.last().0.id(), s.last().1)
    }
}

/// A literal is true under `m` when its variable is assigned and its polarity
/// applied to the assigned value yields true.
pub open spec fn entry_true(e: Entry, m: Map<int, bool>) -> bool {
    m.contains_key(e.var().id()) && e.sign().apply(m[e.var().id()])
}

/// A clause is satisfied under `m` when some literal of it is true.
pub open spec fn clause_sat(es: Seq<Entry>, m: Map<int, bool>) -> bool {
    exists|i: int| 0 <= i < es.len() && entry_true(#[trigger] es[i], m)
}

/// The literals of a clause whose variables `m` leaves unassigned, in order.
pub open spec fn unassigned_of(es: Seq<Entry>, m: Map<int, bool>) -> Seq<Entry>
    decreases es.len(),
{
    if es.len() == 0 {
        Seq::empty()
    } else {
        let rest = unassigned_of(es.drop_last(), m);
        if m.contains_key(es.last().var().id()) {
            rest
        } else {
            rest.push(es.last())
        }
    }
}

/// A clause evaluates to a definite `false` under `m`: every literal is
/// assigned and none of them is true.
pub open spec fn clause_false_under(es: Seq<Entry>, m: Map<int, bool>) -> bool {
    !clause_sat(es, m) && unassigned_of(es, m).len() == 0
}

/// A formula is satisfied under `m` when every clause is.
pub open spec fn cnf_sat(cs: Seq<Seq<Entry>>, m: Map<int, bool>) -> bool {
    forall|i: int| 0 <= i < cs.len() ==> clause_sat(#[trigger] cs[i], m)
}

/// The residual formula under `m`: satisfied clauses dropped, falsified
/// literals dropped from the clauses that remain, order kept.
pub open spec fn residual_of(cs: Seq<Seq<Entry>>, m: Map<int, bool>) -> Seq<Seq<Entry>>
    decreases cs.len(),
{
    if cs.len() == 0 {
        Seq::empty()
    } else {
        let rest = residual_of(cs.drop_last(), m);
        if clause_sat(cs.last(), m) {
            rest
        } else {
            rest.push(unassigned_of(cs.last(), m))
        }
    }
}

// ---------------------------------------------------------------------------
// The assignment itself.
// ---------------------------------------------------------------------------

/// An immutable partial valuation. Extension builds a new value and leaves
/// the original untouched, so sibling search branches never observe each
/// other's bindings.
#[derive(Debug, Clone)]
pub struct Assignment(Vec<(Var, bool)>);

impl View for Assignment {
    type V = Map<int, bool>;

    closed spec fn view(&self) -> Map<int, bool> {
        map_of(self.0@)
    }
}

proof fn lemma_map_of_contains(s: Seq<(Var, bool)>, k: int)
    ensures
        map_of(s).contains_key(k) <==> exists|j: int|
            0 <= j < s.len() && (#[trigger] s[j]).0.id() == k,
    decreases s.len(),
{
    if s.len() == 0 {
    } else {
        lemma_map_of_contains(s.drop_last(), k);
        if map_of(s).contains_key(k) {
            if s.last().0.id() == k {
                assert(s[s.len() - 1].0.id() == k);
            } else {
                let j = choose|j: int|
                    0 <= j < s.drop_last().len() && (#[trigger] s.drop_last()[j]).0.id() == k;
                assert(s[j].0.id() == k);
            }
        }
        if exists|j: int| 0 <= j < s.len() && (#[trigger] s[j]).0.id() == k {
            let j = choose|j: int| 0 <= j < s.len() && (#[trigger] s[j]).0.id() == k;
            if j < s.len() - 1 {
                assert(s.drop_last()[j].0.id() == k);
            }
        }
    }
}

proof fn lemma_map_of_index(s: Seq<(Var, bool)>, i: int)
    requires
        0 <= i < s.len(),
        forall|j: int| i < j < s.len() ==> (#[trigger] s[j]).0.id() != s[i].0.id(),
    ensures
        map_of(s).contains_key(s[i].0.id()),
        map_of(s)[s[i].0.id()] == s[i].1,
    decreases s.len(),
{
    if i == s.len() - 1 {
    } else {
        assert forall|j: int| i < j < s.drop_last().len() implies (#[trigger] s.drop_last()[j]).0.id()
            != s.drop_last()[i].0.id() by {
            assert(s.drop_last()[j] == s[j]);
        }
        lemma_map_of_index(s.drop_last(), i);
        assert(s.last().0.id() != s[i].0.id());
    }
}

impl Assignment {
    /// The empty valuation.
    pub fn new() -> (r: Self)
        ensures
            r@ == Map::<int, bool>::empty(),
    {
        Assignment(Vec::new())
    }

    /// Look a variable up: the value it is bound to, or `None` where it is
    /// unassigned.
    pub fn get(&self, var: Var) -> (r: Option<bool>)
        ensures
            match r {
                Some(b) => self@.contains_key(var.id()) && self@[var.id()] == b,
                None => !self@.contains_key(var.id()),
            },
    {
        let n = self.0.len();
        let mut i: usize = n;
        while i > 0
            invariant
                0 <= i <= n,
                n == self.0@.len(),
                forall|j: int| i <= j < n ==> (#[trigger] self.0@[j]).0.id() != var.id(),
            decreases i,
        {
            i = i - 1;
            let (v, b) = self.0[i];
            if v == var {
                proof {
                    assert(self.0@[i as int].0.id() == var.id());
                    lemma_map_of_index(self.0@, i as int);
                }
                return Some(b);
            }
            proof {
                Var::lemma_id_injective(self.0@[i as int].0, var);
            }
        }
        proof {
            lemma_map_of_contains(self.0@, var.id());
        }
        None
    }

    /// Extend with one more binding, returning a new assignment; the
    /// original is untouched.
    pub fn extend(&self, var: Var, b: bool) -> (r: Self)
        ensures
            r@ == self@.insert(var.id(), b),
    {
        let n = self.0.len();
        let mut v: Vec<(Var, bool)> = Vec::new();
        let mut i: usize = 0;
        while i < n
            invariant
                0 <= i <= n,
                n == self.0@.len(),
                v@ == self.0@.take(i as int),
            decreases n - i,
        {
            v.push(self.0[i]);
            proof {
                assert(v@ =~= self.0@.take(i + 1));
            }
            i += 1;
        }
        proof {
            assert(self.0@.take(n as int) =~= self.0@);
        }
        v.push((var, b));
        let r = Assignment(v);
        proof {
            assert(r.0@.drop_last() =~= self.0@);
        }
        r
    }

    /// The smallest variable in `1..=var_count` that is still unassigned.
    pub fn pick_unassigned(&self, header: Header) -> (r: Option<Var>)
        ensures
            match r {
                Some(v) => {
                    &&& 1 <= v.id() <= header.var_count
                    &&& !self@.contains_key(v.id())
                    &&& forall|k: int| 1 <= k < v.id() ==> self@.contains_key(k)
                },
                None => forall|k: int| 1 <= k <= header.var_count ==> self@.contains_key(k),
            },
    {
        let n = header.var_count;
        let mut i: usize = 0;
        while i < n
            invariant
                0 <= i <= n,
                n == header.var_count,
                forall|k: int| 1 <= k <= i ==> self@.contains_key(k),
            decreases n - i,
        {
            let v = Var::new(i + 1);
            if self.get(v).is_none() {
                return Some(v);
            }
            i += 1;
        }
        None
    }
}

// ---------------------------------------------------------------------------
// Partial evaluation.
// ---------------------------------------------------------------------------

/// The outcome of evaluating a value under a partial assignment: a definite
/// boolean, or a strictly simplified residual of the same kind.
pub enum Partial<T> {
    Definite(bool),
    Indefinite(T),
}

/// The one capability the three data kinds share: evaluate under an
/// assignment, yielding `Definite` or `Indefinite`. Each kind states in
/// `eval_ensures` what its outcome means.
pub trait PartialAssign where Self: Sized {
    /// What `partial_assign` promises of its result for this kind of value.
    spec fn eval_ensures(&self, m: Map<int, bool>, r: Partial<Self>) -> bool;

    fn partial_assign(&self, assignment: &Assignment) -> (r: Partial<Self>)
        ensures
            self.eval_ensures(assignment@, r),
    ;
}

impl PartialAssign for Entry {
    /// A literal with an assigned variable becomes the polarity applied to
    /// the assigned value; an unassigned one is returned unchanged.
    open spec fn eval_ensures(&self, m: Map<int, bool>, r: Partial<Entry>) -> bool {
        match r {
            Partial::Definite(b) => m.contains_key(self.var().id()) && b == self.sign().apply(
                m[self.var().id()],
            ),
            Partial::Indefinite(e) => !m.contains_key(self.var().id()) && e == *self,
        }
    }

    fn partial_assign(&self, assignment: &Assignment) -> (r: Partial<Entry>) {
        match assignment.get(self.var()) {
            Some(b) => Partial::Definite(self.sign().apply(b)),
            None => Partial::Indefinite(*self),
        }
    }
}

impl PartialAssign for Clause {
    /// `Definite(true)` exactly when some literal is true; `Definite(false)`
    /// exactly when every literal is assigned and false; otherwise the
    /// residual holds exactly the unassigned literals, in order.
    open spec fn eval_ensures(&self, m: Map<int, bool>, r: Partial<Clause>) -> bool {
        match r {
            Partial::Definite(b) => if b {
                clause_sat(self@, m)
            } else {
                clause_false_under(self@, m)
            },
            Partial::Indefinite(res) => {
                &&& !clause_sat(self@, m)
                &&& res@ == unassigned_of(self@, m)
                &&& res@.len() > 0
            },
        }
    }

    fn partial_assign(&self, assignment: &Assignment) -> (r: Partial<Clause>) {
        let ghost m = assignment@;
        let ghost es = self.entries@;
        let n = self.entries.len();
        let mut entries: Vec<Entry> = Vec::new();
        let mut i: usize = 0;
        while i < n
            invariant
                0 <= i <= n,
                n == es.len(),
                es == self.entries@,
                m == assignment@,
                entries@ == unassigned_of(es.take(i as int), m),
                !clause_sat(es.take(i as int), m),
            decreases n - i,
        {
            let entry = self.entries[i];
            proof {
                assert(es.take(i + 1).drop_last() =~= es.take(i as int));
                assert(es.take(i + 1).last() == es[i as int]);
            }
            match entry.partial_assign(assignment) {
                Partial::Definite(b) => {
                    if b {
                        proof {
                            assert(entry_true(es[i as int], m));
                        }
                        return Partial::Definite(true);
                    }
                    proof {
                        assert(!entry_true(es[i as int], m));
                        assert forall|j: int| 0 <= j < i + 1 implies !entry_true(
                            #[trigger] es.take(i + 1)[j],
                            m,
                        ) by {
                            if j < i {
                                assert(es.take(i + 1)[j] == es.take(i as int)[j]);
                                assert(!clause_sat(es.take(i as int), m));
                            } else {
                                assert(es.take(i + 1)[j] == es[i as int]);
                            }
                        }
                    }
                }
                Partial::Indefinite(e) => {
                    entries.push(e);
                    proof {
                        assert(!entry_true(es[i as int], m));
                        assert forall|j: int| 0 <= j < i + 1 implies !entry_true(
                            #[trigger] es.take(i + 1)[j],
                            m,
                        ) by {
                            if j < i {
                                assert(es.take(i + 1)[j] == es.take(i as int)[j]);
                            } else {
                                assert(es.take(i + 1)[j] == es[i as int]);
                            }
                        }
                    }
                }
            }
            i += 1;
        }
        proof {
            assert(es.take(n as int) =~= es);
        }
        if entries.len() == 0 {
            Partial::Definite(false)
        } else {
            Partial::Indefinite(Clause { entries })
        }
    }
}

impl PartialAssign for Cnf {
    /// `Definite(false)` exactly when some clause is definitely false;
    /// `Definite(true)` exactly when the assignment already satisfies the
    /// formula; otherwise the residual formula, with the same header and at
    /// least one clause left.
    open spec fn eval_ensures(&self, m: Map<int, bool>, r: Partial<Cnf>) -> bool {
        match r {
            Partial::Definite(b) => if b {
                cnf_sat(self@, m)
            } else {
                exists|i: int| 0 <= i < self@.len() && clause_false_under(#[trigger] self@[i], m)
            },
            Partial::Indefinite(res) => {
                &&& forall|i: int|
                    0 <= i < self@.len() ==> !clause_false_under(#[trigger] self@[i], m)
                &&& res@ == residual_of(self@, m)
                &&& res@.len() > 0
                &&& res.header == self.header
            },
        }
    }

    fn partial_assign(&self, assignment: &Assignment) -> (r: Partial<Cnf>) {
        let ghost m = assignment@;
        let ghost cs = self@;
        let n = self.clauses.len();
        let mut clauses: Vec<Clause> = Vec::new();
        let mut i: usize = 0;
        while i < n
            invariant
                0 <= i <= n,
                n == cs.len(),
                cs == self@,
                m == assignment@,
                clauses@.map_values(|c: Clause| c@) == residual_of(cs.take(i as int), m),
                forall|j: int| 0 <= j < i ==> !clause_false_under(#[trigger] cs[j], m),
                forall|j: int| 0 <= j < i && !clause_sat(#[trigger] cs[j], m) ==> !cnf_sat(cs, m),
            decreases n - i,
        {
            let clause = &self.clauses[i];
            proof {
                assert(cs[i as int] == clause@);
                assert(cs.take(i + 1).drop_last() =~= cs.take(i as int));
                assert(cs.take(i + 1).last() == cs[i as int]);
            }
            match clause.partial_assign(assignment) {
                Partial::Definite(b) => {
                    if !b {
                        return Partial::Definite(false);
                    }
                    proof {
                        assert(residual_of(cs.take(i + 1), m) == residual_of(cs.take(i as int), m));
                    }
                }
                Partial::Indefinite(rc) => {
                    clauses.push(rc);
                    proof {
                        assert(clauses@.map_values(|c: Clause| c@) =~= residual_of(
                            cs.take(i as int),
                            m,
                        ).push(rc@));
                    }
                }
            }
            i += 1;
        }
        proof {
            assert(cs.take(n as int) =~= cs);
        }
        if clauses.len() == 0 {
            proof {
                assert(residual_of(cs, m).len() == 0);
                lemma_residual_empty(cs, m);
            }
            Partial::Definite(true)
        } else {
            Partial::Indefinite(Cnf { header: self.header, clauses })
        }
    }
}

// ---------------------------------------------------------------------------
// Laws of partial evaluation.
// ---------------------------------------------------------------------------

/// Once a clause is satisfied under an assignment, it stays satisfied under
/// any extension of that assignment: further bindings never un-satisfy it.
pub proof fn lemma_clause_sat_monotone(es: Seq<Entry>, m: Map<int, bool>, t: Map<int, bool>)
    requires
        m.submap_of(t),
        clause_sat(es, m),
    ensures
        clause_sat(es, t),
{
    let i = choose|i: int| 0 <= i < es.len() && entry_true(#[trigger] es[i], m);
    assert(t.dom().contains(es[i].var().id()));
    assert(entry_true(es[i], t));
}

/// A satisfied formula stays satisfied under any extension of the
/// assignment.
pub proof fn lemma_cnf_sat_monotone(cs: Seq<Seq<Entry>>, m: Map<int, bool>, t: Map<int, bool>)
    requires
        m.submap_of(t),
        cnf_sat(cs, m),
    ensures
        cnf_sat(cs, t),
{
    assert forall|i: int| 0 <= i < cs.len() implies clause_sat(#[trigger] cs[i], t) by {
        lemma_clause_sat_monotone(cs[i], m, t);
    }
}

/// What the residual of a clause holds: exactly the literals of the clause
/// whose variables the assignment leaves unassigned.
pub proof fn lemma_unassigned_mem(es: Seq<Entry>, m: Map<int, bool>)
    ensures
        forall|e: Entry|
            #[trigger] unassigned_of(es, m).contains(e) <==> (es.contains(e) && !m.contains_key(
                e.var().id(),
            )),
    decreases es.len(),
{
    if es.len() == 0 {
        assert forall|e: Entry| #[trigger] unassigned_of(es, m).contains(e) implies false by {
            let j = choose|j: int| 0 <= j < unassigned_of(es, m).len() && unassigned_of(es, m)[j] == e;
        }
        assert(forall|e: Entry| !es.contains(e));
    } else {
        let dl = es.drop_last();
        let last = es.last();
        lemma_unassigned_mem(dl, m);
        assert forall|e: Entry| #[trigger] es.contains(e) implies dl.contains(e) || e == last by {
            let j = choose|j: int| 0 <= j < es.len() && es[j] == e;
            if j < es.len() - 1 {
                assert(dl[j] == e);
            }
        }
        assert forall|e: Entry| dl.contains(e) implies #[trigger] es.contains(e) by {
            let j = choose|j: int| 0 <= j < dl.len() && dl[j] == e;
            assert(es[j] == e);
        }
        assert(es[es.len() - 1] == last);
        assert(es.contains(last));
        let u = unassigned_of(es, m);
        let udl = unassigned_of(dl, m);
        if m.contains_key(last.var().id()) {
            assert(u == udl);
        } else {
            assert(u == udl.push(last));
            assert forall|e: Entry| #[trigger] u.contains(e) implies udl.contains(e) || e == last by {
                let j = choose|j: int| 0 <= j < u.len() && u[j] == e;
                if j < u.len() - 1 {
                    assert(udl[j] == e);
                }
            }
            assert forall|e: Entry| udl.contains(e) implies #[trigger] u.contains(e) by {
                let j = choose|j: int| 0 <= j < udl.len() && udl[j] == e;
                assert(u[j] == e);
            }
            assert(u[u.len() - 1] == last);
            assert(u.contains(last));
        }
    }
}

/// A clause that is definitely false under an assignment stays unsatisfied
/// under every extension of it.
pub proof fn lemma_clause_false_monotone(es: Seq<Entry>, m: Map<int, bool>, t: Map<int, bool>)
    requires
        m.submap_of(t),
        clause_false_under(es, m),
    ensures
        !clause_sat(es, t),
{
    lemma_unassigned_mem(es, m);
    assert forall|i: int| 0 <= i < es.len() implies !entry_true(#[trigger] es[i], t) by {
        let e = es[i];
        assert(es.contains(e));
        if !m.contains_key(e.var().id()) {
            assert(unassigned_of(es, m).contains(e));
            let j = choose|j: int|
                0 <= j < unassigned_of(es, m).len() && unassigned_of(es, m)[j] == e;
            assert(false);
        }
        let k = e.var().id();
        assert(m.submap_of(t));
        assert(m.dom().contains(k));
        assert(t.dom().contains(k) && m[k] == t[k]);
        assert(!entry_true(e, m));
    }
}

/// For an extension of the assignment, a clause and its residual are
/// satisfied together.
pub proof fn lemma_clause_residual_equiv(es: Seq<Entry>, m: Map<int, bool>, t: Map<int, bool>)
    requires
        m.submap_of(t),
        !clause_sat(es, m),
    ensures
        clause_sat(es, t) <==> clause_sat(unassigned_of(es, m), t),
{
    lemma_unassigned_mem(es, m);
    let u = unassigned_of(es, m);
    if clause_sat(es, t) {
        let i = choose|i: int| 0 <= i < es.len() && entry_true(#[trigger] es[i], t);
        let e = es[i];
        if m.contains_key(e.var().id()) {
            assert(m.dom().contains(e.var().id()));
            assert(t[e.var().id()] == m[e.var().id()]);
            assert(entry_true(e, m));
            assert(false);
        }
        assert(es.contains(e));
        assert(u.contains(e));
        let j = choose|j: int| 0 <= j < u.len() && u[j] == e;
        assert(entry_true(u[j], t));
        assert(clause_sat(u, t));
    }
    if clause_sat(u, t) {
        let i = choose|i: int| 0 <= i < u.len() && entry_true(#[trigger] u[i], t);
        let e = u[i];
        assert(u.contains(e));
        assert(es.contains(e));
        let j = choose|j: int| 0 <= j < es.len() && es[j] == e;
        assert(entry_true(es[j], t));
        assert(clause_sat(es, t));
    }
}

/// Each clause of a residual formula is the residual of an unsatisfied
/// clause of the original formula.
pub proof fn lemma_residual_mem(cs: Seq<Seq<Entry>>, m: Map<int, bool>)
    ensures
        forall|k: int|
            0 <= k < residual_of(cs, m).len() ==> exists|i: int|
                0 <= i < cs.len() && !clause_sat(#[trigger] cs[i], m) && #[trigger] residual_of(
                    cs,
                    m,
                )[k] == unassigned_of(cs[i], m),
    decreases cs.len(),
{
    if cs.len() == 0 {
    } else {
        let dl = cs.drop_last();
        lemma_residual_mem(dl, m);
        let r = residual_of(cs, m);
        let rdl = residual_of(dl, m);
        assert forall|k: int| 0 <= k < r.len() implies exists|i: int|
            0 <= i < cs.len() && !clause_sat(#[trigger] cs[i], m) && #[trigger] r[k]
                == unassigned_of(cs[i], m) by {
            if k < rdl.len() {
                let i = choose|i: int|
                    0 <= i < dl.len() && !clause_sat(#[trigger] dl[i], m) && #[trigger] rdl[k]
                        == unassigned_of(dl[i], m);
                assert(cs[i] == dl[i]);
                assert(r[k] == rdl[k]);
                assert(!clause_sat(cs[i], m) && r[k] == unassigned_of(cs[i], m));
            } else {
                assert(!clause_sat(cs.last(), m));
                assert(r[k] == unassigned_of(cs.last(), m));
                assert(cs[cs.len() - 1] == cs.last());
                assert(!clause_sat(cs[cs.len() - 1], m) && r[k] == unassigned_of(
                    cs[cs.len() - 1],
                    m,
                ));
            }
        }
    }
}

/// For an extension of the assignment, a formula and its residual are
/// satisfied together.
pub proof fn lemma_residual_equiv(cs: Seq<Seq<Entry>>, m: Map<int, bool>, t: Map<int, bool>)
    requires
        m.submap_of(t),
    ensures
        cnf_sat(cs, t) <==> cnf_sat(residual_of(cs, m), t),
    decreases cs.len(),
{
    if cs.len() == 0 {
    } else {
        let dl = cs.drop_last();
        let last = cs.last();
        lemma_residual_equiv(dl, m, t);
        let r = residual_of(cs, m);
        let rdl = residual_of(dl, m);
        assert(cs[cs.len() - 1] == last);
        assert forall|i: int| 0 <= i < dl.len() implies cs[i] == #[trigger] dl[i] by {}
        if clause_sat(last, m) {
            lemma_clause_sat_monotone(last, m, t);
            assert(r == rdl);
            if cnf_sat(rdl, t) {
                assert forall|i: int| 0 <= i < cs.len() implies clause_sat(#[trigger] cs[i], t) by {
                    if i < cs.len() - 1 {
                        assert(cs[i] == dl[i]);
                        assert(cnf_sat(dl, t));
                    }
                }
            }
            if cnf_sat(cs, t) {
                assert forall|i: int| 0 <= i < dl.len() implies clause_sat(#[trigger] dl[i], t) by {
                    assert(dl[i] == cs[i]);
                }
            }
        } else {
            lemma_clause_residual_equiv(last, m, t);
            assert(r == rdl.push(unassigned_of(last, m)));
            assert(r[r.len() - 1] == unassigned_of(last, m));
            if cnf_sat(r, t) {
                assert forall|i: int| 0 <= i < cs.len() implies clause_sat(#[trigger] cs[i], t) by {
                    if i < cs.len() - 1 {
                        assert forall|j: int| 0 <= j < rdl.len() implies clause_sat(
                            #[trigger] rdl[j],
                            t,
                        ) by {
                            assert(rdl[j] == r[j]);
                        }
                        assert(cnf_sat(rdl, t));
                        assert(cs[i] == dl[i]);
                    } else {
                        assert(clause_sat(r[r.len() - 1], t));
                    }
                }
            }
            if cnf_sat(cs, t) {
                assert forall|i: int| 0 <= i < dl.len() implies clause_sat(#[trigger] dl[i], t) by {
                    assert(dl[i] == cs[i]);
                }
                assert(cnf_sat(dl, t));
                assert(cnf_sat(rdl, t));
                assert forall|j: int| 0 <= j < r.len() implies clause_sat(#[trigger] r[j], t) by {
                    if j < r.len() - 1 {
                        assert(r[j] == rdl[j]);
                    } else {
                        assert(clause_sat(last, t));
                    }
                }
            }
        }
    }
}

/// A formula whose residual is empty is already satisfied: every clause was
/// dropped because it was satisfied.
pub proof fn lemma_residual_empty(cs: Seq<Seq<Entry>>, m: Map<int, bool>)
    ensures
        residual_of(cs, m).len() == 0 ==> cnf_sat(cs, m),
    decreases cs.len(),
{
    if cs.len() == 0 {
    } else {
        lemma_residual_empty(cs.drop_last(), m);
        if residual_of(cs, m).len() == 0 {
            assert(clause_sat(cs.last(), m));
            assert forall|i: int| 0 <= i < cs.len() implies clause_sat(#[trigger] cs[i], m) by {
                if i < cs.len() - 1 {
                    assert(cs[i] == cs.drop_last()[i]);
                    assert(cnf_sat(cs.drop_last(), m));
                } else {
                    assert(cs[i] == cs.last());
                }
            }
        }
    }
}

/// Evaluating an already-fully-assigned clause is direct substitution: no
/// literal survives, so the outcome is `Definite`, and it is `true` exactly
/// when the clause is satisfied.
pub proof fn lemma_eval_fully_assigned_clause(es: Seq<Entry>, m: Map<int, bool>)
    requires
        forall|j: int| 0 <= j < es.len() ==> m.contains_key((#[trigger] es[j]).var().id()),
    ensures
        unassigned_of(es, m).len() == 0,
        !clause_sat(es, m) ==> clause_false_under(es, m),
    decreases es.len(),
{
    if es.len() == 0 {
    } else {
        assert forall|j: int| 0 <= j < es.drop_last().len() implies m.contains_key(
            (#[trigger] es.drop_last()[j]).var().id(),
        ) by {
            assert(es.drop_last()[j] == es[j]);
        }
        lemma_eval_fully_assigned_clause(es.drop_last(), m);
        assert(es[es.len() - 1] == es.last());
    }
}

/// Evaluating an already-fully-assigned formula is direct substitution: the
/// outcome is `Definite`, and it is `true` exactly when every clause is
/// satisfied.
pub proof fn lemma_eval_fully_assigned(cs: Seq<Seq<Entry>>, m: Map<int, bool>)
    requires
        forall|i: int, j: int|
            0 <= i < cs.len() && 0 <= j < cs[i].len() ==> m.contains_key(
                (#[trigger] cs[i][j]).var().id(),
            ),
    ensures
        cnf_sat(cs, m) || exists|i: int|
            0 <= i < cs.len() && clause_false_under(#[trigger] cs[i], m),
{
    if !cnf_sat(cs, m) {
        let i = choose|i: int| 0 <= i < cs.len() && !clause_sat(#[trigger] cs[i], m);
        assert forall|j: int| 0 <= j < cs[i].len() implies m.contains_key(
            (#[trigger] cs[i][j]).var().id(),
        ) by {}
        lemma_eval_fully_assigned_clause(cs[i], m);
    }
}

/// Extending an assignment with a binding for a variable that a clause does
/// not mention changes nothing about that clause's evaluation: neither
/// whether it is satisfied nor its residual.
pub proof fn lemma_irrelevant_extension(es: Seq<Entry>, m: Map<int, bool>, v: int, b: bool)
    requires
        forall|j: int| 0 <= j < es.len() ==> (#[trigger] es[j]).var().id() != v,
    ensures
        clause_sat(es, m.insert(v, b)) == clause_sat(es, m),
        unassigned_of(es, m.insert(v, b)) == unassigned_of(es, m),
    decreases es.len(),
{
    let m2 = m.insert(v, b);
    if es.len() == 0 {
    } else {
        assert forall|j: int| 0 <= j < es.drop_last().len() implies (#[trigger] es.drop_last()[j]).var().id()
            != v by {
            assert(es.drop_last()[j] == es[j]);
        }
        lemma_irrelevant_extension(es.drop_last(), m, v, b);
        assert(es[es.len() - 1] == es.last());
        assert(es.last().var().id() != v);
        assert(m2.contains_key(es.last().var().id()) == m.contains_key(es.last().var().id()));
        if clause_sat(es, m2) {
            let i = choose|i: int| 0 <= i < es.len() && entry_true(#[trigger] es[i], m2);
            assert(m2[es[i].var().id()] == m[es[i].var().id()]);
            assert(entry_true(es[i], m));
        }
        if clause_sat(es, m) {
            let i = choose|i: int| 0 <= i < es.len() && entry_true(#[trigger] es[i], m);
            assert(m2[es[i].var().id()] == m[es[i].var().id()]);
            assert(entry_true(es[i], m2));
        }
    }
}

/// A formula containing an empty clause is unsatisfiable under every
/// assignment, whatever its other clauses hold.
pub proof fn lemma_empty_clause_unsat(cs: Seq<Seq<Entry>>, i: int)
    requires
        0 <= i < cs.len(),
        cs[i].len() == 0,
    ensures
        forall|m: Map<int, bool>| !cnf_sat(cs, m),
{
    assert forall|m: Map<int, bool>| !cnf_sat(cs, m) by {
        assert(!clause_sat(cs[i], m));
    }
}

/// The empty formula is satisfied by the empty assignment.
pub proof fn lemma_empty_formula_sat()
    ensures
        cnf_sat(Seq::<Seq<Entry>>::empty(), Map::<int, bool>::empty()),
{
}

} // verus!
