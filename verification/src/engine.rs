//! The UCP engine: runs the rules to a fixpoint over `K` and `Delta`, then classifies each
//! zero equation as unique or unresolved under the final `K`.
use crate::all_but_one::{abo_candidates, first_values_from, infer_all_but_one_zero, AllButOneInference};
use crate::base_conv::{base_conv_found, infer_base_conversions_with_modulus, BaseConvInference};
use crate::bigint_mul::{component_fixed, equations_model, in_some_equation, infer_bigint_mul_with_modulus, invertible_mod};
use crate::cell::{cell_lt, CellId};
use crate::domain::{
    all_in_range, domain_valid, domain_values_model, facts_map_valid, finite_set_model, lemma_domain_valid, mark_domain_model,
    new_domain_model, set_in_range, UcpValueDomain, UcpValueFacts,
};
use crate::expr::{expr_cells, exprs_cells, exprs_model, ExprModel, UcpExpr};
use crate::facts::UcpFacts;
use crate::field::opt_view;
use crate::integer::{in_i64_range, Integer};
use crate::rules::{
    assigned_cell_model, expression_is_unique, infer_assigned_cell_from_zero_equation,
    lemma_assigned_cell_is_new, lemma_unique_monotone, unique_model,
};
use crate::value::{
    infer_value_domains_from_zero_equation, infer_value_domains_from_zero_equation_with_modulus,
    inference_cells, inference_view, inferences_valid, push_all, push_inference, root_domain_model, value_inference_model,
    zero_assign_model, lin_model, linear_domains_model,
};
use vstd::prelude::*;

verus! {

/// The final status of a zero equation.
#[derive(Clone, Copy, Debug, PartialEq, Eq, Structural)]
pub enum UcpExpressionStatus {
    /// Unique under the final `K`.
    Unique,
    /// Not shown unique.
    Unresolved,
}

/// The status of the equation at an index.
#[derive(Clone, Copy, Debug, PartialEq, Eq, Structural)]
pub struct UcpExpressionResult {
    pub index: usize,
    pub status: UcpExpressionStatus,
}

/// The outcome of checking target cells against the final `K`.
#[derive(Debug)]
pub struct UcpTargetCheck {
    pub checked_targets: usize,
    pub unique_targets: usize,
    pub unresolved_targets: Vec<CellId>,
}

/// The outcome of a UCP run.
#[derive(Debug)]
pub struct UcpResult {
    /// The final `K`.
    pub facts: UcpFacts,
    /// The final `Delta`.
    pub value_facts: UcpValueFacts,
    /// How many equations were classified.
    pub checked_expressions: usize,
    /// How many of them are unique.
    pub unique_expressions: usize,
    /// How many are unresolved.
    pub unresolved_expressions: usize,
    /// The status of each equation, by index.
    pub expression_results: Vec<UcpExpressionResult>,
}

/// The status of an equation under `K`.
pub open spec fn status_model(e: ExprModel, k: Set<CellId>) -> UcpExpressionStatus {
    if unique_model(e, k) {
        UcpExpressionStatus::Unique
    } else {
        UcpExpressionStatus::Unresolved
    }
}

/// How many equations are unique under `K`.
pub open spec fn unique_count(es: Seq<ExprModel>, k: Set<CellId>) -> nat
    decreases es.len(),
{
    if es.len() == 0 {
        0
    } else {
        unique_count(es.drop_last(), k) + (if unique_model(es.last(), k) {
            1nat
        } else {
            0nat
        })
    }
}

/// The cells of an expression, in order, with repetitions.
pub open spec fn cell_seq(e: ExprModel) -> Seq<CellId>
    decreases e,
{
    match e {
        ExprModel::Var(c) => seq![c],
        ExprModel::Const(_) => Seq::empty(),
        ExprModel::Neg(inner) => cell_seq(*inner),
        ExprModel::Add(l, r) => cell_seq(*l) + cell_seq(*r),
        ExprModel::Mul(l, r) => cell_seq(*l) + cell_seq(*r),
        ExprModel::Scale(inner, _) => cell_seq(*inner),
    }
}

/// The cells of a list of expressions, in order, with repetitions.
pub open spec fn cells_seq(es: Seq<ExprModel>) -> Seq<CellId>
    decreases es.len(),
{
    if es.len() == 0 {
        Seq::empty()
    } else {
        cells_seq(es.drop_last()) + cell_seq(es.last())
    }
}

proof fn lemma_cell_seq(e: ExprModel, c: CellId)
    requires
        expr_cells(e).contains(c),
    ensures
        cell_seq(e).contains(c),
    decreases e,
{
    match e {
        ExprModel::Var(x) => {
            assert(cell_seq(e)[0] == x);
        },
        ExprModel::Const(_) => {},
        ExprModel::Neg(inner) => lemma_cell_seq(*inner, c),
        ExprModel::Add(l, r) => {
            if expr_cells(*l).contains(c) {
                lemma_cell_seq(*l, c);
                let i = choose|i: int| 0 <= i < cell_seq(*l).len() && cell_seq(*l)[i] == c;
                assert((cell_seq(*l) + cell_seq(*r))[i] == c);
            } else {
                lemma_cell_seq(*r, c);
                let i = choose|i: int| 0 <= i < cell_seq(*r).len() && cell_seq(*r)[i] == c;
                assert((cell_seq(*l) + cell_seq(*r))[cell_seq(*l).len() + i] == c);
            }
        },
        ExprModel::Mul(l, r) => {
            if expr_cells(*l).contains(c) {
                lemma_cell_seq(*l, c);
                let i = choose|i: int| 0 <= i < cell_seq(*l).len() && cell_seq(*l)[i] == c;
                assert((cell_seq(*l) + cell_seq(*r))[i] == c);
            } else {
                lemma_cell_seq(*r, c);
                let i = choose|i: int| 0 <= i < cell_seq(*r).len() && cell_seq(*r)[i] == c;
                assert((cell_seq(*l) + cell_seq(*r))[cell_seq(*l).len() + i] == c);
            }
        },
        ExprModel::Scale(inner, _) => lemma_cell_seq(*inner, c),
    }
}

proof fn lemma_cells_seq(es: Seq<ExprModel>, c: CellId)
    requires
        exprs_cells(es).contains(c),
    ensures
        cells_seq(es).contains(c),
    decreases es.len(),
{
    let i = choose|i: int| 0 <= i < es.len() && #[trigger] expr_cells(es[i]).contains(c);
    if i == es.len() - 1 {
        lemma_cell_seq(es.last(), c);
        let j = choose|j: int| 0 <= j < cell_seq(es.last()).len() && cell_seq(es.last())[j] == c;
        assert((cells_seq(es.drop_last()) + cell_seq(es.last()))[cells_seq(es.drop_last()).len() + j] == c);
    } else {
        assert(es.drop_last()[i] == es[i]);
        assert(exprs_cells(es.drop_last()).contains(c));
        lemma_cells_seq(es.drop_last(), c);
        let j = choose|j: int| 0 <= j < cells_seq(es.drop_last()).len() && cells_seq(es.drop_last())[j] == c;
        assert((cells_seq(es.drop_last()) + cell_seq(es.last()))[j] == c);
    }
}

/// More than any domain of `Delta` can hold: `2^64 + 1`.
pub open spec fn no_domain_weight() -> nat {
    0x1_0000_0000_0000_0001
}

/// What is left to learn about a cell: its domain size (or more without one), plus one
/// while it is not in `K`.
pub open spec fn cell_weight(k: Set<CellId>, m: Map<CellId, Set<int>>, c: CellId) -> nat {
    (if m.dom().contains(c) {
        m[c].len()
    } else {
        no_domain_weight()
    }) + (if k.contains(c) {
        0nat
    } else {
        1nat
    })
}

/// What is left to learn about a list of cells.
pub open spec fn weight(u: Seq<CellId>, k: Set<CellId>, m: Map<CellId, Set<int>>) -> nat
    decreases u.len(),
{
    if u.len() == 0 {
        0
    } else {
        weight(u.drop_last(), k, m) + cell_weight(k, m, u.last())
    }
}

/// `(k2, m2)` knows at least what `(k1, m1)` knows: `K` only grows, and `Delta` only gains
/// cells and narrows domains.
pub open spec fn refines(
    k1: Set<CellId>,
    m1: Map<CellId, Set<int>>,
    k2: Set<CellId>,
    m2: Map<CellId, Set<int>>,
) -> bool {
    &&& k1.subset_of(k2)
    &&& m1.dom().subset_of(m2.dom())
    &&& forall|c: CellId| #[trigger] m1.dom().contains(c) ==> m2[c].subset_of(m1[c])
}

/// A step from `(k1, m1)` to `(k2, m2)`: it refines, adds to `K` and to the cells of `Delta`
/// only cells of `s`, and where it reports a change it learned something about a cell of
/// `s`, else it changed nothing.
pub open spec fn progress(
    k1: Set<CellId>,
    m1: Map<CellId, Set<int>>,
    k2: Set<CellId>,
    m2: Map<CellId, Set<int>>,
    s: Set<CellId>,
    changed: bool,
) -> bool {
    &&& refines(k1, m1, k2, m2)
    &&& k2.subset_of(k1.union(s))
    &&& m2.dom().subset_of(m1.dom().union(s))
    &&& changed ==> exists|c: CellId| s.contains(c) && #[trigger] cell_weight(k2, m2, c) < cell_weight(k1, m1, c)
    &&& !changed ==> k2 == k1 && m2 == m1
}

/// A domain of valid facts holds fewer values than `no_domain_weight`.
proof fn lemma_domain_small(s: Set<int>)
    requires
        s.finite(),
        set_in_range(s),
    ensures
        s.len() < no_domain_weight(),
{
    let r = vstd::set_lib::set_int_range(i64::MIN as int, i64::MAX as int + 1);
    vstd::set_lib::lemma_int_range(i64::MIN as int, i64::MAX as int + 1);
    assert forall|x: int| s.contains(x) implies r.contains(x) by {
        assert(in_i64_range(x));
    }
    vstd::set_lib::lemma_len_subset(s, r);
}

proof fn lemma_refines_weight(k1: Set<CellId>, m1: Map<CellId, Set<int>>, k2: Set<CellId>, m2: Map<CellId, Set<int>>, c: CellId)
    requires
        refines(k1, m1, k2, m2),
        facts_map_valid(m1),
        facts_map_valid(m2),
    ensures
        cell_weight(k2, m2, c) <= cell_weight(k1, m1, c),
{
    if m2.dom().contains(c) {
        lemma_domain_small(m2[c]);
        if m1.dom().contains(c) {
            vstd::set_lib::lemma_len_subset(m2[c], m1[c]);
        }
    }
}

proof fn lemma_refines_trans(
    k1: Set<CellId>,
    m1: Map<CellId, Set<int>>,
    k2: Set<CellId>,
    m2: Map<CellId, Set<int>>,
    k3: Set<CellId>,
    m3: Map<CellId, Set<int>>,
)
    requires
        refines(k1, m1, k2, m2),
        refines(k2, m2, k3, m3),
    ensures
        refines(k1, m1, k3, m3),
{
    assert forall|c: CellId| #[trigger] m1.dom().contains(c) implies m3[c].subset_of(m1[c]) by {
        assert(m2.dom().contains(c));
        assert(m2[c].subset_of(m1[c]));
        assert(m3[c].subset_of(m2[c]));
    }
}

proof fn lemma_progress_trans(
    k1: Set<CellId>,
    m1: Map<CellId, Set<int>>,
    k2: Set<CellId>,
    m2: Map<CellId, Set<int>>,
    k3: Set<CellId>,
    m3: Map<CellId, Set<int>>,
    s: Set<CellId>,
    a: bool,
    b: bool,
)
    requires
        progress(k1, m1, k2, m2, s, a),
        progress(k2, m2, k3, m3, s, b),
        facts_map_valid(m1),
        facts_map_valid(m2),
        facts_map_valid(m3),
    ensures
        progress(k1, m1, k3, m3, s, a || b),
{
    lemma_refines_trans(k1, m1, k2, m2, k3, m3);
    if a {
        let c = choose|c: CellId| s.contains(c) && #[trigger] cell_weight(k2, m2, c) < cell_weight(k1, m1, c);
        lemma_refines_weight(k2, m2, k3, m3, c);
        assert(cell_weight(k3, m3, c) < cell_weight(k1, m1, c));
    } else if b {
        let c = choose|c: CellId| s.contains(c) && #[trigger] cell_weight(k3, m3, c) < cell_weight(k2, m2, c);
        assert(cell_weight(k3, m3, c) < cell_weight(k1, m1, c));
    }
}

/// The weight of a list only goes down as knowledge refines, and strictly where a listed
/// cell's weight does.
proof fn lemma_weight_mono(
    u: Seq<CellId>,
    k1: Set<CellId>,
    m1: Map<CellId, Set<int>>,
    k2: Set<CellId>,
    m2: Map<CellId, Set<int>>,
)
    requires
        refines(k1, m1, k2, m2),
        facts_map_valid(m1),
        facts_map_valid(m2),
    ensures
        weight(u, k2, m2) <= weight(u, k1, m1),
        forall|c: CellId|
            u.contains(c) && #[trigger] cell_weight(k2, m2, c) < cell_weight(k1, m1, c) ==> weight(u, k2, m2) < weight(u, k1, m1),
    decreases u.len(),
{
    if u.len() > 0 {
        lemma_weight_mono(u.drop_last(), k1, m1, k2, m2);
        lemma_refines_weight(k1, m1, k2, m2, u.last());
        assert forall|c: CellId| u.contains(c) && #[trigger] cell_weight(k2, m2, c) < cell_weight(k1, m1, c) implies weight(u, k2, m2) < weight(u, k1, m1) by {
            let i = choose|i: int| 0 <= i < u.len() && u[i] == c;
            if i < u.len() - 1 {
                assert(u.drop_last()[i] == c);
                assert(u.drop_last().contains(c));
            }
        }
    }
}

/// A domain settled in `Delta`: the cell has a domain that a new one would not narrow.
pub open spec fn domain_settled(m: Map<CellId, Set<int>>, c: CellId, d: Set<int>) -> bool {
    m.dom().contains(c) && (m[c].intersect(d).is_empty() || m[c].intersect(d) == m[c])
}

/// Marking a valid domain is a step of progress at its cell; where it reports no change, the
/// domain was settled.
proof fn lemma_mark_domain_progress(k: Set<CellId>, m: Map<CellId, Set<int>>, c: CellId, d: UcpValueDomain)
    requires
        facts_map_valid(m),
        facts_map_valid(mark_domain_model(m, c, d).0),
    ensures
        progress(k, m, k, mark_domain_model(m, c, d).0, set![c], mark_domain_model(m, c, d).1),
        domain_valid(d) && !mark_domain_model(m, c, d).1 ==> domain_settled(m, c, d@),
{
    let (m2, r) = mark_domain_model(m, c, d);
    match new_domain_model(d) {
        None => {},
        Some(n) => {
            if !m.dom().contains(c) {
                assert(refines(k, m, k, m2));
                lemma_domain_small(m2[c]);
                assert(set![c].contains(c));
                assert(cell_weight(k, m2, c) < cell_weight(k, m, c));
            } else {
                let i = m[c].intersect(n);
                if !(i.is_empty() || i == m[c]) {
                    assert(refines(k, m, k, m2));
                    vstd::set_lib::lemma_len_subset(i, m[c]);
                    if i.len() == m[c].len() {
                        vstd::set_lib::lemma_subset_equality(i, m[c]);
                    }
                    assert(set![c].contains(c));
                    assert(cell_weight(k, m2, c) < cell_weight(k, m, c));
                }
            }
            if domain_valid(d) {
                lemma_domain_valid(d);
            }
        },
    }
    assert(refines(k, m, k, m2));
}

/// Making a cell unique is a step of progress at that cell.
proof fn lemma_mark_unique_progress(k: Set<CellId>, m: Map<CellId, Set<int>>, c: CellId)
    ensures
        progress(k, m, k.insert(c), m, set![c], !k.contains(c)),
{
    if !k.contains(c) {
        assert(set![c].contains(c));
        assert(cell_weight(k.insert(c), m, c) < cell_weight(k, m, c));
    } else {
        assert(k.insert(c) =~= k);
    }
}

/// A step of progress within a smaller set of cells is one within a larger set.
proof fn lemma_progress_widen(
    k1: Set<CellId>,
    m1: Map<CellId, Set<int>>,
    k2: Set<CellId>,
    m2: Map<CellId, Set<int>>,
    s: Set<CellId>,
    t: Set<CellId>,
    changed: bool,
)
    requires
        progress(k1, m1, k2, m2, s, changed),
        s.subset_of(t),
    ensures
        progress(k1, m1, k2, m2, t, changed),
{
    if changed {
        let c = choose|c: CellId| s.contains(c) && #[trigger] cell_weight(k2, m2, c) < cell_weight(k1, m1, c);
        assert(t.contains(c));
    }
}

/// The value rules have nothing left to teach about an equation: every domain they infer
/// is settled in `Delta`, and every exact one is for a cell of `K`.
pub open spec fn value_rule_closed(e: ExprModel, k: Set<CellId>, m: Map<CellId, Set<int>>, p: Option<int>) -> bool {
    forall|i: int|
        0 <= i < value_inference_model(e, m, p).len() ==> {
            let inf = #[trigger] value_inference_model(e, m, p)[i];
            domain_settled(m, inf.0, inf.1) && (inf.1.len() == 1 ==> k.contains(inf.0))
        }
}

/// The Assign rule has nothing left to teach about an equation.
pub open spec fn assign_rule_closed(e: ExprModel, k: Set<CellId>) -> bool {
    unique_model(e, k) || assigned_cell_model(e, k) is None
}

/// The per-equation rules have nothing left to teach about an equation.
pub open spec fn expr_closed(e: ExprModel, k: Set<CellId>, m: Map<CellId, Set<int>>, p: Option<int>) -> bool {
    value_rule_closed(e, k, m, p) && assign_rule_closed(e, k)
}

/// The All-But-One-0 rule has nothing left to teach: every output it finds is in `K`, and
/// every value it finds is settled in `Delta`.
pub open spec fn all_but_one_closed(es: Seq<ExprModel>, k: Set<CellId>, m: Map<CellId, Set<int>>) -> bool {
    let f = first_values_from(Map::empty(), abo_candidates(es, k, m));
    forall|c: CellId|
        #[trigger] f.dom().contains(c) ==> k.contains(c) && (f[c] matches Some(x) ==> !in_i64_range(x)
            || domain_settled(m, c, set![x]))
}

/// The Base-Conv rule has nothing left to teach: every digit it finds is in `K`, and every
/// digit value it finds is settled in `Delta`.
pub open spec fn base_conv_closed(es: Seq<ExprModel>, k: Set<CellId>, m: Map<CellId, Set<int>>, p: int) -> bool {
    let f = first_values_from(Map::empty(), base_conv_found(es, k, m, p));
    forall|c: CellId|
        #[trigger] f.dom().contains(c) ==> k.contains(c) && (f[c] matches Some(x) ==> !in_i64_range(x)
            || domain_settled(m, c, set![x]))
}

/// The rules over all equations that need the modulus have nothing left to teach.
pub open spec fn modulus_rules_closed(es: Seq<ExprModel>, k: Set<CellId>, m: Map<CellId, Set<int>>, p: Option<int>) -> bool {
    match p {
        Some(q) => base_conv_closed(es, k, m, q) && bigint_closed(es, k, q),
        None => true,
    }
}

/// The BigInt-Mul rule has nothing left to teach: for a field modulus, every cell of an
/// equation whose component of equations fixes it is in `K`.
pub open spec fn bigint_closed(es: Seq<ExprModel>, k: Set<CellId>, q: int) -> bool {
    q > 1 && invertible_mod(q) ==> forall|c: CellId|
        in_some_equation(equations_model(es, k, q), c) && #[trigger] component_fixed(equations_model(es, k, q), c, q)
            ==> k.contains(c)
}

/// Applies the domains inferred from one equation: each is marked in `Delta`, and an exact
/// one also makes its cell unique. Reports whether anything changed.
fn apply_value_inferences(
    facts: &mut UcpFacts,
    value_facts: &mut UcpValueFacts,
    inferences: &Vec<(CellId, UcpValueDomain)>,
) -> (changed: bool)
    requires
        old(value_facts).wf(),
        inferences_valid(inferences@),
    ensures
        final(value_facts).wf(),
        progress(old(facts)@, old(value_facts)@, final(facts)@, final(value_facts)@, inference_cells(inferences@), changed),
        !changed ==> forall|i: int|
            0 <= i < inferences@.len() ==> domain_settled(old(value_facts)@, #[trigger] inferences@[i].0, inferences@[i].1@)
                && (inferences@[i].1@.len() == 1 ==> old(facts)@.contains(inferences@[i].0)),
        forall|c: CellId|
            #[trigger] final(facts)@.contains(c) && !old(facts)@.contains(c) ==> exists|i: int|
                0 <= i < inferences@.len() && inferences@[i].0 == c && inferences@[i].1@.len() == 1,
        changed_only_at(old(value_facts)@, final(value_facts)@, inference_cells(inferences@)),
        (forall|a: int, b: int| 0 <= a < b < inferences@.len() ==> #[trigger] inferences@[a].0 != #[trigger] inferences@[b].0)
            ==> forall|c: CellId|
            #[trigger] final(value_facts)@.dom().contains(c) && !(old(value_facts)@.dom().contains(c) && final(value_facts)@[c]
                == old(value_facts)@[c]) ==> exists|j: int|
                0 <= j < inferences@.len() && inferences@[j].0 == c && narrowed_by(
                    old(value_facts)@,
                    final(value_facts)@,
                    c,
                    inferences@[j].1@,
                ),
{
    let ghost k0 = facts@;
    let ghost m0 = value_facts@;
    let ghost s = inference_cells(inferences@);
    let mut changed = false;
    let mut i: usize = 0;
    proof {
        value_facts.lemma_wf();
    }
    while i < inferences.len()
        invariant
            value_facts.wf(),
            inferences_valid(inferences@),
            s == inference_cells(inferences@),
            facts_map_valid(m0),
            i <= inferences@.len(),
            progress(k0, m0, facts@, value_facts@, s, changed),
            !changed ==> forall|j: int|
                0 <= j < i ==> domain_settled(m0, #[trigger] inferences@[j].0, inferences@[j].1@) && (
                inferences@[j].1@.len() == 1 ==> k0.contains(inferences@[j].0)),
            forall|c: CellId|
                #[trigger] facts@.contains(c) && !k0.contains(c) ==> exists|j: int|
                    0 <= j < inferences@.len() && inferences@[j].0 == c && inferences@[j].1@.len() == 1,
            changed_only_at(m0, value_facts@, s),
            (forall|a: int, b: int| 0 <= a < b < inferences@.len() ==> #[trigger] inferences@[a].0 != #[trigger] inferences@[b].0)
                ==> forall|c: CellId|
                #[trigger] value_facts@.dom().contains(c) && !(m0.dom().contains(c) && value_facts@[c] == m0[c]) ==> exists|j: int|
                    0 <= j < i && inferences@[j].0 == c && narrowed_by(m0, value_facts@, c, inferences@[j].1@),
        decreases inferences@.len() - i,
    {
        proof {
            value_facts.lemma_wf();
        }
        let ghost k1 = facts@;
        let ghost m1 = value_facts@;
        let cell = inferences[i].0;
        let domain = inferences[i].1.clone();
        proof {
            assert(domain_valid(inferences@[i as int].1));
            crate::value::lemma_domain_clone(inferences@[i as int].1, domain);
            lemma_domain_valid(domain);
            assert(s.contains(cell));
        }
        let is_exact = domain.is_singleton();
        let ghost dv = domain;
        let c1 = value_facts.mark_domain(cell, domain);
        proof {
            value_facts.lemma_wf();
            assert forall|c: CellId| #[trigger] value_facts@.dom().contains(c) && !(m0.dom().contains(c) && value_facts@[c] == m0[c])
                implies s.contains(c) by {
                if c != cell {
                    assert(m1.dom().contains(c) && value_facts@[c] == m1[c]);
                }
            }
            if forall|a: int, b: int| 0 <= a < b < inferences@.len() ==> #[trigger] inferences@[a].0 != #[trigger] inferences@[b].0 {
                assert(dv@ == inferences@[i as int].1@);
                assert(new_domain_model(dv) == Some(dv@));
                assert(m1.dom().contains(cell) == m0.dom().contains(cell) && (m0.dom().contains(cell) ==> m1[cell] == m0[cell])) by {
                    if m1.dom().contains(cell) && !(m0.dom().contains(cell) && m1[cell] == m0[cell]) {
                        let j = choose|j: int| 0 <= j < i && inferences@[j].0 == cell && narrowed_by(m0, m1, cell, inferences@[j].1@);
                        assert(inferences@[j].0 != inferences@[i as int].0);
                    }
                }
                assert forall|c: CellId| #[trigger] value_facts@.dom().contains(c) && !(m0.dom().contains(c) && value_facts@[c] == m0[c])
                    implies exists|j: int| 0 <= j < i + 1 && inferences@[j].0 == c && narrowed_by(m0, value_facts@, c, inferences@[j].1@) by {
                    if c != cell {
                        assert(m1.dom().contains(c) && value_facts@[c] == m1[c]);
                        let j = choose|j: int| 0 <= j < i && inferences@[j].0 == c && narrowed_by(m0, m1, c, inferences@[j].1@);
                        if m0.dom().contains(c) {
                            assert(m1.dom().contains(c));
                        }
                    } else {
                        assert(inferences@[i as int].0 == c);
                        assert(narrowed_by(m0, value_facts@, c, inferences@[i as int].1@));
                    }
                }
            }
            lemma_mark_domain_progress(k1, m1, cell, dv);
            lemma_progress_widen(k1, m1, k1, value_facts@, set![cell], s, c1);
            lemma_progress_trans(k0, m0, k1, m1, k1, value_facts@, s, changed, c1);
        }
        let c2 = if is_exact {
            let ghost k2 = facts@;
            let r = facts.mark_unique(cell);
            proof {
                assert(dv@ == inferences@[i as int].1@);
                assert forall|c: CellId| #[trigger] facts@.contains(c) && !k0.contains(c) implies exists|j: int|
                    0 <= j < inferences@.len() && inferences@[j].0 == c && inferences@[j].1@.len() == 1 by {
                    if c == cell {
                        assert(inferences@[i as int].0 == c);
                    } else {
                        assert(k2.contains(c));
                    }
                }
                lemma_mark_unique_progress(k2, value_facts@, cell);
                lemma_progress_widen(k2, value_facts@, facts@, value_facts@, set![cell], s, r);
                lemma_progress_trans(k0, m0, k2, value_facts@, facts@, value_facts@, s, changed || c1, r);
            }
            r
        } else {
            false
        };
        changed = changed || c1 || c2;
        i = i + 1;
    }
    changed
}

/// Applies cells that a rule over all equations proved unique, with their values where
/// known. Reports whether anything changed.
fn apply_unique_inferences(
    facts: &mut UcpFacts,
    value_facts: &mut UcpValueFacts,
    items: &Vec<(CellId, Option<Integer>)>,
) -> (changed: bool)
    requires
        old(value_facts).wf(),
    ensures
        final(value_facts).wf(),
        progress(
            old(facts)@,
            old(value_facts)@,
            final(facts)@,
            final(value_facts)@,
            Set::new(|c: CellId| exists|i: int| 0 <= i < items@.len() && #[trigger] items@[i].0 == c),
            changed,
        ),
        !changed ==> forall|i: int|
            0 <= i < items@.len() ==> old(facts)@.contains(#[trigger] items@[i].0) && (items@[i].1 matches Some(
                x,
            ) ==> !in_i64_range(x@) || domain_settled(old(value_facts)@, items@[i].0, set![x@])),
        changed_only_at(
            old(value_facts)@,
            final(value_facts)@,
            Set::new(|c: CellId| exists|i: int| 0 <= i < items@.len() && #[trigger] items@[i].0 == c && items@[i].1 is Some),
        ),
        (forall|a: int, b: int| 0 <= a < b < items@.len() ==> #[trigger] items@[a].0 != #[trigger] items@[b].0) ==> forall|c: CellId|
            #[trigger] final(value_facts)@.dom().contains(c) && !(old(value_facts)@.dom().contains(c) && final(value_facts)@[c]
                == old(value_facts)@[c]) ==> exists|j: int|
                0 <= j < items@.len() && items@[j].0 == c && items@[j].1 is Some && in_i64_range(items@[j].1.unwrap()@)
                    && narrowed_by(old(value_facts)@, final(value_facts)@, c, set![items@[j].1.unwrap()@]),
{
    let ghost k0 = facts@;
    let ghost m0 = value_facts@;
    let ghost s = Set::new(|c: CellId| exists|i: int| 0 <= i < items@.len() && #[trigger] items@[i].0 == c);
    let mut changed = false;
    let mut i: usize = 0;
    proof {
        value_facts.lemma_wf();
    }
    while i < items.len()
        invariant
            value_facts.wf(),
            s == Set::new(|c: CellId| exists|i: int| 0 <= i < items@.len() && #[trigger] items@[i].0 == c),
            facts_map_valid(m0),
            i <= items@.len(),
            progress(k0, m0, facts@, value_facts@, s, changed),
            !changed ==> forall|j: int|
                0 <= j < i ==> k0.contains(#[trigger] items@[j].0) && (items@[j].1 matches Some(x) ==> !in_i64_range(
                    x@,
                ) || domain_settled(m0, items@[j].0, set![x@])),
            changed_only_at(
                m0,
                value_facts@,
                Set::new(|c: CellId| exists|i: int| 0 <= i < items@.len() && #[trigger] items@[i].0 == c && items@[i].1 is Some),
            ),
            (forall|a: int, b: int| 0 <= a < b < items@.len() ==> #[trigger] items@[a].0 != #[trigger] items@[b].0) ==> forall|c: CellId|
                #[trigger] value_facts@.dom().contains(c) && !(m0.dom().contains(c) && value_facts@[c] == m0[c]) ==> exists|j: int|
                    0 <= j < i && items@[j].0 == c && items@[j].1 is Some && in_i64_range(items@[j].1.unwrap()@)
                        && narrowed_by(m0, value_facts@, c, set![items@[j].1.unwrap()@]),
        decreases items@.len() - i,
    {
        proof {
            value_facts.lemma_wf();
        }
        let ghost k1 = facts@;
        let ghost m1 = value_facts@;
        let cell = items[i].0;
        proof {
            assert(s.contains(cell));
        }
        let c1 = match &items[i].1 {
            Some(v) => {
                let vc = v.clone();
                let ghost d = UcpValueDomain::Exact(vc);
                let r = value_facts.mark_known(cell, vc);
                proof {
                    value_facts.lemma_wf();
                    let sv = Set::new(|c: CellId| exists|i: int| 0 <= i < items@.len() && #[trigger] items@[i].0 == c && items@[i].1 is Some);
                    assert forall|c: CellId| #[trigger] value_facts@.dom().contains(c) && !(m0.dom().contains(c) && value_facts@[c] == m0[c])
                        implies sv.contains(c) by {
                        if c != cell {
                            assert(m1.dom().contains(c) && value_facts@[c] == m1[c]);
                        } else {
                            assert(items@[i as int].0 == c && items@[i as int].1 is Some);
                        }
                    }
                    if in_i64_range(v@) {
                        crate::domain::lemma_single_seq_set(v@);
                        assert(new_domain_model(d) == Some(set![v@]));
                    } else {
                        assert(domain_values_model(d) == seq![vc@]);
                        assert(domain_values_model(d)[0] == v@);
                        assert(!all_in_range(domain_values_model(d)));
                        assert(new_domain_model(d) is None);
                    }
                    if forall|a: int, b: int| 0 <= a < b < items@.len() ==> #[trigger] items@[a].0 != #[trigger] items@[b].0 {
                        assert(items@[i as int].1 == Some(*v));
                        assert(m1.dom().contains(cell) == m0.dom().contains(cell) && (m0.dom().contains(cell) ==> m1[cell] == m0[cell])) by {
                            if m1.dom().contains(cell) && !(m0.dom().contains(cell) && m1[cell] == m0[cell]) {
                                let j = choose|j: int| 0 <= j < i && items@[j].0 == cell && items@[j].1 is Some && in_i64_range(items@[j].1.unwrap()@)
                                    && narrowed_by(m0, m1, cell, set![items@[j].1.unwrap()@]);
                                assert(items@[j].0 != items@[i as int].0);
                            }
                        }
                        assert forall|c: CellId| #[trigger] value_facts@.dom().contains(c) && !(m0.dom().contains(c) && value_facts@[c] == m0[c])
                            implies exists|j: int| 0 <= j < i + 1 && items@[j].0 == c && items@[j].1 is Some && in_i64_range(items@[j].1.unwrap()@)
                                && narrowed_by(m0, value_facts@, c, set![items@[j].1.unwrap()@]) by {
                            if c != cell {
                                assert(m1.dom().contains(c) && value_facts@[c] == m1[c]);
                                let j = choose|j: int| 0 <= j < i && items@[j].0 == c && items@[j].1 is Some && in_i64_range(items@[j].1.unwrap()@)
                                    && narrowed_by(m0, m1, c, set![items@[j].1.unwrap()@]);
                                if m0.dom().contains(c) {
                                    assert(m1.dom().contains(c));
                                }
                            } else {
                                assert(items@[i as int].0 == c);
                                assert(narrowed_by(m0, value_facts@, c, set![items@[i as int].1.unwrap()@]));
                            }
                        }
                    }
                    lemma_mark_domain_progress(k1, m1, cell, d);
                    lemma_progress_widen(k1, m1, k1, value_facts@, set![cell], s, r);
                    if !r && in_i64_range(v@) {
                        crate::domain::lemma_single_seq_set(v@);
                        assert(domain_valid(d));
                        assert(d@ == set![v@]);
                    }
                }
                r
            },
            None => false,
        };
        proof {
            lemma_progress_trans(k0, m0, k1, m1, k1, value_facts@, s, changed, c1);
        }
        let ghost k2 = facts@;
        let c2 = facts.mark_unique(cell);
        proof {
            lemma_mark_unique_progress(k2, value_facts@, cell);
            lemma_progress_widen(k2, value_facts@, facts@, value_facts@, set![cell], s, c2);
            lemma_progress_trans(k0, m0, k2, value_facts@, facts@, value_facts@, s, changed || c1, c2);
        }
        changed = changed || c1 || c2;
        i = i + 1;
    }
    changed
}

fn clone_value(v: &Option<Integer>) -> (r: Option<Integer>)
    ensures
        r matches Some(x) ==> v matches Some(y) && x@ == y@,
        r is None ==> v is None,
{
    match v {
        Some(x) => Some(x.clone()),
        None => None,
    }
}

/// One round of all rules over all equations. Reports whether anything changed; where
/// nothing did, the per-equation rules are closed on every equation.
fn run_round(
    expressions: &[UcpExpr],
    facts: &mut UcpFacts,
    value_facts: &mut UcpValueFacts,
    modulus: Option<&Integer>,
) -> (changed: bool)
    requires
        old(value_facts).wf(),
    ensures
        final(value_facts).wf(),
        progress(
            old(facts)@,
            old(value_facts)@,
            final(facts)@,
            final(value_facts)@,
            exprs_cells(exprs_model(expressions@)),
            changed,
        ),
        !changed ==> forall|i: int|
            0 <= i < expressions@.len() ==> expr_closed(
                #[trigger] expressions@[i]@,
                old(facts)@,
                old(value_facts)@,
                opt_view(modulus),
            ),
        !changed ==> all_but_one_closed(exprs_model(expressions@), old(facts)@, old(value_facts)@),
        !changed ==> modulus_rules_closed(exprs_model(expressions@), old(facts)@, old(value_facts)@, opt_view(modulus)),
        derived_by_rules(
            exprs_model(expressions@),
            opt_view(modulus),
            old(facts)@,
            old(value_facts)@,
            final(facts)@,
            final(value_facts)@,
        ),
{
    let ghost k0 = facts@;
    let ghost m0 = value_facts@;
    let ghost es = exprs_model(expressions@);
    let ghost s = exprs_cells(es);
    let ghost p = opt_view(modulus);
    let mut changed = false;
    let mut i: usize = 0;
    proof {
        value_facts.lemma_wf();
        lemma_derived_refl(es, p, k0, m0);
    }
    while i < expressions.len()
        invariant
            value_facts.wf(),
            es == exprs_model(expressions@),
            s == exprs_cells(es),
            facts_map_valid(m0),
            i <= expressions@.len(),
            progress(k0, m0, facts@, value_facts@, s, changed),
            !changed ==> forall|j: int|
                0 <= j < i ==> expr_closed(#[trigger] expressions@[j]@, k0, m0, opt_view(modulus)),
            p == opt_view(modulus),
            derived_by_rules(es, p, k0, m0, facts@, value_facts@),
        decreases expressions@.len() - i,
    {
        proof {
            value_facts.lemma_wf();
        }
        let ghost k1 = facts@;
        let ghost m1 = value_facts@;
        let expr = &expressions[i];
        proof {
            assert(es[i as int] == expr@);
            assert forall|c: CellId| expr_cells(expr@).contains(c) implies s.contains(c) by {
                assert(expr_cells(es[i as int]).contains(c));
            }
        }
        let inferences = match modulus {
            Some(p) => infer_value_domains_from_zero_equation_with_modulus(expr, value_facts, p),
            None => infer_value_domains_from_zero_equation(expr, value_facts),
        };
        proof {
            assert(inference_view(inferences@) == value_inference_model(es[i as int], m1, p));
        }
        let c1 = apply_value_inferences(facts, value_facts, &inferences);
        proof {
            assert forall|c: CellId| #[trigger] facts@.contains(c) && !k1.contains(c) implies rule_unique_cell(es, k1, m1, p, c) by {
                let j = choose|j: int| 0 <= j < inferences@.len() && inferences@[j].0 == c && inferences@[j].1@.len() == 1;
                assert(inference_view(inferences@)[j] == (inferences@[j].0, inferences@[j].1@));
                assert(value_inference_model(es[i as int], m1, p)[j].0 == c);
                assert(value_exact_cell(es[i as int], m1, p, c));
            }
            lemma_inference_distinct(es[i as int], m1, p);
            assert forall|a: int, b: int| 0 <= a < b < inferences@.len() implies #[trigger] inferences@[a].0 != #[trigger] inferences@[b].0 by {
                assert(inference_view(inferences@)[a].0 == inferences@[a].0);
                assert(inference_view(inferences@)[b].0 == inferences@[b].0);
            }
            assert forall|c: CellId| #[trigger] value_facts@.dom().contains(c) && !(m1.dom().contains(c) && value_facts@[c] == m1[c])
                implies exists|d: Set<int>| rule_domain(es, k1, m1, p, c, d) && narrowed_by(m1, value_facts@, c, d) by {
                let j = choose|j: int|
                    0 <= j < inferences@.len() && inferences@[j].0 == c && narrowed_by(m1, value_facts@, c, inferences@[j].1@);
                assert(inference_view(inferences@)[j] == (inferences@[j].0, inferences@[j].1@));
                assert(value_inference_model(es[i as int], m1, p)[j] == (c, inferences@[j].1@));
                assert(rule_domain(es, k1, m1, p, c, inferences@[j].1@));
            }
            assert(rule_step(es, p, k1, m1, facts@, value_facts@));
            lemma_derived_step(es, p, k0, m0, k1, m1, facts@, value_facts@);
            value_facts.lemma_wf();
            lemma_progress_widen(k1, m1, facts@, value_facts@, inference_cells(inferences@), s, c1);
            lemma_progress_trans(k0, m0, k1, m1, facts@, value_facts@, s, changed, c1);
        }
        let ghost k2 = facts@;
        let mut c2 = false;
        if !expression_is_unique(expr, facts) {
            if let Some(cell) = infer_assigned_cell_from_zero_equation(expr, facts) {
                proof {
                    lemma_assigned_cell_is_new(expr@, k2);
                }
                c2 = facts.mark_unique(cell);
                proof {
                    lemma_mark_unique_progress(k2, value_facts@, cell);
                    lemma_progress_widen(k2, value_facts@, facts@, value_facts@, set![cell], s, c2);
                }
            }
        }
        proof {
            if !c2 {
                assert(facts@ == k2);
            }
            assert forall|c: CellId| #[trigger] facts@.contains(c) && !k2.contains(c) implies rule_unique_cell(es, k2, value_facts@, p, c) by {
                assert(assigned_cell_model(es[i as int], k2) == Some(c));
            }
            assert(rule_step(es, p, k2, value_facts@, facts@, value_facts@));
            lemma_derived_step(es, p, k0, m0, k2, value_facts@, facts@, value_facts@);
            lemma_progress_trans(k0, m0, k2, value_facts@, facts@, value_facts@, s, changed || c1, c2);
            if !(changed || c1 || c2) {
                assert(k1 == k0 && m1 == m0);
                assert forall|j: int| 0 <= j < inference_view(inferences@).len() implies {
                    let inf = #[trigger] inference_view(inferences@)[j];
                    domain_settled(m0, inf.0, inf.1) && (inf.1.len() == 1 ==> k0.contains(inf.0))
                } by {
                    assert(inference_view(inferences@)[j] == (inferences@[j].0, inferences@[j].1@));
                }
                assert(expr_closed(expressions@[i as int]@, k0, m0, opt_view(modulus)));
            }
        }
        changed = changed || c1 || c2;
        i = i + 1;
    }
    proof {
        value_facts.lemma_wf();
    }
    let ghost k3 = facts@;
    let ghost m3 = value_facts@;
    let abo = infer_all_but_one_zero(expressions, facts, value_facts);
    let mut items: Vec<(CellId, Option<Integer>)> = Vec::new();
    let mut j: usize = 0;
    while j < abo.len()
        invariant
            j <= abo@.len(),
            items@.len() == j,
            forall|k: int| 0 <= k < j ==> #[trigger] items@[k].0 == abo@[k].cell && crate::all_but_one::opt_int(items@[k].1) == crate::all_but_one::opt_int(abo@[k].value),
            forall|k: int| 0 <= k < abo@.len() ==> s.contains(#[trigger] abo@[k].cell),
        decreases abo@.len() - j,
    {
        items.push((abo[j].cell, clone_value(&abo[j].value)));
        j = j + 1;
    }
    let c3 = apply_unique_inferences(facts, value_facts, &items);
    proof {
        value_facts.lemma_wf();
        let si = Set::new(|c: CellId| exists|i: int| 0 <= i < items@.len() && #[trigger] items@[i].0 == c);
        let fa = first_values_from(Map::empty(), abo_candidates(es, k3, m3));
        assert forall|c: CellId| #[trigger] facts@.contains(c) && !k3.contains(c) implies rule_unique_cell(es, k3, m3, p, c) by {
            assert(si.contains(c));
            let k = choose|k: int| 0 <= k < items@.len() && #[trigger] items@[k].0 == c;
            assert(fa.dom().contains(abo@[k].cell));
        }
        assert forall|a: int, b: int| 0 <= a < b < items@.len() implies #[trigger] items@[a].0 != #[trigger] items@[b].0 by {
            assert(cell_lt(abo@.map_values(|x: AllButOneInference| x.cell)[a], abo@.map_values(|x: AllButOneInference| x.cell)[b]));
        }
        assert forall|c: CellId| #[trigger] value_facts@.dom().contains(c) && !(m3.dom().contains(c) && value_facts@[c] == m3[c])
            implies exists|d: Set<int>| rule_domain(es, k3, m3, p, c, d) && narrowed_by(m3, value_facts@, c, d) by {
            let k = choose|k: int| 0 <= k < items@.len() && items@[k].0 == c && items@[k].1 is Some && in_i64_range(items@[k].1.unwrap()@)
                && narrowed_by(m3, value_facts@, c, set![items@[k].1.unwrap()@]);
            let v = items@[k].1.unwrap()@;
            assert(fa.dom().contains(abo@[k].cell) && fa[abo@[k].cell] == crate::all_but_one::opt_int(abo@[k].value));
            assert(fa[c] == Some(v));
            assert(rule_domain(es, k3, m3, p, c, set![v]));
        }
        assert(rule_step(es, p, k3, m3, facts@, value_facts@));
        lemma_derived_step(es, p, k0, m0, k3, m3, facts@, value_facts@);
        assert forall|c: CellId| si.contains(c) implies s.contains(c) by {
            let k = choose|k: int| 0 <= k < items@.len() && #[trigger] items@[k].0 == c;
            assert(s.contains(abo@[k].cell));
        }
        lemma_progress_widen(k3, m3, facts@, value_facts@, si, s, c3);
        lemma_progress_trans(k0, m0, k3, m3, facts@, value_facts@, s, changed, c3);
        if !(changed || c3) {
            let f = first_values_from(Map::empty(), abo_candidates(es, k3, m3));
            assert forall|c: CellId| #[trigger] f.dom().contains(c) implies k0.contains(c) && (f[c] matches Some(x) ==> !in_i64_range(x)
                || domain_settled(m0, c, set![x])) by {
                let k = choose|k: int| 0 <= k < abo@.len() && abo@[k].cell == c;
                assert(items@[k].0 == c);
            }
        }
    }
    changed = changed || c3;
    if let Some(p) = modulus {
        let ghost k4 = facts@;
        let ghost m4 = value_facts@;
        let bc = infer_base_conversions_with_modulus(expressions, facts, value_facts, p);
        let mut items: Vec<(CellId, Option<Integer>)> = Vec::new();
        let mut j: usize = 0;
        while j < bc.len()
            invariant
                j <= bc@.len(),
                items@.len() == j,
                forall|k: int| 0 <= k < j ==> #[trigger] items@[k].0 == bc@[k].cell && crate::all_but_one::opt_int(items@[k].1) == crate::all_but_one::opt_int(bc@[k].value),
                forall|k: int| 0 <= k < bc@.len() ==> s.contains(#[trigger] bc@[k].cell),
            decreases bc@.len() - j,
        {
            items.push((bc[j].cell, clone_value(&bc[j].value)));
            j = j + 1;
        }
        let c4 = apply_unique_inferences(facts, value_facts, &items);
        proof {
            value_facts.lemma_wf();
            let si = Set::new(|c: CellId| exists|i: int| 0 <= i < items@.len() && #[trigger] items@[i].0 == c);
            let fb = first_values_from(Map::empty(), base_conv_found(es, k4, m4, p@));
            assert forall|c: CellId| #[trigger] facts@.contains(c) && !k4.contains(c) implies rule_unique_cell(es, k4, m4, opt_view(modulus), c) by {
                assert(si.contains(c));
                let k = choose|k: int| 0 <= k < items@.len() && #[trigger] items@[k].0 == c;
                assert(fb.dom().contains(bc@[k].cell));
            }
            assert forall|a: int, b: int| 0 <= a < b < items@.len() implies #[trigger] items@[a].0 != #[trigger] items@[b].0 by {
                assert(cell_lt(bc@.map_values(|x: BaseConvInference| x.cell)[a], bc@.map_values(|x: BaseConvInference| x.cell)[b]));
            }
            assert forall|c: CellId| #[trigger] value_facts@.dom().contains(c) && !(m4.dom().contains(c) && value_facts@[c] == m4[c])
                implies exists|d: Set<int>| rule_domain(es, k4, m4, opt_view(modulus), c, d) && narrowed_by(m4, value_facts@, c, d) by {
                let k = choose|k: int| 0 <= k < items@.len() && items@[k].0 == c && items@[k].1 is Some && in_i64_range(items@[k].1.unwrap()@)
                    && narrowed_by(m4, value_facts@, c, set![items@[k].1.unwrap()@]);
                let v = items@[k].1.unwrap()@;
                assert(fb.dom().contains(bc@[k].cell) && fb[bc@[k].cell] == crate::all_but_one::opt_int(bc@[k].value));
                assert(fb[c] == Some(v));
                assert(rule_domain(es, k4, m4, opt_view(modulus), c, set![v]));
            }
            assert(rule_step(es, opt_view(modulus), k4, m4, facts@, value_facts@));
            lemma_derived_step(es, opt_view(modulus), k0, m0, k4, m4, facts@, value_facts@);
            assert forall|c: CellId| si.contains(c) implies s.contains(c) by {
                let k = choose|k: int| 0 <= k < items@.len() && #[trigger] items@[k].0 == c;
                assert(s.contains(bc@[k].cell));
            }
            lemma_progress_widen(k4, m4, facts@, value_facts@, si, s, c4);
            lemma_progress_trans(k0, m0, k4, m4, facts@, value_facts@, s, changed, c4);
            if !(changed || c4) {
                let f = first_values_from(Map::empty(), base_conv_found(es, k4, m4, p@));
                assert forall|c: CellId| #[trigger] f.dom().contains(c) implies k0.contains(c) && (f[c] matches Some(x) ==> !in_i64_range(x)
                    || domain_settled(m0, c, set![x])) by {
                    let k = choose|k: int| 0 <= k < bc@.len() && bc@[k].cell == c;
                    assert(items@[k].0 == c);
                }
                assert(base_conv_closed(es, k0, m0, p@));
            }
        }
        changed = changed || c4;
        let ghost k5 = facts@;
        let ghost m5 = value_facts@;
        let bm = infer_bigint_mul_with_modulus(expressions, facts, p);
        let mut items: Vec<(CellId, Option<Integer>)> = Vec::new();
        let mut j: usize = 0;
        while j < bm.len()
            invariant
                j <= bm@.len(),
                items@.len() == j,
                forall|k: int| 0 <= k < j ==> #[trigger] items@[k].0 == bm@[k].cell && items@[k].1 is None,
                forall|k: int| 0 <= k < bm@.len() ==> s.contains(#[trigger] bm@[k].cell),
            decreases bm@.len() - j,
        {
            items.push((bm[j].cell, None));
            j = j + 1;
        }
        let c5 = apply_unique_inferences(facts, value_facts, &items);
        proof {
            value_facts.lemma_wf();
            let si = Set::new(|c: CellId| exists|i: int| 0 <= i < items@.len() && #[trigger] items@[i].0 == c);
            assert forall|c: CellId| #[trigger] facts@.contains(c) && !k5.contains(c) implies rule_unique_cell(es, k5, m5, opt_view(modulus), c) by {
                assert(si.contains(c));
                let k = choose|k: int| 0 <= k < items@.len() && #[trigger] items@[k].0 == c;
                assert(component_fixed(equations_model(es, k5, p@), bm@[k].cell, p@));
            }
            assert forall|c: CellId| #[trigger] value_facts@.dom().contains(c) && !(m5.dom().contains(c) && value_facts@[c] == m5[c])
                implies exists|d: Set<int>| rule_domain(es, k5, m5, opt_view(modulus), c, d) && narrowed_by(m5, value_facts@, c, d) by {
                let k = choose|k: int| 0 <= k < items@.len() && #[trigger] items@[k].0 == c && items@[k].1 is Some;
                assert(items@[k].1 is None);
            }
            assert(rule_step(es, opt_view(modulus), k5, m5, facts@, value_facts@));
            lemma_derived_step(es, opt_view(modulus), k0, m0, k5, m5, facts@, value_facts@);
            if !(changed || c5) {
                assert forall|c: CellId|
                    in_some_equation(equations_model(es, k5, p@), c) && #[trigger] component_fixed(equations_model(es, k5, p@), c, p@)
                        && p@ > 1 && invertible_mod(p@) implies k5.contains(c) by {
                    let k = choose|k: int| 0 <= k < bm@.len() && bm@[k].cell == c;
                    assert(items@[k].0 == c);
                }
                assert(bigint_closed(es, k0, p@));
            }
            assert forall|c: CellId| si.contains(c) implies s.contains(c) by {
                let k = choose|k: int| 0 <= k < items@.len() && #[trigger] items@[k].0 == c;
                assert(s.contains(bm@[k].cell));
            }
            lemma_progress_widen(k5, m5, facts@, value_facts@, si, s, c5);
            lemma_progress_trans(k0, m0, k5, m5, facts@, value_facts@, s, changed, c5);
        }
        changed = changed || c5;
    }
    changed
}

/// The value rules on `e` give cell `c` a single value.
pub open spec fn value_exact_cell(e: ExprModel, m: Map<CellId, Set<int>>, p: Option<int>, c: CellId) -> bool {
    exists|j: int|
        0 <= j < value_inference_model(e, m, p).len() && #[trigger] value_inference_model(e, m, p)[j].0 == c
            && value_inference_model(e, m, p)[j].1.len() == 1
}

/// A rule applied to `(k, m)` proves cell `c` unique: the Assign rule or an exact value rule
/// on one equation, the All-But-One-0 rule, and with a modulus the Base-Conv rule or a
/// component of equations that fixes `c`.
pub open spec fn rule_unique_cell(
    es: Seq<ExprModel>,
    k: Set<CellId>,
    m: Map<CellId, Set<int>>,
    p: Option<int>,
    c: CellId,
) -> bool {
    ||| exists|i: int| 0 <= i < es.len() && #[trigger] assigned_cell_model(es[i], k) == Some(c)
    ||| exists|i: int| 0 <= i < es.len() && #[trigger] value_exact_cell(es[i], m, p, c)
    ||| first_values_from(Map::empty(), abo_candidates(es, k, m)).dom().contains(c)
    ||| (p matches Some(q) && first_values_from(Map::empty(), base_conv_found(es, k, m, q)).dom().contains(c))
    ||| (p matches Some(q) && component_fixed(equations_model(es, k, q), c, q))
}

/// A rule applied to `(k, m)` gives cell `c` the domain `d`: a value rule on one equation, or
/// a value that the All-But-One-0 rule, or with a modulus the Base-Conv rule, finds.
pub open spec fn rule_domain(
    es: Seq<ExprModel>,
    k: Set<CellId>,
    m: Map<CellId, Set<int>>,
    p: Option<int>,
    c: CellId,
    d: Set<int>,
) -> bool {
    ||| exists|i: int, j: int|
        0 <= i < es.len() && 0 <= j < value_inference_model(es[i], m, p).len() && #[trigger] value_inference_model(
            es[i],
            m,
            p,
        )[j] == (c, d)
    ||| exists|v: int|
        in_i64_range(v) && d == set![v] && #[trigger] first_values_from(Map::empty(), abo_candidates(es, k, m)).dom().contains(c)
            && first_values_from(Map::empty(), abo_candidates(es, k, m))[c] == Some(v)
    ||| (p matches Some(q) && exists|v: int|
        in_i64_range(v) && d == set![v] && #[trigger] first_values_from(Map::empty(), base_conv_found(es, k, m, q)).dom().contains(c)
            && first_values_from(Map::empty(), base_conv_found(es, k, m, q))[c] == Some(v))
}

/// The domain of `c` in `m2` is that of `m1` narrowed by `d`, or `d` where `m1` has none.
pub open spec fn narrowed_by(m1: Map<CellId, Set<int>>, m2: Map<CellId, Set<int>>, c: CellId, d: Set<int>) -> bool {
    m2[c] == (if m1.dom().contains(c) {
        m1[c].intersect(d)
    } else {
        d
    })
}

/// Every domain that differs from `m1` to `m2` is the old one narrowed by a domain that a rule
/// on `(k1, m1)` gives the cell.
pub open spec fn domains_by_rules(
    es: Seq<ExprModel>,
    p: Option<int>,
    k1: Set<CellId>,
    m1: Map<CellId, Set<int>>,
    m2: Map<CellId, Set<int>>,
) -> bool {
    forall|c: CellId|
        #[trigger] m2.dom().contains(c) && !(m1.dom().contains(c) && m2[c] == m1[c]) ==> exists|d: Set<int>|
            rule_domain(es, k1, m1, p, c, d) && narrowed_by(m1, m2, c, d)
}

/// `Delta` changes from `m1` to `m2` only at cells of `s`.
pub open spec fn changed_only_at(m1: Map<CellId, Set<int>>, m2: Map<CellId, Set<int>>, s: Set<CellId>) -> bool {
    forall|c: CellId|
        #[trigger] m2.dom().contains(c) && !(m1.dom().contains(c) && m2[c] == m1[c]) ==> s.contains(c)
}

/// One application of the rules to `(k1, m1)`: it refines, every cell it makes unique is one
/// that a rule on `(k1, m1)` proves unique, and every domain it changes is narrowed by one that
/// a rule on `(k1, m1)` gives.
pub open spec fn rule_step(
    es: Seq<ExprModel>,
    p: Option<int>,
    k1: Set<CellId>,
    m1: Map<CellId, Set<int>>,
    k2: Set<CellId>,
    m2: Map<CellId, Set<int>>,
) -> bool {
    &&& refines(k1, m1, k2, m2)
    &&& forall|c: CellId| #[trigger] k2.contains(c) && !k1.contains(c) ==> rule_unique_cell(es, k1, m1, p, c)
    &&& domains_by_rules(es, p, k1, m1, m2)
}

/// Consecutive states of a list, each a rule step from the one before.
pub open spec fn steps_ok(es: Seq<ExprModel>, p: Option<int>, t: Seq<(Set<CellId>, Map<CellId, Set<int>>)>) -> bool {
    forall|i: int| 0 <= i < t.len() - 1 ==> #[trigger] rule_step(es, p, t[i].0, t[i].1, t[i + 1].0, t[i + 1].1)
}

/// `(k2, m2)` is reached from `(k1, m1)` by applications of the rules: every cell made unique
/// and every domain changed on the way was derived by a rule.
pub open spec fn derived_by_rules(
    es: Seq<ExprModel>,
    p: Option<int>,
    k1: Set<CellId>,
    m1: Map<CellId, Set<int>>,
    k2: Set<CellId>,
    m2: Map<CellId, Set<int>>,
) -> bool {
    exists|t: Seq<(Set<CellId>, Map<CellId, Set<int>>)>|
        #[trigger] steps_ok(es, p, t) && t.len() >= 1 && t[0] == (k1, m1) && t[t.len() - 1] == (k2, m2)
}

/// A state is reached from itself.
proof fn lemma_derived_refl(es: Seq<ExprModel>, p: Option<int>, k: Set<CellId>, m: Map<CellId, Set<int>>)
    ensures
        derived_by_rules(es, p, k, m, k, m),
{
    let t = seq![(k, m)];
    assert(steps_ok(es, p, t));
}

/// One more rule step extends a derivation.
proof fn lemma_derived_step(
    es: Seq<ExprModel>,
    p: Option<int>,
    k1: Set<CellId>,
    m1: Map<CellId, Set<int>>,
    k2: Set<CellId>,
    m2: Map<CellId, Set<int>>,
    k3: Set<CellId>,
    m3: Map<CellId, Set<int>>,
)
    requires
        derived_by_rules(es, p, k1, m1, k2, m2),
        rule_step(es, p, k2, m2, k3, m3),
    ensures
        derived_by_rules(es, p, k1, m1, k3, m3),
{
    let t = choose|t: Seq<(Set<CellId>, Map<CellId, Set<int>>)>|
        #[trigger] steps_ok(es, p, t) && t.len() >= 1 && t[0] == (k1, m1) && t[t.len() - 1] == (k2, m2);
    let t2 = t.push((k3, m3));
    assert forall|i: int| 0 <= i < t2.len() - 1 implies #[trigger] rule_step(es, p, t2[i].0, t2[i].1, t2[i + 1].0, t2[i + 1].1) by {
        if i < t.len() - 1 {
            assert(t2[i] == t[i] && t2[i + 1] == t[i + 1]);
            assert(rule_step(es, p, t[i].0, t[i].1, t[i + 1].0, t[i + 1].1));
        }
    }
    assert(steps_ok(es, p, t2));
}

/// Two derivations in a row are one.
proof fn lemma_derived_trans(
    es: Seq<ExprModel>,
    p: Option<int>,
    k1: Set<CellId>,
    m1: Map<CellId, Set<int>>,
    k2: Set<CellId>,
    m2: Map<CellId, Set<int>>,
    k3: Set<CellId>,
    m3: Map<CellId, Set<int>>,
)
    requires
        derived_by_rules(es, p, k1, m1, k2, m2),
        derived_by_rules(es, p, k2, m2, k3, m3),
    ensures
        derived_by_rules(es, p, k1, m1, k3, m3),
{
    let t1 = choose|t: Seq<(Set<CellId>, Map<CellId, Set<int>>)>|
        #[trigger] steps_ok(es, p, t) && t.len() >= 1 && t[0] == (k1, m1) && t[t.len() - 1] == (k2, m2);
    let t2 = choose|t: Seq<(Set<CellId>, Map<CellId, Set<int>>)>|
        #[trigger] steps_ok(es, p, t) && t.len() >= 1 && t[0] == (k2, m2) && t[t.len() - 1] == (k3, m3);
    let t = t1 + t2.drop_first();
    let n1 = t1.len();
    assert forall|i: int| 0 <= i < t.len() - 1 implies #[trigger] rule_step(es, p, t[i].0, t[i].1, t[i + 1].0, t[i + 1].1) by {
        if i < n1 - 1 {
            assert(t[i] == t1[i] && t[i + 1] == t1[i + 1]);
            assert(rule_step(es, p, t1[i].0, t1[i].1, t1[i + 1].0, t1[i + 1].1));
        } else {
            let j = i - (n1 - 1);
            assert(t[i] == t2[j]);
            assert(t[i + 1] == t2[j + 1]);
            assert(rule_step(es, p, t2[j].0, t2[j].1, t2[j + 1].0, t2[j + 1].1));
        }
    }
    assert(steps_ok(es, p, t));
    if t2.len() == 1 {
        assert(t[t.len() - 1] == t1[n1 - 1]);
    } else {
        assert(t[t.len() - 1] == t2[t2.len() - 1]);
    }
}

/// Along a list of rule steps, a cell that is in `K` at the end but not at the start entered
/// at some step, proved unique by a rule applied to a state reached from the start.
proof fn lemma_trace_added(es: Seq<ExprModel>, p: Option<int>, t: Seq<(Set<CellId>, Map<CellId, Set<int>>)>, c: CellId)
    requires
        steps_ok(es, p, t),
        t.len() >= 1,
        t[t.len() - 1].0.contains(c),
        !t[0].0.contains(c),
    ensures
        exists|i: int|
            0 <= i < t.len() - 1 && !t[i].0.contains(c) && #[trigger] rule_unique_cell(es, t[i].0, t[i].1, p, c)
                && derived_by_rules(es, p, t[0].0, t[0].1, t[i].0, t[i].1),
    decreases t.len(),
{
    let n = t.len();
    if t[n - 2].0.contains(c) {
        let t0 = t.drop_last();
        assert forall|i: int| 0 <= i < t0.len() - 1 implies #[trigger] rule_step(es, p, t0[i].0, t0[i].1, t0[i + 1].0, t0[i + 1].1) by {
            assert(t0[i] == t[i] && t0[i + 1] == t[i + 1]);
            assert(rule_step(es, p, t[i].0, t[i].1, t[i + 1].0, t[i + 1].1));
        }
        lemma_trace_added(es, p, t0, c);
        let i = choose|i: int|
            0 <= i < t0.len() - 1 && !t0[i].0.contains(c) && #[trigger] rule_unique_cell(es, t0[i].0, t0[i].1, p, c)
                && derived_by_rules(es, p, t0[0].0, t0[0].1, t0[i].0, t0[i].1);
        assert(t0[i] == t[i] && t0[0] == t[0]);
    } else {
        let i = n - 2;
        assert(rule_step(es, p, t[i].0, t[i].1, t[i + 1].0, t[i + 1].1));
        assert(rule_unique_cell(es, t[i].0, t[i].1, p, c));
        let w = t.subrange(0, i + 1);
        assert forall|j: int| 0 <= j < w.len() - 1 implies #[trigger] rule_step(es, p, w[j].0, w[j].1, w[j + 1].0, w[j + 1].1) by {
            assert(w[j] == t[j] && w[j + 1] == t[j + 1]);
            assert(rule_step(es, p, t[j].0, t[j].1, t[j + 1].0, t[j + 1].1));
        }
        assert(steps_ok(es, p, w) && w[0] == t[0] && w[w.len() - 1] == t[i]);
        assert(derived_by_rules(es, p, t[0].0, t[0].1, t[i].0, t[i].1));
    }
}

/// `Delta` gives cell `c` the same domain in `m1` and `m2`, or no domain in both.
pub open spec fn same_domain_at(m1: Map<CellId, Set<int>>, m2: Map<CellId, Set<int>>, c: CellId) -> bool {
    m1.dom().contains(c) == m2.dom().contains(c) && (m1.dom().contains(c) ==> m1[c] == m2[c])
}

/// Along a list of rule steps, a domain that differs at the end from the start was changed at
/// some step, narrowed by a domain that a rule applied to a state reached from the start gives.
proof fn lemma_trace_narrowed(es: Seq<ExprModel>, p: Option<int>, t: Seq<(Set<CellId>, Map<CellId, Set<int>>)>, c: CellId)
    requires
        steps_ok(es, p, t),
        t.len() >= 1,
        !same_domain_at(t[0].1, t[t.len() - 1].1, c),
    ensures
        exists|i: int, d: Set<int>|
            0 <= i < t.len() - 1 && #[trigger] rule_domain(es, t[i].0, t[i].1, p, c, d) && narrowed_by(t[i].1, t[i + 1].1, c, d)
                && derived_by_rules(es, p, t[0].0, t[0].1, t[i].0, t[i].1),
    decreases t.len(),
{
    let n = t.len();
    if !same_domain_at(t[0].1, t[n - 2].1, c) {
        let t0 = t.drop_last();
        assert forall|i: int| 0 <= i < t0.len() - 1 implies #[trigger] rule_step(es, p, t0[i].0, t0[i].1, t0[i + 1].0, t0[i + 1].1) by {
            assert(t0[i] == t[i] && t0[i + 1] == t[i + 1]);
            assert(rule_step(es, p, t[i].0, t[i].1, t[i + 1].0, t[i + 1].1));
        }
        lemma_trace_narrowed(es, p, t0, c);
        let (i, d) = choose|i: int, d: Set<int>|
            0 <= i < t0.len() - 1 && #[trigger] rule_domain(es, t0[i].0, t0[i].1, p, c, d) && narrowed_by(t0[i].1, t0[i + 1].1, c, d)
                && derived_by_rules(es, p, t0[0].0, t0[0].1, t0[i].0, t0[i].1);
        assert(t0[i] == t[i] && t0[i + 1] == t[i + 1] && t0[0] == t[0]);
    } else {
        let i = n - 2;
        assert(rule_step(es, p, t[i].0, t[i].1, t[i + 1].0, t[i + 1].1));
        assert(refines(t[i].0, t[i].1, t[i + 1].0, t[i + 1].1));
        assert(t[i + 1].1.dom().contains(c) && !(t[i].1.dom().contains(c) && t[i + 1].1[c] == t[i].1[c]));
        let d = choose|d: Set<int>| rule_domain(es, t[i].0, t[i].1, p, c, d) && narrowed_by(t[i].1, t[i + 1].1, c, d);
        let w = t.subrange(0, i + 1);
        assert forall|j: int| 0 <= j < w.len() - 1 implies #[trigger] rule_step(es, p, w[j].0, w[j].1, w[j + 1].0, w[j + 1].1) by {
            assert(w[j] == t[j] && w[j + 1] == t[j + 1]);
            assert(rule_step(es, p, t[j].0, t[j].1, t[j + 1].0, t[j + 1].1));
        }
        assert(steps_ok(es, p, w) && w[0] == t[0] && w[w.len() - 1] == t[i]);
        assert(derived_by_rules(es, p, t[0].0, t[0].1, t[i].0, t[i].1));
        assert(rule_domain(es, t[i].0, t[i].1, p, c, d));
    }
}

/// Every domain that a UCP run changes in `Delta` was narrowed by a rule: some state that the
/// run reached from the start by rule steps is one to which a rule gives the cell a domain `d`,
/// and the next step narrowed the cell's domain by `d`.
pub proof fn lemma_narrowed_domains_derived(
    es: Seq<ExprModel>,
    k0: Set<CellId>,
    m0: Map<CellId, Set<int>>,
    p: Option<int>,
    k: Set<CellId>,
    m: Map<CellId, Set<int>>,
    c: CellId,
)
    requires
        fixpoint_of(es, k0, m0, p, k, m),
        !same_domain_at(m0, m, c),
    ensures
        exists|k1: Set<CellId>, m1: Map<CellId, Set<int>>, d: Set<int>|
            derived_by_rules(es, p, k0.union(exact_cells(m0)), m0, k1, m1) && #[trigger] rule_domain(es, k1, m1, p, c, d),
{
    let ks = k0.union(exact_cells(m0));
    let t = choose|t: Seq<(Set<CellId>, Map<CellId, Set<int>>)>|
        #[trigger] steps_ok(es, p, t) && t.len() >= 1 && t[0] == (ks, m0) && t[t.len() - 1] == (k, m);
    lemma_trace_narrowed(es, p, t, c);
    let (i, d) = choose|i: int, d: Set<int>|
        0 <= i < t.len() - 1 && #[trigger] rule_domain(es, t[i].0, t[i].1, p, c, d) && narrowed_by(t[i].1, t[i + 1].1, c, d)
            && derived_by_rules(es, p, t[0].0, t[0].1, t[i].0, t[i].1);
    assert(derived_by_rules(es, p, ks, m0, t[i].0, t[i].1) && rule_domain(es, t[i].0, t[i].1, p, c, d));
}

/// Every cell that a UCP run adds to `K` beyond the start and the exact cells of the initial
/// `Delta` was proved unique by a rule: some state that the run reached from the start by rule
/// steps lacks the cell, and a rule applied to that state proves it unique.
pub proof fn lemma_added_cells_derived(
    es: Seq<ExprModel>,
    k0: Set<CellId>,
    m0: Map<CellId, Set<int>>,
    p: Option<int>,
    k: Set<CellId>,
    m: Map<CellId, Set<int>>,
    c: CellId,
)
    requires
        fixpoint_of(es, k0, m0, p, k, m),
        k.contains(c),
        !k0.contains(c),
        !exact_cells(m0).contains(c),
    ensures
        exists|k1: Set<CellId>, m1: Map<CellId, Set<int>>|
            derived_by_rules(es, p, k0.union(exact_cells(m0)), m0, k1, m1) && !k1.contains(c)
                && #[trigger] rule_unique_cell(es, k1, m1, p, c),
{
    let ks = k0.union(exact_cells(m0));
    let t = choose|t: Seq<(Set<CellId>, Map<CellId, Set<int>>)>|
        #[trigger] steps_ok(es, p, t) && t.len() >= 1 && t[0] == (ks, m0) && t[t.len() - 1] == (k, m);
    lemma_trace_added(es, p, t, c);
    let i = choose|i: int|
        0 <= i < t.len() - 1 && !t[i].0.contains(c) && #[trigger] rule_unique_cell(es, t[i].0, t[i].1, p, c)
            && derived_by_rules(es, p, t[0].0, t[0].1, t[i].0, t[i].1);
    assert(derived_by_rules(es, p, ks, m0, t[i].0, t[i].1) && !t[i].0.contains(c) && rule_unique_cell(es, t[i].0, t[i].1, p, c));
}

/// No cell is listed twice.
pub open spec fn keys_distinct(l: Seq<(CellId, Set<int>)>) -> bool {
    forall|a: int, b: int| 0 <= a < b < l.len() ==> #[trigger] l[a].0 != #[trigger] l[b].0
}

/// Recording a domain keeps the cells listed once, and lists no cell but those before and the
/// recorded one.
proof fn lemma_push_distinct(list: Seq<(CellId, Set<int>)>, c: CellId, d: Set<int>)
    requires
        keys_distinct(list),
    ensures
        keys_distinct(push_inference(list, c, d)),
        forall|j: int|
            0 <= j < push_inference(list, c, d).len() ==> #[trigger] push_inference(list, c, d)[j].0 == c || exists|j2: int|
                0 <= j2 < list.len() && list[j2].0 == push_inference(list, c, d)[j].0,
    decreases list.len(),
{
    let r = push_inference(list, c, d);
    if list.len() == 0 {
    } else if list[0].0 == c {
        let x = list[0].1.intersect(d);
        if !x.is_empty() {
            assert forall|a: int, b: int| 0 <= a < b < r.len() implies #[trigger] r[a].0 != #[trigger] r[b].0 by {
                assert(r[a].0 == list[a].0 && r[b].0 == list[b].0);
            }
            assert forall|j: int| 0 <= j < r.len() implies #[trigger] r[j].0 == c || exists|j2: int|
                0 <= j2 < list.len() && list[j2].0 == r[j].0 by {
                assert(r[j].0 == list[j].0);
            }
        } else {
            assert forall|j: int| 0 <= j < r.len() implies #[trigger] r[j].0 == c || exists|j2: int|
                0 <= j2 < list.len() && list[j2].0 == r[j].0 by {
                assert(r[j] == list[j]);
            }
        }
    } else {
        let rest = list.drop_first();
        assert forall|a: int, b: int| 0 <= a < b < rest.len() implies #[trigger] rest[a].0 != #[trigger] rest[b].0 by {
            assert(list[a + 1].0 != list[b + 1].0);
        }
        lemma_push_distinct(rest, c, d);
        let pr = push_inference(rest, c, d);
        assert(r == seq![list[0]] + pr);
        assert forall|j: int| 0 <= j < r.len() implies #[trigger] r[j].0 == c || exists|j2: int|
            0 <= j2 < list.len() && list[j2].0 == r[j].0 by {
            if j == 0 {
                assert(list[0].0 == r[0].0);
            } else {
                assert(r[j] == pr[j - 1]);
                if pr[j - 1].0 != c {
                    let j2 = choose|j2: int| 0 <= j2 < rest.len() && rest[j2].0 == pr[j - 1].0;
                    assert(list[j2 + 1].0 == r[j].0);
                }
            }
        }
        assert forall|a: int, b: int| 0 <= a < b < r.len() implies #[trigger] r[a].0 != #[trigger] r[b].0 by {
            if a == 0 {
                assert(r[b] == pr[b - 1]);
                if pr[b - 1].0 != c {
                    let j2 = choose|j2: int| 0 <= j2 < rest.len() && rest[j2].0 == pr[b - 1].0;
                    assert(list[0].0 != list[j2 + 1].0);
                }
            } else {
                assert(r[a] == pr[a - 1] && r[b] == pr[b - 1]);
            }
        }
    }
}

/// Recording a list of domains keeps the cells listed once.
proof fn lemma_push_all_distinct(list: Seq<(CellId, Set<int>)>, items: Seq<(CellId, Set<int>)>)
    requires
        keys_distinct(list),
    ensures
        keys_distinct(push_all(list, items)),
    decreases items.len(),
{
    if items.len() > 0 {
        lemma_push_all_distinct(list, items.drop_last());
        lemma_push_distinct(push_all(list, items.drop_last()), items.last().0, items.last().1);
    }
}

/// The value rules on an equation list each cell once.
proof fn lemma_inference_distinct(e: ExprModel, m: Map<CellId, Set<int>>, p: Option<int>)
    ensures
        keys_distinct(value_inference_model(e, m, p)),
{
    let empty = Seq::<(CellId, Set<int>)>::empty();
    let l1 = match root_domain_model(e, m) {
        Some((c, d)) => push_inference(empty, c, d),
        None => empty,
    };
    if let Some((c, d)) = root_domain_model(e, m) {
        lemma_push_distinct(empty, c, d);
    }
    let l2 = match zero_assign_model(e, m) {
        Some((c, v)) => push_inference(l1, c, set![v]),
        None => l1,
    };
    if let Some((c, v)) = zero_assign_model(e, m) {
        lemma_push_distinct(l1, c, set![v]);
    }
    if let Some(l) = lin_model(e, m) {
        lemma_push_all_distinct(l2, linear_domains_model(l, set![0], m, p));
    }
}

/// The cells to which `Delta` gives a single value.
pub open spec fn exact_cells(m: Map<CellId, Set<int>>) -> Set<CellId> {
    Set::new(|c: CellId| m.dom().contains(c) && m[c].len() == 1)
}

/// What a UCP run over `es` from `(k0, m0)` gives, as a state `(k, m)`: it knows at least what
/// the start knows, with every exact cell of the start in `K`; it learns only about cells of
/// the equations; every rule is closed on it; and it is reached from the start by rule steps
/// alone, so that every cell added to `K` and every domain narrowed in `Delta` was derived by
/// a rule.
pub open spec fn fixpoint_of(
    es: Seq<ExprModel>,
    k0: Set<CellId>,
    m0: Map<CellId, Set<int>>,
    p: Option<int>,
    k: Set<CellId>,
    m: Map<CellId, Set<int>>,
) -> bool {
    &&& refines(k0, m0, k, m)
    &&& exact_cells(m0).subset_of(k)
    &&& k.subset_of(k0.union(exact_cells(m0)).union(exprs_cells(es)))
    &&& m.dom().subset_of(m0.dom().union(exprs_cells(es)))
    &&& forall|i: int| 0 <= i < es.len() ==> expr_closed(#[trigger] es[i], k, m, p)
    &&& all_but_one_closed(es, k, m)
    &&& modulus_rules_closed(es, k, m, p)
    &&& derived_by_rules(es, p, k0.union(exact_cells(m0)), m0, k, m)
}

fn analyze_expressions_with_optional_modulus(
    expressions: &[UcpExpr],
    initial_facts: UcpFacts,
    initial_value_facts: UcpValueFacts,
    modulus: Option<&Integer>,
) -> (r: UcpResult)
    requires
        initial_value_facts.wf(),
    ensures
        r.value_facts.wf(),
        fixpoint_of(
            exprs_model(expressions@),
            initial_facts@,
            initial_value_facts@,
            opt_view(modulus),
            r.facts@,
            r.value_facts@,
        ),
        r.checked_expressions == expressions@.len(),
        r.expression_results@.len() == expressions@.len(),
        forall|i: int|
            0 <= i < expressions@.len() ==> #[trigger] r.expression_results@[i] == (UcpExpressionResult {
                index: i as usize,
                status: status_model(expressions@[i]@, r.facts@),
            }),
        r.unique_expressions == unique_count(exprs_model(expressions@), r.facts@),
        r.unique_expressions + r.unresolved_expressions == expressions@.len(),
{
    let ghost es = exprs_model(expressions@);
    let ghost s = exprs_cells(es);
    let ghost u = cells_seq(es);
    let ghost p = opt_view(modulus);
    let ghost k_init = initial_facts@;
    let ghost m_init = initial_value_facts@;
    let mut facts = initial_facts;
    let mut value_facts = initial_value_facts;
    let entries = value_facts.domains();
    let mut i: usize = 0;
    while i < entries.len()
        invariant
            value_facts.wf(),
            value_facts@ == m_init,
            i <= entries@.len(),
            k_init.subset_of(facts@),
            facts@.subset_of(k_init.union(exact_cells(m_init))),
            forall|j: int| 0 <= j < entries@.len() ==> #[trigger] m_init.dom().contains(entries@[j].0)
                && m_init[entries@[j].0] == entries@[j].1@ && domain_valid(entries@[j].1),
            forall|c: CellId| #[trigger] m_init.dom().contains(c) ==> exists|j: int| 0 <= j < entries@.len() && entries@[j].0 == c,
            forall|j: int| 0 <= j < i && entries@[j].1@.len() == 1 ==> facts@.contains(#[trigger] entries@[j].0),
        decreases entries@.len() - i,
    {
        proof {
            assert(m_init.dom().contains(entries@[i as int].0));
            assert(domain_valid(entries@[i as int].1));
            lemma_domain_valid(entries@[i as int].1);
        }
        if entries[i].1.is_singleton() {
            facts.mark_unique(entries[i].0);
            proof {
                assert(exact_cells(m_init).contains(entries@[i as int].0));
            }
        }
        i = i + 1;
    }
    proof {
        assert forall|c: CellId| exact_cells(m_init).contains(c) implies facts@.contains(c) by {
            let j = choose|j: int| 0 <= j < entries@.len() && entries@[j].0 == c;
        }
        value_facts.lemma_wf();
        assert(refines(k_init, m_init, facts@, value_facts@));
        assert(facts@ =~= k_init.union(exact_cells(m_init)));
        lemma_derived_refl(es, p, facts@, value_facts@);
    }
    let mut changed = true;
    while changed
        invariant
            value_facts.wf(),
            es == exprs_model(expressions@),
            s == exprs_cells(es),
            u == cells_seq(es),
            p == opt_view(modulus),
            refines(k_init, m_init, facts@, value_facts@),
            exact_cells(m_init).subset_of(facts@),
            facts@.subset_of(k_init.union(exact_cells(m_init)).union(s)),
            value_facts@.dom().subset_of(m_init.dom().union(s)),
            !changed ==> forall|j: int| 0 <= j < es.len() ==> expr_closed(#[trigger] es[j], facts@, value_facts@, p),
            !changed ==> all_but_one_closed(es, facts@, value_facts@),
            !changed ==> modulus_rules_closed(es, facts@, value_facts@, p),
            derived_by_rules(es, p, k_init.union(exact_cells(m_init)), m_init, facts@, value_facts@),
        decreases weight(u, facts@, value_facts@) + (if changed {
            1nat
        } else {
            0nat
        }),
    {
        let ghost k0 = facts@;
        let ghost m0 = value_facts@;
        proof {
            value_facts.lemma_wf();
        }
        changed = run_round(expressions, &mut facts, &mut value_facts, modulus);
        proof {
            value_facts.lemma_wf();
            lemma_weight_mono(u, k0, m0, facts@, value_facts@);
            if changed {
                let c = choose|c: CellId| s.contains(c) && #[trigger] cell_weight(facts@, value_facts@, c) < cell_weight(k0, m0, c);
                lemma_cells_seq(es, c);
            }
            lemma_refines_trans(k_init, m_init, k0, m0, facts@, value_facts@);
            lemma_derived_trans(es, p, k_init.union(exact_cells(m_init)), m_init, k0, m0, facts@, value_facts@);
            if !changed {
                assert forall|j: int| 0 <= j < es.len() implies expr_closed(#[trigger] es[j], facts@, value_facts@, p) by {
                    assert(es[j] == expressions@[j]@);
                }
            }
        }
    }
    let mut unique_expressions: usize = 0;
    let mut unresolved_expressions: usize = 0;
    let mut expression_results: Vec<UcpExpressionResult> = Vec::new();
    let mut index: usize = 0;
    while index < expressions.len()
        invariant
            es == exprs_model(expressions@),
            index <= expressions@.len(),
            expression_results@.len() == index,
            unique_expressions == unique_count(es.subrange(0, index as int), facts@),
            unique_expressions + unresolved_expressions == index,
            forall|i: int|
                0 <= i < index ==> #[trigger] expression_results@[i] == (UcpExpressionResult {
                    index: i as usize,
                    status: status_model(expressions@[i]@, facts@),
                }),
        decreases expressions@.len() - index,
    {
        let expr = &expressions[index];
        proof {
            let pre = es.subrange(0, index + 1);
            assert(pre.drop_last() =~= es.subrange(0, index as int));
            assert(pre.last() == expr@);
        }
        let status = if expression_is_unique(expr, &facts) {
            unique_expressions = unique_expressions + 1;
            UcpExpressionStatus::Unique
        } else {
            unresolved_expressions = unresolved_expressions + 1;
            UcpExpressionStatus::Unresolved
        };
        expression_results.push(UcpExpressionResult { index, status });
        index = index + 1;
    }
    proof {
        assert(es.subrange(0, expressions@.len() as int) =~= es);
    }
    UcpResult {
        facts,
        value_facts,
        checked_expressions: expressions.len(),
        unique_expressions,
        unresolved_expressions,
        expression_results,
    }
}

/// Runs UCP from an initial `K`, with no value facts and no modulus.
pub fn analyze_expressions(expressions: &[UcpExpr], initial_facts: UcpFacts) -> (r: UcpResult)
    ensures
        r.value_facts.wf(),
        fixpoint_of(
            exprs_model(expressions@),
            initial_facts@,
            Map::<CellId, Set<int>>::empty(),
            None,
            r.facts@,
            r.value_facts@,
        ),
        r.checked_expressions == expressions@.len(),
        r.expression_results@.len() == expressions@.len(),
        forall|i: int|
            0 <= i < expressions@.len() ==> #[trigger] r.expression_results@[i] == (UcpExpressionResult {
                index: i as usize,
                status: status_model(expressions@[i]@, r.facts@),
            }),
        r.unique_expressions == unique_count(exprs_model(expressions@), r.facts@),
        r.unique_expressions + r.unresolved_expressions == expressions@.len(),
{
    analyze_expressions_with_values(expressions, initial_facts, UcpValueFacts::new())
}

/// Runs UCP from an initial `K` and `Delta`, without a modulus: the rules that need the field
/// modulus do not run.
pub fn analyze_expressions_with_values(
    expressions: &[UcpExpr],
    initial_facts: UcpFacts,
    initial_value_facts: UcpValueFacts,
) -> (r: UcpResult)
    requires
        initial_value_facts.wf(),
    ensures
        r.value_facts.wf(),
        fixpoint_of(
            exprs_model(expressions@),
            initial_facts@,
            initial_value_facts@,
            None,
            r.facts@,
            r.value_facts@,
        ),
        r.checked_expressions == expressions@.len(),
        r.expression_results@.len() == expressions@.len(),
        forall|i: int|
            0 <= i < expressions@.len() ==> #[trigger] r.expression_results@[i] == (UcpExpressionResult {
                index: i as usize,
                status: status_model(expressions@[i]@, r.facts@),
            }),
        r.unique_expressions == unique_count(exprs_model(expressions@), r.facts@),
        r.unique_expressions + r.unresolved_expressions == expressions@.len(),
{
    analyze_expressions_with_optional_modulus(expressions, initial_facts, initial_value_facts, None)
}

/// Runs UCP from an initial `K` and `Delta` with the circuit's field modulus.
pub fn analyze_expressions_with_values_and_modulus(
    expressions: &[UcpExpr],
    initial_facts: UcpFacts,
    initial_value_facts: UcpValueFacts,
    field_modulus: &Integer,
) -> (r: UcpResult)
    requires
        initial_value_facts.wf(),
    ensures
        r.value_facts.wf(),
        fixpoint_of(
            exprs_model(expressions@),
            initial_facts@,
            initial_value_facts@,
            Some(field_modulus@),
            r.facts@,
            r.value_facts@,
        ),
        r.checked_expressions == expressions@.len(),
        r.expression_results@.len() == expressions@.len(),
        forall|i: int|
            0 <= i < expressions@.len() ==> #[trigger] r.expression_results@[i] == (UcpExpressionResult {
                index: i as usize,
                status: status_model(expressions@[i]@, r.facts@),
            }),
        r.unique_expressions == unique_count(exprs_model(expressions@), r.facts@),
        r.unique_expressions + r.unresolved_expressions == expressions@.len(),
{
    analyze_expressions_with_optional_modulus(expressions, initial_facts, initial_value_facts, Some(field_modulus))
}

/// The indices of the unresolved results, in order.
pub open spec fn unresolved_index_seq(rs: Seq<UcpExpressionResult>) -> Seq<usize>
    decreases rs.len(),
{
    if rs.len() == 0 {
        Seq::empty()
    } else {
        let prev = unresolved_index_seq(rs.drop_last());
        if rs.last().status is Unresolved {
            prev.push(rs.last().index)
        } else {
            prev
        }
    }
}

/// The indices of the unresolved equations are those of the equations that are not unique
/// under `K`, each once and in increasing order; there are as many as equations that are not
/// unique, so that there are none exactly when every equation is unique.
pub proof fn lemma_unresolved_indices(es: Seq<ExprModel>, k: Set<CellId>, rs: Seq<UcpExpressionResult>)
    requires
        rs.len() == es.len(),
        forall|i: int| #![trigger rs[i]] 0 <= i < rs.len() ==> rs[i].index as int == i && rs[i].status == status_model(es[i], k),
    ensures
        forall|a: int, b: int|
            0 <= a < b < unresolved_index_seq(rs).len() ==> #[trigger] unresolved_index_seq(rs)[a] < #[trigger] unresolved_index_seq(
                rs,
            )[b],
        forall|a: int| 0 <= a < unresolved_index_seq(rs).len() ==> #[trigger] unresolved_index_seq(rs)[a] < es.len(),
        forall|j: int|
            0 <= j < es.len() ==> (!unique_model(#[trigger] es[j], k) <==> unresolved_index_seq(rs).contains(j as usize)),
        unresolved_index_seq(rs).len() + unique_count(es, k) == es.len(),
    decreases es.len(),
{
    let out = unresolved_index_seq(rs);
    if es.len() > 0 {
        let n = es.len() - 1;
        let es0 = es.drop_last();
        let rs0 = rs.drop_last();
        assert forall|i: int| #![trigger rs0[i]] 0 <= i < rs0.len() implies rs0[i].index as int == i && rs0[i].status == status_model(es0[i], k) by {
            assert(rs0[i] == rs[i] && es0[i] == es[i]);
            assert(rs[i].index as int == i && rs[i].status == status_model(es[i], k));
        }
        lemma_unresolved_indices(es0, k, rs0);
        let prev = unresolved_index_seq(rs0);
        assert(rs.last() == rs[n]);
        assert(es.last() == es[n]);
        assert forall|j: int| 0 <= j < es.len() implies (!unique_model(#[trigger] es[j], k) <==> out.contains(j as usize)) by {
            assert(rs[j].index as int == j && rs[j].status == status_model(es[j], k));
            if j < n {
                assert(es0[j] == es[j]);
                if out.contains(j as usize) {
                    let a = choose|a: int| 0 <= a < out.len() && out[a] == j as usize;
                    if a < prev.len() {
                        assert(prev[a] == out[a]);
                    }
                }
                if prev.contains(j as usize) {
                    let a = choose|a: int| 0 <= a < prev.len() && prev[a] == j as usize;
                    assert(out[a] == prev[a]);
                }
            } else {
                if !unique_model(es[j], k) {
                    assert(rs.last().status is Unresolved);
                    assert(out == prev.push(rs.last().index));
                    assert(out[prev.len() as int] == j as usize);
                } else {
                    if out.contains(j as usize) {
                        let a = choose|a: int| 0 <= a < out.len() && out[a] == j as usize;
                        assert(prev[a] < n);
                    }
                }
            }
        }
    }
}

/// The targets outside `K`, in order.
pub open spec fn missing_targets(ts: Seq<CellId>, k: Set<CellId>) -> Seq<CellId>
    decreases ts.len(),
{
    if ts.len() == 0 {
        Seq::empty()
    } else {
        let prev = missing_targets(ts.drop_last(), k);
        if k.contains(ts.last()) {
            prev
        } else {
            prev.push(ts.last())
        }
    }
}

/// The missing targets are at most the targets, and none are missing exactly when all are in `K`.
pub proof fn lemma_missing_targets_len(ts: Seq<CellId>, k: Set<CellId>)
    ensures
        missing_targets(ts, k).len() <= ts.len(),
        (missing_targets(ts, k).len() == 0) == (forall|i: int| 0 <= i < ts.len() ==> k.contains(#[trigger] ts[i])),
    decreases ts.len(),
{
    if ts.len() > 0 {
        lemma_missing_targets_len(ts.drop_last(), k);
        if forall|i: int| 0 <= i < ts.len() ==> k.contains(#[trigger] ts[i]) {
            assert forall|i: int| 0 <= i < ts.drop_last().len() implies k.contains(#[trigger] ts.drop_last()[i]) by {
                assert(ts.drop_last()[i] == ts[i]);
            }
        } else {
            let i = choose|i: int| 0 <= i < ts.len() && !k.contains(#[trigger] ts[i]);
            if i < ts.len() - 1 {
                assert(ts.drop_last()[i] == ts[i]);
            }
        }
    }
}

impl UcpTargetCheck {
    /// Whether no target is unresolved.
    pub fn all_targets_unique(&self) -> (r: bool)
        ensures
            r == (self.unresolved_targets@.len() == 0),
    {
        self.unresolved_targets.len() == 0
    }
}

impl UcpResult {
    /// Whether every equation is unique.
    pub fn all_expressions_unique(&self) -> (r: bool)
        ensures
            r == (self.unresolved_expressions == 0),
    {
        self.unresolved_expressions == 0
    }

    /// The indices of the unresolved equations, in order.
    pub fn unresolved_indices(&self) -> (r: Vec<usize>)
        ensures
            r@ == unresolved_index_seq(self.expression_results@),
    {
        let rs = &self.expression_results;
        let mut out: Vec<usize> = Vec::new();
        let mut i: usize = 0;
        while i < rs.len()
            invariant
                i <= rs@.len(),
                out@ == unresolved_index_seq(rs@.subrange(0, i as int)),
            decreases rs@.len() - i,
        {
            proof {
                let pre = rs@.subrange(0, i + 1);
                assert(pre.drop_last() =~= rs@.subrange(0, i as int));
                assert(pre.last() == rs@[i as int]);
            }
            match rs[i].status {
                UcpExpressionStatus::Unresolved => out.push(rs[i].index),
                UcpExpressionStatus::Unique => {},
            }
            i = i + 1;
        }
        proof {
            assert(rs@.subrange(0, rs@.len() as int) =~= rs@);
        }
        out
    }

    /// Whether every target is in the final `K`.
    pub fn all_targets_unique(&self, targets: &[CellId]) -> (r: bool)
        ensures
            r == (forall|i: int| 0 <= i < targets@.len() ==> self.facts@.contains(#[trigger] targets@[i])),
    {
        let mut i: usize = 0;
        while i < targets.len()
            invariant
                i <= targets@.len(),
                forall|j: int| 0 <= j < i ==> self.facts@.contains(#[trigger] targets@[j]),
            decreases targets@.len() - i,
        {
            if !self.facts.is_unique(&targets[i]) {
                return false;
            }
            i = i + 1;
        }
        true
    }

    /// The targets outside the final `K`, in order.
    pub fn unresolved_targets(&self, targets: &[CellId]) -> (r: Vec<CellId>)
        ensures
            r@ == missing_targets(targets@, self.facts@),
    {
        let mut out: Vec<CellId> = Vec::new();
        let mut i: usize = 0;
        while i < targets.len()
            invariant
                i <= targets@.len(),
                out@ == missing_targets(targets@.subrange(0, i as int), self.facts@),
            decreases targets@.len() - i,
        {
            proof {
                let pre = targets@.subrange(0, i + 1);
                assert(pre.drop_last() =~= targets@.subrange(0, i as int));
                assert(pre.last() == targets@[i as int]);
            }
            if !self.facts.is_unique(&targets[i]) {
                out.push(targets[i]);
            }
            i = i + 1;
        }
        proof {
            assert(targets@.subrange(0, targets@.len() as int) =~= targets@);
        }
        out
    }

    /// A summary of the targets: how many were checked, how many are unique, and which are
    /// not.
    pub fn check_targets(&self, targets: &[CellId]) -> (r: UcpTargetCheck)
        ensures
            r.checked_targets == targets@.len(),
            r.unresolved_targets@ == missing_targets(targets@, self.facts@),
            r.unique_targets == targets@.len() - missing_targets(targets@, self.facts@).len(),
    {
        let unresolved_targets = self.unresolved_targets(targets);
        proof {
            lemma_missing_targets_len(targets@, self.facts@);
        }
        UcpTargetCheck {
            checked_targets: targets.len(),
            unique_targets: targets.len() - unresolved_targets.len(),
            unresolved_targets,
        }
    }
}

/// What every UCP run gives: `K` only grows, every cell with an exact value in the initial
/// `Delta` ends in `K`, no cell outside the start and the equations becomes unique, `Delta`
/// keeps every cell and only narrows domains, and no equation is left on which the Assign
/// rule could still fire.
pub proof fn lemma_run_only_learns(
    es: Seq<ExprModel>,
    k0: Set<CellId>,
    m0: Map<CellId, Set<int>>,
    p: Option<int>,
    k: Set<CellId>,
    m: Map<CellId, Set<int>>,
)
    requires
        fixpoint_of(es, k0, m0, p, k, m),
    ensures
        k0.subset_of(k),
        exact_cells(m0).subset_of(k),
        k.subset_of(k0.union(exact_cells(m0)).union(exprs_cells(es))),
        forall|c: CellId| #[trigger] m0.dom().contains(c) ==> m.dom().contains(c) && m[c].subset_of(m0[c]),
        forall|i: int| 0 <= i < es.len() ==> unique_model(#[trigger] es[i], k) || assigned_cell_model(es[i], k) is None,
{
    assert forall|i: int| 0 <= i < es.len() implies unique_model(#[trigger] es[i], k) || assigned_cell_model(es[i], k) is None by {
        assert(expr_closed(es[i], k, m, p));
    }
}

/// A unique equation stays unique when `K` grows: the classification of a run is never
/// undone by learning more.
pub proof fn lemma_status_stable(e: ExprModel, k1: Set<CellId>, k2: Set<CellId>)
    requires
        k1.subset_of(k2),
        status_model(e, k1) == UcpExpressionStatus::Unique,
    ensures
        status_model(e, k2) == UcpExpressionStatus::Unique,
{
    lemma_unique_monotone(e, k1, k2);
}

} // verus!
