//! Choosing the cell to hand to the SMT solver when the UCP fixpoint stalls: among the cells
//! not yet unique, the one whose assumed uniqueness lets UCP learn the most.
use crate::cell::{cell_less, cell_lt, lemma_cell_order, CellId, CellKind};
use crate::cell_map::CellMap;
use crate::domain::UcpValueFacts;
use crate::engine::{analyze_expressions_with_values_and_modulus, fixpoint_of, unique_count};
use crate::expr::{expr_cells, exprs_cells, exprs_model, ExprModel, UcpExpr};
use crate::facts::{lemma_push_to_set, UcpFacts};
use crate::integer::Integer;
use crate::rules::{expression_is_unique, unique_model};
use vstd::prelude::*;

verus! {

/// The advice cells of a set.
pub open spec fn advice_only(s: Set<CellId>) -> Set<CellId> {
    s.filter(|c: CellId| c.kind == CellKind::Advice)
}

/// The cells that may be queried: the targets and the advice cells of the equations, less
/// those already unique and those already queried.
pub open spec fn candidate_cells_model(
    es: Seq<ExprModel>,
    k: Set<CellId>,
    targets: Seq<CellId>,
    queried: Seq<CellId>,
) -> Set<CellId> {
    targets.to_set().union(advice_only(exprs_cells(es))).filter(
        |c: CellId| !k.contains(c) && !queried.contains(c),
    )
}

/// The advice cells of an equation not yet unique.
pub open spec fn unresolved_cells_model(e: ExprModel, k: Set<CellId>) -> Set<CellId> {
    advice_only(expr_cells(e)).filter(|c: CellId| !k.contains(c))
}

/// Whether a list of cells holds each cell once and stands for a set.
pub open spec fn lists_set(v: Seq<CellId>, s: Set<CellId>) -> bool {
    v.no_duplicates() && v.to_set() == s
}

/// Whether a cell occurs in a list.
pub(crate) fn contains_cell(cells: &[CellId], cell: &CellId) -> (r: bool)
    ensures
        r == cells@.contains(*cell),
{
    let mut i: usize = 0;
    while i < cells.len()
        invariant
            i <= cells@.len(),
            forall|j: int| 0 <= j < i ==> cells@[j] != *cell,
        decreases cells@.len() - i,
    {
        if cells[i] == *cell {
            return true;
        }
        i = i + 1;
    }
    false
}

/// Adds a cell to a list without duplicates.
pub(crate) fn insert_cell(cells: &mut Vec<CellId>, cell: CellId)
    requires
        old(cells)@.no_duplicates(),
    ensures
        final(cells)@.no_duplicates(),
        final(cells)@.to_set() == old(cells)@.to_set().insert(cell),
{
    if contains_cell(cells.as_slice(), &cell) {
        assert(cells@.to_set().insert(cell) =~= cells@.to_set());
        return;
    }
    let ghost before = cells@;
    cells.push(cell);
    proof {
        lemma_push_to_set(before, cell);
        assert forall|a: int, b: int| 0 <= a < b < cells@.len() implies cells@[a] != cells@[b] by {
            if b == before.len() {
                assert(before[a] == cells@[a]);
                assert(before.contains(cells@[a]));
            }
        }
    }
}

/// Adds the cells of an expression, or only its advice cells.
fn collect_cells(expr: &UcpExpr, cells: &mut Vec<CellId>, advice: bool)
    requires
        old(cells)@.no_duplicates(),
    ensures
        final(cells)@.no_duplicates(),
        final(cells)@.to_set() == old(cells)@.to_set().union(
            if advice {
                advice_only(expr_cells(expr@))
            } else {
                expr_cells(expr@)
            },
        ),
    decreases expr,
{
    let ghost before = cells@.to_set();
    match expr {
        UcpExpr::Var(cell) => {
            if !advice || cell.is_advice() {
                insert_cell(cells, *cell);
            }
            assert(cells@.to_set() =~= before.union(
                if advice {
                    advice_only(expr_cells(expr@))
                } else {
                    expr_cells(expr@)
                },
            ));
        },
        UcpExpr::Const(_) => {
            assert(cells@.to_set() =~= before.union(
                if advice {
                    advice_only(expr_cells(expr@))
                } else {
                    expr_cells(expr@)
                },
            ));
        },
        UcpExpr::Neg(inner) | UcpExpr::Scale(inner, _) => {
            collect_cells(inner, cells, advice);
        },
        UcpExpr::Add(left, right) | UcpExpr::Mul(left, right) => {
            collect_cells(left, cells, advice);
            collect_cells(right, cells, advice);
            assert(cells@.to_set() =~= before.union(
                if advice {
                    advice_only(expr_cells(expr@))
                } else {
                    expr_cells(expr@)
                },
            ));
        },
    }
}

/// The cells that may be queried, each once.
fn collect_candidate_cells(
    expressions: &[UcpExpr],
    facts: &UcpFacts,
    target_cells: &[CellId],
    queried_cells: &[CellId],
) -> (r: Vec<CellId>)
    ensures
        lists_set(
            r@,
            candidate_cells_model(exprs_model(expressions@), facts@, target_cells@, queried_cells@),
        ),
{
    let ghost es = exprs_model(expressions@);
    let mut all: Vec<CellId> = Vec::new();
    let mut i: usize = 0;
    while i < target_cells.len()
        invariant
            i <= target_cells@.len(),
            all@.no_duplicates(),
            all@.to_set() == target_cells@.subrange(0, i as int).to_set(),
        decreases target_cells@.len() - i,
    {
        insert_cell(&mut all, target_cells[i]);
        proof {
            assert(target_cells@.subrange(0, i + 1) =~= target_cells@.subrange(0, i as int).push(
                target_cells@[i as int],
            ));
            lemma_push_to_set(target_cells@.subrange(0, i as int), target_cells@[i as int]);
        }
        i = i + 1;
    }
    assert(target_cells@.subrange(0, target_cells@.len() as int) =~= target_cells@);
    let mut e: usize = 0;
    while e < expressions.len()
        invariant
            es == exprs_model(expressions@),
            e <= expressions@.len(),
            all@.no_duplicates(),
            all@.to_set() == target_cells@.to_set().union(
                advice_only(exprs_cells(es.subrange(0, e as int))),
            ),
        decreases expressions@.len() - e,
    {
        collect_cells(&expressions[e], &mut all, true);
        proof {
            let pre = es.subrange(0, e as int);
            let next = es.subrange(0, e + 1);
            assert(es[e as int] == expressions@[e as int]@);
            assert(advice_only(exprs_cells(next)) =~= advice_only(exprs_cells(pre)).union(
                advice_only(expr_cells(es[e as int])),
            )) by {
                assert forall|c: CellId| exprs_cells(next).contains(c) <==> (exprs_cells(pre).contains(c)
                    || expr_cells(es[e as int]).contains(c)) by {
                    if exprs_cells(next).contains(c) {
                        let j = choose|j: int| 0 <= j < next.len() && #[trigger] expr_cells(next[j]).contains(c);
                        if j < e {
                            assert(pre[j] == next[j]);
                        }
                    }
                    if exprs_cells(pre).contains(c) {
                        let j = choose|j: int| 0 <= j < pre.len() && #[trigger] expr_cells(pre[j]).contains(c);
                        assert(next[j] == pre[j]);
                    }
                    if expr_cells(es[e as int]).contains(c) {
                        assert(next[e as int] == es[e as int]);
                    }
                }
            }
        }
        e = e + 1;
    }
    assert(es.subrange(0, expressions@.len() as int) =~= es);
    let mut out: Vec<CellId> = Vec::new();
    let mut j: usize = 0;
    while j < all.len()
        invariant
            j <= all@.len(),
            all@.no_duplicates(),
            out@.no_duplicates(),
            out@.to_set() == all@.subrange(0, j as int).to_set().filter(
                |c: CellId| !facts@.contains(c) && !queried_cells@.contains(c),
            ),
        decreases all@.len() - j,
    {
        let c = all[j];
        let ghost pre = all@.subrange(0, j as int);
        proof {
            assert(all@.subrange(0, j + 1) =~= pre.push(c));
            lemma_push_to_set(pre, c);
        }
        if !facts.is_unique(&c) && !contains_cell(queried_cells, &c) {
            insert_cell(&mut out, c);
        }
        proof {
            assert(out@.to_set() =~= all@.subrange(0, j + 1).to_set().filter(
                |c: CellId| !facts@.contains(c) && !queried_cells@.contains(c),
            ));
        }
        j = j + 1;
    }
    assert(all@.subrange(0, all@.len() as int) =~= all@);
    assert(out@.to_set() =~= candidate_cells_model(es, facts@, target_cells@, queried_cells@));
    out
}

/// What the chooser knows of one equation: its cells, its advice cells not yet unique, and
/// whether it is unique.
pub struct ExpressionInfo {
    pub cells: Vec<CellId>,
    pub unresolved_cells: Vec<CellId>,
    pub is_unique: bool,
}

/// Whether an info describes an equation under `K`.
pub open spec fn info_of(info: ExpressionInfo, e: ExprModel, k: Set<CellId>) -> bool {
    &&& lists_set(info.cells@, expr_cells(e))
    &&& lists_set(info.unresolved_cells@, unresolved_cells_model(e, k))
    &&& info.is_unique == unique_model(e, k)
}

/// The info of each equation, in order.
fn expression_infos(expressions: &[UcpExpr], facts: &UcpFacts) -> (r: Vec<ExpressionInfo>)
    ensures
        r@.len() == expressions@.len(),
        forall|i: int| 0 <= i < r@.len() ==> info_of(#[trigger] r@[i], expressions@[i]@, facts@),
{
    let mut infos: Vec<ExpressionInfo> = Vec::new();
    let mut i: usize = 0;
    while i < expressions.len()
        invariant
            i <= expressions@.len(),
            infos@.len() == i,
            forall|j: int| 0 <= j < i ==> info_of(#[trigger] infos@[j], expressions@[j]@, facts@),
        decreases expressions@.len() - i,
    {
        let expr = &expressions[i];
        let mut cells: Vec<CellId> = Vec::new();
        collect_cells(expr, &mut cells, false);
        assert(cells@.to_set() =~= expr_cells(expr@));
        let mut unresolved: Vec<CellId> = Vec::new();
        let mut j: usize = 0;
        while j < cells.len()
            invariant
                j <= cells@.len(),
                cells@.no_duplicates(),
                unresolved@.no_duplicates(),
                unresolved@.to_set() == advice_only(cells@.subrange(0, j as int).to_set()).filter(
                    |c: CellId| !facts@.contains(c),
                ),
            decreases cells@.len() - j,
        {
            let c = cells[j];
            let ghost pre = cells@.subrange(0, j as int);
            proof {
                assert(cells@.subrange(0, j + 1) =~= pre.push(c));
                lemma_push_to_set(pre, c);
            }
            if c.is_advice() && !facts.is_unique(&c) {
                insert_cell(&mut unresolved, c);
            }
            proof {
                assert(unresolved@.to_set() =~= advice_only(cells@.subrange(0, j + 1).to_set()).filter(
                    |c: CellId| !facts@.contains(c),
                ));
            }
            j = j + 1;
        }
        proof {
            assert(cells@.subrange(0, cells@.len() as int) =~= cells@);
            assert(unresolved@.to_set() =~= unresolved_cells_model(expr@, facts@));
        }
        let is_unique = expression_is_unique(expr, facts);
        infos.push(ExpressionInfo { cells, unresolved_cells: unresolved, is_unique });
        i = i + 1;
    }
    infos
}

/// Two distinct advice cells that occur together in some equation.
pub open spec fn linked(infos: Seq<ExpressionInfo>, a: CellId, b: CellId) -> bool {
    &&& a != b
    &&& a.kind == CellKind::Advice
    &&& b.kind == CellKind::Advice
    &&& exists|i: int| 0 <= i < infos.len() && infos[i].cells@.contains(a) && infos[i].cells@.contains(b)
}

/// Graph distances from the advice targets, along `linked`: the advice targets are at 0 and
/// only they are; every other cell has a neighbour one closer; and no edge shortens a
/// distance by more than one, nor leaves the map. These fix each distance as the length of a
/// shortest path to a target.
pub open spec fn distances_valid(d: Map<CellId, usize>, infos: Seq<ExpressionInfo>, targets: Seq<CellId>) -> bool {
    &&& forall|t: CellId|
        targets.contains(t) && t.kind == CellKind::Advice ==> #[trigger] d.dom().contains(t) && d[t] == 0
    &&& forall|c: CellId| #[trigger] d.dom().contains(c) ==> c.kind == CellKind::Advice
    &&& forall|c: CellId| #[trigger] d.dom().contains(c) && d[c] == 0 ==> targets.contains(c)
    &&& forall|c: CellId|
        #[trigger] d.dom().contains(c) && d[c] > 0 ==> exists|b: CellId|
            d.dom().contains(b) && d[b] + 1 == d[c] && linked(infos, b, c)
    &&& forall|b: CellId, c: CellId|
        d.dom().contains(b) && #[trigger] linked(infos, b, c) ==> #[trigger] d.dom().contains(c)
            && d[c] <= d[b] + 1
}

/// All cells of the infos, in order.
pub open spec fn info_cell_seq(infos: Seq<ExpressionInfo>) -> Seq<CellId>
    decreases infos.len(),
{
    if infos.len() == 0 {
        Seq::empty()
    } else {
        info_cell_seq(infos.drop_last()) + infos.last().cells@
    }
}

proof fn lemma_info_cell_seq(infos: Seq<ExpressionInfo>, i: int, c: CellId)
    requires
        0 <= i < infos.len(),
        infos[i].cells@.contains(c),
    ensures
        info_cell_seq(infos).contains(c),
    decreases infos.len(),
{
    let pre = info_cell_seq(infos.drop_last());
    let last = infos.last().cells@;
    if i == infos.len() - 1 {
        let j = choose|j: int| 0 <= j < last.len() && last[j] == c;
        assert((pre + last)[pre.len() + j] == c);
    } else {
        assert(infos.drop_last()[i] == infos[i]);
        lemma_info_cell_seq(infos.drop_last(), i, c);
        let j = choose|j: int| 0 <= j < pre.len() && pre[j] == c;
        assert((pre + last)[j] == c);
    }
}

/// The queue of a search and its map agree: the queue lists each key once.
pub open spec fn queue_matches(q: Seq<CellId>, d: Map<CellId, usize>) -> bool {
    q.no_duplicates() && q.to_set() == d.dom()
}

/// Adds the advice cells that share an equation with `x` and have no distance yet, at
/// distance `dx + 1`, to the map and to the end of the queue.
fn visit_neighbours(
    infos: &Vec<ExpressionInfo>,
    x: CellId,
    dx: usize,
    dist: &mut CellMap<usize>,
    queue: &mut Vec<CellId>,
)
    requires
        old(dist).wf(),
        queue_matches(old(queue)@, old(dist)@),
        x.kind == CellKind::Advice,
        dx < usize::MAX,
    ensures
        final(dist).wf(),
        queue_matches(final(queue)@, final(dist)@),
        final(queue)@.len() >= old(queue)@.len(),
        final(queue)@.subrange(0, old(queue)@.len() as int) == old(queue)@,
        old(dist)@.dom().subset_of(final(dist)@.dom()),
        forall|c: CellId| #[trigger] old(dist)@.dom().contains(c) ==> final(dist)@[c] == old(dist)@[c],
        forall|j: int|
            old(queue)@.len() <= j < final(queue)@.len() ==> final(dist)@[#[trigger] final(queue)@[j]] == dx
                + 1 && linked(infos@, x, final(queue)@[j]),
        forall|c: CellId| #[trigger] linked(infos@, x, c) ==> final(dist)@.dom().contains(c),
{
    let ghost d0 = dist@;
    let ghost q0 = queue@;
    let mut a: usize = 0;
    while a < infos.len()
        invariant
            a <= infos@.len(),
            dx < usize::MAX,
            x.kind == CellKind::Advice,
            dist.wf(),
            queue_matches(queue@, dist@),
            queue@.len() >= q0.len(),
            queue@.subrange(0, q0.len() as int) == q0,
            d0.dom().subset_of(dist@.dom()),
            forall|c: CellId| #[trigger] d0.dom().contains(c) ==> dist@[c] == d0[c],
            forall|j: int|
                q0.len() <= j < queue@.len() ==> dist@[#[trigger] queue@[j]] == dx + 1 && linked(
                    infos@,
                    x,
                    queue@[j],
                ),
            forall|i: int, c: CellId|
                0 <= i < a && infos@[i].cells@.contains(x) && #[trigger] infos@[i].cells@.contains(c)
                    && c != x && c.kind == CellKind::Advice ==> dist@.dom().contains(c),
        decreases infos@.len() - a,
    {
        let cells = &infos[a].cells;
        if contains_cell(cells.as_slice(), &x) {
            let mut b: usize = 0;
            while b < cells.len()
                invariant
                    a < infos@.len(),
                    *cells == infos@[a as int].cells,
                    cells@.contains(x),
                    b <= cells@.len(),
                    dx < usize::MAX,
                    x.kind == CellKind::Advice,
                    dist.wf(),
                    queue_matches(queue@, dist@),
                    queue@.len() >= q0.len(),
                    queue@.subrange(0, q0.len() as int) == q0,
                    d0.dom().subset_of(dist@.dom()),
                    forall|c: CellId| #[trigger] d0.dom().contains(c) ==> dist@[c] == d0[c],
                    forall|j: int|
                        q0.len() <= j < queue@.len() ==> dist@[#[trigger] queue@[j]] == dx + 1 && linked(
                            infos@,
                            x,
                            queue@[j],
                        ),
                    forall|i: int, c: CellId|
                        0 <= i < a && infos@[i].cells@.contains(x) && #[trigger] infos@[i].cells@.contains(c)
                            && c != x && c.kind == CellKind::Advice ==> dist@.dom().contains(c),
                    forall|j: int|
                        0 <= j < b && cells@[j] != x && cells@[j].kind == CellKind::Advice
                            ==> dist@.dom().contains(#[trigger] cells@[j]),
                decreases cells@.len() - b,
            {
                let c = cells[b];
                if c.is_advice() && c != x {
                    if dist.find(&c).is_none() {
                        let ghost dq = dist@;
                        let ghost qq = queue@;
                        proof {
                            assert(cells@[b as int] == c);
                            assert(linked(infos@, x, c));
                            assert(!qq.contains(c)) by {
                                assert(qq.to_set().contains(c) == qq.contains(c));
                            }
                        }
                        dist.insert(c, dx + 1);
                        queue.push(c);
                        proof {
                            lemma_push_to_set(qq, c);
                            assert(queue@.to_set() =~= dist@.dom());
                            assert forall|i: int, j: int| 0 <= i < j < queue@.len() implies queue@[i] != queue@[j] by {
                                if j == qq.len() {
                                    assert(qq[i] == queue@[i]);
                                    assert(qq.contains(queue@[i]));
                                }
                            }
                            assert(queue@.subrange(0, q0.len() as int) =~= qq.subrange(0, q0.len() as int));
                            assert forall|j: int|
                                q0.len() <= j < queue@.len() implies dist@[#[trigger] queue@[j]] == dx + 1
                                && linked(infos@, x, queue@[j]) by {
                                if j < qq.len() {
                                    assert(queue@[j] == qq[j]);
                                    assert(qq.to_set().contains(qq[j]));
                                    assert(queue@[j] != c);
                                }
                            }
                        }
                    }
                }
                b = b + 1;
            }
        }
        a = a + 1;
    }
    proof {
        assert forall|c: CellId| #[trigger] linked(infos@, x, c) implies dist@.dom().contains(c) by {
            let i = choose|i: int| 0 <= i < infos@.len() && infos@[i].cells@.contains(x) && infos@[i].cells@.contains(c);
        }
    }
}

/// What `visit_neighbours` does to the map and the queue.
#[verifier::opaque]
pub open spec fn visited(
    d0: Map<CellId, usize>,
    q0: Seq<CellId>,
    d1: Map<CellId, usize>,
    q1: Seq<CellId>,
    x: CellId,
    dx: usize,
    infos: Seq<ExpressionInfo>,
) -> bool {
    &&& queue_matches(q1, d1)
    &&& q1.len() >= q0.len()
    &&& q1.subrange(0, q0.len() as int) == q0
    &&& d0.dom().subset_of(d1.dom())
    &&& forall|c: CellId| #[trigger] d0.dom().contains(c) ==> d1[c] == d0[c]
    &&& forall|j: int| q0.len() <= j < q1.len() ==> d1[#[trigger] q1[j]] == dx + 1 && linked(infos, x, q1[j])
    &&& forall|c: CellId| #[trigger] linked(infos, x, c) ==> d1.dom().contains(c)
}

/// The queue of the search, up to `head`: distances never decrease along it, those from
/// `head` on are within one of each other, each is at most its position, and every cell before
/// `head` has all its neighbours in the map, at most one further.
#[verifier::opaque]
pub open spec fn queue_order(d: Map<CellId, usize>, q: Seq<CellId>, head: int, infos: Seq<ExpressionInfo>) -> bool {
    &&& forall|i: int, j: int| 0 <= i <= j < q.len() ==> d[#[trigger] q[i]] <= d[#[trigger] q[j]]
    &&& forall|i: int, j: int| head <= i < q.len() && 0 <= j < q.len() ==> d[#[trigger] q[j]] <= d[#[trigger] q[i]] + 1
    &&& forall|i: int| 0 <= i < q.len() ==> d[#[trigger] q[i]] <= i
    &&& forall|i: int, c: CellId|
        0 <= i < head && #[trigger] linked(infos, q[i], c) ==> d.dom().contains(c) && d[c] <= d[q[i]] + 1
}

/// The shape of the map during the search: advice cells of `univ`, zero only at targets,
/// a neighbour one closer for every other cell, and the advice targets at zero.
#[verifier::opaque]
pub open spec fn map_shape(d: Map<CellId, usize>, infos: Seq<ExpressionInfo>, targets: Seq<CellId>, univ: Seq<CellId>) -> bool {
    &&& forall|c: CellId| #[trigger] d.dom().contains(c) ==> c.kind == CellKind::Advice && univ.contains(c)
    &&& forall|c: CellId| #[trigger] d.dom().contains(c) && d[c] == 0 ==> targets.contains(c)
    &&& forall|c: CellId|
        #[trigger] d.dom().contains(c) && d[c] > 0 ==> exists|b: CellId|
            d.dom().contains(b) && d[b] + 1 == d[c] && linked(infos, b, c)
    &&& forall|c: CellId| targets.contains(c) && c.kind == CellKind::Advice ==> #[trigger] d.dom().contains(c) && d[c] == 0
}

/// One step of the search keeps the queue in order.
proof fn lemma_queue_order_step(
    d0: Map<CellId, usize>,
    q0: Seq<CellId>,
    d1: Map<CellId, usize>,
    q1: Seq<CellId>,
    head: int,
    dx: usize,
    infos: Seq<ExpressionInfo>,
)
    requires
        queue_matches(q0, d0),
        queue_order(d0, q0, head, infos),
        0 <= head < q0.len(),
        dx == d0[q0[head]],
        visited(d0, q0, d1, q1, q0[head], dx, infos),
    ensures
        queue_order(d1, q1, head + 1, infos),
{
    reveal(queue_order);
    reveal(visited);
    let x = q0[head];
    assert forall|i: int| 0 <= i < q0.len() implies #[trigger] q1[i] == q0[i] by {
        assert(q1.subrange(0, q0.len() as int)[i] == q1[i]);
    }
    assert forall|i: int| 0 <= i < q0.len() implies d1[#[trigger] q1[i]] == d0[q0[i]] by {
        assert(q0.to_set().contains(q0[i]));
    }
    assert forall|i: int, j: int| 0 <= i <= j < q1.len() implies d1[#[trigger] q1[i]] <= d1[#[trigger] q1[j]] by {
        if j >= q0.len() && i < q0.len() {
            assert(d0[q0[i]] <= d0[q0[head]] + 1);
        }
    }
    assert forall|i: int| 0 <= i < q1.len() implies d1[#[trigger] q1[i]] <= i by {
        if i >= q0.len() {
            assert(d0[q0[head]] <= head);
        }
    }
    assert forall|i: int, j: int|
        head + 1 <= i < q1.len() && 0 <= j < q1.len() implies d1[#[trigger] q1[j]] <= d1[#[trigger] q1[i]] + 1 by {
        if j < q0.len() {
            assert(d0[q0[j]] <= d0[q0[head]] + 1);
        }
        if i < q0.len() {
            assert(d0[q0[head]] <= d0[q0[i]]);
        }
    }
    assert forall|i: int, c: CellId|
        0 <= i < head + 1 && #[trigger] linked(infos, q1[i], c) implies d1.dom().contains(c) && d1[c] <= d1[q1[i]] + 1 by {
        if i < head {
            assert(linked(infos, q0[i], c));
            assert(d0.dom().contains(c));
        } else {
            assert(linked(infos, x, c));
            assert(d1.dom().contains(c));
            assert(q1.to_set().contains(c));
            let k = choose|k: int| 0 <= k < q1.len() && q1[k] == c;
            if k < q0.len() {
                assert(d0[q0[k]] <= d0[q0[head]] + 1);
            }
        }
    }
}

/// The cells that one step of the search adds are neighbours of the visited cell, one
/// further than it.
proof fn lemma_new_cells(
    d0: Map<CellId, usize>,
    q0: Seq<CellId>,
    d1: Map<CellId, usize>,
    q1: Seq<CellId>,
    x: CellId,
    dx: usize,
    infos: Seq<ExpressionInfo>,
)
    requires
        queue_matches(q0, d0),
        visited(d0, q0, d1, q1, x, dx, infos),
    ensures
        forall|c: CellId|
            d1.dom().contains(c) && !d0.dom().contains(c) ==> #[trigger] d1[c] == dx + 1 && linked(infos, x, c),
        forall|c: CellId| #[trigger] d0.dom().contains(c) ==> d1.dom().contains(c) && d1[c] == d0[c],
        forall|c: CellId| #[trigger] linked(infos, x, c) ==> d1.dom().contains(c),
        queue_matches(q1, d1),
        q1.len() >= q0.len(),
{
    reveal(visited);
    assert forall|c: CellId| d1.dom().contains(c) && !d0.dom().contains(c) implies #[trigger] d1[c] == dx + 1
        && linked(infos, x, c) by {
        assert(q1.to_set().contains(c));
        let k = choose|k: int| 0 <= k < q1.len() && q1[k] == c;
        if k < q0.len() {
            assert(q1.subrange(0, q0.len() as int)[k] == q1[k]);
            assert(q0.to_set().contains(q0[k]));
        }
    }
}

/// One step of the search keeps the shape of the map.
proof fn lemma_map_shape_step(
    d0: Map<CellId, usize>,
    q0: Seq<CellId>,
    d1: Map<CellId, usize>,
    q1: Seq<CellId>,
    x: CellId,
    dx: usize,
    infos: Seq<ExpressionInfo>,
    targets: Seq<CellId>,
    univ: Seq<CellId>,
)
    requires
        map_shape(d0, infos, targets, univ),
        univ == targets + info_cell_seq(infos),
        d0.dom().contains(x),
        dx == d0[x],
        forall|c: CellId|
            d1.dom().contains(c) && !d0.dom().contains(c) ==> #[trigger] d1[c] == dx + 1 && linked(infos, x, c),
        forall|c: CellId| #[trigger] d0.dom().contains(c) ==> d1.dom().contains(c) && d1[c] == d0[c],
    ensures
        map_shape(d1, infos, targets, univ),
{
    reveal(map_shape);
    assert forall|c: CellId| #[trigger] d1.dom().contains(c) implies c.kind == CellKind::Advice && univ.contains(c) by {
        if !d0.dom().contains(c) {
            assert(d1[c] == dx + 1);
            let i = choose|i: int| 0 <= i < infos.len() && infos[i].cells@.contains(x) && infos[i].cells@.contains(c);
            lemma_info_cell_seq(infos, i, c);
            let j = choose|j: int| 0 <= j < info_cell_seq(infos).len() && info_cell_seq(infos)[j] == c;
            assert(univ[targets.len() + j] == c);
        }
    }
    assert forall|c: CellId| #[trigger] d1.dom().contains(c) && d1[c] > 0 implies exists|b: CellId|
        d1.dom().contains(b) && d1[b] + 1 == d1[c] && linked(infos, b, c) by {
        if d0.dom().contains(c) {
            let b = choose|b: CellId| d0.dom().contains(b) && d0[b] + 1 == d0[c] && linked(infos, b, c);
            assert(d1.dom().contains(b) && d1[b] == d0[b]);
        } else {
            assert(d1[c] == dx + 1);
            assert(d1.dom().contains(x) && d1[x] == d0[x]);
        }
    }
    assert forall|c: CellId| #[trigger] d1.dom().contains(c) && d1[c] == 0 implies targets.contains(c) by {
        if !d0.dom().contains(c) {
            assert(d1[c] == dx + 1);
        }
    }
    assert forall|c: CellId| targets.contains(c) && c.kind == CellKind::Advice implies #[trigger] d1.dom().contains(c)
        && d1[c] == 0 by {
        assert(d0.dom().contains(c));
    }
}

/// The queue of a search stays within the cells it may visit.
proof fn lemma_queue_bound(d: Map<CellId, usize>, q: Seq<CellId>, infos: Seq<ExpressionInfo>, targets: Seq<CellId>, univ: Seq<CellId>)
    requires
        queue_matches(q, d),
        map_shape(d, infos, targets, univ),
    ensures
        q.len() <= univ.len(),
{
    reveal(map_shape);
    q.unique_seq_to_set();
    vstd::seq_lib::seq_to_set_is_finite(univ);
    univ.lemma_cardinality_of_set();
    assert(q.to_set().subset_of(univ.to_set())) by {
        assert forall|c: CellId| q.to_set().contains(c) implies univ.to_set().contains(c) by {
            assert(d.dom().contains(c));
        }
    }
    vstd::set_lib::lemma_len_subset(q.to_set(), univ.to_set());
}

/// Breadth-first distances from the advice targets over cells that share an equation.
fn target_distances(infos: &Vec<ExpressionInfo>, target_cells: &[CellId]) -> (r: CellMap<usize>)
    ensures
        r.wf(),
        distances_valid(r@, infos@, target_cells@),
{
    let ghost univ = target_cells@ + info_cell_seq(infos@);
    let mut dist: CellMap<usize> = CellMap::new();
    let mut queue: Vec<CellId> = Vec::new();
    proof {
        assert(queue@.to_set() =~= dist@.dom());
    }
    let mut t: usize = 0;
    while t < target_cells.len()
        invariant
            t <= target_cells@.len(),
            dist.wf(),
            queue_matches(queue@, dist@),
            forall|i: int| 0 <= i < queue@.len() ==> dist@[#[trigger] queue@[i]] == 0,
            forall|c: CellId| #[trigger] dist@.dom().contains(c) ==> c.kind == CellKind::Advice && target_cells@.contains(c),
            forall|i: int|
                0 <= i < t && target_cells@[i].kind == CellKind::Advice ==> dist@.dom().contains(
                    #[trigger] target_cells@[i],
                ),
        decreases target_cells@.len() - t,
    {
        let c = target_cells[t];
        if c.is_advice() && dist.find(&c).is_none() {
            let ghost qq = queue@;
            proof {
                assert(!qq.contains(c)) by {
                    assert(qq.to_set().contains(c) == qq.contains(c));
                }
            }
            dist.insert(c, 0);
            queue.push(c);
            proof {
                lemma_push_to_set(qq, c);
                assert(queue@.to_set() =~= dist@.dom());
                assert forall|i: int, j: int| 0 <= i < j < queue@.len() implies queue@[i] != queue@[j] by {
                    if j == qq.len() {
                        assert(qq[i] == queue@[i]);
                        assert(qq.contains(queue@[i]));
                    }
                }
                assert forall|i: int| 0 <= i < queue@.len() implies dist@[#[trigger] queue@[i]] == 0 by {
                    if i < qq.len() {
                        assert(queue@[i] == qq[i]);
                        assert(qq.to_set().contains(qq[i]));
                    }
                }
                assert(target_cells@[t as int] == c);
            }
        }
        t = t + 1;
    }
    proof {
        assert forall|c: CellId| #[trigger] dist@.dom().contains(c) implies univ.contains(c) by {
            let i = choose|i: int| 0 <= i < target_cells@.len() && target_cells@[i] == c;
            assert(univ[i] == c);
        }
        assert forall|c: CellId| target_cells@.contains(c) && c.kind == CellKind::Advice implies #[trigger] dist@.dom().contains(c)
            && dist@[c] == 0 by {
            let i = choose|i: int| 0 <= i < target_cells@.len() && target_cells@[i] == c;
            assert(dist@.dom().contains(target_cells@[i]));
            assert(queue@.to_set().contains(c));
            let k = choose|k: int| 0 <= k < queue@.len() && queue@[k] == c;
        }
        assert forall|c: CellId| #[trigger] dist@.dom().contains(c) implies dist@[c] == 0 by {
            assert(queue@.to_set().contains(c));
            let k = choose|k: int| 0 <= k < queue@.len() && queue@[k] == c;
        }
        reveal(map_shape);
        reveal(queue_order);
        assert(map_shape(dist@, infos@, target_cells@, univ));
        assert(queue_order(dist@, queue@, 0, infos@)) by {
            assert forall|i: int| 0 <= i < queue@.len() implies dist@.dom().contains(#[trigger] queue@[i]) by {
                assert(queue@.to_set().contains(queue@[i]));
            }
        }
    }
    let mut head: usize = 0;
    while head < queue.len()
        invariant
            univ == target_cells@ + info_cell_seq(infos@),
            dist.wf(),
            queue_matches(queue@, dist@),
            head <= queue@.len(),
            queue_order(dist@, queue@, head as int, infos@),
            map_shape(dist@, infos@, target_cells@, univ),
        decreases univ.len() - head,
    {
        let x = queue[head];
        proof {
            assert(queue@.to_set().contains(x));
            dist.lemma_wf();
            reveal(queue_order);
            reveal(map_shape);
            assert(dist@[queue@[head as int]] <= head);
            assert(dist@.dom().contains(x));
            assert(x.kind == CellKind::Advice);
        }
        let dx = match dist.get(&x) {
            Some(v) => *v,
            None => 0,
        };
        let ghost d0 = dist@;
        let ghost q0 = queue@;
        visit_neighbours(infos, x, dx, &mut dist, &mut queue);
        proof {
            assert(visited(d0, q0, dist@, queue@, x, dx, infos@)) by {
                reveal(visited);
            }
            lemma_queue_order_step(d0, q0, dist@, queue@, head as int, dx, infos@);
            lemma_new_cells(d0, q0, dist@, queue@, x, dx, infos@);
            lemma_map_shape_step(d0, q0, dist@, queue@, x, dx, infos@, target_cells@, univ);
            lemma_queue_bound(dist@, queue@, infos@, target_cells@, univ);
        }
        head = head + 1;
    }
    proof {
        reveal(queue_order);
        reveal(map_shape);
        assert forall|b: CellId, c: CellId|
            dist@.dom().contains(b) && #[trigger] linked(infos@, b, c) implies #[trigger] dist@.dom().contains(c)
            && dist@[c] <= dist@[b] + 1 by {
            assert(queue@.to_set().contains(b));
            let i = choose|i: int| 0 <= i < queue@.len() && queue@[i] == b;
            assert(linked(infos@, queue@[i], c));
        }
    }
    dist
}

/// How many targets, counted with repetition, are in `K`.
pub open spec fn unique_target_count(ts: Seq<CellId>, k: Set<CellId>) -> nat
    decreases ts.len(),
{
    if ts.len() == 0 {
        0
    } else {
        unique_target_count(ts.drop_last(), k) + (if k.contains(ts.last()) {
            1nat
        } else {
            0nat
        })
    }
}

/// How many equations refer to a cell.
pub open spec fn containing_count(es: Seq<ExprModel>, c: CellId) -> nat
    decreases es.len(),
{
    if es.len() == 0 {
        0
    } else {
        containing_count(es.drop_last(), c) + (if expr_cells(es.last()).contains(c) {
            1nat
        } else {
            0nat
        })
    }
}

/// How many equations not yet unique refer to a cell.
pub open spec fn unresolved_containing_count(es: Seq<ExprModel>, k: Set<CellId>, c: CellId) -> nat
    decreases es.len(),
{
    if es.len() == 0 {
        0
    } else {
        unresolved_containing_count(es.drop_last(), k, c) + (if !unique_model(es.last(), k)
            && expr_cells(es.last()).contains(c) {
            1nat
        } else {
            0nat
        })
    }
}

/// How many equations have exactly two advice cells not yet unique, one of them `c`: those
/// where knowing `c` may settle the other.
pub open spec fn bridge_count(es: Seq<ExprModel>, k: Set<CellId>, c: CellId) -> nat
    decreases es.len(),
{
    if es.len() == 0 {
        0
    } else {
        bridge_count(es.drop_last(), k, c) + (if unresolved_cells_model(es.last(), k).contains(c)
            && unresolved_cells_model(es.last(), k).len() == 2 {
            1nat
        } else {
            0nat
        })
    }
}

/// `a - b`, or zero where `b` is larger.
pub open spec fn saturating_diff(a: int, b: int) -> int {
    if a >= b {
        a - b
    } else {
        0
    }
}

/// The merits of querying a cell, most important first: how many targets are unique after
/// UCP runs with the cell assumed unique, and how many of them are new; how many cells and
/// equations become unique; whether it is a target; in how many equations it is one of two
/// unknowns, in how many unresolved equations and in how many equations it occurs; and its
/// distance to the targets (smaller is better).
pub struct CandidateScore {
    pub cell: CellId,
    pub unique_targets_after_simulation: usize,
    pub newly_unique_targets: usize,
    pub is_target: bool,
    pub newly_unique_cells: usize,
    pub newly_unique_expressions: usize,
    pub bridge_expressions: usize,
    pub unresolved_expression_count: usize,
    pub expression_count: usize,
    pub target_distance: usize,
}

/// The score of `cell` given the `K` that UCP reaches with the cell assumed unique.
pub open spec fn score_from(
    cell: CellId,
    es: Seq<ExprModel>,
    k: Set<CellId>,
    targets: Seq<CellId>,
    d: Map<CellId, usize>,
    k2: Set<CellId>,
) -> CandidateScore {
    CandidateScore {
        cell,
        unique_targets_after_simulation: unique_target_count(targets, k2) as usize,
        newly_unique_targets: saturating_diff(
            unique_target_count(targets, k2) as int,
            unique_target_count(targets, k) as int,
        ) as usize,
        is_target: targets.contains(cell),
        newly_unique_cells: saturating_diff(k2.len() as int, k.len() as int) as usize,
        newly_unique_expressions: saturating_diff(unique_count(es, k2) as int, unique_count(es, k) as int) as usize,
        bridge_expressions: bridge_count(es, k, cell) as usize,
        unresolved_expression_count: unresolved_containing_count(es, k, cell) as usize,
        expression_count: containing_count(es, cell) as usize,
        target_distance: if d.dom().contains(cell) {
            d[cell]
        } else {
            usize::MAX
        },
    }
}

/// A score of `cell`: the one for some fixpoint of UCP from `K` with `cell` added and `Delta`.
pub open spec fn score_valid(
    s: CandidateScore,
    cell: CellId,
    es: Seq<ExprModel>,
    k: Set<CellId>,
    m: Map<CellId, Set<int>>,
    p: int,
    targets: Seq<CellId>,
    d: Map<CellId, usize>,
) -> bool {
    exists|k2: Set<CellId>, m2: Map<CellId, Set<int>>|
        #[trigger] fixpoint_of(es, k.insert(cell), m, Some(p), k2, m2) && s == score_from(
            cell,
            es,
            k,
            targets,
            d,
            k2,
        )
}

/// Whether score `a` ranks above score `b`: lexicographically on the merits, a smaller
/// distance ranking higher, and the smaller cell winning the last tie.
pub open spec fn score_above(a: CandidateScore, b: CandidateScore) -> bool {
    if a.unique_targets_after_simulation != b.unique_targets_after_simulation {
        a.unique_targets_after_simulation > b.unique_targets_after_simulation
    } else if a.newly_unique_targets != b.newly_unique_targets {
        a.newly_unique_targets > b.newly_unique_targets
    } else if a.newly_unique_cells != b.newly_unique_cells {
        a.newly_unique_cells > b.newly_unique_cells
    } else if a.newly_unique_expressions != b.newly_unique_expressions {
        a.newly_unique_expressions > b.newly_unique_expressions
    } else if a.is_target != b.is_target {
        a.is_target
    } else if a.bridge_expressions != b.bridge_expressions {
        a.bridge_expressions > b.bridge_expressions
    } else if a.unresolved_expression_count != b.unresolved_expression_count {
        a.unresolved_expression_count > b.unresolved_expression_count
    } else if a.expression_count != b.expression_count {
        a.expression_count > b.expression_count
    } else if a.target_distance != b.target_distance {
        a.target_distance < b.target_distance
    } else {
        cell_lt(a.cell, b.cell)
    }
}

/// Whether score `a` ranks above score `b`.
fn ranks_above(a: &CandidateScore, b: &CandidateScore) -> (r: bool)
    ensures
        r == score_above(*a, *b),
{
    if a.unique_targets_after_simulation != b.unique_targets_after_simulation {
        a.unique_targets_after_simulation > b.unique_targets_after_simulation
    } else if a.newly_unique_targets != b.newly_unique_targets {
        a.newly_unique_targets > b.newly_unique_targets
    } else if a.newly_unique_cells != b.newly_unique_cells {
        a.newly_unique_cells > b.newly_unique_cells
    } else if a.newly_unique_expressions != b.newly_unique_expressions {
        a.newly_unique_expressions > b.newly_unique_expressions
    } else if a.is_target != b.is_target {
        a.is_target
    } else if a.bridge_expressions != b.bridge_expressions {
        a.bridge_expressions > b.bridge_expressions
    } else if a.unresolved_expression_count != b.unresolved_expression_count {
        a.unresolved_expression_count > b.unresolved_expression_count
    } else if a.expression_count != b.expression_count {
        a.expression_count > b.expression_count
    } else if a.target_distance != b.target_distance {
        a.target_distance < b.target_distance
    } else {
        cell_less(&a.cell, &b.cell)
    }
}

/// How many equations are unique under `K`.
fn count_unique_expressions(expressions: &[UcpExpr], facts: &UcpFacts) -> (r: usize)
    ensures
        r == unique_count(exprs_model(expressions@), facts@),
{
    let ghost es = exprs_model(expressions@);
    let mut count: usize = 0;
    let mut i: usize = 0;
    while i < expressions.len()
        invariant
            es == exprs_model(expressions@),
            i <= expressions@.len(),
            count == unique_count(es.subrange(0, i as int), facts@),
            count <= i,
        decreases expressions@.len() - i,
    {
        proof {
            assert(es.subrange(0, i + 1).drop_last() =~= es.subrange(0, i as int));
            assert(es.subrange(0, i + 1).last() == expressions@[i as int]@);
        }
        if expression_is_unique(&expressions[i], facts) {
            count = count + 1;
        }
        i = i + 1;
    }
    assert(es.subrange(0, expressions@.len() as int) =~= es);
    count
}

/// How many targets, counted with repetition, are unique.
fn count_unique_targets(target_cells: &[CellId], facts: &UcpFacts) -> (r: usize)
    ensures
        r == unique_target_count(target_cells@, facts@),
{
    let mut count: usize = 0;
    let mut i: usize = 0;
    while i < target_cells.len()
        invariant
            i <= target_cells@.len(),
            count == unique_target_count(target_cells@.subrange(0, i as int), facts@),
            count <= i,
        decreases target_cells@.len() - i,
    {
        proof {
            assert(target_cells@.subrange(0, i + 1).drop_last() =~= target_cells@.subrange(0, i as int));
        }
        if facts.is_unique(&target_cells[i]) {
            count = count + 1;
        }
        i = i + 1;
    }
    assert(target_cells@.subrange(0, target_cells@.len() as int) =~= target_cells@);
    count
}

/// The infos describe the equations under `K`.
pub open spec fn infos_match(infos: Seq<ExpressionInfo>, es: Seq<ExprModel>, k: Set<CellId>) -> bool {
    infos.len() == es.len() && forall|i: int| 0 <= i < infos.len() ==> info_of(#[trigger] infos[i], es[i], k)
}

/// The counts of the equations that refer to `cell`: all of them, the unresolved ones, and
/// those where it is one of two unknowns.
fn occurrence_counts(cell: &CellId, infos: &Vec<ExpressionInfo>, es: Ghost<Seq<ExprModel>>, k: Ghost<Set<CellId>>) -> (r: (
    usize,
    usize,
    usize,
))
    requires
        infos_match(infos@, es@, k@),
    ensures
        r.0 == containing_count(es@, *cell),
        r.1 == unresolved_containing_count(es@, k@, *cell),
        r.2 == bridge_count(es@, k@, *cell),
{
    let mut all: usize = 0;
    let mut unresolved: usize = 0;
    let mut bridges: usize = 0;
    let mut i: usize = 0;
    while i < infos.len()
        invariant
            infos_match(infos@, es@, k@),
            i <= infos@.len(),
            all == containing_count(es@.subrange(0, i as int), *cell),
            unresolved == unresolved_containing_count(es@.subrange(0, i as int), k@, *cell),
            bridges == bridge_count(es@.subrange(0, i as int), k@, *cell),
            all <= i,
            unresolved <= i,
            bridges <= i,
        decreases infos@.len() - i,
    {
        let info = &infos[i];
        proof {
            let pre = es@.subrange(0, i + 1);
            assert(pre.drop_last() =~= es@.subrange(0, i as int));
            assert(pre.last() == es@[i as int]);
            assert(info_of(infos@[i as int], es@[i as int], k@));
            assert(info.cells@.to_set().contains(*cell) == info.cells@.contains(*cell));
            assert(info.unresolved_cells@.to_set().contains(*cell) == info.unresolved_cells@.contains(*cell));
            info.unresolved_cells@.unique_seq_to_set();
        }
        let inside = contains_cell(info.cells.as_slice(), cell);
        if inside {
            all = all + 1;
            if !info.is_unique {
                unresolved = unresolved + 1;
            }
        }
        if info.unresolved_cells.len() == 2 && contains_cell(info.unresolved_cells.as_slice(), cell) {
            bridges = bridges + 1;
        }
        i = i + 1;
    }
    assert(es@.subrange(0, infos@.len() as int) =~= es@);
    (all, unresolved, bridges)
}

/// The score of a candidate: UCP is run again with the cell assumed unique.
fn score_candidate(
    cell: CellId,
    expressions: &[UcpExpr],
    facts: &UcpFacts,
    value_facts: &UcpValueFacts,
    field_modulus: &Integer,
    target_cells: &[CellId],
    infos: &Vec<ExpressionInfo>,
    distances: &CellMap<usize>,
    baseline_unique_expressions: usize,
    baseline_unique_targets: usize,
    baseline_unique_cells: usize,
) -> (r: CandidateScore)
    requires
        value_facts.wf(),
        distances.wf(),
        infos_match(infos@, exprs_model(expressions@), facts@),
        baseline_unique_expressions == unique_count(exprs_model(expressions@), facts@),
        baseline_unique_targets == unique_target_count(target_cells@, facts@),
        baseline_unique_cells == facts@.len(),
    ensures
        score_valid(
            r,
            cell,
            exprs_model(expressions@),
            facts@,
            value_facts@,
            field_modulus@,
            target_cells@,
            distances@,
        ),
{
    let ghost es = exprs_model(expressions@);
    let mut simulated_facts = facts.clone();
    simulated_facts.mark_unique(cell);
    let simulated = analyze_expressions_with_values_and_modulus(
        expressions,
        simulated_facts,
        value_facts.clone(),
        field_modulus,
    );
    let (expression_count, unresolved_expression_count, bridge_expressions) = occurrence_counts(
        &cell,
        infos,
        Ghost(es),
        Ghost(facts@),
    );
    let unique_targets_after_simulation = count_unique_targets(target_cells, &simulated.facts);
    let simulated_list = simulated.facts.unique_cells();
    let simulated_cells = simulated_list.len();
    proof {
        simulated_list@.unique_seq_to_set();
    }
    let target_distance = match distances.get(&cell) {
        Some(d) => *d,
        None => usize::MAX,
    };
    let r = CandidateScore {
        cell,
        unique_targets_after_simulation,
        newly_unique_targets: unique_targets_after_simulation.saturating_sub(baseline_unique_targets),
        is_target: contains_cell(target_cells, &cell),
        newly_unique_cells: simulated_cells.saturating_sub(baseline_unique_cells),
        newly_unique_expressions: simulated.unique_expressions.saturating_sub(baseline_unique_expressions),
        bridge_expressions,
        unresolved_expression_count,
        expression_count,
        target_distance,
    };
    proof {
        assert(fixpoint_of(es, facts@.insert(cell), value_facts@, Some(field_modulus@), simulated.facts@, simulated.value_facts@));
        assert(r == score_from(cell, es, facts@, target_cells@, distances@, simulated.facts@));
    }
    r
}

/// Why `c` was chosen: `cands` lists the candidates, `infos` describe the equations, `d` holds
/// the distances to the targets, `scores` holds a score of each candidate, and the score of
/// `c`, at `best`, ranks above all the others.
pub open spec fn choice_justified(
    c: CellId,
    infos: Seq<ExpressionInfo>,
    d: Map<CellId, usize>,
    cands: Seq<CellId>,
    scores: Seq<CandidateScore>,
    best: int,
    es: Seq<ExprModel>,
    k: Set<CellId>,
    m: Map<CellId, Set<int>>,
    p: int,
    targets: Seq<CellId>,
    queried: Seq<CellId>,
) -> bool {
    &&& infos_match(infos, es, k)
    &&& distances_valid(d, infos, targets)
    &&& lists_set(cands, candidate_cells_model(es, k, targets, queried))
    &&& scores.len() == cands.len()
    &&& forall|i: int| 0 <= i < cands.len() ==> score_valid(#[trigger] scores[i], cands[i], es, k, m, p, targets, d)
    &&& 0 <= best < cands.len()
    &&& cands[best] == c
    &&& forall|i: int| 0 <= i < cands.len() && i != best ==> score_above(scores[best], #[trigger] scores[i])
}

/// The cell to query next: `None` when no candidate is left, else the candidate whose score
/// ranks highest.
pub fn choose_query_cell(
    expressions: &[UcpExpr],
    facts: &UcpFacts,
    value_facts: &UcpValueFacts,
    field_modulus: &Integer,
    target_cells: &[CellId],
    queried_cells: &[CellId],
) -> (r: Option<CellId>)
    requires
        value_facts.wf(),
    ensures
        r is None <==> candidate_cells_model(
            exprs_model(expressions@),
            facts@,
            target_cells@,
            queried_cells@,
        ) == Set::<CellId>::empty(),
        r matches Some(c) ==> exists|
            infos: Seq<ExpressionInfo>,
            d: Map<CellId, usize>,
            cands: Seq<CellId>,
            scores: Seq<CandidateScore>,
            best: int,
        |
            #[trigger] choice_justified(
                c,
                infos,
                d,
                cands,
                scores,
                best,
                exprs_model(expressions@),
                facts@,
                value_facts@,
                field_modulus@,
                target_cells@,
                queried_cells@,
            ),
{
    let ghost es = exprs_model(expressions@);
    let candidates = collect_candidate_cells(expressions, facts, target_cells, queried_cells);
    if candidates.len() == 0 {
        proof {
            assert(candidates@.to_set() =~= Set::<CellId>::empty());
        }
        return None;
    }
    let infos = expression_infos(expressions, facts);
    let distances = target_distances(&infos, target_cells);
    let baseline_unique_expressions = count_unique_expressions(expressions, facts);
    let baseline_unique_targets = count_unique_targets(target_cells, facts);
    let facts_list = facts.unique_cells();
    let baseline_unique_cells = facts_list.len();
    proof {
        facts_list@.unique_seq_to_set();
        assert(infos_match(infos@, es, facts@));
    }
    let mut best = score_candidate(
        candidates[0],
        expressions,
        facts,
        value_facts,
        field_modulus,
        target_cells,
        &infos,
        &distances,
        baseline_unique_expressions,
        baseline_unique_targets,
        baseline_unique_cells,
    );
    let ghost mut scores: Seq<CandidateScore> = seq![best];
    let ghost mut best_index: int = 0;
    let mut i: usize = 1;
    while i < candidates.len()
        invariant
            es == exprs_model(expressions@),
            value_facts.wf(),
            distances.wf(),
            infos_match(infos@, es, facts@),
            baseline_unique_expressions == unique_count(es, facts@),
            baseline_unique_targets == unique_target_count(target_cells@, facts@),
            baseline_unique_cells == facts@.len(),
            candidates@.no_duplicates(),
            1 <= i <= candidates@.len(),
            scores.len() == i,
            forall|j: int|
                0 <= j < i ==> score_valid(
                    #[trigger] scores[j],
                    candidates@[j],
                    es,
                    facts@,
                    value_facts@,
                    field_modulus@,
                    target_cells@,
                    distances@,
                ),
            forall|j: int| 0 <= j < i ==> (#[trigger] scores[j]).cell == candidates@[j],
            0 <= best_index < i,
            scores[best_index] == best,
            forall|j: int| 0 <= j < i && j != best_index ==> score_above(best, #[trigger] scores[j]),
        decreases candidates@.len() - i,
    {
        let score = score_candidate(
            candidates[i],
            expressions,
            facts,
            value_facts,
            field_modulus,
            target_cells,
            &infos,
            &distances,
            baseline_unique_expressions,
            baseline_unique_targets,
            baseline_unique_cells,
        );
        proof {
            scores = scores.push(score);
        }
        if ranks_above(&score, &best) {
            proof {
                assert forall|j: int| 0 <= j < i + 1 && j != i implies score_above(score, #[trigger] scores[j]) by {
                    lemma_score_order(score, best, scores[j]);
                    if j != best_index {
                        assert(score_above(best, scores[j]));
                    }
                }
                best_index = i as int;
            }
            best = score;
        } else {
            proof {
                assert(candidates@[i as int] != candidates@[best_index]);
                lemma_score_total(score, best);
                assert(score_above(best, scores[i as int]));
            }
        }
        i = i + 1;
    }
    proof {
        assert(candidates@.to_set().contains(candidates@[0]));
        assert(choice_justified(
            best.cell,
            infos@,
            distances@,
            candidates@,
            scores,
            best_index,
            es,
            facts@,
            value_facts@,
            field_modulus@,
            target_cells@,
            queried_cells@,
        ));
    }
    Some(best.cell)
}

/// The ranking of scores is a strict order: a score never ranks above itself, ranking is
/// transitive, and of two ranked scores the lower never ranks above the higher.
pub proof fn lemma_score_order(a: CandidateScore, b: CandidateScore, c: CandidateScore)
    requires
        score_above(a, b),
    ensures
        score_above(b, c) ==> score_above(a, c),
        !score_above(b, a),
        !score_above(a, a),
{
    lemma_cell_order(a.cell, b.cell, c.cell);
}

/// Of two scores of different cells, one ranks above the other: the choice is never a tie.
pub proof fn lemma_score_total(a: CandidateScore, b: CandidateScore)
    requires
        a.cell != b.cell,
    ensures
        score_above(a, b) || score_above(b, a),
{
    lemma_cell_order(a.cell, b.cell, a.cell);
}

/// A candidate is a cell neither in `K` nor asked about before, and it is a target or an
/// advice cell of the equations: the chooser never asks about a cell twice or about one
/// already known.
pub proof fn lemma_candidate_is_new(es: Seq<ExprModel>, k: Set<CellId>, targets: Seq<CellId>, queried: Seq<CellId>, c: CellId)
    requires
        candidate_cells_model(es, k, targets, queried).contains(c),
    ensures
        !k.contains(c),
        !queried.contains(c),
        targets.contains(c) || (c.kind == CellKind::Advice && exprs_cells(es).contains(c)),
{
}

/// Where two scores tie on what UCP would learn, a target ranks above a cell that is no
/// target.
pub proof fn lemma_target_wins_tie(a: CandidateScore, b: CandidateScore)
    requires
        a.unique_targets_after_simulation == b.unique_targets_after_simulation,
        a.newly_unique_targets == b.newly_unique_targets,
        a.newly_unique_cells == b.newly_unique_cells,
        a.newly_unique_expressions == b.newly_unique_expressions,
        a.is_target,
        !b.is_target,
    ensures
        score_above(a, b),
        !score_above(b, a),
{
}

/// Distances that a map satisfying `distances_valid` gives are at least those of any other
/// such map: by induction on the distance.
proof fn lemma_distances_below(
    d1: Map<CellId, usize>,
    d2: Map<CellId, usize>,
    infos: Seq<ExpressionInfo>,
    targets: Seq<CellId>,
    n: nat,
    c: CellId,
)
    requires
        distances_valid(d1, infos, targets),
        distances_valid(d2, infos, targets),
        d1.dom().contains(c),
        d1[c] == n,
    ensures
        d2.dom().contains(c),
        d2[c] <= n,
    decreases n,
{
    if n == 0 {
        assert(targets.contains(c));
    } else {
        let b = choose|b: CellId| d1.dom().contains(b) && d1[b] + 1 == d1[c] && linked(infos, b, c);
        lemma_distances_below(d1, d2, infos, targets, (n - 1) as nat, b);
        assert(linked(infos, b, c));
    }
}

/// The conditions of `distances_valid` fix the map: two maps that meet them are equal. So the
/// search's distances are the lengths of shortest paths to the targets.
#[verifier::spinoff_prover]
#[verifier::rlimit(50)]
pub proof fn lemma_distances_unique(
    d1: Map<CellId, usize>,
    d2: Map<CellId, usize>,
    infos: Seq<ExpressionInfo>,
    targets: Seq<CellId>,
)
    requires
        distances_valid(d1, infos, targets),
        distances_valid(d2, infos, targets),
    ensures
        d1 == d2,
{
    assert forall|c: CellId| #[trigger] d1.dom().contains(c) implies d2.dom().contains(c) && d2[c] == d1[c] by {
        lemma_distances_below(d1, d2, infos, targets, d1[c] as nat, c);
        lemma_distances_below(d2, d1, infos, targets, d2[c] as nat, c);
    }
    assert forall|c: CellId| #[trigger] d2.dom().contains(c) implies d1.dom().contains(c) by {
        lemma_distances_below(d2, d1, infos, targets, d2[c] as nat, c);
    }
    assert(d1 =~= d2);
}

} // verus!
