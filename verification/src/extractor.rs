//! Building a UCP problem from a circuit: the zero equations of its active gates and of its
//! copy constraints, the initial `K`, the targets, the witness cells, and the domains that
//! its lookup tables give.
//!
//! The circuit is read through `CircuitData`: the regions that synthesis laid out, each gate's
//! polynomials, the lookups, the assigned fixed values, and the permutation of the copy
//! constraints, all as plain values.
use crate::cell::{CellId, CellKind};
use crate::cell_map::{entry_keys, sorted_cells, CellMap};
use crate::choose_var::{advice_only, contains_cell};
use crate::plonkish::{
    expression_to_ucp_expr_with_fixed_values, fixed_values_model, fixed_view, rows_ok, PlonkExpr, PlonkQuery,
};
use crate::expr::{add_model, expr_cells, exprs_cells, exprs_model, neg_model, ExprModel, ScalarModel, UcpExpr};
use crate::domain::{
    domain_valid, domain_values_model, finite_set_model, int_seq, lemma_clone_valid, lemma_domain_valid,
    mark_domain_model, UcpValueDomain, UcpValueFacts,
};
use crate::integer::{parsed_integer, Integer};
use crate::facts::{initial_facts_from_expressions, initially_unique, lemma_push_to_set, UcpFacts};
use crate::value::{
    infer_domains_from_expression_domain_with_modulus, inference_view, inferences_valid, membership_inference_model,
};
use vstd::prelude::*;

verus! {

/// The kind of a column.
#[derive(Clone, Copy, Debug, PartialEq, Eq, Structural)]
pub enum ColumnKind {
    Advice,
    Fixed,
    Instance,
}

/// A column: its kind and its index among the columns of that kind.
#[derive(Clone, Copy, Debug, PartialEq, Eq, Structural)]
pub struct ColumnRef {
    pub kind: ColumnKind,
    pub index: usize,
}

/// The value of a fixed cell after synthesis.
#[derive(Debug)]
pub enum CellValue {
    /// Assigned, with its value.
    Assigned(Integer),
    /// Never assigned.
    Unassigned,
    /// Marked unusable, with the index of the poison.
    Poison(usize),
}

/// A region laid out by synthesis.
#[derive(Debug)]
pub struct RegionData {
    /// The first and last absolute rows, where the region has rows.
    pub rows: Option<(usize, usize)>,
    /// For each selector enabled in the region, the absolute rows where it is enabled.
    pub enabled_selectors: Vec<Vec<usize>>,
    /// The cells assigned in the region: column and absolute row.
    pub cells: Vec<(ColumnRef, usize)>,
}

/// A lookup argument: input expressions and the table expressions they are looked up in.
#[derive(Debug)]
pub struct LookupData {
    pub input_expressions: Vec<PlonkExpr>,
    pub table_expressions: Vec<PlonkExpr>,
}

/// The permutation of the copy constraints: its columns, and for each column and row the
/// next position in its cycle and the length of the cycle.
#[derive(Debug)]
pub struct PermutationData {
    pub columns: Vec<ColumnRef>,
    pub mapping: Vec<Vec<(usize, usize)>>,
    pub sizes: Vec<Vec<usize>>,
}

/// What the extractor reads of a synthesized circuit.
#[derive(Debug)]
pub struct CircuitData {
    /// The regions, in the order synthesis laid them out.
    pub regions: Vec<RegionData>,
    /// How many selectors the circuit declares.
    pub selector_count: usize,
    /// The polynomials of each gate.
    pub gates: Vec<Vec<PlonkExpr>>,
    /// The lookup arguments.
    pub lookups: Vec<LookupData>,
    /// The fixed cells, column by column.
    pub fixed: Vec<Vec<CellValue>>,
    /// The copy constraints.
    pub permutation: PermutationData,
}

/// The cell of an assigned advice position; `None` for other columns and rows beyond `i32`.
pub open spec fn advice_cell_model(column: ColumnRef, row: usize) -> Option<CellId> {
    if column.kind == ColumnKind::Advice && row <= i32::MAX {
        Some(CellId { kind: CellKind::Advice, column: column.index, row: row as i32 })
    } else {
        None
    }
}

/// The witness cell of an assigned position, where it is an advice cell.
pub fn assigned_advice_cell_id(column: &ColumnRef, row: usize) -> (r: Option<CellId>)
    ensures
        r == advice_cell_model(*column, row),
{
    if row > 0x7fff_ffffusize {
        return None;
    }
    match column.kind {
        ColumnKind::Advice => Some(CellId::advice(column.index, row as i32)),
        ColumnKind::Fixed | ColumnKind::Instance => None,
    }
}

/// The witness cells assigned in a region.
pub open spec fn region_witness_model(region: RegionData) -> Set<CellId> {
    Set::new(
        |c: CellId|
            exists|i: int|
                0 <= i < region.cells@.len() && advice_cell_model(region.cells@[i].0, region.cells@[i].1)
                    == Some(c),
    )
}

/// Whether a region assigns some advice cell.
pub fn region_has_advice_cell(region: &RegionData) -> (r: bool)
    ensures
        r == (region_witness_model(*region) != Set::<CellId>::empty()),
{
    let mut i: usize = 0;
    while i < region.cells.len()
        invariant
            i <= region.cells@.len(),
            forall|j: int| 0 <= j < i ==> advice_cell_model(region.cells@[j].0, region.cells@[j].1) is None,
        decreases region.cells@.len() - i,
    {
        let (column, row) = &region.cells[i];
        if let Some(c) = assigned_advice_cell_id(column, *row) {
            proof {
                assert(region_witness_model(*region).contains(c));
            }
            return true;
        }
        i = i + 1;
    }
    proof {
        assert(region_witness_model(*region) =~= Set::<CellId>::empty()) by {
            assert forall|c: CellId| !region_witness_model(*region).contains(c) by {
                if region_witness_model(*region).contains(c) {
                    let j = choose|j: int|
                        0 <= j < region.cells@.len() && advice_cell_model(region.cells@[j].0, region.cells@[j].1)
                            == Some(c);
                }
            }
        }
    }
    false
}

/// Adds the witness cells assigned in a region to a sorted set of cells.
fn collect_region_witness_cells(region: &RegionData, cells: &mut CellMap<bool>)
    requires
        old(cells).wf(),
    ensures
        final(cells).wf(),
        final(cells)@.dom() == old(cells)@.dom().union(region_witness_model(*region)),
{
    let ghost start = cells@.dom();
    let mut i: usize = 0;
    while i < region.cells.len()
        invariant
            i <= region.cells@.len(),
            cells.wf(),
            cells@.dom() == start.union(
                Set::new(
                    |c: CellId|
                        exists|j: int|
                            0 <= j < i && advice_cell_model(region.cells@[j].0, region.cells@[j].1) == Some(c),
                ),
            ),
        decreases region.cells@.len() - i,
    {
        let (column, row) = &region.cells[i];
        let ghost before = cells@.dom();
        if let Some(c) = assigned_advice_cell_id(column, *row) {
            cells.insert(c, true);
        }
        proof {
            assert(cells@.dom() =~= start.union(
                Set::new(
                    |c: CellId|
                        exists|j: int|
                            0 <= j < i + 1 && advice_cell_model(region.cells@[j].0, region.cells@[j].1) == Some(c),
                ),
            )) by {
                assert forall|c: CellId|
                    (exists|j: int| 0 <= j < i + 1 && advice_cell_model(region.cells@[j].0, region.cells@[j].1) == Some(c))
                        <==> ((exists|j: int|
                        0 <= j < i && advice_cell_model(region.cells@[j].0, region.cells@[j].1) == Some(c)) || advice_cell_model(
                        region.cells@[i as int].0,
                        region.cells@[i as int].1,
                    ) == Some(c)) by {
                    if exists|j: int| 0 <= j < i + 1 && advice_cell_model(region.cells@[j].0, region.cells@[j].1) == Some(c) {
                        let j = choose|j: int| 0 <= j < i + 1 && advice_cell_model(region.cells@[j].0, region.cells@[j].1) == Some(c);
                        if j < i {
                        }
                    }
                }
            }
        }
        i = i + 1;
    }
    proof {
        assert(cells@.dom() =~= start.union(region_witness_model(*region)));
    }
}

/// Adds the advice cells of an expression to a sorted set of cells.
fn collect_witness_cells(expr: &UcpExpr, cells: &mut CellMap<bool>)
    requires
        old(cells).wf(),
    ensures
        final(cells).wf(),
        final(cells)@.dom() == old(cells)@.dom().union(advice_only(expr_cells(expr@))),
    decreases expr,
{
    let ghost before = cells@.dom();
    match expr {
        UcpExpr::Var(cell) => {
            if cell.is_advice() {
                cells.insert(*cell, true);
            }
            assert(cells@.dom() =~= before.union(advice_only(expr_cells(expr@))));
        },
        UcpExpr::Const(_) => {
            assert(cells@.dom() =~= before.union(advice_only(expr_cells(expr@))));
        },
        UcpExpr::Neg(inner) | UcpExpr::Scale(inner, _) => {
            collect_witness_cells(inner, cells);
        },
        UcpExpr::Add(left, right) | UcpExpr::Mul(left, right) => {
            collect_witness_cells(left, cells);
            collect_witness_cells(right, cells);
            assert(cells@.dom() =~= before.union(advice_only(expr_cells(expr@))));
        },
    }
}

/// The keys of a sorted set of cells, in order.
fn sorted_keys(cells: &CellMap<bool>) -> (r: Vec<CellId>)
    requires
        cells.wf(),
    ensures
        sorted_cells(r@),
        r@.to_set() == cells@.dom(),
{
    proof {
        cells.lemma_wf();
    }
    let entries = cells.entries();
    let mut out: Vec<CellId> = Vec::new();
    let mut i: usize = 0;
    while i < entries.len()
        invariant
            i <= entries@.len(),
            entries@ == cells.entries_view(),
            sorted_cells(entry_keys(entries@)),
            out@ == entry_keys(entries@).subrange(0, i as int),
        decreases entries@.len() - i,
    {
        out.push(entries[i].0);
        proof {
            assert(entry_keys(entries@).subrange(0, i + 1) =~= entry_keys(entries@).subrange(0, i as int).push(
                entries@[i as int].0,
            ));
        }
        i = i + 1;
    }
    proof {
        assert(out@ =~= entry_keys(entries@));
        assert forall|c: CellId| out@.to_set().contains(c) <==> cells@.dom().contains(c) by {
            if out@.contains(c) {
                let j = choose|j: int| 0 <= j < out@.len() && out@[j] == c;
                assert(entries@[j].0 == c);
            }
            if cells@.dom().contains(c) {
                let j = choose|j: int| 0 <= j < entries@.len() && entries@[j].0 == c;
                assert(out@[j] == c);
            }
        }
        assert(out@.to_set() =~= cells@.dom());
    }
    out
}

/// The witness cells that a list of equations refers to, in cell order.
pub fn witness_cells_from_expressions(expressions: &[UcpExpr]) -> (r: Vec<CellId>)
    ensures
        sorted_cells(r@),
        r@.to_set() == advice_only(exprs_cells(exprs_model(expressions@))),
{
    let mut cells: CellMap<bool> = CellMap::new();
    add_expression_witness_cells(expressions, &mut cells);
    proof {
        assert(cells@.dom() =~= advice_only(exprs_cells(exprs_model(expressions@))));
    }
    sorted_keys(&cells)
}

/// Adds the witness cells of a list of equations to a sorted set of cells.
fn add_expression_witness_cells(expressions: &[UcpExpr], cells: &mut CellMap<bool>)
    requires
        old(cells).wf(),
    ensures
        final(cells).wf(),
        final(cells)@.dom() == old(cells)@.dom().union(advice_only(exprs_cells(exprs_model(expressions@)))),
{
    let ghost es = exprs_model(expressions@);
    let ghost start = cells@.dom();
    let mut e: usize = 0;
    while e < expressions.len()
        invariant
            es == exprs_model(expressions@),
            e <= expressions@.len(),
            cells.wf(),
            cells@.dom() == start.union(advice_only(exprs_cells(es.subrange(0, e as int)))),
        decreases expressions@.len() - e,
    {
        collect_witness_cells(&expressions[e], cells);
        proof {
            let pre = es.subrange(0, e as int);
            let next = es.subrange(0, e + 1);
            assert(es[e as int] == expressions@[e as int]@);
            assert forall|c: CellId| exprs_cells(next).contains(c) <==> (exprs_cells(pre).contains(c)
                || expr_cells(es[e as int]).contains(c)) by {
                if exprs_cells(next).contains(c) {
                    let j = choose|j: int| 0 <= j < next.len() && #[trigger] expr_cells(next[j]).contains(c);
                    if j < e {
                        assert(pre[j] == next[j]);
                    }
                }
                if exprs_cells(pre).contains(c) {
                    let j = choose|j: int| 0 <= j < pre.len() && #[trigger] expr_cells(pre[j]).contains(c);
                    assert(next[j] == pre[j]);
                }
                if expr_cells(es[e as int]).contains(c) {
                    assert(next[e as int] == es[e as int]);
                }
            }
            assert(cells@.dom() =~= start.union(advice_only(exprs_cells(next))));
        }
        e = e + 1;
    }
    assert(es.subrange(0, expressions@.len() as int) =~= es);
}

/// The witness cells of a circuit: those its regions assign and those its equations refer to,
/// in cell order.
pub fn witness_cells_from_analyzable(circuit: &CircuitData, expressions: &[UcpExpr]) -> (r: Vec<CellId>)
    ensures
        sorted_cells(r@),
        r@.to_set() == Set::new(
            |c: CellId| exists|i: int| 0 <= i < circuit.regions@.len() && region_witness_model(circuit.regions@[i]).contains(c),
        ).union(advice_only(exprs_cells(exprs_model(expressions@)))),
{
    let mut cells: CellMap<bool> = CellMap::new();
    let mut i: usize = 0;
    while i < circuit.regions.len()
        invariant
            i <= circuit.regions@.len(),
            cells.wf(),
            cells@.dom() == Set::new(
                |c: CellId| exists|j: int| 0 <= j < i && region_witness_model(circuit.regions@[j]).contains(c),
            ),
        decreases circuit.regions@.len() - i,
    {
        collect_region_witness_cells(&circuit.regions[i], &mut cells);
        proof {
            assert(cells@.dom() =~= Set::new(
                |c: CellId| exists|j: int| 0 <= j < i + 1 && region_witness_model(circuit.regions@[j]).contains(c),
            )) by {
                assert forall|c: CellId|
                    (exists|j: int| 0 <= j < i + 1 && region_witness_model(circuit.regions@[j]).contains(c)) implies
                    cells@.dom().contains(c) by {
                    let j = choose|j: int| 0 <= j < i + 1 && region_witness_model(circuit.regions@[j]).contains(c);
                    if j < i {
                    }
                }
            }
        }
        i = i + 1;
    }
    add_expression_witness_cells(expressions, &mut cells);
    sorted_keys(&cells)
}

/// A list with each cell once, in the order of first occurrence.
pub open spec fn dedup_model(s: Seq<CellId>) -> Seq<CellId>
    decreases s.len(),
{
    if s.len() == 0 {
        Seq::empty()
    } else {
        let d = dedup_model(s.drop_last());
        if d.contains(s.last()) {
            d
        } else {
            d.push(s.last())
        }
    }
}

/// The cells with repetitions left out, in the order of first occurrence.
pub fn dedup_cells_preserving_order(cells: &[CellId]) -> (r: Vec<CellId>)
    ensures
        r@ == dedup_model(cells@),
{
    let mut out: Vec<CellId> = Vec::new();
    let mut i: usize = 0;
    while i < cells.len()
        invariant
            i <= cells@.len(),
            out@ == dedup_model(cells@.subrange(0, i as int)),
        decreases cells@.len() - i,
    {
        proof {
            assert(cells@.subrange(0, i + 1).drop_last() =~= cells@.subrange(0, i as int));
        }
        if !contains_cell(out.as_slice(), &cells[i]) {
            out.push(cells[i]);
        }
        i = i + 1;
    }
    assert(cells@.subrange(0, cells@.len() as int) =~= cells@);
    out
}

/// The rest of the text after a `0x` prefix, where it starts with one.
fn strip_hex_prefix(text: &str) -> (r: Option<&str>)
    ensures
        r matches Some(rest) ==> text@ == seq!['0', 'x'] + rest@,
        r is None ==> !(text@.len() >= 2 && text@[0] == '0' && text@[1] == 'x'),
{
    let n = text.unicode_len();
    if n >= 2 && text.get_char(0) == '0' && text.get_char(1) == 'x' {
        let rest = text.substring_char(2, n);
        assert(text@ =~= seq!['0', 'x'] + rest@);
        Some(rest)
    } else {
        None
    }
}

/// The value a field modulus string stands for: hexadecimal after a `0x` prefix, decimal
/// otherwise; `None` where the digits do not parse.
pub open spec fn field_modulus_model(raw: Seq<char>) -> Option<int> {
    if raw.len() >= 2 && raw[0] == '0' && raw[1] == 'x' {
        parsed_integer(raw.subrange(2, raw.len() as int), 16)
    } else {
        parsed_integer(raw, 10)
    }
}

/// Reads a field modulus as the field's `MODULUS` string gives it.
pub fn parse_field_modulus(raw_modulus: &str) -> (r: Option<Integer>)
    ensures
        r matches Some(v) ==> field_modulus_model(raw_modulus@) == Some(v@),
        r is None ==> field_modulus_model(raw_modulus@) is None,
{
    match strip_hex_prefix(raw_modulus) {
        Some(hex) => {
            proof {
                assert(raw_modulus@.subrange(2, raw_modulus@.len() as int) =~= hex@);
            }
            Integer::from_str_radix(hex, 16)
        },
        None => Integer::from_str_radix(raw_modulus, 10),
    }
}

/// The assigned fixed values as `fixed_values_model` reads them: assigned cells by value,
/// the others as unknown.
pub open spec fn fixed_cells_view(fixed: Seq<Vec<CellValue>>) -> Seq<Seq<Option<int>>> {
    fixed.map_values(
        |col: Vec<CellValue>|
            col@.map_values(
                |v: CellValue|
                    match v {
                        CellValue::Assigned(x) => Some(x@),
                        _ => None,
                    },
            ),
    )
}

/// The value of an assigned fixed cell.
pub open spec fn cell_value_view(v: CellValue) -> Option<int> {
    match v {
        CellValue::Assigned(x) => Some(x@),
        _ => None,
    }
}

/// The value of an optional integer.
pub open spec fn option_view(v: Option<Integer>) -> Option<int> {
    match v {
        Some(x) => Some(x@),
        None => None,
    }
}

/// The assigned fixed values, column by column, with the others left out.
fn assigned_fixed_values(fixed: &Vec<Vec<CellValue>>) -> (r: Vec<Vec<Option<Integer>>>)
    ensures
        fixed_view(r@) == fixed_cells_view(fixed@),
{
    let mut out: Vec<Vec<Option<Integer>>> = Vec::new();
    let mut c: usize = 0;
    while c < fixed.len()
        invariant
            c <= fixed@.len(),
            out@.len() == c,
            forall|a: int|
                0 <= a < c ==> (#[trigger] out@[a])@.len() == fixed@[a]@.len() && forall|j: int|
                    0 <= j < out@[a]@.len() ==> option_view(#[trigger] out@[a]@[j]) == cell_value_view(fixed@[a]@[j]),
        decreases fixed@.len() - c,
    {
        let column = &fixed[c];
        let mut col: Vec<Option<Integer>> = Vec::new();
        let mut r: usize = 0;
        while r < column.len()
            invariant
                r <= column@.len(),
                *column == fixed@[c as int],
                col@.len() == r,
                forall|j: int| 0 <= j < r ==> option_view(#[trigger] col@[j]) == cell_value_view(column@[j]),
            decreases column@.len() - r,
        {
            let v = match &column[r] {
                CellValue::Assigned(x) => Some(x.clone()),
                _ => None,
            };
            col.push(v);
            r = r + 1;
        }
        out.push(col);
        c = c + 1;
    }
    proof {
        assert forall|a: int| 0 <= a < out@.len() implies #[trigger] fixed_view(out@)[a] =~= fixed_cells_view(fixed@)[a] by {
            assert(fixed_view(out@)[a].len() == fixed_cells_view(fixed@)[a].len());
            assert forall|j: int| 0 <= j < fixed_view(out@)[a].len() implies fixed_view(out@)[a][j] == fixed_cells_view(fixed@)[a][j] by {
                assert(option_view(out@[a]@[j]) == cell_value_view(fixed@[a]@[j]));
            }
        }
        assert(fixed_view(out@) =~= fixed_cells_view(fixed@));
    }
    out
}

/// The translations of some polynomials at a row.
pub open spec fn polys_model(polys: Seq<PlonkExpr>, b: usize, row: i32, fx: Seq<Seq<Option<int>>>) -> Seq<ExprModel> {
    polys.map_values(|p: PlonkExpr| fixed_values_model(p, b, row, fx, ScalarModel::Unknown))
}

/// The translations of the polynomials of all gates at a row, gate by gate.
pub open spec fn gates_model(gates: Seq<Vec<PlonkExpr>>, b: usize, row: i32, fx: Seq<Seq<Option<int>>>) -> Seq<ExprModel>
    decreases gates.len(),
{
    if gates.len() == 0 {
        Seq::empty()
    } else {
        gates_model(gates.drop_last(), b, row, fx) + polys_model(gates.last()@, b, row, fx)
    }
}

/// Every polynomial of every gate translates at the row without leaving the range of rows.
pub open spec fn gates_rows_ok(gates: Seq<Vec<PlonkExpr>>, b: usize, row: i32) -> bool {
    forall|g: int, p: int| 0 <= g < gates.len() && 0 <= p < gates[g]@.len() ==> rows_ok(#[trigger] gates[g]@[p], b, row)
}

/// The translations of all gate polynomials at a row.
fn gate_expressions(gates: &Vec<Vec<PlonkExpr>>, b: usize, row: i32, fixed: &Vec<Vec<Option<Integer>>>) -> (r: Vec<UcpExpr>)
    requires
        gates_rows_ok(gates@, b, row),
    ensures
        exprs_model(r@) == gates_model(gates@, b, row, fixed_view(fixed@)),
{
    let ghost fx = fixed_view(fixed@);
    let mut out: Vec<UcpExpr> = Vec::new();
    let mut g: usize = 0;
    while g < gates.len()
        invariant
            fx == fixed_view(fixed@),
            gates_rows_ok(gates@, b, row),
            g <= gates@.len(),
            exprs_model(out@) == gates_model(gates@.subrange(0, g as int), b, row, fx),
        decreases gates@.len() - g,
    {
        let polys = &gates[g];
        let ghost start = exprs_model(out@);
        let mut p: usize = 0;
        while p < polys.len()
            invariant
                fx == fixed_view(fixed@),
                gates_rows_ok(gates@, b, row),
                g < gates@.len(),
                *polys == gates@[g as int],
                p <= polys@.len(),
                exprs_model(out@) == start + polys_model(polys@.subrange(0, p as int), b, row, fx),
            decreases polys@.len() - p,
        {
            proof {
                assert(rows_ok(gates@[g as int]@[p as int], b, row));
            }
            let e = expression_to_ucp_expr_with_fixed_values(&polys[p], b, row, fixed.as_slice());
            let ghost before = out@;
            out.push(e);
            proof {
                assert(out@ =~= before.push(e));
                assert(exprs_model(out@) =~= exprs_model(before).push(e@));
                assert(polys_model(polys@.subrange(0, p + 1), b, row, fx) =~= polys_model(polys@.subrange(0, p as int), b, row, fx).push(
                    e@,
                ));
            }
            p = p + 1;
        }
        proof {
            assert(polys@.subrange(0, polys@.len() as int) =~= polys@);
            let pre = gates@.subrange(0, g + 1);
            assert(pre.drop_last() =~= gates@.subrange(0, g as int));
            assert(pre.last() == *polys);
        }
        g = g + 1;
    }
    assert(gates@.subrange(0, gates@.len() as int) =~= gates@);
    out
}

/// Whether some selector of the region is enabled at an absolute row.
pub open spec fn row_enabled(region: RegionData, abs: int) -> bool {
    exists|i: int| 0 <= i < region.enabled_selectors@.len() && region.enabled_selectors@[i]@.contains(abs as usize)
}

/// Whether some selector of the region is enabled at the absolute row.
pub fn row_has_enabled_selector(region: &RegionData, absolute_row: usize) -> (r: bool)
    ensures
        r == row_enabled(*region, absolute_row as int),
{
    let mut i: usize = 0;
    while i < region.enabled_selectors.len()
        invariant
            i <= region.enabled_selectors@.len(),
            forall|j: int| 0 <= j < i ==> !region.enabled_selectors@[j]@.contains(absolute_row),
        decreases region.enabled_selectors@.len() - i,
    {
        let rows = &region.enabled_selectors[i];
        let mut k: usize = 0;
        while k < rows.len()
            invariant
                i < region.enabled_selectors@.len(),
                k <= rows@.len(),
                *rows == region.enabled_selectors@[i as int],
                forall|j: int| 0 <= j < k ==> rows@[j] != absolute_row,
            decreases rows@.len() - k,
        {
            if rows[k] == absolute_row {
                proof {
                    assert(region.enabled_selectors@[i as int]@.contains(absolute_row));
                }
                return true;
            }
            k = k + 1;
        }
        i = i + 1;
    }
    false
}

/// Whether the gates are read at an absolute row of a region: always in a circuit without
/// selectors, else where a selector of the region is enabled.
pub open spec fn row_active(circuit: CircuitData, region: RegionData, abs: int) -> bool {
    circuit.selector_count == 0 || row_enabled(region, abs)
}

impl RegionData {
    /// The first absolute row of a region with rows.
    pub open spec fn first_row(self) -> usize {
        match self.rows {
            Some((b, _)) => b,
            None => 0,
        }
    }

    /// The last absolute row of a region with rows.
    pub open spec fn last_row(self) -> usize {
        match self.rows {
            Some((_, e)) => e,
            None => 0,
        }
    }
}

/// Whether a region is read at all: it has rows, and where the circuit has selectors, some
/// selector is enabled in it.
pub open spec fn region_read(circuit: CircuitData, region: RegionData) -> bool {
    region.rows is Some && !(circuit.selector_count > 0 && region.enabled_selectors@.len() == 0)
}

/// The equations of the first `n` rows of a region that starts at `b`.
pub open spec fn region_rows_model(circuit: CircuitData, region: RegionData, b: usize, n: int) -> Seq<ExprModel>
    decreases n,
{
    if n <= 0 {
        Seq::empty()
    } else {
        region_rows_model(circuit, region, b, n - 1) + (if row_active(circuit, region, b + n - 1) {
            gates_model(circuit.gates@, b, (n - 1) as i32, fixed_cells_view(circuit.fixed@))
        } else {
            Seq::empty()
        })
    }
}

/// The equations of a region.
pub open spec fn region_model(circuit: CircuitData, region: RegionData) -> Seq<ExprModel> {
    if region_read(circuit, region) && region.first_row() <= region.last_row() {
        region_rows_model(circuit, region, region.first_row(), region.last_row() - region.first_row() + 1)
    } else {
        Seq::empty()
    }
}

/// The equations of the first `n` regions.
pub open spec fn regions_model(circuit: CircuitData, n: int) -> Seq<ExprModel>
    decreases n,
{
    if n <= 0 {
        Seq::empty()
    } else {
        regions_model(circuit, n - 1) + region_model(circuit, circuit.regions@[n - 1])
    }
}

/// Where row `i` of a region is read, it lies within `i32` of the region's start and every
/// gate polynomial translates there without leaving the range of rows.
pub open spec fn region_row_ok(circuit: CircuitData, region: RegionData, i: int) -> bool {
    region_read(circuit, region) && 0 <= i && region.first_row() + i <= region.last_row() && row_active(
        circuit,
        region,
        region.first_row() + i,
    ) ==> i <= i32::MAX && gates_rows_ok(circuit.gates@, region.first_row(), i as i32)
}

/// Every row whose gates are read lies within `i32` of its region's start, and there every
/// gate polynomial translates without leaving the range of rows.
pub open spec fn circuit_rows_ok(circuit: CircuitData) -> bool {
    forall|k: int, i: int| 0 <= k < circuit.regions@.len() ==> #[trigger] region_row_ok(circuit, circuit.regions@[k], i)
}

/// The equations of the active gates of a region, row by row.
fn region_expressions(circuit: &CircuitData, k: usize, fixed: &Vec<Vec<Option<Integer>>>) -> (r: Vec<UcpExpr>)
    requires
        k < circuit.regions@.len(),
        circuit_rows_ok(*circuit),
        fixed_view(fixed@) == fixed_cells_view(circuit.fixed@),
    ensures
        exprs_model(r@) == region_model(*circuit, circuit.regions@[k as int]),
{
    let region = &circuit.regions[k];
    let mut out: Vec<UcpExpr> = Vec::new();
    let (b, e) = match region.rows {
        Some(rows) => rows,
        None => {
            return out;
        },
    };
    if circuit.selector_count > 0 && region.enabled_selectors.len() == 0 {
        return out;
    }
    if b > e {
        return out;
    }
    let count = e - b;
    let mut i: usize = 0;
    loop
        invariant_except_break
            exprs_model(out@) == region_rows_model(*circuit, *region, b, i as int),
        invariant
            k < circuit.regions@.len(),
            *region == circuit.regions@[k as int],
            region.rows == Some((b, e)),
            region_read(*circuit, *region),
            circuit_rows_ok(*circuit),
            fixed_view(fixed@) == fixed_cells_view(circuit.fixed@),
            b <= e,
            count == e - b,
            i <= count,
        ensures
            exprs_model(out@) == region_rows_model(*circuit, *region, b, count + 1),
        decreases count - i,
    {
        let absolute_row = b + i;
        let active = circuit.selector_count == 0 || row_has_enabled_selector(region, absolute_row);
        if active {
            proof {
                assert(region_row_ok(*circuit, circuit.regions@[k as int], i as int));
                assert(i <= i32::MAX && gates_rows_ok(circuit.gates@, b, i as i32));
            }
            let mut rows = gate_expressions(&circuit.gates, b, i as i32, fixed);
            let ghost before = out@;
            let ghost added = rows@;
            out.append(&mut rows);
            proof {
                assert(out@ == before + added);
                assert(exprs_model(out@) =~= exprs_model(before) + exprs_model(added));
            }
        }
        proof {
            assert(exprs_model(out@) =~= region_rows_model(*circuit, *region, b, i + 1));
        }
        if i == count {
            break;
        }
        i = i + 1;
    }
    out
}

/// The permutation is well formed: one entry per position, each pointing to a position.
pub open spec fn permutation_wf(p: PermutationData) -> bool {
    &&& p.mapping@.len() == p.sizes@.len()
    &&& forall|c: int| 0 <= c < p.sizes@.len() ==> (#[trigger] p.mapping@[c])@.len() == p.sizes@[c]@.len()
    &&& forall|c: int, w: int|
        0 <= c < p.mapping@.len() && 0 <= w < p.mapping@[c]@.len() ==> (#[trigger] p.mapping@[c]@[w]).0
            < p.mapping@.len() && p.mapping@[c]@[w].1 < p.mapping@[p.mapping@[c]@[w].0 as int]@.len()
}

/// The kind of cell of a column kind.
pub open spec fn cell_kind_of(k: ColumnKind) -> CellKind {
    match k {
        ColumnKind::Advice => CellKind::Advice,
        ColumnKind::Fixed => CellKind::Fixed,
        ColumnKind::Instance => CellKind::Instance,
    }
}

/// The cell at a position of the permutation; `None` beyond its columns or beyond `i32`.
pub open spec fn permutation_cell_model(p: PermutationData, col: int, row: int) -> Option<CellId> {
    if 0 <= col < p.columns@.len() && 0 <= row <= i32::MAX {
        Some(CellId { kind: cell_kind_of(p.columns@[col].kind), column: p.columns@[col].index, row: row as i32 })
    } else {
        None
    }
}

/// The cell at a position of the permutation.
fn permutation_cell_id(permutation: &PermutationData, col: usize, row: usize) -> (r: Option<CellId>)
    ensures
        r == permutation_cell_model(*permutation, col as int, row as int),
{
    if col >= permutation.columns.len() || row > 0x7fff_ffffusize {
        return None;
    }
    let column = permutation.columns[col];
    let row = row as i32;
    match column.kind {
        ColumnKind::Advice => Some(CellId::advice(column.index, row)),
        ColumnKind::Fixed => Some(CellId::fixed(column.index, row)),
        ColumnKind::Instance => Some(CellId::instance(column.index, row)),
    }
}

/// The equation `left - right = 0` of a copy constraint.
pub open spec fn copy_model(left: CellId, right: CellId) -> ExprModel {
    add_model(ExprModel::Var(left), neg_model(ExprModel::Var(right)))
}

/// The equation of an edge between two cells.
pub open spec fn edge_model(e: (CellId, CellId)) -> ExprModel {
    copy_model(e.0, e.1)
}

/// A step of the permutation from one cell to another, both within range.
pub open spec fn permutation_step(p: PermutationData, left: CellId, right: CellId) -> bool {
    exists|c: int, w: int|
        0 <= c < p.mapping@.len() && 0 <= w < p.mapping@[c]@.len() && permutation_cell_model(p, c, w) == Some(left)
            && #[trigger] permutation_cell_model(p, p.mapping@[c]@[w].0 as int, p.mapping@[c]@[w].1 as int) == Some(right)
}

/// The position reached from `(c, w)` after `t` steps of the permutation.
pub open spec fn cycle_pos(p: PermutationData, c: int, w: int, t: nat) -> (int, int)
    decreases t,
{
    if t == 0 {
        (c, w)
    } else {
        let prev = cycle_pos(p, c, w, (t - 1) as nat);
        (p.mapping@[prev.0]@[prev.1].0 as int, p.mapping@[prev.0]@[prev.1].1 as int)
    }
}

/// Both ends of step `t` of the walk from `(c, w)` are cells.
pub open spec fn step_in_range(p: PermutationData, c: int, w: int, t: nat) -> bool {
    let from = cycle_pos(p, c, w, t);
    let to = cycle_pos(p, c, w, t + 1);
    permutation_cell_model(p, from.0, from.1) is Some && permutation_cell_model(p, to.0, to.1) is Some
}

/// Step `t` of the walk from `(c, w)`, where it joins two different cells.
pub open spec fn walk_step(p: PermutationData, c: int, w: int, t: nat) -> Option<(CellId, CellId)> {
    let from = cycle_pos(p, c, w, t);
    let to = cycle_pos(p, c, w, t + 1);
    match (permutation_cell_model(p, from.0, from.1), permutation_cell_model(p, to.0, to.1)) {
        (Some(l), Some(r)) => if l != r {
            Some((l, r))
        } else {
            None
        },
        _ => None,
    }
}

/// Step `t` of the cycle at `(c, w)` is followed: the cycle has more than one position, `t` is
/// within its length, and every step up to it stays within range.
pub open spec fn step_walked(p: PermutationData, c: int, w: int, t: nat) -> bool {
    &&& p.sizes@[c]@[w] > 1
    &&& t < p.sizes@[c]@[w]
    &&& forall|s: nat| s <= t ==> #[trigger] step_in_range(p, c, w, s)
}

/// What the copy-constraint equations hold so far: each is the equation of a distinct step
/// between two different cells.
pub open spec fn copy_edges_ok(p: PermutationData, out: Seq<UcpExpr>, seen: Seq<(CellId, CellId)>) -> bool {
    &&& out.len() == seen.len()
    &&& seen.no_duplicates()
    &&& forall|i: int| 0 <= i < seen.len() ==> #[trigger] edge_ok(p, out[i], seen[i])
}

/// An equation is that of an edge, and the edge is a step between two different cells.
pub open spec fn edge_ok(p: PermutationData, e: UcpExpr, edge: (CellId, CellId)) -> bool {
    e@ == copy_model(edge.0, edge.1) && edge.0 != edge.1 && permutation_step(p, edge.0, edge.1)
}

/// Whether an edge occurs in a list of edges.
fn contains_edge(edges: &Vec<(CellId, CellId)>, edge: &(CellId, CellId)) -> (r: bool)
    ensures
        r == edges@.contains(*edge),
{
    let mut i: usize = 0;
    while i < edges.len()
        invariant
            i <= edges@.len(),
            forall|j: int| 0 <= j < i ==> edges@[j] != *edge,
        decreases edges@.len() - i,
    {
        if edges[i].0 == edge.0 && edges[i].1 == edge.1 {
            return true;
        }
        i = i + 1;
    }
    false
}

/// The elements of a list in order, each at its first occurrence.
pub open spec fn first_occurrences<T>(s: Seq<T>) -> Seq<T>
    decreases s.len(),
{
    if s.len() == 0 {
        Seq::empty()
    } else {
        let d = first_occurrences(s.drop_last());
        if d.contains(s.last()) {
            d
        } else {
            d.push(s.last())
        }
    }
}

/// The steps between two different cells among the first `n` steps walked from `(c, w)`, in
/// order.
pub open spec fn cycle_edges(p: PermutationData, c: int, w: int, n: nat) -> Seq<(CellId, CellId)>
    decreases n,
{
    if n == 0 {
        Seq::empty()
    } else {
        let prev = cycle_edges(p, c, w, (n - 1) as nat);
        if step_walked(p, c, w, (n - 1) as nat) && walk_step(p, c, w, (n - 1) as nat) is Some {
            prev.push(walk_step(p, c, w, (n - 1) as nat)->0)
        } else {
            prev
        }
    }
}

/// The steps walked from position `(c, w)`, along its cycle.
pub open spec fn position_edges(p: PermutationData, c: int, w: int) -> Seq<(CellId, CellId)> {
    cycle_edges(p, c, w, p.sizes@[c]@[w] as nat)
}

/// The steps walked from the first `n` positions of column `c`, row by row.
pub open spec fn column_edges(p: PermutationData, c: int, n: int) -> Seq<(CellId, CellId)>
    decreases n,
{
    if n <= 0 {
        Seq::empty()
    } else {
        column_edges(p, c, n - 1) + position_edges(p, c, n - 1)
    }
}

/// The steps walked from every position of the first `n` columns, column by column.
pub open spec fn walk_edges(p: PermutationData, n: int) -> Seq<(CellId, CellId)>
    decreases n,
{
    if n <= 0 {
        Seq::empty()
    } else {
        walk_edges(p, n - 1) + column_edges(p, n - 1, p.sizes@[n - 1]@.len() as int)
    }
}

/// The copy-constraint edges in the order the permutation is walked, column by column, row by
/// row and along each cycle, each at its first occurrence.
pub open spec fn copy_edge_order(p: PermutationData) -> Seq<(CellId, CellId)> {
    first_occurrences(walk_edges(p, p.sizes@.len() as int))
}

/// Once no step from `t` on is walked, the edges of the walk stay those of its first `t`
/// steps.
proof fn lemma_cycle_edges_stop(p: PermutationData, c: int, w: int, t: nat, n: nat)
    requires
        t <= n,
        forall|s: nat| s >= t ==> !#[trigger] step_walked(p, c, w, s),
    ensures
        cycle_edges(p, c, w, n) == cycle_edges(p, c, w, t),
    decreases n,
{
    if n > t {
        lemma_cycle_edges_stop(p, c, w, t, (n - 1) as nat);
        assert(!step_walked(p, c, w, (n - 1) as nat));
    }
}

/// Once a step leaves the range, no later step is walked.
proof fn lemma_walk_stops(p: PermutationData, c: int, w: int, t: nat)
    requires
        !step_in_range(p, c, w, t),
    ensures
        forall|s: nat| s >= t ==> !#[trigger] step_walked(p, c, w, s),
{
}

/// Follows the cycle from a position, adding the equation of each new step.
fn walk_cycle(
    permutation: &PermutationData,
    col: usize,
    row: usize,
    out: &mut Vec<UcpExpr>,
    seen: &mut Vec<(CellId, CellId)>,
    Ghost(prefix): Ghost<Seq<(CellId, CellId)>>,
)
    requires
        permutation_wf(*permutation),
        col < permutation.sizes@.len(),
        row < permutation.sizes@[col as int]@.len(),
        copy_edges_ok(*permutation, old(out)@, old(seen)@),
        old(seen)@ == first_occurrences(prefix),
    ensures
        copy_edges_ok(*permutation, final(out)@, final(seen)@),
        final(seen)@ == first_occurrences(prefix + position_edges(*permutation, col as int, row as int)),
        forall|e: (CellId, CellId)| old(seen)@.contains(e) ==> #[trigger] final(seen)@.contains(e),
        forall|t: nat|
            step_walked(*permutation, col as int, row as int, t) && walk_step(*permutation, col as int, row as int, t) is Some
                ==> final(seen)@.contains(#[trigger] walk_step(*permutation, col as int, row as int, t)->0),
{
    let cycle_len = permutation.sizes[col][row];
    if cycle_len <= 1 {
        proof {
            lemma_cycle_edges_stop(*permutation, col as int, row as int, 0, cycle_len as nat);
            assert(prefix + Seq::<(CellId, CellId)>::empty() =~= prefix);
        }
        return;
    }
    let ghost s0 = seen@;
    assert(s0 == old(seen)@);
    let mut cycle_col = col;
    let mut cycle_row = row;
    let mut t: usize = 0;
    while t < cycle_len
        invariant
            permutation_wf(*permutation),
            col < permutation.sizes@.len(),
            row < permutation.sizes@[col as int]@.len(),
            cycle_len == permutation.sizes@[col as int]@[row as int],
            cycle_len > 1,
            t <= cycle_len,
            cycle_col < permutation.mapping@.len(),
            cycle_row < permutation.mapping@[cycle_col as int]@.len(),
            (cycle_col as int, cycle_row as int) == cycle_pos(*permutation, col as int, row as int, t as nat),
            copy_edges_ok(*permutation, out@, seen@),
            s0 == old(seen)@,
            forall|e: (CellId, CellId)| s0.contains(e) ==> #[trigger] seen@.contains(e),
            forall|s: nat| s < t ==> #[trigger] step_in_range(*permutation, col as int, row as int, s),
            forall|s: nat|
                s < t && walk_step(*permutation, col as int, row as int, s) is Some ==> seen@.contains(
                    #[trigger] walk_step(*permutation, col as int, row as int, s)->0,
                ),
            seen@ == first_occurrences(prefix + cycle_edges(*permutation, col as int, row as int, t as nat)),
        decreases cycle_len - t,
    {
        proof {
            assert(permutation.mapping@[col as int]@.len() == permutation.sizes@[col as int]@.len());
        }
        let (right_col, right_row) = permutation.mapping[cycle_col][cycle_row];
        proof {
            assert(cycle_pos(*permutation, col as int, row as int, (t + 1) as nat) == (right_col as int, right_row as int));
        }
        let left = match permutation_cell_id(permutation, cycle_col, cycle_row) {
            Some(c) => c,
            None => {
                proof {
                    lemma_walk_stops(*permutation, col as int, row as int, t as nat);
                    lemma_cycle_edges_stop(*permutation, col as int, row as int, t as nat, cycle_len as nat);
                }
                return;
            },
        };
        let right = match permutation_cell_id(permutation, right_col, right_row) {
            Some(c) => c,
            None => {
                proof {
                    lemma_walk_stops(*permutation, col as int, row as int, t as nat);
                    lemma_cycle_edges_stop(*permutation, col as int, row as int, t as nat, cycle_len as nat);
                }
                return;
            },
        };
        let ghost ce = cycle_edges(*permutation, col as int, row as int, t as nat);
        proof {
            assert(step_in_range(*permutation, col as int, row as int, t as nat));
            assert(step_walked(*permutation, col as int, row as int, t as nat));
            if left != right {
                assert(walk_step(*permutation, col as int, row as int, t as nat) == Some((left, right)));
                assert(cycle_edges(*permutation, col as int, row as int, (t + 1) as nat) == ce.push((left, right)));
                assert(prefix + ce.push((left, right)) =~= (prefix + ce).push((left, right)));
            } else {
                assert(walk_step(*permutation, col as int, row as int, t as nat) is None);
                assert(cycle_edges(*permutation, col as int, row as int, (t + 1) as nat) == ce);
            }
        }
        if left != right && !contains_edge(seen, &(left, right)) {
            let ghost so = seen@;
            let ghost oo = out@;
            seen.push((left, right));
            out.push(UcpExpr::add(UcpExpr::var(left), UcpExpr::neg(UcpExpr::var(right))));
            proof {
                assert(permutation_step(*permutation, left, right));
                assert forall|i: int, j: int| 0 <= i < j < seen@.len() implies seen@[i] != seen@[j] by {
                    if j == so.len() {
                        assert(so[i] == seen@[i]);
                        assert(so.contains(seen@[i]));
                    }
                }
                assert forall|i: int| 0 <= i < seen@.len() implies #[trigger] edge_ok(*permutation, out@[i], seen@[i]) by {
                    if i < so.len() {
                        assert(seen@[i] == so[i]);
                        assert(out@[i] == oo[i]);
                        assert(edge_ok(*permutation, oo[i], so[i]));
                    }
                }
                assert(seen@[so.len() as int] == (left, right));
                assert forall|e: (CellId, CellId)| so.contains(e) implies #[trigger] seen@.contains(e) by {
                    let k = choose|k: int| 0 <= k < so.len() && so[k] == e;
                    assert(seen@[k] == e);
                }
                assert forall|e: (CellId, CellId)| s0.contains(e) implies #[trigger] seen@.contains(e) by {
                    assert(so.contains(e));
                }
            }
        }
        proof {
            assert(step_in_range(*permutation, col as int, row as int, t as nat));
            if left != right {
                assert(walk_step(*permutation, col as int, row as int, t as nat) == Some((left, right)));
                assert(seen@.contains((left, right)));
                let x = prefix + ce;
                assert(x.push((left, right)).drop_last() =~= x);
                assert(x.push((left, right)).last() == (left, right));
                assert(seen@ == first_occurrences(x.push((left, right))));
            }
        }
        cycle_col = right_col;
        cycle_row = right_row;
        t = t + 1;
    }
    proof {
        assert(t == cycle_len);
        assert(position_edges(*permutation, col as int, row as int) == cycle_edges(*permutation, col as int, row as int, t as nat));
    }
}

/// The copy-constraint equations: the equation `left - right = 0` of each edge of
/// `copy_edge_order`, in that order; each is a distinct step of the permutation between two
/// different cells, and every step walked between two different cells is among them.
pub open spec fn copy_constraints_model(p: PermutationData, r: Seq<UcpExpr>) -> bool {
    &&& r.len() == copy_edge_order(p).len()
    &&& forall|i: int| 0 <= i < r.len() ==> (#[trigger] r[i])@ == edge_model(copy_edge_order(p)[i])
    &&& exists|seen: Seq<(CellId, CellId)>| #[trigger] copy_edges_ok(p, r, seen)
    &&& forall|c: int, w: int, t: nat|
        0 <= c < p.sizes@.len() && 0 <= w < p.sizes@[c]@.len() && step_walked(p, c, w, t) && walk_step(p, c, w, t) is Some
            ==> exists|i: int| 0 <= i < r.len() && r[i]@ == edge_model((#[trigger] walk_step(p, c, w, t))->0)
}

/// The equations of the copy constraints: `left - right = 0` for each step of each cycle
/// between two different cells, each step once.
fn extract_copy_constraint_expressions(permutation: &PermutationData) -> (r: Vec<UcpExpr>)
    requires
        permutation_wf(*permutation),
    ensures
        copy_constraints_model(*permutation, r@),
{
    let mut out: Vec<UcpExpr> = Vec::new();
    let mut seen: Vec<(CellId, CellId)> = Vec::new();
    let mut col: usize = 0;
    while col < permutation.sizes.len()
        invariant
            permutation_wf(*permutation),
            col <= permutation.sizes@.len(),
            copy_edges_ok(*permutation, out@, seen@),
            forall|c: int, w: int, t: nat|
                0 <= c < col && 0 <= w < permutation.sizes@[c]@.len() && step_walked(*permutation, c, w, t) && walk_step(
                    *permutation,
                    c,
                    w,
                    t,
                ) is Some ==> seen@.contains(#[trigger] walk_step(*permutation, c, w, t)->0),
            seen@ == first_occurrences(walk_edges(*permutation, col as int)),
        decreases permutation.sizes@.len() - col,
    {
        let mut row: usize = 0;
        proof {
            assert(walk_edges(*permutation, col as int) + column_edges(*permutation, col as int, 0) =~= walk_edges(
                *permutation,
                col as int,
            ));
        }
        while row < permutation.sizes[col].len()
            invariant
                permutation_wf(*permutation),
                col < permutation.sizes@.len(),
                row <= permutation.sizes@[col as int]@.len(),
                copy_edges_ok(*permutation, out@, seen@),
                forall|c: int, w: int, t: nat|
                    ((0 <= c < col && 0 <= w < permutation.sizes@[c]@.len()) || (c == col && 0 <= w < row))
                        && step_walked(*permutation, c, w, t) && walk_step(*permutation, c, w, t) is Some ==> seen@.contains(
                        #[trigger] walk_step(*permutation, c, w, t)->0,
                    ),
                seen@ == first_occurrences(walk_edges(*permutation, col as int) + column_edges(*permutation, col as int, row as int)),
            decreases permutation.sizes@[col as int]@.len() - row,
        {
            let ghost pre = walk_edges(*permutation, col as int) + column_edges(*permutation, col as int, row as int);
            walk_cycle(permutation, col, row, &mut out, &mut seen, Ghost(pre));
            proof {
                assert(pre + position_edges(*permutation, col as int, row as int) =~= walk_edges(*permutation, col as int)
                    + column_edges(*permutation, col as int, row + 1));
            }
            row = row + 1;
        }
        proof {
            assert(walk_edges(*permutation, col + 1) == walk_edges(*permutation, col as int) + column_edges(
                *permutation,
                col as int,
                permutation.sizes@[col as int]@.len() as int,
            ));
        }
        col = col + 1;
    }
    proof {
        assert forall|c: int, w: int, t: nat|
            0 <= c < permutation.sizes@.len() && 0 <= w < permutation.sizes@[c]@.len() && step_walked(*permutation, c, w, t)
                && walk_step(*permutation, c, w, t) is Some implies exists|i: int| 0 <= i < out@.len() && out@[i]@ == edge_model(
                (#[trigger] walk_step(*permutation, c, w, t))->0,
            ) by {
            let e = walk_step(*permutation, c, w, t)->0;
            assert(seen@.contains(e));
            let i = choose|i: int| 0 <= i < seen@.len() && seen@[i] == e;
            assert(edge_ok(*permutation, out@[i], seen@[i]));
        }
        assert(copy_edges_ok(*permutation, out@, seen@));
        assert(seen@ == copy_edge_order(*permutation));
        assert forall|i: int| 0 <= i < out@.len() implies (#[trigger] out@[i])@ == edge_model(copy_edge_order(*permutation)[i]) by {
            assert(edge_ok(*permutation, out@[i], seen@[i]));
        }
    }
    out
}

/// The zero equations of a circuit: those of the gates at each row where they are read, region
/// by region and row by row, then those of the copy constraints.
pub fn extract_ucp_expressions(circuit: &CircuitData) -> (r: Vec<UcpExpr>)
    requires
        circuit_rows_ok(*circuit),
        permutation_wf(circuit.permutation),
    ensures
        regions_model(*circuit, circuit.regions@.len() as int).len() <= r@.len(),
        exprs_model(r@.subrange(0, regions_model(*circuit, circuit.regions@.len() as int).len() as int))
            == regions_model(*circuit, circuit.regions@.len() as int),
        copy_constraints_model(
            circuit.permutation,
            r@.subrange(regions_model(*circuit, circuit.regions@.len() as int).len() as int, r@.len() as int),
        ),
{
    let fixed = assigned_fixed_values(&circuit.fixed);
    let mut out: Vec<UcpExpr> = Vec::new();
    let mut k: usize = 0;
    while k < circuit.regions.len()
        invariant
            k <= circuit.regions@.len(),
            circuit_rows_ok(*circuit),
            fixed_view(fixed@) == fixed_cells_view(circuit.fixed@),
            exprs_model(out@) == regions_model(*circuit, k as int),
        decreases circuit.regions@.len() - k,
    {
        let mut region_exprs = region_expressions(circuit, k, &fixed);
        let ghost before = out@;
        let ghost added = region_exprs@;
        out.append(&mut region_exprs);
        proof {
            assert(out@ == before + added);
            assert(exprs_model(out@) =~= exprs_model(before) + exprs_model(added));
        }
        k = k + 1;
    }
    let ghost gate_part = out@;
    let mut copies = extract_copy_constraint_expressions(&circuit.permutation);
    let ghost copy_part = copies@;
    out.append(&mut copies);
    proof {
        assert(out@ == gate_part + copy_part);
        assert(out@.subrange(0, gate_part.len() as int) =~= gate_part);
        assert(out@.subrange(gate_part.len() as int, out@.len() as int) =~= copy_part);
    }
    out
}

/// The assigned values of a column, in order.
pub open spec fn assigned_values(col: Seq<CellValue>) -> Seq<int>
    decreases col.len(),
{
    if col.len() == 0 {
        Seq::empty()
    } else {
        match col.last() {
            CellValue::Assigned(v) => assigned_values(col.drop_last()).push(v@),
            _ => assigned_values(col.drop_last()),
        }
    }
}

/// The domain a lookup table gives: for a fixed column queried at the current row whose
/// cells are all assigned or unassigned, the set of its assigned values, where there is one
/// and all lie in the range of `i64`; otherwise none.
pub open spec fn lookup_domain_model(e: PlonkExpr, fixed: Seq<Vec<CellValue>>) -> Option<Set<int>> {
    match e {
        PlonkExpr::Fixed(q) => if q.rotation != 0 || q.column_index >= fixed.len() {
            None
        } else if exists|i: int|
            0 <= i < fixed[q.column_index as int]@.len() && fixed[q.column_index as int]@[i] is Poison {
            None
        } else {
            finite_set_model(assigned_values(fixed[q.column_index as int]@))
        },
        _ => None,
    }
}

/// The domain of the values a lookup table holds.
fn lookup_table_domain(expr: &PlonkExpr, fixed_values: &Vec<Vec<CellValue>>) -> (r: Option<UcpValueDomain>)
    ensures
        r is Some <==> lookup_domain_model(*expr, fixed_values@) is Some,
        r matches Some(d) ==> domain_valid(d) && lookup_domain_model(*expr, fixed_values@) == Some(d@),
{
    match expr {
        PlonkExpr::Fixed(query) => fixed_column_domain(query, fixed_values),
        _ => None,
    }
}

/// The domain of the values of a fixed column queried at the current row.
fn fixed_column_domain(query: &PlonkQuery, fixed_values: &Vec<Vec<CellValue>>) -> (r: Option<UcpValueDomain>)
    ensures
        r is Some <==> lookup_domain_model(PlonkExpr::Fixed(*query), fixed_values@) is Some,
        r matches Some(d) ==> domain_valid(d) && lookup_domain_model(PlonkExpr::Fixed(*query), fixed_values@) == Some(d@),
{
    if query.rotation != 0 || query.column_index >= fixed_values.len() {
        return None;
    }
    let column_values = &fixed_values[query.column_index];
    let mut domain_values: Vec<Integer> = Vec::new();
    let mut i: usize = 0;
    while i < column_values.len()
        invariant
            query.column_index < fixed_values@.len(),
            *column_values == fixed_values@[query.column_index as int],
            i <= column_values@.len(),
            int_seq(domain_values@) == assigned_values(column_values@.subrange(0, i as int)),
            forall|j: int| 0 <= j < i ==> !(column_values@[j] is Poison),
        decreases column_values@.len() - i,
    {
        proof {
            assert(column_values@.subrange(0, i + 1).drop_last() =~= column_values@.subrange(0, i as int));
        }
        match &column_values[i] {
            CellValue::Assigned(value) => {
                let ghost before = domain_values@;
                domain_values.push(value.clone());
                proof {
                    assert(int_seq(domain_values@) =~= int_seq(before).push(value@));
                }
            },
            CellValue::Unassigned => {},
            CellValue::Poison(_) => {
                proof {
                    assert(fixed_values@[query.column_index as int]@[i as int] is Poison);
                    assert(exists|j: int|
                        0 <= j < fixed_values@[query.column_index as int]@.len() && fixed_values@[query.column_index as int]@[j] is Poison);
                }
                return None;
            },
        }
        i = i + 1;
    }
    proof {
        assert(column_values@.subrange(0, column_values@.len() as int) =~= column_values@);
    }
    UcpValueDomain::finite_set(domain_values)
}

/// `Delta` after recording a set for a cell: a new cell takes the set, a known cell takes the
/// intersection where it is non-empty and smaller.
pub open spec fn mark_set_model(m: Map<CellId, Set<int>>, c: CellId, n: Set<int>) -> Map<CellId, Set<int>> {
    if !m.dom().contains(c) {
        m.insert(c, n)
    } else {
        let i = m[c].intersect(n);
        if i.is_empty() || i == m[c] {
            m
        } else {
            m.insert(c, i)
        }
    }
}

/// `Delta` after recording the domains of a list for its advice cells, in order.
pub open spec fn mark_advice_domains(m: Map<CellId, Set<int>>, items: Seq<(CellId, Set<int>)>) -> Map<CellId, Set<int>>
    decreases items.len(),
{
    if items.len() == 0 {
        m
    } else {
        let prev = mark_advice_domains(m, items.drop_last());
        if items.last().0.kind == CellKind::Advice {
            mark_set_model(prev, items.last().0, items.last().1)
        } else {
            prev
        }
    }
}

/// Records the domains of a list for its advice cells.
fn mark_advice_inferences(values: &mut UcpValueFacts, items: &Vec<(CellId, UcpValueDomain)>)
    requires
        old(values).wf(),
        inferences_valid(items@),
    ensures
        final(values).wf(),
        final(values)@ == mark_advice_domains(old(values)@, inference_view(items@)),
{
    let ghost m0 = values@;
    let mut i: usize = 0;
    while i < items.len()
        invariant
            i <= items@.len(),
            inferences_valid(items@),
            values.wf(),
            values@ == mark_advice_domains(m0, inference_view(items@).subrange(0, i as int)),
        decreases items@.len() - i,
    {
        let cell = items[i].0;
        proof {
            let pre = inference_view(items@).subrange(0, i + 1);
            assert(pre.drop_last() =~= inference_view(items@).subrange(0, i as int));
            assert(pre.last() == (cell, items@[i as int].1@));
            assert(domain_valid(items@[i as int].1));
        }
        if cell.is_advice() {
            let d = items[i].1.clone();
            let ghost before = values@;
            proof {
                lemma_clone_valid(items@[i as int].1, d);
                lemma_mark_valid_domain(before, cell, d);
            }
            values.mark_domain(cell, d);
        }
        i = i + 1;
    }
    assert(inference_view(items@).subrange(0, items@.len() as int) =~= inference_view(items@));
}

/// Recording a valid domain is `mark_set_model`.
proof fn lemma_mark_valid_domain(m: Map<CellId, Set<int>>, c: CellId, d: UcpValueDomain)
    requires
        domain_valid(d),
    ensures
        mark_domain_model(m, c, d).0 == mark_set_model(m, c, d@),
{
    lemma_domain_valid(d);
    assert(domain_values_model(d).len() > 0) by {
        match d {
            UcpValueDomain::FiniteSet(vs) => {
                assert(int_seq(vs@).len() == vs@.len());
            },
            _ => {},
        }
    }
}

/// The shorter length of a lookup's inputs and tables: the pairs it checks.
pub open spec fn pair_count(l: LookupData) -> int {
    if l.input_expressions@.len() <= l.table_expressions@.len() {
        l.input_expressions@.len() as int
    } else {
        l.table_expressions@.len() as int
    }
}

/// `Delta` after one lookup pair at a row: where the table gives a domain, the domains that
/// the input's membership in it gives for its advice cells are recorded.
pub open spec fn pair_step(
    circuit: CircuitData,
    p: int,
    m: Map<CellId, Set<int>>,
    input: PlonkExpr,
    table: PlonkExpr,
    b: usize,
    row: i32,
) -> Map<CellId, Set<int>> {
    match lookup_domain_model(table, circuit.fixed@) {
        None => m,
        Some(dom) => mark_advice_domains(
            m,
            membership_inference_model(
                fixed_values_model(input, b, row, fixed_cells_view(circuit.fixed@), ScalarModel::Unknown),
                dom,
                m,
                Some(p),
            ),
        ),
    }
}

/// `Delta` after the first `n` pairs of a lookup at a row.
pub open spec fn pairs_fold(
    circuit: CircuitData,
    p: int,
    m: Map<CellId, Set<int>>,
    l: LookupData,
    b: usize,
    row: i32,
    n: int,
) -> Map<CellId, Set<int>>
    decreases n,
{
    if n <= 0 {
        m
    } else {
        pair_step(
            circuit,
            p,
            pairs_fold(circuit, p, m, l, b, row, n - 1),
            l.input_expressions@[n - 1],
            l.table_expressions@[n - 1],
            b,
            row,
        )
    }
}

/// `Delta` after the pairs of the first `n` lookups at a row.
pub open spec fn lookups_fold(circuit: CircuitData, p: int, m: Map<CellId, Set<int>>, b: usize, row: i32, n: int) -> Map<
    CellId,
    Set<int>,
>
    decreases n,
{
    if n <= 0 {
        m
    } else {
        let l = circuit.lookups@[n - 1];
        pairs_fold(circuit, p, lookups_fold(circuit, p, m, b, row, n - 1), l, b, row, pair_count(l))
    }
}

/// `Delta` after the lookups at the first `n` rows of a region that starts at `b`.
pub open spec fn rows_fold(circuit: CircuitData, p: int, m: Map<CellId, Set<int>>, b: usize, n: int) -> Map<
    CellId,
    Set<int>,
>
    decreases n,
{
    if n <= 0 {
        m
    } else {
        lookups_fold(circuit, p, rows_fold(circuit, p, m, b, n - 1), b, (n - 1) as i32, circuit.lookups@.len() as int)
    }
}

/// Whether the lookups are read in a region: it assigns an advice cell and has rows.
pub open spec fn region_looked_up(region: RegionData) -> bool {
    region_witness_model(region) != Set::<CellId>::empty() && region.rows is Some
}

/// `Delta` after the lookups of a region.
pub open spec fn region_lookup_fold(circuit: CircuitData, p: int, m: Map<CellId, Set<int>>, region: RegionData) -> Map<
    CellId,
    Set<int>,
> {
    if region_looked_up(region) && region.first_row() <= region.last_row() {
        rows_fold(circuit, p, m, region.first_row(), region.last_row() - region.first_row() + 1)
    } else {
        m
    }
}

/// The `Delta` that the lookups of the first `n` regions give, from nothing.
pub open spec fn lookup_facts_model(circuit: CircuitData, p: int, n: int) -> Map<CellId, Set<int>>
    decreases n,
{
    if n <= 0 {
        Map::empty()
    } else {
        region_lookup_fold(circuit, p, lookup_facts_model(circuit, p, n - 1), circuit.regions@[n - 1])
    }
}

/// Every lookup input whose table gives a domain translates at the row without leaving the
/// range of rows.
pub open spec fn lookup_inputs_ok(circuit: CircuitData, b: usize, row: i32) -> bool {
    forall|l: int, j: int|
        0 <= l < circuit.lookups@.len() && 0 <= j < pair_count(circuit.lookups@[l]) && lookup_domain_model(
            circuit.lookups@[l].table_expressions@[j],
            circuit.fixed@,
        ) is Some ==> rows_ok(#[trigger] circuit.lookups@[l].input_expressions@[j], b, row)
}

/// Where the lookups of a region are read, row `i` lies within `i32` of its start and every
/// input with a table domain translates there.
pub open spec fn lookup_row_ok(circuit: CircuitData, region: RegionData, i: int) -> bool {
    region_looked_up(region) && 0 <= i && region.first_row() + i <= region.last_row() ==> i <= i32::MAX
        && lookup_inputs_ok(circuit, region.first_row(), i as i32)
}

/// Every row where lookups are read is within range.
pub open spec fn circuit_lookup_rows_ok(circuit: CircuitData) -> bool {
    forall|k: int, i: int| 0 <= k < circuit.regions@.len() ==> #[trigger] lookup_row_ok(circuit, circuit.regions@[k], i)
}

/// Records the domains that the pairs of one lookup give at a row.
fn lookup_pairs(
    circuit: &CircuitData,
    l: usize,
    b: usize,
    row: i32,
    fixed: &Vec<Vec<Option<Integer>>>,
    field_modulus: &Integer,
    values: &mut UcpValueFacts,
)
    requires
        l < circuit.lookups@.len(),
        lookup_inputs_ok(*circuit, b, row),
        fixed_view(fixed@) == fixed_cells_view(circuit.fixed@),
        old(values).wf(),
    ensures
        final(values).wf(),
        final(values)@ == pairs_fold(
            *circuit,
            field_modulus@,
            old(values)@,
            circuit.lookups@[l as int],
            b,
            row,
            pair_count(circuit.lookups@[l as int]),
        ),
{
    let lookup = &circuit.lookups[l];
    let count = if lookup.input_expressions.len() <= lookup.table_expressions.len() {
        lookup.input_expressions.len()
    } else {
        lookup.table_expressions.len()
    };
    let ghost m0 = values@;
    let mut j: usize = 0;
    while j < count
        invariant
            l < circuit.lookups@.len(),
            *lookup == circuit.lookups@[l as int],
            count == pair_count(*lookup),
            j <= count,
            lookup_inputs_ok(*circuit, b, row),
            fixed_view(fixed@) == fixed_cells_view(circuit.fixed@),
            values.wf(),
            values@ == pairs_fold(*circuit, field_modulus@, m0, *lookup, b, row, j as int),
        decreases count - j,
    {
        match lookup_table_domain(&lookup.table_expressions[j], &circuit.fixed) {
            Some(domain) => {
                proof {
                    assert(rows_ok(circuit.lookups@[l as int].input_expressions@[j as int], b, row));
                }
                let input = expression_to_ucp_expr_with_fixed_values(
                    &lookup.input_expressions[j],
                    b,
                    row,
                    fixed.as_slice(),
                );
                let inferred = infer_domains_from_expression_domain_with_modulus(&input, &domain, values, field_modulus);
                mark_advice_inferences(values, &inferred);
            },
            None => {},
        }
        j = j + 1;
    }
}

/// Records the domains that all lookups give at a row.
fn row_lookups(
    circuit: &CircuitData,
    b: usize,
    row: i32,
    fixed: &Vec<Vec<Option<Integer>>>,
    field_modulus: &Integer,
    values: &mut UcpValueFacts,
)
    requires
        lookup_inputs_ok(*circuit, b, row),
        fixed_view(fixed@) == fixed_cells_view(circuit.fixed@),
        old(values).wf(),
    ensures
        final(values).wf(),
        final(values)@ == lookups_fold(*circuit, field_modulus@, old(values)@, b, row, circuit.lookups@.len() as int),
{
    let ghost m0 = values@;
    let mut l: usize = 0;
    while l < circuit.lookups.len()
        invariant
            l <= circuit.lookups@.len(),
            lookup_inputs_ok(*circuit, b, row),
            fixed_view(fixed@) == fixed_cells_view(circuit.fixed@),
            values.wf(),
            values@ == lookups_fold(*circuit, field_modulus@, m0, b, row, l as int),
        decreases circuit.lookups@.len() - l,
    {
        lookup_pairs(circuit, l, b, row, fixed, field_modulus, values);
        l = l + 1;
    }
}

/// Records the domains that the lookups of a region give.
fn region_lookup_facts(
    circuit: &CircuitData,
    k: usize,
    fixed: &Vec<Vec<Option<Integer>>>,
    field_modulus: &Integer,
    values: &mut UcpValueFacts,
)
    requires
        k < circuit.regions@.len(),
        circuit_lookup_rows_ok(*circuit),
        fixed_view(fixed@) == fixed_cells_view(circuit.fixed@),
        old(values).wf(),
    ensures
        final(values).wf(),
        final(values)@ == region_lookup_fold(*circuit, field_modulus@, old(values)@, circuit.regions@[k as int]),
{
    let region = &circuit.regions[k];
    if !region_has_advice_cell(region) {
        return;
    }
    let (b, e) = match region.rows {
        Some(rows) => rows,
        None => {
            return;
        },
    };
    if b > e {
        return;
    }
    let ghost m0 = values@;
    let count = e - b;
    let mut i: usize = 0;
    loop
        invariant_except_break
            values@ == rows_fold(*circuit, field_modulus@, m0, b, i as int),
        invariant
            k < circuit.regions@.len(),
            *region == circuit.regions@[k as int],
            region.rows == Some((b, e)),
            region_looked_up(*region),
            circuit_lookup_rows_ok(*circuit),
            fixed_view(fixed@) == fixed_cells_view(circuit.fixed@),
            values.wf(),
            b <= e,
            count == e - b,
            i <= count,
        ensures
            values@ == rows_fold(*circuit, field_modulus@, m0, b, count + 1),
        decreases count - i,
    {
        proof {
            assert(lookup_row_ok(*circuit, circuit.regions@[k as int], i as int));
        }
        row_lookups(circuit, b, i as i32, fixed, field_modulus, values);
        if i == count {
            break;
        }
        i = i + 1;
    }
}

/// The initial `Delta` that the circuit's lookup tables give: at each row of each region that
/// assigns an advice cell, each lookup input whose table is a fixed column with assigned
/// values (and no poisoned cell) must take a value of that table, which bounds the domains of
/// its advice cells.
pub fn extract_lookup_value_facts(circuit: &CircuitData, field_modulus: &Integer) -> (r: UcpValueFacts)
    requires
        circuit_lookup_rows_ok(*circuit),
    ensures
        r.wf(),
        r@ == lookup_facts_model(*circuit, field_modulus@, circuit.regions@.len() as int),
{
    let fixed = assigned_fixed_values(&circuit.fixed);
    let mut values = UcpValueFacts::new();
    let mut k: usize = 0;
    while k < circuit.regions.len()
        invariant
            k <= circuit.regions@.len(),
            circuit_lookup_rows_ok(*circuit),
            fixed_view(fixed@) == fixed_cells_view(circuit.fixed@),
            values.wf(),
            values@ == lookup_facts_model(*circuit, field_modulus@, k as int),
        decreases circuit.regions@.len() - k,
    {
        region_lookup_facts(circuit, k, &fixed, field_modulus, &mut values);
        k = k + 1;
    }
    values
}

/// A UCP problem: the zero equations, the initial `K`, the targets, the witness cells, the
/// initial `Delta` and the field modulus.
#[derive(Debug)]
pub struct UcpProblem {
    /// The zero equations.
    pub expressions: Vec<UcpExpr>,
    /// The initial `K`: the instance and fixed cells of the equations.
    pub initial_facts: UcpFacts,
    /// The targets (the same list as `output_cells`).
    pub target_cells: Vec<CellId>,
    /// The output cells whose uniqueness is to be shown, each once.
    pub output_cells: Vec<CellId>,
    /// The witness cells the circuit assigns or its equations refer to.
    pub witness_cells: Vec<CellId>,
    /// The initial `Delta` from the lookup tables.
    pub initial_value_facts: UcpValueFacts,
    /// The field modulus.
    pub field_modulus: Integer,
}

/// The UCP problem of a circuit with the given targets, in the field of the given modulus.
pub fn extract_ucp_problem_with_targets(
    circuit: &CircuitData,
    target_cells: &[CellId],
    field_modulus: &Integer,
) -> (r: UcpProblem)
    requires
        circuit_rows_ok(*circuit),
        circuit_lookup_rows_ok(*circuit),
        permutation_wf(circuit.permutation),
    ensures
        regions_model(*circuit, circuit.regions@.len() as int).len() <= r.expressions@.len(),
        exprs_model(r.expressions@.subrange(0, regions_model(*circuit, circuit.regions@.len() as int).len() as int))
            == regions_model(*circuit, circuit.regions@.len() as int),
        copy_constraints_model(
            circuit.permutation,
            r.expressions@.subrange(
                regions_model(*circuit, circuit.regions@.len() as int).len() as int,
                r.expressions@.len() as int,
            ),
        ),
        r.initial_facts@ == exprs_cells(exprs_model(r.expressions@)).filter(|c: CellId| initially_unique(c)),
        r.output_cells@ == dedup_model(target_cells@),
        r.target_cells@ == r.output_cells@,
        sorted_cells(r.witness_cells@),
        r.witness_cells@.to_set() == Set::new(
            |c: CellId| exists|i: int| 0 <= i < circuit.regions@.len() && region_witness_model(circuit.regions@[i]).contains(c),
        ).union(advice_only(exprs_cells(exprs_model(r.expressions@)))),
        r.initial_value_facts.wf(),
        r.initial_value_facts@ == lookup_facts_model(*circuit, field_modulus@, circuit.regions@.len() as int),
        r.field_modulus@ == field_modulus@,
{
    let expressions = extract_ucp_expressions(circuit);
    let initial_facts = initial_facts_from_expressions(expressions.as_slice());
    let output_cells = dedup_cells_preserving_order(target_cells);
    let witness_cells = witness_cells_from_analyzable(circuit, expressions.as_slice());
    let initial_value_facts = extract_lookup_value_facts(circuit, field_modulus);
    let targets = output_cells.clone();
    proof {
        assert(targets@ =~= output_cells@);
    }
    UcpProblem {
        expressions,
        initial_facts,
        target_cells: targets,
        output_cells,
        witness_cells,
        initial_value_facts,
        field_modulus: field_modulus.clone(),
    }
}

/// The UCP problem of a circuit without targets.
pub fn extract_ucp_problem(circuit: &CircuitData, field_modulus: &Integer) -> (r: UcpProblem)
    requires
        circuit_rows_ok(*circuit),
        circuit_lookup_rows_ok(*circuit),
        permutation_wf(circuit.permutation),
    ensures
        regions_model(*circuit, circuit.regions@.len() as int).len() <= r.expressions@.len(),
        exprs_model(r.expressions@.subrange(0, regions_model(*circuit, circuit.regions@.len() as int).len() as int))
            == regions_model(*circuit, circuit.regions@.len() as int),
        copy_constraints_model(
            circuit.permutation,
            r.expressions@.subrange(
                regions_model(*circuit, circuit.regions@.len() as int).len() as int,
                r.expressions@.len() as int,
            ),
        ),
        r.initial_facts@ == exprs_cells(exprs_model(r.expressions@)).filter(|c: CellId| initially_unique(c)),
        r.output_cells@ == Seq::<CellId>::empty(),
        r.target_cells@ == Seq::<CellId>::empty(),
        sorted_cells(r.witness_cells@),
        r.witness_cells@.to_set() == Set::new(
            |c: CellId| exists|i: int| 0 <= i < circuit.regions@.len() && region_witness_model(circuit.regions@[i]).contains(c),
        ).union(advice_only(exprs_cells(exprs_model(r.expressions@)))),
        r.initial_value_facts.wf(),
        r.initial_value_facts@ == lookup_facts_model(*circuit, field_modulus@, circuit.regions@.len() as int),
        r.field_modulus@ == field_modulus@,
{
    let no_targets: Vec<CellId> = Vec::new();
    let r = extract_ucp_problem_with_targets(circuit, no_targets.as_slice(), field_modulus);
    proof {
        assert(dedup_model(no_targets@) == Seq::<CellId>::empty());
    }
    r
}

/// Dropping repetitions keeps every cell of the list, once: the targets are the given cells,
/// each once.
pub proof fn lemma_dedup_keeps_cells(s: Seq<CellId>)
    ensures
        dedup_model(s).no_duplicates(),
        dedup_model(s).to_set() == s.to_set(),
    decreases s.len(),
{
    if s.len() > 0 {
        let d = dedup_model(s.drop_last());
        lemma_dedup_keeps_cells(s.drop_last());
        assert(s.to_set() =~= s.drop_last().to_set().insert(s.last())) by {
            assert(s =~= s.drop_last().push(s.last()));
            lemma_push_to_set(s.drop_last(), s.last());
        }
        if !d.contains(s.last()) {
            lemma_push_to_set(d, s.last());
            assert forall|a: int, b: int| 0 <= a < b < d.push(s.last()).len() implies d.push(s.last())[a] != d.push(
                s.last(),
            )[b] by {
                if b == d.len() {
                    assert(d.push(s.last())[a] == d[a]);
                    assert(d.contains(d[a]));
                }
            }
        } else {
            assert(d.to_set().contains(s.last()));
            assert(d.to_set().insert(s.last()) =~= d.to_set());
        }
    }
}

} // verus!
