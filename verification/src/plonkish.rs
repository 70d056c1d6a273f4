//! Translation of Plonkish gate expressions into UCP expressions at a given row.
//!
//! A gate expression is held as a `PlonkExpr`: constants and scalings by their integer value
//! (the canonical representative of the field element), selector queries by index, and
//! fixed, advice and instance queries by column index and rotation.
use crate::cell::{CellId, CellKind};
use crate::expr::{
    add_model, known_scalar, mul_model, neg_model, scale_model, ExprModel, ScalarModel, UcpExpr,
    UcpScalar,
};
use crate::integer::Integer;
use std::collections::HashSet;
use vstd::prelude::*;

verus! {

broadcast use vstd::std_specs::hash::group_hash_axioms;

/// A query of a column at a rotation from the current row.
#[derive(Clone, Copy, Debug, PartialEq, Eq, Structural)]
pub struct PlonkQuery {
    pub column_index: usize,
    pub rotation: i32,
}

/// A Plonkish gate expression.
#[derive(Debug)]
pub enum PlonkExpr {
    /// A field constant, by its value.
    Constant(Integer),
    /// A simple selector, by index.
    Selector(usize),
    /// A fixed column query.
    Fixed(PlonkQuery),
    /// An advice column query.
    Advice(PlonkQuery),
    /// An instance column query.
    Instance(PlonkQuery),
    /// Negation.
    Negated(Box<PlonkExpr>),
    /// Sum.
    Sum(Box<PlonkExpr>, Box<PlonkExpr>),
    /// Product.
    Product(Box<PlonkExpr>, Box<PlonkExpr>),
    /// Scaling by a field constant, by its value.
    Scaled(Box<PlonkExpr>, Integer),
}

/// The absolute row of a query: region start, row within the region, and rotation.
pub open spec fn abs_row(region_begin: usize, row: i32, rotation: i32) -> int {
    region_begin + row + rotation
}

/// The row arithmetic of a query stays within `i32`.
pub open spec fn query_row_ok(region_begin: usize, row: i32, rotation: i32) -> bool {
    &&& region_begin <= i32::MAX
    &&& i32::MIN <= region_begin + row <= i32::MAX
    &&& i32::MIN <= region_begin + row + rotation <= i32::MAX
}

/// The row arithmetic of every query of an expression stays within `i32`.
pub open spec fn rows_ok(e: PlonkExpr, region_begin: usize, row: i32) -> bool
    decreases e,
{
    match e {
        PlonkExpr::Fixed(q) => query_row_ok(region_begin, row, q.rotation),
        PlonkExpr::Advice(q) => query_row_ok(region_begin, row, q.rotation),
        PlonkExpr::Instance(q) => query_row_ok(region_begin, row, q.rotation),
        PlonkExpr::Negated(inner) => rows_ok(*inner, region_begin, row),
        PlonkExpr::Sum(l, r) => rows_ok(*l, region_begin, row) && rows_ok(*r, region_begin, row),
        PlonkExpr::Product(l, r) => rows_ok(*l, region_begin, row) && rows_ok(*r, region_begin, row),
        PlonkExpr::Scaled(inner, _) => rows_ok(*inner, region_begin, row),
        _ => true,
    }
}

/// The cell of a query.
pub open spec fn query_cell(kind: CellKind, q: PlonkQuery, region_begin: usize, row: i32) -> CellId {
    CellId { kind, column: q.column_index, row: abs_row(region_begin, row, q.rotation) as i32 }
}

/// A field constant as a UCP constant: zero, or a known value.
pub open spec fn constant_model(v: int) -> ExprModel {
    if v == 0 {
        ExprModel::Const(ScalarModel::Zero)
    } else {
        ExprModel::Const(known_scalar(v))
    }
}

/// The translation with an abstract scalar for selectors: simple selectors and fixed columns
/// listed as selector columns become the scalar; a zero scaling becomes zero.
pub open spec fn selector_scalar_model(
    e: PlonkExpr,
    region_begin: usize,
    row: i32,
    selectors: Set<usize>,
    s: ScalarModel,
) -> ExprModel
    decreases e,
{
    match e {
        PlonkExpr::Constant(v) => constant_model(v@),
        PlonkExpr::Selector(_) => ExprModel::Const(s),
        PlonkExpr::Fixed(q) => if selectors.contains(q.column_index) {
            ExprModel::Const(s)
        } else {
            ExprModel::Var(query_cell(CellKind::Fixed, q, region_begin, row))
        },
        PlonkExpr::Advice(q) => ExprModel::Var(query_cell(CellKind::Advice, q, region_begin, row)),
        PlonkExpr::Instance(q) => ExprModel::Var(query_cell(CellKind::Instance, q, region_begin, row)),
        PlonkExpr::Negated(inner) => neg_model(selector_scalar_model(*inner, region_begin, row, selectors, s)),
        PlonkExpr::Sum(l, r) => add_model(
            selector_scalar_model(*l, region_begin, row, selectors, s),
            selector_scalar_model(*r, region_begin, row, selectors, s),
        ),
        PlonkExpr::Product(l, r) => mul_model(
            selector_scalar_model(*l, region_begin, row, selectors, s),
            selector_scalar_model(*r, region_begin, row, selectors, s),
        ),
        PlonkExpr::Scaled(inner, k) => if k@ == 0 {
            ExprModel::Const(ScalarModel::Zero)
        } else {
            scale_model(selector_scalar_model(*inner, region_begin, row, selectors, s), known_scalar(k@))
        },
    }
}

/// A selector that is enabled is one, else zero.
pub open spec fn selector_constant_model(index: usize, enabled: Set<usize>) -> ExprModel {
    if enabled.contains(index) {
        ExprModel::Const(known_scalar(1))
    } else {
        ExprModel::Const(ScalarModel::Zero)
    }
}

/// The translation with the selectors known to be enabled at the row.
pub open spec fn enabled_selectors_model(
    e: PlonkExpr,
    region_begin: usize,
    row: i32,
    selectors: Set<usize>,
    enabled: Set<usize>,
) -> ExprModel
    decreases e,
{
    match e {
        PlonkExpr::Constant(v) => constant_model(v@),
        PlonkExpr::Selector(index) => selector_constant_model(index, enabled),
        PlonkExpr::Fixed(q) => if selectors.contains(q.column_index) {
            selector_constant_model(q.column_index, enabled)
        } else {
            ExprModel::Var(query_cell(CellKind::Fixed, q, region_begin, row))
        },
        PlonkExpr::Advice(q) => ExprModel::Var(query_cell(CellKind::Advice, q, region_begin, row)),
        PlonkExpr::Instance(q) => ExprModel::Var(query_cell(CellKind::Instance, q, region_begin, row)),
        PlonkExpr::Negated(inner) => neg_model(enabled_selectors_model(*inner, region_begin, row, selectors, enabled)),
        PlonkExpr::Sum(l, r) => add_model(
            enabled_selectors_model(*l, region_begin, row, selectors, enabled),
            enabled_selectors_model(*r, region_begin, row, selectors, enabled),
        ),
        PlonkExpr::Product(l, r) => mul_model(
            enabled_selectors_model(*l, region_begin, row, selectors, enabled),
            enabled_selectors_model(*r, region_begin, row, selectors, enabled),
        ),
        PlonkExpr::Scaled(inner, k) => if k@ == 0 {
            ExprModel::Const(ScalarModel::Zero)
        } else {
            scale_model(enabled_selectors_model(*inner, region_begin, row, selectors, enabled), known_scalar(k@))
        },
    }
}

/// The assigned value of a fixed query at the row, where there is one.
pub open spec fn fixed_value_model(q: PlonkQuery, region_begin: usize, row: i32, fixed: Seq<Seq<Option<int>>>) -> Option<int> {
    let r = abs_row(region_begin, row, q.rotation);
    if r >= 0 && q.column_index < fixed.len() && r < fixed[q.column_index as int].len() {
        fixed[q.column_index as int][r]
    } else {
        None
    }
}

/// The translation with the assigned fixed values: a fixed query with an assigned value
/// becomes that constant, other fixed queries stay cells; simple selectors become the scalar.
pub open spec fn fixed_values_model(
    e: PlonkExpr,
    region_begin: usize,
    row: i32,
    fixed: Seq<Seq<Option<int>>>,
    s: ScalarModel,
) -> ExprModel
    decreases e,
{
    match e {
        PlonkExpr::Constant(v) => constant_model(v@),
        PlonkExpr::Selector(_) => ExprModel::Const(s),
        PlonkExpr::Fixed(q) => match fixed_value_model(q, region_begin, row, fixed) {
            Some(v) => constant_model(v),
            None => ExprModel::Var(query_cell(CellKind::Fixed, q, region_begin, row)),
        },
        PlonkExpr::Advice(q) => ExprModel::Var(query_cell(CellKind::Advice, q, region_begin, row)),
        PlonkExpr::Instance(q) => ExprModel::Var(query_cell(CellKind::Instance, q, region_begin, row)),
        PlonkExpr::Negated(inner) => neg_model(fixed_values_model(*inner, region_begin, row, fixed, s)),
        PlonkExpr::Sum(l, r) => add_model(
            fixed_values_model(*l, region_begin, row, fixed, s),
            fixed_values_model(*r, region_begin, row, fixed, s),
        ),
        PlonkExpr::Product(l, r) => mul_model(
            fixed_values_model(*l, region_begin, row, fixed, s),
            fixed_values_model(*r, region_begin, row, fixed, s),
        ),
        PlonkExpr::Scaled(inner, k) => scale_model(fixed_values_model(*inner, region_begin, row, fixed, s), known_scalar(k@)),
    }
}

/// The assigned fixed values, column by column.
pub open spec fn fixed_view(fixed: Seq<Vec<Option<Integer>>>) -> Seq<Seq<Option<int>>> {
    fixed.map_values(
        |col: Vec<Option<Integer>>|
            col@.map_values(
                |v: Option<Integer>|
                    match v {
                        Some(x) => Some(x@),
                        None => None,
                    },
            ),
    )
}

/// The absolute row of a query.
fn absolute_row(region_begin: usize, row: i32, rotation: i32) -> (r: i32)
    requires
        query_row_ok(region_begin, row, rotation),
    ensures
        r == abs_row(region_begin, row, rotation),
{
    let begin = region_begin as i32;
    let base = begin + row;
    base + rotation
}

fn query_var(kind: CellKind, q: &PlonkQuery, region_begin: usize, row: i32) -> (r: UcpExpr)
    requires
        query_row_ok(region_begin, row, q.rotation),
    ensures
        r@ == ExprModel::Var(query_cell(kind, *q, region_begin, row)),
{
    UcpExpr::var(CellId { kind, column: q.column_index, row: absolute_row(region_begin, row, q.rotation) })
}

fn field_to_ucp_constant(value: &Integer) -> (r: UcpExpr)
    ensures
        r@ == constant_model(value@),
{
    if value.is_zero() {
        UcpExpr::zero()
    } else {
        UcpExpr::known_constant(value.clone())
    }
}

fn clone_scalar(s: &UcpScalar) -> (r: UcpScalar)
    ensures
        r@ == s@,
{
    s.clone()
}

/// The translation with an abstract scalar for the selectors.
pub fn expression_to_ucp_expr_with_selector_scalar(
    expr: &PlonkExpr,
    region_begin: usize,
    row: i32,
    selector_indices: &HashSet<usize>,
    selector_scalar: UcpScalar,
) -> (r: UcpExpr)
    requires
        rows_ok(*expr, region_begin, row),
    ensures
        r@ == selector_scalar_model(*expr, region_begin, row, selector_indices@, selector_scalar@),
    decreases expr,
{
    match expr {
        PlonkExpr::Constant(value) => field_to_ucp_constant(value),
        PlonkExpr::Selector(_) => UcpExpr::scalar_constant(selector_scalar),
        PlonkExpr::Fixed(query) => {
            if selector_indices.contains(&query.column_index) {
                UcpExpr::scalar_constant(selector_scalar)
            } else {
                query_var(CellKind::Fixed, query, region_begin, row)
            }
        },
        PlonkExpr::Advice(query) => query_var(CellKind::Advice, query, region_begin, row),
        PlonkExpr::Instance(query) => query_var(CellKind::Instance, query, region_begin, row),
        PlonkExpr::Negated(inner) => UcpExpr::neg(
            expression_to_ucp_expr_with_selector_scalar(inner, region_begin, row, selector_indices, selector_scalar),
        ),
        PlonkExpr::Sum(left, right) => {
            let s2 = clone_scalar(&selector_scalar);
            UcpExpr::add(
                expression_to_ucp_expr_with_selector_scalar(left, region_begin, row, selector_indices, selector_scalar),
                expression_to_ucp_expr_with_selector_scalar(right, region_begin, row, selector_indices, s2),
            )
        },
        PlonkExpr::Product(left, right) => {
            let s2 = clone_scalar(&selector_scalar);
            UcpExpr::mul(
                expression_to_ucp_expr_with_selector_scalar(left, region_begin, row, selector_indices, selector_scalar),
                expression_to_ucp_expr_with_selector_scalar(right, region_begin, row, selector_indices, s2),
            )
        },
        PlonkExpr::Scaled(inner, scale) => {
            if scale.is_zero() {
                UcpExpr::zero()
            } else {
                UcpExpr::scale_by(
                    expression_to_ucp_expr_with_selector_scalar(inner, region_begin, row, selector_indices, selector_scalar),
                    UcpScalar::known(scale.clone()),
                )
            }
        },
    }
}

fn selector_constant(selector_index: usize, enabled_selector_indices: &HashSet<usize>) -> (r: UcpExpr)
    ensures
        r@ == selector_constant_model(selector_index, enabled_selector_indices@),
{
    if enabled_selector_indices.contains(&selector_index) {
        UcpExpr::known_constant_i64(1)
    } else {
        UcpExpr::zero()
    }
}

/// The translation with the selectors known to be enabled at the row: an enabled selector is
/// one, the others are zero.
pub fn expression_to_ucp_expr_with_enabled_selector_indices(
    expr: &PlonkExpr,
    region_begin: usize,
    row: i32,
    selector_indices: &HashSet<usize>,
    enabled_selector_indices: &HashSet<usize>,
) -> (r: UcpExpr)
    requires
        rows_ok(*expr, region_begin, row),
    ensures
        r@ == enabled_selectors_model(*expr, region_begin, row, selector_indices@, enabled_selector_indices@),
    decreases expr,
{
    match expr {
        PlonkExpr::Constant(value) => field_to_ucp_constant(value),
        PlonkExpr::Selector(index) => selector_constant(*index, enabled_selector_indices),
        PlonkExpr::Fixed(query) => {
            if selector_indices.contains(&query.column_index) {
                selector_constant(query.column_index, enabled_selector_indices)
            } else {
                query_var(CellKind::Fixed, query, region_begin, row)
            }
        },
        PlonkExpr::Advice(query) => query_var(CellKind::Advice, query, region_begin, row),
        PlonkExpr::Instance(query) => query_var(CellKind::Instance, query, region_begin, row),
        PlonkExpr::Negated(inner) => UcpExpr::neg(
            expression_to_ucp_expr_with_enabled_selector_indices(
                inner,
                region_begin,
                row,
                selector_indices,
                enabled_selector_indices,
            ),
        ),
        PlonkExpr::Sum(left, right) => UcpExpr::add(
            expression_to_ucp_expr_with_enabled_selector_indices(
                left,
                region_begin,
                row,
                selector_indices,
                enabled_selector_indices,
            ),
            expression_to_ucp_expr_with_enabled_selector_indices(
                right,
                region_begin,
                row,
                selector_indices,
                enabled_selector_indices,
            ),
        ),
        PlonkExpr::Product(left, right) => UcpExpr::mul(
            expression_to_ucp_expr_with_enabled_selector_indices(
                left,
                region_begin,
                row,
                selector_indices,
                enabled_selector_indices,
            ),
            expression_to_ucp_expr_with_enabled_selector_indices(
                right,
                region_begin,
                row,
                selector_indices,
                enabled_selector_indices,
            ),
        ),
        PlonkExpr::Scaled(inner, scale) => {
            if scale.is_zero() {
                UcpExpr::zero()
            } else {
                UcpExpr::scale_by(
                    expression_to_ucp_expr_with_enabled_selector_indices(
                        inner,
                        region_begin,
                        row,
                        selector_indices,
                        enabled_selector_indices,
                    ),
                    UcpScalar::known(scale.clone()),
                )
            }
        },
    }
}

fn fixed_query_value(query: &PlonkQuery, region_begin: usize, row: i32, fixed_values: &[Vec<Option<Integer>>]) -> (r: Option<
    UcpExpr,
>)
    requires
        query_row_ok(region_begin, row, query.rotation),
    ensures
        r matches Some(e) ==> fixed_value_model(*query, region_begin, row, fixed_view(fixed_values@)) matches Some(v)
            && e@ == constant_model(v),
        r is None ==> fixed_value_model(*query, region_begin, row, fixed_view(fixed_values@)) is None,
{
    let absolute = absolute_row(region_begin, row, query.rotation);
    if absolute < 0 {
        return None;
    }
    let index = absolute as usize;
    if query.column_index >= fixed_values.len() {
        return None;
    }
    let column = &fixed_values[query.column_index];
    if index >= column.len() {
        return None;
    }
    proof {
        let fv = fixed_view(fixed_values@);
        assert(fv[query.column_index as int] == column@.map_values(
            |v: Option<Integer>|
                match v {
                    Some(x) => Some(x@),
                    None => None,
                },
        ));
    }
    match &column[index] {
        Some(value) => Some(field_to_ucp_constant(value)),
        None => None,
    }
}

/// The translation with the assigned fixed values and an abstract scalar for simple selectors.
pub fn expression_to_ucp_expr_with_fixed_values_and_selector_scalar(
    expr: &PlonkExpr,
    region_begin: usize,
    row: i32,
    fixed_values: &[Vec<Option<Integer>>],
    selector_scalar: UcpScalar,
) -> (r: UcpExpr)
    requires
        rows_ok(*expr, region_begin, row),
    ensures
        r@ == fixed_values_model(*expr, region_begin, row, fixed_view(fixed_values@), selector_scalar@),
    decreases expr,
{
    match expr {
        PlonkExpr::Constant(value) => field_to_ucp_constant(value),
        PlonkExpr::Selector(_) => UcpExpr::scalar_constant(selector_scalar),
        PlonkExpr::Fixed(query) => match fixed_query_value(query, region_begin, row, fixed_values) {
            Some(c) => c,
            None => query_var(CellKind::Fixed, query, region_begin, row),
        },
        PlonkExpr::Advice(query) => query_var(CellKind::Advice, query, region_begin, row),
        PlonkExpr::Instance(query) => query_var(CellKind::Instance, query, region_begin, row),
        PlonkExpr::Negated(inner) => UcpExpr::neg(
            expression_to_ucp_expr_with_fixed_values_and_selector_scalar(
                inner,
                region_begin,
                row,
                fixed_values,
                selector_scalar,
            ),
        ),
        PlonkExpr::Sum(left, right) => {
            let s2 = clone_scalar(&selector_scalar);
            UcpExpr::add(
                expression_to_ucp_expr_with_fixed_values_and_selector_scalar(
                    left,
                    region_begin,
                    row,
                    fixed_values,
                    selector_scalar,
                ),
                expression_to_ucp_expr_with_fixed_values_and_selector_scalar(right, region_begin, row, fixed_values, s2),
            )
        },
        PlonkExpr::Product(left, right) => {
            let s2 = clone_scalar(&selector_scalar);
            UcpExpr::mul(
                expression_to_ucp_expr_with_fixed_values_and_selector_scalar(
                    left,
                    region_begin,
                    row,
                    fixed_values,
                    selector_scalar,
                ),
                expression_to_ucp_expr_with_fixed_values_and_selector_scalar(right, region_begin, row, fixed_values, s2),
            )
        },
        PlonkExpr::Scaled(inner, scale) => UcpExpr::scale_by(
            expression_to_ucp_expr_with_fixed_values_and_selector_scalar(
                inner,
                region_begin,
                row,
                fixed_values,
                selector_scalar,
            ),
            UcpScalar::known(scale.clone()),
        ),
    }
}

/// The translation with nothing known of the selectors.
pub fn expression_to_ucp_expr(expr: &PlonkExpr, region_begin: usize, row: i32) -> (r: UcpExpr)
    requires
        rows_ok(*expr, region_begin, row),
    ensures
        r@ == selector_scalar_model(*expr, region_begin, row, Set::empty(), ScalarModel::Unknown),
{
    let none: HashSet<usize> = HashSet::new();
    expression_to_ucp_expr_with_selector_scalar(expr, region_begin, row, &none, UcpScalar::Unknown)
}

/// The translation with the assigned fixed values and nothing known of simple selectors.
pub fn expression_to_ucp_expr_with_fixed_values(
    expr: &PlonkExpr,
    region_begin: usize,
    row: i32,
    fixed_values: &[Vec<Option<Integer>>],
) -> (r: UcpExpr)
    requires
        rows_ok(*expr, region_begin, row),
    ensures
        r@ == fixed_values_model(*expr, region_begin, row, fixed_view(fixed_values@), ScalarModel::Unknown),
{
    expression_to_ucp_expr_with_fixed_values_and_selector_scalar(expr, region_begin, row, fixed_values, UcpScalar::Unknown)
}

/// The translation where the listed fixed columns are selectors of unknown value.
pub fn expression_to_ucp_expr_with_selector_indices(
    expr: &PlonkExpr,
    region_begin: usize,
    row: i32,
    selector_indices: &HashSet<usize>,
) -> (r: UcpExpr)
    requires
        rows_ok(*expr, region_begin, row),
    ensures
        r@ == selector_scalar_model(*expr, region_begin, row, selector_indices@, ScalarModel::Unknown),
{
    expression_to_ucp_expr_with_selector_scalar(expr, region_begin, row, selector_indices, UcpScalar::Unknown)
}

/// The translation with active selectors: their value is non-zero.
pub fn expression_to_ucp_expr_with_active_selectors(
    expr: &PlonkExpr,
    region_begin: usize,
    row: i32,
    selector_indices: &HashSet<usize>,
) -> (r: UcpExpr)
    requires
        rows_ok(*expr, region_begin, row),
    ensures
        r@ == selector_scalar_model(*expr, region_begin, row, selector_indices@, ScalarModel::NonZero),
{
    expression_to_ucp_expr_with_selector_scalar(expr, region_begin, row, selector_indices, UcpScalar::NonZero)
}

/// The translation with inactive selectors: their value is zero.
pub fn expression_to_ucp_expr_with_inactive_selectors(
    expr: &PlonkExpr,
    region_begin: usize,
    row: i32,
    selector_indices: &HashSet<usize>,
) -> (r: UcpExpr)
    requires
        rows_ok(*expr, region_begin, row),
    ensures
        r@ == selector_scalar_model(*expr, region_begin, row, selector_indices@, ScalarModel::Zero),
{
    expression_to_ucp_expr_with_selector_scalar(expr, region_begin, row, selector_indices, UcpScalar::Zero)
}

/// The assigned value of a fixed cell, where the column lists one at the cell's row.
pub open spec fn assigned_fixed(fixed: Seq<Seq<Option<int>>>, c: CellId) -> Option<int> {
    if 0 <= c.row && c.column < fixed.len() && c.row < fixed[c.column as int].len() {
        fixed[c.column as int][c.row as int]
    } else {
        None
    }
}

/// A fixed query reads the cell it names: the translation with the assigned fixed values
/// replaces it by the value assigned to that cell (its column at the query's absolute row,
/// region start plus row plus rotation), and where none is assigned keeps the cell.
pub proof fn lemma_fixed_query_reads_its_cell(
    q: PlonkQuery,
    region_begin: usize,
    row: i32,
    fixed: Seq<Seq<Option<int>>>,
    s: ScalarModel,
)
    requires
        query_row_ok(region_begin, row, q.rotation),
    ensures
        fixed_values_model(PlonkExpr::Fixed(q), region_begin, row, fixed, s) == match assigned_fixed(
            fixed,
            query_cell(CellKind::Fixed, q, region_begin, row),
        ) {
            Some(v) => constant_model(v),
            None => ExprModel::Var(query_cell(CellKind::Fixed, q, region_begin, row)),
        },
{
    let c = query_cell(CellKind::Fixed, q, region_begin, row);
    assert(c.row as int == abs_row(region_begin, row, q.rotation));
}

} // verus!
