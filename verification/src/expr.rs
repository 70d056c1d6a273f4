//! UCP expressions: the zero equations of a circuit, with abstract scalar constants.
use crate::cell::CellId;
use crate::integer::{int_add, int_eq, int_mul, Integer};
use vstd::prelude::*;

verus! {

/// Abstract value of a scalar constant.
#[derive(Debug)]
pub enum UcpScalar {
    /// Certainly zero.
    Zero,
    /// Certainly non-zero, value unknown.
    NonZero,
    /// Neither zero nor non-zero is known.
    Unknown,
    /// A known value (never zero when built with `UcpScalar::known`).
    Known(Integer),
}

/// A UCP expression tree.
#[derive(Debug)]
pub enum UcpExpr {
    /// A cell reference.
    Var(CellId),
    /// A constant.
    Const(UcpScalar),
    /// Negation.
    Neg(Box<UcpExpr>),
    /// Sum.
    Add(Box<UcpExpr>, Box<UcpExpr>),
    /// Product.
    Mul(Box<UcpExpr>, Box<UcpExpr>),
    /// Scaling by a scalar.
    Scale(Box<UcpExpr>, UcpScalar),
}

/// Mathematical model of a scalar.
pub enum ScalarModel {
    Zero,
    NonZero,
    Unknown,
    Known(int),
}

/// Mathematical model of an expression.
pub enum ExprModel {
    Var(CellId),
    Const(ScalarModel),
    Neg(Box<ExprModel>),
    Add(Box<ExprModel>, Box<ExprModel>),
    Mul(Box<ExprModel>, Box<ExprModel>),
    Scale(Box<ExprModel>, ScalarModel),
}

impl View for UcpScalar {
    type V = ScalarModel;

    open spec fn view(&self) -> ScalarModel {
        match self {
            UcpScalar::Zero => ScalarModel::Zero,
            UcpScalar::NonZero => ScalarModel::NonZero,
            UcpScalar::Unknown => ScalarModel::Unknown,
            UcpScalar::Known(v) => ScalarModel::Known(v@),
        }
    }
}

pub open spec fn expr_model(e: UcpExpr) -> ExprModel
    decreases e,
{
    match e {
        UcpExpr::Var(c) => ExprModel::Var(c),
        UcpExpr::Const(s) => ExprModel::Const(s@),
        UcpExpr::Neg(inner) => ExprModel::Neg(Box::new(expr_model(*inner))),
        UcpExpr::Add(l, r) => ExprModel::Add(Box::new(expr_model(*l)), Box::new(expr_model(*r))),
        UcpExpr::Mul(l, r) => ExprModel::Mul(Box::new(expr_model(*l)), Box::new(expr_model(*r))),
        UcpExpr::Scale(inner, s) => ExprModel::Scale(Box::new(expr_model(*inner)), s@),
    }
}

impl View for UcpExpr {
    type V = ExprModel;

    open spec fn view(&self) -> ExprModel {
        expr_model(*self)
    }
}

/// The abstract scalar for a known value: zero is kept apart as `Zero`.
pub open spec fn known_scalar(v: int) -> ScalarModel {
    if v == 0 {
        ScalarModel::Zero
    } else {
        ScalarModel::Known(v)
    }
}

/// The concrete value of a scalar, where it is known.
pub open spec fn scalar_value(s: ScalarModel) -> Option<int> {
    match s {
        ScalarModel::Zero => Some(0),
        ScalarModel::Known(v) => Some(v),
        _ => None,
    }
}

/// A scalar that is statically non-zero.
pub open spec fn scalar_non_zero(s: ScalarModel) -> bool {
    s is NonZero || s is Known
}

/// The known constant value of an expression that is a `Const(Known(v))` node.
pub open spec fn known_const(e: ExprModel) -> Option<int> {
    match e {
        ExprModel::Const(ScalarModel::Known(v)) => Some(v),
        _ => None,
    }
}

pub open spec fn is_zero_const(e: ExprModel) -> bool {
    e matches ExprModel::Const(ScalarModel::Zero)
}

/// The result of `UcpExpr::neg`.
pub open spec fn neg_model(e: ExprModel) -> ExprModel {
    match e {
        ExprModel::Const(ScalarModel::Zero) => ExprModel::Const(ScalarModel::Zero),
        ExprModel::Const(ScalarModel::Known(v)) => ExprModel::Const(known_scalar(-v)),
        _ => ExprModel::Neg(Box::new(e)),
    }
}

/// The result of `UcpExpr::add`.
pub open spec fn add_model(l: ExprModel, r: ExprModel) -> ExprModel {
    if is_zero_const(l) {
        r
    } else if is_zero_const(r) {
        l
    } else {
        match (l, r) {
            (ExprModel::Const(a), ExprModel::Const(b)) => match (scalar_value(a), scalar_value(b)) {
                (Some(x), Some(y)) => ExprModel::Const(known_scalar(x + y)),
                _ => ExprModel::Add(Box::new(l), Box::new(r)),
            },
            _ => ExprModel::Add(Box::new(l), Box::new(r)),
        }
    }
}

/// The result of `UcpExpr::mul`.
pub open spec fn mul_model(l: ExprModel, r: ExprModel) -> ExprModel {
    if is_zero_const(l) || is_zero_const(r) {
        ExprModel::Const(ScalarModel::Zero)
    } else if known_const(l) == Some(1int) {
        r
    } else if known_const(r) == Some(1int) {
        l
    } else if known_const(l) == Some(-1int) {
        neg_model(r)
    } else if known_const(r) == Some(-1int) {
        neg_model(l)
    } else {
        match (l, r) {
            (ExprModel::Const(a), ExprModel::Const(b)) => match (scalar_value(a), scalar_value(b)) {
                (Some(x), Some(y)) => ExprModel::Const(known_scalar(x * y)),
                _ => ExprModel::Mul(Box::new(l), Box::new(r)),
            },
            _ => ExprModel::Mul(Box::new(l), Box::new(r)),
        }
    }
}

/// The result of `UcpExpr::scale_by`.
pub open spec fn scale_model(e: ExprModel, s: ScalarModel) -> ExprModel {
    match s {
        ScalarModel::Zero => ExprModel::Const(ScalarModel::Zero),
        ScalarModel::Known(v) => if v == 1 {
            e
        } else if v == -1 {
            neg_model(e)
        } else {
            ExprModel::Scale(Box::new(e), s)
        },
        _ => ExprModel::Scale(Box::new(e), s),
    }
}

/// The value of an expression under an assignment of the cells, where every constant and
/// scalar in it is concretely known.
pub open spec fn concrete_value(e: ExprModel, env: Map<CellId, int>) -> Option<int>
    decreases e,
{
    match e {
        ExprModel::Var(c) => if env.dom().contains(c) {
            Some(env[c])
        } else {
            None
        },
        ExprModel::Const(s) => scalar_value(s),
        ExprModel::Neg(inner) => match concrete_value(*inner, env) {
            Some(v) => Some(-v),
            None => None,
        },
        ExprModel::Add(l, r) => match (concrete_value(*l, env), concrete_value(*r, env)) {
            (Some(a), Some(b)) => Some(a + b),
            _ => None,
        },
        ExprModel::Mul(l, r) => match (concrete_value(*l, env), concrete_value(*r, env)) {
            (Some(a), Some(b)) => Some(a * b),
            _ => None,
        },
        ExprModel::Scale(inner, s) => match (concrete_value(*inner, env), scalar_value(s)) {
            (Some(a), Some(b)) => Some(a * b),
            _ => None,
        },
    }
}

/// The values that a scalar may stand for: zero for `Zero`, any non-zero value for `NonZero`,
/// any value for `Unknown`, and its own value for `Known`.
pub open spec fn scalar_allows(s: ScalarModel, k: int) -> bool {
    match s {
        ScalarModel::Zero => k == 0,
        ScalarModel::NonZero => k != 0,
        ScalarModel::Unknown => true,
        ScalarModel::Known(v) => k == v,
    }
}

/// One evaluation of an expression: a value at every node, and at a scaling the value taken
/// by its scalar.
pub enum Evaluation {
    Leaf(int),
    Unary(int, Box<Evaluation>),
    Binary(int, Box<Evaluation>, Box<Evaluation>),
    Scaled(int, Box<Evaluation>, int),
}

/// The value at the root of an evaluation.
pub open spec fn result_of(t: Evaluation) -> int {
    match t {
        Evaluation::Leaf(v) => v,
        Evaluation::Unary(v, _) => v,
        Evaluation::Binary(v, _, _) => v,
        Evaluation::Scaled(v, _, _) => v,
    }
}

/// `t` evaluates `e` under the assignment `env`: cells take their assigned values, every
/// scalar occurrence a value that it may stand for (each unknown one its own), and every
/// operation its result.
pub open spec fn evaluates(e: ExprModel, env: Map<CellId, int>, t: Evaluation) -> bool
    decreases e,
{
    match e {
        ExprModel::Var(c) => t matches Evaluation::Leaf(v) && env.dom().contains(c) && env[c] == v,
        ExprModel::Const(s) => t matches Evaluation::Leaf(v) && scalar_allows(s, v),
        ExprModel::Neg(inner) => t matches Evaluation::Unary(v, a) && evaluates(*inner, env, *a) && v == -result_of(*a),
        ExprModel::Add(l, r) => t matches Evaluation::Binary(v, a, b) && evaluates(*l, env, *a) && evaluates(*r, env, *b)
            && v == result_of(*a) + result_of(*b),
        ExprModel::Mul(l, r) => t matches Evaluation::Binary(v, a, b) && evaluates(*l, env, *a) && evaluates(*r, env, *b)
            && v == result_of(*a) * result_of(*b),
        ExprModel::Scale(inner, s) => t matches Evaluation::Scaled(v, a, k) && evaluates(*inner, env, *a) && scalar_allows(s, k)
            && v == result_of(*a) * k,
    }
}

/// The evaluation in which every scalar takes its known value.
pub open spec fn concrete_evaluation(e: ExprModel, env: Map<CellId, int>) -> Evaluation
    decreases e,
{
    match e {
        ExprModel::Var(c) => Evaluation::Leaf(env[c]),
        ExprModel::Const(s) => Evaluation::Leaf(scalar_value(s)->0),
        ExprModel::Neg(inner) => {
            let a = concrete_evaluation(*inner, env);
            Evaluation::Unary(-result_of(a), Box::new(a))
        },
        ExprModel::Add(l, r) => {
            let a = concrete_evaluation(*l, env);
            let b = concrete_evaluation(*r, env);
            Evaluation::Binary(result_of(a) + result_of(b), Box::new(a), Box::new(b))
        },
        ExprModel::Mul(l, r) => {
            let a = concrete_evaluation(*l, env);
            let b = concrete_evaluation(*r, env);
            Evaluation::Binary(result_of(a) * result_of(b), Box::new(a), Box::new(b))
        },
        ExprModel::Scale(inner, s) => {
            let a = concrete_evaluation(*inner, env);
            let k = scalar_value(s)->0;
            Evaluation::Scaled(result_of(a) * k, Box::new(a), k)
        },
    }
}

/// Where every scalar is known, the concrete value is the result of an evaluation.
pub proof fn lemma_concrete_evaluation(e: ExprModel, env: Map<CellId, int>)
    requires
        concrete_value(e, env) is Some,
    ensures
        evaluates(e, env, concrete_evaluation(e, env)),
        result_of(concrete_evaluation(e, env)) == concrete_value(e, env)->0,
    decreases e,
{
    match e {
        ExprModel::Var(_) => {},
        ExprModel::Const(_) => {},
        ExprModel::Neg(inner) => {
            lemma_concrete_evaluation(*inner, env);
        },
        ExprModel::Add(l, r) => {
            lemma_concrete_evaluation(*l, env);
            lemma_concrete_evaluation(*r, env);
        },
        ExprModel::Mul(l, r) => {
            lemma_concrete_evaluation(*l, env);
            lemma_concrete_evaluation(*r, env);
        },
        ExprModel::Scale(inner, _) => {
            lemma_concrete_evaluation(*inner, env);
        },
    }
}

/// The cells that an expression refers to.
pub open spec fn expr_cells(e: ExprModel) -> Set<CellId>
    decreases e,
{
    match e {
        ExprModel::Var(c) => set![c],
        ExprModel::Const(_) => Set::empty(),
        ExprModel::Neg(inner) => expr_cells(*inner),
        ExprModel::Add(l, r) => expr_cells(*l).union(expr_cells(*r)),
        ExprModel::Mul(l, r) => expr_cells(*l).union(expr_cells(*r)),
        ExprModel::Scale(inner, _) => expr_cells(*inner),
    }
}

/// The cells that a list of expressions refers to.
pub open spec fn exprs_cells(es: Seq<ExprModel>) -> Set<CellId> {
    Set::new(|c: CellId| exists|i: int| 0 <= i < es.len() && #[trigger] expr_cells(es[i]).contains(c))
}

/// The models of a list of expressions.
pub open spec fn exprs_model(es: Seq<UcpExpr>) -> Seq<ExprModel> {
    es.map_values(|e: UcpExpr| e@)
}

/// Negation keeps the value of a concrete expression.
pub proof fn lemma_neg_keeps_value(e: ExprModel, env: Map<CellId, int>, v: int)
    requires
        concrete_value(e, env) == Some(v),
    ensures
        concrete_value(neg_model(e), env) == Some(-v),
{
}

/// Smart addition keeps the value of concrete operands.
pub proof fn lemma_add_keeps_value(l: ExprModel, r: ExprModel, env: Map<CellId, int>, a: int, b: int)
    requires
        concrete_value(l, env) == Some(a),
        concrete_value(r, env) == Some(b),
    ensures
        concrete_value(add_model(l, r), env) == Some(a + b),
{
}

/// Smart multiplication keeps the value of concrete operands.
pub proof fn lemma_mul_keeps_value(l: ExprModel, r: ExprModel, env: Map<CellId, int>, a: int, b: int)
    requires
        concrete_value(l, env) == Some(a),
        concrete_value(r, env) == Some(b),
    ensures
        concrete_value(mul_model(l, r), env) == Some(a * b),
{
    lemma_neg_keeps_value(l, env, a);
    lemma_neg_keeps_value(r, env, b);
    if is_zero_const(l) {
        assert(a == 0);
        assert(a * b == 0) by (nonlinear_arith) requires a == 0;
    } else if is_zero_const(r) {
        assert(b == 0);
        assert(a * b == 0) by (nonlinear_arith) requires b == 0;
    } else if known_const(l) == Some(1int) {
        assert(a * b == b) by (nonlinear_arith) requires a == 1;
    } else if known_const(r) == Some(1int) {
        assert(a * b == a) by (nonlinear_arith) requires b == 1;
    } else if known_const(l) == Some(-1int) {
        assert(a * b == -b) by (nonlinear_arith) requires a == -1;
    } else if known_const(r) == Some(-1int) {
        assert(a * b == -a) by (nonlinear_arith) requires b == -1;
    }
}

/// Scaling keeps the value of a concrete operand and a known scalar.
pub proof fn lemma_scale_keeps_value(e: ExprModel, s: ScalarModel, env: Map<CellId, int>, a: int, b: int)
    requires
        concrete_value(e, env) == Some(a),
        scalar_value(s) == Some(b),
    ensures
        concrete_value(scale_model(e, s), env) == Some(a * b),
{
    lemma_neg_keeps_value(e, env, a);
    if b == 0 {
        assert(a * b == 0) by (nonlinear_arith) requires b == 0;
    } else if b == 1 {
        assert(a * b == a) by (nonlinear_arith) requires b == 1;
    } else if b == -1 {
        assert(a * b == -a) by (nonlinear_arith) requires b == -1;
    }
}

impl Clone for UcpScalar {
    fn clone(&self) -> (r: Self)
        ensures
            r@ == self@,
    {
        match self {
            UcpScalar::Zero => UcpScalar::Zero,
            UcpScalar::NonZero => UcpScalar::NonZero,
            UcpScalar::Unknown => UcpScalar::Unknown,
            UcpScalar::Known(v) => UcpScalar::Known(v.clone()),
        }
    }
}

impl Clone for UcpExpr {
    fn clone(&self) -> (r: Self)
        ensures
            r@ == self@,
        decreases self,
    {
        match self {
            UcpExpr::Var(c) => UcpExpr::Var(*c),
            UcpExpr::Const(s) => UcpExpr::Const(s.clone()),
            UcpExpr::Neg(inner) => UcpExpr::Neg(Box::new((**inner).clone())),
            UcpExpr::Add(l, r) => UcpExpr::Add(Box::new((**l).clone()), Box::new((**r).clone())),
            UcpExpr::Mul(l, r) => UcpExpr::Mul(Box::new((**l).clone()), Box::new((**r).clone())),
            UcpExpr::Scale(inner, s) => UcpExpr::Scale(Box::new((**inner).clone()), s.clone()),
        }
    }
}

fn scalar_equal(a: &UcpScalar, b: &UcpScalar) -> (r: bool)
    ensures
        r == (a@ == b@),
{
    match (a, b) {
        (UcpScalar::Zero, UcpScalar::Zero) => true,
        (UcpScalar::NonZero, UcpScalar::NonZero) => true,
        (UcpScalar::Unknown, UcpScalar::Unknown) => true,
        (UcpScalar::Known(x), UcpScalar::Known(y)) => int_eq(x, y),
        _ => false,
    }
}

fn expr_equal(a: &UcpExpr, b: &UcpExpr) -> (r: bool)
    ensures
        r == (a@ == b@),
    decreases a,
{
    match (a, b) {
        (UcpExpr::Var(x), UcpExpr::Var(y)) => *x == *y,
        (UcpExpr::Const(x), UcpExpr::Const(y)) => scalar_equal(x, y),
        (UcpExpr::Neg(x), UcpExpr::Neg(y)) => expr_equal(x, y),
        (UcpExpr::Add(xl, xr), UcpExpr::Add(yl, yr)) => expr_equal(xl, yl) && expr_equal(xr, yr),
        (UcpExpr::Mul(xl, xr), UcpExpr::Mul(yl, yr)) => expr_equal(xl, yl) && expr_equal(xr, yr),
        (UcpExpr::Scale(x, s), UcpExpr::Scale(y, t)) => expr_equal(x, y) && scalar_equal(s, t),
        _ => false,
    }
}

impl PartialEq for UcpScalar {
    fn eq(&self, other: &Self) -> (r: bool) {
        scalar_equal(self, other)
    }
}

impl vstd::std_specs::cmp::PartialEqSpecImpl for UcpScalar {
    open spec fn obeys_eq_spec() -> bool {
        true
    }

    open spec fn eq_spec(&self, other: &Self) -> bool {
        self@ == other@
    }
}

impl PartialEq for UcpExpr {
    fn eq(&self, other: &Self) -> (r: bool) {
        expr_equal(self, other)
    }
}

impl vstd::std_specs::cmp::PartialEqSpecImpl for UcpExpr {
    open spec fn obeys_eq_spec() -> bool {
        true
    }

    open spec fn eq_spec(&self, other: &Self) -> bool {
        self@ == other@
    }
}

impl UcpScalar {
    /// A scalar for a concrete value; zero becomes `Zero`.
    pub fn known(value: Integer) -> (r: Self)
        ensures
            r@ == known_scalar(value@),
    {
        if value.is_zero() {
            Self::Zero
        } else {
            Self::Known(value)
        }
    }

    /// A scalar for a concrete `i64` value.
    pub fn known_i64(value: i64) -> (r: Self)
        ensures
            r@ == known_scalar(value as int),
    {
        Self::known(Integer::from_i64(value))
    }

    /// The concrete value, where it is known.
    pub fn as_known(&self) -> (r: Option<Integer>)
        ensures
            r matches Some(v) ==> scalar_value(self@) == Some(v@),
            r is None ==> scalar_value(self@) is None,
    {
        match self {
            Self::Zero => Some(Integer::zero()),
            Self::Known(value) => Some(value.clone()),
            Self::NonZero | Self::Unknown => None,
        }
    }

    /// Whether the scalar is statically non-zero.
    pub fn is_statically_non_zero(&self) -> (r: bool)
        ensures
            r == scalar_non_zero(self@),
    {
        match self {
            Self::NonZero | Self::Known(_) => true,
            _ => false,
        }
    }
}

/// Whether an expression is the zero constant.
pub fn is_zero_constant(e: &UcpExpr) -> (r: bool)
    ensures
        r == is_zero_const(e@),
{
    match e {
        UcpExpr::Const(UcpScalar::Zero) => true,
        _ => false,
    }
}

/// Whether an expression is the known constant with the given value.
fn is_known_constant(e: &UcpExpr, value: i64) -> (r: bool)
    ensures
        r == (known_const(e@) == Some(value as int)),
{
    match e {
        UcpExpr::Const(UcpScalar::Known(v)) => {
            let w = Integer::from_i64(value);
            int_eq(v, &w)
        },
        _ => false,
    }
}

impl UcpExpr {
    /// A cell reference.
    pub fn var(cell: CellId) -> (r: Self)
        ensures
            r@ == ExprModel::Var(cell),
    {
        Self::Var(cell)
    }

    /// An unknown constant.
    pub fn constant() -> (r: Self)
        ensures
            r@ == ExprModel::Const(ScalarModel::Unknown),
    {
        Self::Const(UcpScalar::Unknown)
    }

    /// The zero constant.
    pub fn zero() -> (r: Self)
        ensures
            r@ == ExprModel::Const(ScalarModel::Zero),
    {
        Self::Const(UcpScalar::Zero)
    }

    /// A non-zero constant of unknown value.
    pub fn non_zero_constant() -> (r: Self)
        ensures
            r@ == ExprModel::Const(ScalarModel::NonZero),
    {
        Self::Const(UcpScalar::NonZero)
    }

    /// A known constant.
    pub fn known_constant(value: Integer) -> (r: Self)
        ensures
            r@ == ExprModel::Const(known_scalar(value@)),
    {
        Self::Const(UcpScalar::known(value))
    }

    /// A known `i64` constant.
    pub fn known_constant_i64(value: i64) -> (r: Self)
        ensures
            r@ == ExprModel::Const(known_scalar(value as int)),
    {
        Self::known_constant(Integer::from_i64(value))
    }

    /// A constant from any abstract scalar.
    pub fn scalar_constant(scalar: UcpScalar) -> (r: Self)
        ensures
            r@ == ExprModel::Const(scalar@),
    {
        Self::Const(scalar)
    }

    /// Negation, folding zero and known constants.
    pub fn neg(expr: UcpExpr) -> (r: Self)
        ensures
            r@ == neg_model(expr@),
    {
        match expr {
            Self::Const(UcpScalar::Zero) => Self::zero(),
            Self::Const(UcpScalar::Known(value)) => Self::known_constant(value.neg()),
            expr => Self::Neg(Box::new(expr)),
        }
    }

    /// Sum, dropping zero operands and folding known constants.
    pub fn add(left: UcpExpr, right: UcpExpr) -> (r: Self)
        ensures
            r@ == add_model(left@, right@),
    {
        if is_zero_constant(&left) {
            return right;
        }
        if is_zero_constant(&right) {
            return left;
        }
        match (left, right) {
            (Self::Const(l), Self::Const(r)) => match (l.as_known(), r.as_known()) {
                (Some(a), Some(b)) => Self::known_constant(int_add(&a, &b)),
                _ => Self::Add(Box::new(Self::Const(l)), Box::new(Self::Const(r))),
            },
            (l, r) => Self::Add(Box::new(l), Box::new(r)),
        }
    }

    /// Product, folding zero, one, minus one and known constants.
    pub fn mul(left: UcpExpr, right: UcpExpr) -> (r: Self)
        ensures
            r@ == mul_model(left@, right@),
    {
        if is_zero_constant(&left) || is_zero_constant(&right) {
            return Self::zero();
        }
        if is_known_constant(&left, 1) {
            return right;
        }
        if is_known_constant(&right, 1) {
            return left;
        }
        if is_known_constant(&left, -1) {
            return Self::neg(right);
        }
        if is_known_constant(&right, -1) {
            return Self::neg(left);
        }
        match (left, right) {
            (Self::Const(l), Self::Const(r)) => match (l.as_known(), r.as_known()) {
                (Some(a), Some(b)) => Self::known_constant(int_mul(&a, &b)),
                _ => Self::Mul(Box::new(Self::Const(l)), Box::new(Self::Const(r))),
            },
            (l, r) => Self::Mul(Box::new(l), Box::new(r)),
        }
    }

    /// Scaling by a non-zero scalar of unknown value.
    pub fn scale(expr: UcpExpr) -> (r: Self)
        ensures
            r@ == scale_model(expr@, ScalarModel::NonZero),
    {
        Self::scale_by(expr, UcpScalar::NonZero)
    }

    /// Scaling: a zero scalar gives the zero constant, one keeps the expression, minus one
    /// negates it.
    pub fn scale_by(expr: UcpExpr, scalar: UcpScalar) -> (r: Self)
        ensures
            r@ == scale_model(expr@, scalar@),
    {
        match scalar {
            UcpScalar::Zero => Self::zero(),
            UcpScalar::Known(value) => {
                let one = Integer::one();
                let minus_one = Integer::from_i64(-1);
                if int_eq(&value, &one) {
                    expr
                } else if int_eq(&value, &minus_one) {
                    Self::neg(expr)
                } else {
                    Self::Scale(Box::new(expr), UcpScalar::Known(value))
                }
            },
            scalar => Self::Scale(Box::new(expr), scalar),
        }
    }
}

} // verus!
