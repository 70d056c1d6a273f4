//! The set `K` of cells already known to be unique.
use crate::cell::{CellId, CellKind};
use crate::expr::{expr_cells, exprs_cells, exprs_model, ExprModel, UcpExpr};
use vstd::prelude::*;

verus! {

/// The set `K`: cells known to be uniquely determined.
#[derive(Debug)]
pub struct UcpFacts {
    unique_cells: Vec<CellId>,
}

impl View for UcpFacts {
    type V = Set<CellId>;

    closed spec fn view(&self) -> Set<CellId> {
        self.unique_cells@.to_set()
    }
}

/// Cells that may enter the initial `K`: instance and fixed cells.
pub open spec fn initially_unique(cell: CellId) -> bool {
    cell.kind != CellKind::Advice
}

impl UcpFacts {
    #[verifier::type_invariant]
    closed spec fn no_duplicates(self) -> bool {
        self.unique_cells@.no_duplicates()
    }

    /// The empty `K`.
    pub fn new() -> (r: Self)
        ensures
            r@ == Set::<CellId>::empty(),
    {
        let r = UcpFacts { unique_cells: Vec::new() };
        assert(r@ =~= Set::<CellId>::empty());
        r
    }

    /// Adds a cell; returns whether it was new.
    pub fn mark_unique(&mut self, cell: CellId) -> (r: bool)
        ensures
            r == !old(self)@.contains(cell),
            final(self)@ == old(self)@.insert(cell),
    {
        proof {
            use_type_invariant(&*self);
        }
        if self.is_unique(&cell) {
            assert(self@.insert(cell) =~= self@);
            return false;
        }
        let ghost before = self.unique_cells@;
        proof {
            assert(!before.contains(cell));
        }
        let mut cells = self.unique_cells.clone();
        assert(cells@ =~= before);
        cells.push(cell);
        proof {
            assert(cells@.no_duplicates()) by {
                assert forall|a: int, b: int| 0 <= a < b < cells@.len() implies cells@[a] != cells@[b] by {
                    if b == before.len() {
                        assert(before[a] == cells@[a]);
                    }
                }
            }
        }
        self.unique_cells = cells;
        proof {
            assert(self.unique_cells@ == before.push(cell));
            assert(self@ =~= before.to_set().insert(cell)) by {
                assert forall|c: CellId| self.unique_cells@.contains(c) <==> (before.contains(c) || c == cell) by {
                    if self.unique_cells@.contains(c) {
                        let i = choose|i: int| 0 <= i < self.unique_cells@.len() && self.unique_cells@[i] == c;
                        if i < before.len() {
                            assert(before[i] == c);
                        }
                    }
                    if before.contains(c) {
                        let i = choose|i: int| 0 <= i < before.len() && before[i] == c;
                        assert(self.unique_cells@[i] == c);
                    }
                    if c == cell {
                        assert(self.unique_cells@[before.len() as int] == c);
                    }
                }
            }
        }
        true
    }

    /// Adds a cell to the initial `K` only if it is an instance or fixed cell; returns whether
    /// it was added and new.
    pub fn mark_initial_unique(&mut self, cell: CellId) -> (r: bool)
        ensures
            initially_unique(cell) ==> r == !old(self)@.contains(cell) && final(self)@ == old(self)@.insert(cell),
            !initially_unique(cell) ==> !r && final(self)@ == old(self)@,
    {
        match cell.kind {
            CellKind::Instance | CellKind::Fixed => self.mark_unique(cell),
            CellKind::Advice => false,
        }
    }

    /// Whether the cell is in `K`.
    pub fn is_unique(&self, cell: &CellId) -> (r: bool)
        ensures
            r == self@.contains(*cell),
    {
        let mut i: usize = 0;
        while i < self.unique_cells.len()
            invariant
                i <= self.unique_cells.len(),
                forall|j: int| 0 <= j < i ==> self.unique_cells@[j] != *cell,
            decreases self.unique_cells.len() - i,
        {
            if self.unique_cells[i] == *cell {
                return true;
            }
            i = i + 1;
        }
        false
    }

    /// All cells in `K`, each once.
    pub fn unique_cells(&self) -> (r: &Vec<CellId>)
        ensures
            r@.to_set() == self@,
            r@.no_duplicates(),
    {
        proof {
            use_type_invariant(self);
        }
        &self.unique_cells
    }

    /// `K` holding exactly the given cells.
    pub fn from_iter<const N: usize>(cells: [CellId; N]) -> (r: Self)
        ensures
            r@ == cells@.to_set(),
    {
        let mut facts = UcpFacts::new();
        let mut i: usize = 0;
        while i < N
            invariant
                i <= N,
                N == cells@.len(),
                facts@ == cells@.subrange(0, i as int).to_set(),
            decreases N - i,
        {
            facts.mark_unique(cells[i]);
            proof {
                assert(cells@.subrange(0, i + 1) == cells@.subrange(0, i as int).push(cells@[i as int]));
                lemma_push_to_set(cells@.subrange(0, i as int), cells@[i as int]);
            }
            i = i + 1;
        }
        assert(cells@.subrange(0, N as int) =~= cells@);
        facts
    }
}

impl Clone for UcpFacts {
    fn clone(&self) -> (r: Self)
        ensures
            r@ == self@,
    {
        proof {
            use_type_invariant(self);
        }
        let cells = self.unique_cells.clone();
        assert(cells@ =~= self.unique_cells@);
        UcpFacts { unique_cells: cells }
    }
}

/// `K` after marking the cells of `cs` one after another, starting from `k`.
pub open spec fn marked(k: Set<CellId>, cs: Seq<CellId>) -> Set<CellId>
    decreases cs.len(),
{
    if cs.len() == 0 {
        k
    } else {
        marked(k, cs.drop_last()).insert(cs.last())
    }
}

/// How many of those marks report a new cell.
pub open spec fn new_marks(k: Set<CellId>, cs: Seq<CellId>) -> nat
    decreases cs.len(),
{
    if cs.len() == 0 {
        0
    } else {
        new_marks(k, cs.drop_last()) + (if marked(k, cs.drop_last()).contains(cs.last()) {
            0nat
        } else {
            1nat
        })
    }
}

/// Marking cells one after another gives `K` with exactly those cells added, and `K` grows by
/// one for each mark that reports a new cell: from the empty `K`, the unique cells are the
/// marked ones, as many as the marks that reported a new cell.
pub proof fn lemma_marks(k: Set<CellId>, cs: Seq<CellId>)
    requires
        k.finite(),
    ensures
        marked(k, cs) == k.union(cs.to_set()),
        marked(k, cs).finite(),
        marked(k, cs).len() == k.len() + new_marks(k, cs),
    decreases cs.len(),
{
    if cs.len() == 0 {
        assert(cs.to_set() =~= Set::<CellId>::empty());
        assert(k.union(cs.to_set()) =~= k);
    } else {
        let prev = cs.drop_last();
        lemma_marks(k, prev);
        assert(prev.push(cs.last()) =~= cs);
        lemma_push_to_set(prev, cs.last());
        assert(marked(k, cs) =~= k.union(cs.to_set()));
    }
}

/// A list of the cells of `K` after the marks, each once (as `unique_cells` gives it), has one
/// entry per cell of the start and per mark that reported a new cell.
pub proof fn lemma_marked_listing(k: Set<CellId>, cs: Seq<CellId>, r: Seq<CellId>)
    requires
        k.finite(),
        r.no_duplicates(),
        r.to_set() == marked(k, cs),
    ensures
        r.len() == k.len() + new_marks(k, cs),
{
    lemma_marks(k, cs);
    r.unique_seq_to_set();
}

/// The set of a sequence with one more element.
pub proof fn lemma_push_to_set<T>(s: Seq<T>, x: T)
    ensures
        s.push(x).to_set() == s.to_set().insert(x),
{
    assert forall|c: T| #[trigger] s.push(x).to_set().contains(c) == s.to_set().insert(x).contains(c) by {
        if s.push(x).contains(c) {
            let i = choose|i: int| 0 <= i < s.push(x).len() && s.push(x)[i] == c;
            if i < s.len() {
                assert(s[i] == c);
                assert(s.contains(c));
            }
        }
        if s.contains(c) {
            let i = choose|i: int| 0 <= i < s.len() && s[i] == c;
            assert(s.push(x)[i] == c);
        }
        if c == x {
            assert(s.push(x)[s.len() as int] == c);
        }
    }
    assert(s.push(x).to_set() =~= s.to_set().insert(x));
}

/// The initial `K` of the instance and fixed cells among the given cells.
pub open spec fn initial_cells(s: Seq<CellId>) -> Set<CellId> {
    s.to_set().filter(|c: CellId| initially_unique(c))
}

/// The initial `K` from instance and fixed cells; advice cells among them are ignored.
pub fn initial_facts<const N: usize, const M: usize>(
    instance_cells: [CellId; N],
    fixed_cells: [CellId; M],
) -> (r: UcpFacts)
    ensures
        r@ == initial_cells(instance_cells@ + fixed_cells@),
{
    let mut facts = UcpFacts::new();
    let ghost all = instance_cells@ + fixed_cells@;
    let mut i: usize = 0;
    while i < N
        invariant
            i <= N,
            N == instance_cells@.len(),
            facts@ == initial_cells(instance_cells@.subrange(0, i as int)),
        decreases N - i,
    {
        facts.mark_initial_unique(instance_cells[i]);
        proof {
            assert(instance_cells@.subrange(0, i + 1) == instance_cells@.subrange(0, i as int).push(instance_cells@[i as int]));
            lemma_push_to_set(instance_cells@.subrange(0, i as int), instance_cells@[i as int]);
            assert(facts@ =~= initial_cells(instance_cells@.subrange(0, i + 1)));
        }
        i = i + 1;
    }
    proof {
        assert(instance_cells@ + fixed_cells@.subrange(0, 0) =~= instance_cells@.subrange(0, N as int));
    }
    let mut j: usize = 0;
    while j < M
        invariant
            j <= M,
            N == instance_cells@.len(),
            M == fixed_cells@.len(),
            facts@ == initial_cells(instance_cells@ + fixed_cells@.subrange(0, j as int)),
        decreases M - j,
    {
        facts.mark_initial_unique(fixed_cells[j]);
        proof {
            let prefix = instance_cells@ + fixed_cells@.subrange(0, j as int);
            assert(instance_cells@ + fixed_cells@.subrange(0, j + 1) =~= prefix.push(fixed_cells@[j as int]));
            lemma_push_to_set(prefix, fixed_cells@[j as int]);
            assert(facts@ =~= initial_cells(instance_cells@ + fixed_cells@.subrange(0, j + 1)));
        }
        j = j + 1;
    }
    proof {
        if M == 0 {
            assert(instance_cells@ + fixed_cells@.subrange(0, 0) =~= instance_cells@.subrange(0, N as int));
        }
        assert(fixed_cells@.subrange(0, M as int) =~= fixed_cells@);
    }
    facts
}

/// The initial `K` of the instance and fixed cells that the expressions refer to.
pub fn initial_facts_from_expressions(expressions: &[UcpExpr]) -> (r: UcpFacts)
    ensures
        r@ == exprs_cells(exprs_model(expressions@)).filter(|c: CellId| initially_unique(c)),
{
    let mut facts = UcpFacts::new();
    let mut i: usize = 0;
    while i < expressions.len()
        invariant
            i <= expressions.len(),
            facts@ == exprs_cells(exprs_model(expressions@.subrange(0, i as int))).filter(
                |c: CellId| initially_unique(c),
            ),
        decreases expressions.len() - i,
    {
        let ghost before = facts@;
        collect_initial_facts(&expressions[i], &mut facts);
        proof {
            let prev = exprs_model(expressions@.subrange(0, i as int));
            let next = exprs_model(expressions@.subrange(0, i + 1));
            assert(next =~= prev.push(expressions@[i as int]@));
            assert(facts@ =~= exprs_cells(next).filter(|c: CellId| initially_unique(c))) by {
                assert forall|c: CellId| exprs_cells(next).contains(c) <==> (exprs_cells(prev).contains(c)
                    || expr_cells(expressions@[i as int]@).contains(c)) by {
                    if exprs_cells(next).contains(c) {
                        let k = choose|k: int| 0 <= k < next.len() && #[trigger] expr_cells(next[k]).contains(c);
                        if k < prev.len() {
                            assert(next[k] == prev[k]);
                        }
                    }
                    if exprs_cells(prev).contains(c) {
                        let k = choose|k: int| 0 <= k < prev.len() && #[trigger] expr_cells(prev[k]).contains(c);
                        assert(next[k] == prev[k]);
                    }
                    if expr_cells(expressions@[i as int]@).contains(c) {
                        assert(next[prev.len() as int] == expressions@[i as int]@);
                    }
                }
            }
        }
        i = i + 1;
    }
    assert(expressions@.subrange(0, expressions.len() as int) =~= expressions@);
    facts
}

/// Walks an expression and adds its instance and fixed cells.
fn collect_initial_facts(expr: &UcpExpr, facts: &mut UcpFacts)
    ensures
        final(facts)@ == old(facts)@.union(expr_cells(expr@).filter(|c: CellId| initially_unique(c))),
    decreases expr,
{
    match expr {
        UcpExpr::Var(cell) => {
            facts.mark_initial_unique(*cell);
            assert(final(facts)@ =~= old(facts)@.union(expr_cells(expr@).filter(|c: CellId| initially_unique(c))));
        },
        UcpExpr::Const(_) => {
            assert(final(facts)@ =~= old(facts)@.union(expr_cells(expr@).filter(|c: CellId| initially_unique(c))));
        },
        UcpExpr::Neg(inner) | UcpExpr::Scale(inner, _) => collect_initial_facts(inner, facts),
        UcpExpr::Add(left, right) | UcpExpr::Mul(left, right) => {
            collect_initial_facts(left, facts);
            collect_initial_facts(right, facts);
            assert(final(facts)@ =~= old(facts)@.union(expr_cells(expr@).filter(|c: CellId| initially_unique(c))));
        },
    }
}

} // verus!
