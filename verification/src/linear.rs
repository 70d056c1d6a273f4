//! Linear forms `constant + sum(coefficient * cell)` with non-zero coefficients.
use crate::cell::CellId;
use crate::cell_map::{entries_map, lemma_entries_map_prefix, CellMap};
use crate::integer::{int_add, int_mul, Integer};
use vstd::prelude::*;

verus! {

/// A linear form: a constant and the non-zero coefficients of its cells.
pub struct LinearModel {
    pub constant: int,
    pub terms: Map<CellId, int>,
}

/// The coefficient of a cell, zero where it has none.
pub open spec fn coef(m: Map<CellId, int>, c: CellId) -> int {
    if m.dom().contains(c) {
        m[c]
    } else {
        0
    }
}

/// Coefficient-wise sum, dropping zero coefficients.
pub open spec fn add_terms(a: Map<CellId, int>, b: Map<CellId, int>) -> Map<CellId, int> {
    Map::new(
        |c: CellId| (a.dom().contains(c) || b.dom().contains(c)) && coef(a, c) + coef(b, c) != 0,
        |c: CellId| coef(a, c) + coef(b, c),
    )
}

/// Coefficients multiplied by a scalar, dropping zero products.
pub open spec fn scale_terms(a: Map<CellId, int>, s: int) -> Map<CellId, int> {
    Map::new(|c: CellId| a.dom().contains(c) && a[c] * s != 0, |c: CellId| a[c] * s)
}

pub open spec fn lin_const(v: int) -> LinearModel {
    LinearModel { constant: v, terms: Map::empty() }
}

pub open spec fn lin_term(c: CellId, k: int) -> LinearModel {
    LinearModel { constant: 0, terms: map![c => k] }
}

pub open spec fn lin_add(a: LinearModel, b: LinearModel) -> LinearModel {
    LinearModel { constant: a.constant + b.constant, terms: add_terms(a.terms, b.terms) }
}

pub open spec fn lin_scale(a: LinearModel, s: int) -> LinearModel {
    LinearModel { constant: a.constant * s, terms: scale_terms(a.terms, s) }
}

/// No zero coefficient.
pub open spec fn nonzero_terms(m: Map<CellId, int>) -> bool {
    forall|c: CellId| #[trigger] m.dom().contains(c) ==> m[c] != 0
}

/// `s` lists the terms `t` in cell order.
pub open spec fn sorted_terms_of(s: Seq<(CellId, int)>, t: Map<CellId, int>) -> bool {
    &&& crate::cell_map::sorted_cells(crate::cell_map::entry_keys(s))
    &&& forall|c: CellId| #[trigger] t.dom().contains(c) <==> exists|i: int| 0 <= i < s.len() && s[i].0 == c
    &&& forall|i: int| 0 <= i < s.len() ==> t[#[trigger] s[i].0] == s[i].1
}

/// The terms of a form as a list in cell order.
pub open spec fn term_list(l: LinearModel) -> Seq<(CellId, int)> {
    choose|s: Seq<(CellId, int)>| sorted_terms_of(s, l.terms)
}

/// Entries with their coefficients as values.
pub open spec fn int_entries(s: Seq<(CellId, Integer)>) -> Seq<(CellId, int)> {
    s.map_values(|e: (CellId, Integer)| (e.0, e.1@))
}

/// Two strictly increasing lists of cells with the same cells are equal.
pub proof fn lemma_sorted_keys_unique(a: Seq<CellId>, b: Seq<CellId>)
    requires
        crate::cell_map::sorted_cells(a),
        crate::cell_map::sorted_cells(b),
        a.to_set() == b.to_set(),
    ensures
        a == b,
    decreases a.len(),
{
    if a.len() == 0 {
        if b.len() > 0 {
            assert(b.to_set().contains(b[0]));
        }
        assert(a =~= b);
    } else {
        assert(a.to_set().contains(a[0]));
        assert(b.len() > 0);
        assert(b.to_set().contains(b[0]));
        let j = choose|j: int| 0 <= j < b.len() && b[j] == a[0];
        let i = choose|i: int| 0 <= i < a.len() && a[i] == b[0];
        crate::cell::lemma_cell_order(a[0], b[0], a[0]);
        if j > 0 {
            assert(crate::cell::cell_lt(b[0], b[j]));
            if i > 0 {
                assert(crate::cell::cell_lt(a[0], a[i]));
            }
        }
        assert(b[0] == a[0]);
        let a1 = a.drop_first();
        let b1 = b.drop_first();
        assert(a1.to_set() =~= b1.to_set()) by {
            assert forall|c: CellId| #[trigger] a1.to_set().contains(c) == b1.to_set().contains(c) by {
                if a1.to_set().contains(c) {
                    let k = choose|k: int| 0 <= k < a1.len() && a1[k] == c;
                    assert(a.to_set().contains(c));
                    let m = choose|m: int| 0 <= m < b.len() && b[m] == c;
                    assert(crate::cell::cell_lt(a[0], a[k + 1]));
                    if m == 0 {
                        crate::cell::lemma_cell_order(c, c, c);
                    }
                    assert(b1[m - 1] == c);
                }
                if b1.to_set().contains(c) {
                    let k = choose|k: int| 0 <= k < b1.len() && b1[k] == c;
                    assert(b.to_set().contains(c));
                    let m = choose|m: int| 0 <= m < a.len() && a[m] == c;
                    assert(crate::cell::cell_lt(b[0], b[k + 1]));
                    if m == 0 {
                        crate::cell::lemma_cell_order(c, c, c);
                    }
                    assert(a1[m - 1] == c);
                }
            }
        }
        lemma_sorted_keys_unique(a1, b1);
        assert(a =~= seq![a[0]] + a1);
        assert(b =~= seq![b[0]] + b1);
    }
}

/// A map of terms has one list in cell order.
pub proof fn lemma_sorted_terms_unique(s1: Seq<(CellId, int)>, s2: Seq<(CellId, int)>, t: Map<CellId, int>)
    requires
        sorted_terms_of(s1, t),
        sorted_terms_of(s2, t),
    ensures
        s1 == s2,
{
    let k1 = crate::cell_map::entry_keys(s1);
    let k2 = crate::cell_map::entry_keys(s2);
    assert(k1.to_set() =~= k2.to_set()) by {
        assert forall|c: CellId| #[trigger] k1.to_set().contains(c) == k2.to_set().contains(c) by {
            if k1.to_set().contains(c) {
                let i = choose|i: int| 0 <= i < k1.len() && k1[i] == c;
                assert(s1[i].0 == c);
                assert(t.dom().contains(c));
                let j = choose|j: int| 0 <= j < s2.len() && s2[j].0 == c;
                assert(k2[j] == c);
            }
            if k2.to_set().contains(c) {
                let i = choose|i: int| 0 <= i < k2.len() && k2[i] == c;
                assert(s2[i].0 == c);
                assert(t.dom().contains(c));
                let j = choose|j: int| 0 <= j < s1.len() && s1[j].0 == c;
                assert(k1[j] == c);
            }
        }
    }
    lemma_sorted_keys_unique(k1, k2);
    assert forall|i: int| 0 <= i < s1.len() implies s1[i] == s2[i] by {
        assert(k1[i] == k2[i]);
    }
    assert(s1 =~= s2);
}

/// A linear form over the cell order.
pub struct LinearExpr {
    constant: Integer,
    terms: CellMap<Integer>,
}

impl View for LinearExpr {
    type V = LinearModel;

    closed spec fn view(&self) -> LinearModel {
        LinearModel { constant: self.constant@, terms: self.terms@ }
    }
}

impl LinearExpr {
    /// Terms sorted by cell, coefficients non-zero.
    pub closed spec fn wf(&self) -> bool {
        self.terms.wf() && nonzero_terms(self.terms@)
    }

    /// The entries of the terms, in cell order.
    pub closed spec fn term_entries(&self) -> Seq<(CellId, Integer)> {
        self.terms.entries_view()
    }

    /// What a well-formed form holds: sorted distinct cells, their coefficients, none zero.
    pub proof fn lemma_wf(&self)
        requires
            self.wf(),
        ensures
            nonzero_terms(self@.terms),
            crate::cell_map::sorted_cells(crate::cell_map::entry_keys(self.term_entries())),
            self@.terms == entries_map(self.term_entries()),
            forall|i: int|
                0 <= i < self.term_entries().len() ==> #[trigger] self@.terms.dom().contains(
                    self.term_entries()[i].0,
                ) && self@.terms[self.term_entries()[i].0] == self.term_entries()[i].1@,
            forall|c: CellId|
                #[trigger] self@.terms.dom().contains(c) <==> exists|i: int|
                    0 <= i < self.term_entries().len() && self.term_entries()[i].0 == c,
            self@.terms.dom().finite(),
    {
        self.terms.lemma_wf();
        lemma_entries_dom_finite(self.term_entries());
    }

    /// The entries of a well-formed form are its terms in cell order.
    pub proof fn lemma_term_list(&self)
        requires
            self.wf(),
        ensures
            term_list(self@) == int_entries(self.term_entries()),
            term_list(self@).len() == self.term_entries().len(),
            sorted_terms_of(term_list(self@), self@.terms),
    {
        self.lemma_wf();
        let w = int_entries(self.term_entries());
        assert(crate::cell_map::entry_keys(w) =~= crate::cell_map::entry_keys(self.term_entries()));
        assert forall|c: CellId| #[trigger] self@.terms.dom().contains(c) <==> exists|i: int|
            0 <= i < w.len() && w[i].0 == c by {
            if self@.terms.dom().contains(c) {
                let i = choose|i: int| 0 <= i < self.term_entries().len() && self.term_entries()[i].0 == c;
                assert(w[i].0 == c);
            }
            if exists|i: int| 0 <= i < w.len() && w[i].0 == c {
                let i = choose|i: int| 0 <= i < w.len() && w[i].0 == c;
                assert(self.term_entries()[i].0 == c);
            }
        }
        assert forall|i: int| 0 <= i < w.len() implies self@.terms[#[trigger] w[i].0] == w[i].1 by {
            assert(self@.terms.dom().contains(self.term_entries()[i].0));
        }
        assert(sorted_terms_of(w, self@.terms));
        let s = term_list(self@);
        lemma_sorted_terms_unique(s, w, self@.terms);
    }

    /// A constant form.
    pub fn constant(value: Integer) -> (r: Self)
        ensures
            r.wf(),
            r@ == lin_const(value@),
    {
        let r = LinearExpr { constant: value, terms: CellMap::new() };
        assert(r@.terms =~= Map::<CellId, int>::empty());
        r
    }

    /// A one-cell form with coefficient `k`.
    pub fn term(cell: CellId, k: Integer) -> (r: Self)
        requires
            k@ != 0,
        ensures
            r.wf(),
            r@ == lin_term(cell, k@),
    {
        let mut terms: CellMap<Integer> = CellMap::new();
        let ghost kv = k@;
        terms.insert(cell, k);
        let r = LinearExpr { constant: Integer::zero(), terms };
        assert(r@.terms =~= map![cell => kv]);
        r
    }

    /// The constant.
    pub fn constant_value(&self) -> (r: &Integer)
        ensures
            r@ == self@.constant,
    {
        &self.constant
    }

    /// The terms in cell order.
    pub fn entries(&self) -> (r: &Vec<(CellId, Integer)>)
        ensures
            r@ == self.term_entries(),
    {
        self.terms.entries()
    }

    /// Number of terms.
    pub fn num_terms(&self) -> (r: usize)
        requires
            self.wf(),
        ensures
            r == self.term_entries().len(),
            r == self@.terms.len(),
    {
        proof {
            self.lemma_wf();
            lemma_entries_len(self.term_entries());
        }
        self.terms.len()
    }

    /// The sum of two forms.
    pub fn add(self, other: Self) -> (r: Self)
        requires
            self.wf(),
            other.wf(),
        ensures
            r.wf(),
            r@ == lin_add(self@, other@),
    {
        let constant = int_add(&self.constant, &other.constant);
        let ghost a = self.terms@;
        let mut terms = self.terms;
        let entries = other.terms.entries();
        proof {
            other.terms.lemma_wf();
            assert(entries@.subrange(0, 0) =~= Seq::<(CellId, Integer)>::empty());
            assert(entries_map(entries@.subrange(0, 0)) =~= Map::<CellId, int>::empty());
            assert(terms@ =~= add_terms(a, Map::<CellId, int>::empty()));
        }
        let mut k: usize = 0;
        while k < entries.len()
            invariant
                k <= entries@.len(),
                entries@ == other.terms.entries_view(),
                crate::cell_map::sorted_cells(crate::cell_map::entry_keys(entries@)),
                nonzero_terms(a),
                terms.wf(),
                nonzero_terms(terms@),
                terms@ == add_terms(a, entries_map(entries@.subrange(0, k as int))),
                nonzero_terms(other.terms@),
                other.terms.wf(),
                other.terms@ == entries_map(entries@),
            decreases entries@.len() - k,
        {
            let ghost p = entries_map(entries@.subrange(0, k as int));
            let entry = &entries[k];
            let cell = entry.0;
            proof {
                lemma_entries_map_prefix(entries@, k as int);
                other.terms.lemma_wf();
                assert(other.terms@.dom().contains(cell));
                assert(entry.1@ != 0);
                assert(!p.dom().contains(cell));
            }
            let ghost np = p.insert(cell, entry.1@);
            match terms.get(&cell) {
                Some(c1) => {
                    let sum = int_add(c1, &entry.1);
                    if sum.is_zero() {
                        terms.remove(&cell);
                        proof {
                            assert(terms@ =~= add_terms(a, np));
                        }
                    } else {
                        terms.insert(cell, sum);
                        proof {
                            assert(terms@ =~= add_terms(a, np));
                        }
                    }
                },
                None => {
                    terms.insert(cell, entry.1.clone());
                    proof {
                        assert(!a.dom().contains(cell));
                        assert(terms@ =~= add_terms(a, np));
                    }
                },
            }
            k = k + 1;
        }
        proof {
            assert(entries@.subrange(0, entries@.len() as int) =~= entries@);
        }
        LinearExpr { constant, terms }
    }

    /// The form multiplied by a scalar.
    pub fn scale(self, s: &Integer) -> (r: Self)
        requires
            self.wf(),
        ensures
            r.wf(),
            r@ == lin_scale(self@, s@),
    {
        let constant = int_mul(&self.constant, s);
        let entries = self.terms.entries();
        let mut terms: CellMap<Integer> = CellMap::new();
        proof {
            self.terms.lemma_wf();
            assert(entries_map(entries@.subrange(0, 0)) =~= Map::<CellId, int>::empty());
            assert(terms@ =~= scale_terms(Map::<CellId, int>::empty(), s@));
        }
        let mut k: usize = 0;
        while k < entries.len()
            invariant
                k <= entries@.len(),
                entries@ == self.terms.entries_view(),
                crate::cell_map::sorted_cells(crate::cell_map::entry_keys(entries@)),
                terms.wf(),
                nonzero_terms(terms@),
                terms@ == scale_terms(entries_map(entries@.subrange(0, k as int)), s@),
            decreases entries@.len() - k,
        {
            let ghost p = entries_map(entries@.subrange(0, k as int));
            let entry = &entries[k];
            proof {
                lemma_entries_map_prefix(entries@, k as int);
            }
            let product = int_mul(&entry.1, s);
            if !product.is_zero() {
                terms.insert(entry.0, product);
            }
            proof {
                assert(terms@ =~= scale_terms(p.insert(entry.0, entry.1@), s@));
            }
            k = k + 1;
        }
        proof {
            assert(entries@.subrange(0, entries@.len() as int) =~= entries@);
            assert(self.terms@ == entries_map(entries@));
        }
        LinearExpr { constant, terms }
    }
}

/// The domain of the map of a list of entries is finite.
pub proof fn lemma_entries_dom_finite(s: Seq<(CellId, Integer)>)
    ensures
        entries_map(s).dom().finite(),
{
    let keys = s.map_values(|e: (CellId, Integer)| e.0);
    assert(entries_map(s).dom() =~= keys.to_set()) by {
        assert forall|c: CellId| #[trigger] entries_map(s).dom().contains(c) == keys.to_set().contains(c) by {
            if exists|i: int| 0 <= i < s.len() && s[i].0 == c {
                let i = choose|i: int| 0 <= i < s.len() && s[i].0 == c;
                assert(keys[i] == c);
            }
            if keys.contains(c) {
                let i = choose|i: int| 0 <= i < keys.len() && keys[i] == c;
                assert(s[i].0 == c);
            }
        }
    }
    vstd::seq_lib::seq_to_set_is_finite(keys);
}

/// A sorted list of entries has as many keys as entries.
pub proof fn lemma_entries_len(s: Seq<(CellId, Integer)>)
    requires
        crate::cell_map::sorted_cells(crate::cell_map::entry_keys(s)),
    ensures
        entries_map(s).len() == s.len(),
{
    let keys = crate::cell_map::entry_keys(s);
    assert(keys.no_duplicates()) by {
        assert forall|i: int, j: int| 0 <= i < keys.len() && 0 <= j < keys.len() && i != j implies keys[i]
            != keys[j] by {
            crate::cell::lemma_cell_order(keys[i], keys[j], keys[i]);
        }
    }
    keys.unique_seq_to_set();
    assert(entries_map(s).dom() =~= keys.to_set()) by {
        assert forall|c: CellId| #[trigger] entries_map(s).dom().contains(c) == keys.to_set().contains(c) by {
            if exists|i: int| 0 <= i < s.len() && s[i].0 == c {
                let i = choose|i: int| 0 <= i < s.len() && s[i].0 == c;
                assert(keys[i] == c);
            }
            if keys.contains(c) {
                let i = choose|i: int| 0 <= i < keys.len() && keys[i] == c;
                assert(s[i].0 == c);
            }
        }
    }
}

} // verus!
