//! Value domains (`Delta`): an exact value or a finite set of values per cell.
use crate::cell::CellId;
use crate::cell_map::{entry_keys, CellMap};
use crate::integer::{in_i64_range, int_eq, int_in_i64_range, int_le, int_lt, Integer};
use vstd::prelude::*;

verus! {

/// The values of a list of integers.
pub open spec fn int_seq(v: Seq<Integer>) -> Seq<int> {
    v.map_values(|x: Integer| x@)
}

/// Strictly increasing.
pub open spec fn sorted_ints(s: Seq<int>) -> bool {
    forall|i: int, j: int| 0 <= i < j < s.len() ==> #[trigger] s[i] < #[trigger] s[j]
}

/// All in the range of `i64`.
pub open spec fn all_in_range(s: Seq<int>) -> bool {
    forall|i: int| 0 <= i < s.len() ==> in_i64_range(#[trigger] s[i])
}

/// The set of values of a list of integers.
pub open spec fn ints_of(v: Seq<Integer>) -> Set<int> {
    int_seq(v).to_set()
}

/// A set of values in the range of `i64`.
pub open spec fn set_in_range(s: Set<int>) -> bool {
    forall|x: int| s.contains(x) ==> in_i64_range(x)
}

/// Inserting at a position adds the element to the set.
pub proof fn lemma_insert_to_set<T>(s: Seq<T>, i: int, x: T)
    requires
        0 <= i <= s.len(),
    ensures
        s.insert(i, x).to_set() == s.to_set().insert(x),
{
    let t = s.insert(i, x);
    assert forall|c: T| #[trigger] t.to_set().contains(c) == s.to_set().insert(x).contains(c) by {
        if t.contains(c) {
            let k = choose|k: int| 0 <= k < t.len() && t[k] == c;
            if k < i {
                assert(s[k] == c);
            } else if k > i {
                assert(s[k - 1] == c);
            }
        }
        if s.contains(c) {
            let k = choose|k: int| 0 <= k < s.len() && s[k] == c;
            if k < i {
                assert(t[k] == c);
            } else {
                assert(t[k + 1] == c);
            }
        }
        if c == x {
            assert(t[i] == c);
        }
    }
    assert(t.to_set() =~= s.to_set().insert(x));
}

/// The set of a sequence with one more element.
pub proof fn lemma_push_set<T>(s: Seq<T>, x: T)
    ensures
        s.push(x).to_set() == s.to_set().insert(x),
{
    assert(s.push(x) == s.insert(s.len() as int, x));
    lemma_insert_to_set(s, s.len() as int, x);
}

/// The set of a one-element sequence.
pub proof fn lemma_single_seq_set<T>(x: T)
    ensures
        seq![x].to_set() == set![x],
        seq![x].to_set().contains(x),
{
    assert(seq![x][0] == x);
    assert forall|c: T| #[trigger] seq![x].to_set().contains(c) == set![x].contains(c) by {
        if seq![x].contains(c) {
            let k = choose|k: int| 0 <= k < 1 && seq![x][k] == c;
        }
    }
    assert(seq![x].to_set() =~= set![x]);
}

/// A strictly increasing list has as many distinct values as elements.
pub proof fn lemma_sorted_set_len(s: Seq<int>)
    requires
        sorted_ints(s),
    ensures
        s.to_set().len() == s.len(),
        s.to_set().finite(),
{
    assert(s.no_duplicates()) by {
        assert forall|i: int, j: int| 0 <= i < s.len() && 0 <= j < s.len() && i != j implies s[i]
            != s[j] by {
            if i < j {
                assert(s[i] < s[j]);
            } else {
                assert(s[j] < s[i]);
            }
        }
    }
    s.unique_seq_to_set();
    vstd::seq_lib::seq_to_set_is_finite(s);
}

/// Adds a value to a strictly increasing list, keeping it so.
pub fn insert_sorted(v: &mut Vec<Integer>, x: Integer)
    requires
        sorted_ints(int_seq(old(v)@)),
    ensures
        sorted_ints(int_seq(final(v)@)),
        ints_of(final(v)@) == ints_of(old(v)@).insert(x@),
{
    let ghost s = int_seq(v@);
    let mut i: usize = 0;
    while i < v.len() && int_lt(&v[i], &x)
        invariant
            i <= v@.len(),
            int_seq(v@) == s,
            s.len() == v@.len(),
            sorted_ints(s),
            forall|j: int| 0 <= j < i ==> #[trigger] s[j] < x@,
        decreases v@.len() - i,
    {
        proof {
            assert(s[i as int] == v@[i as int]@);
        }
        i = i + 1;
    }
    proof {
        if i < v@.len() {
            assert(s[i as int] == v@[i as int]@);
        }
    }
    if i < v.len() && int_eq(&v[i], &x) {
        proof {
            assert(s[i as int] == x@);
            assert(s.to_set().contains(x@));
            assert(s.to_set().insert(x@) =~= s.to_set());
        }
        return;
    }
    let ghost old_v = v@;
    v.insert(i, x);
    proof {
        let t = int_seq(v@);
        assert(t =~= s.insert(i as int, x@));
        lemma_insert_to_set(s, i as int, x@);
        assert forall|a: int, b: int| 0 <= a < b < t.len() implies #[trigger] t[a] < #[trigger] t[b] by {
            if b < i {
            } else if b == i {
                assert(t[a] == s[a]);
            } else if a < i {
                assert(t[a] == s[a]);
                assert(t[b] == s[b - 1]);
                assert(s[a] < x@);
                assert(x@ <= s[i as int]);
                if b - 1 > i {
                    assert(s[i as int] < s[b - 1]);
                }
            } else if a == i {
                assert(t[b] == s[b - 1]);
                assert(x@ <= s[i as int]);
                assert(x@ != s[i as int]);
                if b - 1 > i {
                    assert(s[i as int] < s[b - 1]);
                }
            } else {
                assert(t[a] == s[a - 1]);
                assert(t[b] == s[b - 1]);
            }
        }
    }
}

/// A domain: one exact value, or a finite set of values.
#[derive(Debug)]
pub enum UcpValueDomain {
    Exact(Integer),
    FiniteSet(Vec<Integer>),
}

/// The values a domain lists.
pub open spec fn domain_values_model(d: UcpValueDomain) -> Seq<int> {
    match d {
        UcpValueDomain::Exact(v) => seq![v@],
        UcpValueDomain::FiniteSet(vs) => int_seq(vs@),
    }
}

impl View for UcpValueDomain {
    type V = Set<int>;

    open spec fn view(&self) -> Set<int> {
        domain_values_model(*self).to_set()
    }
}

/// A well-formed domain: a finite set is strictly increasing and has at least two values,
/// all in the range of `i64`.
pub open spec fn domain_wf(d: UcpValueDomain) -> bool {
    match d {
        UcpValueDomain::Exact(_) => true,
        UcpValueDomain::FiniteSet(vs) => sorted_ints(int_seq(vs@)) && vs@.len() >= 2 && all_in_range(
            int_seq(vs@),
        ),
    }
}

/// A domain that may stand in `Delta`: well-formed and in the range of `i64`.
pub open spec fn domain_valid(d: UcpValueDomain) -> bool {
    domain_wf(d) && all_in_range(domain_values_model(d))
}

/// The domain that `UcpValueDomain::finite_set` builds from values: their set, where they are
/// all in the range of `i64` and there is at least one.
pub open spec fn finite_set_model(values: Seq<int>) -> Option<Set<int>> {
    if values.len() > 0 && all_in_range(values) {
        Some(values.to_set())
    } else {
        None
    }
}

/// Facts of a valid domain: a non-empty finite set in range; exact ones are singletons, the
/// others have at least two values.
pub proof fn lemma_domain_valid(d: UcpValueDomain)
    requires
        domain_valid(d),
    ensures
        d@.finite(),
        d@.len() >= 1,
        set_in_range(d@),
        (d is Exact) <==> d@.len() == 1,
        d matches UcpValueDomain::Exact(v) ==> d@ == set![v@],
{
    match d {
        UcpValueDomain::Exact(v) => {
            lemma_single_seq_set(v@);
            assert(set![v@].len() == 1) by {
                set![v@].lemma_singleton_size();
            }
        },
        UcpValueDomain::FiniteSet(vs) => {
            lemma_sorted_set_len(int_seq(vs@));
        },
    }
    assert forall|x: int| d@.contains(x) implies in_i64_range(x) by {
        let i = choose|i: int| 0 <= i < domain_values_model(d).len() && domain_values_model(d)[i] == x;
    }
}

/// Whether an expression is known to be zero, non-zero, or neither.
#[derive(Clone, Copy, Debug, PartialEq, Eq, Structural)]
pub enum ValueKind {
    Zero,
    NonZero,
    Unknown,
}

/// What a domain says of zero.
pub open spec fn domain_kind_model(s: Set<int>) -> ValueKind {
    if s == set![0int] {
        ValueKind::Zero
    } else if !s.contains(0) {
        ValueKind::NonZero
    } else {
        ValueKind::Unknown
    }
}

impl Clone for UcpValueDomain {
    fn clone(&self) -> (r: Self)
        ensures
            domain_values_model(r) == domain_values_model(*self),
            r is Exact <==> self is Exact,
    {
        match self {
            UcpValueDomain::Exact(v) => UcpValueDomain::Exact(v.clone()),
            UcpValueDomain::FiniteSet(vs) => {
                let mut out: Vec<Integer> = Vec::new();
                let mut i: usize = 0;
                while i < vs.len()
                    invariant
                        i <= vs@.len(),
                        out@.len() == i,
                        int_seq(out@) == int_seq(vs@.subrange(0, i as int)),
                    decreases vs@.len() - i,
                {
                    let ghost before = out@;
                    let c = vs[i].clone();
                    out.push(c);
                    proof {
                        assert(vs@.subrange(0, i + 1) =~= vs@.subrange(0, i as int).push(vs@[i as int]));
                        assert(out@ == before.push(c));
                        assert(int_seq(out@) =~= int_seq(before).push(c@));
                        assert(int_seq(vs@.subrange(0, i + 1)) =~= int_seq(vs@.subrange(0, i as int)).push(vs@[i as int]@));
                    }
                    i = i + 1;
                }
                assert(vs@.subrange(0, vs@.len() as int) =~= vs@);
                UcpValueDomain::FiniteSet(out)
            },
        }
    }
}

/// Whether a value occurs in a list of integers.
pub fn contains_value(vs: &Vec<Integer>, x: &Integer) -> (r: bool)
    ensures
        r == ints_of(vs@).contains(x@),
{
    let mut i: usize = 0;
    while i < vs.len()
        invariant
            i <= vs@.len(),
            forall|j: int| 0 <= j < i ==> vs@[j]@ != x@,
        decreases vs@.len() - i,
    {
        if int_eq(&vs[i], x) {
            proof {
                assert(int_seq(vs@)[i as int] == x@);
            }
            return true;
        }
        i = i + 1;
    }
    proof {
        if int_seq(vs@).contains(x@) {
            let j = choose|j: int| 0 <= j < int_seq(vs@).len() && int_seq(vs@)[j] == x@;
            assert(vs@[j]@ == x@);
        }
    }
    false
}

impl PartialEq for UcpValueDomain {
    fn eq(&self, other: &Self) -> (r: bool) {
        domain_equal(self, other)
    }
}

impl vstd::std_specs::cmp::PartialEqSpecImpl for UcpValueDomain {
    open spec fn obeys_eq_spec() -> bool {
        true
    }

    open spec fn eq_spec(&self, other: &Self) -> bool {
        domain_values_model(*self) == domain_values_model(*other) && (self is Exact <==> other is Exact)
    }
}

/// Same variant and the same listed values.
pub fn domain_equal(a: &UcpValueDomain, b: &UcpValueDomain) -> (r: bool)
    ensures
        r == (domain_values_model(*a) == domain_values_model(*b) && (a is Exact <==> b is Exact)),
{
    match (a, b) {
        (UcpValueDomain::Exact(x), UcpValueDomain::Exact(y)) => {
            let e = int_eq(x, y);
            proof {
                if !e {
                    assert(domain_values_model(*a)[0] != domain_values_model(*b)[0]);
                }
            }
            e
        },
        (UcpValueDomain::FiniteSet(xs), UcpValueDomain::FiniteSet(ys)) => {
            if xs.len() != ys.len() {
                proof {
                    assert(int_seq(xs@).len() != int_seq(ys@).len());
                }
                return false;
            }
            let mut i: usize = 0;
            while i < xs.len()
                invariant
                    i <= xs@.len(),
                    xs@.len() == ys@.len(),
                    domain_values_model(*a) == int_seq(xs@),
                    domain_values_model(*b) == int_seq(ys@),
                    a is FiniteSet && b is FiniteSet,
                    forall|j: int| 0 <= j < i ==> xs@[j]@ == ys@[j]@,
                decreases xs@.len() - i,
            {
                if !int_eq(&xs[i], &ys[i]) {
                    proof {
                        assert(int_seq(xs@)[i as int] != int_seq(ys@)[i as int]);
                        assert(int_seq(xs@) != int_seq(ys@));
                    }
                    return false;
                }
                i = i + 1;
            }
            assert(int_seq(xs@) =~= int_seq(ys@));
            true
        },
        _ => false,
    }
}

impl UcpValueDomain {
    /// A domain of one known value.
    pub fn exact(value: Integer) -> (r: Self)
        ensures
            r matches UcpValueDomain::Exact(v) && v@ == value@,
            domain_wf(r),
            r@ == set![value@],
    {
        proof {
            lemma_single_seq_set(value@);
        }
        Self::Exact(value)
    }

    /// The domain of the given values: `None` for no values or a value outside the range of
    /// `i64`; a single value gives an exact domain.
    pub fn finite_set(values: Vec<Integer>) -> (r: Option<Self>)
        ensures
            r is Some <==> finite_set_model(int_seq(values@)) is Some,
            r matches Some(d) ==> domain_valid(d) && Some(d@) == finite_set_model(int_seq(values@)),
    {
        let mut set: Vec<Integer> = Vec::new();
        let mut i: usize = 0;
        while i < values.len()
            invariant
                i <= values@.len(),
                sorted_ints(int_seq(set@)),
                all_in_range(int_seq(values@.subrange(0, i as int))),
                ints_of(set@) == int_seq(values@.subrange(0, i as int)).to_set(),
            decreases values@.len() - i,
        {
            if !int_in_i64_range(&values[i]) {
                proof {
                    assert(int_seq(values@)[i as int] == values@[i as int]@);
                    assert(!all_in_range(int_seq(values@)));
                }
                return None;
            }
            let ghost before = ints_of(set@);
            insert_sorted(&mut set, values[i].clone());
            proof {
                let p = int_seq(values@.subrange(0, i as int));
                assert(int_seq(values@.subrange(0, i + 1)) =~= p.push(values@[i as int]@));
                lemma_push_set(p, values@[i as int]@);
            }
            i = i + 1;
        }
        proof {
            assert(values@.subrange(0, values@.len() as int) =~= values@);
            lemma_sorted_set_len(int_seq(set@));
            assert forall|k: int| 0 <= k < int_seq(set@).len() implies in_i64_range(
                #[trigger] int_seq(set@)[k],
            ) by {
                assert(ints_of(set@).contains(int_seq(set@)[k]));
                let j = choose|j: int|
                    0 <= j < int_seq(values@).len() && int_seq(values@)[j] == int_seq(set@)[k];
            }
        }
        if set.len() == 0 {
            proof {
                if values@.len() > 0 {
                    assert(int_seq(values@).to_set().contains(int_seq(values@)[0]));
                    assert(int_seq(values@).to_set().len() == 0);
                }
            }
            None
        } else {
            proof {
                assert(ints_of(set@).contains(int_seq(set@)[0]));
                assert(int_seq(values@).to_set().contains(int_seq(set@)[0]));
                assert(int_seq(values@).len() > 0);
                assert(in_i64_range(int_seq(set@)[0]));
            }
            if set.len() == 1 {
                let ghost whole = set@;
                let v = set.pop().unwrap();
                proof {
                    assert(v == whole[0]);
                    assert(int_seq(whole) =~= seq![v@]);
                    let d = Self::Exact(v);
                    assert(domain_values_model(d)[0] == v@);
                }
                Some(Self::Exact(v))
            } else {
                Some(Self::FiniteSet(set))
            }
        }
    }

    /// The value of an exact domain.
    pub fn exact_value(&self) -> (r: Option<&Integer>)
        ensures
            r matches Some(v) ==> self is Exact && self@ == set![v@],
            r is None ==> self is FiniteSet,
    {
        match self {
            Self::Exact(value) => {
                proof {
                    lemma_single_seq_set(value@);
                }
                Some(value)
            },
            Self::FiniteSet(_) => None,
        }
    }

    /// Whether the domain is an exact value.
    pub fn is_singleton(&self) -> (r: bool)
        ensures
            r == self is Exact,
    {
        match self {
            Self::Exact(_) => true,
            Self::FiniteSet(_) => false,
        }
    }

    /// Whether every value of the domain lies in `[min, max]`.
    pub fn is_subset_of_range(&self, min: &Integer, max: &Integer) -> (r: bool)
        ensures
            r == (forall|x: int| self@.contains(x) ==> min@ <= x <= max@),
    {
        let vs = self.values();
        let mut i: usize = 0;
        while i < vs.len()
            invariant
                i <= vs@.len(),
                int_seq(vs@) == domain_values_model(*self),
                forall|j: int| 0 <= j < i ==> min@ <= #[trigger] vs@[j]@ <= max@,
            decreases vs@.len() - i,
        {
            if !(int_le(min, &vs[i]) && int_le(&vs[i], max)) {
                proof {
                    assert(int_seq(vs@)[i as int] == vs@[i as int]@);
                    assert(self@.contains(vs@[i as int]@));
                }
                return false;
            }
            i = i + 1;
        }
        proof {
            assert forall|x: int| self@.contains(x) implies min@ <= x <= max@ by {
                let j = choose|j: int| 0 <= j < int_seq(vs@).len() && int_seq(vs@)[j] == x;
                assert(vs@[j]@ == x);
            }
        }
        true
    }

    /// The largest value of the domain.
    pub fn max_value(&self) -> (r: &Integer)
        requires
            domain_wf(*self),
        ensures
            self@.contains(r@),
            forall|x: int| self@.contains(x) ==> x <= r@,
    {
        match self {
            Self::Exact(value) => {
                proof {
                    lemma_single_seq_set(value@);
                }
                value
            },
            Self::FiniteSet(values) => {
                let last = &values[values.len() - 1];
                proof {
                    let s = int_seq(values@);
                    assert(s[s.len() - 1] == last@);
                    assert forall|x: int| self@.contains(x) implies x <= last@ by {
                        let j = choose|j: int| 0 <= j < s.len() && s[j] == x;
                        if j < s.len() - 1 {
                            assert(s[j] < s[s.len() - 1]);
                        }
                    }
                }
                last
            },
        }
    }

    /// The listed values, in order.
    pub fn values(&self) -> (r: Vec<Integer>)
        ensures
            int_seq(r@) == domain_values_model(*self),
    {
        match self {
            Self::Exact(value) => {
                let mut v = Vec::new();
                v.push(value.clone());
                assert(int_seq(v@) =~= seq![value@]);
                v
            },
            Self::FiniteSet(_) => match self.clone() {
                Self::FiniteSet(vs) => vs,
                Self::Exact(_) => {
                    proof {
                        assert(false);
                    }
                    Vec::new()
                },
            },
        }
    }

    /// The intersection of two valid domains, `None` where it is empty.
    pub fn intersect(&self, other: &Self) -> (r: Option<Self>)
        requires
            domain_valid(*self),
            domain_valid(*other),
        ensures
            r is Some <==> !self@.intersect(other@).is_empty(),
            r matches Some(d) ==> domain_valid(d) && d@ == self@.intersect(other@),
    {
        proof {
            lemma_domain_valid(*self);
            lemma_domain_valid(*other);
        }
        match (self, other) {
            (Self::Exact(a), Self::Exact(b)) => {
                if int_eq(a, b) {
                    let r = Self::Exact(a.clone());
                    proof {
                        assert(self@.intersect(other@) =~= set![a@]);
                        assert(set![a@].contains(a@));
                        lemma_single_seq_set(a@);
                    }
                    Some(r)
                } else {
                    proof {
                        assert(self@.intersect(other@) =~= Set::<int>::empty());
                    }
                    None
                }
            },
            (Self::Exact(v), Self::FiniteSet(set)) => {
                if contains_value(set, v) {
                    let r = Self::Exact(v.clone());
                    proof {
                        assert(self@.intersect(other@) =~= set![v@]);
                        assert(set![v@].contains(v@));
                        lemma_single_seq_set(v@);
                    }
                    Some(r)
                } else {
                    proof {
                        assert(self@.intersect(other@) =~= Set::<int>::empty());
                    }
                    None
                }
            },
            (Self::FiniteSet(set), Self::Exact(v)) => {
                if contains_value(set, v) {
                    let r = Self::Exact(v.clone());
                    proof {
                        assert(self@.intersect(other@) =~= set![v@]);
                        assert(set![v@].contains(v@));
                        lemma_single_seq_set(v@);
                    }
                    Some(r)
                } else {
                    proof {
                        assert(self@.intersect(other@) =~= Set::<int>::empty());
                    }
                    None
                }
            },
            (Self::FiniteSet(left), Self::FiniteSet(right)) => {
                let mut common: Vec<Integer> = Vec::new();
                let mut i: usize = 0;
                while i < left.len()
                    invariant
                        i <= left@.len(),
                        ints_of(common@) == ints_of(left@.subrange(0, i as int)).intersect(
                            ints_of(right@),
                        ),
                    decreases left@.len() - i,
                {
                    let ghost before = common@;
                    if contains_value(right, &left[i]) {
                        common.push(left[i].clone());
                        proof {
                            assert(int_seq(common@) =~= int_seq(before).push(left@[i as int]@));
                            lemma_push_set(int_seq(before), left@[i as int]@);
                        }
                    }
                    proof {
                        let p = int_seq(left@.subrange(0, i as int));
                        assert(int_seq(left@.subrange(0, i + 1)) =~= p.push(left@[i as int]@));
                        lemma_push_set(p, left@[i as int]@);
                        assert(ints_of(common@) =~= ints_of(left@.subrange(0, i + 1)).intersect(
                            ints_of(right@),
                        ));
                    }
                    i = i + 1;
                }
                proof {
                    assert(left@.subrange(0, left@.len() as int) =~= left@);
                }
                let r = Self::finite_set(common);
                proof {
                    if r is None {
                        if int_seq(common@).len() > 0 {
                            assert(all_in_range(int_seq(common@))) by {
                                assert forall|k: int| 0 <= k < int_seq(common@).len() implies in_i64_range(
                                    #[trigger] int_seq(common@)[k],
                                ) by {
                                    assert(ints_of(common@).contains(int_seq(common@)[k]));
                                }
                            }
                        } else {
                            assert(ints_of(common@) =~= Set::<int>::empty());
                        }
                    } else {
                        assert(int_seq(common@).len() > 0);
                        assert(ints_of(common@).contains(int_seq(common@)[0]));
                    }
                }
                r
            },
        }
    }

    /// What the domain says of zero.
    pub fn kind(&self) -> (r: ValueKind)
        requires
            domain_valid(*self),
        ensures
            r == domain_kind_model(self@),
    {
        proof {
            lemma_domain_valid(*self);
        }
        match self {
            Self::Exact(value) => {
                if value.is_zero() {
                    ValueKind::Zero
                } else {
                    proof {
                        assert(!self@.contains(0));
                        assert(self@ != set![0int]) by {
                            assert(set![0int].contains(0));
                        }
                    }
                    ValueKind::NonZero
                }
            },
            Self::FiniteSet(values) => {
                let zero = Integer::zero();
                let has_zero = contains_value(values, &zero);
                proof {
                    assert(self@ != set![0int]) by {
                        set![0int].lemma_singleton_size();
                    }
                }
                if has_zero {
                    ValueKind::Unknown
                } else {
                    ValueKind::NonZero
                }
            },
        }
    }
}

/// The cell-to-domain map `Delta`.
#[derive(Debug)]
pub struct UcpValueFacts {
    domains: CellMap<UcpValueDomain>,
}

/// The exact value that `Delta` knows for a cell.
pub open spec fn known_value_model(m: Map<CellId, Set<int>>, c: CellId) -> Option<int> {
    if m.dom().contains(c) && m[c].len() == 1 {
        Some(m[c].choose())
    } else {
        None
    }
}

/// The set that a domain handed to `mark_domain` stands for: `None` where it lists no value or
/// a value outside the range of `i64`.
pub open spec fn new_domain_model(d: UcpValueDomain) -> Option<Set<int>> {
    finite_set_model(domain_values_model(d))
}

/// `Delta` after `mark_domain(cell, d)`, and whether it changed: a new cell takes the domain,
/// a known cell takes the intersection where it is non-empty and smaller.
pub open spec fn mark_domain_model(m: Map<CellId, Set<int>>, cell: CellId, d: UcpValueDomain) -> (
    Map<CellId, Set<int>>,
    bool,
) {
    match new_domain_model(d) {
        None => (m, false),
        Some(n) => if !m.dom().contains(cell) {
            (m.insert(cell, n), true)
        } else {
            let i = m[cell].intersect(n);
            if i.is_empty() || i == m[cell] {
                (m, false)
            } else {
                (m.insert(cell, i), true)
            }
        },
    }
}

/// Every domain of `Delta` is a non-empty finite set of values in the range of `i64`.
pub open spec fn facts_map_valid(m: Map<CellId, Set<int>>) -> bool {
    forall|c: CellId|
        #[trigger] m.dom().contains(c) ==> m[c].finite() && m[c].len() >= 1 && set_in_range(m[c])
}

impl View for UcpValueFacts {
    type V = Map<CellId, Set<int>>;

    closed spec fn view(&self) -> Map<CellId, Set<int>> {
        self.domains@
    }
}

impl UcpValueFacts {
    /// The map is sorted and every domain is valid.
    pub closed spec fn wf(&self) -> bool {
        &&& self.domains.wf()
        &&& forall|i: int|
            0 <= i < self.domains.entries_view().len() ==> domain_valid(
                #[trigger] self.domains.entries_view()[i].1,
            )
    }

    /// Each domain of a well-formed `Delta` is a non-empty finite set in range.
    pub proof fn lemma_wf(&self)
        requires
            self.wf(),
        ensures
            facts_map_valid(self@),
    {
        self.domains.lemma_wf();
        assert forall|c: CellId| #[trigger] self@.dom().contains(c) implies self@[c].finite()
            && self@[c].len() >= 1 && set_in_range(self@[c]) by {
            let i = choose|i: int|
                0 <= i < self.domains.entries_view().len() && self.domains.entries_view()[i].0 == c;
            lemma_domain_valid(self.domains.entries_view()[i].1);
        }
    }

    /// Empty `Delta`.
    pub fn new() -> (r: Self)
        ensures
            r.wf(),
            r@ == Map::<CellId, Set<int>>::empty(),
    {
        UcpValueFacts { domains: CellMap::new() }
    }

    /// Records an exact value; returns whether `Delta` changed.
    pub fn mark_known(&mut self, cell: CellId, value: Integer) -> (r: bool)
        requires
            old(self).wf(),
        ensures
            final(self).wf(),
            (final(self)@, r) == mark_domain_model(old(self)@, cell, UcpValueDomain::Exact(value)),
    {
        self.mark_domain(cell, UcpValueDomain::Exact(value))
    }

    /// Records a domain for a cell, intersecting with what is known; returns whether `Delta`
    /// changed.
    pub fn mark_domain(&mut self, cell: CellId, domain: UcpValueDomain) -> (r: bool)
        requires
            old(self).wf(),
        ensures
            final(self).wf(),
            (final(self)@, r) == mark_domain_model(old(self)@, cell, domain),
    {
        let ghost raw = domain_values_model(domain);
        let domain = match domain {
            UcpValueDomain::Exact(value) => {
                if !int_in_i64_range(&value) {
                    proof {
                        assert(raw[0] == value@);
                        assert(!all_in_range(raw));
                    }
                    return false;
                }
                let d = UcpValueDomain::Exact(value);
                proof {
                    assert(raw[0] == value@);
                    assert(domain_values_model(d)[0] == value@);
                    assert(all_in_range(raw));
                    assert(all_in_range(domain_values_model(d)));
                }
                d
            },
            UcpValueDomain::FiniteSet(values) => {
                match UcpValueDomain::finite_set(values) {
                    Some(d) => d,
                    None => {
                        return false;
                    },
                }
            },
        };
        proof {
            assert(domain_valid(domain));
            assert(new_domain_model(domain) is Some);
            assert(Some(domain@) == finite_set_model(raw));
            self.domains.lemma_wf();
        }
        match self.domains.get(&cell) {
            Some(existing) => {
                proof {
                    let i = choose|i: int|
                        0 <= i < self.domains.entries_view().len() && self.domains.entries_view()[i]
                            == (cell, *existing);
                    assert(domain_valid(self.domains.entries_view()[i].1));
                }
                let intersection = match existing.intersect(&domain) {
                    Some(i) => i,
                    None => {
                        return false;
                    },
                };
                if intersection.kind_equal_size(existing) {
                    proof {
                        assert(intersection@ =~= existing@);
                    }
                    false
                } else {
                    proof {
                        assert(intersection@ != existing@);
                    }
                    self.insert_domain(cell, intersection);
                    true
                }
            },
            None => {
                self.insert_domain(cell, domain);
                true
            },
        }
    }

    fn insert_domain(&mut self, cell: CellId, domain: UcpValueDomain)
        requires
            old(self).wf(),
            domain_valid(domain),
        ensures
            final(self).wf(),
            final(self)@ == old(self)@.insert(cell, domain@),
    {
        let ghost before = self.domains.entries_view();
        self.domains.insert(cell, domain);
        proof {
            assert forall|j: int| 0 <= j < self.domains.entries_view().len() implies domain_valid(
                #[trigger] self.domains.entries_view()[j].1,
            ) by {
                if self.domains.entries_view()[j].0 != cell {
                    let i = choose|i: int|
                        0 <= i < before.len() && self.domains.entries_view()[j] == before[i];
                } else {
                    self.domains.lemma_wf();
                    let k = choose|k: int|
                        0 <= k < self.domains.entries_view().len() && self.domains.entries_view()[k]
                            == (cell, domain);
                    assert(entry_keys(self.domains.entries_view())[k] == cell);
                    assert(entry_keys(self.domains.entries_view())[j] == cell);
                    if k != j {
                        crate::cell::lemma_cell_order(cell, cell, cell);
                        if k < j {
                            assert(crate::cell::cell_lt(
                                entry_keys(self.domains.entries_view())[k],
                                entry_keys(self.domains.entries_view())[j],
                            ));
                        } else {
                            assert(crate::cell::cell_lt(
                                entry_keys(self.domains.entries_view())[j],
                                entry_keys(self.domains.entries_view())[k],
                            ));
                        }
                    }
                }
            }
        }
    }

    /// The exact value of a cell, if `Delta` knows one.
    pub fn known_value(&self, cell: &CellId) -> (r: Option<&Integer>)
        requires
            self.wf(),
        ensures
            r matches Some(v) ==> known_value_model(self@, *cell) == Some(v@),
            r is None ==> known_value_model(self@, *cell) is None,
    {
        proof {
            self.domains.lemma_wf();
        }
        match self.domains.get(cell) {
            Some(d) => {
                proof {
                    let i = choose|i: int|
                        0 <= i < self.domains.entries_view().len() && self.domains.entries_view()[i]
                            == (*cell, *d);
                    assert(domain_valid(self.domains.entries_view()[i].1));
                    lemma_domain_valid(*d);
                }
                match d.exact_value() {
                    Some(v) => {
                        proof {
                            assert(set![v@].choose() == v@) by {
                                let x = set![v@].choose();
                                assert(set![v@].contains(x));
                            }
                        }
                        Some(v)
                    },
                    None => None,
                }
            },
            None => None,
        }
    }

    /// The domain of a cell, if any.
    pub fn domain(&self, cell: &CellId) -> (r: Option<&UcpValueDomain>)
        requires
            self.wf(),
        ensures
            r matches Some(d) ==> self@.dom().contains(*cell) && self@[*cell] == d@ && domain_valid(*d),
            r is None ==> !self@.dom().contains(*cell),
    {
        proof {
            self.domains.lemma_wf();
        }
        let r = self.domains.get(cell);
        proof {
            if let Some(d) = r {
                let i = choose|i: int|
                    0 <= i < self.domains.entries_view().len() && self.domains.entries_view()[i] == (
                    *cell,
                    *d,
                );
                assert(domain_valid(self.domains.entries_view()[i].1));
            }
        }
        r
    }

    /// Whether a cell has a domain inside `[min, max]`.
    pub fn domain_is_subset_of_range(&self, cell: &CellId, min: &Integer, max: &Integer) -> (r: bool)
        requires
            self.wf(),
        ensures
            r == (self@.dom().contains(*cell) && forall|x: int|
                self@[*cell].contains(x) ==> min@ <= x <= max@),
    {
        match self.domain(cell) {
            Some(d) => d.is_subset_of_range(min, max),
            None => false,
        }
    }

    /// All domains, in cell order.
    pub fn domains(&self) -> (r: &Vec<(CellId, UcpValueDomain)>)
        requires
            self.wf(),
        ensures
            forall|i: int| 0 <= i < r@.len() ==> #[trigger] self@.dom().contains(r@[i].0)
                && self@[r@[i].0] == r@[i].1@ && domain_valid(r@[i].1),
            forall|c: CellId|
                #[trigger] self@.dom().contains(c) ==> exists|i: int| 0 <= i < r@.len() && r@[i].0 == c,
    {
        proof {
            self.domains.lemma_wf();
            assert forall|i: int| 0 <= i < self.domains.entries_view().len() implies #[trigger] self@.dom().contains(self.domains.entries_view()[i].0)
                && self@[self.domains.entries_view()[i].0] == self.domains.entries_view()[i].1@ && domain_valid(self.domains.entries_view()[i].1) by {
                assert(domain_valid(self.domains.entries_view()[i].1));
                assert(self.domains@.dom().contains(self.domains.entries_view()[i].0));
                assert(self@ == self.domains@);
            }
        }
        self.domains.entries()
    }

    /// The cells with an exact value, with that value, in cell order.
    pub fn known_values(&self) -> (r: Vec<(CellId, Integer)>)
        requires
            self.wf(),
        ensures
            forall|i: int|
                0 <= i < r@.len() ==> known_value_model(self@, #[trigger] r@[i].0) == Some(r@[i].1@),
            forall|c: CellId|
                #[trigger] known_value_model(self@, c) is Some ==> exists|i: int|
                    0 <= i < r@.len() && r@[i].0 == c,
    {
        let entries = self.domains.entries();
        let mut out: Vec<(CellId, Integer)> = Vec::new();
        let mut i: usize = 0;
        proof {
            self.domains.lemma_wf();
        }
        while i < entries.len()
            invariant
                self.wf(),
                i <= entries@.len(),
                entries@ == self.domains.entries_view(),
                forall|j: int|
                    0 <= j < out@.len() ==> known_value_model(self@, #[trigger] out@[j].0) == Some(
                        out@[j].1@,
                    ),
                forall|j: int|
                    0 <= j < i && #[trigger] known_value_model(self@, entries@[j].0) is Some
                        ==> exists|k: int| 0 <= k < out@.len() && out@[k].0 == entries@[j].0,
            decreases entries@.len() - i,
        {
            proof {
                self.domains.lemma_wf();
            }
            let entry = &entries[i];
            let ghost before = out@;
            proof {
                assert(domain_valid(self.domains.entries_view()[i as int].1));
                lemma_domain_valid(entry.1);
                assert(self@.dom().contains(entry.0) && self@[entry.0] == entry.1@);
            }
            match entry.1.exact_value() {
                Some(v) => {
                    proof {
                        assert(set![v@].choose() == v@) by {
                            let x = set![v@].choose();
                            assert(set![v@].contains(x));
                        }
                    }
                    out.push((entry.0, v.clone()));
                    proof {
                        assert(out@[out@.len() - 1].0 == entries@[i as int].0);
                        assert forall|j: int| 0 <= j < i + 1 && #[trigger] known_value_model(self@, entries@[j].0) is Some
                            implies exists|k: int| 0 <= k < out@.len() && out@[k].0 == entries@[j].0 by {
                            if j < i {
                                let k = choose|k: int| 0 <= k < before.len() && before[k].0 == entries@[j].0;
                                assert(out@[k] == before[k]);
                            } else {
                                assert(out@[out@.len() - 1].0 == entries@[j].0);
                            }
                        }
                    }
                },
                None => {
                    proof {
                        assert(known_value_model(self@, entries@[i as int].0) is None);
                    }
                },
            }
            i = i + 1;
        }
        proof {
            assert forall|c: CellId| #[trigger] known_value_model(self@, c) is Some implies exists|k: int|
                0 <= k < out@.len() && out@[k].0 == c by {
                let j = choose|j: int| 0 <= j < entries@.len() && entries@[j].0 == c;
                assert(known_value_model(self@, entries@[j].0) is Some);
            }
        }
        out
    }
}

impl UcpValueDomain {
    /// For a valid domain and a subset of it, whether they hold the same values.
    fn kind_equal_size(&self, other: &Self) -> (r: bool)
        requires
            domain_valid(*self),
            domain_valid(*other),
            self@.subset_of(other@),
        ensures
            r == (self@ == other@),
    {
        proof {
            lemma_domain_valid(*self);
            lemma_domain_valid(*other);
        }
        let a = self.len();
        let b = other.len();
        proof {
            if a == b {
                vstd::set_lib::lemma_subset_equality(self@, other@);
            }
            if self@ == other@ {
                assert(a == b);
            }
        }
        a == b
    }

    /// Number of distinct values of a valid domain.
    fn len(&self) -> (r: usize)
        requires
            domain_valid(*self),
        ensures
            r == self@.len(),
    {
        proof {
            lemma_domain_valid(*self);
        }
        match self {
            Self::Exact(_) => 1,
            Self::FiniteSet(vs) => {
                proof {
                    lemma_sorted_set_len(int_seq(vs@));
                }
                vs.len()
            },
        }
    }
}

/// A clone of a valid domain is valid.
pub proof fn lemma_clone_valid(a: UcpValueDomain, b: UcpValueDomain)
    requires
        domain_valid(a),
        domain_values_model(b) == domain_values_model(a),
        b is Exact <==> a is Exact,
    ensures
        domain_valid(b),
        b@ == a@,
{
    match (a, b) {
        (UcpValueDomain::FiniteSet(va), UcpValueDomain::FiniteSet(vb)) => {
            assert(int_seq(vb@).len() == vb@.len());
            assert(int_seq(va@).len() == va@.len());
        },
        _ => {},
    }
}

impl Clone for UcpValueFacts {
    fn clone(&self) -> (r: Self)
        ensures
            self.wf() ==> r.wf() && r@ == self@,
    {
        let src = self.domains.entries();
        let mut out: Vec<(CellId, UcpValueDomain)> = Vec::new();
        let mut i: usize = 0;
        while i < src.len()
            invariant
                i <= src@.len(),
                out@.len() == i,
                forall|j: int|
                    0 <= j < i ==> (#[trigger] out@[j]).0 == src@[j].0 && domain_values_model(out@[j].1)
                        == domain_values_model(src@[j].1) && (out@[j].1 is Exact <==> src@[j].1 is Exact),
            decreases src@.len() - i,
        {
            let d = src[i].1.clone();
            out.push((src[i].0, d));
            i = i + 1;
        }
        let r = UcpValueFacts { domains: CellMap::from_entries(out) };
        proof {
            if self.wf() {
                self.domains.lemma_wf();
                let es = self.domains.entries_view();
                assert(entry_keys(out@) =~= entry_keys(es));
                assert forall|j: int| 0 <= j < out@.len() implies domain_valid(#[trigger] r.domains.entries_view()[j].1) by {
                    assert(domain_valid(es[j].1));
                    lemma_clone_valid(es[j].1, out@[j].1);
                }
                r.domains.lemma_wf();
                assert forall|c: CellId| #[trigger] r@.dom().contains(c) == self@.dom().contains(c) by {
                    if r@.dom().contains(c) {
                        let j = choose|j: int| 0 <= j < out@.len() && out@[j].0 == c;
                        assert(es[j].0 == c);
                    }
                    if self@.dom().contains(c) {
                        let j = choose|j: int| 0 <= j < es.len() && es[j].0 == c;
                        assert(out@[j].0 == c);
                    }
                }
                assert forall|c: CellId| #[trigger] r@.dom().contains(c) implies r@[c] == self@[c] by {
                    let j = choose|j: int| 0 <= j < out@.len() && out@[j].0 == c;
                    assert(es[j].0 == c);
                    lemma_clone_valid(es[j].1, out@[j].1);
                }
                assert(r@ =~= self@);
            }
        }
        r
    }
}

/// Recording a domain never forgets a cell nor widens a known domain; a new cell takes the
/// recorded set, and a value of a known domain recorded exactly becomes the cell's only
/// value.
pub proof fn lemma_mark_domain_narrows(m: Map<CellId, Set<int>>, c: CellId, d: UcpValueDomain)
    ensures
        forall|x: CellId| #[trigger] m.dom().contains(x) ==> mark_domain_model(m, c, d).0.dom().contains(x)
            && mark_domain_model(m, c, d).0[x].subset_of(m[x]),
        new_domain_model(d) is Some && !m.dom().contains(c) ==> mark_domain_model(m, c, d).0 == m.insert(
            c,
            new_domain_model(d)->0,
        ),
        new_domain_model(d) is Some && m.dom().contains(c) && new_domain_model(d)->0.len() == 1 && m[c].contains(
            new_domain_model(d)->0.choose(),
        ) ==> mark_domain_model(m, c, d).0[c] == new_domain_model(d)->0,
{
    match new_domain_model(d) {
        Some(n) => {
            if m.dom().contains(c) && n.len() == 1 && m[c].contains(n.choose()) {
                let v = n.choose();
                assert(n.contains(v));
                assert(n =~= set![v]) by {
                    assert forall|y: int| n.contains(y) implies y == v by {
                        if y != v {
                            assert(n.remove(v).contains(y));
                            assert(n.remove(v).len() == 0);
                        }
                    }
                }
                let i = m[c].intersect(n);
                assert(i =~= n);
            }
        },
        None => {},
    }
}

} // verus!
