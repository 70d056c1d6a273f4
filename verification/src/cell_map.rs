//! A map keyed by cells, kept sorted in the cell order (the order a `BTreeMap` walks).
use crate::cell::{cell_less, cell_lt, lemma_cell_order, CellId};
use vstd::prelude::*;

verus! {

/// Cells in strictly increasing order.
pub open spec fn sorted_cells(s: Seq<CellId>) -> bool {
    forall|i: int, j: int| 0 <= i < j < s.len() ==> cell_lt(#[trigger] s[i], #[trigger] s[j])
}

/// The keys of a list of entries.
pub open spec fn entry_keys<V>(s: Seq<(CellId, V)>) -> Seq<CellId> {
    s.map_values(|e: (CellId, V)| e.0)
}

/// The index of a key in a list of entries.
pub open spec fn key_index<V>(s: Seq<(CellId, V)>, c: CellId) -> int {
    choose|i: int| 0 <= i < s.len() && s[i].0 == c
}

/// The map that a list of entries with distinct keys stands for.
pub open spec fn entries_map<V: View>(s: Seq<(CellId, V)>) -> Map<CellId, V::V> {
    Map::new(
        |c: CellId| exists|i: int| 0 <= i < s.len() && s[i].0 == c,
        |c: CellId| s[key_index(s, c)].1@,
    )
}

/// A finite map from cells, in cell order.
#[derive(Debug)]
pub struct CellMap<V> {
    entries: Vec<(CellId, V)>,
}

impl<V: View> View for CellMap<V> {
    type V = Map<CellId, V::V>;

    closed spec fn view(&self) -> Map<CellId, V::V> {
        entries_map(self.entries@)
    }
}

/// In a list with sorted keys, the index of a key is the one position that holds it.
pub proof fn lemma_key_index<V>(s: Seq<(CellId, V)>, i: int)
    requires
        sorted_cells(entry_keys(s)),
        0 <= i < s.len(),
    ensures
        key_index(s, s[i].0) == i,
{
    let k = s[i].0;
    assert(entry_keys(s)[i] == k);
    let j = key_index(s, k);
    assert(0 <= j < s.len() && s[j].0 == k);
    assert(entry_keys(s)[j] == k);
    if j < i {
        assert(cell_lt(entry_keys(s)[j], entry_keys(s)[i]));
        lemma_cell_order(k, k, k);
    } else if j > i {
        assert(cell_lt(entry_keys(s)[i], entry_keys(s)[j]));
        lemma_cell_order(k, k, k);
    }
}

/// The map of one more entry of a sorted list: the entry's key is new to the prefix.
pub proof fn lemma_entries_map_prefix<V: View>(s: Seq<(CellId, V)>, k: int)
    requires
        sorted_cells(entry_keys(s)),
        0 <= k < s.len(),
    ensures
        entries_map(s.subrange(0, k + 1)) == entries_map(s.subrange(0, k)).insert(s[k].0, s[k].1@),
        !entries_map(s.subrange(0, k)).dom().contains(s[k].0),
{
    let p = s.subrange(0, k);
    let q = s.subrange(0, k + 1);
    assert(sorted_cells(entry_keys(p))) by {
        assert forall|a: int, b: int| 0 <= a < b < p.len() implies cell_lt(
            #[trigger] entry_keys(p)[a],
            #[trigger] entry_keys(p)[b],
        ) by {
            assert(entry_keys(s)[a] == s[a].0);
            assert(entry_keys(s)[b] == s[b].0);
        }
    }
    assert(sorted_cells(entry_keys(q))) by {
        assert forall|a: int, b: int| 0 <= a < b < q.len() implies cell_lt(
            #[trigger] entry_keys(q)[a],
            #[trigger] entry_keys(q)[b],
        ) by {
            assert(entry_keys(s)[a] == s[a].0);
            assert(entry_keys(s)[b] == s[b].0);
        }
    }
    assert(!entries_map(p).dom().contains(s[k].0)) by {
        if exists|j: int| 0 <= j < p.len() && p[j].0 == s[k].0 {
            let j = choose|j: int| 0 <= j < p.len() && p[j].0 == s[k].0;
            assert(entry_keys(s)[j] == s[j].0);
            assert(entry_keys(s)[k] == s[k].0);
            lemma_cell_order(s[k].0, s[k].0, s[k].0);
        }
    }
    assert forall|c: CellId| #[trigger] entries_map(q).dom().contains(c) == entries_map(p).insert(
        s[k].0,
        s[k].1@,
    ).dom().contains(c) by {
        if exists|j: int| 0 <= j < q.len() && q[j].0 == c {
            let j = choose|j: int| 0 <= j < q.len() && q[j].0 == c;
            if j < k {
                assert(p[j].0 == c);
            }
        }
        if exists|j: int| 0 <= j < p.len() && p[j].0 == c {
            let j = choose|j: int| 0 <= j < p.len() && p[j].0 == c;
            assert(q[j].0 == c);
        }
        assert(q[k].0 == s[k].0);
    }
    assert forall|c: CellId| #[trigger] entries_map(q).dom().contains(c) implies entries_map(q)[c]
        == entries_map(p).insert(s[k].0, s[k].1@)[c] by {
        let j = choose|j: int| 0 <= j < q.len() && q[j].0 == c;
        lemma_key_index(q, j);
        if j < k {
            lemma_key_index(p, j);
        }
    }
    assert(entries_map(q) =~= entries_map(p).insert(s[k].0, s[k].1@));
}

impl<V: View> CellMap<V> {
    /// Keys sorted strictly.
    pub closed spec fn wf(&self) -> bool {
        sorted_cells(entry_keys(self.entries@))
    }

    /// The entries in cell order.
    pub closed spec fn entries_view(&self) -> Seq<(CellId, V)> {
        self.entries@
    }

    /// What the entries say: keys sorted, the map is theirs.
    pub proof fn lemma_wf(&self)
        requires
            self.wf(),
        ensures
            sorted_cells(entry_keys(self.entries_view())),
            self@ == entries_map(self.entries_view()),
            forall|i: int|
                0 <= i < self.entries_view().len() ==> #[trigger] self@.dom().contains(
                    self.entries_view()[i].0,
                ) && self@[self.entries_view()[i].0] == self.entries_view()[i].1@,
            forall|c: CellId|
                #[trigger] self@.dom().contains(c) <==> exists|i: int|
                    0 <= i < self.entries_view().len() && self.entries_view()[i].0 == c,
    {
        assert forall|i: int| 0 <= i < self.entries_view().len() implies #[trigger] self@.dom().contains(
            self.entries_view()[i].0,
        ) && self@[self.entries_view()[i].0] == self.entries_view()[i].1@ by {
            lemma_key_index(self.entries@, i);
        }
    }

    /// The empty map.
    pub fn new() -> (r: Self)
        ensures
            r.wf(),
            r@ == Map::<CellId, V::V>::empty(),
            r.entries_view() == Seq::<(CellId, V)>::empty(),
    {
        let r = CellMap { entries: Vec::new() };
        assert(r@ =~= Map::<CellId, V::V>::empty());
        r
    }

    /// The map of the given entries; well-formed where their keys strictly increase.
    pub fn from_entries(entries: Vec<(CellId, V)>) -> (r: Self)
        ensures
            sorted_cells(entry_keys(entries@)) ==> r.wf(),
            r.entries_view() == entries@,
    {
        CellMap { entries }
    }

    /// Number of entries.
    pub fn len(&self) -> (r: usize)
        ensures
            r == self.entries_view().len(),
    {
        self.entries.len()
    }

    /// The entry at a position.
    pub fn entry(&self, i: usize) -> (r: &(CellId, V))
        requires
            i < self.entries_view().len(),
        ensures
            *r == self.entries_view()[i as int],
    {
        &self.entries[i]
    }

    /// All entries in cell order.
    pub fn entries(&self) -> (r: &Vec<(CellId, V)>)
        ensures
            r@ == self.entries_view(),
    {
        &self.entries
    }

    /// The position of a key, if present.
    pub fn find(&self, cell: &CellId) -> (r: Option<usize>)
        requires
            self.wf(),
        ensures
            r matches Some(i) ==> i < self.entries_view().len() && self.entries_view()[i as int].0
                == *cell && self@.dom().contains(*cell) && self@[*cell]
                == self.entries_view()[i as int].1@,
            r is None ==> !self@.dom().contains(*cell),
    {
        let mut i: usize = 0;
        while i < self.entries.len()
            invariant
                i <= self.entries@.len(),
                self.wf(),
                forall|j: int| 0 <= j < i ==> self.entries@[j].0 != *cell,
            decreases self.entries@.len() - i,
        {
            if self.entries[i].0 == *cell {
                proof {
                    lemma_key_index(self.entries@, i as int);
                }
                return Some(i);
            }
            i = i + 1;
        }
        None
    }

    /// The value of a key, if present.
    pub fn get(&self, cell: &CellId) -> (r: Option<&V>)
        requires
            self.wf(),
        ensures
            r matches Some(v) ==> self@.dom().contains(*cell) && self@[*cell] == v@ && exists|i: int|
                0 <= i < self.entries_view().len() && self.entries_view()[i] == (*cell, *v),
            r is None ==> !self@.dom().contains(*cell),
    {
        match self.find(cell) {
            Some(i) => Some(&self.entries[i].1),
            None => None,
        }
    }

    /// Sets the value of a key, adding the key where it is new.
    pub fn insert(&mut self, cell: CellId, value: V)
        requires
            old(self).wf(),
        ensures
            final(self).wf(),
            final(self)@ == old(self)@.insert(cell, value@),
            exists|i: int|
                0 <= i < final(self).entries_view().len() && final(self).entries_view()[i] == (
                cell,
                value,
            ),
            forall|i: int|
                0 <= i < old(self).entries_view().len() && old(self).entries_view()[i].0 != cell
                    ==> exists|j: int|
                    0 <= j < final(self).entries_view().len() && final(self).entries_view()[j]
                        == old(self).entries_view()[i],
            forall|j: int|
                0 <= j < final(self).entries_view().len() && final(self).entries_view()[j].0 != cell
                    ==> exists|i: int|
                    0 <= i < old(self).entries_view().len() && final(self).entries_view()[j]
                        == old(self).entries_view()[i],
    {
        let ghost s = self.entries@;
        let mut i: usize = 0;
        while i < self.entries.len() && cell_less(&self.entries[i].0, &cell)
            invariant
                i <= self.entries@.len(),
                self.entries@ == s,
                sorted_cells(entry_keys(s)),
                forall|j: int| 0 <= j < i ==> cell_lt(#[trigger] s[j].0, cell),
            decreases self.entries@.len() - i,
        {
            i = i + 1;
        }
        proof {
            assert forall|j: int| i <= j < s.len() implies !cell_lt(#[trigger] s[j].0, cell) by {
                if j > i {
                    assert(entry_keys(s)[i as int] == s[i as int].0);
                    assert(entry_keys(s)[j] == s[j].0);
                    assert(cell_lt(s[i as int].0, s[j].0));
                    lemma_cell_order(s[i as int].0, s[j].0, cell);
                    lemma_cell_order(s[j].0, cell, s[i as int].0);
                    lemma_cell_order(cell, s[i as int].0, s[j].0);
                }
            }
        }
        if i < self.entries.len() && self.entries[i].0 == cell {
            self.entries.set(i, (cell, value));
            proof {
                let t = self.entries@;
                assert(entry_keys(t) =~= entry_keys(s));
                assert(self@ =~= old(self)@.insert(cell, value@)) by {
                    assert forall|c: CellId| #[trigger] self@.dom().contains(c) == old(self)@.insert(
                        cell,
                        value@,
                    ).dom().contains(c) by {
                        if exists|j: int| 0 <= j < t.len() && t[j].0 == c {
                            let j = choose|j: int| 0 <= j < t.len() && t[j].0 == c;
                            if j != i {
                                assert(s[j].0 == c);
                            }
                        }
                        if exists|j: int| 0 <= j < s.len() && s[j].0 == c {
                            let j = choose|j: int| 0 <= j < s.len() && s[j].0 == c;
                            assert(t[j].0 == c);
                        }
                    }
                    assert forall|c: CellId| #[trigger] self@.dom().contains(c) implies self@[c] == old(
                        self,
                    )@.insert(cell, value@)[c] by {
                        let j = choose|j: int| 0 <= j < t.len() && t[j].0 == c;
                        lemma_key_index(t, j);
                        if j != i {
                            lemma_key_index(s, j);
                            assert(s[j].0 == c);
                            assert(entry_keys(s)[j] == s[j].0);
                            assert(entry_keys(s)[i as int] == s[i as int].0);
                            lemma_cell_order(c, cell, c);
                            assert(c != cell);
                        }
                    }
                }
                assert(self.entries@[i as int] == (cell, value));
                assert forall|k: int|
                    0 <= k < s.len() && s[k].0 != cell implies exists|j: int|
                    0 <= j < t.len() && t[j] == s[k] by {
                    assert(t[k] == s[k]);
                }
                assert forall|j: int|
                    0 <= j < t.len() && t[j].0 != cell implies exists|k: int|
                    0 <= k < s.len() && t[j] == s[k] by {
                    assert(t[j] == s[j]);
                }
            }
        } else {
            self.entries.insert(i, (cell, value));
            proof {
                let t = self.entries@;
                assert(t == s.insert(i as int, (cell, value)));
                assert forall|a: int, b: int| 0 <= a < b < t.len() implies cell_lt(
                    #[trigger] entry_keys(t)[a],
                    #[trigger] entry_keys(t)[b],
                ) by {
                    assert(entry_keys(t)[a] == t[a].0);
                    assert(entry_keys(t)[b] == t[b].0);
                    if b < i {
                        assert(entry_keys(s)[a] == s[a].0);
                        assert(entry_keys(s)[b] == s[b].0);
                    } else if b == i {
                        assert(t[a] == s[a]);
                    } else if a < i {
                        assert(t[a] == s[a]);
                        assert(t[b] == s[b - 1]);
                        assert(cell_lt(s[a].0, cell));
                        assert(!cell_lt(s[b - 1].0, cell));
                        assert(s[b - 1].0 != cell) by {
                            if b - 1 == i {
                            } else {
                                assert(entry_keys(s)[i as int] == s[i as int].0);
                                assert(entry_keys(s)[b - 1] == s[b - 1].0);
                                assert(cell_lt(s[i as int].0, s[b - 1].0));
                                assert(s[i as int].0 != cell);
                                lemma_cell_order(s[i as int].0, cell, s[b - 1].0);
                                lemma_cell_order(cell, s[i as int].0, s[b - 1].0);
                            }
                        }
                        lemma_cell_order(s[a].0, cell, s[b - 1].0);
                        lemma_cell_order(s[b - 1].0, cell, s[a].0);
                    } else if a == i {
                        assert(t[b] == s[b - 1]);
                        assert(!cell_lt(s[b - 1].0, cell));
                        assert(s[b - 1].0 != cell) by {
                            if b - 1 == i {
                            } else {
                                assert(entry_keys(s)[i as int] == s[i as int].0);
                                assert(entry_keys(s)[b - 1] == s[b - 1].0);
                                assert(cell_lt(s[i as int].0, s[b - 1].0));
                                lemma_cell_order(s[i as int].0, cell, s[b - 1].0);
                                lemma_cell_order(cell, s[i as int].0, s[b - 1].0);
                            }
                        }
                        lemma_cell_order(cell, s[b - 1].0, cell);
                    } else {
                        assert(t[a] == s[a - 1]);
                        assert(t[b] == s[b - 1]);
                        assert(entry_keys(s)[a - 1] == s[a - 1].0);
                        assert(entry_keys(s)[b - 1] == s[b - 1].0);
                    }
                }
                assert(!(exists|j: int| 0 <= j < s.len() && s[j].0 == cell)) by {
                    if exists|j: int| 0 <= j < s.len() && s[j].0 == cell {
                        let j = choose|j: int| 0 <= j < s.len() && s[j].0 == cell;
                        if j < i {
                            lemma_cell_order(cell, cell, cell);
                        } else if j > i {
                            assert(i < s.len());
                            assert(entry_keys(s)[i as int] == s[i as int].0);
                            assert(entry_keys(s)[j] == s[j].0);
                            assert(cell_lt(s[i as int].0, cell));
                        }
                    }
                }
                assert(self@ =~= old(self)@.insert(cell, value@)) by {
                    assert forall|c: CellId| #[trigger] self@.dom().contains(c) == old(self)@.insert(
                        cell,
                        value@,
                    ).dom().contains(c) by {
                        if exists|j: int| 0 <= j < t.len() && t[j].0 == c {
                            let j = choose|j: int| 0 <= j < t.len() && t[j].0 == c;
                            if j < i {
                                assert(s[j].0 == c);
                            } else if j > i {
                                assert(s[j - 1].0 == c);
                            }
                        }
                        if exists|j: int| 0 <= j < s.len() && s[j].0 == c {
                            let j = choose|j: int| 0 <= j < s.len() && s[j].0 == c;
                            if j < i {
                                assert(t[j].0 == c);
                            } else {
                                assert(t[j + 1].0 == c);
                            }
                        }
                        assert(t[i as int].0 == cell);
                    }
                    assert forall|c: CellId| #[trigger] self@.dom().contains(c) implies self@[c] == old(
                        self,
                    )@.insert(cell, value@)[c] by {
                        let j = choose|j: int| 0 <= j < t.len() && t[j].0 == c;
                        lemma_key_index(t, j);
                        if j < i {
                            lemma_key_index(s, j);
                        } else if j > i {
                            lemma_key_index(s, j - 1);
                        }
                    }
                }
                assert(t[i as int] == (cell, value));
                assert forall|k: int|
                    0 <= k < s.len() && s[k].0 != cell implies exists|j: int|
                    0 <= j < t.len() && t[j] == s[k] by {
                    if k < i {
                        assert(t[k] == s[k]);
                    } else {
                        assert(t[k + 1] == s[k]);
                    }
                }
                assert forall|j: int|
                    0 <= j < t.len() && t[j].0 != cell implies exists|k: int|
                    0 <= k < s.len() && t[j] == s[k] by {
                    if j < i {
                        assert(t[j] == s[j]);
                    } else if j > i {
                        assert(t[j] == s[j - 1]);
                    }
                }
            }
        }
    }

    /// Removes a key, if present.
    pub fn remove(&mut self, cell: &CellId)
        requires
            old(self).wf(),
        ensures
            final(self).wf(),
            final(self)@ == old(self)@.remove(*cell),
            forall|j: int|
                0 <= j < final(self).entries_view().len() ==> old(self).entries_view().contains(
                    #[trigger] final(self).entries_view()[j],
                ),
    {
        match self.find(cell) {
            None => {
                assert(self@ =~= old(self)@.remove(*cell));
                assert forall|j: int| 0 <= j < self.entries_view().len() implies old(self).entries_view().contains(
                    #[trigger] self.entries_view()[j]) by {
                    assert(self.entries_view()[j] == old(self).entries_view()[j]);
                }
            },
            Some(i) => {
                let ghost s = self.entries@;
                self.entries.remove(i);
                proof {
                    let t = self.entries@;
                    assert(t == s.remove(i as int));
                    assert forall|a: int, b: int| 0 <= a < b < t.len() implies cell_lt(
                        #[trigger] entry_keys(t)[a],
                        #[trigger] entry_keys(t)[b],
                    ) by {
                        let a2 = if a < i { a } else { a + 1 };
                        let b2 = if b < i { b } else { b + 1 };
                        assert(t[a] == s[a2]);
                        assert(t[b] == s[b2]);
                        assert(entry_keys(s)[a2] == s[a2].0);
                        assert(entry_keys(s)[b2] == s[b2].0);
                    }
                    assert forall|j: int| 0 <= j < self.entries_view().len() implies old(self).entries_view().contains(
                        #[trigger] self.entries_view()[j]) by {
                        if j < i {
                            assert(t[j] == s[j]);
                        } else {
                            assert(t[j] == s[j + 1]);
                        }
                    }
                    assert(self@ =~= old(self)@.remove(*cell)) by {
                        assert forall|c: CellId| #[trigger] self@.dom().contains(c) == old(self)@.remove(
                            *cell,
                        ).dom().contains(c) by {
                            if exists|j: int| 0 <= j < t.len() && t[j].0 == c {
                                let j = choose|j: int| 0 <= j < t.len() && t[j].0 == c;
                                let j2 = if j < i { j } else { j + 1 };
                                assert(s[j2].0 == c);
                                assert(entry_keys(s)[j2] == s[j2].0);
                                assert(entry_keys(s)[i as int] == s[i as int].0);
                                lemma_cell_order(c, *cell, c);
                            }
                            if exists|j: int| 0 <= j < s.len() && s[j].0 == c && c != *cell {
                                let j = choose|j: int| 0 <= j < s.len() && s[j].0 == c && c != *cell;
                                if j < i {
                                    assert(t[j].0 == c);
                                } else {
                                    assert(j != i);
                                    assert(t[j - 1].0 == c);
                                }
                            }
                        }
                        assert forall|c: CellId| #[trigger] self@.dom().contains(c) implies self@[c]
                            == old(self)@[c] by {
                            let j = choose|j: int| 0 <= j < t.len() && t[j].0 == c;
                            let j2 = if j < i { j } else { j + 1 };
                            lemma_key_index(t, j);
                            lemma_key_index(s, j2);
                        }
                    }
                }
            },
        }
    }
}

} // verus!
