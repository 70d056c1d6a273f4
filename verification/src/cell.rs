//! Cells of a Plonkish circuit: a column kind, a column index and a row.
use vstd::prelude::*;

verus! {

/// The kind of a Halo2 column.
#[derive(Clone, Copy, Debug, PartialEq, Eq, Structural, Hash, PartialOrd, Ord)]
pub enum CellKind {
    /// Witness cell, whose uniqueness has to be proved.
    Advice,
    /// Public input cell, unique from the start.
    Instance,
    /// Fixed column cell, part of the circuit, unique from the start.
    Fixed,
}

/// One concrete cell: kind, column and row.
#[derive(Clone, Copy, Debug, PartialEq, Eq, Structural, Hash, PartialOrd, Ord)]
pub struct CellId {
    pub kind: CellKind,
    pub column: usize,
    pub row: i32,
}

/// Position of a kind in the order Advice < Instance < Fixed.
pub open spec fn kind_rank(kind: CellKind) -> int {
    match kind {
        CellKind::Advice => 0,
        CellKind::Instance => 1,
        CellKind::Fixed => 2,
    }
}

/// The order of cells: by kind, then column, then row (the order `derive(Ord)` gives).
pub open spec fn cell_lt(a: CellId, b: CellId) -> bool {
    ||| kind_rank(a.kind) < kind_rank(b.kind)
    ||| kind_rank(a.kind) == kind_rank(b.kind) && a.column < b.column
    ||| kind_rank(a.kind) == kind_rank(b.kind) && a.column == b.column && a.row < b.row
}

/// `cell_lt` is a strict total order.
pub proof fn lemma_cell_order(a: CellId, b: CellId, c: CellId)
    ensures
        !cell_lt(a, a),
        cell_lt(a, b) && cell_lt(b, c) ==> cell_lt(a, c),
        a != b ==> (cell_lt(a, b) || cell_lt(b, a)),
        cell_lt(a, b) ==> !cell_lt(b, a),
{
}

/// Whether `a` comes before `b` in the cell order.
pub fn cell_less(a: &CellId, b: &CellId) -> (r: bool)
    ensures
        r == cell_lt(*a, *b),
{
    let ka: u8 = match a.kind {
        CellKind::Advice => 0,
        CellKind::Instance => 1,
        CellKind::Fixed => 2,
    };
    let kb: u8 = match b.kind {
        CellKind::Advice => 0,
        CellKind::Instance => 1,
        CellKind::Fixed => 2,
    };
    if ka != kb {
        ka < kb
    } else if a.column != b.column {
        a.column < b.column
    } else {
        a.row < b.row
    }
}

impl CellId {
    /// An advice cell.
    pub fn advice(column: usize, row: i32) -> (r: Self)
        ensures
            r == (CellId { kind: CellKind::Advice, column, row }),
    {
        Self { kind: CellKind::Advice, column, row }
    }

    /// An instance cell.
    pub fn instance(column: usize, row: i32) -> (r: Self)
        ensures
            r == (CellId { kind: CellKind::Instance, column, row }),
    {
        Self { kind: CellKind::Instance, column, row }
    }

    /// A fixed cell.
    pub fn fixed(column: usize, row: i32) -> (r: Self)
        ensures
            r == (CellId { kind: CellKind::Fixed, column, row }),
    {
        Self { kind: CellKind::Fixed, column, row }
    }

    /// Whether this is an advice cell.
    pub fn is_advice(&self) -> (r: bool)
        ensures
            r == (self.kind == CellKind::Advice),
    {
        match self.kind {
            CellKind::Advice => true,
            _ => false,
        }
    }
}

/// The decimal digits of a natural number, as ASCII bytes.
pub open spec fn decimal_bytes(n: nat) -> Seq<u8>
    decreases n,
{
    if n < 10 {
        seq![(48 + n) as u8]
    } else {
        decimal_bytes(n / 10).push((48 + n % 10) as u8)
    }
}

/// An integer in decimal, with a leading `-` when negative, as ASCII bytes.
pub open spec fn signed_decimal_bytes(n: int) -> Seq<u8> {
    if n < 0 {
        seq![45u8] + decimal_bytes((-n) as nat)
    } else {
        decimal_bytes(n as nat)
    }
}

/// The letter of a kind: `A`, `I` or `F`.
pub open spec fn kind_letter(kind: CellKind) -> u8 {
    match kind {
        CellKind::Advice => 65,
        CellKind::Instance => 73,
        CellKind::Fixed => 70,
    }
}

/// The name of a cell as ASCII bytes: its kind's letter, its column and its row, joined by
/// `-`, as in `A-0-3`.
pub open spec fn cell_name_bytes(c: CellId) -> Seq<u8> {
    seq![kind_letter(c.kind), 45u8] + signed_decimal_bytes(c.column as int) + seq![45u8] + signed_decimal_bytes(
        c.row as int,
    )
}

/// The characters of ASCII bytes.
pub open spec fn ascii_chars(b: Seq<u8>) -> Seq<char> {
    b.map_values(|x: u8| x as char)
}

/// Appends the decimal digits of a number.
fn push_decimal(n: u64, out: &mut Vec<u8>)
    ensures
        final(out)@ == old(out)@ + decimal_bytes(n as nat),
    decreases n,
{
    if n >= 10 {
        push_decimal(n / 10, out);
    }
    let d: u8 = (n % 10) as u8;
    out.push(48 + d);
    proof {
        assert(decimal_bytes(n as nat) == (if n < 10 {
            seq![(48 + n) as u8]
        } else {
            decimal_bytes((n / 10) as nat).push((48 + n % 10) as u8)
        }));
    }
}

/// `String::from_utf8`: ASCII bytes always form a string, of the same characters.
#[verifier::external_body]
fn ascii_string(bytes: Vec<u8>) -> (r: Option<String>)
    requires
        forall|i: int| 0 <= i < bytes@.len() ==> bytes@[i] < 128,
    ensures
        r is Some,
        r matches Some(s) ==> s@ == ascii_chars(bytes@),
{
    String::from_utf8(bytes).ok()
}

proof fn lemma_decimal_ascii(n: nat)
    ensures
        forall|i: int| 0 <= i < decimal_bytes(n).len() ==> 48 <= #[trigger] decimal_bytes(n)[i] <= 57,
    decreases n,
{
    if n >= 10 {
        lemma_decimal_ascii(n / 10);
        let pre = decimal_bytes(n / 10);
        assert(decimal_bytes(n) == pre.push((48 + n % 10) as u8));
        assert forall|i: int| 0 <= i < decimal_bytes(n).len() implies 48 <= #[trigger] decimal_bytes(n)[i] <= 57 by {
            if i < pre.len() {
                assert(decimal_bytes(n)[i] == pre[i]);
            }
        }
    }
}

impl CellId {
    /// The cell's name, such as `A-0-3`.
    pub fn name(&self) -> (r: String)
        ensures
            r@ == ascii_chars(cell_name_bytes(*self)),
    {
        let mut bytes: Vec<u8> = Vec::new();
        let letter: u8 = match self.kind {
            CellKind::Advice => 65,
            CellKind::Instance => 73,
            CellKind::Fixed => 70,
        };
        bytes.push(letter);
        bytes.push(45);
        push_decimal(self.column as u64, &mut bytes);
        bytes.push(45);
        if self.row < 0 {
            bytes.push(45);
            let magnitude: u64 = (-(self.row as i64)) as u64;
            push_decimal(magnitude, &mut bytes);
        } else {
            push_decimal(self.row as u64, &mut bytes);
        }
        proof {
            lemma_decimal_ascii(self.column as nat);
            if self.row < 0 {
                lemma_decimal_ascii((-self.row) as nat);
            } else {
                lemma_decimal_ascii(self.row as nat);
            }
            assert(bytes@ =~= cell_name_bytes(*self));
            assert forall|i: int| 0 <= i < bytes@.len() implies bytes@[i] < 128 by {
                let c = signed_decimal_bytes(self.column as int);
                let rw = signed_decimal_bytes(self.row as int);
                if i >= 2 && i < 2 + c.len() {
                    assert(bytes@[i] == c[i - 2]);
                } else if i >= 3 + c.len() {
                    assert(bytes@[i] == rw[i - 3 - c.len()]);
                    if self.row < 0 && i > 3 + c.len() {
                        assert(rw[i - 3 - c.len()] == decimal_bytes((-self.row) as nat)[i - 4 - c.len()]);
                    }
                }
            }
        }
        match ascii_string(bytes) {
            Some(text) => text,
            None => String::new(),
        }
    }
}

} // verus!
