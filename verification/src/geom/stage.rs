//! The format rows are staged in: numbers and byte strings, one after the other, without names.
use vstd::prelude::*;

use crate::geom::bytes::{
    append, le, lemma_le_len, lemma_number_inside, lemma_spans, number_at, put, slice, take,
};

verus! {

/// One staged value.
#[derive(Debug)]
pub enum Cell {
    /// Eight bytes.
    Word(u64),
    /// Four bytes.
    Half(u32),
    /// A length of eight bytes and that many bytes.
    Blob(Vec<u8>),
    /// A mark, and eight bytes where it is set.
    Maybe(Option<u64>),
}

/// A staged value.
pub enum CellV {
    Word(u64),
    Half(u32),
    Blob(Seq<u8>),
    Maybe(Option<u64>),
}

/// What kind of value is staged.
#[derive(Debug, Clone, Copy)]
pub enum Kind {
    Word,
    Half,
    Blob,
    Maybe,
}

impl Cell {
    pub open spec fn view(&self) -> CellV {
        match *self {
            Cell::Word(n) => CellV::Word(n),
            Cell::Half(n) => CellV::Half(n),
            Cell::Blob(b) => CellV::Blob(b@),
            Cell::Maybe(n) => CellV::Maybe(n),
        }
    }
}

/// The values of a list.
pub open spec fn cells(v: Seq<Cell>) -> Seq<CellV> {
    v.map_values(|c: Cell| c@)
}

/// The kind of a value.
pub open spec fn kind_of(c: CellV) -> Kind {
    match c {
        CellV::Word(_) => Kind::Word,
        CellV::Half(_) => Kind::Half,
        CellV::Blob(_) => Kind::Blob,
        CellV::Maybe(_) => Kind::Maybe,
    }
}

/// The kinds of values.
pub open spec fn kinds_of(v: Seq<CellV>) -> Seq<Kind> {
    v.map_values(|c: CellV| kind_of(c))
}

/// The bytes of one value.
pub open spec fn cell_bytes(c: CellV) -> Seq<u8> {
    match c {
        CellV::Word(n) => le(n as nat, 8),
        CellV::Half(n) => le(n as nat, 4),
        CellV::Blob(b) => le(b.len(), 8) + b,
        CellV::Maybe(Some(n)) => seq![1u8] + le(n as nat, 8),
        CellV::Maybe(None) => seq![0u8],
    }
}

/// The bytes of values, one after the other.
pub open spec fn staged(v: Seq<CellV>) -> Seq<u8>
    decreases v.len(),
{
    if v.len() == 0 {
        Seq::empty()
    } else {
        cell_bytes(v[0]) + staged(v.skip(1))
    }
}

/// The value of a kind that bytes from `at` on hold, and where the next one starts; nothing where
/// the bytes end before.
pub open spec fn cell_at(bytes: Seq<u8>, at: int, kind: Kind) -> Option<(CellV, int)> {
    let left = bytes.len() - at;
    match kind {
        Kind::Word => if left < 8 {
            None
        } else {
            Some((CellV::Word(number_at(bytes, at, 8) as u64), at + 8))
        },
        Kind::Half => if left < 4 {
            None
        } else {
            Some((CellV::Half(number_at(bytes, at, 4) as u32), at + 4))
        },
        Kind::Blob => {
            let n = number_at(bytes, at, 8);
            if left < 8 || left - 8 < n {
                None
            } else {
                Some((CellV::Blob(bytes.subrange(at + 8, at + 8 + n)), at + 8 + n))
            }
        },
        Kind::Maybe => if left < 1 {
            None
        } else if bytes[at] == 0 {
            Some((CellV::Maybe(None), at + 1))
        } else if left < 9 {
            None
        } else {
            Some((CellV::Maybe(Some(number_at(bytes, at + 1, 8) as u64)), at + 9))
        },
    }
}

/// The values of the given kinds that bytes from `at` on hold, and where they end.
pub open spec fn cells_at(bytes: Seq<u8>, at: int, kinds: Seq<Kind>) -> Option<(Seq<CellV>, int)>
    decreases kinds.len(),
{
    if kinds.len() == 0 {
        Some((Seq::empty(), at))
    } else {
        match cell_at(bytes, at, kinds[0]) {
            None => None,
            Some((c, next)) => match cells_at(bytes, next, kinds.skip(1)) {
                None => None,
                Some((rest, end)) => Some((seq![c] + rest, end)),
            },
        }
    }
}

/// A list is short enough for the machine to hold.
pub open spec fn holdable(c: CellV) -> bool {
    c matches CellV::Blob(b) ==> b.len() <= u64::MAX
}

proof fn lemma_cell_inside(before: Seq<u8>, c: CellV, after: Seq<u8>)
    requires
        holdable(c),
    ensures
        cell_at(before + cell_bytes(c) + after, before.len() as int, kind_of(c)) == Some(
            (c, (before.len() + cell_bytes(c).len()) as int),
        ),
{
    let all = before + cell_bytes(c) + after;
    lemma_spans();
    match c {
        CellV::Word(n) => {
            lemma_le_len(n as nat, 8);
            lemma_number_inside(before, n as nat, 8, after);
        },
        CellV::Half(n) => {
            lemma_le_len(n as nat, 4);
            lemma_number_inside(before, n as nat, 4, after);
        },
        CellV::Blob(b) => {
            lemma_le_len(b.len(), 8);
            assert(before + le(b.len(), 8) + (b + after) =~= all);
            lemma_number_inside(before, b.len(), 8, b + after);
            let at = before.len() + 8;
            assert(all.subrange(at as int, at + b.len() as int) =~= b);
        },
        CellV::Maybe(Some(n)) => {
            lemma_le_len(n as nat, 8);
            assert((before + seq![1u8]) + le(n as nat, 8) + after =~= all);
            lemma_number_inside(before + seq![1u8], n as nat, 8, after);
        },
        CellV::Maybe(None) => {},
    }
}

/// Staged values are read back as they were written, whatever stands around them.
pub proof fn staged_values_are_read(before: Seq<u8>, v: Seq<CellV>, after: Seq<u8>)
    requires
        forall|i: int| 0 <= i < v.len() ==> holdable(#[trigger] v[i]),
    ensures
        cells_at(before + staged(v) + after, before.len() as int, kinds_of(v)) == Some(
            (v, (before.len() + staged(v).len()) as int),
        ),
    decreases v.len(),
{
    let all = before + staged(v) + after;
    if v.len() == 0 {
        assert(v =~= Seq::empty());
    } else {
        let first = cell_bytes(v[0]);
        let rest = staged(v.skip(1));
        assert(before + first + (rest + after) =~= all);
        lemma_cell_inside(before, v[0], rest + after);
        assert((before + first) + rest + after =~= all);
        staged_values_are_read(before + first, v.skip(1), after);
        assert(kinds_of(v).skip(1) =~= kinds_of(v.skip(1)));
        assert(kinds_of(v)[0] == kind_of(v[0]));
        assert(seq![v[0]] + v.skip(1) =~= v);
    }
}

fn put_cell(buf: &mut Vec<u8>, c: &Cell)
    ensures
        final(buf)@ == old(buf)@ + cell_bytes(c@),
{
    let ghost before = buf@;
    match c {
        Cell::Word(n) => put(buf, *n, 8),
        Cell::Half(n) => put(buf, *n as u64, 4),
        Cell::Blob(b) => {
            put(buf, b.len() as u64, 8);
            append(buf, b);
        },
        Cell::Maybe(Some(n)) => {
            buf.push(1);
            put(buf, *n, 8);
        },
        Cell::Maybe(None) => buf.push(0),
    }
    assert(buf@ =~= before + cell_bytes(c@));
}

proof fn lemma_staged_push(v: Seq<CellV>, c: CellV)
    ensures
        staged(v.push(c)) == staged(v) + cell_bytes(c),
    decreases v.len(),
{
    if v.len() == 0 {
        reveal_with_fuel(staged, 2);
        assert(v.push(c).skip(1) =~= Seq::<CellV>::empty());
        assert(staged(v.push(c)) =~= staged(v) + cell_bytes(c));
    } else {
        lemma_staged_push(v.skip(1), c);
        assert(v.push(c).skip(1) =~= v.skip(1).push(c));
        assert(staged(v.push(c)) =~= staged(v) + cell_bytes(c));
    }
}

/// Appends values.
pub fn put_cells(buf: &mut Vec<u8>, v: &Vec<Cell>)
    ensures
        final(buf)@ == old(buf)@ + staged(cells(v@)),
{
    let ghost before = buf@;
    let ghost all = cells(v@);
    let mut i: usize = 0;
    assert(staged(all.take(0)) =~= Seq::<u8>::empty());
    while i < v.len()
        invariant
            i <= v@.len(),
            all == cells(v@),
            buf@ =~= before + staged(all.take(i as int)),
        decreases v.len() - i,
    {
        put_cell(buf, &v[i]);
        proof {
            assert(all[i as int] == v@[i as int]@);
            lemma_staged_push(all.take(i as int), all[i as int]);
            assert(all.take(i as int).push(all[i as int]) =~= all.take(i + 1));
        }
        i = i + 1;
    }
    assert(all.take(i as int) =~= all);
}

/// What `cell_at` says, of values as they are held.
pub open spec fn holds_cell(r: Option<(Cell, usize)>, expected: Option<(CellV, int)>) -> bool {
    match (r, expected) {
        (Some(a), Some(b)) => a.0@ == b.0 && a.1 == b.1,
        (None, None) => true,
        _ => false,
    }
}

fn take_cell(bytes: &Vec<u8>, at: usize, kind: Kind) -> (r: Option<(Cell, usize)>)
    requires
        at <= bytes@.len(),
    ensures
        holds_cell(r, cell_at(bytes@, at as int, kind)),
        r matches Some(p) ==> p.1 <= bytes@.len(),
{
    let left: usize = bytes.len() - at;
    proof {
        lemma_spans();
    }
    match kind {
        Kind::Word => {
            if left < 8 {
                return None;
            }
            Some((Cell::Word(take(bytes, at, 8)), at + 8))
        },
        Kind::Half => {
            if left < 4 {
                return None;
            }
            Some((Cell::Half(take(bytes, at, 4) as u32), at + 4))
        },
        Kind::Blob => {
            if left < 8 {
                return None;
            }
            let n: u64 = take(bytes, at, 8);
            if ((left - 8) as u64) < n {
                return None;
            }
            let end: usize = at + 8 + n as usize;
            Some((Cell::Blob(slice(bytes, at + 8, end)), end))
        },
        Kind::Maybe => {
            if left < 1 {
                return None;
            }
            if bytes[at] == 0 {
                return Some((Cell::Maybe(None), at + 1));
            }
            if left < 9 {
                return None;
            }
            Some((Cell::Maybe(Some(take(bytes, at + 1, 8))), at + 9))
        },
    }
}

/// What `cells_at` says, of values as they are held.
pub open spec fn holds_cells(
    r: Option<(Vec<Cell>, usize)>,
    expected: Option<(Seq<CellV>, int)>,
) -> bool {
    match (r, expected) {
        (Some(a), Some(b)) => cells(a.0@) == b.0 && a.1 == b.1,
        (None, None) => true,
        _ => false,
    }
}

/// Reads values of the given kinds.
pub fn take_cells(bytes: &Vec<u8>, at: usize, kinds: &Vec<Kind>) -> (r: Option<(Vec<Cell>, usize)>)
    requires
        at <= bytes@.len(),
    ensures
        holds_cells(r, cells_at(bytes@, at as int, kinds@)),
        r matches Some(p) ==> p.1 <= bytes@.len(),
{
    let mut out: Vec<Cell> = Vec::new();
    let mut pos: usize = at;
    let mut i: usize = 0;
    let ghost whole = cells_at(bytes@, at as int, kinds@);
    proof {
        assert(kinds@.skip(0) =~= kinds@);
        if let Some((rest, end)) = whole {
            assert(cells(out@) + rest =~= rest);
        }
    }
    while i < kinds.len()
        invariant
            i <= kinds@.len(),
            pos <= bytes@.len(),
            whole == cells_at(bytes@, at as int, kinds@),
            match cells_at(bytes@, pos as int, kinds@.skip(i as int)) {
                Some((rest, end)) => whole == Some((cells(out@) + rest, end)),
                None => whole is None,
            },
        decreases kinds.len() - i,
    {
        proof {
            assert(kinds@.skip(i as int)[0] == kinds@[i as int]);
            assert(kinds@.skip(i as int).skip(1) =~= kinds@.skip(i + 1));
        }
        match take_cell(bytes, pos, kinds[i]) {
            None => {
                return None;
            },
            Some((c, next)) => {
                let ghost before = cells(out@);
                let ghost value = c@;
                out.push(c);
                proof {
                    assert(cells(out@) =~= before.push(value));
                    if let Some((rest, end)) = cells_at(bytes@, next as int, kinds@.skip(i + 1)) {
                        assert(before + (seq![value] + rest) =~= before.push(value) + rest);
                    }
                }
                pos = next;
            },
        }
        i = i + 1;
    }
    proof {
        assert(cells(out@) + Seq::<CellV>::empty() =~= cells(out@));
    }
    Some((out, pos))
}

} // verus!
