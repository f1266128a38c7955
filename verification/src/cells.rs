//! The sparse cell map: from zero-based `(row, column)` to the text of a
//! cell.  Cells without text have no entry.

use std::collections::HashMap;
use vstd::prelude::*;

verus! {

broadcast use vstd::std_specs::hash::group_hash_axioms;

/// The number under which the cell at `(row, col)` is kept.
pub open spec fn cell_key(row: u32, col: u32) -> u64 {
    (row as u64 * 0x1_0000_0000 + col as u64) as u64
}

/// What a table keyed by `cell_key` holds, keyed by `(row, column)`.
pub open spec fn cells_of_table(table: Map<u64, String>) -> Map<(u32, u32), Seq<char>> {
    Map::new(
        |k: (u32, u32)| table.contains_key(cell_key(k.0, k.1)),
        |k: (u32, u32)| table[cell_key(k.0, k.1)]@,
    )
}

/// A sparse map from `(row, column)` to the text of the cell there.
#[derive(Debug)]
pub struct CellMap {
    cells: HashMap<u64, String>,
    order: Vec<(u32, u32)>,
}

impl View for CellMap {
    type V = Map<(u32, u32), Seq<char>>;

    closed spec fn view(&self) -> Map<(u32, u32), Seq<char>> {
        cells_of_table(self.cells@)
    }
}

/// The cells with `value` at `(row, col)`; an empty text changes nothing.
pub open spec fn with_cell(
    cells: Map<(u32, u32), Seq<char>>,
    row: u32,
    col: u32,
    value: Seq<char>,
) -> Map<(u32, u32), Seq<char>> {
    if value.len() == 0 {
        cells
    } else {
        cells.insert((row, col), value)
    }
}

impl CellMap {
    /// No cell holds an empty text, and the places of the cells are kept in
    /// the order in which they were first filled.
    pub closed spec fn wf(&self) -> bool {
        &&& forall|k: u64| self.cells@.contains_key(k) ==> (#[trigger] self.cells@[k])@.len() > 0
        &&& forall|i: int|
            0 <= i < self.order@.len() ==> self.cells@.contains_key(
                cell_key((#[trigger] self.order@[i]).0, self.order@[i].1),
            )
        &&& forall|r: u32, c: u32|
            self.cells@.contains_key(#[trigger] cell_key(r, c)) ==> self.order@.contains((r, c))
        &&& forall|i: int, j: int|
            0 <= i < j < self.order@.len() ==> self.order@[i] != self.order@[j]
    }

    /// The places of the cells, in the order in which they were first filled.
    pub closed spec fn filled(&self) -> Seq<(u32, u32)> {
        self.order@
    }

    /// The places that are kept are those of the cells, each once.
    pub proof fn lemma_filled(&self)
        requires
            self.wf(),
        ensures
            forall|k: (u32, u32)| self@.contains_key(k) <==> self.filled().contains(k),
            forall|i: int, j: int|
                0 <= i < j < self.filled().len() ==> self.filled()[i] != self.filled()[j],
    {
        assert forall|k: (u32, u32)| self.filled().contains(k) implies self@.contains_key(k) by {
            let i = choose|i: int| 0 <= i < self.order@.len() && self.order@[i] == k;
            assert(self.cells@.contains_key(cell_key(self.order@[i].0, self.order@[i].1)));
        }
    }

    /// In a well-formed map every entry is a text that is not empty.
    pub proof fn lemma_no_empty_cell(&self, row: u32, col: u32)
        requires
            self.wf(),
            self@.contains_key((row, col)),
        ensures
            self@[(row, col)].len() > 0,
    {
    }

    /// A map without cells.
    pub fn new() -> (m: Self)
        ensures
            m.wf(),
            m@ == Map::<(u32, u32), Seq<char>>::empty(),
    {
        let m = CellMap { cells: HashMap::new(), order: Vec::new() };
        assert(m@ =~= Map::<(u32, u32), Seq<char>>::empty());
        m
    }

    /// Sets the text of the cell at `(row, col)`.  An empty text is not kept.
    pub fn insert(&mut self, row: u32, col: u32, value: String)
        requires
            old(self).wf(),
        ensures
            final(self).wf(),
            final(self)@ == with_cell(old(self)@, row, col, value@),
    {
        if value.as_str().is_empty() {
            return;
        }
        let key: u64 = (row as u64) * 0x1_0000_0000 + (col as u64);
        assert forall|k: (u32, u32)| cell_key(k.0, k.1) == key implies k == (row, col) by {}
        if !self.cells.contains_key(&key) {
            self.order.push((row, col));
            assert(self.order@.last() == (row, col));
            assert forall|i: int| 0 <= i < old(self).order@.len() implies self.order@[i] != (
                row,
                col,
            ) by {
                assert(self.order@[i] == old(self).order@[i]);
            }
            assert forall|k: (u32, u32)| old(self).order@.contains(k) implies self.order@.contains(
                k,
            ) by {
                let i = choose|i: int| 0 <= i < old(self).order@.len() && old(self).order@[i] == k;
                assert(self.order@[i] == k);
            }
        } else {
            assert(self.cells@.contains_key(cell_key(row, col)));
            assert(self.order@.contains((row, col)));
        }
        self.cells.insert(key, value);
        assert(self@ =~= old(self)@.insert((row, col), value@));
        assert forall|r: u32, c: u32| self.cells@.contains_key(
            #[trigger] cell_key(r, c),
        ) implies self.order@.contains((r, c)) by {
            if (r, c) != (row, col) {
                assert(old(self).cells@.contains_key(cell_key(r, c)));
                assert(old(self).order@.contains((r, c)));
            }
        }
    }

    /// The places of the cells, in the order in which they were first filled.
    pub fn positions(&self) -> (r: &Vec<(u32, u32)>)
        ensures
            r@ == self.filled(),
    {
        &self.order
    }

    /// The text of the cell at `(row, col)`.
    pub fn get(&self, row: u32, col: u32) -> (r: Option<&String>)
        ensures
            match r {
                Some(value) => self@.contains_key((row, col)) && self@[(row, col)] == value@,
                None => !self@.contains_key((row, col)),
            },
    {
        let key: u64 = (row as u64) * 0x1_0000_0000 + (col as u64);
        self.cells.get(&key)
    }

    /// Whether the cell at `(row, col)` has a text.
    pub fn contains(&self, row: u32, col: u32) -> (r: bool)
        ensures
            r == self@.contains_key((row, col)),
    {
        let key: u64 = (row as u64) * 0x1_0000_0000 + (col as u64);
        self.cells.contains_key(&key)
    }
}

} // verus!
