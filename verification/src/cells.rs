use std::collections::HashMap;
use std::collections::HashSet;
use vstd::prelude::*;
use vstd::std_specs::iter::IteratorSpec;

verus! {

/// A world cell: column and row.
pub type Cell = (i32, i32);

/// The key under which a cell is stored: both coordinates shifted to be
/// non-negative, the column in the upper half.
pub open spec fn key_of(c: Cell) -> u64 {
    ((c.0 + 0x8000_0000) * 0x1_0000_0000 + (c.1 + 0x8000_0000)) as u64
}

/// The cell that a key stands for.
pub open spec fn cell_of(k: u64) -> Cell {
    ((k / 0x1_0000_0000 - 0x8000_0000) as i32, (k % 0x1_0000_0000 - 0x8000_0000) as i32)
}

/// Keys and cells correspond one to one.
pub proof fn lemma_key_cell(c: Cell, k: u64)
    ensures
        cell_of(key_of(c)) == c,
        key_of(cell_of(k)) == k,
{
}

/// Two cells with one key are one cell.
pub proof fn lemma_key_injective(a: Cell, b: Cell)
    ensures
        key_of(a) == key_of(b) <==> a == b,
{
    lemma_key_cell(a, 0);
    lemma_key_cell(b, 0);
}

/// The key of a cell.
pub fn pack(p: Cell) -> (k: u64)
    ensures
        k == key_of(p),
{
    let x: u64 = (p.0 as i64 + 0x8000_0000) as u64;
    let y: u64 = (p.1 as i64 + 0x8000_0000) as u64;
    x * 0x1_0000_0000 + y
}

/// The cell of a key.
pub fn unpack(k: u64) -> (p: Cell)
    ensures
        p == cell_of(k),
{
    let x: i64 = (k / 0x1_0000_0000) as i64 - 0x8000_0000;
    let y: i64 = (k % 0x1_0000_0000) as i64 - 0x8000_0000;
    (x as i32, y as i32)
}

/// A finite set of cells.
pub struct CellSet {
    keys: HashSet<u64>,
}

impl View for CellSet {
    type V = Set<Cell>;

    closed spec fn view(&self) -> Set<Cell> {
        Set::new(|c: Cell| self.keys@.contains(key_of(c)))
    }
}

impl CellSet {
    /// The empty set.
    pub fn new() -> (s: CellSet)
        ensures
            s@ == Set::<Cell>::empty(),
    {
        let s = CellSet { keys: HashSet::new() };
        assert(s@ =~= Set::<Cell>::empty());
        s
    }

    /// Adds a cell; tells whether it was new.
    pub fn insert(&mut self, p: Cell) -> (fresh: bool)
        ensures
            final(self)@ == old(self)@.insert(p),
            fresh == !old(self)@.contains(p),
    {
        broadcast use vstd::std_specs::hash::group_hash_axioms;

        let fresh = self.keys.insert(pack(p));
        proof {
            assert forall|c: Cell| #[trigger] self@.contains(c) == old(self)@.insert(p).contains(c) by {
                lemma_key_injective(c, p);
            }
            assert(self@ =~= old(self)@.insert(p));
        }
        fresh
    }

    /// Whether the set holds a cell.
    pub fn contains(&self, p: Cell) -> (found: bool)
        ensures
            found == self@.contains(p),
    {
        broadcast use vstd::std_specs::hash::group_hash_axioms;

        let k = pack(p);
        self.keys.contains(&k)
    }
}

/// A finite map from cells to values.
pub struct CellMap<V> {
    slots: HashMap<u64, V>,
}

impl<V> View for CellMap<V> {
    type V = Map<Cell, V>;

    closed spec fn view(&self) -> Map<Cell, V> {
        Map::new(|c: Cell| self.slots@.contains_key(key_of(c)), |c: Cell| self.slots@[key_of(c)])
    }
}

impl<V> CellMap<V> {
    /// The empty map.
    pub fn new() -> (m: CellMap<V>)
        ensures
            m@ == Map::<Cell, V>::empty(),
    {
        let m = CellMap { slots: HashMap::new() };
        assert(m@ =~= Map::<Cell, V>::empty());
        m
    }

    /// Only finitely many cells hold a value.
    pub proof fn lemma_finite(&self)
        ensures
            self@.dom().finite(),
    {
        broadcast use vstd::std_specs::hash::group_hash_axioms;

        let keys = self.slots@.dom();
        let cells = keys.map(|k: u64| cell_of(k));
        keys.lemma_map_finite(|k: u64| cell_of(k));
        assert forall|c: Cell| self@.dom().contains(c) implies cells.contains(c) by {
            lemma_key_cell(c, 0);
            assert(keys.contains(key_of(c)));
        }
        vstd::set_lib::lemma_len_subset(self@.dom(), cells);
    }

    /// Puts a value at a cell, in place of what the cell held.
    pub fn insert(&mut self, p: Cell, v: V)
        ensures
            final(self)@ == old(self)@.insert(p, v),
    {
        broadcast use vstd::std_specs::hash::group_hash_axioms;

        let _ = self.slots.insert(pack(p), v);
        proof {
            assert forall|c: Cell|
                #[trigger] self@.dom().contains(c) == old(self)@.insert(p, v).dom().contains(c)
                && (self@.dom().contains(c) ==> self@[c] == old(self)@.insert(p, v)[c]) by {
                lemma_key_injective(c, p);
            }
            assert(self@ =~= old(self)@.insert(p, v));
        }
    }

    /// Takes away what a cell holds, and hands it back.
    pub fn remove(&mut self, p: Cell) -> (gone: Option<V>)
        ensures
            final(self)@ == old(self)@.remove(p),
            gone == if old(self)@.contains_key(p) {
                Some(old(self)@[p])
            } else {
                None
            },
    {
        broadcast use vstd::std_specs::hash::group_hash_axioms;

        let k = pack(p);
        let gone = self.slots.remove(&k);
        proof {
            assert forall|c: Cell|
                #[trigger] self@.dom().contains(c) == old(self)@.remove(p).dom().contains(c)
                && (self@.dom().contains(c) ==> self@[c] == old(self)@.remove(p)[c]) by {
                lemma_key_injective(c, p);
            }
            assert(self@ =~= old(self)@.remove(p));
        }
        gone
    }

    /// What a cell holds.
    pub fn get(&self, p: Cell) -> (held: Option<&V>)
        ensures
            held == if self@.contains_key(p) {
                Some(&self@[p])
            } else {
                None
            },
    {
        broadcast use vstd::std_specs::hash::group_hash_axioms;

        let k = pack(p);
        self.slots.get(&k)
    }

    /// Whether a cell holds a value.
    pub fn contains_key(&self, p: Cell) -> (found: bool)
        ensures
            found == self@.contains_key(p),
    {
        broadcast use vstd::std_specs::hash::group_hash_axioms;

        let k = pack(p);
        self.slots.contains_key(&k)
    }

    /// Every cell that holds a value, each once, in no particular order.
    pub fn cells(&self) -> (out: Vec<Cell>)
        ensures
            out@.no_duplicates(),
            out@.to_set() == self@.dom(),
    {
        broadcast use vstd::std_specs::hash::group_hash_axioms;

        let mut out: Vec<Cell> = Vec::new();
        let ghost walk = vstd::std_specs::hash::spec_keys_iter(&self.slots).remaining();
        proof {
            vstd::std_specs::hash::axiom_spec_keys_iter(&self.slots);
        }
        for k in it: self.slots.keys()
            invariant
                it.seq() == walk,
                out@.len() == it.index(),
                forall|i: int| 0 <= i < out@.len() ==> #[trigger] out@[i] == cell_of(*walk[i]),
        {
            out.push(unpack(*k));
        }
        proof {
            assert forall|i: int, j: int| 0 <= i < out@.len() && 0 <= j < out@.len() && i != j implies out@[i] != out@[j] by {
                assert(walk[i] != walk[j]);
                lemma_key_cell((0, 0), *walk[i]);
                lemma_key_cell((0, 0), *walk[j]);
            }
            assert forall|c: Cell| out@.to_set().contains(c) == self@.dom().contains(c) by {
                if self@.dom().contains(c) {
                    assert(walk.unref().to_set().contains(key_of(c)));
                    let i = choose|i: int| 0 <= i < walk.len() && walk.unref()[i] == key_of(c);
                    lemma_key_cell(c, 0);
                    assert(out@[i] == c);
                }
                if out@.to_set().contains(c) {
                    let i = choose|i: int| 0 <= i < out@.len() && out@[i] == c;
                    lemma_key_cell(c, *walk[i]);
                    assert(walk.unref()[i] == *walk[i]);
                    assert(walk.unref().to_set().contains(*walk[i]));
                }
            }
            assert(out@.to_set() =~= self@.dom());
        }
        out
    }
}

} // verus!
