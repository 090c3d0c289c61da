use vstd::prelude::*;

verus! {

/// Byte memory addressed by a signed cursor.
///
/// `cell(i)` is the byte held at index `i` (zero where never written), and
/// `addressable(i)` says whether this realization can reach index `i`.
pub trait Data {
    spec fn cell(&self, i: int) -> u8;

    spec fn addressable(&self, i: int) -> bool;

    /// Whether `index` can be reached; the run loop stops with an error
    /// rather than touch a cell that cannot.
    fn in_bounds(&self, index: i32) -> (r: bool)
        ensures
            r == self.addressable(index as int),
    ;

    /// A writable handle to the cell at `index`; every other cell keeps its
    /// value.
    fn get(&mut self, index: i32) -> (r: &mut u8)
        requires
            old(self).addressable(index as int),
        ensures
            *r == old(self).cell(index as int),
            forall|j: int| #[trigger]
                final(self).cell(j) == if j == index as int {
                    *final(r)
                } else {
                    old(self).cell(j)
                },
            forall|j: int| #[trigger]
                final(self).addressable(j) == old(self).addressable(j),
    ;
}

/// How many cells a tape half grows by when an index runs past its end.
pub const RESIZABLE_DATA_EXTEND_SIZE: usize = 1024;

/// A tape unbounded in both directions: one growable half for indices from 0
/// up, one for -1 down (index -1 at position 0 of `neg`).
pub struct ResizableData {
    pos: Vec<u8>,
    neg: Vec<u8>,
}

/// A tape half that must hold position `k`: as it was if it does, else grown
/// by zeros to `k + RESIZABLE_DATA_EXTEND_SIZE` cells.
pub open spec fn grown(half: Seq<u8>, k: int) -> Seq<u8> {
    if k < half.len() {
        half
    } else {
        half + Seq::new((k + RESIZABLE_DATA_EXTEND_SIZE - half.len()) as nat, |j: int| 0u8)
    }
}

/// Position in the negative half of tape index `i < 0`.
pub open spec fn neg_slot(i: int) -> int {
    -i - 1
}

impl ResizableData {
    /// Storage of indices 0, 1, 2, ...
    pub closed spec fn positive_half(&self) -> Seq<u8> {
        self.pos@
    }

    /// Storage of indices -1, -2, -3, ... (see `neg_slot`).
    pub closed spec fn negative_half(&self) -> Seq<u8> {
        self.neg@
    }

    pub fn new() -> (r: Self)
        ensures
            forall|i: int| #[trigger] r.cell(i) == 0,
            forall|i: int| #[trigger] r.addressable(i),
            r.positive_half().len() == 0,
            r.negative_half().len() == 0,
    {
        ResizableData { pos: Vec::new(), neg: Vec::new() }
    }
}

impl Default for ResizableData {
    fn default() -> (r: Self)
        ensures
            forall|i: int| #[trigger] r.cell(i) == 0,
            forall|i: int| #[trigger] r.addressable(i),
            r.positive_half().len() == 0,
            r.negative_half().len() == 0,
    {
        Self::new()
    }
}

impl Data for ResizableData {
    closed spec fn cell(&self, i: int) -> u8 {
        if i >= 0 {
            if i < self.pos@.len() { self.pos@[i] } else { 0 }
        } else {
            if neg_slot(i) < self.neg@.len() { self.neg@[neg_slot(i)] } else { 0 }
        }
    }

    closed spec fn addressable(&self, i: int) -> bool {
        true
    }

    fn in_bounds(&self, index: i32) -> (r: bool) {
        true
    }

    fn get(&mut self, index: i32) -> (r: &mut u8)
        ensures
            index >= 0 ==> {
                &&& final(self).negative_half() == old(self).negative_half()
                &&& final(self).positive_half() == grown(old(self).positive_half(), index as int).update(
                    index as int,
                    *final(r),
                )
            },
            index < 0 ==> {
                &&& final(self).positive_half() == old(self).positive_half()
                &&& final(self).negative_half() == grown(
                    old(self).negative_half(),
                    neg_slot(index as int),
                ).update(neg_slot(index as int), *final(r))
            },
    {
        if index >= 0 {
            let k = index as usize;
            if k >= self.pos.len() {
                let ghost p0 = self.pos@;
                self.pos.resize(k + RESIZABLE_DATA_EXTEND_SIZE, 0);
                proof {
                    assert forall|j: int| p0.len() <= j < self.pos@.len() implies self.pos@[j] == 0u8 by {
                        assert(vstd::pervasive::cloned::<u8>(0u8, self.pos@[j]));
                    }
                    assert(self.pos@ =~= grown(p0, k as int));
                }
            }
            &mut self.pos[k]
        } else {
            let k = (-(index as i64) - 1) as usize;
            if k >= self.neg.len() {
                let ghost n0 = self.neg@;
                self.neg.resize(k + RESIZABLE_DATA_EXTEND_SIZE, 0);
                proof {
                    assert forall|j: int| n0.len() <= j < self.neg@.len() implies self.neg@[j] == 0u8 by {
                        assert(vstd::pervasive::cloned::<u8>(0u8, self.neg@[j]));
                    }
                    assert(self.neg@ =~= grown(n0, k as int));
                }
            }
            &mut self.neg[k]
        }
    }
}

/// Number of cells of an `ArrayData`.
pub const ARRAY_DATA_SIZE: usize = 10000;

/// A fixed tape of `ARRAY_DATA_SIZE` cells, reachable at indices
/// `0 .. ARRAY_DATA_SIZE`; every access is bounds-checked.
pub struct ArrayData {
    cells: Vec<u8>,
}

impl ArrayData {
    pub fn new() -> (r: Self)
        ensures
            forall|i: int| #[trigger] r.cell(i) == 0,
            forall|i: int| #[trigger] r.addressable(i) <==> 0 <= i < ARRAY_DATA_SIZE,
    {
        ArrayData { cells: vec![0u8; ARRAY_DATA_SIZE] }
    }
}

impl Default for ArrayData {
    fn default() -> (r: Self)
        ensures
            forall|i: int| #[trigger] r.cell(i) == 0,
            forall|i: int| #[trigger] r.addressable(i) <==> 0 <= i < ARRAY_DATA_SIZE,
    {
        Self::new()
    }
}

impl Data for ArrayData {
    closed spec fn cell(&self, i: int) -> u8 {
        if 0 <= i < self.cells@.len() { self.cells@[i] } else { 0 }
    }

    closed spec fn addressable(&self, i: int) -> bool {
        0 <= i < self.cells@.len()
    }

    fn in_bounds(&self, index: i32) -> (r: bool) {
        index >= 0 && (index as usize) < self.cells.len()
    }

    fn get(&mut self, index: i32) -> (r: &mut u8) {
        &mut self.cells[index as usize]
    }
}

} // verus!
