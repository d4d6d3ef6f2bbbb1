//! One square block of the grid: a flat array of optional cells that is
//! allocated on the first write and tracks how many of its cells are set.
use crate::index::{slot_coord, ChunkIndex, Index, CHUNK_SIZE};
use vstd::prelude::*;

verus! {

/// Number of cells in a chunk.
pub const CHUNK_CELLS: usize = 256;

/// Number of set cells in `s`.
pub open spec fn occupied<T>(s: Seq<Option<T>>) -> nat
    decreases s.len(),
{
    if s.len() == 0 {
        0
    } else {
        occupied(s.drop_last()) + if s.last() is Some {
            1nat
        } else {
            0nat
        }
    }
}

/// The cells of a chunk that holds nothing.
pub open spec fn empty_slots<T>() -> Seq<Option<T>> {
    Seq::new(CHUNK_CELLS as nat, |i: int| None)
}

/// The first slot at or after `from` that is set, or the length of `s`.
pub open spec fn next_occupied<T>(s: Seq<Option<T>>, from: int) -> int
    decreases s.len() - from,
{
    if from >= s.len() {
        s.len() as int
    } else if s[from] is Some {
        from
    } else {
        next_occupied(s, from + 1)
    }
}

/// Why the recorded parts of a chunk do not make a chunk.
#[derive(PartialEq, Eq, Debug, Clone, Copy, Structural)]
pub enum LayoutError {
    /// The chunk is filed under another index than its own.
    Misfiled,
    /// The chunk lies outside the coordinate range, or its number of slots
    /// is neither none nor one per cell.
    BadLayout,
    /// The recorded count disagrees with the set slots.
    WrongLength,
}

/// A `Chunk` of the `Grid`
pub struct Chunk<T> {
    index: ChunkIndex,
    len: u16,
    inner: Vec<Option<T>>,
}

impl<T> Chunk<T> {
    /// The chunk's cells, slot by slot, row by row; a chunk whose storage is
    /// not allocated reads as all empty.
    pub closed spec fn view(&self) -> Seq<Option<T>> {
        if self.inner.len() == 0 {
            empty_slots()
        } else {
            self.inner@
        }
    }

    /// Whether the chunk's storage is allocated.
    pub closed spec fn allocated(&self) -> bool {
        self.inner.len() != 0
    }

    /// The chunk this is, within the grid.
    pub closed spec fn chunk_spec(&self) -> ChunkIndex {
        self.index
    }

    pub closed spec fn wf(&self) -> bool {
        &&& self.index.in_range()
        &&& self.inner.len() == 0 ==> self.len == 0
        &&& self.inner.len() != 0 ==> self.inner.len() == CHUNK_CELLS && self.len == occupied(
            self.inner@,
        )
    }

    /// Number of set cells.
    pub open spec fn len_spec(&self) -> nat {
        occupied(self@)
    }

    /// The coordinate of the cell at `slot`.
    pub open spec fn cell_coord(&self, slot: int) -> (i32, i32) {
        slot_coord(self.chunk_spec(), slot)
    }

    /// A well-formed chunk has a cell for every slot and lies in range.
    pub proof fn lemma_wf(&self)
        requires
            self.wf(),
        ensures
            self@.len() == CHUNK_CELLS,
            self.chunk_spec().in_range(),
            self.len_spec() <= CHUNK_CELLS,
    {
        lemma_occupied_bound(self@);
    }

    /// An empty chunk at `index`, with no storage allocated.
    pub fn new(index: ChunkIndex) -> (r: Chunk<T>)
        requires
            index.in_range(),
        ensures
            r.wf(),
            r@ == empty_slots::<T>(),
            !r.allocated(),
            r.chunk_spec() == index,
    {
        Chunk { index, len: 0, inner: Vec::new() }
    }

    /// The chunk this is.
    pub fn chunk_index(&self) -> (r: ChunkIndex)
        ensures
            r == self.chunk_spec(),
    {
        self.index
    }

    /// Number of slots of allocated storage: none before the first insert and
    /// after a clear, every slot after an insert.
    pub fn storage_len(&self) -> (r: usize)
        requires
            self.wf(),
        ensures
            r == (if self.allocated() {
                CHUNK_CELLS
            } else {
                0
            }),
    {
        self.inner.len()
    }

    /// Gets the top left index of the chunk
    pub fn top_left(&self) -> (r: (i32, i32))
        requires
            self.wf(),
        ensures
            r == self.chunk_spec().corner().coord(),
            r == self.cell_coord(0),
    {
        proof {
            lemma_corner_bounds(self.index);
        }
        <(i32, i32)>::from(self.index.index())
    }

    /// Gets the bottom right index of the chunk
    pub fn bottom_right(&self) -> (r: (i32, i32))
        requires
            self.wf(),
        ensures
            r.0 == self.chunk_spec().corner().coord().0 + CHUNK_SIZE - 1,
            r.1 == self.chunk_spec().corner().coord().1 + CHUNK_SIZE - 1,
            r == self.cell_coord(CHUNK_CELLS - 1),
    {
        proof {
            lemma_corner_bounds(self.index);
        }
        let p: (i32, i32) = <(i32, i32)>::from(self.index.index());
        (p.0 + (CHUNK_SIZE as i32 - 1), p.1 + (CHUNK_SIZE as i32 - 1))
    }

    /// Get length of the chunk, i.e. how many elements are in the chunk.
    pub fn len(&self) -> (r: usize)
        requires
            self.wf(),
        ensures
            r == self.len_spec(),
    {
        proof {
            lemma_empty_unoccupied::<T>(CHUNK_CELLS as nat);
        }
        self.len as usize
    }

    /// Clear all elements from the chunk
    pub fn clear(&mut self)
        requires
            old(self).wf(),
        ensures
            final(self).wf(),
            final(self)@ == empty_slots::<T>(),
            final(self).len_spec() == 0,
            !final(self).allocated(),
            final(self).chunk_spec() == old(self).chunk_spec(),
    {
        self.len = 0;
        self.inner = Vec::new();
        proof {
            lemma_empty_unoccupied::<T>(CHUNK_CELLS as nat);
        }
    }

    /// Get element in chunk using local position within the chunk
    pub fn get_local(&self, local: usize) -> (r: Option<&Option<T>>)
        requires
            self.wf(),
        ensures
            r is Some <==> self.allocated() && local < CHUNK_CELLS,
            r matches Some(v) ==> *v == self@[local as int],
            r is None && local < CHUNK_CELLS ==> self@[local as int] is None,
    {
        if local < self.inner.len() {
            Some(&self.inner[local])
        } else {
            None
        }
    }

    /// Insert element into local position
    pub fn insert(&mut self, local: usize, t: T)
        requires
            old(self).wf(),
            local < CHUNK_CELLS,
        ensures
            final(self).wf(),
            final(self)@ == old(self)@.update(local as int, Some(t)),
            final(self).allocated(),
            final(self).chunk_spec() == old(self).chunk_spec(),
            final(self).len_spec() == old(self).len_spec() + if old(self)@[local as int] is None {
                1nat
            } else {
                0nat
            },
    {
        if self.inner.len() == 0 {
            let mut slots: Vec<Option<T>> = Vec::new();
            while slots.len() < CHUNK_CELLS
                invariant
                    slots.len() <= CHUNK_CELLS,
                    forall|i: int| 0 <= i < slots.len() ==> slots@[i] is None,
                decreases CHUNK_CELLS - slots.len(),
            {
                slots.push(None);
            }
            proof {
                assert(slots@ =~= empty_slots::<T>());
                lemma_empty_unoccupied::<T>(CHUNK_CELLS as nat);
            }
            self.inner = slots;
            self.len = 0;
        }
        let ghost before = self.inner@;
        proof {
            lemma_occupied_update(before, local as int, Some(t));
            lemma_occupied_bound(before);
        }
        if self.inner[local].is_none() {
            self.len = self.len + 1;
        }
        self.inner.set(local, Some(t));
    }

    /// Get element in chunk using local position within the `chunk`
    pub fn get_local_mut(&mut self, local: usize) -> (r: Option<&mut T>)
        requires
            old(self).wf(),
        ensures
            r is Some <==> local < CHUNK_CELLS && old(self)@[local as int] is Some,
            r is Some ==> *r.unwrap() == old(self)@[local as int]->0 && final(self)@ == old(
                self,
            )@.update(local as int, Some(*final(r.unwrap()))),
            r is None ==> final(self)@ == old(self)@,
            final(self).wf(),
            final(self).allocated() == old(self).allocated(),
            final(self).chunk_spec() == old(self).chunk_spec(),
            final(self).len_spec() == old(self).len_spec(),
    {
        if local >= self.inner.len() {
            return None;
        }
        let ghost before = self.inner@;
        if self.inner[local].is_none() {
            return None;
        }
        proof {
            lemma_occupied_overwrite(before, local as int);
        }
        let m = &mut self.inner[local];
        m.as_mut()
    }

    /// A chunk at `index` with the given slots, as storage holds them: no
    /// slots for a chunk that was never written, else one per cell. `None`
    /// when `index` is no chunk of the coordinate range or the number of
    /// slots is neither.
    pub fn from_slots(index: ChunkIndex, slots: Vec<Option<T>>) -> (r: Option<Chunk<T>>)
        ensures
            r is Some <==> index.in_range() && (slots@.len() == 0 || slots@.len() == CHUNK_CELLS),
            r matches Some(ch) ==> ch.wf() && ch.chunk_spec() == index && ch@ == (if slots@.len()
                == 0 {
                empty_slots::<T>()
            } else {
                slots@
            }),
    {
        if index.x > 0x0fff_ffff || index.y > 0x0fff_ffff {
            return None;
        }
        if slots.len() != 0 && slots.len() != CHUNK_CELLS {
            return None;
        }
        let mut len: u16 = 0;
        let mut i: usize = 0;
        while i < slots.len()
            invariant
                slots@.len() == 0 || slots@.len() == CHUNK_CELLS,
                i <= slots@.len(),
                len == occupied(slots@.take(i as int)),
                len <= i,
            decreases slots@.len() - i,
        {
            proof {
                assert(slots@.take(i as int + 1).drop_last() =~= slots@.take(i as int));
            }
            if slots[i].is_some() {
                len = len + 1;
            }
            i = i + 1;
        }
        proof {
            assert(slots@.take(i as int) =~= slots@);
        }
        Some(Chunk { index, len, inner: slots })
    }

    /// A chunk from the parts that storage records for it: the index it is
    /// filed under, its own index, its count of set cells, and its slots.
    /// The parts must agree: the chunk filed under its own index, the
    /// layout as `from_slots` takes it, and the count that of the set slots.
    pub fn from_parts(key: ChunkIndex, index: ChunkIndex, len: u16, slots: Vec<Option<T>>) -> (r:
        Result<Chunk<T>, LayoutError>)
        ensures
            r is Ok <==> key == index && index.in_range() && (slots@.len() == 0 || slots@.len()
                == CHUNK_CELLS) && len == occupied(slots@),
            r == Err::<Chunk<T>, LayoutError>(LayoutError::Misfiled) <==> key != index,
            r == Err::<Chunk<T>, LayoutError>(LayoutError::BadLayout) <==> key == index && !(
            index.in_range() && (slots@.len() == 0 || slots@.len() == CHUNK_CELLS)),
            r == Err::<Chunk<T>, LayoutError>(LayoutError::WrongLength) <==> key == index
                && index.in_range() && (slots@.len() == 0 || slots@.len() == CHUNK_CELLS) && len
                != occupied(slots@),
            r matches Ok(ch) ==> ch.wf() && ch.chunk_spec() == index && ch.len_spec() == len && ch@
                == (if slots@.len() == 0 {
                empty_slots::<T>()
            } else {
                slots@
            }),
    {
        if key.x != index.x || key.y != index.y {
            return Err(LayoutError::Misfiled);
        }
        let ghost v = slots@;
        match Chunk::from_slots(index, slots) {
            None => Err(LayoutError::BadLayout),
            Some(ch) => {
                proof {
                    lemma_empty_unoccupied::<T>(CHUNK_CELLS as nat);
                    assert(Seq::new(CHUNK_CELLS as nat, |i: int| None::<T>) == empty_slots::<T>());
                    assert(v.len() == 0 ==> occupied(v) == 0);
                }
                if ch.len() == len as usize {
                    Ok(ch)
                } else {
                    Err(LayoutError::WrongLength)
                }
            },
        }
    }

    /// The chunk's slots as storage holds them, borrowed: none for a chunk
    /// that holds no storage, else one per cell.
    pub fn slots(&self) -> (r: &[Option<T>])
        requires
            self.wf(),
        ensures
            r@.len() == 0 || r@.len() == CHUNK_CELLS,
            r@.len() == 0 <==> !self.allocated(),
            r@.len() == 0 ==> self@ == empty_slots::<T>(),
            r@.len() != 0 ==> r@ == self@,
    {
        self.inner.as_slice()
    }

    /// The chunk's slots as storage holds them: none for a chunk that holds
    /// no storage, else one per cell.
    pub fn into_slots(self) -> (r: Vec<Option<T>>)
        requires
            self.wf(),
        ensures
            r@.len() == 0 || r@.len() == CHUNK_CELLS,
            r@.len() == 0 <==> !self.allocated(),
            r@.len() == 0 ==> self@ == empty_slots::<T>(),
            r@.len() != 0 ==> r@ == self@,
    {
        self.inner
    }

    /// A cursor over the set cells of this chunk, from the first slot on.
    pub fn iter(&self) -> (r: ChunkIter<'_, T>)
        requires
            self.wf(),
        ensures
            r.wf(),
            r.source() == *self,
            r.position() == 0,
    {
        ChunkIter { chunk: self, index: 0, top_left: self.top_left() }
    }

    /// A cursor over the set cells of this chunk, from the first slot on,
    /// that hands out each cell for writing.
    pub fn iter_mut(&self) -> (r: ChunkIterMut)
        ensures
            r.position() == 0,
    {
        ChunkIterMut { index: 0 }
    }
}

impl<T> Default for Chunk<T> {
    /// An empty chunk at the chunk of the origin.
    fn default() -> (r: Chunk<T>)
        ensures
            r.wf(),
            r@ == empty_slots::<T>(),
            !r.allocated(),
            r.chunk_spec() == Index::of((0, 0)).chunk_spec(),
    {
        let origin: Index = Index::from((0i32, 0i32));
        Chunk::new(origin.chunk_index())
    }
}

/// Walks the set cells of a chunk in slot order.
pub struct ChunkIter<'a, T> {
    chunk: &'a Chunk<T>,
    index: usize,
    top_left: (i32, i32),
}

impl<'a, T> ChunkIter<'a, T> {
    /// The next slot that the cursor looks at.
    pub closed spec fn position(&self) -> int {
        self.index as int
    }

    /// The chunk that the cursor walks.
    pub closed spec fn source(&self) -> Chunk<T> {
        *self.chunk
    }

    pub closed spec fn wf(&self) -> bool {
        &&& self.chunk.wf()
        &&& self.index <= CHUNK_CELLS
        &&& self.top_left == self.chunk.cell_coord(0)
    }

    /// A cursor at the first slot has every set cell of its chunk still to
    /// hand out, so a walk to the end yields as many cells as the chunk's
    /// length.
    pub proof fn lemma_walk_yields_len(&self)
        requires
            self.wf(),
            self.position() == 0,
        ensures
            self.remaining() == self.source().len_spec(),
    {
        self.chunk.lemma_wf();
        assert(self.source()@.subrange(0, CHUNK_CELLS as int) =~= self.source()@);
    }

    /// Number of set cells that the cursor has still to hand out.
    pub open spec fn remaining(&self) -> nat {
        occupied(self.source()@.subrange(self.position(), CHUNK_CELLS as int))
    }

    /// The next set cell with its coordinate, or `None` once every set cell
    /// has been handed out.
    pub fn next(&mut self) -> (r: Option<((i32, i32), &'a T)>)
        requires
            old(self).wf(),
        ensures
            final(self).wf(),
            final(self).source() == old(self).source(),
            ({
                let s = old(self).source()@;
                let j = next_occupied(s, old(self).position());
                &&& r is Some <==> j < CHUNK_CELLS
                &&& r matches Some(p) ==> p.0 == old(self).source().cell_coord(j) && Some(*p.1)
                    == s[j] && final(self).position() == j + 1
                &&& r is None ==> final(self).position() == CHUNK_CELLS
            }),
            r is Some ==> final(self).remaining() + 1 == old(self).remaining(),
            r is None ==> old(self).remaining() == 0,
    {
        let chunk: &'a Chunk<T> = self.chunk;
        let ghost s = chunk@;
        let ghost from = self.index as int;
        proof {
            lemma_next_occupied(s, from);
            lemma_corner_bounds(chunk.index);
        }
        let top_left = self.top_left;
        let mut i: usize = self.index;
        while i < chunk.inner.len() && chunk.inner[i].is_none()
            invariant
                chunk.wf(),
                s == chunk@,
                from <= i <= CHUNK_CELLS,
                forall|k: int| from <= k < i ==> s[k] is None,
            decreases CHUNK_CELLS - i,
        {
            i = i + 1;
        }
        if i < chunk.inner.len() {
            let x: i32 = top_left.0 + (i % CHUNK_SIZE) as i32;
            let y: i32 = top_left.1 + (i / CHUNK_SIZE) as i32;
            self.index = i + 1;
            proof {
                lemma_next_occupied(s, i as int + 1);
            }
            match &chunk.inner[i] {
                Some(cell) => Some(((x, y), cell)),
                None => None,
            }
        } else {
            self.index = CHUNK_CELLS;
            proof {
                lemma_next_occupied(s, CHUNK_CELLS as int);
            }
            None
        }
    }
}

/// Walks the set cells of a chunk in slot order and hands each out for
/// writing; the chunk is passed to each step.
pub struct ChunkIterMut {
    index: usize,
}

impl ChunkIterMut {
    /// The next slot that the cursor looks at.
    pub closed spec fn position(&self) -> int {
        self.index as int
    }

    /// A cursor's position is never negative.
    pub proof fn lemma_position(&self)
        ensures
            0 <= self.position(),
    {
    }

    /// The next set cell of `chunk` with its coordinate, for writing, or
    /// `None` once every set cell has been handed out.
    pub fn next<'b, T>(&mut self, chunk: &'b mut Chunk<T>) -> (r: Option<((i32, i32), &'b mut T)>)
        requires
            old(chunk).wf(),
            old(self).position() <= CHUNK_CELLS,
        ensures
            final(chunk).wf(),
            final(chunk).chunk_spec() == old(chunk).chunk_spec(),
            final(chunk).len_spec() == old(chunk).len_spec(),
            final(self).position() <= CHUNK_CELLS,
            ({
                let s = old(chunk)@;
                let j = next_occupied(s, old(self).position());
                &&& r is Some <==> j < CHUNK_CELLS
                &&& r is Some ==> r.unwrap().0 == old(chunk).cell_coord(j) && Some(*r.unwrap().1)
                    == s[j] && final(self).position() == j + 1 && final(chunk)@ == s.update(
                    j,
                    Some(*final(r.unwrap().1)),
                )
                &&& r is None ==> final(self).position() == CHUNK_CELLS && *final(chunk) == *old(chunk)
            }),
    {
        let ghost s = chunk@;
        let ghost from = self.index as int;
        proof {
            lemma_next_occupied(s, from);
            lemma_corner_bounds(chunk.index);
        }
        let top_left = chunk.top_left();
        let mut i: usize = self.index;
        while i < chunk.inner.len() && chunk.inner[i].is_none()
            invariant
                chunk.wf(),
                s == chunk@,
                from <= i <= CHUNK_CELLS,
                forall|k: int| from <= k < i ==> s[k] is None,
            decreases CHUNK_CELLS - i,
        {
            i = i + 1;
        }
        if i < chunk.inner.len() {
            let x: i32 = top_left.0 + (i % CHUNK_SIZE) as i32;
            let y: i32 = top_left.1 + (i / CHUNK_SIZE) as i32;
            self.index = i + 1;
            proof {
                lemma_next_occupied(s, i as int + 1);
                lemma_occupied_overwrite(s, i as int);
            }
            let m = &mut chunk.inner[i];
            match m.as_mut() {
                Some(v) => Some(((x, y), v)),
                None => None,
            }
        } else {
            self.index = CHUNK_CELLS;
            proof {
                lemma_next_occupied(s, CHUNK_CELLS as int);
            }
            None
        }
    }
}

/// A set cell counts once in a sequence: at its head or in the rest.
pub proof fn lemma_occupied_head<T>(s: Seq<Option<T>>)
    requires
        s.len() > 0,
    ensures
        occupied(s) == occupied(s.subrange(1, s.len() as int)) + if s[0] is Some {
            1nat
        } else {
            0nat
        },
    decreases s.len(),
{
    if s.len() > 1 {
        assert(s.drop_last().subrange(1, s.len() - 1) =~= s.subrange(1, s.len() as int).drop_last());
        lemma_occupied_head(s.drop_last());
    } else {
        assert(s.drop_last() =~= Seq::<Option<T>>::empty());
        assert(s.subrange(1, 1) =~= Seq::<Option<T>>::empty());
    }
}

/// The first set slot at or after `from`, if any, is set and lies in `s`.
pub proof fn lemma_next_occupied_in<T>(s: Seq<Option<T>>, from: int)
    requires
        0 <= from <= s.len(),
    ensures
        from <= next_occupied(s, from) <= s.len(),
        next_occupied(s, from) < s.len() ==> s[next_occupied(s, from)] is Some,
{
    lemma_next_occupied(s, from);
}

proof fn lemma_next_occupied<T>(s: Seq<Option<T>>, from: int)
    requires
        0 <= from <= s.len(),
    ensures
        from <= next_occupied(s, from) <= s.len(),
        forall|k: int| from <= k < next_occupied(s, from) ==> s[k] is None,
        next_occupied(s, from) < s.len() ==> s[next_occupied(s, from)] is Some,
        occupied(s.subrange(from, s.len() as int)) == if next_occupied(s, from) < s.len() {
            1 + occupied(s.subrange(next_occupied(s, from) + 1, s.len() as int))
        } else {
            0
        },
    decreases s.len() - from,
{
    let rest = s.subrange(from, s.len() as int);
    if from == s.len() {
        assert(rest =~= Seq::<Option<T>>::empty());
    } else {
        lemma_occupied_head(rest);
        assert(rest.subrange(1, rest.len() as int) =~= s.subrange(from + 1, s.len() as int));
        if s[from] is None {
            lemma_next_occupied(s, from + 1);
        }
    }
}

proof fn lemma_corner_bounds(ci: ChunkIndex)
    requires
        ci.in_range(),
    ensures
        ci.corner().x == ci.x * 16,
        ci.corner().y == ci.y * 16,
        ci.corner().x + 15 <= u32::MAX,
        ci.corner().y + 15 <= u32::MAX,
        slot_coord(ci, 0) == ci.corner().coord(),
        slot_coord(ci, 255) == ((ci.corner().coord().0 + 15) as i32, (ci.corner().coord().1
            + 15) as i32),
{
    assert(ci.x * 16 <= u32::MAX);
    assert(ci.y * 16 <= u32::MAX);
    assert(ci.x * 16 + 15 <= u32::MAX) by (nonlinear_arith)
        requires
            ci.x * 16 <= u32::MAX,
    ;
    assert(ci.y * 16 + 15 <= u32::MAX) by (nonlinear_arith)
        requires
            ci.y * 16 <= u32::MAX,
    ;
}

pub proof fn lemma_empty_unoccupied<T>(n: nat)
    ensures
        occupied(Seq::new(n, |i: int| None::<T>)) == 0,
    decreases n,
{
    if n > 0 {
        assert(Seq::new(n, |i: int| None::<T>).drop_last() =~= Seq::new(
            (n - 1) as nat,
            |i: int| None::<T>,
        ));
        lemma_empty_unoccupied::<T>((n - 1) as nat);
    }
}

/// Writing a set value over a set slot keeps the count.
proof fn lemma_occupied_overwrite<T>(s: Seq<Option<T>>, i: int)
    requires
        0 <= i < s.len(),
        s[i] is Some,
    ensures
        forall|x: T| #[trigger] occupied(s.update(i, Some(x))) == occupied(s),
{
    assert forall|x: T| #[trigger] occupied(s.update(i, Some(x))) == occupied(s) by {
        lemma_occupied_update(s, i, Some(x));
    }
}

pub proof fn lemma_occupied_bound<T>(s: Seq<Option<T>>)
    ensures
        occupied(s) <= s.len(),
    decreases s.len(),
{
    if s.len() > 0 {
        lemma_occupied_bound(s.drop_last());
    }
}

pub proof fn lemma_occupied_update<T>(s: Seq<Option<T>>, i: int, v: Option<T>)
    requires
        0 <= i < s.len(),
    ensures
        occupied(s.update(i, v)) + (if s[i] is Some {
            1nat
        } else {
            0nat
        }) == occupied(s) + (if v is Some {
            1nat
        } else {
            0nat
        }),
    decreases s.len(),
{
    if i < s.len() - 1 {
        assert(s.update(i, v).drop_last() =~= s.drop_last().update(i, v));
        lemma_occupied_update(s.drop_last(), i, v);
    } else {
        assert(s.update(i, v).drop_last() =~= s.drop_last());
    }
}

} // verus!
