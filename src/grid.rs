//! The grid: chunks filed by their chunk key, with point access and
//! insertion routed through the coordinate index.
use crate::chunk::{
    lemma_empty_unoccupied, lemma_next_occupied_in, lemma_occupied_update, next_occupied, occupied, Chunk,
    ChunkIterMut, CHUNK_CELLS,
};
use crate::index::{
    lemma_chunk_in_range, lemma_chunk_slot_determine, lemma_key_injective, lemma_slot_coord, slot_coord,
    Index,
};
use std::collections::HashMap;
use vstd::prelude::*;

verus! {

broadcast use vstd::std_specs::hash::group_hash_axioms;

/// Total of the set cells of `s`.
pub open spec fn sum_lens<T>(s: Seq<Chunk<T>>) -> nat
    decreases s.len(),
{
    if s.len() == 0 {
        0
    } else {
        sum_lens(s.drop_last()) + s.last().len_spec()
    }
}

/// An endless 2D grid of type `T` implemented using chunks
pub struct Grid<T> {
    slots: HashMap<u64, usize>,
    chunks: Vec<Chunk<T>>,
}

impl<T> Grid<T> {
    /// What the chunks of this grid hold at coordinate `c`.
    pub closed spec fn at(&self, c: (i32, i32)) -> Option<T> {
        let i = Index::of(c);
        let k = i.chunk_spec().key_spec();
        if self.slots@.contains_key(k) {
            self.chunks@[self.slots@[k] as int]@[i.local_spec() as int]
        } else {
            None
        }
    }

    /// The cells of the grid: each coordinate that holds a value, with it.
    pub closed spec fn view(&self) -> Map<(i32, i32), T> {
        Map::new(|c: (i32, i32)| self.at(c) is Some, |c: (i32, i32)| self.at(c)->0)
    }

    /// The chunks of the grid, in the order in which they were created.
    pub closed spec fn chunk_seq(&self) -> Seq<Chunk<T>> {
        self.chunks@
    }

    pub closed spec fn wf(&self) -> bool {
        &&& self.inv()
        &&& self.chunks.len() <= self@.dom().len()
        &&& forall|i: int| 0 <= i < self.chunks.len() ==> #[trigger] self.chunks@[i].len_spec() > 0
    }

    /// The invariant of the grid, but for the bound on the number of chunks
    /// that holds between operations.
    closed spec fn inv(&self) -> bool {
        &&& forall|k: u64| #[trigger]
            self.slots@.contains_key(k) ==> self.slots@[k] < self.chunks.len()
                && self.chunks@[self.slots@[k] as int].chunk_spec().key_spec() == k
        &&& forall|i: int|
            0 <= i < self.chunks.len() ==> #[trigger] self.slots@.contains_key(
                self.chunks@[i].chunk_spec().key_spec(),
            ) && self.slots@[self.chunks@[i].chunk_spec().key_spec()] == i
        &&& forall|i: int| 0 <= i < self.chunks.len() ==> (#[trigger] self.chunks@[i]).wf()
        &&& self@.dom().finite()
        &&& sum_lens(self.chunks@) == self@.dom().len()
        &&& self@.dom().len() <= usize::MAX
    }

    /// An empty grid.
    pub fn new() -> (r: Grid<T>)
        ensures
            r.wf(),
            r@ == Map::<(i32, i32), T>::empty(),
    {
        let r = Grid { slots: HashMap::new(), chunks: Vec::new() };
        assert(r@ =~= Map::<(i32, i32), T>::empty());
        r
    }

    /// Gets length of the grid, aka. how many cells there are
    pub fn len(&self) -> (r: usize)
        requires
            self.wf(),
        ensures
            r == self@.dom().len(),
            self@.dom().finite(),
    {
        let mut total: usize = 0;
        let mut i: usize = 0;
        proof {
            lemma_sum_prefix_bound(self.chunks@, 0);
        }
        while i < self.chunks.len()
            invariant
                self.wf(),
                i <= self.chunks.len(),
                total == sum_lens(self.chunks@.take(i as int)),
            decreases self.chunks.len() - i,
        {
            proof {
                lemma_sum_prefix_bound(self.chunks@, i as int + 1);
                assert(self.chunks@.take(i as int + 1).drop_last() =~= self.chunks@.take(i as int));
            }
            total = total + self.chunks[i].len();
            i = i + 1;
        }
        assert(self.chunks@.take(i as int) =~= self.chunks@);
        total
    }

    /// Gets a immutable reference to `T`
    pub fn get(&self, index: (i32, i32)) -> (r: Option<&T>)
        requires
            self.wf(),
        ensures
            r is Some <==> self@.contains_key(index),
            r matches Some(v) ==> *v == self@[index],
    {
        let ghost c = index;
        let index: Index = Index::from(index);
        let key = index.chunk_index().key();
        match self.slots.get(&key) {
            None => {
                assert(self.at(c) is None);
                assert(!self@.contains_key(c));
                None
            },
            Some(pos) => {
                let chunk = &self.chunks[*pos];
                proof {
                    chunk.lemma_wf();
                }
                assert(self.at(c) == chunk@[index.local_spec() as int]);
                match chunk.get_local(index.local_index()) {
                    Some(cell) => cell.as_ref(),
                    None => None,
                }
            },
        }
    }

    /// Gets an mutable reference to `T`
    pub fn get_mut(&mut self, index: (i32, i32)) -> (r: Option<&mut T>)
        requires
            old(self).wf(),
        ensures
            r is Some <==> old(self)@.contains_key(index),
            r is Some ==> *r.unwrap() == old(self)@[index],
            r is Some ==> final(self)@ == old(self)@.insert(index, *final(r.unwrap())),
            r is None ==> *final(self) == *old(self),
            final(self).wf(),
            final(self).chunk_seq().len() == old(self).chunk_seq().len(),
            forall|j: int|
                0 <= j < old(self).chunk_seq().len() && old(self).chunk_seq()[j].chunk_spec()
                    != Index::of(index).chunk_spec() ==> final(self).chunk_seq()[j] == old(
                    self,
                ).chunk_seq()[j],
            forall|j: int|
                0 <= j < old(self).chunk_seq().len() ==> (#[trigger] final(self).chunk_seq()[j]).chunk_spec()
                    == old(self).chunk_seq()[j].chunk_spec(),
    {
        let c = index;
        let index: Index = Index::from(index);
        let key = index.chunk_index().key();
        let local = index.local_index();
        let pos: usize = match self.slots.get(&key) {
            None => {
                return None;
            },
            Some(pos) => *pos,
        };
        proof {
            self.chunks@[pos as int].lemma_wf();
        }
        match self.chunks[pos].get_local(local) {
            Some(cell) => {
                if cell.is_none() {
                    return None;
                }
            },
            None => {
                return None;
            },
        }
        proof {
            lemma_write_any(*self, c, pos as int);
            assert(self.at(c) == self.chunks@[pos as int]@[local as int]);
        }
        let chunk = &mut self.chunks[pos];
        let ghost fin = *final(chunk);
        let r = chunk.get_local_mut(local);
        proof {
            assert(r is Some ==> fin@[local as int] == Some(*final(r.unwrap())));
            assert(after_borrow(self.chunks)@[pos as int] == fin);
            assert(r is Some ==> after_borrow(*self).wf());
        }
        r
    }

    /// Insert `T`
    pub fn insert(&mut self, index: (i32, i32), t: T)
        requires
            old(self).wf(),
            old(self)@.contains_key(index) || old(self)@.dom().len() < usize::MAX,
        ensures
            final(self).wf(),
            final(self)@ == old(self)@.insert(index, t),
            final(self)@.dom().finite(),
            ({
                let ci = Index::of(index).chunk_spec();
                let present = exists|i: int|
                    0 <= i < old(self).chunk_seq().len() && (#[trigger] old(self).chunk_seq()[i]).chunk_spec()
                        == ci;
                &&& present ==> final(self).chunk_seq().len() == old(self).chunk_seq().len()
                &&& !present ==> final(self).chunk_seq().len() == old(self).chunk_seq().len() + 1
                    && final(self).chunk_seq().last().chunk_spec() == ci
            }),
            forall|j: int|
                0 <= j < old(self).chunk_seq().len() ==> (#[trigger] final(self).chunk_seq()[j]).chunk_spec()
                    == old(self).chunk_seq()[j].chunk_spec(),
            forall|j: int|
                0 <= j < old(self).chunk_seq().len() && old(self).chunk_seq()[j].chunk_spec()
                    != Index::of(index).chunk_spec() ==> final(self).chunk_seq()[j] == old(
                    self,
                ).chunk_seq()[j],
    {
        let c = index;
        let index: Index = Index::from(index);
        let chunk_index = index.chunk_index();
        let key = chunk_index.key();
        let local = index.local_index();
        let pos: usize = match self.slots.get(&key) {
            Some(pos) => *pos,
            None => {
                let pos = self.chunks.len();
                proof {
                    lemma_chunk_in_range(index);
                }
                let ghost before = *self;
                assert(!self@.contains_key(c));
                self.chunks.push(Chunk::new(chunk_index));
                self.slots.insert(key, pos);
                proof {
                    assert(self.chunks@.drop_last() =~= before.chunks@);
                    lemma_push_empty(before, *self);
                }
                pos
            },
        };
        let ghost before = *self;
        proof {
            self.chunks@[pos as int].lemma_wf();
        }
        let chunk = &mut self.chunks[pos];
        chunk.insert(local, t);
        proof {
            lemma_write(before, *self, c, pos as int);
        }
    }

    /// The chunks of the grid, in the order in which they were created;
    /// together they hold every cell of the grid and nothing else, and
    /// their counts of set cells add up to the grid's length.
    pub fn chunks(&self) -> (r: &[Chunk<T>])
        requires
            self.wf(),
        ensures
            r@ == self.chunk_seq(),
            sum_lens(r@) == self@.dom().len(),
            forall|i: int| 0 <= i < r@.len() ==> #[trigger] r@[i].len_spec() > 0,
            forall|i: int| 0 <= i < r@.len() ==> (#[trigger] r@[i]).wf(),
            forall|i: int, j: int|
                0 <= i < r@.len() && 0 <= j < r@.len() && i != j ==> (#[trigger] r@[i]).chunk_spec()
                    != (#[trigger] r@[j]).chunk_spec(),
            forall|i: int, s: int|
                0 <= i < r@.len() && 0 <= s < CHUNK_CELLS && (#[trigger] r@[i]@[s]) is Some ==> {
                    &&& self@.contains_key(r@[i].cell_coord(s))
                    &&& self@[r@[i].cell_coord(s)] == r@[i]@[s]->0
                },
            forall|c: (i32, i32)| #[trigger]
                self@.contains_key(c) ==> exists|i: int|
                    0 <= i < r@.len() && (#[trigger] r@[i]).chunk_spec() == Index::of(c).chunk_spec()
                        && r@[i]@[Index::of(c).local_spec() as int] == Some(self@[c]),
    {
        proof {
            self.lemma_chunks_cover();
        }
        self.chunks.as_slice()
    }

    /// The next set cell of the chunk at position `chunk` of `chunks()`, as
    /// `cursor` walks that chunk, handed out for writing; `None` once the
    /// walk has passed every set cell of that chunk.
    pub fn next_cell_mut<'b>(&'b mut self, chunk: usize, cursor: &mut ChunkIterMut) -> (r: Option<
        ((i32, i32), &'b mut T),
    >)
        requires
            old(self).wf(),
            chunk < old(self).chunk_seq().len(),
            old(cursor).position() <= CHUNK_CELLS,
        ensures
            final(self).wf(),
            final(cursor).position() <= CHUNK_CELLS,
            ({
                let ch = old(self).chunk_seq()[chunk as int];
                let j = next_occupied(ch@, old(cursor).position());
                &&& r is Some <==> j < CHUNK_CELLS
                &&& r is Some ==> r.unwrap().0 == ch.cell_coord(j) && old(self)@.contains_key(
                    r.unwrap().0,
                ) && *r.unwrap().1 == old(self)@[r.unwrap().0] && final(self)@ == old(self)@.insert(
                    r.unwrap().0,
                    *final(r.unwrap().1),
                ) && final(cursor).position() == j + 1
                &&& r is None ==> final(self)@ == old(self)@ && final(cursor).position()
                    == CHUNK_CELLS
            }),
            final(self).chunk_seq().len() == old(self).chunk_seq().len(),
            forall|i: int|
                0 <= i < old(self).chunk_seq().len() && i != chunk ==> final(self).chunk_seq()[i]
                    == old(self).chunk_seq()[i],
            final(self).chunk_seq()[chunk as int].chunk_spec() == old(self).chunk_seq()[chunk as int].chunk_spec(),
            r is Some ==> final(self).chunk_seq()[chunk as int]@ == old(self).chunk_seq()[chunk as int]@.update(
                next_occupied(old(self).chunk_seq()[chunk as int]@, old(cursor).position()),
                Some(*final(r.unwrap().1)),
            ),
            r is None ==> final(self).chunk_seq() == old(self).chunk_seq(),
    {
        let ghost ch = self.chunks@[chunk as int];
        let ghost j = next_occupied(ch@, cursor.position());
        let ghost g0 = *self;
        proof {
            ch.lemma_wf();
            cursor.lemma_position();
            lemma_next_occupied_in(ch@, cursor.position());
            if j < CHUNK_CELLS {
                let c = ch.cell_coord(j);
                lemma_slot_coord(ch.chunk_spec(), j);
                assert(self.slots@.contains_key(ch.chunk_spec().key_spec()));
                lemma_key_injective(Index::of(c).chunk_spec(), ch.chunk_spec());
                lemma_write_any(*self, c, chunk as int);
                assert(self.at(c) == ch@[j]);
            }
        }
        let target = &mut self.chunks[chunk];
        let ghost fin = *final(target);
        let r = cursor.next(target);
        proof {
            assert(after_borrow(self.chunks)@[chunk as int] == fin);
            assert(r is Some ==> after_borrow(*self).wf());
            assert(r is None ==> after_borrow(self.chunks)@ =~= g0.chunks@);
            assert(r is None ==> after_borrow(self.slots)@ == g0.slots@);
            assert(r is None ==> after_borrow(*self)@ =~= g0@);
            assert(r is None ==> after_borrow(*self).wf());
        }
        r
    }

    /// The chunks of the grid, in the order in which they were created:
    /// the whole of what a grid needs to be rebuilt.
    pub fn into_chunks(self) -> (r: Vec<Chunk<T>>)
        requires
            self.wf(),
        ensures
            r@ == self.chunk_seq(),
            forall|i: int| 0 <= i < r@.len() ==> (#[trigger] r@[i]).wf(),
    {
        self.chunks
    }

    /// A grid that holds the cells of `chunks`. `None` when two chunks that
    /// hold cells are the same chunk of the grid, or when together they
    /// hold more cells than a length can count.
    pub fn from_chunks(chunks: Vec<Chunk<T>>) -> (r: Option<Grid<T>>)
        requires
            forall|i: int| 0 <= i < chunks@.len() ==> (#[trigger] chunks@[i]).wf(),
        ensures
            r is Some <==> !shared_chunk(chunks@) && sum_lens(chunks@) <= usize::MAX,
            r matches Some(g) ==> g.wf() && g@ == all_cells(chunks@),
    {
        let ghost s = chunks@;
        let ghost n = s.len() as int;
        let mut rest = chunks;
        let mut g: Grid<T> = Grid::new();
        let mut total: usize = 0;
        proof {
            assert(s.subrange(n, n) =~= Seq::<Chunk<T>>::empty());
            assert(g@ =~= all_cells(s.subrange(n, n)));
        }
        while rest.len() > 0
            invariant
                n == s.len(),
                s == chunks@,
                0 <= rest@.len() <= n,
                rest@ == s.take(rest@.len() as int),
                forall|i: int| 0 <= i < n ==> (#[trigger] s[i]).wf(),
                g.wf(),
                g@ == all_cells(s.subrange(rest@.len() as int, n)),
                !shared_chunk(s.subrange(rest@.len() as int, n)),
                total == sum_lens(s.subrange(rest@.len() as int, n)),
                total == g@.dom().len(),
                forall|i: int|
                    rest@.len() <= i < n && (#[trigger] s[i]).len_spec() > 0 ==> g.slots@.contains_key(
                        s[i].chunk_spec().key_spec(),
                    ),
                forall|k: u64| #[trigger]
                    g.slots@.contains_key(k) ==> exists|i: int|
                        rest@.len() <= i < n && (#[trigger] s[i]).len_spec() > 0
                            && s[i].chunk_spec().key_spec() == k,
            decreases rest@.len(),
        {
            let ghost k = rest@.len() - 1;
            let ch = rest.pop().unwrap();
            proof {
                assert(ch == s[k]);
                assert(rest@ =~= s.take(k));
                lemma_suffix_step(s, k);
                ch.lemma_wf();
                lemma_chunk_cells_count(ch);
            }
            let len = ch.len();
            if len > 0 {
                let key = ch.chunk_index().key();
                if g.slots.contains_key(&key) {
                    proof {
                        let i = choose|i: int|
                            k < i < n && (#[trigger] s[i]).len_spec() > 0 && s[i].chunk_spec().key_spec()
                                == key;
                        lemma_key_injective(s[i].chunk_spec(), ch.chunk_spec());
                        assert(s[k].chunk_spec() == s[i].chunk_spec());
                        assert(s[k].len_spec() > 0);
                        assert(shared_chunk(s));
                    }
                    return None;
                }
                if total > usize::MAX - len {
                    proof {
                        lemma_sum_split(s, k);
                        assert(sum_lens(s.subrange(k, n)) == len + total);
                        assert(sum_lens(s) > usize::MAX);
                    }
                    return None;
                }
                let ghost before = g;
                let pos = g.chunks.len();
                g.slots.insert(key, pos);
                g.chunks.push(ch);
                total = total + len;
                proof {
                    assert(g.chunks@.drop_last() =~= before.chunks@);
                    lemma_push_full(before, g);
                    assert forall|i: int, j: int|
                        0 <= i < j < s.subrange(k, n).len() && (#[trigger] s.subrange(k, n)[i]).chunk_spec()
                            == (#[trigger] s.subrange(k, n)[j]).chunk_spec() && s.subrange(k, n)[i].len_spec()
                            > 0 && s.subrange(k, n)[j].len_spec() > 0 implies false by {
                        if i == 0 {
                            assert(before.slots@.contains_key(s[k + j].chunk_spec().key_spec()));
                        } else {
                            assert(s.subrange(k + 1, n)[i - 1] == s[k + i]);
                            assert(s.subrange(k + 1, n)[j - 1] == s[k + j]);
                        }
                    }
                    assert forall|kk: u64| #[trigger] g.slots@.contains_key(kk) implies exists|i: int|
                        k <= i < n && (#[trigger] s[i]).len_spec() > 0 && s[i].chunk_spec().key_spec()
                            == kk by {
                        if kk != key {
                            assert(before.slots@.contains_key(kk));
                        } else {
                            assert(s[k].chunk_spec().key_spec() == kk);
                        }
                    }
                }
            } else {
                proof {
                    assert(chunk_cells(ch).dom() =~= Set::<(i32, i32)>::empty());
                    assert(g@.union_prefer_right(chunk_cells(ch)) =~= g@);
                    assert forall|i: int, j: int|
                        0 <= i < j < s.subrange(k, n).len() && (#[trigger] s.subrange(k, n)[i]).chunk_spec()
                            == (#[trigger] s.subrange(k, n)[j]).chunk_spec() && s.subrange(k, n)[i].len_spec()
                            > 0 && s.subrange(k, n)[j].len_spec() > 0 implies false by {
                        if i > 0 {
                            assert(s.subrange(k + 1, n)[i - 1] == s[k + i]);
                            assert(s.subrange(k + 1, n)[j - 1] == s[k + j]);
                        }
                    }
                }
            }
        }
        proof {
            assert(s.subrange(0, n) =~= s);
        }
        Some(g)
    }

    proof fn lemma_chunks_distinct(&self)
        requires
            self.wf(),
        ensures
            forall|i: int, j: int|
                0 <= i < self.chunks@.len() && 0 <= j < self.chunks@.len() && i != j ==> (
                #[trigger] self.chunks@[i]).chunk_spec() != (#[trigger] self.chunks@[j]).chunk_spec(),
    {
        assert forall|i: int, j: int|
            0 <= i < self.chunks@.len() && 0 <= j < self.chunks@.len() && i != j implies (
            #[trigger] self.chunks@[i]).chunk_spec() != (#[trigger] self.chunks@[j]).chunk_spec() by {
            assert(self.slots@.contains_key(self.chunks@[i].chunk_spec().key_spec()));
            assert(self.slots@.contains_key(self.chunks@[j].chunk_spec().key_spec()));
        }
    }

    proof fn lemma_chunks_cover(&self)
        requires
            self.wf(),
        ensures
            forall|i: int, j: int|
                0 <= i < self.chunks@.len() && 0 <= j < self.chunks@.len() && i != j ==> (
                #[trigger] self.chunks@[i]).chunk_spec() != (#[trigger] self.chunks@[j]).chunk_spec(),
            forall|i: int, s: int|
                0 <= i < self.chunks@.len() && 0 <= s < CHUNK_CELLS && (
                #[trigger] self.chunks@[i]@[s]) is Some ==> {
                    &&& self@.contains_key(self.chunks@[i].cell_coord(s))
                    &&& self@[self.chunks@[i].cell_coord(s)] == self.chunks@[i]@[s]->0
                },
            forall|c: (i32, i32)| #[trigger]
                self@.contains_key(c) ==> exists|i: int|
                    0 <= i < self.chunks@.len() && (#[trigger] self.chunks@[i]).chunk_spec()
                        == Index::of(c).chunk_spec() && self.chunks@[i]@[Index::of(c).local_spec() as int]
                        == Some(self@[c]),
    {
        assert forall|i: int, s: int|
            0 <= i < self.chunks@.len() && 0 <= s < CHUNK_CELLS && (
            #[trigger] self.chunks@[i]@[s]) is Some implies {
            &&& self@.contains_key(self.chunks@[i].cell_coord(s))
            &&& self@[self.chunks@[i].cell_coord(s)] == self.chunks@[i]@[s]->0
        } by {
            let ch = self.chunks@[i];
            ch.lemma_wf();
            lemma_slot_coord(ch.chunk_spec(), s);
            assert(self.at(ch.cell_coord(s)) == ch@[s]);
        }
        assert forall|c: (i32, i32)| #[trigger] self@.contains_key(c) implies exists|i: int|
            0 <= i < self.chunks@.len() && (#[trigger] self.chunks@[i]).chunk_spec()
                == Index::of(c).chunk_spec() && self.chunks@[i]@[Index::of(c).local_spec() as int]
                == Some(self@[c]) by {
            let k = Index::of(c).chunk_spec().key_spec();
            let i = self.slots@[k] as int;
            lemma_key_injective(self.chunks@[i].chunk_spec(), Index::of(c).chunk_spec());
        }
        assert forall|i: int, j: int|
            0 <= i < self.chunks@.len() && 0 <= j < self.chunks@.len() && i != j implies (
            #[trigger] self.chunks@[i]).chunk_spec() != (#[trigger] self.chunks@[j]).chunk_spec() by {
            assert(self.slots@.contains_key(self.chunks@[i].chunk_spec().key_spec()));
            assert(self.slots@.contains_key(self.chunks@[j].chunk_spec().key_spec()));
        }
    }
}

impl<T> Default for Grid<T> {
    fn default() -> (r: Grid<T>)
        ensures
            r.wf(),
            r@ == Map::<(i32, i32), T>::empty(),
    {
        Grid::new()
    }
}

/// The cells that chunk `ch` holds, by coordinate.
pub open spec fn chunk_cells<T>(ch: Chunk<T>) -> Map<(i32, i32), T> {
    Map::new(
        |c: (i32, i32)|
            Index::of(c).chunk_spec() == ch.chunk_spec() && ch@[Index::of(c).local_spec() as int] is Some,
        |c: (i32, i32)| ch@[Index::of(c).local_spec() as int]->0,
    )
}

/// The cells that the chunks of `s` hold, by coordinate; where two chunks
/// hold a coordinate, the earlier one's value stands.
pub open spec fn all_cells<T>(s: Seq<Chunk<T>>) -> Map<(i32, i32), T>
    decreases s.len(),
{
    if s.len() == 0 {
        Map::empty()
    } else {
        all_cells(s.subrange(1, s.len() as int)).union_prefer_right(chunk_cells(s[0]))
    }
}

/// Whether two chunks of `s` that both hold cells are the same chunk of
/// the grid.
pub open spec fn shared_chunk<T>(s: Seq<Chunk<T>>) -> bool {
    exists|i: int, j: int|
        0 <= i < j < s.len() && (#[trigger] s[i]).chunk_spec() == (#[trigger] s[j]).chunk_spec()
            && s[i].len_spec() > 0 && s[j].len_spec() > 0
}

/// The cells of `m` after inserting each pair of `writes` in order.
pub open spec fn insert_all<T>(m: Map<(i32, i32), T>, writes: Seq<((i32, i32), T)>) -> Map<
    (i32, i32),
    T,
>
    decreases writes.len(),
{
    if writes.len() == 0 {
        m
    } else {
        insert_all(m, writes.drop_last()).insert(writes.last().0, writes.last().1)
    }
}

/// Inserting `n` distinct coordinates into an empty grid gives a grid of
/// length `n` in which each coordinate reads back the value inserted there.
pub proof fn lemma_distinct_inserts<T>(writes: Seq<((i32, i32), T)>)
    requires
        forall|i: int, j: int|
            0 <= i < j < writes.len() ==> (#[trigger] writes[i]).0 != (#[trigger] writes[j]).0,
    ensures
        insert_all(Map::empty(), writes).dom().finite(),
        insert_all(Map::empty(), writes).dom().len() == writes.len(),
        forall|i: int|
            0 <= i < writes.len() ==> insert_all(Map::empty(), writes).contains_key(
                (#[trigger] writes[i]).0,
            ) && insert_all(Map::empty(), writes)[writes[i].0] == writes[i].1,
    decreases writes.len(),
{
    if writes.len() > 0 {
        let rest = writes.drop_last();
        lemma_distinct_inserts(rest);
        let m = insert_all(Map::<(i32, i32), T>::empty(), rest);
        let last = writes.last();
        assert(!m.contains_key(last.0)) by {
            if m.contains_key(last.0) {
                lemma_insert_all_keys(rest);
                let im = choose|i: int| 0 <= i < rest.len() && (#[trigger] rest[i]).0 == last.0;
                assert(writes[im] == rest[im]);
                assert(writes[im].0 != writes[writes.len() - 1].0);
            }
        }
        assert forall|i: int| 0 <= i < writes.len() implies insert_all(
            Map::empty(),
            writes,
        ).contains_key((#[trigger] writes[i]).0) && insert_all(Map::empty(), writes)[writes[i].0]
            == writes[i].1 by {
            if i < writes.len() - 1 {
                assert(rest[i] == writes[i]);
                assert(writes[i].0 != writes[writes.len() - 1].0);
            }
        }
    }
}

proof fn lemma_insert_all_keys<T>(writes: Seq<((i32, i32), T)>)
    ensures
        forall|c: (i32, i32)| #[trigger]
            insert_all(Map::empty(), writes).contains_key(c) ==> exists|i: int|
                0 <= i < writes.len() && (#[trigger] writes[i]).0 == c,
    decreases writes.len(),
{
    if writes.len() > 0 {
        let rest = writes.drop_last();
        lemma_insert_all_keys(rest);
        assert forall|c: (i32, i32)| #[trigger]
            insert_all(Map::empty(), writes).contains_key(c) implies exists|i: int|
            0 <= i < writes.len() && (#[trigger] writes[i]).0 == c by {
            if c != writes.last().0 {
                assert(insert_all(Map::empty(), rest).contains_key(c));
                let i = choose|i: int| 0 <= i < rest.len() && (#[trigger] rest[i]).0 == c;
                assert(writes[i] == rest[i]);
            } else {
                assert(writes[writes.len() - 1].0 == c);
            }
        }
    }
}

/// The set cells of all the chunks of a grid add up to its length: walking
/// every chunk yields each cell of the grid once.
pub proof fn lemma_chunks_count_cells<T>(g: Grid<T>)
    requires
        g.wf(),
    ensures
        sum_lens(g.chunk_seq()) == g@.dom().len(),
{
}

/// Taking a grid apart into its chunks and building a grid from them again
/// gives back the same cells: the chunks are distinct, their cells fit a
/// length, and together they hold exactly the grid's cells.
pub proof fn lemma_chunks_round_trip<T>(g: Grid<T>)
    requires
        g.wf(),
    ensures
        forall|i: int| 0 <= i < g.chunk_seq().len() ==> (#[trigger] g.chunk_seq()[i]).wf(),
        !shared_chunk(g.chunk_seq()),
        sum_lens(g.chunk_seq()) <= usize::MAX,
        all_cells(g.chunk_seq()) == g@,
{
    g.lemma_chunks_cover();
    assert forall|c: (i32, i32)| #[trigger] g@.contains_key(c) implies all_cells(g.chunks@).contains_key(c)
        && all_cells(g.chunks@)[c] == g@[c] by {
        lemma_cell_in_all_cells(g, c);
    }
    assert forall|c: (i32, i32)| #[trigger] all_cells(g.chunks@).contains_key(c) implies g@.contains_key(c) by {
        lemma_all_cells_in_grid(g, c);
    }
    assert(all_cells(g.chunks@) =~= g@);
}

proof fn lemma_cell_in_all_cells<T>(g: Grid<T>, c: (i32, i32))
    requires
        g.wf(),
        g@.contains_key(c),
    ensures
        all_cells(g.chunks@).contains_key(c),
        all_cells(g.chunks@)[c] == g@[c],
{
    let s = g.chunks@;
    g.lemma_chunks_distinct();
    let kc = Index::of(c).chunk_spec().key_spec();
    let i = g.slots@[kc] as int;
    lemma_key_injective(s[i].chunk_spec(), Index::of(c).chunk_spec());
    assert(chunk_cells(s[i]).contains_key(c));
    lemma_all_cells_has(s, c, i);
}

proof fn lemma_all_cells_in_grid<T>(g: Grid<T>, c: (i32, i32))
    requires
        g.wf(),
        all_cells(g.chunks@).contains_key(c),
    ensures
        g@.contains_key(c),
{
    let s = g.chunks@;
    lemma_all_cells_from(s, c);
    let i = choose|i: int| 0 <= i < s.len() && chunk_cells(#[trigger] s[i]).contains_key(c);
    assert(g.slots@.contains_key(s[i].chunk_spec().key_spec()));
    assert(g.at(c) == s[i]@[Index::of(c).local_spec() as int]);
}

proof fn lemma_all_cells_has<T>(s: Seq<Chunk<T>>, c: (i32, i32), i: int)
    requires
        0 <= i < s.len(),
        chunk_cells(s[i]).contains_key(c),
        forall|a: int, b: int|
            0 <= a < s.len() && 0 <= b < s.len() && a != b ==> (#[trigger] s[a]).chunk_spec() != (
            #[trigger] s[b]).chunk_spec(),
    ensures
        all_cells(s).contains_key(c),
        all_cells(s)[c] == chunk_cells(s[i])[c],
    decreases s.len(),
{
    let t = s.subrange(1, s.len() as int);
    if i > 0 {
        assert(t[i - 1] == s[i]);
        assert forall|a: int, b: int|
            0 <= a < t.len() && 0 <= b < t.len() && a != b implies (#[trigger] t[a]).chunk_spec() != (
            #[trigger] t[b]).chunk_spec() by {
            assert(t[a] == s[a + 1] && t[b] == s[b + 1]);
        }
        lemma_all_cells_has(t, c, i - 1);
        assert(!chunk_cells(s[0]).contains_key(c));
    }
}

proof fn lemma_all_cells_from<T>(s: Seq<Chunk<T>>, c: (i32, i32))
    requires
        all_cells(s).contains_key(c),
    ensures
        exists|i: int| 0 <= i < s.len() && chunk_cells(#[trigger] s[i]).contains_key(c),
    decreases s.len(),
{
    let t = s.subrange(1, s.len() as int);
    if !chunk_cells(s[0]).contains_key(c) {
        lemma_all_cells_from(t, c);
        let i = choose|i: int| 0 <= i < t.len() && chunk_cells(#[trigger] t[i]).contains_key(c);
        assert(t[i] == s[i + 1]);
    }
}

/// Inserting at a coordinate sets what it reads and leaves every other
/// coordinate as it was; the number of cells grows by one exactly when the
/// coordinate held no value, so writing over a held coordinate keeps it.
pub proof fn lemma_insert_count<T>(m: Map<(i32, i32), T>, c: (i32, i32), v: T)
    requires
        m.dom().finite(),
    ensures
        m.insert(c, v)[c] == v,
        forall|d: (i32, i32)| d != c ==> #[trigger] m.insert(c, v).contains_key(d) == m.contains_key(d)
            && (m.contains_key(d) ==> m.insert(c, v)[d] == m[d]),
        m.insert(c, v).dom().finite(),
        m.insert(c, v).dom().len() == m.dom().len() + if m.contains_key(c) {
            0int
        } else {
            1int
        },
{
    if m.contains_key(c) {
        assert(m.insert(c, v).dom() =~= m.dom());
    }
}

/// The grid `g2` is `g1` with the cell `c`, in the chunk at `pos`, set to
/// the value that `g2` holds there.
spec fn written<T>(g1: Grid<T>, g2: Grid<T>, c: (i32, i32), pos: int) -> bool {
    let i = Index::of(c);
    let ch = g2.chunks@[pos];
    &&& g1.inv()
    &&& 0 <= pos < g1.chunks@.len()
    &&& g1.slots@.contains_key(i.chunk_spec().key_spec())
    &&& g1.slots@[i.chunk_spec().key_spec()] == pos
    &&& g2.slots@ == g1.slots@
    &&& g2.chunks@ == g1.chunks@.update(pos, ch)
    &&& ch.wf()
    &&& ch.chunk_spec() == g1.chunks@[pos].chunk_spec()
    &&& ch@[i.local_spec() as int] is Some
    &&& ch@ == g1.chunks@[pos]@.update(i.local_spec() as int, ch@[i.local_spec() as int])
    &&& g1@.contains_key(c) || g1@.dom().len() < usize::MAX
}

proof fn lemma_write_any<T>(g1: Grid<T>, c: (i32, i32), pos: int)
    requires
        g1.wf(),
    ensures
        forall|g2: Grid<T>|
            written(g1, g2, c, pos) ==> #[trigger] g2.wf() && g2@ == g1@.insert(
                c,
                g2.chunks@[pos]@[Index::of(c).local_spec() as int]->0,
            ) && g2.chunks.len() == g1.chunks.len() && (forall|j: int|
                0 <= j < g2.chunks.len() && j != pos ==> g2.chunks@[j] == g1.chunks@[j]),
{
    assert forall|g2: Grid<T>| written(g1, g2, c, pos) implies #[trigger] g2.wf() && g2@
        == g1@.insert(c, g2.chunks@[pos]@[Index::of(c).local_spec() as int]->0)
        && g2.chunks.len() == g1.chunks.len() && (forall|j: int|
        0 <= j < g2.chunks.len() && j != pos ==> g2.chunks@[j] == g1.chunks@[j]) by {
        lemma_write(g1, g2, c, pos);
    }
}

proof fn lemma_write<T>(g1: Grid<T>, g2: Grid<T>, c: (i32, i32), pos: int)
    requires
        written(g1, g2, c, pos),
    ensures
        g2.inv(),
        g2@ == g1@.insert(c, g2.chunks@[pos]@[Index::of(c).local_spec() as int]->0),
        g2.chunks.len() == g1.chunks.len(),
        g2@.dom().len() >= g1@.dom().len(),
        !g1@.contains_key(c) ==> g2@.dom().len() == g1@.dom().len() + 1,
        forall|j: int| 0 <= j < g2.chunks.len() && j != pos ==> g2.chunks@[j] == g1.chunks@[j],
        g2.chunks@[pos].len_spec() > 0,
        g1.wf() ==> g2.wf(),
{
    let i = Index::of(c);
    let local = i.local_spec() as int;
    let old_ch = g1.chunks@[pos];
    let ch = g2.chunks@[pos];
    let v = ch@[local]->0;
    old_ch.lemma_wf();
    ch.lemma_wf();
    assert(g1.at(c) == old_ch@[local]);
    assert forall|d: (i32, i32)| #[trigger] g2.at(d) == if d == c {
        Some(v)
    } else {
        g1.at(d)
    } by {
        let id = Index::of(d);
        let kd = id.chunk_spec().key_spec();
        lemma_local_bound(id);
        lemma_local_bound(i);
        if d == c {
            assert(g2.at(d) == ch@[local]);
        } else if g1.slots@.contains_key(kd) {
            let pd = g1.slots@[kd] as int;
            if pd == pos {
                lemma_key_injective(id.chunk_spec(), i.chunk_spec());
                if id.local_spec() == i.local_spec() {
                    lemma_chunk_slot_determine(c, d);
                }
                assert(ch@[id.local_spec() as int] == old_ch@[id.local_spec() as int]);
            } else {
                assert(g2.chunks@[pd] == g1.chunks@[pd]);
            }
        }
    }
    assert(g2@ =~= g1@.insert(c, v));
    assert(g2@.dom() =~= g1@.dom().insert(c));
    lemma_local_bound(i);
    lemma_sum_update(g1.chunks@, pos, ch);
    lemma_occupied_update(ch@, local, None);
    lemma_occupied_update(old_ch@, local, Some(v));
    assert forall|j: int| 0 <= j < g2.chunks.len() implies (#[trigger] g2.chunks@[j]).wf() by {
        if j != pos {
            assert(g2.chunks@[j] == g1.chunks@[j]);
        }
    }
    assert forall|j: int|
        0 <= j < g2.chunks.len() implies #[trigger] g2.slots@.contains_key(
        g2.chunks@[j].chunk_spec().key_spec(),
    ) && g2.slots@[g2.chunks@[j].chunk_spec().key_spec()] == j by {
        if j != pos {
            assert(g2.chunks@[j] == g1.chunks@[j]);
        }
    }
    assert forall|j: int| 0 <= j < g2.chunks.len() && j != pos implies g2.chunks@[j] == g1.chunks@[j] by {
    }
    if g1.wf() {
        assert forall|j: int| 0 <= j < g2.chunks.len() implies #[trigger] g2.chunks@[j].len_spec()
            > 0 by {
            if j != pos {
                assert(g2.chunks@[j] == g1.chunks@[j]);
            }
        }
    }
}
/// Adding an empty chunk under a fresh key changes no cell.
proof fn lemma_push_empty<T>(g1: Grid<T>, g2: Grid<T>)
    requires
        g1.wf(),
        g2.chunks@.len() == g1.chunks@.len() + 1,
        g2.chunks@.drop_last() == g1.chunks@,
        g2.chunks@.last().wf(),
        g2.chunks@.last()@ == crate::chunk::empty_slots::<T>(),
        !g1.slots@.contains_key(g2.chunks@.last().chunk_spec().key_spec()),
        g2.slots@ == g1.slots@.insert(
            g2.chunks@.last().chunk_spec().key_spec(),
            g1.chunks@.len() as usize,
        ),
    ensures
        g2.inv(),
        g2@ == g1@,
        forall|j: int| 0 <= j < g1.chunks.len() ==> g2.chunks@[j] == g1.chunks@[j],
{
    let n = g1.chunks@.len() as int;
    lemma_empty_unoccupied::<T>(CHUNK_CELLS as nat);
    assert forall|j: int| 0 <= j < g1.chunks.len() implies g2.chunks@[j] == g1.chunks@[j] by {
        assert(g2.chunks@.drop_last()[j] == g2.chunks@[j]);
    }
    assert forall|d: (i32, i32)| #[trigger] g2.at(d) == g1.at(d) by {
        let kd = Index::of(d).chunk_spec().key_spec();
        if g1.slots@.contains_key(kd) {
            assert(g2.chunks@[g1.slots@[kd] as int] == g1.chunks@[g1.slots@[kd] as int]);
        }
    }
    assert(g2@ =~= g1@);
    assert forall|j: int| 0 <= j < g2.chunks.len() implies (#[trigger] g2.chunks@[j]).wf() by {
        if j < n {
            assert(g2.chunks@[j] == g1.chunks@[j]);
        }
    }
    assert forall|k: u64| #[trigger]
        g2.slots@.contains_key(k) implies g2.slots@[k] < g2.chunks.len()
            && g2.chunks@[g2.slots@[k] as int].chunk_spec().key_spec() == k by {
        if g1.slots@.contains_key(k) {
            assert(g2.chunks@[g1.slots@[k] as int] == g1.chunks@[g1.slots@[k] as int]);
        }
    }
    assert forall|j: int|
        0 <= j < g2.chunks.len() implies #[trigger] g2.slots@.contains_key(
        g2.chunks@[j].chunk_spec().key_spec(),
    ) && g2.slots@[g2.chunks@[j].chunk_spec().key_spec()] == j by {
        if j < n {
            assert(g2.chunks@[j] == g1.chunks@[j]);
        }
    }
    assert(g2.chunks@.drop_last() == g1.chunks@);
}

proof fn lemma_local_bound(i: Index)
    ensures
        i.local_spec() < CHUNK_CELLS,
{
    let a = (i.y % 16) as int;
    let b = (i.x % 16) as int;
    assert(a * 16 + b < 256) by (nonlinear_arith)
        requires
            0 <= a < 16,
            0 <= b < 16,
    ;
}

/// One step of the walk from the back of `s`: the suffix from `k` is the
/// chunk at `k` in front of the suffix from `k + 1`.
proof fn lemma_suffix_step<T>(s: Seq<Chunk<T>>, k: int)
    requires
        0 <= k < s.len(),
    ensures
        all_cells(s.subrange(k, s.len() as int)) == all_cells(s.subrange(k + 1, s.len() as int)).union_prefer_right(
            chunk_cells(s[k]),
        ),
        sum_lens(s.subrange(k, s.len() as int)) == s[k].len_spec() + sum_lens(
            s.subrange(k + 1, s.len() as int),
        ),
{
    let t = s.subrange(k, s.len() as int);
    assert(t.subrange(1, t.len() as int) =~= s.subrange(k + 1, s.len() as int));
    assert(t[0] == s[k]);
    lemma_sum_head(t);
}

proof fn lemma_sum_head<T>(s: Seq<Chunk<T>>)
    requires
        s.len() > 0,
    ensures
        sum_lens(s) == s[0].len_spec() + sum_lens(s.subrange(1, s.len() as int)),
    decreases s.len(),
{
    if s.len() > 1 {
        assert(s.drop_last().subrange(1, s.len() - 1) =~= s.subrange(1, s.len() as int).drop_last());
        lemma_sum_head(s.drop_last());
    } else {
        assert(s.drop_last() =~= Seq::<Chunk<T>>::empty());
        assert(s.subrange(1, 1) =~= Seq::<Chunk<T>>::empty());
    }
}

proof fn lemma_sum_split<T>(s: Seq<Chunk<T>>, k: int)
    requires
        0 <= k <= s.len(),
    ensures
        sum_lens(s) == sum_lens(s.take(k)) + sum_lens(s.subrange(k, s.len() as int)),
    decreases k,
{
    if k == 0 {
        assert(s.take(0) =~= Seq::<Chunk<T>>::empty());
        assert(s.subrange(0, s.len() as int) =~= s);
    } else {
        lemma_sum_split(s, k - 1);
        lemma_suffix_step(s, k - 1);
        assert(s.take(k).drop_last() =~= s.take(k - 1));
    }
}

/// The coordinates that a chunk holds are as many as its set slots.
pub proof fn lemma_chunk_cells_count<T>(ch: Chunk<T>)
    requires
        ch.wf(),
    ensures
        chunk_cells(ch).dom().finite(),
        chunk_cells(ch).dom().len() == ch.len_spec(),
{
    ch.lemma_wf();
    lemma_slots_below_count(ch, CHUNK_CELLS as int);
    assert forall|d: (i32, i32)| #[trigger] chunk_cells(ch).dom().contains(d) == slots_below(ch, CHUNK_CELLS as int).contains(d) by {
        lemma_local_bound(Index::of(d));
    }
    assert(chunk_cells(ch).dom() =~= slots_below(ch, CHUNK_CELLS as int));
    assert(ch@.take(CHUNK_CELLS as int) =~= ch@);
}

proof fn lemma_slots_below_count<T>(ch: Chunk<T>, n: int)
    requires
        ch.wf(),
        0 <= n <= CHUNK_CELLS,
    ensures
        slots_below(ch, n).finite(),
        slots_below(ch, n).len() == occupied(ch@.take(n)),
    decreases n,
{
    ch.lemma_wf();
    let ci = ch.chunk_spec();
    if n == 0 {
        assert(slots_below(ch, 0) =~= Set::<(i32, i32)>::empty());
        assert(ch@.take(0) =~= Seq::<Option<T>>::empty());
    } else {
        let m = n - 1;
        lemma_slots_below_count(ch, m);
        let c = slot_coord(ci, m);
        lemma_slot_coord(ci, m);
        assert(ch@.take(n).drop_last() =~= ch@.take(m));
        if ch@[m] is Some {
            assert forall|d: (i32, i32)| #[trigger] slots_below(ch, n).contains(d) == slots_below(
                ch,
                m,
            ).insert(c).contains(d) by {
                if Index::of(d).chunk_spec() == ci && Index::of(d).local_spec() == m {
                    lemma_chunk_slot_determine(c, d);
                }
            }
            assert(slots_below(ch, n) =~= slots_below(ch, m).insert(c));
            assert(!slots_below(ch, m).contains(c));
        } else {
            assert forall|d: (i32, i32)| #[trigger] slots_below(ch, n).contains(d) == slots_below(
                ch,
                m,
            ).contains(d) by {
                if Index::of(d).chunk_spec() == ci && Index::of(d).local_spec() == m {
                    lemma_chunk_slot_determine(c, d);
                }
            }
            assert(slots_below(ch, n) =~= slots_below(ch, m));
        }
    }
}

/// The coordinates of the set slots of `ch` below slot `n`.
spec fn slots_below<T>(ch: Chunk<T>, n: int) -> Set<(i32, i32)> {
    Set::new(
        |c: (i32, i32)|
            Index::of(c).chunk_spec() == ch.chunk_spec() && Index::of(c).local_spec() < n
                && ch@[Index::of(c).local_spec() as int] is Some,
    )
}

/// Filing a chunk that holds cells under a fresh key adds its cells.
proof fn lemma_push_full<T>(g1: Grid<T>, g2: Grid<T>)
    requires
        g1.wf(),
        g2.chunks@.len() == g1.chunks@.len() + 1,
        g2.chunks@.drop_last() == g1.chunks@,
        g2.chunks@.last().wf(),
        g2.chunks@.last().len_spec() > 0,
        !g1.slots@.contains_key(g2.chunks@.last().chunk_spec().key_spec()),
        g2.slots@ == g1.slots@.insert(
            g2.chunks@.last().chunk_spec().key_spec(),
            g1.chunks@.len() as usize,
        ),
        g1@.dom().len() + g2.chunks@.last().len_spec() <= usize::MAX,
    ensures
        g2.wf(),
        g2@ == g1@.union_prefer_right(chunk_cells(g2.chunks@.last())),
        g2@.dom().len() == g1@.dom().len() + g2.chunks@.last().len_spec(),
{
    let n = g1.chunks@.len() as int;
    let ch = g2.chunks@.last();
    let ci = ch.chunk_spec();
    ch.lemma_wf();
    lemma_chunk_cells_count(ch);
    assert forall|d: (i32, i32)| #[trigger] g2.at(d) == if Index::of(d).chunk_spec() == ci {
        ch@[Index::of(d).local_spec() as int]
    } else {
        g1.at(d)
    } by {
        let kd = Index::of(d).chunk_spec().key_spec();
        lemma_key_injective(Index::of(d).chunk_spec(), ci);
        if g1.slots@.contains_key(kd) {
            assert(g2.chunks@[g1.slots@[kd] as int] == g1.chunks@[g1.slots@[kd] as int]);
        }
    }
    assert(g2@ =~= g1@.union_prefer_right(chunk_cells(ch)));
    assert(g1@.dom().disjoint(chunk_cells(ch).dom())) by {
        assert forall|d: (i32, i32)| g1@.dom().contains(d) implies !chunk_cells(ch).dom().contains(d) by {
            lemma_key_injective(Index::of(d).chunk_spec(), ci);
        }
    }
    assert(g2@.dom() =~= g1@.dom() + chunk_cells(ch).dom());
    vstd::set_lib::lemma_set_disjoint_lens(g1@.dom(), chunk_cells(ch).dom());
    assert forall|j: int| 0 <= j < g2.chunks.len() implies (#[trigger] g2.chunks@[j]).wf() by {
        if j < n {
            assert(g2.chunks@[j] == g1.chunks@[j]);
        }
    }
    assert forall|k: u64| #[trigger]
        g2.slots@.contains_key(k) implies g2.slots@[k] < g2.chunks.len()
            && g2.chunks@[g2.slots@[k] as int].chunk_spec().key_spec() == k by {
        if g1.slots@.contains_key(k) {
            assert(g2.chunks@[g1.slots@[k] as int] == g1.chunks@[g1.slots@[k] as int]);
        }
    }
    assert forall|j: int|
        0 <= j < g2.chunks.len() implies #[trigger] g2.slots@.contains_key(
        g2.chunks@[j].chunk_spec().key_spec(),
    ) && g2.slots@[g2.chunks@[j].chunk_spec().key_spec()] == j by {
        if j < n {
            assert(g2.chunks@[j] == g1.chunks@[j]);
        }
    }
    assert forall|j: int| 0 <= j < g2.chunks.len() implies #[trigger] g2.chunks@[j].len_spec() > 0 by {
        if j < n {
            assert(g2.chunks@[j] == g1.chunks@[j]);
        }
    }
}
proof fn lemma_sum_update<T>(s: Seq<Chunk<T>>, i: int, ch: Chunk<T>)
    requires
        0 <= i < s.len(),
    ensures
        sum_lens(s.update(i, ch)) + s[i].len_spec() == sum_lens(s) + ch.len_spec(),
    decreases s.len(),
{
    if i < s.len() - 1 {
        assert(s.update(i, ch).drop_last() =~= s.drop_last().update(i, ch));
        lemma_sum_update(s.drop_last(), i, ch);
    } else {
        assert(s.update(i, ch).drop_last() =~= s.drop_last());
    }
}

proof fn lemma_sum_prefix_bound<T>(s: Seq<Chunk<T>>, i: int)
    requires
        0 <= i <= s.len(),
    ensures
        sum_lens(s.take(i)) <= sum_lens(s),
    decreases s.len() - i,
{
    if i < s.len() {
        lemma_sum_prefix_bound(s, i + 1);
        assert(s.take(i + 1).drop_last() =~= s.take(i));
    } else {
        assert(s.take(i) =~= s);
    }
}

} // verus!
