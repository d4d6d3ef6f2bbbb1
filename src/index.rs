//! Mapping between signed coordinates and the biased unsigned form that
//! locates a cell's chunk and its slot within that chunk.
use vstd::prelude::*;

verus! {

/// Side length of a chunk: a chunk holds `CHUNK_SIZE * CHUNK_SIZE` cells.
pub const CHUNK_SIZE: usize = 16;

/// Distance between a signed axis value and its unsigned form.
pub const BIAS: i64 = 0x8000_0000;

/// The unsigned form of one signed axis value.
pub open spec fn biased(v: i32) -> u32 {
    (v as int + BIAS as int) as u32
}

/// The signed axis value of an unsigned one.
pub open spec fn unbiased(u: u32) -> i32 {
    (u as int - BIAS as int) as i32
}

/// Index used internally to identify an element within a cell.
#[derive(PartialEq, Eq, Debug, Hash, Clone, Copy)]
pub struct Index {
    pub x: u32,
    pub y: u32,
}

/// Index used internally to identify a chunk within a grid.
#[derive(PartialEq, Eq, Debug, Hash, Clone, Copy)]
pub struct ChunkIndex {
    pub x: u32,
    pub y: u32,
}

impl Index {
    /// The index of a coordinate.
    pub open spec fn of(c: (i32, i32)) -> Index {
        Index { x: biased(c.0), y: biased(c.1) }
    }

    /// The coordinate that this index stands for.
    pub open spec fn coord(self) -> (i32, i32) {
        (unbiased(self.x), unbiased(self.y))
    }

    /// The chunk that holds this index.
    pub open spec fn chunk_spec(self) -> ChunkIndex {
        ChunkIndex { x: self.x / (CHUNK_SIZE as u32), y: self.y / (CHUNK_SIZE as u32) }
    }

    /// The slot of this index within its chunk, row by row.
    pub open spec fn local_spec(self) -> nat {
        ((self.y % (CHUNK_SIZE as u32)) * CHUNK_SIZE as u32 + self.x % (CHUNK_SIZE as u32)) as nat
    }

    pub fn chunk_index(&self) -> (r: ChunkIndex)
        ensures
            r == self.chunk_spec(),
    {
        ChunkIndex { x: self.x / CHUNK_SIZE as u32, y: self.y / CHUNK_SIZE as u32 }
    }

    pub fn local_index(&self) -> (r: usize)
        ensures
            r == self.local_spec(),
            r < CHUNK_SIZE * CHUNK_SIZE,
    {
        let x: usize = self.x as usize % CHUNK_SIZE;
        let y: usize = self.y as usize % CHUNK_SIZE;
        y * CHUNK_SIZE + x
    }
}

impl ChunkIndex {
    /// The first index of this chunk, the one at its top left corner.
    pub open spec fn corner(self) -> Index {
        Index {
            x: (self.x * CHUNK_SIZE as u32) as u32,
            y: (self.y * CHUNK_SIZE as u32) as u32,
        }
    }

    /// Whether this is the chunk of some index, which bounds both axes.
    pub open spec fn in_range(self) -> bool {
        self.x * CHUNK_SIZE <= u32::MAX && self.y * CHUNK_SIZE <= u32::MAX
    }

    /// The key under which a grid files this chunk.
    pub open spec fn key_spec(self) -> u64 {
        (self.x as int * 0x1_0000_0000 + self.y as int) as u64
    }

    pub fn index(&self) -> (r: Index)
        requires
            self.in_range(),
        ensures
            r == self.corner(),
    {
        Index { x: self.x * CHUNK_SIZE as u32, y: self.y * CHUNK_SIZE as u32 }
    }

    pub fn key(&self) -> (r: u64)
        ensures
            r == self.key_spec(),
    {
        proof {
            lemma_key_fits(self.x, self.y);
        }
        self.x as u64 * 0x1_0000_0000 + self.y as u64
    }
}

proof fn lemma_key_fits(x: u32, y: u32)
    ensures
        x as int * 0x1_0000_0000 + y as int <= u64::MAX,
{
    assert(x as int * 0x1_0000_0000 <= 0xffff_ffff * 0x1_0000_0000) by (nonlinear_arith)
        requires
            x <= 0xffff_ffff,
    ;
}

/// Two chunks share a key only if they are the same chunk.
pub proof fn lemma_key_injective(a: ChunkIndex, b: ChunkIndex)
    ensures
        a.key_spec() == b.key_spec() <==> a == b,
{
    lemma_key_fits(a.x, a.y);
    lemma_key_fits(b.x, b.y);
    if a.key_spec() == b.key_spec() {
        let ka = a.x as int * 0x1_0000_0000 + a.y as int;
        let kb = b.x as int * 0x1_0000_0000 + b.y as int;
        assert(ka == kb);
        assert(a.x == b.x && a.y == b.y) by (nonlinear_arith)
            requires
                ka == kb,
                ka == a.x as int * 0x1_0000_0000 + a.y as int,
                kb == b.x as int * 0x1_0000_0000 + b.y as int,
                0 <= a.y < 0x1_0000_0000,
                0 <= b.y < 0x1_0000_0000,
        ;
    }
}

impl From<(i32, i32)> for Index {
    fn from(value: (i32, i32)) -> (r: Index) {
        Index { x: (value.0 as i64 + BIAS) as u32, y: (value.1 as i64 + BIAS) as u32 }
    }
}

impl vstd::std_specs::convert::FromSpecImpl<(i32, i32)> for Index {
    open spec fn obeys_from_spec() -> bool {
        true
    }

    open spec fn from_spec(v: (i32, i32)) -> Index {
        Index::of(v)
    }
}

impl From<Index> for (i32, i32) {
    fn from(value: Index) -> (r: (i32, i32)) {
        let x: i64 = value.x as i64 - BIAS;
        let y: i64 = value.y as i64 - BIAS;
        (x as i32, y as i32)
    }
}

impl vstd::std_specs::convert::FromSpecImpl<Index> for (i32, i32) {
    open spec fn obeys_from_spec() -> bool {
        true
    }

    open spec fn from_spec(v: Index) -> (i32, i32) {
        v.coord()
    }
}

/// The coordinate of slot `s` of chunk `ci`.
pub open spec fn slot_coord(ci: ChunkIndex, s: int) -> (i32, i32) {
    Index {
        x: (ci.x * CHUNK_SIZE as int + s % CHUNK_SIZE as int) as u32,
        y: (ci.y * CHUNK_SIZE as int + s / CHUNK_SIZE as int) as u32,
    }.coord()
}

/// Mapping a coordinate to its index and back gives the coordinate again,
/// on the whole range of both axes; so distinct coordinates get distinct
/// indices.
pub proof fn lemma_coord_round_trip(c: (i32, i32))
    ensures
        Index::of(c).coord() == c,
        forall|d: (i32, i32)| Index::of(d) == Index::of(c) ==> d == c,
{
    assert forall|d: (i32, i32)| Index::of(d) == Index::of(c) implies d == c by {
        assert(Index::of(d).coord() == d);
    }
}

/// Mapping an index to its coordinate and back gives the index again.
pub proof fn lemma_index_round_trip(i: Index)
    ensures
        Index::of(i.coord()) == i,
{
}

/// Two coordinates share a chunk exactly when they lie in the same aligned
/// `CHUNK_SIZE` by `CHUNK_SIZE` block, that is when both axes agree after
/// floor division by `CHUNK_SIZE`; this holds across zero and at both ends
/// of the `i32` range.
pub proof fn lemma_chunk_locality(c: (i32, i32), d: (i32, i32))
    ensures
        Index::of(c).chunk_spec() == Index::of(d).chunk_spec() <==> (c.0 as int / 16 == d.0 as int
            / 16 && c.1 as int / 16 == d.1 as int / 16),
{
    lemma_biased_div(c.0);
    lemma_biased_div(c.1);
    lemma_biased_div(d.0);
    lemma_biased_div(d.1);
}

/// A step of one to the left across a multiple of `CHUNK_SIZE` changes the
/// chunk, also at zero and below it.
pub proof fn lemma_chunk_boundary(c: (i32, i32))
    requires
        c.0 as int % 16 == 0,
        c.0 > i32::MIN,
    ensures
        Index::of(c).chunk_spec() != Index::of(((c.0 - 1) as i32, c.1)).chunk_spec(),
{
    lemma_chunk_locality(c, ((c.0 - 1) as i32, c.1));
}

proof fn lemma_biased_div(v: i32)
    ensures
        biased(v) as int / 16 == v as int / 16 + 0x800_0000,
        biased(v) as int % 16 == v as int % 16,
{
    let b = biased(v) as int;
    let q = v as int / 16;
    let r = v as int % 16;
    assert(v as int == 16 * q + r && 0 <= r < 16);
    assert(b == 16 * (q + 0x800_0000) + r);
    vstd::arithmetic::div_mod::lemma_div_multiples_vanish_fancy(q + 0x800_0000, r, 16);
    vstd::arithmetic::div_mod::lemma_mod_multiples_vanish(q + 0x800_0000, r, 16);
}

/// A coordinate is fixed by its chunk and its slot in that chunk.
pub proof fn lemma_chunk_slot_determine(c: (i32, i32), d: (i32, i32))
    requires
        Index::of(c).chunk_spec() == Index::of(d).chunk_spec(),
        Index::of(c).local_spec() == Index::of(d).local_spec(),
    ensures
        c == d,
{
    let (ic, id) = (Index::of(c), Index::of(d));
    lemma_slot_split(ic.x, ic.y);
    lemma_slot_split(id.x, id.y);
    assert(ic == id);
    lemma_coord_round_trip(c);
}

proof fn lemma_slot_split(x: u32, y: u32)
    ensures
        ((y % 16) * 16 + x % 16) % 16 == x % 16,
        ((y % 16) * 16 + x % 16) / 16 == y % 16,
        x == (x / 16) * 16 + x % 16,
        y == (y / 16) * 16 + y % 16,
{
    let a = (y % 16) as int;
    let b = (x % 16) as int;
    assert((a * 16 + b) % 16 == b && (a * 16 + b) / 16 == a) by (nonlinear_arith)
        requires
            0 <= a < 16,
            0 <= b < 16,
    ;
}

/// Every index lies in a chunk whose cells all have an index.
pub proof fn lemma_chunk_in_range(i: Index)
    ensures
        i.chunk_spec().in_range(),
{
    assert((i.x / 16) * 16 <= i.x) by (nonlinear_arith);
    assert((i.y / 16) * 16 <= i.y) by (nonlinear_arith);
}

/// The cell at slot `s` of chunk `ci` belongs to `ci` and sits at `s`.
pub proof fn lemma_slot_coord(ci: ChunkIndex, s: int)
    requires
        ci.in_range(),
        0 <= s < 256,
    ensures
        Index::of(slot_coord(ci, s)).chunk_spec() == ci,
        Index::of(slot_coord(ci, s)).local_spec() == s,
{
    let x = ci.x as int * 16 + s % 16;
    let y = ci.y as int * 16 + s / 16;
    assert(x / 16 == ci.x && x % 16 == s % 16 && y / 16 == ci.y && y % 16 == s / 16
        && (s / 16) * 16 + s % 16 == s && 0 <= s / 16 < 16) by (nonlinear_arith)
        requires
            x == ci.x as int * 16 + s % 16,
            y == ci.y as int * 16 + s / 16,
            0 <= s < 256,
            ci.x >= 0,
            ci.y >= 0,
    ;
    assert(ci.x * 16 <= u32::MAX);
    assert(0 <= x <= u32::MAX);
    assert(0 <= y <= u32::MAX);
    lemma_index_round_trip(Index { x: x as u32, y: y as u32 });
}

} // verus!
