//! Grid geometry: chunks of the integer grid and their four-neighbourhoods.

use vstd::arithmetic::div_mod::{
    lemma_div_pos_is_pos, lemma_fundamental_div_mod, lemma_fundamental_div_mod_converse,
    lemma_mod_pos_bound, lemma_multiply_divide_lt,
};
use vstd::prelude::*;

verus! {

/// One unit square of the layout grid, addressed by its integer coordinates.
#[derive(Clone, Copy, Debug, PartialEq, Eq, Hash, Structural)]
pub struct Chunk {
    pub x: i32,
    pub y: i32,
}

impl Chunk {
    /// Squared Euclidean distance between the two chunks.
    pub open spec fn distance_squared(self, other: Chunk) -> int {
        (self.x - other.x) * (self.x - other.x) + (self.y - other.y) * (self.y - other.y)
    }

    /// The two chunks share an edge: they differ by one step along one axis.
    pub open spec fn touches(self, other: Chunk) -> bool {
        ||| self.x == other.x && (self.y - other.y == 1 || other.y - self.y == 1)
        ||| self.y == other.y && (self.x - other.x == 1 || other.x - self.x == 1)
    }

    /// All four neighbours of the chunk are representable.
    pub open spec fn inner(self) -> bool {
        &&& i32::MIN < self.x < i32::MAX
        &&& i32::MIN < self.y < i32::MAX
    }

    /// Both coordinates lie within `reach` of the origin.
    pub open spec fn within(self, reach: int) -> bool {
        &&& -reach <= self.x <= reach
        &&& -reach <= self.y <= reach
    }

    /// The chunk at the given coordinates.
    pub fn new(x: i32, y: i32) -> (chunk: Chunk)
        ensures
            chunk.x == x,
            chunk.y == y,
    {
        Chunk { x, y }
    }

    /// Whether the two chunks share an edge.
    pub fn is_touching(&self, other: &Chunk) -> (b: bool)
        ensures
            b == self.touches(*other),
    {
        let dx: i64 = self.x as i64 - other.x as i64;
        let dy: i64 = self.y as i64 - other.y as i64;
        (dx == 0 && (dy == 1 || dy == -1)) || (dy == 0 && (dx == 1 || dx == -1))
    }
}

/// The four orthogonal neighbours of `chunk`, in the order north, south,
/// east, west.
pub open spec fn surrounding(chunk: Chunk) -> Seq<Chunk> {
    seq![
        Chunk { x: chunk.x, y: (chunk.y + 1) as i32 },
        Chunk { x: chunk.x, y: (chunk.y - 1) as i32 },
        Chunk { x: (chunk.x + 1) as i32, y: chunk.y },
        Chunk { x: (chunk.x - 1) as i32, y: chunk.y },
    ]
}

/// The four orthogonal neighbours of `chunk`; no diagonals.
pub fn get_surrounding_chunks(chunk: Chunk) -> (around: Vec<Chunk>)
    requires
        chunk.inner(),
    ensures
        around@ == surrounding(chunk),
{
    let mut around: Vec<Chunk> = Vec::new();
    around.push(Chunk { x: chunk.x, y: chunk.y + 1 });
    around.push(Chunk { x: chunk.x, y: chunk.y - 1 });
    around.push(Chunk { x: chunk.x + 1, y: chunk.y });
    around.push(Chunk { x: chunk.x - 1, y: chunk.y });
    around
}

/// Whether `list` holds `chunk`.
pub fn list_contains(list: &Vec<Chunk>, chunk: Chunk) -> (found: bool)
    ensures
        found == list@.contains(chunk),
{
    let mut i: usize = 0;
    while i < list.len()
        invariant
            i <= list@.len(),
            forall|k: int| 0 <= k < i ==> list@[k] != chunk,
        decreases list@.len() - i,
    {
        if list[i] == chunk {
            return true;
        }
        i += 1;
    }
    false
}

/// Every chunk of the list has all four neighbours representable.
pub open spec fn all_inner(chunks: Seq<Chunk>) -> bool {
    forall|i: int| 0 <= i < chunks.len() ==> (#[trigger] chunks[i]).inner()
}

/// Every chunk of the list lies within `reach` of the origin.
pub open spec fn all_within(chunks: Seq<Chunk>, reach: int) -> bool {
    forall|i: int| 0 <= i < chunks.len() ==> (#[trigger] chunks[i]).within(reach)
}

/// `chunk` lies outside the list and shares an edge with one of its chunks.
pub open spec fn borders(chunks: Seq<Chunk>, chunk: Chunk) -> bool {
    &&& !chunks.contains(chunk)
    &&& exists|i: int| 0 <= i < chunks.len() && (#[trigger] chunks[i]).touches(chunk)
}

/// Some chunk of `a` shares an edge with some chunk of `b`.
pub open spec fn lists_touch(a: Seq<Chunk>, b: Seq<Chunk>) -> bool {
    exists|i: int, j: int|
        0 <= i < a.len() && 0 <= j < b.len() && (#[trigger] a[i]).touches(#[trigger] b[j])
}

/// The chunks of the rectangle of the given width and height whose top
/// right corner is `corner`: column after column from the right, each
/// column from the top down.
pub open spec fn rectangle(corner: Chunk, width: nat, height: nat) -> Seq<Chunk> {
    Seq::new(
        width * height,
        |k: int| Chunk { x: (corner.x - k / height as int) as i32, y: (corner.y - k % height as int) as i32 },
    )
}

/// The chunks of the rectangle of the given width and height whose top
/// right corner is `corner`.
pub fn rectangle_chunks(corner: Chunk, width: u32, height: u32) -> (cells: Vec<Chunk>)
    requires
        i32::MIN <= corner.x - width + 1,
        i32::MIN <= corner.y - height + 1,
        width * height <= usize::MAX,
    ensures
        cells@ == rectangle(corner, width as nat, height as nat),
{
    let mut cells: Vec<Chunk> = Vec::new();
    let mut sub_x: u32 = 0;
    while sub_x < width
        invariant
            sub_x <= width,
            i32::MIN <= corner.x - width + 1,
            i32::MIN <= corner.y - height + 1,
            cells@.len() == sub_x * height,
            forall|k: int|
                0 <= k < cells@.len() ==> cells@[k] == rectangle(
                    corner,
                    width as nat,
                    height as nat,
                )[k],
        decreases width - sub_x,
    {
        let mut sub_y: u32 = 0;
        while sub_y < height
            invariant
                sub_x < width,
                sub_y <= height,
                i32::MIN <= corner.x - width + 1,
                i32::MIN <= corner.y - height + 1,
                cells@.len() == sub_x * height + sub_y,
                forall|k: int|
                    0 <= k < cells@.len() ==> cells@[k] == rectangle(
                        corner,
                        width as nat,
                        height as nat,
                    )[k],
            decreases height - sub_y,
        {
            proof {
                let k = sub_x * height + sub_y;
                lemma_fundamental_div_mod_converse(k, height as int, sub_x as int, sub_y as int);
                assert(k < width * height) by (nonlinear_arith)
                    requires
                        k == sub_x * height + sub_y,
                        sub_x < width,
                        sub_y < height,
                ;
            }
            let x: i64 = corner.x as i64 - sub_x as i64;
            let y: i64 = corner.y as i64 - sub_y as i64;
            cells.push(Chunk { x: x as i32, y: y as i32 });
            sub_y += 1;
        }
        proof {
            assert((sub_x + 1) * height == sub_x * height + height) by (nonlinear_arith);
        }
        sub_x += 1;
    }
    proof {
        assert(sub_x == width);
    }
    cells
}

/// An index into a rectangle splits into a column and a row.
pub proof fn lemma_column_and_row(k: int, width: nat, height: nat)
    requires
        0 <= k < width * height,
    ensures
        height > 0,
        0 <= k / (height as int) < width,
        0 <= k % (height as int) < height,
        k == height * (k / (height as int)) + k % (height as int),
{
    let h = height as int;
    assert(h > 0) by (nonlinear_arith)
        requires
            0 <= k < width * h,
            0 <= h,
    ;
    lemma_div_pos_is_pos(k, h);
    lemma_mod_pos_bound(k, h);
    lemma_multiply_divide_lt(k, h, width as int);
    lemma_fundamental_div_mod(k, h);
}

/// The chunks of a rectangle are those that lie up to `width` columns to
/// the left of its corner and up to `height` rows below it, each listed
/// once, the corner first.
pub proof fn lemma_rectangle(corner: Chunk, width: nat, height: nat)
    requires
        i32::MIN <= corner.x - width + 1,
        i32::MIN <= corner.y - height + 1,
    ensures
        rectangle(corner, width, height).len() == width * height,
        rectangle(corner, width, height).no_duplicates(),
        width * height > 0 ==> rectangle(corner, width, height)[0] == corner,
        forall|chunk: Chunk|
            rectangle(corner, width, height).contains(chunk) <==> corner.x - width < chunk.x
                <= corner.x && corner.y - height < chunk.y <= corner.y,
{
    let cells = rectangle(corner, width, height);
    let h = height as int;
    assert forall|i: int, j: int| 0 <= i < cells.len() && 0 <= j < cells.len() && i != j implies cells[i]
        != cells[j] by {
        lemma_column_and_row(i, width, height);
        lemma_column_and_row(j, width, height);
    }
    if width * height > 0 {
        let z = 0int;
        lemma_column_and_row(z, width, height);
        assert(z / h == 0 && z % h == 0) by (nonlinear_arith)
            requires
                0 <= z / h,
                0 <= z % h,
                0 < h,
                0 == h * (z / h) + z % h,
        ;
        assert(cells[0] == corner);
    }
    assert forall|chunk: Chunk|
        cells.contains(chunk) <==> corner.x - width < chunk.x <= corner.x && corner.y - height
            < chunk.y <= corner.y by {
        if cells.contains(chunk) {
            let k = choose|k: int| 0 <= k < cells.len() && cells[k] == chunk;
            lemma_column_and_row(k, width, height);
        }
        if corner.x - width < chunk.x <= corner.x && corner.y - height < chunk.y <= corner.y {
            let q = corner.x - chunk.x;
            let r = corner.y - chunk.y;
            let k = q * h + r;
            lemma_fundamental_div_mod_converse(k, h, q, r);
            assert(0 <= k < width * h) by (nonlinear_arith)
                requires
                    k == q * h + r,
                    0 <= q < width,
                    0 <= r < h,
            ;
            assert(cells[k] == chunk);
        }
    }
}

/// The list holds the chunks that lie up to `width` columns to the left of
/// `corner` and up to `height` rows below it, and no other chunk.
pub open spec fn covers_from(chunks: Seq<Chunk>, corner: Chunk, width: int, height: int) -> bool {
    forall|chunk: Chunk|
        #[trigger] chunks.contains(chunk) <==> corner.x - width < chunk.x <= corner.x && corner.y
            - height < chunk.y <= corner.y
}

/// The list holds the chunks of some rectangle of the given width and
/// height, each once, and no other chunk.
pub open spec fn fills_rectangle(chunks: Seq<Chunk>, width: int, height: int) -> bool {
    &&& chunks.len() == width * height
    &&& chunks.no_duplicates()
    &&& exists|corner: Chunk| covers_from(chunks, corner, width, height)
}

/// Each chunk of the list after the first shares an edge with the one
/// before it.
pub open spec fn is_walk(chunks: Seq<Chunk>) -> bool {
    forall|i: int| 0 < i < chunks.len() ==> chunks[i - 1].touches(#[trigger] chunks[i])
}

/// Two chunks share an edge exactly when their Euclidean distance is one.
pub proof fn lemma_touches_is_unit_distance(a: Chunk, b: Chunk)
    ensures
        a.touches(b) <==> a.distance_squared(b) == 1,
{
    let dx = a.x - b.x;
    let dy = a.y - b.y;
    assert(dx * dx >= 0 && dy * dy >= 0 && (dx * dx == 0 <==> dx == 0) && (dy * dy == 0 <==> dy
        == 0) && (dx * dx == 1 <==> dx == 1 || dx == -1) && (dy * dy == 1 <==> dy == 1 || dy
        == -1)) by (nonlinear_arith);
}

/// A chunk is a neighbour of `chunk` exactly when it is listed by
/// `surrounding`.
pub proof fn lemma_surrounding_touches(chunk: Chunk, other: Chunk)
    requires
        chunk.inner(),
    ensures
        surrounding(chunk).contains(other) <==> chunk.touches(other),
{
    let s = surrounding(chunk);
    if chunk.touches(other) {
        if other == s[0] {
        } else if other == s[1] {
        } else if other == s[2] {
        } else {
            assert(other == s[3]);
        }
    }
}

} // verus!
