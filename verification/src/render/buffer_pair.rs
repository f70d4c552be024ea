//! Vertex and index memory that is filled sprite by sprite.
//!
//! A pair takes sprites until the next one would cross [`TRIP_VERTEX_COUNT`];
//! the renderer then goes on with another pair. The limit keeps every index
//! within 16 bits.
//!
//! A pair is drawn without per-sprite constants, so position, size, texture
//! region and tint of each sprite are baked into its vertices.

use vstd::prelude::*;

use crate::draw::vertex::{
    indices_as_bytes, indices_in_memory, words_as_bytes, words_in_memory, Vertex2D, VERTEX_WORDS,
};

verus! {

/// Vertices at which a pair is closed.
pub const TRIP_VERTEX_COUNT: usize = 65_493;

/// Vertices that a pair has room for.
pub const BUFFER_VERTEX_CAPACITY: usize = 65_536;

/// Indices that a pair has room for: six for each four vertices.
pub const BUFFER_INDEX_CAPACITY: usize = 98_304;

/// Sprites that a pair takes.
pub const SPRITES_PER_PAIR: usize = 16_373;

/// A sprite with its corners, texture region and tint worked out. The floats
/// are bit patterns.
#[derive(Clone, Copy, Debug)]
pub struct BakedSprite {
    /// Top-left corner in world pixels.
    pub x0: u32,
    pub y0: u32,
    /// Bottom-right corner in world pixels.
    pub x1: u32,
    pub y1: u32,
    /// Top-left corner of the texture region.
    pub u0: u32,
    pub v0: u32,
    /// Bottom-right corner of the texture region.
    pub u1: u32,
    pub v1: u32,
    pub tint: [u32; 4],
    /// The mesh that the sprite asks for.
    pub mesh_idx: u8,
}

impl BakedSprite {
    /// The vertices of the sprite, from the top left clockwise.
    pub open spec fn quad(&self) -> Seq<Vertex2D> {
        seq![
            Vertex2D { pos: [self.x0, self.y0], color: self.tint, uv: [self.u0, self.v0] },
            Vertex2D { pos: [self.x1, self.y0], color: self.tint, uv: [self.u1, self.v0] },
            Vertex2D { pos: [self.x1, self.y1], color: self.tint, uv: [self.u1, self.v1] },
            Vertex2D { pos: [self.x0, self.y1], color: self.tint, uv: [self.u0, self.v1] },
        ]
    }

    /// The words of the vertices.
    pub open spec fn quad_words(&self) -> Seq<u32> {
        self.quad()[0].words() + self.quad()[1].words() + self.quad()[2].words()
            + self.quad()[3].words()
    }

    /// Appends the four vertices.
    fn append_quad(&self, words: &mut Vec<u32>)
        ensures
            final(words)@ == old(words)@ + self.quad_words(),
    {
        Vertex2D::new([self.x0, self.y0], self.tint, [self.u0, self.v0]).append_to(words);
        Vertex2D::new([self.x1, self.y0], self.tint, [self.u1, self.v0]).append_to(words);
        Vertex2D::new([self.x1, self.y1], self.tint, [self.u1, self.v1]).append_to(words);
        Vertex2D::new([self.x0, self.y1], self.tint, [self.u0, self.v1]).append_to(words);
        assert(words@ =~= old(words)@ + self.quad_words());
    }
}

/// The words of the vertices of a row of sprites.
pub open spec fn sprite_words(sprites: Seq<BakedSprite>) -> Seq<u32>
    decreases sprites.len(),
{
    if sprites.len() == 0 {
        Seq::empty()
    } else {
        sprite_words(sprites.drop_last()) + sprites.last().quad_words()
    }
}

/// Which corner of a quad its index `k` names: two triangles, 0-1-2 and 0-2-3.
pub open spec fn quad_corner(k: int) -> int {
    if k == 0 || k == 3 {
        0
    } else if k == 1 {
        1
    } else if k == 2 || k == 4 {
        2
    } else {
        3
    }
}

/// The indices of `quads` quads.
pub open spec fn quad_indices(quads: nat) -> Seq<u16> {
    Seq::new(6 * quads, |k: int| (4 * (k / 6) + quad_corner(k % 6)) as u16)
}

/// Whether a pair took all sprites.
#[derive(Clone, Copy, Debug, PartialEq, Eq, Structural)]
pub enum PopulateOutcome {
    /// There are no more sprites.
    Exhausted,
    /// The pair is full; the next one goes on at this sprite.
    Continue { next_start: usize },
}

/// How many of `total` sprites a pair takes from `start` on.
pub open spec fn sprites_taken(total: int, start: int) -> int {
    if start >= total {
        0
    } else if total - start <= SPRITES_PER_PAIR {
        total - start
    } else {
        SPRITES_PER_PAIR as int
    }
}

/// Vertex and index memory for up to [`SPRITES_PER_PAIR`] sprites.
pub struct RenderBufferPair {
    /// The words of the vertices.
    pub vertices: Vec<u32>,
    pub indices: Vec<u16>,
    /// The sprites `start_sprite_idx..end_sprite_idx` are packed in this pair.
    pub start_sprite_idx: usize,
    pub end_sprite_idx: usize,
    pub vertex_count: usize,
    pub index_count: usize,
}

impl RenderBufferPair {
    /// The counts belong to the contents, and the contents fit the memory.
    pub open spec fn wf(&self) -> bool {
        &&& self.vertices@.len() == VERTEX_WORDS * self.vertex_count
        &&& self.indices@.len() == self.index_count
        &&& 2 * self.index_count == 3 * self.vertex_count
        &&& self.vertex_count <= TRIP_VERTEX_COUNT
    }

    /// The pair holds the sprites `start..start + taken`.
    pub open spec fn holds(&self, sprites: Seq<BakedSprite>, start: int, taken: int) -> bool {
        &&& self.start_sprite_idx == start
        &&& self.end_sprite_idx == start + taken
        &&& self.vertex_count == 4 * taken
        &&& self.index_count == 6 * taken
        &&& self.vertices@ == sprite_words(sprites.subrange(start, start + taken))
        &&& self.indices@ == quad_indices(taken as nat)
    }

    /// An empty pair.
    pub fn new() -> (pair: Self)
        ensures
            pair.wf(),
            pair.start_sprite_idx == 0,
            pair.end_sprite_idx == 0,
            pair.vertex_count == 0,
            pair.index_count == 0,
    {
        RenderBufferPair {
            vertices: Vec::new(),
            indices: Vec::new(),
            start_sprite_idx: 0,
            end_sprite_idx: 0,
            vertex_count: 0,
            index_count: 0,
        }
    }

    /// Empties the pair; its memory is kept.
    pub fn reset(&mut self)
        ensures
            final(self).wf(),
            final(self).start_sprite_idx == 0,
            final(self).end_sprite_idx == 0,
            final(self).vertex_count == 0,
            final(self).index_count == 0,
    {
        self.vertices.clear();
        self.indices.clear();
        self.start_sprite_idx = 0;
        self.end_sprite_idx = 0;
        self.vertex_count = 0;
        self.index_count = 0;
    }

    /// Packs sprites from `start` on, in their order, until the pair is full.
    pub fn populate(&mut self, sprites: &[BakedSprite], start: usize) -> (outcome: PopulateOutcome)
        ensures
            final(self).wf(),
            start <= sprites@.len() ==> final(self).holds(
                sprites@,
                start as int,
                sprites_taken(sprites@.len() as int, start as int),
            ),
            start > sprites@.len() ==> final(self).start_sprite_idx == start
                && final(self).end_sprite_idx == sprites@.len() && final(self).vertex_count == 0,
            outcome == if start + sprites_taken(sprites@.len() as int, start as int)
                < sprites@.len() {
                PopulateOutcome::Continue {
                    next_start: (start + SPRITES_PER_PAIR) as usize,
                }
            } else {
                PopulateOutcome::Exhausted
            },
    {
        self.start_sprite_idx = start;
        self.vertices.clear();
        self.indices.clear();
        self.vertex_count = 0;
        self.index_count = 0;
        let mut i: usize = start;
        if start <= sprites.len() {
            assert(sprites@.subrange(start as int, start as int) =~= Seq::empty());
        }
        assert(self.indices@ =~= quad_indices(0));
        while i < sprites.len()
            invariant
                start <= i,
                i <= sprites@.len() || i == start,
                self.start_sprite_idx == start,
                self.vertex_count == 4 * (i - start),
                self.index_count == 6 * (i - start),
                i - start <= SPRITES_PER_PAIR,
                start <= sprites@.len() ==> self.vertices@ == sprite_words(
                    sprites@.subrange(start as int, i as int),
                ),
                self.indices@ == quad_indices((i - start) as nat),
                self.vertices@.len() == VERTEX_WORDS * self.vertex_count,
            decreases sprites@.len() - i,
        {
            if self.vertex_count + 4 > TRIP_VERTEX_COUNT {
                self.end_sprite_idx = i;
                return PopulateOutcome::Continue { next_start: i };
            }
            let sprite: BakedSprite = sprites[i];
            assert(sprites@.subrange(start as int, i + 1).drop_last() =~= sprites@.subrange(
                start as int,
                i as int,
            ));
            sprite.append_quad(&mut self.vertices);
            let base: u16 = self.vertex_count as u16;
            let ghost before = self.indices@;
            self.indices.push(base);
            self.indices.push(base + 1);
            self.indices.push(base + 2);
            self.indices.push(base);
            self.indices.push(base + 2);
            self.indices.push(base + 3);
            proof {
                lemma_quad_indices_grow(before, (i - start) as nat, base);
                assert(self.indices@ =~= before + seq![
                    base,
                    (base + 1) as u16,
                    (base + 2) as u16,
                    base,
                    (base + 2) as u16,
                    (base + 3) as u16,
                ]);
            }
            self.vertex_count += 4;
            self.index_count += 6;
            i += 1;
        }
        self.end_sprite_idx = sprites.len();
        PopulateOutcome::Exhausted
    }

    /// The vertex memory, byte by byte.
    pub fn vertex_bytes(&self) -> (bytes: &[u8])
        ensures
            exists|highest_first: bool| bytes@ == #[trigger] words_in_memory(
                self.vertices@,
                highest_first,
            ),
    {
        words_as_bytes(&self.vertices)
    }

    /// The index memory, byte by byte.
    pub fn index_bytes(&self) -> (bytes: &[u8])
        ensures
            exists|highest_first: bool| bytes@ == #[trigger] indices_in_memory(
                self.indices@,
                highest_first,
            ),
    {
        indices_as_bytes(&self.indices)
    }
}

proof fn lemma_quad_indices_grow(before: Seq<u16>, quads: nat, base: u16)
    requires
        before == quad_indices(quads),
        base == 4 * quads,
        quads < SPRITES_PER_PAIR,
    ensures
        before + seq![
            base,
            (base + 1) as u16,
            (base + 2) as u16,
            base,
            (base + 2) as u16,
            (base + 3) as u16,
        ] == quad_indices(quads + 1),
{
    let grown = before + seq![
        base,
        (base + 1) as u16,
        (base + 2) as u16,
        base,
        (base + 2) as u16,
        (base + 3) as u16,
    ];
    assert forall|k: int| 0 <= k < grown.len() implies grown[k] == quad_indices(quads + 1)[k] by {
        if k >= 6 * quads {
            assert(k / 6 == quads && k % 6 == k - 6 * quads);
        }
    }
    assert(grown =~= quad_indices(quads + 1));
}

/// Every index of a pair names one of its vertices, and 16 bits are enough for
/// it.
pub proof fn law_indices_name_vertices(pair: RenderBufferPair, quads: nat, k: int)
    requires
        pair.wf(),
        pair.indices@ == quad_indices(quads),
        pair.vertex_count == 4 * quads,
        0 <= k < pair.indices@.len(),
    ensures
        pair.indices@[k] < pair.vertex_count,
        pair.indices@[k] == 4 * (k / 6) + quad_corner(k % 6),
        pair.vertex_count <= u16::MAX,
{
}

/// A pair never outgrows its memory.
pub proof fn law_pair_fits_memory(pair: RenderBufferPair)
    requires
        pair.wf(),
    ensures
        pair.vertex_count <= BUFFER_VERTEX_CAPACITY,
        pair.index_count <= BUFFER_INDEX_CAPACITY,
        4 * pair.vertices@.len() <= Vertex2D::STRIDE * BUFFER_VERTEX_CAPACITY,
        2 * pair.indices@.len() <= 2 * BUFFER_INDEX_CAPACITY,
        BUFFER_INDEX_CAPACITY == (BUFFER_VERTEX_CAPACITY / 4) * 6,
{
}

proof fn lemma_sprite_words_len(sprites: Seq<BakedSprite>)
    ensures
        sprite_words(sprites).len() == 32 * sprites.len(),
    decreases sprites.len(),
{
    if sprites.len() > 0 {
        lemma_sprite_words_len(sprites.drop_last());
    }
}

proof fn lemma_sprite_words_by_index(sprites: Seq<BakedSprite>, k: int, w: int)
    requires
        0 <= k < sprites.len(),
        0 <= w < 32,
    ensures
        sprite_words(sprites).len() == 32 * sprites.len(),
        sprites[k].quad_words().len() == 32,
        sprite_words(sprites)[32 * k + w] == sprites[k].quad_words()[w],
    decreases sprites.len(),
{
    let rest = sprites.drop_last();
    lemma_sprite_words_len(rest);
    lemma_sprite_words_len(sprites);
    if k < rest.len() {
        lemma_sprite_words_by_index(rest, k, w);
    }
}

/// A pair holds the corners of each sprite that it took, and of no other: vertex
/// `4 * k + c` is corner `c` of sprite `start + k`, with that sprite's place, tint
/// and part of the texture. The corners go round from the top left: the left ones
/// are 0 and 3, the upper ones 0 and 1.
pub proof fn law_pair_holds_corners_of_each_sprite(
    pair: RenderBufferPair,
    sprites: Seq<BakedSprite>,
    start: int,
    taken: int,
    k: int,
    c: int,
)
    requires
        pair.holds(sprites, start, taken),
        0 <= start,
        start + taken <= sprites.len(),
        0 <= k < taken,
        0 <= c < 4,
    ensures
        ({
            let words = pair.vertices@;
            let at = 8 * (4 * k + c);
            let sprite = sprites[start + k];
            &&& words.len() == 32 * taken
            &&& words[at] == if c == 0 || c == 3 {
                sprite.x0
            } else {
                sprite.x1
            }
            &&& words[at + 1] == if c == 0 || c == 1 {
                sprite.y0
            } else {
                sprite.y1
            }
            &&& words[at + 2] == sprite.tint[0]
            &&& words[at + 3] == sprite.tint[1]
            &&& words[at + 4] == sprite.tint[2]
            &&& words[at + 5] == sprite.tint[3]
            &&& words[at + 6] == if c == 0 || c == 3 {
                sprite.u0
            } else {
                sprite.u1
            }
            &&& words[at + 7] == if c == 0 || c == 1 {
                sprite.v0
            } else {
                sprite.v1
            }
        }),
{
    let row = sprites.subrange(start, start + taken);
    assert(row[k] == sprites[start + k]);
    lemma_sprite_words_len(row);
    let b = 8 * c;
    lemma_sprite_words_by_index(row, k, b);
    lemma_sprite_words_by_index(row, k, b + 1);
    lemma_sprite_words_by_index(row, k, b + 2);
    lemma_sprite_words_by_index(row, k, b + 3);
    lemma_sprite_words_by_index(row, k, b + 4);
    lemma_sprite_words_by_index(row, k, b + 5);
    lemma_sprite_words_by_index(row, k, b + 6);
    lemma_sprite_words_by_index(row, k, b + 7);
}

/// Every sprite of a pair is drawn as two triangles over its own four vertices,
/// split along the diagonal from corner 0 to corner 2.
pub proof fn law_pair_draws_two_triangles_per_sprite(
    pair: RenderBufferPair,
    sprites: Seq<BakedSprite>,
    start: int,
    taken: int,
    k: int,
)
    requires
        pair.holds(sprites, start, taken),
        0 <= k < taken <= 16373,
    ensures
        pair.indices@.len() == 6 * taken,
        pair.indices@[6 * k] == 4 * k,
        pair.indices@[6 * k + 1] == 4 * k + 1,
        pair.indices@[6 * k + 2] == 4 * k + 2,
        pair.indices@[6 * k + 3] == 4 * k,
        pair.indices@[6 * k + 4] == 4 * k + 2,
        pair.indices@[6 * k + 5] == 4 * k + 3,
{
}

/// A pair takes what is left, up to 16373 sprites, and never stops short of both.
/// One more sprite would be one vertex too many for it.
pub proof fn law_pair_takes_what_fits(total: int, start: int)
    requires
        0 <= start <= total,
    ensures
        0 <= sprites_taken(total, start) <= 16373,
        start + sprites_taken(total, start) <= total,
        sprites_taken(total, start) == 16373 || start + sprites_taken(total, start) == total,
        SPRITES_PER_PAIR == 16373,
        4 * SPRITES_PER_PAIR <= TRIP_VERTEX_COUNT < 4 * (SPRITES_PER_PAIR + 1),
        TRIP_VERTEX_COUNT == 65493,
        BUFFER_VERTEX_CAPACITY == 65536,
        BUFFER_INDEX_CAPACITY == 98304,
{
}

} // verus!
