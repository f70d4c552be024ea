//! The engine's vertex format, and how it lies in memory.
//!
//! Coordinates, colours and texture coordinates are single-precision floats.
//! The library moves them about but never computes with them, so it holds each
//! one as its bit pattern.

use vstd::prelude::*;

verus! {

/// Bit pattern of the float 0.
pub const ZERO_BITS: u32 = 0;

/// Bit pattern of the float 1.
pub const ONE_BITS: u32 = 0x3f80_0000;

/// Words of one vertex.
pub const VERTEX_WORDS: usize = 8;

/// Byte offset of the position in a vertex.
pub const POS_OFFSET: u32 = 0;

/// Byte offset of the colour in a vertex.
pub const COLOR_OFFSET: u32 = 8;

/// Byte offset of the texture coordinates in a vertex.
pub const UV_OFFSET: u32 = 24;

/// A sprite vertex, its floats as bit patterns.
#[derive(Clone, Copy, Debug, PartialEq)]
pub struct Vertex2D {
    /// Position, origin top left, y down.
    pub pos: [u32; 2],
    /// Tint that the texture sample is multiplied with.
    pub color: [u32; 4],
    /// Texture coordinates, origin top left.
    pub uv: [u32; 2],
}

impl Vertex2D {
    /// Bytes from one vertex to the next.
    pub const STRIDE: u32 = 32;

    /// The vertex as it lies in memory, word by word.
    pub open spec fn words(&self) -> Seq<u32> {
        self.pos@ + self.color@ + self.uv@
    }

    pub fn new(pos: [u32; 2], color: [u32; 4], uv: [u32; 2]) -> (v: Self)
        ensures
            v.pos == pos,
            v.color == color,
            v.uv == uv,
    {
        Vertex2D { pos, color, uv }
    }

    /// Appends the words of the vertex.
    pub fn append_to(&self, words: &mut Vec<u32>)
        ensures
            final(words)@ == old(words)@ + self.words(),
    {
        words.push(self.pos[0]);
        words.push(self.pos[1]);
        words.push(self.color[0]);
        words.push(self.color[1]);
        words.push(self.color[2]);
        words.push(self.color[3]);
        words.push(self.uv[0]);
        words.push(self.uv[1]);
        assert(words@ =~= old(words)@ + self.words());
    }
}

/// The bytes of a word, lowest first or highest first.
pub open spec fn word_bytes(word: u32, highest_first: bool) -> Seq<u8> {
    let b0 = (word % 256) as u8;
    let b1 = ((word / 256) % 256) as u8;
    let b2 = ((word / 65536) % 256) as u8;
    let b3 = ((word / 16777216) % 256) as u8;
    if highest_first {
        seq![b3, b2, b1, b0]
    } else {
        seq![b0, b1, b2, b3]
    }
}

/// The bytes of a row of words.
pub open spec fn words_in_memory(words: Seq<u32>, highest_first: bool) -> Seq<u8> {
    Seq::new(4 * words.len(), |i: int| word_bytes(words[i / 4], highest_first)[i % 4])
}

/// The bytes of an index, lowest first or highest first.
pub open spec fn index_bytes(index: u16, highest_first: bool) -> Seq<u8> {
    let b0 = (index % 256) as u8;
    let b1 = (index / 256) as u8;
    if highest_first {
        seq![b1, b0]
    } else {
        seq![b0, b1]
    }
}

/// The bytes of a row of indices.
pub open spec fn indices_in_memory(indices: Seq<u16>, highest_first: bool) -> Seq<u8> {
    Seq::new(2 * indices.len(), |i: int| index_bytes(indices[i / 2], highest_first)[i % 2])
}

/// Calls `bytemuck::cast_slice` from words to bytes: the same memory, read byte
/// by byte. Which end of a word comes first is up to the machine.
#[verifier::external_body]
pub(crate) fn words_as_bytes(words: &[u32]) -> (bytes: &[u8])
    ensures
        exists|highest_first: bool| bytes@ == #[trigger] words_in_memory(words@, highest_first),
{
    bytemuck::cast_slice(words)
}

/// Calls `bytemuck::cast_slice` from indices to bytes: the same memory, read
/// byte by byte. Which end of an index comes first is up to the machine.
#[verifier::external_body]
pub(crate) fn indices_as_bytes(indices: &[u16]) -> (bytes: &[u8])
    ensures
        exists|highest_first: bool| bytes@ == #[trigger] indices_in_memory(
            indices@,
            highest_first,
        ),
{
    bytemuck::cast_slice(indices)
}

/// The attributes of vertex `i` begin at its offsets within its stride.
pub proof fn law_vertex_layout(vertices: Seq<Vertex2D>, words: Seq<u32>, i: int, b: bool)
    requires
        0 <= i < vertices.len(),
        words.len() == VERTEX_WORDS * vertices.len(),
        words.subrange(VERTEX_WORDS * i, VERTEX_WORDS * i + VERTEX_WORDS) == vertices[i].words(),
    ensures
        ({
            let bytes = words_in_memory(words, b);
            let at = Vertex2D::STRIDE * i;
            &&& forall|k: int, c: int|
                0 <= k < 4 && 0 <= c < 2 ==> #[trigger] bytes[at + POS_OFFSET + 4 * c + k]
                    == word_bytes(vertices[i].pos[c], b)[k]
            &&& forall|k: int, c: int|
                0 <= k < 4 && 0 <= c < 4 ==> #[trigger] bytes[at + COLOR_OFFSET + 4 * c + k]
                    == word_bytes(vertices[i].color[c], b)[k]
            &&& forall|k: int, c: int|
                0 <= k < 4 && 0 <= c < 2 ==> #[trigger] bytes[at + UV_OFFSET + 4 * c + k]
                    == word_bytes(vertices[i].uv[c], b)[k]
        }),
{
    let vertex = words.subrange(VERTEX_WORDS * i, VERTEX_WORDS * i + VERTEX_WORDS);
    assert forall|w: int, k: int| 0 <= w < 8 && 0 <= k < 4 implies #[trigger] words_in_memory(
        words,
        b,
    )[32 * i + 4 * w + k] == word_bytes(vertex[w], b)[k] by {
        assert(vertex[w] == words[8 * i + w]);
    }
    assert(vertex[0] == vertices[i].pos[0] && vertex[1] == vertices[i].pos[1]);
    assert(vertex[2] == vertices[i].color[0] && vertex[3] == vertices[i].color[1]);
    assert(vertex[4] == vertices[i].color[2] && vertex[5] == vertices[i].color[3]);
    assert(vertex[6] == vertices[i].uv[0] && vertex[7] == vertices[i].uv[1]);
    assert forall|k: int, c: int| 0 <= k < 4 && 0 <= c < 2 implies #[trigger] words_in_memory(
        words,
        b,
    )[32 * i + 0 + 4 * c + k] == word_bytes(vertices[i].pos[c], b)[k] by {
        assert(words_in_memory(words, b)[32 * i + 4 * c + k] == word_bytes(vertex[c], b)[k]);
    }
    assert forall|k: int, c: int| 0 <= k < 4 && 0 <= c < 4 implies #[trigger] words_in_memory(
        words,
        b,
    )[32 * i + 8 + 4 * c + k] == word_bytes(vertices[i].color[c], b)[k] by {
        assert(words_in_memory(words, b)[32 * i + 4 * (c + 2) + k] == word_bytes(
            vertex[c + 2],
            b,
        )[k]);
    }
    assert forall|k: int, c: int| 0 <= k < 4 && 0 <= c < 2 implies #[trigger] words_in_memory(
        words,
        b,
    )[32 * i + 24 + 4 * c + k] == word_bytes(vertices[i].uv[c], b)[k] by {
        assert(words_in_memory(words, b)[32 * i + 4 * (c + 6) + k] == word_bytes(
            vertex[c + 6],
            b,
        )[k]);
    }
}

/// A vertex is eight words: two of position, four of colour, two of texture
/// coordinates, each in its own order.
pub proof fn law_vertex_words(v: Vertex2D)
    ensures
        v.words().len() == 8,
        v.words()[0] == v.pos[0],
        v.words()[1] == v.pos[1],
        v.words()[2] == v.color[0],
        v.words()[3] == v.color[1],
        v.words()[4] == v.color[2],
        v.words()[5] == v.color[3],
        v.words()[6] == v.uv[0],
        v.words()[7] == v.uv[1],
        POS_OFFSET == 4 * 0,
        COLOR_OFFSET == 4 * 2,
        UV_OFFSET == 4 * 6,
        Vertex2D::STRIDE == 4 * 8,
{
}

/// The four bytes of a word make it up again, whichever end comes first.
pub proof fn law_word_is_made_of_its_bytes(words: Seq<u32>, i: int, highest_first: bool)
    requires
        0 <= i < words.len(),
    ensures
        ({
            let bytes = words_in_memory(words, highest_first);
            let at = 4 * i;
            &&& bytes.len() == 4 * words.len()
            &&& highest_first ==> words[i] == ((bytes[at] * 256 + bytes[at + 1]) * 256 + bytes[at
                + 2]) * 256 + bytes[at + 3]
            &&& !highest_first ==> words[i] == ((bytes[at + 3] * 256 + bytes[at + 2]) * 256
                + bytes[at + 1]) * 256 + bytes[at]
        }),
{
    let bytes = words_in_memory(words, highest_first);
    let word = words[i];
    assert(bytes[4 * i] == word_bytes(word, highest_first)[0]);
    assert(bytes[4 * i + 1] == word_bytes(word, highest_first)[1]);
    assert(bytes[4 * i + 2] == word_bytes(word, highest_first)[2]);
    assert(bytes[4 * i + 3] == word_bytes(word, highest_first)[3]);
}

/// The two bytes of an index make it up again, whichever end comes first.
pub proof fn law_index_is_made_of_its_bytes(indices: Seq<u16>, i: int, highest_first: bool)
    requires
        0 <= i < indices.len(),
    ensures
        ({
            let bytes = indices_in_memory(indices, highest_first);
            let at = 2 * i;
            &&& bytes.len() == 2 * indices.len()
            &&& highest_first ==> indices[i] == bytes[at] * 256 + bytes[at + 1]
            &&& !highest_first ==> indices[i] == bytes[at + 1] * 256 + bytes[at]
        }),
{
    let bytes = indices_in_memory(indices, highest_first);
    assert(bytes[2 * i] == index_bytes(indices[i], highest_first)[0]);
    assert(bytes[2 * i + 1] == index_bytes(indices[i], highest_first)[1]);
}

} // verus!
