//! Sprites, and the quad that they share.

use vstd::prelude::*;

use crate::draw::animation::AnimationState;
use crate::draw::vertex::{words_as_bytes, words_in_memory, Vertex2D, ONE_BITS, ZERO_BITS};
use crate::draw::vertex::{indices_as_bytes, indices_in_memory};
use crate::render::buffer_pair::{quad_indices, BakedSprite};
use crate::render::sort::{IsoBounds, IsoSortable};

verus! {

/// State of a sprite. Floats are bit patterns; logic coordinates are integers.
#[derive(Clone, Copy, Debug)]
pub struct Sprite {
    /// Top left in world pixels.
    pub pos: [u32; 2],
    /// Size in world pixels.
    pub size: [u32; 2],
    /// Pixels per second; not used by the engine.
    pub velocity: [u32; 2],
    /// Colour that the texture sample is multiplied with.
    pub tint: [u32; 4],
    /// Front corner in logic space. Zero for sprites outside the world.
    pub iso_grid: (i32, i32),
    /// Size of the footprint in logic space.
    pub iso_grid_size: (i32, i32),
    /// Top left of the texture region.
    pub uv_offset: [u32; 2],
    /// Size of the texture region.
    pub uv_scale: [u32; 2],
    /// The mesh that the sprite asks for.
    pub mesh_idx: u8,
    /// Playback, or none for a static sprite.
    pub anim: Option<AnimationState>,
}

impl Sprite {
    /// A static sprite outside the world that shows the whole texture of the
    /// first mesh.
    pub fn new(pos: [u32; 2], size: [u32; 2], velocity: [u32; 2], tint: [u32; 4]) -> (s: Self)
        ensures
            s.pos == pos,
            s.size == size,
            s.velocity == velocity,
            s.tint == tint,
            s.iso_grid == (0i32, 0i32),
            s.iso_grid_size == (0i32, 0i32),
            s.uv_offset@ == seq![ZERO_BITS, ZERO_BITS],
            s.uv_scale@ == seq![ONE_BITS, ONE_BITS],
            s.mesh_idx == 0,
            s.anim is None,
    {
        let s = Sprite {
            pos,
            size,
            velocity,
            tint,
            iso_grid: (0, 0),
            iso_grid_size: (0, 0),
            uv_offset: [ZERO_BITS, ZERO_BITS],
            uv_scale: [ONE_BITS, ONE_BITS],
            mesh_idx: 0,
            anim: None,
        };
        assert(s.uv_offset@ =~= seq![ZERO_BITS, ZERO_BITS]);
        assert(s.uv_scale@ =~= seq![ONE_BITS, ONE_BITS]);
        s
    }
}

impl IsoSortable for Sprite {
    open spec fn footprint(&self) -> IsoBounds {
        IsoBounds {
            iso_x1: (self.iso_grid.0 - self.iso_grid_size.0) as i32,
            iso_y1: (self.iso_grid.1 - self.iso_grid_size.1) as i32,
            iso_x2: self.iso_grid.0,
            iso_y2: self.iso_grid.1,
            index: 0,
        }
    }

    open spec fn footprint_fits(&self) -> bool {
        &&& i32::MIN <= self.iso_grid.0 - self.iso_grid_size.0 <= i32::MAX
        &&& i32::MIN <= self.iso_grid.1 - self.iso_grid_size.1 <= i32::MAX
    }

    fn iso_bounds(&self) -> (b: IsoBounds) {
        IsoBounds::from_grid(self.iso_grid, self.iso_grid_size)
    }
}

/// The unit square with the whole texture, white.
pub open spec fn unit_sprite() -> BakedSprite {
    BakedSprite {
        x0: ZERO_BITS,
        y0: ZERO_BITS,
        x1: ONE_BITS,
        y1: ONE_BITS,
        u0: ZERO_BITS,
        v0: ZERO_BITS,
        u1: ONE_BITS,
        v1: ONE_BITS,
        tint: [ONE_BITS, ONE_BITS, ONE_BITS, ONE_BITS],
        mesh_idx: 0,
    }
}

/// Geometry of the quad that sprites share.
pub struct SpriteMesh {
    /// The words of the vertices.
    pub vertices: Vec<u32>,
    pub indices: Vec<u16>,
}

impl SpriteMesh {
    /// The unit square: two triangles, the whole texture, white.
    pub fn unit_quad() -> (mesh: Self)
        ensures
            mesh.vertices@ == unit_sprite().quad_words(),
            mesh.indices@ == quad_indices(1),
            mesh.indices@ == seq![0u16, 1, 2, 0, 2, 3],
    {
        let white: [u32; 4] = [ONE_BITS, ONE_BITS, ONE_BITS, ONE_BITS];
        let mut vertices: Vec<u32> = Vec::new();
        Vertex2D::new([ZERO_BITS, ZERO_BITS], white, [ZERO_BITS, ZERO_BITS]).append_to(
            &mut vertices,
        );
        Vertex2D::new([ONE_BITS, ZERO_BITS], white, [ONE_BITS, ZERO_BITS]).append_to(
            &mut vertices,
        );
        Vertex2D::new([ONE_BITS, ONE_BITS], white, [ONE_BITS, ONE_BITS]).append_to(&mut vertices);
        Vertex2D::new([ZERO_BITS, ONE_BITS], white, [ZERO_BITS, ONE_BITS]).append_to(
            &mut vertices,
        );
        let mut indices: Vec<u16> = Vec::new();
        indices.push(0);
        indices.push(1);
        indices.push(2);
        indices.push(0);
        indices.push(2);
        indices.push(3);
        assert(white@ =~= unit_sprite().tint@);
        assert(vertices@ =~= unit_sprite().quad_words());
        assert(indices@ =~= quad_indices(1));
        SpriteMesh { vertices, indices }
    }

    /// The vertex memory, byte by byte.
    pub fn vertex_bytes(&self) -> (bytes: &[u8])
        ensures
            exists|highest_first: bool| bytes@ == #[trigger] words_in_memory(
                self.vertices@,
                highest_first,
            ),
    {
        words_as_bytes(&self.vertices)
    }

    /// The index memory, byte by byte.
    pub fn index_bytes(&self) -> (bytes: &[u8])
        ensures
            exists|highest_first: bool| bytes@ == #[trigger] indices_in_memory(
                self.indices@,
                highest_first,
            ),
    {
        indices_as_bytes(&self.indices)
    }
}

/// A footprint ends at the sprite's grid point and reaches back by the sprite's
/// size, in x and y alike.
pub proof fn law_footprint_ends_at_grid_point(s: Sprite)
    requires
        s.footprint_fits(),
    ensures
        s.footprint().iso_x2 == s.iso_grid.0,
        s.footprint().iso_y2 == s.iso_grid.1,
        s.footprint().iso_x1 + s.iso_grid_size.0 == s.iso_grid.0,
        s.footprint().iso_y1 + s.iso_grid_size.1 == s.iso_grid.1,
{
}

/// The shared quad is the unit square, from 0 to 1 both in place and in texture,
/// in white: corner `c` of it, in the order top left, top right, bottom right,
/// bottom left. `0x3f800000` is the float 1.
pub proof fn law_unit_quad_is_unit_square(c: int)
    requires
        0 <= c < 4,
    ensures
        ({
            let words = unit_sprite().quad_words();
            let right: u32 = if c == 1 || c == 2 {
                0x3f80_0000
            } else {
                0
            };
            let below: u32 = if c == 2 || c == 3 {
                0x3f80_0000
            } else {
                0
            };
            &&& words.len() == 32
            &&& words[8 * c] == right
            &&& words[8 * c + 1] == below
            &&& words[8 * c + 2] == 0x3f80_0000
            &&& words[8 * c + 3] == 0x3f80_0000
            &&& words[8 * c + 4] == 0x3f80_0000
            &&& words[8 * c + 5] == 0x3f80_0000
            &&& words[8 * c + 6] == right
            &&& words[8 * c + 7] == below
        }),
{
}

} // verus!
