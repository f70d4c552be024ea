//! Layout of what the sprite shaders read.

use vstd::prelude::*;

use crate::draw::vertex::{
    words_as_bytes, words_in_memory, Vertex2D, COLOR_OFFSET, ONE_BITS, POS_OFFSET, UV_OFFSET,
    ZERO_BITS,
};
use crate::render::sprite::Sprite;

verus! {

/// Textures that can be loaded at one time.
pub const MAX_TEXTURES: u32 = 64;

/// Raw number of `VK_FORMAT_R32G32_SFLOAT`.
pub const R32G32_SFLOAT: i32 = 103;

/// Raw number of `VK_FORMAT_R32G32B32A32_SFLOAT`.
pub const R32G32B32A32_SFLOAT: i32 = 109;

/// A vertex attribute of the pipeline.
#[derive(Clone, Copy, Debug, PartialEq, Eq, Structural)]
pub struct VertexAttribute {
    pub location: u32,
    pub format: i32,
    pub offset: u32,
}

/// Bytes that an attribute format takes.
pub open spec fn format_bytes(format: i32) -> int {
    if format == R32G32_SFLOAT {
        8
    } else if format == R32G32B32A32_SFLOAT {
        16
    } else {
        0
    }
}

/// Position, colour and texture coordinates, at shader locations 0, 1 and 2.
pub fn vertex_attributes() -> (attributes: [VertexAttribute; 3])
    ensures
        attributes@ == seq![
            VertexAttribute { location: 0, format: R32G32_SFLOAT, offset: POS_OFFSET },
            VertexAttribute { location: 1, format: R32G32B32A32_SFLOAT, offset: COLOR_OFFSET },
            VertexAttribute { location: 2, format: R32G32_SFLOAT, offset: UV_OFFSET },
        ],
{
    let attributes = [
        VertexAttribute { location: 0, format: R32G32_SFLOAT, offset: POS_OFFSET },
        VertexAttribute { location: 1, format: R32G32B32A32_SFLOAT, offset: COLOR_OFFSET },
        VertexAttribute { location: 2, format: R32G32_SFLOAT, offset: UV_OFFSET },
    ];
    assert(attributes@ =~= seq![
        VertexAttribute { location: 0, format: R32G32_SFLOAT, offset: POS_OFFSET },
        VertexAttribute { location: 1, format: R32G32B32A32_SFLOAT, offset: COLOR_OFFSET },
        VertexAttribute { location: 2, format: R32G32_SFLOAT, offset: UV_OFFSET },
    ]);
    attributes
}

/// The attributes fill the vertex without gap or overlap.
pub proof fn law_attributes_tile_vertex()
    ensures
        POS_OFFSET == 0,
        COLOR_OFFSET == POS_OFFSET + format_bytes(R32G32_SFLOAT),
        UV_OFFSET == COLOR_OFFSET + format_bytes(R32G32B32A32_SFLOAT),
        Vertex2D::STRIDE == UV_OFFSET + format_bytes(R32G32_SFLOAT),
{
}

/// The camera's part of the push constants: world pixels are scaled, then
/// shifted. The floats are bit patterns.
#[derive(Clone, Copy, Debug)]
pub struct ViewTransform {
    pub view_scale: [u32; 2],
    pub view_offset: [u32; 2],
}

/// Bytes of the push constants.
pub const PUSH_CONSTANT_BYTES: u32 = 64;

/// What the vertex shader reads per draw, as bit patterns.
#[derive(Clone, Copy, Debug)]
pub struct SpritePushConstants {
    pub view_scale: [u32; 2],
    pub view_offset: [u32; 2],
    pub world_pos: [u32; 2],
    pub world_size: [u32; 2],
    pub tint: [u32; 4],
    pub uv_offset: [u32; 2],
    pub uv_scale: [u32; 2],
}

impl SpritePushConstants {
    /// The constants as they lie in memory, word by word.
    pub open spec fn words(&self) -> Seq<u32> {
        self.view_scale@ + self.view_offset@ + self.world_pos@ + self.world_size@ + self.tint@
            + self.uv_offset@ + self.uv_scale@
    }

    /// The constants for one sprite of the plain renderer.
    pub fn for_sprite(view: ViewTransform, sprite: &Sprite) -> (pc: Self)
        ensures
            pc.view_scale == view.view_scale,
            pc.view_offset == view.view_offset,
            pc.world_pos == sprite.pos,
            pc.world_size == sprite.size,
            pc.tint == sprite.tint,
            pc.uv_offset == sprite.uv_offset,
            pc.uv_scale == sprite.uv_scale,
    {
        SpritePushConstants {
            view_scale: view.view_scale,
            view_offset: view.view_offset,
            world_pos: sprite.pos,
            world_size: sprite.size,
            tint: sprite.tint,
            uv_offset: sprite.uv_offset,
            uv_scale: sprite.uv_scale,
        }
    }

    /// The constants for baked sprites: everything but the view is neutral.
    pub fn for_baked(view: ViewTransform) -> (pc: Self)
        ensures
            pc.view_scale == view.view_scale,
            pc.view_offset == view.view_offset,
            pc.world_pos@ == seq![ZERO_BITS, ZERO_BITS],
            pc.world_size@ == seq![ONE_BITS, ONE_BITS],
            pc.tint@ == seq![ONE_BITS, ONE_BITS, ONE_BITS, ONE_BITS],
            pc.uv_offset@ == seq![ZERO_BITS, ZERO_BITS],
            pc.uv_scale@ == seq![ONE_BITS, ONE_BITS],
    {
        let pc = SpritePushConstants {
            view_scale: view.view_scale,
            view_offset: view.view_offset,
            world_pos: [ZERO_BITS, ZERO_BITS],
            world_size: [ONE_BITS, ONE_BITS],
            tint: [ONE_BITS, ONE_BITS, ONE_BITS, ONE_BITS],
            uv_offset: [ZERO_BITS, ZERO_BITS],
            uv_scale: [ONE_BITS, ONE_BITS],
        };
        assert(pc.world_pos@ =~= seq![ZERO_BITS, ZERO_BITS]);
        assert(pc.world_size@ =~= seq![ONE_BITS, ONE_BITS]);
        assert(pc.tint@ =~= seq![ONE_BITS, ONE_BITS, ONE_BITS, ONE_BITS]);
        assert(pc.uv_offset@ =~= seq![ZERO_BITS, ZERO_BITS]);
        assert(pc.uv_scale@ =~= seq![ONE_BITS, ONE_BITS]);
        pc
    }

    /// The constants in memory, byte by byte.
    pub fn to_bytes(&self) -> (bytes: Vec<u8>)
        ensures
            exists|highest_first: bool| bytes@ == #[trigger] words_in_memory(
                self.words(),
                highest_first,
            ),
            bytes@.len() == PUSH_CONSTANT_BYTES,
    {
        let mut words: Vec<u32> = Vec::new();
        words.push(self.view_scale[0]);
        words.push(self.view_scale[1]);
        words.push(self.view_offset[0]);
        words.push(self.view_offset[1]);
        words.push(self.world_pos[0]);
        words.push(self.world_pos[1]);
        words.push(self.world_size[0]);
        words.push(self.world_size[1]);
        words.push(self.tint[0]);
        words.push(self.tint[1]);
        words.push(self.tint[2]);
        words.push(self.tint[3]);
        words.push(self.uv_offset[0]);
        words.push(self.uv_offset[1]);
        words.push(self.uv_scale[0]);
        words.push(self.uv_scale[1]);
        assert(words@ =~= self.words());
        vstd::slice::slice_to_vec(words_as_bytes(&words))
    }
}

/// Fixed-function state of the sprite pipeline, enumerations as raw numbers.
#[derive(Clone, Copy, Debug, PartialEq, Eq, Structural)]
pub struct PipelineState {
    /// Triangle list.
    pub topology: i32,
    /// Fill.
    pub polygon_mode: i32,
    /// Nothing is culled: quads have no back.
    pub cull_mode: u32,
    /// Counter-clockwise.
    pub front_face: i32,
    pub samples: u32,
    /// All four channels are written.
    pub color_write_mask: u32,
    pub blend_enable: bool,
    pub src_color_factor: i32,
    pub dst_color_factor: i32,
    pub color_op: i32,
    pub src_alpha_factor: i32,
    pub dst_alpha_factor: i32,
    pub alpha_op: i32,
}

/// `VK_BLEND_FACTOR_ONE`
pub const BLEND_ONE: i32 = 1;

/// `VK_BLEND_FACTOR_SRC_ALPHA`
pub const BLEND_SRC_ALPHA: i32 = 6;

/// `VK_BLEND_FACTOR_ONE_MINUS_SRC_ALPHA`
pub const BLEND_ONE_MINUS_SRC_ALPHA: i32 = 7;

/// The state of the sprite pipeline: plain alpha blending, no culling.
pub fn pipeline_state() -> (state: PipelineState)
    ensures
        state == (PipelineState {
            topology: 3,
            polygon_mode: 0,
            cull_mode: 0,
            front_face: 0,
            samples: 1,
            color_write_mask: 15,
            blend_enable: true,
            src_color_factor: BLEND_SRC_ALPHA,
            dst_color_factor: BLEND_ONE_MINUS_SRC_ALPHA,
            color_op: 0,
            src_alpha_factor: BLEND_ONE,
            dst_alpha_factor: BLEND_ONE_MINUS_SRC_ALPHA,
            alpha_op: 0,
        }),
{
    PipelineState {
        topology: 3,
        polygon_mode: 0,
        cull_mode: 0,
        front_face: 0,
        samples: 1,
        color_write_mask: 15,
        blend_enable: true,
        src_color_factor: BLEND_SRC_ALPHA,
        dst_color_factor: BLEND_ONE_MINUS_SRC_ALPHA,
        color_op: 0,
        src_alpha_factor: BLEND_ONE,
        dst_alpha_factor: BLEND_ONE_MINUS_SRC_ALPHA,
        alpha_op: 0,
    }
}

/// The colour goes where the shader reads it: four-component constants begin at
/// multiples of sixteen bytes, and the constants fill their range.
pub proof fn law_push_constants_aligned(pc: SpritePushConstants)
    ensures
        4 * pc.words().len() == PUSH_CONSTANT_BYTES,
        pc.words().subrange(8, 12) == pc.tint@,
        (4 * 8) % 16 == 0,
{
    assert(pc.words().subrange(8, 12) =~= pc.tint@);
}

/// Where each constant lies, in words: the view first, then the sprite's place and
/// size, its tint, and its part of the texture.
pub proof fn law_push_constant_words(pc: SpritePushConstants)
    ensures
        ({
            let words = pc.words();
            &&& words.len() == 16
            &&& words[0] == pc.view_scale[0] && words[1] == pc.view_scale[1]
            &&& words[2] == pc.view_offset[0] && words[3] == pc.view_offset[1]
            &&& words[4] == pc.world_pos[0] && words[5] == pc.world_pos[1]
            &&& words[6] == pc.world_size[0] && words[7] == pc.world_size[1]
            &&& words[8] == pc.tint[0] && words[9] == pc.tint[1]
            &&& words[10] == pc.tint[2] && words[11] == pc.tint[3]
            &&& words[12] == pc.uv_offset[0] && words[13] == pc.uv_offset[1]
            &&& words[14] == pc.uv_scale[0] && words[15] == pc.uv_scale[1]
        }),
{
}

/// Formats 103 and 109 hold two and four floats; the blend factors are numbers 1, 6
/// and 7, and 0 and `0x3f800000` are the floats 0 and 1.
pub proof fn law_pipeline_numbers()
    ensures
        format_bytes(103) == 2 * 4,
        format_bytes(109) == 4 * 4,
        R32G32_SFLOAT == 103,
        R32G32B32A32_SFLOAT == 109,
        BLEND_ONE == 1,
        BLEND_SRC_ALPHA == 6,
        BLEND_ONE_MINUS_SRC_ALPHA == 7,
        ZERO_BITS == 0,
        ONE_BITS == 0x3f80_0000,
        MAX_TEXTURES == 64,
{
}

} // verus!
