use exey_engine::draw::vertex::{ONE_BITS, ZERO_BITS};
use exey_engine::gfx::frame::MAX_FRAMES_IN_FLIGHT;
use exey_engine::render::big_buffer::{BigBufferRenderer, DrawCommand, PAIRS_PER_SLOT};
use exey_engine::render::buffer_pair::{
    BakedSprite, PopulateOutcome, RenderBufferPair, BUFFER_INDEX_CAPACITY, BUFFER_VERTEX_CAPACITY,
    SPRITES_PER_PAIR, TRIP_VERTEX_COUNT,
};
use exey_engine::render::render_core::{make_renderer, RenderCore};
use exey_engine::render::renderers::{clamp_mesh, draw_stream, SimpleCommand};
use exey_engine::render::sprite_pipeline::{
    pipeline_state, vertex_attributes, SpritePushConstants, ViewTransform,
};
use exey_engine::render::{BatchRenderer, SimpleRenderer};
use exey_engine::{RendererKind, Sprite, SpriteMesh, Vertex2D};
use exey_engine::draw::{FrameStrip, LoopMode};
use vulkanalia::vk;

fn baked(n: u32, mesh_idx: u8) -> BakedSprite {
    BakedSprite {
        x0: n,
        y0: n + 1,
        x1: n + 2,
        y1: n + 3,
        u0: n + 4,
        v0: n + 5,
        u1: n + 6,
        v1: n + 7,
        tint: [n + 8, n + 9, n + 10, n + 11],
        mesh_idx,
    }
}

fn ready() -> BigBufferRenderer {
    let mut r = BigBufferRenderer::new();
    r.allocate_pools();
    r
}

#[test]
fn kinds_have_names() {
    for kind in [RendererKind::Simple, RendererKind::Batch, RendererKind::BigBuffer] {
        assert_eq!(RendererKind::from_cli(kind.as_str()), Some(kind));
    }
    assert_eq!(RendererKind::from_cli("BigBuffer"), Some(RendererKind::BigBuffer));
    assert_eq!(RendererKind::from_cli("big-buffer"), Some(RendererKind::BigBuffer));
    assert_eq!(RendererKind::from_cli("BIG_BUFFER"), Some(RendererKind::BigBuffer));
    assert_eq!(RendererKind::from_cli("SIMPLE"), Some(RendererKind::Simple));
    assert_eq!(RendererKind::from_cli("simple "), None);
    assert_eq!(RendererKind::from_cli(""), None);
    assert_eq!(RendererKind::from_cli("\u{212A}simple"), None);
    assert_eq!(RendererKind::default(), RendererKind::BigBuffer);
}

#[test]
fn renderers_are_made_by_kind() {
    for kind in [RendererKind::Simple, RendererKind::Batch, RendererKind::BigBuffer] {
        assert_eq!(make_renderer(kind).kind(), kind);
    }
    assert_eq!(SimpleRenderer::new().kind(), RendererKind::Simple);
    assert_eq!(BatchRenderer::new().kind(), RendererKind::Batch);
    assert_eq!(BigBufferRenderer::default().kind(), RendererKind::BigBuffer);
}

#[test]
fn strips_are_registered_in_order() {
    let mut core = RenderCore::new(RendererKind::Simple);
    let a = FrameStrip::from_grid_row(4, 1, 0, 0, 4, 0, LoopMode::Loop);
    let b = FrameStrip::from_grid_row(4, 2, 1, 0, 4, 0, LoopMode::Once);
    assert_eq!(core.register_strip(a), 0);
    assert_eq!(core.register_strip(b), 1);
    assert_eq!(core.frame_strips, vec![a, b]);
}

#[test]
fn the_stream_is_world_in_order_then_overlay() {
    assert_eq!(draw_stream(&['a', 'b', 'c'], &[2, 0, 1], &['x']), vec!['c', 'a', 'b', 'x']);
    // An order that does not fit is ignored.
    assert_eq!(draw_stream(&['a', 'b', 'c'], &[2, 0], &['x']), vec!['a', 'b', 'c', 'x']);
    assert_eq!(draw_stream(&['a', 'b'], &[], &[]), vec!['a', 'b']);
    assert_eq!(draw_stream::<char>(&[], &[], &['x', 'y']), vec!['x', 'y']);
}

#[test]
fn missing_meshes_become_the_first() {
    assert_eq!(clamp_mesh(3, 4), 3);
    assert_eq!(clamp_mesh(4, 4), 0);
    assert_eq!(clamp_mesh(255, 256), 255);
}

#[test]
fn the_plain_renderer_binds_on_change() {
    let commands = SimpleRenderer::new().record(&[0, 1, 9], &[0, 2, 1], &[1], 2);
    assert_eq!(
        commands,
        vec![
            SimpleCommand::BindMesh { mesh: 0 },
            SimpleCommand::DrawSprite { position: 0 },
            // Mesh 9 does not exist: mesh 0 is still bound.
            SimpleCommand::DrawSprite { position: 1 },
            SimpleCommand::BindMesh { mesh: 1 },
            SimpleCommand::DrawSprite { position: 2 },
            SimpleCommand::DrawSprite { position: 3 },
        ]
    );
    assert_eq!(BatchRenderer::new().record(&[0, 1, 9], &[0, 2, 1], &[1], 2), commands);
    assert!(SimpleRenderer::new().record(&[], &[], &[], 0).is_empty());
}

#[test]
fn the_streaming_renderer_batches_runs() {
    let mut r = ready();
    let world = [baked(0, 0), baked(100, 0), baked(200, 1)];
    let gui = [baked(300, 1), baked(400, 0)];
    let plan = r.record(&world, &[1, 0, 2], &gui, 2);
    assert_eq!(
        plan.commands,
        vec![
            DrawCommand::BindPair { pair: 0 },
            DrawCommand::BindTexture { mesh: 0 },
            DrawCommand::DrawIndexed { index_count: 12, first_index: 0 },
            DrawCommand::BindTexture { mesh: 1 },
            DrawCommand::DrawIndexed { index_count: 12, first_index: 12 },
            DrawCommand::BindTexture { mesh: 0 },
            DrawCommand::DrawIndexed { index_count: 6, first_index: 24 },
        ]
    );
    assert_eq!(plan.pairs_used, 1);
    assert_eq!(plan.total_draws, 3);
    assert_eq!(plan.total_mesh_changes, 2);
    assert_eq!(plan.total_vertices, 20);
    let pair = &r.slots[plan.slot].pairs[0];
    assert_eq!((pair.start_sprite_idx, pair.end_sprite_idx), (0, 5));
    // The first sprite of the stream is the second of the world.
    assert_eq!(pair.vertices[0], 100);
}

#[test]
fn different_missing_meshes_break_a_run() {
    let mut r = ready();
    let plan = r.record(&[baked(0, 7), baked(0, 8)], &[0, 1], &[], 1);
    assert_eq!(
        plan.commands,
        vec![
            DrawCommand::BindPair { pair: 0 },
            DrawCommand::BindTexture { mesh: 0 },
            DrawCommand::DrawIndexed { index_count: 6, first_index: 0 },
            DrawCommand::BindTexture { mesh: 0 },
            DrawCommand::DrawIndexed { index_count: 6, first_index: 6 },
        ]
    );
}

#[test]
fn an_empty_frame_records_nothing() {
    let mut r = ready();
    let plan = r.record(&[], &[], &[], 0);
    assert!(plan.commands.is_empty());
    assert_eq!((plan.pairs_used, plan.total_draws, plan.total_mesh_changes), (0, 0, 0));
    assert_eq!(r.frame_count, 1);
    // An empty frame needs no pairs.
    let mut bare = BigBufferRenderer::new();
    let plan = bare.record(&[], &[], &[], 0);
    assert!(plan.commands.is_empty());
    assert_eq!((plan.slot, plan.total_vertices, bare.frame_count), (0, 0, 1));
    assert!(bare.slots.iter().all(|s| s.pairs.is_empty()));
}

#[test]
fn frames_alternate_between_slots() {
    let mut r = ready();
    let slots: Vec<usize> = (0..4).map(|n| r.record(&[baked(n, 0)], &[0], &[], 1).slot).collect();
    assert_eq!(slots, vec![0, 1, 0, 1]);
    assert_eq!(r.slots.len(), MAX_FRAMES_IN_FLIGHT);
    // Each slot still holds what was last packed into it.
    assert_eq!(r.slots[0].pairs[0].vertices[0], 2);
    assert_eq!(r.slots[1].pairs[0].vertices[0], 3);
    r.frame_count = u64::MAX;
    assert_eq!(r.record(&[], &[], &[], 0).slot, 1);
    assert_eq!(r.frame_count, 0);
}

#[test]
fn a_large_scene_takes_two_pairs() {
    let mut r = ready();
    let world: Vec<BakedSprite> = (0..20_000).map(|n| baked(n, 0)).collect();
    let order: Vec<u32> = (0..20_000).collect();
    let plan = r.record(&world, &order, &[], 1);
    assert_eq!(
        plan.commands,
        vec![
            DrawCommand::BindPair { pair: 0 },
            DrawCommand::BindTexture { mesh: 0 },
            DrawCommand::DrawIndexed { index_count: 6 * 16_373, first_index: 0 },
            DrawCommand::BindPair { pair: 1 },
            DrawCommand::BindTexture { mesh: 0 },
            DrawCommand::DrawIndexed { index_count: 6 * (20_000 - 16_373), first_index: 0 },
        ]
    );
    let pairs = &r.slots[plan.slot].pairs;
    assert_eq!(pairs.len(), PAIRS_PER_SLOT);
    assert_eq!((pairs[1].start_sprite_idx, pairs[1].end_sprite_idx), (16_373, 20_000));
    assert_eq!(pairs[1].vertices[0], 16_373);
    assert_eq!(*pairs[0].indices.iter().max().unwrap() as usize + 1, pairs[0].vertex_count);
}

#[test]
fn a_pair_is_packed_sprite_by_sprite() {
    let mut pair = RenderBufferPair::new();
    let sprites = [baked(0, 0), baked(100, 0)];
    assert_eq!(pair.populate(&sprites, 0), PopulateOutcome::Exhausted);
    assert_eq!(pair.vertex_count, 8);
    assert_eq!(pair.index_count, 12);
    assert_eq!(pair.indices, vec![0, 1, 2, 0, 2, 3, 4, 5, 6, 4, 6, 7]);
    // Top left, top right, bottom right, bottom left.
    assert_eq!(pair.vertices[0..8], [0, 1, 8, 9, 10, 11, 4, 5]);
    assert_eq!(pair.vertices[8..16], [2, 1, 8, 9, 10, 11, 6, 5]);
    assert_eq!(pair.vertices[16..24], [2, 3, 8, 9, 10, 11, 6, 7]);
    assert_eq!(pair.vertices[24..32], [0, 3, 8, 9, 10, 11, 4, 7]);
    assert_eq!(pair.vertices[32], 100);
    pair.reset();
    assert_eq!((pair.vertex_count, pair.index_count, pair.end_sprite_idx), (0, 0, 0));
}

#[test]
fn a_pair_closes_below_the_limit() {
    let mut pair = RenderBufferPair::new();
    let sprites: Vec<BakedSprite> = (0..16_374).map(|n| baked(n, 0)).collect();
    assert_eq!(pair.populate(&sprites, 0), PopulateOutcome::Continue { next_start: 16_373 });
    assert_eq!(pair.vertex_count, 65_492);
    assert!(pair.vertex_count + 4 > TRIP_VERTEX_COUNT);
    assert!(pair.vertex_count <= BUFFER_VERTEX_CAPACITY);
    assert!(pair.index_count <= BUFFER_INDEX_CAPACITY);
    assert_eq!(SPRITES_PER_PAIR, 16_373);
    assert_eq!(pair.populate(&sprites, 1), PopulateOutcome::Exhausted);
    assert_eq!(pair.populate(&sprites, 16_374), PopulateOutcome::Exhausted);
    assert_eq!(pair.vertex_count, 0);
    assert_eq!(pair.populate(&sprites, 20_000), PopulateOutcome::Exhausted);
    assert_eq!((pair.start_sprite_idx, pair.end_sprite_idx), (20_000, 16_374));
}

#[test]
fn memory_is_read_byte_by_byte() {
    let mut pair = RenderBufferPair::new();
    let mut s = baked(0, 0);
    s.x0 = 0x0102_0304;
    pair.populate(&[s], 0);
    let bytes = pair.vertex_bytes();
    assert_eq!(bytes.len(), 4 * 32);
    assert_eq!(bytes[0..4], 0x0102_0304u32.to_ne_bytes());
    assert_eq!(bytes[Vertex2D::STRIDE as usize..][..4], 2u32.to_ne_bytes());
    let indices = pair.index_bytes();
    assert_eq!(indices.len(), 12);
    assert_eq!(indices[2..4], 1u16.to_ne_bytes());
    assert_eq!(indices[10..12], 3u16.to_ne_bytes());
}

#[test]
fn the_unit_quad_covers_the_texture() {
    let mesh = SpriteMesh::unit_quad();
    assert_eq!(mesh.indices, vec![0, 1, 2, 0, 2, 3]);
    assert_eq!(mesh.vertices.len(), 32);
    let floats: Vec<f32> = mesh.vertices.iter().map(|w| f32::from_bits(*w)).collect();
    assert_eq!(floats[0..8], [0.0, 0.0, 1.0, 1.0, 1.0, 1.0, 0.0, 0.0]);
    assert_eq!(floats[16..24], [1.0, 1.0, 1.0, 1.0, 1.0, 1.0, 1.0, 1.0]);
    let mut expected = Vec::new();
    for w in &mesh.vertices {
        expected.extend_from_slice(&w.to_ne_bytes());
    }
    assert_eq!(mesh.vertex_bytes(), &expected[..]);
    assert_eq!(mesh.index_bytes()[4..6], 2u16.to_ne_bytes());
    assert_eq!(f32::from_bits(ONE_BITS), 1.0);
    assert_eq!(f32::from_bits(ZERO_BITS), 0.0);
}

#[test]
fn new_sprites_are_static_and_show_everything() {
    let s = Sprite::new([1, 2], [3, 4], [5, 6], [7, 8, 9, 10]);
    assert_eq!((s.pos, s.size, s.velocity, s.tint), ([1, 2], [3, 4], [5, 6], [7, 8, 9, 10]));
    assert_eq!((s.iso_grid, s.iso_grid_size), ((0, 0), (0, 0)));
    assert_eq!((s.uv_offset, s.uv_scale), ([0, 0], [ONE_BITS, ONE_BITS]));
    assert_eq!(s.mesh_idx, 0);
    assert!(s.anim.is_none());
}

#[test]
fn push_constants_lie_in_order() {
    let view = ViewTransform { view_scale: [1, 2], view_offset: [3, 4] };
    let s = Sprite::new([5, 6], [7, 8], [0, 0], [9, 10, 11, 12]);
    let bytes = SpritePushConstants::for_sprite(view, &s).to_bytes();
    let mut expected = Vec::new();
    for w in [1, 2, 3, 4, 5, 6, 7, 8, 9, 10, 11, 12, 0, 0, ONE_BITS, ONE_BITS] {
        expected.extend_from_slice(&(w as u32).to_ne_bytes());
    }
    assert_eq!(bytes, expected);
    let neutral = SpritePushConstants::for_baked(view);
    assert_eq!(neutral.view_scale, [1, 2]);
    assert_eq!((neutral.world_pos, neutral.world_size), ([0, 0], [ONE_BITS, ONE_BITS]));
    assert_eq!(neutral.tint, [ONE_BITS; 4]);
}

#[test]
fn attributes_match_the_vertex() {
    let a = vertex_attributes();
    assert_eq!((a[0].location, a[0].offset), (0, 0));
    assert_eq!((a[1].location, a[1].offset), (1, 8));
    assert_eq!((a[2].location, a[2].offset), (2, 24));
    assert_eq!(Vertex2D::STRIDE, 32);
    assert_eq!(a[0].format, vk::Format::R32G32_SFLOAT.as_raw());
    assert_eq!(a[1].format, vk::Format::R32G32B32A32_SFLOAT.as_raw());
    assert_eq!(a[2].format, vk::Format::R32G32_SFLOAT.as_raw());
    let p = pipeline_state();
    assert_eq!(p.topology, vk::PrimitiveTopology::TRIANGLE_LIST.as_raw());
    assert_eq!(p.polygon_mode, vk::PolygonMode::FILL.as_raw());
    assert_eq!(p.cull_mode, vk::CullModeFlags::NONE.bits());
    assert_eq!(p.front_face, vk::FrontFace::COUNTER_CLOCKWISE.as_raw());
    assert_eq!(p.samples, vk::SampleCountFlags::_1.bits());
    assert_eq!(p.src_color_factor, vk::BlendFactor::SRC_ALPHA.as_raw());
    assert_eq!(p.dst_color_factor, vk::BlendFactor::ONE_MINUS_SRC_ALPHA.as_raw());
    assert_eq!(p.src_alpha_factor, vk::BlendFactor::ONE.as_raw());
    assert_eq!(p.dst_alpha_factor, vk::BlendFactor::ONE_MINUS_SRC_ALPHA.as_raw());
    assert_eq!(p.color_op, vk::BlendOp::ADD.as_raw());
    assert_eq!(p.alpha_op, vk::BlendOp::ADD.as_raw());
    assert!(p.blend_enable);
    assert_eq!(p.color_write_mask, 15);
}
