//! What the renderers promise of one another.

use vstd::prelude::*;

use crate::gfx::frame::MAX_FRAMES_IN_FLIGHT;
use crate::render::big_buffer::{
    frame_commands, frame_draws, lemma_run_end, meshes_of, pair_slice,
    pairs_needed, run_commands, run_count, run_end, BigBufferRenderer, DrawCommand,
};
use crate::render::buffer_pair::{sprites_taken, BakedSprite, SPRITES_PER_PAIR};
use crate::render::renderers::{
    order_fits, simple_commands, stream_of, usable_mesh, SimpleCommand,
};

verus! {

/// What a row of commands has drawn so far: places of the stream, each with the
/// mesh it was drawn with; and what is bound.
#[verifier::ext_equal]
pub struct Executed {
    pub pair: int,
    pub mesh: u8,
    pub drawn: Seq<(int, u8)>,
}

/// Nothing drawn yet.
pub open spec fn nothing() -> Executed {
    Executed { pair: 0, mesh: 0, drawn: Seq::empty() }
}

/// One command of the plain renderer.
pub open spec fn simple_step(e: Executed, command: SimpleCommand) -> Executed {
    match command {
        SimpleCommand::BindMesh { mesh } => Executed { mesh, ..e },
        SimpleCommand::DrawSprite { position } => Executed {
            drawn: e.drawn.push((position as int, e.mesh)),
            ..e
        },
    }
}

/// A row of commands of the plain renderer.
pub open spec fn simple_run(commands: Seq<SimpleCommand>, e: Executed) -> Executed
    decreases commands.len(),
{
    if commands.len() == 0 {
        e
    } else {
        simple_step(simple_run(commands.drop_last(), e), commands.last())
    }
}

/// One command of the streaming renderer. Sprites lie in the pairs in their
/// order, six indices each.
pub open spec fn big_step(e: Executed, command: DrawCommand) -> Executed {
    match command {
        DrawCommand::BindPair { pair } => Executed { pair: pair as int, ..e },
        DrawCommand::BindTexture { mesh } => Executed { mesh, ..e },
        DrawCommand::DrawIndexed { index_count, first_index } => Executed {
            drawn: e.drawn + Seq::new(
                (index_count / 6) as nat,
                |j: int| (e.pair * SPRITES_PER_PAIR + first_index as int / 6 + j, e.mesh),
            ),
            ..e
        },
    }
}

/// A row of commands of the streaming renderer.
pub open spec fn big_run(commands: Seq<DrawCommand>, e: Executed) -> Executed
    decreases commands.len(),
{
    if commands.len() == 0 {
        e
    } else {
        big_step(big_run(commands.drop_last(), e), commands.last())
    }
}

/// Every sprite of the stream once, in order, each with its mesh.
pub open spec fn whole_stream(stream: Seq<u8>, mesh_count: nat) -> Seq<(int, u8)> {
    Seq::new(stream.len(), |i: int| (i, usable_mesh(stream[i], mesh_count)))
}

proof fn lemma_big_run_join(a: Seq<DrawCommand>, b: Seq<DrawCommand>, e: Executed)
    ensures
        big_run(a + b, e) == big_run(b, big_run(a, e)),
    decreases b.len(),
{
    if b.len() == 0 {
        assert(a + b =~= a);
    } else {
        lemma_big_run_join(a, b.drop_last(), e);
        assert((a + b).drop_last() =~= a + b.drop_last());
        assert((a + b).last() == b.last());
    }
}

/// What the plain renderer draws does not depend on what was bound before: every
/// sprite once, in order, with its mesh.
pub proof fn law_simple_binds_what_it_needs(stream: Seq<u8>, mesh_count: nat, e: Executed)
    requires
        stream.len() <= usize::MAX,
    ensures
        simple_run(simple_commands(stream, mesh_count), e).drawn == e.drawn + whole_stream(
            stream,
            mesh_count,
        ),
        stream.len() > 0 ==> simple_run(simple_commands(stream, mesh_count), e).mesh
            == usable_mesh(stream.last(), mesh_count),
    decreases stream.len(),
{
    if stream.len() == 0 {
        assert(e.drawn + whole_stream(stream, mesh_count) =~= e.drawn);
    } else {
        let rest = stream.drop_last();
        law_simple_binds_what_it_needs(rest, mesh_count, e);
        let last = stream.len() - 1;
        let mesh = usable_mesh(stream[last], mesh_count);
        let before = simple_commands(rest, mesh_count);
        let all = simple_commands(stream, mesh_count);
        if last > 0 && usable_mesh(stream[last - 1], mesh_count) == mesh {
            assert(all.drop_last() =~= before);
            assert(rest.last() == stream[last - 1]);
        } else {
            let bound = before.push(SimpleCommand::BindMesh { mesh });
            assert(all.drop_last() =~= bound);
            assert(bound.drop_last() =~= before);
            assert(simple_run(bound, e) == simple_step(
                simple_run(before, e),
                SimpleCommand::BindMesh { mesh },
            ));
        }
        assert(all.last() == SimpleCommand::DrawSprite { position: last as usize });
        assert(simple_run(all, e) == simple_step(simple_run(all.drop_last(), e), all.last()));
        assert(e.drawn + whole_stream(stream, mesh_count) =~= (e.drawn + whole_stream(
            rest,
            mesh_count,
        )).push((last, mesh)));
    }
}

/// The plain renderer draws every sprite once, in order, with its mesh.
pub proof fn law_simple_draws_stream(stream: Seq<u8>, mesh_count: nat)
    requires
        stream.len() <= usize::MAX,
    ensures
        simple_run(simple_commands(stream, mesh_count), nothing()).drawn == whole_stream(
            stream,
            mesh_count,
        ),
        stream.len() > 0 ==> simple_run(simple_commands(stream, mesh_count), nothing()).mesh
            == usable_mesh(stream.last(), mesh_count),
{
    law_simple_binds_what_it_needs(stream, mesh_count, nothing());
    assert(nothing().drawn + whole_stream(stream, mesh_count) =~= whole_stream(
        stream,
        mesh_count,
    ));
}

/// What the runs of a pair draw.
proof fn lemma_runs_draw(meshes: Seq<u8>, i: int, mesh_count: nat, e: Executed)
    requires
        0 <= i <= meshes.len() <= SPRITES_PER_PAIR,
    ensures
        big_run(run_commands(meshes, i, mesh_count), e).pair == e.pair,
        big_run(run_commands(meshes, i, mesh_count), e).drawn == e.drawn + Seq::new(
            (meshes.len() - i) as nat,
            |j: int|
                (e.pair * SPRITES_PER_PAIR + i + j, usable_mesh(meshes[i + j], mesh_count)),
        ),
    decreases meshes.len() - i,
{
    if i == meshes.len() {
        assert(e.drawn + Seq::new(
            0,
            |j: int|
                (e.pair * SPRITES_PER_PAIR + i + j, usable_mesh(meshes[i + j], mesh_count)),
        ) =~= e.drawn);
    } else {
        let end = run_end(meshes, i, i + 1);
        lemma_run_end(meshes, i, i + 1);
        let mesh = usable_mesh(meshes[i], mesh_count);
        let bind = DrawCommand::BindTexture { mesh };
        let draw = DrawCommand::DrawIndexed {
            index_count: (6 * (end - i)) as u32,
            first_index: (6 * i) as u32,
        };
        let head = seq![bind, draw];
        let tail = run_commands(meshes, end, mesh_count);
        lemma_big_run_join(head, tail, e);
        assert(head.drop_last() =~= seq![bind]);
        assert(seq![bind].drop_last() =~= Seq::empty());
        assert(big_run(seq![bind], e) == big_step(big_run(Seq::empty(), e), bind));
        let after = big_run(head, e);
        assert(after == big_step(big_step(e, bind), draw));
        assert((6 * (end - i)) as u32 / 6 == end - i);
        assert(after.drawn =~= e.drawn + Seq::new(
            (end - i) as nat,
            |j: int| (e.pair * SPRITES_PER_PAIR + i + j, usable_mesh(meshes[i + j], mesh_count)),
        ));
        lemma_runs_draw(meshes, end, mesh_count, after);
        assert(big_run(run_commands(meshes, i, mesh_count), e).drawn =~= e.drawn + Seq::new(
            (meshes.len() - i) as nat,
            |j: int|
                (e.pair * SPRITES_PER_PAIR + i + j, usable_mesh(meshes[i + j], mesh_count)),
        ));
    }
}

/// What the first `pairs` pairs draw.
proof fn lemma_pairs_draw(meshes: Seq<u8>, mesh_count: nat, pairs: nat, at_first: Executed)
    requires
        meshes.len() <= usize::MAX,
        pairs <= pairs_needed(meshes.len()),
    ensures
        big_run(frame_commands(meshes, mesh_count, pairs), at_first).drawn == at_first.drawn
            + whole_stream(meshes, mesh_count).take(
            if pairs * SPRITES_PER_PAIR <= meshes.len() {
                pairs * SPRITES_PER_PAIR
            } else {
                meshes.len() as int
            },
        ),
    decreases pairs,
{
    let all = whole_stream(meshes, mesh_count);
    if pairs == 0 {
        assert(at_first.drawn + all.take(0) =~= at_first.drawn);
    } else {
        let pair = (pairs - 1) as nat;
        lemma_pairs_draw(meshes, mesh_count, pair, at_first);
        let before = frame_commands(meshes, mesh_count, pair);
        let bind = DrawCommand::BindPair { pair: pair as usize };
        let slice = pair_slice(meshes, pair as int);
        let runs = run_commands(slice, 0, mesh_count);
        let e = big_run(before, at_first);
        lemma_big_run_join(before + seq![bind], runs, at_first);
        assert((before + seq![bind]).drop_last() =~= before);
        assert(big_run(before + seq![bind], at_first) == big_step(e, bind));
        lemma_runs_draw(slice, 0, mesh_count, big_step(e, bind));
        let start = pair * SPRITES_PER_PAIR;
        let end = start + sprites_taken(meshes.len() as int, start);
        assert(start < meshes.len());
        assert(at_first.drawn + all.take(start) + Seq::new(
            slice.len(),
            |j: int| (pair * SPRITES_PER_PAIR + 0 + j, usable_mesh(slice[0 + j], mesh_count)),
        ) =~= at_first.drawn + all.take(end));
    }
}

/// What the streaming renderer draws does not depend on what was bound before:
/// every sprite once, in order, with its mesh.
pub proof fn law_big_buffer_binds_what_it_needs(meshes: Seq<u8>, mesh_count: nat, e: Executed)
    requires
        meshes.len() <= usize::MAX,
    ensures
        big_run(frame_commands(meshes, mesh_count, pairs_needed(meshes.len())), e).drawn == e.drawn
            + whole_stream(meshes, mesh_count),
{
    lemma_pairs_draw(meshes, mesh_count, pairs_needed(meshes.len()), e);
    assert(whole_stream(meshes, mesh_count).take(meshes.len() as int) =~= whole_stream(
        meshes,
        mesh_count,
    ));
}

/// The streaming renderer draws every sprite once, in order, with its mesh.
pub proof fn law_big_buffer_draws_stream(meshes: Seq<u8>, mesh_count: nat)
    requires
        meshes.len() <= usize::MAX,
    ensures
        big_run(
            frame_commands(meshes, mesh_count, pairs_needed(meshes.len())),
            nothing(),
        ).drawn == whole_stream(meshes, mesh_count),
{
    law_big_buffer_binds_what_it_needs(meshes, mesh_count, nothing());
    assert(nothing().drawn + whole_stream(meshes, mesh_count) =~= whole_stream(
        meshes,
        mesh_count,
    ));
}

/// All renderers draw the same picture: the same sprites in the same order with
/// the same meshes.
pub proof fn law_renderers_agree(
    world: Seq<BakedSprite>,
    order: Seq<u32>,
    gui: Seq<BakedSprite>,
    mesh_count: nat,
)
    requires
        order_fits(order, world.len()),
        world.len() + gui.len() <= usize::MAX,
    ensures
        simple_run(
            simple_commands(stream_of(meshes_of(world), order, meshes_of(gui)), mesh_count),
            nothing(),
        ).drawn == big_run(
            frame_commands(
                meshes_of(stream_of(world, order, gui)),
                mesh_count,
                pairs_needed(stream_of(world, order, gui).len()),
            ),
            nothing(),
        ).drawn,
{
    let stream = meshes_of(stream_of(world, order, gui));
    assert(stream_of(meshes_of(world), order, meshes_of(gui)) =~= stream);
    law_simple_draws_stream(stream, mesh_count);
    law_big_buffer_draws_stream(stream, mesh_count);
}

/// How many of the first `upto` sprites begin a draw: the first of a pair, and
/// each that asks for another mesh than the one before it.
pub open spec fn draw_starts(meshes: Seq<u8>, upto: nat) -> nat
    decreases upto,
{
    if upto == 0 {
        0
    } else {
        let i = upto - 1;
        draw_starts(meshes, (upto - 1) as nat) + if i % SPRITES_PER_PAIR as int == 0 || meshes[i]
            != meshes[i - 1] {
            1nat
        } else {
            0nat
        }
    }
}

/// Within a run no draw begins.
proof fn lemma_no_start_within(meshes: Seq<u8>, pair: nat, from: nat, to: nat)
    requires
        pair * SPRITES_PER_PAIR < from <= to <= meshes.len(),
        to <= (pair + 1) * SPRITES_PER_PAIR,
        forall|k: int| from <= k < to ==> #[trigger] meshes[k] == meshes[k - 1],
    ensures
        draw_starts(meshes, to) == draw_starts(meshes, from),
    decreases to - from,
{
    if from < to {
        lemma_no_start_within(meshes, pair, from, (to - 1) as nat);
        let i = to - 1;
        assert(i % SPRITES_PER_PAIR as int == i - pair * SPRITES_PER_PAIR) by {
            assert(i == pair * SPRITES_PER_PAIR + (i - pair * SPRITES_PER_PAIR));
        }
    }
}

proof fn lemma_starts_of_pair(meshes: Seq<u8>, pair: nat, i: int)
    requires
        pair * SPRITES_PER_PAIR < meshes.len(),
        0 <= i <= pair_slice(meshes, pair as int).len(),
        0 < i < pair_slice(meshes, pair as int).len() ==> pair_slice(meshes, pair as int)[i]
            != pair_slice(meshes, pair as int)[i - 1],
    ensures
        draw_starts(meshes, (pair * SPRITES_PER_PAIR + i) as nat) + run_count(
            pair_slice(meshes, pair as int),
            i,
        ) == draw_starts(
            meshes,
            (pair * SPRITES_PER_PAIR + pair_slice(meshes, pair as int).len()) as nat,
        ),
    decreases pair_slice(meshes, pair as int).len() - i,
{
    let slice = pair_slice(meshes, pair as int);
    let base = pair * SPRITES_PER_PAIR;
    if i < slice.len() {
        let end = run_end(slice, i, i + 1);
        lemma_run_end(slice, i, i + 1);
        lemma_starts_of_pair(meshes, pair, end);
        assert forall|k: int| base + i + 1 <= k < base + end implies #[trigger] meshes[k]
            == meshes[k - 1] by {
            assert(slice[k - base] == slice[i]);
            assert(slice[k - base - 1] == slice[i]);
        }
        lemma_no_start_within(meshes, pair, (base + i + 1) as nat, (base + end) as nat);
        assert(draw_starts(meshes, (base + i + 1) as nat) == draw_starts(
            meshes,
            (base + i) as nat,
        ) + 1) by {
            if i == 0 {
                assert(base % SPRITES_PER_PAIR as int == 0);
            } else {
                assert(slice[i] == meshes[base + i] && slice[i - 1] == meshes[base + i - 1]);
            }
        }
    }
}

/// The streaming renderer draws only where a pair begins or the mesh changes,
/// so never more often than the plain one.
pub proof fn law_draws_only_on_change(meshes: Seq<u8>, pairs: nat)
    requires
        pairs <= pairs_needed(meshes.len()),
    ensures
        frame_draws(meshes, pairs) == draw_starts(
            meshes,
            if pairs * SPRITES_PER_PAIR <= meshes.len() {
                (pairs * SPRITES_PER_PAIR) as nat
            } else {
                meshes.len()
            },
        ),
        frame_draws(meshes, pairs) <= meshes.len(),
    decreases pairs,
{
    if pairs > 0 {
        let pair = (pairs - 1) as nat;
        law_draws_only_on_change(meshes, pair);
        lemma_starts_of_pair(meshes, pair, 0);
        lemma_starts_bound(
            meshes,
            if pairs * SPRITES_PER_PAIR <= meshes.len() {
                (pairs * SPRITES_PER_PAIR) as nat
            } else {
                meshes.len()
            },
        );
    }
}

proof fn lemma_starts_bound(meshes: Seq<u8>, upto: nat)
    ensures
        draw_starts(meshes, upto) <= upto,
    decreases upto,
{
    if upto > 0 {
        lemma_starts_bound(meshes, (upto - 1) as nat);
    }
}

/// Two frames in a row use different memory, and a slot comes round again only
/// after all frames in flight, also where the frame counter wraps.
pub proof fn law_slots_alternate(now: BigBufferRenderer, next: BigBufferRenderer)
    requires
        next.frame_count == if now.frame_count == u64::MAX {
            0
        } else {
            now.frame_count + 1
        },
    ensures
        now.next_slot() != next.next_slot(),
        0 <= now.next_slot() < MAX_FRAMES_IN_FLIGHT,
        now.frame_count == 0 ==> now.next_slot() == 0,
{
}

/// A mesh that a renderer binds exists: the sprite's own, or else the first one.
pub proof fn law_bound_mesh_exists(mesh_idx: u8, mesh_count: nat)
    requires
        mesh_count > 0,
    ensures
        usable_mesh(mesh_idx, mesh_count) < mesh_count,
        mesh_idx < mesh_count ==> usable_mesh(mesh_idx, mesh_count) == mesh_idx,
        mesh_idx >= mesh_count ==> usable_mesh(mesh_idx, mesh_count) == 0,
{
}

/// The streaming renderer draws, for every place of what is to be drawn, the sprite
/// of that place with the mesh that this sprite asks for, or with the first one if
/// there is no such mesh.
pub proof fn law_each_place_is_drawn_with_its_mesh(
    stream: Seq<BakedSprite>,
    mesh_count: nat,
    i: int,
)
    requires
        stream.len() <= usize::MAX,
        0 <= i < stream.len(),
    ensures
        ({
            let drawn = big_run(
                frame_commands(meshes_of(stream), mesh_count, pairs_needed(stream.len())),
                nothing(),
            ).drawn;
            &&& drawn.len() == stream.len()
            &&& drawn[i].0 == i
            &&& drawn[i].1 == if (stream[i].mesh_idx as nat) < mesh_count {
                stream[i].mesh_idx
            } else {
                0
            }
        }),
{
    law_big_buffer_draws_stream(meshes_of(stream), mesh_count);
}

/// The same of the plain renderer, for the meshes that the sprites ask for.
pub proof fn law_each_sprite_is_drawn_with_its_mesh(stream: Seq<u8>, mesh_count: nat, i: int)
    requires
        stream.len() <= usize::MAX,
        0 <= i < stream.len(),
    ensures
        ({
            let drawn = simple_run(simple_commands(stream, mesh_count), nothing()).drawn;
            &&& drawn.len() == stream.len()
            &&& drawn[i].0 == i
            &&& drawn[i].1 == if (stream[i] as nat) < mesh_count {
                stream[i]
            } else {
                0
            }
        }),
{
    law_simple_draws_stream(stream, mesh_count);
}

/// Where a command of the plain renderer binds a mesh, the next one draws, and the
/// sprite that it draws is the first or follows one of another mesh: no mesh is
/// bound twice in a row.
pub proof fn law_simple_binds_only_on_change(stream: Seq<u8>, mesh_count: nat, p: int)
    requires
        stream.len() <= usize::MAX,
        0 <= p < simple_commands(stream, mesh_count).len(),
    ensures
        ({
            let commands = simple_commands(stream, mesh_count);
            &&& commands.last() is DrawSprite
            &&& commands[p] matches SimpleCommand::BindMesh { mesh } ==> {
                &&& p + 1 < commands.len()
                &&& commands[p + 1] matches SimpleCommand::DrawSprite { position } && {
                    &&& position < stream.len()
                    &&& mesh == usable_mesh(stream[position as int], mesh_count)
                    &&& position > 0 ==> mesh != usable_mesh(stream[position - 1], mesh_count)
                }
            }
        }),
    decreases stream.len(),
{
    if stream.len() > 0 {
        let rest = stream.drop_last();
        let before = simple_commands(rest, mesh_count);
        let all = simple_commands(stream, mesh_count);
        assert(all.take(before.len() as int) =~= before);
        if p < before.len() {
            law_simple_binds_only_on_change(rest, mesh_count, p);
            assert(all[p] == before[p]);
            if before[p] is BindMesh {
                assert(all[p + 1] == before[p + 1]);
            }
        }
    }
}

/// The draws that are counted are the draws that are recorded.
pub proof fn law_draws_are_counted(meshes: Seq<u8>, mesh_count: nat, pairs: nat)
    ensures
        frame_draws(meshes, pairs) == frame_commands(meshes, mesh_count, pairs).filter(
            |c: DrawCommand| c is DrawIndexed,
        ).len(),
        pairs == frame_commands(meshes, mesh_count, pairs).filter(
            |c: DrawCommand| c is BindPair,
        ).len(),
    decreases pairs,
{
    let draws = |c: DrawCommand| c is DrawIndexed;
    let binds = |c: DrawCommand| c is BindPair;
    reveal_with_fuel(Seq::<_>::filter, 3);
    if pairs > 0 {
        let pair = (pairs - 1) as nat;
        law_draws_are_counted(meshes, mesh_count, pair);
        let before = frame_commands(meshes, mesh_count, pair);
        let bind = seq![DrawCommand::BindPair { pair: pair as usize }];
        let slice = pair_slice(meshes, pair as int);
        let runs = run_commands(slice, 0, mesh_count);
        lemma_runs_are_counted(slice, 0, mesh_count);
        Seq::filter_distributes_over_add(before, bind, draws);
        Seq::filter_distributes_over_add(before + bind, runs, draws);
        Seq::filter_distributes_over_add(before, bind, binds);
        Seq::filter_distributes_over_add(before + bind, runs, binds);
        assert(bind.drop_last() =~= Seq::empty());
        assert(bind.filter(draws).len() == 0);
        assert(bind.filter(binds).len() == 1);
    }
}

proof fn lemma_runs_are_counted(meshes: Seq<u8>, i: int, mesh_count: nat)
    ensures
        run_count(meshes, i) == run_commands(meshes, i, mesh_count).filter(
            |c: DrawCommand| c is DrawIndexed,
        ).len(),
        run_commands(meshes, i, mesh_count).filter(|c: DrawCommand| c is BindPair).len() == 0,
    decreases meshes.len() - i,
{
    let draws = |c: DrawCommand| c is DrawIndexed;
    let binds = |c: DrawCommand| c is BindPair;
    reveal_with_fuel(Seq::<_>::filter, 3);
    if 0 <= i < meshes.len() {
        let end = run_end(meshes, i, i + 1);
        lemma_run_end(meshes, i, i + 1);
        lemma_runs_are_counted(meshes, end, mesh_count);
        let texture = DrawCommand::BindTexture { mesh: usable_mesh(meshes[i], mesh_count) };
        let draw = DrawCommand::DrawIndexed {
            index_count: (6 * (end - i)) as u32,
            first_index: (6 * i) as u32,
        };
        let head = seq![texture, draw];
        let tail = run_commands(meshes, end, mesh_count);
        Seq::filter_distributes_over_add(head, tail, draws);
        Seq::filter_distributes_over_add(head, tail, binds);
        assert(head.drop_last() =~= seq![texture]);
        assert(seq![texture].drop_last() =~= Seq::empty());
        assert(seq![texture].filter(draws).len() == 0);
        assert(seq![texture].filter(binds).len() == 0);
        assert(head.filter(draws).len() == 1);
        assert(head.filter(binds).len() == 0);
    }
}

/// The pairs share the stream out: place `j` of pair `p` holds place `16373 * p + j`,
/// every pair but the last is full, and the last one is not empty.
pub proof fn law_pairs_share_out_the_stream<T>(stream: Seq<T>, p: int, j: int)
    requires
        0 <= p < pairs_needed(stream.len()),
        0 <= j < pair_slice(stream, p).len(),
    ensures
        pair_slice(stream, p)[j] == stream[16373 * p + j],
        p + 1 < pairs_needed(stream.len()) ==> pair_slice(stream, p).len() == 16373,
        p + 1 == pairs_needed(stream.len()) ==> 16373 * p + pair_slice(stream, p).len()
            == stream.len(),
{
}

/// As many pairs as it takes, and no more.
pub proof fn law_pairs_needed_are_enough(total: nat)
    ensures
        total <= 16373 * pairs_needed(total) < total + 16373,
{
}

} // verus!
