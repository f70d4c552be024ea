//! Frame animation.
//!
//! A [`FrameStrip`] says where the frames of an animation lie in an atlas and
//! how they follow one another; sprites share it. Each sprite has its own
//! [`AnimationState`]. Strips are contiguous runs of cells in one row of a grid
//! of equal cells.
//!
//! Time is a float and stays with the caller, who hands in the number of frame
//! durations that have passed, rounded down.

use vstd::prelude::*;

verus! {

/// How a strip goes on after its last frame.
#[derive(Clone, Copy, Debug, PartialEq, Eq, Structural)]
pub enum LoopMode {
    /// From the beginning again.
    Loop,
    /// The last frame stays.
    Once,
    /// Back and forth.
    PingPong,
}

impl Default for LoopMode {
    fn default() -> (mode: Self)
        ensures
            mode == LoopMode::Loop,
    {
        LoopMode::Loop
    }
}

/// Frames of one animation, and how they follow one another.
#[derive(Clone, Copy, Debug, PartialEq, Eq, Structural)]
pub struct FrameStrip {
    /// Cells of the atlas, across and down.
    pub atlas_cells_x: u32,
    pub atlas_cells_y: u32,
    /// Cell of the first frame.
    pub row: u32,
    pub col0: u32,
    pub frame_count: u32,
    /// Frames per second, as the bit pattern of a float.
    pub fps: u32,
    pub loop_mode: LoopMode,
}

/// The frame that is shown after `raw` frame durations, of `count` frames.
pub open spec fn frame_shown(mode: LoopMode, count: int, raw: int) -> int {
    if count <= 1 {
        0
    } else {
        match mode {
            LoopMode::Loop => raw % count,
            LoopMode::Once => if raw < count {
                raw
            } else {
                count - 1
            },
            LoopMode::PingPong => {
                let i = raw % (2 * (count - 1));
                if i < count {
                    i
                } else {
                    2 * (count - 1) - i
                }
            },
        }
    }
}

/// Frame durations of one cycle of `count` frames; none if there is no cycle.
pub open spec fn cycle_of(mode: LoopMode, count: int) -> Option<int> {
    match mode {
        LoopMode::PingPong => if count <= 1 {
            None
        } else {
            Some(2 * (count - 1))
        },
        _ => Some(count),
    }
}

impl FrameStrip {
    /// The frames lie in the atlas.
    pub open spec fn wf(&self) -> bool {
        &&& self.frame_count >= 1
        &&& self.col0 + self.frame_count <= self.atlas_cells_x
        &&& self.row < self.atlas_cells_y
    }

    /// A strip of `frame_count` cells in a row of an atlas.
    pub fn from_grid_row(
        atlas_cells_x: u32,
        atlas_cells_y: u32,
        row: u32,
        col0: u32,
        frame_count: u32,
        fps: u32,
        loop_mode: LoopMode,
    ) -> (strip: Self)
        requires
            frame_count >= 1,
            col0 + frame_count <= atlas_cells_x,
            row < atlas_cells_y,
        ensures
            strip.wf(),
            strip == (FrameStrip {
                atlas_cells_x,
                atlas_cells_y,
                row,
                col0,
                frame_count,
                fps,
                loop_mode,
            }),
    {
        FrameStrip { atlas_cells_x, atlas_cells_y, row, col0, frame_count, fps, loop_mode }
    }

    /// Frame durations of one cycle; none if there is no cycle.
    pub fn cycle_frames(&self) -> (frames: Option<u64>)
        ensures
            frames == match self.loop_mode {
                LoopMode::PingPong => if self.frame_count <= 1 {
                    None::<u64>
                } else {
                    Some((2 * (self.frame_count - 1)) as u64)
                },
                _ => Some(self.frame_count as u64),
            },
            cycle_of(self.loop_mode, self.frame_count as int) matches Some(n) ==> frames == Some(
                n as u64,
            ),
            cycle_of(self.loop_mode, self.frame_count as int) is None ==> frames is None,
    {
        match self.loop_mode {
            LoopMode::PingPong => {
                if self.frame_count <= 1 {
                    None
                } else {
                    Some(2 * (self.frame_count as u64 - 1))
                }
            },
            _ => Some(self.frame_count as u64),
        }
    }

    /// The frame that is shown after `raw` frame durations.
    pub fn frame_index_at(&self, raw: u32) -> (index: u32)
        ensures
            index == frame_shown(self.loop_mode, self.frame_count as int, raw as int),
            self.frame_count >= 1 ==> index < self.frame_count,
    {
        if self.frame_count <= 1 {
            return 0;
        }
        match self.loop_mode {
            LoopMode::Loop => raw % self.frame_count,
            LoopMode::Once => {
                if raw < self.frame_count {
                    raw
                } else {
                    self.frame_count - 1
                }
            },
            LoopMode::PingPong => {
                let period: u64 = 2 * (self.frame_count as u64 - 1);
                let i: u64 = raw as u64 % period;
                if i < self.frame_count as u64 {
                    i as u32
                } else {
                    (period - i) as u32
                }
            },
        }
    }

    /// The cell of a frame, column and row. It lies in the atlas if the strip
    /// does and has that frame.
    pub fn uv_offset_for(&self, frame_idx: u32) -> (cell: (u64, u32))
        ensures
            cell.0 == self.col0 + frame_idx,
            cell.1 == self.row,
            self.wf() && frame_idx < self.frame_count ==> cell.0 < self.atlas_cells_x && cell.1
                < self.atlas_cells_y,
    {
        (self.col0 as u64 + frame_idx as u64, self.row)
    }
}

/// Playback of one sprite.
#[derive(Clone, Copy, Debug, PartialEq, Eq, Structural)]
pub struct AnimationState {
    /// The strip that is played.
    pub strip_id: u16,
    /// Seconds since the strip began, as the bit pattern of a float.
    pub time: u32,
    /// Whether time stands still.
    pub paused: bool,
}

impl AnimationState {
    /// From the beginning.
    pub fn new(strip_id: u16) -> (state: Self)
        ensures
            state == (AnimationState { strip_id, time: 0, paused: false }),
    {
        AnimationState { strip_id, time: 0, paused: false }
    }

    /// From the given time on, so that sprites with one strip do not move in
    /// step.
    pub fn with_offset(strip_id: u16, time_offset: u32) -> (state: Self)
        ensures
            state == (AnimationState { strip_id, time: time_offset, paused: false }),
    {
        AnimationState { strip_id, time: time_offset, paused: false }
    }

    /// Lets time go on to `later`, unless playback is paused.
    pub fn advance_to(&mut self, later: u32)
        ensures
            *final(self) == if old(self).paused {
                *old(self)
            } else {
                AnimationState { time: later, ..*old(self) }
            },
    {
        if !self.paused {
            self.time = later;
        }
    }
}

/// The strip that an id stands for: the first one if there is no such strip.
pub open spec fn strip_used(strip_id: u16, strips: nat) -> int {
    if strip_id < strips {
        strip_id as int
    } else {
        0
    }
}

pub fn strip_index(strip_id: u16, strips: usize) -> (index: usize)
    requires
        strips > 0,
    ensures
        index == strip_used(strip_id, strips as nat),
        index < strips,
{
    if (strip_id as usize) < strips {
        strip_id as usize
    } else {
        0
    }
}

/// The strip and frame that a sprite shows.
#[derive(Clone, Copy, Debug, PartialEq, Eq)]
pub struct ShownFrame {
    pub strip: usize,
    pub frame: u32,
    /// Atlas cell of the frame, column and row.
    pub cell: (u64, u32),
}

/// What a sprite shows: nothing new if it is static or there are no strips.
pub open spec fn shown(
    anim: Option<AnimationState>,
    raw: u32,
    strips: Seq<FrameStrip>,
) -> Option<ShownFrame> {
    match anim {
        None => None,
        Some(a) => if strips.len() == 0 {
            None
        } else {
            let s = strip_used(a.strip_id, strips.len());
            let strip = strips[s];
            let frame = frame_shown(strip.loop_mode, strip.frame_count as int, raw as int);
            Some(
                ShownFrame {
                    strip: s as usize,
                    frame: frame as u32,
                    cell: ((strip.col0 + frame) as u64, strip.row),
                },
            )
        },
    }
}

/// How many of the first `n` sprites are animated.
pub open spec fn animated_count(anims: Seq<Option<AnimationState>>, n: nat) -> nat
    decreases n,
{
    if n == 0 {
        0
    } else {
        animated_count(anims, (n - 1) as nat) + if anims[n - 1] is Some {
            1nat
        } else {
            0nat
        }
    }
}

/// Resolves the frame of every animated sprite, and counts them. `raw[i]` are
/// the frame durations that sprite `i` has played; static sprites are left out.
/// Without strips nothing is shown and nothing is counted.
pub fn tick_animations(
    anims: &[Option<AnimationState>],
    raw: &[u32],
    strips: &[FrameStrip],
) -> (ticked: (Vec<Option<ShownFrame>>, usize))
    requires
        raw@.len() == anims@.len(),
    ensures
        ticked.0@ == Seq::new(anims@.len(), |i: int| shown(anims@[i], raw@[i], strips@)),
        ticked.1 == if strips@.len() == 0 {
            0
        } else {
            animated_count(anims@, anims@.len())
        },
{
    let mut frames: Vec<Option<ShownFrame>> = Vec::new();
    let mut animated: usize = 0;
    let mut i: usize = 0;
    while i < anims.len()
        invariant
            i <= anims@.len(),
            raw@.len() == anims@.len(),
            frames@ == Seq::new(i as nat, |k: int| shown(anims@[k], raw@[k], strips@)),
            animated == if strips@.len() == 0 {
                0
            } else {
                animated_count(anims@, i as nat)
            },
            animated <= i,
        decreases anims@.len() - i,
    {
        match anims[i] {
            None => {
                frames.push(None);
            },
            Some(anim) => if strips.len() == 0 {
                frames.push(None);
            } else {
                animated += 1;
                let s: usize = strip_index(anim.strip_id, strips.len());
                let strip: FrameStrip = strips[s];
                let frame: u32 = strip.frame_index_at(raw[i]);
                frames.push(
                    Some(ShownFrame { strip: s, frame, cell: strip.uv_offset_for(frame) }),
                );
            },
        }
        i += 1;
        assert(frames@ =~= Seq::new(i as nat, |k: int| shown(anims@[k], raw@[k], strips@)));
    }
    (frames, animated)
}

/// A strip that loops shows the same frame one cycle later.
pub proof fn law_loop_repeats(count: int, raw: int)
    requires
        count >= 1,
        raw >= 0,
    ensures
        frame_shown(LoopMode::Loop, count, raw + count) == frame_shown(LoopMode::Loop, count, raw),
{
    if count > 1 {
        vstd::arithmetic::div_mod::lemma_mod_add_multiples_vanish(raw, count);
    }
}

/// A strip that plays once keeps its last frame.
pub proof fn law_once_holds_last_frame(count: int, raw: int)
    requires
        count >= 1,
        raw >= count - 1,
    ensures
        frame_shown(LoopMode::Once, count, raw) == count - 1,
{
}

/// A strip that goes back and forth never jumps: from one frame duration to the
/// next the frame changes by exactly one, and it repeats after a cycle.
pub proof fn law_ping_pong_never_jumps(count: int, raw: int)
    requires
        count >= 2,
        raw >= 0,
    ensures
        ({
            let a = frame_shown(LoopMode::PingPong, count, raw);
            let b = frame_shown(LoopMode::PingPong, count, raw + 1);
            b == a + 1 || b == a - 1
        }),
        frame_shown(LoopMode::PingPong, count, raw + 2 * (count - 1)) == frame_shown(
            LoopMode::PingPong,
            count,
            raw,
        ),
{
    let period = 2 * (count - 1);
    vstd::arithmetic::div_mod::lemma_mod_add_multiples_vanish(raw, period);
    vstd::arithmetic::div_mod::lemma_add_mod_noop(raw, 1, period);
    vstd::arithmetic::div_mod::lemma_mod_bound(raw, period);
    let i = raw % period;
    if i + 1 < period {
        vstd::arithmetic::div_mod::lemma_small_mod((i + 1) as nat, period as nat);
    } else {
        vstd::arithmetic::div_mod::lemma_mod_self_0(period);
    }
    if period > 1 {
        vstd::arithmetic::div_mod::lemma_small_mod(1, period as nat);
    }
}

/// Every frame that a strip shows is one of its frames.
pub proof fn law_frame_in_strip(mode: LoopMode, count: int, raw: int)
    requires
        count >= 1,
        raw >= 0,
    ensures
        0 <= frame_shown(mode, count, raw) < count,
{
    if count > 1 {
        vstd::arithmetic::div_mod::lemma_mod_bound(raw, count);
        vstd::arithmetic::div_mod::lemma_mod_bound(raw, 2 * (count - 1));
    }
}

/// As long as a strip has not come to its end, frame `raw` is shown after `raw`
/// frame durations, in every mode.
pub proof fn law_frames_are_shown_in_order(mode: LoopMode, count: int, raw: int)
    requires
        0 <= raw < count,
    ensures
        frame_shown(mode, count, raw) == raw,
{
    if count > 1 {
        vstd::arithmetic::div_mod::lemma_small_mod(raw as nat, count as nat);
        if raw < 2 * (count - 1) {
            vstd::arithmetic::div_mod::lemma_small_mod(raw as nat, (2 * (count - 1)) as nat);
        }
    }
}

/// From its end on, a strip that goes back and forth shows its frames in reverse:
/// the frame is the same as many durations before the turn as after it, and the
/// last frame is shown once per cycle.
pub proof fn law_ping_pong_turns_at_last_frame(count: int, after: int)
    requires
        count >= 2,
        0 <= after <= count - 1,
    ensures
        frame_shown(LoopMode::PingPong, count, count - 1 - after) == count - 1 - after,
        frame_shown(LoopMode::PingPong, count, count - 1 + after) == count - 1 - after,
{
    let period = 2 * (count - 1);
    law_frames_are_shown_in_order(LoopMode::PingPong, count, count - 1 - after);
    if count - 1 + after < period {
        vstd::arithmetic::div_mod::lemma_small_mod((count - 1 + after) as nat, period as nat);
    } else {
        vstd::arithmetic::div_mod::lemma_mod_self_0(period);
    }
}

/// A looping strip shows every frame once per cycle, and each as often as any
/// other: after `cycles` whole cycles it goes on with frame `raw`.
pub proof fn law_loop_goes_round(count: int, cycles: int, raw: int)
    requires
        0 <= raw < count,
        cycles >= 0,
    ensures
        frame_shown(LoopMode::Loop, count, cycles * count + raw) == raw,
    decreases cycles,
{
    if cycles == 0 {
        assert(cycles * count == 0) by (nonlinear_arith)
            requires
                cycles == 0,
        ;
        law_frames_are_shown_in_order(LoopMode::Loop, count, raw);
    } else {
        law_loop_goes_round(count, cycles - 1, raw);
        assert(cycles * count == (cycles - 1) * count + count) by (nonlinear_arith);
        assert((cycles - 1) * count >= 0) by (nonlinear_arith)
            requires
                cycles >= 1,
                count >= 1,
        ;
        law_loop_repeats(count, (cycles - 1) * count + raw);
        assert(cycles * count + raw == (cycles - 1) * count + raw + count);
    }
}

/// What an animated sprite shows comes out of its own strip, or out of the first
/// one where there is no strip of that number: a cell of the strip's row, as far
/// from the strip's first cell as the number of the frame says. A static sprite
/// shows nothing new.
pub proof fn law_sprite_shows_its_strip(
    anim: Option<AnimationState>,
    raw: u32,
    strips: Seq<FrameStrip>,
)
    requires
        strips.len() <= usize::MAX,
    ensures
        shown(anim, raw, strips) is Some <==> anim is Some && strips.len() > 0,
        shown(anim, raw, strips) matches Some(f) ==> {
            let strip = strips[f.strip as int];
            &&& f.strip < strips.len()
            &&& anim->0.strip_id < strips.len() ==> f.strip == anim->0.strip_id
            &&& anim->0.strip_id >= strips.len() ==> f.strip == 0
            &&& f.frame == frame_shown(strip.loop_mode, strip.frame_count as int, raw as int)
            &&& f.cell.0 - strip.col0 == f.frame
            &&& f.cell.1 == strip.row
            &&& strip.frame_count <= 1 ==> f.frame == 0
            &&& strip.frame_count >= 1 ==> f.frame < strip.frame_count
            &&& raw < strip.frame_count ==> f.frame == raw
            &&& strip.loop_mode is Once && raw >= strip.frame_count >= 1 ==> f.frame
                == strip.frame_count - 1
            &&& strip.loop_mode is Loop && strip.frame_count >= 1 ==> (raw - f.frame)
                % (strip.frame_count as int) == 0
            &&& strip.wf() ==> f.cell.0 < strip.atlas_cells_x && f.cell.1 < strip.atlas_cells_y
        },
{
    if anim is Some && strips.len() > 0 {
        let s: int = if anim->0.strip_id < strips.len() {
            anim->0.strip_id as int
        } else {
            0
        };
        let strip = strips[s];
        let count = strip.frame_count as int;
        if count >= 1 {
            law_frame_in_strip(strip.loop_mode, count, raw as int);
            if raw < count {
                law_frames_are_shown_in_order(strip.loop_mode, count, raw as int);
            }
            if strip.loop_mode is Once && raw >= count {
                law_once_holds_last_frame(count, raw as int);
            }
            if strip.loop_mode is Loop {
                vstd::arithmetic::div_mod::lemma_fundamental_div_mod(raw as int, count);
                vstd::arithmetic::div_mod::lemma_mod_multiples_basic(raw as int / count, count);
                assert((raw as int / count) * count == count * (raw as int / count))
                    by (nonlinear_arith);
                if count == 1 {
                    assert(raw as int % 1 == 0);
                }
            }
        }
    }
}

/// The count of animated sprites is the number of those that have an animation.
pub proof fn law_animated_sprites_are_counted(anims: Seq<Option<AnimationState>>, n: nat)
    requires
        n <= anims.len(),
    ensures
        animated_count(anims, n) == anims.take(n as int).filter(
            |a: Option<AnimationState>| a is Some,
        ).len(),
    decreases n,
{
    let animated = |a: Option<AnimationState>| a is Some;
    reveal(Seq::filter);
    if n > 0 {
        law_animated_sprites_are_counted(anims, (n - 1) as nat);
        assert(anims.take(n as int).drop_last() =~= anims.take(n - 1));
    }
}

/// A cycle is as long as it takes until the first frame comes again, and it does not
/// come earlier; from then on everything repeats. One run through a strip that plays
/// once is as long as one through a looping one.
pub proof fn law_cycle_ends_where_it_began(mode: LoopMode, count: int, raw: int)
    requires
        count >= 2,
        raw >= 0,
    ensures
        cycle_of(mode, count) matches Some(n) && n >= count,
        cycle_of(LoopMode::Once, count) == cycle_of(LoopMode::Loop, count),
        !(mode is Once) ==> frame_shown(mode, count, raw + cycle_of(mode, count)->0) == frame_shown(
            mode,
            count,
            raw,
        ),
        0 < raw < cycle_of(mode, count)->0 ==> frame_shown(mode, count, raw) != 0,
        frame_shown(mode, count, 0) == 0,
        cycle_of(LoopMode::PingPong, 1) is None,
        cycle_of(LoopMode::Loop, 1) == Some(1int),
{
    law_frames_are_shown_in_order(mode, count, 0);
    law_loop_repeats(count, raw);
    law_ping_pong_never_jumps(count, raw);
    if 0 < raw < count {
        law_frames_are_shown_in_order(mode, count, raw);
    } else if count <= raw < 2 * (count - 1) {
        law_ping_pong_turns_at_last_frame(count, raw - (count - 1));
    }
}

} // verus!
