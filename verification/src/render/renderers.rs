//! Renderer kinds, the order in which sprites are drawn, and the plain renderer
//! with one draw call per sprite.

use vstd::prelude::*;

verus! {

/// The kinds of renderer.
#[derive(Clone, Copy, Debug, PartialEq, Eq, Structural)]
pub enum RendererKind {
    /// One draw call per sprite.
    Simple,
    /// Reserved for grouping by render state; draws like `Simple`.
    Batch,
    /// Many sprites per buffer, one draw call per texture change.
    BigBuffer,
}

impl Default for RendererKind {
    fn default() -> (kind: Self)
        ensures
            kind == RendererKind::BigBuffer,
    {
        RendererKind::BigBuffer
    }
}

/// `c` with an ASCII upper-case letter made lower case.
pub open spec fn ascii_lower(c: char) -> char {
    if 'A' <= c <= 'Z' {
        (c as u32 + 32) as char
    } else {
        c
    }
}

/// The text with its ASCII letters made lower case.
pub open spec fn lowered(text: Seq<char>) -> Seq<char> {
    Seq::new(text.len(), |i: int| ascii_lower(text[i]))
}

/// The kind that a command-line word names.
pub open spec fn kind_named(word: Seq<char>) -> Option<RendererKind> {
    let low = lowered(word);
    if low == "simple"@ {
        Some(RendererKind::Simple)
    } else if low == "batch"@ {
        Some(RendererKind::Batch)
    } else if low == "bigbuffer"@ || low == "big-buffer"@ || low == "big_buffer"@ {
        Some(RendererKind::BigBuffer)
    } else {
        None
    }
}

/// The name of a kind.
pub open spec fn kind_name(kind: RendererKind) -> Seq<char> {
    match kind {
        RendererKind::Simple => "simple"@,
        RendererKind::Batch => "batch"@,
        RendererKind::BigBuffer => "bigbuffer"@,
    }
}

fn lower_char(c: char) -> (low: char)
    ensures
        low == ascii_lower(c),
{
    match c {
        'A' => 'a',
        'B' => 'b',
        'C' => 'c',
        'D' => 'd',
        'E' => 'e',
        'F' => 'f',
        'G' => 'g',
        'H' => 'h',
        'I' => 'i',
        'J' => 'j',
        'K' => 'k',
        'L' => 'l',
        'M' => 'm',
        'N' => 'n',
        'O' => 'o',
        'P' => 'p',
        'Q' => 'q',
        'R' => 'r',
        'S' => 's',
        'T' => 't',
        'U' => 'u',
        'V' => 'v',
        'W' => 'w',
        'X' => 'x',
        'Y' => 'y',
        'Z' => 'z',
        _ => c,
    }
}

/// Whether `text` is `word` but for ASCII case.
fn reads_as(text: &str, word: &str) -> (same: bool)
    ensures
        same <==> lowered(text@) == word@,
{
    let n: usize = text.unicode_len();
    if n != word.unicode_len() {
        return false;
    }
    let mut i: usize = 0;
    while i < n
        invariant
            i <= n,
            n == text@.len(),
            n == word@.len(),
            forall|j: int| 0 <= j < i ==> #[trigger] lowered(text@)[j] == word@[j],
        decreases n - i,
    {
        if lower_char(text.get_char(i)) != word.get_char(i) {
            assert(lowered(text@)[i as int] != word@[i as int]);
            return false;
        }
        i += 1;
    }
    assert(lowered(text@) =~= word@);
    true
}

impl RendererKind {
    /// The kind that a command-line word names; case does not matter.
    pub fn from_cli(s: &str) -> (kind: Option<Self>)
        ensures
            kind == kind_named(s@),
    {
        if reads_as(s, "simple") {
            Some(RendererKind::Simple)
        } else if reads_as(s, "batch") {
            Some(RendererKind::Batch)
        } else if reads_as(s, "bigbuffer") || reads_as(s, "big-buffer") || reads_as(
            s,
            "big_buffer",
        ) {
            Some(RendererKind::BigBuffer)
        } else {
            None
        }
    }

    pub fn as_str(&self) -> (name: &'static str)
        ensures
            name@ == kind_name(*self),
    {
        match self {
            RendererKind::Simple => "simple",
            RendererKind::Batch => "batch",
            RendererKind::BigBuffer => "bigbuffer",
        }
    }
}

/// The name of a kind names that kind.
pub proof fn law_kind_name_round_trip(kind: RendererKind)
    ensures
        kind_named(kind_name(kind)) == Some(kind),
{
    reveal_strlit("simple");
    reveal_strlit("batch");
    reveal_strlit("bigbuffer");
    reveal_strlit("big-buffer");
    reveal_strlit("big_buffer");
    let name = kind_name(kind);
    assert(lowered(name) =~= name);
    assert("batch"@.len() != "simple"@.len());
    assert("bigbuffer"@.len() != "simple"@.len());
    assert("bigbuffer"@.len() != "batch"@.len());
}

/// Everything that is drawn, in order: the world in its sort order, then the
/// overlay. Where the sort order does not fit the world, the world is drawn in
/// input order.
pub open spec fn stream_of<T>(world: Seq<T>, order: Seq<u32>, gui: Seq<T>) -> Seq<T> {
    if order.len() == world.len() {
        Seq::new(world.len(), |i: int| world[order[i] as int]) + gui
    } else {
        world + gui
    }
}

/// The order can be used to walk a world of `n` sprites.
pub open spec fn order_fits(order: Seq<u32>, n: nat) -> bool {
    order.len() == n ==> forall|i: int| 0 <= i < order.len() ==> (#[trigger] order[i]) < n
}

/// Puts everything that is drawn in order.
pub fn draw_stream<T: Copy>(world: &[T], order: &[u32], gui: &[T]) -> (stream: Vec<T>)
    requires
        order_fits(order@, world@.len()),
    ensures
        stream@ == stream_of(world@, order@, gui@),
{
    let mut stream: Vec<T> = Vec::new();
    if order.len() == world.len() {
        let mut i: usize = 0;
        while i < order.len()
            invariant
                i <= order@.len(),
                order@.len() == world@.len(),
                order_fits(order@, world@.len()),
                stream@ == Seq::new(i as nat, |j: int| world@[order@[j] as int]),
            decreases order@.len() - i,
        {
            assert(order@[i as int] < world@.len());
            stream.push(world[order[i] as usize]);
            i += 1;
        }
    } else {
        let mut i: usize = 0;
        while i < world.len()
            invariant
                i <= world@.len(),
                stream@ == world@.take(i as int),
            decreases world@.len() - i,
        {
            stream.push(world[i]);
            i += 1;
        }
        assert(world@.take(i as int) =~= world@);
    }
    let ghost drawn = stream@;
    let mut i: usize = 0;
    while i < gui.len()
        invariant
            i <= gui@.len(),
            stream@ == drawn + gui@.take(i as int),
        decreases gui@.len() - i,
    {
        stream.push(gui[i]);
        i += 1;
    }
    assert(gui@.take(i as int) =~= gui@);
    stream
}

/// The mesh that a sprite is drawn with: its own, or the first one if there is
/// no such mesh.
pub open spec fn usable_mesh(mesh_idx: u8, mesh_count: nat) -> u8 {
    if mesh_idx < mesh_count {
        mesh_idx
    } else {
        0
    }
}

pub fn clamp_mesh(mesh_idx: u8, mesh_count: usize) -> (mesh: u8)
    ensures
        mesh == usable_mesh(mesh_idx, mesh_count as nat),
{
    if (mesh_idx as usize) < mesh_count {
        mesh_idx
    } else {
        0
    }
}

/// What the plain renderer records.
#[derive(Clone, Copy, Debug, PartialEq, Eq, Structural)]
pub enum SimpleCommand {
    /// Bind the geometry and texture of a mesh.
    BindMesh { mesh: u8 },
    /// Draw the sprite at this place of the stream.
    DrawSprite { position: usize },
}

/// One draw per sprite; a mesh is bound where it differs from the one before.
pub open spec fn simple_commands(stream: Seq<u8>, mesh_count: nat) -> Seq<SimpleCommand>
    decreases stream.len(),
{
    if stream.len() == 0 {
        Seq::empty()
    } else {
        let last = stream.len() - 1;
        let mesh = usable_mesh(stream[last], mesh_count);
        let before = simple_commands(stream.drop_last(), mesh_count);
        let bound = if last > 0 && usable_mesh(stream[last - 1], mesh_count) == mesh {
            before
        } else {
            before.push(SimpleCommand::BindMesh { mesh })
        };
        bound.push(SimpleCommand::DrawSprite { position: last as usize })
    }
}

/// One draw call per sprite.
#[derive(Clone, Copy, Debug, Default)]
pub struct SimpleRenderer;

impl SimpleRenderer {
    pub fn new() -> Self {
        SimpleRenderer
    }

    pub fn kind(&self) -> (kind: RendererKind)
        ensures
            kind == RendererKind::Simple,
    {
        RendererKind::Simple
    }

    /// The commands for one frame. The meshes are those that the sprites ask
    /// for.
    pub fn record(
        &self,
        world: &[u8],
        order: &[u32],
        gui: &[u8],
        mesh_count: usize,
    ) -> (commands: Vec<SimpleCommand>)
        requires
            order_fits(order@, world@.len()),
            mesh_count > 0 || world@.len() + gui@.len() == 0,
        ensures
            commands@ == simple_commands(stream_of(world@, order@, gui@), mesh_count as nat),
    {
        let stream: Vec<u8> = draw_stream(world, order, gui);
        let mut commands: Vec<SimpleCommand> = Vec::new();
        let mut current: Option<u8> = None;
        let mut i: usize = 0;
        while i < stream.len()
            invariant
                i <= stream@.len(),
                stream@ == stream_of(world@, order@, gui@),
                commands@ == simple_commands(stream@.take(i as int), mesh_count as nat),
                current == if i == 0 {
                    None::<u8>
                } else {
                    Some(usable_mesh(stream@[i - 1], mesh_count as nat))
                },
            decreases stream@.len() - i,
        {
            assert(stream@.take(i + 1).drop_last() =~= stream@.take(i as int));
            let mesh: u8 = clamp_mesh(stream[i], mesh_count);
            let bound: bool = match current {
                Some(c) => c == mesh,
                None => false,
            };
            if !bound {
                commands.push(SimpleCommand::BindMesh { mesh });
                current = Some(mesh);
            }
            commands.push(SimpleCommand::DrawSprite { position: i });
            i += 1;
        }
        assert(stream@.take(i as int) =~= stream@);
        commands
    }
}

/// Draws like [`SimpleRenderer`].
#[derive(Clone, Copy, Debug, Default)]
pub struct BatchRenderer {
    inner: SimpleRenderer,
}

impl BatchRenderer {
    pub fn new() -> Self {
        BatchRenderer { inner: SimpleRenderer::new() }
    }

    pub fn kind(&self) -> (kind: RendererKind)
        ensures
            kind == RendererKind::Batch,
    {
        RendererKind::Batch
    }

    /// The commands for one frame.
    pub fn record(
        &self,
        world: &[u8],
        order: &[u32],
        gui: &[u8],
        mesh_count: usize,
    ) -> (commands: Vec<SimpleCommand>)
        requires
            order_fits(order@, world@.len()),
            mesh_count > 0 || world@.len() + gui@.len() == 0,
        ensures
            commands@ == simple_commands(stream_of(world@, order@, gui@), mesh_count as nat),
    {
        self.inner.record(world, order, gui, mesh_count)
    }
}

/// What is drawn, place by place: first the world, place `i` being the sprite that
/// the sort order names there, then the overlay in its own order. An order of
/// another length than the world is not used.
pub proof fn law_world_is_drawn_before_overlay<T>(
    world: Seq<T>,
    order: Seq<u32>,
    gui: Seq<T>,
    i: int,
)
    requires
        0 <= i < world.len() + gui.len(),
    ensures
        ({
            let stream = stream_of(world, order, gui);
            &&& stream.len() == world.len() + gui.len()
            &&& i < world.len() && order.len() == world.len() ==> stream[i]
                == world[order[i] as int]
            &&& i < world.len() && order.len() != world.len() ==> stream[i] == world[i]
            &&& i >= world.len() ==> stream[i] == gui[i - world.len()]
        }),
{
}

/// Upper-case letters stand 32 before their lower-case ones; no other character
/// changes, and nothing changes twice.
pub proof fn law_lower_case_is_ascii(c: char)
    ensures
        'A' <= c <= 'Z' ==> 'a' <= ascii_lower(c) <= 'z' && ascii_lower(c) as u32 == c as u32 + 32,
        c < 'A' || c > 'Z' ==> ascii_lower(c) == c,
        ascii_lower(ascii_lower(c)) == ascii_lower(c),
{
}

/// Case does not matter to the name of a renderer: two words with the same letters
/// name the same kind.
pub proof fn law_kind_ignores_case(a: Seq<char>, b: Seq<char>)
    requires
        a.len() == b.len(),
        forall|i: int|
            0 <= i < a.len() ==> #[trigger] ascii_lower(a[i]) == ascii_lower(#[trigger] b[i]),
    ensures
        kind_named(a) == kind_named(b),
{
    assert(lowered(a) =~= lowered(b));
}

/// In lower case, five words name a renderer, and no others do.
pub proof fn law_words_that_name_kinds(word: Seq<char>)
    requires
        forall|i: int| 0 <= i < word.len() ==> !('A' <= #[trigger] word[i] <= 'Z'),
    ensures
        kind_named(word) == Some(RendererKind::Simple) <==> word == seq![
            's',
            'i',
            'm',
            'p',
            'l',
            'e',
        ],
        kind_named(word) == Some(RendererKind::Batch) <==> word == seq!['b', 'a', 't', 'c', 'h'],
        kind_named(word) == Some(RendererKind::BigBuffer) <==> {
            ||| word == seq!['b', 'i', 'g', 'b', 'u', 'f', 'f', 'e', 'r']
            ||| word == seq!['b', 'i', 'g', '-', 'b', 'u', 'f', 'f', 'e', 'r']
            ||| word == seq!['b', 'i', 'g', '_', 'b', 'u', 'f', 'f', 'e', 'r']
        },
{
    reveal_strlit("simple");
    reveal_strlit("batch");
    reveal_strlit("bigbuffer");
    reveal_strlit("big-buffer");
    reveal_strlit("big_buffer");
    assert(lowered(word) =~= word);
    assert("simple"@ =~= seq!['s', 'i', 'm', 'p', 'l', 'e']);
    assert("batch"@ =~= seq!['b', 'a', 't', 'c', 'h']);
    assert("bigbuffer"@ =~= seq!['b', 'i', 'g', 'b', 'u', 'f', 'f', 'e', 'r']);
    assert("big-buffer"@ =~= seq!['b', 'i', 'g', '-', 'b', 'u', 'f', 'f', 'e', 'r']);
    assert("big_buffer"@ =~= seq!['b', 'i', 'g', '_', 'b', 'u', 'f', 'f', 'e', 'r']);
}

/// The name of a kind is the word of its letters.
pub proof fn law_kind_names_are_spelled_out(kind: RendererKind)
    ensures
        kind_name(kind) == match kind {
            RendererKind::Simple => seq!['s', 'i', 'm', 'p', 'l', 'e'],
            RendererKind::Batch => seq!['b', 'a', 't', 'c', 'h'],
            RendererKind::BigBuffer => seq!['b', 'i', 'g', 'b', 'u', 'f', 'f', 'e', 'r'],
        },
{
    reveal_strlit("simple");
    reveal_strlit("batch");
    reveal_strlit("bigbuffer");
    assert("simple"@ =~= seq!['s', 'i', 'm', 'p', 'l', 'e']);
    assert("batch"@ =~= seq!['b', 'a', 't', 'c', 'h']);
    assert("bigbuffer"@ =~= seq!['b', 'i', 'g', 'b', 'u', 'f', 'f', 'e', 'r']);
}

} // verus!
