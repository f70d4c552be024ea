//! Command line of the demo.

use vstd::prelude::*;

use crate::render::renderers::{kind_named, RendererKind};

verus! {

/// What the command line asks for.
pub struct Args {
    pub renderer: RendererKind,
    /// Whether the usage text is wanted, and nothing else.
    pub help: bool,
    /// Values of `--renderer` that name no renderer.
    pub unknown: Vec<String>,
}

/// [`Args`] as mathematics.
#[verifier::ext_equal]
pub struct ArgsModel {
    pub renderer: RendererKind,
    pub help: bool,
    pub unknown: Seq<Seq<char>>,
}

/// The texts of a row of strings.
pub open spec fn texts(strings: Seq<String>) -> Seq<Seq<char>> {
    Seq::new(strings.len(), |i: int| strings[i]@)
}

impl View for Args {
    type V = ArgsModel;

    open spec fn view(&self) -> ArgsModel {
        ArgsModel { renderer: self.renderer, help: self.help, unknown: texts(self.unknown@) }
    }
}

/// `text` begins with `prefix`.
pub open spec fn begins_with(text: Seq<char>, prefix: Seq<char>) -> bool {
    prefix.len() <= text.len() && text.take(prefix.len() as int) == prefix
}

/// `text` without `prefix`, as often as it begins with it.
pub open spec fn without_prefix(text: Seq<char>, prefix: Seq<char>) -> Seq<char>
    decreases text.len(),
{
    if prefix.len() > 0 && begins_with(text, prefix) {
        without_prefix(text.skip(prefix.len() as int), prefix)
    } else {
        text
    }
}

/// Reads the arguments from `i` on. The last renderer that is named counts;
/// `--help` ends the reading; anything else is passed over.
pub open spec fn parsed(
    args: Seq<Seq<char>>,
    i: int,
    renderer: RendererKind,
    unknown: Seq<Seq<char>>,
) -> ArgsModel
    decreases args.len() - i,
{
    if i < 0 || i >= args.len() {
        ArgsModel { renderer, help: false, unknown }
    } else if args[i] == "--renderer"@ || args[i] == "-r"@ {
        if i + 1 < args.len() {
            match kind_named(args[i + 1]) {
                Some(kind) => parsed(args, i + 2, kind, unknown),
                None => parsed(args, i + 2, renderer, unknown.push(args[i + 1])),
            }
        } else {
            ArgsModel { renderer, help: false, unknown }
        }
    } else if args[i] == "--help"@ || args[i] == "-h"@ {
        ArgsModel { renderer, help: true, unknown }
    } else if begins_with(args[i], "--renderer="@) {
        match kind_named(without_prefix(args[i], "--renderer="@)) {
            Some(kind) => parsed(args, i + 1, kind, unknown),
            None => parsed(args, i + 1, renderer, unknown),
        }
    } else {
        parsed(args, i + 1, renderer, unknown)
    }
}

/// Whether two texts are the same.
fn same_text(a: &str, b: &str) -> (same: bool)
    ensures
        same <==> a@ == b@,
{
    if a.unicode_len() != b.unicode_len() {
        return false;
    }
    assert(a@ == b@ ==> a@.take(b@.len() as int) =~= b@);
    text_begins_with(a, b)
}

/// Whether a text begins with another.
fn text_begins_with(text: &str, prefix: &str) -> (yes: bool)
    ensures
        yes <==> begins_with(text@, prefix@),
        yes && text@.len() == prefix@.len() ==> text@ == prefix@,
{
    let n: usize = prefix.unicode_len();
    if text.unicode_len() < n {
        return false;
    }
    let mut i: usize = 0;
    while i < n
        invariant
            n == prefix@.len(),
            n <= text@.len(),
            i <= n,
            forall|j: int| 0 <= j < i ==> #[trigger] text@[j] == prefix@[j],
        decreases n - i,
    {
        if text.get_char(i) != prefix.get_char(i) {
            assert(text@.take(n as int)[i as int] != prefix@[i as int]);
            return false;
        }
        i += 1;
    }
    assert(text@.take(n as int) =~= prefix@);
    if text.unicode_len() == n {
        assert(text@ =~= prefix@);
    }
    true
}

/// The renderer that a text names once its prefix is gone.
fn kind_without_prefix(text: &str, prefix: &str) -> (kind: Option<RendererKind>)
    requires
        prefix@.len() > 0,
    ensures
        kind == kind_named(without_prefix(text@, prefix@)),
    decreases text@.len(),
{
    if text_begins_with(text, prefix) {
        let rest: &str = text.substring_char(prefix.unicode_len(), text.unicode_len());
        assert(rest@ =~= text@.skip(prefix@.len() as int));
        kind_without_prefix(rest, prefix)
    } else {
        RendererKind::from_cli(text)
    }
}

impl Args {
    /// Reads the command line, without the program's name.
    pub fn parse(args: &[String]) -> (parsed_args: Self)
        ensures
            parsed_args@ == parsed(
                texts(args@),
                0,
                RendererKind::BigBuffer,
                Seq::empty(),
            ),
    {
        let ghost all = texts(args@);
        let ghost whole = parsed(all, 0, RendererKind::BigBuffer, Seq::empty());
        let mut renderer: RendererKind = RendererKind::default();
        let mut unknown: Vec<String> = Vec::new();
        let mut i: usize = 0;
        assert(texts(unknown@) =~= Seq::empty());
        proof {
            reveal_strlit("--renderer=");
        }
        while i < args.len()
            invariant
                all == texts(args@),
                i <= args@.len(),
                "--renderer="@.len() > 0,
                whole == parsed(all, 0, RendererKind::BigBuffer, Seq::empty()),
                whole == parsed(all, i as int, renderer, texts(unknown@)),
            decreases args@.len() - i,
        {
            let arg: &str = args[i].as_str();
            if same_text(arg, "--renderer") || same_text(arg, "-r") {
                if i + 1 < args.len() {
                    let ghost before = unknown@;
                    match RendererKind::from_cli(args[i + 1].as_str()) {
                        Some(kind) => {
                            renderer = kind;
                        },
                        None => {
                            unknown.push(args[i + 1].clone());
                            assert(texts(unknown@) =~= texts(before).push(all[i + 1]));
                        },
                    }
                    i += 2;
                } else {
                    return Args { renderer, help: false, unknown };
                }
            } else if same_text(arg, "--help") || same_text(arg, "-h") {
                return Args { renderer, help: true, unknown };
            } else {
                if text_begins_with(arg, "--renderer=") {
                    if let Some(kind) = kind_without_prefix(arg, "--renderer=") {
                        renderer = kind;
                    }
                }
                i += 1;
            }
        }
        Args { renderer, help: false, unknown }
    }
}

/// Beginning with a text is agreeing with it letter by letter.
pub proof fn law_prefix_is_letter_by_letter(text: Seq<char>, prefix: Seq<char>)
    ensures
        begins_with(text, prefix) <==> {
            &&& prefix.len() <= text.len()
            &&& forall|i: int| 0 <= i < prefix.len() ==> #[trigger] text[i] == prefix[i]
        },
{
    if prefix.len() <= text.len() {
        if forall|i: int| 0 <= i < prefix.len() ==> #[trigger] text[i] == prefix[i] {
            assert(text.take(prefix.len() as int) =~= prefix);
        }
        if text.take(prefix.len() as int) == prefix {
            assert forall|i: int| 0 <= i < prefix.len() implies #[trigger] text[i] == prefix[i] by {
                assert(text.take(prefix.len() as int)[i] == text[i]);
            }
        }
    }
}

/// What is read goes by the words that are left.
proof fn lemma_parsed_goes_by_rest(
    a: Seq<Seq<char>>,
    i: int,
    b: Seq<Seq<char>>,
    j: int,
    renderer: RendererKind,
    unknown: Seq<Seq<char>>,
)
    requires
        0 <= i <= a.len(),
        0 <= j <= b.len(),
        a.skip(i) == b.skip(j),
    ensures
        parsed(a, i, renderer, unknown) == parsed(b, j, renderer, unknown),
    decreases a.len() - i,
{
    assert(a.len() - i == a.skip(i).len() && b.len() - j == b.skip(j).len());
    if i < a.len() {
        assert(a[i] == a.skip(i)[0] && b[j] == b.skip(j)[0]);
        assert(a.skip(i + 1) =~= a.skip(i).skip(1) && b.skip(j + 1) =~= b.skip(j).skip(1));
        if i + 1 < a.len() {
            assert(a[i + 1] == a.skip(i)[1] && b[j + 1] == b.skip(j)[1]);
            assert(a.skip(i + 2) =~= a.skip(i).skip(2) && b.skip(j + 2) =~= b.skip(j).skip(2));
            match kind_named(a[i + 1]) {
                Some(kind) => {
                    lemma_parsed_goes_by_rest(a, i + 2, b, j + 2, kind, unknown);
                },
                None => {
                    lemma_parsed_goes_by_rest(
                        a,
                        i + 2,
                        b,
                        j + 2,
                        renderer,
                        unknown.push(a[i + 1]),
                    );
                },
            }
        }
        match kind_named(without_prefix(a[i], "--renderer="@)) {
            Some(kind) => {
                lemma_parsed_goes_by_rest(a, i + 1, b, j + 1, kind, unknown);
            },
            None => {},
        }
        lemma_parsed_goes_by_rest(a, i + 1, b, j + 1, renderer, unknown);
    }
}

proof fn lemma_named_word_has_no_prefix(word: Seq<char>)
    requires
        kind_named(word) is Some,
    ensures
        !begins_with(word, "--renderer="@),
        word.len() >= 5,
{
    reveal_strlit("--renderer=");
    reveal_strlit("simple");
    reveal_strlit("batch");
    reveal_strlit("bigbuffer");
    reveal_strlit("big-buffer");
    reveal_strlit("big_buffer");
    let low = crate::render::renderers::lowered(word);
    assert(low.len() == word.len());
    assert(low[0] == crate::render::renderers::ascii_lower(word[0]));
    assert(low[0] == 's' || low[0] == 'b');
    if begins_with(word, "--renderer="@) {
        assert(word.take(11)[0] == word[0]);
        assert("--renderer="@[0] == '-');
    }
}

/// A renderer can be named in three ways that mean the same, and what is read after
/// it is read as if there had been nothing before. The last one named counts.
pub proof fn law_renderer_can_be_named_in_three_ways(
    word: Seq<char>,
    kind: RendererKind,
    rest: Seq<Seq<char>>,
    renderer: RendererKind,
    unknown: Seq<Seq<char>>,
)
    requires
        kind_named(word) == Some(kind),
    ensures
        parsed(seq!["--renderer"@, word] + rest, 0, renderer, unknown) == parsed(
            rest,
            0,
            kind,
            unknown,
        ),
        parsed(seq!["-r"@, word] + rest, 0, renderer, unknown) == parsed(rest, 0, kind, unknown),
        parsed(seq!["--renderer="@ + word] + rest, 0, renderer, unknown) == parsed(
            rest,
            0,
            kind,
            unknown,
        ),
{
    reveal_strlit("--renderer=");
    reveal_strlit("--renderer");
    reveal_strlit("-r");
    reveal_strlit("--help");
    reveal_strlit("-h");
    lemma_named_word_has_no_prefix(word);
    let long = seq!["--renderer"@, word] + rest;
    let short = seq!["-r"@, word] + rest;
    assert(long.skip(2) =~= rest.skip(0));
    assert(short.skip(2) =~= rest.skip(0));
    lemma_parsed_goes_by_rest(long, 2, rest, 0, kind, unknown);
    lemma_parsed_goes_by_rest(short, 2, rest, 0, kind, unknown);
    let prefix = "--renderer="@;
    let joined = prefix + word;
    let one = seq![joined] + rest;
    assert(one.skip(1) =~= rest.skip(0));
    lemma_parsed_goes_by_rest(one, 1, rest, 0, kind, unknown);
    assert(joined.take(prefix.len() as int) =~= prefix);
    assert(joined.skip(prefix.len() as int) =~= word);
    assert(without_prefix(joined, prefix) == without_prefix(word, prefix));
    assert(joined.len() >= 16);
}

/// A word that names no renderer is noted where it follows the option, and passed
/// over where it is joined to it; either way the renderer stays.
pub proof fn law_unknown_renderer_changes_nothing(
    word: Seq<char>,
    rest: Seq<Seq<char>>,
    renderer: RendererKind,
    unknown: Seq<Seq<char>>,
)
    requires
        kind_named(word) is None,
    ensures
        parsed(seq!["--renderer"@, word] + rest, 0, renderer, unknown) == parsed(
            rest,
            0,
            renderer,
            unknown.push(word),
        ),
        parsed(seq!["-r"@, word] + rest, 0, renderer, unknown) == parsed(
            rest,
            0,
            renderer,
            unknown.push(word),
        ),
        !begins_with(word, "--renderer="@) ==> parsed(
            seq!["--renderer="@ + word] + rest,
            0,
            renderer,
            unknown,
        ) == parsed(rest, 0, renderer, unknown),
{
    reveal_strlit("--renderer=");
    reveal_strlit("--renderer");
    reveal_strlit("-r");
    reveal_strlit("--help");
    reveal_strlit("-h");
    let long = seq!["--renderer"@, word] + rest;
    let short = seq!["-r"@, word] + rest;
    assert(long.skip(2) =~= rest.skip(0));
    assert(short.skip(2) =~= rest.skip(0));
    lemma_parsed_goes_by_rest(long, 2, rest, 0, renderer, unknown.push(word));
    lemma_parsed_goes_by_rest(short, 2, rest, 0, renderer, unknown.push(word));
    let prefix = "--renderer="@;
    let joined = prefix + word;
    let one = seq![joined] + rest;
    assert(one.skip(1) =~= rest.skip(0));
    lemma_parsed_goes_by_rest(one, 1, rest, 0, renderer, unknown);
    assert(joined.take(prefix.len() as int) =~= prefix);
    assert(joined.skip(prefix.len() as int) =~= word);
    assert(without_prefix(joined, prefix) == without_prefix(word, prefix));
    assert(joined.len() >= 11);
}

/// The joined option may be repeated: only what follows the last of them counts.
pub proof fn law_repeated_prefix_counts_once(
    word: Seq<char>,
    rest: Seq<Seq<char>>,
    renderer: RendererKind,
    unknown: Seq<Seq<char>>,
)
    requires
        begins_with(word, "--renderer="@),
    ensures
        parsed(seq!["--renderer="@ + word] + rest, 0, renderer, unknown) == parsed(
            seq![word] + rest,
            0,
            renderer,
            unknown,
        ),
{
    reveal_strlit("--renderer=");
    reveal_strlit("--renderer");
    reveal_strlit("-r");
    reveal_strlit("--help");
    reveal_strlit("-h");
    let prefix = "--renderer="@;
    let joined = prefix + word;
    let one = seq![joined] + rest;
    let two = seq![word] + rest;
    assert(one.skip(1) =~= rest && two.skip(1) =~= rest);
    assert(joined.take(prefix.len() as int) =~= prefix);
    assert(joined.skip(prefix.len() as int) =~= word);
    match kind_named(without_prefix(word, prefix)) {
        Some(kind) => {
            lemma_parsed_goes_by_rest(one, 1, two, 1, kind, unknown);
        },
        None => {
            lemma_parsed_goes_by_rest(one, 1, two, 1, renderer, unknown);
        },
    }
}

/// Help ends the reading, whatever follows it; so does the end of the words, and an
/// option with nothing after it.
pub proof fn law_help_ends_the_reading(
    rest: Seq<Seq<char>>,
    renderer: RendererKind,
    unknown: Seq<Seq<char>>,
)
    ensures
        parsed(seq!["--help"@] + rest, 0, renderer, unknown) == (ArgsModel {
            renderer,
            help: true,
            unknown,
        }),
        parsed(seq!["-h"@] + rest, 0, renderer, unknown) == (ArgsModel {
            renderer,
            help: true,
            unknown,
        }),
        parsed(Seq::empty(), 0, renderer, unknown) == (ArgsModel {
            renderer,
            help: false,
            unknown,
        }),
        parsed(seq!["--renderer"@], 0, renderer, unknown) == (ArgsModel {
            renderer,
            help: false,
            unknown,
        }),
        parsed(seq!["-r"@], 0, renderer, unknown) == (ArgsModel { renderer, help: false, unknown }),
{
    reveal_strlit("--renderer");
    reveal_strlit("-r");
    reveal_strlit("--help");
    reveal_strlit("-h");
    assert("-h"@[1] != "-r"@[1]);
    assert((seq!["--help"@] + rest)[0] == "--help"@);
    assert((seq!["-h"@] + rest)[0] == "-h"@);
}

/// Any other word is passed over.
pub proof fn law_other_words_are_passed_over(
    word: Seq<char>,
    rest: Seq<Seq<char>>,
    renderer: RendererKind,
    unknown: Seq<Seq<char>>,
)
    requires
        word != "--renderer"@,
        word != "-r"@,
        word != "--help"@,
        word != "-h"@,
        !begins_with(word, "--renderer="@),
    ensures
        parsed(seq![word] + rest, 0, renderer, unknown) == parsed(rest, 0, renderer, unknown),
{
    let one = seq![word] + rest;
    assert(one.skip(1) =~= rest.skip(0));
    lemma_parsed_goes_by_rest(one, 1, rest, 0, renderer, unknown);
}

} // verus!
