//! Syntax colors, as the `syntect` crate finds them.

use syntect::easy::HighlightLines;
use syntect::highlighting::{Theme, ThemeSet};
use syntect::parsing::{SyntaxReference, SyntaxSet};
use vstd::prelude::*;

use crate::text;

verus! {

/// A `syntect::parsing::SyntaxSet`.
#[verifier::external_type_specification]
#[verifier::external_body]
pub struct ExSyntaxSet(syntect::parsing::SyntaxSet);

/// A `syntect::parsing::SyntaxReference`.
#[verifier::external_type_specification]
#[verifier::external_body]
pub struct ExSyntaxReference(syntect::parsing::SyntaxReference);

/// A `syntect::highlighting::Theme`.
#[verifier::external_type_specification]
#[verifier::external_body]
pub struct ExTheme(syntect::highlighting::Theme);

/// A `syntect::easy::HighlightLines`: a syntax, a theme, and what the lines
/// it was given left open.
#[verifier::external_type_specification]
#[verifier::external_body]
pub struct ExHighlightLines<'a>(syntect::easy::HighlightLines<'a>);

/// The theme of that name that comes with `syntect`.
pub uninterp spec fn bundled_theme(name: Seq<char>) -> Option<Theme>;

/// The syntax a set has for a file extension.
pub uninterp spec fn by_extension(set: SyntaxSet, extension: Seq<char>) -> Option<SyntaxReference>;

/// The syntax a set has for the first line of a file.
pub uninterp spec fn by_first_line(set: SyntaxSet, line: Seq<char>) -> Option<SyntaxReference>;

/// The name of a syntax.
pub uninterp spec fn syntax_name(syntax: SyntaxReference) -> Seq<char>;

/// What a highlighter was made of and the lines it was given since, each with
/// the set it was looked up in.
pub uninterp spec fn history(hl: HighlightLines<'_>) -> History;

/// The last of a history's lines in colored pieces, or `None` when it cannot
/// be parsed.
pub uninterp spec fn colored(h: History) -> Option<Seq<(Rgba, Seq<char>)>>;

/// Red, green, blue and opacity.
pub type Rgba = (u8, u8, u8, u8);

/// All that the colors of a line depend on.
pub struct History {
    pub theme: Theme,
    pub syntax: SyntaxReference,
    pub lines: Seq<(SyntaxSet, Seq<char>)>,
}

/// A colored piece of text.
#[derive(Debug)]
pub struct Ink {
    pub color: Rgba,
    pub text: String,
}

impl View for Ink {
    type V = (Rgba, Seq<char>);

    open spec fn view(&self) -> (Rgba, Seq<char>) {
        (self.color, self.text@)
    }
}

/// The views of a list of pieces.
pub open spec fn inks(v: Seq<Ink>) -> Seq<(Rgba, Seq<char>)> {
    v.map_values(|p: Ink| p@)
}

/// The views of a list of pieces that is there.
pub open spec fn opt_inks(v: Option<Vec<Ink>>) -> Option<Seq<(Rgba, Seq<char>)>> {
    match v {
        Some(p) => Some(inks(p@)),
        None => None,
    }
}

/// What a reference that is there points to.
pub open spec fn target(r: Option<&SyntaxReference>) -> Option<SyntaxReference> {
    match r {
        Some(s) => Some(*s),
        None => None,
    }
}

/// `SyntaxSet::load_defaults_newlines`: the syntaxes that come with `syntect`.
#[verifier::external_body]
fn default_syntaxes() -> SyntaxSet {
    SyntaxSet::load_defaults_newlines()
}

/// `ThemeSet::load_defaults`: the theme called `name`, which is there for
/// `base16-ocean.dark`.
#[verifier::external_body]
fn default_theme(name: &str) -> (r: Option<Theme>)
    ensures
        r == bundled_theme(name@),
        name@ == "base16-ocean.dark"@ ==> r is Some,
{
    ThemeSet::load_defaults().themes.remove(name)
}

/// `SyntaxSet::find_syntax_by_extension`.
#[verifier::external_body]
fn find_by_extension<'a>(set: &'a SyntaxSet, extension: &str) -> (r: Option<&'a SyntaxReference>)
    ensures
        target(r) == by_extension(*set, extension@),
{
    set.find_syntax_by_extension(extension)
}

/// `SyntaxSet::find_syntax_by_first_line`.
#[verifier::external_body]
fn find_by_first_line<'a>(set: &'a SyntaxSet, line: &str) -> (r: Option<&'a SyntaxReference>)
    ensures
        target(r) == by_first_line(*set, line@),
{
    set.find_syntax_by_first_line(line)
}

/// `SyntaxReference::name`.
#[verifier::external_body]
fn name_of(syntax: &SyntaxReference) -> (r: &str)
    ensures
        r@ == syntax_name(*syntax),
{
    syntax.name.as_str()
}

/// `HighlightLines::new`: a highlighter that was given no line yet.
#[verifier::external_body]
pub(crate) fn highlighter<'a>(syntax: &SyntaxReference, theme: &'a Theme) -> (hl: HighlightLines<'a>)
    ensures
        history(hl) == (History { theme: *theme, syntax: *syntax, lines: Seq::empty() }),
{
    HighlightLines::new(syntax, theme)
}

/// Whether a syntax is one that was looked up in `set`.
pub open spec fn from_set(syntax: SyntaxReference, set: SyntaxSet) -> bool {
    ||| exists|e: Seq<char>| #[trigger] by_extension(set, e) == Some(syntax)
    ||| exists|l: Seq<char>| #[trigger] by_first_line(set, l) == Some(syntax)
}

/// Whether a highlighter can go on with `set`: its syntax is from there, and
/// so is all that its lines left open.
pub open spec fn continues(h: History, set: SyntaxSet) -> bool {
    &&& from_set(h.syntax, set)
    &&& forall|i: int| 0 <= i < h.lines.len() ==> (#[trigger] h.lines[i]).0 == set
}

/// `HighlightLines::highlight_line`: the colors of a line that follows those
/// the highlighter was given before. All are looked up in the set that the
/// syntax is from; with another one the parser may panic.
#[verifier::external_body]
pub(crate) fn highlight_line(
    hl: &mut HighlightLines<'_>,
    line: &str,
    set: &SyntaxSet,
) -> (r: Option<Vec<Ink>>)
    requires
        continues(history(*old(hl)), *set),
    ensures
        history(*final(hl)) == fed(history(*old(hl)), *set, line@),
        opt_inks(r) == colored(history(*final(hl))),
{
    let pieces = hl.highlight_line(line, set).ok()?;
    Some(
        pieces
            .into_iter()
            .map(|(style, piece)| {
                let c = style.foreground;
                Ink { color: (c.r, c.g, c.b, c.a), text: piece.to_owned() }
            })
            .collect(),
    )
}

/// `h` with one more line.
pub open spec fn fed(h: History, set: SyntaxSet, line: Seq<char>) -> History {
    History { lines: h.lines.push((set, line)), ..h }
}

/// The syntaxes and the theme that cards are painted with.
pub struct Painter {
    pub syntaxes: SyntaxSet,
    pub theme: Theme,
}

impl Painter {
    /// The bundled syntaxes in the colors of `base16-ocean.dark`.
    pub fn new() -> (r: Painter)
        ensures
            Some(r.theme) == bundled_theme("base16-ocean.dark"@),
    {
        let theme = default_theme("base16-ocean.dark");
        Painter { syntaxes: default_syntaxes(), theme: theme.unwrap() }
    }
}

/// The first of two that is there.
pub open spec fn or<T>(a: Option<T>, b: Option<T>) -> Option<T> {
    match a {
        Some(x) => Some(x),
        None => b,
    }
}

/// The syntax a set has for an extension that is there.
pub open spec fn for_extension(set: SyntaxSet, name: Option<Seq<char>>) -> Option<SyntaxReference> {
    match name {
        Some(n) => by_extension(set, n),
        None => None,
    }
}

/// The syntax of a file: by its extension, then by its name (Makefile,
/// Dockerfile), then by its first line (shebang, mode line). Plain text has
/// none, so that the terminal's own foreground is used.
pub open spec fn syntax_of(
    set: SyntaxSet,
    extension: Option<Seq<char>>,
    name: Option<Seq<char>>,
    first_line: Seq<char>,
) -> Option<SyntaxReference> {
    match or(
        for_extension(set, extension),
        or(for_extension(set, name), by_first_line(set, first_line)),
    ) {
        Some(s) => if syntax_name(s) == "Plain Text"@ {
            None
        } else {
            Some(s)
        },
        None => None,
    }
}

fn find_for<'a>(set: &'a SyntaxSet, name: &Option<String>) -> (r: Option<&'a SyntaxReference>)
    ensures
        target(r) == for_extension(*set, text::opt_text(*name)),
{
    match name {
        Some(n) => find_by_extension(set, n.as_str()),
        None => None,
    }
}

/// The syntax of a file with that extension, name and first line.
pub fn find_syntax<'a>(
    set: &'a SyntaxSet,
    extension: &Option<String>,
    name: &Option<String>,
    first_line: &str,
) -> (r: Option<&'a SyntaxReference>)
    ensures
        target(r) == syntax_of(
            *set,
            text::opt_text(*extension),
            text::opt_text(*name),
            first_line@,
        ),
{
    let by_ext = find_for(set, extension);
    let found = if by_ext.is_some() {
        by_ext
    } else {
        let by_name = find_for(set, name);
        if by_name.is_some() {
            by_name
        } else {
            find_by_first_line(set, first_line)
        }
    };
    match found {
        Some(s) => if text::same(name_of(s), "Plain Text") {
            None
        } else {
            Some(s)
        },
        None => None,
    }
}

/// The syntax of a file is that of its extension, else of its name, else of
/// its first line. Plain text is no syntax.
pub proof fn law_extensions_come_first(
    set: SyntaxSet,
    extension: Seq<char>,
    name: Seq<char>,
    first_line: Seq<char>,
)
    ensures
        ({
            let found = syntax_of(set, Some(extension), Some(name), first_line);
            let a = by_extension(set, extension);
            let b = by_extension(set, name);
            let c = by_first_line(set, first_line);
            &&& a matches Some(s) ==> found == (if syntax_name(s) == "Plain Text"@ {
                None
            } else {
                Some(s)
            })
            &&& a is None ==> (b matches Some(s) ==> found == (if syntax_name(s)
                == "Plain Text"@ {
                None
            } else {
                Some(s)
            }))
            &&& a is None && b is None ==> (c matches Some(s) ==> found == (if syntax_name(s)
                == "Plain Text"@ {
                None
            } else {
                Some(s)
            }))
            &&& a is None && b is None && c is None ==> found is None
        }),
{
}

} // verus!
