use vstd::prelude::*;
use crate::render::{plain, Glyph, Style};

verus! {

/// The characters of a line, without their display attributes.
pub open spec fn line_chars(line: Seq<Glyph>) -> Seq<char> {
    line.map_values(|g: Glyph| g.ch)
}

#[verifier::external_type_specification]
#[verifier::external_body]
pub struct ExContentStyle(crossterm::style::ContentStyle);

/// Relies on crossterm's ContentStyle::new: a style that sets nothing.
#[verifier::external_body]
fn empty_style() -> crossterm::style::ContentStyle {
    crossterm::style::ContentStyle::new()
}

/// Relies on crossterm's Stylize::bold for ContentStyle.
#[verifier::external_body]
fn with_bold(s: crossterm::style::ContentStyle) -> crossterm::style::ContentStyle {
    crossterm::style::Stylize::bold(s)
}

/// Relies on crossterm's Stylize::italic for ContentStyle.
#[verifier::external_body]
fn with_italic(s: crossterm::style::ContentStyle) -> crossterm::style::ContentStyle {
    crossterm::style::Stylize::italic(s)
}

/// Relies on crossterm's Stylize::underlined for ContentStyle.
#[verifier::external_body]
fn with_underline(s: crossterm::style::ContentStyle) -> crossterm::style::ContentStyle {
    crossterm::style::Stylize::underlined(s)
}

/// Relies on crossterm's Stylize::reverse for ContentStyle.
#[verifier::external_body]
fn with_reverse(s: crossterm::style::ContentStyle) -> crossterm::style::ContentStyle {
    crossterm::style::Stylize::reverse(s)
}

/// Relies on crossterm's ContentStyle::apply and the Display of
/// StyledContent: where the terminal takes escape sequences, the text is
/// written whole between them; on a Windows console without them, nothing
/// is written.
#[verifier::external_body]
fn apply_style(s: crossterm::style::ContentStyle, text: &Vec<char>) -> (r: String)
    ensures
        r@.len() == 0 || exists|p: Seq<char>, q: Seq<char>| r@ == p + text@ + q,
{
    s.apply(text.iter().collect::<String>()).to_string()
}

/// Relies on std's `FromIterator<&char>` for String: the characters in order.
#[verifier::external_body]
fn string_of(chars: &Vec<char>) -> (r: String)
    ensures
        r@ == chars@,
{
    chars.iter().collect()
}

/// The text of a run of characters in the style `style`: the characters
/// alone where the style sets nothing.
pub fn style_run(text: &Vec<char>, style: Style) -> (r: String)
    ensures
        r@.len() == 0 || exists|p: Seq<char>, q: Seq<char>| r@ == p + text@ + q,
        style == plain() ==> r@ == text@,
{
    if !style.bold && !style.italic && !style.underline && !style.reverse {
        let r = string_of(text);
        assert(r@ =~= Seq::<char>::empty() + text@ + Seq::<char>::empty());
        return r;
    }
    let mut s = empty_style();
    if style.bold {
        s = with_bold(s);
    }
    if style.italic {
        s = with_italic(s);
    }
    if style.underline {
        s = with_underline(s);
    }
    if style.reverse {
        s = with_reverse(s);
    }
    apply_style(s, text)
}

/// A line as text for a terminal: each run of characters of one style is
/// written with that style's escape sequences.
pub fn terminal_line(line: &Vec<Glyph>) -> (r: String)
    ensures
        (forall|i: int| 0 <= i < line@.len() ==> (#[trigger] line@[i]).style == plain()) ==> r@
            == line_chars(line@),
{
    let mut out = String::new();
    let mut i: usize = 0;
    while i < line.len()
        invariant
            i <= line.len(),
            (forall|k: int| 0 <= k < line@.len() ==> (#[trigger] line@[k]).style == plain()) ==> out@
                == line_chars(line@.subrange(0, i as int)),
        decreases line.len() - i,
    {
        let style = line[i].style;
        let mut run: Vec<char> = Vec::new();
        let ghost start = i;
        while i < line.len() && line[i].style == style
            invariant
                start < i || (start == i && run@.len() == 0),
                i <= line.len(),
                run@ == line_chars(line@.subrange(start as int, i as int)),
                style == line@[start as int].style,
            decreases line.len() - i,
        {
            run.push(line[i].ch);
            i = i + 1;
            assert(run@ =~= line_chars(line@.subrange(start as int, i as int)));
        }
        let piece = style_run(&run, style);
        let ghost before = out@;
        out.append(piece.as_str());
        assert(line_chars(line@.subrange(0, i as int)) =~= line_chars(line@.subrange(0, start as int))
            + line_chars(line@.subrange(start as int, i as int)));
    }
    assert(line@.subrange(0, i as int) =~= line@);
    out
}

} // verus!
