use vstd::prelude::*;
use crate::error::{names_attribute, EpubError};
use crate::xml::{
    attribute_of, chars_equal, copy_chars, find_attribute, lemma_forest_unique, lemma_preorder_depths,
    nested_forest, preorder, preorder_forest, well_nested, NodeKind, XmlNode,
};

verus! {

/// Display attributes of a character.
#[derive(Clone, Copy, Debug, PartialEq, Eq, Structural)]
pub struct Style {
    pub bold: bool,
    pub italic: bool,
    pub underline: bool,
    pub reverse: bool,
}

/// A character with its display attributes.
#[derive(Clone, Copy, Debug, PartialEq, Eq, Structural)]
pub struct Glyph {
    pub ch: char,
    pub style: Style,
}

/// What a node inherits from its ancestors while a chapter is rendered.
#[derive(Clone, Copy, Debug, PartialEq, Eq, Structural)]
pub struct RenderAttributes {
    pub body: bool,
    pub paragraph: bool,
    pub link: bool,
    pub bold: bool,
    pub italic: bool,
    pub underline: bool,
    pub nodisplay: bool,
    pub heading: bool,
}

impl RenderAttributes {
    pub open spec fn none() -> RenderAttributes {
        RenderAttributes {
            body: false,
            paragraph: false,
            link: false,
            bold: false,
            italic: false,
            underline: false,
            nodisplay: false,
            heading: false,
        }
    }

    /// The attributes of a document's root: none set.
    pub fn new() -> (r: RenderAttributes)
        ensures
            r == RenderAttributes::none(),
    {
        RenderAttributes {
            body: false,
            paragraph: false,
            link: false,
            bold: false,
            italic: false,
            underline: false,
            nodisplay: false,
            heading: false,
        }
    }
}

impl Default for RenderAttributes {
    fn default() -> (r: RenderAttributes)
        ensures
            r == RenderAttributes::none(),
    {
        RenderAttributes::new()
    }
}

/// The element names that rendering tells apart.
#[derive(Clone, Copy, Debug, PartialEq, Eq, Structural)]
pub enum Tag {
    Body,
    Paragraph,
    Division,
    Anchor,
    Bold,
    Italic,
    Underline,
    Hidden,
    Break,
    Heading,
    Image,
    Other,
}

pub open spec fn tag_of(name: Seq<char>) -> Tag {
    if name == "body"@ {
        Tag::Body
    } else if name == "p"@ {
        Tag::Paragraph
    } else if name == "div"@ {
        Tag::Division
    } else if name == "a"@ {
        Tag::Anchor
    } else if name == "b"@ || name == "strong"@ {
        Tag::Bold
    } else if name == "i"@ || name == "em"@ {
        Tag::Italic
    } else if name == "u"@ {
        Tag::Underline
    } else if name == "script"@ || name == "style"@ {
        Tag::Hidden
    } else if name == "br"@ {
        Tag::Break
    } else if name == "h1"@ || name == "h2"@ || name == "h3"@ || name == "h4"@ || name == "h5"@
        || name == "h6"@ {
        Tag::Heading
    } else if name == "img"@ {
        Tag::Image
    } else {
        Tag::Other
    }
}

/// Classifies an element's local name.
pub fn classify(name: &Vec<char>) -> (t: Tag)
    ensures
        t == tag_of(name@),
{
    if chars_equal(name, "body") {
        Tag::Body
    } else if chars_equal(name, "p") {
        Tag::Paragraph
    } else if chars_equal(name, "div") {
        Tag::Division
    } else if chars_equal(name, "a") {
        Tag::Anchor
    } else if chars_equal(name, "b") || chars_equal(name, "strong") {
        Tag::Bold
    } else if chars_equal(name, "i") || chars_equal(name, "em") {
        Tag::Italic
    } else if chars_equal(name, "u") {
        Tag::Underline
    } else if chars_equal(name, "script") || chars_equal(name, "style") {
        Tag::Hidden
    } else if chars_equal(name, "br") {
        Tag::Break
    } else if chars_equal(name, "h1") || chars_equal(name, "h2") || chars_equal(name, "h3")
        || chars_equal(name, "h4") || chars_equal(name, "h5") || chars_equal(name, "h6") {
        Tag::Heading
    } else if chars_equal(name, "img") {
        Tag::Image
    } else {
        Tag::Other
    }
}

/// The tag of a node: its classified name for an element, `Other` for the rest.
pub open spec fn node_tag(n: XmlNode) -> Tag {
    if n.item.kind == NodeKind::Element {
        tag_of(n.item.name@)
    } else {
        Tag::Other
    }
}

/// Whether entering an element with tag `t` under `a` starts a new block.
pub open spec fn opens_block(a: RenderAttributes, t: Tag) -> bool {
    (t == Tag::Paragraph || t == Tag::Division || t == Tag::Heading) && !a.paragraph
}

/// What the children of an element with tag `t` inherit from `a`.
pub open spec fn child_attributes(a: RenderAttributes, t: Tag) -> RenderAttributes {
    match t {
        Tag::Body => RenderAttributes { body: true, ..a },
        Tag::Paragraph => RenderAttributes { paragraph: true, ..a },
        Tag::Anchor => RenderAttributes { link: true, ..a },
        Tag::Bold => RenderAttributes { bold: true, ..a },
        Tag::Italic => RenderAttributes { italic: true, ..a },
        Tag::Underline => RenderAttributes { underline: true, ..a },
        Tag::Hidden => RenderAttributes { nodisplay: true, ..a },
        Tag::Heading => RenderAttributes { heading: true, ..a },
        _ => a,
    }
}

/// Whether text under `a` is shown.
pub open spec fn shows_text(a: RenderAttributes) -> bool {
    a.body && !a.nodisplay && (a.paragraph || a.heading)
}

/// The display attributes of text under `a`.
pub open spec fn text_style(a: RenderAttributes) -> Style {
    Style {
        bold: a.heading || a.bold,
        italic: a.italic,
        underline: a.underline || a.link,
        reverse: a.heading,
    }
}

pub open spec fn plain() -> Style {
    Style { bold: false, italic: false, underline: false, reverse: false }
}

pub open spec fn inverse() -> Style {
    Style { bold: false, italic: false, underline: false, reverse: true }
}

pub open spec fn glyph(c: char, st: Style) -> Glyph {
    Glyph { ch: c, style: st }
}

/// Each character of `s` in the style `st`.
pub open spec fn styled(s: Seq<char>, st: Style) -> Seq<Glyph>
    decreases s.len(),
{
    if s.len() == 0 {
        Seq::empty()
    } else {
        styled(s.drop_last(), st).push(glyph(s.last(), st))
    }
}

pub open spec fn digit(d: nat) -> char {
    if d == 0 { '0' } else if d == 1 { '1' } else if d == 2 { '2' } else if d == 3 { '3' }
    else if d == 4 { '4' } else if d == 5 { '5' } else if d == 6 { '6' } else if d == 7 { '7' }
    else if d == 8 { '8' } else { '9' }
}

/// The decimal digits of `n`.
pub open spec fn decimal(n: nat) -> Seq<char>
    decreases n,
{
    if n < 10 {
        seq![digit(n)]
    } else {
        decimal(n / 10).push(digit(n % 10))
    }
}

/// The placeholder that marks the image with number `n`.
pub open spec fn placeholder(n: nat) -> Seq<Glyph> {
    styled("[IMG:"@ + decimal(n) + "]"@, inverse())
}

/// Whether `c` is white space in the sense of `char::is_whitespace`.
pub open spec fn is_space(c: char) -> bool {
    let u = c as u32;
    (0x9 <= u <= 0xd) || u == 0x20 || u == 0x85 || u == 0xa0 || u == 0x1680 || (0x2000 <= u
        <= 0x200a) || u == 0x2028 || u == 0x2029 || u == 0x202f || u == 0x205f || u == 0x3000
}

pub open spec fn trim_start(s: Seq<Glyph>) -> Seq<Glyph>
    decreases s.len(),
{
    if s.len() > 0 && is_space(s[0].ch) {
        trim_start(s.drop_first())
    } else {
        s
    }
}

pub open spec fn trim_end(s: Seq<Glyph>) -> Seq<Glyph>
    decreases s.len(),
{
    if s.len() > 0 && is_space(s.last().ch) {
        trim_end(s.drop_last())
    } else {
        s
    }
}

/// `s` without its leading and trailing white space.
pub open spec fn trim(s: Seq<Glyph>) -> Seq<Glyph> {
    trim_end(trim_start(s))
}

/// A block's output: its trimmed text followed by a blank line, or nothing.
pub open spec fn block_text(s: Seq<Glyph>) -> Seq<Glyph> {
    let t = trim(s);
    if t.len() == 0 {
        t
    } else {
        t + styled("\n\n"@, plain())
    }
}

/// What a node emits before its children, and the image list after it;
/// `None` for an image without a source.
pub open spec fn own_output(n: XmlNode, a: RenderAttributes, images: Seq<Seq<char>>) -> Option<(Seq<Glyph>, Seq<Seq<char>>)> {
    if n.item.kind == NodeKind::Text {
        if shows_text(a) {
            Some((styled(n.item.text@, text_style(a)), images))
        } else {
            Some((Seq::empty(), images))
        }
    } else if node_tag(n) == Tag::Image {
        match attribute_of(n.item@.attributes, "src"@) {
            Some(src) => Some((placeholder(images.len()), images.push(src))),
            None => None,
        }
    } else if node_tag(n) == Tag::Break {
        Some((styled("\n"@, plain()), images))
    } else {
        Some((Seq::empty(), images))
    }
}

/// The output of a node rendered under `a`, after the images `images`, and
/// the image list after it; `None` where an image lacks a source.
pub open spec fn render_spec(n: XmlNode, a: RenderAttributes, images: Seq<Seq<char>>) -> Option<(Seq<Glyph>, Seq<Seq<char>>)>
    decreases n,
{
    match own_output(n, a, images) {
        None => None,
        Some((own, after)) => {
            let t = node_tag(n);
            match render_children_spec(n.children@, child_attributes(a, t), after) {
                None => None,
                Some((buf, last)) => Some(
                    (own + if opens_block(a, t) { block_text(buf) } else { buf }, last),
                ),
            }
        },
    }
}

/// The concatenated output of sibling nodes, each rendered under `a`.
pub open spec fn render_children_spec(cs: Seq<XmlNode>, a: RenderAttributes, images: Seq<Seq<char>>) -> Option<(Seq<Glyph>, Seq<Seq<char>>)>
    decreases cs,
{
    if cs.len() == 0 {
        Some((Seq::empty(), images))
    } else {
        match render_children_spec(cs.subrange(0, cs.len() - 1), a, images) {
            None => None,
            Some((out, mid)) => match render_spec(cs[cs.len() - 1], a, mid) {
                None => None,
                Some((o, last)) => Some((out + o, last)),
            },
        }
    }
}

pub open spec fn texts_view(v: Seq<Vec<char>>) -> Seq<Seq<char>> {
    v.map_values(|s: Vec<char>| s@)
}

/// The characters of `s`.
pub fn chars_of(s: &str) -> (r: Vec<char>)
    ensures
        r@ == s@,
{
    let n = s.unicode_len();
    let mut r: Vec<char> = Vec::new();
    let mut i: usize = 0;
    while i < n
        invariant
            n == s@.len(),
            i <= n,
            r@ == s@.subrange(0, i as int),
        decreases n - i,
    {
        r.push(s.get_char(i));
        i = i + 1;
        assert(r@ =~= s@.subrange(0, i as int));
    }
    assert(r@ =~= s@);
    r
}

/// Whether `c` is white space in the sense of `char::is_whitespace`.
pub fn is_whitespace(c: char) -> (r: bool)
    ensures
        r == is_space(c),
{
    let u = c as u32;
    (0x9 <= u && u <= 0xd) || u == 0x20 || u == 0x85 || u == 0xa0 || u == 0x1680 || (0x2000 <= u
        && u <= 0x200a) || u == 0x2028 || u == 0x2029 || u == 0x202f || u == 0x205f || u == 0x3000
}

proof fn lemma_styled_push(s: Seq<char>, c: char, st: Style)
    ensures
        styled(s.push(c), st) == styled(s, st).push(glyph(c, st)),
{
    assert(s.push(c).drop_last() =~= s);
}

proof fn lemma_styled_concat(s: Seq<char>, t: Seq<char>, st: Style)
    ensures
        styled(s + t, st) == styled(s, st) + styled(t, st),
    decreases t.len(),
{
    if t.len() == 0 {
        assert(s + t =~= s);
        assert(styled(s, st) + styled(t, st) =~= styled(s, st));
    } else {
        lemma_styled_concat(s, t.drop_last(), st);
        assert((s + t).drop_last() =~= s + t.drop_last());
        assert((s + t).last() == t.last());
        assert(styled(t, st) == styled(t.drop_last(), st).push(glyph(t.last(), st)));
        assert(styled(s, st) + styled(t, st) =~= (styled(s, st) + styled(t.drop_last(), st)).push(
            glyph(t.last(), st),
        ));
    }
}

/// Appends each character of `s` in the style `st`.
pub fn push_styled(out: &mut Vec<Glyph>, s: &Vec<char>, st: Style)
    ensures
        final(out)@ == old(out)@ + styled(s@, st),
{
    let mut i: usize = 0;
    assert(out@ =~= old(out)@ + styled(s@.subrange(0, 0), st));
    while i < s.len()
        invariant
            i <= s.len(),
            out@ == old(out)@ + styled(s@.subrange(0, i as int), st),
        decreases s.len() - i,
    {
        out.push(Glyph { ch: s[i], style: st });
        proof {
            lemma_styled_push(s@.subrange(0, i as int), s@[i as int], st);
            assert(s@.subrange(0, i as int).push(s@[i as int]) =~= s@.subrange(0, i + 1));
            assert(styled(s@.subrange(0, i + 1), st) == styled(s@.subrange(0, i as int), st).push(
                glyph(s@[i as int], st),
            ));
            assert(out@ =~= old(out)@ + styled(s@.subrange(0, i + 1), st));
        }
        i = i + 1;
    }
    assert(s@.subrange(0, i as int) =~= s@);
}

/// Appends each character of `s` in the style `st`.
pub fn push_str_styled(out: &mut Vec<Glyph>, s: &str, st: Style)
    ensures
        final(out)@ == old(out)@ + styled(s@, st),
{
    let chars = chars_of(s);
    push_styled(out, &chars, st);
}

fn digit_char(d: usize) -> (c: char)
    requires
        d < 10,
    ensures
        c == digit(d as nat),
{
    if d == 0 { '0' } else if d == 1 { '1' } else if d == 2 { '2' } else if d == 3 { '3' }
    else if d == 4 { '4' } else if d == 5 { '5' } else if d == 6 { '6' } else if d == 7 { '7' }
    else if d == 8 { '8' } else { '9' }
}

/// Appends the decimal digits of `n` in the style `st`.
pub fn push_decimal(out: &mut Vec<Glyph>, n: usize, st: Style)
    ensures
        final(out)@ == old(out)@ + styled(decimal(n as nat), st),
    decreases n,
{
    if n >= 10 {
        push_decimal(out, n / 10, st);
    }
    out.push(Glyph { ch: digit_char(n % 10), style: st });
    proof {
        if n >= 10 {
            assert(decimal(n as nat) == decimal((n / 10) as nat).push(digit((n % 10) as nat)));
            lemma_styled_push(decimal((n / 10) as nat), digit((n % 10) as nat), st);
        } else {
            assert(decimal(n as nat) == seq![digit(n as nat)]);
            lemma_styled_push(Seq::empty(), digit(n as nat), st);
            assert(Seq::<char>::empty().push(digit(n as nat)) =~= seq![digit(n as nat)]);
            assert(styled(Seq::empty(), st) =~= Seq::empty());
        }
    }
}

/// Appends the placeholder of the image with number `n`.
pub fn push_placeholder(out: &mut Vec<Glyph>, n: usize)
    ensures
        final(out)@ == old(out)@ + placeholder(n as nat),
{
    let st = Style { bold: false, italic: false, underline: false, reverse: true };
    push_str_styled(out, "[IMG:", st);
    push_decimal(out, n, st);
    push_str_styled(out, "]", st);
    proof {
        lemma_styled_concat("[IMG:"@, decimal(n as nat), st);
        lemma_styled_concat("[IMG:"@ + decimal(n as nat), "]"@, st);
    }
}

/// `s` without its leading and trailing white space.
pub fn trim_glyphs(s: &Vec<Glyph>) -> (r: Vec<Glyph>)
    ensures
        r@ == trim(s@),
{
    let n = s.len();
    let mut i: usize = 0;
    assert(s@.subrange(0, n as int) =~= s@);
    while i < n && is_whitespace(s[i].ch)
        invariant
            n == s.len(),
            i <= n,
            trim_start(s@) == trim_start(s@.subrange(i as int, n as int)),
        decreases n - i,
    {
        assert(s@.subrange(i as int, n as int).drop_first() =~= s@.subrange(i + 1, n as int));
        i = i + 1;
    }
    let mut j: usize = n;
    while j > i && is_whitespace(s[j - 1].ch)
        invariant
            n == s.len(),
            i <= j <= n,
            trim_start(s@) == s@.subrange(i as int, n as int),
            trim_end(s@.subrange(i as int, n as int)) == trim_end(s@.subrange(i as int, j as int)),
        decreases j - i,
    {
        assert(s@.subrange(i as int, j as int).drop_last() =~= s@.subrange(i as int, j - 1));
        j = j - 1;
    }
    let mut r: Vec<Glyph> = Vec::new();
    let mut k: usize = i;
    while k < j
        invariant
            i <= k <= j <= n,
            n == s.len(),
            r@ == s@.subrange(i as int, k as int),
        decreases j - k,
    {
        r.push(s[k]);
        k = k + 1;
        assert(r@ =~= s@.subrange(i as int, k as int));
    }
    r
}

/// What the children of an element with tag `t` inherit from `a`.
pub fn enter(a: RenderAttributes, t: Tag) -> (r: RenderAttributes)
    ensures
        r == child_attributes(a, t),
{
    match t {
        Tag::Body => RenderAttributes { body: true, ..a },
        Tag::Paragraph => RenderAttributes { paragraph: true, ..a },
        Tag::Anchor => RenderAttributes { link: true, ..a },
        Tag::Bold => RenderAttributes { bold: true, ..a },
        Tag::Italic => RenderAttributes { italic: true, ..a },
        Tag::Underline => RenderAttributes { underline: true, ..a },
        Tag::Hidden => RenderAttributes { nodisplay: true, ..a },
        Tag::Heading => RenderAttributes { heading: true, ..a },
        _ => a,
    }
}

proof fn lemma_children_failed(cs: Seq<XmlNode>, a: RenderAttributes, images: Seq<Seq<char>>, k: int)
    requires
        0 <= k <= cs.len(),
        render_children_spec(cs.subrange(0, k), a, images) is None,
    ensures
        render_children_spec(cs, a, images) is None,
    decreases cs.len() - k,
{
    if k < cs.len() {
        assert(cs.subrange(0, k + 1).subrange(0, k) =~= cs.subrange(0, k));
        lemma_children_failed(cs, a, images, k + 1);
    } else {
        assert(cs.subrange(0, k) =~= cs);
    }
}

/// Renders a node and its descendants under the inherited attributes, and
/// appends the sources of the images met to `images`.
pub fn render_node(node: &XmlNode, images: &mut Vec<Vec<char>>, attributes: RenderAttributes) -> (r: Result<Vec<Glyph>, EpubError>)
    ensures
        match render_spec(*node, attributes, texts_view(old(images)@)) {
            Some((out, after)) => r is Ok && r->Ok_0@ == out && texts_view(final(images)@) == after,
            None => r is Err && names_attribute(r->Err_0, "img"@, "src"@),
        },
    decreases node,
{
    let tag = if node.item.kind == NodeKind::Element {
        classify(&node.item.name)
    } else {
        Tag::Other
    };
    let ghost images0 = texts_view(images@);
    let mut output: Vec<Glyph> = Vec::new();
    if node.item.kind == NodeKind::Text {
        if attributes.body && !attributes.nodisplay && (attributes.paragraph || attributes.heading) {
            let st = Style {
                bold: attributes.heading || attributes.bold,
                italic: attributes.italic,
                underline: attributes.underline || attributes.link,
                reverse: attributes.heading,
            };
            push_styled(&mut output, &node.item.text, st);
        }
    } else if tag == Tag::Image {
        match find_attribute(&node.item, "src") {
            Some(src) => {
                push_placeholder(&mut output, images.len());
                let src = copy_chars(src);
                images.push(src);
                assert(texts_view(images@) =~= images0.push(src@));
            },
            None => {
                return Err(EpubError::MissingAttribute(chars_of("img"), chars_of("src")));
            },
        }
    } else if tag == Tag::Break {
        push_str_styled(&mut output, "\n", Style { bold: false, italic: false, underline: false, reverse: false });
    }
    assert(own_output(*node, attributes, images0) is Some);
    assert(output@ =~= own_output(*node, attributes, images0)->Some_0.0);
    let ghost after_own = texts_view(images@);
    assert(after_own == own_output(*node, attributes, images0)->Some_0.1);
    let child = enter(attributes, tag);
    let block = (tag == Tag::Paragraph || tag == Tag::Division || tag == Tag::Heading) && !attributes.paragraph;
    let mut buf: Vec<Glyph> = Vec::new();
    let mut i: usize = 0;
    assert(node.children@.subrange(0, 0) =~= Seq::<XmlNode>::empty());
    while i < node.children.len()
        invariant
            i <= node.children.len(),
            child == child_attributes(attributes, node_tag(*node)),
            own_output(*node, attributes, images0) is Some,
            after_own == own_output(*node, attributes, images0)->Some_0.1,
            output@ == own_output(*node, attributes, images0)->Some_0.0,
            images0 == texts_view(old(images)@),
            block == opens_block(attributes, node_tag(*node)),
            render_children_spec(node.children@.subrange(0, i as int), child, after_own) == Some(
                (buf@, texts_view(images@)),
            ),
        decreases node.children.len() - i,
    {
        let ghost before = texts_view(images@);
        assert(node.children@.subrange(0, i + 1).subrange(0, i as int) =~= node.children@.subrange(0, i as int));
        match render_node(&node.children[i], images, child) {
            Ok(o) => {
                let mut o = o;
                buf.append(&mut o);
            },
            Err(e) => {
                proof {
                    let cs = node.children@;
                    assert(cs.subrange(0, i + 1)[i as int] == cs[i as int]);
                    assert(render_children_spec(cs.subrange(0, i + 1), child, after_own) is None);
                    lemma_children_failed(node.children@, child, after_own, i + 1);
                    assert(render_children_spec(node.children@, child, after_own) is None);
                    assert(render_spec(*node, attributes, images0) is None);
                }
                return Err(e);
            },
        }
        i = i + 1;
    }
    assert(node.children@.subrange(0, i as int) =~= node.children@);
    if block {
        let mut t = trim_glyphs(&buf);
        if t.len() > 0 {
            output.append(&mut t);
            push_str_styled(&mut output, "\n\n", Style { bold: false, italic: false, underline: false, reverse: false });
        }
    } else {
        output.append(&mut buf);
    }
    Ok(output)
}

/// The lines of `s`: its pieces between line breaks (one piece where it has none).
pub open spec fn split_lines(s: Seq<Glyph>) -> Seq<Seq<Glyph>>
    decreases s.len(),
{
    if s.len() == 0 {
        seq![Seq::empty()]
    } else {
        let prev = split_lines(s.drop_last());
        if s.last().ch == '\n' {
            prev.push(Seq::empty())
        } else {
            prev.update(prev.len() - 1, prev.last().push(s.last()))
        }
    }
}

proof fn lemma_split_nonempty(s: Seq<Glyph>)
    ensures
        split_lines(s).len() >= 1,
    decreases s.len(),
{
    if s.len() > 0 {
        lemma_split_nonempty(s.drop_last());
    }
}

pub open spec fn lines_view(v: Seq<Vec<Glyph>>) -> Seq<Seq<Glyph>> {
    v.map_values(|l: Vec<Glyph>| l@)
}

/// Splits `s` at its line breaks, which are dropped.
pub fn split_glyph_lines(s: &Vec<Glyph>) -> (r: Vec<Vec<Glyph>>)
    ensures
        lines_view(r@) == split_lines(s@),
{
    let mut lines: Vec<Vec<Glyph>> = Vec::new();
    let mut cur: Vec<Glyph> = Vec::new();
    let mut i: usize = 0;
    assert(s@.subrange(0, 0) =~= Seq::<Glyph>::empty());
    assert(lines_view(lines@).push(cur@) =~= seq![Seq::<Glyph>::empty()]);
    while i < s.len()
        invariant
            i <= s.len(),
            lines_view(lines@).push(cur@) == split_lines(s@.subrange(0, i as int)),
        decreases s.len() - i,
    {
        let g = s[i];
        proof {
            lemma_split_nonempty(s@.subrange(0, i as int));
            assert(s@.subrange(0, i + 1).drop_last() =~= s@.subrange(0, i as int));
        }
        let ghost before = lines_view(lines@).push(cur@);
        if g.ch == '\n' {
            lines.push(cur);
            cur = Vec::new();
            assert(lines_view(lines@).push(cur@) =~= before.push(Seq::empty()));
        } else {
            cur.push(g);
            assert(lines_view(lines@).push(cur@) =~= before.update(
                before.len() - 1,
                before.last().push(g),
            ));
        }
        i = i + 1;
    }
    assert(s@.subrange(0, i as int) =~= s@);
    lines.push(cur);
    lines
}

/// A chapter ready for display: its lines, and the sources of its images,
/// numbered by their position.
pub struct RenderedChapter {
    pub lines: Vec<Vec<Glyph>>,
    pub images: Vec<Vec<char>>,
}

/// The lines and image sources of a document whose tree is `root`; `None`
/// where an image lacks a source.
pub open spec fn chapter_spec(root: XmlNode) -> Option<(Seq<Seq<Glyph>>, Seq<Seq<char>>)> {
    match render_spec(root, RenderAttributes::none(), Seq::empty()) {
        None => None,
        Some((out, images)) => Some((split_lines(trim(out)), images)),
    }
}

/// Renders the tree of a chapter into lines and image sources.
pub fn render_document(root: &XmlNode) -> (r: Result<RenderedChapter, EpubError>)
    ensures
        match chapter_spec(*root) {
            Some((lines, images)) => r is Ok && lines_view(r->Ok_0.lines@) == lines && texts_view(
                r->Ok_0.images@,
            ) == images,
            None => r is Err && names_attribute(r->Err_0, "img"@, "src"@),
        },
{
    let mut images: Vec<Vec<char>> = Vec::new();
    assert(texts_view(images@) =~= Seq::empty());
    let out = render_node(root, &mut images, RenderAttributes::new())?;
    let text = trim_glyphs(&out);
    let lines = split_glyph_lines(&text);
    Ok(RenderedChapter { lines, images })
}

proof fn lemma_styled_index(s: Seq<char>, st: Style)
    ensures
        styled(s, st).len() == s.len(),
        forall|i: int| 0 <= i < s.len() ==> #[trigger] styled(s, st)[i] == glyph(s[i], st),
    decreases s.len(),
{
    if s.len() > 0 {
        lemma_styled_index(s.drop_last(), st);
        assert forall|i: int| 0 <= i < s.len() implies #[trigger] styled(s, st)[i] == glyph(s[i], st) by {
            if i < s.len() - 1 {
                assert(styled(s.drop_last(), st)[i] == glyph(s.drop_last()[i], st));
            }
        }
    }
}

/// Whether every glyph of `s` is a line break or part of an image placeholder.
pub open spec fn markup_only(s: Seq<Glyph>) -> bool {
    forall|i: int| 0 <= i < s.len() ==> (#[trigger] s[i]).ch == '\n' || s[i].style == inverse()
}

proof fn lemma_trim_keeps(s: Seq<Glyph>)
    requires
        markup_only(s),
    ensures
        markup_only(trim_start(s)),
        markup_only(trim(s)),
    decreases s.len(),
{
    lemma_trim_start_keeps(s);
    lemma_trim_end_keeps(trim_start(s));
}

proof fn lemma_trim_start_keeps(s: Seq<Glyph>)
    requires
        markup_only(s),
    ensures
        markup_only(trim_start(s)),
    decreases s.len(),
{
    if s.len() > 0 && is_space(s[0].ch) {
        assert(markup_only(s.drop_first())) by {
            assert forall|i: int| 0 <= i < s.drop_first().len() implies (#[trigger] s.drop_first()[i]).ch
                == '\n' || s.drop_first()[i].style == inverse() by {
                assert(s.drop_first()[i] == s[i + 1]);
            }
        }
        lemma_trim_start_keeps(s.drop_first());
    }
}

proof fn lemma_trim_end_keeps(s: Seq<Glyph>)
    requires
        markup_only(s),
    ensures
        markup_only(trim_end(s)),
    decreases s.len(),
{
    if s.len() > 0 && is_space(s.last().ch) {
        assert(markup_only(s.drop_last())) by {
            assert forall|i: int| 0 <= i < s.drop_last().len() implies (#[trigger] s.drop_last()[i]).ch
                == '\n' || s.drop_last()[i].style == inverse() by {
                assert(s.drop_last()[i] == s[i]);
            }
        }
        lemma_trim_end_keeps(s.drop_last());
    }
}

proof fn lemma_concat_markup(a: Seq<Glyph>, b: Seq<Glyph>)
    requires
        markup_only(a),
        markup_only(b),
    ensures
        markup_only(a + b),
{
    assert forall|i: int| 0 <= i < (a + b).len() implies (#[trigger] (a + b)[i]).ch == '\n' || (a
        + b)[i].style == inverse() by {
        if i < a.len() {
            assert((a + b)[i] == a[i]);
        } else {
            assert((a + b)[i] == b[i - a.len()]);
        }
    }
}

proof fn lemma_breaks_markup(s: Seq<char>)
    requires
        forall|i: int| 0 <= i < s.len() ==> s[i] == '\n',
    ensures
        markup_only(styled(s, plain())),
{
    lemma_styled_index(s, plain());
    assert forall|i: int| 0 <= i < styled(s, plain()).len() implies (#[trigger] styled(s, plain())[i]).ch
        == '\n' || styled(s, plain())[i].style == inverse() by {
        assert(styled(s, plain())[i] == glyph(s[i], plain()));
    }
}

/// Inside a script or style element no text is shown: every glyph that a
/// suppressed subtree yields is a line break or part of an image placeholder.
pub proof fn lemma_suppressed_text_absent(n: XmlNode, a: RenderAttributes, images: Seq<Seq<char>>)
    requires
        a.nodisplay,
    ensures
        render_spec(n, a, images) is Some ==> markup_only(render_spec(n, a, images)->Some_0.0),
    decreases n,
{
    let t = node_tag(n);
    match own_output(n, a, images) {
        None => {},
        Some((own, after)) => {
            assert(markup_only(own)) by {
                reveal_strlit("\n");
                if n.item.kind == NodeKind::Text {
                    assert(own =~= Seq::<Glyph>::empty());
                } else if t == Tag::Image {
                    let src = attribute_of(n.item@.attributes, "src"@)->Some_0;
                    let s = "[IMG:"@ + decimal(images.len()) + "]"@;
                    lemma_styled_index(s, inverse());
                    assert forall|i: int| 0 <= i < own.len() implies (#[trigger] own[i]).ch == '\n'
                        || own[i].style == inverse() by {
                        assert(own[i] == glyph(s[i], inverse()));
                    }
                } else if t == Tag::Break {
                    lemma_breaks_markup("\n"@);
                }
            }
            let ca = child_attributes(a, t);
            lemma_suppressed_children(n.children@, ca, after);
            match render_children_spec(n.children@, ca, after) {
                None => {},
                Some((buf, last)) => {
                    if opens_block(a, t) {
                        lemma_trim_keeps(buf);
                        reveal_strlit("\n\n");
                        lemma_breaks_markup("\n\n"@);
                        if trim(buf).len() > 0 {
                            lemma_concat_markup(trim(buf), styled("\n\n"@, plain()));
                        }
                        lemma_concat_markup(own, block_text(buf));
                    } else {
                        lemma_concat_markup(own, buf);
                    }
                },
            }
        },
    }
}

proof fn lemma_suppressed_children(cs: Seq<XmlNode>, a: RenderAttributes, images: Seq<Seq<char>>)
    requires
        a.nodisplay,
    ensures
        render_children_spec(cs, a, images) is Some ==> markup_only(
            render_children_spec(cs, a, images)->Some_0.0,
        ),
    decreases cs,
{
    if cs.len() > 0 {
        let init = cs.subrange(0, cs.len() - 1);
        lemma_suppressed_children(init, a, images);
        match render_children_spec(init, a, images) {
            None => {},
            Some((out, mid)) => {
                lemma_suppressed_text_absent(cs[cs.len() - 1], a, mid);
                match render_spec(cs[cs.len() - 1], a, mid) {
                    None => {},
                    Some((o, last)) => {
                        lemma_concat_markup(out, o);
                    },
                }
            },
        }
    }
}

/// Text that no paragraph, division or heading encloses is left out.
pub proof fn lemma_text_outside_blocks_dropped(n: XmlNode, a: RenderAttributes, images: Seq<Seq<char>>)
    requires
        n.item.kind == NodeKind::Text,
        n.children@.len() == 0,
        !a.paragraph,
        !a.heading,
    ensures
        render_spec(n, a, images) == Some((Seq::<Glyph>::empty(), images)),
{
    assert(render_children_spec(n.children@, child_attributes(a, node_tag(n)), images) == Some(
        (Seq::<Glyph>::empty(), images),
    ));
    assert(Seq::<Glyph>::empty() + Seq::<Glyph>::empty() =~= Seq::<Glyph>::empty());
}

/// Two well-nested trees with the same nodes in document order render alike.
pub proof fn lemma_render_by_preorder(t1: XmlNode, t2: XmlNode, a: RenderAttributes, images: Seq<Seq<char>>)
    requires
        well_nested(t1),
        well_nested(t2),
        preorder(t1) == preorder(t2),
    ensures
        render_spec(t1, a, images) == render_spec(t2, a, images),
    decreases t1,
{
    lemma_preorder_depths(t1);
    lemma_preorder_depths(t2);
    let s = preorder(t1);
    assert(t1.item@ == t2.item@);
    assert(preorder_forest(t1.children@) =~= s.subrange(1, s.len() as int));
    assert(preorder_forest(t2.children@) =~= s.subrange(1, s.len() as int));
    let d = t1.item@.depth + 1;
    lemma_forest_unique(t1.children@, t2.children@, d);
    assert(own_output(t1, a, images) == own_output(t2, a, images));
    assert(node_tag(t1) == node_tag(t2));
    match own_output(t1, a, images) {
        None => {},
        Some((own, after)) => {
            lemma_render_children_by_preorder(
                t1.children@,
                t2.children@,
                d,
                child_attributes(a, node_tag(t1)),
                after,
            );
        },
    }
}

proof fn lemma_render_children_by_preorder(
    cs1: Seq<XmlNode>,
    cs2: Seq<XmlNode>,
    d: nat,
    a: RenderAttributes,
    images: Seq<Seq<char>>,
)
    requires
        nested_forest(cs1, d),
        nested_forest(cs2, d),
        cs1.len() == cs2.len(),
        forall|i: int| 0 <= i < cs1.len() ==> preorder(#[trigger] cs1[i]) == preorder(cs2[i]),
    ensures
        render_children_spec(cs1, a, images) == render_children_spec(cs2, a, images),
    decreases cs1,
{
    if cs1.len() > 0 {
        let n = cs1.len() - 1;
        let init1 = cs1.subrange(0, n as int);
        let init2 = cs2.subrange(0, n as int);
        assert forall|i: int| 0 <= i < init1.len() implies preorder(#[trigger] init1[i]) == preorder(init2[i]) by {
            assert(init1[i] == cs1[i]);
            assert(init2[i] == cs2[i]);
        }
        lemma_render_children_by_preorder(init1, init2, d, a, images);
        match render_children_spec(init1, a, images) {
            None => {},
            Some((out, mid)) => {
                assert(preorder(cs1[n as int]) == preorder(cs2[n as int]));
                lemma_render_by_preorder(cs1[n as int], cs2[n as int], a, mid);
            },
        }
    }
}

/// Images are numbered in document order: rendering a subtree only appends
/// to the image list, and an image's placeholder carries the number of the
/// images met before it.
pub proof fn lemma_images_appended(n: XmlNode, a: RenderAttributes, images: Seq<Seq<char>>)
    ensures
        render_spec(n, a, images) is Some ==> {
            let after = render_spec(n, a, images)->Some_0.1;
            after.len() >= images.len() && after.subrange(0, images.len() as int) == images
        },
        node_tag(n) == Tag::Image && n.item.kind != NodeKind::Text && render_spec(n, a, images) is Some
            ==> render_spec(n, a, images)->Some_0.0.subrange(0, placeholder(images.len()).len() as int)
            == placeholder(images.len()),
    decreases n,
{
    match own_output(n, a, images) {
        None => {},
        Some((own, after)) => {
            assert(after.len() >= images.len() && after.subrange(0, images.len() as int) =~= images);
            let t = node_tag(n);
            lemma_images_children(n.children@, child_attributes(a, t), after);
            match render_children_spec(n.children@, child_attributes(a, t), after) {
                None => {},
                Some((buf, last)) => {
                    assert(last.subrange(0, images.len() as int) =~= last.subrange(0, after.len() as int).subrange(
                        0,
                        images.len() as int,
                    ));
                    let tail = if opens_block(a, t) { block_text(buf) } else { buf };
                    assert((own + tail).subrange(0, own.len() as int) =~= own);
                },
            }
        },
    }
}

proof fn lemma_images_children(cs: Seq<XmlNode>, a: RenderAttributes, images: Seq<Seq<char>>)
    ensures
        render_children_spec(cs, a, images) is Some ==> {
            let after = render_children_spec(cs, a, images)->Some_0.1;
            after.len() >= images.len() && after.subrange(0, images.len() as int) == images
        },
    decreases cs,
{
    if cs.len() > 0 {
        let init = cs.subrange(0, cs.len() - 1);
        lemma_images_children(init, a, images);
        match render_children_spec(init, a, images) {
            None => {},
            Some((out, mid)) => {
                lemma_images_appended(cs[cs.len() - 1], a, mid);
                match render_spec(cs[cs.len() - 1], a, mid) {
                    None => {},
                    Some((o, last)) => {
                        assert(last.subrange(0, images.len() as int) =~= last.subrange(0, mid.len() as int).subrange(
                            0,
                            images.len() as int,
                        ));
                    },
                }
            },
        }
    }
}

} // verus!
