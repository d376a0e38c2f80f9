use epsaku::error::ErrorClass;
use epsaku::render::{render_document, Glyph, RenderedChapter, Style};
use epsaku::terminal::{style_run, terminal_line};
use epsaku::xml::parse_document;

fn chars(s: &str) -> Vec<char> {
    s.chars().collect()
}

fn render(xml: &str) -> RenderedChapter {
    let tree = parse_document(&chars(xml)).expect("well-formed");
    render_document(&tree).expect("renders")
}

fn text(line: &[Glyph]) -> String {
    line.iter().map(|g| g.ch).collect()
}

fn all_text(c: &RenderedChapter) -> Vec<String> {
    c.lines.iter().map(|l| text(l)).collect()
}

const PLAIN: Style = Style { bold: false, italic: false, underline: false, reverse: false };
const BOLD: Style = Style { bold: true, italic: false, underline: false, reverse: false };
const BOLD_ITALIC: Style = Style { bold: true, italic: true, underline: false, reverse: false };
const INVERSE: Style = Style { bold: false, italic: false, underline: false, reverse: true };

fn styles_of(line: &[Glyph], from: usize, to: usize) -> Vec<Style> {
    line[from..to].iter().map(|g| g.style).collect()
}

#[test]
fn nested_styles_in_one_block() {
    let c = render("<html><body><p>Hello <b>bold <i>both</i></b> plain</p></body></html>");
    assert_eq!(all_text(&c), vec!["Hello bold both plain".to_string()]);
    let line = &c.lines[0];
    assert_eq!(styles_of(line, 0, 6), vec![PLAIN; 6]);
    assert_eq!(styles_of(line, 6, 11), vec![BOLD; 5]);
    assert_eq!(styles_of(line, 11, 15), vec![BOLD_ITALIC; 4]);
    assert_eq!(styles_of(line, 15, 21), vec![PLAIN; 6]);
    assert!(c.images.is_empty());
}

#[test]
fn images_numbered_in_document_order() {
    let c = render("<html><body><p>x<img src=\"a.png\"/>y<img src=\"b.png\"/></p></body></html>");
    assert_eq!(all_text(&c), vec!["x[IMG:0]y[IMG:1]".to_string()]);
    assert_eq!(c.images, vec![chars("a.png"), chars("b.png")]);
    assert_eq!(styles_of(&c.lines[0], 1, 8), vec![INVERSE; 7]);
}

#[test]
fn image_numbers_past_nine() {
    let mut xml = String::from("<body><p>");
    for i in 0..11 {
        xml.push_str(&format!("<img src=\"{i}.png\"/>"));
    }
    xml.push_str("</p></body>");
    let c = render(&xml);
    assert!(all_text(&c)[0].ends_with("[IMG:9][IMG:10]"));
    assert_eq!(c.images.len(), 11);
    assert_eq!(c.images[10], chars("10.png"));
}

#[test]
fn script_and_style_text_is_suppressed() {
    let c = render("<body><p>keep<script>secret()</script></p><style>p { color: red }</style><h2><script>x</script></h2></body>");
    assert_eq!(all_text(&c), vec!["keep".to_string()]);
}

#[test]
fn text_outside_blocks_is_omitted() {
    let c = render("<body>loose<p>kept</p>tail<b>bold loose</b></body>");
    assert_eq!(all_text(&c), vec!["kept".to_string()]);
}

#[test]
fn text_outside_body_is_omitted() {
    let c = render("<html><head><title>T</title></head><body><p>in</p></body></html>");
    assert_eq!(all_text(&c), vec!["in".to_string()]);
}

#[test]
fn blocks_are_separated_by_a_blank_line() {
    let c = render("<body><h1> Title </h1><p>one</p><div><p>two</p></div><p>  </p></body>");
    assert_eq!(all_text(&c), vec!["Title", "", "one", "", "two"]);
    let heading = Style { bold: true, italic: false, underline: false, reverse: true };
    assert_eq!(styles_of(&c.lines[0], 0, 5), vec![heading; 5]);
}

#[test]
fn text_directly_in_a_division_is_not_shown() {
    let c = render("<body><div>bare</div><p>shown</p></body>");
    assert_eq!(all_text(&c), vec!["shown"]);
}

#[test]
fn nested_paragraph_does_not_open_a_block() {
    let c = render("<body><p>a<p>b</p>c</p></body>");
    assert_eq!(all_text(&c), vec!["abc"]);
}

#[test]
fn paragraph_inside_division_opens_its_own_block() {
    let c = render("<body><div><p>a</p><p>b</p></div></body>");
    assert_eq!(all_text(&c), vec!["a", "", "b"]);
}

#[test]
fn line_break_splits_lines() {
    let c = render("<body><p>a<br/>b</p></body>");
    assert_eq!(all_text(&c), vec!["a", "b"]);
}

#[test]
fn links_and_underline_are_underlined() {
    let c = render("<body><p><a href=\"x\">l</a><u>u</u><em>e</em><strong>s</strong></p></body>");
    let line = &c.lines[0];
    assert!(line[0].style.underline && !line[0].style.bold);
    assert!(line[1].style.underline);
    assert!(line[2].style.italic && !line[2].style.underline);
    assert!(line[3].style.bold);
}

#[test]
fn empty_document_gives_one_empty_line() {
    let c = render("<body></body>");
    assert_eq!(c.lines.len(), 1);
    assert!(c.lines[0].is_empty());
}

#[test]
fn image_without_source_is_a_format_error() {
    let tree = parse_document(&chars("<body><p><img alt=\"x\"/></p></body>")).unwrap();
    let e = render_document(&tree).err().expect("fails");
    assert_eq!(e.class(), ErrorClass::Format);
}

#[test]
fn malformed_markup_is_refused() {
    assert!(parse_document(&chars("<body><p>open</body>")).is_err());
    assert!(parse_document(&chars("")).is_err());
}

#[test]
fn plain_line_is_its_text() {
    let line: Vec<Glyph> = "plain text".chars().map(|c| Glyph { ch: c, style: PLAIN }).collect();
    assert_eq!(terminal_line(&line), "plain text");
}

#[test]
fn styled_run_carries_escape_sequences() {
    let s = style_run(&chars("bold"), BOLD);
    assert!(s.contains("bold"));
    assert_ne!(s, "bold");
    let line = vec![Glyph { ch: 'a', style: PLAIN }, Glyph { ch: 'b', style: INVERSE }];
    let t = terminal_line(&line);
    assert!(t.starts_with('a'));
    assert_ne!(t, "ab");
}
