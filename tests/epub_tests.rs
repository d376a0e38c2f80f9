use std::io::Write;

use epsaku::epub::Epub;
use epsaku::error::{EpubError, ErrorClass};
use epsaku::package::{directory_of, parse_container, parse_package, resolve_path, resolve_relative};
use epsaku::render::Glyph;
use epsaku::xml::{parse_document, XmlNode};

fn chars(s: &str) -> Vec<char> {
    s.chars().collect()
}

fn tree(xml: &str) -> XmlNode {
    parse_document(&chars(xml)).expect("well-formed")
}

fn text(line: &[Glyph]) -> String {
    line.iter().map(|g| g.ch).collect()
}

fn zip_of(entries: &[(&str, &str)]) -> Vec<u8> {
    let mut w = zip::ZipWriter::new(std::io::Cursor::new(Vec::new()));
    let options = zip::write::SimpleFileOptions::default().compression_method(zip::CompressionMethod::Stored);
    for (name, content) in entries {
        w.start_file(*name, options).unwrap();
        w.write_all(content.as_bytes()).unwrap();
    }
    w.finish().unwrap().into_inner()
}

const CONTAINER: &str = "<?xml version=\"1.0\"?><container version=\"1.0\" xmlns=\"urn:oasis:names:tc:opendocument:xmlns:container\"><rootfiles><rootfile full-path=\"OEBPS/content.opf\" media-type=\"application/oebps-package+xml\"/></rootfiles></container>";

const PACKAGE: &str = "<?xml version=\"1.0\"?><package xmlns=\"http://www.idpf.org/2007/opf\" version=\"2.0\"><manifest><item id=\"c1\" href=\"text/ch1.xhtml\" media-type=\"application/xhtml+xml\"/><item id=\"c2\" href=\"text/ch2.xhtml\" media-type=\"application/xhtml+xml\"/><item id=\"c3\" href=\"missing.xhtml\" media-type=\"application/xhtml+xml\"/></manifest><spine><itemref idref=\"c1\"/><itemref idref=\"c2\" linear=\"no\"/><itemref idref=\"c2\" linear=\"yes\"/><itemref idref=\"c3\"/><itemref idref=\"nope\"/></spine></package>";

const CH1: &str = "<html xmlns=\"http://www.w3.org/1999/xhtml\"><body><h1>One</h1><p>First <i>para</i>.<img src=\"../img/a.png\"/></p></body></html>";

const CH2: &str = "<html xmlns=\"http://www.w3.org/1999/xhtml\"><body><p>Second</p></body></html>";

fn sample(mimetype: &str) -> Vec<u8> {
    zip_of(&[
        ("mimetype", mimetype),
        ("META-INF/container.xml", CONTAINER),
        ("OEBPS/content.opf", PACKAGE),
        ("OEBPS/text/ch1.xhtml", CH1),
        ("OEBPS/text/ch2.xhtml", CH2),
        ("OEBPS/img/a.png", "PNGDATA"),
    ])
}

#[test]
fn opens_and_counts_linear_chapters() {
    let e = Epub::new(sample("application/epub+zip")).expect("opens");
    assert_eq!(e.len(), 4);
    assert_eq!(e.chapter_path(0).unwrap(), chars("OEBPS/text/ch1.xhtml"));
    assert_eq!(e.chapter_path(1).unwrap(), chars("OEBPS/text/ch2.xhtml"));
}

#[test]
fn renders_a_chapter() {
    let e = Epub::new(sample("application/epub+zip\n")).expect("opens");
    let c = e.render(0).expect("renders");
    let lines: Vec<String> = c.lines.iter().map(|l| text(l)).collect();
    assert_eq!(lines, vec!["One", "", "First para.[IMG:0]"]);
    assert_eq!(c.images, vec![chars("../img/a.png")]);
}

#[test]
fn rendering_twice_gives_the_same_chapter() {
    let e = Epub::new(sample("application/epub+zip")).unwrap();
    let a = e.render(0).unwrap();
    let b = e.render(0).unwrap();
    assert_eq!(a.lines, b.lines);
    assert_eq!(a.images, b.images);
}

#[test]
fn wrong_mimetype_is_a_format_error() {
    let e = Epub::new(sample("application/zip")).err().expect("refused");
    assert!(matches!(e, EpubError::Mimetype(_)));
    assert_eq!(e.class(), ErrorClass::Format);
}

#[test]
fn mimetype_must_be_the_first_entry() {
    let data = zip_of(&[
        ("META-INF/container.xml", CONTAINER),
        ("mimetype", "application/epub+zip"),
        ("OEBPS/content.opf", PACKAGE),
    ]);
    let e = Epub::new(data).err().expect("refused");
    assert!(matches!(e, EpubError::Mimetype(_)));
}

#[test]
fn data_that_is_not_an_archive_is_an_io_error() {
    let e = Epub::new(b"not a zip".to_vec()).err().expect("refused");
    assert!(matches!(e, EpubError::Archive));
    assert_eq!(e.class(), ErrorClass::Io);
}

#[test]
fn missing_container_is_an_io_error() {
    let e = Epub::new(zip_of(&[("mimetype", "application/epub+zip")])).err().expect("refused");
    assert!(matches!(e, EpubError::Entry(ref p) if *p == chars("META-INF/container.xml")));
}

#[test]
fn lookup_failures_when_rendering() {
    let e = Epub::new(sample("application/epub+zip")).unwrap();
    let out = e.render(4).err().unwrap();
    assert!(matches!(out, EpubError::ChapterOutOfRange(4)));
    assert_eq!(out.class(), ErrorClass::Lookup);
    let unknown = e.render(3).err().unwrap();
    assert!(matches!(unknown, EpubError::UnknownId(ref id) if *id == chars("nope")));
    let absent = e.render(2).err().unwrap();
    assert!(matches!(absent, EpubError::Entry(ref p) if *p == chars("OEBPS/missing.xhtml")));
}

#[test]
fn spine_skips_non_linear_entries() {
    let pkg = tree("<package><manifest/><spine><itemref idref=\"c1\"/><itemref idref=\"c2\" linear=\"no\"/><itemref idref=\"c3\" linear=\"yes\"/></spine></package>");
    let p = parse_package(&pkg, &Vec::new()).unwrap();
    assert_eq!(p.spine, vec![chars("c1"), chars("c3")]);
}

#[test]
fn manifest_paths_follow_the_package_directory() {
    let pkg = tree("<package><manifest><item id=\"c1\" href=\"text/ch1.xhtml\"/></manifest><spine/></package>");
    let p = parse_package(&pkg, &chars("OEBPS")).unwrap();
    assert_eq!(p.manifest, vec![(chars("c1"), chars("OEBPS/text/ch1.xhtml"))]);
    let q = parse_package(&pkg, &Vec::new()).unwrap();
    assert_eq!(q.manifest, vec![(chars("c1"), chars("text/ch1.xhtml"))]);
    assert_eq!(resolve_path(&chars("OEBPS"), &chars("text/ch1.xhtml")), chars("OEBPS/text/ch1.xhtml"));
}

#[test]
fn package_errors() {
    let no_manifest = tree("<package><spine/></package>");
    assert!(matches!(parse_package(&no_manifest, &Vec::new()), Err(EpubError::MissingNode(ref n)) if *n == chars("package/manifest")));
    let no_spine = tree("<package><manifest/></package>");
    assert!(matches!(parse_package(&no_spine, &Vec::new()), Err(EpubError::MissingNode(ref n)) if *n == chars("package/spine")));
    let no_id = tree("<package><manifest><item href=\"a\"/></manifest><spine/></package>");
    assert!(matches!(parse_package(&no_id, &Vec::new()), Err(EpubError::MissingAttribute(ref e, ref a)) if *e == chars("item") && *a == chars("id")));
    let no_href = tree("<package><manifest><item id=\"c1\"/></manifest><spine/></package>");
    assert!(matches!(parse_package(&no_href, &Vec::new()), Err(EpubError::MissingAttribute(_, ref a)) if *a == chars("href")));
    let no_idref = tree("<package><manifest/><spine><itemref linear=\"yes\"/></spine></package>");
    assert!(matches!(parse_package(&no_idref, &Vec::new()), Err(EpubError::MissingAttribute(_, ref a)) if *a == chars("idref")));
    let skipped = tree("<package><manifest/><spine><itemref linear=\"no\"/></spine></package>");
    assert!(parse_package(&skipped, &Vec::new()).unwrap().spine.is_empty());
}

#[test]
fn container_gives_package_path_and_directory() {
    let c = parse_container(&tree(CONTAINER)).unwrap();
    assert_eq!(c.package_path, chars("OEBPS/content.opf"));
    assert_eq!(c.base_path, chars("OEBPS"));
    let root = parse_container(&tree("<container><rootfiles><rootfile full-path=\"content.opf\"/></rootfiles></container>")).unwrap();
    assert_eq!(root.base_path, Vec::<char>::new());
    assert_eq!(directory_of(&chars("a/b/c.opf")), chars("a/b"));
}

#[test]
fn container_errors() {
    let no_rootfile = tree("<container><rootfiles/></container>");
    let e = parse_container(&no_rootfile).err().unwrap();
    assert!(matches!(e, EpubError::MissingNode(ref n) if *n == chars("container/rootfiles/rootfile")));
    let no_container = tree("<other/>");
    assert!(matches!(parse_container(&no_container), Err(EpubError::MissingNode(ref n)) if *n == chars("container/rootfiles/rootfile")));
    assert_eq!(e.class(), ErrorClass::Format);
    let no_path = tree("<container><rootfiles><rootfile/></rootfiles></container>");
    assert!(matches!(parse_container(&no_path), Err(EpubError::MissingAttribute(ref e, ref a)) if *e == chars("rootfile") && *a == chars("full-path")));
}

#[test]
fn image_bytes_resolve_against_the_chapter() {
    let e = Epub::new(sample("application/epub+zip")).unwrap();
    let c = e.render(0).unwrap();
    assert_eq!(e.image(0, &c.images[0]).unwrap(), b"PNGDATA".to_vec());
    let missing = e.image(0, &chars("b.png")).err().unwrap();
    assert!(matches!(missing, EpubError::Entry(ref p) if *p == chars("OEBPS/text/b.png")));
    assert!(matches!(e.image(9, &chars("a.png")), Err(EpubError::ChapterOutOfRange(9))));
}

#[test]
fn relative_references() {
    assert_eq!(resolve_relative(&chars("OEBPS/text"), &chars("../img/a.png")), chars("OEBPS/img/a.png"));
    assert_eq!(resolve_relative(&chars("OEBPS/text"), &chars("./a.png")), chars("OEBPS/text/a.png"));
    assert_eq!(resolve_relative(&chars("OEBPS"), &chars("../../a.png")), chars("a.png"));
    assert_eq!(resolve_relative(&Vec::new(), &chars("a.png")), chars("a.png"));
}

#[test]
fn missing_package_entry_names_its_path() {
    let data = zip_of(&[("mimetype", "application/epub+zip"), ("META-INF/container.xml", CONTAINER)]);
    let e = Epub::new(data).err().expect("refused");
    assert!(matches!(e, EpubError::Entry(ref p) if *p == chars("OEBPS/content.opf")));
}

#[test]
fn rendering_another_chapter_between_changes_nothing() {
    let e = Epub::new(sample("application/epub+zip")).unwrap();
    let first = e.render(0).unwrap();
    let other = e.render(1).unwrap();
    assert_eq!(text(&other.lines[0]), "Second");
    let again = e.render(0).unwrap();
    assert_eq!(first.lines, again.lines);
    assert_eq!(first.images, again.images);
}
