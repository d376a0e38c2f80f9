use vstd::prelude::*;
use crate::archive::{entry, entry_bytes, entry_data, entry_text, first_entry, first_entry_text};
use crate::error::{names_entry, EpubError};
use crate::package::{lemma_container_alike, lemma_package_alike};
use crate::package::{
    dir_of, directory_of, ids_view, join_relative, manifest_lookup, resolve_relative, manifest_node_of, manifest_spec, package_ok, pairs_view,
    parse_container, parse_package, rootfile_of, spine_node_of, spine_spec,
};
use crate::render::{chars_of, chapter_spec, Glyph, is_space, is_whitespace, lines_view, render_document, texts_view, RenderedChapter};
use crate::render::{lemma_render_by_preorder, RenderAttributes};
use crate::xml::{
    attribute_of, chars_equal, copy_chars, parse_document, preorder, well_nested, xml_items_of, XmlNode,
};

verus! {

/// The media type that the first entry of a publication holds.
pub open spec fn epub_mimetype() -> Seq<char> {
    "application/epub+zip"@
}

pub open spec fn trim_text_start(s: Seq<char>) -> Seq<char>
    decreases s.len(),
{
    if s.len() > 0 && is_space(s[0]) {
        trim_text_start(s.drop_first())
    } else {
        s
    }
}

pub open spec fn trim_text_end(s: Seq<char>) -> Seq<char>
    decreases s.len(),
{
    if s.len() > 0 && is_space(s.last()) {
        trim_text_end(s.drop_last())
    } else {
        s
    }
}

/// `s` without its leading and trailing white space.
pub open spec fn trim_text(s: Seq<char>) -> Seq<char> {
    trim_text_end(trim_text_start(s))
}

/// `s` without its leading and trailing white space.
pub fn trim_chars(s: &Vec<char>) -> (r: Vec<char>)
    ensures
        r@ == trim_text(s@),
{
    let n = s.len();
    let mut i: usize = 0;
    assert(s@.subrange(0, n as int) =~= s@);
    while i < n && is_whitespace(s[i])
        invariant
            n == s.len(),
            i <= n,
            trim_text_start(s@) == trim_text_start(s@.subrange(i as int, n as int)),
        decreases n - i,
    {
        assert(s@.subrange(i as int, n as int).drop_first() =~= s@.subrange(i + 1, n as int));
        i = i + 1;
    }
    let mut j: usize = n;
    while j > i && is_whitespace(s[j - 1])
        invariant
            n == s.len(),
            i <= j <= n,
            trim_text_start(s@) == s@.subrange(i as int, n as int),
            trim_text_end(s@.subrange(i as int, n as int)) == trim_text_end(s@.subrange(i as int, j as int)),
        decreases j - i,
    {
        assert(s@.subrange(i as int, j as int).drop_last() =~= s@.subrange(i as int, j - 1));
        j = j - 1;
    }
    let mut r: Vec<char> = Vec::new();
    let mut k: usize = i;
    while k < j
        invariant
            i <= k <= j <= n,
            n == s.len(),
            r@ == s@.subrange(i as int, k as int),
        decreases j - k,
    {
        r.push(s[k]);
        k = k + 1;
        assert(r@ =~= s@.subrange(i as int, k as int));
    }
    r
}

/// The mathematical value of an [`Epub`].
pub ghost struct EpubView {
    pub archive: Seq<u8>,
    pub manifest: Seq<(Seq<char>, Seq<char>)>,
    pub spine: Seq<Seq<char>>,
}

/// An opened publication: its archive, its manifest and its reading order.
pub struct Epub {
    archive: Vec<u8>,
    manifest: Vec<(Vec<char>, Vec<char>)>,
    spine: Vec<Vec<char>>,
}

impl View for Epub {
    type V = EpubView;

    closed spec fn view(&self) -> EpubView {
        EpubView {
            archive: self.archive@,
            manifest: pairs_view(self.manifest@),
            spine: ids_view(self.spine@),
        }
    }
}

/// The path of the container document in every publication.
pub open spec fn container_path() -> Seq<char> {
    "META-INF/container.xml"@
}

/// Whether the first entry of `a` holds the publication media type, white
/// space around it aside.
pub open spec fn media_ok(a: Seq<u8>) -> bool {
    first_entry_text(a) is Some && trim_text(first_entry_text(a)->Some_0) == epub_mimetype()
}

/// Whether `ct` is the well-nested tree of the container document of `a`,
/// and it names the package document at `p`.
pub open spec fn names_package(a: Seq<u8>, ct: XmlNode, p: Seq<char>) -> bool {
    &&& media_ok(a)
    &&& entry_text(a, container_path()) is Some
    &&& well_nested(ct)
    &&& xml_items_of(entry_text(a, container_path())->Some_0) == Some(preorder(ct))
    &&& rootfile_of(ct) is Some
    &&& attribute_of(rootfile_of(ct)->Some_0.item@.attributes, "full-path"@) == Some(p)
}

/// The package path that the container tree `ct` names.
pub open spec fn package_path_of(ct: XmlNode) -> Seq<char> {
    attribute_of(rootfile_of(ct)->Some_0.item@.attributes, "full-path"@)->Some_0
}

/// Whether `e` is what the archive `a` describes, where `ct` and `pt` are
/// the well-nested trees of its container and package documents.
pub open spec fn describes(a: Seq<u8>, ct: XmlNode, pt: XmlNode, e: EpubView) -> bool {
    let p = package_path_of(ct);
    &&& e.archive == a
    &&& names_package(a, ct, p)
    &&& entry_text(a, p) is Some
    &&& well_nested(pt)
    &&& xml_items_of(entry_text(a, p)->Some_0) == Some(preorder(pt))
    &&& package_ok(pt, dir_of(p))
    &&& e.manifest == manifest_spec(manifest_node_of(pt)->Some_0.children@, dir_of(p))->Some_0
    &&& e.spine == spine_spec(spine_node_of(pt)->Some_0.children@)
}

/// Whether `c` is chapter `index` of `e`, where `t` is the tree of its document.
pub open spec fn chapter_of(e: EpubView, index: int, t: XmlNode, c: (Seq<Seq<Glyph>>, Seq<Seq<char>>)) -> bool {
    &&& 0 <= index < e.spine.len()
    &&& manifest_lookup(e.manifest, e.spine[index]) is Some
    &&& entry_text(e.archive, manifest_lookup(e.manifest, e.spine[index])->Some_0) is Some
    &&& xml_items_of(entry_text(e.archive, manifest_lookup(e.manifest, e.spine[index])->Some_0)->Some_0) == Some(preorder(t))
    &&& well_nested(t)
    &&& chapter_spec(t) is Some
    &&& chapter_spec(t)->Some_0.0 == c.0
    &&& chapter_spec(t)->Some_0.1 == c.1
}

/// Looks up the archive path of a resource id; the last entry for it wins.
pub fn lookup_manifest(manifest: &Vec<(Vec<char>, Vec<char>)>, id: &Vec<char>) -> (r: Option<Vec<char>>)
    ensures
        match manifest_lookup(pairs_view(manifest@), id@) {
            Some(p) => r is Some && r->Some_0@ == p,
            None => r is None,
        },
{
    let ghost m = pairs_view(manifest@);
    let mut j: usize = manifest.len();
    assert(m.subrange(0, j as int) =~= m);
    while j > 0
        invariant
            j <= manifest.len(),
            m == pairs_view(manifest@),
            manifest_lookup(m, id@) == manifest_lookup(m.subrange(0, j as int), id@),
        decreases j,
    {
        assert(m.subrange(0, j as int).drop_last() =~= m.subrange(0, j - 1));
        if crate::xml::same_chars(&manifest[j - 1].0, id) {
            return Some(copy_chars(&manifest[j - 1].1));
        }
        j = j - 1;
    }
    None
}

impl Epub {
    /// Opens a publication from the bytes of its archive: checks the media
    /// type in the first entry, then reads the container and package
    /// documents.
    pub fn new(archive: Vec<u8>) -> (r: Result<Epub, EpubError>)
        ensures
            first_entry_text(archive@) is None ==> r is Err && r->Err_0 is Archive,
            first_entry_text(archive@) is Some && !media_ok(archive@) ==> r is Err && r->Err_0 is Mimetype,
            media_ok(archive@) && entry_text(archive@, container_path()) is None ==> r is Err
                && names_entry(r->Err_0, container_path()),
            forall|ct: XmlNode, p: Seq<char>|
                #[trigger] names_package(archive@, ct, p) && entry_text(archive@, p) is None ==> r is Err
                    && names_entry(r->Err_0, p),
            (exists|ct: XmlNode, pt: XmlNode, v: EpubView| describes(archive@, ct, pt, v)) ==> r is Ok,
            r is Ok ==> exists|ct: XmlNode, pt: XmlNode| describes(archive@, ct, pt, r->Ok_0@),
    {
        let ghost a = archive@;
        let ghost valid = exists|ct: XmlNode, pt: XmlNode, v: EpubView| describes(a, ct, pt, v);
        let mimetype = match first_entry(&archive) {
            Some(t) => t,
            None => {
                return Err(EpubError::Archive);
            },
        };
        let trimmed = trim_chars(&mimetype);
        if !chars_equal(&trimmed, "application/epub+zip") {
            return Err(EpubError::Mimetype(mimetype));
        }
        let cpath = chars_of("META-INF/container.xml");
        let container_xml = match entry(&archive, &cpath) {
            Some(t) => t,
            None => {
                return Err(EpubError::Entry(cpath));
            },
        };
        let ctree = match parse_document(&container_xml) {
            Ok(t) => t,
            Err(_) => {
                return Err(EpubError::Xml(cpath));
            },
        };
        proof {
            assert forall|ct: XmlNode, p: Seq<char>| #[trigger] names_package(a, ct, p) implies rootfile_of(ctree) is Some
                && attribute_of(rootfile_of(ctree)->Some_0.item@.attributes, "full-path"@) == Some(p) by {
                lemma_container_alike(ctree, ct);
            }
            if valid {
                let (ct, pt, v) = choose|ct: XmlNode, pt: XmlNode, v: EpubView| describes(a, ct, pt, v);
                assert(names_package(a, ct, package_path_of(ct)));
            }
        }
        let container = parse_container(&ctree)?;
        let package_xml = match entry(&archive, &container.package_path) {
            Some(t) => t,
            None => {
                return Err(EpubError::Entry(container.package_path));
            },
        };
        let ptree = match parse_document(&package_xml) {
            Ok(t) => t,
            Err(_) => {
                return Err(EpubError::Xml(container.package_path));
            },
        };
        proof {
            if valid {
                let (ct, pt, v) = choose|ct: XmlNode, pt: XmlNode, v: EpubView| describes(a, ct, pt, v);
                assert(names_package(a, ct, package_path_of(ct)));
                lemma_package_alike(ptree, pt, container.base_path@);
            }
        }
        let package = parse_package(&ptree, &container.base_path)?;
        let e = Epub { archive, manifest: package.manifest, spine: package.spine };
        let r: Result<Epub, EpubError> = Ok(e);
        assert(names_package(a, ctree, container.package_path@));
        assert(describes(a, ctree, ptree, r->Ok_0@));
        r
    }

    /// The number of chapters in reading order.
    pub fn len(&self) -> (r: usize)
        ensures
            r == self@.spine.len(),
    {
        self.spine.len()
    }

    /// The archive path of chapter `index`.
    pub fn chapter_path(&self, index: usize) -> (r: Result<Vec<char>, EpubError>)
        ensures
            index >= self@.spine.len() ==> r is Err && r->Err_0 is ChapterOutOfRange,
            index < self@.spine.len() ==> match manifest_lookup(self@.manifest, self@.spine[index as int]) {
                Some(p) => r is Ok && r->Ok_0@ == p,
                None => r is Err && r->Err_0 is UnknownId,
            },
    {
        if index >= self.spine.len() {
            return Err(EpubError::ChapterOutOfRange(index));
        }
        let id = &self.spine[index];
        match lookup_manifest(&self.manifest, id) {
            Some(p) => Ok(p),
            None => Err(EpubError::UnknownId(copy_chars(id))),
        }
    }

    /// The bytes of an image that chapter `index` refers to by `src`, a
    /// path relative to the chapter's directory.
    pub fn image(&self, index: usize, src: &Vec<char>) -> (r: Result<Vec<u8>, EpubError>)
        ensures
            index >= self@.spine.len() ==> r is Err && r->Err_0 is ChapterOutOfRange,
            index < self@.spine.len() ==> match manifest_lookup(self@.manifest, self@.spine[index as int]) {
                None => r is Err && r->Err_0 is UnknownId,
                Some(p) => match entry_bytes(self@.archive, join_relative(dir_of(p), src@)) {
                    Some(b) => r is Ok && r->Ok_0@ == b,
                    None => r is Err && names_entry(r->Err_0, join_relative(dir_of(p), src@)),
                },
            },
    {
        let path = self.chapter_path(index)?;
        let full = resolve_relative(&directory_of(&path), src);
        match entry_data(&self.archive, &full) {
            Some(b) => Ok(b),
            None => Err(EpubError::Entry(full)),
        }
    }

    /// Renders chapter `index`, reading and parsing its document anew.
    pub fn render(&self, index: usize) -> (r: Result<RenderedChapter, EpubError>)
        ensures
            r is Ok <==> renders(self@, index as int),
            index >= self@.spine.len() ==> r is Err && r->Err_0 is ChapterOutOfRange,
            index < self@.spine.len() && chapter_entry(self@, index as int) is None ==> r is Err
                && r->Err_0 is UnknownId,
            index < self@.spine.len() && chapter_entry(self@, index as int) is Some && entry_text(
                self@.archive,
                chapter_entry(self@, index as int)->Some_0,
            ) is None ==> r is Err && names_entry(r->Err_0, chapter_entry(self@, index as int)->Some_0),
            index < self@.spine.len() && chapter_entry(self@, index as int) is Some && entry_text(
                self@.archive,
                chapter_entry(self@, index as int)->Some_0,
            ) is Some && xml_items_of(entry_text(self@.archive, chapter_entry(self@, index as int)->Some_0)->Some_0)
                is None ==> r is Err && r->Err_0 is Xml,
            r is Ok ==> exists|t: XmlNode| chapter_of(self@, index as int, t, (lines_view(r->Ok_0.lines@), texts_view(r->Ok_0.images@))),
    {
        let path = self.chapter_path(index)?;
        let xml = match entry(&self.archive, &path) {
            Some(t) => t,
            None => {
                return Err(EpubError::Entry(path));
            },
        };
        let tree = match parse_document(&xml) {
            Ok(t) => t,
            Err(_) => {
                return Err(EpubError::Xml(path));
            },
        };
        proof {
            if renders(self@, index as int) {
                let t = choose|t: XmlNode| chapter_parses(self@, index as int, t);
                lemma_render_by_preorder(tree, t, RenderAttributes::none(), Seq::empty());
            }
        }
        let c = render_document(&tree)?;
        assert(chapter_of(self@, index as int, tree, (lines_view(c.lines@), texts_view(c.images@))));
        assert(chapter_parses(self@, index as int, tree));
        Ok(c)
    }
}

/// The archive path of chapter `index`, where its id is in the manifest.
pub open spec fn chapter_entry(e: EpubView, index: int) -> Option<Seq<char>> {
    manifest_lookup(e.manifest, e.spine[index])
}

/// Whether `t` is a tree of the document of chapter `index`, and renders.
pub open spec fn chapter_parses(e: EpubView, index: int, t: XmlNode) -> bool {
    &&& 0 <= index < e.spine.len()
    &&& chapter_entry(e, index) is Some
    &&& entry_text(e.archive, chapter_entry(e, index)->Some_0) is Some
    &&& well_nested(t)
    &&& xml_items_of(entry_text(e.archive, chapter_entry(e, index)->Some_0)->Some_0) == Some(preorder(t))
    &&& chapter_spec(t) is Some
}

/// Whether chapter `index` of `e` can be rendered: its entry is there, it
/// is well-formed XML, and every image in it has a source.
pub open spec fn renders(e: EpubView, index: int) -> bool {
    exists|t: XmlNode| chapter_parses(e, index, t)
}

/// Rendering a chapter twice from the same publication gives the same lines
/// and the same images: whatever trees the two renders built, they agree.
pub proof fn lemma_render_idempotent(
    e: EpubView,
    index: int,
    t1: XmlNode,
    t2: XmlNode,
    c1: (Seq<Seq<Glyph>>, Seq<Seq<char>>),
    c2: (Seq<Seq<Glyph>>, Seq<Seq<char>>),
)
    requires
        chapter_of(e, index, t1, c1),
        chapter_of(e, index, t2, c2),
    ensures
        c1 == c2,
{
    lemma_render_by_preorder(t1, t2, crate::render::RenderAttributes::none(), Seq::empty());
}

} // verus!
