use vstd::prelude::*;
use crate::error::{names_attribute, names_node, EpubError};
use crate::render::chars_of;
use crate::xml::{lemma_children_alike, lemma_first_named_alike, preorder, well_nested, attribute_of, chars_equal, copy_chars, find_attribute, find_child, first_named, has_tag, XmlNode};

verus! {

/// Where the package document lies: its path, and the directory that holds it.
pub struct Container {
    pub package_path: Vec<char>,
    pub base_path: Vec<char>,
}

/// A package document's resources and reading order.
///
/// `manifest` pairs each resource id with its archive path, in document
/// order; `spine` lists the ids of the chapters in reading order.
pub struct Package {
    pub manifest: Vec<(Vec<char>, Vec<char>)>,
    pub spine: Vec<Vec<char>>,
}

/// The element at the end of a path of element names below `n`, each step
/// taking the first child of that name.
pub open spec fn descend(n: XmlNode, path: Seq<Seq<char>>) -> Option<XmlNode>
    decreases path.len(),
{
    if path.len() == 0 {
        Some(n)
    } else {
        match first_named(n.children@, path[0]) {
            Some(c) => descend(c, path.drop_first()),
            None => None,
        }
    }
}

/// The directory part of a path: all before its last `/`, or nothing.
pub open spec fn dir_of(p: Seq<char>) -> Seq<char>
    decreases p.len(),
{
    if p.len() == 0 {
        p
    } else if p.last() == '/' {
        p.drop_last()
    } else {
        dir_of(p.drop_last())
    }
}

/// The archive path of a resource whose package lies in `base`.
pub open spec fn resolve_href(base: Seq<char>, href: Seq<char>) -> Seq<char> {
    if base.len() == 0 {
        href
    } else {
        base + "/"@ + href
    }
}

/// Whether `s` starts with `prefix`.
pub open spec fn starts_with(s: Seq<char>, prefix: Seq<char>) -> bool {
    s.len() >= prefix.len() && s.subrange(0, prefix.len() as int) == prefix
}

/// The archive path of a reference `rel` made from a document in the
/// directory `dir`: each leading `../` climbs one directory, each leading
/// `./` stays.
pub open spec fn join_relative(dir: Seq<char>, rel: Seq<char>) -> Seq<char>
    decreases rel.len(),
{
    if starts_with(rel, seq!['.', '.', '/']) {
        join_relative(dir_of(dir), rel.subrange(3, rel.len() as int))
    } else if starts_with(rel, seq!['.', '/']) {
        join_relative(dir, rel.subrange(2, rel.len() as int))
    } else {
        resolve_href(dir, rel)
    }
}

/// The directory part of a path: all before its last `/`, or nothing.
pub fn directory_of(p: &Vec<char>) -> (r: Vec<char>)
    ensures
        r@ == dir_of(p@),
{
    let mut j: usize = p.len();
    assert(p@.subrange(0, j as int) =~= p@);
    while j > 0 && p[j - 1] != '/'
        invariant
            j <= p.len(),
            dir_of(p@) == dir_of(p@.subrange(0, j as int)),
        decreases j,
    {
        assert(p@.subrange(0, j as int).drop_last() =~= p@.subrange(0, j - 1));
        j = j - 1;
    }
    let mut r: Vec<char> = Vec::new();
    if j > 0 {
        assert(p@.subrange(0, j as int).drop_last() =~= p@.subrange(0, j - 1));
        let mut k: usize = 0;
        while k < j - 1
            invariant
                0 < j <= p.len(),
                k <= j - 1,
                r@ == p@.subrange(0, k as int),
            decreases j - 1 - k,
        {
            r.push(p[k]);
            k = k + 1;
            assert(r@ =~= p@.subrange(0, k as int));
        }
    } else {
        assert(p@.subrange(0, 0) =~= Seq::<char>::empty());
        assert(r@ =~= Seq::<char>::empty());
    }
    r
}

/// The archive path of a reference `rel` made from a document in the
/// directory `dir`.
pub fn resolve_relative(dir: &Vec<char>, rel: &Vec<char>) -> (r: Vec<char>)
    ensures
        r@ == join_relative(dir@, rel@),
{
    let mut d = copy_chars(dir);
    let mut i: usize = 0;
    assert(rel@.subrange(0, rel@.len() as int) =~= rel@);
    while i < rel.len()
        invariant
            i <= rel.len(),
            join_relative(dir@, rel@) == join_relative(d@, rel@.subrange(i as int, rel@.len() as int)),
        decreases rel.len() - i,
    {
        let ghost rest = rel@.subrange(i as int, rel@.len() as int);
        if rel.len() - i >= 3 && rel[i] == '.' && rel[i + 1] == '.' && rel[i + 2] == '/' {
            assert(rest.subrange(0, 3) =~= seq!['.', '.', '/']);
            assert(rest.subrange(3, rest.len() as int) =~= rel@.subrange(i + 3, rel@.len() as int));
            d = directory_of(&d);
            i = i + 3;
        } else if rel.len() - i >= 2 && rel[i] == '.' && rel[i + 1] == '/' {
            assert(!starts_with(rest, seq!['.', '.', '/'])) by {
                if rest.len() >= 3 {
                    assert(rest.subrange(0, 3)[1] == rel@[i + 1]);
                }
            }
            assert(rest.subrange(0, 2) =~= seq!['.', '/']);
            assert(rest.subrange(2, rest.len() as int) =~= rel@.subrange(i + 2, rel@.len() as int));
            i = i + 2;
        } else {
            assert(!starts_with(rest, seq!['.', '.', '/'])) by {
                if rest.len() >= 3 && rest.subrange(0, 3) == seq!['.', '.', '/'] {
                    assert(rest.subrange(0, 3)[0] == rel@[i as int]);
                    assert(rest.subrange(0, 3)[1] == rel@[i + 1]);
                    assert(rest.subrange(0, 3)[2] == rel@[i + 2]);
                }
            }
            assert(!starts_with(rest, seq!['.', '/'])) by {
                if rest.len() >= 2 && rest.subrange(0, 2) == seq!['.', '/'] {
                    assert(rest.subrange(0, 2)[0] == rel@[i as int]);
                    assert(rest.subrange(0, 2)[1] == rel@[i + 1]);
                }
            }
            let mut tail: Vec<char> = Vec::new();
            let mut k: usize = i;
            while k < rel.len()
                invariant
                    i <= k <= rel.len(),
                    tail@ == rel@.subrange(i as int, k as int),
                decreases rel.len() - k,
            {
                tail.push(rel[k]);
                k = k + 1;
                assert(tail@ =~= rel@.subrange(i as int, k as int));
            }
            return resolve_path(&d, &tail);
        }
    }
    let ghost rest = rel@.subrange(i as int, rel@.len() as int);
    assert(rest =~= Seq::<char>::empty());
    resolve_path(&d, &Vec::new())
}

/// The rootfile element of a container document.
pub open spec fn rootfile_of(root: XmlNode) -> Option<XmlNode> {
    descend(root, seq!["container"@, "rootfiles"@, "rootfile"@])
}

proof fn lemma_descend_step(n: XmlNode, path: Seq<Seq<char>>)
    requires
        path.len() > 0,
    ensures
        descend(n, path) == match first_named(n.children@, path[0]) {
            Some(c) => descend(c, path.drop_first()),
            None => None,
        },
{
}

/// Reads the package document's path from the tree of the container document.
pub fn parse_container(root: &XmlNode) -> (r: Result<Container, EpubError>)
    ensures
        match rootfile_of(*root) {
            None => r is Err && names_node(r->Err_0, "container/rootfiles/rootfile"@),
            Some(rf) => match attribute_of(rf.item@.attributes, "full-path"@) {
                None => r is Err && names_attribute(r->Err_0, "rootfile"@, "full-path"@),
                Some(p) => r is Ok && r->Ok_0.package_path@ == p && r->Ok_0.base_path@ == dir_of(p),
            },
        },
{
    let ghost path = seq!["container"@, "rootfiles"@, "rootfile"@];
    proof {
        lemma_descend_step(*root, path);
        assert(path.drop_first() =~= seq!["rootfiles"@, "rootfile"@]);
        assert(path.drop_first().drop_first() =~= seq!["rootfile"@]);
        assert(path.drop_first().drop_first().drop_first() =~= Seq::<Seq<char>>::empty());
    }
    let container = match find_child(root, "container") {
        Some(n) => n,
        None => {
            return Err(EpubError::MissingNode(chars_of("container/rootfiles/rootfile")));
        },
    };
    proof { lemma_descend_step(*container, path.drop_first()); }
    let rootfiles = match find_child(container, "rootfiles") {
        Some(n) => n,
        None => {
            return Err(EpubError::MissingNode(chars_of("container/rootfiles/rootfile")));
        },
    };
    proof { lemma_descend_step(*rootfiles, path.drop_first().drop_first()); }
    let rootfile = match find_child(rootfiles, "rootfile") {
        Some(n) => n,
        None => {
            return Err(EpubError::MissingNode(chars_of("container/rootfiles/rootfile")));
        },
    };
    let package_path = match find_attribute(&rootfile.item, "full-path") {
        Some(p) => copy_chars(p),
        None => {
            return Err(EpubError::MissingAttribute(chars_of("rootfile"), chars_of("full-path")));
        },
    };
    let base_path = directory_of(&package_path);
    Ok(Container { package_path, base_path })
}

/// The manifest entries that the children `cs` of a manifest element give,
/// in order; `None` where an item lacks its `id` or `href`.
pub open spec fn manifest_spec(cs: Seq<XmlNode>, base: Seq<char>) -> Option<Seq<(Seq<char>, Seq<char>)>>
    decreases cs.len(),
{
    if cs.len() == 0 {
        Some(Seq::empty())
    } else {
        match manifest_spec(cs.drop_last(), base) {
            None => None,
            Some(m) => {
                let c = cs.last();
                if has_tag(c, "item"@) {
                    match (attribute_of(c.item@.attributes, "id"@), attribute_of(c.item@.attributes, "href"@)) {
                        (Some(id), Some(href)) => Some(m.push((id, resolve_href(base, href)))),
                        _ => None,
                    }
                } else {
                    Some(m)
                }
            },
        }
    }
}

/// Whether a child of the spine element is a chapter in reading order: an
/// `itemref` without a `linear` attribute, or with `linear="yes"`.
pub open spec fn is_linear_ref(c: XmlNode) -> bool {
    has_tag(c, "itemref"@) && match attribute_of(c.item@.attributes, "linear"@) {
        Some(v) => v == "yes"@,
        None => true,
    }
}

/// The `idref` of a spine entry (empty where it has none).
pub open spec fn idref_of(c: XmlNode) -> Seq<char> {
    match attribute_of(c.item@.attributes, "idref"@) {
        Some(v) => v,
        None => Seq::empty(),
    }
}

/// Whether every linear entry among `cs` has an `idref`.
pub open spec fn refs_complete(cs: Seq<XmlNode>) -> bool {
    forall|i: int| 0 <= i < cs.len() && is_linear_ref(#[trigger] cs[i]) ==> attribute_of(
        cs[i].item@.attributes,
        "idref"@,
    ) is Some
}

/// The reading order that the children `cs` of a spine element give.
pub open spec fn spine_spec(cs: Seq<XmlNode>) -> Seq<Seq<char>>
    decreases cs.len(),
{
    if cs.len() == 0 {
        Seq::empty()
    } else if is_linear_ref(cs.last()) {
        spine_spec(cs.drop_last()).push(idref_of(cs.last()))
    } else {
        spine_spec(cs.drop_last())
    }
}

/// The archive path that the manifest gives to `id`: the last entry for it wins.
pub open spec fn manifest_lookup(m: Seq<(Seq<char>, Seq<char>)>, id: Seq<char>) -> Option<Seq<char>>
    decreases m.len(),
{
    if m.len() == 0 {
        None
    } else if m.last().0 == id {
        Some(m.last().1)
    } else {
        manifest_lookup(m.drop_last(), id)
    }
}

pub open spec fn pairs_view(v: Seq<(Vec<char>, Vec<char>)>) -> Seq<(Seq<char>, Seq<char>)> {
    v.map_values(|p: (Vec<char>, Vec<char>)| (p.0@, p.1@))
}

pub open spec fn ids_view(v: Seq<Vec<char>>) -> Seq<Seq<char>> {
    v.map_values(|s: Vec<char>| s@)
}

/// The manifest element of a package document.
pub open spec fn manifest_node_of(root: XmlNode) -> Option<XmlNode> {
    descend(root, seq!["package"@, "manifest"@])
}

/// The spine element of a package document.
pub open spec fn spine_node_of(root: XmlNode) -> Option<XmlNode> {
    descend(root, seq!["package"@, "spine"@])
}

/// `base` followed by `/` and `href`, or `href` alone where `base` is empty.
pub fn resolve_path(base: &Vec<char>, href: &Vec<char>) -> (r: Vec<char>)
    ensures
        r@ == resolve_href(base@, href@),
{
    if base.len() == 0 {
        return copy_chars(href);
    }
    let mut r = copy_chars(base);
    r.push('/');
    let mut h = copy_chars(href);
    r.append(&mut h);
    proof {
        reveal_strlit("/");
        assert(r@ =~= base@ + "/"@ + href@);
    }
    r
}

fn find_path2<'a>(root: &'a XmlNode, first: &str, second: &str) -> (r: Option<&'a XmlNode>)
    ensures
        match descend(*root, seq![first@, second@]) {
            Some(n) => r is Some && *r->Some_0 == n,
            None => r is None,
        },
{
    let ghost path = seq![first@, second@];
    proof {
        lemma_descend_step(*root, path);
        assert(path.drop_first() =~= seq![second@]);
        assert(path.drop_first().drop_first() =~= Seq::<Seq<char>>::empty());
    }
    match find_child(root, first) {
        Some(n) => {
            proof { lemma_descend_step(*n, path.drop_first()); }
            find_child(n, second)
        },
        None => None,
    }
}

/// Reads the manifest from the children of a manifest element.
pub fn read_manifest(node: &XmlNode, base_path: &Vec<char>) -> (r: Result<Vec<(Vec<char>, Vec<char>)>, EpubError>)
    ensures
        match manifest_spec(node.children@, base_path@) {
            Some(m) => r is Ok && pairs_view(r->Ok_0@) == m,
            None => r is Err && (names_attribute(r->Err_0, "item"@, "id"@) || names_attribute(
                r->Err_0,
                "item"@,
                "href"@,
            )),
        },
{
    let ghost cs = node.children@;
    let mut manifest: Vec<(Vec<char>, Vec<char>)> = Vec::new();
    let mut i: usize = 0;
    assert(cs.subrange(0, 0) =~= Seq::<XmlNode>::empty());
    assert(pairs_view(manifest@) =~= Seq::empty());
    while i < node.children.len()
        invariant
            cs == node.children@,
            i <= cs.len(),
            manifest_spec(cs.subrange(0, i as int), base_path@) == Some(pairs_view(manifest@)),
        decreases cs.len() - i,
    {
        let c = &node.children[i];
        assert(cs.subrange(0, i + 1).drop_last() =~= cs.subrange(0, i as int));
        assert(cs.subrange(0, i + 1).last() == cs[i as int]);
        if c.item.kind == crate::xml::NodeKind::Element && chars_equal(&c.item.name, "item") {
            let id = find_attribute(&c.item, "id");
            let href = find_attribute(&c.item, "href");
            if id.is_none() || href.is_none() {
                proof { lemma_manifest_failed(cs, base_path@, i + 1); }
                let missing = if id.is_none() { "id" } else { "href" };
                return Err(EpubError::MissingAttribute(chars_of("item"), chars_of(missing)));
            }
            let id = copy_chars(id.unwrap());
            let path = resolve_path(base_path, href.unwrap());
            let ghost before = pairs_view(manifest@);
            manifest.push((id, path));
            assert(pairs_view(manifest@) =~= before.push((id@, path@)));
        }
        i = i + 1;
    }
    assert(cs.subrange(0, i as int) =~= cs);
    Ok(manifest)
}

proof fn lemma_manifest_failed(cs: Seq<XmlNode>, base: Seq<char>, k: int)
    requires
        0 <= k <= cs.len(),
        manifest_spec(cs.subrange(0, k), base) is None,
    ensures
        manifest_spec(cs, base) is None,
    decreases cs.len() - k,
{
    if k < cs.len() {
        assert(cs.subrange(0, k + 1).drop_last() =~= cs.subrange(0, k));
        lemma_manifest_failed(cs, base, k + 1);
    } else {
        assert(cs.subrange(0, k) =~= cs);
    }
}

/// Reads the reading order from the children of a spine element.
pub fn read_spine(node: &XmlNode) -> (r: Result<Vec<Vec<char>>, EpubError>)
    ensures
        refs_complete(node.children@) <==> r is Ok,
        r is Ok ==> ids_view(r->Ok_0@) == spine_spec(node.children@),
        r is Err ==> names_attribute(r->Err_0, "itemref"@, "idref"@),
{
    let ghost cs = node.children@;
    let mut spine: Vec<Vec<char>> = Vec::new();
    let mut i: usize = 0;
    assert(cs.subrange(0, 0) =~= Seq::<XmlNode>::empty());
    assert(ids_view(spine@) =~= Seq::empty());
    while i < node.children.len()
        invariant
            cs == node.children@,
            i <= cs.len(),
            refs_complete(cs.subrange(0, i as int)),
            spine_spec(cs.subrange(0, i as int)) == ids_view(spine@),
        decreases cs.len() - i,
    {
        let c = &node.children[i];
        assert(cs.subrange(0, i + 1).drop_last() =~= cs.subrange(0, i as int));
        assert(cs.subrange(0, i + 1).last() == cs[i as int]);
        let is_ref = c.item.kind == crate::xml::NodeKind::Element && chars_equal(&c.item.name, "itemref");
        let linear = if is_ref {
            match find_attribute(&c.item, "linear") {
                Some(v) => chars_equal(v, "yes"),
                None => true,
            }
        } else {
            false
        };
        if linear {
            match find_attribute(&c.item, "idref") {
                Some(idref) => {
                    let ghost before = ids_view(spine@);
                    spine.push(copy_chars(idref));
                    assert(ids_view(spine@) =~= before.push(idref_of(cs[i as int])));
                },
                None => {
                    assert(!refs_complete(cs));
                    return Err(EpubError::MissingAttribute(chars_of("itemref"), chars_of("idref")));
                },
            }
        }
        assert(refs_complete(cs.subrange(0, i + 1))) by {
            assert forall|j: int| 0 <= j < i + 1 && is_linear_ref(#[trigger] cs.subrange(0, i + 1)[j])
                implies attribute_of(cs.subrange(0, i + 1)[j].item@.attributes, "idref"@) is Some by {
                if j < i {
                    assert(cs.subrange(0, i + 1)[j] == cs.subrange(0, i as int)[j]);
                }
            }
        }
        i = i + 1;
    }
    assert(cs.subrange(0, i as int) =~= cs);
    Ok(spine)
}

/// The result of reading a package document whose tree is `root`, with the
/// package in the directory `base`.
pub open spec fn package_ok(root: XmlNode, base: Seq<char>) -> bool {
    &&& manifest_node_of(root) is Some
    &&& manifest_spec(manifest_node_of(root)->Some_0.children@, base) is Some
    &&& spine_node_of(root) is Some
    &&& refs_complete(spine_node_of(root)->Some_0.children@)
}

/// Reads the manifest and the reading order from the tree of a package document.
pub fn parse_package(root: &XmlNode, base_path: &Vec<char>) -> (r: Result<Package, EpubError>)
    ensures
        package_ok(*root, base_path@) <==> r is Ok,
        r is Ok ==> pairs_view(r->Ok_0.manifest@) == manifest_spec(
            manifest_node_of(*root)->Some_0.children@,
            base_path@,
        )->Some_0 && ids_view(r->Ok_0.spine@) == spine_spec(spine_node_of(*root)->Some_0.children@),
        manifest_node_of(*root) is None ==> r is Err && names_node(r->Err_0, "package/manifest"@),
        manifest_node_of(*root) is Some && manifest_spec(manifest_node_of(*root)->Some_0.children@, base_path@)
            is None ==> r is Err && (names_attribute(r->Err_0, "item"@, "id"@) || names_attribute(
            r->Err_0,
            "item"@,
            "href"@,
        )),
        manifest_node_of(*root) is Some && manifest_spec(manifest_node_of(*root)->Some_0.children@, base_path@)
            is Some && spine_node_of(*root) is None ==> r is Err && names_node(r->Err_0, "package/spine"@),
        manifest_node_of(*root) is Some && manifest_spec(manifest_node_of(*root)->Some_0.children@, base_path@)
            is Some && spine_node_of(*root) is Some && !refs_complete(spine_node_of(*root)->Some_0.children@)
            ==> r is Err && names_attribute(r->Err_0, "itemref"@, "idref"@),
{
    let manifest_node = match find_path2(root, "package", "manifest") {
        Some(n) => n,
        None => {
            return Err(EpubError::MissingNode(chars_of("package/manifest")));
        },
    };
    let manifest = read_manifest(manifest_node, base_path)?;
    let spine_node = match find_path2(root, "package", "spine") {
        Some(n) => n,
        None => {
            return Err(EpubError::MissingNode(chars_of("package/spine")));
        },
    };
    let spine = read_spine(spine_node)?;
    Ok(Package { manifest, spine })
}

/// The reading order holds the `idref` of every linear `itemref` child of the
/// spine element, and nothing else, in document order; so its length is the
/// number of those children.
pub proof fn lemma_spine_is_linear_refs(cs: Seq<XmlNode>)
    ensures
        spine_spec(cs) == cs.filter(|c: XmlNode| is_linear_ref(c)).map_values(|c: XmlNode| idref_of(c)),
        spine_spec(cs).len() == cs.filter(|c: XmlNode| is_linear_ref(c)).len(),
    decreases cs.len(),
{
    reveal(Seq::filter);
    let f = |c: XmlNode| is_linear_ref(c);
    let g = |c: XmlNode| idref_of(c);
    if cs.len() > 0 {
        lemma_spine_is_linear_refs(cs.drop_last());
        let sub = cs.drop_last().filter(f);
        if is_linear_ref(cs.last()) {
            assert(cs.filter(f) == sub.push(cs.last()));
            assert(sub.push(cs.last()).map_values(g) =~= sub.map_values(g).push(idref_of(cs.last())));
        } else {
            assert(cs.filter(f) == sub);
        }
    } else {
        assert(cs.filter(f).map_values(g) =~= Seq::empty());
    }
}

/// An `itemref` marked `linear="no"` is left out of the reading order; one
/// marked `linear="yes"`, or not marked, is kept.
pub proof fn lemma_linear_flag(c: XmlNode)
    requires
        has_tag(c, "itemref"@),
    ensures
        attribute_of(c.item@.attributes, "linear"@) == Some("no"@) ==> !is_linear_ref(c),
        attribute_of(c.item@.attributes, "linear"@) == Some("yes"@) ==> is_linear_ref(c),
        attribute_of(c.item@.attributes, "linear"@) is None ==> is_linear_ref(c),
{
    reveal_strlit("no");
    reveal_strlit("yes");
    assert("no"@ != "yes"@) by {
        assert("no"@.len() != "yes"@.len());
    }
}

/// A resource's path is the package's directory, a `/` and its `href`; or
/// the `href` unchanged where the package lies at the archive's root.
pub proof fn lemma_href_resolution(base: Seq<char>, href: Seq<char>)
    ensures
        base.len() > 0 ==> resolve_href(base, href) == base + seq!['/'] + href,
        base.len() == 0 ==> resolve_href(base, href) == href,
{
    reveal_strlit("/");
    assert("/"@ =~= seq!['/']);
}

/// Following a path of names down well-nested trees with the same nodes in
/// document order reaches matching elements, or fails in both.
pub proof fn lemma_descend_alike(t1: XmlNode, t2: XmlNode, path: Seq<Seq<char>>)
    requires
        well_nested(t1),
        well_nested(t2),
        preorder(t1) == preorder(t2),
    ensures
        descend(t1, path) is Some <==> descend(t2, path) is Some,
        descend(t1, path) is Some ==> {
            &&& preorder(descend(t1, path)->Some_0) == preorder(descend(t2, path)->Some_0)
            &&& well_nested(descend(t1, path)->Some_0)
            &&& well_nested(descend(t2, path)->Some_0)
        },
    decreases path.len(),
{
    if path.len() > 0 {
        lemma_children_alike(t1, t2);
        lemma_first_named_alike(t1.children@, t2.children@, path[0]);
        match first_named(t1.children@, path[0]) {
            Some(c1) => {
                let c2 = first_named(t2.children@, path[0])->Some_0;
                lemma_descend_alike(c1, c2, path.drop_first());
            },
            None => {},
        }
    }
}

proof fn lemma_entries_alike(cs1: Seq<XmlNode>, cs2: Seq<XmlNode>, base: Seq<char>)
    requires
        cs1.len() == cs2.len(),
        forall|i: int| 0 <= i < cs1.len() ==> (#[trigger] cs1[i]).item@ == cs2[i].item@,
    ensures
        manifest_spec(cs1, base) == manifest_spec(cs2, base),
        spine_spec(cs1) == spine_spec(cs2),
        refs_complete(cs1) == refs_complete(cs2),
    decreases cs1.len(),
{
    if cs1.len() > 0 {
        let n = cs1.len() - 1;
        let i1 = cs1.subrange(0, n as int);
        let i2 = cs2.subrange(0, n as int);
        assert forall|i: int| 0 <= i < i1.len() implies (#[trigger] i1[i]).item@ == i2[i].item@ by {
            assert(i1[i] == cs1[i]);
            assert(i2[i] == cs2[i]);
        }
        lemma_entries_alike(i1, i2, base);
        assert(cs1[n as int].item@ == cs2[n as int].item@);
        assert(cs1.drop_last() == i1);
        assert(cs2.drop_last() == i2);
    }
    assert(refs_complete(cs1) == refs_complete(cs2)) by {
        if refs_complete(cs1) {
            assert forall|i: int| 0 <= i < cs2.len() && is_linear_ref(#[trigger] cs2[i]) implies attribute_of(
                cs2[i].item@.attributes,
                "idref"@,
            ) is Some by {
                assert(cs1[i].item@ == cs2[i].item@);
                assert(is_linear_ref(cs1[i]));
            }
        }
        if refs_complete(cs2) {
            assert forall|i: int| 0 <= i < cs1.len() && is_linear_ref(#[trigger] cs1[i]) implies attribute_of(
                cs1[i].item@.attributes,
                "idref"@,
            ) is Some by {
                assert(cs1[i].item@ == cs2[i].item@);
                assert(is_linear_ref(cs2[i]));
            }
        }
    }
}

/// Well-nested container trees with the same nodes in document order name
/// the same package path.
pub proof fn lemma_container_alike(t1: XmlNode, t2: XmlNode)
    requires
        well_nested(t1),
        well_nested(t2),
        preorder(t1) == preorder(t2),
    ensures
        rootfile_of(t1) is Some <==> rootfile_of(t2) is Some,
        rootfile_of(t1) is Some ==> rootfile_of(t1)->Some_0.item@ == rootfile_of(t2)->Some_0.item@,
{
    let path = seq!["container"@, "rootfiles"@, "rootfile"@];
    lemma_descend_alike(t1, t2, path);
    if rootfile_of(t1) is Some {
        crate::xml::lemma_preorder_depths(rootfile_of(t1)->Some_0);
        crate::xml::lemma_preorder_depths(rootfile_of(t2)->Some_0);
    }
}

/// Well-nested package trees with the same nodes in document order give the
/// same manifest and reading order.
pub proof fn lemma_package_alike(t1: XmlNode, t2: XmlNode, base: Seq<char>)
    requires
        well_nested(t1),
        well_nested(t2),
        preorder(t1) == preorder(t2),
    ensures
        package_ok(t1, base) == package_ok(t2, base),
        manifest_node_of(t1) is Some <==> manifest_node_of(t2) is Some,
        spine_node_of(t1) is Some <==> spine_node_of(t2) is Some,
        manifest_node_of(t1) is Some ==> manifest_spec(manifest_node_of(t1)->Some_0.children@, base)
            == manifest_spec(manifest_node_of(t2)->Some_0.children@, base),
        spine_node_of(t1) is Some ==> spine_spec(spine_node_of(t1)->Some_0.children@) == spine_spec(
            spine_node_of(t2)->Some_0.children@,
        ) && refs_complete(spine_node_of(t1)->Some_0.children@) == refs_complete(
            spine_node_of(t2)->Some_0.children@,
        ),
{
    lemma_descend_alike(t1, t2, seq!["package"@, "manifest"@]);
    lemma_descend_alike(t1, t2, seq!["package"@, "spine"@]);
    if manifest_node_of(t1) is Some {
        let m1 = manifest_node_of(t1)->Some_0;
        let m2 = manifest_node_of(t2)->Some_0;
        lemma_children_alike(m1, m2);
        lemma_entries_alike(m1.children@, m2.children@, base);
    }
    if spine_node_of(t1) is Some {
        let s1 = spine_node_of(t1)->Some_0;
        let s2 = spine_node_of(t2)->Some_0;
        lemma_children_alike(s1, s2);
        lemma_entries_alike(s1.children@, s2.children@, base);
    }
}

} // verus!
