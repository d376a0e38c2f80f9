use roxmltree::NodeType;
use vstd::prelude::*;

verus! {

/// The kind of a node of a parsed XML document.
#[derive(Clone, Copy, Debug, PartialEq, Eq, Structural)]
pub enum NodeKind {
    Root,
    Element,
    ProcessingInstruction,
    Comment,
    Text,
}

/// One node of a parsed document, as it stands in document order.
///
/// `depth` counts the node and its ancestors (the document root has depth 1).
/// `attributes` pairs each attribute's local name with its value. `text` is
/// the content of a text or comment node; for an element it is the text of
/// its first child where that child is a text node, and empty otherwise.
pub struct XmlItem {
    pub depth: usize,
    pub kind: NodeKind,
    pub name: Vec<char>,
    pub attributes: Vec<(Vec<char>, Vec<char>)>,
    pub text: Vec<char>,
}

/// The mathematical value of an [`XmlItem`].
pub ghost struct ItemView {
    pub depth: nat,
    pub kind: NodeKind,
    pub name: Seq<char>,
    pub attributes: Seq<(Seq<char>, Seq<char>)>,
    pub text: Seq<char>,
}

pub open spec fn attributes_view(a: Seq<(Vec<char>, Vec<char>)>) -> Seq<(Seq<char>, Seq<char>)> {
    a.map_values(|p: (Vec<char>, Vec<char>)| (p.0@, p.1@))
}

impl View for XmlItem {
    type V = ItemView;

    open spec fn view(&self) -> ItemView {
        ItemView {
            depth: self.depth as nat,
            kind: self.kind,
            name: self.name@,
            attributes: attributes_view(self.attributes@),
            text: self.text@,
        }
    }
}

pub open spec fn items_view(s: Seq<XmlItem>) -> Seq<ItemView> {
    s.map_values(|i: XmlItem| i@)
}

/// A node of a document tree: its own data and its children in document order.
pub struct XmlNode {
    pub item: XmlItem,
    pub children: Vec<XmlNode>,
}

/// The nodes of a tree in document order (pre-order).
pub open spec fn preorder(n: XmlNode) -> Seq<ItemView>
    decreases n,
{
    seq![n.item@] + preorder_forest(n.children@)
}

/// The nodes of a sequence of sibling trees in document order.
pub open spec fn preorder_forest(cs: Seq<XmlNode>) -> Seq<ItemView>
    decreases cs,
{
    if cs.len() == 0 {
        Seq::empty()
    } else {
        preorder_forest(cs.subrange(0, cs.len() - 1)) + preorder(cs[cs.len() - 1])
    }
}

/// Whether each child of `n` lies one level deeper than `n`, and so on down.
pub open spec fn well_nested(n: XmlNode) -> bool
    decreases n,
{
    nested_forest(n.children@, n.item@.depth + 1)
}

/// Whether each of the sibling trees `cs` has its root at depth `d` and is
/// well nested.
pub open spec fn nested_forest(cs: Seq<XmlNode>, d: nat) -> bool
    decreases cs,
{
    if cs.len() == 0 {
        true
    } else {
        nested_forest(cs.subrange(0, cs.len() - 1), d) && cs[cs.len() - 1].item@.depth == d
            && well_nested(cs[cs.len() - 1])
    }
}

/// Whether the depths of `s` are those of a tree listed in document order:
/// every node after the first lies deeper than the first, and each at most
/// one level below the node before it.
pub open spec fn nests(s: Seq<ItemView>) -> bool {
    &&& s.len() >= 1
    &&& forall|j: int| 1 <= j < s.len() ==> s[0].depth < #[trigger] s[j].depth <= s[j - 1].depth + 1
}

/// The nodes of the document that roxmltree parses from `text`, in document
/// order, or `None` where it refuses the text.
pub uninterp spec fn xml_items_of(text: Seq<char>) -> Option<Seq<ItemView>>;

/// Relies on roxmltree::Document::parse, and on its node accessors to list the
/// parsed nodes in document order (`descendants` of the root walks the tree
/// in pre-order, the root first; `ancestors` counts the node itself).
#[verifier::external_body]
fn parse_items(text: &Vec<char>) -> (r: Result<Vec<XmlItem>, roxmltree::Error>)
    ensures
        r is Ok <==> xml_items_of(text@) is Some,
        r is Ok ==> xml_items_of(text@) == Some(items_view(r->Ok_0@)),
        r is Ok ==> nests(items_view(r->Ok_0@)) && items_view(r->Ok_0@)[0].depth == 1,
{
    roxmltree::Document::parse(&text.iter().collect::<String>()).map(|doc| doc.descendants().map(|n| XmlItem {
        depth: n.ancestors().count(),
        kind: match n.node_type() {
            NodeType::Root => NodeKind::Root,
            NodeType::Element => NodeKind::Element,
            NodeType::PI => NodeKind::ProcessingInstruction,
            NodeType::Comment => NodeKind::Comment,
            NodeType::Text => NodeKind::Text,
        },
        name: n.tag_name().name().chars().collect(),
        attributes: n.attributes().map(|a| (a.name().chars().collect(), a.value().chars().collect())).collect(),
        text: n.text().unwrap_or_default().chars().collect(),
    }).collect())
}

#[verifier::external_type_specification]
#[verifier::external_body]
pub struct ExXmlError(roxmltree::Error);

/// Why a text is not a document.
#[derive(Clone, Copy, Debug, PartialEq, Eq, Structural)]
pub enum XmlError {
    /// The text is not well-formed XML.
    Syntax,
    /// The parsed nodes do not nest as a tree.
    Shape,
}

pub fn copy_chars(v: &Vec<char>) -> (r: Vec<char>)
    ensures
        r@ == v@,
{
    let mut r: Vec<char> = Vec::new();
    let mut i: usize = 0;
    while i < v.len()
        invariant
            i <= v.len(),
            r@ == v@.subrange(0, i as int),
        decreases v.len() - i,
    {
        r.push(v[i]);
        i = i + 1;
        assert(r@ =~= v@.subrange(0, i as int));
    }
    assert(r@ =~= v@);
    r
}

impl XmlItem {
    pub fn copy(&self) -> (r: XmlItem)
        ensures
            r@ == self@,
    {
        let mut attributes: Vec<(Vec<char>, Vec<char>)> = Vec::new();
        let mut i: usize = 0;
        while i < self.attributes.len()
            invariant
                i <= self.attributes.len(),
                attributes.len() == i,
                forall|j: int|
                    0 <= j < i ==> #[trigger] attributes@[j].0@ == self.attributes@[j].0@
                        && attributes@[j].1@ == self.attributes@[j].1@,
            decreases self.attributes.len() - i,
        {
            let name = copy_chars(&self.attributes[i].0);
            let value = copy_chars(&self.attributes[i].1);
            attributes.push((name, value));
            i = i + 1;
        }
        assert(attributes_view(attributes@) =~= attributes_view(self.attributes@));
        XmlItem {
            depth: self.depth,
            kind: self.kind,
            name: copy_chars(&self.name),
            attributes,
            text: copy_chars(&self.text),
        }
    }
}

proof fn lemma_forest_push(cs: Seq<XmlNode>, c: XmlNode, d: nat)
    ensures
        preorder_forest(cs.push(c)) == preorder_forest(cs) + preorder(c),
        nested_forest(cs.push(c), d) == (nested_forest(cs, d) && c.item@.depth == d && well_nested(c)),
{
    assert(cs.push(c).subrange(0, cs.len() as int) =~= cs);
}

/// Builds the tree whose root is `items[start]`, from the items that follow it
/// at a greater depth. Returns the tree and the index after its last item.
fn build_node(items: &Vec<XmlItem>, start: usize) -> (r: Option<(XmlNode, usize)>)
    requires
        start < items.len(),
    ensures
        r is Some ==> {
            let (node, end) = r->Some_0;
            &&& start < end <= items.len()
            &&& preorder(node) == items_view(items@.subrange(start as int, end as int))
            &&& well_nested(node)
            &&& node.item@.depth == items@[start as int].depth
            &&& (end == items.len() || items@[end as int].depth <= items@[start as int].depth)
        },
        nests(items_view(items@)) ==> r is Some,
    decreases items.len() - start,
{
    let depth = items[start].depth;
    proof {
        if nests(items_view(items@)) && start + 1 < items.len() {
            assert(items_view(items@)[start + 1].depth == items@[start + 1].depth);
            assert(items_view(items@)[start as int].depth == items@[start as int].depth);
        }
    }
    let mut children: Vec<XmlNode> = Vec::new();
    let mut k: usize = start + 1;
    while k < items.len() && items[k].depth > depth
        invariant
            start < k <= items.len(),
            depth == items@[start as int].depth,
            preorder_forest(children@) == items_view(items@.subrange(start + 1, k as int)),
            nested_forest(children@, depth as nat + 1),
            nests(items_view(items@)) ==> (k < items.len() ==> items@[k as int].depth
                <= depth + 1),
        decreases items.len() - k,
    {
        proof {
            if nests(items_view(items@)) {
                assert(items_view(items@)[k as int].depth == items@[k as int].depth);
            }
        }
        if items[k].depth != depth + 1 {
            return None;
        }
        match build_node(items, k) {
            Some((child, next)) => {
                proof {
                    lemma_forest_push(children@, child, depth as nat + 1);
                    assert(items_view(items@.subrange(start + 1, next as int)) =~= items_view(
                        items@.subrange(start + 1, k as int),
                    ) + items_view(items@.subrange(k as int, next as int)));
                }
                children.push(child);
                k = next;
            },
            None => {
                return None;
            },
        }
    }
    let item = items[start].copy();
    let node = XmlNode { item, children };
    assert(items_view(items@.subrange(start as int, k as int)) =~= seq![items@[start as int]@]
        + items_view(items@.subrange(start + 1, k as int)));
    Some((node, k))
}

/// Builds the tree of a document from its nodes in document order: the first
/// node is the root, and each node's children follow it one level deeper.
pub fn build_tree(items: &Vec<XmlItem>) -> (r: Option<XmlNode>)
    ensures
        r is Some ==> preorder(r->Some_0) == items_view(items@) && well_nested(r->Some_0),
        (exists|t: XmlNode| well_nested(t) && preorder(t) == items_view(items@)) ==> r is Some,
        nests(items_view(items@)) ==> r is Some,
{
    proof {
        if exists|t: XmlNode| well_nested(t) && preorder(t) == items_view(items@) {
            let t = choose|t: XmlNode| well_nested(t) && preorder(t) == items_view(items@);
            lemma_preorder_nests(t);
        }
    }
    if items.len() == 0 {
        return None;
    }
    match build_node(items, 0) {
        Some((node, end)) => {
            proof {
                if nests(items_view(items@)) && end < items.len() {
                    assert(items_view(items@)[end as int].depth == items@[end as int].depth);
                    assert(items_view(items@)[0].depth == items@[0].depth);
                }
            }
            if end == items.len() {
                assert(items@.subrange(0, end as int) =~= items@);
                Some(node)
            } else {
                None
            }
        },
        None => None,
    }
}

/// Parses an XML document into its tree of nodes.
pub fn parse_document(text: &Vec<char>) -> (r: Result<XmlNode, XmlError>)
    ensures
        xml_items_of(text@) is None <==> r == Err::<XmlNode, XmlError>(XmlError::Syntax),
        r is Ok ==> xml_items_of(text@) == Some(preorder(r->Ok_0)) && well_nested(r->Ok_0),
        xml_items_of(text@) is Some ==> r is Ok,
{
    match parse_items(text) {
        Ok(items) => match build_tree(&items) {
            Some(tree) => Ok(tree),
            None => Err(XmlError::Shape),
        },
        Err(_) => Err(XmlError::Syntax),
    }
}

/// Whether a sequence of characters spells `s`.
pub fn chars_equal(a: &Vec<char>, s: &str) -> (r: bool)
    ensures
        r == (a@ == s@),
{
    let n = s.unicode_len();
    if a.len() != n {
        return false;
    }
    let mut i: usize = 0;
    while i < n
        invariant
            n == a.len(),
            n == s@.len(),
            i <= n,
            forall|j: int| 0 <= j < i ==> a@[j] == s@[j],
        decreases n - i,
    {
        if a[i] != s.get_char(i) {
            return false;
        }
        i = i + 1;
    }
    assert(a@ =~= s@);
    true
}

/// Whether two sequences of characters are equal.
pub fn same_chars(a: &Vec<char>, b: &Vec<char>) -> (r: bool)
    ensures
        r == (a@ == b@),
{
    if a.len() != b.len() {
        return false;
    }
    let mut i: usize = 0;
    while i < a.len()
        invariant
            a.len() == b.len(),
            i <= a.len(),
            forall|j: int| 0 <= j < i ==> a@[j] == b@[j],
        decreases a.len() - i,
    {
        if a[i] != b[i] {
            return false;
        }
        i = i + 1;
    }
    assert(a@ =~= b@);
    true
}

/// The value of the first attribute whose local name is `name`.
pub open spec fn attribute_of(attrs: Seq<(Seq<char>, Seq<char>)>, name: Seq<char>) -> Option<Seq<char>>
    decreases attrs.len(),
{
    if attrs.len() == 0 {
        None
    } else if attrs[0].0 == name {
        Some(attrs[0].1)
    } else {
        attribute_of(attrs.drop_first(), name)
    }
}

/// Looks up an attribute by local name; the first one wins.
pub fn find_attribute<'a>(item: &'a XmlItem, name: &str) -> (r: Option<&'a Vec<char>>)
    ensures
        match attribute_of(item@.attributes, name@) {
            Some(v) => r is Some && r->Some_0@ == v,
            None => r is None,
        },
{
    let ghost all = item@.attributes;
    assert(all.subrange(0, all.len() as int) =~= all);
    let mut i: usize = 0;
    while i < item.attributes.len()
        invariant
            i <= item.attributes.len(),
            all == attributes_view(item.attributes@),
            attribute_of(all, name@) == attribute_of(all.subrange(i as int, all.len() as int), name@),
        decreases item.attributes.len() - i,
    {
        let ghost rest = all.subrange(i as int, all.len() as int);
        assert(rest.drop_first() =~= all.subrange(i + 1, all.len() as int));
        if chars_equal(&item.attributes[i].0, name) {
            return Some(&item.attributes[i].1);
        }
        i = i + 1;
    }
    None
}

/// Whether the node is an element with the local name `tag`.
pub open spec fn has_tag(n: XmlNode, tag: Seq<char>) -> bool {
    n.item.kind == NodeKind::Element && n.item.name@ == tag
}

/// The first of the nodes that is an element named `tag`.
pub open spec fn first_named(cs: Seq<XmlNode>, tag: Seq<char>) -> Option<XmlNode>
    decreases cs.len(),
{
    if cs.len() == 0 {
        None
    } else if has_tag(cs[0], tag) {
        Some(cs[0])
    } else {
        first_named(cs.drop_first(), tag)
    }
}

/// The first child of `n` that is an element named `tag`.
pub fn find_child<'a>(n: &'a XmlNode, tag: &str) -> (r: Option<&'a XmlNode>)
    ensures
        match first_named(n.children@, tag@) {
            Some(c) => r is Some && *r->Some_0 == c,
            None => r is None,
        },
{
    let ghost all = n.children@;
    assert(all.subrange(0, all.len() as int) =~= all);
    let mut i: usize = 0;
    while i < n.children.len()
        invariant
            i <= n.children.len(),
            all == n.children@,
            first_named(all, tag@) == first_named(all.subrange(i as int, all.len() as int), tag@),
        decreases n.children.len() - i,
    {
        let ghost rest = all.subrange(i as int, all.len() as int);
        assert(rest.drop_first() =~= all.subrange(i + 1, all.len() as int));
        let c = &n.children[i];
        if c.item.kind == NodeKind::Element && chars_equal(&c.item.name, tag) {
            return Some(c);
        }
        i = i + 1;
    }
    None
}

/// In a well-nested tree the root comes first and every other node lies deeper.
pub proof fn lemma_preorder_depths(n: XmlNode)
    requires
        well_nested(n),
    ensures
        preorder(n).len() >= 1,
        preorder(n)[0] == n.item@,
        forall|k: int| 1 <= k < preorder(n).len() ==> #[trigger] preorder(n)[k].depth > n.item@.depth,
    decreases n,
{
    let d = n.item@.depth;
    let f = preorder_forest(n.children@);
    lemma_forest_depths(n.children@, d + 1);
    assert forall|k: int| 1 <= k < preorder(n).len() implies #[trigger] preorder(n)[k].depth > d by {
        assert(preorder(n)[k] == f[k - 1]);
    }
}

/// Every node of well-nested sibling trees rooted at depth `d` lies at depth
/// `d` or deeper.
pub proof fn lemma_forest_depths(cs: Seq<XmlNode>, d: nat)
    requires
        nested_forest(cs, d),
    ensures
        forall|k: int| 0 <= k < preorder_forest(cs).len() ==> #[trigger] preorder_forest(cs)[k].depth >= d,
    decreases cs,
{
    if cs.len() > 0 {
        let init = cs.subrange(0, cs.len() - 1);
        let last = cs[cs.len() - 1];
        lemma_forest_depths(init, d);
        lemma_preorder_depths(last);
        let a = preorder_forest(init);
        let b = preorder(last);
        assert forall|k: int| 0 <= k < preorder_forest(cs).len() implies #[trigger] preorder_forest(cs)[k].depth >= d by {
            if k < a.len() {
                assert(preorder_forest(cs)[k] == a[k]);
            } else {
                assert(preorder_forest(cs)[k] == b[k - a.len()]);
            }
        }
    }
}

/// Well-nested sibling trees rooted at one depth are told apart by their
/// nodes in document order: equal sequences give trees with equal sequences,
/// one by one.
pub proof fn lemma_forest_unique(cs1: Seq<XmlNode>, cs2: Seq<XmlNode>, d: nat)
    requires
        nested_forest(cs1, d),
        nested_forest(cs2, d),
        preorder_forest(cs1) == preorder_forest(cs2),
    ensures
        cs1.len() == cs2.len(),
        forall|i: int| 0 <= i < cs1.len() ==> preorder(#[trigger] cs1[i]) == preorder(cs2[i]),
    decreases cs1.len() + cs2.len(),
{
    let s = preorder_forest(cs1);
    if cs1.len() == 0 || cs2.len() == 0 {
        if cs1.len() > 0 {
            lemma_preorder_depths(cs1[cs1.len() - 1]);
            assert(s.len() > 0);
        }
        if cs2.len() > 0 {
            lemma_preorder_depths(cs2[cs2.len() - 1]);
            assert(s.len() > 0);
        }
        return;
    }
    let init1 = cs1.subrange(0, cs1.len() - 1);
    let init2 = cs2.subrange(0, cs2.len() - 1);
    let last1 = cs1[cs1.len() - 1];
    let last2 = cs2[cs2.len() - 1];
    let head1 = preorder_forest(init1);
    let head2 = preorder_forest(init2);
    let tail1 = preorder(last1);
    let tail2 = preorder(last2);
    lemma_preorder_depths(last1);
    lemma_preorder_depths(last2);
    assert(s == head1 + tail1);
    assert(s == head2 + tail2);
    if head1.len() < head2.len() {
        assert(s[head2.len() as int] == tail2[0]);
        assert(s[head2.len() as int] == tail1[head2.len() - head1.len()]);
        assert(tail1[head2.len() - head1.len()].depth > d);
    }
    if head2.len() < head1.len() {
        assert(s[head1.len() as int] == tail1[0]);
        assert(s[head1.len() as int] == tail2[head1.len() - head2.len()]);
        assert(tail2[head1.len() - head2.len()].depth > d);
    }
    assert(head1.len() == head2.len());
    assert(head1 =~= s.subrange(0, head1.len() as int));
    assert(head2 =~= s.subrange(0, head2.len() as int));
    assert(tail1 =~= s.subrange(head1.len() as int, s.len() as int));
    assert(tail2 =~= s.subrange(head2.len() as int, s.len() as int));
    lemma_forest_unique(init1, init2, d);
    assert forall|i: int| 0 <= i < cs1.len() implies preorder(#[trigger] cs1[i]) == preorder(cs2[i]) by {
        if i < cs1.len() - 1 {
            assert(init1[i] == cs1[i]);
            assert(init2[i] == cs2[i]);
        }
    }
}

/// Each of well-nested sibling trees rooted at depth `d` is well nested and
/// has its root at `d`.
pub proof fn lemma_forest_members(cs: Seq<XmlNode>, d: nat)
    requires
        nested_forest(cs, d),
    ensures
        forall|i: int| 0 <= i < cs.len() ==> well_nested(#[trigger] cs[i]) && cs[i].item@.depth == d,
    decreases cs.len(),
{
    if cs.len() > 0 {
        let init = cs.subrange(0, cs.len() - 1);
        lemma_forest_members(init, d);
        assert forall|i: int| 0 <= i < cs.len() implies well_nested(#[trigger] cs[i]) && cs[i].item@.depth == d by {
            if i < cs.len() - 1 {
                assert(init[i] == cs[i]);
            }
        }
    }
}

/// Well-nested sibling trees with the same nodes in document order match
/// one by one: same nodes in order, same root, each well nested.
pub proof fn lemma_siblings_alike(cs1: Seq<XmlNode>, cs2: Seq<XmlNode>, d: nat)
    requires
        nested_forest(cs1, d),
        nested_forest(cs2, d),
        preorder_forest(cs1) == preorder_forest(cs2),
    ensures
        cs1.len() == cs2.len(),
        forall|i: int| 0 <= i < cs1.len() ==> {
            &&& preorder(#[trigger] cs1[i]) == preorder(cs2[i])
            &&& cs1[i].item@ == cs2[i].item@
            &&& well_nested(cs1[i])
            &&& well_nested(cs2[i])
        },
{
    lemma_forest_unique(cs1, cs2, d);
    lemma_forest_members(cs1, d);
    lemma_forest_members(cs2, d);
    assert forall|i: int| 0 <= i < cs1.len() implies cs1[i].item@ == cs2[i].item@ by {
        lemma_preorder_depths(cs1[i]);
        lemma_preorder_depths(cs2[i]);
    }
}

/// The children of well-nested trees with the same nodes in document order
/// match one by one.
pub proof fn lemma_children_alike(t1: XmlNode, t2: XmlNode)
    requires
        well_nested(t1),
        well_nested(t2),
        preorder(t1) == preorder(t2),
    ensures
        t1.item@ == t2.item@,
        t1.children@.len() == t2.children@.len(),
        forall|i: int| 0 <= i < t1.children@.len() ==> {
            &&& preorder(#[trigger] t1.children@[i]) == preorder(t2.children@[i])
            &&& t1.children@[i].item@ == t2.children@[i].item@
            &&& well_nested(t1.children@[i])
            &&& well_nested(t2.children@[i])
        },
{
    lemma_preorder_depths(t1);
    lemma_preorder_depths(t2);
    let s = preorder(t1);
    assert(preorder_forest(t1.children@) =~= s.subrange(1, s.len() as int));
    assert(preorder_forest(t2.children@) =~= s.subrange(1, s.len() as int));
    lemma_siblings_alike(t1.children@, t2.children@, t1.item@.depth + 1);
}

/// Among children that match one by one, the first element of a given name
/// is found at the same place in both.
pub proof fn lemma_first_named_alike(cs1: Seq<XmlNode>, cs2: Seq<XmlNode>, tag: Seq<char>)
    requires
        cs1.len() == cs2.len(),
        forall|i: int| 0 <= i < cs1.len() ==> {
            &&& preorder(#[trigger] cs1[i]) == preorder(cs2[i])
            &&& cs1[i].item@ == cs2[i].item@
            &&& well_nested(cs1[i])
            &&& well_nested(cs2[i])
        },
    ensures
        first_named(cs1, tag) is Some <==> first_named(cs2, tag) is Some,
        first_named(cs1, tag) is Some ==> {
            &&& preorder(first_named(cs1, tag)->Some_0) == preorder(first_named(cs2, tag)->Some_0)
            &&& well_nested(first_named(cs1, tag)->Some_0)
            &&& well_nested(first_named(cs2, tag)->Some_0)
        },
    decreases cs1.len(),
{
    if cs1.len() > 0 {
        assert(cs1[0].item@ == cs2[0].item@);
        assert(preorder(cs1[0]) == preorder(cs2[0]));
        let r1 = cs1.drop_first();
        let r2 = cs2.drop_first();
        assert forall|i: int| 0 <= i < r1.len() implies {
            &&& preorder(#[trigger] r1[i]) == preorder(r2[i])
            &&& r1[i].item@ == r2[i].item@
            &&& well_nested(r1[i])
            &&& well_nested(r2[i])
        } by {
            assert(r1[i] == cs1[i + 1]);
            assert(r2[i] == cs2[i + 1]);
        }
        lemma_first_named_alike(r1, r2, tag);
    }
}

/// The nodes of a well-nested tree, in document order, nest.
pub proof fn lemma_preorder_nests(t: XmlNode)
    requires
        well_nested(t),
    ensures
        nests(preorder(t)),
    decreases t,
{
    let d = t.item@.depth;
    let f = preorder_forest(t.children@);
    let s = preorder(t);
    lemma_forest_steps(t.children@, d + 1);
    assert forall|j: int| 1 <= j < s.len() implies s[0].depth < #[trigger] s[j].depth <= s[j - 1].depth + 1 by {
        assert(s[j] == f[j - 1]);
        if j >= 2 {
            assert(s[j - 1] == f[j - 2]);
        }
    }
}

proof fn lemma_forest_steps(cs: Seq<XmlNode>, d: nat)
    requires
        nested_forest(cs, d),
    ensures
        cs.len() > 0 ==> preorder_forest(cs).len() > 0 && preorder_forest(cs)[0].depth == d,
        forall|j: int| 0 <= j < preorder_forest(cs).len() ==> #[trigger] preorder_forest(cs)[j].depth >= d,
        forall|j: int|
            1 <= j < preorder_forest(cs).len() ==> #[trigger] preorder_forest(cs)[j].depth
                <= preorder_forest(cs)[j - 1].depth + 1,
    decreases cs,
{
    if cs.len() > 0 {
        let init = cs.subrange(0, cs.len() - 1);
        let last = cs[cs.len() - 1];
        lemma_forest_steps(init, d);
        lemma_preorder_nests(last);
        lemma_preorder_depths(last);
        let a = preorder_forest(init);
        let b = preorder(last);
        let s = preorder_forest(cs);
        assert(s == a + b);
        assert forall|j: int| 0 <= j < s.len() implies #[trigger] s[j].depth >= d by {
            if j < a.len() {
                assert(s[j] == a[j]);
            } else {
                assert(s[j] == b[j - a.len()]);
            }
        }
        assert forall|j: int| 1 <= j < s.len() implies #[trigger] s[j].depth <= s[j - 1].depth + 1 by {
            if j < a.len() {
                assert(s[j] == a[j]);
                assert(s[j - 1] == a[j - 1]);
            } else if j == a.len() {
                assert(s[j] == b[0]);
                assert(s[j - 1] == a[j - 1]);
            } else {
                assert(s[j] == b[j - a.len()]);
                assert(s[j - 1] == b[j - 1 - a.len()]);
            }
        }
        if a.len() > 0 {
            assert(s[0] == a[0]);
        } else {
            assert(s[0] == b[0]);
        }
    }
}

} // verus!
