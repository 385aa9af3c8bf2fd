use vstd::prelude::*;
use elementtree::Element;
use crate::text::string_is;

verus! {

/// One element of an XML document: its tag, its attributes, the text
/// before its first child, and the positions of its children.
#[derive(Clone, Debug)]
pub struct XmlNode {
    pub tag: String,
    pub attributes: Vec<(String, String)>,
    pub text: String,
    pub children: Vec<usize>,
}

/// An XML document as a list of elements; the root element comes first.
#[derive(Clone, Debug)]
pub struct XmlTree {
    pub nodes: Vec<XmlNode>,
}

/// The elements that `elementtree` reads from the bytes `text`, root first
/// and then level by level, each child after its parent; nothing when the
/// bytes are not a well-formed XML document.
pub uninterp spec fn parsed_xml(text: Seq<u8>) -> Option<Seq<XmlNode>>;

/// There is a root, and every child position names an element.
pub open spec fn tree_ok(nodes: Seq<XmlNode>) -> bool {
    &&& nodes.len() > 0
    &&& forall|i: int, j: int|
        0 <= i < nodes.len() && 0 <= j < nodes[i].children@.len() ==> (#[trigger] nodes[i].children@[j]) < nodes.len()
}

/// Calls `elementtree::Element::from_reader` on the bytes and lists the
/// elements root first, level by level: each with its tag and its
/// attributes' names (as `{namespace}name` where there is a namespace), its
/// text before the first child, and its children's positions. The list is
/// the one that `parsed_xml` names, and every child position lies in it.
#[verifier::external_body]
pub(crate) fn parse_xml(text: &[u8]) -> (r: Option<XmlTree>)
    ensures
        match r {
            Some(t) => parsed_xml(text@) == Some(t.nodes@) && tree_ok(t.nodes@),
            None => parsed_xml(text@) is None,
        },
{
    let root = match Element::from_reader(text) {
        Ok(e) => e,
        Err(_) => return None,
    };
    let (mut nodes, mut queue, mut i) = (Vec::new(), vec![&root], 0);
    while i < queue.len() {
        let (el, first) = (queue[i], queue.len());
        queue.extend(el.children());
        let attributes = el.attrs().map(|(k, v)| (k.to_string(), v.to_string())).collect();
        let children = (first..queue.len()).collect();
        nodes.push(XmlNode { tag: el.tag().to_string(), attributes, text: el.text().to_string(), children });
        i += 1;
    }
    Some(XmlTree { nodes })
}

/// The value of the attribute `name`: that of the first attribute so named.
pub open spec fn attr_from(attrs: Seq<(String, String)>, name: Seq<char>) -> Option<Seq<char>>
    decreases attrs.len(),
{
    if attrs.len() == 0 {
        None
    } else if attrs[0].0@ == name {
        Some(attrs[0].1@)
    } else {
        attr_from(attrs.drop_first(), name)
    }
}

pub open spec fn attr(node: XmlNode, name: Seq<char>) -> Option<Seq<char>> {
    attr_from(node.attributes@, name)
}

/// The children of `node` with tag `tag`, in document order.
pub open spec fn children_tagged(nodes: Seq<XmlNode>, children: Seq<usize>, tag: Seq<char>) -> Seq<usize>
    decreases children.len(),
{
    if children.len() == 0 {
        Seq::empty()
    } else {
        let rest = children_tagged(nodes, children.drop_last(), tag);
        if nodes[children.last() as int].tag@ == tag {
            rest.push(children.last())
        } else {
            rest
        }
    }
}

/// `find_all`: the children of element `i` tagged `tag`.
pub open spec fn find_all_spec(nodes: Seq<XmlNode>, i: int, tag: Seq<char>) -> Seq<usize> {
    children_tagged(nodes, nodes[i].children@, tag)
}

/// `find`: the first child of element `i` tagged `tag`.
pub open spec fn find_spec(nodes: Seq<XmlNode>, i: int, tag: Seq<char>) -> Option<usize> {
    let all = find_all_spec(nodes, i, tag);
    if all.len() > 0 {
        Some(all[0])
    } else {
        None
    }
}

/// The value of attribute `name` of an element.
pub fn get_attr(node: &XmlNode, name: &str) -> (r: Option<String>)
    ensures
        match r {
            Some(v) => attr(*node, name@) == Some(v@),
            None => attr(*node, name@) is None,
        },
{
    let mut i: usize = 0;
    proof {
        assert(node.attributes@.skip(0) =~= node.attributes@);
    }
    while i < node.attributes.len()
        invariant
            i <= node.attributes@.len(),
            attr(*node, name@) == attr_from(node.attributes@.skip(i as int), name@),
        decreases node.attributes@.len() - i,
    {
        proof {
            assert(node.attributes@.skip(i as int).drop_first() =~= node.attributes@.skip(i + 1));
        }
        if string_is(&node.attributes[i].0, name) {
            return Some(node.attributes[i].1.clone());
        }
        i += 1;
    }
    None
}

/// The children of element `i` tagged `tag`, in document order.
pub fn find_all(tree: &XmlTree, i: usize, tag: &str) -> (r: Vec<usize>)
    requires
        tree_ok(tree.nodes@),
        i < tree.nodes@.len(),
    ensures
        r@ == find_all_spec(tree.nodes@, i as int, tag@),
        forall|k: int| 0 <= k < r@.len() ==> #[trigger] r@[k] < tree.nodes@.len(),
{
    let node = &tree.nodes[i];
    let mut r: Vec<usize> = Vec::new();
    let mut j: usize = 0;
    while j < node.children.len()
        invariant
            tree_ok(tree.nodes@),
            i < tree.nodes@.len(),
            *node == tree.nodes@[i as int],
            j <= node.children@.len(),
            r@ == children_tagged(tree.nodes@, node.children@.take(j as int), tag@),
            forall|k: int| 0 <= k < r@.len() ==> #[trigger] r@[k] < tree.nodes@.len(),
        decreases node.children@.len() - j,
    {
        let c = node.children[j];
        assert(c < tree.nodes@.len());
        proof {
            assert(node.children@.take(j + 1).drop_last() =~= node.children@.take(j as int));
        }
        if string_is(&tree.nodes[c].tag, tag) {
            r.push(c);
        }
        j += 1;
    }
    proof {
        assert(node.children@.take(node.children@.len() as int) =~= node.children@);
    }
    r
}

/// The first child of element `i` tagged `tag`.
pub fn find(tree: &XmlTree, i: usize, tag: &str) -> (r: Option<usize>)
    requires
        tree_ok(tree.nodes@),
        i < tree.nodes@.len(),
    ensures
        r == find_spec(tree.nodes@, i as int, tag@),
        r is Some ==> r->0 < tree.nodes@.len(),
{
    let all = find_all(tree, i, tag);
    if all.len() > 0 {
        Some(all[0])
    } else {
        None
    }
}

} // verus!
