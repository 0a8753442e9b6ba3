//! The crate's own model of a project descriptor document: a tree of
//! elements, text payloads and other nodes. Parsing and serializing the
//! on-disk format is a collaborator's job; the relocation logic reads and
//! rewrites this tree.

use vstd::prelude::*;

verus! {

broadcast use
    vstd::std_specs::vec::axiom_vec_decreases_to_view,
    vstd::seq::axiom_seq_index_decreases,
    vstd::seq::axiom_seq_subrange_decreases,
;

/// One node of a document: an element, a text payload, or anything else
/// (comments, processing instructions) that the tool carries through
/// untouched.
pub enum XmlNode {
    Element(XmlElement),
    Text(String),
    Other,
}

/// An element: a name, its attributes in document order, and its children in
/// document order.
pub struct XmlElement {
    pub name: String,
    pub attributes: Vec<(String, String)>,
    pub children: Vec<XmlNode>,
}

/// The mathematical shape of a node.
#[verifier::ext_equal]
pub enum XmlNodeV {
    Element(XmlElementV),
    Text(Seq<char>),
    Other,
}

#[verifier::ext_equal]
pub struct XmlElementV {
    pub name: Seq<char>,
    pub attributes: Seq<(Seq<char>, Seq<char>)>,
    pub children: Seq<XmlNodeV>,
}

/// The attribute list as pairs of character sequences.
pub open spec fn attrs_view(attrs: Seq<(String, String)>) -> Seq<(Seq<char>, Seq<char>)> {
    Seq::new(attrs.len(), |i: int| (attrs[i].0@, attrs[i].1@))
}

pub open spec fn node_view(n: XmlNode) -> XmlNodeV
    decreases n,
{
    match n {
        XmlNode::Element(e) => XmlNodeV::Element(
            XmlElementV {
                name: e.name@,
                attributes: attrs_view(e.attributes@),
                children: nodes_view(e.children@),
            },
        ),
        XmlNode::Text(t) => XmlNodeV::Text(t@),
        XmlNode::Other => XmlNodeV::Other,
    }
}

pub open spec fn nodes_view(ns: Seq<XmlNode>) -> Seq<XmlNodeV>
    decreases ns,
{
    if ns.len() == 0 {
        Seq::empty()
    } else {
        seq![node_view(ns[0])] + nodes_view(ns.drop_first())
    }
}

impl View for XmlNode {
    type V = XmlNodeV;

    open spec fn view(&self) -> XmlNodeV {
        node_view(*self)
    }
}

impl View for XmlElement {
    type V = XmlElementV;

    open spec fn view(&self) -> XmlElementV {
        XmlElementV {
            name: self.name@,
            attributes: attrs_view(self.attributes@),
            children: nodes_view(self.children@),
        }
    }
}

pub proof fn lemma_nodes_view_index(ns: Seq<XmlNode>)
    ensures
        nodes_view(ns).len() == ns.len(),
        forall|i: int| 0 <= i < ns.len() ==> nodes_view(ns)[i] == node_view(ns[i]),
    decreases ns.len(),
{
    if ns.len() > 0 {
        lemma_nodes_view_index(ns.drop_first());
    }
}

/// Updating one node of a list updates exactly that slot of the view.
pub proof fn lemma_nodes_view_update(ns: Seq<XmlNode>, i: int, x: XmlNode)
    requires
        0 <= i < ns.len(),
    ensures
        nodes_view(ns.update(i, x)) == nodes_view(ns).update(i, node_view(x)),
{
    lemma_nodes_view_index(ns);
    lemma_nodes_view_index(ns.update(i, x));
    assert(nodes_view(ns.update(i, x)) =~= nodes_view(ns).update(i, node_view(x)));
}

pub proof fn lemma_nodes_view_push(ns: Seq<XmlNode>, x: XmlNode)
    ensures
        nodes_view(ns.push(x)) == nodes_view(ns).push(node_view(x)),
{
    lemma_nodes_view_index(ns);
    lemma_nodes_view_index(ns.push(x));
    assert(nodes_view(ns.push(x)) =~= nodes_view(ns).push(node_view(x)));
}

} // verus!
