//! The document tree and the pre-order collection of its class names.

use crate::unique::{first_occurrences, lemma_first_occurrences_members, unique};
use crate::css::{css_of, lemma_css_lines, lines_of, selector_line};
use vstd::prelude::*;

verus! {

/// A parsed document: its top-level nodes, in document order.
pub struct Document {
    pub children: Vec<NodeType>,
}

/// A node of the tree: an element, or a run of text.
pub enum NodeType {
    Element(Node),
    Text(String),
}

/// An element: its own class names and its child nodes, each of which may be
/// absent (absent reads as empty).
pub struct Node {
    pub children: Option<Vec<NodeType>>,
    pub classes: Option<Vec<String>>,
}

/// The character sequences held by a sequence of strings.
pub open spec fn strings_view(v: Seq<String>) -> Seq<Seq<char>> {
    v.map_values(|s: String| s@)
}

/// The class names that an element declares itself.
pub open spec fn own_classes(node: Node) -> Seq<Seq<char>> {
    match node.classes {
        Some(c) => strings_view(c@),
        None => Seq::empty(),
    }
}

/// Every class name on an element and its descendants, in pre-order: the
/// element's own classes first, then those of each child, left to right.
pub open spec fn classes_of_node(node: Node) -> Seq<Seq<char>>
    decreases node,
{
    match node.children {
        Some(c) => own_classes(node) + classes_of_nodes(c@),
        None => own_classes(node),
    }
}

/// The class names of a sequence of sibling nodes, each in pre-order, one
/// after the other. Text contributes nothing.
pub open spec fn classes_of_nodes(nodes: Seq<NodeType>) -> Seq<Seq<char>>
    decreases nodes,
{
    if nodes.len() == 0 {
        Seq::empty()
    } else {
        let rest = classes_of_nodes(nodes.drop_last());
        match nodes.last() {
            NodeType::Element(n) => rest + classes_of_node(n),
            NodeType::Text(_) => rest,
        }
    }
}

/// Appends the class names of `node` and its descendants, in pre-order.
fn push_node_classes(node: &Node, out: &mut Vec<String>)
    ensures
        strings_view(final(out)@) == strings_view(old(out)@) + classes_of_node(*node),
    decreases *node,
{
    let ghost start = strings_view(out@);
    if let Some(classes) = &node.classes {
        let mut i: usize = 0;
        while i < classes.len()
            invariant
                i <= classes.len(),
                strings_view(out@) == start + strings_view(classes@.take(i as int)),
            decreases classes.len() - i,
        {
            let ghost before = out@;
            out.push(classes[i].clone());
            assert(strings_view(out@) =~= strings_view(before).push(classes@[i as int]@));
            assert(classes@.take(i + 1) =~= classes@.take(i as int).push(classes@[i as int]));
            assert(strings_view(classes@.take(i + 1)) =~= strings_view(
                classes@.take(i as int),
            ).push(classes@[i as int]@));
            i += 1;
        }
        assert(classes@.take(classes.len() as int) =~= classes@);
    }
    assert(strings_view(out@) == start + own_classes(*node));
    if let Some(children) = &node.children {
        push_nodes_classes(children, out);
    }
}

/// Appends the class names of each node of `nodes` in turn, in pre-order.
fn push_nodes_classes(nodes: &Vec<NodeType>, out: &mut Vec<String>)
    ensures
        strings_view(final(out)@) == strings_view(old(out)@) + classes_of_nodes(nodes@),
    decreases nodes@,
{
    let ghost start = strings_view(out@);
    let mut i: usize = 0;
    while i < nodes.len()
        invariant
            i <= nodes.len(),
            strings_view(out@) == start + classes_of_nodes(nodes@.take(i as int)),
        decreases nodes.len() - i,
    {
        assert(nodes@.take(i + 1).drop_last() =~= nodes@.take(i as int));
        match &nodes[i] {
            NodeType::Element(n) => {
                assert(decreases_to!(nodes@ => nodes@[i as int]));
                push_node_classes(n, out);
            },
            NodeType::Text(_) => {},
        }
        i += 1;
    }
    assert(nodes@.take(nodes.len() as int) =~= nodes@);
}

/// Every class name on `node` and, recursively, on its descendant elements,
/// in pre-order, duplicates kept.
pub fn get_classnames_from_node(node: Node) -> (r: Vec<String>)
    ensures
        strings_view(r@) == classes_of_node(node),
{
    let mut classnames: Vec<String> = Vec::new();
    push_node_classes(&node, &mut classnames);
    assert(strings_view(Seq::<String>::empty()) =~= Seq::<Seq<char>>::empty());
    classnames
}

/// Whether `node` itself, or an element below it reached through elements,
/// declares the class name `c`.
pub open spec fn carries_class(node: Node, c: Seq<char>) -> bool
    decreases node,
{
    own_classes(node).contains(c) || match node.children {
        Some(ch) => any_carries_class(ch@, c),
        None => false,
    }
}

/// Whether some element of `nodes`, or an element below one of them,
/// declares the class name `c`.
pub open spec fn any_carries_class(nodes: Seq<NodeType>, c: Seq<char>) -> bool
    decreases nodes,
{
    exists|i: int|
        #![trigger nodes[i]]
        0 <= i < nodes.len() && match nodes[i] {
            NodeType::Element(n) => carries_class(n, c),
            NodeType::Text(_) => false,
        }
}

proof fn lemma_concat_contains(a: Seq<Seq<char>>, b: Seq<Seq<char>>, c: Seq<char>)
    ensures
        (a + b).contains(c) <==> a.contains(c) || b.contains(c),
{
    if (a + b).contains(c) {
        let k = choose|k: int| 0 <= k < (a + b).len() && (a + b)[k] == c;
        if k < a.len() {
            assert(a[k] == c);
        } else {
            assert(b[k - a.len()] == c);
        }
    }
    if a.contains(c) {
        let k = choose|k: int| 0 <= k < a.len() && a[k] == c;
        assert((a + b)[k] == c);
    }
    if b.contains(c) {
        let k = choose|k: int| 0 <= k < b.len() && b[k] == c;
        assert((a + b)[k + a.len()] == c);
    }
}

/// The pre-order sequence of an element's classes holds `c` exactly when an
/// element of its subtree declares `c`.
pub proof fn lemma_node_classes_carried(node: Node, c: Seq<char>)
    ensures
        classes_of_node(node).contains(c) <==> carries_class(node, c),
    decreases node,
{
    if let Some(ch) = node.children {
        lemma_concat_contains(own_classes(node), classes_of_nodes(ch@), c);
        lemma_nodes_classes_carried(ch@, c);
    }
}

/// The classes of a sequence of siblings hold `c` exactly when an element of
/// one of their subtrees declares `c`.
pub proof fn lemma_nodes_classes_carried(nodes: Seq<NodeType>, c: Seq<char>)
    ensures
        classes_of_nodes(nodes).contains(c) <==> any_carries_class(nodes, c),
    decreases nodes,
{
    if nodes.len() > 0 {
        let t = nodes.drop_last();
        let last = nodes.len() - 1;
        lemma_nodes_classes_carried(t, c);
        assert(any_carries_class(nodes, c) <==> any_carries_class(t, c) || match nodes[last] {
            NodeType::Element(n) => carries_class(n, c),
            NodeType::Text(_) => false,
        }) by {
            if any_carries_class(nodes, c) {
                let i = choose|i: int|
                    #![trigger nodes[i]]
                    0 <= i < nodes.len() && match nodes[i] {
                        NodeType::Element(n) => carries_class(n, c),
                        NodeType::Text(_) => false,
                    };
                if i < last {
                    assert(t[i] == nodes[i]);
                }
            }
            if any_carries_class(t, c) {
                let i = choose|i: int|
                    #![trigger t[i]]
                    0 <= i < t.len() && match t[i] {
                        NodeType::Element(n) => carries_class(n, c),
                        NodeType::Text(_) => false,
                    };
                assert(nodes[i] == t[i]);
            }
        }
        if let NodeType::Element(n) = nodes[last] {
            assert(decreases_to!(nodes => nodes[last]));
            lemma_node_classes_carried(n, c);
            lemma_concat_contains(classes_of_nodes(t), classes_of_node(n), c);
        }
    }
}

/// Every class name of the document, in pre-order over its top-level nodes.
pub open spec fn classes_of_document(document: Document) -> Seq<Seq<char>> {
    classes_of_nodes(document.children@)
}

/// The class names of the document that a stylesheet gets a rule for: the
/// first occurrence of each, in pre-order.
pub fn get_all_classnames(document: Document) -> (r: Vec<String>)
    ensures
        strings_view(r@) == first_occurrences(classes_of_document(document)),
{
    let mut classnames: Vec<String> = Vec::new();
    push_nodes_classes(&document.children, &mut classnames);
    assert(strings_view(Seq::<String>::empty()) =~= Seq::<Seq<char>>::empty());
    unique(classnames)
}

/// A class name gets a rule exactly when some element of the document,
/// reached through elements, declares it (stated both over the pre-order
/// sequence and over the tree), and no class name gets two.
pub proof fn lemma_document_rules(document: Document)
    ensures
        forall|c: Seq<char>|
            first_occurrences(classes_of_document(document)).contains(c) <==> any_carries_class(
                document.children@,
                c,
            ),
        forall|c: Seq<char>|
            first_occurrences(classes_of_document(document)).contains(c)
                <==> classes_of_document(document).contains(c),
        first_occurrences(classes_of_document(document)).no_duplicates(),
{
    lemma_first_occurrences_members(classes_of_document(document));
    assert forall|c: Seq<char>|
        first_occurrences(classes_of_document(document)).contains(c) <==> any_carries_class(
            document.children@,
            c,
        ) by {
        lemma_nodes_classes_carried(document.children@, c);
        assert(first_occurrences(classes_of_document(document)).contains(c)
            <==> classes_of_document(document).contains(c));
    }
}

/// Read line by line, the document's stylesheet has a selector line `.c {`
/// exactly for the class names `c` that some element of the document
/// declares, and has at most one such line for each, provided no class name
/// holds a line break.
pub proof fn lemma_document_css_lines(document: Document)
    requires
        forall|c: Seq<char>| #[trigger]
            classes_of_document(document).contains(c) ==> !c.contains('\n'),
    ensures
        forall|c: Seq<char>|
            (exists|k: int|
                0 <= k < lines_of(css_of(first_occurrences(classes_of_document(document)))).len()
                    && lines_of(css_of(first_occurrences(classes_of_document(document))))[k]
                    == selector_line(c)) <==> any_carries_class(document.children@, c),
        forall|c: Seq<char>, k1: int, k2: int|
            0 <= k1 < lines_of(css_of(first_occurrences(classes_of_document(document)))).len()
                && 0 <= k2 < lines_of(
                css_of(first_occurrences(classes_of_document(document))),
            ).len() && lines_of(css_of(first_occurrences(classes_of_document(document))))[k1]
                == selector_line(c) && lines_of(
                css_of(first_occurrences(classes_of_document(document))),
            )[k2] == selector_line(c) ==> k1 == k2,
{
    let names = first_occurrences(classes_of_document(document));
    lemma_document_rules(document);
    assert forall|i: int| 0 <= i < names.len() implies !(#[trigger] names[i]).contains('\n') by {
        assert(names.contains(names[i]));
        assert(classes_of_document(document).contains(names[i]));
    }
    lemma_css_lines(names);
}

} // verus!
