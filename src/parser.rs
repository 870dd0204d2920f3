use vstd::prelude::*;

use crate::attrs::{attr_views, attrs_from, parse_attributes, Attrs};
use crate::chars::{chars_of, slice_chars, split_words, string_of, trim, trim_chars, words};
use crate::laws::{lemma_build_wf, wf};
use crate::tokenizer::{string_views, tokenizer, tokens_of};

verus! {

/// A text node's payload.
#[derive(Debug, PartialEq)]
pub struct Text {
    pub value: String,
}

/// An element's name and attributes, in order of first appearance; each
/// attribute key occurs once.
#[derive(Debug, PartialEq)]
pub struct Element {
    pub tag_name: String,
    pub attributes: Vec<(String, String)>,
}

/// What a node is: text or an element.
#[derive(Debug, PartialEq)]
pub enum NodeType {
    Text(Text),
    Element(Element),
}

/// A node of the parsed tree, owning its children in document order.
#[derive(Debug, PartialEq)]
pub struct Node {
    pub node_type: NodeType,
    pub children: Vec<Node>,
}

/// The mathematical form of a node's kind.
pub enum Kind {
    Text { value: Seq<char> },
    Element { tag: Seq<char>, attrs: Attrs },
}

/// The mathematical form of a node.
#[verifier::ext_equal]
pub struct Tree {
    pub kind: Kind,
    pub children: Seq<Tree>,
}

impl NodeType {
    /// The mathematical form of this kind.
    pub open spec fn kind(&self) -> Kind {
        match self {
            NodeType::Text(t) => Kind::Text { value: t.value@ },
            NodeType::Element(e) => Kind::Element {
                tag: e.tag_name@,
                attrs: attr_views(e.attributes@),
            },
        }
    }
}

impl Node {
    /// The tree that this node stands for.
    pub open spec fn tree(&self) -> Tree
        decreases self,
    {
        Tree {
            kind: self.node_type.kind(),
            children: Seq::new(
                self.children@.len(),
                |i: int|
                    if 0 <= i < self.children@.len() {
                        self.children@[i].tree()
                    } else {
                        Tree { kind: Kind::Text { value: seq![] }, children: seq![] }
                    },
            ),
        }
    }
}

/// The trees of a list of nodes.
pub open spec fn trees(s: Seq<Node>) -> Seq<Tree> {
    s.map_values(|n: Node| n.tree())
}

/// `n` with `c` added as its last child.
pub open spec fn add_child(n: Tree, c: Tree) -> Tree {
    Tree { kind: n.kind, children: n.children.push(c) }
}

/// A tree without children.
pub open spec fn leaf(k: Kind) -> Tree {
    Tree { kind: k, children: seq![] }
}

/// Whether token `t` is a tag: it starts with `<` and ends with `>`.
pub open spec fn is_tag(t: Seq<char>) -> bool {
    t.len() > 0 && t[0] == '<' && t.last() == '>'
}

/// Whether token `t` starts with `</`.
pub open spec fn is_closing(t: Seq<char>) -> bool {
    t.len() >= 2 && t[0] == '<' && t[1] == '/'
}

/// The element that an opening tag `t` stands for: the text between the
/// brackets split on white space, the first word its name (empty where
/// there is none), the other words its attribute fragments.
pub open spec fn open_kind(t: Seq<char>) -> Kind {
    let parts = words(t.subrange(1, t.len() - 1));
    if parts.len() > 0 {
        Kind::Element { tag: parts[0], attrs: attrs_from(parts.drop_first()) }
    } else {
        Kind::Element { tag: seq![], attrs: seq![] }
    }
}

/// One token of the build: the stack of open elements and the completed
/// top-level nodes, before and after token `t`.
pub open spec fn build_step(st: (Seq<Tree>, Seq<Tree>), t: Seq<char>) -> (Seq<Tree>, Seq<Tree>) {
    let (stack, roots) = st;
    if is_tag(t) && is_closing(t) {
        if stack.len() == 0 {
            st
        } else {
            let done = stack.last();
            let rest = stack.drop_last();
            if rest.len() > 0 {
                (rest.update(rest.len() - 1, add_child(rest.last(), done)), roots)
            } else {
                (rest, roots.push(done))
            }
        }
    } else if is_tag(t) {
        (stack.push(leaf(open_kind(t))), roots)
    } else if stack.len() > 0 {
        (stack.update(stack.len() - 1, add_child(stack.last(), leaf(Kind::Text { value: trim(t) }))), roots)
    } else {
        st
    }
}

/// The build state after all of `toks`.
pub open spec fn build_state(toks: Seq<Seq<char>>) -> (Seq<Tree>, Seq<Tree>)
    decreases toks.len(),
{
    if toks.len() == 0 {
        (seq![], seq![])
    } else {
        build_step(build_state(toks.drop_last()), toks.last())
    }
}

/// The root: an element named `root`, without attributes, whose children
/// are the completed top-level nodes.
pub open spec fn root_tree(roots: Seq<Tree>) -> Tree {
    Tree { kind: Kind::Element { tag: "root"@, attrs: seq![] }, children: roots }
}

/// The tree that tokens `toks` build; elements still open at the end are left out.
pub open spec fn build_tree(toks: Seq<Seq<char>>) -> Tree {
    root_tree(build_state(toks).1)
}

/// The tree of markup `s`.
pub open spec fn parse_tree(s: Seq<char>) -> Tree {
    build_tree(tokens_of(s))
}

/// The element node, without children, of opening tag `t`.
pub fn open_element(t: &Vec<char>) -> (r: Node)
    requires
        is_tag(t@),
    ensures
        r.tree() == leaf(open_kind(t@)),
{
    let content = slice_chars(t, 1, t.len() - 1);
    let parts = split_words(&content);
    let ghost ws = parts@.map_values(|w: Vec<char>| w@);
    let tag_name = if parts.len() > 0 { string_of(&parts[0]) } else { String::new() };
    let attributes = if parts.len() > 0 { parse_attributes(&parts, 1) } else { Vec::new() };
    let r = Node { node_type: NodeType::Element(Element { tag_name, attributes }), children: Vec::new() };
    proof {
        if parts@.len() > 0 {
            assert(ws.subrange(1, ws.len() as int) =~= ws.drop_first());
        } else {
            assert(attr_views(r.node_type->Element_0.attributes@) =~= seq![]);
        }
    }
    assert(words(t@.subrange(1, t@.len() - 1)) == ws);
    if parts.len() > 0 {
        assert(ws[0] == parts@[0]@);
    }
    assert(r.node_type.kind() == open_kind(t@));
    assert(r.tree().children =~= seq![]);
    r
}

/// Appends `c` as the last child of the node on top of `stack`.
fn push_child(stack: &mut Vec<Node>, c: Node)
    requires
        old(stack)@.len() > 0,
    ensures
        trees(final(stack)@) == trees(old(stack)@).update(
            old(stack)@.len() - 1,
            add_child(trees(old(stack)@).last(), c.tree()),
        ),
{
    let ghost before = trees(stack@);
    let ghost ct = c.tree();
    let mut top = stack.pop().unwrap();
    let ghost old_top = top.tree();
    top.children.push(c);
    assert(top.tree().children =~= old_top.children.push(ct));
    assert(top.tree() =~= add_child(old_top, ct));
    stack.push(top);
    assert(trees(stack@) =~= before.update(before.len() - 1, add_child(before.last(), ct)));
}

/// Builds the tree of a token list: closing tags complete the innermost
/// open element, opening tags open one, text goes trimmed into the
/// innermost open element. Unmatched closing tags and text outside any
/// element are ignored; elements left open at the end are dropped.
pub fn build(tokens: &Vec<String>) -> (root: Node)
    ensures
        root.tree() == build_tree(string_views(tokens@)),
        wf(root.tree()),
{
    let ghost toks = string_views(tokens@);
    let mut stack: Vec<Node> = Vec::new();
    let mut children: Vec<Node> = Vec::new();
    let mut i: usize = 0;
    assert(trees(stack@) =~= seq![]);
    assert(trees(children@) =~= seq![]);
    while i < tokens.len()
        invariant
            i <= tokens@.len(),
            toks == string_views(tokens@),
            (trees(stack@), trees(children@)) == build_state(toks.subrange(0, i as int)),
        decreases tokens@.len() - i,
    {
        let ghost st = (trees(stack@), trees(children@));
        assert(toks.subrange(0, i + 1).drop_last() =~= toks.subrange(0, i as int));
        let t = chars_of(tokens[i].as_str());
        assert(t@ == toks[i as int]);
        let n = t.len();
        let tag = n > 0 && t[0] == '<' && t[n - 1] == '>';
        assert(tag == is_tag(t@));
        if tag && n >= 2 && t[1] == '/' {
            assert(is_closing(t@));
            if stack.len() > 0 {
                let done = stack.pop().unwrap();
                assert(trees(stack@) =~= st.0.drop_last());
                assert(done.tree() == st.0.last());
                if stack.len() > 0 {
                    push_child(&mut stack, done);
                } else {
                    children.push(done);
                    assert(trees(children@) =~= st.1.push(done.tree()));
                }
            }
        } else if tag {
            let e = open_element(&t);
            stack.push(e);
            assert(trees(stack@) =~= st.0.push(leaf(open_kind(t@))));
        } else if stack.len() > 0 {
            let value = string_of(&trim_chars(&t));
            let leaf_node = Node { node_type: NodeType::Text(Text { value }), children: Vec::new() };
            assert(leaf_node.tree().children =~= seq![]);
            assert(leaf_node.tree() == leaf(Kind::Text { value: trim(t@) }));
            push_child(&mut stack, leaf_node);
        }
        assert(trees(stack@) =~= build_state(toks.subrange(0, i + 1)).0);
        assert(trees(children@) =~= build_state(toks.subrange(0, i + 1)).1);
        i = i + 1;
    }
    assert(toks.subrange(0, toks.len() as int) =~= toks);
    let attributes: Vec<(String, String)> = Vec::new();
    assert(attr_views(attributes@) =~= seq![]);
    let root = Node {
        node_type: NodeType::Element(Element { tag_name: String::from_str("root"), attributes }),
        children,
    };
    assert(root.tree().children =~= trees(children@));
    assert(root.tree() =~= build_tree(toks));
    proof {
        lemma_build_wf(toks);
    }
    root
}

/// Parses markup into a tree rooted at an element named `root`.
pub fn parser(html_str: &str) -> (root: Node)
    ensures
        root.tree() == parse_tree(html_str@),
        wf(root.tree()),
{
    let tokens = tokenizer(html_str);
    build(&tokens)
}

} // verus!
