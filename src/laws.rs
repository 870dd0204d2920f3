use vstd::prelude::*;

use crate::attrs::{add_fragment, attrs_from, has_key, put_attr, unique_keys, Attrs};
use crate::chars::{has_content, is_ws, trim, trim_start, words};
use crate::tokenizer::{scan, tokens_of};
use crate::parser::{
    add_child, build_state, build_step, build_tree, is_closing, is_tag, leaf, open_kind,
    parse_tree, root_tree, Kind, Tree,
};

verus! {

/// The number of nodes of `t`, itself included.
pub open spec fn size(t: Tree) -> nat
    decreases t,
{
    1 + sizes(t.children)
}

/// The number of nodes of the trees of `s`, summed.
pub open spec fn sizes(s: Seq<Tree>) -> nat
    decreases s,
{
    if s.len() == 0 {
        0
    } else {
        sizes(s.subrange(0, s.len() - 1)) + size(s[s.len() - 1])
    }
}

/// Whether `t` is an opening tag.
pub open spec fn is_opening(t: Seq<char>) -> bool {
    is_tag(t) && !is_closing(t)
}

/// The number of opening tags among `toks`.
pub open spec fn count_open(toks: Seq<Seq<char>>) -> nat
    decreases toks.len(),
{
    if toks.len() == 0 {
        0
    } else {
        count_open(toks.drop_last()) + if is_opening(toks.last()) { 1nat } else { 0nat }
    }
}

/// The number of text tokens among `toks`.
pub open spec fn count_text(toks: Seq<Seq<char>>) -> nat
    decreases toks.len(),
{
    if toks.len() == 0 {
        0
    } else {
        count_text(toks.drop_last()) + if !is_tag(toks.last()) { 1nat } else { 0nat }
    }
}

/// Opening tags minus closing tags in `toks`.
pub open spec fn depth(toks: Seq<Seq<char>>) -> int
    decreases toks.len(),
{
    if toks.len() == 0 {
        0
    } else {
        let t = toks.last();
        depth(toks.drop_last()) + if is_opening(t) { 1int } else if is_tag(t) { -1int } else { 0int }
    }
}

/// Every closing tag of `toks` closes an open one, and every text token
/// stands inside some open element.
pub open spec fn nested(toks: Seq<Seq<char>>) -> bool
    decreases toks.len(),
{
    if toks.len() == 0 {
        true
    } else {
        nested(toks.drop_last()) && (is_opening(toks.last()) || depth(toks.drop_last()) > 0)
    }
}

/// `toks` are balanced tag pairs with text only inside them.
pub open spec fn balanced(toks: Seq<Seq<char>>) -> bool {
    nested(toks) && depth(toks) == 0
}

proof fn lemma_sizes_push(s: Seq<Tree>, x: Tree)
    ensures
        sizes(s.push(x)) == sizes(s) + size(x),
{
    assert(s.push(x).subrange(0, s.len() as int) =~= s);
}

proof fn lemma_sizes_last(s: Seq<Tree>)
    requires
        s.len() > 0,
    ensures
        sizes(s) == sizes(s.drop_last()) + size(s.last()),
{
    assert(s.subrange(0, s.len() - 1) =~= s.drop_last());
}

proof fn lemma_sizes_update_last(s: Seq<Tree>, y: Tree)
    requires
        s.len() > 0,
    ensures
        sizes(s.update(s.len() - 1, y)) + size(s.last()) == sizes(s) + size(y),
{
    let u = s.update(s.len() - 1, y);
    assert(u.subrange(0, u.len() - 1) =~= s.subrange(0, s.len() - 1));
}

proof fn lemma_add_child_size(t: Tree, c: Tree)
    ensures
        size(add_child(t, c)) == size(t) + size(c),
{
    lemma_sizes_push(t.children, c);
}

proof fn lemma_count_prefix(toks: Seq<Seq<char>>)
    requires
        nested(toks),
    ensures
        build_state(toks).0.len() == depth(toks),
        sizes(build_state(toks).0) + sizes(build_state(toks).1) == count_open(toks) + count_text(toks),
    decreases toks.len(),
{
    if toks.len() > 0 {
        let prev = toks.drop_last();
        lemma_count_prefix(prev);
        let (stack, roots) = build_state(prev);
        let t = toks.last();
        assert(build_state(toks) == build_step(build_state(prev), t));
        if is_tag(t) && is_closing(t) {
            let done = stack.last();
            let rest = stack.drop_last();
            lemma_sizes_last(stack);
            if rest.len() > 0 {
                lemma_sizes_update_last(rest, add_child(rest.last(), done));
                lemma_add_child_size(rest.last(), done);
            } else {
                lemma_sizes_push(roots, done);
            }
        } else if is_tag(t) {
            lemma_sizes_push(stack, leaf(open_kind(t)));
            assert(sizes(seq![]) == 0);
        } else {
            let c = leaf(Kind::Text { value: trim(t) });
            lemma_sizes_update_last(stack, add_child(stack.last(), c));
            lemma_add_child_size(stack.last(), c);
            assert(sizes(c.children) == 0);
        }
    }
}

/// For balanced tag pairs with text only inside them, the tree holds one
/// node below the root for each opening tag and each text token.
pub proof fn lemma_node_count(toks: Seq<Seq<char>>)
    requires
        balanced(toks),
    ensures
        sizes(build_tree(toks).children) == count_open(toks) + count_text(toks),
{
    lemma_count_prefix(toks);
    assert(sizes(build_state(toks).0) == 0);
}

proof fn lemma_scan_content(s: Seq<char>)
    ensures
        forall|i: int| 0 <= i < scan(s).1.len() ==> has_content(#[trigger] scan(s).1[i]),
    decreases s.len(),
{
    if s.len() > 0 {
        lemma_scan_content(s.drop_last());
        let (acc, toks) = scan(s.drop_last());
        let c = s.last();
        if c == '>' {
            let t = acc.push('>');
            assert(!is_ws(t[t.len() - 1]));
        }
        assert forall|i: int| 0 <= i < scan(s).1.len() implies has_content(#[trigger] scan(s).1[i]) by {
            if i < toks.len() {
                assert(scan(s).1[i] == toks[i]);
            }
        }
    }
}

/// For markup whose tokens are balanced tag pairs with text only inside
/// them, the tree holds one node below the root for each opening tag and
/// each text token; every token holds a character other than white space,
/// so each text token is a segment that is not white space alone.
pub proof fn lemma_parse_node_count(s: Seq<char>)
    requires
        balanced(tokens_of(s)),
    ensures
        sizes(parse_tree(s).children) == count_open(tokens_of(s)) + count_text(tokens_of(s)),
        forall|i: int| 0 <= i < tokens_of(s).len() ==> has_content(#[trigger] tokens_of(s)[i]),
{
    lemma_node_count(tokens_of(s));
    lemma_scan_content(s);
}

proof fn lemma_no_closing_prefix(toks: Seq<Seq<char>>)
    requires
        forall|i: int| 0 <= i < toks.len() ==> !(is_tag(#[trigger] toks[i]) && is_closing(toks[i])),
    ensures
        build_state(toks).1.len() == 0,
    decreases toks.len(),
{
    if toks.len() > 0 {
        let prev = toks.drop_last();
        assert forall|i: int| 0 <= i < prev.len() implies !(is_tag(#[trigger] prev[i]) && is_closing(prev[i])) by {
            assert(prev[i] == toks[i]);
        }
        lemma_no_closing_prefix(prev);
        assert(toks.last() == toks[toks.len() - 1]);
    }
}

/// Without a closing tag no element is ever completed, so the root has no
/// children, whatever the other tokens hold.
pub proof fn lemma_unclosed_elements_dropped(toks: Seq<Seq<char>>)
    requires
        forall|i: int| 0 <= i < toks.len() ==> !(is_tag(#[trigger] toks[i]) && is_closing(toks[i])),
    ensures
        build_tree(toks).children.len() == 0,
{
    lemma_no_closing_prefix(toks);
}

proof fn lemma_trim_start_blank(s: Seq<char>)
    requires
        !has_content(s),
    ensures
        trim_start(s).len() == 0,
    decreases s.len(),
{
    if s.len() > 0 {
        assert(is_ws(s[0]));
        assert forall|i: int| 0 <= i < s.drop_first().len() implies is_ws(#[trigger] s.drop_first()[i]) by {
            assert(s.drop_first()[i] == s[i + 1]);
        }
        lemma_trim_start_blank(s.drop_first());
    }
}

/// A text token of white space alone, between an opening tag and a closing
/// tag, becomes a text child with the empty value.
pub proof fn lemma_blank_text_is_empty(open: Seq<char>, text: Seq<char>, close: Seq<char>)
    requires
        is_opening(open),
        !has_content(text),
        is_tag(close),
        is_closing(close),
    ensures
        build_tree(seq![open, text, close]) == root_tree(
            seq![add_child(leaf(open_kind(open)), leaf(Kind::Text { value: seq![] }))],
        ),
{
    lemma_trim_start_blank(text);
    assert(trim(text) =~= seq![]);
    if text.len() > 0 {
        assert(is_ws(text[0]));
    }
    let toks = seq![open, text, close];
    assert(toks.drop_last().drop_last().drop_last() =~= seq![]);
    assert(toks.drop_last().drop_last() =~= seq![open]);
    assert(toks.drop_last() =~= seq![open, text]);
    assert(build_state(seq![open]) == build_step(build_state(seq![]), open));
    assert(build_state(seq![open, text]) == build_step(build_state(seq![open]), text));
    assert(build_state(toks).0 =~= seq![]);
    assert(build_state(toks).1 =~= seq![add_child(leaf(open_kind(open)), leaf(Kind::Text { value: seq![] }))]);
}


/// A well-formed tree: text nodes have no children, and no element has a
/// key twice among its attributes.
pub open spec fn wf(t: Tree) -> bool
    decreases t,
{
    match t.kind {
        Kind::Text { .. } => t.children.len() == 0,
        Kind::Element { attrs, .. } => {
            &&& unique_keys(attrs)
            &&& forall|i: int| 0 <= i < t.children.len() ==> wf(#[trigger] t.children[i])
        },
    }
}

/// Every tree of `s` is well formed.
pub open spec fn all_wf(s: Seq<Tree>) -> bool {
    forall|i: int| 0 <= i < s.len() ==> wf(#[trigger] s[i])
}

proof fn lemma_put_attr_unique(a: Attrs, k: Seq<char>, v: Seq<char>)
    requires
        unique_keys(a),
    ensures
        unique_keys(put_attr(a, k, v)),
{
    let r = put_attr(a, k, v);
    if has_key(a, k) {
        let c = choose|i: int| 0 <= i < a.len() && #[trigger] a[i].0 == k;
        assert forall|i: int, j: int| 0 <= i < j < r.len() implies #[trigger] r[i].0 != #[trigger] r[j].0 by {
            if i == c {
                assert(a[c].0 != a[j].0);
            } else if j == c {
                assert(a[i].0 != a[c].0);
            } else {
                assert(a[i].0 != a[j].0);
            }
        }
    } else {
        assert forall|i: int, j: int| 0 <= i < j < r.len() implies #[trigger] r[i].0 != #[trigger] r[j].0 by {
            if j == a.len() {
                assert(r[i].0 == a[i].0);
            } else {
                assert(a[i].0 != a[j].0);
            }
        }
    }
}

proof fn lemma_attrs_from_unique(ps: Seq<Seq<char>>)
    ensures
        unique_keys(attrs_from(ps)),
    decreases ps.len(),
{
    if ps.len() > 0 {
        lemma_attrs_from_unique(ps.drop_last());
        let p = ps.last();
        if crate::attrs::has_eq(p) {
            let e = choose|e: int| crate::attrs::first_eq(p, e);
            lemma_put_attr_unique(
                attrs_from(ps.drop_last()),
                p.subrange(0, e),
                crate::attrs::unquote(p.subrange(e + 1, p.len() as int)),
            );
        }
        assert(attrs_from(ps) == add_fragment(attrs_from(ps.drop_last()), p));
    }
}

proof fn lemma_add_child_wf(t: Tree, c: Tree)
    requires
        wf(t),
        wf(c),
        t.kind is Element,
    ensures
        wf(add_child(t, c)),
{
    let r = add_child(t, c);
    assert forall|i: int| 0 <= i < r.children.len() implies wf(#[trigger] r.children[i]) by {
        if i < t.children.len() {
            assert(r.children[i] == t.children[i]);
        }
    }
}

proof fn lemma_build_state_wf(toks: Seq<Seq<char>>)
    ensures
        all_wf(build_state(toks).0),
        all_wf(build_state(toks).1),
        forall|i: int| 0 <= i < build_state(toks).0.len() ==> (#[trigger] build_state(toks).0[i]).kind is Element,
    decreases toks.len(),
{
    if toks.len() > 0 {
        let prev = toks.drop_last();
        lemma_build_state_wf(prev);
        let (stack, roots) = build_state(prev);
        let t = toks.last();
        assert(build_state(toks) == build_step(build_state(prev), t));
        let (ns, nr) = build_state(toks);
        if is_tag(t) && is_closing(t) {
            if stack.len() > 0 {
                let done = stack.last();
                let rest = stack.drop_last();
                if rest.len() > 0 {
                    lemma_add_child_wf(rest.last(), done);
                }
                assert forall|i: int| 0 <= i < ns.len() implies wf(#[trigger] ns[i]) && ns[i].kind is Element by {
                    if i < ns.len() - 1 {
                        assert(ns[i] == stack[i]);
                    }
                }
                assert forall|i: int| 0 <= i < nr.len() implies wf(#[trigger] nr[i]) by {
                    if i < roots.len() {
                        assert(nr[i] == roots[i]);
                    }
                }
            }
        } else if is_tag(t) {
            let parts = words(t.subrange(1, t.len() - 1));
            if parts.len() > 0 {
                lemma_attrs_from_unique(parts.drop_first());
            }
            let l = leaf(open_kind(t));
            assert(wf(l));
            assert forall|i: int| 0 <= i < ns.len() implies wf(#[trigger] ns[i]) && ns[i].kind is Element by {
                if i < stack.len() {
                    assert(ns[i] == stack[i]);
                }
            }
        } else if stack.len() > 0 {
            let c = leaf(Kind::Text { value: trim(t) });
            assert(wf(c));
            lemma_add_child_wf(stack.last(), c);
            assert forall|i: int| 0 <= i < ns.len() implies wf(#[trigger] ns[i]) && ns[i].kind is Element by {
                if i < stack.len() - 1 {
                    assert(ns[i] == stack[i]);
                }
            }
        }
    }
}

/// Every tree that the builder returns is well formed.
pub proof fn lemma_build_wf(toks: Seq<Seq<char>>)
    ensures
        wf(build_tree(toks)),
{
    lemma_build_state_wf(toks);
    assert(unique_keys(seq![]));
}

} // verus!
