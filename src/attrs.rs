use vstd::prelude::*;

use crate::chars::{slice_chars, string_of};

verus! {

/// An attribute list as character sequences: (key, value) pairs.
pub type Attrs = Seq<(Seq<char>, Seq<char>)>;

/// No key occurs twice in `a`.
pub open spec fn unique_keys(a: Attrs) -> bool {
    forall|i: int, j: int| 0 <= i < j < a.len() ==> #[trigger] a[i].0 != #[trigger] a[j].0
}

/// Whether key `k` occurs in `a`.
pub open spec fn has_key(a: Attrs, k: Seq<char>) -> bool {
    exists|i: int| 0 <= i < a.len() && #[trigger] a[i].0 == k
}

/// `a` with key `k` bound to `v`: an existing binding of `k` is replaced in
/// place, else the pair goes at the end.
pub open spec fn put_attr(a: Attrs, k: Seq<char>, v: Seq<char>) -> Attrs {
    if has_key(a, k) {
        let i = choose|i: int| 0 <= i < a.len() && #[trigger] a[i].0 == k;
        a.update(i, (k, v))
    } else {
        a.push((k, v))
    }
}

/// `e` is the position of the first `=` in `p`.
pub open spec fn first_eq(p: Seq<char>, e: int) -> bool {
    &&& 0 <= e < p.len()
    &&& p[e] == '='
    &&& forall|j: int| 0 <= j < e ==> p[j] != '='
}

/// Whether `p` holds a `=`.
pub open spec fn has_eq(p: Seq<char>) -> bool {
    exists|e: int| 0 <= e < p.len() && p[e] == '='
}

/// `v` without one leading and one trailing double quote, each where present.
pub open spec fn unquote(v: Seq<char>) -> Seq<char> {
    let a = if v.len() > 0 && v[0] == '"' { v.drop_first() } else { v };
    if a.len() > 0 && a.last() == '"' { a.drop_last() } else { a }
}

/// `a` after reading the fragment `p`: `key=value` split at the first `=`,
/// the value unquoted; a fragment without `=` is ignored.
pub open spec fn add_fragment(a: Attrs, p: Seq<char>) -> Attrs {
    if has_eq(p) {
        let e = choose|e: int| first_eq(p, e);
        put_attr(a, p.subrange(0, e), unquote(p.subrange(e + 1, p.len() as int)))
    } else {
        a
    }
}

/// The attributes that the fragments `ps` give, read in order.
pub open spec fn attrs_from(ps: Seq<Seq<char>>) -> Attrs
    decreases ps.len(),
{
    if ps.len() == 0 {
        seq![]
    } else {
        add_fragment(attrs_from(ps.drop_last()), ps.last())
    }
}

/// The character sequences of a list of attribute pairs.
pub open spec fn attr_views(a: Seq<(String, String)>) -> Attrs {
    a.map_values(|p: (String, String)| (p.0@, p.1@))
}

/// The position of the first `=` in `p`, if any.
pub fn find_eq(p: &Vec<char>) -> (r: Option<usize>)
    ensures
        match r {
            Some(e) => first_eq(p@, e as int),
            None => !has_eq(p@),
        },
{
    let mut i: usize = 0;
    while i < p.len()
        invariant
            i <= p@.len(),
            forall|j: int| 0 <= j < i ==> p@[j] != '=',
        decreases p@.len() - i,
    {
        if p[i] == '=' {
            return Some(i);
        }
        i = i + 1;
    }
    None
}

/// `v` without one leading and one trailing double quote, each where present.
pub fn unquote_chars(v: &Vec<char>) -> (r: Vec<char>)
    ensures
        r@ == unquote(v@),
{
    let n = v.len();
    let a: usize = if n > 0 && v[0] == '"' { 1 } else { 0 };
    let b: usize = if n > a && v[n - 1] == '"' { n - 1 } else { n };
    let r = slice_chars(v, a, b);
    let ghost s = if v@.len() > 0 && v@[0] == '"' { v@.drop_first() } else { v@ };
    assert(s =~= v@.subrange(a as int, n as int));
    assert(r@ =~= unquote(v@));
    r
}

/// Binds `k` to `v` in `attrs`, replacing an existing binding of `k` in place.
pub fn put_attribute(attrs: &mut Vec<(String, String)>, k: String, v: String)
    requires
        unique_keys(attr_views(old(attrs)@)),
    ensures
        attr_views(final(attrs)@) == put_attr(attr_views(old(attrs)@), k@, v@),
        unique_keys(attr_views(final(attrs)@)),
{
    let ghost a = attr_views(attrs@);
    let mut i: usize = 0;
    while i < attrs.len()
        invariant
            i <= attrs@.len(),
            a == attr_views(attrs@),
            attrs@ == old(attrs)@,
            unique_keys(a),
            forall|j: int| 0 <= j < i ==> a[j].0 != k@,
        decreases attrs@.len() - i,
    {
        if attrs[i].0 == k {
            assert(a[i as int].0 == k@);
            assert(has_key(a, k@));
            let ghost c = choose|c: int| 0 <= c < a.len() && #[trigger] a[c].0 == k@;
            assert(c == i);
            attrs.set(i, (k, v));
            assert(attr_views(attrs@) =~= put_attr(a, k@, v@));
            return;
        }
        i = i + 1;
    }
    assert(!has_key(a, k@));
    attrs.push((k, v));
    assert(attr_views(attrs@) =~= put_attr(a, k@, v@));
}

/// Reads the fragment `p` into `attrs`, as `add_fragment` says.
pub fn add_attribute(attrs: &mut Vec<(String, String)>, p: &Vec<char>)
    requires
        unique_keys(attr_views(old(attrs)@)),
    ensures
        attr_views(final(attrs)@) == add_fragment(attr_views(old(attrs)@), p@),
        unique_keys(attr_views(final(attrs)@)),
{
    match find_eq(p) {
        Some(e) => {
            let n = p.len();
            assert(e < n);
            let key = string_of(&slice_chars(p, 0, e));
            let value = string_of(&unquote_chars(&slice_chars(p, e + 1, n)));
            assert(has_eq(p@));
            let ghost c = choose|c: int| first_eq(p@, c);
            assert(c == e);
            put_attribute(attrs, key, value);
        },
        None => {},
    }
}

/// The attributes that the fragments `ps` give, read in order.
pub fn parse_attributes(ps: &Vec<Vec<char>>, from: usize) -> (r: Vec<(String, String)>)
    requires
        from <= ps@.len(),
    ensures
        attr_views(r@) == attrs_from(
            ps@.map_values(|w: Vec<char>| w@).subrange(from as int, ps@.len() as int),
        ),
        unique_keys(attr_views(r@)),
{
    let ghost vs = ps@.map_values(|w: Vec<char>| w@);
    let mut r: Vec<(String, String)> = Vec::new();
    let mut i: usize = from;
    assert(attr_views(r@) =~= seq![]);
    assert(vs.subrange(from as int, from as int) =~= seq![]);
    while i < ps.len()
        invariant
            from <= i <= ps@.len(),
            vs == ps@.map_values(|w: Vec<char>| w@),
            attr_views(r@) == attrs_from(vs.subrange(from as int, i as int)),
            unique_keys(attr_views(r@)),
        decreases ps@.len() - i,
    {
        add_attribute(&mut r, &ps[i]);
        assert(vs.subrange(from as int, i + 1).drop_last() =~= vs.subrange(from as int, i as int));
        i = i + 1;
    }
    r
}

} // verus!
