use vstd::prelude::*;

use crate::chars::{chars_of, has_content, has_non_whitespace, string_of};

verus! {

/// One character of the scan: the text being gathered and the tokens
/// emitted so far, before and after `c`.
pub open spec fn scan_step(st: (Seq<char>, Seq<Seq<char>>), c: char) -> (Seq<char>, Seq<Seq<char>>) {
    let (acc, toks) = st;
    if c == '<' {
        (seq!['<'], if has_content(acc) { toks.push(acc) } else { toks })
    } else if c == '>' {
        (seq![], toks.push(acc.push('>')))
    } else {
        (acc.push(c), toks)
    }
}

/// The scanning state after all of `s`.
pub open spec fn scan(s: Seq<char>) -> (Seq<char>, Seq<Seq<char>>)
    decreases s.len(),
{
    if s.len() == 0 {
        (seq![], seq![])
    } else {
        scan_step(scan(s.drop_last()), s.last())
    }
}

/// The tokens of markup `s`: each `>` closes a tag token, each `<` flushes
/// the gathered text as a text token when it is not all white space, and
/// text that no `<` or `>` follows is dropped.
pub open spec fn tokens_of(s: Seq<char>) -> Seq<Seq<char>> {
    scan(s).1
}

/// The character sequences of a list of strings.
pub open spec fn string_views(v: Seq<String>) -> Seq<Seq<char>> {
    v.map_values(|t: String| t@)
}

/// Splits markup into tag tokens (`<` up to and including `>`) and text tokens.
pub fn tokenizer(html_str: &str) -> (tokens: Vec<String>)
    ensures
        string_views(tokens@) == tokens_of(html_str@),
{
    let cs = chars_of(html_str);
    let mut token: Vec<char> = Vec::new();
    let mut tokens: Vec<String> = Vec::new();
    let mut i: usize = 0;
    while i < cs.len()
        invariant
            i <= cs@.len(),
            cs@ == html_str@,
            (token@, string_views(tokens@)) == scan(cs@.subrange(0, i as int)),
        decreases cs@.len() - i,
    {
        let c = cs[i];
        assert(cs@.subrange(0, i + 1).drop_last() =~= cs@.subrange(0, i as int));
        if c == '<' {
            if has_non_whitespace(&token) {
                tokens.push(string_of(&token));
            }
            token = Vec::new();
            token.push(c);
            assert(token@ =~= seq!['<']);
        } else if c == '>' {
            token.push(c);
            tokens.push(string_of(&token));
            token = Vec::new();
        } else {
            token.push(c);
        }
        assert(string_views(tokens@) =~= scan(cs@.subrange(0, i + 1)).1);
        i = i + 1;
    }
    assert(cs@.subrange(0, cs@.len() as int) =~= cs@);
    tokens
}

} // verus!
