use vstd::prelude::*;

use crate::node::{Doc, Node};

verus! {

broadcast use vstd::std_specs::vec::axiom_vec_index_decreases;

/// The markup text that stands for the character `c` in leaf text.
pub open spec fn escape_char(c: char) -> Seq<char> {
    if c == '<' {
        seq!['&', 'l', 't', ';']
    } else if c == '>' {
        seq!['&', 'g', 't', ';']
    } else if c == '&' {
        seq!['&', 'a', 'm', 'p', ';']
    } else {
        seq![c]
    }
}

/// Leaf text with `<`, `>` and `&` replaced by their entities.
pub open spec fn escape(s: Seq<char>) -> Seq<char>
    decreases s.len(),
{
    if s.len() == 0 {
        Seq::empty()
    } else {
        escape(s.drop_last()) + escape_char(s.last())
    }
}

/// `<tag>text</tag>`.
pub open spec fn element(tag: Seq<char>, text: Seq<char>) -> Seq<char> {
    seq!['<'] + tag + seq!['>'] + text + seq!['<', '/'] + tag + seq!['>']
}

/// `<tag/>`.
pub open spec fn empty_element(tag: Seq<char>) -> Seq<char> {
    seq!['<'] + tag + seq!['/', '>']
}

pub open spec fn bool_text(b: bool) -> Seq<char> {
    if b {
        seq!['t', 'r', 'u', 'e']
    } else {
        seq!['f', 'a', 'l', 's', 'e']
    }
}

/// The markup for `d` under the tag `tag`.
pub open spec fn render(d: Doc, tag: Seq<char>) -> Seq<char>
    decreases d, 0nat,
{
    match d {
        Doc::Object(es) => {
            let inner = render_entries(es, es.len());
            if tag.len() == 0 {
                inner
            } else {
                element(tag, inner)
            }
        },
        Doc::Array(items) => render_items(items, tag, items.len()),
        Doc::Str(s) => element(tag, escape(s)),
        Doc::Number(s) => element(tag, escape(s)),
        Doc::Bool(b) => element(tag, bool_text(b)),
        Doc::Null => empty_element(tag),
    }
}

/// The first `n` entries of an object, each under its own key, concatenated.
pub open spec fn render_entries(es: Seq<(Seq<char>, Doc)>, n: nat) -> Seq<char>
    decreases es, n,
{
    if n == 0 || n > es.len() {
        Seq::empty()
    } else {
        render_entries(es, (n - 1) as nat) + render(es[n - 1].1, es[n - 1].0)
    }
}

/// The first `n` items of an array, each under the same tag, concatenated.
pub open spec fn render_items(items: Seq<Doc>, tag: Seq<char>, n: nat) -> Seq<char>
    decreases items, n,
{
    if n == 0 || n > items.len() {
        Seq::empty()
    } else {
        render_items(items, tag, (n - 1) as nat) + render(items[n - 1], tag)
    }
}

/// Replaces `<`, `>` and `&` in `s` by their entities.
pub fn escape_text(s: &str) -> (r: String)
    ensures
        r@ == escape(s@),
{
    let n = s.unicode_len();
    let mut r = String::new();
    let mut i: usize = 0;
    while i < n
        invariant
            n == s@.len(),
            i <= n,
            r@ == escape(s@.subrange(0, i as int)),
        decreases n - i,
    {
        let c = s.get_char(i);
        proof {
            reveal_strlit("&lt;");
            reveal_strlit("&gt;");
            reveal_strlit("&amp;");
        }
        if c == '<' {
            r.append("&lt;");
        } else if c == '>' {
            r.append("&gt;");
        } else if c == '&' {
            r.append("&amp;");
        } else {
            let one = s.substring_char(i, i + 1);
            assert(one@ =~= seq![c]);
            r.append(one);
        }
        assert(s@.subrange(0, i as int + 1).drop_last() =~= s@.subrange(0, i as int));
        i = i + 1;
    }
    assert(s@.subrange(0, n as int) =~= s@);
    r
}

/// `<tag>text</tag>`, where `text` is already markup.
fn wrap(tag: &str, text: &str) -> (r: String)
    ensures
        r@ == element(tag@, text@),
{
    proof {
        reveal_strlit("<");
        reveal_strlit(">");
        reveal_strlit("</");
    }
    let mut r = String::new();
    r.append("<");
    r.append(tag);
    r.append(">");
    r.append(text);
    r.append("</");
    r.append(tag);
    r.append(">");
    r
}

/// Renders `node` as markup under the tag `tag`. An object under the empty
/// tag contributes only its children; an array repeats `tag` for each item.
pub fn json_to_xml(node: &Node, tag: &str) -> (r: String)
    ensures
        r@ == render(node@, tag@),
    decreases node,
{
    match node {
        Node::Object(es) => {
            let ghost des = node@->Object_0;
            let mut inner = String::new();
            let mut i: usize = 0;
            while i < es.len()
                invariant
                    i <= es@.len(),
                    des == node@->Object_0,
                    des.len() == es@.len(),
                    *node == Node::Object(*es),
                    inner@ == render_entries(des, i as nat),
                decreases es@.len() - i,
            {
                assert(des[i as int] == (es@[i as int].0@, es@[i as int].1@));
                let part = json_to_xml(&es[i].1, es[i].0.as_str());
                inner.append(part.as_str());
                i = i + 1;
            }
            if tag.is_empty() {
                inner
            } else {
                wrap(tag, inner.as_str())
            }
        },
        Node::Array(items) => {
            let ghost ditems = node@->Array_0;
            let mut out = String::new();
            let mut i: usize = 0;
            while i < items.len()
                invariant
                    i <= items@.len(),
                    ditems == node@->Array_0,
                    ditems.len() == items@.len(),
                    *node == Node::Array(*items),
                    out@ == render_items(ditems, tag@, i as nat),
                decreases items@.len() - i,
            {
                assert(ditems[i as int] == items@[i as int]@);
                let part = json_to_xml(&items[i], tag);
                out.append(part.as_str());
                i = i + 1;
            }
            out
        },
        Node::Str(s) => {
            let text = escape_text(s.as_str());
            wrap(tag, text.as_str())
        },
        Node::Number(s) => {
            let text = escape_text(s.as_str());
            wrap(tag, text.as_str())
        },
        Node::Bool(b) => {
            proof {
                reveal_strlit("true");
                reveal_strlit("false");
            }
            if *b {
                wrap(tag, "true")
            } else {
                wrap(tag, "false")
            }
        },
        Node::Null => {
            proof {
                reveal_strlit("<");
                reveal_strlit("/>");
            }
            let mut r = String::new();
            r.append("<");
            r.append(tag);
            r.append("/>");
            r
        },
    }
}

} // verus!
