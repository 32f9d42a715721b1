use vstd::prelude::*;
use crate::text::{chars_of, str_eq, collapse_marker, reduce_tilde, reduce_breaks, string_of};
use crate::tree::{Attr, Node, Tree, views, attrs_view, lemma_element_view};
use crate::prune::{pruned, prune_question};

verus! {

/// Elements that have no end tag and whose children are not written.
pub open spec fn is_void(name: Seq<char>) -> bool {
    name == "area"@ || name == "base"@ || name == "basefont"@ || name == "bgsound"@ || name
        == "br"@ || name == "col"@ || name == "embed"@ || name == "frame"@ || name == "hr"@
        || name == "img"@ || name == "input"@ || name == "keygen"@ || name == "link"@ || name
        == "meta"@ || name == "param"@ || name == "source"@ || name == "track"@ || name
        == "wbr"@
}

/// Elements whose text children are written without escaping.
pub open spec fn is_raw_text(name: Seq<char>) -> bool {
    name == "style"@ || name == "script"@ || name == "xmp"@ || name == "iframe"@ || name
        == "noembed"@ || name == "noframes"@ || name == "plaintext"@ || name == "noscript"@
}

/// How one character is written in text (`attr` false) or in an attribute
/// value (`attr` true).
pub open spec fn markup_char(c: char, attr: bool) -> Seq<char> {
    if c == '&' {
        seq!['&', 'a', 'm', 'p', ';']
    } else if c == '\u{A0}' {
        seq!['&', 'n', 'b', 's', 'p', ';']
    } else if c == '"' && attr {
        seq!['&', 'q', 'u', 'o', 't', ';']
    } else if c == '<' && !attr {
        seq!['&', 'l', 't', ';']
    } else if c == '>' && !attr {
        seq!['&', 'g', 't', ';']
    } else {
        seq![c]
    }
}

/// `s` escaped for text or for an attribute value.
pub open spec fn markup_escape(s: Seq<char>, attr: bool) -> Seq<char>
    decreases s.len(),
{
    if s.len() == 0 {
        s
    } else {
        markup_escape(s.drop_last(), attr) + markup_char(s.last(), attr)
    }
}

/// The attributes of a start tag, each as ` name="value"`.
pub open spec fn render_attrs(a: Seq<(Seq<char>, Seq<char>)>) -> Seq<char>
    decreases a.len(),
{
    if a.len() == 0 {
        Seq::empty()
    } else {
        render_attrs(a.drop_last()) + seq![' '] + a.last().0 + seq!['=', '"'] + markup_escape(
            a.last().1,
            true,
        ) + seq!['"']
    }
}

/// The markup of a tree. `raw`: the parent writes its text unescaped;
/// `hidden`: an ancestor is a void element, whose tags below are not written.
pub open spec fn render_of(t: Tree, raw: bool, hidden: bool) -> Seq<char>
    decreases t, 0int,
{
    match t {
        Tree::Elem { name, attrs, kids } => {
            let inner = render_in(kids, kids.len() as int, is_raw_text(name), hidden || is_void(name));
            if hidden {
                inner
            } else if is_void(name) {
                seq!['<'] + name + render_attrs(attrs) + seq!['>'] + inner
            } else {
                seq!['<'] + name + render_attrs(attrs) + seq!['>'] + inner + seq!['<', '/'] + name
                    + seq!['>']
            }
        },
        Tree::Txt { text } => if raw {
            text
        } else {
            markup_escape(text, false)
        },
    }
}

/// `render_of` over the first `n` trees of `s`, concatenated.
pub open spec fn render_in(s: Seq<Tree>, n: int, raw: bool, hidden: bool) -> Seq<char>
    decreases s, n,
{
    if n <= 0 || n > s.len() {
        Seq::empty()
    } else {
        render_in(s, n - 1, raw, hidden) + {
            proof {
                broadcast use vstd::seq::axiom_seq_index_decreases;

            }
            render_of(s[n - 1], raw, hidden)
        }
    }
}

/// Appends the characters of `s` to `out`.
fn push_seq(out: &mut Vec<char>, s: &Vec<char>)
    ensures
        final(out)@ == old(out)@ + s@,
{
    let mut i: usize = 0;
    let ghost start = out@;
    while i < s.len()
        invariant
            i <= s@.len(),
            out@ == start + s@.subrange(0, i as int),
        decreases s@.len() - i,
    {
        out.push(s[i]);
        i += 1;
        assert(out@ =~= start + s@.subrange(0, i as int));
    }
    assert(s@.subrange(0, s@.len() as int) =~= s@);
}

fn push_escaped(out: &mut Vec<char>, s: &str, attr: bool)
    ensures
        final(out)@ == old(out)@ + markup_escape(s@, attr),
{
    let v = chars_of(s);
    let ghost start = out@;
    let mut i: usize = 0;
    while i < v.len()
        invariant
            i <= v@.len(),
            out@ == start + markup_escape(v@.subrange(0, i as int), attr),
        decreases v@.len() - i,
    {
        let c = v[i];
        let ghost before = out@;
        if c == '&' {
            push_seq(out, &chars_of("&amp;"));
        } else if c == '\u{A0}' {
            push_seq(out, &chars_of("&nbsp;"));
        } else if c == '"' && attr {
            push_seq(out, &chars_of("&quot;"));
        } else if c == '<' && !attr {
            push_seq(out, &chars_of("&lt;"));
        } else if c == '>' && !attr {
            push_seq(out, &chars_of("&gt;"));
        } else {
            out.push(c);
        }
        proof {
            reveal_strlit("&amp;");
            reveal_strlit("&nbsp;");
            reveal_strlit("&quot;");
            reveal_strlit("&lt;");
            reveal_strlit("&gt;");
            assert(v@.subrange(0, i + 1).drop_last() =~= v@.subrange(0, i as int));
            assert(out@ =~= before + markup_char(c, attr));
            assert(out@ =~= start + markup_escape(v@.subrange(0, i + 1), attr));
        }
        i += 1;
    }
    assert(v@.subrange(0, v@.len() as int) =~= v@);
}

fn push_attrs(out: &mut Vec<char>, attrs: &Vec<Attr>)
    ensures
        final(out)@ == old(out)@ + render_attrs(attrs_view(attrs@)),
{
    let ghost start = out@;
    let mut i: usize = 0;
    while i < attrs.len()
        invariant
            i <= attrs@.len(),
            out@ == start + render_attrs(attrs_view(attrs@.subrange(0, i as int))),
        decreases attrs@.len() - i,
    {
        let ghost before = out@;
        out.push(' ');
        push_seq(out, &chars_of(attrs[i].name.as_str()));
        out.push('=');
        out.push('"');
        push_escaped(out, attrs[i].value.as_str(), true);
        out.push('"');
        proof {
            let a = attrs_view(attrs@.subrange(0, i + 1));
            assert(a.drop_last() =~= attrs_view(attrs@.subrange(0, i as int)));
            assert(out@ =~= before + seq![' '] + a.last().0 + seq!['=', '"'] + markup_escape(
                a.last().1,
                true,
            ) + seq!['"']);
            assert(out@ =~= start + render_attrs(a));
        }
        i += 1;
    }
    assert(attrs@.subrange(0, attrs@.len() as int) =~= attrs@);
}

fn is_void_tag(name: &str) -> (r: bool)
    ensures
        r == is_void(name@),
{
    str_eq(name, "area") || str_eq(name, "base") || str_eq(name, "basefont") || str_eq(
        name,
        "bgsound",
    ) || str_eq(name, "br") || str_eq(name, "col") || str_eq(name, "embed") || str_eq(
        name,
        "frame",
    ) || str_eq(name, "hr") || str_eq(name, "img") || str_eq(name, "input") || str_eq(
        name,
        "keygen",
    ) || str_eq(name, "link") || str_eq(name, "meta") || str_eq(name, "param") || str_eq(
        name,
        "source",
    ) || str_eq(name, "track") || str_eq(name, "wbr")
}

fn is_raw_text_tag(name: &str) -> (r: bool)
    ensures
        r == is_raw_text(name@),
{
    str_eq(name, "style") || str_eq(name, "script") || str_eq(name, "xmp") || str_eq(
        name,
        "iframe",
    ) || str_eq(name, "noembed") || str_eq(name, "noframes") || str_eq(name, "plaintext")
        || str_eq(name, "noscript")
}

/// Appends the markup of a node to `out`.
pub fn render_node(out: &mut Vec<char>, n: &Node, raw: bool, hidden: bool)
    ensures
        final(out)@ == old(out)@ + render_of(n@, raw, hidden),
    decreases n@, 0int,
{
    match n {
        Node::Element { name, attrs, children } => {
            proof {
                lemma_element_view(*name, *attrs, *children);
                assert(decreases_to!(n@ => n@->kids));
            }
            let ghost start = out@;
            let void = is_void_tag(name.as_str());
            let name_chars = chars_of(name.as_str());
            if !hidden {
                out.push('<');
                push_seq(out, &name_chars);
                push_attrs(out, attrs);
                out.push('>');
            }
            let ghost mid = out@;
            render_nodes(out, children, is_raw_text_tag(name.as_str()), hidden || void);
            let ghost inner = render_in(
                views(children@),
                children@.len() as int,
                is_raw_text(name@),
                hidden || is_void(name@),
            );
            if !hidden && !void {
                out.push('<');
                out.push('/');
                push_seq(out, &name_chars);
                out.push('>');
            }
            proof {
                if hidden {
                    assert(out@ =~= start + inner);
                } else if void {
                    assert(out@ =~= start + (seq!['<'] + name@ + render_attrs(attrs_view(attrs@))
                        + seq!['>'] + inner));
                } else {
                    assert(out@ =~= start + (seq!['<'] + name@ + render_attrs(attrs_view(attrs@))
                        + seq!['>'] + inner + seq!['<', '/'] + name@ + seq!['>']));
                }
            }
        },
        Node::Text { text } => {
            if raw {
                push_seq(out, &chars_of(text.as_str()));
            } else {
                push_escaped(out, text.as_str(), false);
            }
        },
    }
}

/// Appends the markup of a sequence of nodes to `out`.
pub fn render_nodes(out: &mut Vec<char>, v: &Vec<Node>, raw: bool, hidden: bool)
    ensures
        final(out)@ == old(out)@ + render_in(views(v@), v@.len() as int, raw, hidden),
    decreases views(v@), v@.len(),
{
    let ghost s = views(v@);
    let ghost start = out@;
    let mut i: usize = 0;
    assert(out@ =~= start + render_in(s, 0, raw, hidden));
    while i < v.len()
        invariant
            i <= v@.len(),
            s == views(v@),
            out@ == start + render_in(s, i as int, raw, hidden),
        decreases v@.len() - i,
    {
        proof {
            broadcast use vstd::seq::axiom_seq_index_decreases;

            assert(s[i as int] == v@[i as int]@);
            assert(decreases_to!(s => s[i as int]));
        }
        render_node(out, &v[i], raw, hidden);
        assert(out@ =~= start + render_in(s, i + 1, raw, hidden));
        i += 1;
    }
}

/// `s` without newline and carriage-return characters.
pub open spec fn strip_line_ends(s: Seq<char>) -> Seq<char>
    decreases s.len(),
{
    if s.len() == 0 {
        s
    } else if s.last() == '\n' || s.last() == '\r' {
        strip_line_ends(s.drop_last())
    } else {
        strip_line_ends(s.drop_last()).push(s.last())
    }
}

/// The minified markup of a Question subtree: its pruned markup without
/// line ends, with runs of the separator and then runs of line-break tags
/// collapsed to one.
pub open spec fn minified(t: Tree) -> Seq<char> {
    let p = pruned(t);
    collapse_marker(
        collapse_marker(strip_line_ends(render_in(p, p.len() as int, false, false)), "~"@),
        "<br>"@,
    )
}

/// Prunes a Question subtree and writes its minified markup.
pub fn minify_question(n: &Node) -> (r: String)
    ensures
        r@ == minified(n@),
{
    let p = prune_question(n);
    let mut markup: Vec<char> = Vec::new();
    render_nodes(&mut markup, &p, false, false);
    assert(markup@ =~= render_in(views(p@), p@.len() as int, false, false));
    let mut flat: Vec<char> = Vec::new();
    let mut i: usize = 0;
    while i < markup.len()
        invariant
            i <= markup@.len(),
            flat@ == strip_line_ends(markup@.subrange(0, i as int)),
        decreases markup@.len() - i,
    {
        let c = markup[i];
        assert(markup@.subrange(0, i + 1).drop_last() =~= markup@.subrange(0, i as int));
        if c != '\n' && c != '\r' {
            flat.push(c);
        }
        i += 1;
    }
    assert(markup@.subrange(0, markup@.len() as int) =~= markup@);
    reduce_breaks(reduce_tilde(string_of(&flat)))
}

} // verus!
