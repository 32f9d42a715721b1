use vstd::prelude::*;
use crate::text::{chars_of, str_eq};
use crate::tree::{
    Node, Tree, views, get_attr, has_attr, find_attr, clone_node, lemma_element_view,
    lemma_views_push, lemma_views_concat,
};

verus! {

/// The value of the item-type attribute that marks a Question block.
pub open spec fn question_type() -> Seq<char> {
    "https://schema.org/Question"@
}

/// The language of the first `html` element, in pre-order, that carries a
/// `lang` attribute.
pub open spec fn lang_of(t: Tree) -> Option<Seq<char>>
    decreases t, 0int,
{
    match t {
        Tree::Elem { name, attrs, kids } => if name == "html"@ && has_attr(attrs, "lang"@) {
            get_attr(attrs, "lang"@)
        } else {
            lang_in(kids, kids.len() as int)
        },
        Tree::Txt { .. } => None,
    }
}

/// `lang_of` over the first `n` trees of `s`, in order.
pub open spec fn lang_in(s: Seq<Tree>, n: int) -> Option<Seq<char>>
    decreases s, n,
{
    if n <= 0 || n > s.len() {
        None
    } else {
        match lang_in(s, n - 1) {
            Some(v) => Some(v),
            None => {
                proof {
                    broadcast use vstd::seq::axiom_seq_index_decreases;

                }
                lang_of(s[n - 1])
            },
        }
    }
}

/// The Question subtrees of `t`, in document order; a match is not searched
/// further.
pub open spec fn questions_of(t: Tree) -> Seq<Tree>
    decreases t, 0int,
{
    match t {
        Tree::Elem { name, attrs, kids } => if get_attr(attrs, "itemtype"@) == Some(
            question_type(),
        ) {
            seq![t]
        } else {
            questions_in(kids, kids.len() as int)
        },
        Tree::Txt { .. } => Seq::empty(),
    }
}

/// `questions_of` over the first `n` trees of `s`, concatenated in order.
pub open spec fn questions_in(s: Seq<Tree>, n: int) -> Seq<Tree>
    decreases s, n,
{
    if n <= 0 || n > s.len() {
        Seq::empty()
    } else {
        questions_in(s, n - 1) + {
            proof {
                broadcast use vstd::seq::axiom_seq_index_decreases;

            }
            questions_of(s[n - 1])
        }
    }
}

proof fn lemma_lang_in_stays(s: Seq<Tree>, k: int, n: int)
    requires
        0 <= k <= n <= s.len(),
        lang_in(s, k) is Some,
    ensures
        lang_in(s, n) == lang_in(s, k),
    decreases n - k,
{
    if n > k {
        lemma_lang_in_stays(s, k, n - 1);
    }
}

/// The language of a node's subtree.
fn lang_of_node(n: &Node) -> (r: Option<String>)
    ensures
        r is None <==> lang_of(n@) is None,
        r matches Some(v) ==> lang_of(n@) == Some(v@),
    decreases n@, 0int,
{
    match n {
        Node::Element { name, attrs, children } => {
            proof {
                lemma_element_view(*name, *attrs, *children);
            }
            if str_eq(name.as_str(), "html") {
                let key = chars_of("lang");
                match find_attr(attrs, &key) {
                    Some(i) => {
                        return Some(attrs[i].value.clone());
                    },
                    None => {},
                }
            }
            find_lang_tag(children)
        },
        Node::Text { .. } => None,
    }
}

/// The language of the first `html` element, in pre-order over `doc`, that
/// carries a `lang` attribute.
pub fn find_lang_tag(doc: &Vec<Node>) -> (r: Option<String>)
    ensures
        r is None <==> lang_in(views(doc@), doc@.len() as int) is None,
        r matches Some(v) ==> lang_in(views(doc@), doc@.len() as int) == Some(v@),
    decreases views(doc@), doc@.len(),
{
    let ghost s = views(doc@);
    let mut i: usize = 0;
    while i < doc.len()
        invariant
            i <= doc@.len(),
            s == views(doc@),
            lang_in(s, i as int) is None,
        decreases doc@.len() - i,
    {
        proof {
            broadcast use vstd::seq::axiom_seq_index_decreases;

            assert(s[i as int] == doc@[i as int]@);
            assert(decreases_to!(s => s[i as int]));
        }
        let r = lang_of_node(&doc[i]);
        if r.is_some() {
            proof {
                lemma_lang_in_stays(s, i + 1, doc@.len() as int);
            }
            return r;
        }
        i += 1;
    }
    None
}

/// The Question subtrees of a node's subtree, copied.
fn questions_of_node(n: &Node) -> (r: Vec<Node>)
    ensures
        views(r@) == questions_of(n@),
    decreases n@, 0int,
{
    match n {
        Node::Element { name, attrs, children } => {
            proof {
                lemma_element_view(*name, *attrs, *children);
            }
            let key = chars_of("itemtype");
            match find_attr(attrs, &key) {
                Some(i) => {
                    if str_eq(attrs[i].value.as_str(), "https://schema.org/Question") {
                        let c = clone_node(n);
                        let mut v: Vec<Node> = Vec::new();
                        v.push(c);
                        proof {
                            lemma_views_push(Seq::empty(), c);
                            assert(Seq::<Node>::empty().push(c) =~= v@);
                            assert(views(Seq::<Node>::empty()) =~= Seq::empty());
                        }
                        return v;
                    }
                },
                None => {},
            }
            proof {
                assert(decreases_to!(n@ => n@->kids));
            }
            questions_in_nodes(children)
        },
        Node::Text { .. } => {
            let v: Vec<Node> = Vec::new();
            assert(views(v@) =~= Seq::empty());
            v
        },
    }
}

/// The Question subtrees under the nodes of `doc`, in document order.
fn questions_in_nodes(doc: &Vec<Node>) -> (r: Vec<Node>)
    ensures
        views(r@) == questions_in(views(doc@), doc@.len() as int),
    decreases views(doc@), doc@.len(),
{
    let ghost s = views(doc@);
    let mut out: Vec<Node> = Vec::new();
    let mut i: usize = 0;
    assert(views(out@) =~= Seq::empty());
    while i < doc.len()
        invariant
            i <= doc@.len(),
            s == views(doc@),
            views(out@) == questions_in(s, i as int),
        decreases doc@.len() - i,
    {
        proof {
            broadcast use vstd::seq::axiom_seq_index_decreases;

            assert(s[i as int] == doc@[i as int]@);
            assert(decreases_to!(s => s[i as int]));
        }
        let mut found = questions_of_node(&doc[i]);
        let ghost before = out@;
        let ghost add = found@;
        out.append(&mut found);
        proof {
            lemma_views_concat(before, add);
        }
        i += 1;
    }
    out
}

/// Finds the Question subtrees of a document in document order; a subtree
/// that matches is taken whole. `None` when there is none.
pub fn transform_outside(doc: &Vec<Node>) -> (r: Option<Vec<Node>>)
    ensures
        r is None <==> questions_in(views(doc@), doc@.len() as int).len() == 0,
        r matches Some(v) ==> views(v@) == questions_in(views(doc@), doc@.len() as int),
{
    let v = questions_in_nodes(doc);
    if v.len() > 0 {
        Some(v)
    } else {
        None
    }
}

} // verus!
