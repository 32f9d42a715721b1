use vstd::prelude::*;
use crate::text::{chars_of, occurs_at, occurs_at_exec};

verus! {

/// An attribute of an element: its name and its value.
pub struct Attr {
    pub name: String,
    pub value: String,
}

/// A node of a document tree.
pub enum Node {
    Element { name: String, attrs: Vec<Attr>, children: Vec<Node> },
    Text { text: String },
}

/// The mathematical model of a node.
pub enum Tree {
    Elem { name: Seq<char>, attrs: Seq<(Seq<char>, Seq<char>)>, kids: Seq<Tree> },
    Txt { text: Seq<char> },
}

/// The models of a list of attributes: name and value.
pub open spec fn attrs_view(a: Seq<Attr>) -> Seq<(Seq<char>, Seq<char>)> {
    a.map_values(|x: Attr| (x.name@, x.value@))
}

impl Node {
    /// The model of the node.
    pub open spec fn view(&self) -> Tree
        decreases self,
        via Self::view_decreases
    {
        match self {
            Node::Element { name, attrs, children } => Tree::Elem {
                name: name@,
                attrs: attrs_view(attrs@),
                kids: Seq::new(
                    children@.len(),
                    |i: int|
                        if 0 <= i < children@.len() {
                            children@[i].view()
                        } else {
                            Tree::Txt { text: Seq::empty() }
                        },
                ),
            },
            Node::Text { text } => Tree::Txt { text: text@ },
        }
    }

    #[via_fn]
    proof fn view_decreases(&self) {
        broadcast use vstd::std_specs::vec::axiom_vec_index_decreases;
        broadcast use vstd::std_specs::vec::axiom_vec_decreases_to_view;
        broadcast use vstd::seq::axiom_seq_index_decreases;
    }
}

/// The models of a sequence of nodes.
pub open spec fn views(v: Seq<Node>) -> Seq<Tree> {
    v.map_values(|n: Node| n@)
}

/// Models of a sequence grown by one node.
pub proof fn lemma_views_push(v: Seq<Node>, n: Node)
    ensures
        views(v.push(n)) == views(v).push(n@),
{
    assert(views(v.push(n)) =~= views(v).push(n@));
}

/// Models of two sequences joined.
pub proof fn lemma_views_concat(v: Seq<Node>, w: Seq<Node>)
    ensures
        views(v + w) == views(v) + views(w),
{
    assert(views(v + w) =~= views(v) + views(w));
}

/// The model of an element built from its parts.
pub proof fn lemma_element_view(name: String, attrs: Vec<Attr>, children: Vec<Node>)
    ensures
        (Node::Element { name, attrs, children })@ == (Tree::Elem {
            name: name@,
            attrs: attrs_view(attrs@),
            kids: views(children@),
        }),
{
    let n = Node::Element { name, attrs, children };
    assert(n@->kids =~= views(children@));
}

/// A child of a tree is smaller than the tree.
pub proof fn lemma_kid_decreases(t: Tree, i: int)
    requires
        t is Elem,
        0 <= i < t->kids.len(),
    ensures
        decreases_to!(t => t->kids[i]),
{
    broadcast use vstd::seq::axiom_seq_index_decreases;

    assert(decreases_to!(t->kids => t->kids[i]));
}

/// The value of the first attribute named `k`, if any.
pub open spec fn get_attr(a: Seq<(Seq<char>, Seq<char>)>, k: Seq<char>) -> Option<Seq<char>>
    decreases a.len(),
{
    if a.len() == 0 {
        None
    } else {
        match get_attr(a.drop_last(), k) {
            Some(v) => Some(v),
            None => if a.last().0 == k {
                Some(a.last().1)
            } else {
                None
            },
        }
    }
}

/// Whether an attribute named `k` is present.
pub open spec fn has_attr(a: Seq<(Seq<char>, Seq<char>)>, k: Seq<char>) -> bool {
    get_attr(a, k) is Some
}

proof fn lemma_get_attr_prefix(a: Seq<(Seq<char>, Seq<char>)>, k: Seq<char>, i: int)
    requires
        0 <= i <= a.len(),
        get_attr(a.subrange(0, i), k) is Some,
    ensures
        get_attr(a, k) == get_attr(a.subrange(0, i), k),
    decreases a.len() - i,
{
    if i < a.len() {
        assert(a.subrange(0, i + 1).drop_last() =~= a.subrange(0, i));
        lemma_get_attr_prefix(a, k, i + 1);
    } else {
        assert(a.subrange(0, i) =~= a);
    }
}

proof fn lemma_get_attr_none(a: Seq<(Seq<char>, Seq<char>)>, k: Seq<char>)
    requires
        forall|j: int| 0 <= j < a.len() ==> a[j].0 != k,
    ensures
        get_attr(a, k) is None,
    decreases a.len(),
{
    if a.len() > 0 {
        lemma_get_attr_none(a.drop_last(), k);
    }
}

/// The index of the first attribute named `k`.
pub fn find_attr(attrs: &Vec<Attr>, k: &Vec<char>) -> (r: Option<usize>)
    ensures
        r is None <==> !has_attr(attrs_view(attrs@), k@),
        r matches Some(i) ==> i < attrs@.len() && get_attr(attrs_view(attrs@), k@) == Some(
            attrs@[i as int].value@,
        ),
{
    let ghost a = attrs_view(attrs@);
    let mut i: usize = 0;
    while i < attrs.len()
        invariant
            i <= attrs@.len(),
            a == attrs_view(attrs@),
            forall|j: int| 0 <= j < i ==> a[j].0 != k@,
        decreases attrs@.len() - i,
    {
        let name = chars_of(attrs[i].name.as_str());
        if crate::text::chars_eq(&name, k) {
            proof {
                lemma_get_attr_none(a.subrange(0, i as int), k@);
                assert(a.subrange(0, i + 1).drop_last() =~= a.subrange(0, i as int));
                lemma_get_attr_prefix(a, k@, i + 1);
            }
            return Some(i);
        }
        i += 1;
    }
    proof {
        lemma_get_attr_none(a, k@);
    }
    None
}

/// Whether an attribute named `k` is present.
pub fn has_attr_exec(attrs: &Vec<Attr>, k: &str) -> (r: bool)
    ensures
        r == has_attr(attrs_view(attrs@), k@),
{
    let key = chars_of(k);
    find_attr(attrs, &key).is_some()
}

/// Whether `p` is a prefix of `s`.
pub open spec fn starts_with(s: Seq<char>, p: Seq<char>) -> bool {
    occurs_at(s, p, 0)
}

/// Whether an attribute carries structured-data meaning and is kept: its
/// name starts with "item", "content" or "date" and its value is not empty.
pub open spec fn keep_attr(p: (Seq<char>, Seq<char>)) -> bool {
    (starts_with(p.0, "item"@) || starts_with(p.0, "content"@) || starts_with(p.0, "date"@))
        && p.1.len() > 0
}

/// The attributes that are kept, in order.
pub open spec fn filter_attrs(a: Seq<(Seq<char>, Seq<char>)>) -> Seq<(Seq<char>, Seq<char>)>
    decreases a.len(),
{
    if a.len() == 0 {
        a
    } else if keep_attr(a.last()) {
        filter_attrs(a.drop_last()).push(a.last())
    } else {
        filter_attrs(a.drop_last())
    }
}

/// A copy of an attribute.
pub fn copy_attr(a: &Attr) -> (r: Attr)
    ensures
        r.name@ == a.name@,
        r.value@ == a.value@,
{
    Attr { name: a.name.clone(), value: a.value.clone() }
}

/// Keeps the attributes with structured-data meaning.
pub fn filter_attributes(attrs: &Vec<Attr>) -> (r: Vec<Attr>)
    ensures
        attrs_view(r@) == filter_attrs(attrs_view(attrs@)),
{
    let item = chars_of("item");
    let content = chars_of("content");
    let date = chars_of("date");
    let mut out: Vec<Attr> = Vec::new();
    let mut i: usize = 0;
    while i < attrs.len()
        invariant
            i <= attrs@.len(),
            item@ == "item"@,
            content@ == "content"@,
            date@ == "date"@,
            attrs_view(out@) == filter_attrs(attrs_view(attrs@.subrange(0, i as int))),
        decreases attrs@.len() - i,
    {
        let ghost pre = attrs_view(attrs@.subrange(0, i as int));
        assert(attrs_view(attrs@.subrange(0, i + 1)).drop_last() =~= pre);
        let name = chars_of(attrs[i].name.as_str());
        let keep = (occurs_at_exec(&name, &item, 0) || occurs_at_exec(&name, &content, 0)
            || occurs_at_exec(&name, &date, 0)) && !attrs[i].value.as_str().is_empty();
        if keep {
            let ghost before = out@;
            out.push(copy_attr(&attrs[i]));
            assert(attrs_view(out@) =~= attrs_view(before).push(
                attrs_view(attrs@.subrange(0, i + 1)).last(),
            ));
        }
        i += 1;
    }
    assert(attrs@.subrange(0, attrs@.len() as int) =~= attrs@);
    out
}

/// A copy of a list of attributes.
pub fn copy_attrs(attrs: &Vec<Attr>) -> (r: Vec<Attr>)
    ensures
        attrs_view(r@) == attrs_view(attrs@),
{
    let mut a: Vec<Attr> = Vec::new();
    let mut i: usize = 0;
    while i < attrs.len()
        invariant
            i <= attrs@.len(),
            attrs_view(a@) == attrs_view(attrs@.subrange(0, i as int)),
        decreases attrs@.len() - i,
    {
        let ghost before = a@;
        a.push(copy_attr(&attrs[i]));
        proof {
            assert(attrs_view(before) =~= attrs_view(attrs@.subrange(0, i as int)));
            assert(attrs@.subrange(0, i + 1) =~= attrs@.subrange(0, i as int).push(attrs@[i as int]));
            assert(attrs_view(a@) =~= attrs_view(before).push(attrs_view(attrs@.subrange(0, i + 1)).last()));
            assert(attrs_view(attrs@.subrange(0, i + 1)) =~= attrs_view(attrs@.subrange(0, i as int)).push(attrs_view(attrs@.subrange(0, i + 1)).last()));
        }
        i += 1;
    }
    assert(attrs@.subrange(0, attrs@.len() as int) =~= attrs@);
    a
}

/// A list holding one node.
pub fn single(n: Node) -> (r: Vec<Node>)
    ensures
        views(r@) == seq![n@],
{
    let mut v: Vec<Node> = Vec::new();
    v.push(n);
    assert(views(v@) =~= seq![n@]);
    v
}

/// A deep copy of a node.
pub fn clone_node(n: &Node) -> (r: Node)
    ensures
        r@ == n@,
    decreases n@,
{
    match n {
        Node::Element { name, attrs, children } => {
            let a = copy_attrs(attrs);
            let mut c: Vec<Node> = Vec::new();
            let mut j: usize = 0;
            while j < children.len()
                invariant
                    j <= children@.len(),
                    n@ == (Node::Element { name: *name, attrs: *attrs, children: *children })@,
                    views(c@) == views(children@.subrange(0, j as int)),
                decreases children@.len() - j,
            {
                proof {
                    lemma_element_view(*name, *attrs, *children);
                    lemma_kid_decreases(n@, j as int);
                }
                let k = clone_node(&children[j]);
                let ghost before = c@;
                c.push(k);
                proof {
                    lemma_views_push(before, k);
                    assert(children@.subrange(0, j + 1) =~= children@.subrange(0, j as int).push(children@[j as int]));
                    lemma_views_push(children@.subrange(0, j as int), children@[j as int]);
                }
                j += 1;
            }
            assert(children@.subrange(0, children@.len() as int) =~= children@);
            let nm = name.clone();
            proof {
                lemma_element_view(*name, *attrs, *children);
                lemma_element_view(nm, a, c);
            }
            Node::Element { name: nm, attrs: a, children: c }
        },
        Node::Text { text } => Node::Text { text: text.clone() },
    }
}

} // verus!
