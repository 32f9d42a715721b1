use vstd::prelude::*;
use crate::text::{chars_of, str_eq, contains, find_first, clean_text, clean_spec};
use crate::tree::{
    Attr, Node, Tree, views, get_attr, has_attr, find_attr, has_attr_exec, filter_attrs, keep_attr,
    filter_attributes, copy_attrs, single, lemma_element_view, lemma_views_concat, attrs_view,
};

verus! {

/// Whether a tag name marks a media or interactive element.
pub open spec fn is_media(name: Seq<char>) -> bool {
    contains(name, "svg"@) || contains(name, "img"@) || contains(name, "hatul"@) || contains(
        name,
        "input"@,
    ) || contains(name, "button"@) || contains(name, "link"@)
}

/// Leaf cleanup of a tree: attributes filtered, media elements spliced out,
/// text payloads cleaned.
pub open spec fn props_of(t: Tree) -> Seq<Tree>
    decreases t, 0int,
{
    match t {
        Tree::Elem { name, attrs, kids } => {
            let k = props_in(kids, kids.len() as int);
            if is_media(name) {
                k
            } else {
                seq![Tree::Elem { name, attrs: filter_attrs(attrs), kids: k }]
            }
        },
        Tree::Txt { text } => seq![Tree::Txt { text: clean_spec(text) }],
    }
}

/// `props_of` over the first `n` trees of `s`, concatenated.
pub open spec fn props_in(s: Seq<Tree>, n: int) -> Seq<Tree>
    decreases s, n,
{
    if n <= 0 || n > s.len() {
        Seq::empty()
    } else {
        props_in(s, n - 1) + {
            proof {
                broadcast use vstd::seq::axiom_seq_index_decreases;

            }
            props_of(s[n - 1])
        }
    }
}

/// An item-property leaf: it has an `itemprop` attribute and no `itemtype`.
pub open spec fn is_leaf(attrs: Seq<(Seq<char>, Seq<char>)>) -> bool {
    has_attr(attrs, "itemprop"@) && !has_attr(attrs, "itemtype"@)
}

/// Whether attributes carry structured data.
pub open spec fn is_structured(attrs: Seq<(Seq<char>, Seq<char>)>) -> bool {
    has_attr(attrs, "itemtype"@) || has_attr(attrs, "itemprop"@)
}

/// The inside transform of a tree. A leaf whose property is "url" goes with
/// its subtree; another leaf gets the leaf cleanup; any other element is
/// transformed below, then kept when its filtered attributes carry
/// structured data and spliced out otherwise; text stays.
pub open spec fn inside_of(t: Tree) -> Seq<Tree>
    decreases t, 0int,
{
    match t {
        Tree::Elem { name, attrs, kids } => {
            if is_leaf(attrs) {
                if get_attr(attrs, "itemprop"@) == Some("url"@) {
                    Seq::empty()
                } else {
                    props_of(Tree::Elem { name, attrs: filter_attrs(attrs), kids })
                }
            } else {
                let k = inside_in(kids, kids.len() as int);
                if is_structured(filter_attrs(attrs)) {
                    seq![Tree::Elem { name, attrs: filter_attrs(attrs), kids: k }]
                } else {
                    k
                }
            }
        },
        Tree::Txt { .. } => seq![t],
    }
}

/// `inside_of` over the first `n` trees of `s`, concatenated.
pub open spec fn inside_in(s: Seq<Tree>, n: int) -> Seq<Tree>
    decreases s, n,
{
    if n <= 0 || n > s.len() {
        Seq::empty()
    } else {
        inside_in(s, n - 1) + {
            proof {
                broadcast use vstd::seq::axiom_seq_index_decreases;

            }
            inside_of(s[n - 1])
        }
    }
}

/// An element that stays even without children: a line break, or one with
/// a `content` attribute beside `itemprop` or `itemtype`.
pub open spec fn keeps_when_empty(name: Seq<char>, attrs: Seq<(Seq<char>, Seq<char>)>) -> bool {
    name == "br"@ || (has_attr(attrs, "itemprop"@) && has_attr(attrs, "content"@)) || (has_attr(
        attrs,
        "itemtype"@,
    ) && has_attr(attrs, "content"@))
}

/// A text payload that carries nothing: empty, the separator alone, or one
/// space.
pub open spec fn is_blank(text: Seq<char>) -> bool {
    text.len() == 0 || text == seq!['~'] || text == seq![' ']
}

/// Empty-node removal, bottom-up.
pub open spec fn empty_of(t: Tree) -> Seq<Tree>
    decreases t, 0int,
{
    match t {
        Tree::Elem { name, attrs, kids } => {
            let k = empty_in(kids, kids.len() as int);
            if k.len() == 0 && !keeps_when_empty(name, attrs) {
                Seq::empty()
            } else {
                seq![Tree::Elem { name, attrs, kids: k }]
            }
        },
        Tree::Txt { text } => if is_blank(text) {
            Seq::empty()
        } else {
            seq![t]
        },
    }
}

/// `empty_of` over the first `n` trees of `s`, concatenated.
pub open spec fn empty_in(s: Seq<Tree>, n: int) -> Seq<Tree>
    decreases s, n,
{
    if n <= 0 || n > s.len() {
        Seq::empty()
    } else {
        empty_in(s, n - 1) + {
            proof {
                broadcast use vstd::seq::axiom_seq_index_decreases;

            }
            empty_of(s[n - 1])
        }
    }
}

/// What remains of a Question subtree after pruning.
pub open spec fn pruned(t: Tree) -> Seq<Tree> {
    let a = inside_of(t);
    empty_in(a, a.len() as int)
}

/// Whether a tag name marks a media or interactive element.
pub fn is_media_tag(name: &str) -> (r: bool)
    ensures
        r == is_media(name@),
{
    let n = chars_of(name);
    find_first(&n, &chars_of("svg")).is_some() || find_first(&n, &chars_of("img")).is_some()
        || find_first(&n, &chars_of("hatul")).is_some() || find_first(
        &n,
        &chars_of("input"),
    ).is_some() || find_first(&n, &chars_of("button")).is_some() || find_first(
        &n,
        &chars_of("link"),
    ).is_some()
}

/// Leaf cleanup of an element given by its parts.
fn props_parts(name: &String, attrs: &Vec<Attr>, children: &Vec<Node>) -> (r: Vec<Node>)
    ensures
        views(r@) == props_of(
            Tree::Elem { name: name@, attrs: attrs_view(attrs@), kids: views(children@) },
        ),
    decreases views(children@), children@.len() + 1,
{
    let k = props_nodes(children);
    if is_media_tag(name.as_str()) {
        k
    } else {
        let fa = filter_attributes(attrs);
        let nm = name.clone();
        proof {
            lemma_element_view(nm, fa, k);
        }
        single(Node::Element { name: nm, attrs: fa, children: k })
    }
}

/// Leaf cleanup, post-order: attributes without structured-data meaning are
/// removed, media elements are spliced out, and text payloads are cleaned.
pub fn inside_props(n: &Node) -> (r: Vec<Node>)
    ensures
        views(r@) == props_of(n@),
    decreases n@, 0int,
{
    match n {
        Node::Element { name, attrs, children } => {
            proof {
                lemma_element_view(*name, *attrs, *children);
                assert(decreases_to!(n@ => n@->kids));
            }
            props_parts(name, attrs, children)
        },
        Node::Text { text } => single(Node::Text { text: clean_text(text.as_str()) }),
    }
}

fn props_nodes(v: &Vec<Node>) -> (r: Vec<Node>)
    ensures
        views(r@) == props_in(views(v@), v@.len() as int),
    decreases views(v@), v@.len(),
{
    let ghost s = views(v@);
    let mut out: Vec<Node> = Vec::new();
    let mut i: usize = 0;
    assert(views(out@) =~= Seq::empty());
    while i < v.len()
        invariant
            i <= v@.len(),
            s == views(v@),
            views(out@) == props_in(s, i as int),
        decreases v@.len() - i,
    {
        proof {
            broadcast use vstd::seq::axiom_seq_index_decreases;

            assert(s[i as int] == v@[i as int]@);
            assert(decreases_to!(s => s[i as int]));
        }
        let mut found = inside_props(&v[i]);
        let ghost before = out@;
        let ghost add = found@;
        out.append(&mut found);
        proof {
            lemma_views_concat(before, add);
        }
        i += 1;
    }
    out
}

/// The inside transform of a Question subtree (see `inside_of`).
pub fn transform_inside(n: &Node) -> (r: Vec<Node>)
    ensures
        views(r@) == inside_of(n@),
    decreases n@, 0int,
{
    match n {
        Node::Element { name, attrs, children } => {
            proof {
                lemma_element_view(*name, *attrs, *children);
                assert(decreases_to!(n@ => n@->kids));
            }
            let fa = filter_attributes(attrs);
            if has_attr_exec(attrs, "itemprop") && !has_attr_exec(attrs, "itemtype") {
                let key = chars_of("itemprop");
                match find_attr(attrs, &key) {
                    Some(i) => {
                        if str_eq(attrs[i].value.as_str(), "url") {
                            let v: Vec<Node> = Vec::new();
                            assert(views(v@) =~= Seq::empty());
                            return v;
                        }
                    },
                    None => {},
                }
                return props_parts(name, &fa, children);
            }
            let k = inside_nodes(children);
            if has_attr_exec(&fa, "itemtype") || has_attr_exec(&fa, "itemprop") {
                let nm = name.clone();
                proof {
                    lemma_element_view(nm, fa, k);
                }
                single(Node::Element { name: nm, attrs: fa, children: k })
            } else {
                k
            }
        },
        Node::Text { text } => single(Node::Text { text: text.clone() }),
    }
}

fn inside_nodes(v: &Vec<Node>) -> (r: Vec<Node>)
    ensures
        views(r@) == inside_in(views(v@), v@.len() as int),
    decreases views(v@), v@.len(),
{
    let ghost s = views(v@);
    let mut out: Vec<Node> = Vec::new();
    let mut i: usize = 0;
    assert(views(out@) =~= Seq::empty());
    while i < v.len()
        invariant
            i <= v@.len(),
            s == views(v@),
            views(out@) == inside_in(s, i as int),
        decreases v@.len() - i,
    {
        proof {
            broadcast use vstd::seq::axiom_seq_index_decreases;

            assert(s[i as int] == v@[i as int]@);
            assert(decreases_to!(s => s[i as int]));
        }
        let mut found = transform_inside(&v[i]);
        let ghost before = out@;
        let ghost add = found@;
        out.append(&mut found);
        proof {
            lemma_views_concat(before, add);
        }
        i += 1;
    }
    out
}

/// Whether a text payload carries nothing.
fn is_blank_text(text: &str) -> (r: bool)
    ensures
        r == is_blank(text@),
{
    let t = chars_of(text);
    if t.len() == 0 {
        return true;
    }
    if t.len() == 1 && (t[0] == '~' || t[0] == ' ') {
        assert(t@ =~= seq![t@[0]]);
        return true;
    }
    proof {
        if t@ == seq!['~'] || t@ == seq![' '] {
            assert(t@[0] == '~' || t@[0] == ' ');
        }
    }
    false
}

/// Removes, bottom-up, elements left without children (but for line breaks
/// and elements whose `content` attribute holds their value) and text nodes
/// that carry nothing.
pub fn remove_empty_nodes(n: &Node) -> (r: Vec<Node>)
    ensures
        views(r@) == empty_of(n@),
    decreases n@, 0int,
{
    match n {
        Node::Element { name, attrs, children } => {
            proof {
                lemma_element_view(*name, *attrs, *children);
                assert(decreases_to!(n@ => n@->kids));
            }
            let k = empty_nodes(children);
            let keep = str_eq(name.as_str(), "br") || (has_attr_exec(attrs, "itemprop")
                && has_attr_exec(attrs, "content")) || (has_attr_exec(attrs, "itemtype")
                && has_attr_exec(attrs, "content"));
            if k.len() == 0 && !keep {
                let v: Vec<Node> = Vec::new();
                assert(views(v@) =~= Seq::empty());
                v
            } else {
                let nm = name.clone();
                let a = copy_attrs(attrs);
                proof {
                    lemma_element_view(nm, a, k);
                }
                single(Node::Element { name: nm, attrs: a, children: k })
            }
        },
        Node::Text { text } => {
            if is_blank_text(text.as_str()) {
                let v: Vec<Node> = Vec::new();
                assert(views(v@) =~= Seq::empty());
                v
            } else {
                single(Node::Text { text: text.clone() })
            }
        },
    }
}

/// `remove_empty_nodes` over a sequence of nodes.
pub fn empty_nodes(v: &Vec<Node>) -> (r: Vec<Node>)
    ensures
        views(r@) == empty_in(views(v@), v@.len() as int),
    decreases views(v@), v@.len(),
{
    let ghost s = views(v@);
    let mut out: Vec<Node> = Vec::new();
    let mut i: usize = 0;
    assert(views(out@) =~= Seq::empty());
    while i < v.len()
        invariant
            i <= v@.len(),
            s == views(v@),
            views(out@) == empty_in(s, i as int),
        decreases v@.len() - i,
    {
        proof {
            broadcast use vstd::seq::axiom_seq_index_decreases;

            assert(s[i as int] == v@[i as int]@);
            assert(decreases_to!(s => s[i as int]));
        }
        let mut found = remove_empty_nodes(&v[i]);
        let ghost before = out@;
        let ghost add = found@;
        out.append(&mut found);
        proof {
            lemma_views_concat(before, add);
        }
        i += 1;
    }
    out
}

/// Prunes a Question subtree: the inside transform, then empty-node removal
/// over what it left.
pub fn prune_question(n: &Node) -> (r: Vec<Node>)
    ensures
        views(r@) == pruned(n@),
{
    let a = transform_inside(n);
    empty_nodes(&a)
}

/// Every attribute carries structured-data meaning.
pub open spec fn attrs_ok(a: Seq<(Seq<char>, Seq<char>)>) -> bool {
    forall|i: int| 0 <= i < a.len() ==> keep_attr(#[trigger] a[i])
}

/// Every element of the tree has only structured-data attributes and, when
/// `media` holds, is no media element.
pub open spec fn shaped(t: Tree, media: bool) -> bool
    decreases t, 0int,
{
    match t {
        Tree::Elem { name, attrs, kids } => attrs_ok(attrs) && (media ==> !is_media(name))
            && shaped_in(kids, kids.len() as int, media),
        Tree::Txt { .. } => true,
    }
}

/// `shaped` holds of the first `n` trees of `s`.
pub open spec fn shaped_in(s: Seq<Tree>, n: int, media: bool) -> bool
    decreases s, n,
{
    if n <= 0 || n > s.len() {
        true
    } else {
        shaped_in(s, n - 1, media) && {
            proof {
                broadcast use vstd::seq::axiom_seq_index_decreases;

            }
            shaped(s[n - 1], media)
        }
    }
}

/// No node of the tree is a blank text or an element without children that
/// is not kept when empty.
pub open spec fn cleaned(t: Tree) -> bool
    decreases t, 0int,
{
    match t {
        Tree::Elem { name, attrs, kids } => (kids.len() > 0 || keeps_when_empty(name, attrs))
            && cleaned_in(kids, kids.len() as int),
        Tree::Txt { text } => !is_blank(text),
    }
}

/// `cleaned` holds of the first `n` trees of `s`.
pub open spec fn cleaned_in(s: Seq<Tree>, n: int) -> bool
    decreases s, n,
{
    if n <= 0 || n > s.len() {
        true
    } else {
        cleaned_in(s, n - 1) && {
            proof {
                broadcast use vstd::seq::axiom_seq_index_decreases;

            }
            cleaned(s[n - 1])
        }
    }
}

/// No element that the inside transform keeps outside a leaf is a media
/// element.
pub open spec fn no_kept_media(t: Tree) -> bool
    decreases t, 0int,
{
    match t {
        Tree::Elem { name, attrs, kids } => is_leaf(attrs) || ((is_structured(filter_attrs(attrs))
            ==> !is_media(name)) && no_kept_media_in(kids, kids.len() as int)),
        Tree::Txt { .. } => true,
    }
}

/// `no_kept_media` holds of the first `n` trees of `s`.
pub open spec fn no_kept_media_in(s: Seq<Tree>, n: int) -> bool
    decreases s, n,
{
    if n <= 0 || n > s.len() {
        true
    } else {
        no_kept_media_in(s, n - 1) && {
            proof {
                broadcast use vstd::seq::axiom_seq_index_decreases;

            }
            no_kept_media(s[n - 1])
        }
    }
}

proof fn lemma_shaped_in_all(s: Seq<Tree>, n: int, media: bool)
    requires
        0 <= n <= s.len(),
    ensures
        shaped_in(s, n, media) <==> forall|i: int| 0 <= i < n ==> shaped(#[trigger] s[i], media),
    decreases n,
{
    if n > 0 {
        lemma_shaped_in_all(s, n - 1, media);
    }
}

proof fn lemma_cleaned_in_all(s: Seq<Tree>, n: int)
    requires
        0 <= n <= s.len(),
    ensures
        cleaned_in(s, n) <==> forall|i: int| 0 <= i < n ==> cleaned(#[trigger] s[i]),
    decreases n,
{
    if n > 0 {
        lemma_cleaned_in_all(s, n - 1);
    }
}

proof fn lemma_no_kept_media_in_all(s: Seq<Tree>, n: int)
    requires
        0 <= n <= s.len(),
    ensures
        no_kept_media_in(s, n) <==> forall|i: int| 0 <= i < n ==> no_kept_media(#[trigger] s[i]),
    decreases n,
{
    if n > 0 {
        lemma_no_kept_media_in_all(s, n - 1);
    }
}

proof fn lemma_filter_attrs_ok(a: Seq<(Seq<char>, Seq<char>)>)
    ensures
        attrs_ok(filter_attrs(a)),
    decreases a.len(),
{
    if a.len() > 0 {
        lemma_filter_attrs_ok(a.drop_last());
    }
}

proof fn lemma_props_shaped(t: Tree, media: bool)
    ensures
        forall|i: int| 0 <= i < props_of(t).len() ==> shaped(#[trigger] props_of(t)[i], media),
    decreases t, 0int,
{
    match t {
        Tree::Elem { name, attrs, kids } => {
            lemma_props_in_shaped(kids, kids.len() as int, media);
            let k = props_in(kids, kids.len() as int);
            lemma_shaped_in_all(k, k.len() as int, media);
            lemma_filter_attrs_ok(attrs);
        },
        Tree::Txt { .. } => {},
    }
}

proof fn lemma_props_in_shaped(s: Seq<Tree>, n: int, media: bool)
    ensures
        forall|i: int| 0 <= i < props_in(s, n).len() ==> shaped(#[trigger] props_in(s, n)[i], media),
    decreases s, n,
{
    if 0 < n <= s.len() {
        broadcast use vstd::seq::axiom_seq_index_decreases;

        lemma_props_in_shaped(s, n - 1, media);
        lemma_props_shaped(s[n - 1], media);
        let a = props_in(s, n - 1);
        let b = props_of(s[n - 1]);
        assert forall|i: int| 0 <= i < (a + b).len() implies shaped(#[trigger] (a + b)[i], media) by {
            if i >= a.len() {
                assert((a + b)[i] == b[i - a.len()]);
            }
        }
    }
}

proof fn lemma_inside_shaped(t: Tree, media: bool)
    requires
        media ==> no_kept_media(t),
    ensures
        forall|i: int| 0 <= i < inside_of(t).len() ==> shaped(#[trigger] inside_of(t)[i], media),
    decreases t, 0int,
{
    match t {
        Tree::Elem { name, attrs, kids } => {
            if is_leaf(attrs) {
                lemma_props_shaped(Tree::Elem { name, attrs: filter_attrs(attrs), kids }, media);
            } else {
                lemma_no_kept_media_in_all(kids, kids.len() as int);
                lemma_inside_in_shaped(kids, kids.len() as int, media);
                let k = inside_in(kids, kids.len() as int);
                lemma_shaped_in_all(k, k.len() as int, media);
                lemma_filter_attrs_ok(attrs);
            }
        },
        Tree::Txt { .. } => {},
    }
}

proof fn lemma_inside_in_shaped(s: Seq<Tree>, n: int, media: bool)
    requires
        0 <= n <= s.len(),
        media ==> forall|i: int| 0 <= i < n ==> no_kept_media(#[trigger] s[i]),
    ensures
        forall|i: int| 0 <= i < inside_in(s, n).len() ==> shaped(#[trigger] inside_in(s, n)[i], media),
    decreases s, n,
{
    if 0 < n {
        broadcast use vstd::seq::axiom_seq_index_decreases;

        lemma_inside_in_shaped(s, n - 1, media);
        lemma_inside_shaped(s[n - 1], media);
        let a = inside_in(s, n - 1);
        let b = inside_of(s[n - 1]);
        assert forall|i: int| 0 <= i < (a + b).len() implies shaped(#[trigger] (a + b)[i], media) by {
            if i >= a.len() {
                assert((a + b)[i] == b[i - a.len()]);
            }
        }
    }
}

proof fn lemma_empty_safe(t: Tree, media: bool)
    requires
        shaped(t, media),
    ensures
        forall|i: int|
            0 <= i < empty_of(t).len() ==> shaped(#[trigger] empty_of(t)[i], media) && cleaned(
                empty_of(t)[i],
            ),
    decreases t, 0int,
{
    match t {
        Tree::Elem { name, attrs, kids } => {
            lemma_shaped_in_all(kids, kids.len() as int, media);
            lemma_empty_in_safe(kids, kids.len() as int, media);
            let k = empty_in(kids, kids.len() as int);
            lemma_shaped_in_all(k, k.len() as int, media);
            lemma_cleaned_in_all(k, k.len() as int);
        },
        Tree::Txt { .. } => {},
    }
}

proof fn lemma_empty_in_safe(s: Seq<Tree>, n: int, media: bool)
    requires
        0 <= n <= s.len(),
        forall|i: int| 0 <= i < n ==> shaped(#[trigger] s[i], media),
    ensures
        forall|i: int|
            0 <= i < empty_in(s, n).len() ==> shaped(#[trigger] empty_in(s, n)[i], media) && cleaned(
                empty_in(s, n)[i],
            ),
    decreases s, n,
{
    if 0 < n {
        broadcast use vstd::seq::axiom_seq_index_decreases;

        lemma_empty_in_safe(s, n - 1, media);
        lemma_empty_safe(s[n - 1], media);
        let a = empty_in(s, n - 1);
        let b = empty_of(s[n - 1]);
        assert forall|i: int| 0 <= i < (a + b).len() implies shaped(#[trigger] (a + b)[i], media)
            && cleaned((a + b)[i]) by {
            if i >= a.len() {
                assert((a + b)[i] == b[i - a.len()]);
            }
        }
    }
}

/// After pruning, every remaining element carries only attributes whose
/// names start with "item", "content" or "date"; no remaining text is blank
/// and no remaining element is childless unless it is a line break or holds
/// its value in `content`. No remaining element is a media element either,
/// where no media element is kept, outside a leaf, for its structured-data
/// attributes.
pub proof fn lemma_pruning_safety(t: Tree)
    ensures
        forall|i: int|
            0 <= i < pruned(t).len() ==> shaped(#[trigger] pruned(t)[i], false) && cleaned(
                pruned(t)[i],
            ),
        no_kept_media(t) ==> forall|i: int|
            0 <= i < pruned(t).len() ==> shaped(#[trigger] pruned(t)[i], true),
{
    let a = inside_of(t);
    lemma_inside_shaped(t, false);
    lemma_empty_in_safe(a, a.len() as int, false);
    if no_kept_media(t) {
        lemma_inside_shaped(t, true);
        lemma_empty_in_safe(a, a.len() as int, true);
    }
}

} // verus!
