use vstd::prelude::*;
use crate::text::{chars_of, string_of, contains, occurs_at, find_first};
use crate::tree::{Node, Tree, views};
use crate::query::{question_type, lang_in, questions_in, find_lang_tag, transform_outside};
use crate::render::{minified, minify_question};

verus! {

/// The language given to a page on which no `html` element carries one.
pub open spec fn unknown_language() -> Seq<char> {
    "-"@
}

/// One extracted page: its minified Question markup, its language, and the
/// URI and IP address it was captured from.
pub struct HtmlMinified {
    pub mhtml: String,
    pub language: String,
    pub uri: String,
    pub ip_address: String,
}

impl HtmlMinified {
    /// The four fields, as character sequences.
    pub open spec fn view(&self) -> (Seq<char>, Seq<char>, Seq<char>, Seq<char>) {
        (self.mhtml@, self.language@, self.uri@, self.ip_address@)
    }

    /// A copy of the record.
    pub fn copy(&self) -> (r: HtmlMinified)
        ensures
            r.view() == self.view(),
    {
        HtmlMinified {
            mhtml: self.mhtml.clone(),
            language: self.language.clone(),
            uri: self.uri.clone(),
            ip_address: self.ip_address.clone(),
        }
    }
}

/// What `String::from_utf8_lossy` makes of a byte buffer.
pub uninterp spec fn lossy_text(b: Seq<u8>) -> Seq<char>;

/// Relies on String::from_utf8_lossy: the text depends on the bytes alone.
#[verifier::external_body]
fn decode_lossy(b: &[u8]) -> (r: String)
    ensures
        r@ == lossy_text(b@),
{
    String::from_utf8_lossy(b).into_owned()
}

/// Whether the text mentions the Question vocabulary.
pub fn contains_question(text: &str) -> (r: bool)
    ensures
        r == contains(text@, question_type()),
{
    let t = chars_of(text);
    let q = chars_of("https://schema.org/Question");
    find_first(&t, &q).is_some()
}

/// The blank line that ends the protocol headers of a capture.
pub open spec fn header_end() -> Seq<char> {
    "\r\n\r\n"@
}

/// What follows the first blank line of `s`, if there is one.
pub open spec fn is_content_of(s: Seq<char>, c: Seq<char>) -> bool {
    exists|i: int|
        occurs_at(s, header_end(), i) && (forall|j: int| 0 <= j < i ==> !occurs_at(s, header_end(), j))
            && c == s.subrange(i + 4, s.len() as int)
}

/// The content of a captured response: what follows the first blank line.
pub fn split_body(text: &str) -> (r: Option<String>)
    ensures
        r is None <==> !contains(text@, header_end()),
        r matches Some(c) ==> is_content_of(text@, c@),
{
    let t = chars_of(text);
    let sep = chars_of("\r\n\r\n");
    proof {
        reveal_strlit("\r\n\r\n");
    }
    match find_first(&t, &sep) {
        Some(i) => {
            assert(sep@.len() == 4);
            assert(i + 4 <= t@.len());
            assert(t@.len() == t.len());
            let mut c: Vec<char> = Vec::new();
            let mut k: usize = i + 4;
            while k < t.len()
                invariant
                    i + 4 <= k <= t@.len(),
                    c@ == t@.subrange(i + 4, k as int),
                decreases t@.len() - k,
            {
                c.push(t[k]);
                k += 1;
                assert(c@ =~= t@.subrange(i + 4, k as int));
            }
            let r = string_of(&c);
            assert(occurs_at(text@, header_end(), i as int));
            Some(r)
        },
        None => None,
    }
}

/// The pre-filter and split of a decoded page: `None` when the text does
/// not mention the Question vocabulary (no parsing is needed then) or has no
/// blank line after its headers; else the content after that line.
pub fn page_text_content(text: &str) -> (r: Option<String>)
    ensures
        !contains(text@, question_type()) ==> r is None,
        contains(text@, question_type()) ==> (r is None <==> !contains(text@, header_end())),
        r matches Some(c) ==> is_content_of(text@, c@),
{
    if !contains_question(text) {
        return None;
    }
    split_body(text)
}

/// The content of a captured body worth parsing, as `page_text_content`
/// gives it for the body decoded as UTF-8 with invalid sequences replaced.
pub fn page_content(body: &[u8]) -> (r: Option<String>)
    ensures
        !contains(lossy_text(body@), question_type()) ==> r is None,
        contains(lossy_text(body@), question_type()) ==> (r is None <==> !contains(
            lossy_text(body@),
            header_end(),
        )),
        r matches Some(c) ==> is_content_of(lossy_text(body@), c@),
{
    let text = decode_lossy(body);
    page_text_content(text.as_str())
}

/// The minified markups of Question subtrees, concatenated in order.
pub open spec fn page_markup(qs: Seq<Tree>) -> Seq<char>
    decreases qs.len(),
{
    if qs.len() == 0 {
        Seq::empty()
    } else {
        page_markup(qs.drop_last()) + minified(qs.last())
    }
}

/// The markup of the Question subtrees of two parts of a page, in order, is
/// the markup of the first part followed by that of the second.
pub proof fn lemma_page_markup_concat(a: Seq<Tree>, b: Seq<Tree>)
    ensures
        page_markup(a + b) == page_markup(a) + page_markup(b),
    decreases b.len(),
{
    if b.len() == 0 {
        assert(a + b =~= a);
        assert(page_markup(a) + page_markup(b) =~= page_markup(a));
    } else {
        assert((a + b).drop_last() =~= a + b.drop_last());
        lemma_page_markup_concat(a, b.drop_last());
        assert(page_markup(a + b) =~= page_markup(a) + page_markup(b));
    }
}

/// Two Question subtrees give the minified markup of the first followed by
/// that of the second.
pub proof fn lemma_two_questions(q1: Tree, q2: Tree)
    ensures
        page_markup(seq![q1, q2]) == minified(q1) + minified(q2),
{
    assert(seq![q1, q2].drop_last() =~= seq![q1]);
    assert(seq![q1].drop_last() =~= Seq::<Tree>::empty());
    assert(seq![q1].last() == q1);
    assert(seq![q1, q2].last() == q2);
    assert(page_markup(Seq::<Tree>::empty()).len() == 0);
    assert(page_markup(seq![q1]) =~= minified(q1));
}

/// The language of a parsed document, or the unknown marker.
pub open spec fn page_language(doc: Seq<Tree>) -> Seq<char> {
    match lang_in(doc, doc.len() as int) {
        Some(l) => l,
        None => unknown_language(),
    }
}

/// Extracts one page from its parsed document: `None` when it holds no
/// Question subtree; otherwise the minified markups of all of them, in
/// document order, with the page's language (or the unknown marker), URI
/// and IP address. The markup may be empty when everything was pruned.
pub fn process_page(doc: &Vec<Node>, uri: String, ip: String) -> (r: Option<HtmlMinified>)
    ensures
        r is None <==> questions_in(views(doc@), doc@.len() as int).len() == 0,
        r matches Some(m) ==> m.mhtml@ == page_markup(
            questions_in(views(doc@), doc@.len() as int),
        ) && m.language@ == page_language(views(doc@)) && m.uri@ == uri@ && m.ip_address@
            == ip@,
{
    let language = match find_lang_tag(doc) {
        Some(l) => l,
        None => string_of(&chars_of("-")),
    };
    let questions = match transform_outside(doc) {
        Some(q) => q,
        None => {
            return None;
        },
    };
    let ghost qs = views(questions@);
    let mut markup: Vec<char> = Vec::new();
    let mut i: usize = 0;
    assert(qs.subrange(0, 0) =~= Seq::<Tree>::empty());
    while i < questions.len()
        invariant
            i <= questions@.len(),
            qs == views(questions@),
            markup@ == page_markup(qs.subrange(0, i as int)),
        decreases questions@.len() - i,
    {
        let m = minify_question(&questions[i]);
        let mc = chars_of(m.as_str());
        let mut k: usize = 0;
        let ghost before = markup@;
        while k < mc.len()
            invariant
                k <= mc@.len(),
                markup@ == before + mc@.subrange(0, k as int),
            decreases mc@.len() - k,
        {
            markup.push(mc[k]);
            k += 1;
            assert(markup@ =~= before + mc@.subrange(0, k as int));
        }
        assert(mc@.subrange(0, mc@.len() as int) =~= mc@);
        assert(qs.subrange(0, i + 1).drop_last() =~= qs.subrange(0, i as int));
        i += 1;
    }
    assert(qs.subrange(0, qs.len() as int) =~= qs);
    Some(HtmlMinified { mhtml: string_of(&markup), language, uri, ip_address: ip })
}

/// The present results whose markup is not empty, in order.
pub open spec fn nonempty_results(s: Seq<Option<HtmlMinified>>) -> Seq<
    (Seq<char>, Seq<char>, Seq<char>, Seq<char>),
>
    decreases s.len(),
{
    if s.len() == 0 {
        Seq::empty()
    } else {
        match s.last() {
            Some(m) => if m.mhtml@.len() > 0 {
                nonempty_results(s.drop_last()).push(m.view())
            } else {
                nonempty_results(s.drop_last())
            },
            None => nonempty_results(s.drop_last()),
        }
    }
}

/// Keeps the present results whose markup is not empty.
pub fn keep_nonempty(results: &Vec<Option<HtmlMinified>>) -> (r: Vec<HtmlMinified>)
    ensures
        r@.map_values(|m: HtmlMinified| m.view()) == nonempty_results(results@),
{
    let mut out: Vec<HtmlMinified> = Vec::new();
    let mut i: usize = 0;
    assert(out@.map_values(|m: HtmlMinified| m.view()) =~= Seq::empty());
    while i < results.len()
        invariant
            i <= results@.len(),
            out@.map_values(|m: HtmlMinified| m.view()) == nonempty_results(
                results@.subrange(0, i as int),
            ),
        decreases results@.len() - i,
    {
        assert(results@.subrange(0, i + 1).drop_last() =~= results@.subrange(0, i as int));
        match &results[i] {
            Some(m) => {
                if !m.mhtml.as_str().is_empty() {
                    let ghost before = out@;
                    out.push(m.copy());
                    assert(out@.map_values(|m: HtmlMinified| m.view()) =~= before.map_values(
                        |m: HtmlMinified| m.view(),
                    ).push(m.view()));
                }
            },
            None => {},
        }
        i += 1;
    }
    assert(results@.subrange(0, results@.len() as int) =~= results@);
    out
}

} // verus!
