use ccqa::extract::{
    contains_question, keep_nonempty, page_content, page_text_content, process_page, split_body,
    HtmlMinified,
};
use ccqa::prune::{inside_props, is_media_tag, prune_question, remove_empty_nodes, transform_inside};
use ccqa::query::{find_lang_tag, transform_outside};
use ccqa::render::{minify_question, render_nodes};
use ccqa::tree::{Attr, Node};

const Q: &str = "https://schema.org/Question";

fn el(name: &str, attrs: &[(&str, &str)], children: Vec<Node>) -> Node {
    Node::Element {
        name: name.to_string(),
        attrs: attrs
            .iter()
            .map(|(k, v)| Attr { name: k.to_string(), value: v.to_string() })
            .collect(),
        children,
    }
}

fn tx(s: &str) -> Node {
    Node::Text { text: s.to_string() }
}

fn render(nodes: &Vec<Node>) -> String {
    let mut out: Vec<char> = Vec::new();
    render_nodes(&mut out, nodes, false, false);
    out.into_iter().collect()
}

fn page(body: Vec<Node>, lang: Option<&str>) -> Vec<Node> {
    let attrs: Vec<(&str, &str)> = match lang {
        Some(l) => vec![("lang", l)],
        None => vec![],
    };
    vec![el("html", &attrs, vec![el("head", &[], vec![]), el("body", &[], body)])]
}

fn question_what_is_x() -> Node {
    el(
        "div",
        &[("itemtype", Q), ("class", "q")],
        vec![tx("\n  "), el("span", &[("itemprop", "name"), ("id", "n")], vec![tx("What is X?")])],
    )
}

#[test]
fn scenario_one_record_with_language() {
    let body = format!(
        "HTTP/1.1 200 OK\r\nContent-Type: text/html\r\n\r\n<html lang=\"en\"><body><div itemtype=\"{}\"></div></body></html>",
        Q
    );
    let content = page_content(body.as_bytes()).unwrap();
    assert!(content.starts_with("<html lang=\"en\">"));
    let doc = page(vec![question_what_is_x()], Some("en"));
    let r = process_page(&doc, "http://a/".to_string(), "1.2.3.4".to_string()).unwrap();
    assert_eq!(r.language, "en");
    assert_eq!(r.uri, "http://a/");
    assert_eq!(r.ip_address, "1.2.3.4");
    assert_eq!(
        r.mhtml,
        format!("<div itemtype=\"{}\">  <span itemprop=\"name\">What is X?</span></div>", Q)
    );
    let kept = keep_nonempty(&vec![Some(r)]);
    assert_eq!(kept.len(), 1);
}

#[test]
fn scenario_no_question_gives_nothing() {
    let body = "HTTP/1.1 200 OK\r\n\r\n<html><body><p>nothing</p></body></html>";
    assert!(page_content(body.as_bytes()).is_none());
    assert!(page_text_content(body).is_none());
    let results: Vec<Option<HtmlMinified>> = vec![None];
    assert_eq!(keep_nonempty(&results).len(), 0);
}

#[test]
fn scenario_everything_pruned_is_dropped() {
    let q = el("div", &[("itemtype", Q)], vec![el("a", &[("itemprop", "url")], vec![tx("link")])]);
    let doc = page(vec![q], Some("en"));
    let r = process_page(&doc, "u".to_string(), "i".to_string()).unwrap();
    assert_eq!(r.mhtml, "");
    assert_eq!(keep_nonempty(&vec![Some(r)]).len(), 0);
}

#[test]
fn two_questions_concatenate_in_order() {
    let q1 = el("div", &[("itemtype", Q)], vec![el("span", &[("itemprop", "name")], vec![tx("A?")])]);
    let q2 = el("div", &[("itemtype", Q)], vec![el("span", &[("itemprop", "name")], vec![tx("B?")])]);
    let m1 = minify_question(&q1);
    let m2 = minify_question(&q2);
    let doc = page(vec![q1, el("p", &[], vec![tx("between")]), q2], None);
    let r = process_page(&doc, "u".to_string(), "i".to_string()).unwrap();
    assert_eq!(r.mhtml, format!("{}{}", m1, m2));
    assert_eq!(
        r.mhtml,
        format!(
            "<div itemtype=\"{q}\"><span itemprop=\"name\">A?</span></div><div itemtype=\"{q}\"><span itemprop=\"name\">B?</span></div>",
            q = Q
        )
    );
}

#[test]
fn language_falls_back_to_unknown() {
    let q = el("div", &[("itemtype", Q)], vec![el("span", &[("itemprop", "text")], vec![tx("x")])]);
    let no_lang = page(vec![q], None);
    let r = process_page(&no_lang, "u".to_string(), "i".to_string()).unwrap();
    assert_eq!(r.language, "-");
    let q = el("div", &[("itemtype", Q)], vec![el("span", &[("itemprop", "text")], vec![tx("x")])]);
    let no_html = vec![el("body", &[], vec![q])];
    assert_eq!(find_lang_tag(&no_html), None);
    let r = process_page(&no_html, "u".to_string(), "i".to_string()).unwrap();
    assert_eq!(r.language, "-");
}

#[test]
fn first_language_in_preorder_wins() {
    let doc = vec![el(
        "html",
        &[],
        vec![el("html", &[("lang", "de")], vec![]), el("html", &[("lang", "fr")], vec![])],
    )];
    assert_eq!(find_lang_tag(&doc), Some("de".to_string()));
}

#[test]
fn no_question_subtree_gives_none() {
    let doc = page(vec![el("div", &[("itemtype", "https://schema.org/Answer")], vec![])], None);
    assert!(transform_outside(&doc).is_none());
    assert!(process_page(&doc, "u".to_string(), "i".to_string()).is_none());
}

#[test]
fn nested_questions_are_not_split() {
    let inner = el("div", &[("itemtype", Q)], vec![]);
    let outer = el("section", &[("itemtype", Q)], vec![inner]);
    let doc = vec![el("body", &[], vec![outer, el("div", &[("itemtype", Q)], vec![])])];
    let found = transform_outside(&doc).unwrap();
    assert_eq!(found.len(), 2);
    assert_eq!(render(&vec![found.into_iter().next().unwrap()]),
        format!("<section itemtype=\"{q}\"><div itemtype=\"{q}\"></div></section>", q = Q));
}

#[test]
fn pruning_leaves_only_structured_markup() {
    let q = el(
        "div",
        &[("itemtype", Q), ("style", "x")],
        vec![
            el("div", &[("class", "wrap")], vec![el(
                "span",
                &[("itemprop", "text"), ("class", "c"), ("itemid", "")],
                vec![el("img", &[("src", "a.png")], vec![]), tx("Body\ntext"), el("i", &[], vec![])],
            )]),
            el("meta", &[("itemprop", "dateCreated"), ("content", "2020")], vec![]),
            el("span", &[("itemprop", "name")], vec![tx("   ")]),
        ],
    );
    let out = prune_question(&q);
    assert_eq!(
        render(&out),
        format!(
            "<div itemtype=\"{}\"><span itemprop=\"text\">Body~text</span><meta itemprop=\"dateCreated\" content=\"2020\"></div>",
            Q
        )
    );
}

#[test]
fn media_leaf_is_spliced() {
    let leaf = el("button", &[("itemprop", "image")], vec![tx("x")]);
    let out = inside_props(&leaf);
    assert_eq!(render(&out), "x");
    assert!(is_media_tag("svg"));
    assert!(is_media_tag("linkbutton"));
    assert!(!is_media_tag("span"));
}

#[test]
fn text_outside_leaves_is_kept_unchanged() {
    let q = el("div", &[("itemtype", Q)], vec![tx("a\tb"), el("b", &[], vec![tx("c")])]);
    let out = transform_inside(&q);
    assert_eq!(render(&out), format!("<div itemtype=\"{}\">a\tbc</div>", Q));
}

#[test]
fn line_breaks_survive_empty_removal() {
    let n = el("p", &[("itemprop", "x")], vec![el("br", &[], vec![]), tx("~"), tx(" "), tx("")]);
    let out = remove_empty_nodes(&n);
    assert_eq!(render(&out), "<p itemprop=\"x\"><br></p>");
    let e = el("p", &[("class", "x")], vec![tx(" ")]);
    assert_eq!(remove_empty_nodes(&e).len(), 0);
}

#[test]
fn markup_is_escaped_twice_in_leaves() {
    let q = el("div", &[("itemtype", Q)], vec![el("span", &[("itemprop", "name")], vec![tx("a & b")])]);
    assert_eq!(
        minify_question(&q),
        format!("<div itemtype=\"{}\"><span itemprop=\"name\">a &amp;amp; b</span></div>", Q)
    );
}

#[test]
fn minified_markup_collapses_separators_and_breaks() {
    let q = el(
        "div",
        &[("itemtype", Q)],
        vec![el(
            "span",
            &[("itemprop", "text")],
            vec![tx("a\n\n\nb"), el("br", &[], vec![]), el("br", &[], vec![]), tx("c")],
        )],
    );
    assert_eq!(
        minify_question(&q),
        format!("<div itemtype=\"{}\"><span itemprop=\"text\">a~b<br>c</span></div>", Q)
    );
}

#[test]
fn question_marker_and_body_split() {
    assert!(contains_question(&format!("xx{}yy", Q)));
    assert!(!contains_question("https://schema.org/Answer"));
    assert_eq!(split_body("H: v\r\n\r\nbody\r\n\r\nmore"), Some("body\r\n\r\nmore".to_string()));
    assert_eq!(split_body("H: v\r\nno blank line"), None);
    let no_split = format!("H: v\r\n{}", Q);
    assert!(page_text_content(&no_split).is_none());
}

#[test]
fn invalid_utf8_is_replaced() {
    let mut body = b"H: v\r\n\r\n\xff".to_vec();
    body.extend_from_slice(Q.as_bytes());
    assert_eq!(page_content(&body), Some(format!("\u{FFFD}{}", Q)));
}

#[test]
fn media_with_item_type_stays_outside_leaves() {
    let q = el(
        "div",
        &[("itemtype", Q)],
        vec![el("button", &[("itemtype", "https://schema.org/Action"), ("onclick", "f()")], vec![tx("Go")])],
    );
    assert_eq!(
        render(&prune_question(&q)),
        format!("<div itemtype=\"{}\"><button itemtype=\"https://schema.org/Action\">Go</button></div>", Q)
    );
}
