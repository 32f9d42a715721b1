use ccqa::text::{
    chars_of, clean_text, emptyspaces, find_first, is_emptyspace, reduce_breaks, reduce_marker,
    reduce_tilde, str_eq,
};

fn reduce(s: &str, m: &str) -> String {
    reduce_marker(&chars_of(s), &chars_of(m)).into_iter().collect()
}

#[test]
fn emptyspace_characters() {
    assert!(is_emptyspace(' '));
    assert!(is_emptyspace('\u{202F}'));
    assert!(is_emptyspace('\t'));
    assert!(is_emptyspace('\n'));
    assert!(!is_emptyspace('a'));
    assert!(!is_emptyspace('\u{2002}'));
}

#[test]
fn emptyspaces_keeps_first_of_each_run() {
    assert_eq!(emptyspaces("a  b"), "a b");
    assert_eq!(emptyspaces("a\t\t b"), "a\tb");
    assert_eq!(emptyspaces("  x\n\n\ny "), " x\ny ");
    assert_eq!(emptyspaces("no runs here"), "no runs here");
    assert_eq!(emptyspaces(""), "");
}

#[test]
fn emptyspaces_is_idempotent() {
    for s in ["a  b\t\t c", "   ", "x\u{202F} \ty", "plain"] {
        let once = emptyspaces(s);
        assert_eq!(emptyspaces(&once), once);
    }
}

#[test]
fn marker_runs_collapse_to_one() {
    assert_eq!(reduce("a~~~b~c", "~"), "a~b~c");
    for n in 1..6 {
        let s = format!("x{}y", "~".repeat(n));
        assert_eq!(reduce(&s, "~"), "x~y");
        let b = format!("<p>{}</p>", "<br>".repeat(n));
        assert_eq!(reduce(&b, "<br>"), "<p><br></p>");
    }
    assert_eq!(reduce("<br><br>a<br>", "<br>"), "<br>a<br>");
    assert_eq!(reduce("", "~"), "");
}

#[test]
fn clean_text_pipeline() {
    assert_eq!(clean_text("  Hello\n\n world & <x> "), "Hello~~ world &amp; &lt;x&gt;");
    assert_eq!(clean_text("a\nb"), "a~b");
    assert_eq!(clean_text("   "), "");
}

#[test]
fn clean_text_escapes_entities() {
    assert_eq!(clean_text("a>b"), "a&gt;b");
    assert_eq!(clean_text("\"q\""), "\"q\"");
}

#[test]
fn find_first_occurrence() {
    assert_eq!(find_first(&chars_of("abcabc"), &chars_of("ca")), Some(2));
    assert_eq!(find_first(&chars_of("abc"), &chars_of("d")), None);
    assert_eq!(find_first(&chars_of("ab"), &chars_of("abc")), None);
    assert!(str_eq("same", "same"));
    assert!(!str_eq("same", "Same"));
}

#[test]
fn tilde_and_break_reduction() {
    assert_eq!(reduce_tilde("a~~b~~~".to_string()), "a~b~");
    assert_eq!(reduce_tilde("<br><br>".to_string()), "<br><br>");
    assert_eq!(reduce_breaks("x<br><br><br>y<br>".to_string()), "x<br>y<br>");
    assert_eq!(reduce_breaks("~~".to_string()), "~~");
}
