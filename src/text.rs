use vstd::prelude::*;
use vstd::std_specs::iter::IteratorSpec;

verus! {

/// Relies on String::push: the character is appended at the end.
pub assume_specification[ String::push ](s: &mut String, ch: char)
    ensures
        final(s)@ == old(s)@.push(ch),
;

/// The whitespace characters that are collapsed.
pub open spec fn is_ws(c: char) -> bool {
    c == ' ' || c == '\u{202F}' || c == '\t' || c == '\n'
}

/// Whether `c` is one of the collapsed whitespace characters.
pub fn is_emptyspace(c: char) -> (r: bool)
    ensures
        r == is_ws(c),
{
    c == ' ' || c == '\u{202F}' || c == '\t' || c == '\n'
}

/// Each run of whitespace keeps only its first character.
pub open spec fn collapse_ws(s: Seq<char>) -> Seq<char>
    decreases s.len(),
{
    if s.len() == 0 {
        s
    } else {
        let p = collapse_ws(s.drop_last());
        if s.len() >= 2 && is_ws(s.last()) && is_ws(s[s.len() - 2]) {
            p
        } else {
            p.push(s.last())
        }
    }
}

/// The characters of a string slice, in order.
pub fn chars_of(s: &str) -> (r: Vec<char>)
    ensures
        r@ == s@,
{
    broadcast use vstd::string::group_string_axioms;

    let mut it = s.chars();
    let mut out: Vec<char> = Vec::new();
    loop
        invariant
            out@ + it.remaining() == s@,
            it.obeys_prophetic_iter_laws(),
            it.decrease() is Some,
        decreases it.decrease()->0,
    {
        let ghost before = it.remaining();
        match it.next() {
            Some(c) => {
                out.push(c);
                assert(out@ + it.remaining() =~= s@) by {
                    assert(before =~= seq![c] + it.remaining());
                    assert(out@ =~= out@.drop_last() + seq![c]);
                }
            },
            None => {
                assert(out@ =~= s@);
                return out;
            },
        }
    }
}

/// A string holding the given characters.
pub fn string_of(v: &Vec<char>) -> (r: String)
    ensures
        r@ == v@,
{
    let mut s = String::new();
    let mut i: usize = 0;
    while i < v.len()
        invariant
            i <= v@.len(),
            s@ == v@.subrange(0, i as int),
        decreases v@.len() - i,
    {
        s.push(v[i]);
        i += 1;
        assert(s@ =~= v@.subrange(0, i as int));
    }
    assert(v@.subrange(0, v@.len() as int) =~= v@);
    s
}

/// Whether two character sequences are equal.
pub fn chars_eq(a: &Vec<char>, b: &Vec<char>) -> (r: bool)
    ensures
        r == (a@ == b@),
{
    if a.len() != b.len() {
        return false;
    }
    let mut i: usize = 0;
    while i < a.len()
        invariant
            a@.len() == b@.len(),
            i <= a@.len(),
            forall|j: int| 0 <= j < i ==> a@[j] == b@[j],
        decreases a@.len() - i,
    {
        if a[i] != b[i] {
            return false;
        }
        i += 1;
    }
    assert(a@ =~= b@);
    true
}

/// Whether the string slices `a` and `b` hold the same characters.
pub fn str_eq(a: &str, b: &str) -> (r: bool)
    ensures
        r == (a@ == b@),
{
    let x = chars_of(a);
    let y = chars_of(b);
    chars_eq(&x, &y)
}

/// Whether `p` occurs in `s` starting at index `i`.
pub open spec fn occurs_at(s: Seq<char>, p: Seq<char>, i: int) -> bool {
    0 <= i && i + p.len() <= s.len() && s.subrange(i, i + p.len()) == p
}

/// Whether `p` occurs anywhere in `s`.
pub open spec fn contains(s: Seq<char>, p: Seq<char>) -> bool {
    exists|i: int| occurs_at(s, p, i)
}

/// Whether `p` occurs in `s` starting at index `i`.
pub fn occurs_at_exec(s: &Vec<char>, p: &Vec<char>, i: usize) -> (r: bool)
    ensures
        r == occurs_at(s@, p@, i as int),
{
    if i > s.len() || p.len() > s.len() - i {
        return false;
    }
    let mut j: usize = 0;
    while j < p.len()
        invariant
            i + p@.len() <= s@.len(),
            s@.len() == s.len(),
            j <= p@.len(),
            forall|k: int| 0 <= k < j ==> s@[i + k] == p@[k],
        decreases p@.len() - j,
    {
        if s[i + j] != p[j] {
            assert(s@.subrange(i as int, i + p@.len())[j as int] != p@[j as int]);
            return false;
        }
        j += 1;
    }
    assert(s@.subrange(i as int, i + p@.len()) =~= p@);
    true
}

/// The first index at which `p` occurs in `s`, if any.
pub fn find_first(s: &Vec<char>, p: &Vec<char>) -> (r: Option<usize>)
    ensures
        r is None <==> !contains(s@, p@),
        r matches Some(i) ==> occurs_at(s@, p@, i as int) && forall|j: int|
            0 <= j < i ==> !occurs_at(s@, p@, j),
{
    if p.len() > s.len() {
        return None;
    }
    let last = s.len() - p.len();
    let mut i: usize = 0;
    while i <= last
        invariant
            last == s@.len() - p@.len(),
            forall|j: int| 0 <= j < i ==> !occurs_at(s@, p@, j),
        decreases last + 1 - i,
    {
        if occurs_at_exec(s, p, i) {
            return Some(i);
        }
        if i == last {
            return None;
        }
        i += 1;
    }
    None
}

/// Collapses every run of whitespace into its first character.
pub fn emptyspaces(input: &str) -> (r: String)
    ensures
        r@ == collapse_ws(input@),
{
    let s = chars_of(input);
    let mut out: Vec<char> = Vec::new();
    let mut previous_space = false;
    let mut i: usize = 0;
    while i < s.len()
        invariant
            i <= s@.len(),
            out@ == collapse_ws(s@.subrange(0, i as int)),
            previous_space == (i > 0 && is_ws(s@[i - 1])),
        decreases s@.len() - i,
    {
        let c = s[i];
        let ghost pre = s@.subrange(0, i as int);
        assert(s@.subrange(0, i + 1).drop_last() =~= pre);
        if is_emptyspace(c) {
            if !previous_space {
                out.push(c);
            }
            previous_space = true;
        } else {
            out.push(c);
            previous_space = false;
        }
        i += 1;
    }
    assert(s@.subrange(0, s@.len() as int) =~= s@);
    string_of(&out)
}

/// Collapsing twice gives what collapsing once gives.
pub proof fn lemma_collapse_ws_idempotent(s: Seq<char>)
    ensures
        collapse_ws(collapse_ws(s)) == collapse_ws(s),
    decreases s.len(),
{
    if s.len() > 0 {
        let t = s.drop_last();
        lemma_collapse_ws_idempotent(t);
        lemma_collapse_ws_last(t);
        let c = collapse_ws(s);
        let p = collapse_ws(t);
        if !(s.len() >= 2 && is_ws(s.last()) && is_ws(s[s.len() - 2])) {
            assert(c.drop_last() =~= p);
        }
    }
}

/// The last character of a collapsed string is whitespace exactly when that
/// of the uncollapsed string is.
pub proof fn lemma_collapse_ws_last(s: Seq<char>)
    ensures
        s.len() == 0 <==> collapse_ws(s).len() == 0,
        s.len() > 0 ==> is_ws(collapse_ws(s).last()) == is_ws(s.last()),
    decreases s.len(),
{
    if s.len() > 0 {
        lemma_collapse_ws_last(s.drop_last());
        if s.len() >= 2 {
            assert(s.drop_last().last() == s[s.len() - 2]);
        }
    }
}

/// Every maximal run of consecutive occurrences of `m` becomes one `m`;
/// `after` says that an occurrence has just been kept.
pub open spec fn collapse_runs(s: Seq<char>, m: Seq<char>, after: bool) -> Seq<char>
    decreases s.len(),
{
    if s.len() == 0 {
        s
    } else if m.len() > 0 && occurs_at(s, m, 0) {
        let rest = collapse_runs(s.subrange(m.len() as int, s.len() as int), m, true);
        if after {
            rest
        } else {
            m + rest
        }
    } else {
        seq![s[0]] + collapse_runs(s.drop_first(), m, false)
    }
}

/// `s` with every maximal run of occurrences of `m` reduced to one.
pub open spec fn collapse_marker(s: Seq<char>, m: Seq<char>) -> Seq<char> {
    collapse_runs(s, m, false)
}

/// Reduces each run of consecutive occurrences of `marker` in `input` to one.
pub fn reduce_marker(input: &Vec<char>, marker: &Vec<char>) -> (r: Vec<char>)
    requires
        marker@.len() > 0,
    ensures
        r@ == collapse_marker(input@, marker@),
{
    let mut out: Vec<char> = Vec::new();
    let mut after = false;
    let mut i: usize = 0;
    assert(input@.subrange(0, input@.len() as int) =~= input@);
    while i < input.len()
        invariant
            marker@.len() > 0,
            i <= input@.len(),
            out@ + collapse_runs(input@.subrange(i as int, input@.len() as int), marker@, after)
                == collapse_marker(input@, marker@),
        decreases input@.len() - i,
    {
        let ghost rest = input@.subrange(i as int, input@.len() as int);
        if occurs_at_exec(input, marker, i) {
            assert(occurs_at(rest, marker@, 0)) by {
                assert(rest.subrange(0, marker@.len() as int) =~= input@.subrange(
                    i as int,
                    i + marker@.len(),
                ));
            }
            assert(rest.subrange(marker@.len() as int, rest.len() as int) =~= input@.subrange(
                i + marker@.len(),
                input@.len() as int,
            ));
            if !after {
                let mut k: usize = 0;
                let ghost before = out@;
                while k < marker.len()
                    invariant
                        k <= marker@.len(),
                        out@ == before + marker@.subrange(0, k as int),
                    decreases marker@.len() - k,
                {
                    out.push(marker[k]);
                    k += 1;
                    assert(out@ =~= before + marker@.subrange(0, k as int));
                }
                assert(marker@.subrange(0, marker@.len() as int) =~= marker@);
                assert(out@ =~= before + marker@);
            }
            after = true;
            i += marker.len();
        } else {
            assert(!occurs_at(rest, marker@, 0)) by {
                if occurs_at(rest, marker@, 0) {
                    assert(rest.subrange(0, marker@.len() as int) =~= input@.subrange(
                        i as int,
                        i + marker@.len(),
                    ));
                }
            }
            assert(rest.drop_first() =~= input@.subrange(i + 1, input@.len() as int));
            let ghost before = out@;
            out.push(input[i]);
            assert(out@ =~= before + seq![rest[0]]);
            after = false;
            i += 1;
        }
    }
    assert(input@.subrange(i as int, input@.len() as int).len() == 0);
    assert(out@ =~= collapse_marker(input@, marker@));
    out
}

/// Collapses each run of the separator placeholder `~` to one.
pub fn reduce_tilde(input: String) -> (r: String)
    ensures
        r@ == collapse_marker(input@, "~"@),
{
    let marker = chars_of("~");
    proof {
        reveal_strlit("~");
    }
    string_of(&reduce_marker(&chars_of(input.as_str()), &marker))
}

/// Collapses each run of rendered line breaks `<br>` to one.
pub fn reduce_breaks(input: String) -> (r: String)
    ensures
        r@ == collapse_marker(input@, "<br>"@),
{
    let marker = chars_of("<br>");
    proof {
        reveal_strlit("<br>");
    }
    string_of(&reduce_marker(&chars_of(input.as_str()), &marker))
}

/// `k` copies of `m`, one after another.
pub open spec fn repeat(m: Seq<char>, k: nat) -> Seq<char>
    decreases k,
{
    if k == 0 {
        Seq::empty()
    } else {
        m + repeat(m, (k - 1) as nat)
    }
}

/// Once an occurrence is kept, the occurrences right after it are dropped.
proof fn lemma_runs_skip(m: Seq<char>, k: nat, b: Seq<char>)
    requires
        m.len() > 0,
    ensures
        collapse_runs(repeat(m, k) + b, m, true) == collapse_runs(b, m, true),
    decreases k,
{
    if k > 0 {
        let s = repeat(m, k) + b;
        assert(s =~= m + (repeat(m, (k - 1) as nat) + b));
        assert(s.subrange(0, m.len() as int) =~= m);
        assert(s.subrange(m.len() as int, s.len() as int) =~= repeat(m, (k - 1) as nat) + b);
        lemma_runs_skip(m, (k - 1) as nat, b);
    }
}

/// Scanning a prefix in which no occurrence of `m` starts copies it unchanged.
proof fn lemma_runs_prefix(a: Seq<char>, m: Seq<char>, rest: Seq<char>)
    requires
        m.len() > 0,
        forall|j: int| 0 <= j < a.len() ==> !occurs_at(a + rest, m, j),
    ensures
        collapse_runs(a + rest, m, false) == a + collapse_runs(rest, m, false),
    decreases a.len(),
{
    if a.len() > 0 {
        let s = a + rest;
        assert(!occurs_at(s, m, 0));
        assert(s.drop_first() =~= a.drop_first() + rest);
        assert forall|j: int| 0 <= j < a.drop_first().len() implies !occurs_at(
            a.drop_first() + rest,
            m,
            j,
        ) by {
            assert(!occurs_at(s, m, j + 1));
            if occurs_at(a.drop_first() + rest, m, j) {
                assert(s.subrange(j + 1, j + 1 + m.len()) =~= (a.drop_first() + rest).subrange(
                    j,
                    j + m.len(),
                ));
            }
        }
        lemma_runs_prefix(a.drop_first(), m, rest);
        assert(a + collapse_runs(rest, m, false) =~= seq![a[0]] + (a.drop_first()
            + collapse_runs(rest, m, false)));
    } else {
        assert(a + rest =~= rest);
        assert(a + collapse_runs(rest, m, false) =~= collapse_runs(rest, m, false));
    }
}

proof fn lemma_prefix_free(a: Seq<char>, m: Seq<char>, x: Seq<char>)
    requires
        forall|j: int| 0 <= j < a.len() ==> !occurs_at(a + m, m, j),
    ensures
        forall|j: int| 0 <= j < a.len() ==> !occurs_at(a + (m + x), m, j),
{
    assert forall|j: int| 0 <= j < a.len() implies !occurs_at(a + (m + x), m, j) by {
        if occurs_at(a + (m + x), m, j) {
            let u = a + (m + x);
            let v = a + m;
            assert forall|t: int| 0 <= t < m.len() implies #[trigger] u[j + t] == v[j + t] by {
                if j + t < a.len() {
                } else {
                    assert(u[j + t] == (m + x)[j + t - a.len()]);
                }
            }
            assert(u.subrange(j, j + m.len()) =~= v.subrange(j, j + m.len()));
            assert(occurs_at(v, m, j));
        }
    }
}

/// A run of any positive number of markers, after text in which no marker
/// starts, becomes exactly one marker: the result does not depend on the
/// length of the run.
pub proof fn lemma_marker_run(a: Seq<char>, m: Seq<char>, k: nat, b: Seq<char>)
    requires
        m.len() > 0,
        k >= 1,
        forall|j: int| 0 <= j < a.len() ==> !occurs_at(a + m, m, j),
    ensures
        collapse_marker(a + repeat(m, k) + b, m) == a + m + collapse_runs(b, m, true),
        collapse_marker(a + repeat(m, k) + b, m) == collapse_marker(a + m + b, m),
{
    let rest = repeat(m, k) + b;
    assert(repeat(m, k) =~= m + repeat(m, (k - 1) as nat));
    assert(rest =~= m + (repeat(m, (k - 1) as nat) + b));
    lemma_prefix_free(a, m, repeat(m, (k - 1) as nat) + b);
    lemma_prefix_free(a, m, b);
    assert(a + repeat(m, k) + b =~= a + rest);
    assert(a + m + b =~= a + (m + b));
    lemma_runs_prefix(a, m, rest);
    lemma_runs_prefix(a, m, m + b);
    assert(rest =~= m + (repeat(m, (k - 1) as nat) + b));
    assert(rest.subrange(0, m.len() as int) =~= m);
    assert(rest.subrange(m.len() as int, rest.len() as int) =~= repeat(m, (k - 1) as nat) + b);
    lemma_runs_skip(m, (k - 1) as nat, b);
    assert((m + b).subrange(0, m.len() as int) =~= m);
    assert((m + b).subrange(m.len() as int, (m + b).len() as int) =~= b);
    assert(a + (m + collapse_runs(b, m, true)) =~= a + m + collapse_runs(b, m, true));
}

/// What `str::trim` leaves of `s`: leading and trailing Unicode white space
/// removed.
pub uninterp spec fn trimmed(s: Seq<char>) -> Seq<char>;

/// Relies on str::trim: the result depends on the characters alone.
#[verifier::external_body]
fn trim_str(s: &str) -> (r: String)
    ensures
        r@ == trimmed(s@),
{
    s.trim().to_string()
}

/// The entity that stands for `c` in escaped text, or `c` itself.
pub open spec fn escape_char(c: char) -> Seq<char> {
    if c == '&' {
        seq!['&', 'a', 'm', 'p', ';']
    } else if c == '<' {
        seq!['&', 'l', 't', ';']
    } else if c == '>' {
        seq!['&', 'g', 't', ';']
    } else {
        seq![c]
    }
}

/// `s` with `&`, `<` and `>` replaced by their entities.
pub open spec fn escape_text(s: Seq<char>) -> Seq<char>
    decreases s.len(),
{
    if s.len() == 0 {
        s
    } else {
        escape_text(s.drop_last()) + escape_char(s.last())
    }
}

/// Relies on html_escape::encode_text, which replaces `&`, `<` and `>` by
/// `&amp;`, `&lt;` and `&gt;` and keeps every other character.
#[verifier::external_body]
fn encode_text(s: &str) -> (r: String)
    ensures
        r@ == escape_text(s@),
{
    html_escape::encode_text(s).into_owned()
}

/// The placeholder that stands for a line break inside text.
pub open spec fn separator() -> char {
    '~'
}

/// `s` with every newline replaced by the separator placeholder.
pub open spec fn newlines_to_separator(s: Seq<char>) -> Seq<char> {
    s.map_values(|c: char| if c == '\n' { separator() } else { c })
}

/// What cleaning makes of a text payload.
pub open spec fn clean_spec(s: Seq<char>) -> Seq<char> {
    escape_text(trimmed(collapse_ws(newlines_to_separator(s))))
}

/// Replaces newlines by the separator and collapses whitespace runs: the part
/// of text cleaning that comes before trimming.
pub fn separate_and_collapse(s: &str) -> (r: String)
    ensures
        r@ == collapse_ws(newlines_to_separator(s@)),
{
    let v = chars_of(s);
    let mut w: Vec<char> = Vec::new();
    let mut i: usize = 0;
    while i < v.len()
        invariant
            i <= v@.len(),
            w@ == newlines_to_separator(v@.subrange(0, i as int)),
        decreases v@.len() - i,
    {
        let c = v[i];
        if c == '\n' {
            w.push('~');
        } else {
            w.push(c);
        }
        i += 1;
        assert(w@ =~= newlines_to_separator(v@.subrange(0, i as int)));
    }
    assert(v@.subrange(0, v@.len() as int) =~= v@);
    let t = string_of(&w);
    emptyspaces(t.as_str())
}

/// Cleans a text payload: newlines become the separator, whitespace runs
/// collapse, the ends are trimmed and the result is entity-escaped.
pub fn clean_text(s: &str) -> (r: String)
    ensures
        r@ == clean_spec(s@),
{
    let collapsed = separate_and_collapse(s);
    let trimmed_text = trim_str(collapsed.as_str());
    encode_text(trimmed_text.as_str())
}

} // verus!
