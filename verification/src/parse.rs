//! The line parser: raw config-file bytes to a [`Config`].
//!
//! The file format is line oriented: `//` starts a comment that runs to
//! the end of the line, blank lines are skipped, and a valid entry line
//! has exactly the three whitespace-separated tokens `set <key> <value>`.
//! Other lines are reported and skipped; a repeated key is reported and
//! overwritten (the last occurrence wins). Only undecodable bytes fail.

use vstd::prelude::*;

use crate::config::Config;
use crate::text::{char_is_ws, chars_of, is_ws, string_from_chars, try_decode};

verus! {

/// The content split into lines: a `\n` ends a line, and a final line
/// without one still counts.
pub open spec fn spec_lines(s: Seq<char>) -> Seq<Seq<char>>
    decreases s.len(),
{
    if s.len() == 0 {
        Seq::empty()
    } else if s[0] == '\n' {
        seq![Seq::<char>::empty()] + spec_lines(s.drop_first())
    } else {
        let rest = spec_lines(s.drop_first());
        if rest.len() == 0 {
            seq![s]
        } else {
            seq![seq![s[0]] + rest[0]] + rest.drop_first()
        }
    }
}

/// A carriage return just before the line break is not part of the line.
pub open spec fn strip_cr(l: Seq<char>) -> Seq<char> {
    if l.len() > 0 && l.last() == '\r' {
        l.drop_last()
    } else {
        l
    }
}

/// The line truncated at the first `//`, wherever it stands.
pub open spec fn strip_comment(l: Seq<char>) -> Seq<char>
    decreases l.len(),
{
    if l.len() < 2 {
        l
    } else if l[0] == '/' && l[1] == '/' {
        Seq::empty()
    } else {
        seq![l[0]] + strip_comment(l.drop_first())
    }
}

/// The maximal whitespace-free words of a line, in order.
pub open spec fn tokens_of(l: Seq<char>) -> Seq<Seq<char>>
    decreases l.len(),
{
    if l.len() == 0 {
        Seq::empty()
    } else if is_ws(l[0]) {
        tokens_of(l.drop_first())
    } else if l.len() > 1 && !is_ws(l[1]) {
        let rest = tokens_of(l.drop_first());
        if rest.len() == 0 {
            seq![seq![l[0]]]
        } else {
            seq![seq![l[0]] + rest[0]] + rest.drop_first()
        }
    } else {
        seq![seq![l[0]]] + tokens_of(l.drop_first())
    }
}

/// The keyword that opens every entry line.
pub open spec fn set_word() -> Seq<char> {
    seq!['s', 'e', 't']
}

/// A line as the parser sees it: line break trimmed, comment stripped.
pub open spec fn clean_of(raw: Seq<char>) -> Seq<char> {
    strip_comment(strip_cr(raw))
}

/// What kind of report a skipped or overwritten line produces.
#[derive(Clone, Copy, PartialEq, Eq, Structural, Debug)]
pub enum ParseDiagKind {
    /// A non-blank line that is not `set <key> <value>`; the text is the
    /// cleaned line.
    OddLine,
    /// A key set twice in one file; the text is the key.
    DuplicateKey,
}

/// A non-fatal report emitted while parsing.
pub struct ParseDiag {
    pub kind: ParseDiagKind,
    pub text: String,
}

impl View for ParseDiag {
    type V = (ParseDiagKind, Seq<char>);

    open spec fn view(&self) -> (ParseDiagKind, Seq<char>) {
        (self.kind, self.text@)
    }
}

/// The views of a report sequence.
pub open spec fn diag_views(ds: Seq<ParseDiag>) -> Seq<(ParseDiagKind, Seq<char>)> {
    ds.map_values(|d: ParseDiag| d@)
}

/// Parsing a sequence of raw lines: the resulting map (last occurrence
/// of a key wins) together with the reports, in line order.
pub open spec fn parse_fold(lines: Seq<Seq<char>>) -> (
    Map<Seq<char>, Seq<char>>,
    Seq<(ParseDiagKind, Seq<char>)>,
)
    decreases lines.len(),
{
    if lines.len() == 0 {
        (Map::empty(), Seq::empty())
    } else {
        let (m, d) = parse_fold(lines.drop_last());
        let clean = clean_of(lines.last());
        let t = tokens_of(clean);
        if t.len() == 0 {
            (m, d)
        } else if t.len() == 3 && t[0] == set_word() {
            (
                m.insert(t[1], t[2]),
                if m.contains_key(t[1]) {
                    d.push((ParseDiagKind::DuplicateKey, t[1]))
                } else {
                    d
                },
            )
        } else {
            (m, d.push((ParseDiagKind::OddLine, clean)))
        }
    }
}

/// What parsing whole decoded content yields.
pub open spec fn parse_result(content: Seq<char>) -> (
    Map<Seq<char>, Seq<char>>,
    Seq<(ParseDiagKind, Seq<char>)>,
) {
    parse_fold(spec_lines(content))
}

/// The input bytes were not valid text.
#[derive(Clone, Copy, PartialEq, Eq, Structural, Debug)]
pub struct EncodingError;

pub open spec fn no_nl(s: Seq<char>) -> bool {
    forall|i: int| 0 <= i < s.len() ==> s[i] != '\n'
}

pub open spec fn no_ws(s: Seq<char>) -> bool {
    forall|i: int| 0 <= i < s.len() ==> !is_ws(s[i])
}

proof fn lemma_lines_break(a: Seq<char>, b: Seq<char>)
    requires
        no_nl(a),
    ensures
        spec_lines(a + seq!['\n'] + b) == seq![a] + spec_lines(b),
    decreases a.len(),
{
    let s = a + seq!['\n'] + b;
    if a.len() == 0 {
        assert(s[0] == '\n');
        assert(s.drop_first() =~= b);
        assert(a =~= Seq::<char>::empty());
        assert(spec_lines(s) =~= seq![a] + spec_lines(b));
    } else {
        assert(s[0] == a[0]);
        assert(s[0] != '\n');
        assert(s.drop_first() =~= a.drop_first() + seq!['\n'] + b);
        assert(no_nl(a.drop_first())) by {
            assert(forall|i: int| 0 <= i < a.len() - 1 ==> a.drop_first()[i] == a[i + 1]);
        }
        lemma_lines_break(a.drop_first(), b);
        let rest = spec_lines(s.drop_first());
        assert(rest == seq![a.drop_first()] + spec_lines(b));
        assert(rest.len() > 0);
        assert(rest[0] == a.drop_first());
        assert(seq![s[0]] + rest[0] =~= a);
        assert(rest.drop_first() =~= spec_lines(b));
        assert(spec_lines(s) =~= seq![a] + spec_lines(b));
    }
}

proof fn lemma_lines_plain(a: Seq<char>)
    requires
        no_nl(a),
        a.len() > 0,
    ensures
        spec_lines(a) == seq![a],
    decreases a.len(),
{
    if a.len() == 1 {
        assert(spec_lines(a.drop_first()) =~= Seq::<Seq<char>>::empty());
    } else {
        assert(no_nl(a.drop_first())) by {
            assert(forall|i: int| 0 <= i < a.len() - 1 ==> a.drop_first()[i] == a[i + 1]);
        }
        lemma_lines_plain(a.drop_first());
        let rest = spec_lines(a.drop_first());
        assert(rest[0] == a.drop_first());
        assert(seq![a[0]] + rest[0] =~= a);
        assert(spec_lines(a) =~= seq![a]);
    }
}

/// Whether `//` occurs anywhere in the sequence.
pub open spec fn has_comment_pair(s: Seq<char>) -> bool {
    exists|i: int| 0 <= i && i + 1 < s.len() && #[trigger] s[i] == '/' && s[i + 1] == '/'
}

/// A word that can stand as a key or value: non-empty, free of white
/// space and of the comment marker.
pub open spec fn plain_token(s: Seq<char>) -> bool {
    s.len() > 0 && no_ws(s) && !has_comment_pair(s)
}

/// The text of a well-formed entry line for one binding.
pub open spec fn entry_line(k: Seq<char>, v: Seq<char>) -> Seq<char> {
    set_word() + seq![' '] + k + seq![' '] + v
}

proof fn lemma_no_slash_no_pair(s: Seq<char>)
    requires
        forall|i: int| 0 <= i < s.len() ==> s[i] != '/',
    ensures
        !has_comment_pair(s),
{
}

proof fn lemma_no_pair_concat(a: Seq<char>, b: Seq<char>)
    requires
        !has_comment_pair(a),
        !has_comment_pair(b),
        a.len() == 0 || b.len() == 0 || a.last() != '/' || b[0] != '/',
    ensures
        !has_comment_pair(a + b),
{
    let s = a + b;
    assert forall|i: int| 0 <= i && i + 1 < s.len() implies !(#[trigger] s[i] == '/' && s[i + 1] == '/') by {
        if i + 1 < a.len() {
            assert(s[i] == a[i] && s[i + 1] == a[i + 1]);
        } else if i >= a.len() {
            assert(s[i] == b[i - a.len()] && s[i + 1] == b[i + 1 - a.len()]);
        } else {
            assert(i == a.len() - 1);
            assert(s[i] == a.last() && s[i + 1] == b[0]);
        }
    }
}

/// The tokens of a well-formed entry line are exactly the keyword, the
/// key and the value.
proof fn lemma_entry_line_clean_tokens(k: Seq<char>, v: Seq<char>)
    requires
        plain_token(k),
        plain_token(v),
    ensures
        clean_of(entry_line(k, v)) == entry_line(k, v),
        tokens_of(entry_line(k, v)) == seq![set_word(), k, v],
        no_nl(entry_line(k, v)),
    decreases 0int,
{
    let l = entry_line(k, v);
    let sp = seq![' '];
    assert(set_word()[0] == 's' && set_word()[1] == 'e' && set_word()[2] == 't');
    assert(no_ws(set_word())) by {
        assert(forall|i: int| 0 <= i < 3 ==> !is_ws(set_word()[i]));
    }
    assert(no_nl(l)) by {
        assert forall|i: int| 0 <= i < l.len() implies l[i] != '\n' by {
            assert(is_ws('\n'));
            if i < 3 {
                assert(l[i] == set_word()[i]);
            } else if i == 3 {
                assert(l[i] == ' ');
            } else if i < 4 + k.len() {
                assert(l[i] == k[i - 4]);
            } else if i == 4 + k.len() {
                assert(l[i] == ' ');
            } else {
                assert(l[i] == v[i - 5 - k.len()]);
            }
        }
    }
    // No carriage return ends the line: the value's last character is
    // not white space.
    assert(l.last() == v.last());
    assert(!is_ws(v.last()));
    assert(is_ws('\r'));
    assert(strip_cr(l) == l);
    // No comment marker stands anywhere in the line.
    assert(!has_comment_pair(set_word() + sp)) by {
        lemma_no_slash_no_pair(set_word() + sp);
    }
    assert(!has_comment_pair(sp)) by {
        lemma_no_slash_no_pair(sp);
    }
    lemma_no_pair_concat(set_word() + sp, k);
    lemma_no_pair_concat((set_word() + sp) + k, sp);
    lemma_no_pair_concat(((set_word() + sp) + k) + sp, v);
    assert((((set_word() + sp) + k) + sp) + v =~= l);
    assert(!has_comment_pair(l));
    assert forall|j: int| 0 <= j && j + 1 < l.len() implies !(#[trigger] l[j] == '/' && l[j + 1] == '/') by {}
    lemma_strip_comment_none(l);
    assert(clean_of(l) == l);
    // Tokenization: keyword, key, value.
    assert(is_ws(' '));
    lemma_tokens_break(set_word(), ' ', (k + sp) + v);
    assert(set_word() + sp + ((k + sp) + v) =~= l);
    lemma_tokens_break(k, ' ', v);
    assert(k + sp + v =~= (k + sp) + v);
    lemma_tokens_plain(v);
    assert(tokens_of(l) =~= seq![set_word(), k, v]);
}

/// Parsing a well-formed file of two entry lines with distinct keys
/// yields exactly those two bindings, and no report.
pub proof fn lemma_well_formed_file_parses(k1: Seq<char>, v1: Seq<char>, k2: Seq<char>, v2: Seq<char>)
    requires
        plain_token(k1),
        plain_token(v1),
        plain_token(k2),
        plain_token(v2),
        k1 != k2,
    ensures
        ({
            let content = ((entry_line(k1, v1) + seq!['\n']) + entry_line(k2, v2)) + seq!['\n'];
            &&& parse_result(content).0 == Map::<Seq<char>, Seq<char>>::empty().insert(
                k1,
                v1,
            ).insert(k2, v2)
            &&& parse_result(content).1 == Seq::<(ParseDiagKind, Seq<char>)>::empty()
        }),
{
    let l1 = entry_line(k1, v1);
    let l2 = entry_line(k2, v2);
    let content = ((l1 + seq!['\n']) + l2) + seq!['\n'];
    lemma_entry_line_clean_tokens(k1, v1);
    lemma_entry_line_clean_tokens(k2, v2);
    lemma_lines_break(l1, l2 + seq!['\n']);
    assert(l1 + seq!['\n'] + (l2 + seq!['\n']) =~= content);
    lemma_lines_break(l2, Seq::<char>::empty());
    assert(l2 + seq!['\n'] + Seq::<char>::empty() =~= l2 + seq!['\n']);
    assert(spec_lines(Seq::<char>::empty()) =~= Seq::<Seq<char>>::empty());
    assert(spec_lines(l2 + seq!['\n']) =~= seq![l2]);
    assert(spec_lines(content) =~= seq![l1, l2]);
    let lines = seq![l1, l2];
    assert(lines.drop_last() =~= seq![l1]);
    assert(seq![l1].drop_last() =~= Seq::<Seq<char>>::empty());
    let t1 = tokens_of(clean_of(l1));
    let t2 = tokens_of(clean_of(l2));
    assert(t1 == seq![set_word(), k1, v1]);
    assert(t2 == seq![set_word(), k2, v2]);
    assert(t1.len() == 3 && t1[0] == set_word() && t1[1] == k1 && t1[2] == v1);
    assert(t2.len() == 3 && t2[0] == set_word() && t2[1] == k2 && t2[2] == v2);
    assert(seq![l1].last() == l1);
    assert(lines.last() == l2);
    assert(parse_fold(Seq::<Seq<char>>::empty()).0 =~= Map::<Seq<char>, Seq<char>>::empty()) by {
        reveal_with_fuel(parse_fold, 1);
    }
    let (m1, d1) = parse_fold(seq![l1]);
    assert(m1 == Map::<Seq<char>, Seq<char>>::empty().insert(k1, v1) && d1 == Seq::<
        (ParseDiagKind, Seq<char>),
    >::empty()) by {
        reveal_with_fuel(parse_fold, 2);
        assert(seq![l1].drop_last() =~= Seq::<Seq<char>>::empty());
        assert(tokens_of(clean_of(l1)) == seq![set_word(), k1, v1]);
    }
    assert(!m1.contains_key(k2));
    assert(parse_fold(lines).0 == m1.insert(k2, v2));
    assert(parse_fold(lines).1 == d1);
}

/// Splits decoded content into its lines.
fn split_lines(content: &Vec<char>) -> (r: Vec<Vec<char>>)
    ensures
        r@.map_values(|l: Vec<char>| l@) == spec_lines(content@),
{
    let n = content.len();
    let mut out: Vec<Vec<char>> = Vec::new();
    let mut cur: Vec<char> = Vec::new();
    proof {
        assert(cur@ + content@.skip(0) =~= content@);
        assert(out@.map_values(|l: Vec<char>| l@) =~= Seq::<Seq<char>>::empty());
    }
    for i in 0..n
        invariant
            n == content@.len(),
            no_nl(cur@),
            spec_lines(content@) == out@.map_values(|l: Vec<char>| l@) + spec_lines(
                cur@ + content@.skip(i as int),
            ),
    {
        let ghost prev_out = out@.map_values(|l: Vec<char>| l@);
        let c = content[i];
        proof {
            assert(content@.skip(i as int)[0] == content@[i as int]);
            assert(content@.skip(i as int).drop_first() =~= content@.skip(i + 1));
        }
        if c == '\n' {
            proof {
                lemma_lines_break(cur@, content@.skip(i + 1));
                assert(cur@ + content@.skip(i as int) =~= cur@ + seq!['\n'] + content@.skip(i + 1));
            }
            let ghost cur_view = cur@;
            out.push(cur);
            cur = Vec::new();
            proof {
                assert(out@.map_values(|l: Vec<char>| l@) =~= prev_out + seq![cur_view]);
                assert(prev_out + (seq![cur_view] + spec_lines(content@.skip(i + 1))) =~= (prev_out
                    + seq![cur_view]) + spec_lines(content@.skip(i + 1)));
                assert(cur@ + content@.skip(i + 1) =~= content@.skip(i + 1));
            }
        } else {
            let ghost cur_view = cur@;
            cur.push(c);
            proof {
                assert(cur@ + content@.skip(i + 1) =~= cur_view + content@.skip(i as int));
            }
        }
    }
    proof {
        assert(cur@ + content@.skip(n as int) =~= cur@);
    }
    if cur.len() > 0 {
        let ghost prev_out = out@.map_values(|l: Vec<char>| l@);
        let ghost cur_view = cur@;
        proof {
            lemma_lines_plain(cur@);
        }
        out.push(cur);
        proof {
            assert(out@.map_values(|l: Vec<char>| l@) =~= prev_out + seq![cur_view]);
        }
    } else {
        proof {
            assert(spec_lines(cur@) =~= Seq::<Seq<char>>::empty());
            assert(out@.map_values(|l: Vec<char>| l@) + Seq::<Seq<char>>::empty() =~= out@.map_values(
                |l: Vec<char>| l@,
            ));
        }
    }
    out
}

proof fn lemma_strip_comment_at(l: Seq<char>, i: int)
    requires
        0 <= i,
        i + 1 < l.len(),
        l[i] == '/' && l[i + 1] == '/',
        forall|j: int| 0 <= j < i ==> !(#[trigger] l[j] == '/' && l[j + 1] == '/'),
    ensures
        strip_comment(l) == l.take(i),
    decreases i,
{
    if i == 0 {
        assert(strip_comment(l) =~= l.take(0));
    } else {
        let d = l.drop_first();
        assert(forall|j: int| 0 <= j < d.len() ==> d[j] == l[j + 1]);
        lemma_strip_comment_at(d, i - 1);
        assert(seq![l[0]] + d.take(i - 1) =~= l.take(i));
    }
}

proof fn lemma_strip_comment_none(l: Seq<char>)
    requires
        forall|j: int| 0 <= j && j + 1 < l.len() ==> !(#[trigger] l[j] == '/' && l[j + 1] == '/'),
    ensures
        strip_comment(l) == l,
    decreases l.len(),
{
    if l.len() >= 2 {
        let d = l.drop_first();
        assert(forall|j: int| 0 <= j < d.len() ==> d[j] == l[j + 1]);
        lemma_strip_comment_none(d);
        assert(seq![l[0]] + d =~= l);
    }
}

/// The line break trim and the comment cut, together.
fn cleaned_line(line: &Vec<char>) -> (r: Vec<char>)
    ensures
        r@ == clean_of(line@),
{
    let n = line.len();
    let end1: usize = if n > 0 && line[n - 1] == '\r' {
        n - 1
    } else {
        n
    };
    let ghost trimmed = strip_cr(line@);
    proof {
        assert(trimmed =~= line@.take(end1 as int));
    }
    let mut end2: usize = end1;
    let mut found = false;
    let mut j: usize = 0;
    while end1 - j > 1 && !found
        invariant
            end1 <= line@.len(),
            trimmed == line@.take(end1 as int),
            j <= end1,
            forall|x: int| 0 <= x < j ==> !(#[trigger] trimmed[x] == '/' && trimmed[x + 1] == '/'),
            found ==> j + 1 < end1 && trimmed[j as int] == '/' && trimmed[j + 1] == '/' && end2
                == j,
            !found ==> end2 == end1,
        decreases end1 - j + (if found { 0int } else { 1int }),
    {
        proof {
            assert(trimmed[j as int] == line@[j as int]);
            assert(trimmed[j + 1] == line@[j + 1]);
        }
        if line[j] == '/' && line[j + 1] == '/' {
            found = true;
            end2 = j;
        } else {
            j = j + 1;
        }
    }
    proof {
        if found {
            lemma_strip_comment_at(trimmed, end2 as int);
        } else {
            assert(forall|x: int| 0 <= x && x + 1 < trimmed.len() ==> !(#[trigger] trimmed[x] == '/'
                && trimmed[x + 1] == '/'));
            lemma_strip_comment_none(trimmed);
        }
    }
    let mut r: Vec<char> = Vec::new();
    for k in 0..end2
        invariant
            end2 <= line@.len(),
            r@.len() == k,
            forall|x: int| 0 <= x < k ==> r@[x] == line@[x],
    {
        r.push(line[k]);
    }
    proof {
        assert(r@ =~= trimmed.take(end2 as int));
        if !found {
            assert(trimmed.take(end2 as int) =~= trimmed);
        }
    }
    r
}

proof fn lemma_tokens_skip_ws(c: char, b: Seq<char>)
    requires
        is_ws(c),
    ensures
        tokens_of(seq![c] + b) == tokens_of(b),
{
    let s = seq![c] + b;
    assert(s[0] == c);
    assert(s.drop_first() =~= b);
}

proof fn lemma_tokens_break(a: Seq<char>, c: char, b: Seq<char>)
    requires
        no_ws(a),
        a.len() > 0,
        is_ws(c),
    ensures
        tokens_of(a + seq![c] + b) == seq![a] + tokens_of(b),
    decreases a.len(),
{
    let s = a + seq![c] + b;
    assert(s[0] == a[0]);
    assert(!is_ws(s[0]));
    if a.len() == 1 {
        assert(s.len() > 1 && is_ws(s[1]));
        assert(s.drop_first() =~= seq![c] + b);
        lemma_tokens_skip_ws(c, b);
        assert(seq![s[0]] =~= a);
        assert(tokens_of(s) =~= seq![a] + tokens_of(b));
    } else {
        assert(s[1] == a[1]);
        assert(!is_ws(s[1]));
        assert(s.drop_first() =~= a.drop_first() + seq![c] + b);
        assert(no_ws(a.drop_first())) by {
            assert(forall|i: int| 0 <= i < a.len() - 1 ==> a.drop_first()[i] == a[i + 1]);
        }
        lemma_tokens_break(a.drop_first(), c, b);
        let rest = tokens_of(s.drop_first());
        assert(rest == seq![a.drop_first()] + tokens_of(b));
        assert(rest.len() > 0);
        assert(rest[0] == a.drop_first());
        assert(seq![s[0]] + rest[0] =~= a);
        assert(rest.drop_first() =~= tokens_of(b));
        assert(tokens_of(s) =~= seq![a] + tokens_of(b));
    }
}

proof fn lemma_tokens_plain(a: Seq<char>)
    requires
        no_ws(a),
        a.len() > 0,
    ensures
        tokens_of(a) == seq![a],
    decreases a.len(),
{
    if a.len() == 1 {
        assert(tokens_of(a.drop_first()) =~= Seq::<Seq<char>>::empty());
        assert(seq![a[0]] =~= a);
        assert(tokens_of(a) =~= seq![a]);
    } else {
        assert(!is_ws(a[1]));
        assert(no_ws(a.drop_first())) by {
            assert(forall|i: int| 0 <= i < a.len() - 1 ==> a.drop_first()[i] == a[i + 1]);
        }
        lemma_tokens_plain(a.drop_first());
        let rest = tokens_of(a.drop_first());
        assert(rest[0] == a.drop_first());
        assert(seq![a[0]] + rest[0] =~= a);
        assert(tokens_of(a) =~= seq![a]);
    }
}

/// Splits a cleaned line into its whitespace-separated tokens.
fn tokenize(l: &Vec<char>) -> (r: Vec<Vec<char>>)
    ensures
        r@.map_values(|t: Vec<char>| t@) == tokens_of(l@),
{
    let n = l.len();
    let mut out: Vec<Vec<char>> = Vec::new();
    let mut cur: Vec<char> = Vec::new();
    proof {
        assert(cur@ + l@.skip(0) =~= l@);
        assert(out@.map_values(|t: Vec<char>| t@) =~= Seq::<Seq<char>>::empty());
    }
    for i in 0..n
        invariant
            n == l@.len(),
            no_ws(cur@),
            tokens_of(l@) == out@.map_values(|t: Vec<char>| t@) + tokens_of(
                cur@ + l@.skip(i as int),
            ),
    {
        let ghost prev_out = out@.map_values(|t: Vec<char>| t@);
        let c = l[i];
        proof {
            assert(l@.skip(i as int)[0] == l@[i as int]);
            assert(l@.skip(i as int).drop_first() =~= l@.skip(i + 1));
        }
        if char_is_ws(c) {
            if cur.len() > 0 {
                proof {
                    lemma_tokens_break(cur@, c, l@.skip(i + 1));
                    assert(cur@ + l@.skip(i as int) =~= cur@ + seq![c] + l@.skip(i + 1));
                }
                let ghost cur_view = cur@;
                out.push(cur);
                cur = Vec::new();
                proof {
                    assert(out@.map_values(|t: Vec<char>| t@) =~= prev_out + seq![cur_view]);
                    assert(prev_out + (seq![cur_view] + tokens_of(l@.skip(i + 1))) =~= (prev_out
                        + seq![cur_view]) + tokens_of(l@.skip(i + 1)));
                    assert(cur@ + l@.skip(i + 1) =~= l@.skip(i + 1));
                }
            } else {
                proof {
                    lemma_tokens_skip_ws(c, l@.skip(i + 1));
                    assert(cur@ + l@.skip(i as int) =~= seq![c] + l@.skip(i + 1));
                    assert(cur@ + l@.skip(i + 1) =~= l@.skip(i + 1));
                }
            }
        } else {
            let ghost cur_view = cur@;
            cur.push(c);
            proof {
                assert(cur@ + l@.skip(i + 1) =~= cur_view + l@.skip(i as int));
            }
        }
    }
    proof {
        assert(cur@ + l@.skip(n as int) =~= cur@);
    }
    if cur.len() > 0 {
        let ghost prev_out = out@.map_values(|t: Vec<char>| t@);
        let ghost cur_view = cur@;
        proof {
            lemma_tokens_plain(cur@);
        }
        out.push(cur);
        proof {
            assert(out@.map_values(|t: Vec<char>| t@) =~= prev_out + seq![cur_view]);
        }
    } else {
        proof {
            assert(tokens_of(cur@) =~= Seq::<Seq<char>>::empty());
            assert(out@.map_values(|t: Vec<char>| t@) + Seq::<Seq<char>>::empty() =~= out@.map_values(
                |t: Vec<char>| t@,
            ));
        }
    }
    out
}

/// Whether a token is exactly the keyword `set`.
fn is_set_word(t: &Vec<char>) -> (r: bool)
    ensures
        r == (t@ == set_word()),
{
    let r = t.len() == 3 && t[0] == 's' && t[1] == 'e' && t[2] == 't';
    proof {
        if r {
            assert(t@ =~= set_word());
        }
    }
    r
}

/// Parses raw file bytes into a configuration, reporting skipped lines
/// and overwritten keys; fails exactly when the bytes are not valid text.
pub fn parse_config(bytes: &[u8]) -> (r: Result<(Config, Vec<ParseDiag>), EncodingError>)
    ensures
        r is Ok <==> vstd::utf8::valid_utf8(bytes@),
        r matches Ok((cfg, diags)) ==> {
            let (m, ds) = parse_result(vstd::utf8::decode_utf8(bytes@));
            &&& cfg.wf()
            &&& cfg@ == m
            &&& diag_views(diags@) == ds
        },
{
    let s = match try_decode(bytes) {
        Some(s) => s,
        None => {
            return Err(EncodingError);
        },
    };
    let content = chars_of(s);
    let lines = split_lines(&content);
    let ghost line_views = lines@.map_values(|l: Vec<char>| l@);
    let mut cfg = Config::new();
    let mut diags: Vec<ParseDiag> = Vec::new();
    let n = lines.len();
    proof {
        assert(line_views.take(0) =~= Seq::<Seq<char>>::empty());
        assert(diag_views(diags@) =~= Seq::<(ParseDiagKind, Seq<char>)>::empty());
    }
    for li in 0..n
        invariant
            n == lines@.len(),
            line_views == lines@.map_values(|l: Vec<char>| l@),
            cfg.wf(),
            cfg@ == parse_fold(line_views.take(li as int)).0,
            diag_views(diags@) == parse_fold(line_views.take(li as int)).1,
    {
        let ghost prefix = line_views.take(li as int);
        let ghost prev_diags = diag_views(diags@);
        proof {
            assert(line_views.take(li + 1).drop_last() =~= prefix);
            assert(line_views.take(li + 1).last() == line_views[li as int]);
        }
        let clean = cleaned_line(&lines[li]);
        let tokens = tokenize(&clean);
        let ghost token_views = tokens@.map_values(|t: Vec<char>| t@);
        if tokens.len() == 0 {
        } else if tokens.len() == 3 && is_set_word(&tokens[0]) {
            proof {
                assert(token_views[0] == tokens@[0]@);
                assert(token_views[1] == tokens@[1]@);
                assert(token_views[2] == tokens@[2]@);
            }
            let key = string_from_chars(&tokens[1]);
            let value = string_from_chars(&tokens[2]);
            let key_copy = key.clone();
            let had = cfg.insert(key, value);
            if had {
                diags.push(ParseDiag { kind: ParseDiagKind::DuplicateKey, text: key_copy });
                proof {
                    assert(diag_views(diags@) =~= prev_diags.push(
                        (ParseDiagKind::DuplicateKey, token_views[1]),
                    ));
                }
            }
        } else {
            proof {
                assert(token_views.len() == tokens@.len());
                if token_views.len() == 3 && token_views[0] == set_word() {
                    assert(tokens@[0]@ == set_word());
                }
            }
            let text = string_from_chars(&clean);
            diags.push(ParseDiag { kind: ParseDiagKind::OddLine, text });
            proof {
                assert(diag_views(diags@) =~= prev_diags.push(
                    (ParseDiagKind::OddLine, clean_of(line_views[li as int])),
                ));
            }
        }
    }
    proof {
        assert(line_views.take(n as int) =~= line_views);
    }
    Ok((cfg, diags))
}

} // verus!
