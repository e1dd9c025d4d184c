use vstd::prelude::*;
use crate::text::{chars_of, string_of, push_char, contains, contains_str, lowercase, to_lowercase, is_space, is_ascii_upper, is_ascii_char, ascii_lower_char};
use crate::tokenize::{TokenV, Quote, Mode, WordState, scan, lex, tokens_of, empty_word, word_quote, is_op};

verus! {

/// An ASCII decimal digit.
pub open spec fn is_ascii_digit(c: char) -> bool {
    '0' <= c <= '9'
}

/// An ASCII letter or digit.
pub open spec fn is_ascii_alnum(c: char) -> bool {
    '0' <= c <= '9' || 'a' <= c <= 'z' || 'A' <= c <= 'Z'
}

/// An ASCII hexadecimal digit.
pub open spec fn is_hex_digit(c: char) -> bool {
    '0' <= c <= '9' || 'a' <= c <= 'f' || 'A' <= c <= 'F'
}

/// Whether `c` is an ASCII letter or digit.
pub fn char_is_ascii_alnum(c: char) -> (b: bool)
    ensures
        b == is_ascii_alnum(c),
{
    ('0' <= c && c <= '9') || ('a' <= c && c <= 'z') || ('A' <= c && c <= 'Z')
}

fn char_is_hex_digit(c: char) -> (b: bool)
    ensures
        b == is_hex_digit(c),
{
    ('0' <= c && c <= '9') || ('a' <= c && c <= 'f') || ('A' <= c && c <= 'F')
}

/// The 32 characters of `s` from `j` on are all hexadecimal digits.
pub open spec fn hex_window(s: Seq<char>, j: int) -> bool {
    0 <= j && j + 32 <= s.len() && forall|k: int| j <= k < j + 32 ==> is_hex_digit(#[trigger] s[k])
}

/// `s` holds a run of at least 32 hexadecimal digits.
pub open spec fn has_hex_run(s: Seq<char>) -> bool {
    exists|j: int| hex_window(s, j)
}

/// What marks a text as a likely credential, given the text and its lowercase
/// form: a credential keyword in the lowercase form, `AKIA` in the text itself, or
/// a run of 32 hexadecimal digits.
pub open spec fn secret_text(s: Seq<char>, lower: Seq<char>) -> bool {
    ||| contains(lower, "key="@)
    ||| contains(lower, "token="@)
    ||| contains(lower, "secret="@)
    ||| contains(lower, "password="@)
    ||| contains(lower, "passwd="@)
    ||| contains(lower, "bearer "@)
    ||| contains(lower, "authorization:"@)
    ||| contains(lower, "ghp_"@)
    ||| contains(lower, "github_pat_"@)
    ||| contains(lower, "xoxb-"@)
    ||| contains(lower, "xoxp-"@)
    ||| contains(s, "AKIA"@)
    ||| has_hex_run(s)
}

fn hex_run_in(s: &str) -> (b: bool)
    ensures
        b == has_hex_run(s@),
{
    let v = chars_of(s);
    let mut run: usize = 0;
    let mut i: usize = 0;
    while i < v.len()
        invariant
            v@ == s@,
            i <= v.len(),
            run <= i,
            run < 32,
            forall|k: int| i - run <= k < i ==> is_hex_digit(#[trigger] v@[k]),
            run < i ==> !is_hex_digit(v@[i - run - 1]),
            forall|j: int| 0 <= j && j + 32 <= i ==> !hex_window(s@, j),
        decreases v.len() - i,
    {
        if char_is_hex_digit(v[i]) {
            run += 1;
            if run >= 32 {
                assert(hex_window(s@, i + 1 - 32));
                return true;
            }
            assert forall|j: int| 0 <= j && j + 32 <= i + 1 implies !hex_window(s@, j) by {
                if j + 32 == i + 1 {
                    assert(!is_hex_digit(s@[i - run]));
                }
            }
        } else {
            assert forall|j: int| 0 <= j && j + 32 <= i + 1 implies !hex_window(s@, j) by {
                if j + 32 == i + 1 {
                    assert(!is_hex_digit(s@[i as int]));
                }
            }
            run = 0;
        }
        i += 1;
    }
    false
}

/// Whether a text looks like a credential, given the text and its lowercase form.
pub fn secret_text_in(s: &str, lower: &str) -> (b: bool)
    ensures
        b == secret_text(s@, lower@),
{
    contains_str(lower, "key=") || contains_str(lower, "token=") || contains_str(lower, "secret=")
        || contains_str(lower, "password=") || contains_str(lower, "passwd=") || contains_str(
        lower,
        "bearer ",
    ) || contains_str(lower, "authorization:") || contains_str(lower, "ghp_") || contains_str(
        lower,
        "github_pat_",
    ) || contains_str(lower, "xoxb-") || contains_str(lower, "xoxp-") || contains_str(s, "AKIA")
        || hex_run_in(s)
}

/// Whether a text looks like a credential.
pub fn looks_secret(s: &str) -> (b: bool)
    ensures
        b == secret_text(s@, lowercase(s@)),
{
    let lower = to_lowercase(s);
    secret_text_in(s, lower.as_str())
}

/// Lowercase text reduced to ASCII letters and digits, each run of other
/// characters becoming one `_`.
pub open spec fn squash(l: Seq<char>) -> Seq<char>
    decreases l.len(),
{
    if l.len() == 0 {
        Seq::empty()
    } else {
        let o = squash(l.drop_last());
        let c = l.last();
        if is_ascii_alnum(c) {
            o.push(c)
        } else if o.len() > 0 && o.last() == '_' {
            o
        } else {
            o.push('_')
        }
    }
}

/// `s` without the copies of `c` at its start.
pub open spec fn trim_start_char(s: Seq<char>, c: char) -> Seq<char>
    decreases s.len(),
{
    if s.len() > 0 && s[0] == c {
        trim_start_char(s.drop_first(), c)
    } else {
        s
    }
}

/// `s` without the copies of `c` at its end.
pub open spec fn trim_end_char(s: Seq<char>, c: char) -> Seq<char>
    decreases s.len(),
{
    if s.len() > 0 && s.last() == c {
        trim_end_char(s.drop_last(), c)
    } else {
        s
    }
}

/// `s` with every leading and trailing `c` removed.
pub open spec fn trim_char(s: Seq<char>, c: char) -> Seq<char> {
    trim_end_char(trim_start_char(s, c), c)
}

/// The identifier made from a lowercase word.
pub open spec fn sanitized(l: Seq<char>) -> Seq<char> {
    trim_char(squash(l), '_')
}

pub(crate) proof fn lemma_trim_start_index(s: Seq<char>, c: char, i: int)
    requires
        0 <= i <= s.len(),
        forall|k: int| 0 <= k < i ==> s[k] == c,
        i == s.len() || s[i] != c,
    ensures
        trim_start_char(s, c) == s.subrange(i, s.len() as int),
    decreases i,
{
    if i == 0 {
        assert(s.subrange(0, s.len() as int) =~= s);
    } else {
        lemma_trim_start_index(s.drop_first(), c, i - 1);
        assert(s.drop_first().subrange(i - 1, s.len() - 1) =~= s.subrange(i, s.len() as int));
    }
}

proof fn lemma_trim_end_index(s: Seq<char>, c: char, j: int)
    requires
        0 <= j <= s.len(),
        forall|k: int| j <= k < s.len() ==> s[k] == c,
        j == 0 || s[j - 1] != c,
    ensures
        trim_end_char(s, c) == s.subrange(0, j),
    decreases s.len() - j,
{
    if j == s.len() {
        assert(s.subrange(0, j) =~= s);
    } else {
        lemma_trim_end_index(s.drop_last(), c, j);
        assert(s.drop_last().subrange(0, j) =~= s.subrange(0, j));
    }
}

/// `v` with every leading and trailing `c` removed.
pub fn trim_chars(v: &Vec<char>, c: char) -> (r: String)
    ensures
        r@ == trim_char(v@, c),
{
    let mut i: usize = 0;
    while i < v.len() && v[i] == c
        invariant
            i <= v.len(),
            forall|k: int| 0 <= k < i ==> v@[k] == c,
        decreases v.len() - i,
    {
        i += 1;
    }
    proof {
        lemma_trim_start_index(v@, c, i as int);
    }
    let ghost t = v@.subrange(i as int, v.len() as int);
    let mut j: usize = v.len();
    while j > i && v[j - 1] == c
        invariant
            i <= j <= v.len(),
            forall|k: int| j <= k < v.len() ==> v@[k] == c,
        decreases j,
    {
        j -= 1;
    }
    proof {
        lemma_trim_end_index(t, c, j - i);
        assert(t.subrange(0, j - i) =~= v@.subrange(i as int, j as int));
    }
    string_of(v, i, j)
}

/// The identifier made from a word that is already lowercase.
pub fn sanitize_lowered(l: &str) -> (r: String)
    ensures
        r@ == sanitized(l@),
{
    let lv = chars_of(l);
    let mut out: Vec<char> = Vec::new();
    let mut i: usize = 0;
    while i < lv.len()
        invariant
            lv@ == l@,
            i <= lv.len(),
            out@ == squash(lv@.subrange(0, i as int)),
        decreases lv.len() - i,
    {
        let c = lv[i];
        assert(lv@.subrange(0, i + 1).drop_last() =~= lv@.subrange(0, i as int));
        if char_is_ascii_alnum(c) {
            out.push(c);
        } else if !(out.len() > 0 && out[out.len() - 1] == '_') {
            out.push('_');
        }
        i += 1;
    }
    assert(lv@.subrange(0, lv.len() as int) =~= lv@);
    trim_chars(&out, '_')
}

/// The identifier made from a word: lowercased, ASCII letters and digits kept,
/// other runs turned into single underscores, underscores trimmed at both ends.
///
/// The result is a lowercase identifier, and a word that is one already comes back
/// unchanged, so sanitizing twice gives what sanitizing once gave.
pub fn sanitize(w: &str) -> (r: String)
    ensures
        r@ == sanitized(lowercase(w@)),
        lower_ident(r@),
        lower_ident(w@) ==> r@ == w@,
{
    let lower = to_lowercase(w);
    proof {
        lemma_sanitized_shape(lower@);
        lemma_squash_no_capitals(lower@);
        lemma_trim_no_capitals(squash(lower@));
        if lower_ident(w@) {
            assert forall|k: int| 0 <= k < w@.len() implies is_ascii_char(#[trigger] w@[k]) by {
                assert(is_ascii_alnum(w@[k]) || w@[k] == '_');
            }
            assert(lower@ =~= w@) by {
                assert forall|k: int| 0 <= k < w@.len() implies lower@[k] == w@[k] by {
                    assert(!is_ascii_upper(w@[k]));
                }
            }
            lemma_squash_keeps(w@);
            lemma_trim_keeps(w@, '_');
        }
    }
    sanitize_lowered(lower.as_str())
}

/// Characters that stand for themselves in a shell word.
pub open spec fn is_safe_char(c: char) -> bool {
    is_ascii_alnum(c) || c == '_' || c == '-' || c == '.' || c == '/' || c == ':' || c == '@' || c
        == '=' || c == '+' || c == ',' || c == '~'
}

fn char_is_safe(c: char) -> (b: bool)
    ensures
        b == is_safe_char(c),
{
    char_is_ascii_alnum(c) || c == '_' || c == '-' || c == '.' || c == '/' || c == ':' || c == '@'
        || c == '=' || c == '+' || c == ',' || c == '~'
}

/// `v` with each backslash and single quote preceded by a backslash.
pub open spec fn escape_single(v: Seq<char>) -> Seq<char>
    decreases v.len(),
{
    if v.len() == 0 {
        Seq::empty()
    } else {
        let c = v.last();
        let e = escape_single(v.drop_last());
        if c == '\\' || c == '\'' {
            e.push('\\').push(c)
        } else {
            e.push(c)
        }
    }
}

/// A value that can be written as a shell word as it is: not empty, and made of safe
/// characters only.
pub open spec fn is_bare(v: Seq<char>) -> bool {
    v.len() > 0 && forall|k: int| 0 <= k < v.len() ==> is_safe_char(#[trigger] v[k])
}

/// A value written as one shell argument: bare when it is non-empty and made of
/// safe characters only, otherwise single-quoted with backslashes and quotes escaped.
pub open spec fn quoted(v: Seq<char>) -> Seq<char> {
    if is_bare(v) {
        v
    } else {
        seq!['\''] + escape_single(v) + seq!['\'']
    }
}

/// A value written as one shell argument.
pub fn quoted_arg(v: &str) -> (r: String)
    ensures
        r@ == quoted(v@),
{
    let vv = chars_of(v);
    let mut all_safe = true;
    let mut i: usize = 0;
    while i < vv.len()
        invariant
            vv@ == v@,
            i <= vv.len(),
            all_safe == forall|k: int| 0 <= k < i ==> is_safe_char(#[trigger] vv@[k]),
        decreases vv.len() - i,
    {
        if !char_is_safe(vv[i]) {
            all_safe = false;
        }
        i += 1;
    }
    if vv.len() > 0 && all_safe {
        return string_of(&vv, 0, vv.len());
    }
    let mut out = String::new();
    push_char(&mut out, '\'');
    let mut k: usize = 0;
    while k < vv.len()
        invariant
            vv@ == v@,
            k <= vv.len(),
            out@ == seq!['\''] + escape_single(vv@.subrange(0, k as int)),
        decreases vv.len() - k,
    {
        let c = vv[k];
        assert(vv@.subrange(0, k + 1).drop_last() =~= vv@.subrange(0, k as int));
        if c == '\\' || c == '\'' {
            push_char(&mut out, '\\');
        }
        push_char(&mut out, c);
        k += 1;
    }
    push_char(&mut out, '\'');
    assert(vv@.subrange(0, vv.len() as int) =~= vv@);
    out
}


proof fn lemma_scan_bare(s: Seq<char>, i: int, st: WordState)
    requires
        0 <= i <= s.len(),
        forall|k: int| i <= k < s.len() ==> is_safe_char(#[trigger] s[k]),
    ensures
        scan(s, i, Mode::Word, st) == Some((s.len() as int, WordState {
            value: st.value + s.subrange(i, s.len() as int),
            plain: st.plain || i < s.len(),
            ..st
        })),
    decreases s.len() - i,
{
    if i < s.len() {
        assert(is_safe_char(s[i]));
        assert(!is_space(s[i]) && !is_op(s[i]) && s[i] != '\'' && s[i] != '"' && s[i] != '\\');
        let st2 = WordState { value: st.value.push(s[i]), plain: true, ..st };
        lemma_scan_bare(s, i + 1, st2);
        assert(st.value.push(s[i]) + s.subrange(i + 1, s.len() as int) =~= st.value + s.subrange(i, s.len() as int));
    } else {
        assert(st.value + s.subrange(i, s.len() as int) =~= st.value);
    }
}

proof fn lemma_scan_escaped(p: Seq<char>, w: Seq<char>, q: Seq<char>, st: WordState)
    ensures
        scan(p + escape_single(w) + q, p.len() as int, Mode::Single, st) == scan(
            p + escape_single(w) + q,
            (p.len() + escape_single(w).len()) as int,
            Mode::Single,
            WordState { value: st.value + w, ..st },
        ),
    decreases w.len(),
{
    if w.len() == 0 {
        assert(st.value + w =~= st.value);
    } else {
        let w1 = w.drop_last();
        let c = w.last();
        let e1 = escape_single(w1);
        let x = if c == '\\' || c == '\'' { seq!['\\', c] } else { seq![c] };
        assert(escape_single(w) =~= e1 + x);
        let s = p + escape_single(w) + q;
        assert(s =~= p + e1 + (x + q));
        lemma_scan_escaped(p, w1, x + q, st);
        let pos = (p.len() + e1.len()) as int;
        let st1 = WordState { value: st.value + w1, ..st };
        assert(s[pos] == x[0]);
        if c == '\\' || c == '\'' {
            assert(s[pos + 1] == c);
        }
        assert((st.value + w1).push(c) =~= st.value + w);
    }
}

/// A value written by `quoted` reads back, through the tokenizer, as one word whose
/// text is the value: bare when it is bare, else one single-quoted segment.
pub proof fn lemma_quoted_reads_back(v: Seq<char>)
    ensures
        tokens_of(quoted(v)) == Some(seq![TokenV {
            raw: quoted(v),
            value: v,
            quote: if is_bare(v) { Quote::Plain } else { Quote::Single },
            op: false,
            space_before: false,
        }]),
{
    let s = quoted(v);
    if is_bare(v) {
        lemma_scan_bare(s, 0, empty_word());
        assert(s.subrange(0, s.len() as int) =~= s);
        assert(Seq::<char>::empty() + s =~= s);
        assert(lex(s, s.len() as int, false) == Some(Seq::<TokenV>::empty()));
    } else {
        let e = escape_single(v);
        assert(s =~= seq!['\''] + e + seq!['\'']);
        let st1 = WordState { segments: 1, last: Quote::Single, ..empty_word() };
        lemma_scan_escaped(seq!['\''], v, seq!['\''], st1);
        let st2 = WordState { value: Seq::<char>::empty() + v, ..st1 };
        assert(Seq::<char>::empty() + v =~= v);
        assert(s[(1 + e.len()) as int] == '\'');
        assert(scan(s, (2 + e.len()) as int, Mode::Word, st2) == Some((s.len() as int, st2)));
        assert(scan(s, 0, Mode::Word, empty_word()) == Some((s.len() as int, st2)));
        assert(word_quote(st2) == Quote::Single);
        assert(s.subrange(0, s.len() as int) =~= s);
        assert(lex(s, s.len() as int, false) == Some(Seq::<TokenV>::empty()));
    }
}


/// ASCII letters, digits and underscores, never two underscores in a row.
pub open spec fn word_parts(s: Seq<char>) -> bool {
    &&& forall|k: int| 0 <= k < s.len() ==> is_ascii_alnum(#[trigger] s[k]) || s[k] == '_'
    &&& forall|k: int| 0 < k < s.len() ==> !(#[trigger] s[k] == '_' && s[k - 1] == '_')
}

/// An identifier: ASCII letters and digits in runs joined by single underscores, or
/// nothing.
pub open spec fn ident_shape(s: Seq<char>) -> bool {
    &&& word_parts(s)
    &&& s.len() > 0 ==> s[0] != '_' && s.last() != '_'
}

proof fn lemma_squash_parts(l: Seq<char>)
    ensures
        word_parts(squash(l)),
    decreases l.len(),
{
    if l.len() > 0 {
        lemma_squash_parts(l.drop_last());
        let o = squash(l.drop_last());
        let r = squash(l);
        assert forall|k: int| 0 <= k < r.len() implies is_ascii_alnum(#[trigger] r[k]) || r[k] == '_' by {
            if k < o.len() {
                assert(r[k] == o[k]);
            }
        }
        assert forall|k: int| 0 < k < r.len() implies !(#[trigger] r[k] == '_' && r[k - 1] == '_') by {
            if k < o.len() {
                assert(r[k] == o[k] && r[k - 1] == o[k - 1]);
            } else {
                assert(r[k - 1] == o[k - 1]);
            }
        }
    }
}

proof fn lemma_trim_start_shape(s: Seq<char>, c: char)
    ensures
        exists|i: int| 0 <= i <= s.len() && trim_start_char(s, c) == s.subrange(i, s.len() as int),
        trim_start_char(s, c).len() > 0 ==> trim_start_char(s, c)[0] != c,
    decreases s.len(),
{
    if s.len() > 0 && s[0] == c {
        lemma_trim_start_shape(s.drop_first(), c);
        let i = choose|i: int| 0 <= i <= s.drop_first().len() && trim_start_char(s.drop_first(), c) == s.drop_first().subrange(i, s.drop_first().len() as int);
        assert(s.drop_first().subrange(i, s.drop_first().len() as int) =~= s.subrange(i + 1, s.len() as int));
    } else {
        assert(s.subrange(0, s.len() as int) =~= s);
    }
}

proof fn lemma_trim_end_shape(s: Seq<char>, c: char)
    ensures
        exists|j: int| 0 <= j <= s.len() && trim_end_char(s, c) == s.subrange(0, j),
        trim_end_char(s, c).len() > 0 ==> trim_end_char(s, c).last() != c,
        s.len() > 0 && s[0] != c ==> trim_end_char(s, c).len() > 0 && trim_end_char(s, c)[0] == s[0],
    decreases s.len(),
{
    if s.len() > 0 && s.last() == c {
        lemma_trim_end_shape(s.drop_last(), c);
        let j = choose|j: int| 0 <= j <= s.drop_last().len() && trim_end_char(s.drop_last(), c) == s.drop_last().subrange(0, j);
        assert(s.drop_last().subrange(0, j) =~= s.subrange(0, j));
    } else {
        assert(s.subrange(0, s.len() as int) =~= s);
    }
}

proof fn lemma_parts_subrange(s: Seq<char>, i: int, j: int)
    requires
        word_parts(s),
        0 <= i <= j <= s.len(),
    ensures
        word_parts(s.subrange(i, j)),
{
    let t = s.subrange(i, j);
    assert forall|k: int| 0 <= k < t.len() implies is_ascii_alnum(#[trigger] t[k]) || t[k] == '_' by {
        assert(t[k] == s[i + k]);
    }
    assert forall|k: int| 0 < k < t.len() implies !(#[trigger] t[k] == '_' && t[k - 1] == '_') by {
        assert(t[k] == s[i + k] && t[k - 1] == s[i + k - 1]);
    }
}

proof fn lemma_squash_keeps(s: Seq<char>)
    requires
        word_parts(s),
    ensures
        squash(s) == s,
    decreases s.len(),
{
    if s.len() > 0 {
        let d = s.drop_last();
        lemma_parts_subrange(s, 0, s.len() - 1);
        assert(d == s.subrange(0, s.len() - 1));
        lemma_squash_keeps(d);
        if !is_ascii_alnum(s.last()) && s.len() > 1 {
            assert(s[s.len() - 1] == '_');
            assert(d.last() == s[s.len() - 2]);
        }
        assert(s =~= d.push(s.last()));
    }
}

proof fn lemma_trim_keeps(s: Seq<char>, c: char)
    requires
        s.len() > 0 ==> s[0] != c && s.last() != c,
    ensures
        trim_char(s, c) == s,
{
    assert(trim_start_char(s, c) == s);
}

/// An identifier in lowercase: identifier shape and no ASCII capital letter.
pub open spec fn lower_ident(s: Seq<char>) -> bool {
    &&& ident_shape(s)
    &&& forall|k: int| 0 <= k < s.len() ==> !is_ascii_upper(#[trigger] s[k])
}

proof fn lemma_squash_no_capitals(l: Seq<char>)
    requires
        forall|k: int| 0 <= k < l.len() ==> !is_ascii_upper(#[trigger] l[k]),
    ensures
        forall|k: int| 0 <= k < squash(l).len() ==> !is_ascii_upper(#[trigger] squash(l)[k]),
    decreases l.len(),
{
    if l.len() > 0 {
        lemma_squash_no_capitals(l.drop_last());
        let o = squash(l.drop_last());
        let r = squash(l);
        assert(!is_ascii_upper(l[l.len() - 1]));
        assert forall|k: int| 0 <= k < r.len() implies !is_ascii_upper(#[trigger] r[k]) by {
            if k < o.len() {
                assert(r[k] == o[k]);
            }
        }
    }
}

proof fn lemma_trim_no_capitals(q: Seq<char>)
    requires
        forall|k: int| 0 <= k < q.len() ==> !is_ascii_upper(#[trigger] q[k]),
    ensures
        forall|k: int| 0 <= k < trim_char(q, '_').len() ==> !is_ascii_upper(#[trigger] trim_char(q, '_')[k]),
{
    lemma_trim_start_shape(q, '_');
    let a = trim_start_char(q, '_');
    let i = choose|i: int| 0 <= i <= q.len() && a == q.subrange(i, q.len() as int);
    assert forall|k: int| 0 <= k < a.len() implies !is_ascii_upper(#[trigger] a[k]) by {
        assert(a[k] == q[i + k]);
    }
    lemma_trim_end_shape(a, '_');
    let r = trim_end_char(a, '_');
    let j = choose|j: int| 0 <= j <= a.len() && r == a.subrange(0, j);
    assert forall|k: int| 0 <= k < r.len() implies !is_ascii_upper(#[trigger] r[k]) by {
        assert(r[k] == a[k]);
    }
}

/// The identifier made from a word has the shape of an identifier, and making one
/// from it again changes nothing.
pub proof fn lemma_sanitized_shape(l: Seq<char>)
    ensures
        ident_shape(sanitized(l)),
        sanitized(sanitized(l)) == sanitized(l),
{
    let q = squash(l);
    lemma_squash_parts(q);
    lemma_squash_parts(l);
    lemma_trim_start_shape(q, '_');
    let a = trim_start_char(q, '_');
    let i = choose|i: int| 0 <= i <= q.len() && a == q.subrange(i, q.len() as int);
    lemma_parts_subrange(q, i, q.len() as int);
    lemma_trim_end_shape(a, '_');
    let r = trim_end_char(a, '_');
    let j = choose|j: int| 0 <= j <= a.len() && r == a.subrange(0, j);
    lemma_parts_subrange(a, 0, j);
    assert(r == sanitized(l));
    lemma_squash_keeps(r);
    lemma_trim_keeps(r, '_');
}

/// The 32 characters of `s` from `j` on are `0`-`9`, `a`-`f` or `A`-`F`.
pub open spec fn hex_digits_from(s: Seq<char>, j: int) -> bool {
    &&& 0 <= j && j + 32 <= s.len()
    &&& forall|k: int| j <= k < j + 32 ==> {
        let c = #[trigger] s[k];
        '0' <= c <= '9' || 'a' <= c <= 'f' || 'A' <= c <= 'F'
    }
}

/// A text is reported as a likely credential exactly when its lowercase form holds
/// one of `key=`, `token=`, `secret=`, `password=`, `passwd=`, `bearer `,
/// `authorization:`, `ghp_`, `github_pat_`, `xoxb-`, `xoxp-`, or the text itself
/// holds `AKIA` or 32 hexadecimal digits in a row.
pub proof fn lemma_credential_markers(s: Seq<char>, lower: Seq<char>)
    ensures
        secret_text(s, lower) <==> {
            ||| contains(lower, "key="@)
            ||| contains(lower, "token="@)
            ||| contains(lower, "secret="@)
            ||| contains(lower, "password="@)
            ||| contains(lower, "passwd="@)
            ||| contains(lower, "bearer "@)
            ||| contains(lower, "authorization:"@)
            ||| contains(lower, "ghp_"@)
            ||| contains(lower, "github_pat_"@)
            ||| contains(lower, "xoxb-"@)
            ||| contains(lower, "xoxp-"@)
            ||| contains(s, "AKIA"@)
            ||| exists|j: int| #[trigger] hex_digits_from(s, j)
        },
{
    if has_hex_run(s) {
        let j = choose|j: int| hex_window(s, j);
        assert(forall|k: int| j <= k < j + 32 ==> is_hex_digit(#[trigger] s[k]));
        assert(hex_digits_from(s, j));
    }
    if exists|j: int| #[trigger] hex_digits_from(s, j) {
        let j = choose|j: int| #[trigger] hex_digits_from(s, j);
        assert(hex_window(s, j));
    }
}

/// A value is written as a shell argument unchanged exactly when it is not empty
/// and each of its characters is an ASCII letter or digit or one of `_-./:@=+,~`;
/// any other value is written between single quotes.
pub proof fn lemma_quoted_bare_exactly(v: Seq<char>)
    ensures
        quoted(v) == v <==> (v.len() > 0 && forall|k: int| 0 <= k < v.len() ==> {
            let c = #[trigger] v[k];
            ||| '0' <= c <= '9'
            ||| 'a' <= c <= 'z'
            ||| 'A' <= c <= 'Z'
            ||| c == '_' || c == '-' || c == '.' || c == '/' || c == ':'
            ||| c == '@' || c == '=' || c == '+' || c == ',' || c == '~'
        }),
        quoted(v) != v ==> quoted(v).len() >= 2 && quoted(v)[0] == '\'' && quoted(v).last() == '\'',
{
    let q = seq!['\''] + escape_single(v) + seq!['\''];
    if !is_bare(v) {
        lemma_escape_len(v);
        assert(q.len() > v.len());
        assert(q[0] == '\'');
        assert(q.last() == '\'');
    }
}

proof fn lemma_escape_len(v: Seq<char>)
    ensures
        escape_single(v).len() >= v.len(),
    decreases v.len(),
{
    if v.len() > 0 {
        lemma_escape_len(v.drop_last());
    }
}

} // verus!
