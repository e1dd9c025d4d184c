use vstd::prelude::*;
use crate::text::is_space;
use crate::tokenize::{TokenV, Quote, Mode, WordState, scan, lex, op_end, is_op, empty_word, word_quote,
    lemma_scan_end, lemma_op_end};

verus! {

/// A character that stands for itself inside a word: no whitespace, operator,
/// quote or backslash.
pub open spec fn word_char(c: char) -> bool {
    !is_space(c) && !is_op(c) && c != '\'' && c != '"' && c != '\\'
}

/// The scan of a word that ends exactly at the end of `w` ends at the same place in
/// any text where `w` is followed by nothing, whitespace or an operator.
pub proof fn lemma_scan_embed(p: Seq<char>, w: Seq<char>, q: Seq<char>, k: int, m: Mode, st: WordState, st2: WordState)
    requires
        0 <= k <= w.len(),
        scan(w, k, m, st) == Some((w.len() as int, st2)),
        q.len() == 0 || is_space(q[0]) || is_op(q[0]),
    ensures
        scan(p + w + q, p.len() + k, m, st) == Some(((p.len() + w.len()) as int, st2)),
    decreases w.len() - k,
{
    let s = p + w + q;
    let i = p.len() + k;
    assert(forall|x: int| 0 <= x < w.len() ==> s[p.len() + x] == w[x]);
    if k == w.len() {
        match m {
            Mode::Word => {
                if q.len() > 0 {
                    assert(s[i] == q[0]);
                }
            },
            _ => {},
        }
    } else {
        assert(s[i] == w[k]);
        match m {
            Mode::Word => {
                if is_space(w[k]) || is_op(w[k]) {
                } else if w[k] == '\'' {
                    lemma_scan_embed(p, w, q, k + 1, Mode::Single, WordState { segments: st.segments + 1, last: Quote::Single, ..st }, st2);
                } else if w[k] == '"' {
                    lemma_scan_embed(p, w, q, k + 1, Mode::Double, WordState { segments: st.segments + 1, last: Quote::Double, ..st }, st2);
                } else if w[k] == '\\' {
                    if k + 1 < w.len() {
                        lemma_scan_embed(p, w, q, k + 2, Mode::Word, WordState { value: st.value.push(w[k + 1]), plain: true, ..st }, st2);
                    }
                } else {
                    lemma_scan_embed(p, w, q, k + 1, Mode::Word, WordState { value: st.value.push(w[k]), plain: true, ..st }, st2);
                }
            },
            Mode::Single => {
                if w[k] == '\'' {
                    lemma_scan_embed(p, w, q, k + 1, Mode::Word, st, st2);
                } else if w[k] == '\\' && k + 1 < w.len() && (w[k + 1] == '\\' || w[k + 1] == '\'') {
                    lemma_scan_embed(p, w, q, k + 2, Mode::Single, WordState { value: st.value.push(w[k + 1]), ..st }, st2);
                } else {
                    if k + 1 == w.len() && q.len() > 0 {
                        assert(s[i + 1] == q[0]);
                    }
                    lemma_scan_embed(p, w, q, k + 1, Mode::Single, WordState { value: st.value.push(w[k]), ..st }, st2);
                }
            },
            Mode::Double => {
                if w[k] == '"' {
                    lemma_scan_embed(p, w, q, k + 1, Mode::Word, st, st2);
                } else if w[k] == '\\' && k + 1 < w.len() && (w[k + 1] == '"' || w[k + 1] == '\\' || w[k + 1] == '$') {
                    lemma_scan_embed(p, w, q, k + 2, Mode::Double, WordState { value: st.value.push(w[k + 1]), ..st }, st2);
                } else {
                    if k + 1 == w.len() && q.len() > 0 {
                        assert(s[i + 1] == q[0]);
                    }
                    lemma_scan_embed(p, w, q, k + 1, Mode::Double, WordState { value: st.value.push(w[k]), ..st }, st2);
                }
            },
        }
    }
}


/// A word scan that ends at `j` reads the same from the text cut at `i0` and `j`.
pub proof fn lemma_scan_restrict(s: Seq<char>, i0: int, i: int, m: Mode, st: WordState)
    requires
        0 <= i0 <= i <= s.len(),
        scan(s, i, m, st) is Some,
    ensures
        scan(s.subrange(i0, scan(s, i, m, st).unwrap().0), i - i0, m, st) == Some(
            (scan(s, i, m, st).unwrap().0 - i0, scan(s, i, m, st).unwrap().1),
        ),
    decreases s.len() - i,
{
    let j = scan(s, i, m, st).unwrap().0;
    lemma_scan_end(s, i, m, st);
    let w = s.subrange(i0, j);
    let k = i - i0;
    assert(forall|x: int| 0 <= x < w.len() ==> w[x] == s[i0 + x]);
    if i < s.len() {
        match m {
            Mode::Word => {
                if is_space(s[i]) || is_op(s[i]) {
                } else if s[i] == '\'' {
                    let st1 = WordState { segments: st.segments + 1, last: Quote::Single, ..st };
                    lemma_scan_restrict(s, i0, i + 1, Mode::Single, st1);
                } else if s[i] == '"' {
                    let st1 = WordState { segments: st.segments + 1, last: Quote::Double, ..st };
                    lemma_scan_restrict(s, i0, i + 1, Mode::Double, st1);
                } else if s[i] == '\\' {
                    let st1 = WordState { value: st.value.push(s[i + 1]), plain: true, ..st };
                    lemma_scan_end(s, i + 2, Mode::Word, st1);
                    lemma_scan_restrict(s, i0, i + 2, Mode::Word, st1);
                } else {
                    let st1 = WordState { value: st.value.push(s[i]), plain: true, ..st };
                    lemma_scan_restrict(s, i0, i + 1, Mode::Word, st1);
                }
            },
            Mode::Single => {
                if s[i] == '\'' {
                    lemma_scan_restrict(s, i0, i + 1, Mode::Word, st);
                } else if s[i] == '\\' && i + 1 < s.len() && (s[i + 1] == '\\' || s[i + 1] == '\'') {
                    let st1 = WordState { value: st.value.push(s[i + 1]), ..st };
                    lemma_scan_end(s, i + 2, Mode::Single, st1);
                    lemma_scan_restrict(s, i0, i + 2, Mode::Single, st1);
                } else {
                    let st1 = WordState { value: st.value.push(s[i]), ..st };
                    lemma_scan_end(s, i + 1, Mode::Single, st1);
                    lemma_scan_restrict(s, i0, i + 1, Mode::Single, st1);
                }
            },
            Mode::Double => {
                if s[i] == '"' {
                    lemma_scan_restrict(s, i0, i + 1, Mode::Word, st);
                } else if s[i] == '\\' && i + 1 < s.len() && (s[i + 1] == '"' || s[i + 1] == '\\' || s[i + 1] == '$') {
                    let st1 = WordState { value: st.value.push(s[i + 1]), ..st };
                    lemma_scan_end(s, i + 2, Mode::Double, st1);
                    lemma_scan_restrict(s, i0, i + 2, Mode::Double, st1);
                } else {
                    let st1 = WordState { value: st.value.push(s[i]), ..st };
                    lemma_scan_end(s, i + 1, Mode::Double, st1);
                    lemma_scan_restrict(s, i0, i + 1, Mode::Double, st1);
                }
            },
        }
    }
}

/// A word scan stops at the end of the text, at whitespace or at an operator.
pub proof fn lemma_scan_stop(s: Seq<char>, i: int, m: Mode, st: WordState)
    requires
        0 <= i,
        scan(s, i, m, st) is Some,
    ensures
        ({
            let j = scan(s, i, m, st).unwrap().0;
            j >= s.len() || is_space(s[j]) || is_op(s[j])
        }),
    decreases s.len() - i,
{
    if i < s.len() {
        match m {
            Mode::Word => {
                if is_space(s[i]) || is_op(s[i]) {
                } else if s[i] == '\'' {
                    lemma_scan_stop(s, i + 1, Mode::Single, WordState { segments: st.segments + 1, last: Quote::Single, ..st });
                } else if s[i] == '"' {
                    lemma_scan_stop(s, i + 1, Mode::Double, WordState { segments: st.segments + 1, last: Quote::Double, ..st });
                } else if s[i] == '\\' {
                    lemma_scan_stop(s, i + 2, Mode::Word, WordState { value: st.value.push(s[i + 1]), plain: true, ..st });
                } else {
                    lemma_scan_stop(s, i + 1, Mode::Word, WordState { value: st.value.push(s[i]), plain: true, ..st });
                }
            },
            Mode::Single => {
                if s[i] == '\'' {
                    lemma_scan_stop(s, i + 1, Mode::Word, st);
                } else if s[i] == '\\' && i + 1 < s.len() && (s[i + 1] == '\\' || s[i + 1] == '\'') {
                    lemma_scan_stop(s, i + 2, Mode::Single, WordState { value: st.value.push(s[i + 1]), ..st });
                } else {
                    lemma_scan_stop(s, i + 1, Mode::Single, WordState { value: st.value.push(s[i]), ..st });
                }
            },
            Mode::Double => {
                if s[i] == '"' {
                    lemma_scan_stop(s, i + 1, Mode::Word, st);
                } else if s[i] == '\\' && i + 1 < s.len() && (s[i + 1] == '"' || s[i + 1] == '\\' || s[i + 1] == '$') {
                    lemma_scan_stop(s, i + 2, Mode::Double, WordState { value: st.value.push(s[i + 1]), ..st });
                } else {
                    lemma_scan_stop(s, i + 1, Mode::Double, WordState { value: st.value.push(s[i]), ..st });
                }
            },
        }
    }
}

/// An operator run that fills `w` ends at the end of `w` in any text where `w` is
/// followed by nothing or a non-operator.
pub proof fn lemma_op_embed(p: Seq<char>, w: Seq<char>, q: Seq<char>, k: int)
    requires
        0 <= k <= w.len(),
        forall|x: int| 0 <= x < w.len() ==> is_op(#[trigger] w[x]),
        q.len() == 0 || !is_op(q[0]),
    ensures
        op_end(p + w + q, p.len() + k) == p.len() + w.len(),
    decreases w.len() - k,
{
    let s = p + w + q;
    if k < w.len() {
        assert(s[p.len() + k] == w[k]);
        lemma_op_embed(p, w, q, k + 1);
    } else if q.len() > 0 {
        assert(s[p.len() + k] == q[0]);
    }
}

/// The first token read from `i`: when no whitespace came before it, none was
/// skipped, and it is an operator exactly when the character at `i` is one.
pub proof fn lemma_lex_first(s: Seq<char>, i: int, sb: bool)
    requires
        0 <= i,
        lex(s, i, sb) is Some,
        lex(s, i, sb)->0.len() > 0,
    ensures
        !lex(s, i, sb)->0[0].space_before ==> (!sb && i < s.len() && !is_space(s[i])
            && (lex(s, i, sb)->0[0].op == is_op(s[i]))),
    decreases s.len() - i,
{
    if i < s.len() && is_space(s[i]) {
        lemma_lex_first(s, i + 1, true);
    }
}


/// The raw text of a word token reads back, on its own, as that word.
#[verifier::opaque]
pub open spec fn word_text(t: TokenV) -> bool {
    &&& t.raw.len() > 0
    &&& !is_space(t.raw[0])
    &&& !is_op(t.raw[0])
    &&& scan(t.raw, 0, Mode::Word, empty_word()) is Some
    &&& scan(t.raw, 0, Mode::Word, empty_word()).unwrap().0 == t.raw.len()
    &&& scan(t.raw, 0, Mode::Word, empty_word()).unwrap().1.value == t.value
    &&& word_quote(scan(t.raw, 0, Mode::Word, empty_word()).unwrap().1) == t.quote
}

/// The raw text of an operator token is a run of operator characters, and is its value.
pub open spec fn op_text(t: TokenV) -> bool {
    &&& t.raw.len() > 0
    &&& forall|x: int| 0 <= x < t.raw.len() ==> is_op(#[trigger] t.raw[x])
    &&& t.value == t.raw
    &&& t.quote == Quote::Plain
}

/// A token whose raw text reads back as the token.
pub open spec fn well_read(t: TokenV) -> bool {
    if t.op { op_text(t) } else { word_text(t) }
}

/// Tokens with no whitespace between them are of different kinds: a word never
/// touches a word, nor an operator run another.
pub open spec fn apart(ts: Seq<TokenV>) -> bool {
    forall|c: int| 0 < c < ts.len() && !(#[trigger] ts[c]).space_before ==> ts[c - 1].op != ts[c].op
}

proof fn lemma_facts_cons(tok: TokenV, rest: Seq<TokenV>)
    requires
        well_read(tok),
        forall|c: int| 0 <= c < rest.len() ==> well_read(#[trigger] rest[c]),
        apart(rest),
        rest.len() > 0 && !rest[0].space_before ==> rest[0].op != tok.op,
    ensures
        forall|c: int| 0 <= c < (seq![tok] + rest).len() ==> well_read(#[trigger] (seq![tok] + rest)[c]),
        apart(seq![tok] + rest),
{
    let ts = seq![tok] + rest;
    assert forall|c: int| 0 <= c < ts.len() implies well_read(#[trigger] ts[c]) by {
        if c > 0 {
            assert(ts[c] == rest[c - 1]);
        }
    }
    assert forall|c: int| 0 < c < ts.len() && !(#[trigger] ts[c]).space_before implies ts[c - 1].op != ts[c].op by {
        assert(ts[c] == rest[c - 1]);
        if c > 1 {
            assert(ts[c - 1] == rest[c - 2]);
        }
    }
}

/// The facts of `lemma_lex_facts` for the tokens read from `i`.
pub open spec fn lex_facts(s: Seq<char>, i: int, sb: bool) -> bool {
    lex(s, i, sb) is Some ==> {
        &&& forall|c: int| 0 <= c < lex(s, i, sb)->0.len() ==> well_read(#[trigger] lex(s, i, sb)->0[c])
        &&& apart(lex(s, i, sb)->0)
    }
}

proof fn lemma_lex_facts_op(s: Seq<char>, i: int, sb: bool)
    requires
        0 <= i < s.len(),
        !is_space(s[i]),
        is_op(s[i]),
        lex_facts(s, op_end(s, i), false),
    ensures
        lex_facts(s, i, sb),
{
    if lex(s, i, sb) is Some {
        let ts = lex(s, i, sb)->0;
        let j = op_end(s, i);
        lemma_op_end(s, i);
        let rest = lex(s, j, false)->0;
        let tok = ts[0];
        assert(ts == seq![tok] + rest);
        assert(op_text(tok)) by {
            assert forall|x: int| 0 <= x < tok.raw.len() implies is_op(#[trigger] tok.raw[x]) by {
                assert(tok.raw[x] == s[i + x]);
            }
        }
        if rest.len() > 0 {
            lemma_lex_first(s, j, false);
        }
        lemma_facts_cons(tok, rest);
    }
}

proof fn lemma_lex_facts_word(s: Seq<char>, i: int, sb: bool)
    requires
        0 <= i < s.len(),
        !is_space(s[i]),
        !is_op(s[i]),
        scan(s, i, Mode::Word, empty_word()) is Some ==> lex_facts(s, scan(s, i, Mode::Word, empty_word()).unwrap().0, false),
    ensures
        lex_facts(s, i, sb),
{
    if lex(s, i, sb) is Some {
        let ts = lex(s, i, sb)->0;
        let (j, st) = scan(s, i, Mode::Word, empty_word())->0;
        lemma_scan_end(s, i, Mode::Word, empty_word());
        lemma_scan_stop(s, i, Mode::Word, empty_word());
        lemma_scan_restrict(s, i, i, Mode::Word, empty_word());
        let rest = lex(s, j, false)->0;
        let tok = ts[0];
        assert(ts == seq![tok] + rest);
        assert(tok.raw == s.subrange(i, j));
        assert(tok.raw[0] == s[i]);
        assert(word_text(tok)) by {
            reveal(word_text);
        }
        if rest.len() > 0 {
            lemma_lex_first(s, j, false);
        }
        lemma_facts_cons(tok, rest);
    }
}

/// What the tokenizer gives reads back token by token, and keeps words and
/// operator runs apart.
pub proof fn lemma_lex_facts(s: Seq<char>, i: int, sb: bool)
    requires
        0 <= i,
    ensures
        lex_facts(s, i, sb),
    decreases s.len() - i,
{
    if i < s.len() {
        if is_space(s[i]) {
            lemma_lex_facts(s, i + 1, true);
        } else if is_op(s[i]) {
            lemma_op_end(s, i);
            lemma_lex_facts(s, op_end(s, i), false);
            lemma_lex_facts_op(s, i, sb);
        } else {
            if scan(s, i, Mode::Word, empty_word()) is Some {
                lemma_scan_end(s, i, Mode::Word, empty_word());
                lemma_lex_facts(s, scan(s, i, Mode::Word, empty_word()).unwrap().0, false);
            }
            lemma_lex_facts_word(s, i, sb);
        }
    }
}

/// The raw texts of the first `k` tokens, with one space before each token but the
/// first that had whitespace before it.
pub open spec fn joined(ts: Seq<TokenV>, k: int) -> Seq<char>
    decreases k,
{
    if k <= 0 {
        Seq::empty()
    } else {
        let b = joined(ts, k - 1);
        (if k - 1 > 0 && ts[k - 1].space_before { b.push(' ') } else { b }) + ts[k - 1].raw
    }
}

/// The tokens as they read back from `joined`: the first has no whitespace before it.
pub open spec fn reread(ts: Seq<TokenV>) -> Seq<TokenV> {
    Seq::new(ts.len(), |c: int| TokenV { space_before: c > 0 && ts[c].space_before, ..ts[c] })
}

proof fn lemma_joined_prefix(ts: Seq<TokenV>, c: int, n: int)
    requires
        0 <= c <= n,
    ensures
        joined(ts, c).len() <= joined(ts, n).len(),
        joined(ts, n).subrange(0, joined(ts, c).len() as int) == joined(ts, c),
    decreases n - c,
{
    if c < n {
        lemma_joined_prefix(ts, c, n - 1);
        let b = joined(ts, n - 1);
        let j = joined(ts, n);
        assert(j.subrange(0, b.len() as int) =~= b);
        assert(j.subrange(0, joined(ts, c).len() as int) =~= b.subrange(0, joined(ts, c).len() as int));
    } else {
        assert(joined(ts, n).subrange(0, joined(ts, c).len() as int) =~= joined(ts, c));
    }
}

/// What follows the text of token `c` in the joined text, when it is not the last:
/// a space, or the next token's first character.
pub proof fn lemma_join_next(ts: Seq<TokenV>, c: int)
    requires
        0 <= c,
        c + 1 < ts.len(),
        ts[c + 1].raw.len() > 0,
    ensures
        ({
            let jn = joined(ts, ts.len() as int);
            let e = joined(ts, c + 1).len() as int;
            &&& e < jn.len()
            &&& jn[e] == if ts[c + 1].space_before { ' ' } else { ts[c + 1].raw[0] }
        }),
{
    let n = ts.len() as int;
    lemma_joined_prefix(ts, c + 2, n);
    let jn = joined(ts, n);
    let e = joined(ts, c + 1).len() as int;
    let j2 = joined(ts, c + 2);
    assert(jn.subrange(0, j2.len() as int) == j2);
    assert(jn[e] == j2[e]);
}

/// The joined text splits around the text of token `c`: what comes before it (with
/// its leading space), its raw text, and the rest.
pub proof fn lemma_join_split(ts: Seq<TokenV>, c: int)
    requires
        0 <= c < ts.len(),
    ensures
        ({
            let jn = joined(ts, ts.len() as int);
            let b = joined(ts, c);
            let pre = if c > 0 && ts[c].space_before { b.push(' ') } else { b };
            let e = joined(ts, c + 1).len() as int;
            &&& e <= jn.len()
            &&& e == pre.len() + ts[c].raw.len()
            &&& jn == pre + ts[c].raw + jn.subrange(e, jn.len() as int)
        }),
{
    let n = ts.len() as int;
    lemma_joined_prefix(ts, c + 1, n);
    let jn = joined(ts, n);
    let e = joined(ts, c + 1).len() as int;
    assert(jn =~= jn.subrange(0, e) + jn.subrange(e, jn.len() as int));
}

/// Reading one token of `ts` from the start of its text: `a` is where the text
/// starts, `e` where it ends, `sb` whether a space came before it.
proof fn lemma_lex_token(jn: Seq<char>, pre: Seq<char>, t: TokenV, q: Seq<char>, sb: bool, tail: Seq<TokenV>)
    requires
        jn == pre + t.raw + q,
        well_read(t),
        t.op ==> (q.len() == 0 || !is_op(q[0])),
        !t.op ==> (q.len() == 0 || is_space(q[0]) || is_op(q[0])),
        lex(jn, (pre.len() + t.raw.len()) as int, false) == Some(tail),
    ensures
        lex(jn, pre.len() as int, sb) == Some(seq![TokenV { space_before: sb, ..t }] + tail),
{
    let a = pre.len() as int;
    let e = a + t.raw.len();
    let w = t.raw;
    if t.op {
        assert(w.len() > 0);
        assert(jn[a] == w[0]);
        lemma_op_embed(pre, w, q, 0);
        assert(jn.subrange(a, e) =~= w);
    } else {
        reveal(word_text);
        assert(jn[a] == w[0]);
        let st2 = scan(w, 0, Mode::Word, empty_word()).unwrap().1;
        lemma_scan_embed(pre, w, q, 0, Mode::Word, empty_word(), st2);
        assert(jn.subrange(a, e) =~= w);
    }
}

/// The tokens read from position `i`, with no whitespace before it.
#[verifier::opaque]
pub open spec fn lex_from(s: Seq<char>, i: int) -> Option<Seq<TokenV>> {
    lex(s, i, false)
}

proof fn lemma_lex_join_q(ts: Seq<TokenV>, c: int)
    requires
        0 <= c < ts.len(),
        c + 1 < ts.len() ==> well_read(ts[c + 1]),
        apart(ts),
    ensures
        ({
            let jn = joined(ts, ts.len() as int);
            let e = joined(ts, c + 1).len() as int;
            let q = jn.subrange(e, jn.len() as int);
            &&& ts[c].op ==> (q.len() == 0 || !is_op(q[0]))
            &&& !ts[c].op ==> (q.len() == 0 || is_space(q[0]) || is_op(q[0]))
        }),
{
    let n = ts.len() as int;
    let jn = joined(ts, n);
    lemma_join_split(ts, c);
    let e = joined(ts, c + 1).len() as int;
    let q = jn.subrange(e, jn.len() as int);
    if c + 1 < n {
        if ts[c + 1].op {
            assert(op_text(ts[c + 1]));
        } else {
            reveal(word_text);
        }
        lemma_join_next(ts, c);
        assert(q[0] == jn[e]);
        if !ts[c + 1].space_before {
            assert(ts[c].op != ts[c + 1].op);
            if ts[c + 1].op {
                assert(is_op(ts[c + 1].raw[0]));
            }
        }
    }
}

proof fn lemma_lex_join_step(ts: Seq<TokenV>, c: int, tail: Seq<TokenV>)
    requires
        0 <= c < ts.len(),
        well_read(ts[c]),
        c + 1 < ts.len() ==> well_read(ts[c + 1]),
        apart(ts),
        lex_from(joined(ts, ts.len() as int), joined(ts, c + 1).len() as int) == Some(tail),
    ensures
        lex_from(joined(ts, ts.len() as int), joined(ts, c).len() as int) == Some(seq![reread(ts)[c]] + tail),
{
    reveal(lex_from);
    let n = ts.len() as int;
    let jn = joined(ts, n);
    lemma_join_split(ts, c);
    lemma_lex_join_q(ts, c);
    let b = joined(ts, c);
    let gap = c > 0 && ts[c].space_before;
    let pre = if gap { b.push(' ') } else { b };
    let t = ts[c];
    let e = joined(ts, c + 1).len() as int;
    let q = jn.subrange(e, jn.len() as int);
    lemma_lex_token(jn, pre, t, q, gap, tail);
    assert(reread(ts)[c] == TokenV { space_before: gap, ..t });
    if gap {
        assert(jn[b.len() as int] == ' ');
        assert(lex(jn, b.len() as int, false) == lex(jn, (b.len() + 1) as int, true));
    }
}

proof fn lemma_subrange_cons<A>(s: Seq<A>, c: int, n: int)
    requires
        0 <= c < n <= s.len(),
    ensures
        s.subrange(c, n) == seq![s[c]] + s.subrange(c + 1, n),
{
    assert(s.subrange(c, n) =~= seq![s[c]] + s.subrange(c + 1, n));
}

proof fn lemma_lex_join_from(ts: Seq<TokenV>, c: int)
    requires
        0 <= c <= ts.len(),
        forall|k: int| 0 <= k < ts.len() ==> well_read(#[trigger] ts[k]),
        apart(ts),
    ensures
        lex_from(joined(ts, ts.len() as int), joined(ts, c).len() as int) == Some(reread(ts).subrange(c, ts.len() as int)),
    decreases ts.len() - c,
{
    let n = ts.len() as int;
    let rr = reread(ts);
    if c == n {
        reveal(lex_from);
        assert(rr.subrange(c, n).len() == 0);
    } else {
        lemma_lex_join_from(ts, c + 1);
        let tail = rr.subrange(c + 1, n);
        assert(well_read(ts[c]));
        if c + 1 < n {
            assert(well_read(ts[c + 1]));
        }
        lemma_lex_join_step(ts, c, tail);
        lemma_subrange_cons(rr, c, n);
    }
}

/// Tokens that read back one by one and keep words and operators apart read back
/// as themselves from the text that joins them.
pub proof fn lemma_lex_join(ts: Seq<TokenV>)
    requires
        forall|k: int| 0 <= k < ts.len() ==> well_read(#[trigger] ts[k]),
        apart(ts),
    ensures
        lex(joined(ts, ts.len() as int), 0, false) == Some(reread(ts)),
{
    lemma_lex_join_from(ts, 0);
    reveal(lex_from);
    assert(reread(ts).subrange(0, ts.len() as int) =~= reread(ts));
}


/// A run of word characters is read into the word as it is.
pub proof fn lemma_scan_word_run(s: Seq<char>, i: int, st: WordState)
    requires
        0 <= i <= s.len(),
        forall|k: int| i <= k < s.len() ==> word_char(#[trigger] s[k]),
    ensures
        scan(s, i, Mode::Word, st) == Some((s.len() as int, WordState {
            value: st.value + s.subrange(i, s.len() as int),
            plain: st.plain || i < s.len(),
            ..st
        })),
    decreases s.len() - i,
{
    if i < s.len() {
        assert(word_char(s[i]));
        let st2 = WordState { value: st.value.push(s[i]), plain: true, ..st };
        lemma_scan_word_run(s, i + 1, st2);
        assert(st.value.push(s[i]) + s.subrange(i + 1, s.len() as int) =~= st.value + s.subrange(i, s.len() as int));
    } else {
        assert(st.value + s.subrange(i, s.len() as int) =~= st.value);
    }
}

/// Inside quotes, characters other than the closing quote and the backslash are
/// read into the word as they are, up to the closing quote.
pub proof fn lemma_scan_quoted_run(s: Seq<char>, i: int, e: int, m: Mode, st: WordState)
    requires
        0 <= i <= e < s.len(),
        m is Single || m is Double,
        s[e] == (if m is Single { '\'' } else { '"' }),
        forall|k: int| i <= k < e ==> #[trigger] s[k] != '\\' && s[k] != (if m is Single { '\'' } else { '"' }),
    ensures
        scan(s, i, m, st) == scan(s, e + 1, Mode::Word, WordState { value: st.value + s.subrange(i, e), ..st }),
    decreases e - i,
{
    if i < e {
        assert(s[i] != '\\');
        let st2 = WordState { value: st.value.push(s[i]), ..st };
        lemma_scan_quoted_run(s, i + 1, e, m, st2);
        assert(st.value.push(s[i]) + s.subrange(i + 1, e) =~= st.value + s.subrange(i, e));
    } else {
        assert(st.value + s.subrange(i, e) =~= st.value);
        assert(WordState { value: st.value + s.subrange(i, e), ..st } == st);
    }
}

/// Word characters written bare read back as a plain word with that text.
pub proof fn lemma_bare_word_text(w: Seq<char>, sb: bool)
    requires
        w.len() > 0,
        forall|k: int| 0 <= k < w.len() ==> word_char(#[trigger] w[k]),
    ensures
        word_text(TokenV { raw: w, value: w, quote: Quote::Plain, op: false, space_before: sb }),
{
    reveal(word_text);
    lemma_scan_word_run(w, 0, empty_word());
    assert(Seq::<char>::empty() + w.subrange(0, w.len() as int) =~= w);
    assert(word_char(w[0]));
}

/// Text in single quotes, without quote or backslash, reads back as a
/// single-quoted word with that text.
pub proof fn lemma_single_word_text(w: Seq<char>, sb: bool)
    requires
        forall|k: int| 0 <= k < w.len() ==> #[trigger] w[k] != '\\' && w[k] != '\'',
    ensures
        word_text(TokenV { raw: seq!['\''] + w + seq!['\''], value: w, quote: Quote::Single, op: false, space_before: sb }),
{
    reveal(word_text);
    let r = seq!['\''] + w + seq!['\''];
    let st1 = WordState { segments: 1, last: Quote::Single, ..empty_word() };
    assert forall|k: int| 1 <= k < w.len() + 1 implies #[trigger] r[k] != '\\' && r[k] != '\'' by {
        assert(r[k] == w[k - 1]);
    }
    lemma_scan_quoted_run(r, 1, (w.len() + 1) as int, Mode::Single, st1);
    assert(r.subrange(1, (w.len() + 1) as int) =~= w);
    assert(Seq::<char>::empty() + w =~= w);
}

/// Text in double quotes, without quote or backslash, reads back as a
/// double-quoted word with that text.
pub proof fn lemma_double_word_text(w: Seq<char>, sb: bool)
    requires
        forall|k: int| 0 <= k < w.len() ==> #[trigger] w[k] != '\\' && w[k] != '"',
    ensures
        word_text(TokenV { raw: seq!['"'] + w + seq!['"'], value: w, quote: Quote::Double, op: false, space_before: sb }),
{
    reveal(word_text);
    let r = seq!['"'] + w + seq!['"'];
    let st1 = WordState { segments: 1, last: Quote::Double, ..empty_word() };
    assert forall|k: int| 1 <= k < w.len() + 1 implies #[trigger] r[k] != '\\' && r[k] != '"' by {
        assert(r[k] == w[k - 1]);
    }
    lemma_scan_quoted_run(r, 1, (w.len() + 1) as int, Mode::Double, st1);
    assert(r.subrange(1, (w.len() + 1) as int) =~= w);
    assert(Seq::<char>::empty() + w =~= w);
}


/// Every character of joined tokens is a space or a character of one of them.
pub proof fn lemma_joined_chars(ts: Seq<TokenV>, k: int, p: spec_fn(char) -> bool)
    requires
        0 <= k <= ts.len(),
        p(' '),
        forall|c: int, x: int| 0 <= c < ts.len() && 0 <= x < ts[c].raw.len() ==> p(#[trigger] ts[c].raw[x]),
    ensures
        forall|x: int| 0 <= x < joined(ts, k).len() ==> p(#[trigger] joined(ts, k)[x]),
    decreases k,
{
    if k > 0 {
        lemma_joined_chars(ts, k - 1, p);
        let b = joined(ts, k - 1);
        let b1 = if k - 1 > 0 && ts[k - 1].space_before { b.push(' ') } else { b };
        let j = joined(ts, k);
        assert forall|x: int| 0 <= x < j.len() implies p(#[trigger] j[x]) by {
            if x < b.len() {
                assert(j[x] == b[x]);
            } else if x < b1.len() {
                assert(j[x] == ' ');
            } else {
                assert(j[x] == ts[k - 1].raw[x - b1.len()]);
            }
        }
    }
}


/// A token that reads back on its own has raw text, starting with no whitespace, with
/// an operator character exactly when it is an operator.
pub proof fn lemma_well_read_start(t: TokenV)
    requires
        well_read(t),
    ensures
        t.raw.len() > 0,
        !is_space(t.raw[0]),
        is_op(t.raw[0]) == t.op,
{
    reveal(word_text);
}

/// Tokens that read back one by one and keep words and operators apart are what the
/// tokenizer gives for the text that joins them.
pub proof fn lemma_tokens_of_join(ts: Seq<TokenV>)
    requires
        ts.len() > 0,
        forall|k: int| 0 <= k < ts.len() ==> well_read(#[trigger] ts[k]),
        apart(ts),
    ensures
        crate::tokenize::tokens_of(joined(ts, ts.len() as int)) == Some(reread(ts)),
{
    lemma_lex_join(ts);
    assert(reread(ts).len() > 0);
}


/// What the tokenizer gives for a command reads back token by token and keeps words
/// and operators apart.
pub proof fn lemma_tokens_read(s: Seq<char>, ts: Seq<TokenV>)
    requires
        crate::tokenize::tokens_of(s) == Some(ts),
    ensures
        ts.len() > 0,
        forall|c: int| 0 <= c < ts.len() ==> well_read(#[trigger] ts[c]),
        apart(ts),
{
    lemma_lex_facts(s, 0, false);
}

} // verus!
