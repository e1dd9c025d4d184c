use vstd::prelude::*;
use crate::text::{chars_of, string_of, push_char, is_space, char_is_space};

verus! {

/// How a word token was quoted: `Single`/`Double` when the whole word is one
/// quoted segment, `Plain` otherwise.
#[derive(Clone, Copy, PartialEq, Eq, Debug, Structural)]
pub enum Quote {
    Plain,
    Single,
    Double,
}

/// One shell token: `raw` is its source text, `value` its text with quotes and
/// escapes removed.
#[derive(Clone, Debug)]
pub struct Token {
    pub raw: String,
    pub value: String,
    pub quote: Quote,
    pub op: bool,
    pub space_before: bool,
}

/// A token as a mathematical value.
pub struct TokenV {
    pub raw: Seq<char>,
    pub value: Seq<char>,
    pub quote: Quote,
    pub op: bool,
    pub space_before: bool,
}

impl View for Token {
    type V = TokenV;

    open spec fn view(&self) -> TokenV {
        TokenV {
            raw: self.raw@,
            value: self.value@,
            quote: self.quote,
            op: self.op,
            space_before: self.space_before,
        }
    }
}

/// Tokens as mathematical values.
pub open spec fn toks_view(v: Seq<Token>) -> Seq<TokenV> {
    v.map_values(|t: Token| t@)
}

/// The characters that make up operator tokens.
pub open spec fn is_op(c: char) -> bool {
    c == '|' || c == ';' || c == '&' || c == '<' || c == '>'
}

/// Where the scanner is while reading a word.
pub enum Mode {
    Word,
    Single,
    Double,
}

/// State of the word scanner: text gathered so far, number of quoted segments,
/// whether an unquoted character was seen, and the kind of the last quote.
pub struct WordState {
    pub value: Seq<char>,
    pub segments: nat,
    pub plain: bool,
    pub last: Quote,
}

/// Reads a word from position `i` in mode `m`; gives the position where the word
/// ends and the final state, or `None` for an unterminated quote or a trailing
/// backslash.
pub open spec fn scan(s: Seq<char>, i: int, m: Mode, st: WordState) -> Option<(int, WordState)>
    decreases s.len() - i,
{
    if i < 0 {
        None
    } else {
        match m {
            Mode::Word => {
                if i >= s.len() || is_space(s[i]) || is_op(s[i]) {
                    Some((i, st))
                } else if s[i] == '\'' {
                    scan(s, i + 1, Mode::Single, WordState { segments: st.segments + 1, last: Quote::Single, ..st })
                } else if s[i] == '"' {
                    scan(s, i + 1, Mode::Double, WordState { segments: st.segments + 1, last: Quote::Double, ..st })
                } else if s[i] == '\\' {
                    if i + 1 >= s.len() {
                        None
                    } else {
                        scan(s, i + 2, Mode::Word, WordState { value: st.value.push(s[i + 1]), plain: true, ..st })
                    }
                } else {
                    scan(s, i + 1, Mode::Word, WordState { value: st.value.push(s[i]), plain: true, ..st })
                }
            },
            Mode::Single => {
                if i >= s.len() {
                    None
                } else if s[i] == '\'' {
                    scan(s, i + 1, Mode::Word, st)
                } else if s[i] == '\\' && i + 1 < s.len() && (s[i + 1] == '\\' || s[i + 1] == '\'') {
                    scan(s, i + 2, Mode::Single, WordState { value: st.value.push(s[i + 1]), ..st })
                } else {
                    scan(s, i + 1, Mode::Single, WordState { value: st.value.push(s[i]), ..st })
                }
            },
            Mode::Double => {
                if i >= s.len() {
                    None
                } else if s[i] == '"' {
                    scan(s, i + 1, Mode::Word, st)
                } else if s[i] == '\\' && i + 1 < s.len() && (s[i + 1] == '"' || s[i + 1] == '\\'
                    || s[i + 1] == '$') {
                    scan(s, i + 2, Mode::Double, WordState { value: st.value.push(s[i + 1]), ..st })
                } else {
                    scan(s, i + 1, Mode::Double, WordState { value: st.value.push(s[i]), ..st })
                }
            },
        }
    }
}

/// The scanner state at the start of a word.
pub open spec fn empty_word() -> WordState {
    WordState { value: Seq::empty(), segments: 0, plain: false, last: Quote::Plain }
}

/// The end of the run of operator characters starting at `i`.
pub open spec fn op_end(s: Seq<char>, i: int) -> int
    decreases s.len() - i,
{
    if 0 <= i < s.len() && is_op(s[i]) {
        op_end(s, i + 1)
    } else {
        i
    }
}

/// The operator run from `i` ends within `s`, holds operator characters only, and
/// stops at a non-operator or at the end.
pub proof fn lemma_op_end(s: Seq<char>, i: int)
    requires
        0 <= i <= s.len(),
    ensures
        i <= op_end(s, i) <= s.len(),
        forall|k: int| i <= k < op_end(s, i) ==> is_op(#[trigger] s[k]),
        op_end(s, i) < s.len() ==> !is_op(s[op_end(s, i)]),
    decreases s.len() - i,
{
    if i < s.len() && is_op(s[i]) {
        lemma_op_end(s, i + 1);
    }
}

/// A word scanned from `i` ends within `s`, and is not empty when it starts with a
/// character that begins a word.
pub proof fn lemma_scan_end(s: Seq<char>, i: int, m: Mode, st: WordState)
    requires
        0 <= i <= s.len(),
    ensures
        scan(s, i, m, st) matches Some((j, _)) ==> {
            &&& i <= j <= s.len()
            &&& (i < j || m is Word)
            &&& (m is Word && i < s.len() && !is_space(s[i]) && !is_op(s[i])) ==> i < j
        },
    decreases s.len() - i,
{
    if i < s.len() {
        match m {
            Mode::Word => {
                if is_space(s[i]) || is_op(s[i]) {
                } else if s[i] == '\'' {
                    lemma_scan_end(s, i + 1, Mode::Single, WordState { segments: st.segments + 1, last: Quote::Single, ..st });
                } else if s[i] == '"' {
                    lemma_scan_end(s, i + 1, Mode::Double, WordState { segments: st.segments + 1, last: Quote::Double, ..st });
                } else if s[i] == '\\' {
                    if i + 1 < s.len() {
                        lemma_scan_end(s, i + 2, Mode::Word, WordState { value: st.value.push(s[i + 1]), plain: true, ..st });
                    }
                } else {
                    lemma_scan_end(s, i + 1, Mode::Word, WordState { value: st.value.push(s[i]), plain: true, ..st });
                }
            },
            Mode::Single => {
                if s[i] == '\'' {
                    lemma_scan_end(s, i + 1, Mode::Word, st);
                } else if s[i] == '\\' && i + 1 < s.len() && (s[i + 1] == '\\' || s[i + 1] == '\'') {
                    lemma_scan_end(s, i + 2, Mode::Single, WordState { value: st.value.push(s[i + 1]), ..st });
                } else {
                    lemma_scan_end(s, i + 1, Mode::Single, WordState { value: st.value.push(s[i]), ..st });
                }
            },
            Mode::Double => {
                if s[i] == '"' {
                    lemma_scan_end(s, i + 1, Mode::Word, st);
                } else if s[i] == '\\' && i + 1 < s.len() && (s[i + 1] == '"' || s[i + 1] == '\\'
                    || s[i + 1] == '$') {
                    lemma_scan_end(s, i + 2, Mode::Double, WordState { value: st.value.push(s[i + 1]), ..st });
                } else {
                    lemma_scan_end(s, i + 1, Mode::Double, WordState { value: st.value.push(s[i]), ..st });
                }
            },
        }
    }
}

/// The quote kind of a finished word: the quote of its only segment, when the word
/// is exactly one quoted segment.
pub open spec fn word_quote(st: WordState) -> Quote {
    if st.segments == 1 && !st.plain { st.last } else { Quote::Plain }
}

/// The tokens of `s` from position `i` on; `sb` says whether whitespace came just
/// before `i`.
pub open spec fn lex(s: Seq<char>, i: int, sb: bool) -> Option<Seq<TokenV>>
    decreases s.len() - i,
{
    if i < 0 || i >= s.len() {
        Some(Seq::empty())
    } else if is_space(s[i]) {
        lex(s, i + 1, true)
    } else if is_op(s[i]) {
        let j = op_end(s, i);
        proof { lemma_op_end(s, i); }
        match lex(s, j, false) {
            Some(rest) => Some(seq![TokenV {
                raw: s.subrange(i, j),
                value: s.subrange(i, j),
                quote: Quote::Plain,
                op: true,
                space_before: sb,
            }] + rest),
            None => None,
        }
    } else {
        match scan(s, i, Mode::Word, empty_word()) {
            Some((j, st)) => {
                proof { lemma_scan_end(s, i, Mode::Word, empty_word()); }
                match lex(s, j, false) {
                    Some(rest) => Some(seq![TokenV {
                        raw: s.subrange(i, j),
                        value: st.value,
                        quote: word_quote(st),
                        op: false,
                        space_before: sb,
                    }] + rest),
                    None => None,
                }
            },
            None => None,
        }
    }
}

/// The tokens of a command line: `None` when a quote is left open, a backslash ends
/// the line, or the line holds no token.
pub open spec fn tokens_of(s: Seq<char>) -> Option<Seq<TokenV>> {
    match lex(s, 0, false) {
        Some(t) => if t.len() > 0 { Some(t) } else { None },
        None => None,
    }
}


/// `a` followed by the tokens in `o`, if any.
pub open spec fn then_append(a: Seq<TokenV>, o: Option<Seq<TokenV>>) -> Option<Seq<TokenV>> {
    match o {
        Some(r) => Some(a + r),
        None => None,
    }
}

proof fn lemma_then_append_push(a: Seq<TokenV>, t: TokenV, o: Option<Seq<TokenV>>)
    ensures
        then_append(a, then_append(seq![t], o)) == then_append(a.push(t), o),
{
    if let Some(r) = o {
        assert(a + (seq![t] + r) =~= a.push(t) + r);
    }
}

/// Whether `c` is an operator character.
pub fn char_is_op(c: char) -> (b: bool)
    ensures
        b == is_op(c),
{
    c == '|' || c == ';' || c == '&' || c == '<' || c == '>'
}

proof fn lemma_toks_view_push(v: Seq<Token>, t: Token)
    ensures
        toks_view(v.push(t)) == toks_view(v).push(t@),
{
    assert(toks_view(v.push(t)) =~= toks_view(v).push(t@));
}

/// Splits a command line into shell tokens.
#[verifier::loop_isolation(false)]
pub fn tokenize(s: &str) -> (r: Option<Vec<Token>>)
    ensures
        match r {
            Some(v) => tokens_of(s@) == Some(toks_view(v@)),
            None => tokens_of(s@) is None,
        },
{
    let chars = chars_of(s);
    let n = chars.len();
    let mut i: usize = 0;
    let mut toks: Vec<Token> = Vec::new();
    let mut space_before = false;
    assert(toks_view(toks@) =~= Seq::<TokenV>::empty());
    assert(lex(s@, 0, false) == then_append(toks_view(toks@), lex(s@, 0, false))) by {
        if let Some(r) = lex(s@, 0, false) {
            assert(Seq::<TokenV>::empty() + r =~= r);
        }
    }
    while i < n
        invariant
            n == chars@.len(),
            chars@ == s@,
            i <= n,
            lex(s@, 0, false) == then_append(toks_view(toks@), lex(s@, i as int, space_before)),
        decreases n - i,
    {
        if char_is_space(chars[i]) {
            space_before = true;
            i += 1;
            continue;
        }
        let start = i;
        let ghost prev = toks@;
        if char_is_op(chars[i]) {
            proof {
                lemma_op_end(s@, start as int);
            }
            while i < n && char_is_op(chars[i])
                invariant
                    start < n,
                    start <= i <= n,
                    op_end(s@, start as int) == op_end(s@, i as int),
                decreases n - i,
            {
                i += 1;
            }
            let raw = string_of(&chars, start, i);
            let value = raw.clone();
            let tok = Token { raw, value, quote: Quote::Plain, op: true, space_before };
            proof {
                lemma_then_append_push(toks_view(prev), tok@, lex(s@, i as int, false));
                lemma_toks_view_push(prev, tok);
            }
            toks.push(tok);
            space_before = false;
            continue;
        }
        let mut value = String::new();
        let mut segs: usize = 0;
        let mut plain = false;
        let mut last = Quote::Plain;
        let ghost init = scan(s@, start as int, Mode::Word, empty_word());
        assert(value@ =~= Seq::<char>::empty());
        while i < n && !char_is_space(chars[i]) && !char_is_op(chars[i])
            invariant
                start <= i <= n,
                segs <= i,
                !is_space(s@[start as int]),
                !is_op(s@[start as int]),
                init == scan(s@, i as int, Mode::Word, WordState { value: value@, segments: segs as nat, plain, last }),
            decreases n - i,
        {
            let c = chars[i];
            let ghost i0 = i;
            if c == '\'' {
                segs += 1;
                last = Quote::Single;
                i += 1;
                loop
                    invariant
                        start < i <= n,
                        i0 < i,
                        segs <= i,
                        init == scan(s@, i as int, Mode::Single, WordState { value: value@, segments: segs as nat, plain, last }),
                    decreases n - i,
                {
                    if i >= n {
                        return None;
                    }
                    let d = chars[i];
                    if d == '\'' {
                        i += 1;
                        break;
                    } else if d == '\\' && i + 1 < n && (chars[i + 1] == '\\' || chars[i + 1] == '\'') {
                        push_char(&mut value, chars[i + 1]);
                        i += 2;
                    } else {
                        push_char(&mut value, d);
                        i += 1;
                    }
                }
            } else if c == '"' {
                segs += 1;
                last = Quote::Double;
                i += 1;
                loop
                    invariant
                        start < i <= n,
                        i0 < i,
                        segs <= i,
                        init == scan(s@, i as int, Mode::Double, WordState { value: value@, segments: segs as nat, plain, last }),
                    decreases n - i,
                {
                    if i >= n {
                        return None;
                    }
                    let d = chars[i];
                    if d == '"' {
                        i += 1;
                        break;
                    } else if d == '\\' && i + 1 < n && (chars[i + 1] == '"' || chars[i + 1] == '\\'
                        || chars[i + 1] == '$') {
                        push_char(&mut value, chars[i + 1]);
                        i += 2;
                    } else {
                        push_char(&mut value, d);
                        i += 1;
                    }
                }
            } else if c == '\\' {
                if i + 1 >= n {
                    return None;
                }
                plain = true;
                push_char(&mut value, chars[i + 1]);
                i += 2;
            } else {
                plain = true;
                push_char(&mut value, c);
                i += 1;
            }
        }
        let raw = string_of(&chars, start, i);
        let quote = if segs == 1 && !plain {
            last
        } else {
            Quote::Plain
        };
        let tok = Token { raw, value, quote, op: false, space_before };
        proof {
            lemma_then_append_push(toks_view(prev), tok@, lex(s@, i as int, false));
            lemma_toks_view_push(prev, tok);
        }
        toks.push(tok);
        space_before = false;
    }
    if toks.len() == 0 {
        None
    } else {
        Some(toks)
    }
}

/// The tokens of item `i` of a list of commands with their tokens.
pub open spec fn item_toks(items: Seq<(String, Vec<Token>)>, i: int) -> Seq<TokenV> {
    toks_view(items[i].1@)
}

/// One of the five characters `|`, `;`, `&`, `<`, `>` that shell operators are made of.
pub open spec fn operator_char(c: char) -> bool {
    c == '|' || c == ';' || c == '&' || c == '<' || c == '>'
}

/// Outside quotes, each of `|`, `;`, `&`, `<` and `>` ends the word being read, and
/// lexing from it gives an operator token that starts with it.
pub proof fn lemma_operator_chars_split(s: Seq<char>, i: int, st: WordState, sb: bool)
    requires
        0 <= i < s.len(),
        operator_char(s[i]),
    ensures
        scan(s, i, Mode::Word, st) == Some((i, st)),
        lex(s, i, sb) matches Some(ts) ==> ts.len() > 0 && ts[0].op && ts[0].raw.len() > 0 && ts[0].raw[0] == s[i],
{
    lemma_op_end(s, i);
}

/// Every token read from a line is either an operator whose text is made of
/// `|`, `;`, `&`, `<`, `>` only, or a word whose text starts with none of them nor
/// with whitespace.
pub proof fn lemma_token_kinds(s: Seq<char>, i: int, sb: bool)
    requires
        0 <= i,
    ensures
        lex(s, i, sb) matches Some(ts) ==> forall|k: int| 0 <= k < ts.len() ==> {
            &&& (#[trigger] ts[k]).raw.len() > 0
            &&& ts[k].op ==> forall|m: int| 0 <= m < ts[k].raw.len() ==> operator_char(#[trigger] ts[k].raw[m])
            &&& !ts[k].op ==> !operator_char(ts[k].raw[0]) && !is_space(ts[k].raw[0])
        },
    decreases s.len() - i,
{
    if i < s.len() {
        if is_space(s[i]) {
            lemma_token_kinds(s, i + 1, true);
        } else if is_op(s[i]) {
            let j = op_end(s, i);
            lemma_op_end(s, i);
            lemma_token_kinds(s, j, false);
            if let Some(ts) = lex(s, i, sb) {
                let rest = lex(s, j, false)->0;
                assert forall|k: int| 0 <= k < ts.len() implies {
                    &&& (#[trigger] ts[k]).raw.len() > 0
                    &&& ts[k].op ==> forall|m: int| 0 <= m < ts[k].raw.len() ==> operator_char(#[trigger] ts[k].raw[m])
                    &&& !ts[k].op ==> !operator_char(ts[k].raw[0]) && !is_space(ts[k].raw[0])
                } by {
                    if k > 0 {
                        assert(ts[k] == rest[k - 1]);
                    } else {
                        assert forall|m: int| 0 <= m < ts[0].raw.len() implies operator_char(#[trigger] ts[0].raw[m]) by {
                            assert(ts[0].raw[m] == s[i + m]);
                        }
                    }
                }
            }
        } else {
            lemma_scan_end(s, i, Mode::Word, empty_word());
            if let Some((j, st)) = scan(s, i, Mode::Word, empty_word()) {
                lemma_token_kinds(s, j, false);
                if let Some(ts) = lex(s, i, sb) {
                    let rest = lex(s, j, false)->0;
                    assert forall|k: int| 0 <= k < ts.len() implies {
                        &&& (#[trigger] ts[k]).raw.len() > 0
                        &&& ts[k].op ==> forall|m: int| 0 <= m < ts[k].raw.len() ==> operator_char(#[trigger] ts[k].raw[m])
                        &&& !ts[k].op ==> !operator_char(ts[k].raw[0]) && !is_space(ts[k].raw[0])
                    } by {
                        if k > 0 {
                            assert(ts[k] == rest[k - 1]);
                        } else {
                            assert(ts[0].raw[0] == s[i]);
                        }
                    }
                }
            }
        }
    }
}

} // verus!
