use vstd::prelude::*;
use crate::text::{chars_of, string_of, push_char, push_all, contains, contains_str};
use crate::tokenize::{Token, TokenV, Quote, toks_view, tokens_of, tokenize};
use crate::words::{is_ascii_digit, quoted, quoted_arg};
use crate::suggest::argv_mark_at;

verus! {

/// The value of a string of decimal digits.
pub open spec fn digits_value(d: Seq<char>) -> nat
    decreases d.len(),
{
    if d.len() == 0 {
        0
    } else {
        digits_value(d.drop_last()) * 10 + (d.last() as int - '0' as int) as nat
    }
}

/// The text after an optional leading `+`.
pub open spec fn unsigned_part(s: Seq<char>) -> Seq<char> {
    if s.len() > 0 && s[0] == '+' { s.drop_first() } else { s }
}

/// Every character is an ASCII digit.
pub open spec fn all_digits(d: Seq<char>) -> bool {
    forall|k: int| 0 <= k < d.len() ==> is_ascii_digit(#[trigger] d[k])
}

/// A `usize` read from text as `str::parse` reads it: an optional `+` and at
/// least one decimal digit, nothing else, within range.
pub open spec fn parsed_usize(s: Seq<char>) -> Option<usize> {
    let d = unsigned_part(s);
    if d.len() == 0 || !all_digits(d) {
        None
    } else if digits_value(d) > usize::MAX {
        None
    } else {
        Some(digits_value(d) as usize)
    }
}

proof fn lemma_digits_grow(d: Seq<char>, k: int)
    requires
        0 <= k < d.len(),
        forall|i: int| 0 <= i < d.len() ==> is_ascii_digit(#[trigger] d[i]),
    ensures
        digits_value(d.take(k)) <= digits_value(d.take(k + 1)),
        digits_value(d.take(k)) <= digits_value(d),
    decreases d.len() - k,
{
    assert(d.take(k + 1).drop_last() =~= d.take(k));
    if k + 1 < d.len() {
        lemma_digits_grow(d, k + 1);
    } else {
        assert(d.take(k + 1) =~= d);
    }
}

/// Reads a `usize` from text.
#[verifier::loop_isolation(false)]
pub fn parse_usize(s: &str) -> (r: Option<usize>)
    ensures
        r == parsed_usize(s@),
{
    let v = chars_of(s);
    let start: usize = if v.len() > 0 && v[0] == '+' { 1 } else { 0 };
    let ghost d = unsigned_part(v@);
    assert(d =~= v@.subrange(start as int, v.len() as int));
    if start == v.len() {
        return None;
    }
    let mut k: usize = start;
    while k < v.len()
        invariant
            start <= k <= v.len(),
            d == v@.subrange(start as int, v.len() as int),
            forall|i: int| start <= i < k ==> is_ascii_digit(#[trigger] v@[i]),
        decreases v.len() - k,
    {
        if !('0' <= v[k] && v[k] <= '9') {
            assert(d[k - start] == v@[k as int]);
            assert(!is_ascii_digit(d[k - start]));
            assert(!all_digits(d));
            assert(unsigned_part(s@) == d);
            return None;
        }
        k += 1;
    }
    assert forall|i: int| 0 <= i < d.len() implies is_ascii_digit(#[trigger] d[i]) by {
        assert(d[i] == v@[i + start]);
    }
    let mut val: usize = 0;
    let mut k: usize = start;
    while k < v.len()
        invariant
            start <= k <= v.len(),
            d == v@.subrange(start as int, v.len() as int),
            forall|i: int| 0 <= i < d.len() ==> is_ascii_digit(#[trigger] d[i]),
            val == digits_value(d.take(k - start)),
        decreases v.len() - k,
    {
        assert(d.take(k - start + 1).drop_last() =~= d.take(k - start));
        assert(d[k - start] == v@[k as int]);
        let dig = (v[k] as u32 - '0' as u32) as usize;
        proof {
            lemma_digits_grow(d, k - start);
        }
        if val > (usize::MAX - dig) / 10 {
            assert(digits_value(d.take(k - start + 1)) > usize::MAX) by (nonlinear_arith)
                requires
                    digits_value(d.take(k - start + 1)) == val * 10 + dig,
                    val > (usize::MAX - dig) / 10,
                    dig <= 9,
            ;
            proof {
                if k - start + 1 < d.len() {
                    lemma_digits_grow(d, k - start + 1);
                } else {
                    assert(d.take(k - start + 1) =~= d);
                }
            }
            return None;
        }
        val = val * 10 + dig;
        k += 1;
    }
    assert(d.take(v.len() - start) =~= d);
    Some(val)
}

/// The slot number in a `$argv[N]` word.
pub open spec fn argv_number(value: Seq<char>) -> Option<usize> {
    if value.len() >= 7 && argv_mark_at(value, 0) && value.last() == ']' {
        parsed_usize(value.subrange(6, value.len() - 1))
    } else {
        None
    }
}

/// The slot number in a `$argv[N]` word.
pub fn argv_index(value: &str) -> (r: Option<usize>)
    ensures
        r == argv_number(value@),
{
    let v = chars_of(value);
    let n = v.len();
    if n >= 7 && v[0] == '$' && v[1] == 'a' && v[2] == 'r' && v[3] == 'g' && v[4] == 'v' && v[5] == '['
        && v[n - 1] == ']' {
        let d = string_of(&v, 6, n - 1);
        parse_usize(d.as_str())
    } else {
        None
    }
}

/// One position inside a double-quoted word of a template.
pub enum InnerMatch {
    Const(String),
    Param(usize),
}

/// One token of a template read back from its body.
pub enum MatchPiece {
    Const(String),
    Param(usize),
    Inner(Vec<InnerMatch>),
}

/// A position inside a double-quoted template word, as a mathematical value.
pub enum InnerMatchV {
    Const(Seq<char>),
    Param(usize),
}

/// A template token, as a mathematical value.
pub enum MatchPieceV {
    Const(Seq<char>),
    Param(usize),
    Inner(Seq<InnerMatchV>),
}

impl View for InnerMatch {
    type V = InnerMatchV;

    open spec fn view(&self) -> InnerMatchV {
        match self {
            InnerMatch::Const(raw) => InnerMatchV::Const(raw@),
            InnerMatch::Param(n) => InnerMatchV::Param(*n),
        }
    }
}

/// Inner template positions as mathematical values.
pub open spec fn inner_matches_view(v: Seq<InnerMatch>) -> Seq<InnerMatchV> {
    v.map_values(|p: InnerMatch| p@)
}

impl View for MatchPiece {
    type V = MatchPieceV;

    open spec fn view(&self) -> MatchPieceV {
        match self {
            MatchPiece::Const(raw) => MatchPieceV::Const(raw@),
            MatchPiece::Param(n) => MatchPieceV::Param(*n),
            MatchPiece::Inner(im) => MatchPieceV::Inner(inner_matches_view(im@)),
        }
    }
}

/// Template tokens as mathematical values.
pub open spec fn match_pieces_view(v: Seq<MatchPiece>) -> Seq<MatchPieceV> {
    v.map_values(|p: MatchPiece| p@)
}

/// An inner token of a template: a slot when its text is `$argv[N]`, else constant.
pub open spec fn inner_match_of(t: TokenV) -> InnerMatchV {
    match argv_number(t.value) {
        Some(n) => InnerMatchV::Param(n),
        None => InnerMatchV::Const(t.raw),
    }
}

/// A token of a template: a slot when it is a word `$argv[N]`; a double-quoted
/// word holding `$argv[` is read inside (`None` if its text does not tokenize);
/// anything else is constant.
pub open spec fn match_piece_of(t: TokenV) -> Option<MatchPieceV> {
    if !t.op && argv_number(t.value) is Some {
        Some(MatchPieceV::Param(argv_number(t.value)->0))
    } else if t.quote == Quote::Double && contains(t.value, "$argv["@) {
        match tokens_of(t.value) {
            Some(it) => Some(MatchPieceV::Inner(Seq::new(it.len(), |k: int| inner_match_of(it[k])))),
            None => None,
        }
    } else {
        Some(MatchPieceV::Const(t.raw))
    }
}

/// The template a fish body stands for.
pub open spec fn template_pieces(body: Seq<char>) -> Option<Seq<MatchPieceV>> {
    match tokens_of(body) {
        None => None,
        Some(ts) => if exists|k: int| 0 <= k < ts.len() && (#[trigger] match_piece_of(ts[k])) is None {
            None
        } else {
            Some(Seq::new(ts.len(), |k: int| match_piece_of(ts[k])->0))
        },
    }
}

proof fn lemma_match_pieces_push(v: Seq<MatchPiece>, p: MatchPiece)
    ensures
        match_pieces_view(v.push(p)) == match_pieces_view(v).push(p@),
{
    assert(match_pieces_view(v.push(p)) =~= match_pieces_view(v).push(p@));
}

proof fn lemma_inner_matches_push(v: Seq<InnerMatch>, p: InnerMatch)
    ensures
        inner_matches_view(v.push(p)) == inner_matches_view(v).push(p@),
{
    assert(inner_matches_view(v.push(p)) =~= inner_matches_view(v).push(p@));
}

/// Reads a template back from a fish body.
#[verifier::loop_isolation(false)]
pub fn parse_template(body: &str) -> (r: Option<Vec<MatchPiece>>)
    ensures
        match r {
            Some(ps) => template_pieces(body@) == Some(match_pieces_view(ps@)),
            None => template_pieces(body@) is None,
        },
{
    let toks = match tokenize(body) {
        Some(t) => t,
        None => return None,
    };
    let ghost ts = toks_view(toks@);
    let mut pieces: Vec<MatchPiece> = Vec::new();
    let mut k: usize = 0;
    while k < toks.len()
        invariant
            k <= toks.len(),
            ts == toks_view(toks@),
            tokens_of(body@) == Some(ts),
            match_pieces_view(pieces@) == Seq::new(k as nat, |i: int| match_piece_of(ts[i])->0),
            forall|i: int| 0 <= i < k ==> (#[trigger] match_piece_of(ts[i])) is Some,
        decreases toks.len() - k,
    {
        let t = &toks[k];
        assert(ts[k as int] == t@);
        let ghost p0 = pieces@;
        let idx = argv_index(t.value.as_str());
        if !t.op && idx.is_some() {
            let p = MatchPiece::Param(idx.unwrap());
            proof {
                lemma_match_pieces_push(pieces@, p);
            }
            pieces.push(p);
        } else if t.quote == Quote::Double && contains_str(t.value.as_str(), "$argv[") {
            let inner_toks = match tokenize(t.value.as_str()) {
                Some(it) => it,
                None => {
                    assert(match_piece_of(ts[k as int]) is None);
                    return None;
                },
            };
            let ghost it = toks_view(inner_toks@);
            let mut inner: Vec<InnerMatch> = Vec::new();
            let mut j: usize = 0;
            while j < inner_toks.len()
                invariant
                    j <= inner_toks.len(),
                    it == toks_view(inner_toks@),
                    inner_matches_view(inner@) == Seq::new(j as nat, |i: int| inner_match_of(it[i])),
                decreases inner_toks.len() - j,
            {
                let itk = &inner_toks[j];
                assert(it[j as int] == itk@);
                let q = match argv_index(itk.value.as_str()) {
                    Some(n) => InnerMatch::Param(n),
                    None => InnerMatch::Const(itk.raw.clone()),
                };
                proof {
                    lemma_inner_matches_push(inner@, q);
                }
                inner.push(q);
                assert(Seq::new((j + 1) as nat, |i: int| inner_match_of(it[i])) =~= Seq::new(j as nat, |i: int| inner_match_of(it[i])).push(inner_match_of(it[j as int])));
                j += 1;
            }
            let p = MatchPiece::Inner(inner);
            proof {
                lemma_match_pieces_push(pieces@, p);
            }
            pieces.push(p);
        } else {
            let p = MatchPiece::Const(t.raw.clone());
            proof {
                lemma_match_pieces_push(pieces@, p);
            }
            pieces.push(p);
        }
        assert(Seq::new((k + 1) as nat, |i: int| match_piece_of(ts[i])->0) =~= Seq::new(k as nat, |i: int| match_piece_of(ts[i])->0).push(match_piece_of(ts[k as int])->0));
        k += 1;
    }
    Some(pieces)
}

/// Captured slot values as a mathematical value.
pub open spec fn caps_view(v: Seq<(usize, String)>) -> Seq<(usize, Seq<char>)> {
    v.map_values(|e: (usize, String)| (e.0, e.1@))
}

/// The first position whose slot number is at least `n`.
pub open spec fn cap_scan(caps: Seq<(usize, Seq<char>)>, n: usize) -> int
    decreases caps.len(),
{
    if caps.len() == 0 {
        0
    } else if cap_scan(caps.drop_last(), n) < caps.len() - 1 {
        cap_scan(caps.drop_last(), n)
    } else if caps.last().0 >= n {
        caps.len() - 1
    } else {
        caps.len() as int
    }
}

/// Records value `v` for slot `n`: fails when the slot already holds another value,
/// keeps the captures ordered by slot number.
pub open spec fn captured(caps: Seq<(usize, Seq<char>)>, n: usize, v: Seq<char>) -> Option<Seq<(usize, Seq<char>)>> {
    let p = cap_scan(caps, n);
    if p < caps.len() && caps[p].0 == n {
        if caps[p].1 == v { Some(caps) } else { None }
    } else {
        Some(caps.insert(p, (n, v)))
    }
}

proof fn lemma_cap_scan(caps: Seq<(usize, Seq<char>)>, n: usize, p: int)
    requires
        0 <= p <= caps.len(),
        forall|q: int| 0 <= q < p ==> (#[trigger] caps[q]).0 < n,
        p < caps.len() ==> caps[p].0 >= n,
    ensures
        cap_scan(caps, n) == p,
    decreases caps.len(),
{
    if caps.len() > 0 {
        if p < caps.len() - 1 {
            lemma_cap_scan(caps.drop_last(), n, p);
        } else {
            lemma_cap_scan(caps.drop_last(), n, caps.len() - 1);
        }
    }
}

/// Records value `value` for slot `n`; false when the slot already holds another.
pub fn capture(caps: &mut Vec<(usize, String)>, n: usize, value: &String) -> (ok: bool)
    ensures
        match captured(caps_view(old(caps)@), n, value@) {
            Some(c) => ok && caps_view(final(caps)@) == c,
            None => !ok && final(caps)@ == old(caps)@,
        },
{
    let ghost cv = caps_view(caps@);
    let mut p: usize = 0;
    while p < caps.len() && caps[p].0 < n
        invariant
            p <= caps.len(),
            cv == caps_view(caps@),
            forall|q: int| 0 <= q < p ==> (#[trigger] cv[q]).0 < n,
        decreases caps.len() - p,
    {
        p += 1;
    }
    proof {
        lemma_cap_scan(cv, n, p as int);
    }
    if p < caps.len() && caps[p].0 == n {
        assert(cv[p as int].1 == caps@[p as int].1@);
        return caps[p].1 == *value;
    }
    caps.insert(p, (n, value.clone()));
    assert(caps_view(caps@) =~= cv.insert(p as int, (n, value@)));
    true
}

/// Matches the inner positions `0..j` against inner tokens.
pub open spec fn inner_upto(im: Seq<InnerMatchV>, it: Seq<TokenV>, caps: Seq<(usize, Seq<char>)>, j: int) -> Option<Seq<(usize, Seq<char>)>>
    decreases j,
{
    if j <= 0 {
        Some(caps)
    } else {
        match inner_upto(im, it, caps, j - 1) {
            None => None,
            Some(c) => match im[j - 1] {
                InnerMatchV::Const(raw) => if it[j - 1].raw == raw { Some(c) } else { None },
                InnerMatchV::Param(n) => captured(c, n, it[j - 1].value),
            },
        }
    }
}

/// Matches one template token against one command token.
pub open spec fn match_one(p: MatchPieceV, tok: TokenV, caps: Seq<(usize, Seq<char>)>) -> Option<Seq<(usize, Seq<char>)>> {
    match p {
        MatchPieceV::Const(raw) => if tok.raw == raw { Some(caps) } else { None },
        MatchPieceV::Param(n) => captured(caps, n, tok.value),
        MatchPieceV::Inner(im) => if tok.quote != Quote::Double {
            None
        } else {
            match tokens_of(tok.value) {
                None => None,
                Some(it) => if it.len() != im.len() {
                    None
                } else {
                    inner_upto(im, it, caps, im.len() as int)
                },
            }
        },
    }
}

/// Matches the first `k` template tokens against the command's tokens.
pub open spec fn match_upto(ps: Seq<MatchPieceV>, input: Seq<TokenV>, k: int) -> Option<Seq<(usize, Seq<char>)>>
    decreases k,
{
    if k <= 0 {
        Some(Seq::empty())
    } else {
        match match_upto(ps, input, k - 1) {
            None => None,
            Some(c) => match_one(ps[k - 1], input[k - 1], c),
        }
    }
}

/// The slot values a command gives a template, ordered by slot number; `None`
/// when it is not an instance of the template.
pub open spec fn match_result(ps: Seq<MatchPieceV>, input: Seq<TokenV>) -> Option<Seq<(usize, Seq<char>)>> {
    if ps.len() != input.len() {
        None
    } else {
        match_upto(ps, input, ps.len() as int)
    }
}

proof fn lemma_inner_upto_none(im: Seq<InnerMatchV>, it: Seq<TokenV>, caps: Seq<(usize, Seq<char>)>, j: int, k: int)
    requires
        j <= k,
        inner_upto(im, it, caps, j) is None,
    ensures
        inner_upto(im, it, caps, k) is None,
    decreases k - j,
{
    if j < k {
        lemma_inner_upto_none(im, it, caps, j, k - 1);
    }
}

proof fn lemma_match_upto_none(ps: Seq<MatchPieceV>, input: Seq<TokenV>, j: int, k: int)
    requires
        j <= k,
        match_upto(ps, input, j) is None,
    ensures
        match_upto(ps, input, k) is None,
    decreases k - j,
{
    if j < k {
        lemma_match_upto_none(ps, input, j, k - 1);
    }
}

/// Matches a command's tokens against a template; gives the slot values, ordered
/// by slot number, or `None` when the command is not an instance of it.
#[verifier::loop_isolation(false)]
pub fn try_match(pieces: &Vec<MatchPiece>, input: &Vec<Token>) -> (r: Option<Vec<(usize, String)>>)
    ensures
        match r {
            Some(c) => match_result(match_pieces_view(pieces@), toks_view(input@)) == Some(caps_view(c@)),
            None => match_result(match_pieces_view(pieces@), toks_view(input@)) is None,
        },
{
    if pieces.len() != input.len() {
        return None;
    }
    let ghost ps = match_pieces_view(pieces@);
    let ghost iv = toks_view(input@);
    let mut caps: Vec<(usize, String)> = Vec::new();
    assert(caps_view(caps@) =~= Seq::<(usize, Seq<char>)>::empty());
    let mut k: usize = 0;
    while k < pieces.len()
        invariant
            k <= pieces.len(),
            pieces.len() == input.len(),
            ps == match_pieces_view(pieces@),
            iv == toks_view(input@),
            match_upto(ps, iv, k as int) == Some(caps_view(caps@)),
        decreases pieces.len() - k,
    {
        assert(ps[k as int] == pieces@[k as int]@);
        assert(iv[k as int] == input@[k as int]@);
        let tok = &input[k];
        match &pieces[k] {
            MatchPiece::Const(raw) => {
                if tok.raw != *raw {
                    proof {
                        lemma_match_upto_none(ps, iv, k + 1, pieces.len() as int);
                    }
                    return None;
                }
            },
            MatchPiece::Param(n) => {
                if !capture(&mut caps, *n, &tok.value) {
                    proof {
                        lemma_match_upto_none(ps, iv, k + 1, pieces.len() as int);
                    }
                    return None;
                }
            },
            MatchPiece::Inner(inner) => {
                if tok.quote != Quote::Double {
                    proof {
                        lemma_match_upto_none(ps, iv, k + 1, pieces.len() as int);
                    }
                    return None;
                }
                let inner_toks = match tokenize(tok.value.as_str()) {
                    Some(it) => it,
                    None => {
                        proof {
                            lemma_match_upto_none(ps, iv, k + 1, pieces.len() as int);
                        }
                        return None;
                    },
                };
                if inner_toks.len() != inner.len() {
                    proof {
                        lemma_match_upto_none(ps, iv, k + 1, pieces.len() as int);
                    }
                    return None;
                }
                let ghost im = inner_matches_view(inner@);
                let ghost it = toks_view(inner_toks@);
                let ghost c0 = caps_view(caps@);
                let mut j: usize = 0;
                while j < inner.len()
                    invariant
                        j <= inner.len(),
                        inner_toks.len() == inner.len(),
                        im == inner_matches_view(inner@),
                        it == toks_view(inner_toks@),
                        inner_upto(im, it, c0, j as int) == Some(caps_view(caps@)),
                    decreases inner.len() - j,
                {
                    assert(im[j as int] == inner@[j as int]@);
                    assert(it[j as int] == inner_toks@[j as int]@);
                    let itk = &inner_toks[j];
                    match &inner[j] {
                        InnerMatch::Const(raw) => {
                            if itk.raw != *raw {
                                proof {
                                    lemma_inner_upto_none(im, it, c0, j + 1, inner.len() as int);
                                    lemma_match_upto_none(ps, iv, k + 1, pieces.len() as int);
                                }
                                return None;
                            }
                        },
                        InnerMatch::Param(n) => {
                            if !capture(&mut caps, *n, &itk.value) {
                                proof {
                                    lemma_inner_upto_none(im, it, c0, j + 1, inner.len() as int);
                                    lemma_match_upto_none(ps, iv, k + 1, pieces.len() as int);
                                }
                                return None;
                            }
                        },
                    }
                    j += 1;
                }
            },
        }
        k += 1;
    }
    Some(caps)
}

/// The number of constant positions inside a double-quoted template word.
pub open spec fn inner_consts(im: Seq<InnerMatchV>) -> nat
    decreases im.len(),
{
    if im.len() == 0 {
        0
    } else {
        inner_consts(im.drop_last()) + if im.last() is Const { 1nat } else { 0nat }
    }
}

/// The number of constant positions of a template: its constant tokens and the
/// constant positions inside its double-quoted words.
pub open spec fn const_total(ps: Seq<MatchPieceV>) -> nat
    decreases ps.len(),
{
    if ps.len() == 0 {
        0
    } else {
        const_total(ps.drop_last()) + match ps.last() {
            MatchPieceV::Const(_) => 1nat,
            MatchPieceV::Param(_) => 0nat,
            MatchPieceV::Inner(im) => inner_consts(im),
        }
    }
}

/// A count held in a `usize`: the count itself, or `usize::MAX` past it.
pub open spec fn capped(x: nat) -> nat {
    if x < usize::MAX { x } else { usize::MAX as nat }
}

/// How specific a template is: the number of its constant positions (held in a
/// `usize`, so at most `usize::MAX`).
pub fn const_count(pieces: &Vec<MatchPiece>) -> (n: usize)
    ensures
        n == capped(const_total(match_pieces_view(pieces@))),
{
    let ghost ps = match_pieces_view(pieces@);
    let mut n: usize = 0;
    let mut k: usize = 0;
    while k < pieces.len()
        invariant
            k <= pieces.len(),
            ps == match_pieces_view(pieces@),
            n == capped(const_total(ps.take(k as int))),
        decreases pieces.len() - k,
    {
        assert(ps.take(k + 1).drop_last() =~= ps.take(k as int));
        assert(ps.take(k + 1).last() == pieces@[k as int]@);
        let ghost before = const_total(ps.take(k as int));
        match &pieces[k] {
            MatchPiece::Const(_) => {
                if n < usize::MAX {
                    n += 1;
                }
            },
            MatchPiece::Param(_) => {},
            MatchPiece::Inner(inner) => {
                let ghost im = inner_matches_view(inner@);
                let mut j: usize = 0;
                while j < inner.len()
                    invariant
                        j <= inner.len(),
                        im == inner_matches_view(inner@),
                        n == capped(before + inner_consts(im.take(j as int))),
                    decreases inner.len() - j,
                {
                    assert(im.take(j + 1).drop_last() =~= im.take(j as int));
                    assert(im.take(j + 1).last() == inner@[j as int]@);
                    if let InnerMatch::Const(_) = &inner[j] {
                        if n < usize::MAX {
                            n += 1;
                        }
                    }
                    j += 1;
                }
                assert(im.take(inner.len() as int) =~= im);
            },
        }
        k += 1;
    }
    assert(ps.take(pieces.len() as int) =~= ps);
    n
}

/// The captured values written as shell arguments, separated by spaces.
pub open spec fn joined_args(caps: Seq<(usize, Seq<char>)>) -> Seq<char>
    decreases caps.len(),
{
    if caps.len() == 0 {
        Seq::empty()
    } else if caps.len() == 1 {
        quoted(caps[0].1)
    } else {
        joined_args(caps.drop_last()).push(' ') + quoted(caps.last().1)
    }
}

fn join_args(caps: &Vec<(usize, String)>) -> (r: String)
    ensures
        r@ == joined_args(caps_view(caps@)),
{
    let ghost cv = caps_view(caps@);
    let mut out = String::new();
    let mut k: usize = 0;
    while k < caps.len()
        invariant
            k <= caps.len(),
            cv == caps_view(caps@),
            out@ == joined_args(cv.take(k as int)),
        decreases caps.len() - k,
    {
        assert(cv.take(k + 1).drop_last() =~= cv.take(k as int));
        assert(cv.take(k + 1).last().1 == caps@[k as int].1@);
        if k > 0 {
            push_char(&mut out, ' ');
        } else {
            assert(out@ =~= Seq::<char>::empty());
        }
        let q = quoted_arg(caps[k].1.as_str());
        push_all(&mut out, q.as_str());
        if k == 0 {
            assert(out@ =~= joined_args(cv.take(1)));
        }
        k += 1;
    }
    assert(cv.take(caps.len() as int) =~= cv);
    out
}

/// What a manifest entry offers a command: how specific it is (its number of
/// constant positions, see `const_count`), its name and the arguments to pass, when the command is an instance of it and starts with
/// its first token.
pub open spec fn candidate(name: Seq<char>, body: Seq<char>, input: Seq<TokenV>) -> Option<(nat, Seq<char>, Seq<char>)> {
    match template_pieces(body) {
        None => None,
        Some(ps) => if ps.len() == 0 {
            None
        } else if !(ps[0] matches MatchPieceV::Const(h) && h == input[0].raw) {
            None
        } else {
            match match_result(ps, input) {
                None => None,
                Some(c) => Some((capped(const_total(ps)), name, joined_args(c))),
            }
        },
    }
}

/// The best of the first `k` manifest entries: the most constant positions, the
/// earliest on a tie.
pub open spec fn best_upto(manifest: Seq<(Seq<char>, Seq<char>)>, input: Seq<TokenV>, k: int) -> Option<(nat, Seq<char>, Seq<char>)>
    decreases k,
{
    if k <= 0 {
        None
    } else {
        let b = best_upto(manifest, input, k - 1);
        match candidate(manifest[k - 1].0, manifest[k - 1].1, input) {
            None => b,
            Some(x) => match b {
                None => Some(x),
                Some(y) => if x.0 > y.0 { Some(x) } else { Some(y) },
            },
        }
    }
}

/// The function a command is best rendered as, with its arguments.
pub open spec fn best_for(cmd: Seq<char>, manifest: Seq<(Seq<char>, Seq<char>)>) -> Option<(Seq<char>, Seq<char>)> {
    match tokens_of(cmd) {
        None => None,
        Some(input) => match best_upto(manifest, input, manifest.len() as int) {
            None => None,
            Some(b) => Some((b.1, b.2)),
        },
    }
}

/// Manifest entries as mathematical values.
pub open spec fn entries_view(m: Seq<(String, String)>) -> Seq<(Seq<char>, Seq<char>)> {
    m.map_values(|e: (String, String)| (e.0@, e.1@))
}

/// The manifest function a command is the most specific instance of, and the
/// arguments it takes: `(name, args)`.
#[verifier::loop_isolation(false)]
pub fn best_match(cmd: &str, manifest: &[(String, String)]) -> (r: Option<(String, String)>)
    ensures
        match r {
            Some((n, a)) => best_for(cmd@, entries_view(manifest@)) == Some((n@, a@)),
            None => best_for(cmd@, entries_view(manifest@)) is None,
        },
{
    let input = match tokenize(cmd) {
        Some(t) => t,
        None => return None,
    };
    let ghost iv = toks_view(input@);
    let ghost mv = entries_view(manifest@);
    let mut best: Option<(usize, String, String)> = None;
    let mut k: usize = 0;
    while k < manifest.len()
        invariant
            k <= manifest.len(),
            iv == toks_view(input@),
            mv == entries_view(manifest@),
            input.len() > 0,
            match best {
                None => best_upto(mv, iv, k as int) is None,
                Some(b) => best_upto(mv, iv, k as int) == Some((b.0 as nat, b.1@, b.2@)),
            },
        decreases manifest.len() - k,
    {
        assert(mv[k as int] == (manifest@[k as int].0@, manifest@[k as int].1@));
        let name = &manifest[k].0;
        let body = &manifest[k].1;
        let pieces = parse_template(body.as_str());
        match pieces {
            Some(ps) => {
                if ps.len() > 0 {
                    let head_ok = match &ps[0] {
                        MatchPiece::Const(h) => *h == input[0].raw,
                        _ => false,
                    };
                    assert(match_pieces_view(ps@)[0] == ps@[0]@);
                    assert(iv[0] == input@[0]@);
                    if head_ok {
                        match try_match(&ps, &input) {
                            Some(caps) => {
                                let args = join_args(&caps);
                                let score = const_count(&ps);
                                let better = match &best {
                                    None => true,
                                    Some(b) => score > b.0,
                                };
                                if better {
                                    best = Some((score, name.clone(), args));
                                }
                            },
                            None => {},
                        }
                    }
                }
            },
            None => {},
        }
        k += 1;
    }
    match best {
        Some(b) => Some((b.1, b.2)),
        None => None,
    }
}

/// Captures listed with strictly increasing slot numbers.
pub open spec fn slots_increasing(caps: Seq<(usize, Seq<char>)>) -> bool {
    forall|i: int, j: int| 0 <= i < j < caps.len() ==> (#[trigger] caps[i]).0 < (#[trigger] caps[j]).0
}

proof fn lemma_cap_scan_sorted(caps: Seq<(usize, Seq<char>)>, n: usize)
    requires
        slots_increasing(caps),
    ensures
        0 <= cap_scan(caps, n) <= caps.len(),
        forall|q: int| 0 <= q < cap_scan(caps, n) ==> (#[trigger] caps[q]).0 < n,
        forall|q: int| cap_scan(caps, n) <= q < caps.len() ==> (#[trigger] caps[q]).0 >= n,
    decreases caps.len(),
{
    if caps.len() > 0 {
        let d = caps.drop_last();
        assert(slots_increasing(d)) by {
            assert forall|i: int, j: int| 0 <= i < j < d.len() implies (#[trigger] d[i]).0 < (#[trigger] d[j]).0 by {
                assert(d[i] == caps[i] && d[j] == caps[j]);
            }
        }
        lemma_cap_scan_sorted(d, n);
        let p = cap_scan(d, n);
        assert forall|k: int| 0 <= k < d.len() implies (#[trigger] caps[k]) == d[k] by {}
        if p < caps.len() - 1 {
            assert(caps[p].0 < caps[caps.len() - 1].0);
        }
    }
}

proof fn lemma_captured_sorted(caps: Seq<(usize, Seq<char>)>, n: usize, v: Seq<char>)
    requires
        slots_increasing(caps),
    ensures
        captured(caps, n, v) matches Some(c) ==> slots_increasing(c),
{
    lemma_cap_scan_sorted(caps, n);
    let p = cap_scan(caps, n);
    if !(p < caps.len() && caps[p].0 == n) {
        let r = caps.insert(p, (n, v));
        assert forall|i: int, j: int| 0 <= i < j < r.len() implies (#[trigger] r[i]).0 < (#[trigger] r[j]).0 by {
            if j < p {
                assert(r[i] == caps[i] && r[j] == caps[j]);
            } else if j == p {
                assert(r[i] == caps[i]);
            } else if i < p {
                assert(r[i] == caps[i] && r[j] == caps[j - 1]);
            } else if i == p {
                assert(r[j] == caps[j - 1]);
                assert(caps[p].0 >= n);
                if j - 1 > p {
                    assert(caps[p].0 < caps[j - 1].0);
                }
            } else {
                assert(r[i] == caps[i - 1] && r[j] == caps[j - 1]);
            }
        }
    }
}

proof fn lemma_inner_upto_sorted(im: Seq<InnerMatchV>, it: Seq<TokenV>, caps: Seq<(usize, Seq<char>)>, j: int)
    requires
        slots_increasing(caps),
    ensures
        inner_upto(im, it, caps, j) matches Some(c) ==> slots_increasing(c),
    decreases j,
{
    if j > 0 {
        lemma_inner_upto_sorted(im, it, caps, j - 1);
        if let Some(c) = inner_upto(im, it, caps, j - 1) {
            if let InnerMatchV::Param(n) = im[j - 1] {
                lemma_captured_sorted(c, n, it[j - 1].value);
            }
        }
    }
}

proof fn lemma_match_upto_sorted(ps: Seq<MatchPieceV>, input: Seq<TokenV>, k: int)
    ensures
        match_upto(ps, input, k) matches Some(c) ==> slots_increasing(c),
    decreases k,
{
    if k > 0 {
        lemma_match_upto_sorted(ps, input, k - 1);
        if let Some(c) = match_upto(ps, input, k - 1) {
            match ps[k - 1] {
                MatchPieceV::Const(_) => {},
                MatchPieceV::Param(n) => {
                    lemma_captured_sorted(c, n, input[k - 1].value);
                },
                MatchPieceV::Inner(im) => {
                    if let Some(it) = tokens_of(input[k - 1].value) {
                        lemma_inner_upto_sorted(im, it, c, im.len() as int);
                    }
                },
            }
        }
    }
}

/// The values a command gives a template come ordered by slot, each slot once, so
/// that they read as the function's arguments in order.
pub proof fn lemma_match_slots_ordered(ps: Seq<MatchPieceV>, input: Seq<TokenV>)
    ensures
        match_result(ps, input) matches Some(c) ==> slots_increasing(c),
{
    lemma_match_upto_sorted(ps, input, ps.len() as int);
}

/// The position `cap_scan` gives lies within the captures.
pub proof fn lemma_cap_scan_range(caps: Seq<(usize, Seq<char>)>, n: usize)
    ensures
        0 <= cap_scan(caps, n) <= caps.len(),
    decreases caps.len(),
{
    if caps.len() > 0 {
        lemma_cap_scan_range(caps.drop_last(), n);
    }
}

proof fn lemma_inner_upto_agrees(im: Seq<InnerMatchV>, it: Seq<TokenV>, caps: Seq<(usize, Seq<char>)>, j: int)
    requires
        0 <= j <= im.len(),
        j <= it.len(),
    ensures
        inner_upto(im, it, caps, j) matches Some(c) ==> {
            &&& forall|e: (usize, Seq<char>)| caps.contains(e) ==> #[trigger] c.contains(e)
            &&& forall|k: int| 0 <= k < j ==> inner_agrees(#[trigger] im[k], it[k], c)
        },
    decreases j,
{
    if j > 0 {
        lemma_inner_upto_agrees(im, it, caps, j - 1);
        if let Some(c0) = inner_upto(im, it, caps, j - 1) {
            if let InnerMatchV::Param(n) = im[j - 1] {
                lemma_captured_keeps(c0, n, it[j - 1].value);
                if let Some(c) = captured(c0, n, it[j - 1].value) {
                    assert forall|k: int| 0 <= k < j implies inner_agrees(#[trigger] im[k], it[k], c) by {
                        if k < j - 1 {
                            if let InnerMatchV::Param(m) = im[k] {
                                assert(c0.contains((m, it[k].value)));
                            }
                        }
                    }
                }
            }
        }
    }
}

proof fn lemma_match_upto_agrees(ps: Seq<MatchPieceV>, input: Seq<TokenV>, k: int)
    requires
        0 <= k <= ps.len(),
        k <= input.len(),
    ensures
        match_upto(ps, input, k) matches Some(c) ==> forall|q: int| 0 <= q < k ==> piece_agrees(#[trigger] ps[q], input[q], c),
    decreases k,
{
    if k > 0 {
        lemma_match_upto_agrees(ps, input, k - 1);
        if let Some(c0) = match_upto(ps, input, k - 1) {
            if let Some(c) = match_one(ps[k - 1], input[k - 1], c0) {
                let grows = forall|e: (usize, Seq<char>)| c0.contains(e) ==> #[trigger] c.contains(e);
                match ps[k - 1] {
                    MatchPieceV::Const(_) => {},
                    MatchPieceV::Param(n) => {
                        lemma_captured_keeps(c0, n, input[k - 1].value);
                    },
                    MatchPieceV::Inner(im) => {
                        let it = tokens_of(input[k - 1].value)->0;
                        lemma_inner_upto_agrees(im, it, c0, im.len() as int);
                    },
                }
                assert(grows);
                assert forall|q: int| 0 <= q < k implies piece_agrees(#[trigger] ps[q], input[q], c) by {
                    if q < k - 1 {
                        lemma_piece_agrees_grow(ps[q], input[q], c0, c);
                    }
                }
            }
        }
    }
}

proof fn lemma_piece_agrees_grow(p: MatchPieceV, t: TokenV, c0: Seq<(usize, Seq<char>)>, c: Seq<(usize, Seq<char>)>)
    requires
        piece_agrees(p, t, c0),
        forall|e: (usize, Seq<char>)| c0.contains(e) ==> #[trigger] c.contains(e),
    ensures
        piece_agrees(p, t, c),
{
    match p {
        MatchPieceV::Const(_) => {},
        MatchPieceV::Param(n) => {
            assert(c0.contains((n, t.value)));
        },
        MatchPieceV::Inner(im) => {
            let it = tokens_of(t.value)->0;
            assert forall|k: int| 0 <= k < im.len() implies inner_agrees(#[trigger] im[k], it[k], c) by {
                assert(inner_agrees(im[k], it[k], c0));
                if let InnerMatchV::Param(n) = im[k] {
                    assert(c0.contains((n, it[k].value)));
                }
            }
        },
    }
}

/// An inner template position agrees with an inner token under captures `c`: a
/// constant has the same raw text, a slot's value is the one captured for it.
pub open spec fn inner_agrees(ip: InnerMatchV, t: TokenV, c: Seq<(usize, Seq<char>)>) -> bool {
    match ip {
        InnerMatchV::Const(raw) => t.raw == raw,
        InnerMatchV::Param(n) => c.contains((n, t.value)),
    }
}

/// A template token agrees with a command token under captures `c`.
pub open spec fn piece_agrees(p: MatchPieceV, t: TokenV, c: Seq<(usize, Seq<char>)>) -> bool {
    match p {
        MatchPieceV::Const(raw) => t.raw == raw,
        MatchPieceV::Param(n) => c.contains((n, t.value)),
        MatchPieceV::Inner(im) => {
            &&& t.quote == Quote::Double
            &&& tokens_of(t.value) is Some
            &&& tokens_of(t.value)->0.len() == im.len()
            &&& forall|k: int| 0 <= k < im.len() ==> inner_agrees(#[trigger] im[k], tokens_of(t.value)->0[k], c)
        },
    }
}

/// A command matches a template only token by token: as many tokens, each constant
/// equal, each slot given one value wherever it occurs (the captured value, the only
/// one for that slot).
pub proof fn lemma_match_agrees(ps: Seq<MatchPieceV>, input: Seq<TokenV>)
    ensures
        match_result(ps, input) matches Some(c) ==> {
            &&& ps.len() == input.len()
            &&& slots_increasing(c)
            &&& forall|q: int| 0 <= q < ps.len() ==> piece_agrees(#[trigger] ps[q], input[q], c)
        },
{
    lemma_match_slots_ordered(ps, input);
    if ps.len() == input.len() {
        lemma_match_upto_agrees(ps, input, ps.len() as int);
    }
}

proof fn lemma_captured_keeps(caps: Seq<(usize, Seq<char>)>, n: usize, v: Seq<char>)
    ensures
        captured(caps, n, v) matches Some(c) ==> {
            &&& c.contains((n, v))
            &&& forall|e: (usize, Seq<char>)| caps.contains(e) ==> #[trigger] c.contains(e)
        },
{
    lemma_cap_scan_range(caps, n);
    let p = cap_scan(caps, n);
    if p < caps.len() && caps[p].0 == n {
        if caps[p].1 == v {
            assert(caps[p] == (n, v));
        }
    } else {
        let r = caps.insert(p, (n, v));
        assert(r[p] == (n, v));
        assert forall|e: (usize, Seq<char>)| caps.contains(e) implies #[trigger] r.contains(e) by {
            let k = choose|k: int| 0 <= k < caps.len() && caps[k] == e;
            if k < p {
                assert(r[k] == e);
            } else {
                assert(r[k + 1] == e);
            }
        }
    }
}

} // verus!
