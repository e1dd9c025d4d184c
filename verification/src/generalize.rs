use vstd::prelude::*;
use crate::tokenize::{Token, Quote, TokenV, toks_view, tokens_of, tokenize};
use crate::text::{chars_of, has_char, push_all, push_char, push_decimal, decimal};
use crate::names::{strs_view, count_of, name_base, make_name, byte_len, byte_len_of};
use crate::mine::{Mined, mined_of, capped};
use crate::words::{quoted, quoted_arg, lower_ident};
use crate::tokenize::item_toks;
use crate::template::{len_count, best_len, members_of, member_toks, column, same_raw, any_op, values, plain_double_quoted, inner_toks, inner_bad, inner_piece, inner_words, inner_template, InnerV, PieceV, slot, intern_index, interned, render_inner, render, col_piece, template_of, MAX_PARAMS, invocation_len, saved_sum, try_line};

verus! {

/// Item index `i` has a command of `l` tokens.
pub open spec fn has_len(items: Seq<(String, Vec<Token>)>, l: nat) -> spec_fn(usize) -> bool {
    |i: usize| item_toks(items, i as int).len() == l
}

proof fn lemma_filter_step(s: Seq<usize>, p: spec_fn(usize) -> bool, j: int)
    requires
        0 <= j < s.len(),
    ensures
        s.take(j + 1).filter(p) == if p(s[j]) { s.take(j).filter(p).push(s[j]) } else { s.take(j).filter(p) },
{
    reveal_with_fuel(Seq::<_>::filter, 1);
    assert(s.take(j + 1).drop_last() =~= s.take(j));
}

/// The number of members whose commands have `l` tokens.
fn count_with_len(items: &[(String, Vec<Token>)], cl: &Vec<usize>, l: usize) -> (c: usize)
    requires
        forall|k: int| 0 <= k < cl.len() ==> cl@[k] < items.len(),
    ensures
        c == len_count(items@, cl@, l as nat),
{
    let mut c: usize = 0;
    let mut j: usize = 0;
    while j < cl.len()
        invariant
            j <= cl.len(),
            forall|k: int| 0 <= k < cl.len() ==> cl@[k] < items.len(),
            c == cl@.take(j as int).filter(has_len(items@, l as nat)).len(),
            c <= j,
        decreases cl.len() - j,
    {
        proof {
            lemma_filter_step(cl@, has_len(items@, l as nat), j as int);
        }
        if items[cl[j]].1.len() == l {
            c += 1;
        }
        j += 1;
    }
    assert(cl@.take(cl.len() as int) =~= cl@);
    assert(has_len(items@, l as nat) == (|i: usize| item_toks(items@, i as int).len() == l as nat));
    c
}

proof fn lemma_best_len_unique(items: Seq<(String, Vec<Token>)>, cl: Seq<usize>, l1: nat, l2: nat)
    requires
        best_len(items, cl, l1),
        best_len(items, cl, l2),
    ensures
        l1 == l2,
{
    let k1 = choose|k: int| 0 <= k < cl.len() && item_toks(items, cl[k] as int).len() == l1;
    let k2 = choose|k: int| 0 <= k < cl.len() && item_toks(items, cl[k] as int).len() == l2;
    assert(item_toks(items, cl[k1] as int).len() == l1);
    assert(item_toks(items, cl[k2] as int).len() == l2);
}

/// The members of a cluster with the most common token count (the smallest such
/// count on a tie), in cluster order.
pub fn pick_members(items: &[(String, Vec<Token>)], cl: &Vec<usize>) -> (members: Vec<usize>)
    requires
        cl.len() > 0,
        forall|k: int| 0 <= k < cl.len() ==> cl@[k] < items.len(),
    ensures
        members@ == members_of(items@, cl@),
        members.len() > 0,
        forall|k: int| 0 <= k < members.len() ==> members@[k] < items.len(),
        forall|k: int| 0 <= k < members.len() ==> #[trigger] items@[members@[k] as int].1.len() == items@[members@[0] as int].1.len(),
{
    let mut best_l = items[cl[0]].1.len();
    let mut best_c = count_with_len(items, cl, best_l);
    let mut j: usize = 1;
    while j < cl.len()
        invariant
            1 <= j <= cl.len(),
            forall|k: int| 0 <= k < cl.len() ==> cl@[k] < items.len(),
            best_c == len_count(items@, cl@, best_l as nat),
            exists|k: int| 0 <= k < cl.len() && item_toks(items@, cl@[k] as int).len() == best_l,
            forall|k: int|
                0 <= k < j ==> {
                    let l2 = #[trigger] item_toks(items@, cl@[k] as int).len();
                    len_count(items@, cl@, l2) < best_c || (len_count(items@, cl@, l2) == best_c && best_l <= l2)
                },
        decreases cl.len() - j,
    {
        let l = items[cl[j]].1.len();
        let c = count_with_len(items, cl, l);
        if c > best_c || (c == best_c && l < best_l) {
            best_l = l;
            best_c = c;
        }
        j += 1;
    }
    assert(best_len(items@, cl@, best_l as nat));
    proof {
        let chosen = choose|l: nat| best_len(items@, cl@, l);
        lemma_best_len_unique(items@, cl@, chosen, best_l as nat);
    }
    let mut members: Vec<usize> = Vec::new();
    let mut k: usize = 0;
    while k < cl.len()
        invariant
            k <= cl.len(),
            forall|k: int| 0 <= k < cl.len() ==> cl@[k] < items.len(),
            members@ == cl@.take(k as int).filter(has_len(items@, best_l as nat)),
            forall|i: int| 0 <= i < members.len() ==> members@[i] < items.len(),
            forall|i: int| 0 <= i < members.len() ==> #[trigger] items@[members@[i] as int].1.len() == best_l,
        decreases cl.len() - k,
    {
        proof {
            lemma_filter_step(cl@, has_len(items@, best_l as nat), k as int);
        }
        if items[cl[k]].1.len() == best_l {
            members.push(cl[k]);
        }
        k += 1;
    }
    assert(cl@.take(cl.len() as int) =~= cl@);
    assert(has_len(items@, best_l as nat) == (|i: usize| item_toks(items@, i as int).len() == best_l as nat));
    proof {
        let k0 = choose|k: int| 0 <= k < cl.len() && item_toks(items@, cl@[k] as int).len() == best_l;
        cl@.lemma_filter_contains(has_len(items@, best_l as nat), k0);
        assert(members@.contains(cl@[k0]));
    }
    members
}

/// One position of an inner template.
pub enum InnerPiece {
    Const(String, bool),
    Param(Vec<String>, Quote, bool),
}

impl View for InnerPiece {
    type V = InnerV;

    open spec fn view(&self) -> InnerV {
        match self {
            InnerPiece::Const(raw, sp) => InnerV::Const(raw@, *sp),
            InnerPiece::Param(vals, q, sp) => InnerV::Param(strs_view(vals@), *q, *sp),
        }
    }
}

/// One column of a template.
pub enum Piece {
    Const(String),
    Param(Vec<String>),
    Inner(Vec<InnerPiece>),
}

/// Inner template positions as mathematical values.
pub open spec fn inners_view(v: Seq<InnerPiece>) -> Seq<InnerV> {
    v.map_values(|p: InnerPiece| p@)
}

impl View for Piece {
    type V = PieceV;

    open spec fn view(&self) -> PieceV {
        match self {
            Piece::Const(raw) => PieceV::Const(raw@),
            Piece::Param(vals) => PieceV::Param(strs_view(vals@)),
            Piece::Inner(ips) => PieceV::Inner(inners_view(ips@)),
        }
    }
}

/// Template pieces as mathematical values.
pub open spec fn pieces_view(v: Seq<Piece>) -> Seq<PieceV> {
    v.map_values(|p: Piece| p@)
}

/// The views of several token lists.
pub open spec fn tview(toks: Seq<Vec<Token>>) -> Seq<Seq<TokenV>> {
    toks.map_values(|t: Vec<Token>| toks_view(t@))
}

/// Whether `raw` is `value` between two double quotes.
fn is_wrapped(raw: &String, value: &String) -> (b: bool)
    ensures
        b == (raw@ == seq!['"'] + value@ + seq!['"']),
{
    let rv = chars_of(raw.as_str());
    let vv = chars_of(value.as_str());
    if rv.len() < 2 || rv.len() - 2 != vv.len() || rv[0] != '"' || rv[rv.len() - 1] != '"' {
        if rv.len() >= 2 && rv.len() - 2 == vv.len() {
            let ghost w = seq!['"'] + value@ + seq!['"'];
            assert(rv@[0] != w[0] || rv@[rv.len() - 1] != w[w.len() - 1]);
        }
        return false;
    }
    let mut k: usize = 0;
    while k < vv.len()
        invariant
            rv@ == raw@,
            vv@ == value@,
            rv.len() == vv.len() + 2,
            k <= vv.len(),
            forall|i: int| 0 <= i < k ==> rv@[i + 1] == vv@[i],
        decreases vv.len() - k,
    {
        if rv[k + 1] != vv[k] {
            let ghost w = seq!['"'] + value@ + seq!['"'];
            assert(rv@[k + 1] != w[k + 1]);
            return false;
        }
        k += 1;
    }
    assert(rv@ =~= seq!['"'] + vv@ + seq!['"']);
    true
}

/// The tokens at a column are all equal in raw text.
fn column_same_raw(toks: &Vec<Vec<Token>>, j: usize) -> (b: bool)
    requires
        toks.len() > 0,
        forall|k: int| 0 <= k < toks.len() ==> j < (#[trigger] toks@[k]).len(),
    ensures
        b == same_raw(column(tview(toks@), j as int)),
{
    let ghost tv = tview(toks@);
    let ghost c = column(tv, j as int);
    let mut k: usize = 1;
    while k < toks.len()
        invariant
            toks.len() > 0,
            forall|k: int| 0 <= k < toks.len() ==> j < (#[trigger] toks@[k]).len(),
            1 <= k <= toks.len(),
            forall|i: int| 0 <= i < k ==> #[trigger] c[i].raw == c[0].raw,
            tv == tview(toks@),
            c == column(tv, j as int),
        decreases toks.len() - k,
    {
        assert(c[k as int] == toks@[k as int]@[j as int]@);
        assert(c[0] == toks@[0]@[j as int]@);
        if toks[k][j].raw != toks[0][j].raw {
            assert(c[k as int].raw != c[0].raw);
            return false;
        }
        k += 1;
    }
    true
}

/// Some token at a column is an operator.
fn column_any_op(toks: &Vec<Vec<Token>>, j: usize) -> (b: bool)
    requires
        forall|k: int| 0 <= k < toks.len() ==> j < (#[trigger] toks@[k]).len(),
    ensures
        b == any_op(column(tview(toks@), j as int)),
{
    let ghost tv = tview(toks@);
    let ghost c = column(tv, j as int);
    let mut k: usize = 0;
    while k < toks.len()
        invariant
            forall|k: int| 0 <= k < toks.len() ==> j < (#[trigger] toks@[k]).len(),
            k <= toks.len(),
            forall|i: int| 0 <= i < k ==> !(#[trigger] c[i]).op,
            tv == tview(toks@),
            c == column(tv, j as int),
        decreases toks.len() - k,
    {
        assert(c[k as int] == toks@[k as int]@[j as int]@);
        if toks[k][j].op {
            assert(c[k as int].op);
            return true;
        }
        k += 1;
    }
    false
}

/// The values at a column.
fn column_values(toks: &Vec<Vec<Token>>, j: usize) -> (v: Vec<String>)
    requires
        forall|k: int| 0 <= k < toks.len() ==> j < (#[trigger] toks@[k]).len(),
    ensures
        strs_view(v@) == values(column(tview(toks@), j as int)),
{
    let ghost tv = tview(toks@);
    let ghost c = column(tv, j as int);
    let mut v: Vec<String> = Vec::new();
    let mut k: usize = 0;
    while k < toks.len()
        invariant
            forall|k: int| 0 <= k < toks.len() ==> j < (#[trigger] toks@[k]).len(),
            k <= toks.len(),
            v.len() == k,
            forall|i: int| 0 <= i < k ==> #[trigger] v@[i]@ == c[i].value,
            tv == tview(toks@),
            c == column(tv, j as int),
        decreases toks.len() - k,
    {
        assert(c[k as int] == toks@[k as int]@[j as int]@);
        v.push(toks[k][j].value.clone());
        k += 1;
    }
    assert(strs_view(v@) =~= values(c));
    v
}

/// Every token at a column is single-quoted.
fn column_all_single(toks: &Vec<Vec<Token>>, j: usize) -> (b: bool)
    requires
        forall|k: int| 0 <= k < toks.len() ==> j < (#[trigger] toks@[k]).len(),
    ensures
        b == forall|k: int| 0 <= k < toks.len() ==> #[trigger] column(tview(toks@), j as int)[k].quote == Quote::Single,
{
    let ghost tv = tview(toks@);
    let ghost c = column(tv, j as int);
    let mut k: usize = 0;
    while k < toks.len()
        invariant
            forall|k: int| 0 <= k < toks.len() ==> j < (#[trigger] toks@[k]).len(),
            k <= toks.len(),
            forall|i: int| 0 <= i < k ==> (#[trigger] c[i]).quote == Quote::Single,
            tv == tview(toks@),
            c == column(tv, j as int),
        decreases toks.len() - k,
    {
        assert(c[k as int] == toks@[k as int]@[j as int]@);
        if toks[k][j].quote != Quote::Single {
            return false;
        }
        k += 1;
    }
    true
}

/// A copy of a token.
pub fn copy_token(t: &Token) -> (r: Token)
    ensures
        r@ == t@,
{
    Token {
        raw: t.raw.clone(),
        value: t.value.clone(),
        quote: t.quote,
        op: t.op,
        space_before: t.space_before,
    }
}

proof fn lemma_new_push<A>(j: int, f: spec_fn(int) -> A)
    requires
        0 <= j,
    ensures
        Seq::new((j + 1) as nat, f) == Seq::new(j as nat, f).push(f(j)),
{
    assert(Seq::new((j + 1) as nat, f) =~= Seq::new(j as nat, f).push(f(j)));
}

proof fn lemma_strs_push(v: Seq<String>, s: String)
    ensures
        strs_view(v.push(s)) == strs_view(v).push(s@),
{
    assert(strs_view(v.push(s)) =~= strs_view(v).push(s@));
}

proof fn lemma_inners_push(v: Seq<InnerPiece>, p: InnerPiece)
    ensures
        inners_view(v.push(p)) == inners_view(v).push(p@),
{
    assert(inners_view(v.push(p)) =~= inners_view(v).push(p@));
}

/// Appends the strings of `w` to `v`.
fn extend_strings(v: &mut Vec<String>, w: Vec<String>)
    ensures
        strs_view(final(v)@) == strs_view(old(v)@) + strs_view(w@),
{
    let ghost v0 = v@;
    let mut k: usize = 0;
    while k < w.len()
        invariant
            k <= w.len(),
            strs_view(v@) == strs_view(v0) + strs_view(w@).take(k as int),
        decreases w.len() - k,
    {
        proof {
            lemma_strs_push(v@, w@[k as int]);
            assert(strs_view(w@).take(k + 1) =~= strs_view(w@).take(k as int).push(w@[k as int]@));
        }
        v.push(w[k].clone());
        k += 1;
    }
    assert(strs_view(w@).take(w.len() as int) =~= strs_view(w@));
}

/// Generalizes inside a column of double-quoted tokens; on success adds the constant
/// words found inside to `const_words`.
#[verifier::loop_isolation(false)]
pub fn try_inner(toks: &Vec<Vec<Token>>, col: usize, const_words: &mut Vec<String>) -> (r: Option<Vec<InnerPiece>>)
    requires
        toks.len() > 0,
        forall|k: int| 0 <= k < toks.len() ==> col < (#[trigger] toks@[k]).len(),
    ensures
        match inner_template(column(tview(toks@), col as int)) {
            Some((ips, w)) => r matches Some(ps) && inners_view(ps@) == ips && strs_view(final(const_words)@)
                == strs_view(old(const_words)@) + w,
            None => r is None && final(const_words)@ == old(const_words)@,
        },
{
    let ghost ct = column(tview(toks@), col as int);
    let mut k: usize = 0;
    while k < toks.len()
        invariant
            k <= toks.len(),
            forall|k: int| 0 <= k < toks.len() ==> col < (#[trigger] toks@[k]).len(),
            ct == column(tview(toks@), col as int),
            forall|i: int| 0 <= i < k ==> plain_double_quoted(#[trigger] ct[i]),
        decreases toks.len() - k,
    {
        let tok = &toks[k][col];
        assert(ct[k as int] == tok@);
        if tok.quote != Quote::Double || !is_wrapped(&tok.raw, &tok.value) {
            assert(!plain_double_quoted(ct[k as int]));
            return None;
        }
        k += 1;
    }
    let mut inners: Vec<Vec<Token>> = Vec::new();
    let mut k: usize = 0;
    while k < toks.len()
        invariant
            k <= toks.len(),
            forall|k: int| 0 <= k < toks.len() ==> col < (#[trigger] toks@[k]).len(),
            ct == column(tview(toks@), col as int),
            forall|i: int| 0 <= i < toks.len() ==> plain_double_quoted(#[trigger] ct[i]),
            inners.len() == k,
            forall|i: int| 0 <= i < k ==> #[trigger] tokens_of(ct[i].value) == Some(toks_view(inners@[i]@)),
        decreases toks.len() - k,
    {
        let tok = &toks[k][col];
        assert(ct[k as int] == tok@);
        match tokenize(tok.value.as_str()) {
            Some(v) => {
                inners.push(v);
            },
            None => {
                assert(tokens_of(ct[k as int].value) is None);
                return None;
            },
        }
        k += 1;
    }
    let ghost iv = inner_toks(ct);
    assert(tview(inners@) =~= iv);
    assert(iv.len() == inners.len());
    let l = inners[0].len();
    assert(iv[0].len() == l);
    if l < 2 {
        return None;
    }
    let mut k: usize = 0;
    while k < inners.len()
        invariant
            k <= inners.len(),
            tview(inners@) == iv,
            l == inners@[0].len(),
            forall|i: int| 0 <= i < k ==> (#[trigger] inners@[i]).len() == l,
        decreases inners.len() - k,
    {
        if inners[k].len() != l {
            assert(iv[k as int].len() != l);
            return None;
        }
        k += 1;
    }
    assert forall|i: int| 0 <= i < iv.len() implies (#[trigger] iv[i]).len() == l by {
        assert(iv[i] == toks_view(inners@[i]@));
    }
    let mut pieces: Vec<InnerPiece> = Vec::new();
    let mut new_words: Vec<String> = Vec::new();
    let mut any_const = false;
    let mut j: usize = 0;
    while j < l
        invariant
            j <= l,
            inners.len() > 0,
            tview(inners@) == iv,
            forall|i: int| 0 <= i < inners.len() ==> (#[trigger] inners@[i]).len() == l,
            inners_view(pieces@) == Seq::new(j as nat, |jj: int| inner_piece(iv, jj)),
            strs_view(new_words@) == Seq::new(j as nat, |jj: int| inner_words(iv, jj)).flatten(),
            any_const == exists|jj: int| 0 <= jj < j && #[trigger] same_raw(column(iv, jj)),
            forall|jj: int| 0 <= jj < j ==> !#[trigger] inner_bad(iv, jj),
        decreases l - j,
    {
        let ghost c = column(iv, j as int);
        assert(c[0] == inners@[0]@[j as int]@);
        proof {
            lemma_new_push(j as int, |jj: int| inner_piece(iv, jj));
            lemma_new_push(j as int, |jj: int| inner_words(iv, jj));
            Seq::new(j as nat, |jj: int| inner_words(iv, jj)).lemma_flatten_push(inner_words(iv, j as int));
        }
        if column_same_raw(&inners, j) {
            let first = &inners[0][j];
            let rv = chars_of(first.raw.as_str());
            if has_char(&rv, '"') || has_char(&rv, '\\') {
                assert(inner_bad(iv, j as int));
                return None;
            }
            any_const = true;
            if !first.op {
                let w = first.value.clone();
                proof {
                    lemma_strs_push(new_words@, w);
                }
                new_words.push(w);
            } else {
                assert(inner_words(iv, j as int) =~= Seq::<Seq<char>>::empty());
            }
            let p = InnerPiece::Const(first.raw.clone(), first.space_before);
            proof {
                lemma_inners_push(pieces@, p);
            }
            pieces.push(p);
        } else {
            if column_any_op(&inners, j) {
                assert(inner_bad(iv, j as int));
                return None;
            }
            let vals = column_values(&inners, j);
            let q = if column_all_single(&inners, j) {
                Quote::Single
            } else {
                Quote::Plain
            };
            let p = InnerPiece::Param(vals, q, inners[0][j].space_before);
            proof {
                lemma_inners_push(pieces@, p);
            }
            pieces.push(p);
            assert(inner_words(iv, j as int) =~= Seq::<Seq<char>>::empty());
        }
        j += 1;
    }
    if !any_const {
        return None;
    }
    extend_strings(const_words, new_words);
    Some(pieces)
}

/// The slot list as a mathematical value.
pub open spec fn argv_view(argv: Seq<Vec<String>>) -> Seq<Seq<Seq<char>>> {
    argv.map_values(|v: Vec<String>| strs_view(v@))
}

/// A copy of a list of strings.
pub fn copy_strings(v: &Vec<String>) -> (r: Vec<String>)
    ensures
        r@ == v@,
{
    let mut r: Vec<String> = Vec::new();
    let mut k: usize = 0;
    while k < v.len()
        invariant
            k <= v.len(),
            r@ == v@.take(k as int),
        decreases v.len() - k,
    {
        r.push(v[k].clone());
        assert(v@.take(k + 1) =~= v@.take(k as int).push(v@[k as int]));
        k += 1;
    }
    assert(v@.take(v.len() as int) =~= v@);
    r
}

/// Whether two string lists are equal.
fn same_strings(a: &Vec<String>, b: &Vec<String>) -> (r: bool)
    ensures
        r == (strs_view(a@) == strs_view(b@)),
{
    if a.len() != b.len() {
        return false;
    }
    let mut k: usize = 0;
    while k < a.len()
        invariant
            a.len() == b.len(),
            k <= a.len(),
            forall|i: int| 0 <= i < k ==> a@[i]@ == b@[i]@,
        decreases a.len() - k,
    {
        if a[k] != b[k] {
            assert(strs_view(a@)[k as int] != strs_view(b@)[k as int]);
            return false;
        }
        k += 1;
    }
    assert(strs_view(a@) =~= strs_view(b@));
    true
}

proof fn lemma_intern_found(argv: Seq<Seq<Seq<char>>>, v: Seq<Seq<char>>, i: int)
    requires
        0 <= i < argv.len(),
        argv[i] == v,
        forall|k: int| 0 <= k < i ==> argv[k] != v,
    ensures
        intern_index(argv, v) == i,
        argv.contains(v),
    decreases argv.len(),
{
    if i < argv.len() - 1 {
        assert(argv.drop_last()[i] == v);
        lemma_intern_found(argv.drop_last(), v, i);
    } else {
        assert(!argv.drop_last().contains(v)) by {
            if argv.drop_last().contains(v) {
                let k = choose|k: int| 0 <= k < argv.drop_last().len() && argv.drop_last()[k] == v;
                assert(argv[k] == v);
            }
        }
    }
}

proof fn lemma_intern_absent(argv: Seq<Seq<Seq<char>>>, v: Seq<Seq<char>>)
    requires
        forall|k: int| 0 <= k < argv.len() ==> argv[k] != v,
    ensures
        intern_index(argv, v) == argv.len(),
        !argv.contains(v),
{
    if argv.len() > 0 {
        assert(!argv.drop_last().contains(v)) by {
            if argv.drop_last().contains(v) {
                let k = choose|k: int| 0 <= k < argv.drop_last().len() && argv.drop_last()[k] == v;
                assert(argv[k] == v);
            }
        }
    }
}

/// Gives the slot index for a list of values, adding a slot for values not seen
/// before, so that positions with the same values share one slot.
pub fn intern(argv: &mut Vec<Vec<String>>, values: &Vec<String>) -> (idx: usize)
    ensures
        idx == intern_index(argv_view(old(argv)@), strs_view(values@)),
        argv_view(final(argv)@) == interned(argv_view(old(argv)@), strs_view(values@)),
        idx < final(argv).len(),
        final(argv).len() <= old(argv).len() + 1,
        forall|k: int| 0 <= k < old(argv).len() ==> final(argv)@[k] == old(argv)@[k],
        final(argv).len() > old(argv).len() ==> final(argv)@[old(argv).len() as int]@ == values@,
{
    let ghost av = argv_view(argv@);
    let mut i: usize = 0;
    while i < argv.len()
        invariant
            i <= argv.len(),
            av == argv_view(argv@),
            forall|k: int| 0 <= k < i ==> av[k] != strs_view(values@),
        decreases argv.len() - i,
    {
        if same_strings(&argv[i], values) {
            proof {
                lemma_intern_found(av, strs_view(values@), i as int);
            }
            return i;
        }
        i += 1;
    }
    proof {
        lemma_intern_absent(av, strs_view(values@));
    }
    let idx = argv.len();
    argv.push(copy_strings(values));
    assert(argv_view(argv@) =~= av.push(strs_view(values@)));
    idx
}

/// Appends the placeholder for slot `idx`.
fn push_slot(body: &mut String, idx: usize)
    requires
        idx < usize::MAX,
    ensures
        final(body)@ == old(body)@ + slot(idx as nat),
{
    push_all(body, "$argv[");
    push_decimal(body, idx + 1);
    push_all(body, "]");
    assert(old(body)@ + "$argv["@ + decimal((idx + 1) as nat) + "]"@ =~= old(body)@ + slot(idx as nat));
}

/// The leading-space flags of a command's tokens.
fn space_flags(t: &Vec<Token>) -> (v: Vec<bool>)
    ensures
        v@ == Seq::new(t.len() as nat, |c: int| t@[c]@.space_before),
{
    let mut v: Vec<bool> = Vec::new();
    let mut c: usize = 0;
    while c < t.len()
        invariant
            c <= t.len(),
            v@ == Seq::new(c as nat, |i: int| t@[i]@.space_before),
        decreases t.len() - c,
    {
        v.push(t[c].space_before);
        c += 1;
        assert(v@ =~= Seq::new(c as nat, |i: int| t@[i]@.space_before));
    }
    v
}

/// Every slot of an inner piece holds `n` values.
pub open spec fn inner_width(p: InnerPiece, n: nat) -> bool {
    match p {
        InnerPiece::Param(vals, _, _) => vals.len() == n,
        _ => true,
    }
}

/// Every slot list in `argv` holds `n` values.
pub open spec fn argv_width(argv: Seq<Vec<String>>, n: nat) -> bool {
    forall|k: int| 0 <= k < argv.len() ==> (#[trigger] argv[k]).len() == n
}

/// Renders the positions of an inner template into `body`, interning its slots.
fn render_inner_into(ips: &Vec<InnerPiece>, body: &mut String, argv: &mut Vec<Vec<String>>, Ghost(n): Ghost<nat>)
    requires
        forall|j: int| 0 <= j < ips.len() ==> inner_width(#[trigger] ips@[j], n),
        argv_width(old(argv)@, n),
    ensures
        (final(body)@, argv_view(final(argv)@)) == render_inner(inners_view(ips@), ips.len() as int, old(body)@, argv_view(old(argv)@)),
        argv_width(final(argv)@, n),
{
    let ghost b0 = body@;
    let ghost a0 = argv@;
    let ghost iv = inners_view(ips@);
    let mut j: usize = 0;
    while j < ips.len()
        invariant
            j <= ips.len(),
            iv == inners_view(ips@),
            (body@, argv_view(argv@)) == render_inner(iv, j as int, b0, argv_view(a0)),
            forall|j: int| 0 <= j < ips.len() ==> inner_width(#[trigger] ips@[j], n),
            argv_width(argv@, n),
        decreases ips.len() - j,
    {
        assert(iv[j as int] == ips@[j as int]@);
        assert(inner_width(ips@[j as int], n));
        match &ips[j] {
            InnerPiece::Const(raw, sp) => {
                if j > 0 && *sp {
                    push_char(body, ' ');
                }
                push_all(body, raw.as_str());
            },
            InnerPiece::Param(vals, q, sp) => {
                if j > 0 && *sp {
                    push_char(body, ' ');
                }
                let ghost a1 = argv@;
                let idx = intern(argv, vals);
                assert(argv_width(argv@, n)) by {
                    assert forall|k: int| 0 <= k < argv.len() implies (#[trigger] argv@[k]).len() == n by {
                        if k < a1.len() {
                            assert(argv@[k] == a1[k]);
                        }
                    }
                }
                if *q == Quote::Single {
                    push_char(body, '\'');
                    let ghost bq = body@;
                    push_slot(body, idx);
                    push_char(body, '\'');
                    assert(body@ =~= bq.drop_last() + (seq!['\''] + slot(idx as nat) + seq!['\'']));
                } else {
                    push_slot(body, idx);
                }
            },
        }
        j += 1;
    }
}

/// Every slot of a piece holds `n` values.
pub open spec fn piece_width(p: Piece, n: nat) -> bool {
    match p {
        Piece::Param(vals) => vals.len() == n,
        Piece::Inner(ips) => forall|j: int| 0 <= j < ips.len() ==> inner_width(#[trigger] ips@[j], n),
        Piece::Const(_) => true,
    }
}

/// Renders the pieces of a template into a body, interning the slots.
fn render_pieces(pieces: &Vec<Piece>, spaces: &Vec<bool>, Ghost(n): Ghost<nat>) -> (r: (String, Vec<Vec<String>>))
    requires
        spaces.len() == pieces.len(),
        forall|k: int| 0 <= k < pieces.len() ==> piece_width(#[trigger] pieces@[k], n),
    ensures
        (r.0@, argv_view(r.1@)) == render(pieces_view(pieces@), spaces@, pieces.len() as int),
        argv_width(r.1@, n),
{
    let ghost pv = pieces_view(pieces@);
    let mut body = String::new();
    let mut argv: Vec<Vec<String>> = Vec::new();
    assert(body@ =~= Seq::<char>::empty());
    assert(argv_view(argv@) =~= Seq::<Seq<Seq<char>>>::empty());
    let mut k: usize = 0;
    while k < pieces.len()
        invariant
            k <= pieces.len(),
            spaces.len() == pieces.len(),
            pv == pieces_view(pieces@),
            forall|k: int| 0 <= k < pieces.len() ==> piece_width(#[trigger] pieces@[k], n),
            (body@, argv_view(argv@)) == render(pv, spaces@, k as int),
            argv_width(argv@, n),
        decreases pieces.len() - k,
    {
        assert(pv[k as int] == pieces@[k as int]@);
        assert(piece_width(pieces@[k as int], n));
        if k > 0 && spaces[k] {
            push_char(&mut body, ' ');
        }
        match &pieces[k] {
            Piece::Const(raw) => {
                push_all(&mut body, raw.as_str());
            },
            Piece::Param(vals) => {
                let ghost a1 = argv@;
                let idx = intern(&mut argv, vals);
                assert(argv_width(argv@, n)) by {
                    assert forall|i: int| 0 <= i < argv.len() implies (#[trigger] argv@[i]).len() == n by {
                        if i < a1.len() {
                            assert(argv@[i] == a1[i]);
                        }
                    }
                }
                push_slot(&mut body, idx);
            },
            Piece::Inner(ips) => {
                push_char(&mut body, '"');
                render_inner_into(ips, &mut body, &mut argv, Ghost(n));
                push_char(&mut body, '"');
            },
        }
        k += 1;
    }
    (body, argv)
}

proof fn lemma_inner_template_width(ct: Seq<TokenV>)
    ensures
        inner_template(ct) matches Some((ips, w)) ==> forall|j: int| 0 <= j < ips.len() ==>
            ((#[trigger] ips[j]) matches InnerV::Param(vals, _, _) ==> vals.len() == ct.len()),
{
    if let Some((ips, w)) = inner_template(ct) {
        let inners = inner_toks(ct);
        assert forall|j: int| 0 <= j < ips.len() implies
            ((#[trigger] ips[j]) matches InnerV::Param(vals, _, _) ==> vals.len() == ct.len()) by {
            assert(ips[j] == inner_piece(inners, j));
        }
    }
}

/// A copy of a token list.
pub fn copy_tokens(v: &Vec<Token>) -> (r: Vec<Token>)
    ensures
        toks_view(r@) == toks_view(v@),
        r.len() == v.len(),
{
    let mut r: Vec<Token> = Vec::new();
    let mut k: usize = 0;
    while k < v.len()
        invariant
            k <= v.len(),
            toks_view(r@) == toks_view(v@).take(k as int),
            r.len() == k,
        decreases v.len() - k,
    {
        let t = copy_token(&v[k]);
        let ghost r0 = r@;
        r.push(t);
        assert(toks_view(r@) =~= toks_view(v@).take(k + 1)) by {
            assert(toks_view(r@) =~= toks_view(r0).push(t@));
        }
        k += 1;
    }
    assert(toks_view(v@).take(v.len() as int) =~= toks_view(v@));
    r
}

/// Bytes typed to call `name` with the values member `mi` holds in the slots.
fn invocation_bytes(name: &String, argv: &Vec<Vec<String>>, mi: usize) -> (r: u128)
    requires
        argv.len() <= MAX_PARAMS,
        forall|p: int| 0 <= p < argv.len() ==> mi < (#[trigger] argv@[p]).len(),
    ensures
        r == invocation_len(name@, argv_view(argv@), mi as int),
{
    let mut inv = byte_len_of(name) as u128;
    let mut p: usize = 0;
    while p < argv.len()
        invariant
            p <= argv.len(),
            argv.len() <= MAX_PARAMS,
            forall|p: int| 0 <= p < argv.len() ==> mi < (#[trigger] argv@[p]).len(),
            inv == invocation_len(name@, argv_view(argv@).take(p as int), mi as int),
            inv <= 18446744073709551615 + p * 18446744073709551616,
        decreases argv.len() - p,
    {
        assert(mi < argv@[p as int].len());
        let q = quoted_arg(argv[p][mi].as_str());
        let ql = byte_len_of(&q);
        assert(argv_view(argv@).take(p + 1).drop_last() =~= argv_view(argv@).take(p as int));
        assert(argv_view(argv@).take(p + 1).last()[mi as int] == argv@[p as int]@[mi as int]@);
        inv = inv + 1 + ql as u128;
        p += 1;
    }
    assert(argv_view(argv@).take(argv.len() as int) =~= argv_view(argv@));
    inv
}

/// The keystrokes saved by a template's function over its members, capped at `i64::MAX`.
fn saved_total(
    items: &[(String, Vec<Token>)],
    members: &Vec<usize>,
    name: &String,
    argv: &Vec<Vec<String>>,
) -> (r: i64)
    requires
        argv.len() <= MAX_PARAMS,
        argv_width(argv@, members.len() as nat),
        forall|k: int| 0 <= k < members.len() ==> members@[k] < items.len(),
    ensures
        r == capped(saved_sum(items@, members@, name@, argv_view(argv@))),
{
    let mut saved: i64 = 0;
    let mut mi: usize = 0;
    while mi < members.len()
        invariant
            mi <= members.len(),
            argv.len() <= MAX_PARAMS,
            argv_width(argv@, members.len() as nat),
            forall|k: int| 0 <= k < members.len() ==> members@[k] < items.len(),
            saved as int == capped(saved_sum(items@, members@.take(mi as int), name@, argv_view(argv@))),
            saved_sum(items@, members@.take(mi as int), name@, argv_view(argv@)) >= 0,
        decreases members.len() - mi,
    {
        let orig = byte_len_of(&items[members[mi]].0) as u128;
        let inv = invocation_bytes(name, argv, mi);
        let term: u128 = if orig > inv { orig - inv } else { 0 };
        assert(members@.take(mi + 1).drop_last() =~= members@.take(mi as int));
        assert(members@.take(mi + 1)[mi as int] == members@[mi as int]);
        let room = (i64::MAX - saved) as u128;
        if term >= room {
            saved = i64::MAX;
        } else {
            saved = saved + term as i64;
        }
        mi += 1;
    }
    assert(members@.take(members.len() as int) =~= members@);
    saved
}

/// The example call: the name followed by the first member's values.
fn try_call(name: &String, argv: &Vec<Vec<String>>) -> (r: String)
    requires
        forall|p: int| 0 <= p < argv.len() ==> 0 < (#[trigger] argv@[p]).len(),
    ensures
        r@ == try_line(name@, argv_view(argv@)),
{
    let mut out = name.clone();
    let mut p: usize = 0;
    while p < argv.len()
        invariant
            p <= argv.len(),
            forall|p: int| 0 <= p < argv.len() ==> 0 < (#[trigger] argv@[p]).len(),
            out@ == try_line(name@, argv_view(argv@).take(p as int)),
        decreases argv.len() - p,
    {
        assert(0 < argv@[p as int].len());
        push_char(&mut out, ' ');
        let q = quoted_arg(argv[p][0].as_str());
        push_all(&mut out, q.as_str());
        assert(argv_view(argv@).take(p + 1).drop_last() =~= argv_view(argv@).take(p as int));
        assert(argv_view(argv@).take(p + 1).last()[0] == argv@[p as int]@[0]@);
        p += 1;
    }
    assert(argv_view(argv@).take(argv.len() as int) =~= argv_view(argv@));
    out
}

proof fn lemma_pieces_push(v: Seq<Piece>, p: Piece)
    ensures
        pieces_view(v.push(p)) == pieces_view(v).push(p@),
{
    assert(pieces_view(v.push(p)) =~= pieces_view(v).push(p@));
}

/// Generalizes a cluster of history entries into a function: the members with the
/// most common token count are aligned column by column; constant columns stay,
/// varying ones become slots (slots with equal values share one), double-quoted
/// columns are generalized inside. Names the function with `make_name`, so its name
/// is a lowercase identifier.
#[verifier::loop_isolation(false)]
pub fn generalize(
    items: &[(String, Vec<Token>)],
    cluster: &Vec<usize>,
    min_uses: usize,
    used: &mut Vec<(String, usize)>,
) -> (r: Option<Mined>)
    requires
        forall|k: int| 0 <= k < cluster.len() ==> cluster@[k] < items.len(),
        forall|b: Seq<char>| count_of(old(used)@, b) < usize::MAX,
    ensures
        match template_of(items@, cluster@, min_uses as nat) {
            None => r is None && final(used)@ == old(used)@,
            Some(t) => {
                let base = name_base(t.const_words);
                let n = count_of(old(used)@, base) + 1;
                &&& r matches Some(m) && m@ == mined_of(items@, t, n)
                &&& lower_ident(r->0.name@)
                &&& count_of(final(used)@, base) == n
                &&& forall|b: Seq<char>| b != base ==> count_of(final(used)@, b) == count_of(old(used)@, b)
            },
        },
{
    if cluster.len() == 0 {
        return None;
    }
    let members = pick_members(items, cluster);
    if members.len() < min_uses {
        return None;
    }
    let ghost tv = member_toks(items@, members@);
    let mut toks: Vec<Vec<Token>> = Vec::new();
    let mut k: usize = 0;
    while k < members.len()
        invariant
            k <= members.len(),
            toks.len() == k,
            forall|i: int| 0 <= i < k ==> toks_view((#[trigger] toks@[i])@) == tv[i],
            forall|i: int| 0 <= i < k ==> (#[trigger] toks@[i]).len() == items@[members@[0] as int].1.len(),
        decreases members.len() - k,
    {
        let t = copy_tokens(&items[members[k]].1);
        assert(items@[members@[k as int] as int].1.len() == items@[members@[0] as int].1.len());
        toks.push(t);
        k += 1;
    }
    assert(tview(toks@) =~= tv);
    let l = toks[0].len();
    assert(tv[0].len() == l);
    let mut pieces: Vec<Piece> = Vec::new();
    let mut const_words: Vec<String> = Vec::new();
    assert(strs_view(const_words@) =~= Seq::<Seq<Seq<char>>>::empty().flatten());
    let mut col: usize = 0;
    while col < l
        invariant
            col <= l,
            toks.len() == members.len(),
            toks.len() > 0,
            tview(toks@) == tv,
            forall|i: int| 0 <= i < toks.len() ==> (#[trigger] toks@[i]).len() == l,
            pieces.len() == col,
            pieces_view(pieces@) == Seq::new(col as nat, |c: int| (col_piece(tv, c)->0).0),
            strs_view(const_words@) == Seq::new(col as nat, |c: int| (col_piece(tv, c)->0).1).flatten(),
            forall|c: int| 0 <= c < col ==> (#[trigger] col_piece(tv, c)) is Some,
            forall|k: int| 0 <= k < col ==> piece_width(#[trigger] pieces@[k], members.len() as nat),
        decreases l - col,
    {
        let ghost ct = column(tv, col as int);
        assert(ct[0] == toks@[0]@[col as int]@);
        proof {
            lemma_new_push(col as int, |c: int| (col_piece(tv, c)->0).0);
            lemma_new_push(col as int, |c: int| (col_piece(tv, c)->0).1);
            Seq::new(col as nat, |c: int| (col_piece(tv, c)->0).1).lemma_flatten_push((col_piece(tv, col as int)->0).1);
        }
        let ghost p0 = pieces@;
        if column_same_raw(&toks, col) {
            let first = &toks[0][col];
            if !first.op {
                let w = first.value.clone();
                proof {
                    lemma_strs_push(const_words@, w);
                }
                const_words.push(w);
            } else {
                assert((col_piece(tv, col as int)->0).1 =~= Seq::<Seq<char>>::empty());
            }
            let p = Piece::Const(first.raw.clone());
            proof {
                lemma_pieces_push(pieces@, p);
            }
            pieces.push(p);
        } else if column_any_op(&toks, col) {
            assert(col_piece(tv, col as int) is None);
            return None;
        } else {
            let ghost cw0 = const_words@;
            match try_inner(&toks, col, &mut const_words) {
                Some(inner) => {
                    proof {
                        lemma_inner_template_width(ct);
                        assert forall|j: int| 0 <= j < inner.len() implies inner_width(#[trigger] inner@[j], members.len() as nat) by {
                            assert(inners_view(inner@)[j] == inner@[j]@);
                        }
                    }
                    let p = Piece::Inner(inner);
                    proof {
                        lemma_pieces_push(pieces@, p);
                    }
                    pieces.push(p);
                    assert(piece_width(pieces@[col as int], members.len() as nat));
                },
                None => {
                    let vals = column_values(&toks, col);
                    assert((col_piece(tv, col as int)->0).1 =~= Seq::<Seq<char>>::empty());
                    assert(strs_view(vals@).len() == vals.len());
                    assert(vals.len() == members.len());
                    let p = Piece::Param(vals);
                    proof {
                        lemma_pieces_push(pieces@, p);
                    }
                    pieces.push(p);
                    assert(piece_width(pieces@[col as int], members.len() as nat));
                },
            }
        }
        assert forall|k: int| 0 <= k < col + 1 implies piece_width(#[trigger] pieces@[k], members.len() as nat) by {
            if k < col {
                assert(pieces@[k] == p0[k]);
            }
        }
        col += 1;
    }
    let spaces = space_flags(&toks[0]);
    assert(spaces@ =~= Seq::new(l as nat, |c: int| tv[0][c].space_before));
    let (body, argv) = render_pieces(&pieces, &spaces, Ghost(members.len() as nat));
    let n_params = argv.len();
    if n_params == 0 || n_params > MAX_PARAMS || const_words.len() < 2 {
        return None;
    }
    let ghost t = template_of(items@, cluster@, min_uses as nat)->0;
    assert(t.members == members@);
    assert(t.const_words == strs_view(const_words@));
    assert(t.argv == argv_view(argv@));
    let name = make_name(&const_words, used);
    let saved = saved_total(items, &members, &name, &argv);
    let try_example = try_call(&name, &argv);
    Some(Mined {
        name,
        body,
        from_example: items[members[0]].0.clone(),
        try_example,
        n_entries: members.len(),
        n_params,
        saved,
    })
}

} // verus!
