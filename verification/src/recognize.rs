use vstd::prelude::*;
use crate::tokenize::{Token, TokenV, Quote};
use crate::template::{InnerV, PieceV, render, render_inner, slot, intern_index, interned, template_of, members_of,
    member_toks, column, same_raw, any_op, values, plain_double_quoted, inner_toks, inner_bad, inner_piece,
    inner_template, col_piece, best_len, lemma_render_consts, MAX_PARAMS, piece_slot_for, inner_slot_for,
    lemma_correlated_slots_shared};
use crate::tokenize::item_toks;
use crate::mine::{MinedV, mined_result, from_template, made_from, lemma_mined_from_templates};
use crate::template::try_line;
use crate::words::quoted;
use crate::relex::{joined, word_char, well_read, word_text, op_text, apart, reread, lex_facts, lemma_lex_facts, lemma_tokens_read,
    lemma_bare_word_text,
    lemma_single_word_text, lemma_double_word_text, lemma_joined_chars, lemma_join_split, lemma_join_next,
    lemma_lex_join, lemma_well_read_start, lemma_tokens_of_join};
use crate::tokenize::{tokens_of, lex, is_op};
use crate::text::is_space;
use crate::text::{decimal, digit_char, contains, occurs_at};
use crate::words::is_ascii_digit;
use crate::matching::{argv_number, parsed_usize, digits_value, unsigned_part, all_digits, InnerMatchV,
    MatchPieceV, inner_match_of, match_piece_of, template_pieces, captured, cap_scan, inner_upto, match_upto,
    match_result, lemma_cap_scan_range, slots_increasing, piece_agrees, inner_agrees, lemma_match_agrees};
use crate::suggest::argv_mark_at;

verus! {

/// The token a slot or constant of an inner template reads back as, given the
/// inner tokens `i0s` of the first command and the slots `a` before the word.
pub open spec fn inner_rtok(ips: Seq<InnerV>, i0s: Seq<TokenV>, a: Seq<Seq<Seq<char>>>, j: int) -> TokenV {
    match ips[j] {
        InnerV::Const(_, _) => i0s[j],
        InnerV::Param(vals, q, sp) => {
            let sl = slot(intern_index(render_inner(ips, j, Seq::empty(), a).1, vals));
            TokenV {
                raw: if q == Quote::Single { seq!['\''] + sl + seq!['\''] } else { sl },
                value: sl,
                quote: if q == Quote::Single { Quote::Single } else { Quote::Plain },
                op: false,
                space_before: sp,
            }
        },
    }
}

/// The tokens an inner template reads back as.
pub open spec fn inner_rtoks(ips: Seq<InnerV>, i0s: Seq<TokenV>, a: Seq<Seq<Seq<char>>>) -> Seq<TokenV> {
    Seq::new(ips.len(), |j: int| inner_rtok(ips, i0s, a, j))
}

/// The inner positions match the first command's inner tokens: same raw text and
/// leading space for constants, same leading space for slots.
pub open spec fn inner_fits(ips: Seq<InnerV>, i0s: Seq<TokenV>) -> bool {
    &&& ips.len() <= i0s.len()
    &&& forall|j: int| 0 <= j < ips.len() ==> match #[trigger] ips[j] {
        InnerV::Const(raw, sp) => raw == i0s[j].raw && sp == i0s[j].space_before,
        InnerV::Param(_, _, sp) => sp == i0s[j].space_before && !i0s[j].op,
    }
}

/// Rendering inner positions appends to the body it is given; the slots do not
/// depend on that body.
proof fn lemma_render_inner_append(ips: Seq<InnerV>, j: int, body: Seq<char>, a: Seq<Seq<Seq<char>>>)
    requires
        0 <= j <= ips.len(),
    ensures
        render_inner(ips, j, body, a).0 == body + render_inner(ips, j, Seq::empty(), a).0,
        render_inner(ips, j, body, a).1 == render_inner(ips, j, Seq::empty(), a).1,
    decreases j,
{
    if j == 0 {
        assert(body + Seq::<char>::empty() =~= body);
    } else {
        lemma_render_inner_append(ips, j - 1, body, a);
        let (b, aa) = render_inner(ips, j - 1, body, a);
        let (e, ae) = render_inner(ips, j - 1, Seq::empty(), a);
        match ips[j - 1] {
            InnerV::Const(raw, sp) => {
                if j - 1 > 0 && sp {
                    assert(b.push(' ') + raw =~= body + (e.push(' ') + raw));
                } else {
                    assert(b + raw =~= body + (e + raw));
                }
            },
            InnerV::Param(vals, q, sp) => {
                let idx = intern_index(aa, vals);
                let s = if q == Quote::Single { seq!['\''] + slot(idx) + seq!['\''] } else { slot(idx) };
                if j - 1 > 0 && sp {
                    assert(b.push(' ') + s =~= body + (e.push(' ') + s));
                } else {
                    assert(b + s =~= body + (e + s));
                }
            },
        }
    }
}

/// The text of an inner template is its tokens joined.
proof fn lemma_inner_joined(ips: Seq<InnerV>, i0s: Seq<TokenV>, a: Seq<Seq<Seq<char>>>, j: int)
    requires
        0 <= j <= ips.len(),
        inner_fits(ips, i0s),
    ensures
        render_inner(ips, j, Seq::empty(), a).0 == joined(inner_rtoks(ips, i0s, a), j),
    decreases j,
{
    if j > 0 {
        lemma_inner_joined(ips, i0s, a, j - 1);
        let rt = inner_rtoks(ips, i0s, a);
        assert(rt[j - 1] == inner_rtok(ips, i0s, a, j - 1));
        match ips[j - 1] {
            InnerV::Const(raw, sp) => {},
            InnerV::Param(vals, q, sp) => {},
        }
    }
}


/// The token a column of a template reads back as, given the first command's tokens
/// `t0s` and the leading-space flags `sp`.
#[verifier::opaque]
pub open spec fn outer_rtok(pieces: Seq<PieceV>, t0s: Seq<TokenV>, sp: Seq<bool>, c: int) -> TokenV {
    match pieces[c] {
        PieceV::Const(_) => t0s[c],
        PieceV::Param(vals) => {
            let sl = slot(intern_index(render(pieces, sp, c).1, vals));
            TokenV { raw: sl, value: sl, quote: Quote::Plain, op: false, space_before: t0s[c].space_before }
        },
        PieceV::Inner(ips) => {
            let it = render_inner(ips, ips.len() as int, Seq::empty(), render(pieces, sp, c).1).0;
            TokenV {
                raw: seq!['"'] + it + seq!['"'],
                value: it,
                quote: Quote::Double,
                op: false,
                space_before: t0s[c].space_before,
            }
        },
    }
}

/// The tokens a template's body reads back as.
pub open spec fn outer_rtoks(pieces: Seq<PieceV>, t0s: Seq<TokenV>, sp: Seq<bool>) -> Seq<TokenV> {
    Seq::new(pieces.len(), |c: int| outer_rtok(pieces, t0s, sp, c))
}

/// The columns match the first command's tokens: same raw text for constants, and
/// the leading-space flags are the tokens'.
pub open spec fn outer_fits(pieces: Seq<PieceV>, t0s: Seq<TokenV>, sp: Seq<bool>) -> bool {
    &&& pieces.len() <= t0s.len()
    &&& pieces.len() <= sp.len()
    &&& forall|c: int| 0 <= c < pieces.len() ==> #[trigger] sp[c] == t0s[c].space_before
    &&& forall|c: int| 0 <= c < pieces.len() ==> match #[trigger] pieces[c] {
        PieceV::Const(raw) => raw == t0s[c].raw,
        _ => true,
    }
}

/// The body of a template is its tokens joined.
proof fn lemma_outer_joined(pieces: Seq<PieceV>, t0s: Seq<TokenV>, sp: Seq<bool>, k: int)
    requires
        0 <= k <= pieces.len(),
        outer_fits(pieces, t0s, sp),
    ensures
        render(pieces, sp, k).0 == joined(outer_rtoks(pieces, t0s, sp), k),
    decreases k,
{
    if k > 0 {
        lemma_outer_joined(pieces, t0s, sp, k - 1);
        reveal(outer_rtok);
        let rt = outer_rtoks(pieces, t0s, sp);
        assert(rt[k - 1] == outer_rtok(pieces, t0s, sp, k - 1));
        assert(sp[k - 1] == t0s[k - 1].space_before);
        let (b, a) = render(pieces, sp, k - 1);
        let b1 = if k - 1 > 0 && sp[k - 1] { b.push(' ') } else { b };
        match pieces[k - 1] {
            PieceV::Const(raw) => {},
            PieceV::Param(vals) => {},
            PieceV::Inner(ips) => {
                lemma_render_inner_append(ips, ips.len() as int, b1.push('"'), a);
                let it = render_inner(ips, ips.len() as int, Seq::empty(), a).0;
                assert((b1.push('"') + it).push('"') =~= b1 + (seq!['"'] + it + seq!['"']));
            },
        }
    }
}


proof fn lemma_digit_char(d: nat)
    requires
        d < 10,
    ensures
        is_ascii_digit(digit_char(d)),
        digit_char(d) as int - '0' as int == d,
{
}

/// Decimal text is digits, never empty, and reads back as its number.
proof fn lemma_decimal(n: nat)
    ensures
        decimal(n).len() > 0,
        forall|k: int| 0 <= k < decimal(n).len() ==> is_ascii_digit(#[trigger] decimal(n)[k]),
        digits_value(decimal(n)) == n,
    decreases n,
{
    let d = decimal(n);
    if n < 10 {
        lemma_digit_char(n);
        assert(d.drop_last() =~= Seq::<char>::empty());
        assert(d.last() == digit_char(n));
        assert(digits_value(d) == digits_value(d.drop_last()) * 10 + (d.last() as int - '0' as int) as nat);
    } else {
        lemma_decimal(n / 10);
        lemma_digit_char(n % 10);
        assert(d.drop_last() =~= decimal(n / 10));
        assert(d.last() == digit_char(n % 10));
        assert(digits_value(d) == digits_value(d.drop_last()) * 10 + (d.last() as int - '0' as int) as nat);
        assert(n == (n / 10) * 10 + n % 10) by (nonlinear_arith);
        assert forall|k: int| 0 <= k < d.len() implies is_ascii_digit(#[trigger] d[k]) by {
            if k < d.len() - 1 {
                assert(d[k] == decimal(n / 10)[k]);
            }
        }
    }
}

/// A slot placeholder: word characters only, starting with `$argv[`, and read back
/// as its slot number.
proof fn lemma_slot(idx: nat)
    requires
        idx + 1 <= usize::MAX,
    ensures
        slot(idx).len() > 0,
        slot(idx)[0] == '$',
        forall|k: int| 0 <= k < slot(idx).len() ==> word_char(#[trigger] slot(idx)[k]),
        argv_number(slot(idx)) == Some((idx + 1) as usize),
        occurs_at(slot(idx), "$argv["@, 0),
{
    reveal_strlit("$argv[");
    reveal_strlit("]");
    let d = decimal(idx + 1);
    lemma_decimal((idx + 1) as nat);
    let sl = slot(idx);
    assert(sl == "$argv["@ + d + "]"@);
    assert forall|k: int| 0 <= k < sl.len() implies word_char(#[trigger] sl[k]) by {
        if 6 <= k < 6 + d.len() {
            assert(sl[k] == d[k - 6]);
            assert(is_ascii_digit(d[k - 6]));
        }
    }
    assert(sl.subrange(6, sl.len() - 1) =~= d);
    assert(unsigned_part(d) == d);
    assert(sl.subrange(0, 6) =~= "$argv["@);
}


proof fn lemma_intern_index_le(argv: Seq<Seq<Seq<char>>>, v: Seq<Seq<char>>)
    ensures
        intern_index(argv, v) <= argv.len(),
    decreases argv.len(),
{
    if argv.len() > 0 {
        lemma_intern_index_le(argv.drop_last(), v);
    }
}

proof fn lemma_render_inner_grow(ips: Seq<InnerV>, j: int, k: int, a: Seq<Seq<Seq<char>>>)
    requires
        0 <= j <= k <= ips.len(),
    ensures
        a.len() <= render_inner(ips, j, Seq::empty(), a).1.len() <= render_inner(ips, k, Seq::empty(), a).1.len(),
    decreases k,
{
    if j < k {
        lemma_render_inner_grow(ips, j, k - 1, a);
    } else if k > 0 {
        lemma_render_inner_grow(ips, k - 1, k - 1, a);
    }
}

/// No quote or backslash: text that can stand inside double quotes as it is.
pub open spec fn dq_safe(c: char) -> bool {
    c != '"' && c != '\\'
}

/// The token of inner position `j` reads back on its own, and holds no double quote
/// or backslash.
proof fn lemma_inner_rtok_read(ips: Seq<InnerV>, i0s: Seq<TokenV>, a: Seq<Seq<Seq<char>>>, j: int)
    requires
        0 <= j < ips.len(),
        ips.len() == i0s.len(),
        inner_fits(ips, i0s),
        well_read(i0s[j]),
        ips[j] is Const ==> forall|x: int| 0 <= x < i0s[j].raw.len() ==> dq_safe(#[trigger] i0s[j].raw[x]),
        render_inner(ips, ips.len() as int, Seq::empty(), a).1.len() + 1 < usize::MAX,
    ensures
        well_read(inner_rtok(ips, i0s, a, j)),
        inner_rtok(ips, i0s, a, j).op == i0s[j].op,
        inner_rtok(ips, i0s, a, j).space_before == i0s[j].space_before,
        forall|x: int| 0 <= x < inner_rtok(ips, i0s, a, j).raw.len() ==> dq_safe(#[trigger] inner_rtok(ips, i0s, a, j).raw[x]),
{
    let t = inner_rtok(ips, i0s, a, j);
    match ips[j] {
        InnerV::Const(_, _) => {},
        InnerV::Param(vals, q, sp) => {
            let aj = render_inner(ips, j, Seq::empty(), a).1;
            lemma_render_inner_grow(ips, j, ips.len() as int, a);
            lemma_intern_index_le(aj, vals);
            let idx = intern_index(aj, vals);
            lemma_slot(idx);
            let sl = slot(idx);
            if q == Quote::Single {
                assert forall|k: int| 0 <= k < sl.len() implies #[trigger] sl[k] != '\\' && sl[k] != '\'' by {
                    assert(word_char(sl[k]));
                }
                lemma_single_word_text(sl, sp);
                let r = seq!['\''] + sl + seq!['\''];
                assert forall|x: int| 0 <= x < r.len() implies dq_safe(#[trigger] r[x]) by {
                    if 1 <= x < r.len() - 1 {
                        assert(r[x] == sl[x - 1]);
                        assert(word_char(sl[x - 1]));
                    }
                }
            } else {
                lemma_bare_word_text(sl, sp);
                assert forall|x: int| 0 <= x < sl.len() implies dq_safe(#[trigger] sl[x]) by {
                    assert(word_char(sl[x]));
                }
            }
        },
    }
}

/// A token that reads back on its own and can stand inside double quotes.
pub open spec fn reads_clean(t: TokenV) -> bool {
    &&& well_read(t)
    &&& forall|x: int| 0 <= x < t.raw.len() ==> dq_safe(#[trigger] t.raw[x])
}

/// The tokens an inner template reads back as are read back one by one, keep words
/// and operators apart, and hold no double quote or backslash.
#[verifier::spinoff_prover]
proof fn lemma_inner_rtoks_read(ips: Seq<InnerV>, i0s: Seq<TokenV>, a: Seq<Seq<Seq<char>>>)
    requires
        ips.len() == i0s.len(),
        inner_fits(ips, i0s),
        forall|j: int| 0 <= j < i0s.len() ==> well_read(#[trigger] i0s[j]),
        apart(i0s),
        forall|j: int| 0 <= j < ips.len() && (#[trigger] ips[j]) is Const ==> forall|x: int| 0 <= x < i0s[j].raw.len() ==> dq_safe(#[trigger] i0s[j].raw[x]),
        render_inner(ips, ips.len() as int, Seq::empty(), a).1.len() + 1 < usize::MAX,
    ensures
        forall|j: int| 0 <= j < ips.len() ==> reads_clean(#[trigger] inner_rtoks(ips, i0s, a)[j]),
        apart(inner_rtoks(ips, i0s, a)),
{
    let rt = inner_rtoks(ips, i0s, a);
    assert forall|j: int| 0 <= j < ips.len() implies reads_clean(#[trigger] rt[j]) && rt[j].op == i0s[j].op
        && rt[j].space_before == i0s[j].space_before by {
        assert(rt[j] == inner_rtok(ips, i0s, a, j));
        assert(well_read(i0s[j]));
        lemma_inner_rtok_read(ips, i0s, a, j);
    }
    assert forall|c: int| 0 < c < rt.len() && !(#[trigger] rt[c]).space_before implies rt[c - 1].op != rt[c].op by {
        assert(rt[c - 1].op == i0s[c - 1].op);
        assert(!i0s[c].space_before);
    }
}


/// A slot word holds no whitespace and no operator character.
proof fn lemma_argv_number_chars(v: Seq<char>)
    requires
        argv_number(v) is Some,
    ensures
        forall|k: int| 0 <= k < v.len() ==> !is_space(#[trigger] v[k]) && !is_op(v[k]),
{
    let d = v.subrange(6, v.len() - 1);
    assert(argv_mark_at(v, 0));
    assert forall|k: int| 0 <= k < v.len() implies !is_space(#[trigger] v[k]) && !is_op(v[k]) by {
        if 6 <= k < v.len() - 1 {
            assert(v[k] == d[k - 6]);
            let u = unsigned_part(d);
            if d.len() > 0 && d[0] == '+' {
                if k > 6 {
                    assert(u[k - 7] == d[k - 6]);
                    assert(is_ascii_digit(u[k - 7]));
                }
            } else {
                assert(u[k - 6] == d[k - 6]);
                assert(is_ascii_digit(u[k - 6]));
            }
        }
    }
}

/// Joined tokens that read back one by one and keep words and operators apart hold
/// whitespace or an operator character when there are two or more, so they are no
/// slot word.
proof fn lemma_joined_not_slot(rt: Seq<TokenV>)
    requires
        rt.len() >= 2,
        well_read(rt[0]),
        well_read(rt[1]),
        apart(rt),
    ensures
        argv_number(joined(rt, rt.len() as int)) is None,
{
    let it = joined(rt, rt.len() as int);
    lemma_well_read_start(rt[0]);
    lemma_well_read_start(rt[1]);
    lemma_join_split(rt, 0);
    lemma_join_next(rt, 0);
    assert(joined(rt, 0).len() == 0);
    let e = joined(rt, 1).len() as int;
    if argv_number(it) is Some {
        lemma_argv_number_chars(it);
        if !rt[1].space_before {
            assert(rt[0].op != rt[1].op);
            if rt[1].op {
                assert(is_op(it[e]));
            } else {
                assert(it[0] == rt[0].raw[0]);
            }
        } else {
            assert(is_space(it[e]));
        }
    }
}

/// The text of an inner template holds `$argv[` when the template has a slot.
proof fn lemma_inner_text_mark(ips: Seq<InnerV>, i0s: Seq<TokenV>, a: Seq<Seq<Seq<char>>>, j: int)
    requires
        0 <= j < ips.len(),
        ips[j] is Param,
        render_inner(ips, ips.len() as int, Seq::empty(), a).1.len() + 1 < usize::MAX,
    ensures
        contains(joined(inner_rtoks(ips, i0s, a), ips.len() as int), "$argv["@),
{
    let rt = inner_rtoks(ips, i0s, a);
    let it = joined(rt, rt.len() as int);
    lemma_join_split(rt, j);
    let b = joined(rt, j);
    let pre = if j > 0 && rt[j].space_before { b.push(' ') } else { b };
    assert(rt[j] == inner_rtok(ips, i0s, a, j));
    if let InnerV::Param(vals, q, sp) = ips[j] {
        let aj = render_inner(ips, j, Seq::empty(), a).1;
        lemma_render_inner_grow(ips, j, ips.len() as int, a);
        lemma_intern_index_le(aj, vals);
        let sl = slot(intern_index(aj, vals));
        lemma_slot(intern_index(aj, vals));
        reveal_strlit("$argv[");
        let off: int = if q == Quote::Single { (pre.len() + 1) as int } else { pre.len() as int };
        assert(it.subrange(off, off + 6) =~= sl.subrange(0, 6));
        assert(occurs_at(it, "$argv["@, off));
    }
}

/// The text of an inner template reads back as its tokens and can stand inside
/// double quotes.
#[verifier::spinoff_prover]
#[verifier::rlimit(40)]
proof fn lemma_inner_text(ips: Seq<InnerV>, i0s: Seq<TokenV>, a: Seq<Seq<Seq<char>>>)
    requires
        ips.len() > 0,
        forall|j: int| 0 <= j < ips.len() ==> reads_clean(#[trigger] inner_rtoks(ips, i0s, a)[j]),
        apart(inner_rtoks(ips, i0s, a)),
    ensures
        tokens_of(joined(inner_rtoks(ips, i0s, a), ips.len() as int)) == Some(reread(inner_rtoks(ips, i0s, a))),
        forall|x: int| 0 <= x < joined(inner_rtoks(ips, i0s, a), ips.len() as int).len()
            ==> dq_safe(#[trigger] joined(inner_rtoks(ips, i0s, a), ips.len() as int)[x]),
{
    let rt = inner_rtoks(ips, i0s, a);
    let n = rt.len() as int;
    assert forall|k: int| 0 <= k < rt.len() implies well_read(#[trigger] rt[k]) by {
        assert(reads_clean(rt[k]));
    }
    lemma_tokens_of_join(rt);
    let p = |c: char| dq_safe(c);
    assert forall|c: int, x: int| 0 <= c < rt.len() && 0 <= x < rt[c].raw.len() implies p(#[trigger] rt[c].raw[x]) by {
        assert(reads_clean(rt[c]));
    }
    lemma_joined_chars(rt, n, p);
}


/// An inner template whose tokens read back and keep words and operators apart,
/// given the first command's inner tokens `i0s` and the slots `a` before the word.
#[verifier::opaque]
pub open spec fn inner_ready(ips: Seq<InnerV>, i0s: Seq<TokenV>, a: Seq<Seq<Seq<char>>>) -> bool {
    &&& ips.len() > 0
    &&& inner_fits(ips, i0s)
    &&& render_inner(ips, ips.len() as int, Seq::empty(), a).1.len() + 1 < usize::MAX
    &&& forall|j: int| 0 <= j < ips.len() ==> reads_clean(#[trigger] inner_rtoks(ips, i0s, a)[j])
    &&& apart(inner_rtoks(ips, i0s, a))
}

/// What column `c` needs for its token to read back: the first command's token
/// reads back, a slot or inner column holds a word, and an inner template is ready.
#[verifier::opaque]
pub open spec fn column_ready(pieces: Seq<PieceV>, t0s: Seq<TokenV>, sp: Seq<bool>, c: int) -> bool {
    &&& well_read(t0s[c])
    &&& !(pieces[c] is Const) ==> !t0s[c].op
    &&& render(pieces, sp, c).1.len() + 1 < usize::MAX
    &&& pieces[c] matches PieceV::Inner(ips) ==> inner_ready(ips, tokens_of(t0s[c].value)->0, render(pieces, sp, c).1)
}

proof fn lemma_slot_token_read(a: Seq<Seq<Seq<char>>>, vals: Seq<Seq<char>>, sb: bool)
    requires
        a.len() + 1 < usize::MAX,
    ensures
        ({
            let sl = slot(intern_index(a, vals));
            well_read(TokenV { raw: sl, value: sl, quote: Quote::Plain, op: false, space_before: sb })
        }),
{
    lemma_intern_index_le(a, vals);
    lemma_slot(intern_index(a, vals));
    lemma_bare_word_text(slot(intern_index(a, vals)), sb);
}

proof fn lemma_inner_token_read(ips: Seq<InnerV>, i0s: Seq<TokenV>, a: Seq<Seq<Seq<char>>>, sb: bool)
    requires
        inner_ready(ips, i0s, a),
    ensures
        ({
            let it = render_inner(ips, ips.len() as int, Seq::empty(), a).0;
            well_read(TokenV { raw: seq!['"'] + it + seq!['"'], value: it, quote: Quote::Double, op: false, space_before: sb })
        }),
{
    reveal(inner_ready);
    lemma_inner_text(ips, i0s, a);
    let it = joined(inner_rtoks(ips, i0s, a), ips.len() as int);
    assert forall|k: int| 0 <= k < it.len() implies #[trigger] it[k] != '\\' && it[k] != '"' by {
        assert(dq_safe(it[k]));
    }
    lemma_double_word_text(it, sb);
    lemma_inner_joined(ips, i0s, a, ips.len() as int);
}

#[verifier::spinoff_prover]
proof fn lemma_outer_rtok_read(pieces: Seq<PieceV>, t0s: Seq<TokenV>, sp: Seq<bool>, c: int)
    requires
        0 <= c < pieces.len(),
        outer_fits(pieces, t0s, sp),
        column_ready(pieces, t0s, sp, c),
    ensures
        well_read(outer_rtok(pieces, t0s, sp, c)),
        outer_rtok(pieces, t0s, sp, c).op == t0s[c].op,
        outer_rtok(pieces, t0s, sp, c).space_before == t0s[c].space_before,
{
    reveal(outer_rtok);
    reveal(column_ready);
    let a = render(pieces, sp, c).1;
    match pieces[c] {
        PieceV::Const(_) => {},
        PieceV::Param(vals) => {
            lemma_slot_token_read(a, vals, t0s[c].space_before);
        },
        PieceV::Inner(ips) => {
            lemma_inner_token_read(ips, tokens_of(t0s[c].value)->0, a, t0s[c].space_before);
        },
    }
}

/// The body of a template reads back as the tokens of its columns.
#[verifier::spinoff_prover]
proof fn lemma_body_tokens(pieces: Seq<PieceV>, t0s: Seq<TokenV>, sp: Seq<bool>)
    requires
        pieces.len() > 0,
        outer_fits(pieces, t0s, sp),
        forall|c: int| 0 <= c < pieces.len() ==> column_ready(pieces, t0s, sp, c),
        apart(t0s),
    ensures
        tokens_of(render(pieces, sp, pieces.len() as int).0) == Some(reread(outer_rtoks(pieces, t0s, sp))),
{
    let rt = outer_rtoks(pieces, t0s, sp);
    assert forall|c: int| 0 <= c < rt.len() implies well_read(#[trigger] rt[c]) && rt[c].op == t0s[c].op
        && rt[c].space_before == t0s[c].space_before by {
        assert(rt[c] == outer_rtok(pieces, t0s, sp, c));
        assert(column_ready(pieces, t0s, sp, c));
        lemma_outer_rtok_read(pieces, t0s, sp, c);
    }
    assert forall|c: int| 0 < c < rt.len() && !(#[trigger] rt[c]).space_before implies rt[c - 1].op != rt[c].op by {
        assert(rt[c - 1].op == t0s[c - 1].op);
        assert(!t0s[c].space_before);
    }
    lemma_tokens_of_join(rt);
    lemma_outer_joined(pieces, t0s, sp, pieces.len() as int);
}


/// A token that is read back as itself by the matcher: not a slot word, and not a
/// double-quoted word holding `$argv[`.
pub open spec fn slot_free(t: TokenV) -> bool {
    &&& (t.op || argv_number(t.value) is None)
    &&& !(t.quote == Quote::Double && contains(t.value, "$argv["@))
}

/// What the matcher makes of inner position `j`.
pub open spec fn inner_expect(ips: Seq<InnerV>, a: Seq<Seq<Seq<char>>>, j: int) -> InnerMatchV {
    match ips[j] {
        InnerV::Const(raw, _) => InnerMatchV::Const(raw),
        InnerV::Param(vals, _, _) => InnerMatchV::Param((intern_index(render_inner(ips, j, Seq::empty(), a).1, vals) + 1) as usize),
    }
}

/// What the matcher makes of column `c`.
pub open spec fn outer_expect(pieces: Seq<PieceV>, sp: Seq<bool>, c: int) -> MatchPieceV {
    match pieces[c] {
        PieceV::Const(raw) => MatchPieceV::Const(raw),
        PieceV::Param(vals) => MatchPieceV::Param((intern_index(render(pieces, sp, c).1, vals) + 1) as usize),
        PieceV::Inner(ips) => MatchPieceV::Inner(Seq::new(ips.len(), |j: int| inner_expect(ips, render(pieces, sp, c).1, j))),
    }
}

proof fn lemma_inner_match(ips: Seq<InnerV>, i0s: Seq<TokenV>, a: Seq<Seq<Seq<char>>>, j: int)
    requires
        0 <= j < ips.len(),
        inner_fits(ips, i0s),
        ips[j] is Const ==> argv_number(i0s[j].value) is None,
        render_inner(ips, ips.len() as int, Seq::empty(), a).1.len() + 1 < usize::MAX,
    ensures
        inner_match_of(reread(inner_rtoks(ips, i0s, a))[j]) == inner_expect(ips, a, j),
{
    let rt = inner_rtoks(ips, i0s, a);
    assert(rt[j] == inner_rtok(ips, i0s, a, j));
    if let InnerV::Param(vals, q, sp) = ips[j] {
        let aj = render_inner(ips, j, Seq::empty(), a).1;
        lemma_render_inner_grow(ips, j, ips.len() as int, a);
        lemma_intern_index_le(aj, vals);
        lemma_slot(intern_index(aj, vals));
    }
}

#[verifier::spinoff_prover]
proof fn lemma_inner_piece_match(ips: Seq<InnerV>, i0s: Seq<TokenV>, a: Seq<Seq<Seq<char>>>, sb: bool)
    requires
        inner_ready(ips, i0s, a),
        ips.len() >= 2,
        exists|j: int| 0 <= j < ips.len() && (#[trigger] ips[j]) is Param,
        forall|j: int| 0 <= j < ips.len() && (#[trigger] ips[j]) is Const ==> argv_number(i0s[j].value) is None,
        render_inner(ips, ips.len() as int, Seq::empty(), a).1.len() + 1 < usize::MAX,
    ensures
        ({
            let it = render_inner(ips, ips.len() as int, Seq::empty(), a).0;
            match_piece_of(TokenV { raw: seq!['"'] + it + seq!['"'], value: it, quote: Quote::Double, op: false, space_before: sb })
                == Some(MatchPieceV::Inner(Seq::new(ips.len(), |j: int| inner_expect(ips, a, j))))
        }),
{
    reveal(inner_ready);
    let rt = inner_rtoks(ips, i0s, a);
    let it = joined(rt, ips.len() as int);
    lemma_inner_joined(ips, i0s, a, ips.len() as int);
    lemma_inner_text(ips, i0s, a);
    assert(reads_clean(rt[0]) && reads_clean(rt[1]));
    lemma_joined_not_slot(rt);
    let j = choose|j: int| 0 <= j < ips.len() && (#[trigger] ips[j]) is Param;
    lemma_inner_text_mark(ips, i0s, a, j);
    let rr = reread(rt);
    assert forall|k: int| 0 <= k < ips.len() implies inner_match_of(#[trigger] rr[k]) == inner_expect(ips, a, k) by {
        lemma_inner_match(ips, i0s, a, k);
    }
    assert(Seq::new(rr.len(), |k: int| inner_match_of(rr[k])) =~= Seq::new(ips.len(), |k: int| inner_expect(ips, a, k)));
}


/// What column `c` needs for the matcher to read its token as the template meant:
/// a constant is no slot word, an inner template has two tokens or more, a slot,
/// and no constant slot word.
pub open spec fn column_clear(pieces: Seq<PieceV>, t0s: Seq<TokenV>, c: int) -> bool {
    match pieces[c] {
        PieceV::Const(_) => slot_free(t0s[c]),
        PieceV::Param(_) => true,
        PieceV::Inner(ips) => {
            &&& ips.len() >= 2
            &&& exists|j: int| 0 <= j < ips.len() && (#[trigger] ips[j]) is Param
            &&& forall|j: int| 0 <= j < ips.len() && (#[trigger] ips[j]) is Const
                ==> argv_number((tokens_of(t0s[c].value)->0)[j].value) is None
        },
    }
}

#[verifier::spinoff_prover]
proof fn lemma_outer_match(pieces: Seq<PieceV>, t0s: Seq<TokenV>, sp: Seq<bool>, c: int)
    requires
        0 <= c < pieces.len(),
        outer_fits(pieces, t0s, sp),
        column_ready(pieces, t0s, sp, c),
        column_clear(pieces, t0s, c),
    ensures
        match_piece_of(reread(outer_rtoks(pieces, t0s, sp))[c]) == Some(outer_expect(pieces, sp, c)),
{
    reveal(outer_rtok);
    reveal(column_ready);
    reveal(inner_ready);
    let rt = outer_rtoks(pieces, t0s, sp);
    let a = render(pieces, sp, c).1;
    assert(rt[c] == outer_rtok(pieces, t0s, sp, c));
    let sb = c > 0 && rt[c].space_before;
    match pieces[c] {
        PieceV::Const(_) => {},
        PieceV::Param(vals) => {
            lemma_intern_index_le(a, vals);
            lemma_slot(intern_index(a, vals));
        },
        PieceV::Inner(ips) => {
            let i0s = tokens_of(t0s[c].value)->0;
            assert(inner_fits(ips, i0s));
            lemma_inner_piece_match(ips, i0s, a, sb);
        },
    }
}

/// The matcher reads a template's body back as the template's columns.
#[verifier::spinoff_prover]
proof fn lemma_template_pieces(pieces: Seq<PieceV>, t0s: Seq<TokenV>, sp: Seq<bool>)
    requires
        pieces.len() > 0,
        outer_fits(pieces, t0s, sp),
        forall|c: int| 0 <= c < pieces.len() ==> column_ready(pieces, t0s, sp, c),
        forall|c: int| 0 <= c < pieces.len() ==> column_clear(pieces, t0s, c),
        apart(t0s),
    ensures
        template_pieces(render(pieces, sp, pieces.len() as int).0) == Some(Seq::new(pieces.len(), |c: int| outer_expect(pieces, sp, c))),
{
    lemma_body_tokens(pieces, t0s, sp);
    let ts = reread(outer_rtoks(pieces, t0s, sp));
    assert forall|c: int| 0 <= c < ts.len() implies #[trigger] match_piece_of(ts[c]) == Some(outer_expect(pieces, sp, c)) by {
        lemma_outer_match(pieces, t0s, sp, c);
    }
    assert(Seq::new(ts.len(), |k: int| match_piece_of(ts[k])->0) =~= Seq::new(pieces.len(), |c: int| outer_expect(pieces, sp, c)));
}


/// `x` is a prefix of `y`.
pub open spec fn prefix_of<A>(x: Seq<A>, y: Seq<A>) -> bool {
    x.len() <= y.len() && y.subrange(0, x.len() as int) == x
}

proof fn lemma_prefix_trans<A>(x: Seq<A>, y: Seq<A>, z: Seq<A>)
    requires
        prefix_of(x, y),
        prefix_of(y, z),
    ensures
        prefix_of(x, z),
{
    assert(z.subrange(0, x.len() as int) =~= y.subrange(0, x.len() as int));
}

/// Interning keeps the slots before it, and the index it gives holds the values.
proof fn lemma_interned_slot(a: Seq<Seq<Seq<char>>>, v: Seq<Seq<char>>)
    ensures
        prefix_of(a, interned(a, v)),
        intern_index(a, v) < interned(a, v).len(),
        interned(a, v)[intern_index(a, v) as int] == v,
    decreases a.len(),
{
    if a.contains(v) {
        assert(a.subrange(0, a.len() as int) =~= a);
        lemma_intern_index_found(a, v);
    } else {
        assert(interned(a, v).subrange(0, a.len() as int) =~= a);
        lemma_intern_index_absent(a, v);
    }
}

proof fn lemma_intern_index_absent(a: Seq<Seq<Seq<char>>>, v: Seq<Seq<char>>)
    requires
        !a.contains(v),
    ensures
        intern_index(a, v) == a.len(),
    decreases a.len(),
{
    if a.len() > 0 {
        assert(!a.drop_last().contains(v)) by {
            if a.drop_last().contains(v) {
                let k = choose|k: int| 0 <= k < a.drop_last().len() && a.drop_last()[k] == v;
                assert(a[k] == v);
            }
        }
        assert(a.last() != v) by {
            assert(a[a.len() - 1] == a.last());
        }
    }
}

proof fn lemma_intern_index_found(a: Seq<Seq<Seq<char>>>, v: Seq<Seq<char>>)
    requires
        a.contains(v),
    ensures
        intern_index(a, v) < a.len(),
        a[intern_index(a, v) as int] == v,
    decreases a.len(),
{
    if a.drop_last().contains(v) {
        lemma_intern_index_found(a.drop_last(), v);
        assert(a[intern_index(a, v) as int] == a.drop_last()[intern_index(a, v) as int]);
    } else {
        let k = choose|k: int| 0 <= k < a.len() && a[k] == v;
        if k < a.len() - 1 {
            assert(a.drop_last()[k] == v);
        }
    }
}

proof fn lemma_prefix_refl<A>(x: Seq<A>)
    ensures
        prefix_of(x, x),
{
    assert(x.subrange(0, x.len() as int) =~= x);
}

proof fn lemma_render_inner_step(ips: Seq<InnerV>, k: int, a: Seq<Seq<Seq<char>>>)
    requires
        0 < k <= ips.len(),
    ensures
        prefix_of(render_inner(ips, k - 1, Seq::empty(), a).1, render_inner(ips, k, Seq::empty(), a).1),
{
    let y = render_inner(ips, k - 1, Seq::empty(), a).1;
    if let InnerV::Param(vals, _, _) = ips[k - 1] {
        lemma_interned_slot(y, vals);
    } else {
        lemma_prefix_refl(y);
    }
}

proof fn lemma_render_inner_prefix(ips: Seq<InnerV>, j: int, k: int, a: Seq<Seq<Seq<char>>>)
    requires
        0 <= j <= k <= ips.len(),
    ensures
        prefix_of(render_inner(ips, j, Seq::empty(), a).1, render_inner(ips, k, Seq::empty(), a).1),
    decreases k,
{
    if j == k {
        lemma_prefix_refl(render_inner(ips, k, Seq::empty(), a).1);
    } else {
        lemma_render_inner_prefix(ips, j, k - 1, a);
        lemma_render_inner_step(ips, k, a);
        lemma_prefix_trans(render_inner(ips, j, Seq::empty(), a).1, render_inner(ips, k - 1, Seq::empty(), a).1,
            render_inner(ips, k, Seq::empty(), a).1);
    }
}

proof fn lemma_render_step(pieces: Seq<PieceV>, sp: Seq<bool>, k: int)
    requires
        0 < k <= pieces.len(),
    ensures
        prefix_of(render(pieces, sp, k - 1).1, render(pieces, sp, k).1),
{
    let (b, a) = render(pieces, sp, k - 1);
    let b1 = if k - 1 > 0 && sp[k - 1] { b.push(' ') } else { b };
    match pieces[k - 1] {
        PieceV::Const(_) => {
            lemma_prefix_refl(a);
        },
        PieceV::Param(vals) => {
            lemma_interned_slot(a, vals);
        },
        PieceV::Inner(ips) => {
            lemma_render_inner_append(ips, ips.len() as int, b1.push('"'), a);
            lemma_render_inner_prefix(ips, 0, ips.len() as int, a);
        },
    }
}

proof fn lemma_render_prefix(pieces: Seq<PieceV>, sp: Seq<bool>, j: int, k: int)
    requires
        0 <= j <= k <= pieces.len(),
    ensures
        prefix_of(render(pieces, sp, j).1, render(pieces, sp, k).1),
    decreases k,
{
    if j == k {
        lemma_prefix_refl(render(pieces, sp, k).1);
    } else {
        lemma_render_prefix(pieces, sp, j, k - 1);
        lemma_render_step(pieces, sp, k);
        lemma_prefix_trans(render(pieces, sp, j).1, render(pieces, sp, k - 1).1, render(pieces, sp, k).1);
    }
}

/// The slot a column's values get holds those values in the template's slot list.
proof fn lemma_param_slot(pieces: Seq<PieceV>, sp: Seq<bool>, c: int, vals: Seq<Seq<char>>)
    requires
        0 <= c < pieces.len(),
        pieces[c] == PieceV::Param(vals),
    ensures
        ({
            let argv = render(pieces, sp, pieces.len() as int).1;
            let idx = intern_index(render(pieces, sp, c).1, vals);
            idx < argv.len() && argv[idx as int] == vals
        }),
{
    let a = render(pieces, sp, c).1;
    lemma_interned_slot(a, vals);
    lemma_render_prefix(pieces, sp, c + 1, pieces.len() as int);
    let argv = render(pieces, sp, pieces.len() as int).1;
    let x = render(pieces, sp, c + 1).1;
    assert(argv.subrange(0, x.len() as int)[intern_index(a, vals) as int] == argv[intern_index(a, vals) as int]);
}

/// The slot an inner position's values get holds those values in the template's slot list.
proof fn lemma_inner_slot(pieces: Seq<PieceV>, sp: Seq<bool>, c: int, ips: Seq<InnerV>, j: int, vals: Seq<Seq<char>>)
    requires
        0 <= c < pieces.len(),
        pieces[c] == PieceV::Inner(ips),
        0 <= j < ips.len(),
        ips[j] matches InnerV::Param(v, _, _) && v == vals,
    ensures
        ({
            let argv = render(pieces, sp, pieces.len() as int).1;
            let idx = intern_index(render_inner(ips, j, Seq::empty(), render(pieces, sp, c).1).1, vals);
            idx < argv.len() && argv[idx as int] == vals
        }),
{
    let (b, a) = render(pieces, sp, c);
    let b1 = if c > 0 && sp[c] { b.push(' ') } else { b };
    let aj = render_inner(ips, j, Seq::empty(), a).1;
    lemma_interned_slot(aj, vals);
    lemma_render_inner_prefix(ips, j + 1, ips.len() as int, a);
    lemma_render_inner_append(ips, ips.len() as int, b1.push('"'), a);
    lemma_render_prefix(pieces, sp, c + 1, pieces.len() as int);
    let x = render_inner(ips, j + 1, Seq::empty(), a).1;
    let y = render(pieces, sp, c + 1).1;
    let argv = render(pieces, sp, pieces.len() as int).1;
    assert(y == render_inner(ips, ips.len() as int, Seq::empty(), a).1);
    lemma_prefix_trans(x, y, argv);
    let i = intern_index(aj, vals) as int;
    assert(argv.subrange(0, x.len() as int)[i] == argv[i]);
}


/// Every capture is a slot number of `argv` with the value member `mi` has there.
pub open spec fn canon(caps: Seq<(usize, Seq<char>)>, argv: Seq<Seq<Seq<char>>>, mi: int) -> bool {
    forall|k: int| 0 <= k < caps.len() ==> 1 <= (#[trigger] caps[k]).0 <= argv.len() && caps[k].1 == argv[caps[k].0 - 1][mi]
}

proof fn lemma_captured_canon(caps: Seq<(usize, Seq<char>)>, n: usize, v: Seq<char>, argv: Seq<Seq<Seq<char>>>, mi: int)
    requires
        canon(caps, argv, mi),
        1 <= n <= argv.len(),
        v == argv[n - 1][mi],
    ensures
        captured(caps, n, v) is Some,
        canon(captured(caps, n, v)->0, argv, mi),
{
    lemma_cap_scan_range(caps, n);
    let p = cap_scan(caps, n);
    if p < caps.len() && caps[p].0 == n {
        assert(canon(caps, argv, mi));
        assert(caps[p].1 == argv[n - 1][mi]);
    } else {
        let r = caps.insert(p, (n, v));
        assert forall|k: int| 0 <= k < r.len() implies 1 <= (#[trigger] r[k]).0 <= argv.len() && r[k].1 == argv[r[k].0 - 1][mi] by {
            if k < p {
                assert(r[k] == caps[k]);
            } else if k > p {
                assert(r[k] == caps[k - 1]);
            }
        }
    }
}

/// Member `mi`'s inner tokens `it` fit the inner template: constants have the same
/// raw text, and each slot's value is the member's value in the slot list `argv`.
pub open spec fn inner_member(ips: Seq<InnerV>, it: Seq<TokenV>, a: Seq<Seq<Seq<char>>>, argv: Seq<Seq<Seq<char>>>, mi: int) -> bool {
    forall|k: int| 0 <= k < ips.len() ==> match #[trigger] ips[k] {
        InnerV::Const(raw, _) => it[k].raw == raw,
        InnerV::Param(vals, _, _) => {
            let idx = intern_index(render_inner(ips, k, Seq::empty(), a).1, vals);
            &&& 0 <= mi < vals.len()
            &&& vals[mi] == it[k].value
            &&& idx < argv.len()
            &&& argv[idx as int] == vals
        },
    }
}

proof fn lemma_inner_canon(ips: Seq<InnerV>, it: Seq<TokenV>, caps: Seq<(usize, Seq<char>)>, j: int, a: Seq<Seq<Seq<char>>>, argv: Seq<Seq<Seq<char>>>, mi: int)
    requires
        0 <= j <= ips.len(),
        ips.len() <= it.len(),
        canon(caps, argv, mi),
        inner_member(ips, it, a, argv, mi),
        argv.len() < usize::MAX,
    ensures
        ({
            let im = Seq::new(ips.len(), |x: int| inner_expect(ips, a, x));
            &&& inner_upto(im, it, caps, j) is Some
            &&& canon(inner_upto(im, it, caps, j)->0, argv, mi)
        }),
    decreases j,
{
    if j > 0 {
        lemma_inner_canon(ips, it, caps, j - 1, a, argv, mi);
        let im = Seq::new(ips.len(), |x: int| inner_expect(ips, a, x));
        let c0 = inner_upto(im, it, caps, j - 1)->0;
        assert(im[j - 1] == inner_expect(ips, a, j - 1));
        match ips[j - 1] {
            InnerV::Const(raw, _) => {},
            InnerV::Param(vals, _, _) => {
                let idx = intern_index(render_inner(ips, j - 1, Seq::empty(), a).1, vals);
                lemma_captured_canon(c0, (idx + 1) as usize, it[j - 1].value, argv, mi);
            },
        }
    }
}

/// Member `mi`'s token `t` fits column `c`: a constant has the same raw text, a
/// slot's value is the member's value in the slot list `argv`, and an inner word is
/// double-quoted with inner tokens that fit.
pub open spec fn column_member(pieces: Seq<PieceV>, sp: Seq<bool>, c: int, t: TokenV, argv: Seq<Seq<Seq<char>>>, mi: int) -> bool {
    match pieces[c] {
        PieceV::Const(raw) => t.raw == raw,
        PieceV::Param(vals) => {
            let idx = intern_index(render(pieces, sp, c).1, vals);
            &&& 0 <= mi < vals.len()
            &&& vals[mi] == t.value
            &&& idx < argv.len()
            &&& argv[idx as int] == vals
        },
        PieceV::Inner(ips) => {
            &&& t.quote == Quote::Double
            &&& tokens_of(t.value) is Some
            &&& (tokens_of(t.value)->0).len() == ips.len()
            &&& inner_member(ips, tokens_of(t.value)->0, render(pieces, sp, c).1, argv, mi)
        },
    }
}

proof fn lemma_match_canon(pieces: Seq<PieceV>, sp: Seq<bool>, input: Seq<TokenV>, k: int, argv: Seq<Seq<Seq<char>>>, mi: int)
    requires
        0 <= k <= pieces.len(),
        pieces.len() <= input.len(),
        forall|c: int| 0 <= c < pieces.len() ==> column_member(pieces, sp, c, #[trigger] input[c], argv, mi),
        argv.len() < usize::MAX,
    ensures
        ({
            let eps = Seq::new(pieces.len(), |c: int| outer_expect(pieces, sp, c));
            &&& match_upto(eps, input, k) is Some
            &&& canon(match_upto(eps, input, k)->0, argv, mi)
        }),
    decreases k,
{
    if k > 0 {
        lemma_match_canon(pieces, sp, input, k - 1, argv, mi);
        let eps = Seq::new(pieces.len(), |c: int| outer_expect(pieces, sp, c));
        let c0 = match_upto(eps, input, k - 1)->0;
        assert(eps[k - 1] == outer_expect(pieces, sp, k - 1));
        assert(column_member(pieces, sp, k - 1, input[k - 1], argv, mi));
        match pieces[k - 1] {
            PieceV::Const(raw) => {},
            PieceV::Param(vals) => {
                let idx = intern_index(render(pieces, sp, k - 1).1, vals);
                lemma_captured_canon(c0, (idx + 1) as usize, input[k - 1].value, argv, mi);
            },
            PieceV::Inner(ips) => {
                let it = tokens_of(input[k - 1].value)->0;
                lemma_inner_canon(ips, it, c0, ips.len() as int, render(pieces, sp, k - 1).1, argv, mi);
            },
        }
    }
}


/// The token lists of the items of cluster `cl` are what the tokenizer gives for
/// their commands.
pub open spec fn tokens_kept(items: Seq<(String, Vec<Token>)>, cl: Seq<usize>) -> bool {
    forall|k: int| 0 <= k < cl.len() ==> {
        &&& 0 <= #[trigger] cl[k] < items.len()
        &&& tokens_of(items[cl[k] as int].0@) == Some(item_toks(items, cl[k] as int))
    }
}

/// The members of a cluster that makes a template: there are some, each has the
/// tokens the tokenizer gives for its command, all as many as the first.
proof fn lemma_member_tokens(items: Seq<(String, Vec<Token>)>, cl: Seq<usize>, min_uses: nat)
    requires
        tokens_kept(items, cl),
        template_of(items, cl, min_uses) is Some,
    ensures
        ({
            let members = members_of(items, cl);
            let toks = member_toks(items, members);
            &&& members.len() > 0
            &&& toks.len() == members.len()
            &&& forall|k: int| 0 <= k < toks.len() ==> {
                &&& (#[trigger] toks[k]).len() == toks[0].len()
                &&& tokens_of(items[members[k] as int].0@) == Some(toks[k])
            }
        }),
{
    let members = members_of(items, cl);
    let toks = member_toks(items, members);
    let l_best = choose|l: nat| best_len(items, cl, l);
    let f = |i: usize| item_toks(items, i as int).len() == l_best;
    assert(members == cl.filter(f));
    if members.len() == 0 {
        let l = toks[0].len();
        let pieces = Seq::new(l, |c: int| (col_piece(toks, c)->0).0);
        let spaces = Seq::new(l, |c: int| toks[0][c].space_before);
        assert forall|c: int| 0 <= c < l implies (#[trigger] pieces[c]) is Const by {
            assert(same_raw(column(toks, c)));
        }
        assert forall|c: int| 0 <= c < l implies (#[trigger] col_piece(toks, c)) is Some by {
            assert(same_raw(column(toks, c)));
        }
        lemma_render_consts(pieces, spaces, l as int);
    }
    assert forall|k: int| 0 <= k < toks.len() implies {
        &&& (#[trigger] toks[k]).len() == toks[0].len()
        &&& tokens_of(items[members[k] as int].0@) == Some(toks[k])
    } by {
        assert(members.contains(members[k]));
        cl.lemma_filter_contains_rev(f, members[k]);
        let j = choose|j: int| 0 <= j < cl.len() && cl[j] == members[k];
        assert(tokens_kept(items, cl));
        assert(0 <= cl[j] < items.len());
        cl.lemma_filter_pred(f, k);
        cl.lemma_filter_pred(f, 0);
    }
}


/// The tokens of the members of cluster `cl` that take part in its template.
pub open spec fn cl_toks(items: Seq<(String, Vec<Token>)>, cl: Seq<usize>) -> Seq<Seq<TokenV>> {
    member_toks(items, members_of(items, cl))
}

/// The columns of the template of cluster `cl`.
#[verifier::opaque]
pub open spec fn cl_pieces(items: Seq<(String, Vec<Token>)>, cl: Seq<usize>) -> Seq<PieceV> {
    let toks = cl_toks(items, cl);
    Seq::new(toks[0].len(), |c: int| (col_piece(toks, c)->0).0)
}

/// The leading-space flags of the first member's tokens.
pub open spec fn cl_spaces(items: Seq<(String, Vec<Token>)>, cl: Seq<usize>) -> Seq<bool> {
    let toks = cl_toks(items, cl);
    Seq::new(toks[0].len(), |c: int| toks[0][c].space_before)
}

proof fn lemma_template_parts(items: Seq<(String, Vec<Token>)>, cl: Seq<usize>, min_uses: nat)
    requires
        template_of(items, cl, min_uses) is Some,
    ensures
        ({
            let t = template_of(items, cl, min_uses)->0;
            let toks = cl_toks(items, cl);
            let pieces = cl_pieces(items, cl);
            let sp = cl_spaces(items, cl);
            &&& t.members == members_of(items, cl)
            &&& t.pieces == pieces
            &&& t.body == render(pieces, sp, pieces.len() as int).0
            &&& t.argv == render(pieces, sp, pieces.len() as int).1
            &&& t.argv.len() <= MAX_PARAMS
            &&& forall|c: int| 0 <= c < toks[0].len() ==> (#[trigger] col_piece(toks, c)) is Some
        }),
{
    reveal(cl_pieces);
}

/// The first member's command reads back as its tokens, and so do the words inside
/// its double-quoted tokens.
proof fn lemma_first_tokens(items: Seq<(String, Vec<Token>)>, cl: Seq<usize>, min_uses: nat)
    requires
        tokens_kept(items, cl),
        template_of(items, cl, min_uses) is Some,
    ensures
        ({
            let toks = cl_toks(items, cl);
            &&& toks.len() > 0
            &&& toks[0].len() > 0
            &&& forall|k: int| 0 <= k < toks.len() ==> (#[trigger] toks[k]).len() == toks[0].len()
            &&& forall|c: int| 0 <= c < toks[0].len() ==> well_read(#[trigger] toks[0][c])
            &&& apart(toks[0])
        }),
{
    lemma_member_tokens(items, cl, min_uses);
    let members = members_of(items, cl);
    let toks = cl_toks(items, cl);
    let cmd = items[members[0] as int].0@;
    assert(tokens_of(cmd) == Some(toks[0]));
    lemma_lex_facts(cmd, 0, false);
    assert(lex_facts(cmd, 0, false));
}


/// What an inner template is made of: the column's tokens are plain double-quoted
/// words whose texts tokenize into as many tokens, at least two, none at a bad
/// position, and the template holds a piece for each position.
#[verifier::opaque]
pub open spec fn inner_parts(ct: Seq<TokenV>, ips: Seq<InnerV>) -> bool {
    let inners = inner_toks(ct);
    &&& ips.len() >= 2
    &&& ips == Seq::new(ips.len(), |j: int| inner_piece(inners, j))
    &&& forall|k: int| 0 <= k < ct.len() ==> plain_double_quoted(#[trigger] ct[k])
    &&& forall|k: int| 0 <= k < ct.len() ==> (#[trigger] tokens_of(ct[k].value)) is Some
    &&& inners.len() == ct.len()
    &&& forall|k: int| 0 <= k < inners.len() ==> (#[trigger] inners[k]).len() == ips.len()
    &&& forall|j: int| 0 <= j < ips.len() ==> !(#[trigger] inner_bad(inners, j))
}

/// What a column of a template is made of.
pub open spec fn piece_facts(toks: Seq<Seq<TokenV>>, c: int, p: PieceV) -> bool {
    match p {
        PieceV::Const(raw) => same_raw(column(toks, c)) && raw == column(toks, c)[0].raw,
        PieceV::Param(vals) => !same_raw(column(toks, c)) && !any_op(column(toks, c)) && vals == values(column(toks, c)),
        PieceV::Inner(ips) => !same_raw(column(toks, c)) && !any_op(column(toks, c)) && inner_parts(column(toks, c), ips),
    }
}

proof fn lemma_inner_template_parts(ct: Seq<TokenV>, ips: Seq<InnerV>, words: Seq<Seq<char>>)
    requires
        inner_template(ct) == Some((ips, words)),
    ensures
        inner_parts(ct, ips),
{
    reveal(inner_parts);
}

#[verifier::spinoff_prover]
proof fn lemma_cl_piece(items: Seq<(String, Vec<Token>)>, cl: Seq<usize>, min_uses: nat, c: int)
    requires
        template_of(items, cl, min_uses) is Some,
        0 <= c < cl_pieces(items, cl).len(),
    ensures
        cl_pieces(items, cl).len() == cl_toks(items, cl)[0].len(),
        piece_facts(cl_toks(items, cl), c, cl_pieces(items, cl)[c]),
{
    reveal(cl_pieces);
    let toks = cl_toks(items, cl);
    lemma_template_parts(items, cl, min_uses);
    assert(col_piece(toks, c) is Some);
    let ct = column(toks, c);
    if !same_raw(ct) && !any_op(ct) {
        if let Some((ips, words)) = inner_template(ct) {
            lemma_inner_template_parts(ct, ips, words);
        }
    }
}

proof fn lemma_inner_piece_fits(inners: Seq<Seq<TokenV>>, j: int)
    requires
        inners.len() > 0,
        !inner_bad(inners, j),
    ensures
        match inner_piece(inners, j) {
            InnerV::Const(raw, sp) => {
                &&& raw == inners[0][j].raw
                &&& sp == inners[0][j].space_before
                &&& forall|x: int| 0 <= x < raw.len() ==> dq_safe(#[trigger] raw[x])
            },
            InnerV::Param(_, _, sp) => sp == inners[0][j].space_before && !inners[0][j].op,
        },
{
    let cj = column(inners, j);
    assert(cj[0] == inners[0][j]);
    if same_raw(cj) {
        assert forall|x: int| 0 <= x < cj[0].raw.len() implies dq_safe(#[trigger] cj[0].raw[x]) by {
            assert(cj[0].raw.contains(cj[0].raw[x]));
        }
    } else {
        assert(!any_op(cj));
    }
}

/// The inner template of an inner column fits the first member's inner tokens.
#[verifier::spinoff_prover]
proof fn lemma_inner_column_fits(ct: Seq<TokenV>, ips: Seq<InnerV>)
    requires
        ct.len() > 0,
        inner_parts(ct, ips),
    ensures
        ({
            let i0s = tokens_of(ct[0].value)->0;
            &&& tokens_of(ct[0].value) is Some
            &&& ips.len() == i0s.len()
            &&& ips.len() >= 2
            &&& inner_fits(ips, i0s)
            &&& forall|j: int| 0 <= j < ips.len() && (#[trigger] ips[j]) is Const ==> forall|x: int|
                0 <= x < i0s[j].raw.len() ==> dq_safe(#[trigger] i0s[j].raw[x])
        }),
{
    reveal(inner_parts);
    let inners = inner_toks(ct);
    let i0s = inners[0];
    assert(tokens_of(ct[0].value) is Some);
    assert(i0s == tokens_of(ct[0].value)->0);
    assert forall|j: int| 0 <= j < ips.len() implies match #[trigger] ips[j] {
        InnerV::Const(raw, sp) => raw == i0s[j].raw && sp == i0s[j].space_before,
        InnerV::Param(_, _, sp) => sp == i0s[j].space_before && !i0s[j].op,
    } by {
        assert(ips[j] == inner_piece(inners, j));
        lemma_inner_piece_fits(inners, j);
    }
    assert forall|j: int| 0 <= j < ips.len() && (#[trigger] ips[j]) is Const implies forall|x: int|
        0 <= x < i0s[j].raw.len() ==> dq_safe(#[trigger] i0s[j].raw[x]) by {
        assert(ips[j] == inner_piece(inners, j));
        lemma_inner_piece_fits(inners, j);
    }
}

/// What the proof needs of a cluster that makes a template: its members' tokens,
/// the columns' makeup, and at most `MAX_PARAMS` slots.
#[verifier::opaque]
pub open spec fn tfacts(items: Seq<(String, Vec<Token>)>, cl: Seq<usize>) -> bool {
    let toks = cl_toks(items, cl);
    let pieces = cl_pieces(items, cl);
    let sp = cl_spaces(items, cl);
    &&& toks.len() > 0
    &&& toks.len() == members_of(items, cl).len()
    &&& pieces.len() == toks[0].len()
    &&& pieces.len() > 0
    &&& forall|k: int| 0 <= k < toks.len() ==> (#[trigger] toks[k]).len() == toks[0].len()
    &&& forall|c: int| 0 <= c < toks[0].len() ==> well_read(#[trigger] toks[0][c])
    &&& apart(toks[0])
    &&& render(pieces, sp, pieces.len() as int).1.len() <= MAX_PARAMS
    &&& forall|c: int| 0 <= c < pieces.len() ==> piece_facts(toks, c, #[trigger] pieces[c])
}

#[verifier::spinoff_prover]
#[verifier::rlimit(40)]
proof fn lemma_tfacts(items: Seq<(String, Vec<Token>)>, cl: Seq<usize>, min_uses: nat)
    requires
        tokens_kept(items, cl),
        template_of(items, cl, min_uses) is Some,
    ensures
        tfacts(items, cl),
{
    reveal(tfacts);
    lemma_member_tokens(items, cl, min_uses);
    lemma_template_parts(items, cl, min_uses);
    lemma_first_tokens(items, cl, min_uses);
    let pieces = cl_pieces(items, cl);
    assert forall|c: int| 0 <= c < pieces.len() implies piece_facts(cl_toks(items, cl), c, #[trigger] pieces[c]) by {
        lemma_cl_piece(items, cl, min_uses, c);
    }
    if pieces.len() > 0 {
        lemma_cl_piece(items, cl, min_uses, 0);
    }
}

#[verifier::spinoff_prover]
#[verifier::rlimit(80)]
proof fn lemma_inner_ready_of(ct: Seq<TokenV>, ips: Seq<InnerV>, a: Seq<Seq<Seq<char>>>)
    requires
        ct.len() > 0,
        inner_parts(ct, ips),
        render_inner(ips, ips.len() as int, Seq::empty(), a).1.len() + 1 < usize::MAX,
    ensures
        inner_ready(ips, tokens_of(ct[0].value)->0, a),
{
    reveal(inner_ready);
    let i0s = tokens_of(ct[0].value)->0;
    lemma_inner_column_fits(ct, ips);
    lemma_tokens_read(ct[0].value, i0s);
    lemma_inner_rtoks_read(ips, i0s, a);
}

/// The inner template of an inner column is ready to read back.
#[verifier::spinoff_prover]
proof fn lemma_column_inner_ready(items: Seq<(String, Vec<Token>)>, cl: Seq<usize>, c: int, ips: Seq<InnerV>)
    requires
        tfacts(items, cl),
        0 <= c < cl_pieces(items, cl).len(),
        cl_pieces(items, cl)[c] == PieceV::Inner(ips),
    ensures
        inner_ready(ips, tokens_of(cl_toks(items, cl)[0][c].value)->0, render(cl_pieces(items, cl), cl_spaces(items, cl), c).1),
{
    reveal(tfacts);
    let toks = cl_toks(items, cl);
    let pieces = cl_pieces(items, cl);
    let sp = cl_spaces(items, cl);
    let l = pieces.len() as int;
    let a = render(pieces, sp, c).1;
    let ct = column(toks, c);
    assert(ct[0] == toks[0][c]);
    assert(piece_facts(toks, c, pieces[c]));
    let (b, _) = render(pieces, sp, c);
    let b1 = if c > 0 && sp[c] { b.push(' ') } else { b };
    lemma_render_inner_append(ips, ips.len() as int, b1.push('"'), a);
    lemma_render_prefix(pieces, sp, c + 1, l);
    lemma_inner_ready_of(ct, ips, a);
}

/// Each column of a template is ready to read back.
#[verifier::spinoff_prover]
proof fn lemma_column_ready(items: Seq<(String, Vec<Token>)>, cl: Seq<usize>, c: int)
    requires
        tfacts(items, cl),
        0 <= c < cl_pieces(items, cl).len(),
    ensures
        column_ready(cl_pieces(items, cl), cl_toks(items, cl)[0], cl_spaces(items, cl), c),
{
    reveal(column_ready);
    reveal(tfacts);
    let toks = cl_toks(items, cl);
    let pieces = cl_pieces(items, cl);
    let sp = cl_spaces(items, cl);
    let l = pieces.len() as int;
    lemma_render_prefix(pieces, sp, c, l);
    let ct = column(toks, c);
    assert(ct[0] == toks[0][c]);
    assert(piece_facts(toks, c, pieces[c]));
    if !(pieces[c] is Const) {
        assert(!any_op(ct));
    }
    if let PieceV::Inner(ips) = pieces[c] {
        lemma_column_inner_ready(items, cl, c, ips);
    }
}


proof fn lemma_inner_member_of(ct: Seq<TokenV>, ips: Seq<InnerV>, mi: int, pieces: Seq<PieceV>, sp: Seq<bool>, c: int)
    requires
        inner_parts(ct, ips),
        0 <= mi < ct.len(),
        0 <= c < pieces.len(),
        pieces[c] == PieceV::Inner(ips),
    ensures
        ct[mi].quote == Quote::Double,
        tokens_of(ct[mi].value) is Some,
        (tokens_of(ct[mi].value)->0).len() == ips.len(),
        inner_member(ips, tokens_of(ct[mi].value)->0, render(pieces, sp, c).1, render(pieces, sp, pieces.len() as int).1, mi),
{
    reveal(inner_parts);
    let inners = inner_toks(ct);
    let it = inners[mi];
    assert(plain_double_quoted(ct[mi]));
    assert(tokens_of(ct[mi].value) is Some);
    assert(it == tokens_of(ct[mi].value)->0);
    let a = render(pieces, sp, c).1;
    let argv = render(pieces, sp, pieces.len() as int).1;
    assert forall|k: int| 0 <= k < ips.len() implies match #[trigger] ips[k] {
        InnerV::Const(raw, _) => it[k].raw == raw,
        InnerV::Param(vals, _, _) => {
            let idx = intern_index(render_inner(ips, k, Seq::empty(), a).1, vals);
            &&& 0 <= mi < vals.len()
            &&& vals[mi] == it[k].value
            &&& idx < argv.len()
            &&& argv[idx as int] == vals
        },
    } by {
        assert(ips[k] == inner_piece(inners, k));
        let cj = column(inners, k);
        assert(cj[mi] == it[k]);
        if let InnerV::Param(vals, _, _) = ips[k] {
            lemma_inner_slot(pieces, sp, c, ips, k, vals);
        }
    }
}

/// Member `mi`'s token in column `c` fits the column.
#[verifier::spinoff_prover]
proof fn lemma_column_member(items: Seq<(String, Vec<Token>)>, cl: Seq<usize>, c: int, mi: int)
    requires
        tfacts(items, cl),
        0 <= c < cl_pieces(items, cl).len(),
        0 <= mi < cl_toks(items, cl).len(),
    ensures
        ({
            let pieces = cl_pieces(items, cl);
            let sp = cl_spaces(items, cl);
            column_member(pieces, sp, c, cl_toks(items, cl)[mi][c], render(pieces, sp, pieces.len() as int).1, mi)
        }),
{
    reveal(tfacts);
    let toks = cl_toks(items, cl);
    let pieces = cl_pieces(items, cl);
    let sp = cl_spaces(items, cl);
    let ct = column(toks, c);
    assert(piece_facts(toks, c, pieces[c]));
    assert(ct[mi] == toks[mi][c]);
    assert(ct[0] == toks[0][c]);
    match pieces[c] {
        PieceV::Const(raw) => {},
        PieceV::Param(vals) => {
            lemma_param_slot(pieces, sp, c, vals);
        },
        PieceV::Inner(ips) => {
            lemma_inner_member_of(ct, ips, mi, pieces, sp, c);
        },
    }
}


#[verifier::spinoff_prover]
#[verifier::rlimit(100)]
proof fn lemma_outer_fits_cl(items: Seq<(String, Vec<Token>)>, cl: Seq<usize>)
    requires
        tfacts(items, cl),
    ensures
        outer_fits(cl_pieces(items, cl), cl_toks(items, cl)[0], cl_spaces(items, cl)),
        apart(cl_toks(items, cl)[0]),
        cl_pieces(items, cl).len() > 0,
        render(cl_pieces(items, cl), cl_spaces(items, cl), cl_pieces(items, cl).len() as int).1.len() <= MAX_PARAMS,
        forall|k: int| 0 <= k < cl_toks(items, cl).len() ==> (#[trigger] cl_toks(items, cl)[k]).len() == cl_pieces(items, cl).len(),
{
    reveal(tfacts);
    let toks = cl_toks(items, cl);
    let pieces = cl_pieces(items, cl);
    assert forall|c: int| 0 <= c < pieces.len() implies match #[trigger] pieces[c] {
        PieceV::Const(raw) => raw == toks[0][c].raw,
        _ => true,
    } by {
        assert(piece_facts(toks, c, pieces[c]));
        assert(column(toks, c)[0] == toks[0][c]);
    }
}

#[verifier::spinoff_prover]
#[verifier::rlimit(100)]
proof fn lemma_recognize_core(items: Seq<(String, Vec<Token>)>, cl: Seq<usize>, mi: int)
    requires
        tfacts(items, cl),
        0 <= mi < cl_toks(items, cl).len(),
        forall|c: int| 0 <= c < cl_pieces(items, cl).len() ==> column_clear(cl_pieces(items, cl), cl_toks(items, cl)[0], c),
    ensures
        ({
            let pieces = cl_pieces(items, cl);
            let sp = cl_spaces(items, cl);
            let body = render(pieces, sp, pieces.len() as int).0;
            let argv = render(pieces, sp, pieces.len() as int).1;
            &&& template_pieces(body) == Some(Seq::new(pieces.len(), |c: int| outer_expect(pieces, sp, c)))
            &&& match_result(template_pieces(body)->0, cl_toks(items, cl)[mi]) is Some
            &&& canon(match_result(template_pieces(body)->0, cl_toks(items, cl)[mi])->0, argv, mi)
        }),
{
    let toks = cl_toks(items, cl);
    let pieces = cl_pieces(items, cl);
    let sp = cl_spaces(items, cl);
    let l = pieces.len() as int;
    let argv = render(pieces, sp, l).1;
    lemma_outer_fits_cl(items, cl);
    assert forall|c: int| 0 <= c < pieces.len() implies column_ready(pieces, toks[0], sp, c) by {
        lemma_column_ready(items, cl, c);
    }
    lemma_template_pieces(pieces, toks[0], sp);
    let input = toks[mi];
    assert(input.len() == l);
    assert forall|c: int| 0 <= c < pieces.len() implies column_member(pieces, sp, c, #[trigger] input[c], argv, mi) by {
        lemma_column_member(items, cl, c, mi);
    }
    lemma_match_canon(pieces, sp, input, l, argv, mi);
}

/// A mined template recognizes each command it was made from: the matcher reads the
/// template back from its body, the command matches it, and the match gives back,
/// slot by slot, that command's own values, which are its arguments. This holds when
/// the token lists are the tokenizer's, and no constant of the template reads as a
/// slot: no constant word is `$argv[N]` or a double-quoted word holding `$argv[`,
/// every inner template has a slot, and no inner constant is `$argv[N]`.
pub proof fn lemma_template_recognizes_members(
    items: Seq<(String, Vec<Token>)>,
    cl: Seq<usize>,
    min_uses: nat,
    mi: int,
)
    requires
        tokens_kept(items, cl),
        template_of(items, cl, min_uses) is Some,
        0 <= mi < (template_of(items, cl, min_uses)->0).members.len(),
        forall|c: int| 0 <= c < (template_of(items, cl, min_uses)->0).pieces.len() ==> column_clear(
            (template_of(items, cl, min_uses)->0).pieces,
            member_toks(items, (template_of(items, cl, min_uses)->0).members)[0],
            c,
        ),
    ensures
        ({
            let t = template_of(items, cl, min_uses)->0;
            let input = item_toks(items, t.members[mi] as int);
            &&& template_pieces(t.body) is Some
            &&& match_result(template_pieces(t.body)->0, input) == Some(member_args(t.argv, mi))
        }),
{
    lemma_tfacts(items, cl, min_uses);
    lemma_template_parts(items, cl, min_uses);
    reveal(tfacts);
    lemma_recognize_core(items, cl, mi);
    lemma_correlated_slots_shared(items, cl, min_uses);
    let t = template_of(items, cl, min_uses)->0;
    let input = item_toks(items, t.members[mi] as int);
    assert(cl_toks(items, cl)[mi] == input);
    lemma_recognize_exact(cl_pieces(items, cl), cl_spaces(items, cl), input, mi);
}

/// The arguments member `mi` gives the slots `argv`, by slot number.
pub open spec fn member_args(argv: Seq<Seq<Seq<char>>>, mi: int) -> Seq<(usize, Seq<char>)> {
    Seq::new(argv.len(), |k: int| ((k + 1) as usize, argv[k][mi]))
}

/// Some capture is for slot number `n`.
pub open spec fn has_slot(caps: Seq<(usize, Seq<char>)>, n: int) -> bool {
    exists|q: int| 0 <= q < caps.len() && (#[trigger] caps[q]).0 == n
}

proof fn lemma_increasing_lower(caps: Seq<(usize, Seq<char>)>, k: int)
    requires
        slots_increasing(caps),
        forall|q: int| 0 <= q < caps.len() ==> 1 <= (#[trigger] caps[q]).0,
        0 <= k < caps.len(),
    ensures
        caps[k].0 >= k + 1,
    decreases k,
{
    if k > 0 {
        lemma_increasing_lower(caps, k - 1);
        assert(caps[k - 1].0 < caps[k].0);
    }
}

/// Captures with increasing slot numbers, each a slot of `argv` with member `mi`'s
/// value, and every slot present, are exactly the member's arguments.
proof fn lemma_exact_caps(caps: Seq<(usize, Seq<char>)>, argv: Seq<Seq<Seq<char>>>, mi: int)
    requires
        argv.len() < usize::MAX,
        canon(caps, argv, mi),
        slots_increasing(caps),
        forall|n: int| 1 <= n <= argv.len() ==> #[trigger] has_slot(caps, n),
    ensures
        caps == member_args(argv, mi),
{
    let m = argv.len() as int;
    assert forall|q: int| 0 <= q < caps.len() implies 1 <= (#[trigger] caps[q]).0 by {
        assert(canon(caps, argv, mi));
    }
    assert forall|k: int| 0 <= k < caps.len() implies (#[trigger] caps[k]).0 == k + 1 by {
        lemma_exact_index(caps, argv, mi, k);
    }
    if caps.len() < m {
        assert(has_slot(caps, m));
        let q = choose|q: int| 0 <= q < caps.len() && (#[trigger] caps[q]).0 == m;
        assert(caps[q].0 == q + 1);
    }
    if caps.len() > m {
        assert(caps[m].0 == m + 1);
        assert(canon(caps, argv, mi));
    }
    assert(caps.len() == m);
    assert forall|k: int| 0 <= k < m implies #[trigger] caps[k] == member_args(argv, mi)[k] by {
        assert(caps[k].0 == k + 1);
        assert(canon(caps, argv, mi));
    }
    assert(caps =~= member_args(argv, mi));
}

proof fn lemma_exact_index(caps: Seq<(usize, Seq<char>)>, argv: Seq<Seq<Seq<char>>>, mi: int, k: int)
    requires
        canon(caps, argv, mi),
        slots_increasing(caps),
        forall|q: int| 0 <= q < caps.len() ==> 1 <= (#[trigger] caps[q]).0,
        forall|n: int| 1 <= n <= argv.len() ==> #[trigger] has_slot(caps, n),
        0 <= k < caps.len(),
    ensures
        caps[k].0 == k + 1,
    decreases k,
{
    lemma_increasing_lower(caps, k);
    let v = caps[k].0;
    if v > k + 1 {
        assert(v <= argv.len());
        assert(has_slot(caps, k + 1));
        let j = choose|j: int| 0 <= j < caps.len() && (#[trigger] caps[j]).0 == k + 1;
        if j < k {
            lemma_exact_index(caps, argv, mi, j);
        } else if j > k {
            assert(caps[k].0 < caps[j].0);
        }
    }
}


/// Each slot of the template is captured by a match that agrees with every column.
proof fn lemma_slot_present(pieces: Seq<PieceV>, sp: Seq<bool>, input: Seq<TokenV>, caps: Seq<(usize, Seq<char>)>, k: int)
    requires
        render(pieces, sp, pieces.len() as int).1.no_duplicates(),
        0 <= k < render(pieces, sp, pieces.len() as int).1.len(),
        exists|c: int| 0 <= c < pieces.len() && piece_slot_for(#[trigger] pieces[c], render(pieces, sp, pieces.len() as int).1[k]),
        forall|c: int| 0 <= c < pieces.len() ==> piece_agrees(#[trigger] outer_expect(pieces, sp, c), input[c], caps),
        render(pieces, sp, pieces.len() as int).1.len() < usize::MAX,
    ensures
        has_slot(caps, k + 1),
{
    let argv = render(pieces, sp, pieces.len() as int).1;
    let x = argv[k];
    let c = choose|c: int| 0 <= c < pieces.len() && piece_slot_for(#[trigger] pieces[c], x);
    assert(piece_agrees(outer_expect(pieces, sp, c), input[c], caps));
    match pieces[c] {
        PieceV::Const(_) => {},
        PieceV::Param(vals) => {
            lemma_param_slot(pieces, sp, c, vals);
            let idx = intern_index(render(pieces, sp, c).1, vals);
            assert(argv[idx as int] == argv[k]);
            assert(idx == k);
            assert(caps.contains(((idx + 1) as usize, input[c].value)));
            let q = choose|q: int| 0 <= q < caps.len() && caps[q] == ((idx + 1) as usize, input[c].value);
            assert(caps[q].0 == k + 1);
        },
        PieceV::Inner(ips) => {
            let j = choose|j: int| 0 <= j < ips.len() && inner_slot_for(#[trigger] ips[j], x);
            let a = render(pieces, sp, c).1;
            let im = Seq::new(ips.len(), |jj: int| inner_expect(ips, a, jj));
            let it = tokens_of(input[c].value)->0;
            assert(im[j] == inner_expect(ips, a, j));
            assert(inner_agrees(im[j], it[j], caps));
            if let InnerV::Param(vals, _, _) = ips[j] {
                lemma_inner_slot(pieces, sp, c, ips, j, vals);
                let idx = intern_index(render_inner(ips, j, Seq::empty(), a).1, vals);
                assert(argv[idx as int] == argv[k]);
                assert(idx == k);
                assert(caps.contains(((idx + 1) as usize, it[j].value)));
                let q = choose|q: int| 0 <= q < caps.len() && caps[q] == ((idx + 1) as usize, it[j].value);
                assert(caps[q].0 == k + 1);
            }
        },
    }
}

#[verifier::spinoff_prover]
#[verifier::rlimit(60)]
proof fn lemma_recognize_exact(pieces: Seq<PieceV>, sp: Seq<bool>, input: Seq<TokenV>, mi: int)
    requires
        render(pieces, sp, pieces.len() as int).1.no_duplicates(),
        forall|x: Seq<Seq<char>>| #[trigger] render(pieces, sp, pieces.len() as int).1.contains(x) ==> exists|c: int|
            0 <= c < pieces.len() && piece_slot_for(#[trigger] pieces[c], x),
        render(pieces, sp, pieces.len() as int).1.len() < usize::MAX,
        match_result(Seq::new(pieces.len(), |c: int| outer_expect(pieces, sp, c)), input) is Some,
        canon(match_result(Seq::new(pieces.len(), |c: int| outer_expect(pieces, sp, c)), input)->0,
            render(pieces, sp, pieces.len() as int).1, mi),
    ensures
        match_result(Seq::new(pieces.len(), |c: int| outer_expect(pieces, sp, c)), input)
            == Some(member_args(render(pieces, sp, pieces.len() as int).1, mi)),
{
    let argv = render(pieces, sp, pieces.len() as int).1;
    let ps = Seq::new(pieces.len(), |c: int| outer_expect(pieces, sp, c));
    let caps = match_result(ps, input)->0;
    lemma_match_agrees(ps, input);
    assert forall|c: int| 0 <= c < pieces.len() implies piece_agrees(#[trigger] outer_expect(pieces, sp, c), input[c], caps) by {
        assert(ps[c] == outer_expect(pieces, sp, c));
    }
    assert forall|n: int| 1 <= n <= argv.len() implies #[trigger] has_slot(caps, n) by {
        assert(argv.contains(argv[n - 1]));
        lemma_slot_present(pieces, sp, input, caps, n - 1);
    }
    lemma_exact_caps(caps, argv, mi);
}


/// The call a function's name makes with captured values: the name, then each value
/// quoted, separated by spaces.
pub open spec fn call_line(name: Seq<char>, caps: Seq<(usize, Seq<char>)>) -> Seq<char>
    decreases caps.len(),
{
    if caps.len() == 0 {
        name
    } else {
        call_line(name, caps.drop_last()).push(' ') + quoted(caps.last().1)
    }
}

proof fn lemma_try_line_call(name: Seq<char>, argv: Seq<Seq<Seq<char>>>)
    ensures
        try_line(name, argv) == call_line(name, member_args(argv, 0)),
    decreases argv.len(),
{
    if argv.len() > 0 {
        lemma_try_line_call(name, argv.drop_last());
        assert(member_args(argv, 0).drop_last() =~= member_args(argv.drop_last(), 0));
    }
}

/// The history items are the tokenizer's reading of their commands, and no template
/// made from one of the clusters `cls` has a constant that reads as a slot.
pub open spec fn history_clear(items: Seq<(String, Vec<Token>)>, cls: Seq<Seq<usize>>, min_uses: nat) -> bool {
    forall|k: int| 0 <= k < cls.len() ==> {
        &&& tokens_kept(items, #[trigger] cls[k])
        &&& template_of(items, cls[k], min_uses) matches Some(t) ==> forall|c: int|
            0 <= c < t.pieces.len() ==> column_clear(t.pieces, member_toks(items, t.members)[0], c)
    }
}

/// Every function mining gives recognizes its example command: reading the body back
/// and matching the example gives its values for slots 1 to the number of
/// parameters, in order, and the example call is the function's name with those
/// values quoted.
pub proof fn lemma_mined_examples_recognized(items: Seq<(String, Vec<Token>)>, cls: Seq<Seq<usize>>, min_uses: nat, i: int)
    requires
        history_clear(items, cls, min_uses),
        0 <= i < mined_result(items, cls, min_uses).0.len(),
    ensures
        ({
            let m = mined_result(items, cls, min_uses).0[i];
            &&& template_pieces(m.body) is Some
            &&& tokens_of(m.from_example) is Some
            &&& match_result(template_pieces(m.body)->0, tokens_of(m.from_example)->0) is Some
            &&& ({
                let caps = match_result(template_pieces(m.body)->0, tokens_of(m.from_example)->0)->0;
                &&& caps.len() == m.n_params
                &&& forall|q: int| 0 <= q < caps.len() ==> (#[trigger] caps[q]).0 == q + 1
                &&& m.try_example == call_line(m.name, caps)
            })
        }),
{
    let m = mined_result(items, cls, min_uses).0[i];
    lemma_mined_from_templates(items, cls, min_uses);
    assert(from_template(items, cls, min_uses, m));
    let k = choose|k: int| 0 <= k < cls.len() && made_from(items, m, #[trigger] template_of(items, cls[k], min_uses));
    let cl = cls[k];
    let t = template_of(items, cl, min_uses)->0;
    assert(tokens_kept(items, cl));
    lemma_member_tokens(items, cl, min_uses);
    assert(t.members == members_of(items, cl));
    lemma_template_recognizes_members(items, cl, min_uses, 0);
    let input = item_toks(items, t.members[0] as int);
    assert(member_toks(items, t.members)[0] == input);
    assert(tokens_of(m.from_example) == Some(input));
    lemma_try_line_call(m.name, t.argv);
}

} // verus!
