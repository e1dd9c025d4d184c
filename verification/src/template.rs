use vstd::prelude::*;
use crate::text::{contains, decimal};
use crate::tokenize::{Quote, TokenV, tokens_of};
use crate::tokenize::item_toks;
use crate::names::byte_len;
use crate::words::quoted;

verus! {

/// One position of an inner (double-quoted) template: constant text with its
/// leading-space flag, or a slot with its values, its quote and its leading-space flag.
pub enum InnerV {
    Const(Seq<char>, bool),
    Param(Seq<Seq<char>>, Quote, bool),
}

/// One column of a template: constant text, a slot with the values the commands
/// hold there, or a double-quoted word generalized inside.
pub enum PieceV {
    Const(Seq<char>),
    Param(Seq<Seq<char>>),
    Inner(Seq<InnerV>),
}

/// The number of cluster members whose commands have `l` tokens.
pub open spec fn len_count(items: Seq<(String, Vec<crate::tokenize::Token>)>, cl: Seq<usize>, l: nat) -> nat {
    cl.filter(|i: usize| item_toks(items, i as int).len() == l).len()
}

/// `l` is the token count shared by the most members, the smallest such count on a tie.
pub open spec fn best_len(items: Seq<(String, Vec<crate::tokenize::Token>)>, cl: Seq<usize>, l: nat) -> bool {
    &&& exists|k: int| 0 <= k < cl.len() && item_toks(items, cl[k] as int).len() == l
    &&& forall|k: int|
        0 <= k < cl.len() ==> {
            let l2 = #[trigger] item_toks(items, cl[k] as int).len();
            len_count(items, cl, l2) < len_count(items, cl, l) || (len_count(items, cl, l2)
                == len_count(items, cl, l) && l <= l2)
        }
}

/// The members of a cluster that take part in its template: those with the most
/// common token count.
pub open spec fn members_of(items: Seq<(String, Vec<crate::tokenize::Token>)>, cl: Seq<usize>) -> Seq<usize> {
    let l = choose|l: nat| best_len(items, cl, l);
    cl.filter(|i: usize| item_toks(items, i as int).len() == l)
}

/// The tokens of each member.
pub open spec fn member_toks(items: Seq<(String, Vec<crate::tokenize::Token>)>, members: Seq<usize>) -> Seq<Seq<TokenV>> {
    Seq::new(members.len(), |k: int| item_toks(items, members[k] as int))
}

/// The tokens at position `col` of each command.
pub open spec fn column(toks: Seq<Seq<TokenV>>, col: int) -> Seq<TokenV> {
    Seq::new(toks.len(), |k: int| toks[k][col])
}

/// Every token of the column has the raw text of the first.
pub open spec fn same_raw(ct: Seq<TokenV>) -> bool {
    forall|k: int| 0 <= k < ct.len() ==> #[trigger] ct[k].raw == ct[0].raw
}

/// Some token of the column is an operator.
pub open spec fn any_op(ct: Seq<TokenV>) -> bool {
    exists|k: int| 0 <= k < ct.len() && #[trigger] ct[k].op
}

/// The texts of the tokens of a column.
pub open spec fn values(ct: Seq<TokenV>) -> Seq<Seq<char>> {
    Seq::new(ct.len(), |k: int| ct[k].value)
}

/// A token that is exactly one double-quoted segment with nothing escaped.
pub open spec fn plain_double_quoted(t: TokenV) -> bool {
    t.quote == Quote::Double && t.raw == seq!['"'] + t.value + seq!['"']
}

/// The tokens inside each double-quoted token of a column.
pub open spec fn inner_toks(ct: Seq<TokenV>) -> Seq<Seq<TokenV>> {
    Seq::new(ct.len(), |k: int| tokens_of(ct[k].value)->0)
}

/// A position of the inner tokens that cannot be generalized: constant text holding
/// a double quote or a backslash, or varying text with an operator.
pub open spec fn inner_bad(inners: Seq<Seq<TokenV>>, j: int) -> bool {
    let c = column(inners, j);
    if same_raw(c) {
        c[0].raw.contains('"') || c[0].raw.contains('\\')
    } else {
        any_op(c)
    }
}

/// The inner template position `j`: constant when all raw texts agree, else a slot,
/// single-quoted when every token there is.
pub open spec fn inner_piece(inners: Seq<Seq<TokenV>>, j: int) -> InnerV {
    let c = column(inners, j);
    if same_raw(c) {
        InnerV::Const(c[0].raw, c[0].space_before)
    } else {
        let q = if forall|k: int| 0 <= k < c.len() ==> #[trigger] c[k].quote == Quote::Single {
            Quote::Single
        } else {
            Quote::Plain
        };
        InnerV::Param(values(c), q, c[0].space_before)
    }
}

/// The constant words an inner position contributes to the name.
pub open spec fn inner_words(inners: Seq<Seq<TokenV>>, j: int) -> Seq<Seq<char>> {
    let c = column(inners, j);
    if same_raw(c) && !c[0].op {
        seq![c[0].value]
    } else {
        Seq::empty()
    }
}

/// Generalizes inside a column of double-quoted tokens: each must be one plain
/// double-quoted segment whose text tokenizes into the same number (at least 2) of
/// tokens, some position constant and none bad. Gives the inner template and the
/// constant words found inside.
pub open spec fn inner_template(ct: Seq<TokenV>) -> Option<(Seq<InnerV>, Seq<Seq<char>>)> {
    if exists|k: int| 0 <= k < ct.len() && !plain_double_quoted(#[trigger] ct[k]) {
        None
    } else if exists|k: int| 0 <= k < ct.len() && (#[trigger] tokens_of(ct[k].value)) is None {
        None
    } else {
        let inners = inner_toks(ct);
        let l = inners[0].len();
        if l < 2 || exists|k: int| 0 <= k < inners.len() && (#[trigger] inners[k]).len() != l {
            None
        } else if exists|j: int| 0 <= j < l && #[trigger] inner_bad(inners, j) {
            None
        } else if !exists|j: int| 0 <= j < l && #[trigger] same_raw(column(inners, j)) {
            None
        } else {
            Some((
                Seq::new(l, |j: int| inner_piece(inners, j)),
                Seq::new(l, |j: int| inner_words(inners, j)).flatten(),
            ))
        }
    }
}

/// The template piece for a column and the constant words it contributes; `None`
/// when the column varies and holds an operator.
pub open spec fn col_piece(toks: Seq<Seq<TokenV>>, col: int) -> Option<(PieceV, Seq<Seq<char>>)> {
    let ct = column(toks, col);
    if same_raw(ct) {
        Some((PieceV::Const(ct[0].raw), if !ct[0].op { seq![ct[0].value] } else { Seq::empty() }))
    } else if any_op(ct) {
        None
    } else {
        match inner_template(ct) {
            Some((inner, words)) => Some((PieceV::Inner(inner), words)),
            None => Some((PieceV::Param(values(ct)), Seq::empty())),
        }
    }
}

/// A slot placeholder, `$argv[n]` for the slot at 0-based index `idx`.
pub open spec fn slot(idx: nat) -> Seq<char> {
    "$argv["@ + decimal(idx + 1) + "]"@
}

/// The index of `v` in `argv` after interning: its first position when present,
/// otherwise the end.
pub open spec fn intern_index(argv: Seq<Seq<Seq<char>>>, v: Seq<Seq<char>>) -> nat
    decreases argv.len(),
{
    if argv.len() == 0 {
        0
    } else if argv.drop_last().contains(v) {
        intern_index(argv.drop_last(), v)
    } else if argv.last() == v {
        (argv.len() - 1) as nat
    } else {
        argv.len()
    }
}

/// The slot list after interning `v`.
pub open spec fn interned(argv: Seq<Seq<Seq<char>>>, v: Seq<Seq<char>>) -> Seq<Seq<Seq<char>>> {
    if argv.contains(v) { argv } else { argv.push(v) }
}

/// Renders the first `j` inner positions after the opening quote.
pub open spec fn render_inner(ips: Seq<InnerV>, j: int, body: Seq<char>, argv: Seq<Seq<Seq<char>>>) -> (
    Seq<char>,
    Seq<Seq<Seq<char>>>,
)
    decreases j,
{
    if j <= 0 {
        (body, argv)
    } else {
        let (b, a) = render_inner(ips, j - 1, body, argv);
        match ips[j - 1] {
            InnerV::Const(raw, sp) => ((if j - 1 > 0 && sp { b.push(' ') } else { b }) + raw, a),
            InnerV::Param(vals, q, sp) => {
                let b1 = if j - 1 > 0 && sp { b.push(' ') } else { b };
                let idx = intern_index(a, vals);
                let s = if q == Quote::Single { seq!['\''] + slot(idx) + seq!['\''] } else { slot(idx) };
                (b1 + s, interned(a, vals))
            },
        }
    }
}

/// Renders the first `k` pieces of a template, given the leading-space flags of the
/// first command; gives the body so far and the slots so far.
pub open spec fn render(pieces: Seq<PieceV>, spaces: Seq<bool>, k: int) -> (Seq<char>, Seq<Seq<Seq<char>>>)
    decreases k,
{
    if k <= 0 {
        (Seq::empty(), Seq::empty())
    } else {
        let (b, a) = render(pieces, spaces, k - 1);
        let b1 = if k - 1 > 0 && spaces[k - 1] { b.push(' ') } else { b };
        match pieces[k - 1] {
            PieceV::Const(raw) => (b1 + raw, a),
            PieceV::Param(vals) => (b1 + slot(intern_index(a, vals)), interned(a, vals)),
            PieceV::Inner(ips) => {
                let (bi, ai) = render_inner(ips, ips.len() as int, b1.push('"'), a);
                (bi.push('"'), ai)
            },
        }
    }
}

/// The generalization of a cluster, before it is named: the members used, the
/// pieces, the body, the slots and the constant words.
pub struct TemplateV {
    pub members: Seq<usize>,
    pub pieces: Seq<PieceV>,
    pub body: Seq<char>,
    pub argv: Seq<Seq<Seq<char>>>,
    pub const_words: Seq<Seq<char>>,
}

/// At most this many slots make a template.
pub const MAX_PARAMS: usize = 5;

/// The template of a cluster, if it makes one: enough members with the most common
/// token count, no varying operator, between 1 and `MAX_PARAMS` slots, and at least
/// two constant words.
pub open spec fn template_of(items: Seq<(String, Vec<crate::tokenize::Token>)>, cl: Seq<usize>, min_uses: nat) -> Option<TemplateV> {
    if cl.len() == 0 {
        None
    } else {
        let members = members_of(items, cl);
        let toks = member_toks(items, members);
        let l = toks[0].len();
        if members.len() < min_uses {
            None
        } else if exists|c: int| 0 <= c < l && (#[trigger] col_piece(toks, c)) is None {
            None
        } else {
            let pieces = Seq::new(l, |c: int| (col_piece(toks, c)->0).0);
            let const_words = Seq::new(l, |c: int| (col_piece(toks, c)->0).1).flatten();
            let spaces = Seq::new(l, |c: int| toks[0][c].space_before);
            let (body, argv) = render(pieces, spaces, l as int);
            if argv.len() == 0 || argv.len() > MAX_PARAMS || const_words.len() < 2 {
                None
            } else {
                Some(TemplateV { members, pieces, body, argv, const_words })
            }
        }
    }
}

/// Bytes typed to call function `name` with the values member `mi` holds in the slots.
pub open spec fn invocation_len(name: Seq<char>, argv: Seq<Seq<Seq<char>>>, mi: int) -> int
    decreases argv.len(),
{
    if argv.len() == 0 {
        byte_len(name) as int
    } else {
        invocation_len(name, argv.drop_last(), mi) + 1 + byte_len(quoted(argv.last()[mi]))
    }
}

/// Keystrokes saved over the members: for each, its command's bytes minus the
/// invocation's, when positive.
pub open spec fn saved_sum(
    items: Seq<(String, Vec<crate::tokenize::Token>)>,
    members: Seq<usize>,
    name: Seq<char>,
    argv: Seq<Seq<Seq<char>>>,
) -> int
    decreases members.len(),
{
    if members.len() == 0 {
        0
    } else {
        let mi = members.len() - 1;
        let d = byte_len(items[members[mi] as int].0@) - invocation_len(name, argv, mi);
        saved_sum(items, members.drop_last(), name, argv) + if d > 0 { d } else { 0 }
    }
}

/// The example call: the name followed by the first member's values.
pub open spec fn try_line(name: Seq<char>, argv: Seq<Seq<Seq<char>>>) -> Seq<char>
    decreases argv.len(),
{
    if argv.len() == 0 {
        name
    } else {
        try_line(name, argv.drop_last()).push(' ') + quoted(argv.last()[0])
    }
}


/// Inner position `ip` is a slot for the values `x`.
pub open spec fn inner_slot_for(ip: InnerV, x: Seq<Seq<char>>) -> bool {
    ip matches InnerV::Param(v, _, _) && v == x
}

/// Piece `p` is, or holds, a slot for the values `x`.
pub open spec fn piece_slot_for(p: PieceV, x: Seq<Seq<char>>) -> bool {
    match p {
        PieceV::Const(_) => false,
        PieceV::Param(v) => v == x,
        PieceV::Inner(ips) => exists|j: int| 0 <= j < ips.len() && inner_slot_for(#[trigger] ips[j], x),
    }
}

proof fn lemma_interned(argv: Seq<Seq<Seq<char>>>, v: Seq<Seq<char>>)
    requires
        argv.no_duplicates(),
    ensures
        interned(argv, v).no_duplicates(),
        forall|x: Seq<Seq<char>>| #[trigger] interned(argv, v).contains(x) <==> (argv.contains(x) || x == v),
{
    let r = interned(argv, v);
    if !argv.contains(v) {
        assert forall|x: Seq<Seq<char>>| #[trigger] r.contains(x) <==> (argv.contains(x) || x == v) by {
            if r.contains(x) {
                let k = choose|k: int| 0 <= k < r.len() && r[k] == x;
                if k < argv.len() {
                    assert(argv[k] == x);
                }
            }
            if argv.contains(x) {
                let k = choose|k: int| 0 <= k < argv.len() && argv[k] == x;
                assert(r[k] == x);
            }
            if x == v {
                assert(r[argv.len() as int] == v);
            }
        }
        assert forall|i: int, j: int| 0 <= i < r.len() && 0 <= j < r.len() && i != j implies r[i] != r[j] by {
            if i < argv.len() && j < argv.len() {
            } else if i < argv.len() {
                assert(argv.contains(r[i]));
            } else if j < argv.len() {
                assert(argv.contains(r[j]));
            }
        }
    }
}

proof fn lemma_render_inner_slots(ips: Seq<InnerV>, j: int, body: Seq<char>, argv: Seq<Seq<Seq<char>>>)
    requires
        argv.no_duplicates(),
        0 <= j <= ips.len(),
    ensures
        render_inner(ips, j, body, argv).1.no_duplicates(),
        forall|x: Seq<Seq<char>>| #[trigger] render_inner(ips, j, body, argv).1.contains(x) <==> (argv.contains(x)
            || exists|k: int| 0 <= k < j && inner_slot_for(#[trigger] ips[k], x)),
    decreases j,
{
    if j > 0 {
        lemma_render_inner_slots(ips, j - 1, body, argv);
        let a = render_inner(ips, j - 1, body, argv).1;
        match ips[j - 1] {
            InnerV::Const(_, _) => {
                assert forall|x: Seq<Seq<char>>| #[trigger] a.contains(x) <==> (argv.contains(x)
                    || exists|k: int| 0 <= k < j && inner_slot_for(#[trigger] ips[k], x)) by {
                    if exists|k: int| 0 <= k < j && inner_slot_for(#[trigger] ips[k], x) {
                        let k = choose|k: int| 0 <= k < j && inner_slot_for(#[trigger] ips[k], x);
                        assert(k < j - 1);
                    }
                }
            },
            InnerV::Param(vals, _, _) => {
                lemma_interned(a, vals);
                assert forall|x: Seq<Seq<char>>| #[trigger] interned(a, vals).contains(x) <==> (argv.contains(x)
                    || exists|k: int| 0 <= k < j && inner_slot_for(#[trigger] ips[k], x)) by {
                    if exists|k: int| 0 <= k < j && inner_slot_for(#[trigger] ips[k], x) {
                        let k = choose|k: int| 0 <= k < j && inner_slot_for(#[trigger] ips[k], x);
                        if k < j - 1 {
                            assert(a.contains(x));
                        }
                    }
                    if x == vals {
                        assert(inner_slot_for(ips[j - 1], x));
                    }
                }
            },
        }
    }
}

proof fn lemma_render_slots(pieces: Seq<PieceV>, spaces: Seq<bool>, k: int)
    requires
        0 <= k <= pieces.len(),
    ensures
        render(pieces, spaces, k).1.no_duplicates(),
        forall|x: Seq<Seq<char>>| #[trigger] render(pieces, spaces, k).1.contains(x) <==> exists|c: int|
            0 <= c < k && piece_slot_for(#[trigger] pieces[c], x),
    decreases k,
{
    if k == 0 {
        assert(Seq::<Seq<Seq<char>>>::empty().no_duplicates());
    } else {
        lemma_render_slots(pieces, spaces, k - 1);
        let (b, a) = render(pieces, spaces, k - 1);
        let b1 = if k - 1 > 0 && spaces[k - 1] { b.push(' ') } else { b };
        let r = render(pieces, spaces, k).1;
        match pieces[k - 1] {
            PieceV::Const(_) => {
                assert forall|x: Seq<Seq<char>>| #[trigger] r.contains(x) <==> exists|c: int|
                    0 <= c < k && piece_slot_for(#[trigger] pieces[c], x) by {
                    if exists|c: int| 0 <= c < k && piece_slot_for(#[trigger] pieces[c], x) {
                        let c = choose|c: int| 0 <= c < k && piece_slot_for(#[trigger] pieces[c], x);
                        assert(c < k - 1);
                    }
                }
            },
            PieceV::Param(vals) => {
                lemma_interned(a, vals);
                assert forall|x: Seq<Seq<char>>| #[trigger] r.contains(x) <==> exists|c: int|
                    0 <= c < k && piece_slot_for(#[trigger] pieces[c], x) by {
                    if exists|c: int| 0 <= c < k && piece_slot_for(#[trigger] pieces[c], x) {
                        let c = choose|c: int| 0 <= c < k && piece_slot_for(#[trigger] pieces[c], x);
                        if c < k - 1 {
                            assert(a.contains(x));
                        }
                    }
                    if x == vals {
                        assert(piece_slot_for(pieces[k - 1], x));
                    }
                }
            },
            PieceV::Inner(ips) => {
                lemma_render_inner_slots(ips, ips.len() as int, b1.push('"'), a);
                assert forall|x: Seq<Seq<char>>| #[trigger] r.contains(x) <==> exists|c: int|
                    0 <= c < k && piece_slot_for(#[trigger] pieces[c], x) by {
                    if exists|c: int| 0 <= c < k && piece_slot_for(#[trigger] pieces[c], x) {
                        let c = choose|c: int| 0 <= c < k && piece_slot_for(#[trigger] pieces[c], x);
                        if c < k - 1 {
                            assert(a.contains(x));
                        } else {
                            let j = choose|j: int| 0 <= j < ips.len() && inner_slot_for(#[trigger] ips[j], x);
                            assert(inner_slot_for(ips[j], x));
                        }
                    }
                    if r.contains(x) && !a.contains(x) {
                        let j = choose|j: int| 0 <= j < ips.len() && inner_slot_for(#[trigger] ips[j], x);
                        assert(piece_slot_for(pieces[k - 1], x));
                    }
                }
            },
        }
    }
}

/// Slots that always hold the same values are one parameter: the parameters of a
/// template are exactly the distinct value lists of its slots, each listed once.
pub proof fn lemma_correlated_slots_shared(
    items: Seq<(String, Vec<crate::tokenize::Token>)>,
    cl: Seq<usize>,
    min_uses: nat,
)
    requires
        template_of(items, cl, min_uses) is Some,
    ensures
        ({
            let t = template_of(items, cl, min_uses)->0;
            &&& t.argv.no_duplicates()
            &&& forall|x: Seq<Seq<char>>| #[trigger] t.argv.contains(x) <==> exists|c: int|
                0 <= c < t.pieces.len() && piece_slot_for(#[trigger] t.pieces[c], x)
        }),
{
    let t = template_of(items, cl, min_uses)->0;
    let members = members_of(items, cl);
    let toks = member_toks(items, members);
    let l = toks[0].len();
    let spaces = Seq::new(l, |c: int| toks[0][c].space_before);
    lemma_render_slots(t.pieces, spaces, l as int);
}

pub(crate) proof fn lemma_render_consts(pieces: Seq<PieceV>, spaces: Seq<bool>, k: int)
    requires
        forall|c: int| 0 <= c < k ==> (#[trigger] pieces[c]) is Const,
    ensures
        render(pieces, spaces, k).1.len() == 0,
    decreases k,
{
    if k > 0 {
        lemma_render_consts(pieces, spaces, k - 1);
        assert(pieces[k - 1] is Const);
    }
}

/// A command repeated without change yields no template: when every command of a
/// cluster has the same tokens, nothing varies, so there is no parameter.
pub proof fn lemma_identical_commands_no_template(
    items: Seq<(String, Vec<crate::tokenize::Token>)>,
    cl: Seq<usize>,
    min_uses: nat,
)
    requires
        forall|k: int| 0 <= k < cl.len() ==> item_toks(items, (#[trigger] cl[k]) as int) == item_toks(items, cl[0] as int),
    ensures
        template_of(items, cl, min_uses) is None,
{
    if cl.len() > 0 {
        let members = members_of(items, cl);
        let toks = member_toks(items, members);
        let t0 = item_toks(items, cl[0] as int);
        let l = toks[0].len();
        let l_best = choose|l: nat| best_len(items, cl, l);
        let f = |i: usize| item_toks(items, i as int).len() == l_best;
        assert(members == cl.filter(f));
        assert forall|k: int| 0 <= k < toks.len() implies #[trigger] toks[k] == t0 by {
            assert(members.contains(members[k]));
            cl.lemma_filter_contains_rev(f, members[k]);
            let j = choose|j: int| 0 <= j < cl.len() && cl[j] == members[k];
            assert(item_toks(items, cl[j] as int) == t0);
        }
        if !(exists|c: int| 0 <= c < l && (#[trigger] col_piece(toks, c)) is None) {
            let pieces = Seq::new(l, |c: int| (col_piece(toks, c)->0).0);
            assert forall|c: int| 0 <= c < l implies (#[trigger] pieces[c]) is Const by {
                let ct = column(toks, c);
                assert forall|k: int| 0 <= k < ct.len() implies #[trigger] ct[k].raw == ct[0].raw by {
                    assert(toks[k] == t0);
                    assert(toks[0] == t0);
                }
                assert(same_raw(ct));
            }
            let spaces = Seq::new(l, |c: int| toks[0][c].space_before);
            lemma_render_consts(pieces, spaces, l as int);
        }
    }
}

proof fn lemma_filter_keeps_all(s: Seq<usize>, f: spec_fn(usize) -> bool)
    requires
        forall|i: int| 0 <= i < s.len() ==> f(#[trigger] s[i]),
    ensures
        s.filter(f) == s,
    decreases s.len(),
{
    reveal(Seq::filter);
    if s.len() > 0 {
        lemma_filter_keeps_all(s.drop_last(), f);
        assert(s.drop_last().push(s.last()) =~= s);
    }
}

proof fn lemma_flatten_two(ss: Seq<Seq<Seq<char>>>, a: int, b: int)
    requires
        0 <= a < b < ss.len(),
        ss[a].len() > 0,
        ss[b].len() > 0,
    ensures
        ss.flatten().len() >= 2,
    decreases ss.len(),
{
    if a == 0 {
        lemma_flatten_one(ss.drop_first(), b - 1);
    } else {
        lemma_flatten_two(ss.drop_first(), a - 1, b - 1);
    }
}

proof fn lemma_flatten_one(ss: Seq<Seq<Seq<char>>>, b: int)
    requires
        0 <= b < ss.len(),
        ss[b].len() > 0,
    ensures
        ss.flatten().len() >= 1,
    decreases ss.len(),
{
    if b > 0 {
        lemma_flatten_one(ss.drop_first(), b - 1);
    }
}

proof fn lemma_render_one_slot(pieces: Seq<PieceV>, spaces: Seq<bool>, v: int, vals: Seq<Seq<char>>, k: int)
    requires
        0 <= v < pieces.len(),
        0 <= k <= pieces.len(),
        pieces[v] == PieceV::Param(vals),
        forall|c: int| 0 <= c < pieces.len() && c != v ==> (#[trigger] pieces[c]) is Const,
    ensures
        render(pieces, spaces, k).1 == if k > v { seq![vals] } else { Seq::<Seq<Seq<char>>>::empty() },
    decreases k,
{
    if k > 0 {
        lemma_render_one_slot(pieces, spaces, v, vals, k - 1);
        if k - 1 == v {
            assert(!Seq::<Seq<Seq<char>>>::empty().contains(vals));
            assert(Seq::<Seq<Seq<char>>>::empty().push(vals) =~= seq![vals]);
        } else {
            assert(pieces[k - 1] is Const);
        }
    }
}

/// A cluster of at least `min_uses` commands of equal length whose columns are all
/// constant but one, where the varying column holds no operator and not only
/// double-quoted words, and whose constant columns give at least two words (two
/// non-operator constant columns), yields a template over all its members with
/// exactly one parameter.
pub proof fn lemma_one_varying_column_template(
    items: Seq<(String, Vec<crate::tokenize::Token>)>,
    cl: Seq<usize>,
    min_uses: nat,
    v: int,
    kv: int,
    kq: int,
    c1: int,
    c2: int,
)
    requires
        cl.len() > 0,
        min_uses <= cl.len(),
        forall|k: int| 0 <= k < cl.len() ==> #[trigger] cl[k] < items.len(),
        forall|k: int| 0 <= k < cl.len() ==> (#[trigger] item_toks(items, cl[k] as int)).len() == item_toks(items, cl[0] as int).len(),
        0 <= v < item_toks(items, cl[0] as int).len(),
        forall|k: int, c: int| 0 <= k < cl.len() && 0 <= c < item_toks(items, cl[0] as int).len() && c != v
            ==> (#[trigger] item_toks(items, cl[k] as int)[c]).raw == item_toks(items, cl[0] as int)[c].raw,
        0 <= kv < cl.len() && item_toks(items, cl[kv] as int)[v].raw != item_toks(items, cl[0] as int)[v].raw,
        forall|k: int| 0 <= k < cl.len() ==> !(#[trigger] item_toks(items, cl[k] as int)[v]).op,
        0 <= kq < cl.len() && item_toks(items, cl[kq] as int)[v].quote != Quote::Double,
        0 <= c1 < c2 < item_toks(items, cl[0] as int).len(),
        c1 != v && c2 != v,
        !item_toks(items, cl[0] as int)[c1].op && !item_toks(items, cl[0] as int)[c2].op,
    ensures
        template_of(items, cl, min_uses) is Some,
        template_of(items, cl, min_uses)->0.members == cl,
        template_of(items, cl, min_uses)->0.argv.len() == 1,
{
    let l = item_toks(items, cl[0] as int).len();
    assert(best_len(items, cl, l)) by {
        assert(item_toks(items, cl[0] as int).len() == l);
    }
    let l_best = choose|l: nat| best_len(items, cl, l);
    let kb = choose|k: int| 0 <= k < cl.len() && item_toks(items, cl[k] as int).len() == l_best;
    assert(item_toks(items, cl[kb] as int).len() == l);
    let f = |i: usize| item_toks(items, i as int).len() == l_best;
    lemma_filter_keeps_all(cl, f);
    let members = members_of(items, cl);
    assert(members == cl);
    let toks = member_toks(items, members);
    assert(toks[0] == item_toks(items, cl[0] as int));
    assert forall|c: int| 0 <= c < l && c != v implies same_raw(#[trigger] column(toks, c)) by {
        assert forall|k: int| 0 <= k < column(toks, c).len() implies #[trigger] column(toks, c)[k].raw == column(toks, c)[0].raw by {
            assert(column(toks, c)[k] == item_toks(items, cl[k] as int)[c]);
        }
    }
    let ct = column(toks, v);
    assert(!same_raw(ct)) by {
        assert(ct[kv] == item_toks(items, cl[kv] as int)[v]);
    }
    assert(!any_op(ct)) by {
        assert forall|k: int| 0 <= k < ct.len() implies !(#[trigger] ct[k]).op by {
            assert(ct[k] == item_toks(items, cl[k] as int)[v]);
        }
    }
    assert(inner_template(ct) is None) by {
        assert(ct[kq] == item_toks(items, cl[kq] as int)[v]);
        assert(!plain_double_quoted(ct[kq]));
    }
    assert forall|c: int| 0 <= c < l implies (#[trigger] col_piece(toks, c)) is Some by {
        if c != v {
            assert(same_raw(column(toks, c)));
        }
    }
    let pieces = Seq::new(l, |c: int| (col_piece(toks, c)->0).0);
    let words = Seq::new(l, |c: int| (col_piece(toks, c)->0).1);
    let spaces = Seq::new(l, |c: int| toks[0][c].space_before);
    assert forall|c: int| 0 <= c < pieces.len() && c != v implies (#[trigger] pieces[c]) is Const by {
        assert(same_raw(column(toks, c)));
    }
    assert(pieces[v] == PieceV::Param(values(ct)));
    lemma_render_one_slot(pieces, spaces, v, values(ct), l as int);
    assert(same_raw(column(toks, c1)));
    assert(same_raw(column(toks, c2)));
    assert(column(toks, c1)[0] == toks[0][c1]);
    assert(column(toks, c2)[0] == toks[0][c2]);
    assert(words[c1].len() == 1);
    assert(words[c2].len() == 1);
    lemma_flatten_two(words, c1, c2);
}

/// A cluster of fewer than `min_uses` commands yields no template.
pub proof fn lemma_small_cluster_no_template(items: Seq<(String, Vec<crate::tokenize::Token>)>, cl: Seq<usize>, min_uses: nat)
    requires
        cl.len() < min_uses,
    ensures
        template_of(items, cl, min_uses) is None,
{
    if cl.len() > 0 {
        let l_best = choose|l: nat| best_len(items, cl, l);
        let f = |i: usize| item_toks(items, i as int).len() == l_best;
        cl.lemma_filter_len(f);
        assert(members_of(items, cl) == cl.filter(f));
    }
}

} // verus!
