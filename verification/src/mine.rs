use vstd::prelude::*;
use vstd::multiset::Multiset;
use vstd::utf8::encode_utf8;
use crate::template::{TemplateV, saved_sum, try_line, template_of, MAX_PARAMS};
use crate::tokenize::{Token, TokenV};
use crate::tokenize::item_toks;
use crate::words::{secret_text, lower_ident, lemma_credential_markers, hex_digits_from};
use crate::text::contains;
use crate::text::lowercase;
use crate::names::{name_base, numbered, count_of};
use crate::generalize::generalize;
use crate::words::looks_secret;
use crate::tokenize::{tokenize, tokens_of, toks_view};
use crate::text::{chars_of, has_char};
use crate::names::strs_view;

verus! {

/// A synthesized function: its name and fish body, a history entry it came from,
/// an example call, how many entries it covers, its number of parameters and the
/// keystrokes it saves.
pub struct Mined {
    pub name: String,
    pub body: String,
    pub from_example: String,
    pub try_example: String,
    pub n_entries: usize,
    pub n_params: usize,
    pub saved: i64,
}

/// A synthesized function as a mathematical value.
pub struct MinedV {
    pub name: Seq<char>,
    pub body: Seq<char>,
    pub from_example: Seq<char>,
    pub try_example: Seq<char>,
    pub n_entries: nat,
    pub n_params: nat,
    pub saved: int,
}

impl View for Mined {
    type V = MinedV;

    open spec fn view(&self) -> MinedV {
        MinedV {
            name: self.name@,
            body: self.body@,
            from_example: self.from_example@,
            try_example: self.try_example@,
            n_entries: self.n_entries as nat,
            n_params: self.n_params as nat,
            saved: self.saved as int,
        }
    }
}

/// The saved keystrokes as stored: the sum, capped at `i64::MAX`.
pub open spec fn capped(x: int) -> int {
    if x > i64::MAX { i64::MAX as int } else { x }
}

/// The function made from template `t` when its name base has been used `n - 1`
/// times before.
pub open spec fn mined_of(items: Seq<(String, Vec<crate::tokenize::Token>)>, t: TemplateV, n: nat) -> MinedV {
    let name = numbered(name_base(t.const_words), n);
    MinedV {
        name,
        body: t.body,
        from_example: items[t.members[0] as int].0@,
        try_example: try_line(name, t.argv),
        n_entries: t.members.len(),
        n_params: t.argv.len(),
        saved: capped(saved_sum(items, t.members, name, t.argv)),
    }
}

/// The raw text of the first token of item `i`.
pub open spec fn head_of(items: Seq<(String, Vec<Token>)>, i: int) -> Seq<char> {
    item_toks(items, i)[0].raw
}

/// The first position in `gs` whose head is `h`, if any.
pub open spec fn find_head(gs: Seq<(Seq<char>, Seq<usize>)>, h: Seq<char>) -> Option<int>
    decreases gs.len(),
{
    if gs.len() == 0 {
        None
    } else {
        match find_head(gs.drop_last(), h) {
            Some(i) => Some(i),
            None => if gs.last().0 == h { Some(gs.len() - 1) } else { None },
        }
    }
}

/// The items among the first `n` grouped by the raw text of their first token,
/// groups in order of first appearance, members in order.
pub open spec fn head_groups(items: Seq<(String, Vec<Token>)>, n: int) -> Seq<(Seq<char>, Seq<usize>)>
    decreases n,
{
    if n <= 0 {
        Seq::empty()
    } else {
        let gs = head_groups(items, n - 1);
        let h = head_of(items, n - 1);
        match find_head(gs, h) {
            Some(i) => gs.update(i, (gs[i].0, gs[i].1.push((n - 1) as usize))),
            None => gs.push((h, seq![(n - 1) as usize])),
        }
    }
}

/// Byte-wise lexicographic order, the order of `str` comparison.
pub open spec fn bytes_lt(a: Seq<u8>, b: Seq<u8>) -> bool
    decreases a.len(),
{
    if a.len() == 0 {
        b.len() > 0
    } else if b.len() == 0 {
        false
    } else if a[0] != b[0] {
        a[0] < b[0]
    } else {
        bytes_lt(a.drop_first(), b.drop_first())
    }
}

/// Group `a` comes before group `b`: more members first, then by head text.
pub open spec fn group_before(a: (Seq<char>, Seq<usize>), b: (Seq<char>, Seq<usize>)) -> bool {
    a.1.len() > b.1.len() || (a.1.len() == b.1.len() && bytes_lt(encode_utf8(a.0), encode_utf8(b.0)))
}

/// The first position in sorted `s` where `x` goes before the element there.
pub open spec fn group_slot(s: Seq<(Seq<char>, Seq<usize>)>, x: (Seq<char>, Seq<usize>)) -> int
    decreases s.len(),
{
    if s.len() == 0 {
        0
    } else if group_slot(s.drop_last(), x) < s.len() - 1 {
        group_slot(s.drop_last(), x)
    } else if group_before(x, s.last()) {
        s.len() - 1
    } else {
        s.len() as int
    }
}

/// The groups in stable sorted order.
pub open spec fn sort_groups(s: Seq<(Seq<char>, Seq<usize>)>) -> Seq<(Seq<char>, Seq<usize>)>
    decreases s.len(),
{
    if s.len() == 0 {
        s
    } else {
        let t = sort_groups(s.drop_last());
        t.insert(group_slot(t, s.last()), s.last())
    }
}

/// The groups of a history by command word, in the order they are mined: more
/// members first, then by head text; members in history order.
pub open spec fn groups_of(items: Seq<(String, Vec<Token>)>) -> Seq<Seq<usize>> {
    let gs = sort_groups(head_groups(items, items.len() as int));
    Seq::new(gs.len(), |g: int| gs[g].1)
}

/// How many names have been made from `b`, per a map of counts.
pub open spec fn get_count(m: Map<Seq<char>, nat>, b: Seq<char>) -> nat {
    if m.dom().contains(b) { m[b] } else { 0 }
}

/// Mines the first `k` clusters: the functions kept, the number withheld as likely
/// credentials, and the name counts.
pub open spec fn mine_upto(items: Seq<(String, Vec<Token>)>, cls: Seq<Seq<usize>>, min_uses: nat, k: int) -> (
    Seq<MinedV>,
    nat,
    Map<Seq<char>, nat>,
)
    decreases k,
{
    if k <= 0 {
        (Seq::empty(), 0, Map::empty())
    } else {
        let (out, withheld, counts) = mine_upto(items, cls, min_uses, k - 1);
        let c = cls[k - 1];
        if c.len() < min_uses {
            (out, withheld, counts)
        } else {
            match template_of(items, c, min_uses) {
                None => (out, withheld, counts),
                Some(t) => {
                    let base = name_base(t.const_words);
                    let n = get_count(counts, base) + 1;
                    let m = mined_of(items, t, n);
                    let counts2 = counts.insert(base, n);
                    if secret_text(m.body, lowercase(m.body)) {
                        (out, withheld + 1, counts2)
                    } else {
                        (out.push(m), withheld, counts2)
                    }
                },
            }
        }
    }
}

/// The first position in sorted `s` holding a function that saves less than `x`.
pub open spec fn mined_slot(s: Seq<MinedV>, x: MinedV) -> int
    decreases s.len(),
{
    if s.len() == 0 {
        0
    } else if mined_slot(s.drop_last(), x) < s.len() - 1 {
        mined_slot(s.drop_last(), x)
    } else if s.last().saved < x.saved {
        s.len() - 1
    } else {
        s.len() as int
    }
}

/// Stable sort by saved keystrokes, most first.
pub open spec fn sort_by_saved(s: Seq<MinedV>) -> Seq<MinedV>
    decreases s.len(),
{
    if s.len() == 0 {
        s
    } else {
        let t = sort_by_saved(s.drop_last());
        t.insert(mined_slot(t, s.last()), s.last())
    }
}

/// What mining gives: the functions kept, most saving first, and the number withheld.
pub open spec fn mined_result(items: Seq<(String, Vec<Token>)>, cls: Seq<Seq<usize>>, min_uses: nat) -> (Seq<MinedV>, nat) {
    let r = mine_upto(items, cls, min_uses, cls.len() as int);
    (sort_by_saved(r.0), r.1)
}

/// Groups as mathematical values.
pub open spec fn groups_view(v: Seq<(String, Vec<usize>)>) -> Seq<(Seq<char>, Seq<usize>)> {
    v.map_values(|g: (String, Vec<usize>)| (g.0@, g.1@))
}

/// The total number of members of the groups.
pub open spec fn total_size(gs: Seq<(Seq<char>, Seq<usize>)>) -> nat
    decreases gs.len(),
{
    if gs.len() == 0 {
        0
    } else {
        total_size(gs.drop_last()) + gs.last().1.len()
    }
}

proof fn lemma_find_head(gs: Seq<(Seq<char>, Seq<usize>)>, h: Seq<char>, i: int)
    requires
        0 <= i <= gs.len(),
        forall|k: int| 0 <= k < i ==> gs[k].0 != h,
        i < gs.len() ==> gs[i].0 == h,
    ensures
        find_head(gs, h) == if i < gs.len() { Some(i) } else { None::<int> },
    decreases gs.len(),
{
    if gs.len() > 0 {
        if i < gs.len() - 1 {
            lemma_find_head(gs.drop_last(), h, i);
        } else {
            lemma_find_head(gs.drop_last(), h, gs.len() - 1);
        }
    }
}

proof fn lemma_total_update(gs: Seq<(Seq<char>, Seq<usize>)>, i: int, g: (Seq<char>, Seq<usize>))
    requires
        0 <= i < gs.len(),
    ensures
        total_size(gs.update(i, g)) == total_size(gs) - gs[i].1.len() + g.1.len(),
    decreases gs.len(),
{
    if i < gs.len() - 1 {
        lemma_total_update(gs.drop_last(), i, g);
        assert(gs.update(i, g).drop_last() =~= gs.drop_last().update(i, g));
    } else {
        assert(gs.update(i, g).drop_last() =~= gs.drop_last());
    }
}

/// Groups the items by the raw text of their first token.
fn group_heads(items: &[(String, Vec<Token>)]) -> (groups: Vec<(String, Vec<usize>)>)
    requires
        forall|i: int| 0 <= i < items.len() ==> items@[i].1.len() > 0,
    ensures
        groups_view(groups@) == head_groups(items@, items.len() as int),
        total_size(groups_view(groups@)) == items.len(),
        forall|g: int, k: int| 0 <= g < groups.len() && 0 <= k < groups@[g].1.len() ==> groups@[g].1@[k] < items.len(),
{
    let mut groups: Vec<(String, Vec<usize>)> = Vec::new();
    let mut i: usize = 0;
    while i < items.len()
        invariant
            i <= items.len(),
            forall|i: int| 0 <= i < items.len() ==> items@[i].1.len() > 0,
            groups_view(groups@) == head_groups(items@, i as int),
            total_size(groups_view(groups@)) == i,
            forall|g: int, k: int| 0 <= g < groups.len() && 0 <= k < groups@[g].1.len() ==> groups@[g].1@[k] < i,
        decreases items.len() - i,
    {
        let ghost gv = groups_view(groups@);
        let head = &items[i].1[0].raw;
        assert(head@ == head_of(items@, i as int));
        let mut g: usize = 0;
        while g < groups.len() && groups[g].0 != *head
            invariant
                g <= groups.len(),
                gv == groups_view(groups@),
                forall|k: int| 0 <= k < g ==> gv[k].0 != head@,
            decreases groups.len() - g,
        {
            g += 1;
        }
        proof {
            if g < groups.len() {
                assert(gv[g as int].0 == head@);
            }
            lemma_find_head(gv, head@, g as int);
        }
        if g < groups.len() {
            let mut members = groups[g].1.clone();
            members.push(i);
            let e = (groups[g].0.clone(), members);
            proof {
                lemma_total_update(gv, g as int, (e.0@, e.1@));
            }
            groups.set(g, e);
            assert(groups_view(groups@) =~= gv.update(g as int, (gv[g as int].0, gv[g as int].1.push(i))));
        } else {
            let mut members: Vec<usize> = Vec::new();
            members.push(i);
            let e = (head.clone(), members);
            groups.push(e);
            assert(groups_view(groups@) =~= gv.push((head@, seq![i])));
            assert(groups_view(groups@).drop_last() =~= gv);
        }
        i += 1;
    }
    groups
}

proof fn lemma_bytes_lt_from(a: Seq<u8>, b: Seq<u8>, k: int)
    requires
        0 <= k <= a.len(),
        k <= b.len(),
        forall|j: int| 0 <= j < k ==> a[j] == b[j],
    ensures
        bytes_lt(a, b) == bytes_lt(a.subrange(k, a.len() as int), b.subrange(k, b.len() as int)),
    decreases k,
{
    if k > 0 {
        lemma_bytes_lt_from(a.drop_first(), b.drop_first(), k - 1);
        assert(a.drop_first().subrange(k - 1, a.len() - 1) =~= a.subrange(k, a.len() as int));
        assert(b.drop_first().subrange(k - 1, b.len() - 1) =~= b.subrange(k, b.len() as int));
    } else {
        assert(a.subrange(0, a.len() as int) =~= a);
        assert(b.subrange(0, b.len() as int) =~= b);
    }
}

/// Byte-wise lexicographic comparison.
fn bytes_less(a: &[u8], b: &[u8]) -> (r: bool)
    ensures
        r == bytes_lt(a@, b@),
{
    let mut k: usize = 0;
    while k < a.len() && k < b.len() && a[k] == b[k]
        invariant
            k <= a.len(),
            k <= b.len(),
            forall|j: int| 0 <= j < k ==> a@[j] == b@[j],
        decreases a.len() - k,
    {
        k += 1;
    }
    proof {
        lemma_bytes_lt_from(a@, b@, k as int);
    }
    let ghost ra = a@.subrange(k as int, a.len() as int);
    let ghost rb = b@.subrange(k as int, b.len() as int);
    if k == a.len() {
        k < b.len()
    } else if k == b.len() {
        false
    } else {
        assert(ra[0] == a@[k as int] && rb[0] == b@[k as int]);
        a[k] < b[k]
    }
}

/// Whether group `a` comes before group `b`.
fn group_precedes(a: &(String, Vec<usize>), b: &(String, Vec<usize>)) -> (r: bool)
    ensures
        r == group_before((a.0@, a.1@), (b.0@, b.1@)),
{
    a.1.len() > b.1.len() || (a.1.len() == b.1.len() && bytes_less(a.0.as_str().as_bytes(), b.0.as_str().as_bytes()))
}

proof fn lemma_group_slot(s: Seq<(Seq<char>, Seq<usize>)>, x: (Seq<char>, Seq<usize>), p: int)
    requires
        0 <= p <= s.len(),
        forall|q: int| 0 <= q < p ==> !group_before(x, #[trigger] s[q]),
        p < s.len() ==> group_before(x, s[p]),
    ensures
        group_slot(s, x) == p,
    decreases s.len(),
{
    if s.len() > 0 {
        if p < s.len() - 1 {
            lemma_group_slot(s.drop_last(), x, p);
        } else {
            lemma_group_slot(s.drop_last(), x, s.len() - 1);
        }
    }
}

proof fn lemma_total_insert(s: Seq<(Seq<char>, Seq<usize>)>, i: int, x: (Seq<char>, Seq<usize>))
    requires
        0 <= i <= s.len(),
    ensures
        total_size(s.insert(i, x)) == total_size(s) + x.1.len(),
    decreases s.len(),
{
    if i == s.len() {
        assert(s.insert(i, x).drop_last() =~= s);
    } else {
        lemma_total_insert(s.drop_last(), i, x);
        assert(s.insert(i, x).drop_last() =~= s.drop_last().insert(i, x));
    }
}

/// Sorts the groups: more members first, then by head text.
fn sort_group_list(groups: Vec<(String, Vec<usize>)>, Ghost(bound): Ghost<nat>) -> (r: Vec<(String, Vec<usize>)>)
    requires
        forall|g: int, k: int| 0 <= g < groups.len() && 0 <= k < groups@[g].1.len() ==> groups@[g].1@[k] < bound,
    ensures
        groups_view(r@) == sort_groups(groups_view(groups@)),
        total_size(groups_view(r@)) == total_size(groups_view(groups@)),
        forall|g: int, k: int| 0 <= g < r.len() && 0 <= k < r@[g].1.len() ==> r@[g].1@[k] < bound,
{
    let mut r: Vec<(String, Vec<usize>)> = Vec::new();
    let mut k: usize = 0;
    assert(groups_view(groups@).take(0) =~= Seq::<(Seq<char>, Seq<usize>)>::empty());
    while k < groups.len()
        invariant
            k <= groups.len(),
            groups_view(r@) == sort_groups(groups_view(groups@).take(k as int)),
            total_size(groups_view(r@)) == total_size(groups_view(groups@).take(k as int)),
            forall|g: int, k: int| 0 <= g < groups.len() && 0 <= k < groups@[g].1.len() ==> groups@[g].1@[k] < bound,
            forall|g: int, k: int| 0 <= g < r.len() && 0 <= k < r@[g].1.len() ==> r@[g].1@[k] < bound,
        decreases groups.len() - k,
    {
        let ghost rv = groups_view(r@);
        let x = (groups[k].0.clone(), groups[k].1.clone());
        let mut p: usize = 0;
        while p < r.len() && !group_precedes(&x, &r[p])
            invariant
                p <= r.len(),
                rv == groups_view(r@),
                forall|q: int| 0 <= q < p ==> !group_before((x.0@, x.1@), #[trigger] rv[q]),
            decreases r.len() - p,
        {
            p += 1;
        }
        proof {
            lemma_group_slot(rv, (x.0@, x.1@), p as int);
            lemma_total_insert(rv, p as int, (x.0@, x.1@));
            let pre = groups_view(groups@).take(k + 1);
            assert(pre.drop_last() =~= groups_view(groups@).take(k as int));
            assert(pre.last() == (x.0@, x.1@));
        }
        let ghost r0 = r@;
        r.insert(p, x);
        assert(groups_view(r@) =~= rv.insert(p as int, (x.0@, x.1@)));
        assert forall|g: int, j: int| 0 <= g < r.len() && 0 <= j < r@[g].1.len() implies r@[g].1@[j] < bound by {
            if g < p {
                assert(r@[g] == r0[g]);
            } else if g == p {
                assert(r@[g].1@ == groups@[k as int].1@);
            } else {
                assert(r@[g] == r0[g - 1]);
            }
        }
        k += 1;
    }
    assert(groups_view(groups@).take(groups.len() as int) =~= groups_view(groups@));
    r
}

/// Functions as mathematical values.
pub open spec fn mined_view(v: Seq<Mined>) -> Seq<MinedV> {
    v.map_values(|m: Mined| m@)
}

/// Every function of the list is named by a lowercase identifier.
pub open spec fn names_ident(s: Seq<MinedV>) -> bool {
    forall|i: int| 0 <= i < s.len() ==> lower_ident(#[trigger] s[i].name)
}

proof fn lemma_mine_upto_prefix(items: Seq<(String, Vec<Token>)>, s: Seq<Seq<usize>>, c: Seq<usize>, m: nat, k: int)
    requires
        0 <= k <= s.len(),
    ensures
        mine_upto(items, s.push(c), m, k) == mine_upto(items, s, m, k),
    decreases k,
{
    if k > 0 {
        lemma_mine_upto_prefix(items, s, c, m, k - 1);
        assert(s.push(c)[k - 1] == s[k - 1]);
    }
}



/// Mines one cluster, the one after the clusters `acc` already mined.
fn mine_one(
    items: &[(String, Vec<Token>)],
    c: &Vec<usize>,
    min_uses: usize,
    out: &mut Vec<Mined>,
    withheld: &mut usize,
    used: &mut Vec<(String, usize)>,
    Ghost(acc): Ghost<Seq<Seq<usize>>>,
    Ghost(counts): Ghost<Map<Seq<char>, nat>>,
) -> (counts2: Ghost<Map<Seq<char>, nat>>)
    requires
        forall|k: int| 0 <= k < c.len() ==> c@[k] < items.len(),
        (mined_view(old(out)@), *old(withheld) as nat, counts) == mine_upto(items@, acc, min_uses as nat, acc.len() as int),
        forall|b: Seq<char>| count_of(old(used)@, b) == get_count(counts, b),
        forall|b: Seq<char>| get_count(counts, b) <= acc.len(),
        *old(withheld) <= acc.len(),
        acc.len() < usize::MAX,
        names_ident(mined_view(old(out)@)),
    ensures
        (mined_view(final(out)@), *final(withheld) as nat, counts2@) == mine_upto(items@, acc.push(c@), min_uses as nat, (acc.len() + 1) as int),
        names_ident(mined_view(final(out)@)),
        forall|b: Seq<char>| count_of(final(used)@, b) == get_count(counts2@, b),
        forall|b: Seq<char>| get_count(counts2@, b) <= acc.len() + 1,
        *final(withheld) <= acc.len() + 1,
{
    let ghost acc1 = acc.push(c@);
    proof {
        lemma_mine_upto_prefix(items@, acc, c@, min_uses as nat, acc.len() as int);
        assert(acc1[acc.len() as int] == c@);
    }
    if c.len() >= min_uses {
        assert forall|b: Seq<char>| count_of(used@, b) < usize::MAX by {
            assert(get_count(counts, b) <= acc.len());
        }
        match generalize(items, c, min_uses, used) {
            Some(m) => {
                let ghost t = template_of(items@, c@, min_uses as nat)->0;
                let ghost base = name_base(t.const_words);
                let ghost counts2 = counts.insert(base, get_count(counts, base) + 1);
                if looks_secret(m.body.as_str()) {
                    *withheld = *withheld + 1;
                } else {
                    let ghost o0 = out@;
                    out.push(m);
                    assert(mined_view(out@) =~= mined_view(o0).push(m@));
                    assert(mined_view(out@)[o0.len() as int].name == m.name@);
                }
                assert forall|b: Seq<char>| count_of(used@, b) == get_count(counts2, b) by {
                    if b != base {
                        assert(get_count(counts2, b) == get_count(counts, b));
                    }
                }
                assert forall|b: Seq<char>| get_count(counts2, b) <= acc.len() + 1 by {
                    assert(get_count(counts, b) <= acc.len());
                }
                return Ghost(counts2);
            },
            None => {},
        }
    }
    Ghost(counts)
}

/// The groups of the history by command word, in the order they are mined.
pub fn command_groups(items: &[(String, Vec<Token>)]) -> (r: Vec<Vec<usize>>)
    requires
        forall|i: int| 0 <= i < items.len() ==> items@[i].1.len() > 0,
    ensures
        r@.map_values(|g: Vec<usize>| g@) == groups_of(items@),
        forall|g: int, k: int| 0 <= g < r.len() && 0 <= k < r@[g].len() ==> r@[g]@[k] < items.len(),
{
    let groups0 = group_heads(items);
    let groups = sort_group_list(groups0, Ghost(items.len() as nat));
    let ghost gv = groups_view(groups@);
    let mut r: Vec<Vec<usize>> = Vec::new();
    let mut g: usize = 0;
    while g < groups.len()
        invariant
            g <= groups.len(),
            gv == groups_view(groups@),
            r.len() == g,
            r@.map_values(|x: Vec<usize>| x@) == Seq::new(g as nat, |i: int| gv[i].1),
            forall|i: int, k: int| 0 <= i < groups.len() && 0 <= k < groups@[i].1.len() ==> groups@[i].1@[k] < items.len(),
            forall|i: int, k: int| 0 <= i < r.len() && 0 <= k < r@[i].len() ==> r@[i]@[k] < items.len(),
        decreases groups.len() - g,
    {
        let ghost r0 = r@;
        let members = groups[g].1.clone();
        assert(members@ =~= groups@[g as int].1@);
        r.push(members);
        assert(gv[g as int].1 == groups@[g as int].1@);
        assert forall|i: int| 0 <= i < g implies r@[i]@ == gv[i].1 by {
            assert(r@[i] == r0[i]);
            assert(r0.map_values(|x: Vec<usize>| x@)[i] == gv[i].1);
        }
        assert(r@.map_values(|x: Vec<usize>| x@) =~= Seq::new((g + 1) as nat, |i: int| gv[i].1));
        assert forall|i: int, k: int| 0 <= i < r.len() && 0 <= k < r@[i].len() implies r@[i]@[k] < items.len() by {
            if i < g {
                assert(r@[i] == r0[i]);
            }
        }
        g += 1;
    }
    r
}

/// Mines the history entries from their clusters: generalizes each cluster of at
/// least `min_uses` entries into a function, and withholds those whose body looks
/// like a credential. Gives the functions, most keystrokes saved first, and the
/// number withheld. Every function is named by a lowercase identifier.
#[verifier::loop_isolation(false)]
pub fn mine(items: &[(String, Vec<Token>)], clusters: &[Vec<usize>], min_uses: usize) -> (r: (Vec<Mined>, usize))
    requires
        forall|c: int, k: int| 0 <= c < clusters.len() && 0 <= k < clusters@[c].len() ==> clusters@[c]@[k] < items.len(),
        clusters.len() < usize::MAX,
    ensures
        mined_view(r.0@) == mined_result(items@, clusters@.map_values(|c: Vec<usize>| c@), min_uses as nat).0,
        r.1 == mined_result(items@, clusters@.map_values(|c: Vec<usize>| c@), min_uses as nat).1,
        names_ident(mined_view(r.0@)),
{
    let ghost cls = clusters@.map_values(|c: Vec<usize>| c@);
    let mut out: Vec<Mined> = Vec::new();
    let mut withheld: usize = 0;
    let mut used: Vec<(String, usize)> = Vec::new();
    let ghost mut counts: Map<Seq<char>, nat> = Map::empty();
    assert(mined_view(out@) =~= Seq::<MinedV>::empty());
    let mut ci: usize = 0;
    while ci < clusters.len()
        invariant
            ci <= clusters.len(),
            clusters.len() < usize::MAX,
            cls == clusters@.map_values(|c: Vec<usize>| c@),
            (mined_view(out@), withheld as nat, counts) == mine_upto(items@, cls.take(ci as int), min_uses as nat, ci as int),
            forall|b: Seq<char>| count_of(used@, b) == get_count(counts, b),
            forall|b: Seq<char>| get_count(counts, b) <= ci,
            withheld <= ci,
            names_ident(mined_view(out@)),
        decreases clusters.len() - ci,
    {
        let c = &clusters[ci];
        assert(cls[ci as int] == c@);
        let ghost acc = cls.take(ci as int);
        assert(acc.push(c@) =~= cls.take(ci + 1));
        let counts2 = mine_one(items, c, min_uses, &mut out, &mut withheld, &mut used, Ghost(acc), Ghost(counts));
        proof {
            counts = counts2@;
        }
        ci += 1;
    }
    proof {
        assert(cls.take(clusters.len() as int) =~= cls);
        lemma_mine_upto_take(items@, cls, min_uses as nat, clusters.len() as int);
    }
    let ghost before = mined_view(out@);
    let sorted = sort_mined(out);
    proof {
        lemma_sort_by_saved(before);
        assert forall|i: int| 0 <= i < sorted.len() implies lower_ident(#[trigger] mined_view(sorted@)[i].name) by {
            assert(before.contains(sort_by_saved(before)[i]));
        }
    }
    (sorted, withheld)
}

proof fn lemma_mine_upto_take(items: Seq<(String, Vec<Token>)>, s: Seq<Seq<usize>>, m: nat, k: int)
    requires
        0 <= k <= s.len(),
    ensures
        mine_upto(items, s.take(k), m, k) == mine_upto(items, s, m, k),
    decreases k,
{
    if k > 0 {
        lemma_mine_upto_take(items, s.take(k).drop_last(), m, k - 1);
        assert(s.take(k).drop_last() =~= s.take(k - 1));
        lemma_mine_upto_take(items, s, m, k - 1);
        lemma_mine_upto_take(items, s.take(k), m, k - 1);
        assert(s.take(k)[k - 1] == s[k - 1]);
    }
}

proof fn lemma_mined_slot(s: Seq<MinedV>, x: MinedV, p: int)
    requires
        0 <= p <= s.len(),
        forall|q: int| 0 <= q < p ==> !((#[trigger] s[q]).saved < x.saved),
        p < s.len() ==> s[p].saved < x.saved,
    ensures
        mined_slot(s, x) == p,
    decreases s.len(),
{
    if s.len() > 0 {
        if p < s.len() - 1 {
            lemma_mined_slot(s.drop_last(), x, p);
        } else {
            lemma_mined_slot(s.drop_last(), x, s.len() - 1);
        }
    }
}

/// Stable sort of the functions by saved keystrokes, most first.
fn sort_mined(v: Vec<Mined>) -> (r: Vec<Mined>)
    ensures
        mined_view(r@) == sort_by_saved(mined_view(v@)),
{
    let ghost v0 = mined_view(v@);
    let mut v = v;
    let mut r: Vec<Mined> = Vec::new();
    let ghost mut k: int = 0;
    assert(v0.take(0) =~= Seq::<MinedV>::empty());
    assert(mined_view(v@) =~= v0.skip(0));
    while v.len() > 0
        invariant
            0 <= k <= v0.len(),
            mined_view(v@) == v0.skip(k),
            mined_view(r@) == sort_by_saved(v0.take(k)),
        decreases v.len(),
    {
        let ghost vold = v@;
        let x = v.remove(0);
        let ghost rv = mined_view(r@);
        assert(mined_view(vold).len() == vold.len());
        assert(v0.skip(k).len() == v0.len() - k);
        assert(k < v0.len());
        assert(mined_view(vold)[0] == vold[0]@);
        assert(v0.skip(k)[0] == v0[k]);
        assert(x@ == v0[k]);
        let mut p: usize = 0;
        while p < r.len() && !(r[p].saved < x.saved)
            invariant
                p <= r.len(),
                rv == mined_view(r@),
                forall|q: int| 0 <= q < p ==> !((#[trigger] rv[q]).saved < x@.saved),
            decreases r.len() - p,
        {
            p += 1;
        }
        proof {
            lemma_mined_slot(rv, x@, p as int);
            assert(v0.take(k + 1).drop_last() =~= v0.take(k));
            assert(v0.take(k + 1).last() == x@);
        }
        r.insert(p, x);
        assert(mined_view(r@) =~= rv.insert(p as int, x@));
        assert forall|i: int| 0 <= i < v.len() implies #[trigger] mined_view(v@)[i] == v0.skip(k + 1)[i] by {
            assert(v@[i] == vold[i + 1]);
            assert(mined_view(vold)[i + 1] == v0.skip(k)[i + 1]);
        }
        assert(mined_view(v@) =~= v0.skip(k + 1));
        proof {
            k = k + 1;
        }
    }
    assert(v0.take(k) =~= v0);
    r
}

/// History entries as mathematical values.
pub open spec fn items_view(v: Seq<(String, Vec<Token>)>) -> Seq<(Seq<char>, Seq<TokenV>)> {
    v.map_values(|e: (String, Vec<Token>)| (e.0@, toks_view(e.1@)))
}

/// The mineable entries among the first `k` history commands: single-line ones that
/// tokenize into at least 3 tokens, with their tokens.
pub open spec fn mineable_upto(raw: Seq<Seq<char>>, k: int) -> Seq<(Seq<char>, Seq<TokenV>)>
    decreases k,
{
    if k <= 0 {
        Seq::empty()
    } else {
        let before = mineable_upto(raw, k - 1);
        let cmd = raw[k - 1];
        if cmd.contains('\n') {
            before
        } else {
            match tokens_of(cmd) {
                Some(t) => if t.len() >= 3 { before.push((cmd, t)) } else { before },
                None => before,
            }
        }
    }
}

/// The history commands worth mining, with their tokens.
pub fn mineable_items(raw: Vec<String>) -> (items: Vec<(String, Vec<Token>)>)
    ensures
        items_view(items@) == mineable_upto(strs_view(raw@), raw.len() as int),
        forall|i: int| 0 <= i < items.len() ==> items@[i].1.len() >= 3,
{
    let ghost rv = strs_view(raw@);
    let mut items: Vec<(String, Vec<Token>)> = Vec::new();
    let mut k: usize = 0;
    while k < raw.len()
        invariant
            k <= raw.len(),
            rv == strs_view(raw@),
            items_view(items@) == mineable_upto(rv, k as int),
            forall|i: int| 0 <= i < items.len() ==> items@[i].1.len() >= 3,
        decreases raw.len() - k,
    {
        let cmd = &raw[k];
        assert(rv[k as int] == cmd@);
        let cv = chars_of(cmd.as_str());
        if !has_char(&cv, '\n') {
            match tokenize(cmd.as_str()) {
                Some(toks) => {
                    if toks.len() >= 3 {
                        let ghost i0 = items@;
                        items.push((cmd.clone(), toks));
                        assert(items_view(items@) =~= items_view(i0).push((cmd@, toks_view(toks@))));
                    }
                },
                None => {},
            }
        }
        k += 1;
    }
    items
}

/// The functions to show: the first `top` of them, or all when `top` is 0.
pub fn keep_top(mined: Vec<Mined>, top: usize) -> (r: Vec<Mined>)
    ensures
        r@ == if top > 0 && mined.len() > top { mined@.subrange(0, top as int) } else { mined@ },
{
    let mut mined = mined;
    if top > 0 && mined.len() > top {
        mined.truncate(top);
    }
    mined
}


/// Functions ordered by saved keystrokes, most first.
pub open spec fn sorted_by_saved(s: Seq<MinedV>) -> bool {
    forall|i: int, j: int| 0 <= i < j < s.len() ==> (#[trigger] s[i]).saved >= (#[trigger] s[j]).saved
}

/// A function mining may give: it covers at least `min_uses` entries, takes between
/// one and `MAX_PARAMS` arguments, saves no negative number of keystrokes, and its
/// body does not look like a credential.
pub open spec fn qualifies(m: MinedV, min_uses: nat) -> bool {
    &&& m.n_entries >= min_uses
    &&& 1 <= m.n_params <= MAX_PARAMS
    &&& m.saved >= 0
    &&& !secret_text(m.body, lowercase(m.body))
}

proof fn lemma_saved_sum_nonneg(
    items: Seq<(String, Vec<Token>)>,
    members: Seq<usize>,
    name: Seq<char>,
    argv: Seq<Seq<Seq<char>>>,
)
    ensures
        saved_sum(items, members, name, argv) >= 0,
    decreases members.len(),
{
    if members.len() > 0 {
        lemma_saved_sum_nonneg(items, members.drop_last(), name, argv);
    }
}

proof fn lemma_mined_slot_sorted(t: Seq<MinedV>, x: MinedV)
    requires
        sorted_by_saved(t),
    ensures
        0 <= mined_slot(t, x) <= t.len(),
        forall|k: int| 0 <= k < mined_slot(t, x) ==> (#[trigger] t[k]).saved >= x.saved,
        forall|k: int| mined_slot(t, x) <= k < t.len() ==> (#[trigger] t[k]).saved < x.saved,
    decreases t.len(),
{
    if t.len() > 0 {
        let d = t.drop_last();
        assert(sorted_by_saved(d)) by {
            assert forall|i: int, j: int| 0 <= i < j < d.len() implies (#[trigger] d[i]).saved >= (#[trigger] d[j]).saved by {
                assert(d[i] == t[i] && d[j] == t[j]);
            }
        }
        lemma_mined_slot_sorted(d, x);
        let p = mined_slot(d, x);
        assert forall|k: int| 0 <= k < d.len() implies (#[trigger] t[k]) == d[k] by {}
        if p < t.len() - 1 {
            assert(t[p].saved >= t[t.len() - 1].saved);
        }
    }
}

proof fn lemma_sort_by_saved(s: Seq<MinedV>)
    ensures
        sorted_by_saved(sort_by_saved(s)),
        sort_by_saved(s).len() == s.len(),
        forall|i: int| 0 <= i < s.len() ==> s.contains(#[trigger] sort_by_saved(s)[i]),
    decreases s.len(),
{
    if s.len() > 0 {
        let d = s.drop_last();
        lemma_sort_by_saved(d);
        let t = sort_by_saved(d);
        let x = s.last();
        lemma_mined_slot_sorted(t, x);
        let p = mined_slot(t, x);
        let r = t.insert(p, x);
        assert(r == sort_by_saved(s));
        assert forall|i: int| 0 <= i < r.len() implies s.contains(#[trigger] r[i]) by {
            if i < p {
                assert(r[i] == t[i]);
                let j = choose|j: int| 0 <= j < d.len() && d[j] == t[i];
                assert(s[j] == d[j]);
            } else if i == p {
                assert(s[s.len() - 1] == x);
            } else {
                assert(r[i] == t[i - 1]);
                let j = choose|j: int| 0 <= j < d.len() && d[j] == t[i - 1];
                assert(s[j] == d[j]);
            }
        }
        assert forall|i: int, j: int| 0 <= i < j < r.len() implies (#[trigger] r[i]).saved >= (#[trigger] r[j]).saved by {
            if j < p {
                assert(r[i] == t[i] && r[j] == t[j]);
            } else if j == p {
                assert(r[i] == t[i]);
            } else if i < p {
                assert(r[i] == t[i] && r[j] == t[j - 1]);
            } else if i == p {
                assert(r[j] == t[j - 1]);
            } else {
                assert(r[i] == t[i - 1] && r[j] == t[j - 1]);
            }
        }
    }
}

proof fn lemma_mine_upto_qualifies(items: Seq<(String, Vec<Token>)>, cls: Seq<Seq<usize>>, min_uses: nat, k: int)
    ensures
        forall|i: int| 0 <= i < mine_upto(items, cls, min_uses, k).0.len() ==> qualifies(#[trigger] mine_upto(items, cls, min_uses, k).0[i], min_uses),
    decreases k,
{
    if k > 0 {
        lemma_mine_upto_qualifies(items, cls, min_uses, k - 1);
        let (out, withheld, counts) = mine_upto(items, cls, min_uses, k - 1);
        let c = cls[k - 1];
        if c.len() >= min_uses {
            match template_of(items, c, min_uses) {
                None => {},
                Some(t) => {
                    let base = name_base(t.const_words);
                    let n = get_count(counts, base) + 1;
                    let m = mined_of(items, t, n);
                    assert(m.n_entries == t.members.len());
                    assert(m.n_params == t.argv.len());
                    lemma_saved_sum_nonneg(items, t.members, m.name, t.argv);
                    if !secret_text(m.body, lowercase(m.body)) {
                        let r = mine_upto(items, cls, min_uses, k).0;
                        assert(r == out.push(m));
                        assert forall|i: int| 0 <= i < r.len() implies qualifies(#[trigger] r[i], min_uses) by {
                            if i < out.len() {
                                assert(r[i] == out[i]);
                            }
                        }
                    }
                },
            }
        }
    }
}

/// What mining gives is ordered by saved keystrokes, most first, and each function
/// in it covers at least `min_uses` history entries, takes one to `MAX_PARAMS`
/// arguments, saves no negative number of keystrokes, and has a body that does not
/// look like a credential.
pub proof fn lemma_mined_functions_qualify(items: Seq<(String, Vec<Token>)>, cls: Seq<Seq<usize>>, min_uses: nat)
    ensures
        sorted_by_saved(mined_result(items, cls, min_uses).0),
        forall|i: int| 0 <= i < mined_result(items, cls, min_uses).0.len() ==> qualifies(#[trigger] mined_result(items, cls, min_uses).0[i], min_uses),
{
    let out = mine_upto(items, cls, min_uses, cls.len() as int).0;
    lemma_mine_upto_qualifies(items, cls, min_uses, cls.len() as int);
    lemma_sort_by_saved(out);
    let r = sort_by_saved(out);
    assert forall|i: int| 0 <= i < r.len() implies qualifies(#[trigger] r[i], min_uses) by {
        assert(out.contains(r[i]));
        let j = choose|j: int| 0 <= j < out.len() && out[j] == r[i];
        assert(qualifies(out[j], min_uses));
    }
}


/// Function `m` is the one made from the template of some cluster in `cls`: its
/// body, entry count, parameter count and examples are the template's.
pub open spec fn from_template(items: Seq<(String, Vec<Token>)>, cls: Seq<Seq<usize>>, min_uses: nat, m: MinedV) -> bool {
    exists|k: int| 0 <= k < cls.len() && made_from(items, m, #[trigger] template_of(items, cls[k], min_uses))
}

/// `m` has the body, entry count and parameter count of template `t`, if any, the
/// first member's command as its example, and its example call is its name with the
/// first member's values.
pub open spec fn made_from(items: Seq<(String, Vec<Token>)>, m: MinedV, t: Option<TemplateV>) -> bool {
    match t {
        Some(t) => {
            &&& m.body == t.body
            &&& m.n_entries == t.members.len()
            &&& m.n_params == t.argv.len()
            &&& m.from_example == items[t.members[0] as int].0@
            &&& m.try_example == try_line(m.name, t.argv)
        },
        None => false,
    }
}

proof fn lemma_mine_upto_from(items: Seq<(String, Vec<Token>)>, cls: Seq<Seq<usize>>, min_uses: nat, k: int)
    requires
        0 <= k <= cls.len(),
    ensures
        forall|i: int| 0 <= i < mine_upto(items, cls, min_uses, k).0.len() ==> from_template(items, cls, min_uses, #[trigger] mine_upto(items, cls, min_uses, k).0[i]),
    decreases k,
{
    if k > 0 {
        lemma_mine_upto_from(items, cls, min_uses, k - 1);
        let (out, withheld, counts) = mine_upto(items, cls, min_uses, k - 1);
        let c = cls[k - 1];
        if c.len() >= min_uses {
            match template_of(items, c, min_uses) {
                None => {},
                Some(t) => {
                    let base = name_base(t.const_words);
                    let n = get_count(counts, base) + 1;
                    let m = mined_of(items, t, n);
                    if !secret_text(m.body, lowercase(m.body)) {
                        let r = mine_upto(items, cls, min_uses, k).0;
                        assert(r == out.push(m));
                        assert(template_of(items, cls[k - 1], min_uses) == Some(t));
                        assert(made_from(items, m, template_of(items, cls[k - 1], min_uses)));
                        assert(from_template(items, cls, min_uses, m));
                        assert forall|i: int| 0 <= i < r.len() implies from_template(items, cls, min_uses, #[trigger] r[i]) by {
                            if i < out.len() {
                                assert(r[i] == out[i]);
                            }
                        }
                    }
                },
            }
        }
    }
}

/// Every function mining gives is made from the template of one of the clusters of
/// the history: it has that template's body, entry count and parameter count, the
/// first member's command as its example, and that member's values in its example
/// call.
pub proof fn lemma_mined_from_templates(items: Seq<(String, Vec<Token>)>, cls: Seq<Seq<usize>>, min_uses: nat)
    ensures
        forall|i: int| 0 <= i < mined_result(items, cls, min_uses).0.len() ==> from_template(items, cls, min_uses, #[trigger] mined_result(items, cls, min_uses).0[i]),
{
    let out = mine_upto(items, cls, min_uses, cls.len() as int).0;
    lemma_mine_upto_from(items, cls, min_uses, cls.len() as int);
    lemma_sort_by_saved(out);
    let r = sort_by_saved(out);
    assert forall|i: int| 0 <= i < r.len() implies from_template(items, cls, min_uses, #[trigger] r[i]) by {
        assert(out.contains(r[i]));
        let j = choose|j: int| 0 <= j < out.len() && out[j] == r[i];
        assert(from_template(items, cls, min_uses, out[j]));
    }
}


/// The bodies of a list of functions, as a multiset.
pub open spec fn bodies(s: Seq<MinedV>) -> Multiset<Seq<char>> {
    s.map_values(|m: MinedV| m.body).to_multiset()
}

proof fn lemma_bodies_push(s: Seq<MinedV>, m: MinedV)
    ensures
        bodies(s.push(m)) == bodies(s).insert(m.body),
{
    assert(s.push(m).map_values(|m: MinedV| m.body) =~= s.map_values(|m: MinedV| m.body).push(m.body));
    vstd::seq_lib::to_multiset_build(s.map_values(|m: MinedV| m.body), m.body);
}

proof fn lemma_bodies_sorted(s: Seq<MinedV>)
    ensures
        bodies(sort_by_saved(s)) == bodies(s),
    decreases s.len(),
{
    if s.len() > 0 {
        let d = s.drop_last();
        lemma_bodies_sorted(d);
        lemma_sort_by_saved(d);
        let t = sort_by_saved(d);
        let x = s.last();
        lemma_mined_slot_sorted(t, x);
        let p = mined_slot(t, x);
        let f = |m: MinedV| m.body;
        assert(t.insert(p, x).map_values(f) =~= t.map_values(f).insert(p, x.body));
        vstd::seq_lib::to_multiset_insert(t.map_values(f), p, x.body);
        assert(s == d.push(x));
        lemma_bodies_push(d, x);
    }
}

proof fn lemma_template_min(items: Seq<(String, Vec<Token>)>, c: Seq<usize>, k1: nat, k2: nat)
    requires
        k1 <= k2,
        template_of(items, c, k2) is Some,
    ensures
        template_of(items, c, k1) == template_of(items, c, k2),
{
}

proof fn lemma_mine_upto_min(items: Seq<(String, Vec<Token>)>, cls: Seq<Seq<usize>>, k1: nat, k2: nat, k: int)
    requires
        k1 <= k2,
    ensures
        bodies(mine_upto(items, cls, k2, k).0).subset_of(bodies(mine_upto(items, cls, k1, k).0)),
        mine_upto(items, cls, k2, k).1 <= mine_upto(items, cls, k1, k).1,
    decreases k,
{
    broadcast use vstd::multiset::group_multiset_axioms;
    if k > 0 {
        lemma_mine_upto_min(items, cls, k1, k2, k - 1);
        let (o1, w1, n1) = mine_upto(items, cls, k1, k - 1);
        let (o2, w2, n2) = mine_upto(items, cls, k2, k - 1);
        let r1 = mine_upto(items, cls, k1, k).0;
        let r2 = mine_upto(items, cls, k2, k).0;
        let c = cls[k - 1];
        if c.len() >= k1 {
            if let Some(t) = template_of(items, c, k1) {
                let m1 = mined_of(items, t, get_count(n1, name_base(t.const_words)) + 1);
                if !secret_text(m1.body, lowercase(m1.body)) {
                    assert(r1 == o1.push(m1));
                    lemma_bodies_push(o1, m1);
                }
            }
        }
        if c.len() >= k2 {
            if let Some(t) = template_of(items, c, k2) {
                lemma_template_min(items, c, k1, k2);
                let m1 = mined_of(items, t, get_count(n1, name_base(t.const_words)) + 1);
                let m2 = mined_of(items, t, get_count(n2, name_base(t.const_words)) + 1);
                assert(m1.body == m2.body);
                if !secret_text(m2.body, lowercase(m2.body)) {
                    assert(r2 == o2.push(m2));
                    lemma_bodies_push(o2, m2);
                }
            }
        }
    }
}

/// Raising the minimum number of uses only removes functions: the bodies mined with
/// the higher minimum are among those mined with the lower one, and no more are
/// withheld.
pub proof fn lemma_raising_min_only_removes(items: Seq<(String, Vec<Token>)>, cls: Seq<Seq<usize>>, k1: nat, k2: nat)
    requires
        k1 <= k2,
    ensures
        bodies(mined_result(items, cls, k2).0).subset_of(bodies(mined_result(items, cls, k1).0)),
        mined_result(items, cls, k2).1 <= mined_result(items, cls, k1).1,
{
    lemma_mine_upto_min(items, cls, k1, k2, cls.len() as int);
    lemma_bodies_sorted(mine_upto(items, cls, k1, cls.len() as int).0);
    lemma_bodies_sorted(mine_upto(items, cls, k2, cls.len() as int).0);
}

/// No function mining gives has a body whose lowercase form holds a credential
/// keyword (`key=`, `token=`, `secret=`, `password=`, `passwd=`, `bearer `,
/// `authorization:`, `ghp_`, `github_pat_`, `xoxb-`, `xoxp-`), or that holds `AKIA`
/// or 32 hexadecimal digits in a row: such templates are withheld.
pub proof fn lemma_mined_bodies_hold_no_credential(items: Seq<(String, Vec<Token>)>, cls: Seq<Seq<usize>>, min_uses: nat)
    ensures
        forall|i: int| 0 <= i < mined_result(items, cls, min_uses).0.len() ==> {
            let b = (#[trigger] mined_result(items, cls, min_uses).0[i]).body;
            let lower = lowercase(b);
            &&& !contains(lower, "key="@)
            &&& !contains(lower, "token="@)
            &&& !contains(lower, "secret="@)
            &&& !contains(lower, "password="@)
            &&& !contains(lower, "passwd="@)
            &&& !contains(lower, "bearer "@)
            &&& !contains(lower, "authorization:"@)
            &&& !contains(lower, "ghp_"@)
            &&& !contains(lower, "github_pat_"@)
            &&& !contains(lower, "xoxb-"@)
            &&& !contains(lower, "xoxp-"@)
            &&& !contains(b, "AKIA"@)
            &&& forall|j: int| !hex_digits_from(b, j)
        },
{
    lemma_mined_functions_qualify(items, cls, min_uses);
    assert forall|i: int| 0 <= i < mined_result(items, cls, min_uses).0.len() implies {
        let b = (#[trigger] mined_result(items, cls, min_uses).0[i]).body;
        let lower = lowercase(b);
        &&& !contains(lower, "key="@)
        &&& !contains(lower, "token="@)
        &&& !contains(lower, "secret="@)
        &&& !contains(lower, "password="@)
        &&& !contains(lower, "passwd="@)
        &&& !contains(lower, "bearer "@)
        &&& !contains(lower, "authorization:"@)
        &&& !contains(lower, "ghp_"@)
        &&& !contains(lower, "github_pat_"@)
        &&& !contains(lower, "xoxb-"@)
        &&& !contains(lower, "xoxp-"@)
        &&& !contains(b, "AKIA"@)
        &&& forall|j: int| !hex_digits_from(b, j)
    } by {
        let m = mined_result(items, cls, min_uses).0[i];
        assert(qualifies(m, min_uses));
        lemma_credential_markers(m.body, lowercase(m.body));
    }
}

} // verus!
