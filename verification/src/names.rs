use vstd::prelude::*;
use vstd::utf8::encode_utf8;
use crate::text::{chars_of, string_of, push_char, push_all, has_char, lowercase, decimal, digit_char, push_decimal, is_ascii_upper};
use crate::words::{sanitized, sanitize, trim_start_char, lower_ident, ident_shape, word_parts, is_ascii_alnum};

verus! {

/// The characters of each string.
pub open spec fn strs_view(v: Seq<String>) -> Seq<Seq<char>> {
    v.map_values(|s: String| s@)
}

/// The number of bytes of the UTF-8 encoding of `s`.
pub open spec fn byte_len(s: Seq<char>) -> nat {
    (encode_utf8(s).len() as usize) as nat
}

/// The byte length of a string, as `str::len` gives it.
pub fn byte_len_of(s: &String) -> (n: usize)
    ensures
        n == byte_len(s@),
{
    s.as_str().len()
}

/// Whether `v` holds a string equal to `s`.
pub fn holds_string(v: &Vec<String>, s: &String) -> (b: bool)
    ensures
        b == strs_view(v@).contains(s@),
{
    let mut i: usize = 0;
    while i < v.len()
        invariant
            i <= v.len(),
            forall|k: int| 0 <= k < i ==> v@[k]@ != s@,
        decreases v.len() - i,
    {
        if v[i] == *s {
            assert(strs_view(v@)[i as int] == s@);
            return true;
        }
        i += 1;
    }
    assert forall|k: int| 0 <= k < strs_view(v@).len() implies strs_view(v@)[k] != s@ by {
        assert(strs_view(v@)[k] == v@[k]@);
    }
    false
}

/// The part of `s` after its last `c` (all of `s` when `c` does not occur).
pub open spec fn after_last(s: Seq<char>, c: char) -> Seq<char>
    decreases s.len(),
{
    if s.len() == 0 {
        s
    } else if s.last() == c {
        Seq::empty()
    } else {
        after_last(s.drop_last(), c).push(s.last())
    }
}

/// The part of `s` before its first `c` (all of `s` when `c` does not occur).
pub open spec fn before_first(s: Seq<char>, c: char) -> Seq<char>
    decreases s.len(),
{
    if s.len() == 0 {
        s
    } else if s[0] == c {
        Seq::empty()
    } else {
        seq![s[0]] + before_first(s.drop_first(), c)
    }
}

pub(crate) proof fn lemma_after_last(s: Seq<char>, c: char, i: int)
    requires
        0 <= i <= s.len(),
        forall|k: int| i <= k < s.len() ==> s[k] != c,
        i == 0 || s[i - 1] == c,
    ensures
        after_last(s, c) == s.subrange(i, s.len() as int),
    decreases s.len(),
{
    if s.len() == 0 {
    } else if i == s.len() {
        assert(s.subrange(i, s.len() as int) =~= Seq::<char>::empty());
    } else {
        lemma_after_last(s.drop_last(), c, i);
        assert(s.drop_last().subrange(i, s.len() - 1).push(s.last()) =~= s.subrange(i, s.len() as int));
    }
}

proof fn lemma_before_first(s: Seq<char>, c: char, j: int)
    requires
        0 <= j <= s.len(),
        forall|k: int| 0 <= k < j ==> s[k] != c,
        j == s.len() || s[j] == c,
    ensures
        before_first(s, c) == s.subrange(0, j),
    decreases s.len(),
{
    if s.len() == 0 {
    } else if j == 0 {
        assert(s.subrange(0, 0) =~= Seq::<char>::empty());
    } else {
        lemma_before_first(s.drop_first(), c, j - 1);
        assert(seq![s[0]] + s.drop_first().subrange(0, j - 1) =~= s.subrange(0, j));
    }
}

/// The base name of a command word: after the last `/`, before the first `.`.
pub open spec fn head_base(h: Seq<char>) -> Seq<char> {
    before_first(after_last(h, '/'), '.')
}

fn head_base_of(h: &str) -> (r: String)
    ensures
        r@ == head_base(h@),
{
    let v = chars_of(h);
    let mut i: usize = v.len();
    while i > 0 && v[i - 1] != '/'
        invariant
            i <= v.len(),
            forall|k: int| i <= k < v.len() ==> v@[k] != '/',
        decreases i,
    {
        i -= 1;
    }
    proof {
        lemma_after_last(v@, '/', i as int);
    }
    let ghost a = v@.subrange(i as int, v.len() as int);
    let mut j: usize = i;
    while j < v.len() && v[j] != '.'
        invariant
            i <= j <= v.len(),
            forall|k: int| i <= k < j ==> v@[k] != '.',
        decreases v.len() - j,
    {
        j += 1;
    }
    proof {
        lemma_before_first(a, '.', j - i);
        assert(a.subrange(0, j - i) =~= v@.subrange(i as int, j as int));
    }
    string_of(&v, i, j)
}

/// The name part taken from the command word itself, if it is usable.
pub open spec fn head_part(h: Seq<char>) -> Seq<Seq<char>> {
    let s = sanitized(lowercase(head_base(h)));
    if s.len() > 0 && byte_len(s) <= 16 && !h.contains('=') {
        seq![s]
    } else {
        Seq::empty()
    }
}

/// A word that cannot serve in a name.
pub open spec fn unfit_word(w: Seq<char>) -> bool {
    w.contains('/') || w.contains('=') || w.contains(':') || byte_len(w) > 16
}

/// Goes through the words after the command word, gathering name parts and flag
/// names; stops once three parts are gathered.
pub open spec fn gather(ws: Seq<Seq<char>>, parts: Seq<Seq<char>>, flags: Seq<Seq<char>>) -> (
    Seq<Seq<char>>,
    Seq<Seq<char>>,
)
    decreases ws.len(),
{
    if ws.len() == 0 || parts.len() >= 3 {
        (parts, flags)
    } else {
        let w = ws[0];
        if w.len() > 0 && w[0] == '-' {
            let s = sanitized(lowercase(trim_start_char(w, '-')));
            let f = if s.len() > 0 && byte_len(s) <= 12 { flags.push(s) } else { flags };
            gather(ws.drop_first(), parts, f)
        } else if unfit_word(w) {
            gather(ws.drop_first(), parts, flags)
        } else {
            let s = sanitized(lowercase(w));
            let p = if s.len() > 0 && !parts.contains(s) { parts.push(s) } else { parts };
            gather(ws.drop_first(), p, flags)
        }
    }
}

/// Tops the parts up to two with flag names, in order, skipping repeats.
pub open spec fn fill_flags(parts: Seq<Seq<char>>, flags: Seq<Seq<char>>) -> Seq<Seq<char>>
    decreases flags.len(),
{
    if parts.len() >= 2 || flags.len() == 0 {
        parts
    } else {
        let p = if parts.contains(flags[0]) { parts } else { parts.push(flags[0]) };
        fill_flags(p, flags.drop_first())
    }
}

/// The parts of a name made from the constant words of a template.
pub open spec fn name_parts(words: Seq<Seq<char>>) -> Seq<Seq<char>> {
    let g = gather(words.drop_first(), head_part(words[0]), Seq::empty());
    let p = fill_flags(g.0, g.1);
    if p.len() == 0 {
        seq!["cmd"@]
    } else {
        p
    }
}

/// Parts joined with `_`.
pub open spec fn join_us(parts: Seq<Seq<char>>) -> Seq<char>
    decreases parts.len(),
{
    if parts.len() == 0 {
        Seq::empty()
    } else if parts.len() == 1 {
        parts[0]
    } else {
        join_us(parts.drop_last()) + seq!['_'] + parts.last()
    }
}

/// The name a template gets before numbering: its parts joined with `_`, with `_x`
/// added when that would be the command word itself.
pub open spec fn name_base(words: Seq<Seq<char>>) -> Seq<char> {
    let b = join_us(name_parts(words));
    if b == words[0] {
        b + "_x"@
    } else {
        b
    }
}

/// How many names have been made from `base` so far.
pub open spec fn count_of(used: Seq<(String, usize)>, base: Seq<char>) -> nat
    decreases used.len(),
{
    if used.len() == 0 {
        0
    } else if used.last().0@ == base {
        used.last().1 as nat
    } else {
        count_of(used.drop_last(), base)
    }
}

/// The name made the `n`-th time from `base`: the base itself the first time,
/// then `base_n`.
pub open spec fn numbered(base: Seq<char>, n: nat) -> Seq<char> {
    if n == 1 {
        base
    } else {
        base + seq!['_'] + decimal(n)
    }
}


proof fn lemma_count_of_update(used: Seq<(String, usize)>, i: int, e: (String, usize))
    requires
        0 <= i < used.len(),
        e.0@ == used[i].0@,
        forall|k: int| i < k < used.len() ==> used[k].0@ != used[i].0@,
    ensures
        count_of(used.update(i, e), e.0@) == e.1,
        forall|b: Seq<char>| b != e.0@ ==> count_of(used.update(i, e), b) == count_of(used, b),
        count_of(used, e.0@) == used[i].1,
    decreases used.len(),
{
    if i == used.len() - 1 {
        assert(used.update(i, e).drop_last() =~= used.drop_last());
        assert forall|b: Seq<char>| b != e.0@ implies count_of(used.update(i, e), b) == count_of(used, b) by {
            assert(used.update(i, e).last() == e);
        }
    } else {
        lemma_count_of_update(used.drop_last(), i, e);
        assert(used.update(i, e).drop_last() =~= used.drop_last().update(i, e));
        assert(used.update(i, e).last() == used.last());
        assert forall|b: Seq<char>| b != e.0@ implies count_of(used.update(i, e), b) == count_of(used, b) by {
            assert(count_of(used.drop_last().update(i, e), b) == count_of(used.drop_last(), b));
            assert(count_of(used.update(i, e), b) == if used.last().0@ == b {
                used.last().1 as nat
            } else {
                count_of(used.update(i, e).drop_last(), b)
            });
        }
    }
}

proof fn lemma_count_of_at(used: Seq<(String, usize)>, i: int)
    requires
        0 <= i < used.len(),
        forall|k: int| i < k < used.len() ==> used[k].0@ != used[i].0@,
    ensures
        count_of(used, used[i].0@) == used[i].1,
    decreases used.len(),
{
    if i < used.len() - 1 {
        lemma_count_of_at(used.drop_last(), i);
    }
}

proof fn lemma_count_of_absent(used: Seq<(String, usize)>, b: Seq<char>)
    requires
        forall|k: int| 0 <= k < used.len() ==> used[k].0@ != b,
    ensures
        count_of(used, b) == 0,
    decreases used.len(),
{
    if used.len() > 0 {
        lemma_count_of_absent(used.drop_last(), b);
    }
}

/// Counts one more name made from `base` and gives the new count.
fn bump(used: &mut Vec<(String, usize)>, base: &String) -> (n: usize)
    requires
        count_of(old(used)@, base@) < usize::MAX,
    ensures
        n == count_of(old(used)@, base@) + 1,
        count_of(final(used)@, base@) == n,
        forall|b: Seq<char>| b != base@ ==> count_of(final(used)@, b) == count_of(old(used)@, b),
{
    let mut i: usize = used.len();
    while i > 0 && used[i - 1].0 != *base
        invariant
            i <= used.len(),
            forall|k: int| i <= k < used.len() ==> used@[k].0@ != base@,
        decreases i,
    {
        i -= 1;
    }
    if i == 0 {
        proof {
            lemma_count_of_absent(used@, base@);
        }
        let ghost u0 = used@;
        used.push((base.clone(), 1));
        assert(used@.drop_last() =~= u0);
        return 1;
    }
    let k = i - 1;
    let c = used[k].1;
    proof {
        lemma_count_of_at(used@, k as int);
    }
    let e = (base.clone(), c + 1);
    proof {
        lemma_count_of_update(used@, k as int, e);
    }
    used.set(k, e);
    c + 1
}

/// Parts that can be joined into a name: each a nonempty lowercase identifier.
pub open spec fn name_ready(parts: Seq<Seq<char>>) -> bool {
    forall|i: int| #![trigger parts[i]] 0 <= i < parts.len() ==> parts[i].len() > 0 && lower_ident(parts[i])
}

proof fn lemma_join_two(a: Seq<char>, b: Seq<char>)
    requires
        a.len() > 0 && lower_ident(a),
        b.len() > 0 && lower_ident(b),
    ensures
        lower_ident(a + seq!['_'] + b),
{
    let r = a + seq!['_'] + b;
    let n = a.len() as int;
    assert forall|k: int| 0 <= k < r.len() implies (is_ascii_alnum(#[trigger] r[k]) || r[k] == '_')
        && !is_ascii_upper(r[k]) by {
        if k < n {
            assert(r[k] == a[k]);
        } else if k > n {
            assert(r[k] == b[k - n - 1]);
        }
    }
    assert forall|k: int| 0 < k < r.len() implies !(#[trigger] r[k] == '_' && r[k - 1] == '_') by {
        if k < n {
            assert(r[k] == a[k] && r[k - 1] == a[k - 1]);
        } else if k == n {
            assert(r[k - 1] == a[n - 1]);
        } else if k == n + 1 {
            assert(r[k] == b[0]);
        } else {
            assert(r[k] == b[k - n - 1] && r[k - 1] == b[k - n - 2]);
        }
    }
    assert(r[0] == a[0]);
    assert(r.last() == b.last());
}

proof fn lemma_join_us_ready(parts: Seq<Seq<char>>)
    requires
        parts.len() > 0,
        name_ready(parts),
    ensures
        join_us(parts).len() > 0,
        lower_ident(join_us(parts)),
    decreases parts.len(),
{
    if parts.len() > 1 {
        lemma_join_us_ready(parts.drop_last());
        assert(parts.last() == parts[parts.len() - 1]);
        lemma_join_two(join_us(parts.drop_last()), parts.last());
    } else {
        assert(parts[0].len() > 0);
    }
}

proof fn lemma_decimal_ident(n: nat)
    ensures
        decimal(n).len() > 0,
        forall|k: int| 0 <= k < decimal(n).len() ==> '0' <= #[trigger] decimal(n)[k] <= '9',
        lower_ident(decimal(n)),
    decreases n,
{
    if n >= 10 {
        lemma_decimal_ident(n / 10);
        let d = decimal(n / 10);
        let r = decimal(n);
        assert(r == d.push(digit_char(n % 10)));
        assert forall|k: int| 0 <= k < r.len() implies '0' <= #[trigger] r[k] <= '9' by {
            if k < d.len() {
                assert(r[k] == d[k]);
            }
        }
    }
}

/// Joins the parts with `_`.
fn join_parts(parts: &Vec<String>) -> (r: String)
    ensures
        r@ == join_us(strs_view(parts@)),
{
    let mut out = String::new();
    if parts.len() == 0 {
        return out;
    }
    push_all(&mut out, parts[0].as_str());
    assert(strs_view(parts@).take(1) =~= seq![parts@[0]@]);
    let mut k: usize = 1;
    while k < parts.len()
        invariant
            1 <= k <= parts.len(),
            out@ == join_us(strs_view(parts@).take(k as int)),
        decreases parts.len() - k,
    {
        push_char(&mut out, '_');
        push_all(&mut out, parts[k].as_str());
        assert(strs_view(parts@).take(k + 1).drop_last() =~= strs_view(parts@).take(k as int));
        k += 1;
    }
    assert(strs_view(parts@).take(parts.len() as int) =~= strs_view(parts@));
    out
}

proof fn lemma_strs_view_push(v: Seq<String>, s: String)
    ensures
        strs_view(v.push(s)) == strs_view(v).push(s@),
{
    assert(strs_view(v.push(s)) =~= strs_view(v).push(s@));
}

/// The parts of a name made from the constant words of a template.
fn make_parts(const_words: &Vec<String>) -> (parts: Vec<String>)
    requires
        const_words.len() >= 1,
    ensures
        strs_view(parts@) == name_parts(strs_view(const_words@)),
        parts.len() > 0,
        name_ready(strs_view(parts@)),
{
    let ghost words = strs_view(const_words@);
    let head = &const_words[0];
    let mut parts: Vec<String> = Vec::new();
    let head_base = head_base_of(head.as_str());
    let head_sane = sanitize(head_base.as_str());
    let hv = chars_of(head.as_str());
    if !head_sane.as_str().is_empty() && byte_len_of(&head_sane) <= 16 && !has_char(&hv, '=') {
        parts.push(head_sane);
        assert(strs_view(parts@)[0] == head_sane@);
    }
    assert(strs_view(parts@) =~= head_part(words[0]));
    let mut flags: Vec<String> = Vec::new();
    assert(strs_view(flags@) =~= Seq::<Seq<char>>::empty());
    assert(words.drop_first() =~= words.subrange(1, words.len() as int));
    let mut k: usize = 1;
    while k < const_words.len() && parts.len() < 3
        invariant
            1 <= k <= const_words.len(),
            words == strs_view(const_words@),
            name_ready(strs_view(parts@)),
            name_ready(strs_view(flags@)),
            gather(words.drop_first(), head_part(words[0]), Seq::empty()) == gather(
                words.subrange(k as int, words.len() as int),
                strs_view(parts@),
                strs_view(flags@),
            ),
        decreases const_words.len() - k,
    {
        let ghost rest = words.subrange(k as int, words.len() as int);
        assert(rest[0] == const_words@[k as int]@);
        assert(rest.drop_first() =~= words.subrange(k + 1, words.len() as int));
        let w = &const_words[k];
        let wv = chars_of(w.as_str());
        if wv.len() > 0 && wv[0] == '-' {
            let mut i: usize = 0;
            while i < wv.len() && wv[i] == '-'
                invariant
                    i <= wv.len(),
                    forall|j: int| 0 <= j < i ==> wv@[j] == '-',
                decreases wv.len() - i,
            {
                i += 1;
            }
            proof {
                crate::words::lemma_trim_start_index(wv@, '-', i as int);
            }
            let trimmed = string_of(&wv, i, wv.len());
            let s = sanitize(trimmed.as_str());
            if !s.as_str().is_empty() && byte_len_of(&s) <= 12 {
                proof {
                    lemma_strs_view_push(flags@, s);
                }
                flags.push(s);
            }
        } else if has_char(&wv, '/') || has_char(&wv, '=') || has_char(&wv, ':') || byte_len_of(w)
            > 16 {
        } else {
            let s = sanitize(w.as_str());
            if !s.as_str().is_empty() && !holds_string(&parts, &s) {
                proof {
                    lemma_strs_view_push(parts@, s);
                }
                parts.push(s);
            }
        }
        k += 1;
    }
    let ghost g = gather(words.drop_first(), head_part(words[0]), Seq::empty());
    assert(g == (strs_view(parts@), strs_view(flags@)));
    assert(strs_view(flags@).subrange(0, flags.len() as int) =~= strs_view(flags@));
    let mut fi: usize = 0;
    while parts.len() < 2 && fi < flags.len()
        invariant
            fi <= flags.len(),
            name_ready(strs_view(parts@)),
            name_ready(strs_view(flags@)),
            fill_flags(g.0, g.1) == fill_flags(
                strs_view(parts@),
                strs_view(flags@).subrange(fi as int, flags.len() as int),
            ),
        decreases flags.len() - fi,
    {
        let ghost rest = strs_view(flags@).subrange(fi as int, flags.len() as int);
        assert(rest[0] == flags@[fi as int]@);
        assert(rest.drop_first() =~= strs_view(flags@).subrange(fi + 1, flags.len() as int));
        if !holds_string(&parts, &flags[fi]) {
            let f = flags[fi].clone();
            proof {
                lemma_strs_view_push(parts@, f);
            }
            parts.push(f);
        }
        fi += 1;
    }
    assert(fill_flags(g.0, g.1) == strs_view(parts@)) by {
        let rest = strs_view(flags@).subrange(fi as int, flags.len() as int);
        if parts.len() < 2 {
            assert(rest.len() == 0);
        }
    }
    if parts.len() == 0 {
        let cmd = String::from_str("cmd");
        proof {
            lemma_strs_view_push(parts@, cmd);
            reveal_strlit("cmd");
        }
        parts.push(cmd);
        assert(strs_view(parts@) =~= seq!["cmd"@]);
        assert(lower_ident("cmd"@));
    }
    parts
}

/// Makes a function name from the constant words of a template and counts it in
/// `used`, so that repeated bases get numbered names. The name is a lowercase
/// identifier.
pub fn make_name(const_words: &Vec<String>, used: &mut Vec<(String, usize)>) -> (r: String)
    requires
        const_words.len() >= 1,
        count_of(old(used)@, name_base(strs_view(const_words@))) < usize::MAX,
    ensures
        ({
            let base = name_base(strs_view(const_words@));
            let n = count_of(old(used)@, base) + 1;
            &&& count_of(final(used)@, base) == n
            &&& forall|b: Seq<char>| b != base ==> count_of(final(used)@, b) == count_of(old(used)@, b)
            &&& r@ == numbered(base, n)
        }),
        r@.len() > 0,
        lower_ident(r@),
{
    let parts = make_parts(const_words);
    let mut base = join_parts(&parts);
    proof {
        lemma_join_us_ready(strs_view(parts@));
    }
    if base == const_words[0] {
        let ghost b0 = base@;
        push_all(&mut base, "_x");
        proof {
            reveal_strlit("_x");
            assert(lower_ident(seq!['x']));
            lemma_join_two(b0, seq!['x']);
            assert(base@ =~= b0 + seq!['_'] + seq!['x']);
        }
    }
    let n = bump(used, &base);
    if n == 1 {
        base
    } else {
        let mut name = base.clone();
        push_char(&mut name, '_');
        push_decimal(&mut name, n);
        assert(base@.push('_') + decimal(n as nat) =~= base@ + seq!['_'] + decimal(n as nat));
        proof {
            lemma_decimal_ident(n as nat);
            lemma_join_two(base@, decimal(n as nat));
        }
        name
    }
}

} // verus!
