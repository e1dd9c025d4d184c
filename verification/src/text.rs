use vstd::prelude::*;

verus! {

/// `String::push`: appends one character to the end of the string.
#[verifier::external_body]
pub(crate) fn push_char(s: &mut String, c: char)
    ensures
        final(s)@ == old(s)@.push(c),
{
    s.push(c);
}

/// The characters of `s`, in order.
pub fn chars_of(s: &str) -> (v: Vec<char>)
    ensures
        v@ == s@,
{
    let mut v: Vec<char> = Vec::new();
    for c in it: s.chars()
        invariant
            v@ == it.seq().take(it.index() as int),
    {
        v.push(c);
    }
    v
}

/// The string made of `v[lo..hi]`.
pub fn string_of(v: &Vec<char>, lo: usize, hi: usize) -> (s: String)
    requires
        lo <= hi <= v.len(),
    ensures
        s@ == v@.subrange(lo as int, hi as int),
{
    let mut s = String::new();
    let mut k = lo;
    while k < hi
        invariant
            lo <= k <= hi <= v.len(),
            s@ == v@.subrange(lo as int, k as int),
        decreases hi - k,
    {
        push_char(&mut s, v[k]);
        assert(v@.subrange(lo as int, k + 1) == v@.subrange(lo as int, k as int).push(v@[k as int]));
        k += 1;
    }
    s
}

/// Appends all characters of `t` to `s`.
pub fn push_all(s: &mut String, t: &str)
    ensures
        final(s)@ == old(s)@ + t@,
{
    let ghost s0 = s@;
    for c in it: t.chars()
        invariant
            s@ == s0 + it.seq().take(it.index() as int),
    {
        push_char(s, c);
        assert(s0 + it.seq().take(it.index() + 1) == (s0 + it.seq().take(it.index() as int)).push(c));
    }
}

/// Unicode `White_Space`, the property that `char::is_whitespace` tests.
pub open spec fn is_space(c: char) -> bool {
    ||| '\u{9}' <= c <= '\u{d}'
    ||| c == ' '
    ||| c == '\u{85}'
    ||| c == '\u{a0}'
    ||| c == '\u{1680}'
    ||| '\u{2000}' <= c <= '\u{200a}'
    ||| c == '\u{2028}'
    ||| c == '\u{2029}'
    ||| c == '\u{202f}'
    ||| c == '\u{205f}'
    ||| c == '\u{3000}'
}

/// Whether `c` is whitespace.
pub fn char_is_space(c: char) -> (b: bool)
    ensures
        b == is_space(c),
{
    ('\u{9}' <= c && c <= '\u{d}') || c == ' ' || c == '\u{85}' || c == '\u{a0}' || c == '\u{1680}'
        || ('\u{2000}' <= c && c <= '\u{200a}') || c == '\u{2028}' || c == '\u{2029}' || c
        == '\u{202f}' || c == '\u{205f}' || c == '\u{3000}'
}


/// `t` occurs in `s` at position `i`.
pub open spec fn occurs_at(s: Seq<char>, t: Seq<char>, i: int) -> bool {
    0 <= i && i + t.len() <= s.len() && s.subrange(i, i + t.len()) == t
}

/// `t` occurs somewhere in `s`.
pub open spec fn contains(s: Seq<char>, t: Seq<char>) -> bool {
    exists|i: int| occurs_at(s, t, i)
}

/// Whether `t` occurs in `s`.
pub fn contains_chars(s: &Vec<char>, t: &Vec<char>) -> (b: bool)
    ensures
        b == contains(s@, t@),
{
    if t.len() > s.len() {
        return false;
    }
    let last = s.len() - t.len();
    let mut i: usize = 0;
    while i <= last
        invariant
            last == s.len() - t.len(),
            i <= last + 1,
            forall|k: int| 0 <= k < i ==> !occurs_at(s@, t@, k),
        decreases last + 1 - i,
    {
        let mut j: usize = 0;
        let mut ok = true;
        while ok && j < t.len()
            invariant
                i <= last,
                last == s.len() - t.len(),
                j <= t.len(),
                forall|k: int| 0 <= k < j ==> s@[i + k] == t@[k],
                !ok ==> j < t.len() && s@[i + j] != t@[j as int],
            decreases t.len() - j + (if ok { 1int } else { 0int }),
        {
            if s[i + j] != t[j] {
                ok = false;
            } else {
                j += 1;
            }
        }
        if ok {
            assert(s@.subrange(i as int, i + t.len()) =~= t@);
            assert(occurs_at(s@, t@, i as int));
            return true;
        }
        assert(s@.subrange(i as int, i + t.len())[j as int] != t@[j as int]);
        i += 1;
    }
    false
}

/// Whether `t` occurs in `s`.
pub fn contains_str(s: &str, t: &str) -> (b: bool)
    ensures
        b == contains(s@, t@),
{
    let sv = chars_of(s);
    let tv = chars_of(t);
    contains_chars(&sv, &tv)
}

/// Whether `c` occurs in `s`.
pub fn has_char(s: &Vec<char>, c: char) -> (b: bool)
    ensures
        b == s@.contains(c),
{
    let mut i: usize = 0;
    while i < s.len()
        invariant
            i <= s.len(),
            forall|k: int| 0 <= k < i ==> s@[k] != c,
        decreases s.len() - i,
    {
        if s[i] == c {
            return true;
        }
        i += 1;
    }
    false
}

/// Whether the two strings hold the same characters.
pub fn same_text(a: &str, b: &str) -> (r: bool)
    ensures
        r == (a@ == b@),
{
    let av = chars_of(a);
    let bv = chars_of(b);
    if av.len() != bv.len() {
        return false;
    }
    let mut i: usize = 0;
    while i < av.len()
        invariant
            av.len() == bv.len(),
            av@ == a@,
            bv@ == b@,
            i <= av.len(),
            forall|k: int| 0 <= k < i ==> av@[k] == bv@[k],
        decreases av.len() - i,
    {
        if av[i] != bv[i] {
            assert(a@[i as int] != b@[i as int]);
            return false;
        }
        i += 1;
    }
    assert(av@ =~= bv@);
    true
}

/// The lowercase form of a string, as `str::to_lowercase` computes it.
pub uninterp spec fn lowercase(s: Seq<char>) -> Seq<char>;

/// An ASCII capital letter.
pub open spec fn is_ascii_upper(c: char) -> bool {
    'A' <= c <= 'Z'
}

/// An ASCII character.
pub open spec fn is_ascii_char(c: char) -> bool {
    c < '\u{80}'
}

/// The ASCII lowercase of a character: `A`-`Z` become `a`-`z`, others stay.
pub open spec fn ascii_lower_char(c: char) -> char {
    if is_ascii_upper(c) { ((c as u32) + 32) as char } else { c }
}

/// `str::to_lowercase`. Its result is a fixed function of the characters of `s`,
/// named `lowercase`. Its documentation defines the result by Unicode's lowercase
/// mapping; two facts of that mapping are stated besides: the result holds no
/// ASCII capital letter, and a string of ASCII characters is lowercased one
/// character at a time, `A`-`Z` to `a`-`z`, the others unchanged. What becomes of
/// other characters is left unsaid.
#[verifier::external_body]
pub(crate) fn to_lowercase(s: &str) -> (r: String)
    ensures
        r@ == lowercase(s@),
        forall|k: int| 0 <= k < r@.len() ==> !is_ascii_upper(#[trigger] r@[k]),
        (forall|k: int| 0 <= k < s@.len() ==> is_ascii_char(#[trigger] s@[k])) ==> r@ == s@.map_values(
            |c: char| ascii_lower_char(c),
        ),
{
    s.to_lowercase()
}

/// The decimal digit character for `d < 10`.
pub open spec fn digit_char(d: nat) -> char {
    if d == 0 { '0' } else if d == 1 { '1' } else if d == 2 { '2' } else if d == 3 { '3' }
    else if d == 4 { '4' } else if d == 5 { '5' } else if d == 6 { '6' } else if d == 7 { '7' }
    else if d == 8 { '8' } else { '9' }
}

/// The decimal representation of `n`, without leading zeros.
pub open spec fn decimal(n: nat) -> Seq<char>
    decreases n,
{
    if n < 10 {
        seq![digit_char(n)]
    } else {
        decimal(n / 10).push(digit_char(n % 10))
    }
}

fn digit(d: usize) -> (c: char)
    requires
        d < 10,
    ensures
        c == digit_char(d as nat),
{
    if d == 0 { '0' } else if d == 1 { '1' } else if d == 2 { '2' } else if d == 3 { '3' }
    else if d == 4 { '4' } else if d == 5 { '5' } else if d == 6 { '6' } else if d == 7 { '7' }
    else if d == 8 { '8' } else { '9' }
}

/// Appends the decimal representation of `n`.
pub fn push_decimal(s: &mut String, n: usize)
    ensures
        final(s)@ == old(s)@ + decimal(n as nat),
    decreases n,
{
    if n < 10 {
        push_char(s, digit(n));
        assert(old(s)@.push(digit_char(n as nat)) =~= old(s)@ + decimal(n as nat));
    } else {
        push_decimal(s, n / 10);
        push_char(s, digit(n % 10));
        assert(old(s)@ + decimal((n / 10) as nat) + seq![digit_char((n % 10) as nat)]
            =~= old(s)@ + decimal(n as nat));
    }
}

} // verus!
