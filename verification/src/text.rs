//! Character-level helpers shared by the path, html and asset modules.
//!
//! Text is modelled by its `Seq<char>` view; every executable helper here is
//! specified against that view.
use vstd::prelude::*;

verus! {

/// `char::is_whitespace`: the Unicode `White_Space` property.
pub open spec fn is_ws(c: char) -> bool {
    ||| ('\u{9}' <= c && c <= '\u{d}')
    ||| c == ' '
    ||| c == '\u{85}'
    ||| c == '\u{a0}'
    ||| c == '\u{1680}'
    ||| ('\u{2000}' <= c && c <= '\u{200a}')
    ||| c == '\u{2028}'
    ||| c == '\u{2029}'
    ||| c == '\u{202f}'
    ||| c == '\u{205f}'
    ||| c == '\u{3000}'
}

pub fn char_is_ws(c: char) -> (b: bool)
    ensures
        b == is_ws(c),
{
    ('\u{9}' <= c && c <= '\u{d}') || c == ' ' || c == '\u{85}' || c == '\u{a0}' || c
        == '\u{1680}' || ('\u{2000}' <= c && c <= '\u{200a}') || c == '\u{2028}' || c
        == '\u{2029}' || c == '\u{202f}' || c == '\u{205f}' || c == '\u{3000}'
}

pub open spec fn is_ascii_upper(c: char) -> bool {
    'A' <= c && c <= 'Z'
}

pub open spec fn is_ascii_alpha(c: char) -> bool {
    ('a' <= c && c <= 'z') || ('A' <= c && c <= 'Z')
}

pub open spec fn is_ascii_alnum(c: char) -> bool {
    is_ascii_alpha(c) || ('0' <= c && c <= '9')
}

/// `char::to_ascii_lowercase`.
pub open spec fn ascii_lower(c: char) -> char {
    if is_ascii_upper(c) {
        ((c as u32) + 32) as char
    } else {
        c
    }
}

pub open spec fn lower_seq(s: Seq<char>) -> Seq<char> {
    s.map_values(|c: char| ascii_lower(c))
}

/// `str::eq_ignore_ascii_case`.
pub open spec fn eq_ignore_case(a: Seq<char>, b: Seq<char>) -> bool {
    a.len() == b.len() && forall|i: int| 0 <= i < a.len() ==> ascii_lower(a[i]) == ascii_lower(b[i])
}

pub fn char_to_ascii_lower(c: char) -> (r: char)
    ensures
        r == ascii_lower(c),
{
    if 'A' <= c && c <= 'Z' {
        let b: u8 = c as u8;
        assert(b as u32 == c as u32);
        (b + 32) as char
    } else {
        c
    }
}

/// Index of the first element of `s` that satisfies `p`, or `s.len()` if none does.
pub open spec fn first_where(s: Seq<char>, p: spec_fn(char) -> bool) -> int
    decreases s.len(),
{
    if s.len() == 0 {
        0
    } else if p(s[0]) {
        0
    } else {
        1 + first_where(s.drop_first(), p)
    }
}

/// Index of the last element of `s` that satisfies `p`, or `-1` if none does.
pub open spec fn last_where(s: Seq<char>, p: spec_fn(char) -> bool) -> int
    decreases s.len(),
{
    if s.len() == 0 {
        -1
    } else if p(s.last()) {
        s.len() - 1
    } else {
        last_where(s.drop_last(), p)
    }
}

pub open spec fn is_first(s: Seq<char>, p: spec_fn(char) -> bool, k: int) -> bool {
    &&& 0 <= k <= s.len()
    &&& forall|j: int| 0 <= j < k ==> !p(#[trigger] s[j])
    &&& k < s.len() ==> p(s[k])
}

pub open spec fn is_last(s: Seq<char>, p: spec_fn(char) -> bool, k: int) -> bool {
    &&& -1 <= k < s.len()
    &&& forall|j: int| k < j < s.len() ==> !p(#[trigger] s[j])
    &&& k >= 0 ==> p(s[k])
}

pub proof fn lemma_first_where(s: Seq<char>, p: spec_fn(char) -> bool)
    ensures
        is_first(s, p, first_where(s, p)),
        forall|k: int| is_first(s, p, k) ==> k == first_where(s, p),
    decreases s.len(),
{
    if s.len() > 0 && !p(s[0]) {
        let t = s.drop_first();
        lemma_first_where(t, p);
        assert forall|j: int| 0 <= j < first_where(s, p) implies !p(#[trigger] s[j]) by {
            if j > 0 {
                assert(s[j] == t[j - 1]);
            }
        }
        assert forall|k: int| is_first(s, p, k) implies k == first_where(s, p) by {
            assert(k != 0);
            assert(is_first(t, p, k - 1)) by {
                assert forall|j: int| 0 <= j < k - 1 implies !p(#[trigger] t[j]) by {
                    assert(t[j] == s[j + 1]);
                }
            }
        }
    }
}

pub proof fn lemma_last_where(s: Seq<char>, p: spec_fn(char) -> bool)
    ensures
        is_last(s, p, last_where(s, p)),
        forall|k: int| is_last(s, p, k) ==> k == last_where(s, p),
    decreases s.len(),
{
    if s.len() > 0 && !p(s.last()) {
        let t = s.drop_last();
        lemma_last_where(t, p);
        assert forall|j: int| last_where(s, p) < j < s.len() implies !p(#[trigger] s[j]) by {
            if j < t.len() {
                assert(s[j] == t[j]);
            }
        }
        assert forall|k: int| is_last(s, p, k) implies k == last_where(s, p) by {
            assert(k != s.len() - 1);
            assert(is_last(t, p, k)) by {
                assert forall|j: int| k < j < t.len() implies !p(#[trigger] t[j]) by {
                    assert(t[j] == s[j]);
                }
            }
        }
    }
}

/// The characters of `s`, one by one.
pub fn chars_of(s: &str) -> (v: Vec<char>)
    ensures
        v@ == s@,
{
    let n = s.unicode_len();
    let mut v: Vec<char> = Vec::new();
    let mut i: usize = 0;
    while i < n
        invariant
            n == s@.len(),
            i <= n,
            v@ == s@.take(i as int),
        decreases n - i,
    {
        v.push(s.get_char(i));
        i = i + 1;
        assert(v@ == s@.take(i as int));
    }
    assert(s@.take(n as int) == s@);
    v
}

/// `String::push`: appends one character.
#[verifier::external_body]
pub(crate) fn string_push(s: &mut String, c: char)
    ensures
        final(s)@ == old(s)@.push(c),
{
    s.push(c);
}

/// A new string holding the characters `v[from..to]`.
pub fn string_from_chars(v: &[char], from: usize, to: usize) -> (r: String)
    requires
        from <= to <= v@.len(),
    ensures
        r@ == v@.subrange(from as int, to as int),
{
    let mut r = String::new();
    let mut i = from;
    while i < to
        invariant
            from <= i <= to <= v@.len(),
            r@ == v@.subrange(from as int, i as int),
        decreases to - i,
    {
        string_push(&mut r, v[i]);
        i = i + 1;
        assert(r@ == v@.subrange(from as int, i as int));
    }
    r
}

/// A new string holding `a` followed by `b`.
pub fn concat2(a: &str, b: &str) -> (r: String)
    ensures
        r@ == a@ + b@,
{
    let mut r = a.to_owned();
    r.append(b);
    r
}

/// A new string holding `a`, `b` and `c`, in that order.
pub fn concat3(a: &str, b: &str, c: &str) -> (r: String)
    ensures
        r@ == a@ + b@ + c@,
{
    let mut r = a.to_owned();
    r.append(b);
    r.append(c);
    r
}

pub open spec fn is_ws_fn() -> spec_fn(char) -> bool {
    |c: char| is_ws(c)
}

pub open spec fn not_ws_fn() -> spec_fn(char) -> bool {
    |c: char| !is_ws(c)
}

/// `str::trim`: `s` without its leading and trailing whitespace.
pub open spec fn trim_spec(s: Seq<char>) -> Seq<char> {
    let start = first_where(s, not_ws_fn());
    let end = last_where(s, not_ws_fn()) + 1;
    if start < end {
        s.subrange(start, end)
    } else {
        Seq::empty()
    }
}

/// `str::trim`.
pub fn trim(s: &str) -> (r: &str)
    ensures
        r@ == trim_spec(s@),
{
    let v = chars_of(s);
    let n = v.len();
    let mut start: usize = 0;
    while start < n && char_is_ws(v[start])
        invariant
            n == v@.len(),
            start <= n,
            forall|j: int| 0 <= j < start ==> is_ws(#[trigger] v@[j]),
        decreases n - start,
    {
        start = start + 1;
    }
    let mut end: usize = n;
    while end > start && char_is_ws(v[end - 1])
        invariant
            n == v@.len(),
            start <= end <= n,
            forall|j: int| end <= j < n ==> is_ws(#[trigger] v@[j]),
        decreases end,
    {
        end = end - 1;
    }
    proof {
        let p = not_ws_fn();
        lemma_first_where(s@, p);
        lemma_last_where(s@, p);
        if start < n {
            assert(is_first(s@, p, start as int));
            assert(is_last(s@, p, end - 1));
        } else {
            assert(is_first(s@, p, n as int));
            assert(is_last(s@, p, -1));
        }
    }
    s.substring_char(start, end)
}

/// `str::eq_ignore_ascii_case`.
pub fn str_eq_ignore_case(a: &str, b: &str) -> (r: bool)
    ensures
        r == eq_ignore_case(a@, b@),
{
    let va = chars_of(a);
    let vb = chars_of(b);
    if va.len() != vb.len() {
        return false;
    }
    let mut i: usize = 0;
    while i < va.len()
        invariant
            va@ == a@,
            vb@ == b@,
            va@.len() == vb@.len(),
            i <= va@.len(),
            forall|j: int| 0 <= j < i ==> ascii_lower(#[trigger] va@[j]) == ascii_lower(vb@[j]),
        decreases va.len() - i,
    {
        if char_to_ascii_lower(va[i]) != char_to_ascii_lower(vb[i]) {
            return false;
        }
        i = i + 1;
    }
    true
}

/// `str::to_ascii_lowercase`.
pub fn to_ascii_lower(s: &str) -> (r: String)
    ensures
        r@ == lower_seq(s@),
{
    let v = chars_of(s);
    let mut r = String::new();
    let mut i: usize = 0;
    while i < v.len()
        invariant
            v@ == s@,
            i <= v@.len(),
            r@ == lower_seq(s@.take(i as int)),
        decreases v.len() - i,
    {
        string_push(&mut r, char_to_ascii_lower(v[i]));
        i = i + 1;
        assert(lower_seq(s@.take(i as int)) == lower_seq(s@.take(i - 1)).push(ascii_lower(s@[i - 1])));
    }
    assert(s@.take(v.len() as int) == s@);
    r
}

/// `str::ends_with` for a string suffix.
pub open spec fn ends_with(s: Seq<char>, suffix: Seq<char>) -> bool {
    suffix.len() <= s.len() && s.subrange(s.len() - suffix.len(), s.len() as int) == suffix
}

pub fn str_ends_with(s: &str, suffix: &str) -> (r: bool)
    ensures
        r == ends_with(s@, suffix@),
{
    let v = chars_of(s);
    let w = chars_of(suffix);
    if w.len() > v.len() {
        return false;
    }
    let off = v.len() - w.len();
    let mut i: usize = 0;
    while i < w.len()
        invariant
            v@ == s@,
            w@ == suffix@,
            off + w@.len() == v@.len(),
            i <= w@.len(),
            forall|j: int| 0 <= j < i ==> #[trigger] w@[j] == v@[off + j],
        decreases w.len() - i,
    {
        assert(off + i < v.len());
        let idx: usize = off + i;
        if v[idx] != w[i] {
            assert(s@.subrange(off as int, s@.len() as int)[i as int] != suffix@[i as int]);
            return false;
        }
        i = i + 1;
    }
    assert(s@.subrange(off as int, s@.len() as int) =~= suffix@);
    true
}


/// `str == str`.
pub fn str_eq(a: &str, b: &str) -> (r: bool)
    ensures
        r == (a@ == b@),
{
    let va = chars_of(a);
    let vb = chars_of(b);
    if va.len() != vb.len() {
        return false;
    }
    let mut i: usize = 0;
    while i < va.len()
        invariant
            va@ == a@,
            vb@ == b@,
            va@.len() == vb@.len(),
            i <= va@.len(),
            forall|j: int| 0 <= j < i ==> #[trigger] va@[j] == vb@[j],
        decreases va.len() - i,
    {
        if va[i] != vb[i] {
            return false;
        }
        i = i + 1;
    }
    assert(va@ =~= vb@);
    true
}

} // verus!
