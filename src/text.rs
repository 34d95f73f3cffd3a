//! Character-level helpers on strings: brace balance, splitting on a
//! separator, and left-to-right replacement of a pattern.
use vstd::prelude::*;

verus! {

/// What one character adds to the brace balance.
pub open spec fn brace_delta(c: char) -> int {
    if c == '{' {
        1
    } else if c == '}' {
        -1
    } else {
        0
    }
}

/// Number of `{` minus number of `}` in `s`.
pub open spec fn brace_balance(s: Seq<char>) -> int
    decreases s.len(),
{
    if s.len() == 0 {
        0
    } else {
        brace_balance(s.drop_last()) + brace_delta(s.last())
    }
}

/// A template whose braces balance.
pub open spec fn is_balanced(s: Seq<char>) -> bool {
    brace_balance(s) == 0
}

/// Net brace count of `s`, scanning left to right.
pub fn net_brace_balance(s: &str) -> (r: i128)
    ensures
        r == brace_balance(s@),
{
    let n = s.unicode_len();
    let mut b: i128 = 0;
    let mut i: usize = 0;
    while i < n
        invariant
            n == s@.len(),
            i <= n,
            b == brace_balance(s@.subrange(0, i as int)),
            -(i as int) <= b <= i,
        decreases n - i,
    {
        let c = s.get_char(i);
        proof {
            assert(s@.subrange(0, i + 1).drop_last() == s@.subrange(0, i as int));
        }
        if c == '{' {
            b = b + 1;
        } else if c == '}' {
            b = b - 1;
        }
        i += 1;
    }
    proof {
        assert(s@.subrange(0, n as int) == s@);
    }
    b
}

/// Splits `s` at every `sep`; separators at the ends or side by side give
/// empty pieces, and the empty string gives one empty piece.
pub open spec fn split_on(s: Seq<char>, sep: char) -> Seq<Seq<char>>
    decreases s.len(),
{
    if s.len() == 0 {
        seq![Seq::<char>::empty()]
    } else {
        let rest = split_on(s.drop_last(), sep);
        if s.last() == sep {
            rest.push(Seq::<char>::empty())
        } else {
            rest.update(rest.len() - 1, rest.last().push(s.last()))
        }
    }
}

/// The views of a vector of strings.
pub open spec fn views_of(v: Seq<String>) -> Seq<Seq<char>> {
    v.map_values(|x: String| x@)
}

/// Splits `s` on every `.`.
pub fn split_dots(s: &str) -> (r: Vec<String>)
    ensures
        views_of(r@) == split_on(s@, '.'),
{
    let n = s.unicode_len();
    let mut parts: Vec<String> = Vec::new();
    let mut start: usize = 0;
    let mut i: usize = 0;
    proof {
        assert(views_of(parts@) == Seq::<Seq<char>>::empty());
        assert(s@.subrange(0, 0) == Seq::<char>::empty());
    }
    while i < n
        invariant
            n == s@.len(),
            start <= i <= n,
            views_of(parts@).push(s@.subrange(start as int, i as int)) == split_on(
                s@.subrange(0, i as int),
                '.',
            ),
        decreases n - i,
    {
        let c = s.get_char(i);
        let ghost pre = s@.subrange(0, i as int);
        let ghost rest = split_on(pre, '.');
        proof {
            assert(s@.subrange(0, i + 1).drop_last() == pre);
            assert(s@.subrange(0, i + 1).last() == c);
        }
        if c == '.' {
            let piece = s.substring_char(start, i);
            parts.push(String::from_str(piece));
            proof {
                assert(views_of(parts@) == rest);
                assert(s@.subrange((i + 1) as int, (i + 1) as int) == Seq::<char>::empty());
            }
            start = i + 1;
        } else {
            proof {
                assert(s@.subrange(start as int, i + 1) == s@.subrange(start as int, i as int).push(
                    c,
                ));
                assert(views_of(parts@).push(s@.subrange(start as int, i + 1)) == rest.update(
                    rest.len() - 1,
                    rest.last().push(c),
                ));
            }
        }
        i += 1;
    }
    let last = s.substring_char(start, n);
    parts.push(String::from_str(last));
    proof {
        assert(s@.subrange(0, n as int) == s@);
        assert(views_of(parts@) == split_on(s@, '.'));
    }
    parts
}

/// Whether the two strings hold the same characters.
pub fn same_text(a: &str, b: &str) -> (r: bool)
    ensures
        r == (a@ == b@),
{
    if a.unicode_len() != b.unicode_len() {
        return false;
    }
    let r = occurs_at(a, 0, b);
    proof {
        assert(a@.subrange(0, b@.len() as int) == a@);
    }
    r
}

/// Whether `needle` occurs somewhere in `hay`.
pub open spec fn contains_seq(hay: Seq<char>, needle: Seq<char>) -> bool {
    exists|k: int|
        0 <= k && k + needle.len() <= hay.len() && #[trigger] hay.subrange(k, k + needle.len())
            == needle
}

/// Whether `needle` occurs somewhere in `hay`.
pub fn contains_text(hay: &str, needle: &str) -> (r: bool)
    ensures
        r == contains_seq(hay@, needle@),
{
    let n = hay.unicode_len();
    let m = needle.unicode_len();
    if m > n {
        return false;
    }
    let mut k: usize = 0;
    while k <= n - m
        invariant
            n == hay@.len(),
            m == needle@.len(),
            m <= n,
            k <= n - m,
            forall|j: int| 0 <= j < k ==> #[trigger] hay@.subrange(j, j + m) != needle@,
        decreases n - m + 1 - k,
    {
        if occurs_at(hay, k, needle) {
            return true;
        }
        if k == n - m {
            return false;
        }
        k += 1;
    }
    false
}

/// Lexicographic order on character sequences, by code point.
pub open spec fn text_le(a: Seq<char>, b: Seq<char>) -> bool
    decreases a.len(),
{
    if a.len() == 0 {
        true
    } else if b.len() == 0 {
        false
    } else if (a[0] as u32) != (b[0] as u32) {
        (a[0] as u32) < (b[0] as u32)
    } else {
        text_le(a.drop_first(), b.drop_first())
    }
}

/// Any two sequences are ordered one way or the other.
pub proof fn lemma_text_le_total(a: Seq<char>, b: Seq<char>)
    ensures
        text_le(a, b) || text_le(b, a),
    decreases a.len(),
{
    if a.len() > 0 && b.len() > 0 && (a[0] as u32) == (b[0] as u32) {
        lemma_text_le_total(a.drop_first(), b.drop_first());
    }
}

/// The order is transitive.
pub proof fn lemma_text_le_transitive(a: Seq<char>, b: Seq<char>, c: Seq<char>)
    requires
        text_le(a, b),
        text_le(b, c),
    ensures
        text_le(a, c),
    decreases a.len(),
{
    if a.len() > 0 && b.len() > 0 && c.len() > 0 && (a[0] as u32) == (b[0] as u32) && (b[0] as u32)
        == (c[0] as u32) {
        lemma_text_le_transitive(a.drop_first(), b.drop_first(), c.drop_first());
    }
}

/// Whether `a` comes before `b`, or equals it, in code point order.
pub fn text_le_exec(a: &str, b: &str) -> (r: bool)
    ensures
        r == text_le(a@, b@),
{
    let n = a.unicode_len();
    let m = b.unicode_len();
    let mut i: usize = 0;
    proof {
        assert(a@.subrange(0, n as int) == a@);
        assert(b@.subrange(0, m as int) == b@);
    }
    while i < n && i < m
        invariant
            n == a@.len(),
            m == b@.len(),
            i <= n,
            i <= m,
            text_le(a@.subrange(i as int, n as int), b@.subrange(i as int, m as int)) == text_le(
                a@,
                b@,
            ),
        decreases n - i,
    {
        let x = a.get_char(i);
        let y = b.get_char(i);
        let ghost ra = a@.subrange(i as int, n as int);
        let ghost rb = b@.subrange(i as int, m as int);
        proof {
            assert(ra[0] == x);
            assert(rb[0] == y);
            assert(ra.drop_first() == a@.subrange(i + 1, n as int));
            assert(rb.drop_first() == b@.subrange(i + 1, m as int));
        }
        if (x as u32) != (y as u32) {
            return (x as u32) < (y as u32);
        }
        i += 1;
    }
    i == n
}

/// `s` with every occurrence of `p` replaced by `r`, scanning left to
/// right without overlaps. An empty pattern leaves `s` as it is.
pub open spec fn replaced(s: Seq<char>, p: Seq<char>, r: Seq<char>) -> Seq<char>
    decreases s.len(),
{
    if p.len() == 0 || s.len() < p.len() {
        s
    } else if s.subrange(0, p.len() as int) == p {
        r + replaced(s.subrange(p.len() as int, s.len() as int), p, r)
    } else {
        seq![s[0]] + replaced(s.drop_first(), p, r)
    }
}

/// Whether `p` occurs in `s` at character position `at`.
pub fn occurs_at(s: &str, at: usize, p: &str) -> (r: bool)
    requires
        at + p@.len() <= s@.len(),
    ensures
        r == (s@.subrange(at as int, at + p@.len()) == p@),
{
    let m = p.unicode_len();
    let n = s.unicode_len();
    let mut j: usize = 0;
    while j < m
        invariant
            m == p@.len(),
            n == s@.len(),
            at + m <= n,
            j <= m,
            forall|k: int| 0 <= k < j ==> s@[at + k] == p@[k],
        decreases m - j,
    {
        if s.get_char(at + j) != p.get_char(j) {
            proof {
                assert(s@.subrange(at as int, at + m)[j as int] != p@[j as int]);
            }
            return false;
        }
        j += 1;
    }
    proof {
        assert(s@.subrange(at as int, at + m) == p@);
    }
    true
}

/// Replaces every occurrence of a non-empty `p` in `s` by `r`.
pub fn replace_all(s: &str, p: &str, r: &str) -> (out: String)
    requires
        p@.len() > 0,
    ensures
        out@ == replaced(s@, p@, r@),
{
    let n = s.unicode_len();
    let m = p.unicode_len();
    let mut out = String::new();
    let mut i: usize = 0;
    proof {
        assert(s@.subrange(0, n as int) == s@);
    }
    while i < n
        invariant
            n == s@.len(),
            m == p@.len(),
            m > 0,
            i <= n,
            out@ + replaced(s@.subrange(i as int, n as int), p@, r@) == replaced(s@, p@, r@),
        decreases n - i,
    {
        let ghost rest = s@.subrange(i as int, n as int);
        if m <= n - i && occurs_at(s, i, p) {
            proof {
                assert(rest.subrange(0, m as int) == s@.subrange(i as int, i + m));
                assert(rest.subrange(m as int, rest.len() as int) == s@.subrange(
                    i + m,
                    n as int,
                ));
                assert(out@ + r@ + replaced(s@.subrange(i + m, n as int), p@, r@) == out@ + (
                r@ + replaced(s@.subrange(i + m, n as int), p@, r@)));
            }
            out.append(r);
            i = i + m;
        } else {
            let one = s.substring_char(i, i + 1);
            proof {
                assert(rest.drop_first() == s@.subrange(i + 1, n as int));
                assert(one@ == seq![rest[0]]);
                if rest.len() < m {
                    assert(replaced(rest.drop_first(), p@, r@) == rest.drop_first());
                    assert(rest == seq![rest[0]] + rest.drop_first());
                } else {
                    assert(rest.subrange(0, m as int) == s@.subrange(i as int, i + m));
                }
                assert(out@ + one@ + replaced(rest.drop_first(), p@, r@) == out@ + (one@
                    + replaced(rest.drop_first(), p@, r@)));
            }
            out.append(one);
            i = i + 1;
        }
    }
    proof {
        assert(s@.subrange(n as int, n as int) == Seq::<char>::empty());
        assert(out@ + Seq::<char>::empty() == out@);
    }
    out
}

} // verus!
