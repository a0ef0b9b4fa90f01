//! Character-level specification helpers shared by the extractor and the
//! tree builder: whitespace trimming, delimiter scanning, lexicographic
//! ordering of strings, and list joining.

use vstd::prelude::*;

verus! {

/// The characters that count as whitespace when a string is trimmed
/// (the Unicode `White_Space` set).
pub open spec fn is_space_char(c: char) -> bool {
    ||| c == ' '
    ||| c == '\t'
    ||| c == '\n'
    ||| c == '\r'
    ||| c == '\u{000B}'
    ||| c == '\u{000C}'
    ||| c == '\u{0085}'
    ||| c == '\u{00A0}'
    ||| c == '\u{1680}'
    ||| ('\u{2000}' <= c && c <= '\u{200A}')
    ||| c == '\u{2028}'
    ||| c == '\u{2029}'
    ||| c == '\u{202F}'
    ||| c == '\u{205F}'
    ||| c == '\u{3000}'
}

/// The first index at or after `j` where `c` occurs in `s`, or `s.len()`
/// if there is none.
pub open spec fn scan_to(s: Seq<char>, j: int, c: char) -> int
    decreases s.len() - j,
{
    if j < 0 || j >= s.len() {
        s.len() as int
    } else if s[j] == c {
        j
    } else {
        scan_to(s, j + 1, c)
    }
}

pub proof fn lemma_scan_to(s: Seq<char>, j: int, c: char)
    requires
        0 <= j <= s.len(),
    ensures
        j <= scan_to(s, j, c) <= s.len(),
        forall|k: int| j <= k < scan_to(s, j, c) ==> s[k] != c,
        scan_to(s, j, c) < s.len() ==> s[scan_to(s, j, c)] == c,
    decreases s.len() - j,
{
    if j < s.len() && s[j] != c {
        lemma_scan_to(s, j + 1, c);
    }
}

/// `s` with leading and trailing whitespace removed.
pub open spec fn trim_spec(s: Seq<char>) -> Seq<char>
    decreases s.len(),
{
    if s.len() == 0 {
        s
    } else if is_space_char(s[0]) {
        trim_spec(s.drop_first())
    } else if is_space_char(s[s.len() - 1]) {
        trim_spec(s.drop_last())
    } else {
        s
    }
}

/// Strict lexicographic order on character sequences by code point, the
/// order in which sibling chapters are sorted. It agrees with the ordering
/// of Rust strings, since UTF-8 byte order follows code-point order.
pub open spec fn lex_lt(a: Seq<char>, b: Seq<char>) -> bool
    decreases a.len(),
{
    if b.len() == 0 {
        false
    } else if a.len() == 0 {
        true
    } else if a[0] == b[0] {
        lex_lt(a.drop_first(), b.drop_first())
    } else {
        (a[0] as int) < (b[0] as int)
    }
}

/// `lex_lt` is total: two sequences are equal or one is strictly below
/// the other.
pub proof fn lemma_lex_total(a: Seq<char>, b: Seq<char>)
    ensures
        a == b || lex_lt(a, b) || lex_lt(b, a),
    decreases a.len(),
{
    if a.len() == 0 && b.len() == 0 {
        assert(a =~= b);
    } else if a.len() > 0 && b.len() > 0 && a[0] == b[0] {
        lemma_lex_total(a.drop_first(), b.drop_first());
        if a.drop_first() == b.drop_first() {
            assert(a.drop_first().len() == a.len() - 1);
            assert(b.drop_first().len() == b.len() - 1);
            assert forall|i: int| 0 <= i < a.len() implies a[i] == b[i] by {
                if i >= 1 {
                    assert(a[i] == a.drop_first()[i - 1]);
                    assert(b[i] == b.drop_first()[i - 1]);
                }
            }
            assert(a =~= b);
        } else if lex_lt(a.drop_first(), b.drop_first()) {
            assert(lex_lt(a, b));
        } else {
            assert(lex_lt(b, a));
        }
    } else if a.len() > 0 && b.len() > 0 {
        assert(a[0] as int != b[0] as int);
        if (a[0] as int) < (b[0] as int) {
            assert(lex_lt(a, b));
        } else {
            assert(lex_lt(b, a));
        }
    }
}

/// `lex_lt` is irreflexive.
pub proof fn lemma_lex_irrefl(a: Seq<char>)
    ensures
        !lex_lt(a, a),
    decreases a.len(),
{
    if a.len() > 0 {
        lemma_lex_irrefl(a.drop_first());
    }
}

/// `lex_lt` is transitive.
pub proof fn lemma_lex_trans(a: Seq<char>, b: Seq<char>, c: Seq<char>)
    requires
        lex_lt(a, b),
        lex_lt(b, c),
    ensures
        lex_lt(a, c),
    decreases a.len(),
{
    if a.len() > 0 && b.len() > 0 && c.len() > 0 && a[0] == b[0] && b[0] == c[0] {
        lemma_lex_trans(a.drop_first(), b.drop_first(), c.drop_first());
    }
}

/// The elements of `xs` joined with the separator `" / "`.
pub open spec fn join_sep(xs: Seq<Seq<char>>) -> Seq<char>
    decreases xs.len(),
{
    if xs.len() == 0 {
        Seq::empty()
    } else if xs.len() == 1 {
        xs[0]
    } else {
        join_sep(xs.drop_last()) + seq![' ', '/', ' '] + xs.last()
    }
}

/// Whether `c` is trimmed away at the ends of a string.
pub fn is_space(c: char) -> (r: bool)
    ensures
        r == is_space_char(c),
{
    c == ' ' || c == '\t' || c == '\n' || c == '\r' || c == '\u{000B}' || c == '\u{000C}'
        || c == '\u{0085}' || c == '\u{00A0}' || c == '\u{1680}'
        || ('\u{2000}' <= c && c <= '\u{200A}') || c == '\u{2028}' || c == '\u{2029}'
        || c == '\u{202F}' || c == '\u{205F}' || c == '\u{3000}'
}

/// The characters of `s` as a vector, for constant-time indexing.
pub fn to_chars(s: &str) -> (r: Vec<char>)
    ensures
        r@ == s@,
{
    let n = s.unicode_len();
    let mut r: Vec<char> = Vec::new();
    let mut i: usize = 0;
    while i < n
        invariant
            n == s@.len(),
            i <= n,
            r@ == s@.subrange(0, i as int),
        decreases n - i,
    {
        r.push(s.get_char(i));
        assert(r@ =~= s@.subrange(0, i + 1 as int));
        i = i + 1;
    }
    assert(r@ =~= s@);
    r
}

/// The position of the first occurrence of `c` in `chars` at or after `j`,
/// or the length if there is none.
pub fn find_from(chars: &Vec<char>, j: usize, c: char) -> (p: usize)
    requires
        j <= chars@.len(),
    ensures
        p == scan_to(chars@, j as int, c),
{
    let n = chars.len();
    let mut k = j;
    while k < n && chars[k] != c
        invariant
            j <= k <= n,
            n == chars@.len(),
            scan_to(chars@, j as int, c) == scan_to(chars@, k as int, c),
        decreases n - k,
    {
        k = k + 1;
    }
    k
}

/// The substring of `s` from `a` to `b`, trimmed of surrounding whitespace.
pub fn trim_in(s: &str, chars: &Vec<char>, from: usize, to: usize) -> (r: String)
    requires
        chars@ == s@,
        from <= to <= s@.len(),
    ensures
        r@ == trim_spec(s@.subrange(from as int, to as int)),
{
    let mut a = from;
    let mut b = to;
    while a < b && is_space(chars[a as usize])
        invariant
            from <= a <= b <= to <= s@.len(),
            chars@ == s@,
            trim_spec(s@.subrange(from as int, to as int)) == trim_spec(
                s@.subrange(a as int, b as int),
            ),
        decreases b - a,
    {
        proof {
            assert(s@.subrange(a as int, b as int).drop_first() =~= s@.subrange(
                a + 1 as int,
                b as int,
            ));
        }
        a = a + 1;
    }
    while a < b && is_space(chars[b - 1])
        invariant
            from <= a <= b <= to <= s@.len(),
            chars@ == s@,
            a == b || !is_space_char(s@[a as int]),
            trim_spec(s@.subrange(from as int, to as int)) == trim_spec(
                s@.subrange(a as int, b as int),
            ),
        decreases b - a,
    {
        proof {
            assert(s@.subrange(a as int, b as int).drop_last() =~= s@.subrange(
                a as int,
                b - 1 as int,
            ));
        }
        b = b - 1;
    }
    let piece = s.substring_char(a, b);
    String::from_str(piece)
}

/// Whether the characters of `a` come strictly before those of `b` in
/// lexicographic code-point order.
pub fn str_lt(a: &str, b: &str) -> (r: bool)
    ensures
        r == lex_lt(a@, b@),
{
    let an = a.unicode_len();
    let bn = b.unicode_len();
    let mut i: usize = 0;
    proof {
        assert(a@.skip(0) =~= a@);
        assert(b@.skip(0) =~= b@);
    }
    loop
        invariant
            i <= an,
            i <= bn,
            an == a@.len(),
            bn == b@.len(),
            lex_lt(a@, b@) == lex_lt(a@.skip(i as int), b@.skip(i as int)),
        decreases an - i,
    {
        if i >= bn {
            return false;
        }
        if i >= an {
            return true;
        }
        let ca = a.get_char(i);
        let cb = b.get_char(i);
        if ca != cb {
            proof {
                assert((ca as u32) as int == ca as int);
                assert((cb as u32) as int == cb as int);
            }
            return (ca as u32) < (cb as u32);
        }
        proof {
            assert(a@.skip(i as int).drop_first() =~= a@.skip(i + 1 as int));
            assert(b@.skip(i as int).drop_first() =~= b@.skip(i + 1 as int));
        }
        i = i + 1;
    }
}

/// Whether `a` and `b` hold the same characters.
pub fn str_eq(a: &str, b: &str) -> (r: bool)
    ensures
        r == (a@ == b@),
{
    let an = a.unicode_len();
    let bn = b.unicode_len();
    if an != bn {
        return false;
    }
    let mut i: usize = 0;
    while i < an
        invariant
            i <= an,
            an == a@.len(),
            an == b@.len(),
            forall|k: int| 0 <= k < i ==> a@[k] == b@[k],
        decreases an - i,
    {
        if a.get_char(i) != b.get_char(i) {
            return false;
        }
        i = i + 1;
    }
    proof {
        assert(a@ =~= b@);
    }
    true
}

} // verus!
