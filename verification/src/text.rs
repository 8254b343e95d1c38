//! Text primitives shared by the process pipeline and the GPU output parser:
//! ASCII case folding, case-insensitive substring search, lexicographic
//! ordering of names, and decimal number parsing.

use vstd::prelude::*;

verus! {

/// The code point of a character with ASCII upper case letters folded to
/// lower case; all other characters are left as they are.
pub open spec fn fold_val(c: char) -> int {
    if 65 <= c as u32 && c as u32 <= 90 {
        c as u32 + 32
    } else {
        c as u32 as int
    }
}

/// Case folding, executable form.
pub fn fold_char(c: char) -> (r: u32)
    ensures
        r == fold_val(c),
{
    let v = c as u32;
    if 65 <= v && v <= 90 {
        v + 32
    } else {
        v
    }
}

/// Two texts are equal up to ASCII case.
pub open spec fn ci_eq(a: Seq<char>, b: Seq<char>) -> bool {
    a.len() == b.len() && (forall|i: int| 0 <= i < a.len() ==> fold_val(a[i]) == fold_val(b[i]))
}

/// The query occurs at position `i` of the text, up to ASCII case.
pub open spec fn ci_match_at(text: Seq<char>, query: Seq<char>, i: int) -> bool {
    forall|j: int| 0 <= j < query.len() ==> fold_val(text[i + j]) == fold_val(query[j])
}

/// The query occurs somewhere in the text, up to ASCII case.
pub open spec fn contains_ci(text: Seq<char>, query: Seq<char>) -> bool {
    exists|i: int| 0 <= i && i + query.len() <= text.len() && ci_match_at(text, query, i)
}

/// Whether the query occurs at the given position of the text.
fn ci_match_at_exec(text: &str, query: &str, i: usize, n: usize, m: usize) -> (r: bool)
    requires
        n == text@.len(),
        m == query@.len(),
        i + m <= n,
    ensures
        r == ci_match_at(text@, query@, i as int),
{
    let mut j: usize = 0;
    while j < m
        invariant
            0 <= j <= m,
            n == text@.len(),
            m == query@.len(),
            i + m <= n,
            forall|k: int| 0 <= k < j ==> fold_val(text@[i + k]) == fold_val(query@[k]),
        decreases m - j,
    {
        let ct = text.get_char(i + j);
        let cq = query.get_char(j);
        if fold_char(ct) != fold_char(cq) {
            return false;
        }
        j = j + 1;
    }
    true
}

/// Whether the query occurs in the text, up to ASCII case.
pub fn contains_ci_exec(text: &str, query: &str) -> (r: bool)
    ensures
        r == contains_ci(text@, query@),
{
    let n = text.unicode_len();
    let m = query.unicode_len();
    if m > n {
        return false;
    }
    let mut i: usize = 0;
    while i <= n - m
        invariant
            0 <= i <= n - m + 1,
            m <= n,
            n == text@.len(),
            m == query@.len(),
            forall|k: int| 0 <= k < i ==> !ci_match_at(text@, query@, k),
        decreases n - m + 1 - i,
    {
        if ci_match_at_exec(text, query, i, n, m) {
            return true;
        }
        i = i + 1;
    }
    false
}

/// Whether two texts are equal up to ASCII case.
pub fn ci_eq_exec(a: &str, b: &str) -> (r: bool)
    ensures
        r == ci_eq(a@, b@),
{
    let n = a.unicode_len();
    let m = b.unicode_len();
    if n != m {
        return false;
    }
    let mut i: usize = 0;
    while i < n
        invariant
            0 <= i <= n,
            n == a@.len(),
            n == b@.len(),
            forall|k: int| 0 <= k < i ==> fold_val(a@[k]) == fold_val(b@[k]),
        decreases n - i,
    {
        let ca = a.get_char(i);
        let cb = b.get_char(i);
        if fold_char(ca) != fold_char(cb) {
            return false;
        }
        i = i + 1;
    }
    true
}

/// Lexicographic order on texts by code point, the order `str` comparison
/// uses: a prefix comes first, otherwise the first differing character
/// decides.
pub open spec fn lex_le(a: Seq<char>, b: Seq<char>) -> bool
    decreases a.len(),
{
    if a.len() == 0 {
        true
    } else if b.len() == 0 {
        false
    } else if a[0] as u32 != b[0] as u32 {
        (a[0] as u32) < (b[0] as u32)
    } else {
        lex_le(a.drop_first(), b.drop_first())
    }
}

/// The order is total: of any two texts, one comes no later than the other.
pub proof fn lemma_lex_le_total(a: Seq<char>, b: Seq<char>)
    ensures
        lex_le(a, b) || lex_le(b, a),
    decreases a.len(),
{
    if a.len() == 0 || b.len() == 0 {
    } else if a[0] as u32 != b[0] as u32 {
    } else {
        lemma_lex_le_total(a.drop_first(), b.drop_first());
    }
}

/// The order is transitive.
pub proof fn lemma_lex_le_trans(a: Seq<char>, b: Seq<char>, c: Seq<char>)
    requires
        lex_le(a, b),
        lex_le(b, c),
    ensures
        lex_le(a, c),
    decreases a.len(),
{
    if a.len() == 0 {
    } else if b.len() == 0 {
    } else if c.len() == 0 {
    } else {
        if a[0] as u32 == b[0] as u32 && b[0] as u32 == c[0] as u32 {
            lemma_lex_le_trans(a.drop_first(), b.drop_first(), c.drop_first());
        }
    }
}

/// Dropping an equal prefix does not change the order.
proof fn lemma_lex_le_skip(a: Seq<char>, b: Seq<char>, i: int)
    requires
        0 <= i <= a.len(),
        i <= b.len(),
        forall|j: int| 0 <= j < i ==> a[j] == b[j],
    ensures
        lex_le(a, b) == lex_le(a.skip(i), b.skip(i)),
    decreases i,
{
    if i > 0 {
        assert(a[0] == b[0]);
        lemma_lex_le_skip(a.drop_first(), b.drop_first(), i - 1);
        assert(a.drop_first().skip(i - 1) =~= a.skip(i));
        assert(b.drop_first().skip(i - 1) =~= b.skip(i));
    } else {
        assert(a.skip(0) =~= a);
        assert(b.skip(0) =~= b);
    }
}

/// Decides `lex_le` on two string slices.
pub fn lex_le_exec(a: &str, b: &str) -> (r: bool)
    ensures
        r == lex_le(a@, b@),
{
    let n = a.unicode_len();
    let m = b.unicode_len();
    let mut i: usize = 0;
    while i < n && i < m
        invariant
            0 <= i <= n,
            0 <= i <= m,
            n == a@.len(),
            m == b@.len(),
            forall|j: int| 0 <= j < i ==> a@[j] == b@[j],
        decreases n - i,
    {
        let ca = a.get_char(i) as u32;
        let cb = b.get_char(i) as u32;
        if ca < cb {
            proof {
                lemma_lex_le_skip(a@, b@, i as int);
            }
            return true;
        }
        if cb < ca {
            proof {
                lemma_lex_le_skip(a@, b@, i as int);
            }
            return false;
        }
        proof {
            assert(a@[i as int] as u32 == b@[i as int] as u32);
            assert(a@[i as int] == b@[i as int]);
        }
        i = i + 1;
    }
    proof {
        lemma_lex_le_skip(a@, b@, i as int);
    }
    n <= m
}

/// A decimal digit.
pub open spec fn is_digit(c: char) -> bool {
    48 <= c as u32 && c as u32 <= 57
}

/// The value of a text read as a decimal numeral, most significant digit
/// first; meaningful only when every character is a digit.
pub open spec fn dec_val(s: Seq<char>) -> nat
    decreases s.len(),
{
    if s.len() == 0 {
        0
    } else {
        (dec_val(s.drop_last()) * 10 + (s.last() as u32 - 48)) as nat
    }
}

/// A non-empty run of digits whose value fits the given bound.
pub open spec fn is_dec(s: Seq<char>) -> bool {
    s.len() > 0 && (forall|i: int| 0 <= i < s.len() ==> is_digit(s[i]))
}

/// Longer digit prefixes never shrink the value.
proof fn lemma_dec_val_prefix_le(s: Seq<char>, i: int, j: int)
    requires
        0 <= i <= j <= s.len(),
        forall|k: int| 0 <= k < j ==> is_digit(s[k]),
    ensures
        dec_val(s.subrange(0, i)) <= dec_val(s.subrange(0, j)),
    decreases j - i,
{
    if i < j {
        lemma_dec_val_prefix_le(s, i, j - 1);
        let p = s.subrange(0, j);
        assert(p.drop_last() =~= s.subrange(0, j - 1));
        assert(is_digit(p.last()));
        assert(dec_val(s.subrange(0, j - 1)) <= dec_val(p)) by {
            assert(dec_val(p) == (dec_val(p.drop_last()) * 10 + (p.last() as u32 - 48)) as nat);
            assert(dec_val(p.drop_last()) * 10 >= dec_val(p.drop_last())) by (nonlinear_arith);
        }
    }
}

/// Reads the characters `[from, to)` of `s` as a decimal `u64`: `Some` of
/// the value when the range is a non-empty run of digits whose value fits,
/// `None` otherwise.
pub fn parse_u64_range(s: &str, from: usize, to: usize) -> (r: Option<u64>)
    requires
        from <= to <= s@.len(),
    ensures
        ({
            let f = s@.subrange(from as int, to as int);
            match r {
                Some(v) => is_dec(f) && dec_val(f) <= u64::MAX && v == dec_val(f),
                None => !(is_dec(f) && dec_val(f) <= u64::MAX),
            }
        }),
{
    let ghost f = s@.subrange(from as int, to as int);
    if from == to {
        return None;
    }
    let mut acc: u64 = 0;
    let mut i: usize = from;
    while i < to
        invariant
            from <= i <= to <= s@.len(),
            f == s@.subrange(from as int, to as int),
            forall|k: int| 0 <= k < i - from ==> is_digit(f[k]),
            acc == dec_val(f.subrange(0, i - from)),
        decreases to - i,
    {
        let c = s.get_char(i);
        let v = c as u32;
        if v < 48 || 57 < v {
            assert(!is_digit(f[i - from]));
            return None;
        }
        let d = (v - 48) as u64;
        if acc > (u64::MAX - d) / 10 {
            // The prefix up to and including this digit already overflows,
            // so the whole numeral does.
            proof {
                let p = f.subrange(0, i + 1 - from);
                assert(p.drop_last() =~= f.subrange(0, i - from as int));
                assert(is_digit(p.last()));
                assert(dec_val(p) == (acc * 10 + d) as nat);
                assert(acc * 10 + d > u64::MAX) by (nonlinear_arith)
                    requires
                        acc > (u64::MAX - d) / 10,
                        d <= 9,
                ;
                if is_dec(f) {
                    lemma_dec_val_prefix_le(f, i + 1 - from, f.len() as int);
                    assert(f.subrange(0, f.len() as int) =~= f);
                }
            }
            return None;
        }
        proof {
            let p = f.subrange(0, i + 1 - from);
            assert(p.drop_last() =~= f.subrange(0, i - from as int));
            assert(acc * 10 + d <= u64::MAX) by (nonlinear_arith)
                requires
                    acc <= (u64::MAX - d) / 10,
                    d <= 9,
            ;
        }
        acc = acc * 10 + d;
        i = i + 1;
    }
    proof {
        assert(f.subrange(0, f.len() as int) =~= f);
    }
    Some(acc)
}

} // verus!
