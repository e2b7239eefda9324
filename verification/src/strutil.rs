use vstd::prelude::*;

verus! {

use vstd::string::StrSliceExecFns;
use vstd::string::StringExecFns;

/// Strict lexicographic order on character sequences, by code point.
/// For UTF-8 encoded text this coincides with byte-wise order, because
/// UTF-8 preserves the order of code points.
pub open spec fn lex_lt(a: Seq<char>, b: Seq<char>) -> bool
    decreases a.len(),
{
    if b.len() == 0 {
        false
    } else if a.len() == 0 {
        true
    } else if a[0] == b[0] {
        lex_lt(a.drop_first(), b.drop_first())
    } else {
        (a[0] as u32) < (b[0] as u32)
    }
}

/// The order is irreflexive and asymmetric, and two sequences that each
/// precede nothing the other way round are equal.
pub proof fn lemma_lex_trichotomy(a: Seq<char>, b: Seq<char>)
    ensures
        lex_lt(a, b) ==> a != b,
        lex_lt(a, b) ==> !lex_lt(b, a),
        !lex_lt(a, b) && !lex_lt(b, a) ==> a =~= b,
    decreases a.len(),
{
    if a.len() != 0 && b.len() != 0 {
        if a[0] == b[0] {
            lemma_lex_trichotomy(a.drop_first(), b.drop_first());
            if !lex_lt(a, b) && !lex_lt(b, a) {
                assert(a.drop_first() =~= b.drop_first());
                assert(a =~= b) by {
                    assert(a.len() == b.len());
                    assert forall|j: int| 0 <= j < a.len() implies a[j] == b[j] by {
                        if j > 0 {
                            assert(a.drop_first()[j - 1] == b.drop_first()[j - 1]);
                        }
                    }
                }
            }
        } else {
            assert((a[0] as u32) != (b[0] as u32)) by {
                vstd::utf8::char_u32_cast(a[0], a[0] as u32);
                vstd::utf8::char_u32_cast(b[0], b[0] as u32);
            }
        }
    }
}

/// Lexicographic order is transitive.
pub proof fn lemma_lex_trans(a: Seq<char>, b: Seq<char>, c: Seq<char>)
    requires
        lex_lt(a, b),
        lex_lt(b, c),
    ensures
        lex_lt(a, c),
    decreases a.len(),
{
    if a.len() != 0 && b.len() != 0 && c.len() != 0 {
        if a[0] == b[0] && b[0] == c[0] {
            lemma_lex_trans(a.drop_first(), b.drop_first(), c.drop_first());
        }
    }
}

/// Equal prefixes do not decide the order: it is settled by the suffixes.
pub proof fn lemma_lex_skip(a: Seq<char>, b: Seq<char>, i: int)
    requires
        0 <= i <= a.len(),
        i <= b.len(),
        a.subrange(0, i) =~= b.subrange(0, i),
    ensures
        lex_lt(a, b) == lex_lt(a.skip(i), b.skip(i)),
    decreases i,
{
    if i > 0 {
        assert(a.len() > 0 && b.len() > 0);
        assert(a[0] == b[0]) by {
            assert(a.subrange(0, i)[0] == b.subrange(0, i)[0]);
        }
        assert(a.drop_first().subrange(0, i - 1) =~= b.drop_first().subrange(0, i - 1)) by {
            assert forall|j: int| 0 <= j < i - 1 implies a.drop_first()[j] == b.drop_first()[j] by {
                assert(a.subrange(0, i)[j + 1] == b.subrange(0, i)[j + 1]);
            }
        }
        lemma_lex_skip(a.drop_first(), b.drop_first(), i - 1);
        assert(a.drop_first().skip(i - 1) =~= a.skip(i));
        assert(b.drop_first().skip(i - 1) =~= b.skip(i));
    } else {
        assert(a.skip(0) =~= a);
        assert(b.skip(0) =~= b);
    }
}

/// Three-way comparison of two strings in lexicographic code-point order:
/// negative when `a` precedes `b`, zero when they are equal, positive when
/// `b` precedes `a`.
pub fn str_cmp(a: &str, b: &str) -> (r: i8)
    ensures
        (r < 0) == lex_lt(a@, b@),
        (r == 0) == (a@ == b@),
        (r > 0) == lex_lt(b@, a@),
{
    let la = a.unicode_len();
    let lb = b.unicode_len();
    let mut i: usize = 0;
    loop
        invariant
            i <= la,
            i <= lb,
            la == a@.len(),
            lb == b@.len(),
            a@.subrange(0, i as int) =~= b@.subrange(0, i as int),
        decreases la - i,
    {
        proof {
            lemma_lex_skip(a@, b@, i as int);
            lemma_lex_skip(b@, a@, i as int);
        }
        if i >= la && i >= lb {
            assert(a@ =~= a@.subrange(0, i as int));
            assert(b@ =~= b@.subrange(0, i as int));
            assert(a@ =~= b@);
            proof {
                lemma_lex_trichotomy(a@, b@);
            }
            return 0;
        }
        if i >= la {
            assert(lex_lt(a@.skip(i as int), b@.skip(i as int)));
            proof {
                lemma_lex_trichotomy(a@, b@);
            }
            return -1;
        }
        if i >= lb {
            assert(lex_lt(b@.skip(i as int), a@.skip(i as int)));
            proof {
                lemma_lex_trichotomy(a@, b@);
            }
            return 1;
        }
        let ca = a.get_char(i);
        let cb = b.get_char(i);
        if (ca as u32) < (cb as u32) {
            assert(a@.skip(i as int)[0] == ca && b@.skip(i as int)[0] == cb);
            assert(ca != cb) by {
                vstd::utf8::char_u32_cast(ca, ca as u32);
                vstd::utf8::char_u32_cast(cb, cb as u32);
            }
            assert(lex_lt(a@.skip(i as int), b@.skip(i as int)));
            proof {
                lemma_lex_trichotomy(a@, b@);
            }
            return -1;
        }
        if (cb as u32) < (ca as u32) {
            assert(b@.skip(i as int)[0] == cb && a@.skip(i as int)[0] == ca);
            assert(ca != cb) by {
                vstd::utf8::char_u32_cast(ca, ca as u32);
                vstd::utf8::char_u32_cast(cb, cb as u32);
            }
            assert(lex_lt(b@.skip(i as int), a@.skip(i as int)));
            proof {
                lemma_lex_trichotomy(a@, b@);
            }
            return 1;
        }
        assert(ca == cb) by {
            vstd::utf8::char_u32_cast(ca, ca as u32);
            vstd::utf8::char_u32_cast(cb, cb as u32);
        }
        assert(a@.subrange(0, i + 1 as int) =~= b@.subrange(0, i + 1 as int)) by {
            assert forall|j: int| 0 <= j < i + 1 implies #[trigger] a@.subrange(0, i + 1 as int)[j]
                == b@.subrange(0, i + 1 as int)[j] by {
                if j < i {
                    assert(a@.subrange(0, i as int)[j] == b@.subrange(0, i as int)[j]);
                }
            }
        }
        i = i + 1;
    }
}

/// Whether two strings hold the same characters.
pub fn str_eq(a: &str, b: &str) -> (r: bool)
    ensures
        r == (a@ == b@),
{
    str_cmp(a, b) == 0
}

/// Relies on `String::push` from std: appends one character at the end.
#[verifier::external_body]
pub fn push_char(s: &mut String, c: char)
    ensures
        final(s)@ == old(s)@.push(c),
{
    s.push(c)
}

/// Index of the first occurrence of `c`, if `c` occurs at all.
pub fn find_char(s: &str, c: char) -> (r: Option<usize>)
    ensures
        match r {
            Some(i) => 0 <= i < s@.len() && s@[i as int] == c && (forall|j: int|
                0 <= j < i ==> s@[j] != c),
            None => forall|j: int| 0 <= j < s@.len() ==> s@[j] != c,
        },
{
    let n = s.unicode_len();
    let mut i: usize = 0;
    while i < n
        invariant
            i <= n,
            n == s@.len(),
            forall|j: int| 0 <= j < i ==> s@[j] != c,
        decreases n - i,
    {
        if s.get_char(i) == c {
            return Some(i);
        }
        i = i + 1;
    }
    None
}

/// The characters of `s` from `from` (inclusive) to `to` (exclusive), as an
/// owned string.
pub fn substr(s: &str, from: usize, to: usize) -> (r: String)
    requires
        0 <= from <= to <= s@.len(),
    ensures
        r@ == s@.subrange(from as int, to as int),
{
    let piece = s.substring_char(from, to);
    String::from_str(piece)
}

/// True when `prefix` is a prefix of `s`.
pub open spec fn has_prefix(s: Seq<char>, prefix: Seq<char>) -> bool {
    prefix.len() <= s.len() && s.subrange(0, prefix.len() as int) == prefix
}

/// Decides whether `s` starts with `prefix`.
pub fn starts_with(s: &str, prefix: &str) -> (r: bool)
    ensures
        r == has_prefix(s@, prefix@),
{
    let n = s.unicode_len();
    let np = prefix.unicode_len();
    if np > n {
        return false;
    }
    let mut i: usize = 0;
    while i < np
        invariant
            i <= np <= n,
            n == s@.len(),
            np == prefix@.len(),
            forall|j: int| 0 <= j < i ==> s@[j] == prefix@[j],
        decreases np - i,
    {
        if s.get_char(i) != prefix.get_char(i) {
            assert(!has_prefix(s@, prefix@)) by {
                if has_prefix(s@, prefix@) {
                    assert(s@.subrange(0, np as int)[i as int] == prefix@[i as int]);
                }
            }
            return false;
        }
        i = i + 1;
    }
    assert(s@.subrange(0, np as int) =~= prefix@);
    true
}

/// True when `suffix` is a suffix of `s`.
pub open spec fn has_suffix(s: Seq<char>, suffix: Seq<char>) -> bool {
    suffix.len() <= s.len() && s.subrange(s.len() - suffix.len(), s.len() as int) == suffix
}

/// Decides whether `s` ends with `suffix`.
pub fn ends_with(s: &str, suffix: &str) -> (r: bool)
    ensures
        r == has_suffix(s@, suffix@),
{
    let n = s.unicode_len();
    let ns = suffix.unicode_len();
    if ns > n {
        return false;
    }
    let start: usize = n - ns;
    let mut i: usize = 0;
    while i < ns
        invariant
            i <= ns <= n,
            start == n - ns,
            n == s@.len(),
            ns == suffix@.len(),
            forall|j: int| 0 <= j < i ==> s@[start + j] == suffix@[j],
        decreases ns - i,
    {
        if s.get_char(start + i) != suffix.get_char(i) {
            assert(!has_suffix(s@, suffix@)) by {
                if has_suffix(s@, suffix@) {
                    assert(s@.subrange(n - ns, n as int)[i as int] == suffix@[i as int]);
                }
            }
            return false;
        }
        i = i + 1;
    }
    assert(s@.subrange(n - ns, n as int) =~= suffix@);
    true
}

} // verus!
