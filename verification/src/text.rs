//! Small verified text utilities shared across the tracker: byte-wise
//! string equality, the lexicographic byte order used to sort ids, labels
//! and timestamps, case-insensitive keyword matching, and title truncation.

use vstd::prelude::*;
use vstd::string::StrSliceExecFns;
use vstd::string::StringSliceAdditionalSpecFns;
use vstd::string::StringExecFns;

verus! {

broadcast use vstd::utf8::encode_utf8_decode_utf8;

/// Lexicographic "less than or equal" over byte sequences, the order in
/// which `str` and `String` compare: a proper prefix sorts first, and the
/// first differing byte decides.
pub open spec fn lex_le(a: Seq<u8>, b: Seq<u8>) -> bool
    decreases a.len(),
{
    if a.len() == 0 {
        true
    } else if b.len() == 0 {
        false
    } else if a[0] < b[0] {
        true
    } else if a[0] > b[0] {
        false
    } else {
        lex_le(a.drop_first(), b.drop_first())
    }
}

pub proof fn lemma_lex_le_total(a: Seq<u8>, b: Seq<u8>)
    ensures
        lex_le(a, b) || lex_le(b, a),
    decreases a.len(),
{
    if a.len() != 0 && b.len() != 0 && a[0] == b[0] {
        lemma_lex_le_total(a.drop_first(), b.drop_first());
    }
}

pub proof fn lemma_lex_le_trans(a: Seq<u8>, b: Seq<u8>, c: Seq<u8>)
    requires
        lex_le(a, b),
        lex_le(b, c),
    ensures
        lex_le(a, c),
    decreases a.len(),
{
    if a.len() != 0 && b.len() != 0 && c.len() != 0 {
        if a[0] == b[0] && b[0] == c[0] {
            lemma_lex_le_trans(a.drop_first(), b.drop_first(), c.drop_first());
        }
    }
}

/// Two byte sequences that compare at-or-before each other are equal.
pub proof fn lemma_lex_le_antisym(a: Seq<u8>, b: Seq<u8>)
    requires
        lex_le(a, b),
        lex_le(b, a),
    ensures
        a == b,
    decreases a.len(),
{
    if a.len() == 0 {
        assert(b.len() == 0);
        assert(a =~= b);
    } else {
        assert(b.len() != 0);
        assert(a[0] == b[0]);
        lemma_lex_le_antisym(a.drop_first(), b.drop_first());
        assert(a =~= b) by {
            assert(forall|i: int|
                1 <= i < a.len() ==> a[i] == a.drop_first()[i - 1] && b[i]
                    == b.drop_first()[i - 1]);
        }
    }
}

/// Skipping an equal prefix does not change how two byte sequences compare.
proof fn lemma_lex_le_common_prefix(a: Seq<u8>, b: Seq<u8>, n: int)
    requires
        0 <= n <= a.len(),
        n <= b.len(),
        forall|j: int| 0 <= j < n ==> a[j] == b[j],
    ensures
        lex_le(a, b) == lex_le(a.skip(n), b.skip(n)),
    decreases n,
{
    if n == 0 {
        assert(a.skip(0) =~= a);
        assert(b.skip(0) =~= b);
    } else {
        assert(a.len() > 0 && b.len() > 0 && a[0] == b[0]);
        assert(forall|j: int| 0 <= j < n - 1 ==> a.drop_first()[j] == b.drop_first()[j]);
        lemma_lex_le_common_prefix(a.drop_first(), b.drop_first(), n - 1);
        assert(a.drop_first().skip(n - 1) =~= a.skip(n));
        assert(b.drop_first().skip(n - 1) =~= b.skip(n));
    }
}

/// True when the two byte slices hold the same bytes.
pub fn bytes_eq(a: &[u8], b: &[u8]) -> (r: bool)
    ensures
        r == (a@ == b@),
{
    if a.len() != b.len() {
        assert(a@ != b@);
        return false;
    }
    let n = a.len();
    let mut i: usize = 0;
    while i < n
        invariant
            n == a@.len() == b@.len(),
            i <= n,
            forall|j: int| 0 <= j < i ==> a@[j] == b@[j],
        decreases n - i,
    {
        if a[i] != b[i] {
            return false;
        }
        i = i + 1;
    }
    assert(a@ =~= b@);
    true
}

/// True when the two strings are equal character for character.
pub fn str_eq(a: &str, b: &str) -> (r: bool)
    ensures
        r == (a@ == b@),
{
    let r = bytes_eq(a.as_bytes(), b.as_bytes());
    proof {
        if a.spec_bytes() == b.spec_bytes() {
            assert(vstd::utf8::decode_utf8(vstd::utf8::encode_utf8(a@)) == a@);
            assert(vstd::utf8::decode_utf8(vstd::utf8::encode_utf8(b@)) == b@);
            assert(a@ == b@);
        }
    }
    r
}

/// True when string `a` sorts at or before string `b` in byte order.
pub fn str_le(a: &str, b: &str) -> (r: bool)
    ensures
        r == lex_le(a.spec_bytes(), b.spec_bytes()),
{
    let ab = a.as_bytes();
    let bb = b.as_bytes();
    let an = ab.len();
    let bn = bb.len();
    let n = if an < bn {
        an
    } else {
        bn
    };
    let mut i: usize = 0;
    while i < n
        invariant
            ab@ == a.spec_bytes(),
            bb@ == b.spec_bytes(),
            an == ab@.len(),
            bn == bb@.len(),
            n == if an < bn {
                an as int
            } else {
                bn as int
            },
            i <= n,
            forall|j: int| 0 <= j < i ==> ab@[j] == bb@[j],
        decreases n - i,
    {
        proof {
            assert(ab@.skip(i as int)[0] == ab@[i as int]);
            assert(bb@.skip(i as int)[0] == bb@[i as int]);
        }
        if ab[i] < bb[i] {
            proof {
                lemma_lex_le_common_prefix(ab@, bb@, i as int);
            }
            return true;
        }
        if ab[i] > bb[i] {
            proof {
                lemma_lex_le_common_prefix(ab@, bb@, i as int);
            }
            return false;
        }
        i = i + 1;
    }
    proof {
        lemma_lex_le_common_prefix(ab@, bb@, n as int);
    }
    an <= bn
}

/// True when `s` spells the same word as `lower`, allowing each character
/// to appear in either the `lower` or the `upper` form.
pub open spec fn matches_ci(s: Seq<char>, lower: Seq<char>, upper: Seq<char>) -> bool {
    s.len() == lower.len() && forall|i: int| 0 <= i < s.len() ==> s[i] == lower[i] || s[i] == upper[i]
}

/// Case-insensitive keyword match: `lower` and `upper` are the two
/// spellings of one keyword, character by character.
pub fn eq_ignore_case(s: &str, lower: &str, upper: &str) -> (r: bool)
    requires
        lower@.len() == upper@.len(),
    ensures
        r == matches_ci(s@, lower@, upper@),
{
    let sn = s.unicode_len();
    let ln = lower.unicode_len();
    if sn != ln {
        return false;
    }
    let mut i: usize = 0;
    while i < sn
        invariant
            sn == s@.len(),
            sn == lower@.len() == upper@.len(),
            i <= sn,
            forall|j: int| 0 <= j < i ==> s@[j] == lower@[j] || s@[j] == upper@[j],
        decreases sn - i,
    {
        let c = s.get_char(i);
        if c != lower.get_char(i) && c != upper.get_char(i) {
            return false;
        }
        i = i + 1;
    }
    true
}

/// The decimal spelling of a number, most significant digit first.
pub open spec fn dec_rep(n: nat) -> Seq<char>
    decreases n,
{
    if n < 10 {
        seq!["0123456789"@[n as int]]
    } else {
        dec_rep(n / 10).push("0123456789"@[(n % 10) as int])
    }
}

/// Writes a number in decimal.
pub fn fmt_u64(n: u64) -> (r: String)
    ensures
        r@ == dec_rep(n as nat),
    decreases n,
{
    let digits = "0123456789";
    proof {
        reveal_strlit("0123456789");
    }
    if n < 10 {
        let d = digits.substring_char(n as usize, n as usize + 1);
        proof {
            assert(d@ =~= seq![digits@[n as int]]);
        }
        String::from_str(d)
    } else {
        let mut r = fmt_u64(n / 10);
        let d = digits.substring_char((n % 10) as usize, (n % 10) as usize + 1);
        proof {
            assert(d@ =~= seq![digits@[(n % 10) as int]]);
            assert(r@ + d@ =~= dec_rep(n as nat));
        }
        r.append(d);
        r
    }
}

/// Shortens a title for one-line display: a string of at most `max`
/// characters is returned unchanged, a longer one is cut to `max - 3`
/// characters with an ellipsis appended.
pub fn truncate(s: &str, max: usize) -> (r: String)
    requires
        max >= 3,
    ensures
        s@.len() <= max ==> r@ == s@,
        s@.len() > max ==> r@ == s@.subrange(0, max - 3) + "..."@,
{
    let n = s.unicode_len();
    if n <= max {
        String::from_str(s)
    } else {
        let head = s.substring_char(0, max - 3);
        let mut r = String::from_str(head);
        r.append("...");
        r
    }
}

} // verus!
