//! Identifier generation.
//!
//! An id is `prefix-suffix`.  The suffix comes from a SHA-256 digest of
//! the title joined with the creation timestamp: a four-byte window
//! slides across the digest, each window is written in base 36, and the
//! first candidate absent from the store wins.  Should every window
//! collide, a hexadecimal counter runs until a free id appears; the
//! lemmas here show by counting that it always does.

use vstd::prelude::*;
use vstd::string::StrSliceExecFns;
use vstd::string::StringExecFns;

verus! {

/// The SHA-256 digest of a string, named only: the tracker relies on the
/// digest being a pure function of the input and 32 bytes long.
pub uninterp spec fn sha256_of(s: Seq<char>) -> Seq<u8>;

/// Relies on sha2's `Sha256::digest`: the SHA-256 digest of the input
/// bytes, a pure function of its argument, always 32 bytes.
#[verifier::external_body]
pub fn sha256(s: &str) -> (r: Vec<u8>)
    ensures
        r@ == sha256_of(s@),
        r@.len() == 32,
{
    <sha2::Sha256 as sha2::digest::Digest>::digest(s.as_bytes()).as_slice().to_vec()
}

/// The base-36 character a byte maps to: its value modulo 36, written as
/// a digit or a lower-case letter.
pub open spec fn base36_char(b: u8) -> char {
    "0123456789abcdefghijklmnopqrstuvwxyz"@[(b % 36) as int]
}

/// The four-character suffix read from the digest window at `o`.
pub open spec fn window_suffix(digest: Seq<u8>, o: int) -> Seq<char> {
    seq![
        base36_char(digest[o]),
        base36_char(digest[o + 1]),
        base36_char(digest[o + 2]),
        base36_char(digest[o + 3]),
    ]
}

/// The candidate id formed from the digest window at `o`.
pub open spec fn window_candidate(prefix: Seq<char>, digest: Seq<u8>, o: int) -> Seq<char> {
    prefix + "-"@ + window_suffix(digest, o)
}

/// One hexadecimal digit.
pub open spec fn hex_digit(d: nat) -> char {
    if d == 0 {
        '0'
    } else if d == 1 {
        '1'
    } else if d == 2 {
        '2'
    } else if d == 3 {
        '3'
    } else if d == 4 {
        '4'
    } else if d == 5 {
        '5'
    } else if d == 6 {
        '6'
    } else if d == 7 {
        '7'
    } else if d == 8 {
        '8'
    } else if d == 9 {
        '9'
    } else if d == 10 {
        'a'
    } else if d == 11 {
        'b'
    } else if d == 12 {
        'c'
    } else if d == 13 {
        'd'
    } else if d == 14 {
        'e'
    } else {
        'f'
    }
}

/// The value a hexadecimal digit stands for.
pub open spec fn hex_val(c: char) -> nat {
    if c == '0' {
        0
    } else if c == '1' {
        1
    } else if c == '2' {
        2
    } else if c == '3' {
        3
    } else if c == '4' {
        4
    } else if c == '5' {
        5
    } else if c == '6' {
        6
    } else if c == '7' {
        7
    } else if c == '8' {
        8
    } else if c == '9' {
        9
    } else if c == 'a' {
        10
    } else if c == 'b' {
        11
    } else if c == 'c' {
        12
    } else if c == 'd' {
        13
    } else if c == 'e' {
        14
    } else {
        15
    }
}

/// A number written in hexadecimal, most significant digit first.
pub open spec fn hex_rep(n: nat) -> Seq<char>
    decreases n,
{
    if n < 16 {
        seq![hex_digit(n)]
    } else {
        hex_rep(n / 16).push(hex_digit(n % 16))
    }
}

/// A number written in hexadecimal and padded with zeros to at least
/// four digits.
pub open spec fn hex4(n: nat) -> Seq<char> {
    if hex_rep(n).len() >= 4 {
        hex_rep(n)
    } else {
        Seq::new((4 - hex_rep(n).len()) as nat, |i: int| '0') + hex_rep(n)
    }
}

/// The fallback candidate id for counter value `c`.
pub open spec fn counter_candidate(prefix: Seq<char>, c: nat) -> Seq<char> {
    prefix + "-"@ + hex4(c)
}

/// The number a hexadecimal spelling reads back as.
pub open spec fn unhex(s: Seq<char>) -> nat
    decreases s.len(),
{
    if s.len() == 0 {
        0
    } else {
        unhex(s.drop_last()) * 16 + hex_val(s.last())
    }
}

/// A digit's value is the value it was written from.
proof fn lemma_hex_val_digit(d: nat)
    requires
        d < 16,
    ensures
        hex_val(hex_digit(d)) == d,
{
}

/// Reading back a spelled number returns the number.
proof fn lemma_unhex_hex_rep(n: nat)
    ensures
        unhex(hex_rep(n)) == n,
    decreases n,
{
    if n < 16 {
        lemma_hex_val_digit(n);
        assert(seq![hex_digit(n)].drop_last() =~= Seq::<char>::empty());
        assert(seq![hex_digit(n)].last() == hex_digit(n));
        assert(unhex(Seq::<char>::empty()) == 0);
    } else {
        lemma_unhex_hex_rep(n / 16);
        lemma_hex_val_digit(n % 16);
        assert(hex_rep(n / 16).push(hex_digit(n % 16)).drop_last() =~= hex_rep(n / 16));
        assert(hex_rep(n / 16).push(hex_digit(n % 16)).last() == hex_digit(n % 16));
    }
}

/// A leading zero does not change the number a spelling reads back as.
proof fn lemma_unhex_lead_zero(s: Seq<char>)
    ensures
        unhex(seq!['0'] + s) == unhex(s),
    decreases s.len(),
{
    if s.len() == 0 {
        assert(seq!['0'] + s =~= seq!['0']);
        assert(seq!['0'].drop_last() =~= Seq::<char>::empty());
        assert(seq!['0'].last() == '0');
        assert(unhex(Seq::<char>::empty()) == 0);
    } else {
        assert((seq!['0'] + s).drop_last() =~= seq!['0'] + s.drop_last());
        assert((seq!['0'] + s).last() == s.last());
        lemma_unhex_lead_zero(s.drop_last());
    }
}

/// Zero padding does not change the number a spelling reads back as.
proof fn lemma_unhex_pad(k: nat, s: Seq<char>)
    ensures
        unhex(Seq::new(k, |i: int| '0') + s) == unhex(s),
    decreases k,
{
    if k == 0 {
        assert(Seq::new(0, |i: int| '0') + s =~= s);
    } else {
        assert(Seq::new(k, |i: int| '0') + s =~= seq!['0'] + (Seq::new((k - 1) as nat, |i: int| '0')
            + s));
        lemma_unhex_lead_zero(Seq::new((k - 1) as nat, |i: int| '0') + s);
        lemma_unhex_pad((k - 1) as nat, s);
    }
}

/// Two distinct counter values give distinct candidate ids.
pub proof fn lemma_counter_candidate_injective(prefix: Seq<char>, i: nat, j: nat)
    requires
        counter_candidate(prefix, i) == counter_candidate(prefix, j),
    ensures
        i == j,
{
    let a = counter_candidate(prefix, i);
    let head = prefix.len() + "-"@.len();
    assert(hex4(i) =~= a.subrange(head as int, a.len() as int));
    assert(hex4(j) =~= a.subrange(head as int, a.len() as int));
    lemma_unhex_hex_rep(i);
    lemma_unhex_hex_rep(j);
    lemma_unhex_pad((4 - hex_rep(i).len()) as nat, hex_rep(i));
    lemma_unhex_pad((4 - hex_rep(j).len()) as nat, hex_rep(j));
}

/// The set of the first `c` counter candidates.
pub open spec fn counter_candidates_below(prefix: Seq<char>, c: nat) -> Set<Seq<char>> {
    Set::new(|x: Seq<char>| exists|j: nat| j < c && x == counter_candidate(prefix, j))
}

/// The first `c` counter candidates are `c` distinct ids.
pub proof fn lemma_counter_candidates_card(prefix: Seq<char>, c: nat)
    ensures
        counter_candidates_below(prefix, c).finite(),
        counter_candidates_below(prefix, c).len() == c,
    decreases c,
{
    if c == 0 {
        assert(counter_candidates_below(prefix, 0) =~= Set::<Seq<char>>::empty());
    } else {
        let prev: nat = (c - 1) as nat;
        lemma_counter_candidates_card(prefix, prev);
        assert(counter_candidates_below(prefix, c) =~= counter_candidates_below(
            prefix,
            prev,
        ).insert(counter_candidate(prefix, prev)));
        if counter_candidates_below(prefix, prev).contains(counter_candidate(prefix, prev)) {
            let j = choose|j: nat| j < prev && counter_candidate(prefix, prev)
                == counter_candidate(prefix, j);
            lemma_counter_candidate_injective(prefix, prev, j);
            assert(false);
        }
    }
}

/// What the generated id is, given the prefix, the digest and the ids
/// already taken: never a taken id; the first free window candidate when
/// any window is free; otherwise the first free counter candidate.
pub open spec fn is_generated_id(
    prefix: Seq<char>,
    digest: Seq<u8>,
    taken: Set<Seq<char>>,
    r: Seq<char>,
) -> bool {
    &&& !taken.contains(r)
    &&& (exists|o: int|
        0 <= o < 28 && !taken.contains(#[trigger] window_candidate(prefix, digest, o))) ==> (
    exists|o: int|
        {
            &&& 0 <= o < 28
            &&& r == #[trigger] window_candidate(prefix, digest, o)
            &&& forall|p: int|
                0 <= p < o ==> taken.contains(#[trigger] window_candidate(prefix, digest, p))
        })
    &&& (forall|o: int|
        0 <= o < 28 ==> taken.contains(#[trigger] window_candidate(prefix, digest, o))) ==> (
    exists|c: nat|
        {
            &&& r == counter_candidate(prefix, c)
            &&& forall|d: nat| d < c ==> taken.contains(#[trigger] counter_candidate(prefix, d))
        })
}

/// Only one id satisfies the generator's characterization: the first
/// free window candidate, or the first free counter candidate when
/// every window is taken.
pub proof fn lemma_generated_id_unique(
    prefix: Seq<char>,
    digest: Seq<u8>,
    taken: Set<Seq<char>>,
    r1: Seq<char>,
    r2: Seq<char>,
)
    requires
        is_generated_id(prefix, digest, taken, r1),
        is_generated_id(prefix, digest, taken, r2),
    ensures
        r1 == r2,
{
    if exists|o: int| 0 <= o < 28 && !taken.contains(#[trigger] window_candidate(prefix, digest, o)) {
        let o1 = choose|o: int|
            {
                &&& 0 <= o < 28
                &&& r1 == #[trigger] window_candidate(prefix, digest, o)
                &&& forall|p: int|
                    0 <= p < o ==> taken.contains(#[trigger] window_candidate(prefix, digest, p))
            };
        let o2 = choose|o: int|
            {
                &&& 0 <= o < 28
                &&& r2 == #[trigger] window_candidate(prefix, digest, o)
                &&& forall|p: int|
                    0 <= p < o ==> taken.contains(#[trigger] window_candidate(prefix, digest, p))
            };
        if o1 < o2 {
            assert(taken.contains(window_candidate(prefix, digest, o1)));
            assert(false);
        }
        if o2 < o1 {
            assert(taken.contains(window_candidate(prefix, digest, o2)));
            assert(false);
        }
    } else {
        let c1 = choose|c: nat|
            {
                &&& r1 == counter_candidate(prefix, c)
                &&& forall|d: nat| d < c ==> taken.contains(#[trigger] counter_candidate(prefix, d))
            };
        let c2 = choose|c: nat|
            {
                &&& r2 == counter_candidate(prefix, c)
                &&& forall|d: nat| d < c ==> taken.contains(#[trigger] counter_candidate(prefix, d))
            };
        if c1 < c2 {
            assert(taken.contains(counter_candidate(prefix, c1)));
            assert(false);
        }
        if c2 < c1 {
            assert(taken.contains(counter_candidate(prefix, c2)));
            assert(false);
        }
    }
}

/// Writes one four-byte window of the digest as a candidate id.
pub fn build_window_candidate(prefix: &str, digest: &Vec<u8>, o: usize) -> (r: String)
    requires
        o + 4 <= digest@.len(),
    ensures
        r@ == window_candidate(prefix@, digest@, o as int),
{
    let alphabet = "0123456789abcdefghijklmnopqrstuvwxyz";
    proof {
        reveal_strlit("0123456789abcdefghijklmnopqrstuvwxyz");
    }
    let n = digest.len();
    let mut r = String::from_str(prefix);
    r.append("-");
    let i0 = (digest[o] % 36) as usize;
    let i1 = (digest[o + 1] % 36) as usize;
    let i2 = (digest[o + 2] % 36) as usize;
    let i3 = (digest[o + 3] % 36) as usize;
    let c0 = alphabet.substring_char(i0, i0 + 1);
    let c1 = alphabet.substring_char(i1, i1 + 1);
    let c2 = alphabet.substring_char(i2, i2 + 1);
    let c3 = alphabet.substring_char(i3, i3 + 1);
    r.append(c0);
    r.append(c1);
    r.append(c2);
    r.append(c3);
    proof {
        assert(r@ =~= window_candidate(prefix@, digest@, o as int));
    }
    r
}

/// Derives the store's id prefix at initialization: the first two
/// bytes of a digest of the working directory's path, written in base
/// 36.
pub fn derive_prefix(dir: &str) -> (r: String)
    ensures
        r@ == seq![
            base36_char(sha256_of(dir@)[0]),
            base36_char(sha256_of(dir@)[1]),
        ],
{
    let digest = sha256(dir);
    let alphabet = "0123456789abcdefghijklmnopqrstuvwxyz";
    proof {
        reveal_strlit("0123456789abcdefghijklmnopqrstuvwxyz");
    }
    let i0 = (digest[0] % 36) as usize;
    let i1 = (digest[1] % 36) as usize;
    let c0 = alphabet.substring_char(i0, i0 + 1);
    let c1 = alphabet.substring_char(i1, i1 + 1);
    let mut r = String::from_str(c0);
    r.append(c1);
    proof {
        assert(r@ =~= seq![
            base36_char(sha256_of(dir@)[0]),
            base36_char(sha256_of(dir@)[1]),
        ]);
    }
    r
}

/// One hexadecimal digit as text.
fn hex_digit_str(d: u8) -> (r: &'static str)
    requires
        d < 16,
    ensures
        r@ =~= seq![hex_digit(d as nat)],
{
    proof {
        reveal_strlit("0");
        reveal_strlit("1");
        reveal_strlit("2");
        reveal_strlit("3");
        reveal_strlit("4");
        reveal_strlit("5");
        reveal_strlit("6");
        reveal_strlit("7");
        reveal_strlit("8");
        reveal_strlit("9");
        reveal_strlit("a");
        reveal_strlit("b");
        reveal_strlit("c");
        reveal_strlit("d");
        reveal_strlit("e");
        reveal_strlit("f");
    }
    match d {
        0 => "0",
        1 => "1",
        2 => "2",
        3 => "3",
        4 => "4",
        5 => "5",
        6 => "6",
        7 => "7",
        8 => "8",
        9 => "9",
        10 => "a",
        11 => "b",
        12 => "c",
        13 => "d",
        14 => "e",
        _ => "f",
    }
}

/// Writes a number in hexadecimal.
fn fmt_hex(n: u64) -> (r: String)
    ensures
        r@ == hex_rep(n as nat),
    decreases n,
{
    if n < 16 {
        String::from_str(hex_digit_str(n as u8))
    } else {
        let mut r = fmt_hex(n / 16);
        let d = hex_digit_str((n % 16) as u8);
        proof {
            assert(r@ + d@ =~= hex_rep(n as nat));
        }
        r.append(d);
        r
    }
}

/// Writes the fallback candidate id for a counter value.
pub fn build_counter_candidate(prefix: &str, c: u64) -> (r: String)
    ensures
        r@ == counter_candidate(prefix@, c as nat),
{
    proof {
        reveal_strlit("0");
    }
    let digits = fmt_hex(c);
    let n = digits.as_str().unicode_len();
    let mut r = String::from_str(prefix);
    r.append("-");
    if n == 1 {
        r.append("0");
        r.append("0");
        r.append("0");
    } else if n == 2 {
        r.append("0");
        r.append("0");
    } else if n == 3 {
        r.append("0");
    }
    r.append(digits.as_str());
    proof {
        if n < 4 {
            assert(Seq::new((4 - hex_rep(c as nat).len()) as nat, |i: int| '0') =~= if n == 1 {
                seq!['0', '0', '0']
            } else if n == 2 {
                seq!['0', '0']
            } else {
                seq!['0']
            });
        }
        assert(r@ =~= counter_candidate(prefix@, c as nat));
    }
    r
}

} // verus!
