//! The persisted record format.
//!
//! Each issue is one line: a JSON object with fixed field order, string
//! values escaped byte by byte, the two optional fields left out when
//! absent.  The encoder and the parser are both written against the same
//! specification functions, and reading back what was written is proved
//! to reproduce every field exactly.

use vstd::prelude::*;
use vstd::string::StringSliceAdditionalSpecFns;
use vstd::utf8::decode_utf8;
use vstd::utf8::is_ascii_chars;
use vstd::utf8::encode_utf8;
use vstd::utf8::valid_utf8;

verus! {

/// One lower-case hexadecimal digit, as a byte.
pub open spec fn hex_byte(d: u8) -> u8 {
    if d < 10 {
        (48 + d) as u8
    } else {
        (87 + d) as u8
    }
}

/// How one byte of string content is written: quote and backslash get a
/// backslash, control bytes become a six-byte escape, the rest stand as
/// they are.
pub open spec fn esc_byte(b: u8) -> Seq<u8> {
    if b == 34 {
        seq![92u8, 34u8]
    } else if b == 92 {
        seq![92u8, 92u8]
    } else if b < 32 {
        seq![92u8, 117u8, 48u8, 48u8, hex_byte(b / 16), hex_byte(b % 16)]
    } else {
        seq![b]
    }
}

/// String content, escaped byte by byte.
pub open spec fn esc(bs: Seq<u8>) -> Seq<u8>
    decreases bs.len(),
{
    if bs.len() == 0 {
        Seq::<u8>::empty()
    } else {
        esc_byte(bs[0]) + esc(bs.drop_first())
    }
}

/// A string value: quoted, escaped content between.
pub open spec fn enc_string(s: Seq<char>) -> Seq<u8> {
    seq![34u8] + esc(encode_utf8(s)) + seq![34u8]
}

/// A number in decimal, as bytes.
pub open spec fn dec_bytes(n: nat) -> Seq<u8>
    decreases n,
{
    if n < 10 {
        seq![(48 + n) as u8]
    } else {
        dec_bytes(n / 10).push((48 + n % 10) as u8)
    }
}

/// The value of a hexadecimal digit byte, 16 when it is none.
pub open spec fn hex_byte_val(b: u8) -> nat {
    if 48 <= b <= 57 {
        (b - 48) as nat
    } else if 97 <= b <= 102 {
        (b - 87) as nat
    } else {
        16
    }
}

/// Reads escaped string content up to and including the closing quote:
/// the content bytes and what follows the quote.
pub open spec fn parse_str_body(b: Seq<u8>) -> Option<(Seq<u8>, Seq<u8>)>
    decreases b.len(),
{
    if b.len() == 0 {
        None
    } else if b[0] == 34 {
        Some((Seq::<u8>::empty(), b.drop_first()))
    } else if b[0] == 92 {
        if b.len() >= 2 && (b[1] == 34 || b[1] == 92) {
            match parse_str_body(b.skip(2)) {
                Some((content, rest)) => Some((seq![b[1]] + content, rest)),
                None => None,
            }
        } else if b.len() >= 6 && b[1] == 117 && b[2] == 48 && b[3] == 48 && hex_byte_val(b[4])
            < 16 && hex_byte_val(b[5]) < 16 && hex_byte_val(b[4]) * 16 + hex_byte_val(b[5]) < 32 {
            match parse_str_body(b.skip(6)) {
                Some((content, rest)) => Some(
                    (seq![(hex_byte_val(b[4]) * 16 + hex_byte_val(b[5])) as u8] + content, rest),
                ),
                None => None,
            }
        } else {
            None
        }
    } else {
        match parse_str_body(b.drop_first()) {
            Some((content, rest)) => Some((seq![b[0]] + content, rest)),
            None => None,
        }
    }
}

/// Reads a string value: an opening quote, content, a closing quote,
/// and the content must be well-formed text.
pub open spec fn parse_string(b: Seq<u8>) -> Option<(Seq<char>, Seq<u8>)> {
    if b.len() >= 1 && b[0] == 34 {
        match parse_str_body(b.drop_first()) {
            Some((content, rest)) => if valid_utf8(content) {
                Some((decode_utf8(content), rest))
            } else {
                None
            },
            None => None,
        }
    } else {
        None
    }
}

/// True for a decimal digit byte.
pub open spec fn is_digit(b: u8) -> bool {
    48 <= b <= 57
}

/// Reads a number of at most three digits, no more than 255.
pub open spec fn parse_u8(b: Seq<u8>) -> Option<(u8, Seq<u8>)> {
    if b.len() >= 1 && is_digit(b[0]) {
        if b.len() >= 2 && is_digit(b[1]) {
            if b.len() >= 3 && is_digit(b[2]) {
                if b.len() >= 4 && is_digit(b[3]) {
                    None
                } else {
                    let v = (b[0] - 48) * 100 + (b[1] - 48) * 10 + (b[2] - 48);
                    if v <= 255 {
                        Some((v as u8, b.skip(3)))
                    } else {
                        None
                    }
                }
            } else {
                Some(((((b[0] - 48) * 10 + (b[1] - 48))) as u8, b.skip(2)))
            }
        } else {
            Some(((b[0] - 48) as u8, b.skip(1)))
        }
    } else {
        None
    }
}

/// Escaped content followed by a closing quote reads back as the
/// content.
#[verifier::rlimit(60)]
#[verifier::spinoff_prover]
pub proof fn lemma_parse_esc(bs: Seq<u8>, rest: Seq<u8>)
    ensures
        parse_str_body(esc(bs) + seq![34u8] + rest) == Some::<(Seq<u8>, Seq<u8>)>((bs, rest)),
    decreases bs.len(),
{
    let whole = esc(bs) + seq![34u8] + rest;
    if bs.len() == 0 {
        assert(whole =~= seq![34u8] + rest);
        assert(whole[0] == 34);
        assert(whole.drop_first() =~= rest);
        assert(bs =~= Seq::<u8>::empty());
    } else {
        let b0 = bs[0];
        let tail = bs.drop_first();
        lemma_parse_esc(tail, rest);
        let tail_whole = esc(tail) + seq![34u8] + rest;
        assert(esc(bs) =~= esc_byte(b0) + esc(tail));
        if b0 == 34 {
            assert(whole =~= seq![92u8, 34u8] + tail_whole);
            assert(whole[0] == 92 && whole[1] == 34);
            assert(whole.skip(2) =~= tail_whole);
            assert(seq![whole[1]] + tail =~= bs);
        } else if b0 == 92 {
            assert(whole =~= seq![92u8, 92u8] + tail_whole);
            assert(whole[0] == 92 && whole[1] == 92);
            assert(whole.skip(2) =~= tail_whole);
            assert(seq![whole[1]] + tail =~= bs);
        } else if b0 < 32 {
            assert(whole =~= seq![92u8, 117u8, 48u8, 48u8, hex_byte(b0 / 16), hex_byte(b0 % 16)]
                + tail_whole);
            assert(whole[0] == 92 && whole[1] == 117 && whole[2] == 48 && whole[3] == 48);
            assert(whole[4] == hex_byte(b0 / 16) && whole[5] == hex_byte(b0 % 16));
            assert(hex_byte_val(hex_byte(b0 / 16)) == b0 / 16);
            assert(hex_byte_val(hex_byte(b0 % 16)) == b0 % 16);
            assert(hex_byte_val(whole[4]) * 16 + hex_byte_val(whole[5]) == b0);
            assert(whole.skip(6) =~= tail_whole);
            assert(seq![b0] + tail =~= bs);
        } else {
            assert(whole =~= seq![b0] + tail_whole);
            assert(whole[0] == b0);
            assert(whole[0] != 34 && whole[0] != 92);
            assert(whole.drop_first() =~= tail_whole);
            assert(seq![whole[0]] + tail =~= bs);
        }
    }
}

/// A written string value reads back as the string it was written from.
pub proof fn lemma_parse_enc_string(s: Seq<char>, rest: Seq<u8>)
    ensures
        parse_string(enc_string(s) + rest) == Some::<(Seq<char>, Seq<u8>)>((s, rest)),
{
    broadcast use vstd::utf8::encode_utf8_valid_utf8;
    broadcast use vstd::utf8::encode_utf8_decode_utf8;

    let whole = enc_string(s) + rest;
    assert(whole[0] == 34);
    assert(whole.drop_first() =~= esc(encode_utf8(s)) + seq![34u8] + rest);
    lemma_parse_esc(encode_utf8(s), rest);
    assert(valid_utf8(encode_utf8(s)));
    assert(decode_utf8(encode_utf8(s)) == s);
}

/// A written number followed by something that is not a digit reads
/// back as the number.
pub proof fn lemma_parse_dec(n: u8, rest: Seq<u8>)
    requires
        rest.len() == 0 || !is_digit(rest[0]),
    ensures
        parse_u8(dec_bytes(n as nat) + rest) == Some::<(u8, Seq<u8>)>((n, rest)),
{
    let whole = dec_bytes(n as nat) + rest;
    if n < 10 {
        assert(dec_bytes(n as nat) =~= seq![(48 + n) as u8]);
        assert(whole[0] == 48 + n);
        assert(whole.skip(1) =~= rest);
    } else if n < 100 {
        assert(dec_bytes((n / 10) as nat) =~= seq![(48 + n / 10) as u8]);
        assert(dec_bytes(n as nat) =~= seq![(48 + n / 10) as u8, (48 + n % 10) as u8]);
        assert(whole[0] == 48 + n / 10 && whole[1] == 48 + n % 10);
        assert(whole.skip(2) =~= rest);
    } else {
        assert(dec_bytes((n / 100) as nat) =~= seq![(48 + n / 100) as u8]);
        assert(dec_bytes((n / 10) as nat) =~= seq![(48 + n / 100) as u8, (48 + (n / 10) % 10) as u8]);
        assert(dec_bytes(n as nat) =~= seq![
            (48 + n / 100) as u8,
            (48 + (n / 10) % 10) as u8,
            (48 + n % 10) as u8,
        ]);
        assert(whole[0] == 48 + n / 100 && whole[1] == 48 + (n / 10) % 10 && whole[2] == 48 + n
            % 10);
        assert(whole.skip(3) =~= rest);
        assert((whole[0] - 48) * 100 + (whole[1] - 48) * 10 + (whole[2] - 48) == n);
    }
}

/// True when the stream begins with these bytes.
pub open spec fn starts_with(b: Seq<u8>, lit: Seq<u8>) -> bool {
    lit.len() <= b.len() && b.take(lit.len() as int) == lit
}

/// Reads an expected literal off the front of the stream.
pub open spec fn parse_lit(b: Seq<u8>, lit: Seq<u8>) -> Option<Seq<u8>> {
    if starts_with(b, lit) {
        Some(b.skip(lit.len() as int))
    } else {
        None
    }
}

/// A literal reads back off a stream it begins.
pub proof fn lemma_parse_lit(lit: Seq<u8>, rest: Seq<u8>)
    ensures
        parse_lit(lit + rest, lit) == Some(rest),
{
    assert((lit + rest).take(lit.len() as int) =~= lit);
    assert((lit + rest).skip(lit.len() as int) =~= rest);
}

/// A stream that begins with one ASCII literal does not begin with
/// another that differs at some position.
pub proof fn lemma_lit_mismatch(stream_lit: Seq<char>, probe: Seq<char>, k: int, rest: Seq<u8>)
    requires
        0 <= k < stream_lit.len(),
        k < probe.len(),
        is_ascii_chars(stream_lit),
        is_ascii_chars(probe),
        stream_lit[k] != probe[k],
    ensures
        !starts_with(encode_utf8(stream_lit) + rest, encode_utf8(probe)),
{
    vstd::utf8::is_ascii_chars_encode_utf8(stream_lit);
    vstd::utf8::is_ascii_chars_encode_utf8(probe);
    let a = encode_utf8(stream_lit);
    let p = encode_utf8(probe);
    assert((stream_lit[k] as u32) < 128 && (probe[k] as u32) < 128);
    assert(a[k] != p[k]);
    if starts_with(a + rest, p) {
        assert((a + rest).take(p.len() as int)[k] == p[k]);
        assert((a + rest)[k] == a[k]);
    }
}

/// A list of string values.
pub open spec fn enc_str_items(l: Seq<Seq<char>>) -> Seq<u8>
    decreases l.len(),
{
    if l.len() == 0 {
        Seq::<u8>::empty()
    } else if l.len() == 1 {
        enc_string(l[0])
    } else {
        enc_string(l[0]) + seq![44u8] + enc_str_items(l.drop_first())
    }
}

/// A list of string values between brackets.
pub open spec fn enc_str_list(l: Seq<Seq<char>>) -> Seq<u8> {
    seq![91u8] + enc_str_items(l) + seq![93u8]
}

/// Reads comma-separated string values up to and including the closing
/// bracket.
pub open spec fn parse_str_items(b: Seq<u8>) -> Option<(Seq<Seq<char>>, Seq<u8>)>
    decreases b.len(),
{
    match parse_string(b) {
        None => None,
        Some((s, rest)) => if rest.len() >= 1 && rest[0] == 44 {
            if rest.skip(1).len() < b.len() {
                match parse_str_items(rest.skip(1)) {
                    Some((l, r2)) => Some((seq![s] + l, r2)),
                    None => None,
                }
            } else {
                None
            }
        } else if rest.len() >= 1 && rest[0] == 93 {
            Some((seq![s], rest.skip(1)))
        } else {
            None
        },
    }
}

/// Reads a bracketed list of string values.
pub open spec fn parse_str_list(b: Seq<u8>) -> Option<(Seq<Seq<char>>, Seq<u8>)> {
    if b.len() >= 1 && b[0] == 91 {
        if b.len() >= 2 && b[1] == 93 {
            Some((Seq::<Seq<char>>::empty(), b.skip(2)))
        } else {
            parse_str_items(b.skip(1))
        }
    } else {
        None
    }
}

/// A quoted value is at least two bytes.
proof fn lemma_enc_string_len(s: Seq<char>)
    ensures
        enc_string(s).len() >= 2,
{
}

/// Written string items followed by the closing bracket read back as
/// the items.
#[verifier::rlimit(60)]
#[verifier::spinoff_prover]
proof fn lemma_parse_str_items(l: Seq<Seq<char>>, rest: Seq<u8>)
    requires
        l.len() >= 1,
    ensures
        parse_str_items(enc_str_items(l) + seq![93u8] + rest) == Some::<(Seq<Seq<char>>, Seq<u8>)>(
            (l, rest),
        ),
    decreases l.len(),
{
    let whole = enc_str_items(l) + seq![93u8] + rest;
    if l.len() == 1 {
        assert(whole =~= enc_string(l[0]) + (seq![93u8] + rest));
        lemma_parse_enc_string(l[0], seq![93u8] + rest);
        let after = (seq![93u8] + rest);
        assert(after[0] == 93);
        assert(after.skip(1) =~= rest);
        assert(seq![l[0]] =~= l);
    } else {
        let tail = l.drop_first();
        let tail_whole = enc_str_items(tail) + seq![93u8] + rest;
        assert(whole =~= enc_string(l[0]) + (seq![44u8] + tail_whole));
        lemma_parse_enc_string(l[0], seq![44u8] + tail_whole);
        let after = seq![44u8] + tail_whole;
        assert(after[0] == 44);
        assert(after.skip(1) =~= tail_whole);
        lemma_enc_string_len(l[0]);
        assert(tail_whole.len() < whole.len());
        lemma_parse_str_items(tail, rest);
        assert(seq![l[0]] + tail =~= l);
    }
}

/// A written list of strings reads back as the list it was written
/// from.
#[verifier::rlimit(60)]
#[verifier::spinoff_prover]
pub proof fn lemma_parse_str_list(l: Seq<Seq<char>>, rest: Seq<u8>)
    ensures
        parse_str_list(enc_str_list(l) + rest) == Some::<(Seq<Seq<char>>, Seq<u8>)>((l, rest)),
{
    let whole = enc_str_list(l) + rest;
    assert(whole[0] == 91);
    if l.len() == 0 {
        assert(enc_str_items(l) =~= Seq::<u8>::empty());
        assert(whole =~= seq![91u8, 93u8] + rest);
        assert(whole[1] == 93);
        assert(whole.skip(2) =~= rest);
        assert(l =~= Seq::<Seq<char>>::empty());
    } else {
        assert(whole.skip(1) =~= enc_str_items(l) + seq![93u8] + rest);
        lemma_parse_str_items(l, rest);
        lemma_enc_string_len(l[0]);
        assert(enc_str_items(l)[0] == enc_string(l[0])[0]);
        assert(whole[1] == 34);
    }
}

/// One comment record.
pub open spec fn enc_comment(c: crate::issue::CommentModel) -> Seq<u8> {
    encode_utf8("{\"author\":"@) + enc_string(c.author) + encode_utf8(",\"text\":"@) + enc_string(
        c.text,
    ) + encode_utf8(",\"created_at\":"@) + enc_string(c.created_at) + seq![125u8]
}

/// Reads one comment record.
pub open spec fn parse_comment(b: Seq<u8>) -> Option<(crate::issue::CommentModel, Seq<u8>)> {
    match parse_lit(b, encode_utf8("{\"author\":"@)) {
        None => None,
        Some(b1) => match parse_string(b1) {
            None => None,
            Some((author, b2)) => match parse_lit(b2, encode_utf8(",\"text\":"@)) {
                None => None,
                Some(b3) => match parse_string(b3) {
                    None => None,
                    Some((text, b4)) => match parse_lit(b4, encode_utf8(",\"created_at\":"@)) {
                        None => None,
                        Some(b5) => match parse_string(b5) {
                            None => None,
                            Some((created_at, b6)) => if b6.len() >= 1 && b6[0] == 125 {
                                Some(
                                    (
                                        crate::issue::CommentModel { author, text, created_at },
                                        b6.skip(1),
                                    ),
                                )
                            } else {
                                None
                            },
                        },
                    },
                },
            },
        },
    }
}

/// A written comment reads back as the comment it was written from.
#[verifier::rlimit(60)]
#[verifier::spinoff_prover]
proof fn lemma_parse_comment(c: crate::issue::CommentModel, rest: Seq<u8>)
    ensures
        parse_comment(enc_comment(c) + rest) == Some::<(crate::issue::CommentModel, Seq<u8>)>(
            (c, rest),
        ),
{
    let whole = enc_comment(c) + rest;
    let l1 = encode_utf8("{\"author\":"@);
    let l2 = encode_utf8(",\"text\":"@);
    let l3 = encode_utf8(",\"created_at\":"@);
    let r1 = enc_string(c.author) + l2 + enc_string(c.text) + l3 + enc_string(c.created_at) + seq![
        125u8,
    ] + rest;
    assert(whole =~= l1 + r1);
    lemma_parse_lit(l1, r1);
    let r2 = l2 + enc_string(c.text) + l3 + enc_string(c.created_at) + seq![125u8] + rest;
    assert(r1 =~= enc_string(c.author) + r2);
    lemma_parse_enc_string(c.author, r2);
    let r3 = enc_string(c.text) + l3 + enc_string(c.created_at) + seq![125u8] + rest;
    assert(r2 =~= l2 + r3);
    lemma_parse_lit(l2, r3);
    let r4 = l3 + enc_string(c.created_at) + seq![125u8] + rest;
    assert(r3 =~= enc_string(c.text) + r4);
    lemma_parse_enc_string(c.text, r4);
    let r5 = enc_string(c.created_at) + seq![125u8] + rest;
    assert(r4 =~= l3 + r5);
    lemma_parse_lit(l3, r5);
    let r6 = seq![125u8] + rest;
    assert(r5 =~= enc_string(c.created_at) + r6);
    lemma_parse_enc_string(c.created_at, r6);
    assert(r6[0] == 125);
    assert(r6.skip(1) =~= rest);
}

/// A list of comment records.
pub open spec fn enc_comment_items(l: Seq<crate::issue::CommentModel>) -> Seq<u8>
    decreases l.len(),
{
    if l.len() == 0 {
        Seq::<u8>::empty()
    } else if l.len() == 1 {
        enc_comment(l[0])
    } else {
        enc_comment(l[0]) + seq![44u8] + enc_comment_items(l.drop_first())
    }
}

/// A list of comment records between brackets.
pub open spec fn enc_comment_list(l: Seq<crate::issue::CommentModel>) -> Seq<u8> {
    seq![91u8] + enc_comment_items(l) + seq![93u8]
}

/// Reads comma-separated comment records up to and including the
/// closing bracket.
pub open spec fn parse_comment_items(b: Seq<u8>) -> Option<
    (Seq<crate::issue::CommentModel>, Seq<u8>),
>
    decreases b.len(),
{
    match parse_comment(b) {
        None => None,
        Some((c, rest)) => if rest.len() >= 1 && rest[0] == 44 {
            if rest.skip(1).len() < b.len() {
                match parse_comment_items(rest.skip(1)) {
                    Some((l, r2)) => Some((seq![c] + l, r2)),
                    None => None,
                }
            } else {
                None
            }
        } else if rest.len() >= 1 && rest[0] == 93 {
            Some((seq![c], rest.skip(1)))
        } else {
            None
        },
    }
}

/// Reads a bracketed list of comment records.
pub open spec fn parse_comment_list(b: Seq<u8>) -> Option<
    (Seq<crate::issue::CommentModel>, Seq<u8>),
> {
    if b.len() >= 1 && b[0] == 91 {
        if b.len() >= 2 && b[1] == 93 {
            Some((Seq::<crate::issue::CommentModel>::empty(), b.skip(2)))
        } else {
            parse_comment_items(b.skip(1))
        }
    } else {
        None
    }
}

/// A written comment record is at least one byte and starts with a
/// brace.
proof fn lemma_enc_comment_head(c: crate::issue::CommentModel)
    ensures
        enc_comment(c).len() >= 2,
        enc_comment(c)[0] == 123,
{
    reveal_strlit("{\"author\":");
    vstd::utf8::is_ascii_chars_encode_utf8("{\"author\":"@);
    assert(enc_comment(c)[0] == encode_utf8("{\"author\":"@)[0]);
}

/// Written comment items followed by the closing bracket read back as
/// the items.
#[verifier::rlimit(60)]
#[verifier::spinoff_prover]
proof fn lemma_parse_comment_items(l: Seq<crate::issue::CommentModel>, rest: Seq<u8>)
    requires
        l.len() >= 1,
    ensures
        parse_comment_items(enc_comment_items(l) + seq![93u8] + rest) == Some::<
            (Seq<crate::issue::CommentModel>, Seq<u8>),
        >((l, rest)),
    decreases l.len(),
{
    let whole = enc_comment_items(l) + seq![93u8] + rest;
    if l.len() == 1 {
        assert(whole =~= enc_comment(l[0]) + (seq![93u8] + rest));
        lemma_parse_comment(l[0], seq![93u8] + rest);
        let after = (seq![93u8] + rest);
        assert(after[0] == 93);
        assert(after.skip(1) =~= rest);
        assert(seq![l[0]] =~= l);
    } else {
        let tail = l.drop_first();
        let tail_whole = enc_comment_items(tail) + seq![93u8] + rest;
        assert(whole =~= enc_comment(l[0]) + (seq![44u8] + tail_whole));
        lemma_parse_comment(l[0], seq![44u8] + tail_whole);
        let after = seq![44u8] + tail_whole;
        assert(after[0] == 44);
        assert(after.skip(1) =~= tail_whole);
        lemma_enc_comment_head(l[0]);
        assert(tail_whole.len() < whole.len());
        lemma_parse_comment_items(tail, rest);
        assert(seq![l[0]] + tail =~= l);
    }
}

/// A written list of comments reads back as the list it was written
/// from.
#[verifier::rlimit(60)]
#[verifier::spinoff_prover]
pub proof fn lemma_parse_comment_list(l: Seq<crate::issue::CommentModel>, rest: Seq<u8>)
    ensures
        parse_comment_list(enc_comment_list(l) + rest) == Some::<
            (Seq<crate::issue::CommentModel>, Seq<u8>),
        >((l, rest)),
{
    let whole = enc_comment_list(l) + rest;
    assert(whole[0] == 91);
    if l.len() == 0 {
        assert(enc_comment_items(l) =~= Seq::<u8>::empty());
        assert(whole =~= seq![91u8, 93u8] + rest);
        assert(whole[1] == 93);
        assert(whole.skip(2) =~= rest);
        assert(l =~= Seq::<crate::issue::CommentModel>::empty());
    } else {
        assert(whole.skip(1) =~= enc_comment_items(l) + seq![93u8] + rest);
        lemma_parse_comment_items(l, rest);
        lemma_enc_comment_head(l[0]);
        assert(enc_comment_items(l)[0] == enc_comment(l[0])[0]);
        assert(whole[1] == 123);
    }
}

/// A status as a quoted keyword.
pub open spec fn enc_status(st: crate::issue::Status) -> Seq<u8> {
    match st {
        crate::issue::Status::Open => encode_utf8("\"open\""@),
        crate::issue::Status::InProgress => encode_utf8("\"in_progress\""@),
        crate::issue::Status::Closed => encode_utf8("\"closed\""@),
    }
}

/// Reads a status keyword.
pub open spec fn parse_status_val(b: Seq<u8>) -> Option<(crate::issue::Status, Seq<u8>)> {
    if starts_with(b, encode_utf8("\"open\""@)) {
        Some((crate::issue::Status::Open, b.skip(encode_utf8("\"open\""@).len() as int)))
    } else if starts_with(b, encode_utf8("\"in_progress\""@)) {
        Some(
            (
                crate::issue::Status::InProgress,
                b.skip(encode_utf8("\"in_progress\""@).len() as int),
            ),
        )
    } else if starts_with(b, encode_utf8("\"closed\""@)) {
        Some((crate::issue::Status::Closed, b.skip(encode_utf8("\"closed\""@).len() as int)))
    } else {
        None
    }
}

/// An issue type as a quoted keyword.
pub open spec fn enc_type(t: crate::issue::IssueType) -> Seq<u8> {
    match t {
        crate::issue::IssueType::Task => encode_utf8("\"task\""@),
        crate::issue::IssueType::Epic => encode_utf8("\"epic\""@),
        crate::issue::IssueType::Refactor => encode_utf8("\"refactor\""@),
        crate::issue::IssueType::Spike => encode_utf8("\"spike\""@),
    }
}

/// Reads an issue type keyword.
pub open spec fn parse_type_val(b: Seq<u8>) -> Option<(crate::issue::IssueType, Seq<u8>)> {
    if starts_with(b, encode_utf8("\"task\""@)) {
        Some((crate::issue::IssueType::Task, b.skip(encode_utf8("\"task\""@).len() as int)))
    } else if starts_with(b, encode_utf8("\"epic\""@)) {
        Some((crate::issue::IssueType::Epic, b.skip(encode_utf8("\"epic\""@).len() as int)))
    } else if starts_with(b, encode_utf8("\"refactor\""@)) {
        Some(
            (crate::issue::IssueType::Refactor, b.skip(encode_utf8("\"refactor\""@).len() as int)),
        )
    } else if starts_with(b, encode_utf8("\"spike\""@)) {
        Some((crate::issue::IssueType::Spike, b.skip(encode_utf8("\"spike\""@).len() as int)))
    } else {
        None
    }
}

/// A written status keyword reads back as the status.
#[verifier::rlimit(60)]
#[verifier::spinoff_prover]
proof fn lemma_parse_status(st: crate::issue::Status, rest: Seq<u8>)
    ensures
        parse_status_val(enc_status(st) + rest) == Some::<(crate::issue::Status, Seq<u8>)>(
            (st, rest),
        ),
{
    reveal_strlit("\"open\"");
    reveal_strlit("\"in_progress\"");
    reveal_strlit("\"closed\"");
    assert(is_ascii_chars("\"open\""@));
    assert(is_ascii_chars("\"in_progress\""@));
    assert(is_ascii_chars("\"closed\""@));
    match st {
        crate::issue::Status::Open => {
            lemma_parse_lit(encode_utf8("\"open\""@), rest);
        },
        crate::issue::Status::InProgress => {
            lemma_lit_mismatch("\"in_progress\""@, "\"open\""@, 1, rest);
            lemma_parse_lit(encode_utf8("\"in_progress\""@), rest);
        },
        crate::issue::Status::Closed => {
            lemma_lit_mismatch("\"closed\""@, "\"open\""@, 1, rest);
            lemma_lit_mismatch("\"closed\""@, "\"in_progress\""@, 1, rest);
            lemma_parse_lit(encode_utf8("\"closed\""@), rest);
        },
    }
}

/// A written issue type keyword reads back as the type.
#[verifier::rlimit(60)]
#[verifier::spinoff_prover]
proof fn lemma_parse_type(t: crate::issue::IssueType, rest: Seq<u8>)
    ensures
        parse_type_val(enc_type(t) + rest) == Some::<(crate::issue::IssueType, Seq<u8>)>(
            (t, rest),
        ),
{
    reveal_strlit("\"task\"");
    reveal_strlit("\"epic\"");
    reveal_strlit("\"refactor\"");
    reveal_strlit("\"spike\"");
    assert(is_ascii_chars("\"task\""@));
    assert(is_ascii_chars("\"epic\""@));
    assert(is_ascii_chars("\"refactor\""@));
    assert(is_ascii_chars("\"spike\""@));
    match t {
        crate::issue::IssueType::Task => {
            lemma_parse_lit(encode_utf8("\"task\""@), rest);
        },
        crate::issue::IssueType::Epic => {
            lemma_lit_mismatch("\"epic\""@, "\"task\""@, 1, rest);
            lemma_parse_lit(encode_utf8("\"epic\""@), rest);
        },
        crate::issue::IssueType::Refactor => {
            lemma_lit_mismatch("\"refactor\""@, "\"task\""@, 1, rest);
            lemma_lit_mismatch("\"refactor\""@, "\"epic\""@, 1, rest);
            lemma_parse_lit(encode_utf8("\"refactor\""@), rest);
        },
        crate::issue::IssueType::Spike => {
            lemma_lit_mismatch("\"spike\""@, "\"task\""@, 1, rest);
            lemma_lit_mismatch("\"spike\""@, "\"epic\""@, 1, rest);
            lemma_lit_mismatch("\"spike\""@, "\"refactor\""@, 1, rest);
            lemma_parse_lit(encode_utf8("\"spike\""@), rest);
        },
    }
}

/// The opening fields of a record: id, title, description.
pub open spec fn enc_issue_a(m: crate::issue::IssueModel) -> Seq<u8> {
    encode_utf8("{\"id\":"@) + enc_string(m.id) + encode_utf8(",\"title\":"@) + enc_string(m.title)
        + encode_utf8(",\"description\":"@) + enc_string(m.description)
}

/// The status and priority of a record.
pub open spec fn enc_issue_b1(m: crate::issue::IssueModel) -> Seq<u8> {
    encode_utf8(",\"status\":"@) + enc_status(m.status) + encode_utf8(",\"priority\":"@)
        + dec_bytes(m.priority as nat)
}

/// The type, session and labels of a record.
pub open spec fn enc_issue_b2(m: crate::issue::IssueModel) -> Seq<u8> {
    encode_utf8(",\"issue_type\":"@) + enc_type(m.issue_type) + (match m.session_id {
        Some(s) => encode_utf8(",\"session_id\":"@) + enc_string(s),
        None => Seq::<u8>::empty(),
    }) + encode_utf8(",\"labels\":"@) + enc_str_list(m.labels)
}

/// The comments of a record.
pub open spec fn enc_issue_c1(m: crate::issue::IssueModel) -> Seq<u8> {
    encode_utf8(",\"comments\":"@) + enc_comment_list(m.comments)
}

/// The two time stamps of a record.
pub open spec fn enc_issue_c2(m: crate::issue::IssueModel) -> Seq<u8> {
    encode_utf8(",\"created_at\":"@) + enc_string(m.created_at) + encode_utf8(
        ",\"updated_at\":"@,
    ) + enc_string(m.updated_at)
}

/// The closing fields of a record: the close time when there is one,
/// the two relation lists, and the closing brace.
pub open spec fn enc_issue_d(m: crate::issue::IssueModel) -> Seq<u8> {
    (match m.closed_at {
        Some(t) => encode_utf8(",\"closed_at\":"@) + enc_string(t),
        None => Seq::<u8>::empty(),
    }) + encode_utf8(",\"blocks\":"@) + enc_str_list(m.blocks) + encode_utf8(",\"blocked_by\":"@)
        + enc_str_list(m.blocked_by) + seq![125u8]
}

/// One whole issue record.
#[verifier::opaque]
pub open spec fn enc_issue(m: crate::issue::IssueModel) -> Seq<u8> {
    enc_issue_a(m) + enc_issue_b1(m) + enc_issue_b2(m) + enc_issue_c1(m) + enc_issue_c2(m)
        + enc_issue_d(m)
}

/// Reads the opening fields; a missing description reads as empty.
pub open spec fn parse_issue_a(b: Seq<u8>) -> Option<((Seq<char>, Seq<char>, Seq<char>), Seq<u8>)> {
    match parse_lit(b, encode_utf8("{\"id\":"@)) {
        None => None,
        Some(b1) => match parse_string(b1) {
            None => None,
            Some((id, b2)) => match parse_lit(b2, encode_utf8(",\"title\":"@)) {
                None => None,
                Some(b3) => match parse_string(b3) {
                    None => None,
                    Some((title, b4)) => match parse_lit(b4, encode_utf8(",\"description\":"@)) {
                        Some(b5) => match parse_string(b5) {
                            None => None,
                            Some((d, b6)) => Some(((id, title, d), b6)),
                        },
                        None => Some(((id, title, Seq::<char>::empty()), b4)),
                    },
                },
            },
        },
    }
}

/// Reads the status and priority; a missing priority reads as 2.
pub open spec fn parse_issue_b1(b: Seq<u8>) -> Option<((crate::issue::Status, u8), Seq<u8>)> {
    match parse_lit(b, encode_utf8(",\"status\":"@)) {
        None => None,
        Some(b1) => match parse_status_val(b1) {
            None => None,
            Some((st, b2)) => {
                let prio_step = match parse_lit(b2, encode_utf8(",\"priority\":"@)) {
                    Some(b3) => parse_u8(b3),
                    None => Some((2u8, b2)),
                };
                match prio_step {
                    None => None,
                    Some((prio, b4)) => Some(((st, prio), b4)),
                }
            },
        },
    }
}

/// Reads the type, session and labels; a missing session reads as
/// nobody, missing labels as none.
pub open spec fn parse_issue_b2(b: Seq<u8>) -> Option<
    ((crate::issue::IssueType, Option<Seq<char>>, Seq<Seq<char>>), Seq<u8>),
> {
    match parse_lit(b, encode_utf8(",\"issue_type\":"@)) {
        None => None,
        Some(b1) => match parse_type_val(b1) {
            None => None,
            Some((ty, b2)) => {
                let sess_step = match parse_lit(b2, encode_utf8(",\"session_id\":"@)) {
                    Some(b3) => match parse_string(b3) {
                        Some((s, b4)) => Some((Some(s), b4)),
                        None => None,
                    },
                    None => Some((None::<Seq<char>>, b2)),
                };
                match sess_step {
                    None => None,
                    Some((sess, b5)) => {
                        let lab_step = match parse_lit(b5, encode_utf8(",\"labels\":"@)) {
                            Some(b6) => parse_str_list(b6),
                            None => Some((Seq::<Seq<char>>::empty(), b5)),
                        };
                        match lab_step {
                            None => None,
                            Some((labels, b7)) => Some(((ty, sess, labels), b7)),
                        }
                    },
                }
            },
        },
    }
}

/// Reads the comments; missing comments read as none.
pub open spec fn parse_issue_c1(b: Seq<u8>) -> Option<
    (Seq<crate::issue::CommentModel>, Seq<u8>),
> {
    match parse_lit(b, encode_utf8(",\"comments\":"@)) {
        Some(b1) => parse_comment_list(b1),
        None => Some((Seq::<crate::issue::CommentModel>::empty(), b)),
    }
}

/// Reads the two time stamps.
pub open spec fn parse_issue_c2(b: Seq<u8>) -> Option<((Seq<char>, Seq<char>), Seq<u8>)> {
    match parse_lit(b, encode_utf8(",\"created_at\":"@)) {
        None => None,
        Some(b1) => match parse_string(b1) {
            None => None,
            Some((created, b2)) => match parse_lit(b2, encode_utf8(",\"updated_at\":"@)) {
                None => None,
                Some(b3) => match parse_string(b3) {
                    None => None,
                    Some((updated, b4)) => Some(((created, updated), b4)),
                },
            },
        },
    }
}

/// Reads the closing fields up to and including the closing brace; a
/// missing close time reads as none, missing relation lists as empty.
pub open spec fn parse_issue_d(b: Seq<u8>) -> Option<
    ((Option<Seq<char>>, Seq<Seq<char>>, Seq<Seq<char>>), Seq<u8>),
> {
    let closed_step = match parse_lit(b, encode_utf8(",\"closed_at\":"@)) {
        Some(b1) => match parse_string(b1) {
            Some((t, b2)) => Some((Some(t), b2)),
            None => None,
        },
        None => Some((None::<Seq<char>>, b)),
    };
    match closed_step {
        None => None,
        Some((closed, b3)) => {
            let blocks_step = match parse_lit(b3, encode_utf8(",\"blocks\":"@)) {
                Some(b4) => parse_str_list(b4),
                None => Some((Seq::<Seq<char>>::empty(), b3)),
            };
            match blocks_step {
                None => None,
                Some((blocks, b5)) => {
                    let bby_step = match parse_lit(b5, encode_utf8(",\"blocked_by\":"@)) {
                        Some(b6) => parse_str_list(b6),
                        None => Some((Seq::<Seq<char>>::empty(), b5)),
                    };
                    match bby_step {
                        None => None,
                        Some((blocked_by, b7)) => if b7.len() >= 1 && b7[0] == 125 {
                            Some(((closed, blocks, blocked_by), b7.skip(1)))
                        } else {
                            None
                        },
                    }
                },
            }
        },
    }
}

/// Reads one whole issue record; a priority out of range makes the
/// record malformed.
#[verifier::opaque]
pub open spec fn parse_issue(b: Seq<u8>) -> Option<(crate::issue::IssueModel, Seq<u8>)> {
    match parse_issue_a(b) {
        None => None,
        Some(((id, title, description), b1)) => match parse_issue_b1(b1) {
            None => None,
            Some(((status, priority), b2)) => match parse_issue_b2(b2) {
                None => None,
                Some(((issue_type, session_id, labels), b3)) => match parse_issue_c1(b3) {
                    None => None,
                    Some((comments, b4)) => match parse_issue_c2(b4) {
                        None => None,
                        Some(((created_at, updated_at), b5)) => match parse_issue_d(b5) {
                            None => None,
                            Some(((closed_at, blocks, blocked_by), b6)) => if priority <= 4 {
                                Some(
                                    (
                                        crate::issue::IssueModel {
                                            id,
                                            title,
                                            description,
                                            status,
                                            priority,
                                            issue_type,
                                            session_id,
                                            labels,
                                            comments,
                                            created_at,
                                            updated_at,
                                            closed_at,
                                            blocks,
                                            blocked_by,
                                        },
                                        b6,
                                    ),
                                )
                            } else {
                                None
                            },
                        },
                    },
                },
            },
        },
    }
}

/// The written opening fields read back exactly.
#[verifier::rlimit(100)]
#[verifier::spinoff_prover]
proof fn lemma_parse_issue_a(m: crate::issue::IssueModel, rest: Seq<u8>)
    ensures
        parse_issue_a(enc_issue_a(m) + rest) == Some::<((Seq<char>, Seq<char>, Seq<char>), Seq<u8>)>(
            ((m.id, m.title, m.description), rest),
        ),
{
    let whole = enc_issue_a(m) + rest;
    let l_id = encode_utf8("{\"id\":"@);
    let l_title = encode_utf8(",\"title\":"@);
    let l_desc = encode_utf8(",\"description\":"@);
    let r1 = enc_string(m.id) + l_title + enc_string(m.title) + l_desc + enc_string(m.description)
        + rest;
    assert(whole =~= l_id + r1);
    lemma_parse_lit(l_id, r1);
    let r2 = l_title + enc_string(m.title) + l_desc + enc_string(m.description) + rest;
    assert(r1 =~= enc_string(m.id) + r2);
    lemma_parse_enc_string(m.id, r2);
    let r3 = enc_string(m.title) + l_desc + enc_string(m.description) + rest;
    assert(r2 =~= l_title + r3);
    lemma_parse_lit(l_title, r3);
    let r4 = l_desc + enc_string(m.description) + rest;
    assert(r3 =~= enc_string(m.title) + r4);
    lemma_parse_enc_string(m.title, r4);
    let r5 = enc_string(m.description) + rest;
    assert(r4 =~= l_desc + r5);
    lemma_parse_lit(l_desc, r5);
    lemma_parse_enc_string(m.description, rest);
}

/// The written status and priority read back exactly.
#[verifier::rlimit(100)]
#[verifier::spinoff_prover]
proof fn lemma_parse_issue_b1(m: crate::issue::IssueModel, rest: Seq<u8>)
    requires
        rest.len() == 0 || !is_digit(rest[0]),
    ensures
        parse_issue_b1(enc_issue_b1(m) + rest) == Some::<((crate::issue::Status, u8), Seq<u8>)>(
            ((m.status, m.priority), rest),
        ),
{
    let l_status = encode_utf8(",\"status\":"@);
    let l_prio = encode_utf8(",\"priority\":"@);
    let whole = enc_issue_b1(m) + rest;
    let r1 = enc_status(m.status) + l_prio + dec_bytes(m.priority as nat) + rest;
    assert(whole =~= l_status + r1);
    lemma_parse_lit(l_status, r1);
    let r2 = l_prio + dec_bytes(m.priority as nat) + rest;
    assert(r1 =~= enc_status(m.status) + r2);
    lemma_parse_status(m.status, r2);
    let r3 = dec_bytes(m.priority as nat) + rest;
    assert(r2 =~= l_prio + r3);
    lemma_parse_lit(l_prio, r3);
    lemma_parse_dec(m.priority, rest);
}

/// The written type, session and labels read back exactly.
#[verifier::rlimit(100)]
#[verifier::spinoff_prover]
proof fn lemma_parse_issue_b2(m: crate::issue::IssueModel, rest: Seq<u8>)
    ensures
        parse_issue_b2(enc_issue_b2(m) + rest) == Some::<
            ((crate::issue::IssueType, Option<Seq<char>>, Seq<Seq<char>>), Seq<u8>),
        >(((m.issue_type, m.session_id, m.labels), rest)),
{
    let l_type = encode_utf8(",\"issue_type\":"@);
    let l_sess = encode_utf8(",\"session_id\":"@);
    let l_labels = encode_utf8(",\"labels\":"@);
    let whole = enc_issue_b2(m) + rest;
    let sess_part = (match m.session_id {
        Some(s) => l_sess + enc_string(s),
        None => Seq::<u8>::empty(),
    });
    let r1 = enc_type(m.issue_type) + sess_part + l_labels + enc_str_list(m.labels) + rest;
    assert(whole =~= l_type + r1);
    lemma_parse_lit(l_type, r1);
    let r2 = sess_part + l_labels + enc_str_list(m.labels) + rest;
    assert(r1 =~= enc_type(m.issue_type) + r2);
    lemma_parse_type(m.issue_type, r2);
    let r_lab = l_labels + enc_str_list(m.labels) + rest;
    match m.session_id {
        Some(s) => {
            let r3 = enc_string(s) + r_lab;
            assert(r2 =~= l_sess + r3);
            lemma_parse_lit(l_sess, r3);
            lemma_parse_enc_string(s, r_lab);
        },
        None => {
            assert(r2 =~= r_lab);
            reveal_strlit(",\"labels\":");
            reveal_strlit(",\"session_id\":");
            assert(is_ascii_chars(",\"labels\":"@));
            assert(is_ascii_chars(",\"session_id\":"@));
            assert(",\"labels\":"@[2] != ",\"session_id\":"@[2]);
            lemma_lit_mismatch(
                ",\"labels\":"@,
                ",\"session_id\":"@,
                2,
                enc_str_list(m.labels) + rest,
            );
            assert(r2 =~= l_labels + (enc_str_list(m.labels) + rest));
            assert(parse_lit(r2, l_sess) is None);
        },
    }
    let r4 = enc_str_list(m.labels) + rest;
    assert(r_lab =~= l_labels + r4);
    lemma_parse_lit(l_labels, r4);
    lemma_parse_str_list(m.labels, rest);
}

/// The written comments read back exactly.
#[verifier::rlimit(100)]
#[verifier::spinoff_prover]
proof fn lemma_parse_issue_c1(m: crate::issue::IssueModel, rest: Seq<u8>)
    ensures
        parse_issue_c1(enc_issue_c1(m) + rest) == Some::<
            (Seq<crate::issue::CommentModel>, Seq<u8>),
        >((m.comments, rest)),
{
    let l_com = encode_utf8(",\"comments\":"@);
    let whole = enc_issue_c1(m) + rest;
    let r1 = enc_comment_list(m.comments) + rest;
    assert(whole =~= l_com + r1);
    lemma_parse_lit(l_com, r1);
    lemma_parse_comment_list(m.comments, rest);
}

/// The written time stamps read back exactly.
#[verifier::rlimit(100)]
#[verifier::spinoff_prover]
proof fn lemma_parse_issue_c2(m: crate::issue::IssueModel, rest: Seq<u8>)
    ensures
        parse_issue_c2(enc_issue_c2(m) + rest) == Some::<((Seq<char>, Seq<char>), Seq<u8>)>(
            ((m.created_at, m.updated_at), rest),
        ),
{
    let l_created = encode_utf8(",\"created_at\":"@);
    let l_updated = encode_utf8(",\"updated_at\":"@);
    let whole = enc_issue_c2(m) + rest;
    let r1 = enc_string(m.created_at) + l_updated + enc_string(m.updated_at) + rest;
    assert(whole =~= l_created + r1);
    lemma_parse_lit(l_created, r1);
    let r2 = l_updated + enc_string(m.updated_at) + rest;
    assert(r1 =~= enc_string(m.created_at) + r2);
    lemma_parse_enc_string(m.created_at, r2);
    let r3 = enc_string(m.updated_at) + rest;
    assert(r2 =~= l_updated + r3);
    lemma_parse_lit(l_updated, r3);
    lemma_parse_enc_string(m.updated_at, rest);
}

/// The written closing fields read back exactly.
#[verifier::rlimit(100)]
#[verifier::spinoff_prover]
proof fn lemma_parse_issue_d(m: crate::issue::IssueModel, rest: Seq<u8>)
    ensures
        parse_issue_d(enc_issue_d(m) + rest) == Some::<
            ((Option<Seq<char>>, Seq<Seq<char>>, Seq<Seq<char>>), Seq<u8>),
        >(((m.closed_at, m.blocks, m.blocked_by), rest)),
{
    let whole = enc_issue_d(m) + rest;
    let l_closed = encode_utf8(",\"closed_at\":"@);
    let l_blocks = encode_utf8(",\"blocks\":"@);
    let l_bby = encode_utf8(",\"blocked_by\":"@);
    let closed_part = (match m.closed_at {
        Some(t) => l_closed + enc_string(t),
        None => Seq::<u8>::empty(),
    });
    let r_blocks = l_blocks + enc_str_list(m.blocks) + l_bby + enc_str_list(m.blocked_by) + seq![
        125u8,
    ] + rest;
    assert(whole =~= closed_part + r_blocks);
    match m.closed_at {
        Some(t) => {
            let r1 = enc_string(t) + r_blocks;
            assert(whole =~= l_closed + r1);
            lemma_parse_lit(l_closed, r1);
            lemma_parse_enc_string(t, r_blocks);
        },
        None => {
            assert(whole =~= r_blocks);
            reveal_strlit(",\"blocks\":");
            reveal_strlit(",\"closed_at\":");
            assert(is_ascii_chars(",\"blocks\":"@));
            assert(is_ascii_chars(",\"closed_at\":"@));
            assert(",\"blocks\":"@[2] != ",\"closed_at\":"@[2]);
            lemma_lit_mismatch(
                ",\"blocks\":"@,
                ",\"closed_at\":"@,
                2,
                enc_str_list(m.blocks) + l_bby + enc_str_list(m.blocked_by) + seq![125u8] + rest,
            );
            assert(whole =~= l_blocks + (enc_str_list(m.blocks) + l_bby + enc_str_list(
                m.blocked_by,
            ) + seq![125u8] + rest));
            assert(parse_lit(whole, l_closed) is None);
        },
    }
    let r2 = enc_str_list(m.blocks) + l_bby + enc_str_list(m.blocked_by) + seq![125u8] + rest;
    assert(r_blocks =~= l_blocks + r2);
    lemma_parse_lit(l_blocks, r2);
    let r3 = l_bby + enc_str_list(m.blocked_by) + seq![125u8] + rest;
    assert(r2 =~= enc_str_list(m.blocks) + r3);
    lemma_parse_str_list(m.blocks, r3);
    let r4 = enc_str_list(m.blocked_by) + seq![125u8] + rest;
    assert(r3 =~= l_bby + r4);
    lemma_parse_lit(l_bby, r4);
    let r5 = seq![125u8] + rest;
    assert(r4 =~= enc_str_list(m.blocked_by) + r5);
    lemma_parse_str_list(m.blocked_by, r5);
    assert(r5[0] == 125);
    assert(r5.skip(1) =~= rest);
}

/// Stepping the record reader through the six stages assembles the
/// record.
proof fn lemma_assemble_issue(
    m: crate::issue::IssueModel,
    b: Seq<u8>,
    b1: Seq<u8>,
    b2: Seq<u8>,
    b3: Seq<u8>,
    b4: Seq<u8>,
    b5: Seq<u8>,
    rest: Seq<u8>,
)
    requires
        m.priority <= 4,
        parse_issue_a(b) == Some::<((Seq<char>, Seq<char>, Seq<char>), Seq<u8>)>(
            ((m.id, m.title, m.description), b1),
        ),
        parse_issue_b1(b1) == Some::<((crate::issue::Status, u8), Seq<u8>)>(
            ((m.status, m.priority), b2),
        ),
        parse_issue_b2(b2) == Some::<
            ((crate::issue::IssueType, Option<Seq<char>>, Seq<Seq<char>>), Seq<u8>),
        >(((m.issue_type, m.session_id, m.labels), b3)),
        parse_issue_c1(b3) == Some::<(Seq<crate::issue::CommentModel>, Seq<u8>)>(
            (m.comments, b4),
        ),
        parse_issue_c2(b4) == Some::<((Seq<char>, Seq<char>), Seq<u8>)>(
            ((m.created_at, m.updated_at), b5),
        ),
        parse_issue_d(b5) == Some::<((Option<Seq<char>>, Seq<Seq<char>>, Seq<Seq<char>>), Seq<u8>)>(
            ((m.closed_at, m.blocks, m.blocked_by), rest),
        ),
    ensures
        parse_issue(b) == Some::<(crate::issue::IssueModel, Seq<u8>)>((m, rest)),
{
    reveal(parse_issue);
}

/// The type keyword literal begins with a comma.
#[verifier::spinoff_prover]
proof fn lemma_type_lit_head()
    ensures
        encode_utf8(",\"issue_type\":"@).len() >= 1,
        encode_utf8(",\"issue_type\":"@)[0] == 44,
{
    reveal_strlit(",\"issue_type\":");
    assert(is_ascii_chars(",\"issue_type\":"@));
    vstd::utf8::is_ascii_chars_encode_utf8(",\"issue_type\":"@);
}

/// A written issue record reads back as the record it was written
/// from, field for field.
#[verifier::rlimit(100)]
#[verifier::spinoff_prover]
pub proof fn lemma_parse_enc_issue(m: crate::issue::IssueModel, rest: Seq<u8>)
    requires
        m.priority <= 4,
    ensures
        parse_issue(enc_issue(m) + rest) == Some::<(crate::issue::IssueModel, Seq<u8>)>((m, rest)),
{
    reveal(enc_issue);
    let whole = enc_issue(m) + rest;
    let rd = enc_issue_d(m) + rest;
    let rc2 = enc_issue_c2(m) + rd;
    let rc1 = enc_issue_c1(m) + rc2;
    let rb2 = enc_issue_b2(m) + rc1;
    let rb1 = enc_issue_b1(m) + rb2;
    assert(whole == enc_issue_a(m) + rb1) by {
        vstd::seq_lib::lemma_concat_associative(
            enc_issue_a(m) + enc_issue_b1(m) + enc_issue_b2(m) + enc_issue_c1(m)
                + enc_issue_c2(m),
            enc_issue_d(m),
            rest,
        );
        vstd::seq_lib::lemma_concat_associative(
            enc_issue_a(m) + enc_issue_b1(m) + enc_issue_b2(m) + enc_issue_c1(m),
            enc_issue_c2(m),
            enc_issue_d(m) + rest,
        );
        vstd::seq_lib::lemma_concat_associative(
            enc_issue_a(m) + enc_issue_b1(m) + enc_issue_b2(m),
            enc_issue_c1(m),
            enc_issue_c2(m) + rd,
        );
        vstd::seq_lib::lemma_concat_associative(
            enc_issue_a(m) + enc_issue_b1(m),
            enc_issue_b2(m),
            enc_issue_c1(m) + rc2,
        );
        vstd::seq_lib::lemma_concat_associative(
            enc_issue_a(m),
            enc_issue_b1(m),
            enc_issue_b2(m) + rc1,
        );
    }
    lemma_parse_issue_a(m, rb1);
    lemma_type_lit_head();
    assert(rb2[0] == encode_utf8(",\"issue_type\":"@)[0]);
    assert(rb2[0] == 44);
    assert(!is_digit(rb2[0]));
    lemma_parse_issue_b1(m, rb2);
    lemma_parse_issue_b2(m, rc1);
    lemma_parse_issue_c1(m, rc2);
    lemma_parse_issue_c2(m, rd);
    lemma_parse_issue_d(m, rest);
    lemma_assemble_issue(m, whole, rb1, rb2, rc1, rc2, rd, rest);
}

/// The whole issue file: every record on its own line.
pub open spec fn enc_lines(ms: Seq<crate::issue::IssueModel>) -> Seq<u8>
    decreases ms.len(),
{
    if ms.len() == 0 {
        Seq::<u8>::empty()
    } else {
        enc_issue(ms[0]) + seq![10u8] + enc_lines(ms.drop_first())
    }
}

/// Reads the whole issue file: one record per line, blank space between
/// records skipped, any malformed record fatal.
pub open spec fn parse_lines(b: Seq<u8>) -> Option<Seq<crate::issue::IssueModel>>
    decreases b.len(),
{
    if b.len() == 0 {
        Some(Seq::<crate::issue::IssueModel>::empty())
    } else if b[0] == 10 || b[0] == 32 || b[0] == 9 || b[0] == 13 {
        parse_lines(b.drop_first())
    } else {
        match parse_issue(b) {
            None => None,
            Some((m, rest)) => if rest.len() == 0 {
                Some(seq![m])
            } else if rest[0] == 10 && rest.len() < b.len() {
                match parse_lines(rest.skip(1)) {
                    Some(ms) => Some(seq![m] + ms),
                    None => None,
                }
            } else {
                None
            },
        }
    }
}

/// The record opener begins with a brace.
#[verifier::spinoff_prover]
proof fn lemma_id_lit_head()
    ensures
        encode_utf8("{\"id\":"@).len() >= 1,
        encode_utf8("{\"id\":"@)[0] == 123,
{
    reveal_strlit("{\"id\":");
    assert(is_ascii_chars("{\"id\":"@));
    vstd::utf8::is_ascii_chars_encode_utf8("{\"id\":"@);
}

/// A record is never empty and opens with a brace.
#[verifier::spinoff_prover]
proof fn lemma_enc_issue_head(m: crate::issue::IssueModel)
    ensures
        enc_issue(m).len() >= 2,
        enc_issue(m)[0] == 123,
{
    reveal(enc_issue);
    lemma_id_lit_head();
    lemma_enc_string_len(m.id);
    assert(enc_issue(m)[0] == encode_utf8("{\"id\":"@)[0]);
}

/// A written issue file reads back as the records it was written from:
/// saving and loading reproduces every field of every issue exactly.
#[verifier::rlimit(100)]
#[verifier::spinoff_prover]
pub proof fn lemma_parse_enc_lines(ms: Seq<crate::issue::IssueModel>)
    requires
        forall|i: int| 0 <= i < ms.len() ==> (#[trigger] ms[i]).priority <= 4,
    ensures
        parse_lines(enc_lines(ms)) == Some(ms),
    decreases ms.len(),
{
    if ms.len() == 0 {
        assert(ms =~= Seq::<crate::issue::IssueModel>::empty());
    } else {
        let m0 = ms[0];
        let tail = ms.drop_first();
        let whole = enc_lines(ms);
        let after = seq![10u8] + enc_lines(tail);
        assert(whole =~= enc_issue(m0) + after);
        lemma_enc_issue_head(m0);
        assert(whole[0] == 123);
        lemma_parse_enc_issue(m0, after);
        assert(after[0] == 10);
        assert(after.len() < whole.len());
        assert(after.skip(1) =~= enc_lines(tail));
        lemma_parse_enc_lines(tail);
        assert(seq![m0] + tail =~= ms);
    }
}

/// The settings record.
pub open spec fn enc_config(version: u8, prefix: Seq<char>) -> Seq<u8> {
    encode_utf8("{\"version\":"@) + dec_bytes(version as nat) + encode_utf8(",\"prefix\":"@)
        + enc_string(prefix) + seq![125u8]
}

/// Reads the settings record.
pub open spec fn parse_config(b: Seq<u8>) -> Option<(u8, Seq<char>)> {
    match parse_lit(b, encode_utf8("{\"version\":"@)) {
        None => None,
        Some(b1) => match parse_u8(b1) {
            None => None,
            Some((v, b2)) => match parse_lit(b2, encode_utf8(",\"prefix\":"@)) {
                None => None,
                Some(b3) => match parse_string(b3) {
                    None => None,
                    Some((p, b4)) => if b4.len() >= 1 && b4[0] == 125 {
                        Some((v, p))
                    } else {
                        None
                    },
                },
            },
        },
    }
}

/// The prefix literal begins with a comma.
#[verifier::spinoff_prover]
proof fn lemma_prefix_lit_head()
    ensures
        encode_utf8(",\"prefix\":"@).len() >= 1,
        encode_utf8(",\"prefix\":"@)[0] == 44,
{
    reveal_strlit(",\"prefix\":");
    assert(is_ascii_chars(",\"prefix\":"@));
    vstd::utf8::is_ascii_chars_encode_utf8(",\"prefix\":"@);
}

/// A written settings record reads back as the settings it was written
/// from.
#[verifier::rlimit(100)]
#[verifier::spinoff_prover]
pub proof fn lemma_parse_enc_config(version: u8, prefix: Seq<char>)
    ensures
        parse_config(enc_config(version, prefix)) == Some((version, prefix)),
{
    let l_ver = encode_utf8("{\"version\":"@);
    let l_pre = encode_utf8(",\"prefix\":"@);
    let whole = enc_config(version, prefix);
    let r1 = dec_bytes(version as nat) + l_pre + enc_string(prefix) + seq![125u8];
    assert(whole =~= l_ver + r1);
    lemma_parse_lit(l_ver, r1);
    let r2 = l_pre + enc_string(prefix) + seq![125u8];
    assert(r1 =~= dec_bytes(version as nat) + r2);
    lemma_prefix_lit_head();
    assert(r2[0] == 44);
    assert(!is_digit(r2[0]));
    lemma_parse_dec(version, r2);
    let r3 = enc_string(prefix) + seq![125u8];
    assert(r2 =~= l_pre + r3);
    lemma_parse_lit(l_pre, r3);
    lemma_parse_enc_string(prefix, seq![125u8]);
}

/// Escaping splits over concatenation.
proof fn lemma_esc_append(s1: Seq<u8>, s2: Seq<u8>)
    ensures
        esc(s1 + s2) == esc(s1) + esc(s2),
    decreases s1.len(),
{
    if s1.len() == 0 {
        assert(s1 + s2 =~= s2);
        assert(esc(s1) =~= Seq::<u8>::empty());
        assert(esc(s1) + esc(s2) =~= esc(s2));
    } else {
        assert((s1 + s2).drop_first() =~= s1.drop_first() + s2);
        assert((s1 + s2)[0] == s1[0]);
        lemma_esc_append(s1.drop_first(), s2);
        assert(esc_byte(s1[0]) + (esc(s1.drop_first()) + esc(s2)) =~= (esc_byte(s1[0]) + esc(
            s1.drop_first(),
        )) + esc(s2));
    }
}

/// Appends the bytes of a literal.
fn put_lit(out: &mut Vec<u8>, s: &str)
    ensures
        final(out)@ == old(out)@ + s.spec_bytes(),
{
    let bs = s.as_bytes();
    let n = bs.len();
    let mut i: usize = 0;
    while i < n
        invariant
            n == bs@.len(),
            i <= n,
            out@ == old(out)@ + bs@.take(i as int),
        decreases n - i,
    {
        out.push(bs[i]);
        proof {
            assert(old(out)@ + bs@.take(i as int + 1) =~= (old(out)@ + bs@.take(i as int)).push(
                bs@[i as int],
            ));
        }
        i = i + 1;
    }
    proof {
        assert(bs@.take(n as int) =~= bs@);
    }
}

/// Appends string content, escaped.
fn put_escaped(out: &mut Vec<u8>, s: &str)
    ensures
        final(out)@ == old(out)@ + esc(s.spec_bytes()),
{
    let bs = s.as_bytes();
    let n = bs.len();
    let mut i: usize = 0;
    proof {
        assert(esc(bs@.take(0)) =~= Seq::<u8>::empty());
        assert(out@ =~= old(out)@ + esc(bs@.take(0)));
    }
    while i < n
        invariant
            bs@ == s.spec_bytes(),
            n == bs@.len(),
            i <= n,
            out@ == old(out)@ + esc(bs@.take(i as int)),
        decreases n - i,
    {
        let ghost before = out@;
        let b = bs[i];
        if b == 34 {
            out.push(92);
            out.push(34);
            proof {
                assert(out@ =~= before + esc_byte(b));
            }
        } else if b == 92 {
            out.push(92);
            out.push(92);
            proof {
                assert(out@ =~= before + esc_byte(b));
            }
        } else if b < 32 {
            let hi = b / 16;
            let lo = b % 16;
            out.push(92);
            out.push(117);
            out.push(48);
            out.push(48);
            out.push(if hi < 10 {
                48 + hi
            } else {
                87 + hi
            });
            out.push(if lo < 10 {
                48 + lo
            } else {
                87 + lo
            });
            proof {
                assert(out@ =~= before + esc_byte(b));
            }
        } else {
            out.push(b);
            proof {
                assert(out@ =~= before + esc_byte(b));
            }
        }
        proof {
            assert(bs@.take(i as int + 1) =~= bs@.take(i as int) + seq![bs@[i as int]]);
            lemma_esc_append(bs@.take(i as int), seq![bs@[i as int]]);
            assert(seq![bs@[i as int]].drop_first() =~= Seq::<u8>::empty());
            assert(esc(Seq::<u8>::empty()) =~= Seq::<u8>::empty());
            assert(esc(seq![bs@[i as int]]) =~= esc_byte(bs@[i as int]) + esc(
                Seq::<u8>::empty(),
            ));
            assert(esc(seq![bs@[i as int]]) =~= esc_byte(bs@[i as int]));
            assert(out@ =~= old(out)@ + esc(bs@.take(i as int + 1)));
        }
        i = i + 1;
    }
    proof {
        assert(bs@.take(n as int) =~= bs@);
    }
}

/// Appends a quoted, escaped string value.
fn put_string(out: &mut Vec<u8>, s: &str)
    ensures
        final(out)@ == old(out)@ + enc_string(s@),
{
    out.push(34);
    put_escaped(out, s);
    out.push(34);
    proof {
        assert(out@ =~= old(out)@ + enc_string(s@));
    }
}

/// Appends a number in decimal.
fn put_u8(out: &mut Vec<u8>, n: u8)
    ensures
        final(out)@ == old(out)@ + dec_bytes(n as nat),
{
    if n < 10 {
        out.push(48 + n);
        proof {
            assert(out@ =~= old(out)@ + dec_bytes(n as nat));
        }
    } else if n < 100 {
        out.push(48 + n / 10);
        out.push(48 + n % 10);
        proof {
            assert(dec_bytes((n / 10) as nat) =~= seq![(48 + n / 10) as u8]);
            assert(dec_bytes(n as nat) =~= seq![(48 + n / 10) as u8, (48 + n % 10) as u8]);
            assert(out@ =~= old(out)@ + dec_bytes(n as nat));
        }
    } else {
        out.push(48 + n / 100);
        out.push(48 + (n / 10) % 10);
        out.push(48 + n % 10);
        proof {
            assert(dec_bytes((n / 100) as nat) =~= seq![(48 + n / 100) as u8]);
            assert(dec_bytes((n / 10) as nat) =~= seq![
                (48 + n / 100) as u8,
                (48 + (n / 10) % 10) as u8,
            ]);
            assert(dec_bytes(n as nat) =~= seq![
                (48 + n / 100) as u8,
                (48 + (n / 10) % 10) as u8,
                (48 + n % 10) as u8,
            ]);
            assert(out@ =~= old(out)@ + dec_bytes(n as nat));
        }
    }
}

/// Items grow at the back of a written list.
proof fn lemma_enc_items_snoc(l: Seq<Seq<char>>, x: Seq<char>)
    ensures
        enc_str_items(l.push(x)) == if l.len() == 0 {
            enc_string(x)
        } else {
            enc_str_items(l) + seq![44u8] + enc_str_items(seq![x])
        },
    decreases l.len(),
{
    let lp = l.push(x);
    if l.len() == 0 {
        assert(lp.len() == 1);
        assert(lp[0] == x);
    } else {
        assert(lp.drop_first() =~= l.drop_first().push(x));
        lemma_enc_items_snoc(l.drop_first(), x);
        if l.len() == 1 {
            assert(lp[0] == l[0]);
            assert(enc_str_items(lp) =~= enc_string(l[0]) + seq![44u8] + enc_string(x));
            assert(enc_str_items(seq![x]) =~= enc_string(x));
        } else {
            assert(lp[0] == l[0]);
            assert(enc_str_items(lp) =~= enc_string(l[0]) + seq![44u8] + enc_str_items(
                lp.drop_first(),
            ));
            assert((enc_string(l[0]) + seq![44u8] + enc_str_items(l.drop_first())) + seq![44u8]
                + enc_str_items(seq![x]) =~= enc_string(l[0]) + seq![44u8] + (enc_str_items(
                l.drop_first(),
            ) + seq![44u8] + enc_str_items(seq![x])));
        }
    }
}

/// Appends a bracketed list of string values.
fn put_str_list(out: &mut Vec<u8>, l: &Vec<String>)
    ensures
        final(out)@ == old(out)@ + enc_str_list(l.deep_view()),
{
    out.push(91);
    let ghost base = out@;
    let n = l.len();
    let mut i: usize = 0;
    proof {
        assert(enc_str_items(l.deep_view().take(0)) =~= Seq::<u8>::empty());
        assert(out@ =~= base + enc_str_items(l.deep_view().take(0)));
    }
    while i < n
        invariant
            n == l@.len(),
            l.deep_view().len() == n,
            i <= n,
            out@ == base + enc_str_items(l.deep_view().take(i as int)),
        decreases n - i,
    {
        if i > 0 {
            out.push(44);
        }
        put_string(out, l[i].as_str());
        proof {
            let dv = l.deep_view();
            assert(dv.take(i as int + 1) =~= dv.take(i as int).push(dv[i as int]));
            lemma_enc_items_snoc(dv.take(i as int), dv[i as int]);
            assert(enc_str_items(seq![dv[i as int]]) =~= enc_string(dv[i as int]));
            if i == 0 {
                assert(out@ =~= base + enc_str_items(dv.take(1)));
            } else {
                assert(out@ =~= base + enc_str_items(dv.take(i as int + 1)));
            }
        }
        i = i + 1;
    }
    out.push(93);
    proof {
        assert(l.deep_view().take(n as int) =~= l.deep_view());
        assert(out@ =~= old(out)@ + enc_str_list(l.deep_view()));
    }
}

/// Appends one comment record.
fn put_comment(out: &mut Vec<u8>, c: &crate::issue::Comment)
    ensures
        final(out)@ == old(out)@ + enc_comment(c@),
{
    put_lit(out, "{\"author\":");
    put_string(out, c.author.as_str());
    put_lit(out, ",\"text\":");
    put_string(out, c.text.as_str());
    put_lit(out, ",\"created_at\":");
    put_string(out, c.created_at.as_str());
    out.push(125);
    proof {
        assert(out@ =~= old(out)@ + enc_comment(c@));
    }
}

/// Comment records grow at the back of a written list.
proof fn lemma_enc_comment_items_snoc(l: Seq<crate::issue::CommentModel>, x: crate::issue::CommentModel)
    ensures
        enc_comment_items(l.push(x)) == if l.len() == 0 {
            enc_comment(x)
        } else {
            enc_comment_items(l) + seq![44u8] + enc_comment_items(seq![x])
        },
    decreases l.len(),
{
    let lp = l.push(x);
    if l.len() == 0 {
        assert(lp.len() == 1);
        assert(lp[0] == x);
    } else {
        assert(lp.drop_first() =~= l.drop_first().push(x));
        lemma_enc_comment_items_snoc(l.drop_first(), x);
        if l.len() == 1 {
            assert(lp[0] == l[0]);
            assert(enc_comment_items(lp) =~= enc_comment(l[0]) + seq![44u8] + enc_comment(x));
            assert(enc_comment_items(seq![x]) =~= enc_comment(x));
        } else {
            assert(lp[0] == l[0]);
            assert(enc_comment_items(lp) =~= enc_comment(l[0]) + seq![44u8] + enc_comment_items(
                lp.drop_first(),
            ));
            assert((enc_comment(l[0]) + seq![44u8] + enc_comment_items(l.drop_first())) + seq![44u8]
                + enc_comment_items(seq![x]) =~= enc_comment(l[0]) + seq![44u8]
                + (enc_comment_items(l.drop_first()) + seq![44u8] + enc_comment_items(seq![x])));
        }
    }
}

/// Appends a bracketed list of comment records.
fn put_comment_list(out: &mut Vec<u8>, l: &Vec<crate::issue::Comment>)
    ensures
        final(out)@ == old(out)@ + enc_comment_list(l.deep_view()),
{
    out.push(91);
    let ghost base = out@;
    let n = l.len();
    let mut i: usize = 0;
    proof {
        assert(enc_comment_items(l.deep_view().take(0)) =~= Seq::<u8>::empty());
        assert(out@ =~= base + enc_comment_items(l.deep_view().take(0)));
    }
    while i < n
        invariant
            n == l@.len(),
            l.deep_view().len() == n,
            i <= n,
            out@ == base + enc_comment_items(l.deep_view().take(i as int)),
        decreases n - i,
    {
        if i > 0 {
            out.push(44);
        }
        put_comment(out, &l[i]);
        proof {
            let dv = l.deep_view();
            assert(dv.take(i as int + 1) =~= dv.take(i as int).push(dv[i as int]));
            lemma_enc_comment_items_snoc(dv.take(i as int), dv[i as int]);
            assert(enc_comment_items(seq![dv[i as int]]) =~= enc_comment(dv[i as int]));
            if i == 0 {
                assert(out@ =~= base + enc_comment_items(dv.take(1)));
            } else {
                assert(out@ =~= base + enc_comment_items(dv.take(i as int + 1)));
            }
        }
        i = i + 1;
    }
    out.push(93);
    proof {
        assert(l.deep_view().take(n as int) =~= l.deep_view());
        assert(out@ =~= old(out)@ + enc_comment_list(l.deep_view()));
    }
}

/// Writes one issue as its record line, without the line break.
#[verifier::rlimit(100)]
#[verifier::spinoff_prover]
pub fn encode_issue(x: &crate::issue::Issue) -> (r: Vec<u8>)
    ensures
        r@ == enc_issue(x@),
{
    let mut out: Vec<u8> = Vec::new();
    put_lit(&mut out, "{\"id\":");
    put_string(&mut out, x.id.as_str());
    put_lit(&mut out, ",\"title\":");
    put_string(&mut out, x.title.as_str());
    put_lit(&mut out, ",\"description\":");
    put_string(&mut out, x.description.as_str());
    proof {
        assert(out@ =~= enc_issue_a(x@));
    }
    put_lit(&mut out, ",\"status\":");
    match x.status {
        crate::issue::Status::Open => put_lit(&mut out, "\"open\""),
        crate::issue::Status::InProgress => put_lit(&mut out, "\"in_progress\""),
        crate::issue::Status::Closed => put_lit(&mut out, "\"closed\""),
    }
    put_lit(&mut out, ",\"priority\":");
    put_u8(&mut out, x.priority);
    proof {
        assert(out@ =~= enc_issue_a(x@) + enc_issue_b1(x@));
    }
    put_lit(&mut out, ",\"issue_type\":");
    match x.issue_type {
        crate::issue::IssueType::Task => put_lit(&mut out, "\"task\""),
        crate::issue::IssueType::Epic => put_lit(&mut out, "\"epic\""),
        crate::issue::IssueType::Refactor => put_lit(&mut out, "\"refactor\""),
        crate::issue::IssueType::Spike => put_lit(&mut out, "\"spike\""),
    }
    match &x.session_id {
        Some(s) => {
            put_lit(&mut out, ",\"session_id\":");
            put_string(&mut out, s.as_str());
        },
        None => {},
    }
    put_lit(&mut out, ",\"labels\":");
    put_str_list(&mut out, &x.labels);
    proof {
        assert(out@ =~= enc_issue_a(x@) + enc_issue_b1(x@) + enc_issue_b2(x@));
    }
    put_lit(&mut out, ",\"comments\":");
    put_comment_list(&mut out, &x.comments);
    put_lit(&mut out, ",\"created_at\":");
    put_string(&mut out, x.created_at.as_str());
    put_lit(&mut out, ",\"updated_at\":");
    put_string(&mut out, x.updated_at.as_str());
    proof {
        assert(out@ =~= enc_issue_a(x@) + enc_issue_b1(x@) + enc_issue_b2(x@) + enc_issue_c1(x@)
            + enc_issue_c2(x@));
    }
    match &x.closed_at {
        Some(t) => {
            put_lit(&mut out, ",\"closed_at\":");
            put_string(&mut out, t.as_str());
        },
        None => {},
    }
    put_lit(&mut out, ",\"blocks\":");
    put_str_list(&mut out, &x.blocks);
    put_lit(&mut out, ",\"blocked_by\":");
    put_str_list(&mut out, &x.blocked_by);
    out.push(125);
    proof {
        reveal(enc_issue);
        assert(out@ =~= enc_issue(x@));
    }
    out
}

/// Writes the settings record.
pub fn encode_config(c: &crate::store::Config) -> (r: Vec<u8>)
    ensures
        r@ == enc_config(c.version, c.prefix@),
{
    let mut out: Vec<u8> = Vec::new();
    put_lit(&mut out, "{\"version\":");
    put_u8(&mut out, c.version);
    put_lit(&mut out, ",\"prefix\":");
    put_string(&mut out, c.prefix.as_str());
    out.push(125);
    proof {
        assert(out@ =~= enc_config(c.version, c.prefix@));
    }
    out
}

/// Relies on `String::from_utf8`: it succeeds exactly on well-formed
/// UTF-8 and the returned string holds exactly the given bytes.
#[verifier::external_body]
fn bytes_to_string(v: Vec<u8>) -> (r: Option<String>)
    ensures
        r is Some <==> valid_utf8(v@),
        r matches Some(s) ==> encode_utf8(s@) == v@,
{
    match String::from_utf8(v) {
        Ok(s) => Some(s),
        Err(_) => None,
    }
}

/// Reads an expected literal at a position.
fn scan_lit(b: &[u8], p: usize, lit: &str) -> (r: Option<usize>)
    requires
        p <= b@.len(),
    ensures
        match parse_lit(b@.skip(p as int), lit.spec_bytes()) {
            Some(rest) => {
                &&& r matches Some(q)
                &&& p <= r->0 <= b@.len()
                &&& b@.skip(r->0 as int) == rest
            },
            None => r is None,
        },
{
    let lb = lit.as_bytes();
    let n = lb.len();
    let ghost s = b@.skip(p as int);
    if b.len() - p < n {
        proof {
            assert(!starts_with(s, lb@));
        }
        return None;
    }
    let mut i: usize = 0;
    while i < n
        invariant
            p <= b@.len(),
            b@.len() <= usize::MAX,
            n == lb@.len(),
            lb@ == lit.spec_bytes(),
            n <= b@.len() - p,
            i <= n,
            s == b@.skip(p as int),
            forall|j: int| 0 <= j < i ==> s[j] == lb@[j],
        decreases n - i,
    {
        if b[p + i] != lb[i] {
            proof {
                assert(s[i as int] == b@[p + i]);
                if starts_with(s, lb@) {
                    assert(s.take(n as int)[i as int] == s[i as int]);
                    assert(s.take(n as int)[i as int] == lb@[i as int]);
                }
            }
            return None;
        }
        proof {
            assert(s[i as int] == b@[p + i]);
        }
        i = i + 1;
    }
    proof {
        assert(s.take(n as int) =~= lb@);
        assert(starts_with(s, lb@));
        assert(b@.skip((p + n) as int) =~= s.skip(n as int));
    }
    Some(p + n)
}

/// The value of a hexadecimal digit byte.
fn hex_val_exec(c: u8) -> (r: u8)
    ensures
        r as nat == hex_byte_val(c),
{
    if 48 <= c && c <= 57 {
        c - 48
    } else if 97 <= c && c <= 102 {
        c - 87
    } else {
        16
    }
}

/// Reads escaped string content up to and including the closing quote.
#[verifier::rlimit(100)]
#[verifier::spinoff_prover]
fn scan_body(b: &[u8], p: usize) -> (r: Option<(Vec<u8>, usize)>)
    requires
        p <= b@.len(),
    ensures
        match parse_str_body(b@.skip(p as int)) {
            Some((content, rest)) => {
                &&& r matches Some(pair)
                &&& pair.0@ == content
                &&& p <= pair.1 <= b@.len()
                &&& b@.skip(pair.1 as int) == rest
            },
            None => r is None,
        },
    decreases b@.len() - p,
{
    let ghost s = b@.skip(p as int);
    if p == b.len() {
        return None;
    }
    let c = b[p];
    proof {
        assert(s[0] == c);
    }
    if c == 34 {
        proof {
            assert(b@.skip(p as int + 1) =~= s.drop_first());
        }
        return Some((Vec::new(), p + 1));
    }
    if c == 92 {
        if b.len() - p >= 2 && (b[p + 1] == 34 || b[p + 1] == 92) {
            proof {
                assert(s[1] == b@[p + 1]);
                assert(b@.skip(p as int + 2) =~= s.skip(2));
            }
            match scan_body(b, p + 2) {
                None => None,
                Some((mut v, q)) => {
                    let ghost inner = v@;
                    v.insert(0, b[p + 1]);
                    proof {
                        assert(v@ =~= seq![s[1]] + inner);
                    }
                    Some((v, q))
                },
            }
        } else if b.len() - p >= 6 && b[p + 1] == 117 && b[p + 2] == 48 && b[p + 3] == 48 {
            let hi = hex_val_exec(b[p + 4]);
            let lo = hex_val_exec(b[p + 5]);
            proof {
                assert(s[1] == b@[p + 1] && s[2] == b@[p + 2] && s[3] == b@[p + 3]);
                assert(s[4] == b@[p + 4] && s[5] == b@[p + 5]);
            }
            if hi < 16 && lo < 16 && (hi as u16) * 16 + (lo as u16) < 32 {
                proof {
                    assert(b@.skip(p as int + 6) =~= s.skip(6));
                }
                match scan_body(b, p + 6) {
                    None => None,
                    Some((mut v, q)) => {
                        let ghost inner = v@;
                        v.insert(0, hi * 16 + lo);
                        proof {
                            assert(v@ =~= seq![(hex_byte_val(s[4]) * 16 + hex_byte_val(
                                s[5],
                            )) as u8] + inner);
                        }
                        Some((v, q))
                    },
                }
            } else {
                None
            }
        } else {
            proof {
                if b@.len() - p >= 2 {
                    assert(s[1] == b@[p + 1]);
                }
                if b@.len() - p >= 6 {
                    assert(s[1] == b@[p + 1] && s[2] == b@[p + 2] && s[3] == b@[p + 3]);
                    assert(s[4] == b@[p + 4] && s[5] == b@[p + 5]);
                }
            }
            None
        }
    } else {
        proof {
            assert(b@.skip(p as int + 1) =~= s.drop_first());
        }
        match scan_body(b, p + 1) {
            None => None,
            Some((mut v, q)) => {
                let ghost inner = v@;
                v.insert(0, c);
                proof {
                    assert(v@ =~= seq![s[0]] + inner);
                }
                Some((v, q))
            },
        }
    }
}

/// Reads a quoted string value.
fn scan_string(b: &[u8], p: usize) -> (r: Option<(String, usize)>)
    requires
        p <= b@.len(),
    ensures
        match parse_string(b@.skip(p as int)) {
            Some((sv, rest)) => {
                &&& r matches Some(pair)
                &&& pair.0@ == sv
                &&& p <= pair.1 <= b@.len()
                &&& b@.skip(pair.1 as int) == rest
            },
            None => r is None,
        },
{
    broadcast use vstd::utf8::encode_utf8_decode_utf8;

    let ghost s = b@.skip(p as int);
    if p == b.len() {
        return None;
    }
    if b[p] != 34 {
        proof {
            assert(s[0] == b@[p as int]);
        }
        return None;
    }
    proof {
        assert(s[0] == 34);
        assert(b@.skip(p as int + 1) =~= s.drop_first());
    }
    match scan_body(b, p + 1) {
        None => None,
        Some((v, q)) => {
            match bytes_to_string(v) {
                Some(out) => {
                    proof {
                        assert(decode_utf8(encode_utf8(out@)) == out@);
                    }
                    Some((out, q))
                },
                None => None,
            }
        },
    }
}

/// Reads a number of at most three digits, no more than 255.
#[verifier::rlimit(100)]
#[verifier::spinoff_prover]
fn scan_u8(b: &[u8], p: usize) -> (r: Option<(u8, usize)>)
    requires
        p <= b@.len(),
    ensures
        match parse_u8(b@.skip(p as int)) {
            Some((v, rest)) => {
                &&& r matches Some(pair)
                &&& pair.0 == v
                &&& p <= pair.1 <= b@.len()
                &&& b@.skip(pair.1 as int) == rest
            },
            None => r is None,
        },
{
    let ghost s = b@.skip(p as int);
    let len = b.len();
    if len - p < 1 || !(48 <= b[p] && b[p] <= 57) {
        proof {
            if s.len() >= 1 {
                assert(s[0] == b@[p as int]);
            }
        }
        return None;
    }
    proof {
        assert(s[0] == b@[p as int]);
    }
    if len - p >= 2 && 48 <= b[p + 1] && b[p + 1] <= 57 {
        proof {
            assert(s[1] == b@[p + 1]);
        }
        if len - p >= 3 && 48 <= b[p + 2] && b[p + 2] <= 57 {
            proof {
                assert(s[2] == b@[p + 2]);
            }
            if len - p >= 4 && 48 <= b[p + 3] && b[p + 3] <= 57 {
                proof {
                    assert(s[3] == b@[p + 3]);
                }
                return None;
            }
            let v: u32 = (b[p] - 48) as u32 * 100 + (b[p + 1] - 48) as u32 * 10 + (b[p + 2]
                - 48) as u32;
            if v <= 255 {
                proof {
                    if s.len() >= 4 {
                        assert(s[3] == b@[p + 3]);
                    }
                    assert(b@.skip((p + 3) as int) =~= s.skip(3));
                }
                return Some((v as u8, p + 3));
            } else {
                proof {
                    if s.len() >= 4 {
                        assert(s[3] == b@[p + 3]);
                    }
                }
                return None;
            }
        }
        proof {
            if s.len() >= 3 {
                assert(s[2] == b@[p + 2]);
            }
            assert(b@.skip((p + 2) as int) =~= s.skip(2));
        }
        return Some(((b[p] - 48) * 10 + (b[p + 1] - 48), p + 2));
    }
    proof {
        if s.len() >= 2 {
            assert(s[1] == b@[p + 1]);
        }
        assert(b@.skip((p + 1) as int) =~= s.skip(1));
    }
    Some((b[p] - 48, p + 1))
}

/// Reads a status keyword.
fn scan_status(b: &[u8], p: usize) -> (r: Option<(crate::issue::Status, usize)>)
    requires
        p <= b@.len(),
    ensures
        match parse_status_val(b@.skip(p as int)) {
            Some((st, rest)) => {
                &&& r matches Some(pair)
                &&& pair.0 == st
                &&& p <= pair.1 <= b@.len()
                &&& b@.skip(pair.1 as int) == rest
            },
            None => r is None,
        },
{
    if let Some(q) = scan_lit(b, p, "\"open\"") {
        Some((crate::issue::Status::Open, q))
    } else if let Some(q) = scan_lit(b, p, "\"in_progress\"") {
        Some((crate::issue::Status::InProgress, q))
    } else if let Some(q) = scan_lit(b, p, "\"closed\"") {
        Some((crate::issue::Status::Closed, q))
    } else {
        None
    }
}

/// Reads an issue type keyword.
fn scan_type(b: &[u8], p: usize) -> (r: Option<(crate::issue::IssueType, usize)>)
    requires
        p <= b@.len(),
    ensures
        match parse_type_val(b@.skip(p as int)) {
            Some((t, rest)) => {
                &&& r matches Some(pair)
                &&& pair.0 == t
                &&& p <= pair.1 <= b@.len()
                &&& b@.skip(pair.1 as int) == rest
            },
            None => r is None,
        },
{
    if let Some(q) = scan_lit(b, p, "\"task\"") {
        Some((crate::issue::IssueType::Task, q))
    } else if let Some(q) = scan_lit(b, p, "\"epic\"") {
        Some((crate::issue::IssueType::Epic, q))
    } else if let Some(q) = scan_lit(b, p, "\"refactor\"") {
        Some((crate::issue::IssueType::Refactor, q))
    } else if let Some(q) = scan_lit(b, p, "\"spike\"") {
        Some((crate::issue::IssueType::Spike, q))
    } else {
        None
    }
}

/// Reads comma-separated string values up to the closing bracket.
#[verifier::rlimit(100)]
#[verifier::spinoff_prover]
fn scan_str_items(b: &[u8], p: usize) -> (r: Option<(Vec<String>, usize)>)
    requires
        p <= b@.len(),
    ensures
        match parse_str_items(b@.skip(p as int)) {
            Some((l, rest)) => {
                &&& r matches Some(pair)
                &&& pair.0.deep_view() == l
                &&& p <= pair.1 <= b@.len()
                &&& b@.skip(pair.1 as int) == rest
            },
            None => r is None,
        },
    decreases b@.len() - p,
{
    let ghost s = b@.skip(p as int);
    match scan_string(b, p) {
        None => None,
        Some((first, q)) => {
            if b.len() - q >= 1 && b[q] == 44 {
                proof {
                    assert(b@.skip(q as int)[0] == b@[q as int]);
                    assert(b@.skip(q as int).skip(1) =~= b@.skip(q as int + 1));
                    assert(b@.skip(q as int).skip(1).len() < s.len());
                }
                match scan_str_items(b, q + 1) {
                    None => None,
                    Some((mut l, q2)) => {
                        let ghost inner = l.deep_view();
                        l.insert(0, first);
                        proof {
                            assert(l.deep_view() =~= seq![first@] + inner);
                        }
                        Some((l, q2))
                    },
                }
            } else if b.len() - q >= 1 && b[q] == 93 {
                proof {
                    assert(b@.skip(q as int)[0] == b@[q as int]);
                    assert(b@.skip(q as int).skip(1) =~= b@.skip(q as int + 1));
                }
                let mut l: Vec<String> = Vec::new();
                l.push(first);
                proof {
                    assert(l.deep_view() =~= seq![first@]);
                }
                Some((l, q + 1))
            } else {
                proof {
                    if b@.skip(q as int).len() >= 1 {
                        assert(b@.skip(q as int)[0] == b@[q as int]);
                    }
                }
                None
            }
        },
    }
}

/// Reads a bracketed list of string values.
fn scan_str_list(b: &[u8], p: usize) -> (r: Option<(Vec<String>, usize)>)
    requires
        p <= b@.len(),
    ensures
        match parse_str_list(b@.skip(p as int)) {
            Some((l, rest)) => {
                &&& r matches Some(pair)
                &&& pair.0.deep_view() == l
                &&& p <= pair.1 <= b@.len()
                &&& b@.skip(pair.1 as int) == rest
            },
            None => r is None,
        },
{
    let ghost s = b@.skip(p as int);
    if b.len() - p < 1 || b[p] != 91 {
        proof {
            if s.len() >= 1 {
                assert(s[0] == b@[p as int]);
            }
        }
        return None;
    }
    proof {
        assert(s[0] == b@[p as int]);
    }
    if b.len() - p >= 2 && b[p + 1] == 93 {
        proof {
            assert(s[1] == b@[p + 1]);
            assert(b@.skip((p + 2) as int) =~= s.skip(2));
        }
        let l: Vec<String> = Vec::new();
        proof {
            assert(l.deep_view() =~= Seq::<Seq<char>>::empty());
        }
        return Some((l, p + 2));
    }
    proof {
        if s.len() >= 2 {
            assert(s[1] == b@[p + 1]);
        }
        assert(b@.skip((p + 1) as int) =~= s.skip(1));
    }
    scan_str_items(b, p + 1)
}

/// Reads one comment record.
#[verifier::rlimit(100)]
#[verifier::spinoff_prover]
fn scan_comment(b: &[u8], p: usize) -> (r: Option<(crate::issue::Comment, usize)>)
    requires
        p <= b@.len(),
    ensures
        match parse_comment(b@.skip(p as int)) {
            Some((c, rest)) => {
                &&& r matches Some(pair)
                &&& pair.0@ == c
                &&& p <= pair.1 <= b@.len()
                &&& b@.skip(pair.1 as int) == rest
            },
            None => r is None,
        },
{
    let q1 = match scan_lit(b, p, "{\"author\":") {
        Some(q) => q,
        None => {
            return None;
        },
    };
    let (author, q2) = match scan_string(b, q1) {
        Some(pair) => pair,
        None => {
            return None;
        },
    };
    let q3 = match scan_lit(b, q2, ",\"text\":") {
        Some(q) => q,
        None => {
            return None;
        },
    };
    let (text, q4) = match scan_string(b, q3) {
        Some(pair) => pair,
        None => {
            return None;
        },
    };
    let q5 = match scan_lit(b, q4, ",\"created_at\":") {
        Some(q) => q,
        None => {
            return None;
        },
    };
    let (created_at, q6) = match scan_string(b, q5) {
        Some(pair) => pair,
        None => {
            return None;
        },
    };
    if b.len() - q6 >= 1 && b[q6] == 125 {
        proof {
            assert(b@.skip(q6 as int)[0] == b@[q6 as int]);
            assert(b@.skip(q6 as int).skip(1) =~= b@.skip(q6 as int + 1));
        }
        Some((crate::issue::Comment { author, text, created_at }, q6 + 1))
    } else {
        proof {
            if b@.skip(q6 as int).len() >= 1 {
                assert(b@.skip(q6 as int)[0] == b@[q6 as int]);
            }
        }
        None
    }
}

/// Reads comma-separated comment records up to the closing bracket.
#[verifier::rlimit(100)]
#[verifier::spinoff_prover]
fn scan_comment_items(b: &[u8], p: usize) -> (r: Option<(Vec<crate::issue::Comment>, usize)>)
    requires
        p <= b@.len(),
    ensures
        match parse_comment_items(b@.skip(p as int)) {
            Some((l, rest)) => {
                &&& r matches Some(pair)
                &&& pair.0.deep_view() == l
                &&& p <= pair.1 <= b@.len()
                &&& b@.skip(pair.1 as int) == rest
            },
            None => r is None,
        },
    decreases b@.len() - p,
{
    let ghost s = b@.skip(p as int);
    match scan_comment(b, p) {
        None => None,
        Some((first, q)) => {
            if b.len() - q >= 1 && b[q] == 44 {
                proof {
                    assert(b@.skip(q as int)[0] == b@[q as int]);
                    assert(b@.skip(q as int).skip(1) =~= b@.skip(q as int + 1));
                    assert(b@.skip(q as int).skip(1).len() < s.len());
                }
                match scan_comment_items(b, q + 1) {
                    None => None,
                    Some((mut l, q2)) => {
                        let ghost inner = l.deep_view();
                        let ghost fv = first@;
                        l.insert(0, first);
                        proof {
                            assert(l.deep_view() =~= seq![fv] + inner);
                        }
                        Some((l, q2))
                    },
                }
            } else if b.len() - q >= 1 && b[q] == 93 {
                proof {
                    assert(b@.skip(q as int)[0] == b@[q as int]);
                    assert(b@.skip(q as int).skip(1) =~= b@.skip(q as int + 1));
                }
                let ghost fv = first@;
                let mut l: Vec<crate::issue::Comment> = Vec::new();
                l.push(first);
                proof {
                    assert(l.deep_view() =~= seq![fv]);
                }
                Some((l, q + 1))
            } else {
                proof {
                    if b@.skip(q as int).len() >= 1 {
                        assert(b@.skip(q as int)[0] == b@[q as int]);
                    }
                }
                None
            }
        },
    }
}

/// Reads a bracketed list of comment records.
fn scan_comment_list(b: &[u8], p: usize) -> (r: Option<(Vec<crate::issue::Comment>, usize)>)
    requires
        p <= b@.len(),
    ensures
        match parse_comment_list(b@.skip(p as int)) {
            Some((l, rest)) => {
                &&& r matches Some(pair)
                &&& pair.0.deep_view() == l
                &&& p <= pair.1 <= b@.len()
                &&& b@.skip(pair.1 as int) == rest
            },
            None => r is None,
        },
{
    let ghost s = b@.skip(p as int);
    if b.len() - p < 1 || b[p] != 91 {
        proof {
            if s.len() >= 1 {
                assert(s[0] == b@[p as int]);
            }
        }
        return None;
    }
    proof {
        assert(s[0] == b@[p as int]);
    }
    if b.len() - p >= 2 && b[p + 1] == 93 {
        proof {
            assert(s[1] == b@[p + 1]);
            assert(b@.skip((p + 2) as int) =~= s.skip(2));
        }
        let l: Vec<crate::issue::Comment> = Vec::new();
        proof {
            assert(l.deep_view() =~= Seq::<crate::issue::CommentModel>::empty());
        }
        return Some((l, p + 2));
    }
    proof {
        if s.len() >= 2 {
            assert(s[1] == b@[p + 1]);
        }
        assert(b@.skip((p + 1) as int) =~= s.skip(1));
    }
    scan_comment_items(b, p + 1)
}

/// Reads the opening fields of a record.
#[verifier::rlimit(100)]
#[verifier::spinoff_prover]
fn scan_issue_a(b: &[u8], p: usize) -> (r: Option<((String, String, String), usize)>)
    requires
        p <= b@.len(),
    ensures
        match parse_issue_a(b@.skip(p as int)) {
            Some((vals, rest)) => {
                &&& r matches Some(pair)
                &&& pair.0.0@ == vals.0
                &&& pair.0.1@ == vals.1
                &&& pair.0.2@ == vals.2
                &&& p <= pair.1 <= b@.len()
                &&& b@.skip(pair.1 as int) == rest
            },
            None => r is None,
        },
{
    let q1 = match scan_lit(b, p, "{\"id\":") {
        Some(q) => q,
        None => {
            return None;
        },
    };
    let (id, q2) = match scan_string(b, q1) {
        Some(pair) => pair,
        None => {
            return None;
        },
    };
    let q3 = match scan_lit(b, q2, ",\"title\":") {
        Some(q) => q,
        None => {
            return None;
        },
    };
    let (title, q4) = match scan_string(b, q3) {
        Some(pair) => pair,
        None => {
            return None;
        },
    };
    match scan_lit(b, q4, ",\"description\":") {
        Some(q5) => {
            match scan_string(b, q5) {
                Some((d, q6)) => Some(((id, title, d), q6)),
                None => None,
            }
        },
        None => Some(((id, title, String::new()), q4)),
    }
}

/// Reads the status and priority of a record.
#[verifier::rlimit(100)]
#[verifier::spinoff_prover]
fn scan_issue_b1(b: &[u8], p: usize) -> (r: Option<((crate::issue::Status, u8), usize)>)
    requires
        p <= b@.len(),
    ensures
        match parse_issue_b1(b@.skip(p as int)) {
            Some((vals, rest)) => {
                &&& r matches Some(pair)
                &&& pair.0.0 == vals.0
                &&& pair.0.1 == vals.1
                &&& p <= pair.1 <= b@.len()
                &&& b@.skip(pair.1 as int) == rest
            },
            None => r is None,
        },
{
    let q1 = match scan_lit(b, p, ",\"status\":") {
        Some(q) => q,
        None => {
            return None;
        },
    };
    let (st, q2) = match scan_status(b, q1) {
        Some(pair) => pair,
        None => {
            return None;
        },
    };
    match scan_lit(b, q2, ",\"priority\":") {
        Some(q3) => {
            match scan_u8(b, q3) {
                Some((v, q4)) => Some(((st, v), q4)),
                None => None,
            }
        },
        None => Some(((st, 2u8), q2)),
    }
}

/// Reads the type, session and labels of a record.
#[verifier::rlimit(100)]
#[verifier::spinoff_prover]
fn scan_issue_b2(b: &[u8], p: usize) -> (r: Option<
    ((crate::issue::IssueType, Option<String>, Vec<String>), usize),
>)
    requires
        p <= b@.len(),
    ensures
        match parse_issue_b2(b@.skip(p as int)) {
            Some((vals, rest)) => {
                &&& r matches Some(pair)
                &&& pair.0.0 == vals.0
                &&& pair.0.1.deep_view() == vals.1
                &&& pair.0.2.deep_view() == vals.2
                &&& p <= pair.1 <= b@.len()
                &&& b@.skip(pair.1 as int) == rest
            },
            None => r is None,
        },
{
    let q1 = match scan_lit(b, p, ",\"issue_type\":") {
        Some(q) => q,
        None => {
            return None;
        },
    };
    let (ty, q2) = match scan_type(b, q1) {
        Some(pair) => pair,
        None => {
            return None;
        },
    };
    let (sess, q3) = match scan_lit(b, q2, ",\"session_id\":") {
        Some(qs) => {
            match scan_string(b, qs) {
                Some((s, q)) => (Some(s), q),
                None => {
                    return None;
                },
            }
        },
        None => (None, q2),
    };
    match scan_lit(b, q3, ",\"labels\":") {
        Some(q4) => {
            match scan_str_list(b, q4) {
                Some((l, q5)) => Some(((ty, sess, l), q5)),
                None => None,
            }
        },
        None => {
            let l: Vec<String> = Vec::new();
            proof {
                assert(l.deep_view() =~= Seq::<Seq<char>>::empty());
            }
            Some(((ty, sess, l), q3))
        },
    }
}

/// Reads the comments of a record.
#[verifier::rlimit(100)]
#[verifier::spinoff_prover]
fn scan_issue_c1(b: &[u8], p: usize) -> (r: Option<(Vec<crate::issue::Comment>, usize)>)
    requires
        p <= b@.len(),
    ensures
        match parse_issue_c1(b@.skip(p as int)) {
            Some((l, rest)) => {
                &&& r matches Some(pair)
                &&& pair.0.deep_view() == l
                &&& p <= pair.1 <= b@.len()
                &&& b@.skip(pair.1 as int) == rest
            },
            None => r is None,
        },
{
    match scan_lit(b, p, ",\"comments\":") {
        Some(q1) => scan_comment_list(b, q1),
        None => {
            let l: Vec<crate::issue::Comment> = Vec::new();
            proof {
                assert(l.deep_view() =~= Seq::<crate::issue::CommentModel>::empty());
            }
            Some((l, p))
        },
    }
}

/// Reads the two time stamps of a record.
#[verifier::rlimit(100)]
#[verifier::spinoff_prover]
fn scan_issue_c2(b: &[u8], p: usize) -> (r: Option<((String, String), usize)>)
    requires
        p <= b@.len(),
    ensures
        match parse_issue_c2(b@.skip(p as int)) {
            Some((vals, rest)) => {
                &&& r matches Some(pair)
                &&& pair.0.0@ == vals.0
                &&& pair.0.1@ == vals.1
                &&& p <= pair.1 <= b@.len()
                &&& b@.skip(pair.1 as int) == rest
            },
            None => r is None,
        },
{
    let q1 = match scan_lit(b, p, ",\"created_at\":") {
        Some(q) => q,
        None => {
            return None;
        },
    };
    let (created, q2) = match scan_string(b, q1) {
        Some(pair) => pair,
        None => {
            return None;
        },
    };
    let q3 = match scan_lit(b, q2, ",\"updated_at\":") {
        Some(q) => q,
        None => {
            return None;
        },
    };
    match scan_string(b, q3) {
        Some((updated, q4)) => Some(((created, updated), q4)),
        None => None,
    }
}

/// Reads the closing fields of a record.
#[verifier::rlimit(100)]
#[verifier::spinoff_prover]
fn scan_issue_d(b: &[u8], p: usize) -> (r: Option<
    ((Option<String>, Vec<String>, Vec<String>), usize),
>)
    requires
        p <= b@.len(),
    ensures
        match parse_issue_d(b@.skip(p as int)) {
            Some((vals, rest)) => {
                &&& r matches Some(pair)
                &&& pair.0.0.deep_view() == vals.0
                &&& pair.0.1.deep_view() == vals.1
                &&& pair.0.2.deep_view() == vals.2
                &&& p <= pair.1 <= b@.len()
                &&& b@.skip(pair.1 as int) == rest
            },
            None => r is None,
        },
{
    let (closed, q1) = match scan_lit(b, p, ",\"closed_at\":") {
        Some(qc) => {
            match scan_string(b, qc) {
                Some((t, q)) => (Some(t), q),
                None => {
                    return None;
                },
            }
        },
        None => (None, p),
    };
    let (blocks, q2) = match scan_lit(b, q1, ",\"blocks\":") {
        Some(qb) => {
            match scan_str_list(b, qb) {
                Some(pair) => pair,
                None => {
                    return None;
                },
            }
        },
        None => {
            let l: Vec<String> = Vec::new();
            proof {
                assert(l.deep_view() =~= Seq::<Seq<char>>::empty());
            }
            (l, q1)
        },
    };
    let (blocked_by, q3) = match scan_lit(b, q2, ",\"blocked_by\":") {
        Some(qb) => {
            match scan_str_list(b, qb) {
                Some(pair) => pair,
                None => {
                    return None;
                },
            }
        },
        None => {
            let l: Vec<String> = Vec::new();
            proof {
                assert(l.deep_view() =~= Seq::<Seq<char>>::empty());
            }
            (l, q2)
        },
    };
    if b.len() - q3 >= 1 && b[q3] == 125 {
        proof {
            assert(b@.skip(q3 as int)[0] == b@[q3 as int]);
            assert(b@.skip(q3 as int).skip(1) =~= b@.skip(q3 as int + 1));
        }
        Some(((closed, blocks, blocked_by), q3 + 1))
    } else {
        proof {
            if b@.skip(q3 as int).len() >= 1 {
                assert(b@.skip(q3 as int)[0] == b@[q3 as int]);
            }
        }
        None
    }
}

/// Reads one whole issue record.
#[verifier::rlimit(100)]
#[verifier::spinoff_prover]
pub fn scan_issue(b: &[u8], p: usize) -> (r: Option<(crate::issue::Issue, usize)>)
    requires
        p <= b@.len(),
    ensures
        match parse_issue(b@.skip(p as int)) {
            Some((m, rest)) => {
                &&& r matches Some(pair)
                &&& pair.0@ == m
                &&& p <= pair.1 <= b@.len()
                &&& b@.skip(pair.1 as int) == rest
            },
            None => r is None,
        },
{
    proof {
        reveal(parse_issue);
    }
    let ((id, title, description), q1) = match scan_issue_a(b, p) {
        Some(pair) => pair,
        None => {
            return None;
        },
    };
    let ((status, priority), q2) = match scan_issue_b1(b, q1) {
        Some(pair) => pair,
        None => {
            return None;
        },
    };
    let ((issue_type, session_id, labels), q3) = match scan_issue_b2(b, q2) {
        Some(pair) => pair,
        None => {
            return None;
        },
    };
    let (comments, q4) = match scan_issue_c1(b, q3) {
        Some(pair) => pair,
        None => {
            return None;
        },
    };
    let ((created_at, updated_at), q5) = match scan_issue_c2(b, q4) {
        Some(pair) => pair,
        None => {
            return None;
        },
    };
    let ((closed_at, blocks, blocked_by), q6) = match scan_issue_d(b, q5) {
        Some(pair) => pair,
        None => {
            return None;
        },
    };
    if priority <= 4 {
        Some(
            (
                crate::issue::Issue {
                    id,
                    title,
                    description,
                    status,
                    priority,
                    issue_type,
                    session_id,
                    labels,
                    comments,
                    created_at,
                    updated_at,
                    closed_at,
                    blocks,
                    blocked_by,
                },
                q6,
            ),
        )
    } else {
        None
    }
}

/// Reads records from a position to the end of the file, counting lines
/// for error reports.
#[verifier::rlimit(100)]
#[verifier::spinoff_prover]
fn scan_lines_at(b: &[u8], p: usize, line: u64) -> (r: Result<Vec<crate::issue::Issue>, u64>)
    requires
        p <= b@.len(),
    ensures
        match parse_lines(b@.skip(p as int)) {
            Some(ms) => r matches Ok(v) && v.deep_view() == ms,
            None => r is Err,
        },
    decreases b@.len() - p,
{
    let ghost s = b@.skip(p as int);
    if p == b.len() {
        let v: Vec<crate::issue::Issue> = Vec::new();
        proof {
            assert(v.deep_view() =~= Seq::<crate::issue::IssueModel>::empty());
        }
        return Ok(v);
    }
    let c = b[p];
    proof {
        assert(s[0] == c);
        assert(b@.skip(p as int + 1) =~= s.drop_first());
    }
    if c == 10 {
        let next_line = if line < u64::MAX {
            line + 1
        } else {
            line
        };
        return scan_lines_at(b, p + 1, next_line);
    }
    if c == 32 || c == 9 || c == 13 {
        return scan_lines_at(b, p + 1, line);
    }
    match scan_issue(b, p) {
        None => Err(line),
        Some((x, q)) => {
            let ghost xv = x@;
            if q == b.len() {
                proof {
                    assert(b@.skip(q as int).len() == 0);
                }
                let mut v: Vec<crate::issue::Issue> = Vec::new();
                v.push(x);
                proof {
                    assert(v.deep_view() =~= seq![xv]);
                }
                Ok(v)
            } else if b[q] == 10 && q > p {
                proof {
                    assert(b@.skip(q as int)[0] == b@[q as int]);
                    assert(b@.skip(q as int).skip(1) =~= b@.skip(q as int + 1));
                    assert(b@.skip(q as int).len() < s.len());
                }
                let next_line = if line < u64::MAX {
                    line + 1
                } else {
                    line
                };
                match scan_lines_at(b, q + 1, next_line) {
                    Err(e) => Err(e),
                    Ok(mut v) => {
                        let ghost inner = v.deep_view();
                        v.insert(0, x);
                        proof {
                            assert(v.deep_view() =~= seq![xv] + inner);
                        }
                        Ok(v)
                    },
                }
            } else {
                proof {
                    assert(b@.skip(q as int)[0] == b@[q as int]);
                }
                Err(line)
            }
        },
    }
}

/// Reads the whole issue file.
pub fn scan_lines(b: &[u8]) -> (r: Result<Vec<crate::issue::Issue>, u64>)
    ensures
        match parse_lines(b@) {
            Some(ms) => r matches Ok(v) && v.deep_view() == ms,
            None => r is Err,
        },
{
    proof {
        assert(b@.skip(0) =~= b@);
    }
    scan_lines_at(b, 0, 1)
}

/// Reads the settings record.
#[verifier::rlimit(100)]
#[verifier::spinoff_prover]
pub fn scan_config(b: &[u8]) -> (r: Option<(u8, String)>)
    ensures
        match parse_config(b@) {
            Some((v, pfx)) => {
                &&& r matches Some(pair)
                &&& pair.0 == v
                &&& pair.1@ == pfx
            },
            None => r is None,
        },
{
    proof {
        assert(b@.skip(0) =~= b@);
    }
    let q1 = match scan_lit(b, 0, "{\"version\":") {
        Some(q) => q,
        None => {
            return None;
        },
    };
    let (v, q2) = match scan_u8(b, q1) {
        Some(pair) => pair,
        None => {
            return None;
        },
    };
    let q3 = match scan_lit(b, q2, ",\"prefix\":") {
        Some(q) => q,
        None => {
            return None;
        },
    };
    let (pfx, q4) = match scan_string(b, q3) {
        Some(pair) => pair,
        None => {
            return None;
        },
    };
    if b.len() - q4 >= 1 && b[q4] == 125 {
        proof {
            assert(b@.skip(q4 as int)[0] == b@[q4 as int]);
        }
        Some((v, pfx))
    } else {
        proof {
            if b@.skip(q4 as int).len() >= 1 {
                assert(b@.skip(q4 as int)[0] == b@[q4 as int]);
            }
        }
        None
    }
}

/// Records grow at the back of a written file.
proof fn lemma_enc_lines_snoc(l: Seq<crate::issue::IssueModel>, x: crate::issue::IssueModel)
    ensures
        enc_lines(l.push(x)) == enc_lines(l) + enc_issue(x) + seq![10u8],
    decreases l.len(),
{
    let lp = l.push(x);
    if l.len() == 0 {
        assert(lp[0] == x);
        assert(lp.drop_first() =~= Seq::<crate::issue::IssueModel>::empty());
        assert(enc_lines(Seq::<crate::issue::IssueModel>::empty())
            =~= Seq::<u8>::empty());
        assert(enc_lines(lp) =~= enc_issue(x) + seq![10u8] + Seq::<u8>::empty());
        assert(enc_lines(lp) =~= enc_issue(x) + seq![10u8]);
        assert(enc_lines(l) =~= Seq::<u8>::empty());
        assert(enc_lines(l) + enc_issue(x) + seq![10u8] =~= enc_issue(x) + seq![10u8]);
    } else {
        assert(lp[0] == l[0]);
        assert(lp.drop_first() =~= l.drop_first().push(x));
        lemma_enc_lines_snoc(l.drop_first(), x);
        assert(enc_lines(lp) =~= enc_issue(l[0]) + seq![10u8] + (enc_lines(l.drop_first())
            + enc_issue(x) + seq![10u8]));
        assert((enc_issue(l[0]) + seq![10u8] + enc_lines(l.drop_first())) + enc_issue(x) + seq![
            10u8,
        ] =~= enc_issue(l[0]) + seq![10u8] + (enc_lines(l.drop_first()) + enc_issue(x) + seq![
            10u8,
        ]));
    }
}

/// Writes the whole issue file: every issue as one line, sorted by id.
#[verifier::rlimit(100)]
#[verifier::spinoff_prover]
pub fn save_bytes(st: &crate::store::Store) -> (r: Vec<u8>)
    requires
        st.wf(),
    ensures
        exists|ms: Seq<crate::issue::IssueModel>|
            {
                &&& r@ == #[trigger] enc_lines(ms)
                &&& ms.len() == st.issues@.len()
                &&& (forall|k: int|
                    0 <= k < ms.len() ==> exists|i: int|
                        0 <= i < st.issues@.len() && #[trigger] ms[k] == st.issues@[i]@)
                &&& (forall|i: int|
                    0 <= i < st.issues@.len() ==> exists|k: int|
                        0 <= k < ms.len() && ms[k] == (#[trigger] st.issues@[i])@)
                &&& (forall|k1: int, k2: int|
                    0 <= k1 < k2 < ms.len() ==> crate::text::lex_le(
                        encode_utf8((#[trigger] ms[k1]).id),
                        encode_utf8((#[trigger] ms[k2]).id),
                    ))
            },
{
    broadcast use vstd::seq_lib::group_to_multiset_ensures;

    let n = st.issues.len();
    let mut idx: Vec<usize> = Vec::new();
    let mut i: usize = 0;
    while i < n
        invariant
            n == st.issues@.len(),
            i <= n,
            idx@.len() == i,
            forall|k: int| 0 <= k < i ==> #[trigger] idx@[k] == k,
        decreases n - i,
    {
        idx.push(i);
        i = i + 1;
    }
    let ghost iota = idx@;
    let ord = crate::sorting::sort_indices_by_id(&st.issues, idx);
    let ghost ms = Seq::new(ord@.len() as nat, |k: int| st.issues@[ord@[k] as int]@);
    let m = ord.len();
    let mut out: Vec<u8> = Vec::new();
    let mut k: usize = 0;
    proof {
        assert(enc_lines(ms.take(0)) =~= Seq::<u8>::empty());
        assert(out@ =~= enc_lines(ms.take(0)));
    }
    while k < m
        invariant
            st.wf(),
            n == st.issues@.len(),
            m == ord@.len(),
            forall|j: int| 0 <= j < m ==> #[trigger] ord@[j] < n,
            ms == Seq::new(ord@.len() as nat, |j: int| st.issues@[ord@[j] as int]@),
            k <= m,
            out@ == enc_lines(ms.take(k as int)),
        decreases m - k,
    {
        let line = encode_issue(&st.issues[ord[k]]);
        let ghost before = out@;
        let mut j: usize = 0;
        let ln = line.len();
        while j < ln
            invariant
                ln == line@.len(),
                j <= ln,
                out@ == before + line@.take(j as int),
            decreases ln - j,
        {
            out.push(line[j]);
            proof {
                assert(before + line@.take(j as int + 1) =~= (before + line@.take(
                    j as int,
                )).push(line@[j as int]));
            }
            j = j + 1;
        }
        out.push(10);
        proof {
            assert(line@.take(ln as int) =~= line@);
            assert(ms.take(k as int + 1) =~= ms.take(k as int).push(ms[k as int]));
            lemma_enc_lines_snoc(ms.take(k as int), ms[k as int]);
            assert(out@ =~= enc_lines(ms.take(k as int)) + enc_issue(ms[k as int]) + seq![10u8]);
            assert(out@ =~= enc_lines(ms.take(k as int + 1)));
        }
        k = k + 1;
    }
    proof {
        assert(ms.take(m as int) =~= ms);
        // The sorted positions hold every original position exactly once.
        iota.to_multiset_ensures();
        ord@.to_multiset_ensures();
        assert forall|i2: int|
            0 <= i2 < st.issues@.len() implies exists|k2: int|
            0 <= k2 < ms.len() && ms[k2] == (#[trigger] st.issues@[i2])@ by {
            assert(iota[i2] == i2);
            assert(iota.contains(i2 as usize));
            assert(iota.to_multiset().count(i2 as usize) > 0);
            assert(ord@.to_multiset().count(i2 as usize) > 0);
            assert(ord@.contains(i2 as usize));
            let k2 = choose|k2: int| 0 <= k2 < ord@.len() && ord@[k2] == i2 as usize;
            assert(ms[k2] == st.issues@[i2]@);
        };
    }
    out
}

/// All records a file reads back as keep their priorities in range.
proof fn lemma_parse_lines_priorities(b: Seq<u8>)
    ensures
        match parse_lines(b) {
            Some(ms) => forall|k: int| 0 <= k < ms.len() ==> (#[trigger] ms[k]).priority <= 4,
            None => true,
        },
    decreases b.len(),
{
    reveal(parse_issue);
    if b.len() == 0 {
    } else if b[0] == 10 || b[0] == 32 || b[0] == 9 || b[0] == 13 {
        lemma_parse_lines_priorities(b.drop_first());
    } else {
        match parse_issue(b) {
            None => {},
            Some((m, rest)) => {
                if rest.len() == 0 {
                } else if rest[0] == 10 && rest.len() < b.len() {
                    lemma_parse_lines_priorities(rest.skip(1));
                }
            },
        }
    }
}

/// The records that survive a load when later lines win: a record
/// stays only when no later record carries its id; survivors keep
/// their order.
pub open spec fn keep_last(ms: Seq<crate::issue::IssueModel>) -> Seq<crate::issue::IssueModel>
    decreases ms.len(),
{
    if ms.len() == 0 {
        Seq::<crate::issue::IssueModel>::empty()
    } else if exists|j: int| 1 <= j < ms.len() && (#[trigger] ms[j]).id == ms[0].id {
        keep_last(ms.drop_first())
    } else {
        seq![ms[0]] + keep_last(ms.drop_first())
    }
}

/// Rebuilds a store from the bytes of its two files: the settings
/// record and the issue file.  A malformed settings record, a malformed
/// issue line and an out-of-range priority are each fatal for the whole
/// load; when two records carry one id, the later record wins.
#[verifier::rlimit(100)]
#[verifier::spinoff_prover]
pub fn load_store(config_bytes: &[u8], issue_bytes: &[u8]) -> (r: Result<
    crate::store::Store,
    crate::errors::TrackerError,
>)
    ensures
        parse_config(config_bytes@) is None ==> r is Err && r->Err_0@
            == crate::errors::ErrorModel::MalformedConfig,
        parse_config(config_bytes@) is Some && parse_lines(issue_bytes@) is None ==> r is Err && (
        r->Err_0@ matches crate::errors::ErrorModel::MalformedRecord { .. }),
        parse_config(config_bytes@) is Some && parse_lines(issue_bytes@) is Some ==> {
            let (version, prefix) = parse_config(config_bytes@)->0;
            let ms = parse_lines(issue_bytes@)->0;
            &&& r matches Ok(st)
            &&& st.wf()
            &&& st.config.version == version
            &&& st.config.prefix@ == prefix
            &&& st.issues.deep_view() == keep_last(ms)
        },
{
    let (version, prefix) = match scan_config(config_bytes) {
        Some(pair) => pair,
        None => {
            return Err(crate::errors::TrackerError::MalformedConfig);
        },
    };
    let issues = match scan_lines(issue_bytes) {
        Ok(v) => v,
        Err(line) => {
            return Err(crate::errors::TrackerError::MalformedRecord { line });
        },
    };
    let ghost ms = parse_lines(issue_bytes@)->0;
    proof {
        lemma_parse_lines_priorities(issue_bytes@);
        assert forall|j: int| 0 <= j < issues@.len() implies (#[trigger] issues@[j]).priority
            <= 4 by {
            assert(ms[j].priority == issues@[j].priority);
        };
    }
    let mut pending = issues;
    let mut out: Vec<crate::issue::Issue> = Vec::new();
    proof {
        assert(out.deep_view() + keep_last(pending.deep_view()) =~= keep_last(ms));
    }
    while pending.len() > 0
        invariant
            parse_config(config_bytes@) is Some,
            parse_lines(issue_bytes@) == Some(ms),
            out.deep_view() + keep_last(pending.deep_view()) == keep_last(ms),
            forall|a: int, c: int| 0 <= a < c < out@.len() ==> out@[a].id@ != out@[c].id@,
            forall|a: int, j: int|
                0 <= a < out@.len() && 0 <= j < pending@.len() ==> out@[a].id@
                    != pending@[j].id@,
            forall|a: int| 0 <= a < out@.len() ==> (#[trigger] out@[a]).priority <= 4,
            forall|j: int| 0 <= j < pending@.len() ==> (#[trigger] pending@[j]).priority <= 4,
        decreases pending.len(),
    {
        let ghost cur = pending.deep_view();
        let ghost out0 = out.deep_view();
        let x = pending.remove(0);
        proof {
            assert(pending.deep_view() =~= cur.drop_first());
            assert(x@ == cur[0]);
        }
        let m = pending.len();
        let mut dup = false;
        let mut j: usize = 0;
        while j < m
            invariant
                m == pending@.len(),
                j <= m,
                dup == exists|t: int| 0 <= t < j && (#[trigger] pending@[t]).id@ == x.id@,
            decreases m - j,
        {
            if crate::text::str_eq(pending[j].id.as_str(), x.id.as_str()) {
                dup = true;
                j = m;
            } else {
                proof {
                    if exists|t: int| 0 <= t < j + 1 && (#[trigger] pending@[t]).id@ == x.id@ {
                        let t = choose|t: int|
                            0 <= t < j + 1 && (#[trigger] pending@[t]).id@ == x.id@;
                        assert(t < j);
                    }
                }
                j = j + 1;
            }
        }
        proof {
            // The duplicate test read the models of the later records.
            assert(forall|t: int|
                0 <= t < pending@.len() ==> (#[trigger] pending.deep_view()[t]).id
                    == pending@[t].id@);
            assert(dup == exists|t: int|
                0 <= t < cur.drop_first().len() && (#[trigger] cur.drop_first()[t]).id
                    == cur[0].id) by {
                if dup {
                    let t = choose|t: int|
                        0 <= t < pending@.len() && (#[trigger] pending@[t]).id@ == x.id@;
                    assert(cur.drop_first()[t].id == cur[0].id);
                }
                if exists|t: int|
                    0 <= t < cur.drop_first().len() && (#[trigger] cur.drop_first()[t]).id
                        == cur[0].id {
                    let t = choose|t: int|
                        0 <= t < cur.drop_first().len() && (#[trigger] cur.drop_first()[t]).id
                            == cur[0].id;
                    assert(pending@[t].id@ == x.id@);
                }
            }
            assert((exists|jj: int| 1 <= jj < cur.len() && (#[trigger] cur[jj]).id == cur[0].id)
                == dup) by {
                if dup {
                    let t = choose|t: int|
                        0 <= t < cur.drop_first().len() && (#[trigger] cur.drop_first()[t]).id
                            == cur[0].id;
                    assert(cur[t + 1].id == cur[0].id);
                }
                if exists|jj: int| 1 <= jj < cur.len() && (#[trigger] cur[jj]).id == cur[0].id {
                    let jj = choose|jj: int|
                        1 <= jj < cur.len() && (#[trigger] cur[jj]).id == cur[0].id;
                    assert(cur.drop_first()[jj - 1].id == cur[0].id);
                }
            }
        }
        if dup {
            proof {
                assert(keep_last(cur) == keep_last(cur.drop_first()));
            }
        } else {
            out.push(x);
            proof {
                assert(keep_last(cur) == seq![cur[0]] + keep_last(cur.drop_first()));
                assert(out.deep_view() =~= out0.push(cur[0]));
                assert(out.deep_view() + keep_last(pending.deep_view()) =~= out0 + (seq![cur[0]]
                    + keep_last(cur.drop_first())));
                assert(out0 + keep_last(cur) =~= out0 + (seq![cur[0]] + keep_last(
                    cur.drop_first(),
                )));
            }
        }
    }
    proof {
        assert(pending.deep_view() =~= Seq::<crate::issue::IssueModel>::empty());
        assert(keep_last(Seq::<crate::issue::IssueModel>::empty())
            =~= Seq::<crate::issue::IssueModel>::empty());
        assert(out.deep_view() + keep_last(pending.deep_view()) =~= out.deep_view());
        assert(crate::store::unique_ids(out@));
        assert(crate::store::all_wf(out@));
    }
    Ok(crate::store::Store { config: crate::store::Config { version, prefix }, issues: out })
}

} // verus!
