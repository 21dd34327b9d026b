//! Wire-protocol codec: encoding and streaming decoding of the five
//! frame categories (simple string, error, integer, bulk string, array).

use vstd::prelude::*;

verus! {

/// ASCII code of the digit `d` (for `0 <= d <= 9`).
pub open spec fn digit_byte(d: nat) -> u8 {
    (48 + d) as u8
}

/// Canonical decimal representation of `n`, most significant digit first.
pub open spec fn spec_digits(n: nat) -> Seq<u8>
    decreases n,
{
    if n < 10 {
        seq![digit_byte(n)]
    } else {
        spec_digits(n / 10).push(digit_byte(n % 10))
    }
}

/// Render `n` as canonical ASCII decimal digits.
pub fn u64_to_decimal(n: u64) -> (r: Vec<u8>)
    ensures
        r@ == spec_digits(n as nat),
    decreases n,
{
    if n < 10 {
        let mut v: Vec<u8> = Vec::new();
        v.push(48 + n as u8);
        assert(v@ =~= spec_digits(n as nat));
        v
    } else {
        let mut v = u64_to_decimal(n / 10);
        v.push(48 + (n % 10) as u8);
        assert(v@ =~= spec_digits(n as nat));
        v
    }
}

pub open spec fn is_digit(b: u8) -> bool {
    48 <= b && b <= 57
}

/// Numeric value of the digit byte `b` (meaningful when `is_digit(b)`).
pub open spec fn digit_of(b: u8) -> nat {
    (b - 48) as nat
}

pub open spec fn all_digits(s: Seq<u8>) -> bool {
    forall|i: int| 0 <= i < s.len() ==> is_digit(#[trigger] s[i])
}

/// `s` is the canonical decimal form of a natural number:
/// nonempty, digits only, and no leading zero (except for "0" itself).
pub open spec fn canonical_nat(s: Seq<u8>) -> bool {
    &&& s.len() >= 1
    &&& all_digits(s)
    &&& (s.len() == 1 || s[0] != 48)
}

/// The number denoted by a digit string, most significant digit first.
pub open spec fn dec_val(s: Seq<u8>) -> nat
    decreases s.len(),
{
    if s.len() == 0 {
        0
    } else {
        dec_val(s.drop_last()) * 10 + digit_of(s.last())
    }
}

pub proof fn lemma_digits_shape(n: nat)
    ensures
        spec_digits(n).len() >= 1,
        all_digits(spec_digits(n)),
        n >= 1 ==> spec_digits(n)[0] != 48,
        n < 10 ==> spec_digits(n).len() == 1,
    decreases n,
{
    if n >= 10 {
        lemma_digits_shape(n / 10);
    }
}

pub proof fn lemma_digits_canonical(n: nat)
    ensures
        canonical_nat(spec_digits(n)),
{
    lemma_digits_shape(n);
    if n >= 10 {
        lemma_digits_shape(n / 10);
        assert(spec_digits(n)[0] == spec_digits(n / 10)[0]);
    }
}

pub proof fn lemma_digits_val(n: nat)
    ensures
        dec_val(spec_digits(n)) == n,
    decreases n,
{
    assert(digit_of(digit_byte(n % 10)) == n % 10);
    if n < 10 {
        let s = spec_digits(n);
        assert(s.drop_last() =~= Seq::<u8>::empty());
        assert(dec_val(s) == dec_val(Seq::<u8>::empty()) * 10 + digit_of(s.last()));
        assert(digit_of(digit_byte(n)) == n);
    } else {
        lemma_digits_val(n / 10);
        assert(spec_digits(n).drop_last() =~= spec_digits(n / 10));
        assert(spec_digits(n).last() == digit_byte(n % 10));
    }
}

pub proof fn lemma_dec_val_pos(s: Seq<u8>)
    requires
        all_digits(s),
        s.len() >= 1,
        s[0] != 48,
    ensures
        dec_val(s) >= 1,
    decreases s.len(),
{
    if s.len() == 1 {
        assert(is_digit(s[0]));
    } else {
        assert(s.drop_last()[0] == s[0]);
        assert(forall|i: int| 0 <= i < s.drop_last().len() ==> is_digit(#[trigger] s.drop_last()[i]));
        lemma_dec_val_pos(s.drop_last());
    }
}

pub proof fn lemma_canonical_digits(s: Seq<u8>)
    requires
        canonical_nat(s),
    ensures
        spec_digits(dec_val(s)) == s,
    decreases s.len(),
{
    if s.len() == 1 {
        assert(s.drop_last() =~= Seq::<u8>::empty());
        assert(dec_val(s) == dec_val(Seq::<u8>::empty()) * 10 + digit_of(s.last()));
        assert(is_digit(s[0]));
        assert(dec_val(s) == digit_of(s[0]));
        assert(digit_byte(digit_of(s[0])) == s[0]);
        assert(spec_digits(dec_val(s)) =~= s);
    } else {
        let p = s.drop_last();
        let d = s.last();
        assert(p[0] == s[0]);
        assert(forall|i: int| 0 <= i < p.len() ==> is_digit(#[trigger] p[i]));
        assert(canonical_nat(p));
        lemma_canonical_digits(p);
        lemma_dec_val_pos(p);
        let v = dec_val(s);
        assert(v == dec_val(p) * 10 + digit_of(d));
        assert(digit_of(d) < 10);
        assert(v / 10 == dec_val(p) && v % 10 == digit_of(d)) by (nonlinear_arith)
            requires
                v == dec_val(p) * 10 + digit_of(d),
                digit_of(d) < 10,
        ;
        assert(v >= 10);
        assert(spec_digits(v) == spec_digits(dec_val(p)).push(digit_byte(v % 10)));
        assert(digit_byte(digit_of(d)) == d);
        assert(spec_digits(v) =~= s);
    }
}

pub proof fn lemma_dec_val_step(s: Seq<u8>, i: int)
    requires
        0 <= i < s.len(),
    ensures
        dec_val(s.take(i + 1)) == dec_val(s.take(i)) * 10 + digit_of(s[i]),
{
    assert(s.take(i + 1).drop_last() =~= s.take(i));
    assert(s.take(i + 1).last() == s[i]);
}

pub open spec fn is_hex_digit(b: u8) -> bool {
    (48 <= b && b <= 57) || (97 <= b && b <= 102) || (65 <= b && b <= 70)
}

/// Numeric value of a hex digit byte (meaningful when `is_hex_digit(b)`).
pub open spec fn hex_val(b: u8) -> nat {
    if 48 <= b && b <= 57 {
        (b - 48) as nat
    } else if 97 <= b && b <= 102 {
        (b - 87) as nat
    } else if 65 <= b && b <= 70 {
        (b - 55) as nat
    } else {
        0
    }
}

pub open spec fn all_hex_digits(s: Seq<u8>) -> bool {
    forall|i: int| 0 <= i < s.len() ==> is_hex_digit(#[trigger] s[i])
}

/// The bytes a hex string denotes, two digits to a byte.
pub open spec fn hex_decode(s: Seq<u8>) -> Seq<u8> {
    Seq::new(s.len() / 2, |i: int| (hex_val(s[2 * i]) * 16 + hex_val(s[2 * i + 1])) as u8)
}

/// Decode a hexadecimal string into its bytes; rejects an odd length or
/// a byte outside `0-9a-fA-F`.
pub fn hex_to_binary(hex: &Vec<u8>) -> (r: Option<Vec<u8>>)
    ensures
        match r {
            Some(v) => hex@.len() % 2 == 0 && all_hex_digits(hex@) && v@ == hex_decode(hex@),
            None => !(hex@.len() % 2 == 0 && all_hex_digits(hex@)),
        },
{
    if hex.len() % 2 != 0 {
        return None;
    }
    let mut out: Vec<u8> = Vec::new();
    let mut i: usize = 0;
    while i < hex.len()
        invariant
            i % 2 == 0,
            i <= hex@.len(),
            hex@.len() % 2 == 0,
            out@.len() == i / 2,
            forall|k: int| 0 <= k < i ==> is_hex_digit(#[trigger] hex@[k]),
            forall|k: int|
                0 <= k < i / 2 ==> out@[k] == (hex_val(hex@[2 * k]) * 16 + hex_val(
                    #[trigger] hex@[2 * k + 1],
                )) as u8,
        decreases hex@.len() - i,
    {
        let a = hex[i];
        let b = hex[i + 1];
        let va: u8 = if 48 <= a && a <= 57 {
            a - 48
        } else if 97 <= a && a <= 102 {
            a - 87
        } else if 65 <= a && a <= 70 {
            a - 55
        } else {
            assert(!is_hex_digit(hex@[i as int]));
            return None;
        };
        let vb: u8 = if 48 <= b && b <= 57 {
            b - 48
        } else if 97 <= b && b <= 102 {
            b - 87
        } else if 65 <= b && b <= 70 {
            b - 55
        } else {
            assert(!is_hex_digit(hex@[i as int + 1]));
            return None;
        };
        out.push(va * 16 + vb);
        i = i + 2;
    }
    proof {
        assert(out@ =~= hex_decode(hex@));
    }
    Some(out)
}

/// CR or LF: the bytes that end the textual part of a line.
pub open spec fn is_break(b: u8) -> bool {
    b == 13 || b == 10
}

pub open spec fn line_ok(p: Seq<u8>) -> bool {
    forall|i: int| 0 <= i < p.len() ==> !is_break(#[trigger] p[i])
}

/// Index of the first CR or LF in `s`, if any.
pub open spec fn find_break(s: Seq<u8>) -> Option<int>
    decreases s.len(),
{
    if s.len() == 0 {
        None
    } else if is_break(s[0]) {
        Some(0)
    } else {
        match find_break(s.skip(1)) {
            Some(i) => Some(i + 1),
            None => None,
        }
    }
}

pub proof fn lemma_find_break_char(s: Seq<u8>)
    ensures
        match find_break(s) {
            Some(i) => 0 <= i < s.len() && is_break(s[i]) && (forall|j: int|
                0 <= j < i ==> !is_break(#[trigger] s[j])),
            None => line_ok(s),
        },
    decreases s.len(),
{
    if s.len() > 0 && !is_break(s[0]) {
        let r = s.skip(1);
        lemma_find_break_char(r);
        assert(forall|j: int| 0 <= j < r.len() ==> #[trigger] r[j] == s[j + 1]);
        match find_break(r) {
            Some(i) => {
                assert(is_break(s[i + 1]));
                assert forall|j: int| 1 <= j < i + 1 implies !is_break(#[trigger] s[j]) by {
                    assert(!is_break(r[j - 1]));
                }
            },
            None => {
                assert forall|j: int| 1 <= j < s.len() implies !is_break(#[trigger] s[j]) by {
                    assert(!is_break(r[j - 1]));
                }
            },
        }
    }
}

pub proof fn lemma_find_break_at(s: Seq<u8>, i: int)
    requires
        0 <= i < s.len(),
        is_break(s[i]),
        forall|j: int| 0 <= j < i ==> !is_break(#[trigger] s[j]),
    ensures
        find_break(s) == Some(i),
{
    lemma_find_break_char(s);
    match find_break(s) {
        Some(k) => {
            if k < i {
                assert(!is_break(s[k]));
            }
            if i < k {
                assert(!is_break(s[i]));
            }
        },
        None => {
            assert(!is_break(s[i]));
        },
    }
}

pub proof fn lemma_find_break_none(s: Seq<u8>)
    requires
        line_ok(s),
    ensures
        find_break(s) == None::<int>,
{
    lemma_find_break_char(s);
    if let Some(i) = find_break(s) {
        assert(!is_break(s[i]));
    }
}

/// Result of scanning for one CRLF-terminated line.
pub enum LineOut {
    Done(Seq<u8>, int),
    More,
    Bad,
}

/// Read bytes up to a CRLF pair: the payload may contain neither CR nor LF.
pub open spec fn parse_line(s: Seq<u8>) -> LineOut {
    match find_break(s) {
        None => LineOut::More,
        Some(i) => if s[i] == 10 {
            LineOut::Bad
        } else if i + 1 >= s.len() {
            LineOut::More
        } else if s[i + 1] == 10 {
            LineOut::Done(s.take(i), i + 2)
        } else {
            LineOut::Bad
        },
    }
}

/// A well-formed line followed by CRLF parses back to exactly that line,
/// whatever bytes follow.
pub proof fn lemma_parse_line_enc(p: Seq<u8>, rest: Seq<u8>)
    requires
        line_ok(p),
    ensures
        parse_line(p + seq![13u8, 10u8] + rest) == LineOut::Done(p, p.len() + 2int),
{
    let s = p + seq![13u8, 10u8] + rest;
    let n = p.len() as int;
    assert(s[n] == 13);
    assert(s[n + 1] == 10);
    assert(forall|j: int| 0 <= j < n ==> s[j] == p[j]);
    lemma_find_break_at(s, n);
    assert(s.take(n) =~= p);
}

/// Every strict prefix of a well-formed encoded line is incomplete.
pub proof fn lemma_parse_line_prefix(p: Seq<u8>, i: int)
    requires
        line_ok(p),
        0 <= i < p.len() + 2,
    ensures
        parse_line((p + seq![13u8, 10u8]).take(i)) == LineOut::More,
{
    let s = (p + seq![13u8, 10u8]).take(i);
    if i <= p.len() {
        assert(forall|j: int| 0 <= j < s.len() ==> s[j] == p[j]);
        lemma_find_break_none(s);
    } else {
        let n = p.len() as int;
        assert(s[n] == 13);
        assert(forall|j: int| 0 <= j < n ==> s[j] == p[j]);
        lemma_find_break_at(s, n);
        assert(s.len() == n + 1);
    }
}

/// What a successful line parse says about the input bytes.
pub proof fn lemma_parse_line_sound(s: Seq<u8>, p: Seq<u8>, c: int)
    requires
        parse_line(s) == LineOut::Done(p, c),
    ensures
        line_ok(p),
        2 <= c <= s.len(),
        p.len() == c - 2,
        s.take(c) == p + seq![13u8, 10u8],
{
    lemma_find_break_char(s);
    let i = find_break(s)->Some_0;
    assert(p == s.take(i));
    assert(forall|j: int| 0 <= j < p.len() ==> p[j] == s[j]);
    assert(s.take(c) =~= p + seq![13u8, 10u8]);
}

/// Mathematical model of one wire frame.
pub enum FrameSpec {
    Simple(Seq<u8>),
    Error(Seq<u8>),
    Integer(int),
    Bulk(Seq<u8>),
    NullBulk,
    Array(Seq<Seq<u8>>),
    NullArray,
}

pub open spec fn crlf() -> Seq<u8> {
    seq![13u8, 10u8]
}

/// Canonical decimal form of a signed integer.
pub open spec fn int_repr(v: int) -> Seq<u8> {
    if v >= 0 {
        spec_digits(v as nat)
    } else {
        seq![45u8] + spec_digits((-v) as nat)
    }
}

/// The number denoted by the payload of an integer frame, when canonical.
pub open spec fn parse_int_payload(p: Seq<u8>) -> Option<int> {
    if canonical_nat(p) {
        Some(dec_val(p) as int)
    } else if p.len() >= 2 && p[0] == 45 && canonical_nat(p.skip(1)) && dec_val(p.skip(1)) > 0 {
        Some(-(dec_val(p.skip(1)) as int))
    } else {
        None
    }
}

/// On-wire bytes of one bulk string.
pub open spec fn enc_bulk(p: Seq<u8>) -> Seq<u8> {
    seq![36u8] + spec_digits(p.len()) + crlf() + p + crlf()
}

/// On-wire bytes of a run of bulk strings, in order.
pub open spec fn enc_items(items: Seq<Seq<u8>>) -> Seq<u8>
    decreases items.len(),
{
    if items.len() == 0 {
        Seq::empty()
    } else {
        enc_bulk(items[0]) + enc_items(items.skip(1))
    }
}

/// On-wire bytes of a whole frame.
pub open spec fn enc(f: FrameSpec) -> Seq<u8> {
    match f {
        FrameSpec::Simple(p) => seq![43u8] + p + crlf(),
        FrameSpec::Error(p) => seq![45u8] + p + crlf(),
        FrameSpec::Integer(v) => seq![58u8] + int_repr(v) + crlf(),
        FrameSpec::Bulk(p) => enc_bulk(p),
        FrameSpec::NullBulk => seq![36u8, 45u8, 49u8, 13u8, 10u8],
        FrameSpec::Array(items) => seq![42u8] + spec_digits(items.len()) + crlf()
            + enc_items(items),
        FrameSpec::NullArray => seq![42u8, 45u8, 49u8, 13u8, 10u8],
    }
}

/// Frames the encoder can produce: line payloads free of CR/LF and
/// integers within the signed 64-bit range.
pub open spec fn frame_wf(f: FrameSpec) -> bool {
    match f {
        FrameSpec::Simple(p) => line_ok(p),
        FrameSpec::Error(p) => line_ok(p),
        FrameSpec::Integer(v) => i64::MIN <= v <= i64::MAX,
        _ => true,
    }
}

/// Outcome of decoding one frame from the head of a byte stream.
pub enum ParseOut {
    Done(FrameSpec, int),
    More,
    Bad,
}

/// Outcome of decoding one bulk-string array element.
pub enum ItemOut {
    Done(Seq<u8>, int),
    More,
    Bad,
}

/// Outcome of decoding a run of bulk-string array elements.
pub enum ItemsOut {
    Done(Seq<Seq<u8>>, int),
    More,
    Bad,
}

/// Decode one bulk string (`$<len>\r\n<bytes>\r\n`) from the head of `s`.
pub open spec fn parse_bulk_item(s: Seq<u8>) -> ItemOut {
    if s.len() == 0 {
        ItemOut::More
    } else if s[0] != 36 {
        ItemOut::Bad
    } else {
        match parse_line(s.skip(1)) {
            LineOut::More => ItemOut::More,
            LineOut::Bad => ItemOut::Bad,
            LineOut::Done(p, c) => {
                if canonical_nat(p) {
                    let l = dec_val(p) as int;
                    let rest = s.skip(1 + c);
                    if rest.len() < l + 2 {
                        ItemOut::More
                    } else if rest[l] == 13 && rest[l + 1] == 10 {
                        ItemOut::Done(rest.take(l), 1 + c + l + 2)
                    } else {
                        ItemOut::Bad
                    }
                } else {
                    ItemOut::Bad
                }
            },
        }
    }
}

/// Decode `n` consecutive bulk strings from the head of `s`.
pub open spec fn parse_bulks(s: Seq<u8>, n: nat) -> ItemsOut
    decreases n,
{
    if n == 0 {
        ItemsOut::Done(seq![], 0)
    } else {
        match parse_bulk_item(s) {
            ItemOut::Done(p, c) => match parse_bulks(s.skip(c), (n - 1) as nat) {
                ItemsOut::Done(ps, c2) => ItemsOut::Done(seq![p] + ps, c + c2),
                ItemsOut::More => ItemsOut::More,
                ItemsOut::Bad => ItemsOut::Bad,
            },
            ItemOut::More => ItemsOut::More,
            ItemOut::Bad => ItemsOut::Bad,
        }
    }
}

/// Decode a bulk-string frame, accepting the null form `$-1\r\n`.
pub open spec fn parse_bulk_frame(s: Seq<u8>) -> ParseOut {
    match parse_line(s.skip(1)) {
        LineOut::More => ParseOut::More,
        LineOut::Bad => ParseOut::Bad,
        LineOut::Done(p, c) => {
            if p == seq![45u8, 49u8] {
                ParseOut::Done(FrameSpec::NullBulk, 1 + c)
            } else {
                match parse_bulk_item(s) {
                    ItemOut::Done(q, n) => ParseOut::Done(FrameSpec::Bulk(q), n),
                    ItemOut::More => ParseOut::More,
                    ItemOut::Bad => ParseOut::Bad,
                }
            }
        },
    }
}

/// Decode an array frame (`*<n>\r\n` then `n` bulk strings), accepting
/// the null form `*-1\r\n`.
pub open spec fn parse_array_frame(s: Seq<u8>) -> ParseOut {
    match parse_line(s.skip(1)) {
        LineOut::More => ParseOut::More,
        LineOut::Bad => ParseOut::Bad,
        LineOut::Done(p, c) => {
            if p == seq![45u8, 49u8] {
                ParseOut::Done(FrameSpec::NullArray, 1 + c)
            } else if canonical_nat(p) {
                match parse_bulks(s.skip(1 + c), dec_val(p)) {
                    ItemsOut::Done(items, c2) => ParseOut::Done(
                        FrameSpec::Array(items),
                        1 + c + c2,
                    ),
                    ItemsOut::More => ParseOut::More,
                    ItemsOut::Bad => ParseOut::Bad,
                }
            } else {
                ParseOut::Bad
            }
        },
    }
}

/// Decode one frame from the head of `s`: the stream decoder's meaning.
pub open spec fn parse(s: Seq<u8>) -> ParseOut {
    if s.len() == 0 {
        ParseOut::More
    } else if s[0] == 43 || s[0] == 45 {
        match parse_line(s.skip(1)) {
            LineOut::More => ParseOut::More,
            LineOut::Bad => ParseOut::Bad,
            LineOut::Done(p, c) => if s[0] == 43 {
                ParseOut::Done(FrameSpec::Simple(p), 1 + c)
            } else {
                ParseOut::Done(FrameSpec::Error(p), 1 + c)
            },
        }
    } else if s[0] == 58 {
        match parse_line(s.skip(1)) {
            LineOut::More => ParseOut::More,
            LineOut::Bad => ParseOut::Bad,
            LineOut::Done(p, c) => match parse_int_payload(p) {
                Some(v) => if i64::MIN <= v <= i64::MAX {
                    ParseOut::Done(FrameSpec::Integer(v), 1 + c)
                } else {
                    ParseOut::Bad
                },
                None => ParseOut::Bad,
            },
        }
    } else if s[0] == 36 {
        parse_bulk_frame(s)
    } else if s[0] == 42 {
        parse_array_frame(s)
    } else {
        ParseOut::Bad
    }
}

/// A parsed or rejected line keeps its outcome when bytes are appended.
pub proof fn lemma_parse_line_ext(s: Seq<u8>, t: Seq<u8>)
    ensures
        parse_line(s) is Done ==> parse_line(s + t) == parse_line(s),
        parse_line(s) is Bad ==> parse_line(s + t) is Bad,
{
    lemma_find_break_char(s);
    if let Some(i) = find_break(s) {
        assert(forall|j: int| 0 <= j < s.len() ==> (s + t)[j] == s[j]);
        lemma_find_break_at(s + t, i);
        if parse_line(s) is Done {
            assert((s + t).take(i) =~= s.take(i));
        }
        if parse_line(s) is Bad && s[i] == 13 && i + 1 >= s.len() {
            assert(false);
        }
    }
}

pub proof fn lemma_digits_line_ok(s: Seq<u8>)
    requires
        all_digits(s),
    ensures
        line_ok(s),
{
    assert forall|i: int| 0 <= i < s.len() implies !is_break(#[trigger] s[i]) by {
        assert(is_digit(s[i]));
    }
}

/// An encoded bulk string decodes back to its payload, whatever follows.
pub proof fn lemma_enc_bulk_item(p: Seq<u8>, rest: Seq<u8>)
    ensures
        parse_bulk_item(enc_bulk(p) + rest) == ItemOut::Done(p, enc_bulk(p).len() as int),
{
    let digits = spec_digits(p.len());
    let dl = digits.len() as int;
    let s = enc_bulk(p) + rest;
    let tail = p + crlf() + rest;
    lemma_digits_canonical(p.len());
    lemma_digits_val(p.len());
    lemma_digits_line_ok(digits);
    assert(s[0] == 36);
    assert(s.skip(1) =~= digits + crlf() + tail);
    lemma_parse_line_enc(digits, tail);
    assert(parse_line(s.skip(1)) == LineOut::Done(digits, dl + 2));
    let l = p.len() as int;
    let rest2 = s.skip(1 + dl + 2);
    assert(rest2 =~= p + crlf() + rest);
    assert(rest2.len() >= l + 2);
    assert(rest2[l] == 13);
    assert(rest2[l + 1] == 10);
    assert(rest2.take(l) =~= p);
    assert(enc_bulk(p).len() == 1 + dl + 2 + l + 2);
}

/// Every strict prefix of an encoded bulk string is incomplete.
pub proof fn lemma_bulk_item_prefix(p: Seq<u8>, i: int)
    requires
        0 <= i < enc_bulk(p).len(),
    ensures
        parse_bulk_item(enc_bulk(p).take(i)) == ItemOut::More,
{
    let digits = spec_digits(p.len());
    let dl = digits.len() as int;
    let e = enc_bulk(p);
    let s = e.take(i);
    lemma_digits_canonical(p.len());
    lemma_digits_val(p.len());
    lemma_digits_line_ok(digits);
    if i == 0 {
    } else if i < 1 + dl + 2 {
        assert(s[0] == 36);
        assert(s.skip(1) =~= (digits + crlf()).take(i - 1));
        lemma_parse_line_prefix(digits, i - 1);
    } else {
        assert(s[0] == 36);
        let cut = i - (1 + dl + 2);
        assert(s.skip(1) =~= digits + crlf() + (p + crlf()).take(cut));
        lemma_parse_line_enc(digits, (p + crlf()).take(cut));
        assert(parse_line(s.skip(1)) == LineOut::Done(digits, dl + 2));
        let l = p.len() as int;
        let rest2 = s.skip(1 + dl + 2);
        assert(rest2 =~= (p + crlf()).take(cut));
        assert(rest2.len() == cut < l + 2);
    }
}

/// What a successful bulk-string decode says about the input bytes.
pub proof fn lemma_bulk_item_sound(s: Seq<u8>, p: Seq<u8>, c: int)
    requires
        parse_bulk_item(s) == ItemOut::Done(p, c),
    ensures
        1 <= c <= s.len(),
        c == enc_bulk(p).len(),
        s.take(c) == enc_bulk(p),
{
    let q = parse_line(s.skip(1))->Done_0;
    let cl = parse_line(s.skip(1))->Done_1;
    lemma_parse_line_sound(s.skip(1), q, cl);
    let l = dec_val(q) as int;
    lemma_canonical_digits(q);
    let rest = s.skip(1 + cl);
    assert(p == rest.take(l));
    assert(p.len() == l);
    assert(c == 1 + cl + l + 2);
    assert(rest.len() >= l + 2);
    assert(c <= s.len()) by {
        assert(rest.len() == s.len() - 1 - cl);
    }
    assert(spec_digits(p.len()) == q);
    assert(enc_bulk(p).len() == 1 + q.len() + 2 + l + 2);
    assert(q.len() == cl - 2);
    assert(s.take(c) =~= enc_bulk(p)) by {
        let e = enc_bulk(p);
        assert(s.skip(1).take(cl) == q + crlf());
        assert(forall|j: int| 0 <= j < cl ==> s[1 + j] == #[trigger] (q + crlf())[j]);
        assert(forall|j: int| 0 <= j < rest.len() ==> #[trigger] rest[j] == s[1 + cl + j]);
        assert(forall|j: int| 0 <= j < l ==> #[trigger] p[j] == rest[j]);
        assert(e =~= seq![36u8] + (q + crlf()) + (p + crlf()));
        assert forall|j: int| 0 <= j < c implies s.take(c)[j] == e[j] by {
            let e2 = seq![36u8] + (q + crlf()) + (p + crlf());
            if j == 0 {
                assert(e2[0] == 36);
            } else if j < 1 + cl {
                assert(e2[j] == (q + crlf())[j - 1]);
                assert(s[j] == (q + crlf())[j - 1]);
            } else {
                assert(e2[j] == (p + crlf())[j - 1 - cl]);
                assert(rest[j - 1 - cl] == s[j]);
                if j - 1 - cl < l {
                    assert((p + crlf())[j - 1 - cl] == p[j - 1 - cl]);
                } else if j - 1 - cl == l {
                    assert((p + crlf())[l] == 13);
                    assert(rest[l] == 13);
                } else {
                    assert((p + crlf())[l + 1] == 10);
                    assert(rest[l + 1] == 10);
                }
            }
        }
    }
}

/// A decoded or rejected bulk string keeps its outcome when bytes are appended.
pub proof fn lemma_bulk_item_ext(s: Seq<u8>, t: Seq<u8>)
    ensures
        parse_bulk_item(s) is Done ==> parse_bulk_item(s + t) == parse_bulk_item(s),
        parse_bulk_item(s) is Bad ==> parse_bulk_item(s + t) is Bad,
{
    if s.len() == 0 {
    } else if parse_bulk_item(s) is Done {
        let p = parse_bulk_item(s)->Done_0;
        let c = parse_bulk_item(s)->Done_1;
        lemma_bulk_item_sound(s, p, c);
        assert(s + t =~= enc_bulk(p) + (s.skip(c) + t));
        lemma_enc_bulk_item(p, s.skip(c) + t);
    } else if parse_bulk_item(s) is Bad {
        if s[0] != 36 {
            assert((s + t)[0] == s[0]);
        } else {
            lemma_parse_line_ext(s.skip(1), t);
            assert((s + t).skip(1) =~= s.skip(1) + t);
            match parse_line(s.skip(1)) {
                LineOut::Bad => {},
                LineOut::Done(q, cl) => {
                    lemma_parse_line_sound(s.skip(1), q, cl);
                    if canonical_nat(q) {
                        let l = dec_val(q) as int;
                        let rest = s.skip(1 + cl);
                        let rest2 = (s + t).skip(1 + cl);
                        assert(rest2 =~= rest + t);
                        assert(rest.len() >= l + 2);
                        assert(rest2[l] == rest[l]);
                        assert(rest2[l + 1] == rest[l + 1]);
                    }
                },
                LineOut::More => {
                    assert(false);
                },
            }
        }
    }
}

/// An encoded run of bulk strings decodes back to those items, in order.
pub proof fn lemma_enc_items(items: Seq<Seq<u8>>, rest: Seq<u8>)
    ensures
        parse_bulks(enc_items(items) + rest, items.len()) == ItemsOut::Done(
            items,
            enc_items(items).len() as int,
        ),
    decreases items.len(),
{
    if items.len() == 0 {
        assert(enc_items(items) + rest =~= rest);
        assert(items =~= Seq::<Seq<u8>>::empty());
        assert(seq![] =~= items);
    } else {
        let e0 = enc_bulk(items[0]);
        let s = enc_items(items) + rest;
        assert(s =~= e0 + (enc_items(items.skip(1)) + rest));
        lemma_enc_bulk_item(items[0], enc_items(items.skip(1)) + rest);
        assert(parse_bulk_item(s) == ItemOut::Done(items[0], e0.len() as int));
        assert(s.skip(e0.len() as int) =~= enc_items(items.skip(1)) + rest);
        lemma_enc_items(items.skip(1), rest);
        assert(seq![items[0]] + items.skip(1) =~= items);
    }
}

/// Every strict prefix of an encoded run of bulk strings is incomplete.
pub proof fn lemma_items_prefix(items: Seq<Seq<u8>>, i: int)
    requires
        0 <= i < enc_items(items).len(),
    ensures
        parse_bulks(enc_items(items).take(i), items.len()) == ItemsOut::More,
    decreases items.len(),
{
    let e0 = enc_bulk(items[0]);
    let s = enc_items(items).take(i);
    if i < e0.len() {
        assert(s =~= e0.take(i));
        lemma_bulk_item_prefix(items[0], i);
    } else {
        assert(s =~= e0 + enc_items(items.skip(1)).take(i - e0.len()));
        lemma_enc_bulk_item(items[0], enc_items(items.skip(1)).take(i - e0.len()));
        assert(parse_bulk_item(s) == ItemOut::Done(items[0], e0.len() as int));
        assert(s.skip(e0.len() as int) =~= enc_items(items.skip(1)).take(i - e0.len()));
        lemma_items_prefix(items.skip(1), i - e0.len());
    }
}

/// What a successful run decode says about the input bytes.
pub proof fn lemma_items_sound(s: Seq<u8>, n: nat, items: Seq<Seq<u8>>, c: int)
    requires
        parse_bulks(s, n) == ItemsOut::Done(items, c),
    ensures
        items.len() == n,
        0 <= c <= s.len(),
        c == enc_items(items).len(),
        s.take(c) == enc_items(items),
    decreases n,
{
    if n == 0 {
        assert(items =~= Seq::<Seq<u8>>::empty());
        assert(s.take(0) =~= enc_items(items));
    } else {
        let p = parse_bulk_item(s)->Done_0;
        let c0 = parse_bulk_item(s)->Done_1;
        lemma_bulk_item_sound(s, p, c0);
        let r = parse_bulks(s.skip(c0), (n - 1) as nat);
        let ps = r->Done_0;
        let c2 = r->Done_1;
        lemma_items_sound(s.skip(c0), (n - 1) as nat, ps, c2);
        assert(items == seq![p] + ps);
        assert(items[0] == p);
        assert(items.skip(1) =~= ps);
        assert(enc_items(items) == enc_bulk(p) + enc_items(ps));
        assert(s.take(c) =~= enc_bulk(p) + enc_items(ps)) by {
            assert(s.take(c0) == enc_bulk(p));
            assert(s.skip(c0).take(c2) == enc_items(ps));
            assert(forall|j: int| 0 <= j < c2 ==> #[trigger] s.skip(c0)[j] == s[c0 + j]);
        }
    }
}

/// A decoded or rejected run keeps its outcome when bytes are appended.
pub proof fn lemma_items_ext(s: Seq<u8>, n: nat, t: Seq<u8>)
    ensures
        parse_bulks(s, n) is Done ==> parse_bulks(s + t, n) == parse_bulks(s, n),
        parse_bulks(s, n) is Bad ==> parse_bulks(s + t, n) is Bad,
    decreases n,
{
    if n > 0 {
        lemma_bulk_item_ext(s, t);
        match parse_bulk_item(s) {
            ItemOut::Done(p, c0) => {
                lemma_bulk_item_sound(s, p, c0);
                assert((s + t).skip(c0) =~= s.skip(c0) + t);
                lemma_items_ext(s.skip(c0), (n - 1) as nat, t);
            },
            ItemOut::More => {},
            ItemOut::Bad => {},
        }
    }
}

pub proof fn lemma_int_repr(v: int)
    ensures
        line_ok(int_repr(v)),
        parse_int_payload(int_repr(v)) == Some(v),
{
    if v >= 0 {
        lemma_digits_canonical(v as nat);
        lemma_digits_val(v as nat);
        lemma_digits_line_ok(spec_digits(v as nat));
    } else {
        let d = spec_digits((-v) as nat);
        let p = seq![45u8] + d;
        lemma_digits_canonical((-v) as nat);
        lemma_digits_val((-v) as nat);
        lemma_digits_line_ok(d);
        assert(p[0] == 45);
        assert(!is_digit(45u8));
        assert(!all_digits(p));
        assert(p.skip(1) =~= d);
        assert(forall|i: int| 0 <= i < p.len() ==> !is_break(#[trigger] p[i]));
    }
}

pub proof fn lemma_int_payload_sound(p: Seq<u8>, v: int)
    requires
        parse_int_payload(p) == Some(v),
    ensures
        p == int_repr(v),
{
    if canonical_nat(p) {
        lemma_canonical_digits(p);
    } else {
        lemma_canonical_digits(p.skip(1));
        assert(p =~= seq![45u8] + p.skip(1));
        assert(int_repr(v) == seq![45u8] + spec_digits((-v) as nat));
    }
}

/// The digit string of a length is never the null marker `-1`.
proof fn lemma_digits_not_null(n: nat)
    ensures
        spec_digits(n) != seq![45u8, 49u8],
{
    lemma_digits_shape(n);
    if spec_digits(n) == seq![45u8, 49u8] {
        assert(is_digit(spec_digits(n)[0]));
    }
}

/// Round trip: an encoded well-formed frame decodes back to itself,
/// whatever bytes follow it on the stream.
#[verifier::rlimit(50)]
pub proof fn lemma_round_trip(f: FrameSpec, rest: Seq<u8>)
    requires
        frame_wf(f),
    ensures
        parse(enc(f) + rest) == ParseOut::Done(f, enc(f).len() as int),
{
    let s = enc(f) + rest;
    match f {
        FrameSpec::Simple(p) => {
            assert(s[0] == 43);
            assert(s.skip(1) =~= p + crlf() + rest);
            lemma_parse_line_enc(p, rest);
        },
        FrameSpec::Error(p) => {
            assert(s[0] == 45);
            assert(s.skip(1) =~= p + crlf() + rest);
            lemma_parse_line_enc(p, rest);
        },
        FrameSpec::Integer(v) => {
            assert(s[0] == 58);
            lemma_int_repr(v);
            assert(s.skip(1) =~= int_repr(v) + crlf() + rest);
            lemma_parse_line_enc(int_repr(v), rest);
        },
        FrameSpec::Bulk(p) => {
            let digits = spec_digits(p.len());
            assert(s[0] == 36);
            lemma_enc_bulk_item(p, rest);
            assert(s =~= enc_bulk(p) + rest);
            lemma_digits_canonical(p.len());
            lemma_digits_line_ok(digits);
            assert(s.skip(1) =~= digits + crlf() + (p + crlf() + rest));
            lemma_parse_line_enc(digits, p + crlf() + rest);
            lemma_digits_not_null(p.len());
        },
        FrameSpec::NullBulk => {
            assert(s[0] == 36);
            let p = seq![45u8, 49u8];
            assert(line_ok(p)) by {
                assert(forall|i: int| 0 <= i < p.len() ==> !is_break(#[trigger] p[i]));
            }
            assert(s.skip(1) =~= p + crlf() + rest);
            lemma_parse_line_enc(p, rest);
            assert(enc(f).len() == 5);
        },
        FrameSpec::Array(items) => {
            let digits = spec_digits(items.len());
            assert(s[0] == 42);
            lemma_digits_canonical(items.len());
            lemma_digits_val(items.len());
            lemma_digits_line_ok(digits);
            assert(s.skip(1) =~= digits + crlf() + (enc_items(items) + rest));
            lemma_parse_line_enc(digits, enc_items(items) + rest);
            lemma_digits_not_null(items.len());
            let dl = digits.len() as int;
            assert(s.skip(1 + dl + 2) =~= enc_items(items) + rest);
            lemma_enc_items(items, rest);
        },
        FrameSpec::NullArray => {
            assert(s[0] == 42);
            let p = seq![45u8, 49u8];
            assert(line_ok(p)) by {
                assert(forall|i: int| 0 <= i < p.len() ==> !is_break(#[trigger] p[i]));
            }
            assert(s.skip(1) =~= p + crlf() + rest);
            lemma_parse_line_enc(p, rest);
            assert(enc(f).len() == 5);
        },
    }
}

/// What a successful frame decode says about the input bytes: the decoder
/// accepts exactly the canonical encodings.
pub proof fn lemma_parse_sound(s: Seq<u8>, f: FrameSpec, n: int)
    requires
        parse(s) == ParseOut::Done(f, n),
    ensures
        frame_wf(f),
        1 <= n <= s.len(),
        n == enc(f).len(),
        s.take(n) == enc(f),
{
    match f {
        FrameSpec::Simple(p) => {
            lemma_parse_line_sound(s.skip(1), p, n - 1);
            assert(s.take(n) =~= seq![43u8] + (p + crlf())) by {
                assert(forall|j: int| 0 <= j < n - 1 ==> s[1 + j] == #[trigger] (p + crlf())[j]);
            }
            assert(enc(f) =~= seq![43u8] + (p + crlf()));
        },
        FrameSpec::Error(p) => {
            lemma_parse_line_sound(s.skip(1), p, n - 1);
            assert(s.take(n) =~= seq![45u8] + (p + crlf())) by {
                assert(forall|j: int| 0 <= j < n - 1 ==> s[1 + j] == #[trigger] (p + crlf())[j]);
            }
            assert(enc(f) =~= seq![45u8] + (p + crlf()));
        },
        FrameSpec::Integer(v) => {
            let p = parse_line(s.skip(1))->Done_0;
            lemma_parse_line_sound(s.skip(1), p, n - 1);
            lemma_int_payload_sound(p, v);
            assert(s.take(n) =~= seq![58u8] + (p + crlf())) by {
                assert(forall|j: int| 0 <= j < n - 1 ==> s[1 + j] == #[trigger] (p + crlf())[j]);
            }
            assert(enc(f) =~= seq![58u8] + (int_repr(v) + crlf()));
        },
        FrameSpec::Bulk(p) => {
            lemma_bulk_item_sound(s, p, n);
        },
        FrameSpec::NullBulk => {
            let p = seq![45u8, 49u8];
            lemma_parse_line_sound(s.skip(1), p, n - 1);
            assert(s.take(n) =~= seq![36u8] + (p + crlf())) by {
                assert(forall|j: int| 0 <= j < n - 1 ==> s[1 + j] == #[trigger] (p + crlf())[j]);
            }
            assert(enc(f) =~= seq![36u8] + (p + crlf()));
        },
        FrameSpec::Array(items) => {
            let q = parse_line(s.skip(1))->Done_0;
            let cl = parse_line(s.skip(1))->Done_1;
            lemma_parse_line_sound(s.skip(1), q, cl);
            lemma_canonical_digits(q);
            let r = parse_bulks(s.skip(1 + cl), dec_val(q));
            let c2 = r->Done_1;
            lemma_items_sound(s.skip(1 + cl), dec_val(q), items, c2);
            assert(spec_digits(items.len()) == q);
            assert(s.take(n) =~= seq![42u8] + (q + crlf()) + enc_items(items)) by {
                assert(forall|j: int| 0 <= j < cl ==> s[1 + j] == #[trigger] (q + crlf())[j]);
                assert(s.skip(1 + cl).take(c2) == enc_items(items));
                assert(forall|j: int|
                    0 <= j < c2 ==> #[trigger] s.skip(1 + cl)[j] == s[1 + cl + j]);
            }
            assert(enc(f) =~= seq![42u8] + (q + crlf()) + enc_items(items));
        },
        FrameSpec::NullArray => {
            let p = seq![45u8, 49u8];
            lemma_parse_line_sound(s.skip(1), p, n - 1);
            assert(s.take(n) =~= seq![42u8] + (p + crlf())) by {
                assert(forall|j: int| 0 <= j < n - 1 ==> s[1 + j] == #[trigger] (p + crlf())[j]);
            }
            assert(enc(f) =~= seq![42u8] + (p + crlf()));
        },
    }
}

/// Every strict prefix of an encoded well-formed frame is incomplete:
/// the decoder never mistakes a partial frame for a whole or a bad one.
#[verifier::rlimit(50)]
pub proof fn lemma_parse_prefix(f: FrameSpec, i: int)
    requires
        frame_wf(f),
        0 <= i < enc(f).len(),
    ensures
        parse(enc(f).take(i)) == ParseOut::More,
{
    let e = enc(f);
    let s = e.take(i);
    if i == 0 {
        return ;
    }
    match f {
        FrameSpec::Simple(p) => {
            assert(s.skip(1) =~= (p + crlf()).take(i - 1));
            lemma_parse_line_prefix(p, i - 1);
        },
        FrameSpec::Error(p) => {
            assert(s.skip(1) =~= (p + crlf()).take(i - 1));
            lemma_parse_line_prefix(p, i - 1);
        },
        FrameSpec::Integer(v) => {
            lemma_int_repr(v);
            assert(s.skip(1) =~= (int_repr(v) + crlf()).take(i - 1));
            lemma_parse_line_prefix(int_repr(v), i - 1);
        },
        FrameSpec::Bulk(p) => {
            let digits = spec_digits(p.len());
            let dl = digits.len() as int;
            lemma_digits_canonical(p.len());
            lemma_digits_val(p.len());
            lemma_digits_line_ok(digits);
            lemma_digits_not_null(p.len());
            assert(s =~= enc_bulk(p).take(i));
            lemma_bulk_item_prefix(p, i);
            if i < 1 + dl + 2 {
                assert(s.skip(1) =~= (digits + crlf()).take(i - 1));
                lemma_parse_line_prefix(digits, i - 1);
            } else {
                let cut = i - (1 + dl + 2);
                assert(s.skip(1) =~= digits + crlf() + (p + crlf()).take(cut));
                lemma_parse_line_enc(digits, (p + crlf()).take(cut));
            }
        },
        FrameSpec::NullBulk => {
            let p = seq![45u8, 49u8];
            assert(line_ok(p)) by {
                assert(forall|j: int| 0 <= j < p.len() ==> !is_break(#[trigger] p[j]));
            }
            assert(s.skip(1) =~= (p + crlf()).take(i - 1));
            lemma_parse_line_prefix(p, i - 1);
        },
        FrameSpec::Array(items) => {
            let digits = spec_digits(items.len());
            let dl = digits.len() as int;
            lemma_digits_canonical(items.len());
            lemma_digits_val(items.len());
            lemma_digits_line_ok(digits);
            lemma_digits_not_null(items.len());
            if i < 1 + dl + 2 {
                assert(s.skip(1) =~= (digits + crlf()).take(i - 1));
                lemma_parse_line_prefix(digits, i - 1);
            } else {
                let cut = i - (1 + dl + 2);
                assert(s.skip(1) =~= digits + crlf() + enc_items(items).take(cut));
                lemma_parse_line_enc(digits, enc_items(items).take(cut));
                assert(s.skip(1 + dl + 2) =~= enc_items(items).take(cut));
                lemma_items_prefix(items, cut);
            }
        },
        FrameSpec::NullArray => {
            let p = seq![45u8, 49u8];
            assert(line_ok(p)) by {
                assert(forall|j: int| 0 <= j < p.len() ==> !is_break(#[trigger] p[j]));
            }
            assert(s.skip(1) =~= (p + crlf()).take(i - 1));
            lemma_parse_line_prefix(p, i - 1);
        },
    }
}

/// A decoded or rejected frame keeps its outcome when bytes are appended.
#[verifier::rlimit(50)]
pub proof fn lemma_parse_ext(s: Seq<u8>, t: Seq<u8>)
    ensures
        parse(s) is Done ==> parse(s + t) == parse(s),
        parse(s) is Bad ==> parse(s + t) is Bad,
{
    if s.len() == 0 {
        return ;
    }
    if parse(s) is Done {
        let f = parse(s)->Done_0;
        let n = parse(s)->Done_1;
        lemma_parse_sound(s, f, n);
        assert(s + t =~= enc(f) + (s.skip(n) + t));
        lemma_round_trip(f, s.skip(n) + t);
        return ;
    }
    if parse(s) is Bad {
        assert((s + t)[0] == s[0]);
        lemma_parse_line_ext(s.skip(1), t);
        assert((s + t).skip(1) =~= s.skip(1) + t);
        if s[0] == 43 || s[0] == 45 || s[0] == 58 {
        } else if s[0] == 36 {
            lemma_bulk_item_ext(s, t);
            match parse_line(s.skip(1)) {
                LineOut::Done(p, c) => {
                    if p != seq![45u8, 49u8] && parse_bulk_item(s) is Done {
                        assert(false);
                    }
                },
                LineOut::More => {
                    assert(false);
                },
                LineOut::Bad => {},
            }
        } else if s[0] == 42 {
            match parse_line(s.skip(1)) {
                LineOut::Done(p, c) => {
                    lemma_parse_line_sound(s.skip(1), p, c);
                    if p != seq![45u8, 49u8] && canonical_nat(p) {
                        assert((s + t).skip(1 + c) =~= s.skip(1 + c) + t);
                        lemma_items_ext(s.skip(1 + c), dec_val(p), t);
                    }
                },
                LineOut::More => {
                    assert(false);
                },
                LineOut::Bad => {},
            }
        }
    }
}

/// All whole frames at the head of a byte stream, with the undecoded rest.
pub struct StreamOut {
    pub frames: Seq<FrameSpec>,
    pub rest: Seq<u8>,
    pub bad: bool,
}

/// Decode frames from the head of `s` until the bytes run out or go bad.
pub open spec fn parse_all(s: Seq<u8>) -> StreamOut
    decreases s.len(),
    via parse_all_dec
{
    match parse(s) {
        ParseOut::Done(f, n) => {
            let r = parse_all(s.skip(n));
            StreamOut { frames: seq![f] + r.frames, rest: r.rest, bad: r.bad }
        },
        ParseOut::More => StreamOut { frames: seq![], rest: s, bad: false },
        ParseOut::Bad => StreamOut { frames: seq![], rest: s, bad: true },
    }
}

#[via_fn]
proof fn parse_all_dec(s: Seq<u8>) {
    if let ParseOut::Done(f, n) = parse(s) {
        lemma_parse_sound(s, f, n);
    }
}

/// Splitting a byte stream at any point and feeding the halves in order
/// yields the same frames as feeding the whole stream at once.
pub proof fn lemma_parse_all_split(b1: Seq<u8>, b2: Seq<u8>)
    requires
        !parse_all(b1).bad,
    ensures
        parse_all(b1 + b2).frames == parse_all(b1).frames + parse_all(
            parse_all(b1).rest + b2,
        ).frames,
        parse_all(b1 + b2).rest == parse_all(parse_all(b1).rest + b2).rest,
        parse_all(b1 + b2).bad == parse_all(parse_all(b1).rest + b2).bad,
    decreases b1.len(),
{
    match parse(b1) {
        ParseOut::Done(f, n) => {
            lemma_parse_sound(b1, f, n);
            lemma_parse_ext(b1, b2);
            assert(parse(b1 + b2) == ParseOut::Done(f, n));
            assert((b1 + b2).skip(n) =~= b1.skip(n) + b2);
            lemma_parse_all_split(b1.skip(n), b2);
            assert(seq![f] + (parse_all(b1.skip(n)).frames + parse_all(
                parse_all(b1.skip(n)).rest + b2,
            ).frames) =~= (seq![f] + parse_all(b1.skip(n)).frames) + parse_all(
                parse_all(b1.skip(n)).rest + b2,
            ).frames);
        },
        ParseOut::More => {
            assert(parse_all(b1).rest == b1);
            assert(seq![] + parse_all(b1 + b2).frames =~= parse_all(b1 + b2).frames);
        },
        ParseOut::Bad => {},
    }
}

/// Frame boundary resilience: split a legal byte stream at any position
/// and feed the halves to the decoder in order (buffering the undecoded
/// rest of the first); the frames decoded are the same, in the same
/// order, as feeding the whole stream at once.
pub proof fn lemma_boundary_resilience(b: Seq<u8>, i: int)
    requires
        !parse_all(b).bad,
        0 <= i <= b.len(),
    ensures
        !parse_all(b.take(i)).bad,
        parse_all(b.take(i)).frames + parse_all(
            parse_all(b.take(i)).rest + b.skip(i),
        ).frames == parse_all(b).frames,
        parse_all(parse_all(b.take(i)).rest + b.skip(i)).rest == parse_all(b).rest,
        parse_all(parse_all(b.take(i)).rest + b.skip(i)).bad == parse_all(b).bad,
{
    lemma_parse_all_prefix_ok(b, i);
    assert(b.take(i) + b.skip(i) =~= b);
    lemma_parse_all_split(b.take(i), b.skip(i));
}

/// A prefix of a stream whose decode never goes bad does not go bad either.
pub proof fn lemma_parse_all_prefix_ok(b: Seq<u8>, i: int)
    requires
        !parse_all(b).bad,
        0 <= i <= b.len(),
    ensures
        !parse_all(b.take(i)).bad,
    decreases b.len(),
{
    match parse(b) {
        ParseOut::Done(f, n) => {
            lemma_parse_sound(b, f, n);
            if i < n {
                assert(b.take(i) =~= enc(f).take(i)) by {
                    assert(b.take(n) == enc(f));
                    assert(forall|j: int| 0 <= j < i ==> b.take(i)[j] == #[trigger] enc(f).take(
                        i,
                    )[j]);
                }
                lemma_parse_prefix(f, i);
            } else {
                assert(b.take(i) =~= enc(f) + b.skip(n).take(i - n));
                lemma_round_trip(f, b.skip(n).take(i - n));
                assert(parse(b.take(i)) == ParseOut::Done(f, n));
                assert(b.take(i).skip(n) =~= b.skip(n).take(i - n));
                lemma_parse_all_prefix_ok(b.skip(n), i - n);
            }
        },
        ParseOut::More => {
            let p = b.take(i);
            if parse(p) is Done {
                lemma_parse_ext(p, b.skip(i));
                assert(p + b.skip(i) =~= b);
                assert(false);
            }
            if parse(p) is Bad {
                lemma_parse_ext(p, b.skip(i));
                assert(p + b.skip(i) =~= b);
                assert(false);
            }
        },
        ParseOut::Bad => {},
    }
}

/// One wire frame as runtime data; commands travel as arrays of bulk
/// strings, so array elements are plain byte strings here.
pub enum Frame {
    Simple(Vec<u8>),
    Error(Vec<u8>),
    Integer(i64),
    Bulk(Vec<u8>),
    NullBulk,
    Array(Vec<Vec<u8>>),
    NullArray,
}

impl View for Frame {
    type V = FrameSpec;

    open spec fn view(&self) -> FrameSpec {
        match self {
            Frame::Simple(p) => FrameSpec::Simple(p@),
            Frame::Error(p) => FrameSpec::Error(p@),
            Frame::Integer(v) => FrameSpec::Integer(*v as int),
            Frame::Bulk(p) => FrameSpec::Bulk(p@),
            Frame::NullBulk => FrameSpec::NullBulk,
            Frame::Array(items) => FrameSpec::Array(items.deep_view()),
            Frame::NullArray => FrameSpec::NullArray,
        }
    }
}

pub proof fn lemma_enc_items_snoc(items: Seq<Seq<u8>>, p: Seq<u8>)
    ensures
        enc_items(items.push(p)) == enc_items(items) + enc_bulk(p),
    decreases items.len(),
{
    if items.len() == 0 {
        assert(items.push(p)[0] == p);
        assert(items.push(p).skip(1) =~= Seq::<Seq<u8>>::empty());
        assert(enc_items(Seq::<Seq<u8>>::empty()) == Seq::<u8>::empty());
        assert(enc_items(items.push(p)) == enc_bulk(p) + enc_items(items.push(p).skip(1)));
        assert(enc_items(items.push(p)) =~= enc_items(items) + enc_bulk(p));
    } else {
        assert(items.push(p).skip(1) =~= items.skip(1).push(p));
        lemma_enc_items_snoc(items.skip(1), p);
        assert(items.push(p)[0] == items[0]);
        assert(enc_items(items.push(p)) == enc_bulk(items[0]) + (enc_items(items.skip(1))
            + enc_bulk(p)));
        assert(enc_items(items) + enc_bulk(p) == (enc_bulk(items[0]) + enc_items(items.skip(1)))
            + enc_bulk(p));
        assert(enc_bulk(items[0]) + (enc_items(items.skip(1)) + enc_bulk(p)) =~= (enc_bulk(
            items[0],
        ) + enc_items(items.skip(1))) + enc_bulk(p));
    }
}

/// Append a copy of `src` to `dst`.
pub fn push_bytes(dst: &mut Vec<u8>, src: &[u8])
    ensures
        final(dst)@ == old(dst)@ + src@,
{
    let mut i: usize = 0;
    while i < src.len()
        invariant
            i <= src.len(),
            dst@ == old(dst)@ + src@.take(i as int),
        decreases src.len() - i,
    {
        let b = *vstd::slice::slice_index_get(src, i);
        dst.push(b);
        assert(src@.take(i + 1) =~= src@.take(i as int).push(src@[i as int]));
        assert(dst@ =~= old(dst)@ + src@.take(i + 1));
        i = i + 1;
    }
    assert(src@.take(src@.len() as int) =~= src@);
}

fn push_crlf(dst: &mut Vec<u8>)
    ensures
        final(dst)@ == old(dst)@ + crlf(),
{
    dst.push(13);
    dst.push(10);
    assert(dst@ =~= old(dst)@ + crlf());
}

/// Encode a simple string: `+<payload>\r\n`.
pub fn encode_simple_string(payload: &[u8]) -> (r: Vec<u8>)
    requires
        line_ok(payload@),
    ensures
        r@ == enc(FrameSpec::Simple(payload@)),
{
    let mut out: Vec<u8> = Vec::new();
    out.push(43);
    push_bytes(&mut out, payload);
    push_crlf(&mut out);
    assert(out@ =~= enc(FrameSpec::Simple(payload@)));
    out
}

/// Encode an error string: `-<payload>\r\n`.
pub fn encode_error_string(payload: &[u8]) -> (r: Vec<u8>)
    requires
        line_ok(payload@),
    ensures
        r@ == enc(FrameSpec::Error(payload@)),
{
    let mut out: Vec<u8> = Vec::new();
    out.push(45);
    push_bytes(&mut out, payload);
    push_crlf(&mut out);
    assert(out@ =~= enc(FrameSpec::Error(payload@)));
    out
}

/// Encode an integer: `:<decimal>\r\n`.
pub fn encode_integer(v: i64) -> (r: Vec<u8>)
    ensures
        r@ == enc(FrameSpec::Integer(v as int)),
{
    let mut out: Vec<u8> = Vec::new();
    out.push(58);
    if v >= 0 {
        let digits = u64_to_decimal(v as u64);
        push_bytes(&mut out, digits.as_slice());
    } else {
        out.push(45);
        let m: u64 = if v == i64::MIN {
            9223372036854775808u64
        } else {
            (-v) as u64
        };
        assert(m as nat == (-(v as int)) as nat);
        let digits = u64_to_decimal(m);
        push_bytes(&mut out, digits.as_slice());
        assert(seq![58u8] + (seq![45u8] + spec_digits(m as nat)) =~= seq![58u8] + int_repr(
            v as int,
        ));
    }
    push_crlf(&mut out);
    assert(out@ =~= enc(FrameSpec::Integer(v as int)));
    out
}

/// Encode a bulk string: `$<len>\r\n<payload>\r\n`.
pub fn encode_resp_bulk_string(payload: &[u8]) -> (r: Vec<u8>)
    ensures
        r@ == enc_bulk(payload@),
        r@ == enc(FrameSpec::Bulk(payload@)),
{
    let mut out: Vec<u8> = Vec::new();
    out.push(36);
    let digits = u64_to_decimal(payload.len() as u64);
    push_bytes(&mut out, digits.as_slice());
    push_crlf(&mut out);
    push_bytes(&mut out, payload);
    push_crlf(&mut out);
    assert(out@ =~= enc_bulk(payload@));
    out
}

/// Encode the null bulk string `$-1\r\n`.
pub fn encode_null_bulk() -> (r: Vec<u8>)
    ensures
        r@ == enc(FrameSpec::NullBulk),
{
    let mut out: Vec<u8> = Vec::new();
    out.push(36);
    out.push(45);
    out.push(49);
    out.push(13);
    out.push(10);
    assert(out@ =~= enc(FrameSpec::NullBulk));
    out
}

/// Encode the null array `*-1\r\n`.
pub fn encode_null_array() -> (r: Vec<u8>)
    ensures
        r@ == enc(FrameSpec::NullArray),
{
    let mut out: Vec<u8> = Vec::new();
    out.push(42);
    out.push(45);
    out.push(49);
    out.push(13);
    out.push(10);
    assert(out@ =~= enc(FrameSpec::NullArray));
    out
}

/// Encode an array of bulk strings: `*<n>\r\n` then each item in turn.
pub fn encode_resp_array(items: &Vec<Vec<u8>>) -> (r: Vec<u8>)
    ensures
        r@ == enc(FrameSpec::Array(items.deep_view())),
{
    let mut out: Vec<u8> = Vec::new();
    out.push(42);
    let digits = u64_to_decimal(items.len() as u64);
    push_bytes(&mut out, digits.as_slice());
    push_crlf(&mut out);
    assert(items.deep_view().len() == items.len()) by {
        assert(items.deep_view().len() == items@.map_values(|v: Vec<u8>| v.deep_view()).len());
    }
    let head: Ghost<Seq<u8>> = Ghost(out@);
    let mut i: usize = 0;
    while i < items.len()
        invariant
            i <= items.len(),
            items.deep_view().len() == items@.len(),
            forall|j: int| 0 <= j < items@.len() ==> items.deep_view()[j] == #[trigger] items@[j]@,
            out@ == head@ + enc_items(items.deep_view().take(i as int)),
            head@ == seq![42u8] + spec_digits(items@.len() as nat) + crlf(),
        decreases items.len() - i,
    {
        let piece = encode_resp_bulk_string(items[i].as_slice());
        push_bytes(&mut out, piece.as_slice());
        proof {
            let dv = items.deep_view();
            assert(dv.take(i + 1) =~= dv.take(i as int).push(dv[i as int]));
            lemma_enc_items_snoc(dv.take(i as int), dv[i as int]);
            assert(out@ =~= head@ + enc_items(dv.take(i + 1)));
        }
        i = i + 1;
    }
    proof {
        let dv = items.deep_view();
        assert(dv.take(dv.len() as int) =~= dv);
        assert(out@ =~= enc(FrameSpec::Array(dv)));
    }
    out
}

} // verus!
