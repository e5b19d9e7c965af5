//! Small text primitives shared by the parsers and the ids: ASCII decimal numbers (printing and
//! Rust-style parsing), UTF-8 decoding of byte runs, and lower-case hex.

use vstd::prelude::*;
use vstd::string::StrSliceExecFns;
use vstd::utf8::{decode_utf8, encode_utf8, valid_utf8};

verus! {

/// The ASCII byte of decimal digit `d`.
pub open spec fn digit_byte(d: int) -> u8 {
    (48 + d) as u8
}

/// Whether byte `b` is an ASCII decimal digit.
pub open spec fn is_digit(b: u8) -> bool {
    48 <= b <= 57
}

/// Shortest decimal rendering of `n` (no sign, no leading zeros; `0` is `"0"`).
pub open spec fn dec_nat(n: nat) -> Seq<u8>
    decreases n,
{
    if n < 10 {
        seq![digit_byte(n as int)]
    } else {
        dec_nat(n / 10).push(digit_byte((n % 10) as int))
    }
}

/// Decimal rendering of a signed value, `-` before negatives (what `{}` formatting prints).
pub open spec fn dec_int(x: int) -> Seq<u8> {
    if x < 0 {
        seq![45u8] + dec_nat((-x) as nat)
    } else {
        dec_nat(x as nat)
    }
}

/// Value of a run of ASCII digits (most significant first).
pub open spec fn digits_val(s: Seq<u8>) -> nat
    decreases s.len(),
{
    if s.len() == 0 {
        0
    } else {
        10 * digits_val(s.drop_last()) + ((s.last() - 48) as nat)
    }
}

/// Whether `s` is a non-empty run of ASCII digits.
pub open spec fn all_digits(s: Seq<u8>) -> bool {
    s.len() > 0 && forall|i: int| 0 <= i < s.len() ==> is_digit(#[trigger] s[i])
}

/// Rust's unsigned parse of `s` with upper bound `max`: an optional `+`, then one or more
/// ASCII digits, whose value must not exceed `max`.
pub open spec fn parse_unsigned(s: Seq<u8>, max: nat) -> Option<nat> {
    let body = if s.len() > 0 && s[0] == 43u8 { s.skip(1) } else { s };
    if all_digits(body) && digits_val(body) <= max {
        Some(digits_val(body))
    } else {
        None
    }
}

/// Rust's `i64` parse of `s`: an optional `+` or `-`, then one or more ASCII digits, whose
/// signed value must lie within `i64`.
pub open spec fn parse_i64_spec(s: Seq<u8>) -> Option<int> {
    if s.len() > 0 && s[0] == 45u8 {
        let body = s.skip(1);
        if all_digits(body) && digits_val(body) <= 0x8000_0000_0000_0000 {
            Some(-(digits_val(body) as int))
        } else {
            None
        }
    } else {
        match parse_unsigned(s, 0x7fff_ffff_ffff_ffff) {
            Some(v) => Some(v as int),
            None => None,
        }
    }
}

pub proof fn lemma_dec_nat_digits(n: nat)
    ensures
        all_digits(dec_nat(n)),
        digits_val(dec_nat(n)) == n,
        dec_nat(n).len() >= 1,
        dec_nat(n)[0] != 45u8,
        dec_nat(n)[0] != 43u8,
    decreases n,
{
    if n < 10 {
        reveal_with_fuel(digits_val, 2);
        assert(dec_nat(n).drop_last() =~= Seq::<u8>::empty());
    } else {
        lemma_dec_nat_digits(n / 10);
        let s = dec_nat(n);
        assert(s.drop_last() =~= dec_nat(n / 10));
        assert forall|i: int| 0 <= i < s.len() implies is_digit(#[trigger] s[i]) by {
            if i < s.len() - 1 {
                assert(s[i] == dec_nat(n / 10)[i]);
            }
        }
        assert(s[0] == dec_nat(n / 10)[0]);
    }
}

/// Parsing a printed unsigned value gives it back.
pub proof fn lemma_parse_dec_nat(n: nat, max: nat)
    requires
        n <= max,
    ensures
        parse_unsigned(dec_nat(n), max) == Some(n),
{
    lemma_dec_nat_digits(n);
}

/// Parsing a printed `i64` gives it back.
pub proof fn lemma_parse_dec_int(x: int)
    requires
        -0x8000_0000_0000_0000 <= x <= 0x7fff_ffff_ffff_ffff,
    ensures
        parse_i64_spec(dec_int(x)) == Some(x),
{
    if x < 0 {
        lemma_dec_nat_digits((-x) as nat);
        let s = dec_int(x);
        assert(s.skip(1) =~= dec_nat((-x) as nat));
    } else {
        lemma_dec_nat_digits(x as nat);
    }
}

/// Append the decimal rendering of `n`.
pub fn push_dec_u64(out: &mut Vec<u8>, n: u64)
    ensures
        final(out)@ == old(out)@ + dec_nat(n as nat),
    decreases n,
{
    if n >= 10 {
        push_dec_u64(out, n / 10);
    }
    let d: u8 = (n % 10) as u8;
    out.push(48u8 + d);
    proof {
        if n >= 10 {
            assert(old(out)@ + dec_nat(n as nat) =~= old(out)@ + dec_nat((n / 10) as nat) + seq![
                digit_byte((n % 10) as int),
            ]);
        } else {
            assert(old(out)@ + dec_nat(n as nat) =~= old(out)@.push(digit_byte(n as int)));
        }
    }
}

/// Append the decimal rendering of `x` (`-` before negatives).
pub fn push_dec_i64(out: &mut Vec<u8>, x: i64)
    ensures
        final(out)@ == old(out)@ + dec_int(x as int),
{
    if x < 0 {
        out.push(45u8);
        let mag: u64 = ((-(x + 1)) as u64) + 1;
        push_dec_u64(out, mag);
        assert(old(out)@ + dec_int(x as int) =~= old(out)@.push(45u8) + dec_nat(mag as nat));
    } else {
        push_dec_u64(out, x as u64);
    }
}

/// The value of the digit run `s[from..to]` when it is a non-empty run of ASCII digits whose
/// value does not exceed `max`.
fn digits_at(s: &[u8], from: usize, to: usize, max: u64) -> (r: Option<u64>)
    requires
        from <= to <= s.len(),
    ensures
        match r {
            Some(v) => all_digits(s@.subrange(from as int, to as int)) && digits_val(
                s@.subrange(from as int, to as int),
            ) <= max && v as nat == digits_val(s@.subrange(from as int, to as int)),
            None => !(all_digits(s@.subrange(from as int, to as int)) && digits_val(
                s@.subrange(from as int, to as int),
            ) <= max),
        },
{
    let ghost body = s@.subrange(from as int, to as int);
    if from >= to {
        return None;
    }
    let mut v: u64 = 0;
    let mut i: usize = from;
    assert(s@.subrange(from as int, from as int) =~= Seq::<u8>::empty());
    while i < to
        invariant
            from <= i <= to <= s.len(),
            body == s@.subrange(from as int, to as int),
            v as nat == digits_val(s@.subrange(from as int, i as int)),
            v <= max,
            forall|k: int| from <= k < i ==> is_digit(#[trigger] s@[k]),
        decreases to - i,
    {
        let b = s[i];
        if b < 48 || b > 57 {
            proof {
                assert(body[i - from] == b);
                assert(!is_digit(body[i - from]));
            }
            return None;
        }
        let d: u64 = (b - 48) as u64;
        proof {
            let pre = s@.subrange(from as int, i + 1);
            assert(pre.drop_last() =~= s@.subrange(from as int, i as int));
            assert(pre.last() == b);
            assert(digits_val(pre) == 10 * v + d);
        }
        if d > max || v > (max - d) / 10 {
            proof {
                assert(10 * v + d > max) by (nonlinear_arith)
                    requires
                        d > max || v > (max - d) / 10,
                        d <= 9,
                ;
                if forall|k: int| from <= k < to ==> is_digit(#[trigger] s@[k]) {
                    lemma_digits_grow(s@, from as int, i + 1, to as int);
                    assert(s@.subrange(from as int, to as int) == body);
                } else {
                    let k = choose|k: int| from <= k < to && !is_digit(#[trigger] s@[k]);
                    assert(body[k - from] == s@[k]);
                }
            }
            return None;
        }
        proof {
            assert(10 * v + d <= max) by (nonlinear_arith)
                requires
                    v <= (max - d) / 10,
                    d <= max,
                    d <= 9,
            ;
        }
        v = 10 * v + d;
        i = i + 1;
    }
    proof {
        assert forall|k: int| 0 <= k < body.len() implies is_digit(#[trigger] body[k]) by {
            assert(body[k] == s@[from + k]);
        }
    }
    Some(v)
}

/// Parse `s[from..to]` as an unsigned value no greater than `max`, Rust-style.
pub fn parse_unsigned_at(s: &[u8], from: usize, to: usize, max: u64) -> (r: Option<u64>)
    requires
        from <= to <= s.len(),
    ensures
        match r {
            Some(v) => parse_unsigned(s@.subrange(from as int, to as int), max as nat) == Some(v as nat),
            None => parse_unsigned(s@.subrange(from as int, to as int), max as nat) is None,
        },
{
    let ghost whole = s@.subrange(from as int, to as int);
    let start: usize = if from < to && s[from] == 43u8 { from + 1 } else { from };
    proof {
        if from < to && s[from as int] == 43u8 {
            assert(whole.skip(1) =~= s@.subrange(start as int, to as int));
        } else {
            assert(whole =~= s@.subrange(start as int, to as int));
        }
    }
    digits_at(s, start, to, max)
}

/// The value of a digit run never shrinks as the run extends.
proof fn lemma_digits_grow(s: Seq<u8>, start: int, i: int, to: int)
    requires
        0 <= start <= i <= to <= s.len(),
        forall|k: int| start <= k < to ==> is_digit(#[trigger] s[k]),
    ensures
        digits_val(s.subrange(start, i)) <= digits_val(s.subrange(start, to)),
    decreases to - i,
{
    if i < to {
        lemma_digits_grow(s, start, i + 1, to);
        let pre = s.subrange(start, i + 1);
        assert(pre.drop_last() =~= s.subrange(start, i));
    }
}

/// Parse `s[from..to]` as an `i64`, Rust-style.
pub fn parse_i64_at(s: &[u8], from: usize, to: usize) -> (r: Option<i64>)
    requires
        from <= to <= s.len(),
    ensures
        match r {
            Some(v) => parse_i64_spec(s@.subrange(from as int, to as int)) == Some(v as int),
            None => parse_i64_spec(s@.subrange(from as int, to as int)) is None,
        },
{
    let ghost whole = s@.subrange(from as int, to as int);
    if from < to && s[from] == 45u8 {
        proof {
            assert(whole.skip(1) =~= s@.subrange(from + 1, to as int));
        }
        match digits_at(s, from + 1, to, 0x8000_0000_0000_0000u64) {
            Some(v) => {
                if v == 0x8000_0000_0000_0000u64 {
                    Some(i64::MIN)
                } else {
                    Some(-(v as i64))
                }
            },
            None => None,
        }
    } else {
        match parse_unsigned_at(s, from, to, 0x7fff_ffff_ffff_ffffu64) {
            Some(v) => Some(v as i64),
            None => None,
        }
    }
}

/// `std::str::from_utf8`: the text of `b` when it is valid UTF-8.
#[verifier::external_body]
pub(crate) fn str_from_utf8(b: &[u8]) -> (r: Option<&str>)
    ensures
        r is Some <==> valid_utf8(b@),
        r matches Some(s) ==> s@ == decode_utf8(b@),
{
    std::str::from_utf8(b).ok()
}

/// The text of `b[from..to]` as an owned string, when those bytes are valid UTF-8.
pub fn utf8_string(b: &[u8], from: usize, to: usize) -> (r: Option<String>)
    requires
        from <= to <= b.len(),
    ensures
        r is Some <==> valid_utf8(b@.subrange(from as int, to as int)),
        r matches Some(s) ==> s@ == decode_utf8(b@.subrange(from as int, to as int)),
{
    let part = &b[from..to];
    assert(part@ =~= b@.subrange(from as int, to as int));
    match str_from_utf8(part) {
        Some(s) => Some(s.to_owned()),
        None => None,
    }
}


/// The characters of `s`, in order.
pub fn chars_of(s: &str) -> (v: Vec<char>)
    ensures
        v@ == s@,
{
    broadcast use vstd::string::axiom_spec_iter;

    let mut v: Vec<char> = Vec::new();
    for c in it: s.chars()
        invariant
            it.seq() == s@,
            v@ == s@.take(it.index() as int),
    {
        v.push(c);
        assert(v@ =~= s@.take(it.index() + 1));
    }
    assert(v@ =~= s@);
    v
}


/// Append all of `s` to `out`.
pub fn push_all(out: &mut Vec<u8>, s: &[u8])
    ensures
        final(out)@ == old(out)@ + s@,
{
    let mut i: usize = 0;
    while i < s.len()
        invariant
            i <= s.len(),
            out@ == old(out)@ + s@.subrange(0, i as int),
        decreases s.len() - i,
    {
        out.push(s[i]);
        proof {
            assert(s@.subrange(0, i + 1) =~= s@.subrange(0, i as int).push(s[i as int]));
        }
        i = i + 1;
    }
    assert(s@.subrange(0, s@.len() as int) =~= s@);
}


/// Byte-wise lexicographic order, the order of `str` and `String`.
pub open spec fn lex_less(a: Seq<u8>, b: Seq<u8>) -> bool
    decreases a.len(),
{
    if a.len() == 0 {
        b.len() > 0
    } else if b.len() == 0 {
        false
    } else if a[0] != b[0] {
        a[0] < b[0]
    } else {
        lex_less(a.skip(1), b.skip(1))
    }
}

/// The order of texts: by their UTF-8 bytes.
pub open spec fn text_less(a: Seq<char>, b: Seq<char>) -> bool {
    lex_less(encode_utf8(a), encode_utf8(b))
}

pub proof fn lemma_lex_irreflexive(a: Seq<u8>)
    ensures
        !lex_less(a, a),
    decreases a.len(),
{
    if a.len() > 0 {
        lemma_lex_irreflexive(a.skip(1));
    }
}

pub proof fn lemma_lex_transitive(a: Seq<u8>, b: Seq<u8>, c: Seq<u8>)
    requires
        lex_less(a, b),
        lex_less(b, c),
    ensures
        lex_less(a, c),
    decreases a.len(),
{
    if a.len() > 0 && b.len() > 0 && c.len() > 0 && a[0] == b[0] && b[0] == c[0] {
        lemma_lex_transitive(a.skip(1), b.skip(1), c.skip(1));
    }
}

pub proof fn lemma_lex_total(a: Seq<u8>, b: Seq<u8>)
    ensures
        a == b || lex_less(a, b) || lex_less(b, a),
    decreases a.len(),
{
    if a.len() > 0 && b.len() > 0 && a[0] == b[0] {
        lemma_lex_total(a.skip(1), b.skip(1));
        if a.skip(1) == b.skip(1) {
            assert(a =~= seq![a[0]] + a.skip(1));
            assert(b =~= seq![b[0]] + b.skip(1));
        }
    } else if a.len() == 0 && b.len() == 0 {
        assert(a =~= b);
    }
}

pub proof fn lemma_lex_asymmetric(a: Seq<u8>, b: Seq<u8>)
    requires
        lex_less(a, b),
    ensures
        !lex_less(b, a),
{
    if lex_less(b, a) {
        lemma_lex_transitive(a, b, a);
        lemma_lex_irreflexive(a);
    }
}

/// Distinct texts are ordered one way or the other.
pub proof fn lemma_text_total(a: Seq<char>, b: Seq<char>)
    ensures
        a == b || text_less(a, b) || text_less(b, a),
{
    lemma_lex_total(encode_utf8(a), encode_utf8(b));
    vstd::utf8::encode_utf8_decode_utf8(a);
    vstd::utf8::encode_utf8_decode_utf8(b);
}

/// Whether `a` sorts before `b`, byte-wise.
pub fn bytes_less(a: &[u8], b: &[u8]) -> (r: bool)
    ensures
        r == lex_less(a@, b@),
{
    let mut i: usize = 0;
    assert(a@.skip(0) =~= a@ && b@.skip(0) =~= b@);
    while i < a.len() && i < b.len()
        invariant
            i <= a.len(),
            i <= b.len(),
            lex_less(a@, b@) == lex_less(a@.skip(i as int), b@.skip(i as int)),
        decreases a.len() - i,
    {
        if a[i] != b[i] {
            return a[i] < b[i];
        }
        assert(a@.skip(i as int).skip(1) =~= a@.skip(i + 1));
        assert(b@.skip(i as int).skip(1) =~= b@.skip(i + 1));
        i = i + 1;
    }
    a.len() < b.len()
}

/// Whether text `a` sorts before text `b` (the order of `String`).
pub fn str_less(a: &str, b: &str) -> (r: bool)
    ensures
        r == text_less(a@, b@),
{
    bytes_less(a.as_bytes(), b.as_bytes())
}

/// Whether two texts are equal.
pub fn str_eq(a: &str, b: &str) -> (r: bool)
    ensures
        r == (a@ == b@),
{
    let x = a.as_bytes();
    let y = b.as_bytes();
    if x.len() != y.len() {
        return false;
    }
    let mut i: usize = 0;
    while i < x.len()
        invariant
            i <= x.len() == y.len(),
            x@ == encode_utf8(a@),
            y@ == encode_utf8(b@),
            forall|k: int| 0 <= k < i ==> x@[k] == y@[k],
        decreases x.len() - i,
    {
        if x[i] != y[i] {
            return false;
        }
        i = i + 1;
    }
    assert(x@ =~= y@);
    proof {
        vstd::utf8::encode_utf8_decode_utf8(a@);
        vstd::utf8::encode_utf8_decode_utf8(b@);
    }
    true
}


/// Only the empty text has an empty encoding.
pub proof fn lemma_encode_empty(s: Seq<char>)
    ensures
        (encode_utf8(s).len() == 0) == (s.len() == 0),
{
    if s.len() > 0 {
        let e = vstd::utf8::encode_scalar(s[0] as u32);
        assert(e.len() >= 1);
        assert(encode_utf8(s) == e + encode_utf8(s.drop_first()));
    }
}


/// The characters of ASCII bytes.
pub open spec fn ascii_chars(b: Seq<u8>) -> Seq<char> {
    b.map_values(|x: u8| x as char)
}

/// Whether every byte of `s` is ASCII.
pub open spec fn all_ascii(s: Seq<u8>) -> bool {
    forall|i: int| 0 <= i < s.len() ==> #[trigger] s[i] < 128
}

/// ASCII bytes are valid UTF-8.
pub proof fn lemma_ascii_valid(s: Seq<u8>)
    requires
        all_ascii(s),
    ensures
        valid_utf8(s),
{
    assert(s.subrange(0, 0) =~= Seq::<u8>::empty());
    assert forall|i: int| 0 <= 0 <= i < s.len() <= s.len() implies
        #[trigger] vstd::utf8::is_leading_byte_width_1(s[i]) by {}
    vstd::utf8::partial_valid_utf8_extend_ascii_block(s, 0, s.len() as int);
    assert(s.subrange(0, s.len() as int) =~= s);
}

/// ASCII bytes decode to the characters of the same codes.
pub proof fn lemma_ascii_decode(s: Seq<u8>)
    requires
        all_ascii(s),
    ensures
        valid_utf8(s),
        decode_utf8(s) == ascii_chars(s),
    decreases s.len(),
{
    lemma_ascii_valid(s);
    if s.len() > 0 {
        let b = s[0];
        assert(vstd::utf8::leading_bits_width_1(b) == b as u32) by (bit_vector)
            requires
                b < 128,
        ;
        let rest = s.skip(1);
        assert(vstd::utf8::pop_first_scalar(s) =~= rest);
        lemma_ascii_decode(rest);
        assert(decode_utf8(s) =~= ascii_chars(s));
    }
}

/// The text of ASCII bytes.
pub fn ascii_string(b: &[u8]) -> (s: String)
    requires
        all_ascii(b@),
    ensures
        s@ == ascii_chars(b@),
{
    proof {
        lemma_ascii_decode(b@);
    }
    match str_from_utf8(b) {
        Some(t) => t.to_owned(),
        None => String::new(),
    }
}


/// The lower-case hex digit of `v` (`0..16`), as an ASCII byte.
pub open spec fn hex_digit(v: int) -> u8 {
    if v < 10 {
        (48 + v) as u8
    } else {
        (87 + v) as u8
    }
}

/// Two lower-case hex digits per byte, as ASCII bytes.
pub open spec fn hex_ascii(b: Seq<u8>) -> Seq<u8>
    decreases b.len(),
{
    if b.len() == 0 {
        seq![]
    } else {
        hex_ascii(b.drop_last()) + seq![
            hex_digit((b.last() / 16) as int),
            hex_digit((b.last() % 16) as int),
        ]
    }
}

/// The hex of a prefix is the prefix of the hex.
pub proof fn lemma_hex_prefix(b: Seq<u8>, k: int)
    requires
        0 <= k <= b.len(),
    ensures
        hex_ascii(b.take(k)) == hex_ascii(b).take(2 * k),
    decreases b.len(),
{
    lemma_hex_ascii(b);
    if k == b.len() {
        assert(b.take(k) =~= b);
        assert(hex_ascii(b).take(2 * k) =~= hex_ascii(b));
    } else {
        let p = b.drop_last();
        lemma_hex_prefix(p, k);
        lemma_hex_ascii(p);
        assert(p.take(k) =~= b.take(k));
        assert(hex_ascii(b).take(2 * k) =~= hex_ascii(p).take(2 * k));
    }
}

pub proof fn lemma_hex_ascii(b: Seq<u8>)
    ensures
        all_ascii(hex_ascii(b)),
        hex_ascii(b).len() == 2 * b.len(),
    decreases b.len(),
{
    if b.len() > 0 {
        lemma_hex_ascii(b.drop_last());
        let h = hex_ascii(b);
        let p = hex_ascii(b.drop_last());
        assert forall|i: int| 0 <= i < h.len() implies #[trigger] h[i] < 128 by {
            if i < p.len() {
                assert(h[i] == p[i]);
            }
        }
    }
}

/// Lower-case hex of `b`, two digits per byte.
pub fn hex(b: &[u8]) -> (s: String)
    ensures
        s@ == ascii_chars(hex_ascii(b@)),
        s@.len() == 2 * b@.len(),
{
    let mut out: Vec<u8> = Vec::new();
    let mut i: usize = 0;
    assert(b@.take(0) =~= Seq::<u8>::empty());
    while i < b.len()
        invariant
            i <= b.len(),
            out@ == hex_ascii(b@.take(i as int)),
        decreases b.len() - i,
    {
        let hi: u8 = b[i] / 16;
        let lo: u8 = b[i] % 16;
        out.push(if hi < 10 { 48 + hi } else { 87 + hi });
        out.push(if lo < 10 { 48 + lo } else { 87 + lo });
        assert(b@.take(i + 1).drop_last() =~= b@.take(i as int));
        assert(b@.take(i + 1).last() == b[i as int]);
        assert(out@ =~= hex_ascii(b@.take(i + 1)));
        i = i + 1;
    }
    assert(b@.take(b.len() as int) =~= b@);
    proof {
        lemma_hex_ascii(b@);
    }
    ascii_string(out.as_slice())
}

/// Unicode `White_Space`, what `str::trim` strips.
pub open spec fn is_white_space(c: char) -> bool {
    let u = c as u32;
    (0x9 <= u <= 0xd) || u == 0x20 || u == 0x85 || u == 0xa0 || u == 0x1680 || (0x2000 <= u
        <= 0x200a) || u == 0x2028 || u == 0x2029 || u == 0x202f || u == 0x205f || u == 0x3000
}

/// `s` without its leading white space.
pub open spec fn trim_start(s: Seq<char>) -> Seq<char>
    decreases s.len(),
{
    if s.len() > 0 && is_white_space(s[0]) {
        trim_start(s.skip(1))
    } else {
        s
    }
}

/// `s` without its trailing white space.
pub open spec fn trim_end(s: Seq<char>) -> Seq<char>
    decreases s.len(),
{
    if s.len() > 0 && is_white_space(s.last()) {
        trim_end(s.drop_last())
    } else {
        s
    }
}

/// Whether `c` is Unicode white space.
pub fn white_space(c: char) -> (r: bool)
    ensures
        r == is_white_space(c),
{
    let u = c as u32;
    (0x9 <= u && u <= 0xd) || u == 0x20 || u == 0x85 || u == 0xa0 || u == 0x1680 || (0x2000 <= u
        && u <= 0x200a) || u == 0x2028 || u == 0x2029 || u == 0x202f || u == 0x205f || u == 0x3000
}

pub proof fn lemma_trim_start(s: Seq<char>, a: int)
    requires
        0 <= a <= s.len(),
        forall|i: int| 0 <= i < a ==> is_white_space(#[trigger] s[i]),
        a == s.len() || !is_white_space(s[a]),
    ensures
        trim_start(s) == s.skip(a),
    decreases a,
{
    if a == 0 {
        assert(s.skip(0) =~= s);
    } else {
        let t = s.skip(1);
        assert forall|i: int| 0 <= i < a - 1 implies is_white_space(#[trigger] t[i]) by {
            assert(t[i] == s[i + 1]);
        }
        if a - 1 < t.len() {
            assert(t[a - 1] == s[a]);
        }
        lemma_trim_start(t, a - 1);
        assert(t.skip(a - 1) =~= s.skip(a));
    }
}

pub proof fn lemma_trim_end(s: Seq<char>, b: int)
    requires
        0 <= b <= s.len(),
        forall|i: int| b <= i < s.len() ==> is_white_space(#[trigger] s[i]),
        b == 0 || !is_white_space(s[b - 1]),
    ensures
        trim_end(s) == s.take(b),
    decreases s.len() - b,
{
    if b == s.len() {
        assert(s.take(b) =~= s);
    } else {
        let t = s.drop_last();
        assert forall|i: int| b <= i < t.len() implies is_white_space(#[trigger] t[i]) by {
            assert(t[i] == s[i]);
        }
        if b > 0 {
            assert(t[b - 1] == s[b - 1]);
        }
        lemma_trim_end(t, b);
        assert(t.take(b) =~= s.take(b));
    }
}

/// The bounds `(a, b)` of `s` without its leading and trailing white space.
pub fn trim_range(s: &[char]) -> (r: (usize, usize))
    ensures
        r.0 <= r.1 <= s@.len(),
        trim_end(trim_start(s@)) == s@.subrange(r.0 as int, r.1 as int),
{
    let n = s.len();
    let mut a: usize = 0;
    while a < n && white_space(s[a])
        invariant
            a <= n == s@.len(),
            forall|i: int| 0 <= i < a ==> is_white_space(#[trigger] s@[i]),
        decreases n - a,
    {
        a = a + 1;
    }
    let mut b: usize = n;
    while b > a && white_space(s[b - 1])
        invariant
            a <= b <= n == s@.len(),
            forall|i: int| b <= i < n ==> is_white_space(#[trigger] s@[i]),
        decreases b,
    {
        b = b - 1;
    }
    proof {
        let s1 = s@.skip(a as int);
        lemma_trim_start(s@, a as int);
        assert forall|i: int| b - a <= i < s1.len() implies is_white_space(#[trigger] s1[i]) by {
            assert(s1[i] == s@[a + i]);
        }
        if b > a {
            assert(s1[b - a - 1] == s@[b - 1]);
        }
        lemma_trim_end(s1, b - a);
        assert(s1.take(b - a) =~= s@.subrange(a as int, b as int));
    }
    (a, b)
}

/// `s` without its leading and trailing white space.
pub fn trim_text(s: &str) -> (r: &str)
    ensures
        r@ == trim_end(trim_start(s@)),
{
    let chars = chars_of(s);
    let (a, b) = trim_range(chars.as_slice());
    s.substring_char(a, b)
}


/// `n` in decimal, zero-padded on the left to at least `w` digits.
pub open spec fn padded(n: nat, w: nat) -> Seq<u8> {
    let d = dec_nat(n);
    if d.len() < w {
        Seq::new((w - d.len()) as nat, |i: int| 48u8) + d
    } else {
        d
    }
}

/// Append `n` in decimal, zero-padded on the left to at least `w` digits.
pub fn push_padded(out: &mut Vec<u8>, n: u64, w: usize)
    ensures
        final(out)@ == old(out)@ + padded(n as nat, w as nat),
{
    let mut d: Vec<u8> = Vec::new();
    push_dec_u64(&mut d, n);
    assert(d@ =~= dec_nat(n as nat));
    let ghost start = out@;
    if d.len() < w {
        let mut k: usize = d.len();
        while k < w
            invariant
                d.len() <= k <= w,
                out@ == start + Seq::new((k - d.len()) as nat, |i: int| 48u8),
            decreases w - k,
        {
            out.push(48u8);
            assert(Seq::new((k + 1 - d.len()) as nat, |i: int| 48u8) =~= Seq::new(
                (k - d.len()) as nat,
                |i: int| 48u8,
            ).push(48u8));
            k = k + 1;
        }
    }
    push_all(out, d.as_slice());
    assert(out@ =~= start + padded(n as nat, w as nat));
}


/// Joining ASCII bytes gives ASCII bytes.
pub proof fn lemma_all_ascii_concat(a: Seq<u8>, b: Seq<u8>)
    requires
        all_ascii(a),
        all_ascii(b),
    ensures
        all_ascii(a + b),
{
    assert forall|i: int| 0 <= i < (a + b).len() implies #[trigger] (a + b)[i] < 128 by {
        if i >= a.len() {
            assert((a + b)[i] == b[i - a.len()]);
        }
    }
}

/// Padded numbers are ASCII.
pub proof fn lemma_padded_ascii(n: nat, w: nat)
    ensures
        all_ascii(padded(n, w)),
{
    lemma_dec_nat_digits(n);
    let d = dec_nat(n);
    assert(all_ascii(d));
    if d.len() < w {
        lemma_all_ascii_concat(Seq::new((w - d.len()) as nat, |i: int| 48u8), d);
    }
}


/// `char::from_u32`: the character of a Unicode scalar value; `None` for a surrogate or a
/// value past `U+10FFFF`.
#[verifier::external_body]
pub(crate) fn char_from_u32(v: u32) -> (r: Option<char>)
    ensures
        (v < 0xD800 || (0xE000 <= v <= 0x10FFFF)) ==> r == Some(v as char),
        !(v < 0xD800 || (0xE000 <= v <= 0x10FFFF)) ==> r is None,
{
    char::from_u32(v)
}

/// `String`'s `FromIterator<char>`: the text of these characters, in order.
#[verifier::external_body]
pub(crate) fn string_of_chars(cs: &[char]) -> (s: String)
    ensures
        s@ == cs@,
{
    cs.iter().collect()
}


/// Whether every character of `s` is ASCII.
pub open spec fn ascii_text(s: Seq<char>) -> bool {
    forall|i: int| 0 <= i < s.len() ==> (#[trigger] s[i] as u32) < 128
}

/// The bytes of ASCII characters.
pub open spec fn ascii_of(s: Seq<char>) -> Seq<u8> {
    s.map_values(|c: char| (c as u32) as u8)
}

/// The bytes of `s` when every character is ASCII.
pub fn ascii_bytes_of(s: &[char]) -> (r: Option<Vec<u8>>)
    ensures
        match r {
            Some(v) => ascii_text(s@) && v@ == ascii_of(s@),
            None => !ascii_text(s@),
        },
{
    let mut v: Vec<u8> = Vec::new();
    let mut k: usize = 0;
    while k < s.len()
        invariant
            k <= s.len(),
            v@.len() == k,
            forall|j: int| 0 <= j < k ==> (#[trigger] s@[j] as u32) < 128 && v@[j] == (s@[j] as u32) as u8,
        decreases s.len() - k,
    {
        let u = s[k] as u32;
        if u >= 128 {
            return None;
        }
        v.push(u as u8);
        k = k + 1;
    }
    assert(v@ =~= ascii_of(s@));
    Some(v)
}

/// Rust's `i32` parse of ASCII text: an `i64` parse whose value fits `i32`.
pub open spec fn parse_i32_spec(s: Seq<char>) -> Option<int> {
    if ascii_text(s) {
        match parse_i64_spec(ascii_of(s)) {
            Some(v) => if -0x8000_0000 <= v <= 0x7fff_ffff {
                Some(v)
            } else {
                None
            },
            None => None,
        }
    } else {
        None
    }
}

/// Rust's `u32` parse of text.
pub open spec fn parse_u32_spec(s: Seq<char>) -> Option<nat> {
    if ascii_text(s) {
        parse_unsigned(ascii_of(s), 0xffff_ffff)
    } else {
        None
    }
}

/// Parse text as an `i32`, Rust-style.
pub fn parse_i32_chars(s: &[char]) -> (r: Option<i32>)
    ensures
        match r {
            Some(v) => parse_i32_spec(s@) == Some(v as int),
            None => parse_i32_spec(s@) is None,
        },
{
    match ascii_bytes_of(s) {
        None => None,
        Some(b) => {
            assert(b@.subrange(0, b@.len() as int) =~= b@);
            match parse_i64_at(b.as_slice(), 0, b.len()) {
                Some(v) => if -0x8000_0000 <= v && v <= 0x7fff_ffff {
                    Some(v as i32)
                } else {
                    None
                },
                None => None,
            }
        },
    }
}

/// Parse text as a `u32`, Rust-style.
pub fn parse_u32_chars(s: &[char]) -> (r: Option<u32>)
    ensures
        match r {
            Some(v) => parse_u32_spec(s@) == Some(v as nat),
            None => parse_u32_spec(s@) is None,
        },
{
    match ascii_bytes_of(s) {
        None => None,
        Some(b) => {
            assert(b@.subrange(0, b@.len() as int) =~= b@);
            match parse_unsigned_at(b.as_slice(), 0, b.len(), 0xffff_ffff) {
                Some(v) => Some(v as u32),
                None => None,
            }
        },
    }
}


/// The Unicode lower-case mapping of a text.
pub uninterp spec fn lowercase(s: Seq<char>) -> Seq<char>;

/// `str::to_lowercase`: the text mapped to lower case by Unicode's tables. The contract names
/// the result; the tables themselves are not restated.
#[verifier::external_body]
pub(crate) fn to_lowercase(s: &str) -> (r: String)
    ensures
        r@ == lowercase(s@),
{
    s.to_lowercase()
}

/// Whether `s` ends with `suffix`.
pub open spec fn ends_with(s: Seq<char>, suffix: Seq<char>) -> bool {
    s.len() >= suffix.len() && s.skip(s.len() - suffix.len()) == suffix
}

/// Whether text `s` ends with text `suffix`.
pub fn str_ends_with(s: &str, suffix: &str) -> (r: bool)
    ensures
        r == ends_with(s@, suffix@),
{
    let a = chars_of(s);
    let b = chars_of(suffix);
    if a.len() < b.len() {
        return false;
    }
    let off = a.len() - b.len();
    let mut i: usize = 0;
    while i < b.len()
        invariant
            i <= b.len(),
            off + b.len() == a.len(),
            a@ == s@,
            b@ == suffix@,
            forall|j: int| 0 <= j < i ==> a@[off + j] == b@[j],
        decreases b.len() - i,
    {
        if a[off + i] != b[i] {
            assert(s@.skip(off as int)[i as int] != suffix@[i as int]);
            return false;
        }
        i = i + 1;
    }
    assert(s@.skip(off as int) =~= suffix@);
    true
}

} // verus!
