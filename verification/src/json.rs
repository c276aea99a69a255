//! Lexical layer of the JSON codec: whitespace, strings with their escape
//! sequences, decimal integers and the boolean literals, each with a
//! specification-level parser and encoder, an executable counterpart proved
//! against it, and the round-trip lemmas the record layer builds on.
//!
//! Everything works on bytes, the form a message has on the wire. A parser
//! is a spec function from the input and a position to the parsed value and
//! the position just past it, or `None` when the input does not match.

use vstd::prelude::*;

verus! {

pub const QUOTE: u8 = 0x22;
pub const BACKSLASH: u8 = 0x5c;
pub const LBRACE: u8 = 0x7b;
pub const RBRACE: u8 = 0x7d;
pub const COLON: u8 = 0x3a;
pub const COMMA: u8 = 0x2c;
pub const MINUS: u8 = 0x2d;
pub const ZERO: u8 = 0x30;

// ---------------------------------------------------------------------------
// Whitespace
// ---------------------------------------------------------------------------

/// The four whitespace bytes JSON allows between tokens.
pub open spec fn is_ws(b: u8) -> bool {
    b == 0x20 || b == 0x09 || b == 0x0a || b == 0x0d
}

/// Position of the first non-whitespace byte at or after `i`.
pub open spec fn spec_skip_ws(s: Seq<u8>, i: int) -> int
    decreases s.len() - i,
{
    if 0 <= i < s.len() && is_ws(s[i]) {
        spec_skip_ws(s, i + 1)
    } else {
        i
    }
}

pub proof fn lemma_skip_ws_bounds(s: Seq<u8>, i: int)
    requires
        0 <= i <= s.len(),
    ensures
        i <= spec_skip_ws(s, i) <= s.len(),
    decreases s.len() - i,
{
    if i < s.len() && is_ws(s[i]) {
        lemma_skip_ws_bounds(s, i + 1);
    }
}

/// Advances over whitespace.
pub fn skip_ws_at(buf: &Vec<u8>, pos: usize) -> (r: usize)
    requires
        pos <= buf.len(),
    ensures
        r == spec_skip_ws(buf@, pos as int),
        pos <= r <= buf.len(),
{
    let mut i: usize = pos;
    while i < buf.len() && (buf[i] == 0x20 || buf[i] == 0x09 || buf[i] == 0x0a || buf[i] == 0x0d)
        invariant
            pos <= i <= buf.len(),
            spec_skip_ws(buf@, pos as int) == spec_skip_ws(buf@, i as int),
        decreases buf.len() - i,
    {
        i = i + 1;
    }
    proof {
        lemma_skip_ws_bounds(buf@, i as int);
    }
    i
}

// ---------------------------------------------------------------------------
// Decimal digits
// ---------------------------------------------------------------------------

pub open spec fn is_digit(b: u8) -> bool {
    0x30 <= b <= 0x39
}

/// Value of a run of decimal digit bytes, most significant first.
pub open spec fn spec_dec_val(s: Seq<u8>) -> nat
    decreases s.len(),
{
    if s.len() == 0 {
        0
    } else {
        spec_dec_val(s.drop_last()) * 10 + (s.last() - ZERO) as nat
    }
}

pub open spec fn pow10(n: nat) -> nat
    decreases n,
{
    if n == 0 {
        1
    } else {
        10 * pow10((n - 1) as nat)
    }
}

/// Position of the first non-digit byte at or after `i`.
pub open spec fn spec_digit_span(s: Seq<u8>, i: int) -> int
    decreases s.len() - i,
{
    if 0 <= i < s.len() && is_digit(s[i]) {
        spec_digit_span(s, i + 1)
    } else {
        i
    }
}

pub proof fn lemma_digit_span_bounds(s: Seq<u8>, i: int)
    requires
        0 <= i <= s.len(),
    ensures
        i <= spec_digit_span(s, i) <= s.len(),
        forall|k: int| i <= k < spec_digit_span(s, i) ==> is_digit(s[k]),
        spec_digit_span(s, i) < s.len() ==> !is_digit(s[spec_digit_span(s, i)]),
    decreases s.len() - i,
{
    if i < s.len() && is_digit(s[i]) {
        lemma_digit_span_bounds(s, i + 1);
    }
}

/// A digit run that does not begin with `0` is worth at least `10^(len-1)`.
pub proof fn lemma_dec_val_lower(s: Seq<u8>)
    requires
        s.len() > 0,
        forall|k: int| 0 <= k < s.len() ==> is_digit(s[k]),
        s[0] != ZERO,
    ensures
        spec_dec_val(s) >= pow10((s.len() - 1) as nat),
    decreases s.len(),
{
    if s.len() > 1 {
        assert(s.drop_last()[0] == s[0]);
        lemma_dec_val_lower(s.drop_last());
    }
}

// ---------------------------------------------------------------------------
// Strings: escaping and encoding
// ---------------------------------------------------------------------------

/// Hex digit byte (lower case) for a nibble value below 16.
pub open spec fn hex_digit(n: u8) -> u8 {
    if n < 10 {
        (0x30 + n) as u8
    } else {
        (0x61 + (n - 10)) as u8
    }
}

/// How one byte of string content appears inside a JSON string literal:
/// quote and backslash get a two-byte escape, the five classic control
/// characters get their short escapes, the remaining control bytes get a
/// `\u00XX` escape, and every other byte stands for itself.
pub open spec fn spec_escape_byte(b: u8) -> Seq<u8> {
    if b == QUOTE {
        seq![BACKSLASH, QUOTE]
    } else if b == BACKSLASH {
        seq![BACKSLASH, BACKSLASH]
    } else if b == 0x08 {
        seq![BACKSLASH, 0x62]
    } else if b == 0x09 {
        seq![BACKSLASH, 0x74]
    } else if b == 0x0a {
        seq![BACKSLASH, 0x6e]
    } else if b == 0x0c {
        seq![BACKSLASH, 0x66]
    } else if b == 0x0d {
        seq![BACKSLASH, 0x72]
    } else if b < 0x20 {
        seq![BACKSLASH, 0x75, ZERO, ZERO, hex_digit(b / 16), hex_digit(b % 16)]
    } else {
        seq![b]
    }
}

/// Escaped form of a whole byte string.
pub open spec fn spec_escape(s: Seq<u8>) -> Seq<u8>
    decreases s.len(),
{
    if s.len() == 0 {
        Seq::empty()
    } else {
        spec_escape_byte(s[0]) + spec_escape(s.skip(1))
    }
}

/// A complete JSON string literal: the escaped content between quotes.
pub open spec fn spec_quote(s: Seq<u8>) -> Seq<u8> {
    seq![QUOTE] + spec_escape(s) + seq![QUOTE]
}

pub proof fn lemma_escape_push(s: Seq<u8>, b: u8)
    ensures
        spec_escape(s.push(b)) == spec_escape(s) + spec_escape_byte(b),
    decreases s.len(),
{
    assert(s.push(b)[0] == if s.len() == 0 { b } else { s[0] });
    if s.len() == 0 {
        assert(s.push(b).skip(1) =~= Seq::<u8>::empty());
        assert(spec_escape(Seq::<u8>::empty()) =~= Seq::<u8>::empty());
        assert(spec_escape(s.push(b)) =~= spec_escape_byte(b));
        assert(spec_escape(s) + spec_escape_byte(b) =~= spec_escape_byte(b));
    } else {
        assert(s.push(b).skip(1) =~= s.skip(1).push(b));
        lemma_escape_push(s.skip(1), b);
        assert(spec_escape(s.push(b)) =~= spec_escape(s) + spec_escape_byte(b));
    }
}

/// Appends the escaped form of one byte.
fn escape_byte_into(out: &mut Vec<u8>, b: u8)
    ensures
        final(out)@ == old(out)@ + spec_escape_byte(b),
{
    if b == QUOTE {
        out.push(BACKSLASH);
        out.push(QUOTE);
    } else if b == BACKSLASH {
        out.push(BACKSLASH);
        out.push(BACKSLASH);
    } else if b == 0x08 {
        out.push(BACKSLASH);
        out.push(0x62);
    } else if b == 0x09 {
        out.push(BACKSLASH);
        out.push(0x74);
    } else if b == 0x0a {
        out.push(BACKSLASH);
        out.push(0x6e);
    } else if b == 0x0c {
        out.push(BACKSLASH);
        out.push(0x66);
    } else if b == 0x0d {
        out.push(BACKSLASH);
        out.push(0x72);
    } else if b < 0x20 {
        out.push(BACKSLASH);
        out.push(0x75);
        out.push(ZERO);
        out.push(ZERO);
        let hi = b / 16;
        let lo = b % 16;
        out.push(if hi < 10 { 0x30 + hi } else { 0x61 + (hi - 10) });
        out.push(if lo < 10 { 0x30 + lo } else { 0x61 + (lo - 10) });
    } else {
        out.push(b);
    }
    assert(out@ =~= old(out)@ + spec_escape_byte(b));
}

/// Appends a complete JSON string literal for `s`.
pub fn encode_quoted(out: &mut Vec<u8>, s: &Vec<u8>)
    ensures
        final(out)@ == old(out)@ + spec_quote(s@),
{
    out.push(QUOTE);
    let mut i: usize = 0;
    while i < s.len()
        invariant
            i <= s.len(),
            out@ == old(out)@ + seq![QUOTE] + spec_escape(s@.take(i as int)),
        decreases s.len() - i,
    {
        proof {
            assert(s@.take(i + 1) =~= s@.take(i as int).push(s@[i as int]));
            lemma_escape_push(s@.take(i as int), s@[i as int]);
        }
        escape_byte_into(out, s[i]);
        i = i + 1;
    }
    proof {
        assert(s@.take(s@.len() as int) =~= s@);
    }
    out.push(QUOTE);
    assert(out@ =~= old(out)@ + spec_quote(s@));
}

// ---------------------------------------------------------------------------
// Strings: parsing
// ---------------------------------------------------------------------------

/// The byte a short escape (the byte after the backslash) stands for.
pub open spec fn spec_unescape_byte(b: u8) -> Option<u8> {
    if b == QUOTE {
        Some(QUOTE)
    } else if b == BACKSLASH {
        Some(BACKSLASH)
    } else if b == 0x2f {
        Some(0x2f)
    } else if b == 0x62 {
        Some(0x08)
    } else if b == 0x74 {
        Some(0x09)
    } else if b == 0x6e {
        Some(0x0a)
    } else if b == 0x66 {
        Some(0x0c)
    } else if b == 0x72 {
        Some(0x0d)
    } else {
        None
    }
}

pub open spec fn is_hex(b: u8) -> bool {
    is_digit(b) || 0x61 <= b <= 0x66 || 0x41 <= b <= 0x46
}

pub open spec fn hex_val(b: u8) -> u8 {
    if is_digit(b) {
        (b - 0x30) as u8
    } else if 0x61 <= b <= 0x66 {
        (b - 0x61 + 10) as u8
    } else {
        (b - 0x41 + 10) as u8
    }
}

/// Prefixes one decoded byte onto a string-body parse result.
pub open spec fn prepend_parse(b: u8, r: Option<(Seq<u8>, int)>) -> Option<(Seq<u8>, int)> {
    match r {
        Some((rest, j)) => Some((seq![b] + rest, j)),
        None => None,
    }
}

/// Parses the body of a JSON string literal, starting just after the opening
/// quote, up to and including the closing quote. A `\uXXXX` escape is
/// accepted for code points up to 0x7f, where it denotes a single byte; a
/// raw control byte is rejected, as JSON requires.
pub open spec fn spec_parse_str_body(s: Seq<u8>, i: int) -> Option<(Seq<u8>, int)>
    decreases s.len() - i,
{
    if i < 0 || i >= s.len() {
        None
    } else if s[i] == QUOTE {
        Some((Seq::empty(), i + 1))
    } else if s[i] == BACKSLASH {
        if i + 2 <= s.len() && s[i + 1] == 0x75 {
            if i + 6 <= s.len() && is_hex(s[i + 2]) && is_hex(s[i + 3]) && is_hex(s[i + 4])
                && is_hex(s[i + 5]) && hex_val(s[i + 2]) == 0 && hex_val(s[i + 3]) == 0
                && hex_val(s[i + 4]) < 8 {
                prepend_parse((hex_val(s[i + 4]) * 16 + hex_val(s[i + 5])) as u8,
                    spec_parse_str_body(s, i + 6))
            } else {
                None
            }
        } else if i + 2 <= s.len() {
            match spec_unescape_byte(s[i + 1]) {
                Some(b) => prepend_parse(b, spec_parse_str_body(s, i + 2)),
                None => None,
            }
        } else {
            None
        }
    } else if s[i] < 0x20 {
        None
    } else {
        prepend_parse(s[i], spec_parse_str_body(s, i + 1))
    }
}

/// A JSON string literal at position `i`: an opening quote, then the body.
pub open spec fn spec_parse_string(s: Seq<u8>, i: int) -> Option<(Seq<u8>, int)> {
    if 0 <= i < s.len() && s[i] == QUOTE {
        spec_parse_str_body(s, i + 1)
    } else {
        None
    }
}

fn hex_nibble(b: u8) -> (r: Option<u8>)
    ensures
        match r {
            Some(v) => is_hex(b) && v == hex_val(b) && v < 16,
            None => !is_hex(b),
        },
{
    if 0x30 <= b && b <= 0x39 {
        Some(b - 0x30)
    } else if 0x61 <= b && b <= 0x66 {
        Some(b - 0x61 + 10)
    } else if 0x41 <= b && b <= 0x46 {
        Some(b - 0x41 + 10)
    } else {
        None
    }
}

fn unescape_byte(b: u8) -> (r: Option<u8>)
    ensures
        r == spec_unescape_byte(b),
{
    if b == QUOTE {
        Some(QUOTE)
    } else if b == BACKSLASH {
        Some(BACKSLASH)
    } else if b == 0x2f {
        Some(0x2f)
    } else if b == 0x62 {
        Some(0x08)
    } else if b == 0x74 {
        Some(0x09)
    } else if b == 0x6e {
        Some(0x0a)
    } else if b == 0x66 {
        Some(0x0c)
    } else if b == 0x72 {
        Some(0x0d)
    } else {
        None
    }
}

/// Loop invariant of the executable string parser: the bytes decoded so far,
/// followed by whatever the rest of the body parses to, is what the whole
/// body parses to.
spec fn str_body_inv(s: Seq<u8>, start: int, i: int, acc: Seq<u8>) -> bool {
    match spec_parse_str_body(s, i) {
        Some((rest, j)) => spec_parse_str_body(s, start) == Some::<(Seq<u8>, int)>((
            acc + rest,
            j,
        )),
        None => spec_parse_str_body(s, start) is None,
    }
}

proof fn lemma_str_body_step(s: Seq<u8>, start: int, i: int, k: int, out: u8, acc: Seq<u8>)
    requires
        str_body_inv(s, start, i, acc),
        spec_parse_str_body(s, i) == prepend_parse(out, spec_parse_str_body(s, i + k)),
    ensures
        str_body_inv(s, start, i + k, acc.push(out)),
{
    match spec_parse_str_body(s, i + k) {
        Some((rest, j)) => {
            assert(acc + (seq![out] + rest) =~= acc.push(out) + rest);
        },
        None => {},
    }
}

/// Parses a JSON string literal beginning at `pos`, returning the decoded
/// content and the position just past the closing quote.
pub fn parse_string(buf: &Vec<u8>, pos: usize) -> (r: Option<(Vec<u8>, usize)>)
    requires
        pos <= buf.len(),
    ensures
        match r {
            Some(p) => spec_parse_string(buf@, pos as int) == Some::<(Seq<u8>, int)>((
                p.0@,
                p.1 as int,
            )) && pos < p.1 <= buf.len(),
            None => spec_parse_string(buf@, pos as int) is None,
        },
{
    if pos >= buf.len() || buf[pos] != QUOTE {
        return None;
    }
    let mut acc: Vec<u8> = Vec::new();
    let mut i: usize = pos + 1;
    loop
        invariant
            pos + 1 <= i <= buf.len(),
            pos < buf.len() && buf@[pos as int] == QUOTE,
            str_body_inv(buf@, pos + 1, i as int, acc@),
        decreases buf.len() - i,
    {
        if i >= buf.len() {
            return None;
        }
        let b = buf[i];
        if b == QUOTE {
            proof {
                assert(spec_parse_str_body(buf@, i as int) == Some::<(Seq<u8>, int)>((
                    Seq::empty(),
                    i + 1int,
                )));
                assert(acc@ + Seq::<u8>::empty() =~= acc@);
            }
            return Some((acc, i + 1));
        } else if b == BACKSLASH {
            if i + 1 >= buf.len() {
                return None;
            }
            let e = buf[i + 1];
            if e == 0x75 {
                if buf.len() - i < 6 {
                    return None;
                }
                let h2 = buf[i + 2];
                let h3 = buf[i + 3];
                let h4 = buf[i + 4];
                let h5 = buf[i + 5];
                let n2 = hex_nibble(h2);
                let n3 = hex_nibble(h3);
                let n4 = hex_nibble(h4);
                let n5 = hex_nibble(h5);
                match (n2, n3, n4, n5) {
                    (Some(v2), Some(v3), Some(v4), Some(v5)) => {
                        if v2 != 0 || v3 != 0 || v4 >= 8 {
                            return None;
                        }
                        let out = v4 * 16 + v5;
                        proof {
                            lemma_str_body_step(buf@, pos + 1, i as int, 6, out, acc@);
                        }
                        acc.push(out);
                        i = i + 6;
                    },
                    _ => {
                        return None;
                    },
                }
            } else {
                match unescape_byte(e) {
                    Some(out) => {
                        proof {
                            lemma_str_body_step(buf@, pos + 1, i as int, 2, out, acc@);
                        }
                        acc.push(out);
                        i = i + 2;
                    },
                    None => {
                        return None;
                    },
                }
            }
        } else if b < 0x20 {
            return None;
        } else {
            proof {
                lemma_str_body_step(buf@, pos + 1, i as int, 1, b, acc@);
            }
            acc.push(b);
            i = i + 1;
        }
    }
}


// ---------------------------------------------------------------------------
// Strings: the encoder's output parses back to the content it encodes
// ---------------------------------------------------------------------------

/// A subrange equality gives byte-for-byte equalities.
pub proof fn lemma_subrange_index(s: Seq<u8>, i: int, t: Seq<u8>)
    requires
        0 <= i,
        i + t.len() <= s.len(),
        s.subrange(i, i + t.len()) == t,
    ensures
        forall|m: int| 0 <= m < t.len() ==> s[i + m] == t[m],
{
    assert forall|m: int| 0 <= m < t.len() implies s[i + m] == t[m] by {
        assert(t[m] == s.subrange(i, i + t.len())[m]);
    }
}

/// If the escaped form of `v` followed by a closing quote sits at position
/// `i`, the string-body parser recovers exactly `v` and stops just past the
/// quote.
pub proof fn lemma_parse_escaped(s: Seq<u8>, v: Seq<u8>, i: int)
    requires
        0 <= i,
        i + spec_escape(v).len() + 1 <= s.len(),
        s.subrange(i, i + spec_escape(v).len() + 1) == spec_escape(v) + seq![QUOTE],
    ensures
        spec_parse_str_body(s, i) == Some::<(Seq<u8>, int)>((v, i + spec_escape(v).len() + 1)),
    decreases v.len(),
{
    let e = spec_escape(v);
    let t = e + seq![QUOTE];
    lemma_subrange_index(s, i, t);
    if v.len() == 0 {
        assert(e =~= Seq::<u8>::empty());
        assert(s[i] == t[0]);
        assert(v =~= Seq::<u8>::empty());
    } else {
        let b = v[0];
        let eb = spec_escape_byte(b);
        let v1 = v.skip(1);
        let e1 = spec_escape(v1);
        assert(e == eb + e1);
        let ebl = eb.len();
        assert(forall|m: int| 0 <= m < ebl ==> t[m] == eb[m]);
        assert(s.subrange(i + ebl, i + ebl + e1.len() + 1) =~= e1 + seq![QUOTE]) by {
            assert forall|m: int| 0 <= m < e1.len() + 1 implies s.subrange(
                i + ebl,
                i + ebl + e1.len() + 1,
            )[m] == (e1 + seq![QUOTE])[m] by {
                assert(s.subrange(i + ebl, i + ebl + e1.len() + 1)[m] == s[i + ebl + m]);
                assert(s[i + ebl + m] == t[ebl + m]);
            }
        }
        lemma_parse_escaped(s, v1, i + ebl);
        assert(seq![b] + v1 =~= v);
        if b == QUOTE || b == BACKSLASH || b == 0x08 || b == 0x09 || b == 0x0a || b == 0x0c
            || b == 0x0d {
            // a two-byte escape: backslash then the escape letter
            assert(s[i] == eb[0] && s[i + 1] == eb[1]);
            assert(spec_unescape_byte(s[i + 1]) == Some(b));
            assert(spec_parse_str_body(s, i) == prepend_parse(b, spec_parse_str_body(s, i + 2)));
        } else if b < 0x20 {
            // a six-byte \u00xx escape
            assert(s[i] == eb[0] && s[i + 1] == eb[1] && s[i + 2] == eb[2] && s[i + 3] == eb[3]
                && s[i + 4] == eb[4] && s[i + 5] == eb[5]);
            assert(b / 16 < 2 && b % 16 < 16);
            assert(is_hex(hex_digit(b / 16)) && hex_val(hex_digit(b / 16)) == b / 16);
            assert(is_hex(hex_digit(b % 16)) && hex_val(hex_digit(b % 16)) == b % 16);
            assert((b / 16) * 16 + b % 16 == b) by {
                vstd::arithmetic::div_mod::lemma_fundamental_div_mod(b as int, 16);
            }
            assert(spec_parse_str_body(s, i) == prepend_parse(b, spec_parse_str_body(s, i + 6)));
        } else {
            // the byte stands for itself
            assert(s[i] == b);
            assert(spec_parse_str_body(s, i) == prepend_parse(b, spec_parse_str_body(s, i + 1)));
        }
    }
}

/// A complete JSON string literal for `v` at position `i` parses back to `v`.
pub proof fn lemma_parse_quoted(s: Seq<u8>, v: Seq<u8>, i: int)
    requires
        0 <= i,
        i + spec_quote(v).len() <= s.len(),
        s.subrange(i, i + spec_quote(v).len()) == spec_quote(v),
    ensures
        spec_parse_string(s, i) == Some::<(Seq<u8>, int)>((v, i + spec_quote(v).len())),
{
    let q = spec_quote(v);
    lemma_subrange_index(s, i, q);
    assert(s[i] == q[0]);
    assert(s.subrange(i + 1, i + q.len()) =~= spec_escape(v) + seq![QUOTE]) by {
        assert forall|m: int| 0 <= m < q.len() - 1 implies s.subrange(i + 1, i + q.len())[m] == (
        spec_escape(v) + seq![QUOTE])[m] by {
            assert(s.subrange(i + 1, i + q.len())[m] == s[i + 1 + m]);
            assert(s[i + 1 + m] == q[1 + m]);
            assert(q[1 + m] == (spec_escape(v) + seq![QUOTE])[m]);
        }
    }
    lemma_parse_escaped(s, v, i + 1);
}


// ---------------------------------------------------------------------------
// Integers
// ---------------------------------------------------------------------------

/// Canonical decimal digits of an unsigned value, most significant first.
pub open spec fn spec_udec(n: nat) -> Seq<u8>
    decreases n,
{
    if n < 10 {
        seq![(0x30 + n) as u8]
    } else {
        spec_udec(n / 10) + seq![(0x30 + (n % 10)) as u8]
    }
}

/// Canonical decimal form of a signed value.
pub open spec fn spec_dec(n: int) -> Seq<u8> {
    if n < 0 {
        seq![MINUS] + spec_udec((-n) as nat)
    } else {
        spec_udec(n as nat)
    }
}

/// The canonical digits are digits, start with no spurious zero, and are
/// worth the encoded value.
pub proof fn lemma_udec_props(n: nat)
    ensures
        spec_udec(n).len() >= 1,
        spec_udec(n).len() > 1 <==> n >= 10,
        forall|k: int| 0 <= k < spec_udec(n).len() ==> is_digit(spec_udec(n)[k]),
        spec_udec(n).len() > 1 ==> spec_udec(n)[0] != ZERO,
        spec_dec_val(spec_udec(n)) == n,
    decreases n,
{
    vstd::arithmetic::div_mod::lemma_fundamental_div_mod(n as int, 10);
    if n < 10 {
        let u = spec_udec(n);
        assert(u == seq![(0x30 + n) as u8]);
        assert(u.drop_last() =~= Seq::<u8>::empty());
        assert(spec_dec_val(Seq::<u8>::empty()) == 0);
        assert(spec_dec_val(u) == n);
    } else {
        lemma_udec_props(n / 10);
        let a = spec_udec(n / 10);
        let d = (0x30 + (n % 10)) as u8;
        assert(spec_udec(n) == a + seq![d]);
        assert((a + seq![d]).drop_last() =~= a);
        assert((a + seq![d]).last() == d);
        assert(spec_dec_val(a + seq![d]) == spec_dec_val(a) * 10 + (n % 10));
        assert(spec_dec_val(a) == n / 10);
        assert(n == (n / 10) * 10 + (n % 10));
        assert((a + seq![d])[0] == a[0]);
        assert(n / 10 >= 1);
        if n / 10 < 10 {
            assert(a == seq![(0x30 + (n / 10)) as u8]);
            assert(a[0] != ZERO);
        }
    }
}

fn push_udec(out: &mut Vec<u8>, n: u32)
    ensures
        final(out)@ == old(out)@ + spec_udec(n as nat),
    decreases n,
{
    if n < 10 {
        out.push(0x30 + (n as u8));
        assert(out@ =~= old(out)@ + spec_udec(n as nat));
    } else {
        push_udec(out, n / 10);
        out.push(0x30 + ((n % 10) as u8));
        assert(out@ =~= old(out)@ + spec_udec(n as nat));
    }
}

/// Appends the canonical decimal form of `n`.
pub fn push_i32_dec(out: &mut Vec<u8>, n: i32)
    ensures
        final(out)@ == old(out)@ + spec_dec(n as int),
{
    if n < 0 {
        out.push(MINUS);
        let m: u32 = (-(n as i64)) as u32;
        assert(m as nat == (-(n as int)) as nat);
        push_udec(out, m);
        assert(out@ =~= old(out)@ + spec_dec(n as int));
    } else {
        push_udec(out, n as u32);
    }
}

/// An unsigned decimal number at position `i`: a non-empty digit run with no
/// leading zero (a single `0` stands alone), valued as `spec_dec_val`.
pub open spec fn spec_parse_uint(s: Seq<u8>, i: int) -> Option<(nat, int)> {
    let j = spec_digit_span(s, i);
    if 0 <= i && i < j && (s[i] != ZERO || j == i + 1) {
        Some((spec_dec_val(s.subrange(i, j)), j))
    } else {
        None
    }
}

/// A JSON integer at position `i`, required to fit in `i32` as the record
/// schemas demand.
pub open spec fn spec_parse_i32(s: Seq<u8>, i: int) -> Option<(i32, int)> {
    if 0 <= i < s.len() && s[i] == MINUS {
        match spec_parse_uint(s, i + 1) {
            Some((v, j)) => if v <= 0x8000_0000 {
                Some(((-(v as int)) as i32, j))
            } else {
                None
            },
            None => None,
        }
    } else {
        match spec_parse_uint(s, i) {
            Some((v, j)) => if v <= 0x7fff_ffff {
                Some((v as i32, j))
            } else {
                None
            },
            None => None,
        }
    }
}

proof fn lemma_pow10_ten()
    ensures
        pow10(10) == 10_000_000_000,
{
    reveal_with_fuel(pow10, 11);
}

pub proof fn lemma_pow10_mono(a: nat, b: nat)
    requires
        a <= b,
    ensures
        pow10(a) <= pow10(b),
    decreases b,
{
    if a < b {
        lemma_pow10_mono(a, (b - 1) as nat);
        assert(pow10(b) == 10 * pow10((b - 1) as nat));
    }
}

/// The digit span is exactly the run laid down at `i` when a non-digit (or
/// the end of input) follows it.
pub proof fn lemma_digit_span_exact(s: Seq<u8>, i: int, l: int)
    requires
        0 <= i,
        0 <= l,
        i + l <= s.len(),
        forall|k: int| i <= k < i + l ==> is_digit(s[k]),
        i + l == s.len() || !is_digit(s[i + l]),
    ensures
        spec_digit_span(s, i) == i + l,
    decreases l,
{
    if l > 0 {
        lemma_digit_span_exact(s, i + 1, l - 1);
    }
}

/// The canonical decimal form of an `i32` parses back to the same value.
pub proof fn lemma_parse_dec(s: Seq<u8>, n: int, i: int)
    requires
        -0x8000_0000 <= n <= 0x7fff_ffff,
        0 <= i,
        i + spec_dec(n).len() <= s.len(),
        s.subrange(i, i + spec_dec(n).len()) == spec_dec(n),
        i + spec_dec(n).len() == s.len() || !is_digit(s[i + spec_dec(n).len()]),
    ensures
        spec_parse_i32(s, i) == Some::<(i32, int)>((n as i32, i + spec_dec(n).len())),
{
    let e = spec_dec(n);
    lemma_subrange_index(s, i, e);
    let m = (if n < 0 { -n } else { n }) as nat;
    lemma_udec_props(m);
    let u = spec_udec(m);
    let st = if n < 0 { i + 1 } else { i };
    assert forall|k: int| st <= k < st + u.len() implies is_digit(s[k]) by {
        let m = k - i;
        assert(s[i + m] == e[m]);
        if n < 0 {
            assert(e[m] == u[m - 1]);
        } else {
            assert(e[m] == u[m]);
        }
    }
    lemma_digit_span_exact(s, st, u.len() as int);
    assert(s.subrange(st, st + u.len()) =~= u) by {
        assert forall|m: int| 0 <= m < u.len() implies s.subrange(st, st + u.len())[m] == u[m] by {
            assert(s.subrange(st, st + u.len())[m] == s[st + m]);
            assert(s[i + (st - i + m)] == e[st - i + m]);
        }
    }
    assert(spec_dec_val(s.subrange(st, st + u.len())) == m);
    assert(s[st] == u[0]);
    if n < 0 {
        assert(s[i] == e[0] && e[0] == MINUS);
        assert(u.len() > 1 ==> s[st] != ZERO);
        assert(u.len() == 1 ==> spec_digit_span(s, st) == st + 1);
        assert(spec_parse_uint(s, st) == Some::<(nat, int)>((m, st + u.len())));
        assert(m <= 0x8000_0000);
    } else {
        assert(is_digit(s[i]) && s[i] != MINUS);
        assert(spec_parse_uint(s, i) == Some::<(nat, int)>((m, i + u.len())));
        assert(m <= 0x7fff_ffff);
    }
}

/// Parses a JSON integer that fits in `i32` at position `pos`.
pub fn parse_i32(buf: &Vec<u8>, pos: usize) -> (r: Option<(i32, usize)>)
    requires
        pos <= buf.len(),
    ensures
        match r {
            Some(p) => spec_parse_i32(buf@, pos as int) == Some::<(i32, int)>((p.0, p.1 as int))
                && pos < p.1 <= buf.len(),
            None => spec_parse_i32(buf@, pos as int) is None,
        },
{
    let neg = pos < buf.len() && buf[pos] == MINUS;
    let st: usize = if neg { pos + 1 } else { pos };
    let mut j: usize = st;
    while j < buf.len() && 0x30 <= buf[j] && buf[j] <= 0x39
        invariant
            st <= j <= buf.len(),
            spec_digit_span(buf@, st as int) == spec_digit_span(buf@, j as int),
        decreases buf.len() - j,
    {
        j = j + 1;
    }
    proof {
        lemma_digit_span_bounds(buf@, j as int);
    }
    assert(spec_digit_span(buf@, st as int) == j);
    if j == st {
        return None;
    }
    if buf[st] == ZERO && j > st + 1 {
        return None;
    }
    if j - st > 10 {
        proof {
            let digits = buf@.subrange(st as int, j as int);
            lemma_digit_span_bounds(buf@, st as int);
            assert forall|m: int| 0 <= m < digits.len() implies is_digit(digits[m]) by {
                assert(digits[m] == buf@[st + m]);
            }
            assert(digits[0] == buf@[st as int]);
            lemma_dec_val_lower(digits);
            lemma_pow10_mono(10, (digits.len() - 1) as nat);
            lemma_pow10_ten();
        }
        return None;
    }
    let mut acc: u64 = 0;
    let mut k: usize = st;
    while k < j
        invariant
            st <= k <= j <= buf.len(),
            j - st <= 10,
            spec_digit_span(buf@, st as int) == j,
            acc == spec_dec_val(buf@.subrange(st as int, k as int)),
            acc < pow10((k - st) as nat),
        decreases j - k,
    {
        proof {
            lemma_digit_span_bounds(buf@, st as int);
            assert(is_digit(buf@[k as int]));
            assert(buf@.subrange(st as int, k + 1).drop_last() =~= buf@.subrange(
                st as int,
                k as int,
            ));
            lemma_pow10_mono((k - st + 1) as nat, 10);
            lemma_pow10_ten();
        }
        acc = acc * 10 + ((buf[k] - 0x30) as u64);
        k = k + 1;
    }
    assert(buf@.subrange(st as int, j as int) == buf@.subrange(st as int, k as int));
    if neg {
        if acc > 0x8000_0000 {
            return None;
        }
        let v: i32 = (-(acc as i64)) as i32;
        Some((v, j))
    } else {
        if acc > 0x7fff_ffff {
            return None;
        }
        Some((acc as i32, j))
    }
}

// ---------------------------------------------------------------------------
// Booleans
// ---------------------------------------------------------------------------

/// The JSON literal for a boolean.
pub open spec fn spec_bool_lit(b: bool) -> Seq<u8> {
    if b {
        seq![0x74u8, 0x72, 0x75, 0x65]
    } else {
        seq![0x66u8, 0x61, 0x6c, 0x73, 0x65]
    }
}

/// One of the literals `true` or `false` at position `i`.
pub open spec fn spec_parse_bool(s: Seq<u8>, i: int) -> Option<(bool, int)> {
    if 0 <= i && i + 4 <= s.len() && s.subrange(i, i + 4) == spec_bool_lit(true) {
        Some((true, i + 4))
    } else if 0 <= i && i + 5 <= s.len() && s.subrange(i, i + 5) == spec_bool_lit(false) {
        Some((false, i + 5))
    } else {
        None
    }
}

/// Parses a boolean literal at position `pos`.
pub fn parse_bool(buf: &Vec<u8>, pos: usize) -> (r: Option<(bool, usize)>)
    requires
        pos <= buf.len(),
    ensures
        match r {
            Some(p) => spec_parse_bool(buf@, pos as int) == Some::<(bool, int)>((p.0, p.1 as int))
                && pos < p.1 <= buf.len(),
            None => spec_parse_bool(buf@, pos as int) is None,
        },
{
    if pos < buf.len() && buf.len() - pos >= 4 && buf[pos] == 0x74 && buf[pos + 1] == 0x72
        && buf[pos + 2] == 0x75 && buf[pos + 3] == 0x65 {
        assert(buf@.subrange(pos as int, pos + 4) =~= spec_bool_lit(true));
        return Some((true, pos + 4));
    }
    if pos < buf.len() && buf.len() - pos >= 5 && buf[pos] == 0x66 && buf[pos + 1] == 0x61
        && buf[pos + 2] == 0x6c && buf[pos + 3] == 0x73 && buf[pos + 4] == 0x65 {
        assert(buf@.subrange(pos as int, pos + 5) =~= spec_bool_lit(false));
        assert(buf@.subrange(pos as int, pos + 4) != spec_bool_lit(true)) by {
            assert(buf@.subrange(pos as int, pos + 4)[0] == 0x66);
        }
        return Some((false, pos + 5));
    }
    proof {
        let s = buf@;
        let i = pos as int;
        if 0 <= i && i + 4 <= s.len() && s.subrange(i, i + 4) == spec_bool_lit(true) {
            lemma_subrange_index(s, i, spec_bool_lit(true));
            assert(false);
        }
        if 0 <= i && i + 5 <= s.len() && s.subrange(i, i + 5) == spec_bool_lit(false) {
            lemma_subrange_index(s, i, spec_bool_lit(false));
            assert(false);
        }
    }
    None
}

/// Appends the literal for `b`.
pub fn push_bool(out: &mut Vec<u8>, b: bool)
    ensures
        final(out)@ == old(out)@ + spec_bool_lit(b),
{
    if b {
        out.push(0x74);
        out.push(0x72);
        out.push(0x75);
        out.push(0x65);
    } else {
        out.push(0x66);
        out.push(0x61);
        out.push(0x6c);
        out.push(0x73);
        out.push(0x65);
    }
    assert(out@ =~= old(out)@ + spec_bool_lit(b));
}

/// The literal for `b` parses back to `b` when it sits at position `i`.
pub proof fn lemma_parse_bool_lit(s: Seq<u8>, b: bool, i: int)
    requires
        0 <= i,
        i + spec_bool_lit(b).len() <= s.len(),
        s.subrange(i, i + spec_bool_lit(b).len()) == spec_bool_lit(b),
    ensures
        spec_parse_bool(s, i) == Some::<(bool, int)>((b, i + spec_bool_lit(b).len())),
{
    lemma_subrange_index(s, i, spec_bool_lit(b));
    if !b {
        assert(s[i] == 0x66);
        if i + 4 <= s.len() && s.subrange(i, i + 4) == spec_bool_lit(true) {
            lemma_subrange_index(s, i, spec_bool_lit(true));
            assert(false);
        }
    }
}


// ---------------------------------------------------------------------------
// Parsers advance: bounds on the positions they return
// ---------------------------------------------------------------------------

pub proof fn lemma_parse_str_body_bounds(s: Seq<u8>, i: int)
    ensures
        spec_parse_str_body(s, i) matches Some(p) ==> i < p.1 <= s.len(),
    decreases s.len() - i,
{
    if 0 <= i < s.len() {
        lemma_parse_str_body_bounds(s, i + 1);
        if i + 2 <= s.len() {
            lemma_parse_str_body_bounds(s, i + 2);
        }
        if i + 6 <= s.len() {
            lemma_parse_str_body_bounds(s, i + 6);
        }
    }
}

pub proof fn lemma_parse_string_bounds(s: Seq<u8>, i: int)
    ensures
        spec_parse_string(s, i) matches Some(p) ==> i < p.1 <= s.len(),
{
    if 0 <= i < s.len() && s[i] == QUOTE {
        lemma_parse_str_body_bounds(s, i + 1);
    }
}

pub proof fn lemma_parse_i32_bounds(s: Seq<u8>, i: int)
    ensures
        spec_parse_i32(s, i) matches Some(p) ==> i < p.1 <= s.len(),
{
    if 0 <= i < s.len() && s[i] == MINUS {
        lemma_digit_span_bounds(s, i + 1);
    } else if 0 <= i <= s.len() {
        lemma_digit_span_bounds(s, i);
    }
}

} // verus!
