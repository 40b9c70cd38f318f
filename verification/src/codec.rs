//! The credential record codec: how the Refresh Record and the Access Record
//! are laid out as JSON bytes on disk, with a writer and a parser whose
//! round trip is proved exact.
//!
//! The writer emits one object with the record's fields in order and no
//! surrounding whitespace; strings escape the quote, the backslash and
//! control bytes. The parser accepts the format more liberally: arbitrary
//! whitespace between tokens, the fields in any order (each exactly once),
//! the common named escapes and `\uXXXX` for codepoints outside the
//! surrogate range.

use vstd::prelude::*;
use vstd::utf8::{decode_utf8, encode_utf8, valid_utf8};

use crate::data::{AccessFile, RefreshFile};
use crate::error::CredmonError;

verus! {

/// JSON string escaping of one byte: the quote and the backslash get a
/// backslash, control bytes become `\u00XX`, everything else stands as is.
pub open spec fn hex_digit(n: u8) -> u8 {
    if n < 10 {
        (0x30 + n) as u8
    } else {
        (0x57 + n) as u8
    }
}

pub open spec fn esc_byte(b: u8) -> Seq<u8> {
    if b == 0x22 {
        seq![0x5c, 0x22]
    } else if b == 0x5c {
        seq![0x5c, 0x5c]
    } else if b < 0x20 {
        seq![0x5c, 0x75, 0x30, 0x30, hex_digit(b / 16), hex_digit(b % 16)]
    } else {
        seq![b]
    }
}

/// JSON string escaping of a byte string.
pub open spec fn esc_bytes(s: Seq<u8>) -> Seq<u8>
    decreases s.len(),
{
    if s.len() == 0 {
        Seq::empty()
    } else {
        esc_byte(s[0]) + esc_bytes(s.drop_first())
    }
}

/// Escaping distributes over concatenation.
pub proof fn lemma_esc_bytes_concat(a: Seq<u8>, b: Seq<u8>)
    ensures
        esc_bytes(a + b) == esc_bytes(a) + esc_bytes(b),
    decreases a.len(),
{
    if a.len() == 0 {
        assert(a + b =~= b);
        assert(esc_bytes(a) + esc_bytes(b) =~= esc_bytes(b));
    } else {
        assert((a + b).drop_first() =~= a.drop_first() + b);
        lemma_esc_bytes_concat(a.drop_first(), b);
        assert((a + b)[0] == a[0]);
        assert(esc_byte(a[0]) + (esc_bytes(a.drop_first()) + esc_bytes(b)) =~= (esc_byte(a[0])
            + esc_bytes(a.drop_first())) + esc_bytes(b));
    }
}

/// A byte string as a JSON string token: quoted and escaped.
pub open spec fn quoted(s: Seq<u8>) -> Seq<u8> {
    seq![0x22] + esc_bytes(s) + seq![0x22]
}

/// The decimal digits of `n`, most significant first.
pub open spec fn dec_digits(n: u64) -> Seq<u8>
    decreases n,
{
    if n < 10 {
        seq![(0x30 + n) as u8]
    } else {
        dec_digits(n / 10) + seq![(0x30 + (n % 10)) as u8]
    }
}

fn hex_digit_exec(n: u8) -> (r: u8)
    requires
        n < 16,
    ensures
        r == hex_digit(n),
{
    if n < 10 {
        0x30 + n
    } else {
        0x57 + n
    }
}

/// Appends the escaped form of `s` to `out`.
fn append_escaped(out: &mut Vec<u8>, s: &Vec<u8>)
    ensures
        final(out)@ == old(out)@ + esc_bytes(s@),
{
    let ghost base = out@;
    let mut i: usize = 0;
    proof {
        assert(base + esc_bytes(s@.take(0)) =~= base);
    }
    while i < s.len()
        invariant
            i <= s@.len(),
            out@ =~= base + esc_bytes(s@.take(i as int)),
        decreases s@.len() - i,
    {
        let b = s[i];
        if b == 0x22 {
            out.push(0x5c);
            out.push(0x22);
        } else if b == 0x5c {
            out.push(0x5c);
            out.push(0x5c);
        } else if b < 0x20 {
            out.push(0x5c);
            out.push(0x75);
            out.push(0x30);
            out.push(0x30);
            out.push(hex_digit_exec(b / 16));
            out.push(hex_digit_exec(b % 16));
        } else {
            out.push(b);
        }
        proof {
            assert(s@.take(i + 1) =~= s@.take(i as int) + seq![s@[i as int]]);
            lemma_esc_bytes_concat(s@.take(i as int), seq![s@[i as int]]);
            assert(seq![s@[i as int]].drop_first() =~= Seq::<u8>::empty());
            assert(esc_bytes(Seq::<u8>::empty()) =~= Seq::<u8>::empty());
            assert(esc_byte(s@[i as int]) + Seq::<u8>::empty() =~= esc_byte(s@[i as int]));
            assert(esc_bytes(seq![s@[i as int]]) =~= esc_byte(s@[i as int]));
            assert(out@ =~= base + esc_bytes(s@.take(i + 1)));
        }
        i = i + 1;
    }
    proof {
        assert(s@.take(s@.len() as int) =~= s@);
    }
}

/// Appends `s` as a quoted, escaped JSON string token.
fn append_quoted(out: &mut Vec<u8>, s: &str)
    ensures
        final(out)@ == old(out)@ + quoted(encode_utf8(s@)),
{
    out.push(0x22);
    let bytes = s.as_bytes_vec();
    append_escaped(out, &bytes);
    out.push(0x22);
    proof {
        assert(final(out)@ =~= old(out)@ + quoted(encode_utf8(s@)));
    }
}

/// Appends the decimal digits of `n`.
fn append_u64(out: &mut Vec<u8>, n: u64)
    ensures
        final(out)@ == old(out)@ + dec_digits(n),
    decreases n,
{
    if n < 10 {
        out.push(0x30 + (n as u8));
        proof {
            assert(final(out)@ =~= old(out)@ + dec_digits(n));
        }
    } else {
        append_u64(out, n / 10);
        out.push(0x30 + ((n % 10) as u8));
        proof {
            assert(final(out)@ =~= old(out)@ + dec_digits(n));
        }
    }
}

/// The refresh-record key bytes.
pub open spec fn key_refresh_token() -> Seq<u8> {
    encode_utf8("refresh_token"@)
}

pub open spec fn key_scopes() -> Seq<u8> {
    encode_utf8("scopes"@)
}

/// The byte layout the writer gives a Refresh Record.
pub open spec fn spec_render_refresh(rt: Seq<char>, sc: Seq<char>) -> Seq<u8> {
    seq![0x7bu8] + quoted(key_refresh_token()) + seq![0x3au8] + quoted(encode_utf8(rt)) + seq![
        0x2cu8,
    ] + quoted(key_scopes()) + seq![0x3au8] + quoted(encode_utf8(sc)) + seq![0x7du8]
}

/// Serializes a Refresh Record.
pub fn render_refresh_record(r: &RefreshFile) -> (out: Vec<u8>)
    ensures
        out@ == spec_render_refresh(r.refresh_token@, r.scopes@),
{
    let mut out: Vec<u8> = Vec::new();
    out.push(0x7b);
    append_quoted(&mut out, "refresh_token");
    out.push(0x3a);
    append_quoted(&mut out, r.refresh_token.as_str());
    out.push(0x2c);
    append_quoted(&mut out, "scopes");
    out.push(0x3a);
    append_quoted(&mut out, r.scopes.as_str());
    out.push(0x7d);
    proof {
        assert(out@ =~= spec_render_refresh(r.refresh_token@, r.scopes@));
    }
    out
}

/// The access-record key bytes.
pub open spec fn key_access_token() -> Seq<u8> {
    encode_utf8("access_token"@)
}

pub open spec fn key_token_type() -> Seq<u8> {
    encode_utf8("token_type"@)
}

pub open spec fn key_expires_in() -> Seq<u8> {
    encode_utf8("expires_in"@)
}

pub open spec fn key_expires_at() -> Seq<u8> {
    encode_utf8("expires_at"@)
}

pub open spec fn key_scope() -> Seq<u8> {
    encode_utf8("scope"@)
}

/// The byte layout of the scope array's items, comma-separated.
pub open spec fn spec_render_items(sc: Seq<Seq<char>>) -> Seq<u8>
    decreases sc.len(),
{
    if sc.len() == 0 {
        Seq::empty()
    } else if sc.len() == 1 {
        quoted(encode_utf8(sc[0]))
    } else {
        quoted(encode_utf8(sc[0])) + seq![0x2cu8] + spec_render_items(sc.drop_first())
    }
}

/// The byte layout of the scope array.
pub open spec fn spec_render_array(sc: Seq<Seq<char>>) -> Seq<u8> {
    seq![0x5bu8] + spec_render_items(sc) + seq![0x5du8]
}

/// The byte layout the writer gives an Access Record.
pub open spec fn spec_render_access(
    at: Seq<char>,
    tt: Seq<char>,
    ei: u64,
    ea: u64,
    sc: Seq<Seq<char>>,
) -> Seq<u8> {
    seq![0x7bu8] + quoted(key_access_token()) + seq![0x3au8] + quoted(encode_utf8(at)) + seq![
        0x2cu8,
    ] + quoted(key_token_type()) + seq![0x3au8] + quoted(encode_utf8(tt)) + seq![0x2cu8] + quoted(
        key_expires_in(),
    ) + seq![0x3au8] + dec_digits(ei) + seq![0x2cu8] + quoted(key_expires_at()) + seq![0x3au8]
        + dec_digits(ea) + seq![0x2cu8] + quoted(key_scope()) + seq![0x3au8] + spec_render_array(sc)
        + seq![0x7du8]
}

/// Serializes an Access Record.
pub fn render_access_record(r: &AccessFile) -> (out: Vec<u8>)
    ensures
        out@ == spec_render_access(
            r.access_token@,
            r.token_type@,
            r.expires_in,
            r.expires_at,
            r.scope@.map_values(|s: String| s@),
        ),
{
    let ghost sc = r.scope@.map_values(|s: String| s@);
    let mut out: Vec<u8> = Vec::new();
    out.push(0x7b);
    append_quoted(&mut out, "access_token");
    out.push(0x3a);
    append_quoted(&mut out, r.access_token.as_str());
    out.push(0x2c);
    append_quoted(&mut out, "token_type");
    out.push(0x3a);
    append_quoted(&mut out, r.token_type.as_str());
    out.push(0x2c);
    append_quoted(&mut out, "expires_in");
    out.push(0x3a);
    append_u64(&mut out, r.expires_in);
    out.push(0x2c);
    append_quoted(&mut out, "expires_at");
    out.push(0x3a);
    append_u64(&mut out, r.expires_at);
    out.push(0x2c);
    append_quoted(&mut out, "scope");
    out.push(0x3a);
    out.push(0x5b);
    let ghost arr_base = out@;
    let mut i: usize = 0;
    while i < r.scope.len()
        invariant
            i <= r.scope@.len(),
            sc == r.scope@.map_values(|s: String| s@),
            out@ =~= arr_base + spec_render_items(sc.take(i as int)),
            i < r.scope@.len() ==> out@ =~= arr_base + spec_render_items(sc.take(i as int)),
        decreases r.scope@.len() - i,
    {
        if i > 0 {
            out.push(0x2c);
        }
        append_quoted(&mut out, r.scope[i].as_str());
        proof {
            assert(sc[i as int] == r.scope@[i as int]@);
            lemma_render_items_snoc(sc.take(i + 1));
            assert(sc.take(i + 1).drop_last() =~= sc.take(i as int));
            assert(sc.take(i + 1).last() == sc[i as int]);
            assert(out@ =~= arr_base + spec_render_items(sc.take(i + 1)));
        }
        i = i + 1;
    }
    out.push(0x5d);
    out.push(0x7d);
    proof {
        assert(sc.take(sc.len() as int) =~= sc);
        assert(out@ =~= spec_render_access(
            r.access_token@,
            r.token_type@,
            r.expires_in,
            r.expires_at,
            sc,
        ));
    }
    out
}

/// Rendering the items of a non-empty list appends the last item (and its
/// separator when it is not alone) to the rendering of the rest.
proof fn lemma_render_items_snoc(sc: Seq<Seq<char>>)
    requires
        sc.len() >= 1,
    ensures
        sc.len() == 1 ==> spec_render_items(sc) == quoted(encode_utf8(sc.last())),
        sc.len() > 1 ==> spec_render_items(sc) == spec_render_items(sc.drop_last()) + seq![0x2cu8]
            + quoted(encode_utf8(sc.last())),
    decreases sc.len(),
{
    if sc.len() > 1 {
        lemma_render_items_snoc(sc.drop_first());
        assert(sc.drop_first().drop_last() =~= sc.drop_last().drop_first());
        if sc.len() == 2 {
            assert(spec_render_items(sc.drop_last()) == quoted(encode_utf8(sc[0])));
            assert(spec_render_items(sc) =~= spec_render_items(sc.drop_last()) + seq![0x2cu8]
                + quoted(encode_utf8(sc.last())));
        } else {
            assert(sc.drop_last().len() > 1);
            assert(spec_render_items(sc) =~= spec_render_items(sc.drop_last()) + seq![0x2cu8]
                + quoted(encode_utf8(sc.last())));
        }
    }
}

/// JSON inter-token whitespace.
pub open spec fn is_json_ws(b: u8) -> bool {
    b == 0x20 || b == 0x09 || b == 0x0a || b == 0x0d
}

/// The length of the leading whitespace run of `s`.
pub open spec fn ws_len(s: Seq<u8>) -> int
    decreases s.len(),
{
    if s.len() > 0 && is_json_ws(s[0]) {
        1 + ws_len(s.drop_first())
    } else {
        0
    }
}

/// `ws_len` stays in bounds and stops at the first non-whitespace byte.
pub proof fn lemma_ws_len(s: Seq<u8>)
    ensures
        0 <= ws_len(s) <= s.len(),
        ws_len(s) < s.len() ==> !is_json_ws(s[ws_len(s)]),
        forall|m: int| 0 <= m < ws_len(s) ==> is_json_ws(s[m]),
    decreases s.len(),
{
    if s.len() > 0 && is_json_ws(s[0]) {
        lemma_ws_len(s.drop_first());
        assert forall|m: int| 1 <= m < s.len() implies s[m] == s.drop_first()[m - 1] by {}
    }
}

/// The value of a hexadecimal digit byte, or `-1`.
pub open spec fn hex_val(b: u8) -> int {
    if 0x30 <= b <= 0x39 {
        b - 0x30
    } else if 0x61 <= b <= 0x66 {
        b - 0x61 + 10
    } else if 0x41 <= b <= 0x46 {
        b - 0x41 + 10
    } else {
        -1
    }
}

/// The UTF-8 bytes of a codepoint below `0x10000`.
pub open spec fn cp_bytes(cp: int) -> Seq<u8>
    recommends
        0 <= cp < 0x10000,
{
    if cp < 0x80 {
        seq![cp as u8]
    } else if cp < 0x800 {
        seq![(0xc0 + cp / 64) as u8, (0x80 + cp % 64) as u8]
    } else {
        seq![(0xe0 + cp / 4096) as u8, (0x80 + (cp / 64) % 64) as u8, (0x80 + cp % 64) as u8]
    }
}

/// One escape sequence, read just after the backslash: the replacement
/// bytes and how many input bytes the sequence used.
pub open spec fn spec_escape(s: Seq<u8>) -> Option<(Seq<u8>, int)> {
    if s.len() == 0 {
        None
    } else {
        let c = s[0];
        if c == 0x22 {
            Some((seq![0x22u8], 1))
        } else if c == 0x5c {
            Some((seq![0x5cu8], 1))
        } else if c == 0x2f {
            Some((seq![0x2fu8], 1))
        } else if c == 0x62 {
            Some((seq![0x08u8], 1))
        } else if c == 0x66 {
            Some((seq![0x0cu8], 1))
        } else if c == 0x6e {
            Some((seq![0x0au8], 1))
        } else if c == 0x72 {
            Some((seq![0x0du8], 1))
        } else if c == 0x74 {
            Some((seq![0x09u8], 1))
        } else if c == 0x75 && s.len() >= 5 && hex_val(s[1]) >= 0 && hex_val(s[2]) >= 0 && hex_val(
            s[3],
        ) >= 0 && hex_val(s[4]) >= 0 {
            let cp = hex_val(s[1]) * 4096 + hex_val(s[2]) * 256 + hex_val(s[3]) * 16 + hex_val(
                s[4],
            );
            if 0xd800 <= cp <= 0xdfff {
                None
            } else {
                Some((cp_bytes(cp), 5))
            }
        } else {
            None
        }
    }
}

/// An accepted escape uses between one and all of the remaining bytes.
pub proof fn lemma_escape_len(s: Seq<u8>)
    ensures
        spec_escape(s) matches Some(p) ==> 1 <= p.1 <= s.len(),
{
}

/// A JSON string body, read just after the opening quote: the unescaped
/// bytes and how many input bytes were used, the closing quote included.
pub open spec fn spec_str_body(s: Seq<u8>) -> Option<(Seq<u8>, int)>
    decreases s.len(),
    via spec_str_body_decreases
{
    if s.len() == 0 {
        None
    } else if s[0] == 0x22 {
        Some((Seq::empty(), 1))
    } else if s[0] == 0x5c {
        match spec_escape(s.drop_first()) {
            None => None,
            Some((rep, k)) => match spec_str_body(s.skip(1 + k)) {
                None => None,
                Some((rest, m)) => Some((rep + rest, 1 + k + m)),
            },
        }
    } else if s[0] < 0x20 {
        None
    } else {
        match spec_str_body(s.drop_first()) {
            None => None,
            Some((rest, m)) => Some((seq![s[0]] + rest, 1 + m)),
        }
    }
}

#[via_fn]
proof fn spec_str_body_decreases(s: Seq<u8>) {
    if s.len() > 0 {
        lemma_escape_len(s.drop_first());
    }
}

/// An accepted string body uses between one and all of the remaining bytes.
pub proof fn lemma_str_body_len(s: Seq<u8>)
    ensures
        spec_str_body(s) matches Some(p) ==> 1 <= p.1 <= s.len(),
    decreases s.len(),
{
    if s.len() > 0 && s[0] == 0x5c {
        lemma_escape_len(s.drop_first());
        match spec_escape(s.drop_first()) {
            Some(p) => lemma_str_body_len(s.skip(1 + p.1)),
            None => {},
        }
    } else if s.len() > 0 && s[0] != 0x22 && s[0] >= 0x20 {
        lemma_str_body_len(s.drop_first());
    }
}

/// A decimal digit byte.
pub open spec fn is_digit_b(b: u8) -> bool {
    0x30 <= b <= 0x39
}

/// The length of the leading digit run of `s`.
pub open spec fn digits_len(s: Seq<u8>) -> int
    decreases s.len(),
{
    if s.len() > 0 && is_digit_b(s[0]) {
        1 + digits_len(s.drop_first())
    } else {
        0
    }
}

/// `digits_len` stays in bounds and stops at the first non-digit byte.
pub proof fn lemma_digits_len(s: Seq<u8>)
    ensures
        0 <= digits_len(s) <= s.len(),
        digits_len(s) < s.len() ==> !is_digit_b(s[digits_len(s)]),
        forall|m: int| 0 <= m < digits_len(s) ==> is_digit_b(s[m]),
    decreases s.len(),
{
    if s.len() > 0 && is_digit_b(s[0]) {
        lemma_digits_len(s.drop_first());
        assert forall|m: int| 1 <= m < s.len() implies s[m] == s.drop_first()[m - 1] by {}
    }
}

/// The value of a digit byte string read in base ten, most significant
/// first.
pub open spec fn dec_val_b(s: Seq<u8>) -> int
    decreases s.len(),
{
    if s.len() == 0 {
        0
    } else {
        dec_val_b(s.drop_last()) * 10 + (s.last() - 0x30)
    }
}

/// A digit byte string's value only grows when digits are appended.
pub proof fn lemma_dec_val_b_monotone(s: Seq<u8>, n: int)
    requires
        0 <= n <= s.len(),
        forall|m: int| 0 <= m < s.len() ==> is_digit_b(#[trigger] s[m]),
    ensures
        dec_val_b(s.take(n)) <= dec_val_b(s),
    decreases s.len() - n,
{
    if n < s.len() {
        assert(s.take(n + 1).drop_last() =~= s.take(n));
        assert(s.take(n + 1).last() == s[n]);
        lemma_dec_val_b_nonneg(s.take(n));
        assert(dec_val_b(s.take(n)) <= dec_val_b(s.take(n + 1)));
        lemma_dec_val_b_monotone(s, n + 1);
        assert(s.take(s.len() as int) =~= s);
    } else {
        assert(s.take(n) =~= s);
    }
}

/// Digit byte strings have non-negative value.
pub proof fn lemma_dec_val_b_nonneg(s: Seq<u8>)
    requires
        forall|m: int| 0 <= m < s.len() ==> is_digit_b(#[trigger] s[m]),
    ensures
        dec_val_b(s) >= 0,
    decreases s.len(),
{
    if s.len() > 0 {
        assert(forall|m: int| 0 <= m < s.len() - 1 ==> is_digit_b(#[trigger] s.drop_last()[m]));
        lemma_dec_val_b_nonneg(s.drop_last());
    }
}

/// A JSON number as the records use it: one or more digits whose value fits
/// in a `u64`, optionally followed by a fraction, which is read and dropped.
pub open spec fn spec_number(s: Seq<u8>) -> Option<(u64, int)> {
    let k = digits_len(s);
    if k == 0 {
        None
    } else if dec_val_b(s.take(k)) > u64::MAX {
        None
    } else if k < s.len() && s[k] == 0x2e {
        let fl = digits_len(s.skip(k + 1));
        if fl == 0 {
            None
        } else {
            Some((dec_val_b(s.take(k)) as u64, k + 1 + fl))
        }
    } else {
        Some((dec_val_b(s.take(k)) as u64, k))
    }
}

/// An accepted number uses between one and all of the remaining bytes.
pub proof fn lemma_number_len(s: Seq<u8>)
    ensures
        spec_number(s) matches Some(p) ==> 1 <= p.1 <= s.len(),
{
    lemma_digits_len(s);
    let k = digits_len(s);
    if k > 0 && k < s.len() && s[k] == 0x2e {
        lemma_digits_len(s.skip(k + 1));
    }
}

/// The items of a JSON array of strings, read just after the opening
/// bracket or a comma: the unescaped items and the input bytes used, the
/// closing bracket included.
pub open spec fn spec_array_items(s: Seq<u8>) -> Option<(Seq<Seq<u8>>, int)>
    decreases s.len(),
    via spec_array_items_decreases
{
    let w = ws_len(s);
    let t = s.skip(w);
    if t.len() == 0 || t[0] != 0x22 {
        None
    } else {
        match spec_str_body(t.drop_first()) {
            None => None,
            Some((tok, m)) => {
                let u = t.skip(1 + m);
                let w2 = ws_len(u);
                let v = u.skip(w2);
                if v.len() == 0 {
                    None
                } else if v[0] == 0x5d {
                    Some((seq![tok], w + 1 + m + w2 + 1))
                } else if v[0] == 0x2c {
                    match spec_array_items(v.drop_first()) {
                        None => None,
                        Some((rest, c)) => Some((seq![tok] + rest, w + 1 + m + w2 + 1 + c)),
                    }
                } else {
                    None
                }
            },
        }
    }
}

#[via_fn]
proof fn spec_array_items_decreases(s: Seq<u8>) {
    lemma_ws_len(s);
    let t = s.skip(ws_len(s));
    if t.len() > 0 {
        lemma_str_body_len(t.drop_first());
        match spec_str_body(t.drop_first()) {
            Some(p) => lemma_ws_len(t.skip(1 + p.1)),
            None => {},
        }
    }
}

/// A JSON array of strings, read at the opening bracket.
pub open spec fn spec_array(s: Seq<u8>) -> Option<(Seq<Seq<u8>>, int)> {
    if s.len() == 0 || s[0] != 0x5b {
        None
    } else {
        let w = ws_len(s.drop_first());
        let t = s.skip(1 + w);
        if t.len() > 0 && t[0] == 0x5d {
            Some((Seq::empty(), 1 + w + 1))
        } else {
            match spec_array_items(s.drop_first()) {
                None => None,
                Some((items, c)) => Some((items, 1 + c)),
            }
        }
    }
}

/// An accepted array uses between one and all of the remaining bytes.
pub proof fn lemma_array_items_len(s: Seq<u8>)
    ensures
        spec_array_items(s) matches Some(p) ==> 1 <= p.1 <= s.len(),
    decreases s.len(),
{
    lemma_ws_len(s);
    let w = ws_len(s);
    let t = s.skip(w);
    if t.len() > 0 && t[0] == 0x22 {
        lemma_str_body_len(t.drop_first());
        match spec_str_body(t.drop_first()) {
            Some(p) => {
                let u = t.skip(1 + p.1);
                lemma_ws_len(u);
                let w2 = ws_len(u);
                let v = u.skip(w2);
                if v.len() > 0 && v[0] == 0x2c {
                    lemma_array_items_len(v.drop_first());
                }
            },
            None => {},
        }
    }
}

/// An accepted array uses between one and all of the remaining bytes.
pub proof fn lemma_array_len(s: Seq<u8>)
    ensures
        spec_array(s) matches Some(p) ==> 1 <= p.1 <= s.len(),
{
    if s.len() > 0 && s[0] == 0x5b {
        lemma_ws_len(s.drop_first());
        lemma_array_items_len(s.drop_first());
    }
}

/// The members of a Refresh Record object, read just after the opening
/// brace or a comma, carrying the fields seen so far. Each key must be one
/// of the record's two, must not repeat, and both must be present when the
/// closing brace arrives.
pub open spec fn spec_refresh_members(
    s: Seq<u8>,
    rt0: Option<Seq<u8>>,
    sc0: Option<Seq<u8>>,
) -> Option<(Seq<u8>, Seq<u8>, int)>
    decreases s.len(),
    via spec_refresh_members_decreases
{
    let w = ws_len(s);
    let t = s.skip(w);
    if t.len() == 0 || t[0] != 0x22 {
        None
    } else {
        match spec_str_body(t.drop_first()) {
            None => None,
            Some((key, m)) => {
                let u = t.skip(1 + m);
                let w2 = ws_len(u);
                let v = u.skip(w2);
                if v.len() == 0 || v[0] != 0x3a {
                    None
                } else {
                    let w3 = ws_len(v.drop_first());
                    let y = v.skip(1 + w3);
                    if y.len() == 0 || y[0] != 0x22 {
                        None
                    } else {
                        match spec_str_body(y.drop_first()) {
                            None => None,
                            Some((val, n)) => {
                                let slots: Option<(Option<Seq<u8>>, Option<Seq<u8>>)> = if key
                                    == key_refresh_token() && rt0 is None {
                                    Some((Some(val), sc0))
                                } else if key == key_scopes() && sc0 is None {
                                    Some((rt0, Some(val)))
                                } else {
                                    None
                                };
                                match slots {
                                    None => None,
                                    Some((rt1, sc1)) => {
                                        let pre = w + 1 + m + w2 + 1 + w3 + 1 + n;
                                        let z = y.skip(1 + n);
                                        let w4 = ws_len(z);
                                        let q = z.skip(w4);
                                        if q.len() == 0 {
                                            None
                                        } else if q[0] == 0x7d {
                                            match (rt1, sc1) {
                                                (Some(a), Some(b)) => Some((a, b, pre + w4 + 1)),
                                                _ => None,
                                            }
                                        } else if q[0] == 0x2c {
                                            match spec_refresh_members(q.drop_first(), rt1, sc1) {
                                                None => None,
                                                Some((a, b, c)) => Some(
                                                    (a, b, pre + w4 + 1 + c),
                                                ),
                                            }
                                        } else {
                                            None
                                        }
                                    },
                                }
                            },
                        }
                    }
                }
            },
        }
    }
}

#[via_fn]
proof fn spec_refresh_members_decreases(s: Seq<u8>, rt0: Option<Seq<u8>>, sc0: Option<Seq<u8>>) {
    lemma_ws_len(s);
    let t = s.skip(ws_len(s));
    if t.len() > 0 {
        lemma_str_body_len(t.drop_first());
        match spec_str_body(t.drop_first()) {
            Some(p) => {
                let u = t.skip(1 + p.1);
                lemma_ws_len(u);
                let v = u.skip(ws_len(u));
                if v.len() > 0 {
                    lemma_ws_len(v.drop_first());
                    let y = v.skip(1 + ws_len(v.drop_first()));
                    if y.len() > 0 {
                        lemma_str_body_len(y.drop_first());
                        match spec_str_body(y.drop_first()) {
                            Some(p2) => {
                                lemma_ws_len(y.skip(1 + p2.1));
                            },
                            None => {},
                        }
                    }
                }
            },
            None => {},
        }
    }
}

/// A Refresh Record as bytes: the object with both fields, surrounded by
/// nothing but whitespace.
pub open spec fn spec_parse_refresh(s: Seq<u8>) -> Option<(Seq<u8>, Seq<u8>)> {
    let w = ws_len(s);
    let t = s.skip(w);
    if t.len() == 0 || t[0] != 0x7b {
        None
    } else {
        match spec_refresh_members(t.drop_first(), None, None) {
            None => None,
            Some((rt, sc, c)) => {
                let rest = t.skip(1 + c);
                if ws_len(rest) == rest.len() {
                    Some((rt, sc))
                } else {
                    None
                }
            },
        }
    }
}

/// The fields of an Access Record while its members are being read.
pub struct AccessSlots {
    pub at: Option<Seq<u8>>,
    pub tt: Option<Seq<u8>>,
    pub ei: Option<u64>,
    pub ea: Option<u64>,
    pub sc: Option<Seq<Seq<u8>>>,
}

/// The parsed fields of an Access Record.
pub struct AccessFields {
    pub at: Seq<u8>,
    pub tt: Seq<u8>,
    pub ei: u64,
    pub ea: u64,
    pub sc: Seq<Seq<u8>>,
}

/// One member's value of an Access Record, read at the value's first byte:
/// the key names the type its value must have — text for the tokens, a
/// number for the two expiry fields, an array of strings for the scope list
/// — and fills the one field of `f0` the key names, which must still be
/// empty.
#[verifier::opaque]
pub open spec fn spec_access_value(y: Seq<u8>, key: Seq<u8>, f0: AccessSlots) -> Option<
    (AccessSlots, int),
> {
    if key == key_access_token() && f0.at is None {
        if y.len() > 0 && y[0] == 0x22 {
            match spec_str_body(y.drop_first()) {
                None => None,
                Some((val, n)) => Some((AccessSlots { at: Some(val), ..f0 }, 1 + n)),
            }
        } else {
            None
        }
    } else if key == key_token_type() && f0.tt is None {
        if y.len() > 0 && y[0] == 0x22 {
            match spec_str_body(y.drop_first()) {
                None => None,
                Some((val, n)) => Some((AccessSlots { tt: Some(val), ..f0 }, 1 + n)),
            }
        } else {
            None
        }
    } else if key == key_expires_in() && f0.ei is None {
        match spec_number(y) {
            None => None,
            Some((val, n)) => Some((AccessSlots { ei: Some(val), ..f0 }, n)),
        }
    } else if key == key_expires_at() && f0.ea is None {
        match spec_number(y) {
            None => None,
            Some((val, n)) => Some((AccessSlots { ea: Some(val), ..f0 }, n)),
        }
    } else if key == key_scope() && f0.sc is None {
        match spec_array(y) {
            None => None,
            Some((val, n)) => Some((AccessSlots { sc: Some(val), ..f0 }, n)),
        }
    } else {
        None
    }
}

/// An accepted member value uses between one and all of the remaining
/// bytes.
pub proof fn lemma_access_value_len(y: Seq<u8>, key: Seq<u8>, f0: AccessSlots)
    ensures
        spec_access_value(y, key, f0) matches Some(p) ==> 1 <= p.1 <= y.len(),
{
    reveal(spec_access_value);
    if y.len() > 0 {
        lemma_str_body_len(y.drop_first());
    }
    lemma_number_len(y);
    lemma_array_len(y);
}

/// The members of an Access Record object, read just after the opening
/// brace or a comma, carrying the fields seen so far. The key names the
/// type its value must have: text for the tokens, a number for the two
/// expiry fields, an array of strings for the scope list.
pub open spec fn spec_access_members(s: Seq<u8>, f0: AccessSlots) -> Option<(AccessFields, int)>
    decreases s.len(),
    via spec_access_members_decreases
{
    let w = ws_len(s);
    let t = s.skip(w);
    if t.len() == 0 || t[0] != 0x22 {
        None
    } else {
        match spec_str_body(t.drop_first()) {
            None => None,
            Some((key, m)) => {
                let u = t.skip(1 + m);
                let w2 = ws_len(u);
                let v = u.skip(w2);
                if v.len() == 0 || v[0] != 0x3a {
                    None
                } else {
                    let w3 = ws_len(v.drop_first());
                    let y = v.skip(1 + w3);
                    match spec_access_value(y, key, f0) {
                        None => None,
                        Some((f1, nv)) => {
                            let pre = w + 1 + m + w2 + 1 + w3 + nv;
                            let z = y.skip(nv);
                            let w4 = ws_len(z);
                            let q = z.skip(w4);
                            if q.len() == 0 {
                                None
                            } else if q[0] == 0x7d {
                                match (f1.at, f1.tt, f1.ei, f1.ea, f1.sc) {
                                    (Some(a), Some(b), Some(c), Some(d), Some(e)) => Some(
                                        (
                                            AccessFields { at: a, tt: b, ei: c, ea: d, sc: e },
                                            pre + w4 + 1,
                                        ),
                                    ),
                                    _ => None,
                                }
                            } else if q[0] == 0x2c {
                                match spec_access_members(q.drop_first(), f1) {
                                    None => None,
                                    Some((f, c)) => Some((f, pre + w4 + 1 + c)),
                                }
                            } else {
                                None
                            }
                        },
                    }
                }
            },
        }
    }
}

#[via_fn]
proof fn spec_access_members_decreases(s: Seq<u8>, f0: AccessSlots) {
    lemma_ws_len(s);
    let t = s.skip(ws_len(s));
    if t.len() > 0 {
        lemma_str_body_len(t.drop_first());
        match spec_str_body(t.drop_first()) {
            Some(p) => {
                let u = t.skip(1 + p.1);
                lemma_ws_len(u);
                let v = u.skip(ws_len(u));
                if v.len() > 0 {
                    lemma_ws_len(v.drop_first());
                    let y = v.skip(1 + ws_len(v.drop_first()));
                    if y.len() > 0 {
                        lemma_str_body_len(y.drop_first());
                        match spec_str_body(y.drop_first()) {
                            Some(p2) => {
                                lemma_ws_len(y.skip(1 + p2.1));
                            },
                            None => {},
                        }
                    }
                    lemma_access_value_len(y, p.0, f0);
                    match spec_access_value(y, p.0, f0) {
                        Some(p3) => {
                            lemma_ws_len(y.skip(p3.1));
                        },
                        None => {},
                    }
                }
            },
            None => {},
        }
    }
}

/// An Access Record as bytes: the object with all five fields, surrounded
/// by nothing but whitespace.
pub open spec fn spec_parse_access(s: Seq<u8>) -> Option<AccessFields> {
    let w = ws_len(s);
    let t = s.skip(w);
    if t.len() == 0 || t[0] != 0x7b {
        None
    } else {
        match spec_access_members(
            t.drop_first(),
            AccessSlots { at: None, tt: None, ei: None, ea: None, sc: None },
        ) {
            None => None,
            Some((f, c)) => {
                let rest = t.skip(1 + c);
                if ws_len(rest) == rest.len() {
                    Some(f)
                } else {
                    None
                }
            },
        }
    }
}

/// Byte-string equality.
fn bytes_eq(a: &Vec<u8>, b: &Vec<u8>) -> (r: bool)
    ensures
        r == (a@ == b@),
{
    if a.len() != b.len() {
        return false;
    }
    let mut i: usize = 0;
    while i < a.len()
        invariant
            i <= a@.len(),
            a@.len() == b@.len(),
            forall|m: int| 0 <= m < i ==> a@[m] == b@[m],
        decreases a@.len() - i,
    {
        if a[i] != b[i] {
            return false;
        }
        i = i + 1;
    }
    proof {
        assert(a@ =~= b@);
    }
    true
}

/// Steps past JSON whitespace.
fn skip_ws(b: &Vec<u8>, i: usize) -> (r: usize)
    requires
        i <= b@.len(),
    ensures
        i <= r <= b@.len(),
        r - i == ws_len(b@.skip(i as int)),
{
    let mut j = i;
    while j < b.len() && (b[j] == 0x20 || b[j] == 0x09 || b[j] == 0x0a || b[j] == 0x0d)
        invariant
            i <= j <= b@.len(),
            ws_len(b@.skip(i as int)) == (j - i) + ws_len(b@.skip(j as int)),
        decreases b@.len() - j,
    {
        proof {
            assert(b@.skip(j as int)[0] == b@[j as int]);
            assert(b@.skip(j as int).drop_first() =~= b@.skip(j + 1));
        }
        j = j + 1;
    }
    proof {
        if j < b@.len() {
            assert(b@.skip(j as int)[0] == b@[j as int]);
        }
        assert(ws_len(b@.skip(j as int)) == 0);
    }
    j
}

/// Reads one escape sequence, pushing its replacement bytes.
fn parse_escape_into(b: &Vec<u8>, i: usize, acc: &mut Vec<u8>) -> (r: Option<usize>)
    requires
        i <= b@.len(),
    ensures
        match r {
            Some(j) => {
                &&& spec_escape(b@.skip(i as int)) matches Some(p) && p.1 == j - i && final(acc)@
                    == old(acc)@ + p.0
                &&& i < j <= b@.len()
            },
            None => spec_escape(b@.skip(i as int)) is None && final(acc)@ == old(acc)@,
        },
{
    let ghost s = b@.skip(i as int);
    if i >= b.len() {
        return None;
    }
    let c = b[i];
    proof {
        assert(s[0] == c);
        assert(acc@ =~= old(acc)@);
    }
    if c == 0x22 || c == 0x5c || c == 0x2f {
        acc.push(c);
        proof {
            assert(acc@ =~= old(acc)@ + seq![c]);
        }
        return Some(i + 1);
    }
    if c == 0x62 {
        acc.push(0x08);
        proof {
            assert(acc@ =~= old(acc)@ + seq![0x08u8]);
        }
        return Some(i + 1);
    }
    if c == 0x66 {
        acc.push(0x0c);
        proof {
            assert(acc@ =~= old(acc)@ + seq![0x0cu8]);
        }
        return Some(i + 1);
    }
    if c == 0x6e {
        acc.push(0x0a);
        proof {
            assert(acc@ =~= old(acc)@ + seq![0x0au8]);
        }
        return Some(i + 1);
    }
    if c == 0x72 {
        acc.push(0x0d);
        proof {
            assert(acc@ =~= old(acc)@ + seq![0x0du8]);
        }
        return Some(i + 1);
    }
    if c == 0x74 {
        acc.push(0x09);
        proof {
            assert(acc@ =~= old(acc)@ + seq![0x09u8]);
        }
        return Some(i + 1);
    }
    if c == 0x75 {
        if b.len() - i < 5 {
            return None;
        }
        let h1 = hex_val_exec(b[i + 1]);
        let h2 = hex_val_exec(b[i + 2]);
        let h3 = hex_val_exec(b[i + 3]);
        let h4 = hex_val_exec(b[i + 4]);
        proof {
            assert(s[1] == b@[i + 1] && s[2] == b@[i + 2]);
            assert(s[3] == b@[i + 3] && s[4] == b@[i + 4]);
        }
        match (h1, h2, h3, h4) {
            (Some(d1), Some(d2), Some(d3), Some(d4)) => {
                let cp: u32 = (d1 as u32) * 4096 + (d2 as u32) * 256 + (d3 as u32) * 16 + (
                d4 as u32);
                if 0xd800 <= cp && cp <= 0xdfff {
                    return None;
                }
                if cp < 0x80 {
                    acc.push(cp as u8);
                    proof {
                        assert(acc@ =~= old(acc)@ + cp_bytes(cp as int));
                    }
                } else if cp < 0x800 {
                    acc.push(0xc0 + (cp / 64) as u8);
                    acc.push(0x80 + (cp % 64) as u8);
                    proof {
                        assert(acc@ =~= old(acc)@ + cp_bytes(cp as int));
                    }
                } else {
                    acc.push(0xe0 + (cp / 4096) as u8);
                    acc.push(0x80 + ((cp / 64) % 64) as u8);
                    acc.push(0x80 + (cp % 64) as u8);
                    proof {
                        assert(acc@ =~= old(acc)@ + cp_bytes(cp as int));
                    }
                }
                return Some(i + 5);
            },
            _ => {
                return None;
            },
        }
    }
    None
}

/// The value of a hexadecimal digit byte.
fn hex_val_exec(b: u8) -> (r: Option<u8>)
    ensures
        match r {
            Some(v) => hex_val(b) == v as int && v < 16,
            None => hex_val(b) == -1,
        },
{
    if 0x30 <= b && b <= 0x39 {
        Some(b - 0x30)
    } else if 0x61 <= b && b <= 0x66 {
        Some(b - 0x61 + 10)
    } else if 0x41 <= b && b <= 0x46 {
        Some(b - 0x41 + 10)
    } else {
        None
    }
}

/// Reads a JSON string body just after its opening quote, unescaping as it
/// goes; the returned position is just past the closing quote.
#[verifier::rlimit(60)]
#[verifier::spinoff_prover]
fn parse_str_body(b: &Vec<u8>, i: usize) -> (r: Option<(Vec<u8>, usize)>)
    requires
        i <= b@.len(),
    ensures
        match r {
            Some(p) => spec_str_body(b@.skip(i as int)) == Some((p.0@, p.1 - i as int)) && i
                < p.1 <= b@.len(),
            None => spec_str_body(b@.skip(i as int)) is None,
        },
{
    let mut acc: Vec<u8> = Vec::new();
    let mut j = i;
    loop
        invariant
            i <= j <= b@.len(),
            ({
                let whole = spec_str_body(b@.skip(i as int));
                match spec_str_body(b@.skip(j as int)) {
                    Some(p) => whole == Some((acc@ + p.0, (j - i) + p.1)),
                    None => whole is None,
                }
            }),
        decreases b@.len() - j,
    {
        if j >= b.len() {
            return None;
        }
        let c = b[j];
        proof {
            assert(b@.skip(j as int)[0] == c);
        }
        if c == 0x22 {
            proof {
                assert(spec_str_body(b@.skip(j as int)) == Some((Seq::<u8>::empty(), 1int)));
                assert(acc@ + Seq::<u8>::empty() =~= acc@);
            }
            return Some((acc, j + 1));
        }
        if c == 0x5c {
            let ghost pre = acc@;
            let ghost sj = b@.skip(j as int);
            match parse_escape_into(b, j + 1, &mut acc) {
                Some(k) => {
                    proof {
                        assert(sj.drop_first() =~= b@.skip(j + 1));
                        let p = spec_escape(b@.skip(j + 1)).unwrap();
                        assert(acc@ =~= pre + p.0);
                        assert(sj.skip(1 + p.1) =~= b@.skip(k as int));
                        match spec_str_body(b@.skip(k as int)) {
                            Some(q) => {
                                assert(spec_str_body(sj) == Some(
                                    (p.0 + q.0, 1 + p.1 + q.1),
                                ));
                                assert((pre + p.0) + q.0 =~= pre + (p.0 + q.0));
                            },
                            None => {
                                assert(spec_str_body(sj) is None);
                            },
                        }
                    }
                    j = k;
                },
                None => {
                    proof {
                        assert(sj.drop_first() =~= b@.skip(j + 1));
                        assert(spec_str_body(sj) is None);
                    }
                    return None;
                },
            }
        } else if c < 0x20 {
            return None;
        } else {
            let ghost pre = acc@;
            let ghost sj = b@.skip(j as int);
            acc.push(c);
            proof {
                assert(sj.drop_first() =~= b@.skip(j + 1));
                match spec_str_body(b@.skip(j + 1)) {
                    Some(q) => {
                        assert(spec_str_body(sj) == Some((seq![c] + q.0, 1 + q.1)));
                        assert((pre.push(c)) + q.0 =~= pre + (seq![c] + q.0));
                    },
                    None => {
                        assert(spec_str_body(sj) is None);
                    },
                }
            }
            j = j + 1;
        }
    }
}

/// A run of digits only grows `digits_len`.
proof fn lemma_digits_len_at_least(s: Seq<u8>, n: int)
    requires
        0 <= n <= s.len(),
        forall|m: int| 0 <= m < n ==> is_digit_b(#[trigger] s[m]),
    ensures
        digits_len(s) >= n,
    decreases n,
{
    if n > 0 {
        assert(is_digit_b(s[0]));
        assert forall|m: int| 0 <= m < n - 1 implies is_digit_b(s.drop_first()[m]) by {
            assert(s.drop_first()[m] == s[m + 1]);
        }
        lemma_digits_len_at_least(s.drop_first(), n - 1);
        assert(digits_len(s) == 1 + digits_len(s.drop_first()));
    } else {
        lemma_digits_len(s);
    }
}

/// Reads a JSON number, returning its integer part.
#[verifier::rlimit(60)]
fn parse_number(b: &Vec<u8>, i: usize) -> (r: Option<(u64, usize)>)
    requires
        i <= b@.len(),
    ensures
        match r {
            Some(p) => spec_number(b@.skip(i as int)) == Some((p.0, p.1 - i as int)) && i < p.1
                <= b@.len(),
            None => spec_number(b@.skip(i as int)) is None,
        },
{
    let ghost s = b@.skip(i as int);
    let mut j = i;
    let mut acc: u64 = 0;
    while j < b.len() && 0x30 <= b[j] && b[j] <= 0x39
        invariant
            i <= j <= b@.len(),
            s == b@.skip(i as int),
            digits_len(s) == (j - i) + digits_len(b@.skip(j as int)),
            forall|m: int| i <= m < j ==> is_digit_b(#[trigger] b@[m]),
            acc == dec_val_b(b@.subrange(i as int, j as int)),
        decreases b@.len() - j,
    {
        let d: u64 = (b[j] - 0x30) as u64;
        proof {
            assert(b@.skip(j as int)[0] == b@[j as int]);
            assert(b@.skip(j as int).drop_first() =~= b@.skip(j + 1));
            assert(b@.subrange(i as int, j + 1).drop_last() =~= b@.subrange(i as int, j as int));
            assert(b@.subrange(i as int, j + 1).last() == b@[j as int]);
        }
        let next = match acc.checked_mul(10) {
            Some(t) => t.checked_add(d),
            None => None,
        };
        match next {
            Some(v) => {
                acc = v;
            },
            None => {
                // Already this prefix of the digit run is out of range, so
                // the whole number is.
                proof {
                    lemma_digits_len(s);
                    let k = digits_len(s);
                    assert forall|m: int| 0 <= m < j + 1 - i implies is_digit_b(#[trigger] s[m]) by {
                        assert(s[m] == b@[i + m]);
                    }
                    lemma_digits_len_at_least(s, j + 1 - i);
                    assert(s.take(k).take(j + 1 - i) =~= s.take(j + 1 - i));
                    assert(s.take(j + 1 - i) =~= b@.subrange(i as int, j + 1));
                    assert(dec_val_b(s.take(j + 1 - i)) == acc * 10 + d);
                    assert forall|m: int| 0 <= m < k implies is_digit_b(#[trigger] s.take(k)[m]) by {
                        assert(s.take(k)[m] == s[m]);
                    }
                    lemma_dec_val_b_monotone(s.take(k), j + 1 - i);
                    assert(dec_val_b(s.take(k)) > u64::MAX);
                }
                return None;
            },
        }
        j = j + 1;
    }
    proof {
        if j < b@.len() {
            assert(b@.skip(j as int)[0] == b@[j as int]);
        }
        assert(digits_len(b@.skip(j as int)) == 0);
        assert(digits_len(s) == j - i);
        assert(s.take(j - i) =~= b@.subrange(i as int, j as int));
    }
    if j == i {
        return None;
    }
    if j < b.len() && b[j] == 0x2e {
        proof {
            assert(s[j - i] == b@[j as int]);
        }
        let mut j2 = j + 1;
        while j2 < b.len() && 0x30 <= b[j2] && b[j2] <= 0x39
            invariant
                j + 1 <= j2 <= b@.len(),
                digits_len(b@.skip(j + 1)) == (j2 - j - 1) + digits_len(b@.skip(j2 as int)),
            decreases b@.len() - j2,
        {
            proof {
                assert(b@.skip(j2 as int)[0] == b@[j2 as int]);
                assert(b@.skip(j2 as int).drop_first() =~= b@.skip(j2 + 1));
            }
            j2 = j2 + 1;
        }
        proof {
            if j2 < b@.len() {
                assert(b@.skip(j2 as int)[0] == b@[j2 as int]);
            }
            assert(digits_len(b@.skip(j2 as int)) == 0);
            assert(s.skip(j - i + 1) =~= b@.skip(j + 1));
        }
        if j2 == j + 1 {
            return None;
        }
        return Some((acc, j2));
    }
    Some((acc, j))
}

/// Reads a JSON array of strings at its opening bracket.
#[verifier::rlimit(100)]
#[verifier::spinoff_prover]
fn parse_array(b: &Vec<u8>, i: usize) -> (r: Option<(Vec<Vec<u8>>, usize)>)
    requires
        i <= b@.len(),
    ensures
        match r {
            Some(p) => spec_array(b@.skip(i as int)) == Some(
                (p.0@.map_values(|v: Vec<u8>| v@), p.1 - i as int),
            ) && i < p.1 <= b@.len(),
            None => spec_array(b@.skip(i as int)) is None,
        },
{
    let ghost s = b@.skip(i as int);
    if i >= b.len() || b[i] != 0x5b {
        proof {
            if i < b@.len() {
                assert(s[0] == b@[i as int]);
            }
        }
        return None;
    }
    proof {
        assert(s[0] == b@[i as int]);
        assert(s.drop_first() =~= b@.skip(i + 1));
    }
    let w_end = skip_ws(b, i + 1);
    if w_end < b.len() && b[w_end] == 0x5d {
        let empty_items: Vec<Vec<u8>> = Vec::new();
        proof {
            assert(s.skip(1 + ws_len(s.drop_first())) =~= b@.skip(w_end as int));
            assert(b@.skip(w_end as int)[0] == b@[w_end as int]);
            assert(empty_items@.map_values(|v: Vec<u8>| v@) =~= Seq::<Seq<u8>>::empty());
        }
        return Some((empty_items, w_end + 1));
    }
    let mut items: Vec<Vec<u8>> = Vec::new();
    let mut cur = i + 1;
    proof {
        assert(s.drop_first() =~= b@.skip(i + 1));
        assert(s.skip(1 + ws_len(s.drop_first())) =~= b@.skip(w_end as int));
        if w_end < b@.len() {
            assert(b@.skip(w_end as int)[0] == b@[w_end as int]);
        }
        assert(items@.map_values(|v: Vec<u8>| v@) + Seq::<Seq<u8>>::empty() =~= Seq::<
            Seq<u8>,
        >::empty());
    }
    loop
        invariant
            i + 1 <= cur <= b@.len(),
            s == b@.skip(i as int),
            s.len() > 0 && s[0] == 0x5b,
            s.drop_first() == b@.skip(i + 1),
            !(s.skip(1 + ws_len(s.drop_first())).len() > 0 && s.skip(
                1 + ws_len(s.drop_first()),
            )[0] == 0x5d),
            ({
                let whole = spec_array_items(b@.skip(i + 1));
                match spec_array_items(b@.skip(cur as int)) {
                    Some(p) => whole == Some(
                        (items@.map_values(|v: Vec<u8>| v@) + p.0, (cur - i - 1) + p.1),
                    ),
                    None => whole is None,
                }
            }),
        decreases b@.len() - cur,
    {
        let ghost sc = b@.skip(cur as int);
        let w2 = skip_ws(b, cur);
        proof {
            assert(sc.skip(ws_len(sc)) =~= b@.skip(w2 as int));
        }
        if w2 >= b.len() || b[w2] != 0x22 {
            proof {
                if w2 < b@.len() {
                    assert(b@.skip(w2 as int)[0] == b@[w2 as int]);
                }
                assert(spec_array_items(sc) is None);
            }
            return None;
        }
        proof {
            assert(b@.skip(w2 as int)[0] == b@[w2 as int]);
            assert(b@.skip(w2 as int).drop_first() =~= b@.skip(w2 + 1));
        }
        match parse_str_body(b, w2 + 1) {
            None => {
                proof {
                    assert(spec_array_items(sc) is None);
                }
                return None;
            },
            Some((tok, after)) => {
                let ghost m = after - (w2 + 1);
                proof {
                    assert(b@.skip(w2 as int).skip(1 + m) =~= b@.skip(after as int));
                }
                let w3 = skip_ws(b, after);
                proof {
                    assert(b@.skip(after as int).skip(ws_len(b@.skip(after as int))) =~= b@.skip(
                        w3 as int,
                    ));
                }
                if w3 >= b.len() {
                    proof {
                        assert(spec_array_items(sc) is None);
                    }
                    return None;
                }
                proof {
                    assert(b@.skip(w3 as int)[0] == b@[w3 as int]);
                }
                if b[w3] == 0x5d {
                    proof {
                        assert(spec_array_items(sc) == Some((seq![tok@], w3 + 1 - cur)));
                        assert(items@.map_values(|v: Vec<u8>| v@) + seq![tok@] =~= (items@.push(
                            tok,
                        )).map_values(|v: Vec<u8>| v@));
                    }
                    items.push(tok);
                    return Some((items, w3 + 1));
                }
                if b[w3] == 0x2c {
                    proof {
                        assert(b@.skip(w3 as int).drop_first() =~= b@.skip(w3 + 1));
                        let ghost pm = items@.map_values(|v: Vec<u8>| v@);
                        match spec_array_items(b@.skip(w3 + 1)) {
                            Some(p) => {
                                assert(spec_array_items(sc) == Some(
                                    (seq![tok@] + p.0, (w3 + 1 - cur) + p.1),
                                ));
                                assert(pm + (seq![tok@] + p.0) =~= (pm.push(tok@)) + p.0);
                                assert((items@.push(tok)).map_values(|v: Vec<u8>| v@) =~= pm.push(
                                    tok@,
                                ));
                            },
                            None => {
                                assert(spec_array_items(sc) is None);
                            },
                        }
                    }
                    items.push(tok);
                    cur = w3 + 1;
                } else {
                    proof {
                        assert(spec_array_items(sc) is None);
                    }
                    return None;
                }
            },
        }
    }
}

/// The view of an optional byte vector.
pub open spec fn ovb(o: Option<Vec<u8>>) -> Option<Seq<u8>> {
    match o {
        Some(v) => Some(v@),
        None => None,
    }
}

/// The view of an optional vector of byte vectors.
pub open spec fn ova(o: Option<Vec<Vec<u8>>>) -> Option<Seq<Seq<u8>>> {
    match o {
        Some(v) => Some(v@.map_values(|x: Vec<u8>| x@)),
        None => None,
    }
}

/// Reads the members of a Refresh Record object just after its opening
/// brace or a comma.
#[verifier::rlimit(100)]
#[verifier::spinoff_prover]
fn parse_refresh_members(b: &Vec<u8>, i: usize, rt0: Option<Vec<u8>>, sc0: Option<Vec<u8>>) -> (r:
    Option<(Vec<u8>, Vec<u8>, usize)>)
    requires
        i <= b@.len(),
    ensures
        match r {
            Some(p) => spec_refresh_members(b@.skip(i as int), ovb(rt0), ovb(sc0)) == Some(
                (p.0@, p.1@, p.2 - i as int),
            ) && i < p.2 <= b@.len(),
            None => spec_refresh_members(b@.skip(i as int), ovb(rt0), ovb(sc0)) is None,
        },
    decreases b@.len() - i,
{
    let ghost s = b@.skip(i as int);
    let w = skip_ws(b, i);
    proof {
        assert(s.skip(ws_len(s)) =~= b@.skip(w as int));
    }
    if w >= b.len() || b[w] != 0x22 {
        proof {
            if w < b@.len() {
                assert(b@.skip(w as int)[0] == b@[w as int]);
            }
        }
        return None;
    }
    proof {
        assert(b@.skip(w as int)[0] == b@[w as int]);
        assert(b@.skip(w as int).drop_first() =~= b@.skip(w + 1));
    }
    let key = match parse_str_body(b, w + 1) {
        None => {
            return None;
        },
        Some(p) => p,
    };
    let after_key = key.1;
    let key = key.0;
    proof {
        assert(b@.skip(w as int).skip(1 + (after_key - w - 1)) =~= b@.skip(after_key as int));
    }
    let w2 = skip_ws(b, after_key);
    proof {
        assert(b@.skip(after_key as int).skip(ws_len(b@.skip(after_key as int))) =~= b@.skip(
            w2 as int,
        ));
    }
    if w2 >= b.len() || b[w2] != 0x3a {
        proof {
            if w2 < b@.len() {
                assert(b@.skip(w2 as int)[0] == b@[w2 as int]);
            }
        }
        return None;
    }
    proof {
        assert(b@.skip(w2 as int)[0] == b@[w2 as int]);
        assert(b@.skip(w2 as int).drop_first() =~= b@.skip(w2 + 1));
    }
    let w3 = skip_ws(b, w2 + 1);
    proof {
        assert(b@.skip(w2 as int).skip(1 + ws_len(b@.skip(w2 + 1))) =~= b@.skip(w3 as int));
    }
    if w3 >= b.len() || b[w3] != 0x22 {
        proof {
            if w3 < b@.len() {
                assert(b@.skip(w3 as int)[0] == b@[w3 as int]);
            }
        }
        return None;
    }
    proof {
        assert(b@.skip(w3 as int)[0] == b@[w3 as int]);
        assert(b@.skip(w3 as int).drop_first() =~= b@.skip(w3 + 1));
    }
    let val = match parse_str_body(b, w3 + 1) {
        None => {
            return None;
        },
        Some(p) => p,
    };
    let after_val = val.1;
    let val = val.0;
    let rt_key = ("refresh_token").as_bytes_vec();
    let sc_key = ("scopes").as_bytes_vec();
    let is_rt = bytes_eq(&key, &rt_key);
    let is_sc = bytes_eq(&key, &sc_key);
    let rt1: Option<Vec<u8>>;
    let sc1: Option<Vec<u8>>;
    if is_rt && rt0.is_none() {
        rt1 = Some(val);
        sc1 = sc0;
    } else if is_sc && sc0.is_none() {
        rt1 = rt0;
        sc1 = Some(val);
    } else {
        return None;
    }
    proof {
        assert(b@.skip(w3 as int).skip(1 + (after_val - w3 - 1)) =~= b@.skip(after_val as int));
    }
    let w4 = skip_ws(b, after_val);
    proof {
        assert(b@.skip(after_val as int).skip(ws_len(b@.skip(after_val as int))) =~= b@.skip(
            w4 as int,
        ));
    }
    if w4 >= b.len() {
        return None;
    }
    proof {
        assert(b@.skip(w4 as int)[0] == b@[w4 as int]);
    }
    if b[w4] == 0x7d {
        match (rt1, sc1) {
            (Some(a), Some(c)) => {
                return Some((a, c, w4 + 1));
            },
            _ => {
                return None;
            },
        }
    }
    if b[w4] == 0x2c {
        proof {
            assert(b@.skip(w4 as int).drop_first() =~= b@.skip(w4 + 1));
        }
        match parse_refresh_members(b, w4 + 1, rt1, sc1) {
            None => {
                return None;
            },
            Some(p) => {
                return Some(p);
            },
        }
    }
    None
}

/// Relies on `String::from_utf8`: it succeeds exactly when the bytes are
/// valid UTF-8, and the resulting string holds those bytes' decoding.
#[verifier::external_body]
fn bytes_to_string(v: Vec<u8>) -> (r: Option<String>)
    ensures
        match r {
            Some(s) => valid_utf8(v@) && s@ == decode_utf8(v@),
            None => !valid_utf8(v@),
        },
{
    match String::from_utf8(v) {
        Ok(s) => Some(s),
        Err(_) => None,
    }
}

/// Deserializes a Refresh Record. An error means the bytes are not a
/// well-formed record: not the JSON object described by the format, or
/// holding field bytes that are not UTF-8 text.
pub fn parse_refresh_record(bytes: &Vec<u8>) -> (r: Result<RefreshFile, CredmonError>)
    ensures
        match r {
            Ok(rf) => spec_parse_refresh(bytes@) matches Some(p) && valid_utf8(p.0) && valid_utf8(
                p.1,
            ) && rf.refresh_token@ == decode_utf8(p.0) && rf.scopes@ == decode_utf8(p.1),
            Err(e) => e is GenericError && (spec_parse_refresh(bytes@) is None
                || (spec_parse_refresh(bytes@) matches Some(p) && !(valid_utf8(p.0) && valid_utf8(
                p.1,
            )))),
        },
{
    proof {
        assert(bytes@.skip(0) =~= bytes@);
    }
    let w = skip_ws(bytes, 0);
    if w >= bytes.len() || bytes[w] != 0x7b {
        proof {
            if w < bytes@.len() {
                assert(bytes@.skip(w as int)[0] == bytes@[w as int]);
            }
        }
        return Err(CredmonError::GenericError(String::from_str("malformed refresh record")));
    }
    proof {
        assert(bytes@.skip(w as int)[0] == bytes@[w as int]);
        assert(bytes@.skip(w as int).drop_first() =~= bytes@.skip(w + 1));
    }
    match parse_refresh_members(bytes, w + 1, None, None) {
        None => Err(CredmonError::GenericError(String::from_str("malformed refresh record"))),
        Some((rtb, scb, j)) => {
            proof {
                assert(bytes@.skip(w as int).skip(1 + (j - w - 1)) =~= bytes@.skip(j as int));
            }
            let e = skip_ws(bytes, j);
            if e != bytes.len() {
                return Err(
                    CredmonError::GenericError(String::from_str("malformed refresh record")),
                );
            }
            let ghost grt = rtb@;
            let ghost gsc = scb@;
            match bytes_to_string(rtb) {
                None => Err(
                    CredmonError::GenericError(String::from_str("malformed refresh record")),
                ),
                Some(rt) => match bytes_to_string(scb) {
                    None => Err(
                        CredmonError::GenericError(String::from_str("malformed refresh record")),
                    ),
                    Some(sc) => Ok(RefreshFile { refresh_token: rt, scopes: sc }),
                },
            }
        },
    }
}

/// Reads one member's value of an Access Record at the value's first byte,
/// filling the still-empty field that `key` names.
#[verifier::rlimit(100)]
#[verifier::spinoff_prover]
fn parse_access_value(
    b: &Vec<u8>,
    i: usize,
    key: &Vec<u8>,
    at0: Option<Vec<u8>>,
    tt0: Option<Vec<u8>>,
    ei0: Option<u64>,
    ea0: Option<u64>,
    sc0: Option<Vec<Vec<u8>>>,
) -> (r: Option<(Option<Vec<u8>>, Option<Vec<u8>>, Option<u64>, Option<u64>, Option<Vec<Vec<u8>>>, usize)>)
    requires
        i <= b@.len(),
    ensures
        ({
            let f0 = AccessSlots { at: ovb(at0), tt: ovb(tt0), ei: ei0, ea: ea0, sc: ova(sc0) };
            match r {
                Some(p) => spec_access_value(b@.skip(i as int), key@, f0) == Some(
                    (
                        AccessSlots { at: ovb(p.0), tt: ovb(p.1), ei: p.2, ea: p.3, sc: ova(p.4) },
                        p.5 - i as int,
                    ),
                ) && i < p.5 <= b@.len(),
                None => spec_access_value(b@.skip(i as int), key@, f0) is None,
            }
        }),
{
    proof {
        reveal(spec_access_value);
    }
    let ghost y = b@.skip(i as int);
    let at_key = ("access_token").as_bytes_vec();
    let tt_key = ("token_type").as_bytes_vec();
    let ei_key = ("expires_in").as_bytes_vec();
    let ea_key = ("expires_at").as_bytes_vec();
    let sc_key = ("scope").as_bytes_vec();
    if bytes_eq(key, &at_key) && at0.is_none() {
        if i >= b.len() || b[i] != 0x22 {
            proof {
                if i < b@.len() {
                    assert(y[0] == b@[i as int]);
                }
            }
            return None;
        }
        proof {
            assert(y[0] == b@[i as int]);
            assert(y.drop_first() =~= b@.skip(i + 1));
        }
        match parse_str_body(b, i + 1) {
            None => None,
            Some((val, av)) => Some((Some(val), tt0, ei0, ea0, sc0, av)),
        }
    } else if bytes_eq(key, &tt_key) && tt0.is_none() {
        if i >= b.len() || b[i] != 0x22 {
            proof {
                if i < b@.len() {
                    assert(y[0] == b@[i as int]);
                }
            }
            return None;
        }
        proof {
            assert(y[0] == b@[i as int]);
            assert(y.drop_first() =~= b@.skip(i + 1));
        }
        match parse_str_body(b, i + 1) {
            None => None,
            Some((val, av)) => Some((at0, Some(val), ei0, ea0, sc0, av)),
        }
    } else if bytes_eq(key, &ei_key) && ei0.is_none() {
        match parse_number(b, i) {
            None => None,
            Some((val, av)) => Some((at0, tt0, Some(val), ea0, sc0, av)),
        }
    } else if bytes_eq(key, &ea_key) && ea0.is_none() {
        match parse_number(b, i) {
            None => None,
            Some((val, av)) => Some((at0, tt0, ei0, Some(val), sc0, av)),
        }
    } else if bytes_eq(key, &sc_key) && sc0.is_none() {
        match parse_array(b, i) {
            None => None,
            Some((val, av)) => Some((at0, tt0, ei0, ea0, Some(val), av)),
        }
    } else {
        None
    }
}

/// Reads the members of an Access Record object just after its opening
/// brace or a comma.
#[verifier::rlimit(100)]
#[verifier::spinoff_prover]
fn parse_access_members(
    b: &Vec<u8>,
    i: usize,
    at0: Option<Vec<u8>>,
    tt0: Option<Vec<u8>>,
    ei0: Option<u64>,
    ea0: Option<u64>,
    sc0: Option<Vec<Vec<u8>>>,
) -> (r: Option<(Vec<u8>, Vec<u8>, u64, u64, Vec<Vec<u8>>, usize)>)
    requires
        i <= b@.len(),
    ensures
        ({
            let f0 = AccessSlots { at: ovb(at0), tt: ovb(tt0), ei: ei0, ea: ea0, sc: ova(sc0) };
            match r {
                Some(p) => spec_access_members(b@.skip(i as int), f0) == Some(
                    (
                        AccessFields {
                            at: p.0@,
                            tt: p.1@,
                            ei: p.2,
                            ea: p.3,
                            sc: p.4@.map_values(|x: Vec<u8>| x@),
                        },
                        p.5 - i as int,
                    ),
                ) && i < p.5 <= b@.len(),
                None => spec_access_members(b@.skip(i as int), f0) is None,
            }
        }),
    decreases b@.len() - i,
{
    let ghost s = b@.skip(i as int);
    let w = skip_ws(b, i);
    proof {
        assert(s.skip(ws_len(s)) =~= b@.skip(w as int));
    }
    if w >= b.len() || b[w] != 0x22 {
        proof {
            if w < b@.len() {
                assert(b@.skip(w as int)[0] == b@[w as int]);
            }
        }
        return None;
    }
    proof {
        assert(b@.skip(w as int)[0] == b@[w as int]);
        assert(b@.skip(w as int).drop_first() =~= b@.skip(w + 1));
    }
    let key = match parse_str_body(b, w + 1) {
        None => {
            return None;
        },
        Some(p) => p,
    };
    let after_key = key.1;
    let key = key.0;
    proof {
        assert(b@.skip(w as int).skip(1 + (after_key - w - 1)) =~= b@.skip(after_key as int));
    }
    let w2 = skip_ws(b, after_key);
    proof {
        assert(b@.skip(after_key as int).skip(ws_len(b@.skip(after_key as int))) =~= b@.skip(
            w2 as int,
        ));
    }
    if w2 >= b.len() || b[w2] != 0x3a {
        proof {
            if w2 < b@.len() {
                assert(b@.skip(w2 as int)[0] == b@[w2 as int]);
            }
        }
        return None;
    }
    proof {
        assert(b@.skip(w2 as int)[0] == b@[w2 as int]);
        assert(b@.skip(w2 as int).drop_first() =~= b@.skip(w2 + 1));
    }
    let w3 = skip_ws(b, w2 + 1);
    proof {
        assert(b@.skip(w2 as int).skip(1 + ws_len(b@.skip(w2 + 1))) =~= b@.skip(w3 as int));
    }
    let stepped = match parse_access_value(b, w3, &key, at0, tt0, ei0, ea0, sc0) {
        None => {
            return None;
        },
        Some(p) => p,
    };
    let (at1, tt1, ei1, ea1, sc1, after_val) = stepped;
    proof {
        assert(b@.skip(w3 as int).skip(after_val - w3) =~= b@.skip(after_val as int));
    }
    let w4 = skip_ws(b, after_val);
    proof {
        assert(b@.skip(after_val as int).skip(ws_len(b@.skip(after_val as int))) =~= b@.skip(
            w4 as int,
        ));
    }
    if w4 >= b.len() {
        return None;
    }
    proof {
        assert(b@.skip(w4 as int)[0] == b@[w4 as int]);
    }
    if b[w4] == 0x7d {
        match (at1, tt1, ei1, ea1, sc1) {
            (Some(a), Some(t), Some(ei), Some(ea), Some(sc)) => {
                return Some((a, t, ei, ea, sc, w4 + 1));
            },
            _ => {
                return None;
            },
        }
    }
    if b[w4] == 0x2c {
        proof {
            assert(b@.skip(w4 as int).drop_first() =~= b@.skip(w4 + 1));
        }
        match parse_access_members(b, w4 + 1, at1, tt1, ei1, ea1, sc1) {
            None => {
                return None;
            },
            Some(p) => {
                return Some(p);
            },
        }
    }
    None
}

/// Deserializes an Access Record. An error means the bytes are not a
/// well-formed record: not the JSON object described by the format, or
/// holding field bytes that are not UTF-8 text.
#[verifier::rlimit(100)]
#[verifier::spinoff_prover]
pub fn parse_access_record(bytes: &Vec<u8>) -> (r: Result<AccessFile, CredmonError>)
    ensures
        match r {
            Ok(af) => spec_parse_access(bytes@) matches Some(f) && valid_utf8(f.at) && valid_utf8(
                f.tt,
            ) && af.access_token@ == decode_utf8(f.at) && af.token_type@ == decode_utf8(f.tt)
                && af.expires_in == f.ei && af.expires_at == f.ea && af.scope@.len() == f.sc.len()
                && (forall|k: int|
                0 <= k < f.sc.len() ==> valid_utf8(#[trigger] f.sc[k]) && af.scope@[k]@
                    == decode_utf8(f.sc[k])),
            Err(e) => e is GenericError && (spec_parse_access(bytes@) is None
                || (spec_parse_access(bytes@) matches Some(f) && !(valid_utf8(f.at) && valid_utf8(
                f.tt,
            ) && (forall|k: int| 0 <= k < f.sc.len() ==> valid_utf8(#[trigger] f.sc[k]))))),
        },
{
    proof {
        assert(bytes@.skip(0) =~= bytes@);
    }
    let w = skip_ws(bytes, 0);
    if w >= bytes.len() || bytes[w] != 0x7b {
        proof {
            if w < bytes@.len() {
                assert(bytes@.skip(w as int)[0] == bytes@[w as int]);
            }
        }
        return Err(CredmonError::GenericError(String::from_str("malformed access record")));
    }
    proof {
        assert(bytes@.skip(w as int)[0] == bytes@[w as int]);
        assert(bytes@.skip(w as int).drop_first() =~= bytes@.skip(w + 1));
    }
    match parse_access_members(bytes, w + 1, None, None, None, None, None) {
        None => Err(CredmonError::GenericError(String::from_str("malformed access record"))),
        Some((atb, ttb, ei, ea, scb, j)) => {
            proof {
                assert(bytes@.skip(w as int).skip(1 + (j - w - 1)) =~= bytes@.skip(j as int));
            }
            let e = skip_ws(bytes, j);
            if e != bytes.len() {
                return Err(
                    CredmonError::GenericError(String::from_str("malformed access record")),
                );
            }
            let ghost gsc = scb@.map_values(|x: Vec<u8>| x@);
            let access_token = match bytes_to_string(atb) {
                None => {
                    return Err(
                        CredmonError::GenericError(String::from_str("malformed access record")),
                    );
                },
                Some(v) => v,
            };
            let token_type = match bytes_to_string(ttb) {
                None => {
                    return Err(
                        CredmonError::GenericError(String::from_str("malformed access record")),
                    );
                },
                Some(v) => v,
            };
            let mut scope: Vec<String> = Vec::new();
            let mut k: usize = 0;
            let scb = scb;
            while k < scb.len()
                invariant
                    k <= scb@.len(),
                    gsc == scb@.map_values(|x: Vec<u8>| x@),
                    spec_parse_access(bytes@) is Some,
                    spec_parse_access(bytes@).unwrap().sc == gsc,
                    scope@.len() == k,
                    forall|m: int|
                        0 <= m < k ==> valid_utf8(#[trigger] gsc[m]) && scope@[m]@ == decode_utf8(
                            gsc[m],
                        ),
                decreases scb@.len() - k,
            {
                let item = scb[k].clone();
                proof {
                    assert(item@ == gsc[k as int]);
                }
                match bytes_to_string(item) {
                    None => {
                        proof {
                            assert(!(forall|m: int|
                                0 <= m < gsc.len() ==> valid_utf8(#[trigger] gsc[m]))) by {
                                assert(0 <= k < gsc.len() && !valid_utf8(gsc[k as int]));
                            }
                        }
                        return Err(
                            CredmonError::GenericError(
                                String::from_str("malformed access record"),
                            ),
                        );
                    },
                    Some(v) => {
                        scope.push(v);
                    },
                }
                k = k + 1;
            }
            Ok(AccessFile { access_token, token_type, expires_in: ei, expires_at: ea, scope })
        },
    }
}

/// What the writer escapes, the reader reads back: a string body made of an
/// escaped payload and its closing quote parses to exactly that payload.
pub proof fn lemma_str_body_of_escaped(p: Seq<u8>, rest: Seq<u8>)
    ensures
        spec_str_body(esc_bytes(p) + seq![0x22u8] + rest) == Some(
            (p, esc_bytes(p).len() as int + 1),
        ),
    decreases p.len(),
{
    let s = esc_bytes(p) + seq![0x22u8] + rest;
    if p.len() == 0 {
        assert(esc_bytes(p) =~= Seq::<u8>::empty());
        assert(s =~= seq![0x22u8] + rest);
        assert(s[0] == 0x22);
        assert(spec_str_body(s) == Some((Seq::<u8>::empty(), 1int)));
        assert(p =~= Seq::<u8>::empty());
    } else {
        let b = p[0];
        let p2 = p.drop_first();
        let tail = esc_bytes(p2) + seq![0x22u8] + rest;
        assert(esc_bytes(p) == esc_byte(b) + esc_bytes(p2));
        assert(s =~= esc_byte(b) + tail);
        lemma_str_body_of_escaped(p2, rest);
        if b == 0x22 || b == 0x5c {
            assert(esc_byte(b) =~= seq![0x5cu8, b]);
            assert(s[0] == 0x5c);
            assert(s.drop_first() =~= seq![b] + tail);
            assert(s.drop_first()[0] == b);
            assert(spec_escape(s.drop_first()) == Some((seq![b], 1int)));
            assert(s.skip(2) =~= tail);
            assert(spec_str_body(s) == Some(
                (seq![b] + p2, 1 + 1 + (esc_bytes(p2).len() as int + 1)),
            ));
            assert(seq![b] + p2 =~= p);
        } else if b < 0x20 {
            let h1 = hex_digit(b / 16);
            let h2 = hex_digit(b % 16);
            assert(esc_byte(b) =~= seq![0x5cu8, 0x75u8, 0x30u8, 0x30u8, h1, h2]);
            assert(s[0] == 0x5c);
            let e = s.drop_first();
            assert(e =~= seq![0x75u8, 0x30u8, 0x30u8, h1, h2] + tail);
            assert(e[0] == 0x75 && e[1] == 0x30 && e[2] == 0x30 && e[3] == h1 && e[4] == h2);
            assert(e.len() >= 5);
            assert(hex_val(0x30) == 0);
            assert(hex_val(h1) == b / 16 && hex_val(h2) == b % 16);
            let cp = hex_val(e[1]) * 4096 + hex_val(e[2]) * 256 + hex_val(e[3]) * 16 + hex_val(
                e[4],
            );
            assert(cp == b);
            assert(!(0xd800 <= cp <= 0xdfff));
            assert(cp_bytes(cp) =~= seq![b]);
            assert(spec_escape(e) == Some((seq![b], 5int)));
            assert(s.skip(6) =~= tail);
            assert(spec_str_body(s) == Some(
                (seq![b] + p2, 1 + 5 + (esc_bytes(p2).len() as int + 1)),
            ));
            assert(seq![b] + p2 =~= p);
        } else {
            assert(esc_byte(b) =~= seq![b]);
            assert(s[0] == b);
            assert(s.drop_first() =~= tail);
            assert(spec_str_body(s) == Some((seq![b] + p2, 1 + (esc_bytes(p2).len() as int + 1))));
            assert(seq![b] + p2 =~= p);
        }
    }
}

/// Every byte the decimal writer emits is a digit.
pub proof fn lemma_dec_digits_are_digits(n: u64)
    ensures
        dec_digits(n).len() >= 1,
        forall|m: int| 0 <= m < dec_digits(n).len() ==> is_digit_b(#[trigger] dec_digits(n)[m]),
    decreases n,
{
    if n >= 10 {
        lemma_dec_digits_are_digits(n / 10);
        assert forall|m: int| 0 <= m < dec_digits(n).len() implies is_digit_b(
            #[trigger] dec_digits(n)[m],
        ) by {
            if m < dec_digits(n / 10).len() {
                assert(dec_digits(n)[m] == dec_digits(n / 10)[m]);
            }
        }
    }
}

/// Reading back the decimal writer's digits yields the number.
pub proof fn lemma_dec_val_of_dec_digits(n: u64)
    ensures
        dec_val_b(dec_digits(n)) == n,
    decreases n,
{
    if n < 10 {
        assert(dec_digits(n) == seq![(0x30 + n) as u8]);
        assert(dec_digits(n).drop_last() =~= Seq::<u8>::empty());
        assert(dec_digits(n).last() == (0x30 + n) as u8);
        assert(dec_val_b(Seq::<u8>::empty()) == 0);
        assert(dec_val_b(dec_digits(n)) == dec_val_b(dec_digits(n).drop_last()) * 10 + (dec_digits(n).last() - 0x30));
        assert((0x30 + n) as u8 == 0x30 + n);
        assert(dec_val_b(dec_digits(n)) == n);
    } else {
        lemma_dec_val_of_dec_digits(n / 10);
        assert(dec_digits(n).drop_last() =~= dec_digits(n / 10));
        assert(dec_digits(n).last() == (0x30 + (n % 10)) as u8);
        assert((0x30 + (n % 10)) as u8 - 0x30 == n % 10);
        assert(dec_val_b(dec_digits(n)) == (n / 10) * 10 + (n % 10));
        assert(n == (n / 10) * 10 + (n % 10));
    }
}

/// A digit run up to a non-digit (or the end) is what `digits_len` measures.
pub proof fn lemma_digits_len_exact(s: Seq<u8>, k: int)
    requires
        0 <= k <= s.len(),
        forall|m: int| 0 <= m < k ==> is_digit_b(#[trigger] s[m]),
        k < s.len() ==> !is_digit_b(s[k]),
    ensures
        digits_len(s) == k,
    decreases s.len(),
{
    if s.len() > 0 && is_digit_b(s[0]) {
        assert forall|m: int| 1 <= m < s.len() implies s[m] == s.drop_first()[m - 1] by {}
        lemma_digits_len_exact(s.drop_first(), k - 1);
    }
}

/// What the writer prints as a number, the reader reads back, as long as
/// the next byte neither extends the digits nor starts a fraction.
pub proof fn lemma_number_of_digits(n: u64, rest: Seq<u8>)
    requires
        rest.len() > 0,
        !is_digit_b(rest[0]),
        rest[0] != 0x2e,
    ensures
        spec_number(dec_digits(n) + rest) == Some((n, dec_digits(n).len() as int)),
{
    let d = dec_digits(n);
    let s = d + rest;
    lemma_dec_digits_are_digits(n);
    assert forall|m: int| 0 <= m < d.len() implies is_digit_b(#[trigger] s[m]) by {
        assert(s[m] == d[m]);
    }
    assert(s[d.len() as int] == rest[0]);
    lemma_digits_len_exact(s, d.len() as int);
    assert(s.take(d.len() as int) =~= d);
    lemma_dec_val_of_dec_digits(n);
    assert(dec_val_b(s.take(d.len() as int)) == n);
}

/// What the writer prints as the scope array's items, the reader reads
/// back, up to the closing bracket.
#[verifier::rlimit(100)]
pub proof fn lemma_array_items_of_render(sc: Seq<Seq<char>>, rest: Seq<u8>)
    requires
        sc.len() >= 1,
    ensures
        spec_array_items(spec_render_items(sc) + seq![0x5du8] + rest) == Some(
            (
                sc.map_values(|x: Seq<char>| encode_utf8(x)),
                spec_render_items(sc).len() as int + 1,
            ),
        ),
    decreases sc.len(),
{
    let items = spec_render_items(sc);
    let s = items + seq![0x5du8] + rest;
    let q0 = quoted(encode_utf8(sc[0]));
    if sc.len() == 1 {
        assert(items == q0);
        assert(s[0] == q0[0]);
        assert(q0[0] == 0x22);
        assert(!is_json_ws(s[0]));
        assert(ws_len(s) == 0);
        assert(s.skip(0) =~= s);
        assert(s.drop_first() =~= esc_bytes(encode_utf8(sc[0])) + seq![0x22u8] + (seq![0x5du8]
            + rest));
        lemma_str_body_of_escaped(encode_utf8(sc[0]), seq![0x5du8] + rest);
        let m: int = esc_bytes(encode_utf8(sc[0])).len() as int + 1;
        let u = s.skip(1 + m);
        assert(u =~= seq![0x5du8] + rest);
        assert(u[0] == 0x5d);
        assert(!is_json_ws(u[0]));
        assert(ws_len(u) == 0);
        assert(u.skip(0) =~= u);
        assert(spec_array_items(s) == Some(
            (seq![encode_utf8(sc[0])], 0 + 1 + m + 0 + 1),
        ));
        assert(seq![encode_utf8(sc[0])] =~= sc.map_values(|x: Seq<char>| encode_utf8(x)));
        assert(items.len() + 1 == 1 + m + 1) by {
            assert(items.len() == q0.len());
            assert(q0.len() == 1 + esc_bytes(encode_utf8(sc[0])).len() + 1);
        }
    } else {
        let tail_items = spec_render_items(sc.drop_first());
        assert(items == q0 + seq![0x2cu8] + tail_items);
        assert(s[0] == q0[0]);
        assert(q0[0] == 0x22);
        assert(ws_len(s) == 0);
        assert(s.skip(0) =~= s);
        assert(s.drop_first() =~= esc_bytes(encode_utf8(sc[0])) + seq![0x22u8] + (seq![0x2cu8]
            + tail_items + seq![0x5du8] + rest));
        lemma_str_body_of_escaped(
            encode_utf8(sc[0]),
            seq![0x2cu8] + tail_items + seq![0x5du8] + rest,
        );
        let m: int = esc_bytes(encode_utf8(sc[0])).len() as int + 1;
        let u = s.skip(1 + m);
        assert(u =~= seq![0x2cu8] + tail_items + seq![0x5du8] + rest);
        assert(u[0] == 0x2c);
        assert(ws_len(u) == 0);
        assert(u.skip(0) =~= u);
        assert(u.drop_first() =~= tail_items + seq![0x5du8] + rest);
        lemma_array_items_of_render(sc.drop_first(), rest);
        let c: int = tail_items.len() as int + 1;
        assert(spec_array_items(u.drop_first()) == Some(
            (sc.drop_first().map_values(|x: Seq<char>| encode_utf8(x)), c),
        ));
        assert(spec_array_items(s) == Some(
            (
                seq![encode_utf8(sc[0])] + sc.drop_first().map_values(
                    |x: Seq<char>| encode_utf8(x),
                ),
                0 + 1 + m + 0 + 1 + c,
            ),
        ));
        assert(seq![encode_utf8(sc[0])] + sc.drop_first().map_values(
            |x: Seq<char>| encode_utf8(x),
        ) =~= sc.map_values(|x: Seq<char>| encode_utf8(x)));
        assert(items.len() == q0.len() + 1 + tail_items.len());
        assert(q0.len() == 1 + esc_bytes(encode_utf8(sc[0])).len() + 1);
    }
}

/// What the writer prints as the scope array, the reader reads back.
pub proof fn lemma_array_of_render(sc: Seq<Seq<char>>, rest: Seq<u8>)
    ensures
        spec_array(spec_render_array(sc) + rest) == Some(
            (
                sc.map_values(|x: Seq<char>| encode_utf8(x)),
                spec_render_array(sc).len() as int,
            ),
        ),
{
    let arr = spec_render_array(sc);
    let s = arr + rest;
    assert(s[0] == 0x5b);
    if sc.len() == 0 {
        assert(spec_render_items(sc) =~= Seq::<u8>::empty());
        assert(s =~= seq![0x5bu8, 0x5du8] + rest);
        assert(s.drop_first() =~= seq![0x5du8] + rest);
        assert(s.drop_first()[0] == 0x5d);
        assert(ws_len(s.drop_first()) == 0);
        assert(s.skip(1) =~= s.drop_first());
        assert(spec_array(s) == Some((Seq::<Seq<u8>>::empty(), 2int)));
        assert(sc.map_values(|x: Seq<char>| encode_utf8(x)) =~= Seq::<Seq<u8>>::empty());
        assert(arr.len() == 2);
    } else {
        let items = spec_render_items(sc);
        assert(items.len() >= 1) by {
            assert(quoted(encode_utf8(sc[0])).len() >= 2);
        }
        assert(s.drop_first() =~= items + seq![0x5du8] + rest);
        assert(items[0] == quoted(encode_utf8(sc[0]))[0]);
        assert(quoted(encode_utf8(sc[0]))[0] == 0x22);
        assert(s.drop_first()[0] == 0x22);
        assert(ws_len(s.drop_first()) == 0);
        assert(s.skip(1) =~= s.drop_first());
        assert(s.skip(1)[0] != 0x5d);
        lemma_array_items_of_render(sc, rest);
        assert(spec_array_items(s.drop_first()) == Some(
            (sc.map_values(|x: Seq<char>| encode_utf8(x)), items.len() as int + 1),
        ));
        assert(spec_array(s) == Some(
            (sc.map_values(|x: Seq<char>| encode_utf8(x)), 1 + items.len() as int + 1),
        ));
        assert(arr.len() == 1 + items.len() + 1);
    }
}

/// One record member as the writer lays it out — a quoted key, a colon, a
/// quoted string value — parses to exactly that key and value, and hands
/// the parse on to whatever follows the comma, or closes at the brace.
#[verifier::rlimit(100)]
#[verifier::spinoff_prover]
proof fn lemma_refresh_member_unfold(
    key: Seq<u8>,
    v: Seq<u8>,
    rest: Seq<u8>,
    rt0: Option<Seq<u8>>,
    sc0: Option<Seq<u8>>,
)
    requires
        rest.len() > 0,
        rest[0] == 0x2c || rest[0] == 0x7d,
    ensures
        ({
            let s = quoted(key) + seq![0x3au8] + quoted(v) + rest;
            let pre: int = quoted(key).len() as int + 1 + quoted(v).len() as int;
            let slots: Option<(Option<Seq<u8>>, Option<Seq<u8>>)> = if key == key_refresh_token()
                && rt0 is None {
                Some((Some(v), sc0))
            } else if key == key_scopes() && sc0 is None {
                Some((rt0, Some(v)))
            } else {
                None
            };
            match slots {
                None => spec_refresh_members(s, rt0, sc0) is None,
                Some(sl) => {
                    if rest[0] == 0x7d {
                        spec_refresh_members(s, rt0, sc0) == (match (sl.0, sl.1) {
                            (Some(a), Some(b)) => Some((a, b, pre + 1)),
                            _ => None::<(Seq<u8>, Seq<u8>, int)>,
                        })
                    } else {
                        spec_refresh_members(s, rt0, sc0) == (match spec_refresh_members(
                            rest.drop_first(),
                            sl.0,
                            sl.1,
                        ) {
                            None => None,
                            Some((a, b, c)) => Some((a, b, pre + 1 + c)),
                        })
                    }
                },
            }
        }),
{
    let s = quoted(key) + seq![0x3au8] + quoted(v) + rest;
    assert(s[0] == 0x22);
    assert(ws_len(s) == 0);
    assert(s.skip(0) =~= s);
    assert(s.drop_first() =~= esc_bytes(key) + seq![0x22u8] + (seq![0x3au8] + quoted(v) + rest));
    lemma_str_body_of_escaped(key, seq![0x3au8] + quoted(v) + rest);
    let mk: int = esc_bytes(key).len() as int + 1;
    assert(spec_str_body(s.drop_first()) == Some((key, mk)));
    let u = s.skip(1 + mk);
    assert(u =~= seq![0x3au8] + quoted(v) + rest);
    assert(u[0] == 0x3a);
    assert(ws_len(u) == 0);
    assert(u.skip(0) =~= u);
    assert(u.drop_first() =~= quoted(v) + rest);
    assert(u.drop_first()[0] == 0x22);
    assert(ws_len(u.drop_first()) == 0);
    let y = u.skip(1);
    assert(y =~= quoted(v) + rest);
    assert(y[0] == 0x22);
    assert(y.drop_first() =~= esc_bytes(v) + seq![0x22u8] + rest);
    lemma_str_body_of_escaped(v, rest);
    let nv: int = esc_bytes(v).len() as int + 1;
    assert(spec_str_body(y.drop_first()) == Some((v, nv)));
    let z = y.skip(1 + nv);
    assert(z =~= rest);
    assert(ws_len(z) == 0);
    assert(z.skip(0) =~= z);
    assert(quoted(key).len() == 1 + mk);
    assert(quoted(v).len() == 1 + nv);
}

/// One record member with an arbitrary rendered value parses to that value,
/// provided the value bytes parse on their own account, and hands the parse
/// on past the comma, or closes at the brace.
#[verifier::rlimit(100)]
#[verifier::spinoff_prover]
proof fn lemma_access_member_unfold(key: Seq<u8>, vb: Seq<u8>, rest: Seq<u8>, f0: AccessSlots)
    requires
        rest.len() > 0,
        rest[0] == 0x2c || rest[0] == 0x7d,
        vb.len() > 0,
        !is_json_ws(vb[0]),
    ensures
        ({
            let s = quoted(key) + seq![0x3au8] + vb + rest;
            let pre: int = quoted(key).len() as int + 1 + vb.len() as int;
            match spec_access_value(vb + rest, key, f0) {
                None => spec_access_members(s, f0) is None,
                Some((f1, nv)) => nv == vb.len() ==> {
                    if rest[0] == 0x7d {
                        spec_access_members(s, f0) == (match (f1.at, f1.tt, f1.ei, f1.ea, f1.sc) {
                            (Some(a), Some(b), Some(c), Some(d), Some(e)) => Some(
                                (AccessFields { at: a, tt: b, ei: c, ea: d, sc: e }, pre + 1),
                            ),
                            _ => None::<(AccessFields, int)>,
                        })
                    } else {
                        spec_access_members(s, f0) == (match spec_access_members(
                            rest.drop_first(),
                            f1,
                        ) {
                            None => None,
                            Some((f, c)) => Some((f, pre + 1 + c)),
                        })
                    }
                },
            }
        }),
{
    let s = quoted(key) + seq![0x3au8] + vb + rest;
    assert(s[0] == 0x22);
    assert(ws_len(s) == 0);
    assert(s.skip(0) =~= s);
    assert(s.drop_first() =~= esc_bytes(key) + seq![0x22u8] + (seq![0x3au8] + vb + rest));
    lemma_str_body_of_escaped(key, seq![0x3au8] + vb + rest);
    let mk: int = esc_bytes(key).len() as int + 1;
    assert(spec_str_body(s.drop_first()) == Some((key, mk)));
    let u = s.skip(1 + mk);
    assert(u =~= seq![0x3au8] + vb + rest);
    assert(u[0] == 0x3a);
    assert(ws_len(u) == 0);
    assert(u.skip(0) =~= u);
    assert(u.drop_first() =~= vb + rest);
    assert(u.drop_first()[0] == vb[0]);
    assert(ws_len(u.drop_first()) == 0);
    let y = u.skip(1);
    assert(y =~= vb + rest);
    match spec_access_value(y, key, f0) {
        None => {},
        Some((f1, nv)) => {
            if nv == vb.len() {
                let z = y.skip(nv);
                assert(z =~= rest);
                assert(ws_len(z) == 0);
                assert(z.skip(0) =~= z);
            }
        },
    }
    assert(quoted(key).len() == 1 + mk);
}

/// The Refresh Record round trip: the bytes the writer produces for any
/// refresh token and scope string parse back to exactly those fields.
pub proof fn lemma_refresh_round_trip(rt: Seq<char>, sc: Seq<char>)
    ensures
        spec_parse_refresh(spec_render_refresh(rt, sc)) == Some(
            (encode_utf8(rt), encode_utf8(sc)),
        ),
        valid_utf8(encode_utf8(rt)) && decode_utf8(encode_utf8(rt)) == rt,
        valid_utf8(encode_utf8(sc)) && decode_utf8(encode_utf8(sc)) == sc,
{
    broadcast use vstd::utf8::encode_utf8_valid_utf8, vstd::utf8::encode_utf8_decode_utf8;

    let full = spec_render_refresh(rt, sc);
    let body2 = quoted(key_scopes()) + seq![0x3au8] + quoted(encode_utf8(sc)) + seq![0x7du8];
    let rest1 = seq![0x2cu8] + body2;
    let body1 = quoted(key_refresh_token()) + seq![0x3au8] + quoted(encode_utf8(rt)) + rest1;
    assert(full =~= seq![0x7bu8] + body1);
    assert(full[0] == 0x7b);
    assert(ws_len(full) == 0);
    assert(full.skip(0) =~= full);
    assert(full.drop_first() =~= body1);
    lemma_refresh_member_unfold(
        key_refresh_token(),
        encode_utf8(rt),
        rest1,
        None,
        None,
    );
    assert(rest1.drop_first() =~= body2);
    lemma_refresh_member_unfold(
        key_scopes(),
        encode_utf8(sc),
        seq![0x7du8],
        Some(encode_utf8(rt)),
        None,
    );
    let pre2: int = quoted(key_scopes()).len() as int + 1 + quoted(encode_utf8(sc)).len() as int;
    assert(spec_refresh_members(body2, Some(encode_utf8(rt)), None) == Some(
        (encode_utf8(rt), encode_utf8(sc), pre2 + 1),
    ));
    let pre1: int = quoted(key_refresh_token()).len() as int + 1 + quoted(
        encode_utf8(rt),
    ).len() as int;
    assert(spec_refresh_members(body1, None, None) == Some(
        (encode_utf8(rt), encode_utf8(sc), pre1 + 1 + (pre2 + 1)),
    ));
    let c: int = pre1 + 1 + (pre2 + 1);
    let restf = full.skip(1 + c);
    assert(full.len() == 1 + c);
    assert(restf =~= Seq::<u8>::empty());
    assert(ws_len(restf) == 0);
}

/// The suffix of a written Access Record from each member on, innermost
/// last: naming these slices keeps the round-trip proof in small steps.
spec fn access_body5(sc: Seq<Seq<char>>) -> Seq<u8> {
    quoted(key_scope()) + seq![0x3au8] + spec_render_array(sc) + seq![0x7du8]
}

spec fn access_body4(ea: u64, sc: Seq<Seq<char>>) -> Seq<u8> {
    quoted(key_expires_at()) + seq![0x3au8] + dec_digits(ea) + (seq![0x2cu8] + access_body5(sc))
}

spec fn access_body3(ei: u64, ea: u64, sc: Seq<Seq<char>>) -> Seq<u8> {
    quoted(key_expires_in()) + seq![0x3au8] + dec_digits(ei) + (seq![0x2cu8] + access_body4(
        ea,
        sc,
    ))
}

spec fn access_body2(tt: Seq<char>, ei: u64, ea: u64, sc: Seq<Seq<char>>) -> Seq<u8> {
    quoted(key_token_type()) + seq![0x3au8] + quoted(encode_utf8(tt)) + (seq![0x2cu8]
        + access_body3(ei, ea, sc))
}

spec fn access_body1(at: Seq<char>, tt: Seq<char>, ei: u64, ea: u64, sc: Seq<Seq<char>>) -> Seq<
    u8,
> {
    quoted(key_access_token()) + seq![0x3au8] + quoted(encode_utf8(at)) + (seq![0x2cu8]
        + access_body2(tt, ei, ea, sc))
}

/// The slot states as the five members fill in, and the finished fields.
spec fn access_f0() -> AccessSlots {
    AccessSlots { at: None, tt: None, ei: None, ea: None, sc: None }
}

spec fn access_f1(at: Seq<char>) -> AccessSlots {
    AccessSlots { at: Some(encode_utf8(at)), ..access_f0() }
}

spec fn access_f2(at: Seq<char>, tt: Seq<char>) -> AccessSlots {
    AccessSlots { tt: Some(encode_utf8(tt)), ..access_f1(at) }
}

spec fn access_f3(at: Seq<char>, tt: Seq<char>, ei: u64) -> AccessSlots {
    AccessSlots { ei: Some(ei), ..access_f2(at, tt) }
}

spec fn access_f4(at: Seq<char>, tt: Seq<char>, ei: u64, ea: u64) -> AccessSlots {
    AccessSlots { ea: Some(ea), ..access_f3(at, tt, ei) }
}

spec fn access_fields_of(
    at: Seq<char>,
    tt: Seq<char>,
    ei: u64,
    ea: u64,
    sc: Seq<Seq<char>>,
) -> AccessFields {
    AccessFields {
        at: encode_utf8(at),
        tt: encode_utf8(tt),
        ei: ei,
        ea: ea,
        sc: sc.map_values(|x: Seq<char>| encode_utf8(x)),
    }
}

/// The scope member, the last of a written Access Record, parses to the
/// written scope list and closes the object.
#[verifier::rlimit(100)]
proof fn lemma_access_chain5(at: Seq<char>, tt: Seq<char>, ei: u64, ea: u64, sc: Seq<Seq<char>>)
    ensures
        spec_access_members(access_body5(sc), access_f4(at, tt, ei, ea)) == Some(
            (access_fields_of(at, tt, ei, ea, sc), access_body5(sc).len() as int),
        ),
{
    reveal(spec_access_value);
    let vb = spec_render_array(sc);
    let f4 = access_f4(at, tt, ei, ea);
    assert(vb[0] == 0x5b && !is_json_ws(vb[0]));
    lemma_array_of_render(sc, seq![0x7du8]);
    assert(spec_array(vb + seq![0x7du8]) == Some(
        (sc.map_values(|x: Seq<char>| encode_utf8(x)), vb.len() as int),
    ));
    let f5 = AccessSlots { sc: Some(sc.map_values(|x: Seq<char>| encode_utf8(x))), ..f4 };
    assert(spec_access_value(vb + seq![0x7du8], key_scope(), f4) == Some((f5, vb.len() as int)));
    lemma_access_member_unfold(key_scope(), vb, seq![0x7du8], f4);
    assert(spec_access_members(access_body5(sc), f4) == Some(
        (
            access_fields_of(at, tt, ei, ea, sc),
            quoted(key_scope()).len() as int + 1 + vb.len() as int + 1,
        ),
    ));
}

/// The `expires_at` member continues the chain.
#[verifier::rlimit(100)]
proof fn lemma_access_chain4(at: Seq<char>, tt: Seq<char>, ei: u64, ea: u64, sc: Seq<Seq<char>>)
    ensures
        spec_access_members(access_body4(ea, sc), access_f3(at, tt, ei)) == Some(
            (access_fields_of(at, tt, ei, ea, sc), access_body4(ea, sc).len() as int),
        ),
{
    reveal(spec_access_value);
    let vb = dec_digits(ea);
    let rest = seq![0x2cu8] + access_body5(sc);
    let f3 = access_f3(at, tt, ei);
    lemma_dec_digits_are_digits(ea);
    assert(vb.len() > 0 && is_digit_b(vb[0]));
    assert(!is_json_ws(vb[0]));
    lemma_number_of_digits(ea, rest);
    assert(spec_number(vb + rest) == Some((ea, vb.len() as int)));
    assert(spec_access_value(vb + rest, key_expires_at(), f3) == Some(
        (access_f4(at, tt, ei, ea), vb.len() as int),
    ));
    lemma_access_member_unfold(key_expires_at(), vb, rest, f3);
    assert(rest.drop_first() =~= access_body5(sc));
    lemma_access_chain5(at, tt, ei, ea, sc);
}

/// The `expires_in` member continues the chain.
#[verifier::rlimit(100)]
proof fn lemma_access_chain3(at: Seq<char>, tt: Seq<char>, ei: u64, ea: u64, sc: Seq<Seq<char>>)
    ensures
        spec_access_members(access_body3(ei, ea, sc), access_f2(at, tt)) == Some(
            (access_fields_of(at, tt, ei, ea, sc), access_body3(ei, ea, sc).len() as int),
        ),
{
    reveal(spec_access_value);
    let vb = dec_digits(ei);
    let rest = seq![0x2cu8] + access_body4(ea, sc);
    let f2 = access_f2(at, tt);
    lemma_dec_digits_are_digits(ei);
    assert(vb.len() > 0 && is_digit_b(vb[0]));
    assert(!is_json_ws(vb[0]));
    lemma_number_of_digits(ei, rest);
    assert(spec_number(vb + rest) == Some((ei, vb.len() as int)));
    assert(spec_access_value(vb + rest, key_expires_in(), f2) == Some(
        (access_f3(at, tt, ei), vb.len() as int),
    ));
    lemma_access_member_unfold(key_expires_in(), vb, rest, f2);
    assert(rest.drop_first() =~= access_body4(ea, sc));
    lemma_access_chain4(at, tt, ei, ea, sc);
}

/// The `token_type` member continues the chain.
#[verifier::rlimit(100)]
proof fn lemma_access_chain2(at: Seq<char>, tt: Seq<char>, ei: u64, ea: u64, sc: Seq<Seq<char>>)
    ensures
        spec_access_members(access_body2(tt, ei, ea, sc), access_f1(at)) == Some(
            (access_fields_of(at, tt, ei, ea, sc), access_body2(tt, ei, ea, sc).len() as int),
        ),
{
    reveal(spec_access_value);
    let vb = quoted(encode_utf8(tt));
    let rest = seq![0x2cu8] + access_body3(ei, ea, sc);
    let f1 = access_f1(at);
    assert(vb[0] == 0x22 && !is_json_ws(vb[0]));
    assert((vb + rest).drop_first() =~= esc_bytes(encode_utf8(tt)) + seq![0x22u8] + rest);
    lemma_str_body_of_escaped(encode_utf8(tt), rest);
    assert((vb + rest)[0] == 0x22);
    assert(spec_access_value(vb + rest, key_token_type(), f1) == Some(
        (access_f2(at, tt), vb.len() as int),
    ));
    lemma_access_member_unfold(key_token_type(), vb, rest, f1);
    assert(rest.drop_first() =~= access_body3(ei, ea, sc));
    lemma_access_chain3(at, tt, ei, ea, sc);
}

/// The `access_token` member opens the chain.
#[verifier::rlimit(100)]
proof fn lemma_access_chain1(at: Seq<char>, tt: Seq<char>, ei: u64, ea: u64, sc: Seq<Seq<char>>)
    ensures
        spec_access_members(access_body1(at, tt, ei, ea, sc), access_f0()) == Some(
            (
                access_fields_of(at, tt, ei, ea, sc),
                access_body1(at, tt, ei, ea, sc).len() as int,
            ),
        ),
{
    reveal(spec_access_value);
    let vb = quoted(encode_utf8(at));
    let rest = seq![0x2cu8] + access_body2(tt, ei, ea, sc);
    let f0 = access_f0();
    assert(vb[0] == 0x22 && !is_json_ws(vb[0]));
    assert((vb + rest).drop_first() =~= esc_bytes(encode_utf8(at)) + seq![0x22u8] + rest);
    lemma_str_body_of_escaped(encode_utf8(at), rest);
    assert((vb + rest)[0] == 0x22);
    assert(spec_access_value(vb + rest, key_access_token(), f0) == Some(
        (access_f1(at), vb.len() as int),
    ));
    lemma_access_member_unfold(key_access_token(), vb, rest, f0);
    assert(rest.drop_first() =~= access_body2(tt, ei, ea, sc));
    lemma_access_chain2(at, tt, ei, ea, sc);
}

/// The written record is the opening brace followed by the member chain.
#[verifier::rlimit(100)]
proof fn lemma_access_render_regroup(
    at: Seq<char>,
    tt: Seq<char>,
    ei: u64,
    ea: u64,
    sc: Seq<Seq<char>>,
)
    ensures
        spec_render_access(at, tt, ei, ea, sc) =~= seq![0x7bu8] + access_body1(
            at,
            tt,
            ei,
            ea,
            sc,
        ),
{
}

/// The Access Record round trip: the bytes the writer produces for any five
/// fields parse back to exactly those fields.
#[verifier::rlimit(100)]
pub proof fn lemma_access_round_trip(
    at: Seq<char>,
    tt: Seq<char>,
    ei: u64,
    ea: u64,
    sc: Seq<Seq<char>>,
)
    ensures
        spec_parse_access(spec_render_access(at, tt, ei, ea, sc)) == Some(
            AccessFields {
                at: encode_utf8(at),
                tt: encode_utf8(tt),
                ei: ei,
                ea: ea,
                sc: sc.map_values(|x: Seq<char>| encode_utf8(x)),
            },
        ),
        valid_utf8(encode_utf8(at)) && decode_utf8(encode_utf8(at)) == at,
        valid_utf8(encode_utf8(tt)) && decode_utf8(encode_utf8(tt)) == tt,
        forall|k: int|
            0 <= k < sc.len() ==> valid_utf8(#[trigger] encode_utf8(sc[k])) && decode_utf8(
                encode_utf8(sc[k]),
            ) == sc[k],
{
    broadcast use vstd::utf8::encode_utf8_valid_utf8, vstd::utf8::encode_utf8_decode_utf8;

    lemma_access_render_regroup(at, tt, ei, ea, sc);
    lemma_access_chain1(at, tt, ei, ea, sc);
    let full = spec_render_access(at, tt, ei, ea, sc);
    let body1 = access_body1(at, tt, ei, ea, sc);
    assert(full == seq![0x7bu8] + body1);
    assert(full[0] == 0x7b);
    assert(ws_len(full) == 0);
    assert(full.skip(0) =~= full);
    assert(full.drop_first() =~= body1);
    let c: int = body1.len() as int;
    assert(spec_access_members(full.drop_first(), access_f0()) == Some(
        (access_fields_of(at, tt, ei, ea, sc), c),
    ));
    let restf = full.skip(1 + c);
    assert(full.len() == 1 + c);
    assert(restf =~= Seq::<u8>::empty());
    assert(ws_len(restf) == 0);
}

} // verus!
