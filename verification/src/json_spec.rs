//! Specification of the JSON-dialect decoder.
//!
//! The decoder's behaviour is pinned down by a spec-level recursive-descent
//! parser over the raw byte sequence.  The dialect is standard JSON
//! restricted to integer numbers: any numeric literal containing `.`, `e`
//! or `E` fails.  Strings support the two-character escapes and `\uXXXX`
//! escapes with UTF-16 surrogate-pair combination; raw bytes outside the
//! ASCII range must form valid UTF-8.

use vstd::prelude::*;

use vstd::utf8::{decode_first_scalar, is_scalar, length_of_first_scalar, valid_first_scalar};

verus! {

/// The mathematical image of a decoded fixture value.
#[verifier::ext_equal]
pub enum JsonVal {
    Null,
    Bool(bool),
    Int(int),
    Str(Seq<char>),
    Arr(Seq<JsonVal>),
    Obj(Seq<(Seq<char>, JsonVal)>),
}

/// Outcome of a spec-level parse step: a value and the position after it,
/// or the byte offset at which decoding failed.
#[verifier::ext_equal]
pub enum Step<T> {
    Done { v: T, next: int },
    Fail { at: int },
}

pub open spec fn ws_byte(b: u8) -> bool {
    b == 32u8 || b == 10u8 || b == 13u8 || b == 9u8
}

pub open spec fn digit(b: u8) -> bool {
    48u8 <= b <= 57u8
}

pub open spec fn ws_scan(s: Seq<u8>, i: int) -> int
    decreases s.len() - i,
{
    if 0 <= i < s.len() && ws_byte(s[i]) {
        ws_scan(s, i + 1)
    } else {
        i
    }
}

/// The first position at or after `i` holding a non-whitespace byte,
/// clamped between `i` and the input length.
pub open spec fn ws_end(s: Seq<u8>, i: int) -> int {
    let r = ws_scan(s, i);
    if i > s.len() {
        i
    } else if r < i {
        i
    } else if r > s.len() {
        s.len() as int
    } else {
        r
    }
}

pub proof fn lemma_ws_scan_bounds(s: Seq<u8>, i: int)
    requires
        0 <= i <= s.len(),
    ensures
        i <= ws_scan(s, i) <= s.len(),
        ws_end(s, i) == ws_scan(s, i),
    decreases s.len() - i,
{
    if i < s.len() && ws_byte(s[i]) {
        lemma_ws_scan_bounds(s, i + 1);
    }
}

/// The end of the maximal digit run beginning at `k`.
pub open spec fn digits_end(s: Seq<u8>, k: int) -> int
    decreases s.len() - k,
{
    if 0 <= k < s.len() && digit(s[k]) {
        digits_end(s, k + 1)
    } else {
        k
    }
}

pub proof fn lemma_digits_end_bounds(s: Seq<u8>, k: int)
    requires
        0 <= k <= s.len(),
    ensures
        k <= digits_end(s, k) <= s.len(),
    decreases s.len() - k,
{
    if k < s.len() && digit(s[k]) {
        lemma_digits_end_bounds(s, k + 1);
    }
}

/// The decimal value of the digit run `s[m..e]`.
pub open spec fn digits_val(s: Seq<u8>, m: int, e: int) -> int
    decreases e - m,
{
    if e <= m {
        0
    } else {
        digits_val(s, m, e - 1) * 10 + (s[e - 1] - 48u8)
    }
}

/// The value of a hex digit, or -1 for any other byte.
pub open spec fn hex_digit_val(b: u8) -> int {
    if 48u8 <= b <= 57u8 {
        b - 48u8
    } else if 97u8 <= b <= 102u8 {
        b - 97u8 + 10
    } else if 65u8 <= b <= 70u8 {
        b - 65u8 + 10
    } else {
        -1
    }
}

/// Four hex digits beginning at `k`.
pub open spec fn hex4(s: Seq<u8>, k: int) -> Step<int> {
    if k >= s.len() {
        Step::Fail { at: k }
    } else if hex_digit_val(s[k]) < 0 {
        Step::Fail { at: k + 1 }
    } else if k + 1 >= s.len() {
        Step::Fail { at: k + 1 }
    } else if hex_digit_val(s[k + 1]) < 0 {
        Step::Fail { at: k + 2 }
    } else if k + 2 >= s.len() {
        Step::Fail { at: k + 2 }
    } else if hex_digit_val(s[k + 2]) < 0 {
        Step::Fail { at: k + 3 }
    } else if k + 3 >= s.len() {
        Step::Fail { at: k + 3 }
    } else if hex_digit_val(s[k + 3]) < 0 {
        Step::Fail { at: k + 4 }
    } else {
        Step::Done {
            v: hex_digit_val(s[k]) * 0x1000 + hex_digit_val(s[k + 1]) * 0x100 + hex_digit_val(
                s[k + 2],
            ) * 0x10 + hex_digit_val(s[k + 3]),
            next: k + 4,
        }
    }
}

pub open spec fn cons_char(c: char, r: Step<Seq<char>>) -> Step<Seq<char>> {
    match r {
        Step::Done { v, next } => Step::Done { v: seq![c] + v, next },
        Step::Fail { at } => Step::Fail { at },
    }
}

/// The body of a string literal, starting just after the opening quote:
/// the decoded characters and the position after the closing quote.
pub open spec fn string_body(s: Seq<u8>, k: int) -> Step<Seq<char>>
    decreases s.len() - k,
{
    if k < 0 || k >= s.len() {
        Step::Fail { at: s.len() as int }
    } else {
        let b = s[k];
        if b == 34u8 {
            Step::Done { v: Seq::empty(), next: k + 1 }
        } else if b == 92u8 {
            if k + 1 >= s.len() {
                Step::Fail { at: k + 1 }
            } else {
                let e = s[k + 1];
                if e == 34u8 {
                    cons_char('"', string_body(s, k + 2))
                } else if e == 92u8 {
                    cons_char('\\', string_body(s, k + 2))
                } else if e == 47u8 {
                    cons_char('/', string_body(s, k + 2))
                } else if e == 98u8 {
                    cons_char('\u{0008}', string_body(s, k + 2))
                } else if e == 102u8 {
                    cons_char('\u{000C}', string_body(s, k + 2))
                } else if e == 110u8 {
                    cons_char('\n', string_body(s, k + 2))
                } else if e == 114u8 {
                    cons_char('\r', string_body(s, k + 2))
                } else if e == 116u8 {
                    cons_char('\t', string_body(s, k + 2))
                } else if e == 117u8 {
                    match hex4(s, k + 2) {
                        Step::Fail { at } => Step::Fail { at },
                        Step::Done { v: code, next: _ } => {
                            if 0xD800 <= code <= 0xDBFF {
                                if k + 6 >= s.len() {
                                    Step::Fail { at: k + 6 }
                                } else if s[k + 6] != 92u8 {
                                    Step::Fail { at: k + 7 }
                                } else if k + 7 >= s.len() {
                                    Step::Fail { at: k + 7 }
                                } else if s[k + 7] != 117u8 {
                                    Step::Fail { at: k + 8 }
                                } else {
                                    match hex4(s, k + 8) {
                                        Step::Fail { at } => Step::Fail { at },
                                        Step::Done { v: low, next: _ } => {
                                            if !(0xDC00 <= low <= 0xDFFF) {
                                                Step::Fail { at: k + 12 }
                                            } else {
                                                let cp = 0x10000 + (code - 0xD800) * 0x400 + (low
                                                    - 0xDC00);
                                                cons_char(
                                                    ((cp as u32) as char),
                                                    string_body(s, k + 12),
                                                )
                                            }
                                        },
                                    }
                                }
                            } else if 0xDC00 <= code <= 0xDFFF {
                                Step::Fail { at: k + 6 }
                            } else {
                                cons_char(((code as u32) as char), string_body(s, k + 6))
                            }
                        },
                    }
                } else {
                    Step::Fail { at: k + 2 }
                }
            }
        } else if b < 0x20 {
            Step::Fail { at: k + 1 }
        } else if b < 0x80 {
            cons_char(b as char, string_body(s, k + 1))
        } else {
            let rest = s.skip(k);
            if valid_first_scalar(rest) && 1 <= length_of_first_scalar(rest) <= s.len() - k {
                cons_char(
                    (decode_first_scalar(rest) as char),
                    string_body(s, k + length_of_first_scalar(rest)),
                )
            } else {
                Step::Fail { at: k }
            }
        }
    }
}

/// A string literal beginning at `i` (at its opening quote).
pub open spec fn string_lit(s: Seq<u8>, i: int) -> Step<Seq<char>> {
    if i >= s.len() {
        Step::Fail { at: i }
    } else if s[i] != 34u8 {
        Step::Fail { at: i + 1 }
    } else {
        string_body(s, i + 1)
    }
}

/// An integer literal beginning at `i`.  A digit run followed by `.`, `e`
/// or `E` fails, as does a value outside the 64-bit signed range.
pub open spec fn number_lit(s: Seq<u8>, i: int) -> Step<JsonVal> {
    let m = if i < s.len() && s[i] == 45u8 {
        i + 1
    } else {
        i
    };
    let e = digits_end(s, m);
    if e == m {
        Step::Fail { at: m }
    } else if e < s.len() && (s[e] == 46u8 || s[e] == 101u8 || s[e] == 69u8) {
        Step::Fail { at: e }
    } else {
        let mag = digits_val(s, m, e);
        let n = if m > i {
            -mag
        } else {
            mag
        };
        if -0x8000_0000_0000_0000 <= n <= 0x7FFF_FFFF_FFFF_FFFF {
            Step::Done { v: JsonVal::Int(n), next: e }
        } else {
            Step::Fail { at: e }
        }
    }
}

/// A JSON value beginning at `i`, after optional whitespace.
pub open spec fn value_at(s: Seq<u8>, i: int) -> Step<JsonVal>
    decreases s.len() - i, 1int,
{
    let j = ws_end(s, i);
    if j >= s.len() {
        Step::Fail { at: j }
    } else {
        let b = s[j];
        if b == 110u8 {
            if j + 4 <= s.len() && s[j + 1] == 117u8 && s[j + 2] == 108u8 && s[j + 3] == 108u8 {
                Step::Done { v: JsonVal::Null, next: j + 4 }
            } else {
                Step::Fail { at: j }
            }
        } else if b == 116u8 {
            if j + 4 <= s.len() && s[j + 1] == 114u8 && s[j + 2] == 117u8 && s[j + 3] == 101u8 {
                Step::Done { v: JsonVal::Bool(true), next: j + 4 }
            } else {
                Step::Fail { at: j }
            }
        } else if b == 102u8 {
            if j + 5 <= s.len() && s[j + 1] == 97u8 && s[j + 2] == 108u8 && s[j + 3] == 115u8 && s[j
                + 4] == 101u8 {
                Step::Done { v: JsonVal::Bool(false), next: j + 5 }
            } else {
                Step::Fail { at: j }
            }
        } else if b == 45u8 || digit(b) {
            number_lit(s, j)
        } else if b == 34u8 {
            match string_lit(s, j) {
                Step::Done { v, next } => Step::Done { v: JsonVal::Str(v), next },
                Step::Fail { at } => Step::Fail { at },
            }
        } else if b == 91u8 {
            array_at(s, j)
        } else if b == 123u8 {
            object_at(s, j)
        } else {
            Step::Fail { at: j }
        }
    }
}

/// An array beginning at `j` (at its `[`).
pub open spec fn array_at(s: Seq<u8>, j: int) -> Step<JsonVal>
    decreases s.len() - j, 0int,
{
    let k = ws_end(s, j + 1);
    if j + 1 > s.len() {
        Step::Fail { at: s.len() as int }
    } else if k < s.len() && s[k] == 93u8 {
        Step::Done { v: JsonVal::Arr(Seq::empty()), next: k + 1 }
    } else {
        match array_items(s, k) {
            Step::Done { v, next } => Step::Done { v: JsonVal::Arr(v), next },
            Step::Fail { at } => Step::Fail { at },
        }
    }
}

/// One or more comma-separated array items beginning at `k`.
pub open spec fn array_items(s: Seq<u8>, k: int) -> Step<Seq<JsonVal>>
    decreases s.len() - k, 2int,
{
    match value_at(s, k) {
        Step::Fail { at } => Step::Fail { at },
        Step::Done { v, next } => {
            if next <= k || next > s.len() {
                // a successful value always makes progress; this branch is
                // unreachable and only bounds the recursion
                Step::Fail { at: next }
            } else {
                let j = ws_end(s, next);
                if j >= s.len() {
                    Step::Fail { at: s.len() as int }
                } else if s[j] == 44u8 {
                    match array_items(s, j + 1) {
                        Step::Done { v: vs, next: n2 } => Step::Done { v: seq![v] + vs, next: n2 },
                        Step::Fail { at } => Step::Fail { at },
                    }
                } else if s[j] == 93u8 {
                    Step::Done { v: seq![v], next: j + 1 }
                } else {
                    Step::Fail { at: j + 1 }
                }
            }
        },
    }
}

/// An object beginning at `j` (at its `{`).
pub open spec fn object_at(s: Seq<u8>, j: int) -> Step<JsonVal>
    decreases s.len() - j, 0int,
{
    let k = ws_end(s, j + 1);
    if j + 1 > s.len() {
        Step::Fail { at: s.len() as int }
    } else if k < s.len() && s[k] == 125u8 {
        Step::Done { v: JsonVal::Obj(Seq::empty()), next: k + 1 }
    } else {
        match object_items(s, k) {
            Step::Done { v, next } => Step::Done { v: JsonVal::Obj(v), next },
            Step::Fail { at } => Step::Fail { at },
        }
    }
}

/// One or more comma-separated `key: value` members beginning at `k`.
pub open spec fn object_items(s: Seq<u8>, k: int) -> Step<Seq<(Seq<char>, JsonVal)>>
    decreases s.len() - k, 2int,
{
    let k2 = ws_end(s, k);
    match string_lit(s, k2) {
        Step::Fail { at } => Step::Fail { at },
        Step::Done { v: key, next: nk } => {
            if nk <= k2 || nk > s.len() {
                // a successful key always makes progress; this branch is
                // unreachable and only bounds the recursion
                Step::Fail { at: nk }
            } else {
                let j1 = ws_end(s, nk);
                if j1 >= s.len() {
                    Step::Fail { at: s.len() as int }
                } else if s[j1] != 58u8 {
                    Step::Fail { at: j1 + 1 }
                } else {
                    match value_at(s, j1 + 1) {
                        Step::Fail { at } => Step::Fail { at },
                        Step::Done { v, next: nv } => {
                            if nv <= j1 || nv > s.len() {
                                // unreachable progress guard, as above
                                Step::Fail { at: nv }
                            } else {
                                let j2 = ws_end(s, nv);
                                if j2 >= s.len() {
                                    Step::Fail { at: s.len() as int }
                                } else if s[j2] == 44u8 {
                                    match object_items(s, j2 + 1) {
                                        Step::Done { v: vs, next: n2 } => Step::Done {
                                            v: seq![(key, v)] + vs,
                                            next: n2,
                                        },
                                        Step::Fail { at } => Step::Fail { at },
                                    }
                                } else if s[j2] == 125u8 {
                                    Step::Done { v: seq![(key, v)], next: j2 + 1 }
                                } else {
                                    Step::Fail { at: j2 + 1 }
                                }
                            }
                        },
                    }
                }
            }
        },
    }
}

/// A parse step with the characters `a` prepended to its result.
pub open spec fn prepend(a: Seq<char>, r: Step<Seq<char>>) -> Step<Seq<char>> {
    match r {
        Step::Done { v, next } => Step::Done { v: a + v, next },
        Step::Fail { at } => Step::Fail { at },
    }
}

pub proof fn lemma_prepend_empty(r: Step<Seq<char>>)
    ensures
        prepend(Seq::empty(), r) == r,
{
    match r {
        Step::Done { v, next } => {
            assert(Seq::<char>::empty() + v =~= v);
            assert(prepend(Seq::empty(), r) =~= r);
        },
        Step::Fail { at } => {},
    }
}

pub proof fn lemma_prepend_cons(a: Seq<char>, c: char, r: Step<Seq<char>>)
    ensures
        prepend(a, cons_char(c, r)) == prepend(a.push(c), r),
{
    match r {
        Step::Done { v, next } => {
            assert(a + (seq![c] + v) =~= a.push(c) + v);
            assert(prepend(a, cons_char(c, r)) =~= prepend(a.push(c), r));
        },
        Step::Fail { at } => {},
    }
}

/// A whole document: one value with only whitespace after it.
pub open spec fn json_doc(s: Seq<u8>) -> Step<JsonVal> {
    match value_at(s, 0) {
        Step::Fail { at } => Step::Fail { at },
        Step::Done { v, next } => {
            let j = ws_end(s, next);
            if j == s.len() {
                Step::Done { v, next: j }
            } else {
                Step::Fail { at: j }
            }
        },
    }
}


/// A lowercase hex digit byte.
pub open spec fn hex_digit_byte(d: int) -> u8 {
    if d < 10 {
        (48 + d) as u8
    } else {
        (97 + d - 10) as u8
    }
}

/// Four lowercase hex digit bytes for a value below 0x10000.
pub open spec fn hex4_bytes(v: int) -> Seq<u8> {
    seq![
        hex_digit_byte(v / 0x1000 % 0x10),
        hex_digit_byte(v / 0x100 % 0x10),
        hex_digit_byte(v / 0x10 % 0x10),
        hex_digit_byte(v % 0x10),
    ]
}

/// The canonical encoding of one character inside a string literal: the
/// short escapes, `\u` escapes for other control and all non-ASCII
/// characters (with a surrogate pair above 0xFFFF), and the raw byte for
/// printable ASCII.
pub open spec fn enc_char(c: char) -> Seq<u8> {
    let u = c as u32;
    if c == '"' {
        seq![92u8, 34u8]
    } else if c == '\\' {
        seq![92u8, 92u8]
    } else if c == '\u{0008}' {
        seq![92u8, 98u8]
    } else if c == '\u{000C}' {
        seq![92u8, 102u8]
    } else if c == '\n' {
        seq![92u8, 110u8]
    } else if c == '\r' {
        seq![92u8, 114u8]
    } else if c == '\t' {
        seq![92u8, 116u8]
    } else if u < 0x20 {
        seq![92u8, 117u8] + hex4_bytes(u as int)
    } else if u < 0x80 {
        seq![u as u8]
    } else if u < 0x10000 {
        seq![92u8, 117u8] + hex4_bytes(u as int)
    } else {
        let d = u as int - 0x10000;
        seq![92u8, 117u8] + hex4_bytes(0xD800 + d / 0x400) + seq![92u8, 117u8] + hex4_bytes(
            0xDC00 + d % 0x400,
        )
    }
}

pub open spec fn enc_chars(cs: Seq<char>) -> Seq<u8>
    decreases cs.len(),
{
    if cs.len() == 0 {
        Seq::empty()
    } else {
        enc_char(cs[0]) + enc_chars(cs.drop_first())
    }
}

/// A canonically encoded string literal.
pub open spec fn enc_string(cs: Seq<char>) -> Seq<u8> {
    seq![34u8] + enc_chars(cs) + seq![34u8]
}

/// The decimal digits of a non-negative integer.
pub open spec fn dec_nat(n: int) -> Seq<u8>
    decreases n,
{
    if n < 10 {
        seq![(48 + (if n >= 0 {
            n
        } else {
            0
        })) as u8]
    } else {
        dec_nat(n / 10).push((48 + n % 10) as u8)
    }
}

/// The decimal encoding of an integer.
pub open spec fn dec_int(n: int) -> Seq<u8> {
    if n < 0 {
        seq![45u8] + dec_nat(-n)
    } else {
        dec_nat(n)
    }
}

/// The canonical (whitespace-free, ASCII) encoding of a value.
pub open spec fn enc_val(v: JsonVal) -> Seq<u8>
    decreases v, 0int,
{
    match v {
        JsonVal::Null => seq![110u8, 117u8, 108u8, 108u8],
        JsonVal::Bool(b) => if b {
            seq![116u8, 114u8, 117u8, 101u8]
        } else {
            seq![102u8, 97u8, 108u8, 115u8, 101u8]
        },
        JsonVal::Int(n) => dec_int(n),
        JsonVal::Str(cs) => enc_string(cs),
        JsonVal::Arr(items) => seq![91u8] + enc_items(items) + seq![93u8],
        JsonVal::Obj(fields) => seq![123u8] + enc_members(fields) + seq![125u8],
    }
}

/// Comma-separated encoded items.
pub open spec fn enc_items(items: Seq<JsonVal>) -> Seq<u8>
    decreases items, 1int,
    via enc_items_dec
{
    if items.len() == 0 {
        Seq::empty()
    } else if items.len() == 1 {
        enc_val(items[0])
    } else {
        enc_val(items[0]) + seq![44u8] + enc_items(items.drop_first())
    }
}

/// Comma-separated encoded `key: value` members.
pub open spec fn enc_members(fields: Seq<(Seq<char>, JsonVal)>) -> Seq<u8>
    decreases fields, 1int,
    via enc_members_dec
{
    if fields.len() == 0 {
        Seq::empty()
    } else if fields.len() == 1 {
        enc_string(fields[0].0) + seq![58u8] + enc_val(fields[0].1)
    } else {
        enc_string(fields[0].0) + seq![58u8] + enc_val(fields[0].1) + seq![44u8] + enc_members(
            fields.drop_first(),
        )
    }
}

#[via_fn]
proof fn enc_items_dec(items: Seq<JsonVal>) {
    broadcast use vstd::seq::axiom_seq_index_decreases;

    if items.len() > 0 {
        assert(decreases_to!(items => items[0]));
        if items.len() > 1 {
            assert(items.drop_first() =~= items.subrange(1, items.len() as int));
            assert(decreases_to!(items => items.subrange(1, items.len() as int)));
        }
    }
}

#[via_fn]
proof fn enc_members_dec(fields: Seq<(Seq<char>, JsonVal)>) {
    broadcast use vstd::seq::axiom_seq_index_decreases;

    if fields.len() > 0 {
        assert(decreases_to!(fields => fields[0]));
        assert(decreases_to!(fields[0] => fields[0].1));
        if fields.len() > 1 {
            assert(fields.drop_first() =~= fields.subrange(1, fields.len() as int));
            assert(decreases_to!(fields => fields.subrange(1, fields.len() as int)));
        }
    }
}

/// Values the canonical round trip covers: integers must fit the 64-bit
/// signed range that the decoder enforces.
pub open spec fn wf_val(v: JsonVal) -> bool
    decreases v, 0int,
{
    match v {
        JsonVal::Null => true,
        JsonVal::Bool(b) => true,
        JsonVal::Int(n) => -0x8000_0000_0000_0000 <= n <= 0x7FFF_FFFF_FFFF_FFFF,
        JsonVal::Str(cs) => true,
        JsonVal::Arr(items) => wf_items(items),
        JsonVal::Obj(fields) => wf_members(fields),
    }
}

pub open spec fn wf_items(items: Seq<JsonVal>) -> bool
    decreases items, 1int,
    via wf_items_dec
{
    if items.len() == 0 {
        true
    } else {
        wf_val(items[0]) && wf_items(items.drop_first())
    }
}

pub open spec fn wf_members(fields: Seq<(Seq<char>, JsonVal)>) -> bool
    decreases fields, 1int,
    via wf_members_dec
{
    if fields.len() == 0 {
        true
    } else {
        wf_val(fields[0].1) && wf_members(fields.drop_first())
    }
}

#[via_fn]
proof fn wf_items_dec(items: Seq<JsonVal>) {
    broadcast use vstd::seq::axiom_seq_index_decreases;

    if items.len() > 0 {
        assert(decreases_to!(items => items[0]));
        assert(items.drop_first() =~= items.subrange(1, items.len() as int));
        assert(decreases_to!(items => items.subrange(1, items.len() as int)));
    }
}

#[via_fn]
proof fn wf_members_dec(fields: Seq<(Seq<char>, JsonVal)>) {
    broadcast use vstd::seq::axiom_seq_index_decreases;

    if fields.len() > 0 {
        assert(decreases_to!(fields => fields[0]));
        assert(decreases_to!(fields[0] => fields[0].1));
        assert(fields.drop_first() =~= fields.subrange(1, fields.len() as int));
        assert(decreases_to!(fields => fields.subrange(1, fields.len() as int)));
    }
}



/// Indexing into an embedded copy of `t` inside `s`.
proof fn lemma_embedded_byte(s: Seq<u8>, a: int, l: int, t: Seq<u8>, x: int)
    requires
        0 <= a,
        a + l <= s.len(),
        t.len() == l,
        s.subrange(a, a + l) == t,
        0 <= x < l,
    ensures
        s[a + x] == t[x],
{
    assert(s.subrange(a, a + l)[x] == s[a + x]);
}

/// A sub-slice of an embedded copy of `t` inside `s`.
proof fn lemma_embedded_subrange(s: Seq<u8>, a: int, l: int, t: Seq<u8>, x: int, y: int)
    requires
        0 <= a,
        a + l <= s.len(),
        t.len() == l,
        s.subrange(a, a + l) == t,
        0 <= x <= y <= l,
    ensures
        s.subrange(a + x, a + y) == t.subrange(x, y),
{
    assert forall|j: int| 0 <= j < y - x implies s.subrange(a + x, a + y)[j] == t.subrange(
        x,
        y,
    )[j] by {
        assert(s.subrange(a + x, a + y)[j] == s[a + x + j]);
        assert(s.subrange(a, a + l)[x + j] == s[a + (x + j)]);
        assert(s[a + x + j] == s[a + (x + j)]);
        assert(t.subrange(x, y)[j] == t[x + j]);
    }
    assert(s.subrange(a + x, a + y) =~= t.subrange(x, y));
}

proof fn lemma_ws_end_nonws(s: Seq<u8>, i: int)
    requires
        0 <= i <= s.len(),
        i < s.len() ==> !ws_byte(s[i]),
    ensures
        ws_end(s, i) == i,
{
    assert(ws_scan(s, i) == i);
}

/// The first byte of an encoding is never whitespace nor a closing or
/// separating punctuation byte.
proof fn lemma_dec_nat_shape(n: int)
    requires
        n >= 0,
    ensures
        dec_nat(n).len() >= 1,
        forall|j: int| 0 <= j < dec_nat(n).len() ==> digit(#[trigger] dec_nat(n)[j]),
    decreases n,
{
    if n >= 10 {
        lemma_dec_nat_shape(n / 10);
        assert(forall|j: int| 0 <= j < dec_nat(n / 10).len() ==> dec_nat(n)[j] == dec_nat(
            n / 10,
        )[j]);
    }
}

proof fn lemma_enc_val_first(v: JsonVal)
    requires
        wf_val(v),
    ensures
        enc_val(v).len() >= 1,
        !ws_byte(enc_val(v)[0]),
        enc_val(v)[0] != 93u8,
        enc_val(v)[0] != 44u8,
        enc_val(v)[0] != 125u8,
        enc_val(v)[0] != 58u8,
{
    match v {
        JsonVal::Int(n) => {
            if n < 0 {
                lemma_dec_nat_shape(-n);
            } else {
                lemma_dec_nat_shape(n);
                assert(digit(dec_nat(n)[0]));
            }
        },
        _ => {},
    }
}

proof fn lemma_hex_digit_byte_val(d: int)
    requires
        0 <= d < 16,
    ensures
        hex_digit_val(hex_digit_byte(d)) == d,
        digit(hex_digit_byte(d)) || (97u8 <= hex_digit_byte(d) <= 102u8),
{
}

proof fn lemma_hex4_roundtrip(s: Seq<u8>, k: int, v: int)
    requires
        0 <= v < 0x10000,
        0 <= k,
        k + 4 <= s.len(),
        s.subrange(k, k + 4) == hex4_bytes(v),
    ensures
        hex4(s, k) == (Step::Done { v, next: k + 4 }),
{
    let d0 = v / 0x1000 % 0x10;
    let d1 = v / 0x100 % 0x10;
    let d2 = v / 0x10 % 0x10;
    let d3 = v % 0x10;
    assert(s[k] == hex_digit_byte(d0));
    assert(s[k + 1] == hex_digit_byte(d1));
    assert(s[k + 2] == hex_digit_byte(d2));
    assert(s[k + 3] == hex_digit_byte(d3));
    lemma_hex_digit_byte_val(d0);
    lemma_hex_digit_byte_val(d1);
    lemma_hex_digit_byte_val(d2);
    lemma_hex_digit_byte_val(d3);
    assert(v / 0x10 / 0x10 == v / 0x100) by (nonlinear_arith)
        requires
            v >= 0,
    ;
    assert(v / 0x100 / 0x10 == v / 0x1000) by (nonlinear_arith)
        requires
            v >= 0,
    ;
    assert(v / 0x1000 < 0x10) by (nonlinear_arith)
        requires
            0 <= v < 0x10000,
    ;
    assert(v == v / 0x10 * 0x10 + v % 0x10);
    assert(v / 0x10 == v / 0x10 / 0x10 * 0x10 + v / 0x10 % 0x10);
    assert(v / 0x100 == v / 0x100 / 0x10 * 0x10 + v / 0x100 % 0x10);
    assert(v / 0x1000 % 0x10 == v / 0x1000);
    assert(d0 * 0x1000 + d1 * 0x100 + d2 * 0x10 + d3 == v);
}

proof fn lemma_digits_end_exact(s: Seq<u8>, m: int, e: int)
    requires
        0 <= m <= e <= s.len(),
        forall|j: int| m <= j < e ==> digit(#[trigger] s[j]),
        e < s.len() ==> !digit(s[e]),
    ensures
        digits_end(s, m) == e,
    decreases e - m,
{
    if m < e {
        lemma_digits_end_exact(s, m + 1, e);
    }
}

proof fn lemma_digits_val_of_dec(s: Seq<u8>, m: int, n: int)
    requires
        n >= 0,
        0 <= m,
        m + dec_nat(n).len() <= s.len(),
        s.subrange(m, m + dec_nat(n).len()) == dec_nat(n),
    ensures
        digits_val(s, m, m + dec_nat(n).len()) == n,
    decreases n,
{
    let l = dec_nat(n).len() as int;
    if n < 10 {
        assert(s.subrange(m, m + l)[0] == s[m]);
        assert(s[m] == dec_nat(n)[0]);
        assert(s[m] == (48 + n) as u8);
        assert(digits_val(s, m, m) == 0);
        assert(digits_val(s, m, m + 1) == n);
    } else {
        let lp = dec_nat(n / 10).len() as int;
        assert(l == lp + 1);
        assert(s.subrange(m, m + lp) =~= dec_nat(n / 10)) by {
            assert(forall|j: int| 0 <= j < lp ==> s.subrange(m, m + l)[j] == dec_nat(n)[j]);
            assert(forall|j: int| 0 <= j < lp ==> dec_nat(n)[j] == dec_nat(n / 10)[j]);
        }
        lemma_digits_val_of_dec(s, m, n / 10);
        assert(s[m + lp] == dec_nat(n)[lp]);
        assert(dec_nat(n)[lp] == (48 + n % 10) as u8);
        assert(digits_val(s, m, m + l) == digits_val(s, m, m + lp) * 10 + (s[m + lp] - 48));
    }
}

/// A terminator byte after an encoding: end of input, or a separator or
/// closing byte of the enclosing construct.
pub open spec fn enc_terminated(s: Seq<u8>, e: int) -> bool {
    e == s.len() || s[e] == 44u8 || s[e] == 93u8 || s[e] == 125u8
}

proof fn lemma_enc_number(s: Seq<u8>, i: int, n: int)
    requires
        -0x8000_0000_0000_0000 <= n <= 0x7FFF_FFFF_FFFF_FFFF,
        0 <= i,
        i + dec_int(n).len() <= s.len(),
        s.subrange(i, i + dec_int(n).len()) == dec_int(n),
        enc_terminated(s, i + dec_int(n).len()),
    ensures
        number_lit(s, i) == (Step::Done { v: JsonVal::Int(n), next: i + dec_int(n).len() }),
{
    let l = dec_int(n).len() as int;
    if n < 0 {
        let mag = -n;
        lemma_dec_nat_shape(mag);
        let lm = dec_nat(mag).len() as int;
        assert(l == lm + 1);
        assert(s.subrange(i, i + l)[0] == s[i]);
        assert(dec_int(n)[0] == 45u8);
        assert(s[i] == 45u8);
        assert(s.subrange(i + 1, i + 1 + lm) =~= dec_nat(mag)) by {
            assert(forall|j: int| 0 <= j < lm ==> s.subrange(i, i + l)[j + 1] == dec_nat(
                mag,
            )[j]);
        }
        assert(forall|j: int| i + 1 <= j < i + l ==> digit(#[trigger] s[j])) by {
            assert(forall|j: int| i + 1 <= j < i + l ==> s[j] == dec_nat(mag)[j - (i + 1)]);
        }
        lemma_digits_end_exact(s, i + 1, i + l);
        lemma_digits_val_of_dec(s, i + 1, mag);
    } else {
        lemma_dec_nat_shape(n);
        assert(s.subrange(i, i + l) == dec_nat(n));
        assert(forall|j: int| i <= j < i + l ==> digit(#[trigger] s[j])) by {
            assert(forall|j: int| i <= j < i + l ==> s[j] == dec_nat(n)[j - i]);
        }
        assert(s[i] != 45u8);
        lemma_digits_end_exact(s, i, i + l);
        lemma_digits_val_of_dec(s, i, n);
    }
}

proof fn lemma_body_escape2(s: Seq<u8>, k: int, c: char)
    requires
        0 <= k,
        k + 2 <= s.len(),
        s[k] == 92u8,
        (s[k + 1] == 34u8 && c == '"') || (s[k + 1] == 92u8 && c == '\\') || (s[k + 1] == 47u8
            && c == '/') || (s[k + 1] == 98u8 && c == '\u{0008}') || (s[k + 1] == 102u8 && c
            == '\u{000C}') || (s[k + 1] == 110u8 && c == '\n') || (s[k + 1] == 114u8 && c
            == '\r') || (s[k + 1] == 116u8 && c == '\t'),
    ensures
        string_body(s, k) == cons_char(c, string_body(s, k + 2)),
{
}

proof fn lemma_body_u_escape(s: Seq<u8>, k: int, u: int)
    requires
        0 <= k,
        k + 6 <= s.len(),
        s[k] == 92u8,
        s[k + 1] == 117u8,
        s.subrange(k + 2, k + 6) == hex4_bytes(u),
        0 <= u < 0x10000,
        !(0xD800 <= u <= 0xDFFF),
    ensures
        string_body(s, k) == cons_char(((u as u32) as char), string_body(s, k + 6)),
{
    lemma_hex4_roundtrip(s, k + 2, u);
}

proof fn lemma_body_raw(s: Seq<u8>, k: int, b: u8)
    requires
        0 <= k < s.len(),
        s[k] == b,
        0x20 <= b < 0x80,
        b != 34u8,
        b != 92u8,
    ensures
        string_body(s, k) == cons_char(b as char, string_body(s, k + 1)),
{
}

proof fn lemma_body_surrogates(s: Seq<u8>, k: int, u: int)
    requires
        0 <= k,
        k + 12 <= s.len(),
        s[k] == 92u8,
        s[k + 1] == 117u8,
        s.subrange(k + 2, k + 6) == hex4_bytes(0xD800 + (u - 0x10000) / 0x400),
        s[k + 6] == 92u8,
        s[k + 7] == 117u8,
        s.subrange(k + 8, k + 12) == hex4_bytes(0xDC00 + (u - 0x10000) % 0x400),
        0x10000 <= u <= 0x10FFFF,
    ensures
        string_body(s, k) == cons_char(((u as u32) as char), string_body(s, k + 12)),
{
    let d = u - 0x10000;
    assert(d / 0x400 < 0x400) by (nonlinear_arith)
        requires
            0 <= d < 0x100000,
    ;
    let hi = 0xD800 + d / 0x400;
    let lo = 0xDC00 + d % 0x400;
    lemma_hex4_roundtrip(s, k + 2, hi);
    lemma_hex4_roundtrip(s, k + 8, lo);
    let cp = 0x10000 + (hi - 0xD800) * 0x400 + (lo - 0xDC00);
    assert(cp == u) by {
        assert(d == d / 0x400 * 0x400 + d % 0x400);
    }
}

/// One encoded character at position `k` decodes back to that character.
#[verifier::rlimit(100)]
#[verifier::spinoff_prover]
proof fn lemma_body_one_char(s: Seq<u8>, k: int, c: char)
    requires
        0 <= k,
        k + enc_char(c).len() <= s.len(),
        s.subrange(k, k + enc_char(c).len()) == enc_char(c),
    ensures
        string_body(s, k) == cons_char(c, string_body(s, k + enc_char(c).len())),
{
    broadcast use vstd::utf8::char_is_scalar, vstd::utf8::char_u32_cast;

    let ec = enc_char(c);
    let el = ec.len() as int;
    let u = c as u32;
    assert(is_scalar(u));
    if c == '"' || c == '\\' || c == '\u{0008}' || c == '\u{000C}' || c == '\n' || c == '\r' || c
        == '\t' {
        assert(el == 2);
        lemma_embedded_byte(s, k, el, ec, 0);
        lemma_embedded_byte(s, k, el, ec, 1);
        lemma_body_escape2(s, k, c);
    } else if u < 0x20 || (0x80 <= u < 0x10000) {
        assert(el == 6);
        lemma_embedded_byte(s, k, el, ec, 0);
        lemma_embedded_byte(s, k, el, ec, 1);
        assert(s[k] == 92u8 && s[k + 1] == 117u8);
        lemma_embedded_subrange(s, k, el, ec, 2, 6);
        assert(ec.subrange(2, 6) =~= hex4_bytes(u as int));
        lemma_body_u_escape(s, k, u as int);
        assert(((u as int as u32) as char) == c);
    } else if u < 0x80 {
        let b = ec[0];
        assert(el == 1);
        lemma_embedded_byte(s, k, el, ec, 0);
        assert(b == u as u8);
        assert(b as u32 == u);
        lemma_body_raw(s, k, b);
        assert((b as char) == c) by {
            assert(((b as u32) as char) == c);
        }
    } else {
        let d = u as int - 0x10000;
        assert(el == 12);
        lemma_embedded_byte(s, k, el, ec, 0);
        lemma_embedded_byte(s, k, el, ec, 1);
        lemma_embedded_byte(s, k, el, ec, 6);
        lemma_embedded_byte(s, k, el, ec, 7);
        assert(ec[6] == 92u8 && ec[7] == 117u8);
        lemma_embedded_subrange(s, k, el, ec, 2, 6);
        assert(ec.subrange(2, 6) =~= hex4_bytes(0xD800 + d / 0x400));
        lemma_embedded_subrange(s, k, el, ec, 8, 12);
        assert(ec.subrange(8, 12) =~= hex4_bytes(0xDC00 + d % 0x400));
        lemma_body_surrogates(s, k, u as int);
        assert(((u as int as u32) as char) == c);
    }
}

#[verifier::spinoff_prover]
proof fn lemma_enc_chars_body(s: Seq<u8>, k: int, cs: Seq<char>)
    requires
        0 <= k,
        k + enc_chars(cs).len() + 1 <= s.len(),
        s.subrange(k, k + enc_chars(cs).len()) == enc_chars(cs),
        s[k + enc_chars(cs).len()] == 34u8,
    ensures
        string_body(s, k) == (Step::Done { v: cs, next: k + enc_chars(cs).len() + 1 }),
    decreases cs.len(),
{
    let l = enc_chars(cs).len() as int;
    if cs.len() == 0 {
        assert(string_body(s, k) == (Step::Done { v: Seq::<char>::empty(), next: k + 1 }));
        assert(Seq::<char>::empty() =~= cs);
    } else {
        let c = cs[0];
        let rest = cs.drop_first();
        let ec = enc_char(c);
        let el = ec.len() as int;
        let rl = enc_chars(rest).len() as int;
        assert(l == el + rl);
        assert(enc_chars(cs) == ec + enc_chars(rest));
        lemma_embedded_subrange(s, k, l, enc_chars(cs), 0, el);
        assert(enc_chars(cs).subrange(0, el) =~= ec);
        assert(s.subrange(k + 0, k + el) == s.subrange(k, k + el));
        lemma_embedded_subrange(s, k, l, enc_chars(cs), el, l);
        assert(enc_chars(cs).subrange(el, l) =~= enc_chars(rest));
        lemma_body_one_char(s, k, c);
        lemma_enc_chars_body(s, k + el, rest);
        assert(string_body(s, k) == cons_char(c, Step::Done { v: rest, next: k + l + 1 }));
        assert(cons_char(c, Step::Done { v: rest, next: k + l + 1 }) == (Step::Done {
            v: cs,
            next: k + l + 1,
        })) by {
            assert(seq![c] + rest =~= cs);
        }
    }
}

proof fn lemma_enc_string_lit(s: Seq<u8>, i: int, cs: Seq<char>)
    requires
        0 <= i,
        i + enc_string(cs).len() <= s.len(),
        s.subrange(i, i + enc_string(cs).len()) == enc_string(cs),
    ensures
        string_lit(s, i) == (Step::Done { v: cs, next: i + enc_string(cs).len() }),
{
    let lc = enc_chars(cs).len() as int;
    assert(s.subrange(i, i + enc_string(cs).len() as int)[0] == s[i]);
    assert(enc_string(cs)[0] == 34u8) by {
        assert((seq![34u8] + enc_chars(cs))[0] == 34u8);
    }
    assert(s[i] == 34u8);
    assert(s.subrange(i + 1, i + 1 + lc) =~= enc_chars(cs)) by {
        assert(forall|j: int| 0 <= j < lc ==> #[trigger] s[i + 1 + j] == enc_string(cs)[1 + j]);
        assert(forall|j: int| 0 <= j < lc ==> enc_string(cs)[1 + j] == enc_chars(cs)[j]);
    }
    assert(s[i + 1 + lc] == 34u8) by {
        assert(enc_string(cs)[1 + lc] == 34u8);
    }
    lemma_enc_chars_body(s, i + 1, cs);
}

/// Parsing the canonical encoding of a well-formed value, embedded at
/// position `i` and followed by a terminator, yields exactly that value.
#[verifier::rlimit(100)]
#[verifier::spinoff_prover]
proof fn lemma_enc_value(s: Seq<u8>, i: int, v: JsonVal)
    requires
        wf_val(v),
        0 <= i,
        i + enc_val(v).len() <= s.len(),
        s.subrange(i, i + enc_val(v).len()) == enc_val(v),
        enc_terminated(s, i + enc_val(v).len()),
    ensures
        value_at(s, i) == (Step::Done { v, next: i + enc_val(v).len() }),
    decreases v, 0int,
{
    broadcast use vstd::seq::axiom_seq_index_decreases;

    let l = enc_val(v).len() as int;
    lemma_enc_val_first(v);
    assert(s.subrange(i, i + l)[0] == s[i]);
    assert(s[i] == enc_val(v)[0]);
    lemma_ws_end_nonws(s, i);
    match v {
        JsonVal::Null => {
            assert(s.subrange(i, i + l)[1] == s[i + 1]);
            assert(s.subrange(i, i + l)[2] == s[i + 2]);
            assert(s.subrange(i, i + l)[3] == s[i + 3]);
            assert(s[i] == 110u8 && s[i + 1] == 117u8 && s[i + 2] == 108u8 && s[i + 3] == 108u8);
        },
        JsonVal::Bool(b) => {
            assert(s.subrange(i, i + l)[1] == s[i + 1]);
            assert(s.subrange(i, i + l)[2] == s[i + 2]);
            assert(s.subrange(i, i + l)[3] == s[i + 3]);
            if b {
                assert(s[i] == 116u8 && s[i + 1] == 114u8 && s[i + 2] == 117u8 && s[i + 3]
                    == 101u8);
            } else {
                assert(s.subrange(i, i + l)[4] == s[i + 4]);
                assert(s[i] == 102u8 && s[i + 1] == 97u8 && s[i + 2] == 108u8 && s[i + 3] == 115u8
                    && s[i + 4] == 101u8);
            }
        },
        JsonVal::Int(n) => {
            lemma_enc_number(s, i, n);
            if n < 0 {
                assert(s[i] == 45u8);
            } else {
                lemma_dec_nat_shape(n);
                assert(digit(s[i]));
            }
        },
        JsonVal::Str(cs) => {
            lemma_enc_string_lit(s, i, cs);
        },
        JsonVal::Arr(items) => {
            assert(decreases_to!(v => items));
            lemma_enc_value_arr(s, i, items);
        },
        JsonVal::Obj(fields) => {
            assert(decreases_to!(v => fields));
            lemma_enc_value_obj(s, i, fields);
        },
    }
}

#[verifier::rlimit(100)]
#[verifier::spinoff_prover]
proof fn lemma_enc_value_arr(s: Seq<u8>, i: int, items: Seq<JsonVal>)
    requires
        wf_items(items),
        0 <= i,
        i + enc_val(JsonVal::Arr(items)).len() <= s.len(),
        s.subrange(i, i + enc_val(JsonVal::Arr(items)).len()) == enc_val(JsonVal::Arr(items)),
    ensures
        array_at(s, i) == (Step::Done {
            v: JsonVal::Arr(items),
            next: i + enc_val(JsonVal::Arr(items)).len(),
        }),
    decreases items, 3int,
{
    let v = JsonVal::Arr(items);
    let l = enc_val(v).len() as int;
    assert(s.subrange(i, i + l)[0] == s[i]);
    assert(s.subrange(i, i + l)[l - 1] == s[i + l - 1]);
    assert(s[i] == 91u8);
    assert(s[i + l - 1] == 93u8) by {
        assert(enc_val(v)[l - 1] == 93u8);
    }
    if items.len() == 0 {
        assert(l == 2);
        assert(s.subrange(i, i + l)[1] == s[i + 1]);
        assert(s[i + 1] == 93u8);
        lemma_ws_end_nonws(s, i + 1);
        assert(array_at(s, i) == (Step::Done { v: JsonVal::Arr(Seq::empty()), next: i + 2 }));
        assert(JsonVal::Arr(Seq::<JsonVal>::empty()) == v) by {
            assert(Seq::<JsonVal>::empty() =~= items);
        }
    } else {
        let li = enc_items(items).len() as int;
        assert(l == li + 2);
        lemma_embedded_subrange(s, i, l, enc_val(v), 1, 1 + li);
        assert(enc_val(v).subrange(1, 1 + li) =~= enc_items(items));
        assert(s.subrange(i + 1, i + 1 + li) == enc_items(items));
        lemma_enc_items_head(items);
        assert(s[i + 1] == enc_items(items)[0]) by {
            assert(s.subrange(i + 1, i + 1 + li)[0] == s[i + 1]);
        }
        lemma_enc_val_first(items[0]);
        assert(enc_items(items)[0] == enc_val(items[0])[0]);
        lemma_ws_end_nonws(s, i + 1);
        assert(s[i + 1] != 93u8);
        lemma_enc_items_parse(s, i + 1, items);
        assert(array_at(s, i) == (Step::Done { v: JsonVal::Arr(items), next: i + l }));
    }
}

#[verifier::rlimit(100)]
#[verifier::spinoff_prover]
proof fn lemma_enc_value_obj(s: Seq<u8>, i: int, fields: Seq<(Seq<char>, JsonVal)>)
    requires
        wf_members(fields),
        0 <= i,
        i + enc_val(JsonVal::Obj(fields)).len() <= s.len(),
        s.subrange(i, i + enc_val(JsonVal::Obj(fields)).len()) == enc_val(JsonVal::Obj(fields)),
    ensures
        object_at(s, i) == (Step::Done {
            v: JsonVal::Obj(fields),
            next: i + enc_val(JsonVal::Obj(fields)).len(),
        }),
    decreases fields, 3int,
{
    let v = JsonVal::Obj(fields);
    let l = enc_val(v).len() as int;
    assert(s.subrange(i, i + l)[0] == s[i]);
    assert(s.subrange(i, i + l)[l - 1] == s[i + l - 1]);
    assert(s[i] == 123u8);
    assert(s[i + l - 1] == 125u8) by {
        assert(enc_val(v)[l - 1] == 125u8);
    }
    if fields.len() == 0 {
        assert(l == 2);
        assert(s.subrange(i, i + l)[1] == s[i + 1]);
        assert(s[i + 1] == 125u8);
        lemma_ws_end_nonws(s, i + 1);
        assert(object_at(s, i) == (Step::Done { v: JsonVal::Obj(Seq::empty()), next: i + 2 }));
        assert(JsonVal::Obj(Seq::<(Seq<char>, JsonVal)>::empty()) == v) by {
            assert(Seq::<(Seq<char>, JsonVal)>::empty() =~= fields);
        }
    } else {
        let lm = enc_members(fields).len() as int;
        assert(l == lm + 2);
        lemma_embedded_subrange(s, i, l, enc_val(v), 1, 1 + lm);
        assert(enc_val(v).subrange(1, 1 + lm) =~= enc_members(fields));
        assert(s.subrange(i + 1, i + 1 + lm) == enc_members(fields));
        lemma_enc_members_head(fields);
        assert(s[i + 1] == enc_members(fields)[0]) by {
            assert(s.subrange(i + 1, i + 1 + lm)[0] == s[i + 1]);
        }
        assert(s[i + 1] == 34u8);
        lemma_ws_end_nonws(s, i + 1);
        lemma_enc_members_parse(s, i + 1, fields);
        assert(object_at(s, i) == (Step::Done { v: JsonVal::Obj(fields), next: i + l }));
    }
}

proof fn lemma_enc_items_head(items: Seq<JsonVal>)
    requires
        items.len() >= 1,
    ensures
        enc_items(items).len() >= enc_val(items[0]).len(),
        forall|j: int| 0 <= j < enc_val(items[0]).len() ==> #[trigger] enc_items(items)[j]
            == enc_val(items[0])[j],
{
}

proof fn lemma_enc_members_head(fields: Seq<(Seq<char>, JsonVal)>)
    requires
        fields.len() >= 1,
    ensures
        enc_members(fields).len() >= 1,
        enc_members(fields)[0] == 34u8,
{
    assert(enc_string(fields[0].0)[0] == 34u8);
}

#[verifier::rlimit(100)]
#[verifier::spinoff_prover]
proof fn lemma_enc_items_parse(s: Seq<u8>, k: int, items: Seq<JsonVal>)
    requires
        wf_items(items),
        items.len() >= 1,
        0 <= k,
        k + enc_items(items).len() + 1 <= s.len(),
        s.subrange(k, k + enc_items(items).len()) == enc_items(items),
        s[k + enc_items(items).len()] == 93u8,
    ensures
        array_items(s, k) == (Step::Done { v: items, next: k + enc_items(items).len() + 1 }),
    decreases items, 1int,
{
    broadcast use vstd::seq::axiom_seq_index_decreases;

    let t = enc_items(items);
    let l = t.len() as int;
    let v0 = items[0];
    let l0 = enc_val(v0).len() as int;
    assert(decreases_to!(items => items[0]));
    if items.len() == 1 {
        assert(t == enc_val(v0));
        lemma_enc_value(s, k, v0);
        lemma_enc_val_first(v0);
        lemma_ws_end_nonws(s, k + l0);
        assert(s[k + l0] == 93u8);
        assert(array_items(s, k) == (Step::Done { v: seq![v0], next: k + l + 1 }));
        assert(seq![v0] =~= items);
    } else {
        let rest = items.drop_first();
        let lr = enc_items(rest).len() as int;
        assert(t == enc_val(v0) + seq![44u8] + enc_items(rest));
        assert(l == l0 + 1 + lr);
        lemma_embedded_subrange(s, k, l, t, 0, l0);
        assert(t.subrange(0, l0) =~= enc_val(v0));
        assert(s.subrange(k + 0, k + l0) == s.subrange(k, k + l0));
        lemma_embedded_byte(s, k, l, t, l0);
        assert(t[l0] == 44u8);
        lemma_enc_value(s, k, v0);
        lemma_ws_end_nonws(s, k + l0);
        lemma_embedded_subrange(s, k, l, t, l0 + 1, l);
        assert(t.subrange(l0 + 1, l) =~= enc_items(rest));
        assert(rest =~= items.subrange(1, items.len() as int));
        assert(decreases_to!(items => items.subrange(1, items.len() as int)));
        lemma_enc_items_parse(s, k + l0 + 1, rest);
        assert(array_items(s, k) == (Step::Done { v: seq![v0] + rest, next: k + l + 1 }));
        assert(seq![v0] + rest =~= items);
    }
}

proof fn lemma_members_layout(fields: Seq<(Seq<char>, JsonVal)>)
    requires
        fields.len() >= 1,
    ensures
        ({
            let t = enc_members(fields);
            let key = fields[0].0;
            let v0 = fields[0].1;
            let lk = enc_string(key).len() as int;
            let l0 = enc_val(v0).len() as int;
            &&& t.subrange(0, lk) == enc_string(key)
            &&& t[lk] == 58u8
            &&& t.subrange(lk + 1, lk + 1 + l0) == enc_val(v0)
            &&& (fields.len() == 1 ==> t.len() == lk + 1 + l0)
            &&& (fields.len() > 1 ==> t.len() == lk + 1 + l0 + 1 + enc_members(
                fields.drop_first(),
            ).len() && t[lk + 1 + l0] == 44u8 && t.subrange(lk + 1 + l0 + 1, t.len() as int)
                == enc_members(fields.drop_first()))
        }),
{
    let t = enc_members(fields);
    let key = fields[0].0;
    let v0 = fields[0].1;
    let lk = enc_string(key).len() as int;
    let l0 = enc_val(v0).len() as int;
    if fields.len() == 1 {
        assert(t == enc_string(key) + seq![58u8] + enc_val(v0));
        assert(t.subrange(0, lk) =~= enc_string(key));
        assert(t.subrange(lk + 1, lk + 1 + l0) =~= enc_val(v0));
    } else {
        let rest = fields.drop_first();
        assert(t == enc_string(key) + seq![58u8] + enc_val(v0) + seq![44u8] + enc_members(rest));
        assert(t.subrange(0, lk) =~= enc_string(key));
        assert(t.subrange(lk + 1, lk + 1 + l0) =~= enc_val(v0));
        assert(t.subrange(lk + 1 + l0 + 1, t.len() as int) =~= enc_members(rest));
    }
}

#[verifier::rlimit(100)]
#[verifier::spinoff_prover]
proof fn lemma_enc_members_parse(s: Seq<u8>, k: int, fields: Seq<(Seq<char>, JsonVal)>)
    requires
        wf_members(fields),
        fields.len() >= 1,
        0 <= k,
        k + enc_members(fields).len() + 1 <= s.len(),
        s.subrange(k, k + enc_members(fields).len()) == enc_members(fields),
        s[k + enc_members(fields).len()] == 125u8,
    ensures
        object_items(s, k) == (Step::Done {
            v: fields,
            next: k + enc_members(fields).len() + 1,
        }),
    decreases fields, 1int,
{
    broadcast use vstd::seq::axiom_seq_index_decreases;

    let t = enc_members(fields);
    let l = t.len() as int;
    let key = fields[0].0;
    let v0 = fields[0].1;
    let lk = enc_string(key).len() as int;
    let l0 = enc_val(v0).len() as int;
    assert(decreases_to!(fields => fields[0]));
    assert(decreases_to!(fields[0] => fields[0].1));
    lemma_members_layout(fields);
    lemma_embedded_byte(s, k, l, t, 0);
    assert(t[0] == 34u8) by {
        assert(t.subrange(0, lk)[0] == t[0]);
        assert(enc_string(key)[0] == 34u8);
    }
    lemma_ws_end_nonws(s, k);
    lemma_embedded_subrange(s, k, l, t, 0, lk);
    assert(s.subrange(k + 0, k + lk) == s.subrange(k, k + lk));
    lemma_enc_string_lit(s, k, key);
    lemma_embedded_byte(s, k, l, t, lk);
    lemma_ws_end_nonws(s, k + lk);
    lemma_embedded_subrange(s, k, l, t, lk + 1, lk + 1 + l0);
    lemma_enc_value(s, k + lk + 1, v0);
    lemma_ws_end_nonws(s, k + lk + 1 + l0);
    if fields.len() == 1 {
        assert(s[k + lk + 1 + l0] == 125u8);
        assert(object_items(s, k) == (Step::Done { v: seq![(key, v0)], next: k + l + 1 }));
        assert(seq![(key, v0)] =~= fields);
    } else {
        let rest = fields.drop_first();
        lemma_embedded_byte(s, k, l, t, lk + 1 + l0);
        lemma_embedded_subrange(s, k, l, t, lk + 1 + l0 + 1, l);
        assert(rest =~= fields.subrange(1, fields.len() as int));
        assert(decreases_to!(fields => fields.subrange(1, fields.len() as int)));
        lemma_enc_members_parse(s, k + lk + 1 + l0 + 1, rest);
        assert(object_items(s, k) == (Step::Done { v: seq![(key, v0)] + rest, next: k + l + 1 }));
        assert(seq![(key, v0)] + rest =~= fields);
    }
}

/// Decode-then-reencode is lossless: parsing the canonical encoding of
/// any well-formed value yields exactly that value, consuming the whole
/// input.
pub proof fn lemma_canonical_round_trip(v: JsonVal)
    requires
        wf_val(v),
    ensures
        json_doc(enc_val(v)) == (Step::Done { v, next: enc_val(v).len() as int }),
{
    let s = enc_val(v);
    assert(s.subrange(0, s.len() as int) =~= s);
    lemma_enc_value(s, 0, v);
    assert(ws_scan(s, s.len() as int) == s.len());
}


pub proof fn lemma_enc_chars_append(a: Seq<char>, b: Seq<char>)
    ensures
        enc_chars(a + b) == enc_chars(a) + enc_chars(b),
    decreases a.len(),
{
    if a.len() == 0 {
        assert(a + b =~= b);
        assert(enc_chars(a) + enc_chars(b) =~= enc_chars(b));
    } else {
        assert((a + b).drop_first() =~= a.drop_first() + b);
        lemma_enc_chars_append(a.drop_first(), b);
        assert(enc_chars(a + b) =~= enc_chars(a) + enc_chars(b));
    }
}

pub proof fn lemma_enc_chars_singleton(c: char)
    ensures
        enc_chars(seq![c]) == enc_char(c),
{
    assert(seq![c].drop_first() =~= Seq::<char>::empty());
    assert(enc_chars(Seq::<char>::empty()) == Seq::<u8>::empty());
    assert(enc_chars(seq![c]) =~= enc_char(c));
}


/// The suffix of a value list from index `k`.
pub open spec fn spec_items_suffix(items: Seq<JsonVal>, k: int) -> Seq<JsonVal> {
    items.skip(k)
}

/// The suffix of a member list from index `k`.
pub open spec fn spec_members_suffix(
    fields: Seq<(Seq<char>, JsonVal)>,
    k: int,
) -> Seq<(Seq<char>, JsonVal)> {
    fields.skip(k)
}


/// A fractional or exponent-bearing numeric literal always yields a
/// decode error, never a truncated integer: whenever the digit run after
/// an optional sign is followed by `.`, `e` or `E`, the number parse and
/// the whole value parse fail, and at position zero so does the document.
pub proof fn lemma_fractional_number_rejected(s: Seq<u8>, i: int)
    requires
        0 <= i < s.len(),
        s[i] == 45u8 || digit(s[i]),
        ({
            let m = if s[i] == 45u8 {
                i + 1
            } else {
                i
            };
            let e = digits_end(s, m);
            e > m && e < s.len() && (s[e] == 46u8 || s[e] == 101u8 || s[e] == 69u8)
        }),
    ensures
        number_lit(s, i) is Fail,
        value_at(s, i) is Fail,
        i == 0 ==> json_doc(s) is Fail,
{
    assert(!ws_byte(s[i]));
    lemma_ws_end_nonws(s, i);
}

} // verus!
