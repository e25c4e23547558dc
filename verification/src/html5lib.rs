//! Fixture decoders: the JSON dialect and the multi-section tree format.
//!
//! [`parse_json`] decodes the integer-only JSON dialect used by the
//! tokenizer and serializer fixtures; its behaviour is pinned to the
//! spec-level parser in [`crate::json_spec`].

use vstd::prelude::*;

use crate::section_spec::{
    case_at, count_nonblank, expected_text, find_from, find_header, fragment_ctx_of, is_blank,
    is_header_line_spec, scan_cases, tree_cases, TcCase,
};
use crate::text::{
    chars_eq_str, chars_has_prefix, chars_of, join_lines, lemma_join_lines_snoc, lines_view,
    split_lines, split_lines_exec, string_from_chars, subrange_chars, trim_chars,
};
use crate::json_spec::{
    array_at, array_items, cons_char, digit, digits_end, digits_val, hex4, hex_digit_val,
    json_doc, number_lit, object_at, object_items, string_body, string_lit, value_at, ws_byte,
    ws_end, ws_scan, JsonVal, Step,
};
use vstd::utf8::{
    codepoint_width_2, codepoint_width_3, codepoint_width_4, decode_first_codepoint,
    decode_first_scalar, is_continuation_byte, is_leading_byte_width_1, is_leading_byte_width_2,
    is_leading_byte_width_3, is_leading_byte_width_4, is_scalar, length_of_first_codepoint,
    length_of_first_scalar, not_overlong_encoding, not_surrogate, valid_first_scalar,
    valid_leading_and_continuation_bytes_first_codepoint,
};

verus! {

/// A decoded fixture value.  Object member order is insertion order and
/// keys may repeat; lookups take the first match.
#[derive(Debug, PartialEq)]
pub enum Json {
    Null,
    Bool(bool),
    Number(i64),
    String(String),
    Array(Vec<Json>),
    Object(Vec<JsonMember>),
}

/// One `key: value` member of a JSON object.
#[derive(Debug, PartialEq)]
pub struct JsonMember {
    pub key: String,
    pub value: Json,
}

/// A structured decode error: a human-readable message and the byte
/// offset at which decoding failed.
#[derive(Clone, Debug)]
pub struct JsonParseError {
    pub message: String,
    pub offset: usize,
}

/// Whether a case runs with scripting enabled, disabled, or both.
#[derive(Clone, Copy, Debug, PartialEq, Eq)]
pub enum ScriptDirective {
    On,
    Off,
    Both,
}

/// The synthetic parent under which a fragment case is parsed: an
/// optional namespace tag (`svg` or `math`) and a tag name.
#[derive(Clone, Debug, PartialEq, Eq)]
pub struct FragmentContextSpec {
    pub namespace: Option<String>,
    pub tag_name: String,
}

/// One decoded multi-section case.
#[derive(Clone, Debug, PartialEq, Eq)]
pub struct TreeConstructionCase {
    pub data: String,
    pub error_count: usize,
    pub fragment_context: Option<FragmentContextSpec>,
    pub script_directive: ScriptDirective,
    pub expected: String,
}

/// The mathematical value of a decoded [`Json`].
pub open spec fn json_rep(j: Json) -> JsonVal
    decreases j,
    via json_rep_dec
{
    match j {
        Json::Null => JsonVal::Null,
        Json::Bool(b) => JsonVal::Bool(b),
        Json::Number(n) => JsonVal::Int(n as int),
        Json::String(s) => JsonVal::Str(s@),
        Json::Array(items) => JsonVal::Arr(json_rep_list(items@)),
        Json::Object(fields) => JsonVal::Obj(json_rep_obj(fields@)),
    }
}

/// The mathematical values of a list of decoded items.
pub open spec fn json_rep_list(items: Seq<Json>) -> Seq<JsonVal>
    decreases items, 1int,
    via json_rep_list_dec
{
    if items.len() == 0 {
        Seq::empty()
    } else {
        json_rep_list(items.drop_last()).push(json_rep(items.last()))
    }
}

/// The mathematical values of a list of decoded object members.
pub open spec fn json_rep_obj(fields: Seq<JsonMember>) -> Seq<(Seq<char>, JsonVal)>
    decreases fields, 1int,
    via json_rep_obj_dec
{
    if fields.len() == 0 {
        Seq::empty()
    } else {
        json_rep_obj(fields.drop_last()).push(
            (fields.last().key@, json_rep(fields.last().value)),
        )
    }
}

#[via_fn]
proof fn json_rep_dec(j: Json) {
    broadcast use vstd::std_specs::vec::axiom_vec_decreases_to_view;

    match j {
        Json::Array(items) => {
            assert(decreases_to!(j => items));
            assert(decreases_to!(items => items@));
        },
        Json::Object(fields) => {
            assert(decreases_to!(j => fields));
            assert(decreases_to!(fields => fields@));
        },
        _ => {},
    }
}

#[via_fn]
proof fn json_rep_list_dec(items: Seq<Json>) {
    broadcast use vstd::seq::axiom_seq_index_decreases;

    if items.len() > 0 {
        assert(decreases_to!(items => items.subrange(0, items.len() - 1)));
        assert(items.drop_last() == items.subrange(0, items.len() - 1));
        assert(decreases_to!(items => items[items.len() - 1]));
        assert(items.last() == items[items.len() - 1]);
    }
}

#[via_fn]
proof fn json_rep_obj_dec(fields: Seq<JsonMember>) {
    broadcast use vstd::seq::axiom_seq_index_decreases;

    if fields.len() > 0 {
        assert(decreases_to!(fields => fields.subrange(0, fields.len() - 1)));
        assert(fields.drop_last() == fields.subrange(0, fields.len() - 1));
        assert(decreases_to!(fields => fields[fields.len() - 1]));
        assert(fields.last() == fields[fields.len() - 1]);
    }
}

/// `json_rep_list` is the pointwise image of `json_rep`.
pub proof fn lemma_json_rep_list(items: Seq<Json>)
    ensures
        json_rep_list(items) == Seq::new(items.len(), |i: int| json_rep(items[i])),
    decreases items.len(),
{
    if items.len() > 0 {
        lemma_json_rep_list(items.drop_last());
        assert(json_rep_list(items) =~= Seq::new(items.len(), |i: int| json_rep(items[i])));
    } else {
        assert(json_rep_list(items) =~= Seq::new(items.len(), |i: int| json_rep(items[i])));
    }
}

/// `json_rep_obj` is the pointwise image of key text and member value.
pub proof fn lemma_json_rep_obj(fields: Seq<JsonMember>)
    ensures
        json_rep_obj(fields) == Seq::new(
            fields.len(),
            |i: int| (fields[i].key@, json_rep(fields[i].value)),
        ),
    decreases fields.len(),
{
    if fields.len() > 0 {
        lemma_json_rep_obj(fields.drop_last());
        assert(json_rep_obj(fields) =~= Seq::new(
            fields.len(),
            |i: int| (fields[i].key@, json_rep(fields[i].value)),
        ));
    } else {
        assert(json_rep_obj(fields) =~= Seq::new(
            fields.len(),
            |i: int| (fields[i].key@, json_rep(fields[i].value)),
        ));
    }
}

fn err_at(message: &str, offset: usize) -> (r: JsonParseError)
    ensures
        r.offset == offset,
{
    JsonParseError { message: message.to_owned(), offset }
}

fn skip_ws_at(input: &[u8], i: usize) -> (j: usize)
    requires
        i <= input@.len(),
    ensures
        j == ws_end(input@, i as int),
        i <= j <= input@.len(),
    decreases input@.len() - i,
{
    proof {
        crate::json_spec::lemma_ws_scan_bounds(input@, i as int);
    }
    let mut j = i;
    while j < input.len() && (input[j] == 32 || input[j] == 10 || input[j] == 13 || input[j] == 9)
        invariant
            i <= j <= input@.len(),
            ws_scan(input@, i as int) == ws_scan(input@, j as int),
        decreases input@.len() - j,
    {
        j += 1;
    }
    proof {
        assert(ws_scan(input@, j as int) == j);
    }
    j
}

fn parse_hex4_at(input: &[u8], k: usize) -> (r: Result<(u32, usize), JsonParseError>)
    requires
        k <= input@.len(),
    ensures
        match hex4(input@, k as int) {
            Step::Done { v, next } => r matches Ok(p) && p.0 == v && p.1 == next && next == k + 4
                && k + 4 <= input@.len(),
            Step::Fail { at } => r matches Err(e) && e.offset == at,
        },
{
    let n = input.len();
    let mut v: u32 = 0;
    let mut p = k;
    // four explicit digit steps keep the relation to the spec direct
    let mut idx: usize = 0;
    while idx < 4
        invariant
            k <= p <= input@.len(),
            p == k + idx,
            idx <= 4,
            input@.len() == n,
            idx >= 1 ==> hex_digit_val(input@[k as int]) >= 0,
            idx >= 2 ==> hex_digit_val(input@[k + 1]) >= 0,
            idx >= 3 ==> hex_digit_val(input@[k + 2]) >= 0,
            v == (if idx == 0 {
                0
            } else if idx == 1 {
                hex_digit_val(input@[k as int])
            } else if idx == 2 {
                hex_digit_val(input@[k as int]) * 0x10 + hex_digit_val(input@[k + 1])
            } else if idx == 3 {
                hex_digit_val(input@[k as int]) * 0x100 + hex_digit_val(input@[k + 1]) * 0x10
                    + hex_digit_val(input@[k + 2])
            } else {
                hex_digit_val(input@[k as int]) * 0x1000 + hex_digit_val(input@[k + 1]) * 0x100
                    + hex_digit_val(input@[k + 2]) * 0x10 + hex_digit_val(input@[k + 3])
            }),
            idx >= 4 ==> hex_digit_val(input@[k + 3]) >= 0,
        decreases 4 - idx,
    {
        if p >= n {
            return Err(err_at("unexpected EOF in \\u", p));
        }
        let b = input[p];
        let d: u32 = if b >= 48 && b <= 57 {
            (b - 48) as u32
        } else if b >= 97 && b <= 102 {
            (b - 97 + 10) as u32
        } else if b >= 65 && b <= 70 {
            (b - 65 + 10) as u32
        } else {
            return Err(err_at("invalid hex digit", p + 1));
        };
        v = v * 16 + d;
        p += 1;
        idx += 1;
    }
    Ok((v, p))
}


/// Relies on `char::from_u32`: `Some` exactly for Unicode scalar values,
/// yielding the character with that code.
#[verifier::external_body]
fn char_from_u32(u: u32) -> (r: Option<char>)
    ensures
        r == (if is_scalar(u) {
            Some(u as char)
        } else {
            None::<char>
        }),
{
    char::from_u32(u)
}

proof fn lemma_width2_bounds(b: u8, b1: u8)
    ensures
        ((((b & 0x1F) as u32) << 6) | ((b1 & 0x3F) as u32)) <= 0x7FF,
{
    assert(((((b & 0x1F) as u32) << 6) | ((b1 & 0x3F) as u32)) <= 0x7FF) by (bit_vector);
}

proof fn lemma_width3_bounds(b: u8, b1: u8, b2: u8)
    ensures
        ((((b & 0x0F) as u32) << 12) | (((b1 & 0x3F) as u32) << 6) | ((b2 & 0x3F) as u32))
            <= 0xFFFF,
{
    assert(((((b & 0x0F) as u32) << 12) | (((b1 & 0x3F) as u32) << 6) | ((b2 & 0x3F) as u32))
        <= 0xFFFF) by (bit_vector);
}

proof fn lemma_width4_bounds(b: u8, b1: u8, b2: u8, b3: u8)
    ensures
        ((((b & 0x07) as u32) << 18) | (((b1 & 0x3F) as u32) << 12) | (((b2 & 0x3F) as u32) << 6)
            | ((b3 & 0x3F) as u32)) <= 0x1FFFFF,
{
    assert(((((b & 0x07) as u32) << 18) | (((b1 & 0x3F) as u32) << 12) | (((b2 & 0x3F) as u32)
        << 6) | ((b3 & 0x3F) as u32)) <= 0x1FFFFF) by (bit_vector);
}

#[verifier::rlimit(100)]
fn parse_string_body(input: &[u8], start: usize) -> (r: Result<(Vec<char>, usize), JsonParseError>)
    requires
        start <= input@.len(),
    ensures
        match string_body(input@, start as int) {
            Step::Done { v, next } => r matches Ok(p) && p.0@ == v && p.1 as int == next && start
                < next <= input@.len(),
            Step::Fail { at } => r matches Err(e) && e.offset as int == at,
        },
{
    let n = input.len();
    let mut k = start;
    let mut out: Vec<char> = Vec::new();
    proof {
        crate::json_spec::lemma_prepend_empty(string_body(input@, start as int));
    }
    loop
        invariant
            start <= k <= n,
            n == input@.len(),
            string_body(input@, start as int) == crate::json_spec::prepend(
                out@,
                string_body(input@, k as int),
            ),
        decreases n - k,
    {
        let ghost s = input@;
        let ghost acc = out@;
        if k >= n {
            return Err(err_at("unexpected EOF in string", n));
        }
        let b = input[k];
        if b == 34 {
            proof {
                assert(acc + Seq::<char>::empty() =~= acc);
            }
            return Ok((out, k + 1));
        } else if b == 92 {
            if k + 1 >= n {
                return Err(err_at("unexpected EOF in escape", k + 1));
            }
            let e = input[k + 1];
            if e == 117 {
                match parse_hex4_at(input, k + 2) {
                    Err(e2) => {
                        return Err(e2);
                    },
                    Ok((code, _p4)) => {
                        if code >= 0xD800 && code <= 0xDBFF {
                            if k + 6 >= n {
                                return Err(err_at("expected low surrogate", k + 6));
                            }
                            if input[k + 6] != 92 {
                                return Err(err_at("expected low surrogate", k + 7));
                            }
                            if k + 7 >= n {
                                return Err(err_at("expected low surrogate", k + 7));
                            }
                            if input[k + 7] != 117 {
                                return Err(err_at("expected low surrogate", k + 8));
                            }
                            match parse_hex4_at(input, k + 8) {
                                Err(e2) => {
                                    return Err(e2);
                                },
                                Ok((low, _)) => {
                                    if !(low >= 0xDC00 && low <= 0xDFFF) {
                                        return Err(err_at("invalid low surrogate", k + 12));
                                    }
                                    let cp: u32 = 0x10000 + (code - 0xD800) * 0x400 + (low
                                        - 0xDC00);
                                    match char_from_u32(cp) {
                                        Some(c) => {
                                            out.push(c);
                                            proof {
                                                assert(string_body(s, k as int) == cons_char(
                                                    c,
                                                    string_body(s, k + 12),
                                                ));
                                                crate::json_spec::lemma_prepend_cons(
                                                    acc,
                                                    c,
                                                    string_body(s, k + 12),
                                                );
                                            }
                                            k += 12;
                                        },
                                        None => {
                                            proof {
                                                assert(false);
                                            }
                                            return Err(err_at("invalid codepoint", k));
                                        },
                                    }
                                },
                            }
                        } else if code >= 0xDC00 && code <= 0xDFFF {
                            return Err(err_at("invalid codepoint", k + 6));
                        } else {
                            match char_from_u32(code) {
                                Some(c) => {
                                    out.push(c);
                                    proof {
                                        assert(string_body(s, k as int) == cons_char(
                                            c,
                                            string_body(s, k + 6),
                                        ));
                                        crate::json_spec::lemma_prepend_cons(
                                            acc,
                                            c,
                                            string_body(s, k + 6),
                                        );
                                    }
                                    k += 6;
                                },
                                None => {
                                    proof {
                                        assert(false);
                                    }
                                    return Err(err_at("invalid codepoint", k));
                                },
                            }
                        }
                    },
                }
            } else {
                let c: char = if e == 34 {
                    '"'
                } else if e == 92 {
                    '\\'
                } else if e == 47 {
                    '/'
                } else if e == 98 {
                    '\u{0008}'
                } else if e == 102 {
                    '\u{000C}'
                } else if e == 110 {
                    '\n'
                } else if e == 114 {
                    '\r'
                } else if e == 116 {
                    '\t'
                } else {
                    return Err(err_at("unknown escape", k + 2));
                };
                out.push(c);
                proof {
                    assert(string_body(s, k as int) == cons_char(c, string_body(s, k + 2)));
                    crate::json_spec::lemma_prepend_cons(acc, c, string_body(s, k + 2));
                }
                k += 2;
            }
        } else if b < 0x20 {
            return Err(err_at("control character in string", k + 1));
        } else if b < 0x80 {
            out.push(b as char);
            proof {
                assert(string_body(s, k as int) == cons_char(b as char, string_body(s, k + 1)));
                crate::json_spec::lemma_prepend_cons(acc, b as char, string_body(s, k + 1));
            }
            k += 1;
        } else {
            let ghost rest = s.skip(k as int);
            proof {
                assert(rest.len() == n - k);
                assert(forall|i: int| 0 <= i < rest.len() ==> rest[i] == s[k + i]);
            }
            if b < 0xC0 {
                proof {
                    assert(!valid_leading_and_continuation_bytes_first_codepoint(rest));
                }
                return Err(err_at("invalid utf-8", k));
            } else if b < 0xE0 {
                if k + 1 >= n {
                    proof {
                        assert(!valid_leading_and_continuation_bytes_first_codepoint(rest));
                    }
                    return Err(err_at("invalid utf-8", k));
                }
                let b1 = input[k + 1];
                if !(b1 >= 0x80 && b1 <= 0xBF) {
                    proof {
                        assert(!valid_leading_and_continuation_bytes_first_codepoint(rest));
                    }
                    return Err(err_at("invalid utf-8", k));
                }
                let cp: u32 = (((b & 0x1F) as u32) << 6) | ((b1 & 0x3F) as u32);
                proof {
                    lemma_width2_bounds(b, b1);
                    assert(cp == codepoint_width_2(rest[0], rest[1]));
                }
                if cp < 0x80 {
                    proof {
                        assert(!valid_first_scalar(rest));
                    }
                    return Err(err_at("invalid utf-8", k));
                }
                proof {
                    assert(valid_first_scalar(rest));
                    assert(length_of_first_scalar(rest) == 2);
                    assert(decode_first_scalar(rest) == cp);
                }
                match char_from_u32(cp) {
                    Some(c) => {
                        out.push(c);
                        proof {
                            assert(string_body(s, k as int) == cons_char(
                                c,
                                string_body(s, k + 2),
                            ));
                            crate::json_spec::lemma_prepend_cons(acc, c, string_body(s, k + 2));
                        }
                        k += 2;
                    },
                    None => {
                        proof {
                            assert(false);
                        }
                        return Err(err_at("invalid utf-8", k));
                    },
                }
            } else if b < 0xF0 {
                if n - k < 3 {
                    proof {
                        assert(!valid_leading_and_continuation_bytes_first_codepoint(rest));
                    }
                    return Err(err_at("invalid utf-8", k));
                }
                let b1 = input[k + 1];
                let b2 = input[k + 2];
                if !(b1 >= 0x80 && b1 <= 0xBF) || !(b2 >= 0x80 && b2 <= 0xBF) {
                    proof {
                        assert(!valid_leading_and_continuation_bytes_first_codepoint(rest));
                    }
                    return Err(err_at("invalid utf-8", k));
                }
                let cp: u32 = (((b & 0x0F) as u32) << 12) | (((b1 & 0x3F) as u32) << 6) | ((b2
                    & 0x3F) as u32);
                proof {
                    lemma_width3_bounds(b, b1, b2);
                    assert(cp == codepoint_width_3(rest[0], rest[1], rest[2]));
                }
                if cp < 0x800 || (cp >= 0xD800 && cp <= 0xDFFF) {
                    proof {
                        assert(!valid_first_scalar(rest));
                    }
                    return Err(err_at("invalid utf-8", k));
                }
                proof {
                    assert(valid_first_scalar(rest));
                    assert(length_of_first_scalar(rest) == 3);
                    assert(decode_first_scalar(rest) == cp);
                }
                match char_from_u32(cp) {
                    Some(c) => {
                        out.push(c);
                        proof {
                            assert(string_body(s, k as int) == cons_char(
                                c,
                                string_body(s, k + 3),
                            ));
                            crate::json_spec::lemma_prepend_cons(acc, c, string_body(s, k + 3));
                        }
                        k += 3;
                    },
                    None => {
                        proof {
                            assert(false);
                        }
                        return Err(err_at("invalid utf-8", k));
                    },
                }
            } else if b < 0xF8 {
                if n - k < 4 {
                    proof {
                        assert(!valid_leading_and_continuation_bytes_first_codepoint(rest));
                    }
                    return Err(err_at("invalid utf-8", k));
                }
                let b1 = input[k + 1];
                let b2 = input[k + 2];
                let b3 = input[k + 3];
                if !(b1 >= 0x80 && b1 <= 0xBF) || !(b2 >= 0x80 && b2 <= 0xBF) || !(b3 >= 0x80 && b3
                    <= 0xBF) {
                    proof {
                        assert(!valid_leading_and_continuation_bytes_first_codepoint(rest));
                    }
                    return Err(err_at("invalid utf-8", k));
                }
                let cp: u32 = (((b & 0x07) as u32) << 18) | (((b1 & 0x3F) as u32) << 12) | (((b2
                    & 0x3F) as u32) << 6) | ((b3 & 0x3F) as u32);
                proof {
                    lemma_width4_bounds(b, b1, b2, b3);
                    assert(cp == codepoint_width_4(rest[0], rest[1], rest[2], rest[3]));
                }
                if cp < 0x10000 || cp > 0x10FFFF {
                    proof {
                        assert(!valid_first_scalar(rest));
                    }
                    return Err(err_at("invalid utf-8", k));
                }
                proof {
                    assert(valid_first_scalar(rest));
                    assert(length_of_first_scalar(rest) == 4);
                    assert(decode_first_scalar(rest) == cp);
                }
                match char_from_u32(cp) {
                    Some(c) => {
                        out.push(c);
                        proof {
                            assert(string_body(s, k as int) == cons_char(
                                c,
                                string_body(s, k + 4),
                            ));
                            crate::json_spec::lemma_prepend_cons(acc, c, string_body(s, k + 4));
                        }
                        k += 4;
                    },
                    None => {
                        proof {
                            assert(false);
                        }
                        return Err(err_at("invalid utf-8", k));
                    },
                }
            } else {
                proof {
                    assert(!valid_leading_and_continuation_bytes_first_codepoint(rest));
                }
                return Err(err_at("invalid utf-8", k));
            }
        }
    }
}

fn parse_string_at(input: &[u8], i: usize) -> (r: Result<(Vec<char>, usize), JsonParseError>)
    requires
        i <= input@.len(),
    ensures
        match string_lit(input@, i as int) {
            Step::Done { v, next } => r matches Ok(p) && p.0@ == v && p.1 as int == next && i
                < next <= input@.len(),
            Step::Fail { at } => r matches Err(e) && e.offset as int == at,
        },
{
    if i >= input.len() {
        return Err(err_at("expected '\"'", i));
    }
    if input[i] != 34 {
        return Err(err_at("expected '\"'", i + 1));
    }
    parse_string_body(input, i + 1)
}


proof fn lemma_digits_val_nonneg(s: Seq<u8>, m: int, e: int)
    requires
        m <= e,
        forall|p: int| m <= p < e ==> digit(#[trigger] s[p]),
    ensures
        digits_val(s, m, e) >= 0,
    decreases e - m,
{
    if e > m {
        lemma_digits_val_nonneg(s, m, e - 1);
    }
}

fn parse_number_at(input: &[u8], j: usize) -> (r: Result<(Json, usize), JsonParseError>)
    requires
        j < input@.len(),
    ensures
        match number_lit(input@, j as int) {
            Step::Done { v, next } => r matches Ok(p) && json_rep(p.0) == v && p.1 as int == next
                && j < next <= input@.len(),
            Step::Fail { at } => r matches Err(e) && e.offset as int == at,
        },
{
    let n = input.len();
    let neg = input[j] == 45;
    let m = if neg {
        j + 1
    } else {
        j
    };
    proof {
        crate::json_spec::lemma_digits_end_bounds(input@, m as int);
    }
    let mut e = m;
    while e < n && input[e] >= 48 && input[e] <= 57
        invariant
            m <= e <= n,
            n == input@.len(),
            digits_end(input@, m as int) == digits_end(input@, e as int),
            forall|p: int| m <= p < e ==> digit(#[trigger] input@[p]),
        decreases n - e,
    {
        e += 1;
    }
    proof {
        assert(digits_end(input@, e as int) == e);
    }
    if e == m {
        return Err(err_at("expected digits", m));
    }
    if e < n && (input[e] == 46 || input[e] == 101 || input[e] == 69) {
        return Err(err_at("non-integer numbers not supported", e));
    }
    let mut val: u64 = 0;
    let mut big = false;
    let mut p = m;
    while p < e
        invariant
            m <= p <= e <= n,
            n == input@.len(),
            forall|q: int| m <= q < e ==> digit(#[trigger] input@[q]),
            !big ==> val as int == digits_val(input@, m as int, p as int),
            big ==> digits_val(input@, m as int, p as int) > u64::MAX as int,
        decreases e - p,
    {
        let d = (input[p] - 48) as u64;
        proof {
            assert(digit(input@[p as int]));
            assert(digits_val(input@, m as int, p + 1) == digits_val(input@, m as int, p as int)
                * 10 + (input@[p as int] - 48));
            lemma_digits_val_nonneg(input@, m as int, p as int);
        }
        if big {
            proof {
                let dv = digits_val(input@, m as int, p as int);
                assert(dv * 10 >= dv) by (nonlinear_arith)
                    requires
                        dv >= 0,
                ;
            }
        } else if val > (u64::MAX - d) / 10 {
            proof {
                let cap = (u64::MAX - d) as int;
                assert(cap == 10 * (cap / 10) + cap % 10);
                assert(val as int * 10 >= (cap / 10 + 1) * 10) by (nonlinear_arith)
                    requires
                        val as int >= cap / 10 + 1,
                ;
                assert(val as int * 10 + d as int > u64::MAX as int);
            }
            big = true;
        } else {
            proof {
                let cap = (u64::MAX - d) as int;
                assert(cap == 10 * (cap / 10) + cap % 10);
                assert(val as int * 10 <= (cap / 10) * 10) by (nonlinear_arith)
                    requires
                        val as int <= cap / 10,
                ;
                assert(val as int * 10 + d as int <= u64::MAX as int);
            }
            val = val * 10 + d;
        }
        p += 1;
    }
    if big {
        return Err(err_at("invalid number", e));
    }
    if neg {
        if val > 9223372036854775808u64 {
            return Err(err_at("invalid number", e));
        }
        let num: i64 = if val == 9223372036854775808u64 {
            i64::MIN
        } else {
            -(val as i64)
        };
        Ok((Json::Number(num), e))
    } else {
        if val > 9223372036854775807u64 {
            return Err(err_at("invalid number", e));
        }
        Ok((Json::Number(val as i64), e))
    }
}

fn parse_value_at(input: &[u8], i: usize) -> (r: Result<(Json, usize), JsonParseError>)
    requires
        i <= input@.len(),
    ensures
        match value_at(input@, i as int) {
            Step::Done { v, next } => r matches Ok(p) && json_rep(p.0) == v && p.1 as int == next
                && i < next <= input@.len(),
            Step::Fail { at } => r matches Err(e) && e.offset as int == at,
        },
    decreases input@.len() - i, 1int,
{
    let n = input.len();
    let j = skip_ws_at(input, i);
    if j >= n {
        return Err(err_at("unexpected EOF", j));
    }
    let b = input[j];
    if b == 110 {
        if n - j >= 4 && input[j + 1] == 117 && input[j + 2] == 108 && input[j + 3] == 108 {
            Ok((Json::Null, j + 4))
        } else {
            Err(err_at("expected null", j))
        }
    } else if b == 116 {
        if n - j >= 4 && input[j + 1] == 114 && input[j + 2] == 117 && input[j + 3] == 101 {
            Ok((Json::Bool(true), j + 4))
        } else {
            Err(err_at("expected boolean", j))
        }
    } else if b == 102 {
        if n - j >= 5 && input[j + 1] == 97 && input[j + 2] == 108 && input[j + 3] == 115 && input[j
            + 4] == 101 {
            Ok((Json::Bool(false), j + 5))
        } else {
            Err(err_at("expected boolean", j))
        }
    } else if b == 45 || (b >= 48 && b <= 57) {
        parse_number_at(input, j)
    } else if b == 34 {
        match parse_string_at(input, j) {
            Ok((cs, next)) => {
                let st = crate::text::string_from_chars(&cs);
                Ok((Json::String(st), next))
            },
            Err(e) => Err(e),
        }
    } else if b == 91 {
        parse_array_at(input, j)
    } else if b == 123 {
        parse_object_at(input, j)
    } else {
        Err(err_at("unexpected character", j))
    }
}

fn parse_array_at(input: &[u8], j: usize) -> (r: Result<(Json, usize), JsonParseError>)
    requires
        j < input@.len(),
        input@[j as int] == 91u8,
    ensures
        match array_at(input@, j as int) {
            Step::Done { v, next } => r matches Ok(p) && json_rep(p.0) == v && p.1 as int == next
                && j < next <= input@.len(),
            Step::Fail { at } => r matches Err(e) && e.offset as int == at,
        },
    decreases input@.len() - j, 0int,
{
    let n = input.len();
    let k = skip_ws_at(input, j + 1);
    if k < n && input[k] == 93 {
        let items: Vec<Json> = Vec::new();
        proof {
            assert(json_rep_list(items@) =~= Seq::<JsonVal>::empty());
        }
        return Ok((Json::Array(items), k + 1));
    }
    match parse_array_items_at(input, k) {
        Ok((items, next)) => Ok((Json::Array(items), next)),
        Err(e) => Err(e),
    }
}

fn parse_array_items_at(input: &[u8], k: usize) -> (r: Result<
    (Vec<Json>, usize),
    JsonParseError,
>)
    requires
        k <= input@.len(),
    ensures
        match array_items(input@, k as int) {
            Step::Done { v, next } => r matches Ok(p) && json_rep_list(p.0@) == v && p.1 as int
                == next && k < next <= input@.len(),
            Step::Fail { at } => r matches Err(e) && e.offset as int == at,
        },
    decreases input@.len() - k, 2int,
{
    match parse_value_at(input, k) {
        Err(e) => Err(e),
        Ok((v, next)) => {
            let jj = skip_ws_at(input, next);
            if jj >= input.len() {
                return Err(err_at("unexpected EOF in array", input.len()));
            }
            if input[jj] == 44 {
                match parse_array_items_at(input, jj + 1) {
                    Err(e) => Err(e),
                    Ok((mut items, n2)) => {
                        let ghost tail = items@;
                        items.insert(0, v);
                        proof {
                            lemma_json_rep_list(items@);
                            lemma_json_rep_list(tail);
                            assert(json_rep_list(items@) =~= seq![json_rep(v)] + json_rep_list(
                                tail,
                            ));
                        }
                        Ok((items, n2))
                    },
                }
            } else if input[jj] == 93 {
                let mut items: Vec<Json> = Vec::new();
                items.push(v);
                proof {
                    lemma_json_rep_list(items@);
                    assert(json_rep_list(items@) =~= seq![json_rep(v)]);
                }
                Ok((items, jj + 1))
            } else {
                Err(err_at("expected ',' or ']'", jj + 1))
            }
        },
    }
}

fn parse_object_at(input: &[u8], j: usize) -> (r: Result<(Json, usize), JsonParseError>)
    requires
        j < input@.len(),
        input@[j as int] == 123u8,
    ensures
        match object_at(input@, j as int) {
            Step::Done { v, next } => r matches Ok(p) && json_rep(p.0) == v && p.1 as int == next
                && j < next <= input@.len(),
            Step::Fail { at } => r matches Err(e) && e.offset as int == at,
        },
    decreases input@.len() - j, 0int,
{
    let n = input.len();
    let k = skip_ws_at(input, j + 1);
    if k < n && input[k] == 125 {
        let fields: Vec<JsonMember> = Vec::new();
        proof {
            assert(json_rep_obj(fields@) =~= Seq::<(Seq<char>, JsonVal)>::empty());
        }
        return Ok((Json::Object(fields), k + 1));
    }
    match parse_object_items_at(input, k) {
        Ok((fields, next)) => Ok((Json::Object(fields), next)),
        Err(e) => Err(e),
    }
}

fn parse_object_items_at(input: &[u8], k: usize) -> (r: Result<
    (Vec<JsonMember>, usize),
    JsonParseError,
>)
    requires
        k <= input@.len(),
    ensures
        match object_items(input@, k as int) {
            Step::Done { v, next } => r matches Ok(p) && json_rep_obj(p.0@) == v && p.1 as int
                == next && k < next <= input@.len(),
            Step::Fail { at } => r matches Err(e) && e.offset as int == at,
        },
    decreases input@.len() - k, 2int,
{
    let k2 = skip_ws_at(input, k);
    match parse_string_at(input, k2) {
        Err(e) => Err(e),
        Ok((key_chars, nk)) => {
            let key = crate::text::string_from_chars(&key_chars);
            let j1 = skip_ws_at(input, nk);
            if j1 >= input.len() {
                return Err(err_at("expected ':'", input.len()));
            }
            if input[j1] != 58 {
                return Err(err_at("expected ':'", j1 + 1));
            }
            match parse_value_at(input, j1 + 1) {
                Err(e) => Err(e),
                Ok((v, nv)) => {
                    let j2 = skip_ws_at(input, nv);
                    if j2 >= input.len() {
                        return Err(err_at("unexpected EOF in object", input.len()));
                    }
                    if input[j2] == 44 {
                        match parse_object_items_at(input, j2 + 1) {
                            Err(e) => Err(e),
                            Ok((mut fields, n2)) => {
                                let ghost tail = fields@;
                                let ghost gkey = key;
                                let ghost gv = v;
                                fields.insert(0, JsonMember { key, value: v });
                                proof {
                                    lemma_json_rep_obj(fields@);
                                    lemma_json_rep_obj(tail);
                                    assert(json_rep_obj(fields@) =~= seq![
                                        (gkey@, json_rep(gv)),
                                    ] + json_rep_obj(tail));
                                }
                                Ok((fields, n2))
                            },
                        }
                    } else if input[j2] == 125 {
                        let ghost gkey = key;
                        let ghost gv = v;
                        let mut fields: Vec<JsonMember> = Vec::new();
                        fields.push(JsonMember { key, value: v });
                        proof {
                            lemma_json_rep_obj(fields@);
                            assert(json_rep_obj(fields@) =~= seq![(gkey@, json_rep(gv))]);
                        }
                        Ok((fields, j2 + 1))
                    } else {
                        Err(err_at("expected ',' or '}'", j2 + 1))
                    }
                },
            }
        },
    }
}

/// Decodes one JSON-dialect document from raw bytes: the result is the
/// value the spec-level parser assigns to the input, and a decode error
/// carries exactly the offset at which that parser fails.
pub fn parse_json(input: &[u8]) -> (r: Result<Json, JsonParseError>)
    ensures
        match json_doc(input@) {
            Step::Done { v, next } => r matches Ok(j) && json_rep(j) == v,
            Step::Fail { at } => r matches Err(e) && e.offset as int == at,
        },
{
    match parse_value_at(input, 0) {
        Err(e) => Err(e),
        Ok((v, next)) => {
            let j = skip_ws_at(input, next);
            if j != input.len() {
                Err(err_at("trailing characters", j))
            } else {
                Ok(v)
            }
        },
    }
}


/// The mathematical image of a fragment context.
pub open spec fn frag_rep(f: FragmentContextSpec) -> (Option<Seq<char>>, Seq<char>) {
    (
        match f.namespace {
            Some(ns) => Some(ns@),
            None => None,
        },
        f.tag_name@,
    )
}

/// The mathematical image of a decoded case.
pub open spec fn case_rep(c: TreeConstructionCase) -> TcCase {
    TcCase {
        data: c.data@,
        error_count: c.error_count as int,
        fragment: match c.fragment_context {
            Some(fc) => Some(frag_rep(fc)),
            None => None,
        },
        script: c.script_directive,
        expected: c.expected@,
    }
}

/// The mathematical images of a list of decoded cases.
pub open spec fn cases_rep(v: Seq<TreeConstructionCase>) -> Seq<TcCase> {
    Seq::new(v.len(), |i: int| case_rep(v[i]))
}

fn is_header_line(line: &Vec<char>) -> (r: bool)
    ensures
        r == is_header_line_spec(line@),
{
    chars_eq_str(line, "#data") || chars_eq_str(line, "#errors") || chars_eq_str(
        line,
        "#new-errors",
    ) || chars_eq_str(line, "#document-fragment") || chars_eq_str(line, "#script-on")
        || chars_eq_str(line, "#script-off") || chars_eq_str(line, "#document")
}

fn find_marker(lines: &Vec<Vec<char>>, i: usize, m: &str) -> (r: usize)
    requires
        i <= lines@.len(),
    ensures
        r as int == find_from(lines_view(lines@), i as int, m@),
        i <= r <= lines@.len(),
    decreases lines@.len() - i,
{
    let n = lines.len();
    let mut j = i;
    while j < n && !chars_eq_str(&lines[j], m)
        invariant
            i <= j <= n,
            n == lines@.len(),
            find_from(lines_view(lines@), i as int, m@) == find_from(
                lines_view(lines@),
                j as int,
                m@,
            ),
        decreases n - j,
    {
        proof {
            assert(lines_view(lines@)[j as int] == lines@[j as int]@);
        }
        j += 1;
    }
    proof {
        if j < n {
            assert(lines_view(lines@)[j as int] == lines@[j as int]@);
        }
        assert(find_from(lines_view(lines@), j as int, m@) == j);
    }
    j
}

fn find_header_at(lines: &Vec<Vec<char>>, i: usize) -> (r: usize)
    requires
        i <= lines@.len(),
    ensures
        r as int == find_header(lines_view(lines@), i as int),
        i <= r <= lines@.len(),
{
    let n = lines.len();
    let mut j = i;
    while j < n && !is_header_line(&lines[j])
        invariant
            i <= j <= n,
            n == lines@.len(),
            find_header(lines_view(lines@), i as int) == find_header(
                lines_view(lines@),
                j as int,
            ),
        decreases n - j,
    {
        proof {
            assert(lines_view(lines@)[j as int] == lines@[j as int]@);
        }
        j += 1;
    }
    proof {
        if j < n {
            assert(lines_view(lines@)[j as int] == lines@[j as int]@);
        }
        assert(find_header(lines_view(lines@), j as int) == j);
    }
    j
}

fn count_nonblank_lines(lines: &Vec<Vec<char>>, i: usize, j: usize) -> (r: usize)
    requires
        i <= j <= lines@.len(),
    ensures
        r as int == count_nonblank(lines_view(lines@), i as int, j as int),
        r <= j - i,
{
    let mut acc: usize = 0;
    let mut p = i;
    while p < j
        invariant
            i <= p <= j <= lines@.len(),
            acc as int == count_nonblank(lines_view(lines@), i as int, p as int),
            acc <= p - i,
        decreases j - p,
    {
        let t = trim_chars(&lines[p]);
        proof {
            assert(lines_view(lines@)[p as int] == lines@[p as int]@);
        }
        if t.len() != 0 {
            acc += 1;
        }
        p += 1;
    }
    acc
}

fn join_lines_range(lines: &Vec<Vec<char>>, a: usize, b: usize) -> (r: Vec<char>)
    requires
        a <= b <= lines@.len(),
    ensures
        r@ == join_lines(lines_view(lines@).subrange(a as int, b as int)),
{
    let ghost lv = lines_view(lines@);
    let mut out: Vec<char> = Vec::new();
    let mut idx = a;
    proof {
        assert(lv.subrange(a as int, a as int) =~~= Seq::<Seq<char>>::empty());
    }
    while idx < b
        invariant
            a <= idx <= b <= lines@.len(),
            lv == lines_view(lines@),
            out@ == join_lines(lv.subrange(a as int, idx as int)),
        decreases b - idx,
    {
        if idx > a {
            crate::text::push_str_chars(&mut out, "\n");
        }
        crate::text::push_chars(&mut out, &lines[idx]);
        proof {
            assert(lv[idx as int] == lines@[idx as int]@);
            assert(lv.subrange(a as int, idx + 1) =~~= lv.subrange(a as int, idx as int).push(
                lv[idx as int],
            ));
            lemma_join_lines_snoc(lv.subrange(a as int, idx as int), lv[idx as int]);
        }
        idx += 1;
    }
    out
}

fn line_is_blank(v: &Vec<char>) -> (r: bool)
    ensures
        r == is_blank(v@),
{
    let t = trim_chars(v);
    t.len() == 0
}

/// Builds a case's expected text from the accumulated lines
/// `lines[lo..hi]`: leading and trailing blank lines stripped, trailing
/// whitespace stripped from every retained line, joined with newlines.
fn expected_range(lines: &Vec<Vec<char>>, lo: usize, hi: usize) -> (r: Vec<char>)
    requires
        lo <= hi <= lines@.len(),
    ensures
        r@ == expected_text(lines_view(lines@).subrange(lo as int, hi as int)),
{
    let ghost lv = lines_view(lines@);
    let ghost seg = lv.subrange(lo as int, hi as int);
    proof {
        assert(forall|j: int| 0 <= j < seg.len() ==> #[trigger] seg[j] == lines@[lo + j]@);
    }
    let n = lines.len();
    let mut a = lo;
    while a < hi && line_is_blank(&lines[a])
        invariant
            lo <= a <= hi <= lines@.len(),
            forall|j: int| lo <= j < a ==> is_blank(#[trigger] lines@[j]@),
        decreases hi - a,
    {
        a += 1;
    }
    let mut b = hi;
    while b > a && line_is_blank(&lines[b - 1])
        invariant
            a <= b <= hi,
            hi <= lines@.len(),
            forall|j: int| b <= j < hi ==> is_blank(#[trigger] lines@[j]@),
        decreases b,
    {
        b -= 1;
    }
    let ghost kept = lv.subrange(a as int, b as int);
    proof {
        crate::section_spec::lemma_drop_leading_blank_skip(seg, a - lo);
        let seg2 = seg.skip(a - lo);
        assert(seg2 =~~= lv.subrange(a as int, hi as int));
        assert(forall|j: int| 0 <= j < seg2.len() ==> #[trigger] seg2[j] == lines@[a + j]@);
        crate::section_spec::lemma_drop_trailing_blank_take(seg2, b - a);
        assert(seg2.take(b - a) =~~= kept);
        assert(crate::section_spec::drop_trailing_blank(
            crate::section_spec::drop_leading_blank(seg),
        ) == kept);
    }
    let ghost mapped = Seq::new(kept.len(), |i: int| crate::text::trim_end_ws(kept[i]));
    let mut out: Vec<char> = Vec::new();
    let mut j = a;
    while j < b
        invariant
            a <= j <= b <= lines@.len(),
            kept == lines_view(lines@).subrange(a as int, b as int),
            mapped == Seq::new(kept.len(), |i: int| crate::text::trim_end_ws(kept[i])),
            out@ == join_lines(mapped.take(j - a)),
        decreases b - j,
    {
        if j > a {
            crate::text::push_str_chars(&mut out, "\n");
        }
        let t = crate::text::trim_end_chars(&lines[j]);
        crate::text::push_chars(&mut out, &t);
        proof {
            assert(kept[j - a] == lines@[j as int]@);
            assert(mapped[j - a] == crate::text::trim_end_ws(lines@[j as int]@));
            assert(mapped.take(j - a + 1) =~~= mapped.take(j - a).push(mapped[j - a]));
            lemma_join_lines_snoc(mapped.take(j - a), mapped[j - a]);
        }
        j += 1;
    }
    proof {
        assert(mapped.take(b - a) =~~= mapped);
        assert(out@ == expected_text(seg));
    }
    out
}

fn parse_fragment_context_line(line: &Vec<char>) -> (r: FragmentContextSpec)
    ensures
        frag_rep(r) == fragment_ctx_of(line@),
{
    let t = trim_chars(line);
    proof {
        reveal_strlit("svg ");
        reveal_strlit("svg");
        reveal_strlit("math ");
        reveal_strlit("math");
    }
    if chars_has_prefix(&t, "svg ") {
        let tag = subrange_chars(&t, 4, t.len());
        proof {
            assert(tag@ =~= t@.skip(4));
        }
        FragmentContextSpec {
            namespace: Some("svg".to_owned()),
            tag_name: string_from_chars(&tag),
        }
    } else if chars_has_prefix(&t, "math ") {
        let tag = subrange_chars(&t, 5, t.len());
        proof {
            assert(tag@ =~= t@.skip(5));
        }
        FragmentContextSpec {
            namespace: Some("math".to_owned()),
            tag_name: string_from_chars(&tag),
        }
    } else {
        FragmentContextSpec { namespace: None, tag_name: string_from_chars(&t) }
    }
}

/// Decodes every grammar-conformant case from the text of a multi-section
/// fixture file; malformed cases are skipped, and scanning resumes at the
/// point where the malformed case ended.
#[verifier::rlimit(100)]
pub fn parse_tree_construction_text(input: &str) -> (r: Vec<TreeConstructionCase>)
    ensures
        cases_rep(r@) == tree_cases(input@),
        forall|k: int| 0 <= k < r@.len() ==> ((#[trigger] r@[k]).fragment_context matches Some(fc)
            ==> fc.tag_name@.len() > 0),
{
    let cs = chars_of(input);
    let lines = split_lines_exec(&cs);
    let ghost lv = lines_view(lines@);
    let n = lines.len();
    let mut out: Vec<TreeConstructionCase> = Vec::new();
    let mut i: usize = 0;
    proof {
        assert(cases_rep(out@) + scan_cases(lv, 0) =~~= scan_cases(lv, 0));
    }
    loop
        invariant_except_break
            lv == lines_view(lines@),
            lv == split_lines(input@),
            n == lines@.len(),
            i <= n,
            scan_cases(lv, 0) == cases_rep(out@) + scan_cases(lv, i as int),
        ensures
            scan_cases(lv, 0) == cases_rep(out@),
        decreases n - i,
    {
        if i >= n {
            proof {
                assert(scan_cases(lv, i as int) =~~= Seq::<TcCase>::empty());
                assert(cases_rep(out@) + Seq::<TcCase>::empty() =~~= cases_rep(out@));
            }
            break;
        }
        proof {
            assert(lv[i as int] == lines@[i as int]@);
        }
        if !chars_eq_str(&lines[i], "#data") {
            proof {
                assert(scan_cases(lv, i as int) == scan_cases(lv, i + 1));
            }
            i += 1;
            continue;
        }
        // a case begins: its data starts on the next line
        let ci = i + 1;
        proof {
            assert(scan_cases(lv, i as int) == case_at(lv, ci as int));
        }
        let de = find_marker(&lines, ci, "#errors");
        if de >= n {
            proof {
                assert(case_at(lv, ci as int) =~~= Seq::<TcCase>::empty());
                assert(cases_rep(out@) + case_at(lv, ci as int) =~~= cases_rep(out@)
                    + Seq::<TcCase>::empty());
                assert(cases_rep(out@) + Seq::<TcCase>::empty() =~~= cases_rep(out@));
            }
            i = n;
            continue;
        }
        let data_chars = join_lines_range(&lines, ci, de);
        let data = string_from_chars(&data_chars);
        let ee = find_header_at(&lines, de + 1);
        let err1 = count_nonblank_lines(&lines, de + 1, ee);
        let mut err_total = err1;
        let mut cursor = ee;
        let ghost more = ee < n && lv[ee as int] == "#new-errors"@;
        proof {
            if ee < n {
                assert(lv[ee as int] == lines@[ee as int]@);
            }
        }
        if cursor < n && chars_eq_str(&lines[cursor], "#new-errors") {
            let ee2 = find_header_at(&lines, cursor + 1);
            let err2 = count_nonblank_lines(&lines, cursor + 1, ee2);
            err_total = err1 + err2;
            cursor = ee2;
        }
        let mut fragment_context: Option<FragmentContextSpec> = None;
        proof {
            if cursor < n {
                assert(lv[cursor as int] == lines@[cursor as int]@);
            }
        }
        if cursor < n && chars_eq_str(&lines[cursor], "#document-fragment") {
            if cursor + 1 < n {
                let fc = parse_fragment_context_line(&lines[cursor + 1]);
                proof {
                    assert(lv[cursor + 1] == lines@[cursor + 1]@);
                }
                if fc.tag_name.as_str().unicode_len() == 0 {
                    // the context line carries no tag name: the case is
                    // malformed and scanning resumes after that line
                    proof {
                        assert(case_at(lv, ci as int) == scan_cases(lv, cursor + 2));
                    }
                    i = cursor + 2;
                    continue;
                }
                fragment_context = Some(fc);
                cursor = cursor + 2;
            } else {
                // the context line is missing at end of file: malformed,
                // and nothing is left to scan
                proof {
                    let empty_ctx = fragment_ctx_of(Seq::<char>::empty());
                    assert(crate::text::trim_start_ws(Seq::<char>::empty())
                        =~= Seq::<char>::empty());
                    assert(empty_ctx.1.len() == 0);
                    assert(case_at(lv, ci as int) =~~= Seq::<TcCase>::empty());
                    assert(cases_rep(out@) + case_at(lv, ci as int) =~~= cases_rep(out@)
                        + Seq::<TcCase>::empty());
                    assert(cases_rep(out@) + Seq::<TcCase>::empty() =~~= cases_rep(out@));
                }
                i = n;
                continue;
            }
        }
        let mut script_directive = ScriptDirective::Both;
        proof {
            if cursor < n {
                assert(lv[cursor as int] == lines@[cursor as int]@);
            }
        }
        if cursor < n && chars_eq_str(&lines[cursor], "#script-on") {
            script_directive = ScriptDirective::On;
            cursor += 1;
        } else if cursor < n && chars_eq_str(&lines[cursor], "#script-off") {
            script_directive = ScriptDirective::Off;
            cursor += 1;
        }
        proof {
            if cursor < n {
                assert(lv[cursor as int] == lines@[cursor as int]@);
            }
        }
        if !(cursor < n && chars_eq_str(&lines[cursor], "#document")) {
            if cursor >= n {
                proof {
                    assert(case_at(lv, ci as int) =~~= Seq::<TcCase>::empty());
                    assert(cases_rep(out@) + case_at(lv, ci as int) =~~= cases_rep(out@)
                        + Seq::<TcCase>::empty());
                    assert(cases_rep(out@) + Seq::<TcCase>::empty() =~~= cases_rep(out@));
                }
                i = n;
            } else {
                proof {
                    assert(case_at(lv, ci as int) == scan_cases(lv, cursor + 1));
                }
                i = cursor + 1;
            }
            continue;
        }
        let xe = find_marker(&lines, cursor + 1, "#data");
        let expected = string_from_chars(&expected_range(&lines, cursor + 1, xe));
        let ghost prev = out@;
        let case = TreeConstructionCase {
            data,
            error_count: err_total,
            fragment_context,
            script_directive,
            expected,
        };
        let ghost gcase = case_rep(case);
        out.push(case);
        proof {
            assert(case_at(lv, ci as int) == seq![gcase] + scan_cases(lv, xe as int));
            assert(cases_rep(out@) =~~= cases_rep(prev) + seq![gcase]);
            assert(cases_rep(prev) + (seq![gcase] + scan_cases(lv, xe as int)) =~~= (cases_rep(
                prev,
            ) + seq![gcase]) + scan_cases(lv, xe as int));
        }
        i = xe;
    }
    proof {
        crate::section_spec::lemma_fragment_tags_nonempty(lv, 0);
        assert forall|k: int| 0 <= k < out@.len() implies ((#[trigger] out@[k]).fragment_context
            matches Some(fc) ==> fc.tag_name@.len() > 0) by {
            assert(cases_rep(out@)[k] == case_rep(out@[k]));
        }
    }
    out
}


fn push_hex4(out: &mut Vec<u8>, v: u32)
    requires
        v < 0x10000,
    ensures
        final(out)@ == old(out)@ + crate::json_spec::hex4_bytes(v as int),
{
    let d0 = v / 0x1000 % 0x10;
    let d1 = v / 0x100 % 0x10;
    let d2 = v / 0x10 % 0x10;
    let d3 = v % 0x10;
    out.push(if d0 < 10 { (48 + d0) as u8 } else { (97 + d0 - 10) as u8 });
    out.push(if d1 < 10 { (48 + d1) as u8 } else { (97 + d1 - 10) as u8 });
    out.push(if d2 < 10 { (48 + d2) as u8 } else { (97 + d2 - 10) as u8 });
    out.push(if d3 < 10 { (48 + d3) as u8 } else { (97 + d3 - 10) as u8 });
    proof {
        assert(out@ =~= old(out)@ + crate::json_spec::hex4_bytes(v as int));
    }
}

fn push_enc_char(out: &mut Vec<u8>, c: char)
    ensures
        final(out)@ == old(out)@ + crate::json_spec::enc_char(c),
{
    broadcast use vstd::utf8::char_is_scalar;

    let ghost ec = crate::json_spec::enc_char(c);
    if c == '"' {
        out.push(92);
        out.push(34);
    } else if c == '\\' {
        out.push(92);
        out.push(92);
    } else if c == '\u{0008}' {
        out.push(92);
        out.push(98);
    } else if c == '\u{000C}' {
        out.push(92);
        out.push(102);
    } else if c == '\n' {
        out.push(92);
        out.push(110);
    } else if c == '\r' {
        out.push(92);
        out.push(114);
    } else if c == '\t' {
        out.push(92);
        out.push(116);
    } else {
        let u = c as u32;
        if u < 0x20 {
            out.push(92);
            out.push(117);
            push_hex4(out, u);
        } else if u < 0x80 {
            out.push(u as u8);
        } else if u < 0x10000 {
            out.push(92);
            out.push(117);
            push_hex4(out, u);
        } else {
            let d = u - 0x10000;
            out.push(92);
            out.push(117);
            push_hex4(out, 0xD800 + d / 0x400);
            proof {
                assert(d / 0x400 < 0x400) by (nonlinear_arith)
                    requires
                        0 <= d < 0x100000,
                ;
            }
            out.push(92);
            out.push(117);
            push_hex4(out, 0xDC00 + d % 0x400);
        }
    }
    proof {
        assert(out@ =~= old(out)@ + ec);
    }
}

fn push_enc_string(out: &mut Vec<u8>, st: &str)
    ensures
        final(out)@ == old(out)@ + crate::json_spec::enc_string(st@),
{
    let cs = chars_of(st);
    out.push(34);
    let n = cs.len();
    let mut i: usize = 0;
    while i < n
        invariant
            n == cs@.len(),
            cs@ == st@,
            i <= n,
            out@ == old(out)@ + seq![34u8] + crate::json_spec::enc_chars(cs@.take(i as int)),
        decreases n - i,
    {
        push_enc_char(out, cs[i]);
        proof {
            assert(cs@.take(i + 1) =~= cs@.take(i as int) + seq![cs@[i as int]]);
            crate::json_spec::lemma_enc_chars_append(cs@.take(i as int), seq![cs@[i as int]]);
            crate::json_spec::lemma_enc_chars_singleton(cs@[i as int]);
        }
        i += 1;
    }
    out.push(34);
    proof {
        assert(cs@.take(n as int) =~= cs@);
        assert(out@ =~= old(out)@ + crate::json_spec::enc_string(st@));
    }
}

fn push_dec_u64(out: &mut Vec<u8>, n: u64)
    ensures
        final(out)@ == old(out)@ + crate::json_spec::dec_nat(n as int),
    decreases n,
{
    if n < 10 {
        out.push(48 + n as u8);
        proof {
            assert(out@ =~= old(out)@ + crate::json_spec::dec_nat(n as int));
        }
    } else {
        push_dec_u64(out, n / 10);
        out.push(48 + (n % 10) as u8);
        proof {
            assert(out@ =~= old(out)@ + crate::json_spec::dec_nat(n as int));
        }
    }
}

fn push_dec_i64(out: &mut Vec<u8>, n: i64)
    ensures
        final(out)@ == old(out)@ + crate::json_spec::dec_int(n as int),
{
    if n >= 0 {
        push_dec_u64(out, n as u64);
    } else {
        out.push(45);
        let mag: u64 = ((-(n + 1)) as u64) + 1;
        proof {
            assert(mag as int == -(n as int));
        }
        push_dec_u64(out, mag);
        proof {
            assert(out@ =~= old(out)@ + crate::json_spec::dec_int(n as int));
        }
    }
}

fn enc_value_into(out: &mut Vec<u8>, j: &Json)
    ensures
        final(out)@ == old(out)@ + crate::json_spec::enc_val(json_rep(*j)),
    decreases j, 0int,
{
    broadcast use vstd::std_specs::vec::axiom_vec_index_decreases,
        vstd::std_specs::vec::axiom_vec_decreases_to_view,
        vstd::seq::axiom_seq_index_decreases;

    match j {
        Json::Null => {
            out.push(110);
            out.push(117);
            out.push(108);
            out.push(108);
            proof {
                assert(out@ =~= old(out)@ + crate::json_spec::enc_val(json_rep(*j)));
            }
        },
        Json::Bool(b) => {
            if *b {
                out.push(116);
                out.push(114);
                out.push(117);
                out.push(101);
            } else {
                out.push(102);
                out.push(97);
                out.push(108);
                out.push(115);
                out.push(101);
            }
            proof {
                assert(out@ =~= old(out)@ + crate::json_spec::enc_val(json_rep(*j)));
            }
        },
        Json::Number(n) => {
            push_dec_i64(out, *n);
        },
        Json::String(st) => {
            push_enc_string(out, st.as_str());
        },
        Json::Array(items) => {
            out.push(91);
            proof {
                assert(decreases_to!(j => items));
                assert(decreases_to!(items => items@));
            }
            enc_items_into(out, items, 0);
            out.push(93);
            proof {
                lemma_json_rep_list(items@);
                assert(json_rep_list_all(items@).skip(0) =~= json_rep_list_all(items@));
                assert(out@ =~= old(out)@ + crate::json_spec::enc_val(json_rep(*j)));
            }
        },
        Json::Object(fields) => {
            out.push(123);
            proof {
                assert(decreases_to!(j => fields));
                assert(decreases_to!(fields => fields@));
            }
            enc_members_into(out, fields, 0);
            out.push(125);
            proof {
                lemma_json_rep_obj(fields@);
                assert(json_rep_obj_all(fields@).skip(0) =~= json_rep_obj_all(fields@));
                assert(out@ =~= old(out)@ + crate::json_spec::enc_val(json_rep(*j)));
            }
        },
    }
}

fn enc_items_into(out: &mut Vec<u8>, items: &Vec<Json>, k: usize)
    requires
        k <= items@.len(),
    ensures
        final(out)@ == old(out)@ + crate::json_spec::enc_items(
            crate::json_spec::spec_items_suffix(json_rep_list_all(items@), k as int),
        ),
    decreases items, items@.len() - k, 1int,
{
    broadcast use vstd::std_specs::vec::axiom_vec_index_decreases,
        vstd::std_specs::vec::axiom_vec_decreases_to_view,
        vstd::seq::axiom_seq_index_decreases;

    let ghost reps = json_rep_list_all(items@);
    if k >= items.len() {
        proof {
            assert(crate::json_spec::spec_items_suffix(reps, k as int) =~= Seq::<JsonVal>::empty());
            assert(out@ =~= old(out)@ + crate::json_spec::enc_items(
                crate::json_spec::spec_items_suffix(reps, k as int),
            ));
        }
    } else {
        proof {
            assert(decreases_to!(items => items@[k as int]));
        }
        enc_value_into(out, &items[k]);
        if k + 1 < items.len() {
            out.push(44);
        }
        enc_items_into(out, items, k + 1);
        proof {
            lemma_json_rep_list(items@);
            let suf = crate::json_spec::spec_items_suffix(reps, k as int);
            assert(suf.len() == items@.len() - k);
            assert(suf[0] == json_rep(items@[k as int]));
            assert(suf.drop_first() =~= crate::json_spec::spec_items_suffix(reps, k + 1));
            assert(out@ =~= old(out)@ + crate::json_spec::enc_items(suf));
        }
    }
}

fn enc_members_into(out: &mut Vec<u8>, fields: &Vec<JsonMember>, k: usize)
    requires
        k <= fields@.len(),
    ensures
        final(out)@ == old(out)@ + crate::json_spec::enc_members(
            crate::json_spec::spec_members_suffix(json_rep_obj_all(fields@), k as int),
        ),
    decreases fields, fields@.len() - k, 1int,
{
    broadcast use vstd::std_specs::vec::axiom_vec_index_decreases,
        vstd::std_specs::vec::axiom_vec_decreases_to_view,
        vstd::seq::axiom_seq_index_decreases;

    let ghost reps = json_rep_obj_all(fields@);
    if k >= fields.len() {
        proof {
            assert(crate::json_spec::spec_members_suffix(reps, k as int) =~= Seq::<(
                Seq<char>,
                JsonVal,
            )>::empty());
            assert(out@ =~= old(out)@ + crate::json_spec::enc_members(
                crate::json_spec::spec_members_suffix(reps, k as int),
            ));
        }
    } else {
        push_enc_string(out, fields[k].key.as_str());
        out.push(58);
        proof {
            assert(decreases_to!(fields => fields@[k as int]));
            assert(decreases_to!(fields@[k as int] => fields@[k as int].value));
        }
        enc_value_into(out, &fields[k].value);
        if k + 1 < fields.len() {
            out.push(44);
        }
        enc_members_into(out, fields, k + 1);
        proof {
            lemma_json_rep_obj(fields@);
            let suf = crate::json_spec::spec_members_suffix(reps, k as int);
            assert(suf.len() == fields@.len() - k);
            assert(suf[0] == (fields@[k as int].key@, json_rep(fields@[k as int].value)));
            assert(suf.drop_first() =~= crate::json_spec::spec_members_suffix(reps, k + 1));
            assert(out@ =~= old(out)@ + crate::json_spec::enc_members(suf));
        }
    }
}

/// The pointwise images of a list, used to state the encoder's progress.
pub open spec fn json_rep_list_all(items: Seq<Json>) -> Seq<JsonVal> {
    Seq::new(items.len(), |i: int| json_rep(items[i]))
}

pub open spec fn json_rep_obj_all(fields: Seq<JsonMember>) -> Seq<(Seq<char>, JsonVal)> {
    Seq::new(fields.len(), |i: int| (fields[i].key@, json_rep(fields[i].value)))
}

/// Canonically re-encodes a decoded value: no whitespace, ASCII output,
/// strings escaped as the decoder's spec expects.
pub fn encode_json(j: &Json) -> (r: Vec<u8>)
    ensures
        r@ == crate::json_spec::enc_val(json_rep(*j)),
{
    let mut out: Vec<u8> = Vec::new();
    enc_value_into(&mut out, j);
    proof {
        assert(Seq::<u8>::empty() + crate::json_spec::enc_val(json_rep(*j))
            =~= crate::json_spec::enc_val(json_rep(*j)));
    }
    out
}

/// Every decoded value is well formed, so the canonical round trip
/// applies to it: re-parsing its canonical encoding gives it back.
pub proof fn lemma_json_rep_wf(j: Json)
    ensures
        crate::json_spec::wf_val(json_rep(j)),
    decreases j, 0int,
{
    broadcast use vstd::std_specs::vec::axiom_vec_decreases_to_view,
        vstd::seq::axiom_seq_index_decreases;

    match j {
        Json::Array(items) => {
            assert(decreases_to!(j => items));
            assert(decreases_to!(items => items@));
            lemma_json_rep_wf_list(items@);
            lemma_json_rep_list(items@);
            assert(crate::json_spec::wf_items(json_rep_list(items@)));
        },
        Json::Object(fields) => {
            assert(decreases_to!(j => fields));
            assert(decreases_to!(fields => fields@));
            lemma_json_rep_wf_obj(fields@);
            lemma_json_rep_obj(fields@);
            assert(crate::json_spec::wf_members(json_rep_obj(fields@)));
        },
        _ => {},
    }
}

proof fn lemma_json_rep_wf_list(items: Seq<Json>)
    ensures
        crate::json_spec::wf_items(json_rep_list(items)),
    decreases items, 1int,
{
    broadcast use vstd::seq::axiom_seq_index_decreases;

    lemma_json_rep_list(items);
    if items.len() > 0 {
        assert(decreases_to!(items => items[0]));
        lemma_json_rep_wf(items[0]);
        assert(items.drop_first() =~= items.subrange(1, items.len() as int));
        assert(decreases_to!(items => items.subrange(1, items.len() as int)));
        lemma_json_rep_wf_list(items.drop_first());
        lemma_json_rep_list(items.drop_first());
        assert(json_rep_list(items).drop_first() =~= json_rep_list(items.drop_first()));
        assert(json_rep_list(items)[0] == json_rep(items[0]));
    }
}

proof fn lemma_json_rep_wf_obj(fields: Seq<JsonMember>)
    ensures
        crate::json_spec::wf_members(json_rep_obj(fields)),
    decreases fields, 1int,
{
    broadcast use vstd::seq::axiom_seq_index_decreases;

    lemma_json_rep_obj(fields);
    if fields.len() > 0 {
        assert(decreases_to!(fields => fields[0]));
        assert(decreases_to!(fields[0] => fields[0].value));
        lemma_json_rep_wf(fields[0].value);
        assert(fields.drop_first() =~= fields.subrange(1, fields.len() as int));
        assert(decreases_to!(fields => fields.subrange(1, fields.len() as int)));
        lemma_json_rep_wf_obj(fields.drop_first());
        lemma_json_rep_obj(fields.drop_first());
        assert(json_rep_obj(fields).drop_first() =~= json_rep_obj(fields.drop_first()));
        assert(json_rep_obj(fields)[0] == (fields[0].key@, json_rep(fields[0].value)));
    }
}

/// Decode-then-reencode is lossless: for any decoded value, parsing its
/// canonical encoding succeeds and yields exactly that value's model.
pub proof fn lemma_decode_reencode_lossless(j: Json)
    ensures
        json_doc(crate::json_spec::enc_val(json_rep(j))) == (Step::Done {
            v: json_rep(j),
            next: crate::json_spec::enc_val(json_rep(j)).len() as int,
        }),
{
    lemma_json_rep_wf(j);
    crate::json_spec::lemma_canonical_round_trip(json_rep(j));
}

} // verus!
