//! Parsing: text to a `CJson` tree, with exact acceptance, offsets and
//! error positions.

use vstd::prelude::*;
use crate::model::{views, lemma_view_child, CJson, JsonNode, GlobalError, new_item, empty_node, node_of_type, CJSON_NULL, CJSON_FALSE, CJSON_TRUE, CJSON_NUMBER, CJSON_STRING, CJSON_ARRAY, CJSON_OBJECT};
use crate::text::{cstr, c_string};
use crate::number::{sat_int, double_to_int};

verus! {

// ---------------------------------------------------------------------------
// The grammar, as spec functions over the text `s` (the first `length` bytes
// of the buffer) and offsets into it.
// ---------------------------------------------------------------------------

/// The end of the run of bytes <= 32 (space and control bytes) from `i`.
pub open spec fn ws_end(s: Seq<u8>, i: int) -> int
    decreases s.len() - i,
{
    if 0 <= i < s.len() && s[i] <= 32 {
        ws_end(s, i + 1)
    } else {
        i
    }
}

/// Where `buffer_skip_whitespace` leaves the offset: past the whitespace, but
/// on the last byte when the whitespace runs to the end of the text.
pub open spec fn skip_ws(s: Seq<u8>, off: int) -> int {
    if off >= s.len() {
        off
    } else {
        let j = ws_end(s, off);
        if j == s.len() {
            j - 1
        } else {
            j
        }
    }
}

/// The offset after an optional UTF-8 byte order mark at the start (checked
/// only when the text has more than four bytes).
pub open spec fn bom_end(s: Seq<u8>) -> int {
    if 4 < s.len() && s[0] == 0xEF && s[1] == 0xBB && s[2] == 0xBF {
        3
    } else {
        0
    }
}

pub open spec fn lit_null() -> Seq<u8> {
    seq![110u8, 117u8, 108u8, 108u8]
}

pub open spec fn lit_false() -> Seq<u8> {
    seq![102u8, 97u8, 108u8, 115u8, 101u8]
}

pub open spec fn lit_true() -> Seq<u8> {
    seq![116u8, 114u8, 117u8, 101u8]
}

/// Whether `lit` occurs in `s` at `off`.
pub open spec fn matches_at(s: Seq<u8>, off: int, lit: Seq<u8>) -> bool {
    0 <= off && off + lit.len() <= s.len() && s.subrange(off, off + lit.len()) == lit
}

pub open spec fn is_digit(c: u8) -> bool {
    48 <= c <= 57
}

/// The bytes that may belong to a number: digits, signs, `.`, `e` and `E`.
pub open spec fn is_num_char(c: u8) -> bool {
    is_digit(c) || c == 43 || c == 45 || c == 46 || c == 101 || c == 69
}

/// The length of the run of number bytes at `off`.
pub open spec fn num_span(s: Seq<u8>, off: int) -> int
    decreases s.len() - off,
{
    if 0 <= off < s.len() && is_num_char(s[off]) {
        1 + num_span(s, off + 1)
    } else {
        0
    }
}

/// The number of digits at `i` in `t`.
pub open spec fn digits_at(t: Seq<u8>, i: int) -> int
    decreases t.len() - i,
{
    if 0 <= i < t.len() && is_digit(t[i]) {
        1 + digits_at(t, i + 1)
    } else {
        0
    }
}

pub open spec fn is_sign(c: u8) -> bool {
    c == 43 || c == 45
}

pub open spec fn is_exp_mark(c: u8) -> bool {
    c == 101 || c == 69
}

/// How many bytes of `t` a C `strtod` converts when `t` holds only number
/// bytes: an optional sign, digits with at most one `.` and at least one
/// digit, then an exponent if it has digits. 0 when nothing converts.
pub open spec fn strtod_len(t: Seq<u8>) -> int {
    let i0: int = if t.len() > 0 && is_sign(t[0]) { 1 } else { 0 };
    let n_int = digits_at(t, i0);
    let i1 = i0 + n_int;
    let has_dot = i1 < t.len() && t[i1] == 46;
    let n_frac = if has_dot { digits_at(t, i1 + 1) } else { 0 };
    let i2 = if has_dot { i1 + 1 + n_frac } else { i1 };
    if n_int + n_frac == 0 {
        0
    } else if i2 < t.len() && is_exp_mark(t[i2]) {
        let j = if i2 + 1 < t.len() && is_sign(t[i2 + 1]) { i2 + 2 } else { i2 + 1 };
        let k = digits_at(t, j);
        if k > 0 {
            j + k
        } else {
            i2
        }
    } else {
        i2
    }
}

/// The value of one hex digit, or -1.
pub open spec fn hex_val(c: u8) -> int {
    if 48 <= c <= 57 {
        c - 48
    } else if 65 <= c <= 70 {
        c - 55
    } else if 97 <= c <= 102 {
        c - 87
    } else {
        -1
    }
}

/// The four hex digits at `p` as a number; 0 if any of them is not a hex
/// digit.
pub open spec fn hex4(s: Seq<u8>, p: int) -> int {
    if hex_val(s[p]) >= 0 && hex_val(s[p + 1]) >= 0 && hex_val(s[p + 2]) >= 0 && hex_val(
        s[p + 3],
    ) >= 0 {
        hex_val(s[p]) * 4096 + hex_val(s[p + 1]) * 256 + hex_val(s[p + 2]) * 16 + hex_val(s[p + 3])
    } else {
        0
    }
}

/// The UTF-8 encoding of a code point below 0x110000.
pub open spec fn utf8_encode(cp: int) -> Seq<u8> {
    if cp < 0x80 {
        seq![cp as u8]
    } else if cp < 0x800 {
        seq![(0xC0 + cp / 64) as u8, (0x80 + cp % 64) as u8]
    } else if cp < 0x10000 {
        seq![(0xE0 + cp / 4096) as u8, (0x80 + (cp / 64) % 64) as u8, (0x80 + cp % 64) as u8]
    } else {
        seq![
            (0xF0 + cp / 262144) as u8,
            (0x80 + (cp / 4096) % 64) as u8,
            (0x80 + (cp / 64) % 64) as u8,
            (0x80 + cp % 64) as u8,
        ]
    }
}

/// A `\u` escape at `p` (before the string's closing quote at `end`): the
/// number of bytes it takes (6, or 12 for a surrogate pair) and the UTF-8
/// bytes it stands for; `None` when it is malformed.
pub open spec fn utf16_literal(s: Seq<u8>, p: int, end: int) -> Option<(int, Seq<u8>)> {
    if end - p < 6 {
        None
    } else {
        let first = hex4(s, p + 2);
        if 0xDC00 <= first <= 0xDFFF {
            None
        } else if 0xD800 <= first <= 0xDBFF {
            let q = p + 6;
            if end - q < 6 {
                None
            } else if s[q] != 92 || s[q + 1] != 117 {
                None
            } else {
                let second = hex4(s, q + 2);
                if !(0xDC00 <= second <= 0xDFFF) {
                    None
                } else {
                    Some(
                        (
                            12,
                            utf8_encode(0x10000 + (first - 0xD800) * 1024 + (second - 0xDC00)),
                        ),
                    )
                }
            }
        } else {
            Some((6, utf8_encode(first)))
        }
    }
}

/// The byte that a one-character escape stands for, if `c` names one.
pub open spec fn simple_escape(c: u8) -> Option<u8> {
    if c == 98 {
        Some(8u8)
    } else if c == 102 {
        Some(12u8)
    } else if c == 110 {
        Some(10u8)
    } else if c == 114 {
        Some(13u8)
    } else if c == 116 {
        Some(9u8)
    } else if c == 34 || c == 92 || c == 47 {
        Some(c)
    } else {
        None
    }
}

/// The string contents between `p` and the closing quote at `end`, with the
/// escapes decoded; on a bad escape, the offset of its backslash.
#[verifier::opaque]
pub open spec fn unescape(s: Seq<u8>, p: int, end: int) -> Result<Seq<u8>, int>
    decreases end + 2 - p,
{
    if p >= end {
        Ok(Seq::empty())
    } else if s[p] != 92 {
        match unescape(s, p + 1, end) {
            Ok(t) => Ok(seq![s[p]] + t),
            Err(a) => Err(a),
        }
    } else if s[p + 1] == 117 {
        match utf16_literal(s, p, end) {
            None => Err(p),
            Some((n, bytes)) => if n > 0 {
                match unescape(s, p + n, end) {
                    Ok(t) => Ok(bytes + t),
                    Err(a) => Err(a),
                }
            } else {
                Err(p)
            },
        }
    } else {
        match simple_escape(s[p + 1]) {
            None => Err(p),
            Some(b) => match unescape(s, p + 2, end) {
                Ok(t) => Ok(seq![b] + t),
                Err(a) => Err(a),
            },
        }
    }
}

/// The position of the quote that closes a string whose contents start at
/// `i`, where a backslash hides the byte after it.
pub open spec fn string_end(s: Seq<u8>, i: int) -> Option<int>
    decreases s.len() - i,
{
    if i < 0 || i >= s.len() {
        None
    } else if s[i] == 34 {
        Some(i)
    } else if s[i] == 92 {
        if i + 1 >= s.len() {
            None
        } else {
            string_end(s, i + 2)
        }
    } else {
        string_end(s, i + 1)
    }
}

/// The outcome of parsing a string: the offset after it and its text (up to
/// its first NUL), or the offset where parsing stopped.
pub enum PStr {
    Done(int, Seq<u8>),
    Fail(int),
}

pub open spec fn spec_parse_string(s: Seq<u8>, off: int) -> PStr {
    if !(0 <= off < s.len()) || s[off] != 34 {
        PStr::Fail(off + 1)
    } else {
        match string_end(s, off + 1) {
            None => PStr::Fail(off + 1),
            Some(end) => match unescape(s, off + 1, end) {
                Err(a) => PStr::Fail(a),
                Ok(t) => PStr::Done(end + 1, cstr(t)),
            },
        }
    }
}

/// The outcome of parsing a value: the offset after it and the node, or the
/// offset where parsing stopped.
pub enum PValue {
    Done(int, JsonNode),
    Fail(int),
}

/// The outcome of parsing the members of an array or object.
pub enum PList {
    Done(int, Seq<JsonNode>),
    Fail(int),
}

pub open spec fn string_node(t: Seq<u8>) -> JsonNode {
    JsonNode { type_: CJSON_STRING, valuestring: Some(t), ..empty_node() }
}

pub open spec fn number_node(bits: u64) -> JsonNode {
    JsonNode { type_: CJSON_NUMBER, valuedouble: bits, valueint: sat_int(bits), ..empty_node() }
}

pub open spec fn true_node() -> JsonNode {
    JsonNode { type_: CJSON_TRUE, valueint: 1, ..empty_node() }
}

pub open spec fn container_node(t: i32, children: Seq<JsonNode>) -> JsonNode {
    JsonNode { type_: t, child: children, ..empty_node() }
}

/// A number at `off`: the longest run of number bytes, of which the prefix
/// that `strtod` converts is the number's text, decoded by `dec`.
pub open spec fn spec_parse_number(s: Seq<u8>, off: int, dec: spec_fn(Seq<u8>) -> u64) -> PValue {
    let n = num_span(s, off);
    let l = strtod_len(s.subrange(off, off + n));
    if l == 0 {
        PValue::Fail(off)
    } else {
        PValue::Done(off + l, number_node(dec(s.subrange(off, off + l))))
    }
}

pub open spec fn spec_parse_value(s: Seq<u8>, off: int, depth: int, dec: spec_fn(Seq<u8>) -> u64) -> PValue
    decreases 1001 - depth, s.len() + 3 - off, 2int,
{
    if !(0 <= off <= s.len()) {
        PValue::Fail(off)
    } else if matches_at(s, off, lit_null()) {
        PValue::Done(off + 4, node_of_type(CJSON_NULL))
    } else if matches_at(s, off, lit_false()) {
        PValue::Done(off + 5, node_of_type(CJSON_FALSE))
    } else if matches_at(s, off, lit_true()) {
        PValue::Done(off + 4, true_node())
    } else if off < s.len() && s[off] == 34 {
        match spec_parse_string(s, off) {
            PStr::Done(e, t) => PValue::Done(e, string_node(t)),
            PStr::Fail(a) => PValue::Fail(a),
        }
    } else if off < s.len() && (s[off] == 45 || is_digit(s[off])) {
        spec_parse_number(s, off, dec)
    } else if off < s.len() && s[off] == 91 {
        spec_parse_array(s, off, depth, dec)
    } else if off < s.len() && s[off] == 123 {
        spec_parse_object(s, off, depth, dec)
    } else {
        PValue::Fail(off)
    }
}

pub open spec fn spec_parse_array(s: Seq<u8>, off: int, depth: int, dec: spec_fn(Seq<u8>) -> u64) -> PValue
    decreases 1001 - depth, s.len() + 3 - off, 1int,
{
    if depth >= 1000 || depth < 0 || !(0 <= off < s.len()) || s[off] != 91 {
        PValue::Fail(off)
    } else {
        let o = skip_ws(s, off + 1);
        if o < s.len() && s[o] == 93 {
            PValue::Done(o + 1, container_node(CJSON_ARRAY, Seq::empty()))
        } else if !(o < s.len()) {
            PValue::Fail(o - 1)
        } else {
            match spec_parse_items(s, o - 1, depth + 1, dec) {
                PList::Done(e, ns) => PValue::Done(e, container_node(CJSON_ARRAY, ns)),
                PList::Fail(a) => PValue::Fail(a),
            }
        }
    }
}

/// The elements of an array, where `c` is the offset of the `[` or `,` before
/// the next element.
pub open spec fn spec_parse_items(s: Seq<u8>, c: int, depth: int, dec: spec_fn(Seq<u8>) -> u64) -> PList
    decreases 1001 - depth, s.len() + 3 - c, 3int,
{
    if !(0 <= c < s.len()) || depth > 1000 {
        PList::Fail(c)
    } else {
        let k = skip_ws(s, c + 1);
        proof {
            lemma_skip_ws_bounds(s, c + 1);
        }
        match spec_parse_value(s, k, depth, dec) {
            PValue::Fail(a) => PList::Fail(a),
            PValue::Done(o2, v) => {
                let o3 = skip_ws(s, o2);
                if o3 < s.len() && s[o3] == 44 {
                    if o3 > c {
                        match spec_parse_items(s, o3, depth, dec) {
                            PList::Done(e, ns) => PList::Done(e, seq![v] + ns),
                            PList::Fail(a) => PList::Fail(a),
                        }
                    } else {
                        PList::Fail(o3)
                    }
                } else if !(o3 < s.len()) || s[o3] != 93 {
                    PList::Fail(o3)
                } else {
                    PList::Done(o3 + 1, seq![v])
                }
            },
        }
    }
}

pub open spec fn spec_parse_object(s: Seq<u8>, off: int, depth: int, dec: spec_fn(Seq<u8>) -> u64) -> PValue
    decreases 1001 - depth, s.len() + 3 - off, 1int,
{
    if depth >= 1000 || depth < 0 {
        PValue::Fail(off)
    } else if !(0 <= off < s.len()) || s[off] != 123 {
        PValue::Fail(off)
    } else {
        let o = skip_ws(s, off + 1);
        if o < s.len() && s[o] == 125 {
            PValue::Done(o + 1, container_node(CJSON_OBJECT, Seq::empty()))
        } else if !(o < s.len()) {
            PValue::Fail(o - 1)
        } else {
            match spec_parse_members(s, o - 1, depth + 1, dec) {
                PList::Done(e, ns) => PValue::Done(e, container_node(CJSON_OBJECT, ns)),
                PList::Fail(a) => PValue::Fail(a),
            }
        }
    }
}

/// An object member: its value with its key attached.
pub open spec fn member_node(key: Seq<u8>, v: JsonNode) -> JsonNode {
    JsonNode { string: Some(key), ..v }
}

/// The members of an object, where `c` is the offset of the `{` or `,`
/// before the next member.
pub open spec fn spec_parse_members(s: Seq<u8>, c: int, depth: int, dec: spec_fn(Seq<u8>) -> u64) -> PList
    decreases 1001 - depth, s.len() + 3 - c, 3int,
{
    if !(0 <= c && c + 1 < s.len()) || depth > 1000 {
        PList::Fail(c)
    } else {
        let k = skip_ws(s, c + 1);
        proof {
            lemma_skip_ws_bounds(s, c + 1);
        }
        match spec_parse_string(s, k) {
            PStr::Fail(a) => PList::Fail(a),
            PStr::Done(k2, key) => {
                let k3 = skip_ws(s, k2);
                if !(0 <= k3 < s.len()) || s[k3] != 58 {
                    PList::Fail(k3)
                } else {
                    let v0 = skip_ws(s, k3 + 1);
                    proof {
                        lemma_skip_ws_bounds(s, k3 + 1);
                    }
                    if v0 <= c {
                        PList::Fail(v0)
                    } else {
                        match spec_parse_value(s, v0, depth, dec) {
                            PValue::Fail(a) => PList::Fail(a),
                            PValue::Done(v2, v) => {
                                let v3 = skip_ws(s, v2);
                                if v3 < s.len() && s[v3] == 44 {
                                    if v3 > c {
                                        match spec_parse_members(s, v3, depth, dec) {
                                            PList::Done(e, ns) => PList::Done(
                                                e,
                                                seq![member_node(key, v)] + ns,
                                            ),
                                            PList::Fail(a) => PList::Fail(a),
                                        }
                                    } else {
                                        PList::Fail(v3)
                                    }
                                } else if !(v3 < s.len()) || s[v3] != 125 {
                                    PList::Fail(v3)
                                } else {
                                    PList::Done(v3 + 1, seq![member_node(key, v)])
                                }
                            },
                        }
                    }
                }
            },
        }
    }
}

/// Where an error is reported: the failing offset, moved back onto the last
/// byte when it lies past the end.
pub open spec fn error_position(s: Seq<u8>, a: int) -> int {
    if a < s.len() {
        a
    } else if s.len() > 0 {
        s.len() - 1
    } else {
        0
    }
}

/// A whole document: the root node and the offset where parsing ended, or
/// the error position. With `require_null_terminated`, only whitespace and a
/// NUL byte may follow the value.
pub open spec fn spec_parse_document(
    s: Seq<u8>,
    require_null_terminated: bool,
    dec: spec_fn(Seq<u8>) -> u64,
) -> Result<(JsonNode, int), int> {
    if s.len() == 0 {
        Err(0)
    } else {
        let o = skip_ws(s, bom_end(s));
        match spec_parse_value(s, o, 0, dec) {
            PValue::Fail(a) => Err(error_position(s, a)),
            PValue::Done(o2, v) => if require_null_terminated {
                let o3 = skip_ws(s, o2);
                if o3 >= s.len() || s[o3] != 0 {
                    Err(error_position(s, o3))
                } else {
                    Ok((v, o3))
                }
            } else {
                Ok((v, o2))
            },
        }
    }
}

pub proof fn lemma_ws_end_bounds(s: Seq<u8>, i: int)
    requires
        0 <= i <= s.len(),
    ensures
        i <= ws_end(s, i) <= s.len(),
        forall|j: int| i <= j < ws_end(s, i) ==> s[j] <= 32,
        ws_end(s, i) < s.len() ==> s[ws_end(s, i)] > 32,
    decreases s.len() - i,
{
    if i < s.len() && s[i] <= 32 {
        lemma_ws_end_bounds(s, i + 1);
    }
}

pub proof fn lemma_skip_ws_bounds(s: Seq<u8>, off: int)
    ensures
        off >= 0 ==> skip_ws(s, off) >= off,
        0 <= off < s.len() ==> skip_ws(s, off) < s.len(),
        off >= s.len() ==> skip_ws(s, off) == off,
{
    if 0 <= off < s.len() {
        lemma_ws_end_bounds(s, off);
    }
}


pub proof fn lemma_unescape_end(s: Seq<u8>, p: int, end: int)
    requires
        p >= end,
    ensures
        unescape(s, p, end) == Ok::<Seq<u8>, int>(Seq::empty()),
{
    reveal(unescape);
}

pub proof fn lemma_unescape_plain(s: Seq<u8>, p: int, end: int, pre: Seq<u8>)
    requires
        p < end,
        s[p] != 92,
    ensures
        cat_str(pre, unescape(s, p, end)) == cat_str(pre.push(s[p]), unescape(s, p + 1, end)),
{
    reveal(unescape);
    match unescape(s, p + 1, end) {
        Ok(t) => {
            assert(pre + (seq![s[p]] + t) =~= pre.push(s[p]) + t);
        },
        Err(_) => {},
    }
}

pub proof fn lemma_unescape_u(s: Seq<u8>, p: int, end: int, pre: Seq<u8>, n: int, b: Seq<u8>)
    requires
        p < end,
        s[p] == 92,
        s[p + 1] == 117,
        utf16_literal(s, p, end) == Some((n, b)),
    ensures
        n > 0,
        cat_str(pre, unescape(s, p, end)) == cat_str(pre + b, unescape(s, p + n, end)),
{
    reveal(unescape);
    match unescape(s, p + n, end) {
        Ok(t) => {
            assert(pre + (b + t) =~= (pre + b) + t);
        },
        Err(_) => {},
    }
}

pub proof fn lemma_unescape_u_fail(s: Seq<u8>, p: int, end: int)
    requires
        p < end,
        s[p] == 92,
        s[p + 1] == 117,
        utf16_literal(s, p, end) is None,
    ensures
        unescape(s, p, end) == Err::<Seq<u8>, int>(p),
{
    reveal(unescape);
}

pub proof fn lemma_unescape_simple(s: Seq<u8>, p: int, end: int, pre: Seq<u8>)
    requires
        p < end,
        s[p] == 92,
        s[p + 1] != 117,
    ensures
        simple_escape(s[p + 1]) matches Some(b) ==> cat_str(pre, unescape(s, p, end)) == cat_str(
            pre.push(b),
            unescape(s, p + 2, end),
        ),
        simple_escape(s[p + 1]) is None ==> unescape(s, p, end) == Err::<Seq<u8>, int>(p),
{
    reveal(unescape);
    if let Some(b) = simple_escape(s[p + 1]) {
        match unescape(s, p + 2, end) {
            Ok(t) => {
                assert(pre + (seq![b] + t) =~= pre.push(b) + t);
            },
            Err(_) => {},
        }
    }
}

pub proof fn lemma_digits_at_bounds(t: Seq<u8>, i: int)
    ensures
        0 <= digits_at(t, i),
        0 <= i ==> i + digits_at(t, i) <= t.len() || digits_at(t, i) == 0,
        forall|j: int| i <= j < i + digits_at(t, i) ==> is_digit(t[j]),
    decreases t.len() - i,
{
    if 0 <= i < t.len() && is_digit(t[i]) {
        lemma_digits_at_bounds(t, i + 1);
    }
}

pub proof fn lemma_strtod_len_bounds(t: Seq<u8>)
    ensures
        0 <= strtod_len(t) <= t.len(),
{
    let i0: int = if t.len() > 0 && is_sign(t[0]) { 1 } else { 0 };
    lemma_digits_at_bounds(t, i0);
    let i1 = i0 + digits_at(t, i0);
    lemma_digits_at_bounds(t, i1 + 1);
    let has_dot = i1 < t.len() && t[i1] == 46;
    let n_frac = if has_dot { digits_at(t, i1 + 1) } else { 0 };
    let i2 = if has_dot { i1 + 1 + n_frac } else { i1 };
    let j = if i2 + 1 < t.len() && is_sign(t[i2 + 1]) { i2 + 2 } else { i2 + 1 };
    lemma_digits_at_bounds(t, j);
}

pub proof fn lemma_number_progress(s: Seq<u8>, off: int, dec: spec_fn(Seq<u8>) -> u64)
    ensures
        spec_parse_number(s, off, dec) matches PValue::Done(e, _) ==> off < e,
{
    let n = num_span(s, off);
    lemma_strtod_len_bounds(s.subrange(off, off + n));
}

pub proof fn lemma_string_end_bounds(s: Seq<u8>, i: int)
    ensures
        string_end(s, i) matches Some(e) ==> i <= e < s.len() && s[e] == 34,
    decreases s.len() - i,
{
    if 0 <= i < s.len() && s[i] != 34 {
        if s[i] == 92 {
            if i + 1 < s.len() {
                lemma_string_end_bounds(s, i + 2);
            }
        } else {
            lemma_string_end_bounds(s, i + 1);
        }
    }
}

pub proof fn lemma_string_progress(s: Seq<u8>, off: int)
    ensures
        spec_parse_string(s, off) matches PStr::Done(e, _) ==> off < e <= s.len(),
{
    lemma_string_end_bounds(s, off + 1);
}

/// A successful parse always moves forward.
pub proof fn lemma_value_progress(s: Seq<u8>, off: int, depth: int, dec: spec_fn(Seq<u8>) -> u64)
    ensures
        spec_parse_value(s, off, depth, dec) matches PValue::Done(e, _) ==> off < e,
    decreases 1001 - depth, s.len() + 3 - off, 2int,
{
    if 0 <= off <= s.len() {
        lemma_string_progress(s, off);
        lemma_number_progress(s, off, dec);
        if off < s.len() && s[off] == 91 {
            lemma_array_progress(s, off, depth, dec);
        } else if off < s.len() && s[off] == 123 {
            lemma_object_progress(s, off, depth, dec);
        }
    }
}

pub proof fn lemma_array_progress(s: Seq<u8>, off: int, depth: int, dec: spec_fn(Seq<u8>) -> u64)
    ensures
        spec_parse_array(s, off, depth, dec) matches PValue::Done(e, _) ==> off < e,
    decreases 1001 - depth, s.len() + 3 - off, 1int,
{
    if !(depth >= 1000 || depth < 0 || !(0 <= off < s.len())) {
        let o = skip_ws(s, off + 1);
        lemma_skip_ws_bounds(s, off + 1);
        if !(o < s.len() && s[o] == 93) && o < s.len() {
            lemma_items_progress(s, o - 1, depth + 1, dec);
        }
    }
}

pub proof fn lemma_object_progress(s: Seq<u8>, off: int, depth: int, dec: spec_fn(Seq<u8>) -> u64)
    ensures
        spec_parse_object(s, off, depth, dec) matches PValue::Done(e, _) ==> off < e,
    decreases 1001 - depth, s.len() + 3 - off, 1int,
{
    if !(depth >= 1000 || depth < 0) && 0 <= off < s.len() && s[off] == 123 {
        let o = skip_ws(s, off + 1);
        lemma_skip_ws_bounds(s, off + 1);
        if !(o < s.len() && s[o] == 125) && o < s.len() {
            lemma_members_progress(s, o - 1, depth + 1, dec);
        }
    }
}

pub proof fn lemma_items_progress(s: Seq<u8>, c: int, depth: int, dec: spec_fn(Seq<u8>) -> u64)
    ensures
        spec_parse_items(s, c, depth, dec) matches PList::Done(e, _) ==> c < e,
    decreases 1001 - depth, s.len() + 3 - c, 3int,
{
    if 0 <= c < s.len() && depth <= 1000 {
        let k = skip_ws(s, c + 1);
        lemma_skip_ws_bounds(s, c + 1);
        lemma_value_progress(s, k, depth, dec);
        if let PValue::Done(o2, v) = spec_parse_value(s, k, depth, dec) {
            let o3 = skip_ws(s, o2);
            lemma_skip_ws_bounds(s, o2);
            if o3 < s.len() && s[o3] == 44 && o3 > c {
                lemma_items_progress(s, o3, depth, dec);
            }
        }
    }
}

pub proof fn lemma_members_progress(s: Seq<u8>, c: int, depth: int, dec: spec_fn(Seq<u8>) -> u64)
    ensures
        spec_parse_members(s, c, depth, dec) matches PList::Done(e, _) ==> c < e,
    decreases 1001 - depth, s.len() + 3 - c, 3int,
{
    if 0 <= c && c + 1 < s.len() && depth <= 1000 {
        let k = skip_ws(s, c + 1);
        lemma_skip_ws_bounds(s, c + 1);
        lemma_string_progress(s, k);
        if let PStr::Done(k2, key) = spec_parse_string(s, k) {
            let k3 = skip_ws(s, k2);
            lemma_skip_ws_bounds(s, k2);
            if 0 <= k3 < s.len() && s[k3] == 58 {
                let v0 = skip_ws(s, k3 + 1);
                lemma_skip_ws_bounds(s, k3 + 1);
                if v0 > c {
                    lemma_value_progress(s, v0, depth, dec);
                    if let PValue::Done(v2, v) = spec_parse_value(s, v0, depth, dec) {
                        let v3 = skip_ws(s, v2);
                        lemma_skip_ws_bounds(s, v2);
                        if v3 < s.len() && s[v3] == 44 && v3 > c {
                            lemma_members_progress(s, v3, depth, dec);
                        }
                    }
                }
            }
        }
    }
}

// ---------------------------------------------------------------------------
// Decoding number text: the caller supplies the decimal-to-double function.
// ---------------------------------------------------------------------------

/// `d` turns the text `s` into the double `r`.
pub open spec fn decodes_to<D: Fn(&[u8]) -> u64>(d: D, s: Seq<u8>, r: u64) -> bool {
    exists|x: &[u8]| #[trigger] call_ensures(d, (x,), r) && x@ == s
}

/// `d` may be called on any text and gives one result for each text.
pub open spec fn decoder_ok<D: Fn(&[u8]) -> u64>(d: D) -> bool {
    &&& forall|x: &[u8]| #[trigger] call_requires(d, (x,))
    &&& forall|x: &[u8], y: &[u8], r1: u64, r2: u64|
        #[trigger] call_ensures(d, (x,), r1) && #[trigger] call_ensures(d, (y,), r2) && x@ == y@
            ==> r1 == r2
}

/// The function on texts that `d` computes.
pub open spec fn decoder_fn<D: Fn(&[u8]) -> u64>(d: D) -> spec_fn(Seq<u8>) -> u64 {
    |s: Seq<u8>| choose|r: u64| decodes_to(d, s, r)
}

pub proof fn lemma_decoded<D: Fn(&[u8]) -> u64>(d: D, x: &[u8], r: u64)
    requires
        decoder_ok(d),
        call_ensures(d, (x,), r),
    ensures
        decoder_fn(d)(x@) == r,
{
    assert(decodes_to(d, x@, r));
    let r2 = choose|r2: u64| decodes_to(d, x@, r2);
    assert(decodes_to(d, x@, r2));
    let y = choose|y: &[u8]| #[trigger] call_ensures(d, (y,), r2) && y@ == x@;
    assert(call_ensures(d, (y,), r2));
}

// ---------------------------------------------------------------------------
// The parser.
// ---------------------------------------------------------------------------

/// The text being parsed and the parser's position in it.
pub struct ParseBuffer<'a> {
    pub content: &'a [u8],
    pub length: usize,
    pub offset: usize,
    pub depth: usize,
}

impl<'a> ParseBuffer<'a> {
    /// The text: the first `length` bytes of `content`.
    pub open spec fn text(&self) -> Seq<u8> {
        self.content@.take(self.length as int)
    }

    pub open spec fn wf(&self) -> bool {
        self.length <= self.content@.len()
    }

    pub open spec fn same_text(&self, other: &ParseBuffer) -> bool {
        self.content == other.content && self.length == other.length
    }
}

/// Whether the byte `index` places past the offset lies inside the text.
pub fn can_access_at_index(buffer: &ParseBuffer, index: usize) -> (r: bool)
    ensures
        r == (buffer.offset + index < buffer.length),
{
    buffer.offset < buffer.length && index < buffer.length - buffer.offset
}

/// Moves the offset past whitespace (see `skip_ws`).
pub fn buffer_skip_whitespace(buffer: &mut ParseBuffer)
    requires
        old(buffer).wf(),
    ensures
        final(buffer).same_text(old(buffer)),
        final(buffer).depth == old(buffer).depth,
        final(buffer).offset == skip_ws(old(buffer).text(), old(buffer).offset as int),
{
    let ghost s = buffer.text();
    if !can_access_at_index(buffer, 0) {
        return;
    }
    let ghost start = buffer.offset as int;
    while buffer.offset < buffer.length && buffer.content[buffer.offset] <= 32
        invariant
            buffer.wf(),
            buffer.same_text(old(buffer)),
            buffer.depth == old(buffer).depth,
            s == buffer.text(),
            start <= buffer.offset <= buffer.length,
            ws_end(s, start) == ws_end(s, buffer.offset as int),
        decreases buffer.length - buffer.offset,
    {
        buffer.offset += 1;
    }
    if buffer.offset == buffer.length {
        buffer.offset -= 1;
    }
}

/// Skips a UTF-8 byte order mark at the start of the text. Refuses, and
/// leaves the buffer as it is, when reading has already moved past the
/// start.
pub fn skip_utf8_bom(buffer: &mut ParseBuffer) -> (r: bool)
    requires
        old(buffer).wf(),
    ensures
        r == (old(buffer).offset == 0),
        final(buffer).same_text(old(buffer)),
        final(buffer).depth == old(buffer).depth,
        final(buffer).offset == (if r { bom_end(old(buffer).text()) } else { old(buffer).offset as int }),
{
    if buffer.offset != 0 {
        return false;
    }
    if can_access_at_index(buffer, 4) && buffer.content[0] == 0xEF && buffer.content[1] == 0xBB
        && buffer.content[2] == 0xBF {
        buffer.offset = 3;
    }
    true
}

fn hex_digit(c: u8) -> (r: i32)
    ensures
        r == hex_val(c),
{
    if 48 <= c && c <= 57 {
        (c - 48) as i32
    } else if 65 <= c && c <= 70 {
        (c - 55) as i32
    } else if 97 <= c && c <= 102 {
        (c - 87) as i32
    } else {
        -1
    }
}

/// The four hex digits at `p` as a number, 0 if one is not a hex digit.
pub fn parse_hex4(s: &[u8], len: usize, p: usize) -> (r: u32)
    requires
        len <= s@.len(),
        p + 4 <= len,
    ensures
        r as int == hex4(s@.take(len as int), p as int),
{
    let d0 = hex_digit(s[p]);
    let d1 = hex_digit(s[p + 1]);
    let d2 = hex_digit(s[p + 2]);
    let d3 = hex_digit(s[p + 3]);
    if d0 < 0 || d1 < 0 || d2 < 0 || d3 < 0 {
        return 0;
    }
    (d0 * 4096 + d1 * 256 + d2 * 16 + d3) as u32
}

/// Appends the UTF-8 encoding of `cp`.
pub fn encode_utf8(cp: u32, out: &mut Vec<u8>)
    requires
        cp < 0x110000,
    ensures
        final(out)@ == old(out)@ + utf8_encode(cp as int),
{
    if cp < 0x80 {
        out.push(cp as u8);
    } else if cp < 0x800 {
        out.push((0xC0 + cp / 64) as u8);
        out.push((0x80 + cp % 64) as u8);
    } else if cp < 0x10000 {
        out.push((0xE0 + cp / 4096) as u8);
        out.push((0x80 + (cp / 64) % 64) as u8);
        out.push((0x80 + cp % 64) as u8);
    } else {
        out.push((0xF0 + cp / 262144) as u8);
        out.push((0x80 + (cp / 4096) % 64) as u8);
        out.push((0x80 + (cp / 64) % 64) as u8);
        out.push((0x80 + cp % 64) as u8);
    }
    assert(final(out)@ =~= old(out)@ + utf8_encode(cp as int));
}

/// Decodes the `\u` escape at `p` (the string closes at `end`) onto `out`;
/// returns the number of bytes it took, 0 when it is malformed.
pub fn utf16_literal_to_utf8(s: &[u8], len: usize, p: usize, end: usize, out: &mut Vec<u8>) -> (r: usize)
    requires
        len <= s@.len(),
        p < end < len,
    ensures
        match utf16_literal(s@.take(len as int), p as int, end as int) {
            None => r == 0 && final(out)@ == old(out)@,
            Some((n, b)) => r == n && final(out)@ == old(out)@ + b,
        },
{
    if end - p < 6 {
        return 0;
    }
    let first = parse_hex4(s, len, p + 2);
    if 0xDC00 <= first && first <= 0xDFFF {
        return 0;
    }
    let cp: u32;
    let n: usize;
    if 0xD800 <= first && first <= 0xDBFF {
        let q = p + 6;
        if end - q < 6 {
            return 0;
        }
        if s[q] != 92 || s[q + 1] != 117 {
            return 0;
        }
        let second = parse_hex4(s, len, q + 2);
        if !(0xDC00 <= second && second <= 0xDFFF) {
            return 0;
        }
        cp = 0x10000 + (first - 0xD800) * 1024 + (second - 0xDC00);
        n = 12;
    } else {
        cp = first;
        n = 6;
    }
    encode_utf8(cp, out);
    n
}

pub open spec fn cat_str(pre: Seq<u8>, r: Result<Seq<u8>, int>) -> Result<Seq<u8>, int> {
    match r {
        Ok(t) => Ok(pre + t),
        Err(a) => Err(a),
    }
}

/// Parses a string at the offset.
pub fn parse_string(buffer: &mut ParseBuffer) -> (r: Option<Vec<u8>>)
    requires
        old(buffer).wf(),
        old(buffer).offset < old(buffer).length,
    ensures
        final(buffer).same_text(old(buffer)),
        final(buffer).depth == old(buffer).depth,
        match spec_parse_string(old(buffer).text(), old(buffer).offset as int) {
            PStr::Done(e, t) => r matches Some(v) && v@ == t && final(buffer).offset == e,
            PStr::Fail(a) => r is None && final(buffer).offset == a,
        },
{
    let ghost s = buffer.text();
    let content = buffer.content;
    let len = buffer.length;
    let start = buffer.offset;
    if content[start] != 34 {
        buffer.offset = start + 1;
        return None;
    }
    let mut end = start + 1;
    while end < len && content[end] != 34
        invariant
            len <= content@.len(),
            s == content@.take(len as int),
            start < end <= len,
            s[start as int] == 34,
            s == old(buffer).text(),
            start == old(buffer).offset,
            string_end(s, start + 1) == string_end(s, end as int),
            buffer.wf(),
            buffer.same_text(old(buffer)),
            buffer.depth == old(buffer).depth,
            buffer.content == content,
            buffer.length == len,
        decreases len - end,
    {
        if content[end] == 92 {
            if end + 1 >= len {
                assert(string_end(s, end as int) is None);
                buffer.offset = start + 1;
                return None;
            }
            end += 1;
        }
        end += 1;
    }
    if end >= len {
        buffer.offset = start + 1;
        return None;
    }
    assert(string_end(s, start + 1) == Some(end as int));
    let mut out: Vec<u8> = Vec::new();
    let mut p = start + 1;
    assert(out@ + unescape(s, p as int, end as int)->Ok_0 =~= unescape(s, p as int, end as int)->Ok_0);
    while p < end
        invariant
            len <= content@.len(),
            s == content@.take(len as int),
            start < end < len,
            start + 1 <= p <= end + 1,
            s[start as int] == 34,
            s == old(buffer).text(),
            start == old(buffer).offset,
            string_end(s, start + 1) == Some(end as int),
            unescape(s, start + 1, end as int) == cat_str(out@, unescape(s, p as int, end as int)),
            buffer.wf(),
            buffer.same_text(old(buffer)),
            buffer.depth == old(buffer).depth,
            buffer.content == content,
            buffer.length == len,
        decreases end + 2 - p,
    {
        let ghost pre = out@;
        if content[p] != 92 {
            proof {
                lemma_unescape_plain(s, p as int, end as int, pre);
            }
            out.push(content[p]);
            p += 1;
        } else if content[p + 1] == 117 {
            let n = utf16_literal_to_utf8(content, len, p, end, &mut out);
            if n == 0 {
                proof {
                    lemma_unescape_u_fail(s, p as int, end as int);
                }
                buffer.offset = p;
                return None;
            }
            proof {
                let lit = utf16_literal(s, p as int, end as int);
                assert(lit is Some);
                let b = lit->Some_0.1;
                lemma_unescape_u(s, p as int, end as int, pre, n as int, b);
            }
            p += n;
        } else {
            proof {
                lemma_unescape_simple(s, p as int, end as int, pre);
            }
            let c = content[p + 1];
            let b: u8;
            if c == 98 {
                b = 8;
            } else if c == 102 {
                b = 12;
            } else if c == 110 {
                b = 10;
            } else if c == 114 {
                b = 13;
            } else if c == 116 {
                b = 9;
            } else if c == 34 || c == 92 || c == 47 {
                b = c;
            } else {
                buffer.offset = p;
                return None;
            }
            out.push(b);
            p += 2;
        }
    }
    proof {
        lemma_unescape_end(s, p as int, end as int);
    }
    assert(out@ + Seq::<u8>::empty() =~= out@);
    buffer.offset = end + 1;
    Some(c_string(out.as_slice()))
}

fn is_digit_byte(c: u8) -> (r: bool)
    ensures
        r == is_digit(c),
{
    48 <= c && c <= 57
}

fn is_num_byte(c: u8) -> (r: bool)
    ensures
        r == is_num_char(c),
{
    is_digit_byte(c) || c == 43 || c == 45 || c == 46 || c == 101 || c == 69
}

fn count_digits(t: &[u8], i: usize) -> (r: usize)
    ensures
        r == digits_at(t@, i as int),
{
    proof {
        lemma_digits_at_bounds(t@, i as int);
    }
    let mut j = i;
    while j < t.len() && is_digit_byte(t[j])
        invariant
            i <= j,
            digits_at(t@, i as int) == (j - i) + digits_at(t@, j as int),
        decreases t.len() - j,
    {
        j += 1;
    }
    j - i
}

/// How many bytes of the number text `t` a C `strtod` converts.
pub fn strtod_prefix_len(t: &[u8]) -> (r: usize)
    ensures
        r == strtod_len(t@),
{
    proof {
        lemma_strtod_len_bounds(t@);
    }
    let len = t.len();
    let i0: usize = if len > 0 && (t[0] == 43 || t[0] == 45) { 1 } else { 0 };
    let n_int = count_digits(t, i0);
    proof {
        lemma_digits_at_bounds(t@, i0 as int);
    }
    let i1 = i0 + n_int;
    let has_dot = i1 < len && t[i1] == 46;
    let n_frac = if has_dot {
        proof {
            lemma_digits_at_bounds(t@, i1 + 1);
        }
        count_digits(t, i1 + 1)
    } else {
        0
    };
    let i2 = if has_dot { i1 + 1 + n_frac } else { i1 };
    if n_int + n_frac == 0 {
        0
    } else if i2 < len && (t[i2] == 101 || t[i2] == 69) {
        let j = if i2 + 1 < len && (t[i2 + 1] == 43 || t[i2 + 1] == 45) { i2 + 2 } else { i2 + 1 };
        proof {
            lemma_digits_at_bounds(t@, j as int);
        }
        let k = count_digits(t, j);
        if k > 0 {
            j + k
        } else {
            i2
        }
    } else {
        i2
    }
}

/// Parses a number at the offset, decoding its text with `decode`.
pub fn parse_number<D: Fn(&[u8]) -> u64>(buffer: &mut ParseBuffer, decode: &D) -> (r: Option<CJson>)
    requires
        old(buffer).wf(),
        old(buffer).offset <= old(buffer).length,
        decoder_ok(*decode),
    ensures
        final(buffer).same_text(old(buffer)),
        final(buffer).depth == old(buffer).depth,
        match spec_parse_number(old(buffer).text(), old(buffer).offset as int, decoder_fn(*decode)) {
            PValue::Done(e, n) => r matches Some(v) && v@ == n && final(buffer).offset == e,
            PValue::Fail(a) => r is None && final(buffer).offset == a,
        },
{
    let ghost s = buffer.text();
    let content = buffer.content;
    let len = buffer.length;
    let start = buffer.offset;
    let mut n: usize = 0;
    while start + n < len && is_num_byte(content[start + n])
        invariant
            start + n <= len,
            len <= content@.len(),
            s == content@.take(len as int),
            num_span(s, start as int) == n + num_span(s, start + n),
        decreases len - (start + n),
    {
        n += 1;
    }
    let span = &content[start..start + n];
    assert(span@ =~= s.subrange(start as int, start + n));
    let l = strtod_prefix_len(span);
    proof {
        lemma_strtod_len_bounds(span@);
    }
    if l == 0 {
        return None;
    }
    let lexeme = &content[start..start + l];
    assert(lexeme@ =~= s.subrange(start as int, start + l));
    let bits = decode(lexeme);
    proof {
        lemma_decoded(*decode, lexeme, bits);
    }
    buffer.offset = start + l;
    let v = CJson {
        type_: CJSON_NUMBER,
        valuestring: None,
        valueint: double_to_int(bits),
        valuedouble: bits,
        string: None,
        child: Vec::new(),
    };
    assert(v@.child =~= Seq::<JsonNode>::empty());
    Some(v)
}

fn at_null(buffer: &ParseBuffer) -> (r: bool)
    requires
        buffer.wf(),
    ensures
        r == matches_at(buffer.text(), buffer.offset as int, lit_null()),
{
    let s = buffer.content;
    let o = buffer.offset;
    let r = can_access_at_index(buffer, 3) && s[o] == 110 && s[o + 1] == 117 && s[o + 2] == 108
        && s[o + 3] == 108;
    proof {
        if o + 4 <= buffer.length {
            let t = buffer.text().subrange(o as int, o + 4);
            if r {
                assert(t =~= lit_null());
            } else if t == lit_null() {
                assert(t[0] == 110 && t[1] == 117 && t[2] == 108 && t[3] == 108);
            }
        }
    }
    r
}

fn at_false(buffer: &ParseBuffer) -> (r: bool)
    requires
        buffer.wf(),
    ensures
        r == matches_at(buffer.text(), buffer.offset as int, lit_false()),
{
    let s = buffer.content;
    let o = buffer.offset;
    let r = can_access_at_index(buffer, 4) && s[o] == 102 && s[o + 1] == 97 && s[o + 2] == 108
        && s[o + 3] == 115 && s[o + 4] == 101;
    proof {
        if o + 5 <= buffer.length {
            let t = buffer.text().subrange(o as int, o + 5);
            if r {
                assert(t =~= lit_false());
            } else if t == lit_false() {
                assert(t[0] == 102 && t[1] == 97 && t[2] == 108 && t[3] == 115 && t[4] == 101);
            }
        }
    }
    r
}

fn at_true(buffer: &ParseBuffer) -> (r: bool)
    requires
        buffer.wf(),
    ensures
        r == matches_at(buffer.text(), buffer.offset as int, lit_true()),
{
    let s = buffer.content;
    let o = buffer.offset;
    let r = can_access_at_index(buffer, 3) && s[o] == 116 && s[o + 1] == 114 && s[o + 2] == 117
        && s[o + 3] == 101;
    proof {
        if o + 4 <= buffer.length {
            let t = buffer.text().subrange(o as int, o + 4);
            if r {
                assert(t =~= lit_true());
            } else if t == lit_true() {
                assert(t[0] == 116 && t[1] == 114 && t[2] == 117 && t[3] == 101);
            }
        }
    }
    r
}

/// The views of a sequence of nodes.
/// Parses any value at the offset.
pub fn parse_value<D: Fn(&[u8]) -> u64>(buffer: &mut ParseBuffer, decode: &D) -> (r: Option<CJson>)
    requires
        old(buffer).wf(),
        old(buffer).offset <= old(buffer).length,
        decoder_ok(*decode),
    ensures
        final(buffer).same_text(old(buffer)),
        final(buffer).wf(),
        match spec_parse_value(old(buffer).text(), old(buffer).offset as int, old(buffer).depth as int, decoder_fn(*decode)) {
            PValue::Done(e, n) => r matches Some(v) && v@ == n && final(buffer).offset == e
                && final(buffer).depth == old(buffer).depth,
            PValue::Fail(a) => r is None && final(buffer).offset == a,
        },
    decreases 1001 - old(buffer).depth, 2nat,
{
    if at_null(buffer) {
        buffer.offset += 4;
        return Some(new_item(CJSON_NULL));
    }
    if at_false(buffer) {
        buffer.offset += 5;
        return Some(new_item(CJSON_FALSE));
    }
    if at_true(buffer) {
        buffer.offset += 4;
        let mut v = new_item(CJSON_TRUE);
        v.valueint = 1;
        return Some(v);
    }
    if can_access_at_index(buffer, 0) && buffer.content[buffer.offset] == 34 {
        return match parse_string(buffer) {
            Some(t) => {
                let v = CJson {
                    type_: CJSON_STRING,
                    valuestring: Some(t),
                    valueint: 0,
                    valuedouble: 0,
                    string: None,
                    child: Vec::new(),
                };
                assert(v@.child =~= Seq::<JsonNode>::empty());
                Some(v)
            },
            None => None,
        };
    }
    if can_access_at_index(buffer, 0) && (buffer.content[buffer.offset] == 45 || is_digit_byte(
        buffer.content[buffer.offset],
    )) {
        return parse_number(buffer, decode);
    }
    if can_access_at_index(buffer, 0) && buffer.content[buffer.offset] == 91 {
        return parse_array(buffer, decode);
    }
    if can_access_at_index(buffer, 0) && buffer.content[buffer.offset] == 123 {
        return parse_object(buffer, decode);
    }
    None
}

pub open spec fn lift_list(t: i32, r: PList) -> PValue {
    match r {
        PList::Done(e, ns) => PValue::Done(e, container_node(t, ns)),
        PList::Fail(a) => PValue::Fail(a),
    }
}

pub open spec fn cat_list(pre: Seq<JsonNode>, r: PList) -> PList {
    match r {
        PList::Done(e, ns) => PList::Done(e, pre + ns),
        PList::Fail(a) => PList::Fail(a),
    }
}

/// Parses an array at the offset (which holds `[`).
pub fn parse_array<D: Fn(&[u8]) -> u64>(buffer: &mut ParseBuffer, decode: &D) -> (r: Option<CJson>)
    requires
        old(buffer).wf(),
        old(buffer).offset < old(buffer).length,
        decoder_ok(*decode),
    ensures
        final(buffer).same_text(old(buffer)),
        final(buffer).wf(),
        match spec_parse_array(old(buffer).text(), old(buffer).offset as int, old(buffer).depth as int, decoder_fn(*decode)) {
            PValue::Done(e, n) => r matches Some(v) && v@ == n && final(buffer).offset == e
                && final(buffer).depth == old(buffer).depth,
            PValue::Fail(a) => r is None && final(buffer).offset == a,
        },
    decreases 1001 - old(buffer).depth, 1nat,
{
    let ghost s = buffer.text();
    let ghost dec = decoder_fn(*decode);
    let ghost d0 = buffer.depth as int;
    let ghost off0 = buffer.offset as int;
    if buffer.depth >= 1000 {
        return None;
    }
    buffer.depth += 1;
    if buffer.content[buffer.offset] != 91 {
        return None;
    }
    buffer.offset += 1;
    buffer_skip_whitespace(buffer);
    proof {
        lemma_skip_ws_bounds(s, off0 + 1);
    }
    if can_access_at_index(buffer, 0) && buffer.content[buffer.offset] == 93 {
        buffer.depth -= 1;
        buffer.offset += 1;
        let v = new_item(CJSON_ARRAY);
        return Some(v);
    }
    if !can_access_at_index(buffer, 0) {
        buffer.offset -= 1;
        return None;
    }
    buffer.offset -= 1;
    let ghost c0 = buffer.offset as int;
    assert(spec_parse_array(s, off0, d0, dec) == lift_list(CJSON_ARRAY, spec_parse_items(s, c0, d0 + 1, dec)));
    let mut children: Vec<CJson> = Vec::new();
    assert(views(children@) =~= Seq::<JsonNode>::empty());
    assert(cat_list(views(children@), spec_parse_items(s, c0, d0 + 1, dec)) == spec_parse_items(s, c0, d0 + 1, dec)) by {
        match spec_parse_items(s, c0, d0 + 1, dec) {
            PList::Done(e, ns) => {
                assert(Seq::<JsonNode>::empty() + ns =~= ns);
            },
            PList::Fail(_) => {},
        }
    }
    loop
        invariant_except_break
            buffer.wf(),
            buffer.same_text(old(buffer)),
            s == buffer.text(),
            dec == decoder_fn(*decode),
            decoder_ok(*decode),
            buffer.depth == d0 + 1,
            0 <= d0 < 1000,
            d0 == old(buffer).depth,
            off0 == old(buffer).offset,
            s == old(buffer).text(),
            spec_parse_array(s, off0, d0, dec) == lift_list(CJSON_ARRAY, spec_parse_items(s, c0, d0 + 1, dec)),
            buffer.offset < buffer.length,
            spec_parse_items(s, c0, d0 + 1, dec) == cat_list(views(children@), spec_parse_items(s, buffer.offset as int, d0 + 1, dec)),
        ensures
            buffer.wf(),
            buffer.same_text(old(buffer)),
            s == buffer.text(),
            buffer.depth == d0 + 1,
            buffer.offset < buffer.length,
            spec_parse_items(s, c0, d0 + 1, dec) == PList::Done(buffer.offset + 1, views(children@)),
        decreases buffer.length - buffer.offset,
    {
        let ghost c = buffer.offset as int;
        let ghost pre = views(children@);
        buffer.offset += 1;
        buffer_skip_whitespace(buffer);
        proof {
            lemma_skip_ws_bounds(s, c + 1);
        }
        let ghost k = buffer.offset as int;
        let v = parse_value(buffer, decode);
        proof {
            lemma_value_progress(s, k, d0 + 1, dec);
        }
        let v = match v {
            None => {
                return None;
            },
            Some(v) => v,
        };
        let ghost o2 = buffer.offset as int;
        buffer_skip_whitespace(buffer);
        proof {
            lemma_skip_ws_bounds(s, o2);
        }
        let ghost vv = v@;
        children.push(v);
        assert(views(children@) =~= pre.push(vv));
        if can_access_at_index(buffer, 0) && buffer.content[buffer.offset] == 44 {
            proof {
                match spec_parse_items(s, buffer.offset as int, d0 + 1, dec) {
                    PList::Done(e, ns) => {
                        assert(pre + (seq![vv] + ns) =~= pre.push(vv) + ns);
                    },
                    PList::Fail(_) => {},
                }
            }
            continue;
        }
        if !can_access_at_index(buffer, 0) || buffer.content[buffer.offset] != 93 {
            return None;
        }
        assert(pre + seq![vv] =~= pre.push(vv));
        break;
    }
    buffer.depth -= 1;
    buffer.offset += 1;
    let v = CJson {
        type_: CJSON_ARRAY,
        valuestring: None,
        valueint: 0,
        valuedouble: 0,
        string: None,
        child: children,
    };
    proof {
        lemma_view_child(v);
    }
    Some(v)
}

/// Parses an object at the offset (which holds `{`).
pub fn parse_object<D: Fn(&[u8]) -> u64>(buffer: &mut ParseBuffer, decode: &D) -> (r: Option<CJson>)
    requires
        old(buffer).wf(),
        old(buffer).offset < old(buffer).length,
        decoder_ok(*decode),
    ensures
        final(buffer).same_text(old(buffer)),
        final(buffer).wf(),
        match spec_parse_object(old(buffer).text(), old(buffer).offset as int, old(buffer).depth as int, decoder_fn(*decode)) {
            PValue::Done(e, n) => r matches Some(v) && v@ == n && final(buffer).offset == e
                && final(buffer).depth == old(buffer).depth,
            PValue::Fail(a) => r is None && final(buffer).offset == a,
        },
    decreases 1001 - old(buffer).depth, 1nat,
{
    let ghost s = buffer.text();
    let ghost dec = decoder_fn(*decode);
    let ghost d0 = buffer.depth as int;
    let ghost off0 = buffer.offset as int;
    if buffer.depth >= 1000 {
        return None;
    }
    buffer.depth += 1;
    if !can_access_at_index(buffer, 0) || buffer.content[buffer.offset] != 123 {
        return None;
    }
    buffer.offset += 1;
    buffer_skip_whitespace(buffer);
    proof {
        lemma_skip_ws_bounds(s, off0 + 1);
    }
    if can_access_at_index(buffer, 0) && buffer.content[buffer.offset] == 125 {
        buffer.depth -= 1;
        buffer.offset += 1;
        let v = new_item(CJSON_OBJECT);
        return Some(v);
    }
    if !can_access_at_index(buffer, 0) {
        buffer.offset -= 1;
        return None;
    }
    buffer.offset -= 1;
    let ghost c0 = buffer.offset as int;
    assert(spec_parse_object(s, off0, d0, dec) == lift_list(CJSON_OBJECT, spec_parse_members(s, c0, d0 + 1, dec)));
    let mut children: Vec<CJson> = Vec::new();
    assert(views(children@) =~= Seq::<JsonNode>::empty());
    assert(cat_list(views(children@), spec_parse_members(s, c0, d0 + 1, dec)) == spec_parse_members(s, c0, d0 + 1, dec)) by {
        match spec_parse_members(s, c0, d0 + 1, dec) {
            PList::Done(e, ns) => {
                assert(Seq::<JsonNode>::empty() + ns =~= ns);
            },
            PList::Fail(_) => {},
        }
    }
    loop
        invariant_except_break
            buffer.wf(),
            buffer.same_text(old(buffer)),
            s == buffer.text(),
            dec == decoder_fn(*decode),
            decoder_ok(*decode),
            buffer.depth == d0 + 1,
            0 <= d0 < 1000,
            d0 == old(buffer).depth,
            off0 == old(buffer).offset,
            s == old(buffer).text(),
            spec_parse_object(s, off0, d0, dec) == lift_list(CJSON_OBJECT, spec_parse_members(s, c0, d0 + 1, dec)),
            buffer.offset < buffer.length,
            spec_parse_members(s, c0, d0 + 1, dec) == cat_list(views(children@), spec_parse_members(s, buffer.offset as int, d0 + 1, dec)),
        ensures
            buffer.wf(),
            buffer.same_text(old(buffer)),
            s == buffer.text(),
            buffer.depth == d0 + 1,
            buffer.offset < buffer.length,
            spec_parse_members(s, c0, d0 + 1, dec) == PList::Done(buffer.offset + 1, views(children@)),
        decreases buffer.length - buffer.offset,
    {
        let ghost c = buffer.offset as int;
        let ghost pre = views(children@);
        if !can_access_at_index(buffer, 1) {
            return None;
        }
        buffer.offset += 1;
        buffer_skip_whitespace(buffer);
        proof {
            lemma_skip_ws_bounds(s, c + 1);
        }
        let ghost k = buffer.offset as int;
        let key = parse_string(buffer);
        proof {
            lemma_string_progress(s, k);
        }
        let key = match key {
            None => {
                return None;
            },
            Some(key) => key,
        };
        let ghost k2 = buffer.offset as int;
        buffer_skip_whitespace(buffer);
        proof {
            lemma_skip_ws_bounds(s, k2);
        }
        if !can_access_at_index(buffer, 0) || buffer.content[buffer.offset] != 58 {
            return None;
        }
        let ghost k3 = buffer.offset as int;
        buffer.offset += 1;
        buffer_skip_whitespace(buffer);
        proof {
            lemma_skip_ws_bounds(s, k3 + 1);
        }
        let ghost v0 = buffer.offset as int;
        let v = parse_value(buffer, decode);
        proof {
            lemma_value_progress(s, v0, d0 + 1, dec);
        }
        let mut v = match v {
            None => {
                return None;
            },
            Some(v) => v,
        };
        let ghost o2 = buffer.offset as int;
        buffer_skip_whitespace(buffer);
        proof {
            lemma_skip_ws_bounds(s, o2);
        }
        let ghost keyv = key@;
        let ghost valv = v@;
        v.string = Some(key);
        let ghost vv = v@;
        assert(vv == member_node(keyv, valv)) by {
            assert(vv.child =~= valv.child);
        }
        children.push(v);
        assert(views(children@) =~= pre.push(vv));
        if can_access_at_index(buffer, 0) && buffer.content[buffer.offset] == 44 {
            proof {
                match spec_parse_members(s, buffer.offset as int, d0 + 1, dec) {
                    PList::Done(e, ns) => {
                        assert(pre + (seq![vv] + ns) =~= pre.push(vv) + ns);
                    },
                    PList::Fail(_) => {},
                }
            }
            continue;
        }
        if !can_access_at_index(buffer, 0) || buffer.content[buffer.offset] != 125 {
            return None;
        }
        assert(pre + seq![vv] =~= pre.push(vv));
        break;
    }
    buffer.depth -= 1;
    buffer.offset += 1;
    let v = CJson {
        type_: CJSON_OBJECT,
        valuestring: None,
        valueint: 0,
        valuedouble: 0,
        string: None,
        child: children,
    };
    proof {
        lemma_view_child(v);
    }
    Some(v)
}

/// The error for a failed parse at offset `a` of `buffer`'s text.
fn finish_parse_failure(buffer: &ParseBuffer, a: usize) -> (r: GlobalError)
    requires
        buffer.wf(),
    ensures
        r.position == error_position(buffer.text(), a as int),
{
    if a < buffer.length {
        GlobalError { position: a }
    } else if buffer.length > 0 {
        GlobalError { position: buffer.length - 1 }
    } else {
        GlobalError { position: 0 }
    }
}

/// Parses the first `buffer_length` bytes of `value` as one JSON document.
/// On success, the root node and the offset where parsing ended (after the
/// trailing whitespace when `require_null_terminated`); on failure, the
/// position of the error. Number texts are turned into doubles by `decode`.
pub fn cjson_parse_with_length_opts<D: Fn(&[u8]) -> u64>(
    value: &[u8],
    buffer_length: usize,
    require_null_terminated: bool,
    decode: &D,
) -> (r: Result<(CJson, usize), GlobalError>)
    requires
        buffer_length <= value@.len(),
        decoder_ok(*decode),
    ensures
        match spec_parse_document(value@.take(buffer_length as int), require_null_terminated, decoder_fn(*decode)) {
            Ok((n, e)) => r matches Ok((v, end)) && v@ == n && end == e,
            Err(p) => r matches Err(g) && g.position == p,
        },
{
    if buffer_length == 0 {
        return Err(GlobalError { position: 0 });
    }
    let mut buffer = ParseBuffer { content: value, length: buffer_length, offset: 0, depth: 0 };
    let ghost s = buffer.text();
    let at_start = skip_utf8_bom(&mut buffer);
    assert(at_start);
    buffer_skip_whitespace(&mut buffer);
    proof {
        lemma_skip_ws_bounds(s, bom_end(s));
    }
    let item = match parse_value(&mut buffer, decode) {
        None => {
            let a = buffer.offset;
            return Err(finish_parse_failure(&buffer, a));
        },
        Some(item) => item,
    };
    if require_null_terminated {
        buffer_skip_whitespace(&mut buffer);
        if buffer.offset >= buffer.length || buffer.content[buffer.offset] != 0 {
            let a = buffer.offset;
            return Err(finish_parse_failure(&buffer, a));
        }
    }
    Ok((item, buffer.offset))
}

/// The text of a C string followed by its NUL terminator.
pub open spec fn c_text(value: Seq<u8>) -> Seq<u8> {
    cstr(value).push(0)
}

/// Parses the C string `value` (its bytes before the first NUL), with the
/// terminating NUL as part of the text.
pub fn cjson_parse_with_opts<D: Fn(&[u8]) -> u64>(
    value: &[u8],
    require_null_terminated: bool,
    decode: &D,
) -> (r: Result<(CJson, usize), GlobalError>)
    requires
        decoder_ok(*decode),
    ensures
        match spec_parse_document(c_text(value@), require_null_terminated, decoder_fn(*decode)) {
            Ok((n, e)) => r matches Ok((v, end)) && v@ == n && end == e,
            Err(p) => r matches Err(g) && g.position == p,
        },
{
    let mut text = c_string(value);
    text.push(0);
    let n = text.len();
    assert(text@.take(n as int) =~= c_text(value@));
    cjson_parse_with_length_opts(text.as_slice(), n, require_null_terminated, decode)
}

/// Parses the C string `value`.
pub fn cjson_parse<D: Fn(&[u8]) -> u64>(value: &[u8], decode: &D) -> (r: Result<CJson, GlobalError>)
    requires
        decoder_ok(*decode),
    ensures
        match spec_parse_document(c_text(value@), false, decoder_fn(*decode)) {
            Ok((n, e)) => r matches Ok(v) && v@ == n,
            Err(p) => r matches Err(g) && g.position == p,
        },
{
    match cjson_parse_with_opts(value, false, decode) {
        Ok((v, _)) => Ok(v),
        Err(g) => Err(g),
    }
}

/// Parses the first `buffer_length` bytes of `value`.
pub fn cjson_parse_with_length<D: Fn(&[u8]) -> u64>(
    value: &[u8],
    buffer_length: usize,
    decode: &D,
) -> (r: Result<CJson, GlobalError>)
    requires
        buffer_length <= value@.len(),
        decoder_ok(*decode),
    ensures
        match spec_parse_document(value@.take(buffer_length as int), false, decoder_fn(*decode)) {
            Ok((n, e)) => r matches Ok(v) && v@ == n,
            Err(p) => r matches Err(g) && g.position == p,
        },
{
    match cjson_parse_with_length_opts(value, buffer_length, false, decode) {
        Ok((v, _)) => Ok(v),
        Err(g) => Err(g),
    }
}


// ---------------------------------------------------------------------------
// Upper- and lower-case exponent marks.
// ---------------------------------------------------------------------------

/// Two texts of one length that agree byte for byte on every class a
/// number's reading looks at.
pub open spec fn same_number_classes(t1: Seq<u8>, t2: Seq<u8>) -> bool {
    &&& t1.len() == t2.len()
    &&& forall|m: int| 0 <= m < t1.len() ==> {
        &&& is_digit(#[trigger] t1[m]) == is_digit(t2[m])
        &&& is_sign(t1[m]) == is_sign(t2[m])
        &&& (t1[m] == 46) == (t2[m] == 46)
        &&& is_exp_mark(t1[m]) == is_exp_mark(t2[m])
        &&& is_num_char(t1[m]) == is_num_char(t2[m])
    }
}

proof fn lemma_classes_span(t1: Seq<u8>, t2: Seq<u8>, i: int)
    requires
        same_number_classes(t1, t2),
    ensures
        num_span(t1, i) == num_span(t2, i),
        digits_at(t1, i) == digits_at(t2, i),
        digits_at(t1, i) >= 0,
    decreases t1.len() - i,
{
    if 0 <= i < t1.len() {
        lemma_classes_span(t1, t2, i + 1);
    }
}

proof fn lemma_num_span_fits(t: Seq<u8>, i: int)
    requires
        0 <= i <= t.len(),
    ensures
        0 <= num_span(t, i) <= t.len() - i,
    decreases t.len() - i,
{
    if i < t.len() {
        lemma_num_span_fits(t, i + 1);
    }
}

proof fn lemma_classes_sub(t1: Seq<u8>, t2: Seq<u8>, a: int, b: int)
    requires
        same_number_classes(t1, t2),
        0 <= a <= b <= t1.len(),
    ensures
        same_number_classes(t1.subrange(a, b), t2.subrange(a, b)),
{
    assert forall|m: int| 0 <= m < b - a implies {
        &&& is_digit(#[trigger] t1.subrange(a, b)[m]) == is_digit(t2.subrange(a, b)[m])
        &&& is_sign(t1.subrange(a, b)[m]) == is_sign(t2.subrange(a, b)[m])
        &&& (t1.subrange(a, b)[m] == 46) == (t2.subrange(a, b)[m] == 46)
        &&& is_exp_mark(t1.subrange(a, b)[m]) == is_exp_mark(t2.subrange(a, b)[m])
        &&& is_num_char(t1.subrange(a, b)[m]) == is_num_char(t2.subrange(a, b)[m])
    } by {
        assert(t1.subrange(a, b)[m] == t1[a + m]);
        assert(t2.subrange(a, b)[m] == t2[a + m]);
    }
}

proof fn lemma_classes_strtod(t1: Seq<u8>, t2: Seq<u8>)
    requires
        same_number_classes(t1, t2),
    ensures
        strtod_len(t1) == strtod_len(t2),
{
    let i0: int = if t1.len() > 0 && is_sign(t1[0]) { 1 } else { 0 };
    if t1.len() > 0 {
        assert(is_sign(t1[0]) == is_sign(t2[0]));
    }
    lemma_classes_span(t1, t2, i0);
    let i1 = i0 + digits_at(t1, i0);
    if i1 < t1.len() {
        assert((t1[i1] == 46) == (t2[i1] == 46));
    }
    lemma_classes_span(t1, t2, i1 + 1);
    let has_dot = i1 < t1.len() && t1[i1] == 46;
    let n_frac = if has_dot { digits_at(t1, i1 + 1) } else { 0 };
    let i2 = if has_dot { i1 + 1 + n_frac } else { i1 };
    if i2 < t1.len() {
        assert(is_exp_mark(t1[i2]) == is_exp_mark(t2[i2]));
    }
    if i2 + 1 < t1.len() {
        assert(is_sign(t1[i2 + 1]) == is_sign(t2[i2 + 1]));
    }
    lemma_classes_span(t1, t2, i2 + 1);
    lemma_classes_span(t1, t2, i2 + 2);
}

/// A number may write its exponent mark in either case: in any text, an
/// `E` where an `e` stands (or the other way round) leaves the run of
/// number bytes and the part of it that is read as the number unchanged,
/// so the number parses, or fails, at the same place.
pub proof fn law_exponent_mark_either_case(s: Seq<u8>, off: int, j: int, dec: spec_fn(Seq<u8>) -> u64)
    requires
        0 <= j < s.len(),
        0 <= off <= s.len(),
    ensures
        num_span(s.update(j, 69u8), off) == num_span(s.update(j, 101u8), off),
        match (spec_parse_number(s.update(j, 69u8), off, dec), spec_parse_number(s.update(j, 101u8), off, dec)) {
            (PValue::Done(e1, _), PValue::Done(e2, _)) => e1 == e2,
            (PValue::Fail(a1), PValue::Fail(a2)) => a1 == a2,
            _ => false,
        },
{
    let su = s.update(j, 69u8);
    let sl = s.update(j, 101u8);
    assert forall|m: int| 0 <= m < su.len() implies {
        &&& is_digit(#[trigger] su[m]) == is_digit(sl[m])
        &&& is_sign(su[m]) == is_sign(sl[m])
        &&& (su[m] == 46) == (sl[m] == 46)
        &&& is_exp_mark(su[m]) == is_exp_mark(sl[m])
        &&& is_num_char(su[m]) == is_num_char(sl[m])
    } by {
        if m != j {
            assert(su[m] == sl[m]);
        }
    }
    assert(same_number_classes(su, sl));
    lemma_classes_span(su, sl, off);
    let n = num_span(su, off);
    lemma_num_span_fits(su, off);
    lemma_classes_sub(su, sl, off, off + n);
    lemma_classes_strtod(su.subrange(off, off + n), sl.subrange(off, off + n));
}


// ---------------------------------------------------------------------------
// UTF-8.
// ---------------------------------------------------------------------------

/// A continuation byte: `10xxxxxx`.
pub open spec fn utf8_cont(b: u8) -> bool {
    0x80 <= b < 0xC0
}

/// A UTF-8 sequence of one to four bytes in its standard shape: a lead
/// byte that says how many bytes follow, then that many continuation bytes.
pub open spec fn utf8_shaped(b: Seq<u8>) -> bool {
    ||| b.len() == 1 && b[0] < 0x80
    ||| b.len() == 2 && 0xC0 <= b[0] < 0xE0 && utf8_cont(b[1])
    ||| b.len() == 3 && 0xE0 <= b[0] < 0xF0 && utf8_cont(b[1]) && utf8_cont(b[2])
    ||| b.len() == 4 && 0xF0 <= b[0] < 0xF8 && utf8_cont(b[1]) && utf8_cont(b[2]) && utf8_cont(b[3])
}

/// The code point a shaped UTF-8 sequence stands for: the lead byte's
/// payload bits followed by six bits from each continuation byte, first
/// byte most significant.
pub open spec fn utf8_value(b: Seq<u8>) -> int {
    if b.len() == 1 {
        b[0] as int
    } else if b.len() == 2 {
        (b[0] - 0xC0) * 64 + (b[1] - 0x80)
    } else if b.len() == 3 {
        (b[0] - 0xE0) * 4096 + (b[1] - 0x80) * 64 + (b[2] - 0x80)
    } else {
        (b[0] - 0xF0) * 262144 + (b[1] - 0x80) * 4096 + (b[2] - 0x80) * 64 + (b[3] - 0x80)
    }
}

/// The shortest UTF-8 length of a code point.
pub open spec fn utf8_len(cp: int) -> int {
    if cp < 0x80 {
        1
    } else if cp < 0x800 {
        2
    } else if cp < 0x10000 {
        3
    } else {
        4
    }
}

/// Encoding a code point gives the standard UTF-8 sequence: of the
/// shortest length, in the standard shape, and decoding it gives the code
/// point back.
pub proof fn law_utf8_encode_decodes(cp: int)
    requires
        0 <= cp < 0x110000,
    ensures
        utf8_encode(cp).len() == utf8_len(cp),
        utf8_shaped(utf8_encode(cp)),
        utf8_value(utf8_encode(cp)) == cp,
{
    let b = utf8_encode(cp);
    if cp < 0x80 {
    } else if cp < 0x800 {
        assert(cp == 64 * (cp / 64) + cp % 64) by (nonlinear_arith);
        assert(cp / 64 < 32) by (nonlinear_arith) requires cp < 0x800;
        assert(b[0] == 0xC0 + cp / 64);
        assert(b[1] == 0x80 + cp % 64);
    } else if cp < 0x10000 {
        assert(cp == 4096 * (cp / 4096) + 64 * ((cp / 64) % 64) + cp % 64) by (nonlinear_arith) {
            assert(cp == 64 * (cp / 64) + cp % 64);
            assert(cp / 64 == 64 * (cp / 4096) + (cp / 64) % 64);
        }
        assert(cp / 4096 < 16) by (nonlinear_arith) requires cp < 0x10000;
        assert(b[0] == 0xE0 + cp / 4096);
        assert(b[1] == 0x80 + (cp / 64) % 64);
        assert(b[2] == 0x80 + cp % 64);
    } else {
        assert(cp == 262144 * (cp / 262144) + 4096 * ((cp / 4096) % 64) + 64 * ((cp / 64) % 64) + cp % 64) by (nonlinear_arith) {
            assert(cp == 64 * (cp / 64) + cp % 64);
            assert(cp / 64 == 64 * (cp / 4096) + (cp / 64) % 64);
            assert(cp / 4096 == 64 * (cp / 262144) + (cp / 4096) % 64);
        }
        assert(cp / 262144 < 5) by (nonlinear_arith) requires cp < 0x110000;
        assert(b[0] == 0xF0 + cp / 262144);
        assert(b[1] == 0x80 + (cp / 4096) % 64);
        assert(b[2] == 0x80 + (cp / 64) % 64);
        assert(b[3] == 0x80 + cp % 64);
    }
}

/// A `\u` escape stands for the UTF-8 encoding of the code point it
/// names: one escape for a code point outside the surrogate range, and a
/// high then a low surrogate for one above `0xFFFF`.
pub proof fn law_unicode_escape_is_utf8(s: Seq<u8>, p: int, end: int)
    requires
        utf16_literal(s, p, end) is Some,
    ensures
        utf8_shaped(utf16_literal(s, p, end).unwrap().1),
        utf16_literal(s, p, end).unwrap().0 == 6 ==> utf8_value(utf16_literal(s, p, end).unwrap().1) == hex4(s, p + 2),
        utf16_literal(s, p, end).unwrap().0 == 12 ==> utf8_value(utf16_literal(s, p, end).unwrap().1) == 0x10000 + (hex4(s, p + 2)
            - 0xD800) * 1024 + (hex4(s, p + 8) - 0xDC00),
{
    let first = hex4(s, p + 2);
    lemma_hex4_range(s, p + 2);
    if 0xD800 <= first <= 0xDBFF {
        let second = hex4(s, p + 8);
        lemma_hex4_range(s, p + 8);
        law_utf8_encode_decodes(0x10000 + (first - 0xD800) * 1024 + (second - 0xDC00));
    } else {
        law_utf8_encode_decodes(first);
    }
}

proof fn lemma_hex4_range(s: Seq<u8>, p: int)
    ensures
        0 <= hex4(s, p) < 0x10000,
{
    if hex_val(s[p]) >= 0 && hex_val(s[p + 1]) >= 0 && hex_val(s[p + 2]) >= 0 && hex_val(s[p + 3]) >= 0 {
        assert(hex_val(s[p]) < 16 && hex_val(s[p + 1]) < 16 && hex_val(s[p + 2]) < 16 && hex_val(s[p + 3]) < 16);
    }
}

} // verus!
