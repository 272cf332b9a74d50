//! Reading back what was printed: the text that the printer writes for a
//! tree parses again, to the tree that the law below names.

use vstd::prelude::*;
use crate::model::{JsonNode, type_byte, node_of_type, CJSON_NULL, CJSON_FALSE, CJSON_TRUE, CJSON_NUMBER, CJSON_STRING, CJSON_ARRAY, CJSON_OBJECT, CJSON_RAW};
use crate::parse::{
    is_digit, is_num_char, is_sign, is_exp_mark, digits_at, strtod_len, num_span,
};
use crate::float::{dec_digits, zeros, dot_part, strip_zeros, g_text, g_layout, round_sig, exact_digits, exact_exp, incr_digits, one_then_zeros, rounded_up, exp_digits, lemma_strip_zeros, lemma_incr_len};
use crate::number::{dbl_special, dbl_is_nan, dbl_negative, dbl_mant};
use crate::print::{int_text, number_text, escaped, escape_byte, hex_lower, string_piece, tabs, PrintCtx, pr_value, pr_items, pr_member, pr_members, print_spec};
use crate::parse::{hex_val, hex4, utf16_literal, simple_escape, unescape, string_end, spec_parse_string, PStr};
use crate::parse::{PValue, PList, ws_end, skip_ws, matches_at, lit_null, lit_false, lit_true, spec_parse_value, spec_parse_items, spec_parse_members, spec_parse_document, member_node, string_node, number_node, true_node, container_node, c_text, bom_end};
use crate::text::{cstr, no_nul, c_str_diff};
use crate::manip::{same_tree, known_type, distinct_keys, find_member, node_count};

verus! {

// ---------------------------------------------------------------------------
// Number texts.
// ---------------------------------------------------------------------------

/// The text of an optional string, an absent one read as empty.
pub open spec fn text_or_empty(v: Option<Seq<u8>>) -> Seq<u8> {
    match v {
        Some(x) => x,
        None => Seq::empty(),
    }
}

/// Every byte is a decimal digit.
pub open spec fn all_digits(s: Seq<u8>) -> bool {
    forall|i: int| 0 <= i < s.len() ==> is_digit(#[trigger] s[i])
}

/// A number in C's notation: an optional minus, at least one digit, an
/// optional fraction with digits, and an optional exponent with a sign and
/// digits.
pub open spec fn num_text(neg: bool, a: Seq<u8>, b: Seq<u8>, e: Option<(u8, Seq<u8>)>) -> Seq<u8> {
    (if neg { seq![45u8] } else { Seq::<u8>::empty() }) + a + dot_part(b) + match e {
        None => Seq::<u8>::empty(),
        Some((sg, c)) => seq![101u8, sg] + c,
    }
}

pub open spec fn num_parts_ok(a: Seq<u8>, b: Seq<u8>, e: Option<(u8, Seq<u8>)>) -> bool {
    &&& a.len() >= 1
    &&& all_digits(a)
    &&& all_digits(b)
    &&& e matches Some((sg, c)) ==> (is_sign(sg) && c.len() >= 1 && all_digits(c))
}

/// A text that the number reader takes whole: it starts like a number, has
/// only number bytes, and `strtod` converts all of it.
pub open spec fn number_like(t: Seq<u8>) -> bool {
    &&& t.len() >= 1
    &&& (t[0] == 45 || is_digit(t[0]))
    &&& forall|i: int| 0 <= i < t.len() ==> is_num_char(#[trigger] t[i])
    &&& strtod_len(t) == t.len()
}

proof fn lemma_digits_at_run(t: Seq<u8>, i: int, m: int)
    requires
        0 <= i,
        0 <= m,
        i + m <= t.len(),
        forall|k: int| i <= k < i + m ==> is_digit(#[trigger] t[k]),
        i + m < t.len() ==> !is_digit(t[i + m]),
    ensures
        digits_at(t, i) == m,
    decreases m,
{
    if m > 0 {
        assert(is_digit(t[i]));
        lemma_digits_at_run(t, i + 1, m - 1);
    }
}

proof fn lemma_num_text(neg: bool, a: Seq<u8>, b: Seq<u8>, e: Option<(u8, Seq<u8>)>)
    requires
        num_parts_ok(a, b, e),
    ensures
        number_like(num_text(neg, a, b, e)),
{
    let sg: Seq<u8> = if neg { seq![45u8] } else { Seq::<u8>::empty() };
    let fr = dot_part(b);
    let ex: Seq<u8> = match e {
        None => Seq::<u8>::empty(),
        Some((s, c)) => seq![101u8, s] + c,
    };
    let t = num_text(neg, a, b, e);
    assert(t == sg + a + fr + ex);
    let i0 = sg.len() as int;
    let i1 = i0 + a.len();
    let i2 = i1 + fr.len();
    assert(t.len() == i2 + ex.len());
    assert forall|k: int| 0 <= k < t.len() implies is_num_char(#[trigger] t[k]) by {
        if k < i0 {
            assert(t[k] == 45);
        } else if k < i1 {
            assert(t[k] == a[k - i0]);
        } else if k < i2 {
            if k == i1 {
                assert(t[k] == 46);
            } else {
                assert(t[k] == b[k - i1 - 1]);
            }
        } else {
            let s = e.unwrap().0;
            let c = e.unwrap().1;
            if k == i2 {
                assert(t[k] == 101);
            } else if k == i2 + 1 {
                assert(t[k] == s);
            } else {
                assert(t[k] == c[k - i2 - 2]);
            }
        }
    }
    assert(t[i0] == a[0]);
    assert(i0 == (if t.len() > 0 && is_sign(t[0]) { 1int } else { 0int })) by {
        if neg {
            assert(t[0] == 45);
        } else {
            assert(t[0] == a[0]);
        }
    }
    assert forall|k: int| i0 <= k < i0 + a.len() implies is_digit(#[trigger] t[k]) by {
        assert(t[k] == a[k - i0]);
    }
    lemma_digits_at_run(t, i0, a.len() as int);
    if b.len() > 0 {
        assert(t[i1] == 46);
        assert forall|k: int| i1 + 1 <= k < i1 + 1 + b.len() implies is_digit(#[trigger] t[k]) by {
            assert(t[k] == b[k - i1 - 1]);
        }
        if i2 < t.len() {
            assert(t[i2] == 101);
        }
        lemma_digits_at_run(t, i1 + 1, b.len() as int);
    } else {
        if i1 < t.len() {
            assert(t[i1] == 101);
        }
    }
    if let Some((s, c)) = e {
        assert(t[i2] == 101);
        assert(t[i2 + 1] == s);
        assert forall|k: int| i2 + 2 <= k < i2 + 2 + c.len() implies is_digit(#[trigger] t[k]) by {
            assert(t[k] == c[k - i2 - 2]);
        }
        lemma_digits_at_run(t, i2 + 2, c.len() as int);
    }
}

proof fn lemma_dec_digits_all(v: nat)
    ensures
        dec_digits(v).len() >= 1,
        all_digits(dec_digits(v)),
    decreases v,
{
    if v >= 10 {
        lemma_dec_digits_all(v / 10);
        let d = dec_digits(v / 10);
        assert(dec_digits(v) == d.push((48 + v % 10) as u8));
        assert forall|i: int| 0 <= i < dec_digits(v).len() implies is_digit(#[trigger] dec_digits(v)[i]) by {
            if i < d.len() {
                assert(dec_digits(v)[i] == d[i]);
            }
        }
    }
}

proof fn lemma_incr_digits_all(s: Seq<u8>)
    requires
        all_digits(s),
    ensures
        all_digits(incr_digits(s)),
    decreases s.len(),
{
    if s.len() > 0 {
        let l = s.last();
        assert(is_digit(s[s.len() - 1]));
        if l < 57 {
            let r = s.drop_last().push((l + 1) as u8);
            assert forall|i: int| 0 <= i < r.len() implies is_digit(#[trigger] r[i]) by {
                if i < s.len() - 1 {
                    assert(r[i] == s[i]);
                }
            }
        } else {
            assert(all_digits(s.drop_last())) by {
                assert forall|i: int| 0 <= i < s.drop_last().len() implies is_digit(#[trigger] s.drop_last()[i]) by {
                    assert(s.drop_last()[i] == s[i]);
                }
            }
            lemma_incr_digits_all(s.drop_last());
            let r = incr_digits(s.drop_last()).push(48u8);
            assert forall|i: int| 0 <= i < r.len() implies is_digit(#[trigger] r[i]) by {
                if i < r.len() - 1 {
                    assert(r[i] == incr_digits(s.drop_last())[i]);
                }
            }
        }
    }
}

/// The rounded significant digits are `p` digits.
proof fn lemma_round_sig_digits(d: Seq<u8>, n: int, p: nat)
    requires
        all_digits(d),
        p >= 1,
    ensures
        round_sig(d, n, p).0.len() == p,
        all_digits(round_sig(d, n, p).0),
{
    let r = round_sig(d, n, p);
    if d.len() <= p {
        let z = zeros((p - d.len()) as nat);
        assert forall|i: int| 0 <= i < r.0.len() implies is_digit(#[trigger] r.0[i]) by {
            if i < d.len() {
                assert(r.0[i] == d[i]);
            } else {
                assert(r.0[i] == z[i - d.len()]);
            }
        }
    } else {
        let sig = d.take(p as int);
        assert(all_digits(sig)) by {
            assert forall|i: int| 0 <= i < sig.len() implies is_digit(#[trigger] sig[i]) by {
                assert(sig[i] == d[i]);
            }
        }
        if r.0 != sig {
            if crate::float::all_nines(sig) {
                let o = one_then_zeros(sig.len());
                assert(r.0 == o);
                assert forall|i: int| 0 <= i < o.len() implies is_digit(#[trigger] o[i]) by {
                    if i > 0 {
                        assert(o[i] == zeros((p - 1) as nat)[i - 1]);
                    }
                }
            } else {
                lemma_incr_len(sig);
                lemma_incr_digits_all(sig);
            }
        }
    }
}

proof fn lemma_prefix_digits(s: Seq<u8>, k: int, from: int)
    requires
        all_digits(s),
        0 <= from <= k,
        k <= s.len(),
    ensures
        all_digits(s.take(k).skip(from)),
        all_digits(s.take(k)),
{
    assert forall|i: int| 0 <= i < s.take(k).len() implies is_digit(#[trigger] s.take(k)[i]) by {
        assert(s.take(k)[i] == s[i]);
    }
    assert forall|i: int| 0 <= i < s.take(k).skip(from).len() implies is_digit(#[trigger] s.take(k).skip(from)[i]) by {
        assert(s.take(k).skip(from)[i] == s[i + from]);
    }
}

/// The `%g` texts of a finite double are whole numbers for the reader.
#[verifier::rlimit(50)]
proof fn lemma_g_text_number(bits: u64, p: nat)
    requires
        !dbl_special(bits),
        p >= 1,
    ensures
        number_like(g_text(bits, p)),
{
    let neg = dbl_negative(bits);
    if dbl_mant(bits) == 0 {
        lemma_num_text(neg, seq![48u8], Seq::empty(), None);
        assert(dot_part(Seq::<u8>::empty()) =~= Seq::<u8>::empty());
        if neg {
            assert(g_text(bits, p) =~= num_text(neg, seq![48u8], Seq::empty(), None));
        } else {
            assert(g_text(bits, p) =~= num_text(neg, seq![48u8], Seq::empty(), None));
        }
    } else {
        lemma_dec_digits_all(crate::float::exact_int(bits));
        let r = round_sig(exact_digits(bits), exact_exp(bits), p);
        lemma_round_sig_digits(exact_digits(bits), exact_exp(bits), p);
        let sig = r.0;
        let x = r.1 - 1;
        let sgn: Seq<u8> = if neg { seq![45u8] } else { Seq::<u8>::empty() };
        if x < -4 || x >= p {
            let kept = strip_zeros(sig, 1);
            lemma_strip_zeros(sig, 1);
            lemma_prefix_digits(sig, kept.len() as int, 1);
            let mag = if x < 0 { -x } else { x };
            let ed = exp_digits(mag);
            if mag < 10 {
                lemma_dec_digits_all(mag as nat);
                assert forall|i: int| 0 <= i < ed.len() implies is_digit(#[trigger] ed[i]) by {
                    if i > 0 {
                        assert(ed[i] == dec_digits(mag as nat)[i - 1]);
                    }
                }
            } else {
                lemma_dec_digits_all(mag as nat);
            }
            let a = seq![sig[0]];
            assert(is_digit(sig[0]));
            let e = Some((if x < 0 { 45u8 } else { 43u8 }, ed));
            lemma_num_text(neg, a, kept.skip(1), e);
            assert(g_layout(sig, x, p) =~= a + dot_part(kept.skip(1)) + (seq![101u8, if x < 0 { 45u8 } else { 43u8 }] + ed));
            assert(g_text(bits, p) =~= num_text(neg, a, kept.skip(1), e));
        } else if x >= 0 {
            let kept = strip_zeros(sig, x + 1);
            lemma_strip_zeros(sig, x + 1);
            lemma_prefix_digits(sig, kept.len() as int, x + 1);
            lemma_prefix_digits(sig, x + 1, 0);
            let a = sig.take(x + 1);
            lemma_num_text(neg, a, kept.skip(x + 1), None);
            assert(g_text(bits, p) =~= num_text(neg, a, kept.skip(x + 1), None));
        } else {
            let z = zeros((-x - 1) as nat) + sig;
            assert(all_digits(z)) by {
                assert forall|i: int| 0 <= i < z.len() implies is_digit(#[trigger] z[i]) by {
                    if i < (-x - 1) {
                        assert(z[i] == 48);
                    } else {
                        assert(z[i] == sig[i - (-x - 1)]);
                    }
                }
            }
            let kept = strip_zeros(z, 0);
            lemma_strip_zeros(z, 0);
            lemma_prefix_digits(z, kept.len() as int, 0);
            assert(kept.skip(0) =~= kept);
            lemma_num_text(neg, seq![48u8], kept, None);
            assert(g_text(bits, p) =~= num_text(neg, seq![48u8], kept, None));
        }
    }
}

/// The text of a finite number node is a whole number for the reader.
pub proof fn lemma_number_text_reads(bits: u64, vi: i32, dec: spec_fn(Seq<u8>) -> u64, close: spec_fn(u64, u64) -> bool)
    requires
        !dbl_special(bits),
        number_text(bits, vi, dec, close) is Some,
    ensures
        number_like(number_text(bits, vi, dec, close).unwrap()),
{
    if crate::number::dbl_equals_int(bits, vi as int) {
        let v = vi as int;
        if v < 0 {
            lemma_dec_digits_all((-v) as nat);
            lemma_num_text(true, dec_digits((-v) as nat), Seq::empty(), None);
            assert(dot_part(Seq::<u8>::empty()) =~= Seq::<u8>::empty());
            assert(int_text(v) =~= num_text(true, dec_digits((-v) as nat), Seq::empty(), None));
        } else {
            lemma_dec_digits_all(v as nat);
            lemma_num_text(false, dec_digits(v as nat), Seq::empty(), None);
            assert(dot_part(Seq::<u8>::empty()) =~= Seq::<u8>::empty());
            assert(int_text(v) =~= num_text(false, dec_digits(v as nat), Seq::empty(), None));
        }
    } else {
        lemma_g_text_number(bits, 15);
        lemma_g_text_number(bits, 17);
    }
}


// ---------------------------------------------------------------------------
// String texts.
// ---------------------------------------------------------------------------

proof fn lemma_escaped_concat(a: Seq<u8>, b: Seq<u8>)
    ensures
        escaped(a + b) == escaped(a) + escaped(b),
    decreases b.len(),
{
    if b.len() == 0 {
        assert(a + b =~= a);
        assert(escaped(b) =~= Seq::<u8>::empty());
        assert(escaped(a) + Seq::<u8>::empty() =~= escaped(a));
    } else {
        assert((a + b).drop_last() =~= a + b.drop_last());
        assert((a + b).last() == b.last());
        lemma_escaped_concat(a, b.drop_last());
        assert(escaped(a) + escaped(b.drop_last()) + escape_byte(b.last()) =~= escaped(a) + (escaped(b.drop_last())
            + escape_byte(b.last())));
    }
}

proof fn lemma_hex_lower(v: u8)
    requires
        v < 16,
    ensures
        hex_val(hex_lower(v)) == v,
        hex_lower(v) != 34 && hex_lower(v) != 92,
{
}

/// The escaped text of a C string, followed by a quote, ends at that quote
/// and reads back as the string.
#[verifier::rlimit(50)]
proof fn lemma_escaped_reads(s: Seq<u8>, q: int, t: Seq<u8>)
    requires
        no_nul(t),
        0 <= q,
        q + escaped(t).len() < s.len(),
        s.subrange(q, q + escaped(t).len()) == escaped(t),
        s[q + escaped(t).len()] == 34,
    ensures
        string_end(s, q) == Some(q + escaped(t).len()),
        unescape(s, q, q + escaped(t).len()) == Ok::<Seq<u8>, int>(t),
    decreases t.len(),
{
    reveal(unescape);
    let end = q + escaped(t).len();
    if t.len() == 0 {
        assert(escaped(t).len() == 0);
        assert(t =~= Seq::<u8>::empty());
    } else {
        let c = t[0];
        let rest = t.skip(1);
        assert(t =~= seq![c] + rest);
        lemma_escaped_concat(seq![c], rest);
        assert(seq![c].drop_last() =~= Seq::<u8>::empty());
        assert(escaped(Seq::<u8>::empty()) =~= Seq::<u8>::empty());
        let h = escape_byte(c);
        assert(escaped(seq![c]) =~= h);
        assert(escaped(t) =~= h + escaped(rest));
        let q2 = q + h.len();
        assert(no_nul(rest)) by {
            assert forall|i: int| 0 <= i < rest.len() implies rest[i] != 0 by {
                assert(rest[i] == t[i + 1]);
            }
        }
        assert(escaped(t).subrange(h.len() as int, escaped(t).len() as int) =~= escaped(rest));
        assert(s.subrange(q2, q2 + escaped(rest).len()) =~= escaped(t).subrange(h.len() as int, escaped(t).len() as int));
        assert(q2 + escaped(rest).len() == end);
        lemma_escaped_reads(s, q2, rest);
        assert forall|k: int| 0 <= k < h.len() implies s[q + k] == #[trigger] h[k] by {
            assert(s[q + k] == escaped(t)[k]);
        }
        assert(c != 0);
        if c == 34 || c == 92 || c == 8 || c == 12 || c == 10 || c == 13 || c == 9 {
            assert(h.len() == 2);
            assert(s[q] == 92);
            assert(s[q + 1] == h[1]);
            assert(string_end(s, q) == string_end(s, q + 2));
            assert(simple_escape(h[1]) == Some(c));
            assert(s[q + 1] != 117);
            assert(unescape(s, q, end) == Ok::<Seq<u8>, int>(seq![c] + rest));
        } else if c < 32 {
            assert(h.len() == 6);
            lemma_hex_lower(c / 16);
            lemma_hex_lower(c % 16);
            assert(s[q] == 92 && s[q + 1] == 117 && s[q + 2] == 48 && s[q + 3] == 48);
            assert(s[q + 4] == hex_lower(c / 16) && s[q + 5] == hex_lower(c % 16));
            assert(string_end(s, q + 5) == string_end(s, q + 6));
            assert(string_end(s, q + 4) == string_end(s, q + 5));
            assert(string_end(s, q + 3) == string_end(s, q + 4));
            assert(string_end(s, q + 2) == string_end(s, q + 3));
            assert(string_end(s, q) == string_end(s, q + 2));
            assert((c / 16) as int * 16 + (c % 16) as int == c as int) by (nonlinear_arith);
            assert(hex4(s, q + 2) == c as int);
            assert(utf16_literal(s, q, end) == Some((6int, seq![c])));
            assert(unescape(s, q, end) == Ok::<Seq<u8>, int>(seq![c] + rest));
        } else {
            assert(h.len() == 1);
            assert(s[q] == c);
            assert(unescape(s, q, end) == Ok::<Seq<u8>, int>(seq![c] + rest));
        }
    }
}

/// Printing one string then reading it back: the quoted text that
/// `print_string_ptr` writes for `v`, found at `off` in any text, is read by
/// `parse_string` as `v` up to its first NUL (an absent string as empty),
/// the read ending just after the closing quote.
pub proof fn law_printed_string_reads_back(s: Seq<u8>, off: int, v: Option<Seq<u8>>)
    requires
        string_piece(v) matches Some((p, _)) && 0 <= off && off + p.len() <= s.len() && s.subrange(off, off + p.len()) == p,
    ensures
        string_piece(v) matches Some((p, _)) && spec_parse_string(s, off) == PStr::Done(off + p.len(), cstr(text_or_empty(v))),
{
    let t = cstr(text_or_empty(v));
    crate::text::lemma_cstr_no_nul(text_or_empty(v));
    let p = string_piece(v).unwrap().0;
    let e = escaped(t);
    assert(p =~= seq![34u8] + e + seq![34u8]) by {
        if v is None {
            crate::text::lemma_nul_index_unique(Seq::<u8>::empty(), 0);
            assert(t =~= Seq::<u8>::empty());
            assert(e =~= Seq::<u8>::empty());
        }
    }
    assert(s[off] == s.subrange(off, off + p.len())[0]);
    assert(s[off] == 34);
    assert(p.subrange(1, 1 + e.len() as int) =~= e);
    assert(s.subrange(off + 1, off + 1 + e.len()) =~= p.subrange(1, 1 + e.len() as int));
    assert(s[off + 1 + e.len()] == s.subrange(off, off + p.len())[1 + e.len() as int]);
    assert(s[off + 1 + e.len()] == p[1 + e.len() as int]);
    lemma_escaped_reads(s, off + 1, t);
    crate::text::lemma_cstr_of_no_nul(t);
}


// ---------------------------------------------------------------------------
// What printed text is made of.
// ---------------------------------------------------------------------------

/// Whether a tree holds no raw node where the printer writes values.
pub open spec fn no_raw(n: JsonNode) -> bool
    decreases n, 1int,
{
    let t = type_byte(n.type_);
    &&& t != CJSON_RAW
    &&& (t == CJSON_ARRAY || t == CJSON_OBJECT) ==> no_raw_items(n.child)
}

pub open spec fn no_raw_items(s: Seq<JsonNode>) -> bool
    decreases s, 0int,
{
    s.len() == 0 || (no_raw(s[0]) && no_raw_items(s.subrange(1, s.len() as int)))
}

/// The bytes a printed value can start with.
pub open spec fn value_start(b: u8) -> bool {
    b == 110 || b == 102 || b == 116 || b == 34 || b == 45 || is_digit(b) || b == 91 || b == 123
}

proof fn lemma_escaped_no_nul(t: Seq<u8>)
    requires
        no_nul(t),
    ensures
        no_nul(escaped(t)),
    decreases t.len(),
{
    if t.len() > 0 {
        assert(no_nul(t.drop_last())) by {
            assert forall|i: int| 0 <= i < t.drop_last().len() implies t.drop_last()[i] != 0 by {
                assert(t.drop_last()[i] == t[i]);
            }
        }
        lemma_escaped_no_nul(t.drop_last());
        let c = t.last();
        assert(c != 0);
        let h = escape_byte(c);
        if c < 32 && !(c == 8 || c == 12 || c == 10 || c == 13 || c == 9) {
            lemma_hex_lower(c / 16);
            lemma_hex_lower(c % 16);
        }
        let e0 = escaped(t.drop_last());
        assert forall|i: int| 0 <= i < escaped(t).len() implies escaped(t)[i] != 0 by {
            if i < e0.len() {
                assert(escaped(t)[i] == e0[i]);
            } else {
                assert(escaped(t)[i] == h[i - e0.len()]);
            }
        }
    }
}

proof fn lemma_no_nul_concat(a: Seq<u8>, b: Seq<u8>)
    requires
        no_nul(a),
        no_nul(b),
    ensures
        no_nul(a + b),
{
    assert forall|i: int| 0 <= i < (a + b).len() implies (a + b)[i] != 0 by {
        if i < a.len() {
            assert((a + b)[i] == a[i]);
        } else {
            assert((a + b)[i] == b[i - a.len()]);
        }
    }
}

proof fn lemma_string_piece_shape(v: Option<Seq<u8>>)
    ensures
        string_piece(v) matches Some((p, _)) && p.len() >= 2 && p[0] == 34 && no_nul(p),
{
    let t = cstr(text_or_empty(v));
    crate::text::lemma_cstr_no_nul(text_or_empty(v));
    lemma_escaped_no_nul(t);
    let e = escaped(t);
    let p = string_piece(v).unwrap().0;
    if v is None {
        assert(p =~= seq![34u8, 34u8]);
    } else {
        lemma_no_nul_concat(seq![34u8], e);
        lemma_no_nul_concat(seq![34u8] + e, seq![34u8]);
    }
}

proof fn lemma_tabs_no_nul(k: nat)
    ensures
        no_nul(tabs(k)),
        forall|i: int| 0 <= i < k ==> #[trigger] tabs(k)[i] == 9,
{
}

/// A printed value is not empty, starts like a value, and holds no NUL.
proof fn lemma_value_shape(n: JsonNode, depth: int, c: PrintCtx)
    requires
        no_raw(n),
        pr_value(n, depth, c) is Some,
    ensures
        pr_value(n, depth, c) matches Some((p, _)) && p.len() >= 1 && value_start(p[0]) && no_nul(p),
    decreases n, 1int,
{
    let t = type_byte(n.type_);
    let p = pr_value(n, depth, c).unwrap().0;
    if t == CJSON_NUMBER {
        if !dbl_special(n.valuedouble) {
            lemma_number_text_reads(n.valuedouble, n.valueint, c.dec, c.close);
            assert forall|i: int| 0 <= i < p.len() implies p[i] != 0 by {
                assert(is_num_char(p[i]));
            }
        }
    } else if t == CJSON_STRING {
        lemma_string_piece_shape(n.valuestring);
    } else if t == CJSON_ARRAY {
        let ip = pr_items(n.child, depth + 1, c).unwrap().0;
        lemma_items_shape(n.child, depth + 1, c);
        assert(p =~= seq![91u8] + ip + seq![93u8]);
        lemma_no_nul_concat(seq![91u8], ip);
        lemma_no_nul_concat(seq![91u8] + ip, seq![93u8]);
    } else if t == CJSON_OBJECT {
        let mp = pr_members(n.child, depth + 1, c).unwrap().0;
        lemma_members_shape(n.child, depth + 1, c);
        let open: Seq<u8> = if c.fmt { seq![123u8, 10u8] } else { seq![123u8] };
        let close: Seq<u8> = if c.fmt { tabs(depth as nat) + seq![125u8] } else { seq![125u8] };
        lemma_tabs_no_nul(depth as nat);
        lemma_no_nul_concat(tabs(depth as nat), seq![125u8]);
        assert(p =~= open + mp + close);
        lemma_no_nul_concat(open, mp);
        lemma_no_nul_concat(open + mp, close);
    }
}

proof fn lemma_items_shape(s: Seq<JsonNode>, depth: int, c: PrintCtx)
    requires
        no_raw_items(s),
        pr_items(s, depth, c) is Some,
    ensures
        pr_items(s, depth, c) matches Some((p, _)) && no_nul(p),
    decreases s, 0int,
{
    if s.len() > 0 {
        lemma_value_shape(s[0], depth, c);
        let rest = s.subrange(1, s.len() as int);
        lemma_items_shape(rest, depth, c);
        let v = pr_value(s[0], depth, c).unwrap().0;
        let r = pr_items(rest, depth, c).unwrap().0;
        let sep: Seq<u8> = if s.len() > 1 { if c.fmt { seq![44u8, 32u8] } else { seq![44u8] } } else { Seq::<u8>::empty() };
        assert(pr_items(s, depth, c).unwrap().0 =~= v + (sep + r));
        lemma_no_nul_concat(sep, r);
        lemma_no_nul_concat(v, sep + r);
    }
}

proof fn lemma_members_shape(s: Seq<JsonNode>, depth: int, c: PrintCtx)
    requires
        no_raw_items(s),
        pr_members(s, depth, c) is Some,
    ensures
        pr_members(s, depth, c) matches Some((p, _)) && no_nul(p),
    decreases s, 1int,
{
    if s.len() > 0 {
        let m = s[0];
        lemma_value_shape(m, depth, c);
        lemma_string_piece_shape(m.string);
        let rest = s.subrange(1, s.len() as int);
        lemma_members_shape(rest, depth, c);
        let indent: Seq<u8> = if c.fmt { tabs(depth as nat) } else { Seq::<u8>::empty() };
        let colon: Seq<u8> = if c.fmt { seq![58u8, 9u8] } else { seq![58u8] };
        let end: Seq<u8> = (if s.len() == 1 { Seq::<u8>::empty() } else { seq![44u8] }) + (if c.fmt {
            seq![10u8]
        } else {
            Seq::<u8>::empty()
        });
        let kp = string_piece(m.string).unwrap().0;
        let v = pr_value(m, depth, c).unwrap().0;
        let r = pr_members(rest, depth, c).unwrap().0;
        assert(pr_member(m, s.len() == 1, depth, c).unwrap().0 =~= indent + (kp + (colon + (v + end))));
        lemma_tabs_no_nul(depth as nat);
        lemma_no_nul_concat(v, end);
        lemma_no_nul_concat(colon, v + end);
        lemma_no_nul_concat(kp, colon + (v + end));
        lemma_no_nul_concat(indent, kp + (colon + (v + end)));
        lemma_no_nul_concat(indent + (kp + (colon + (v + end))), r);
    }
}


// ---------------------------------------------------------------------------
// Reading printed text.
// ---------------------------------------------------------------------------

/// The tree that reading back the printed text of `n` gives: the same
/// shape, with the flags and integer fields that printing drops cleared,
/// strings and keys cut at their first NUL (an absent one read as empty),
/// NaN and the infinities read as `null`, and every other number read back
/// from its printed text by `c.dec`.
pub open spec fn reread(n: JsonNode, c: PrintCtx) -> JsonNode
    decreases n, 1int,
{
    let t = type_byte(n.type_);
    if t == CJSON_NULL {
        node_of_type(CJSON_NULL)
    } else if t == CJSON_FALSE {
        node_of_type(CJSON_FALSE)
    } else if t == CJSON_TRUE {
        true_node()
    } else if t == CJSON_NUMBER {
        if dbl_special(n.valuedouble) {
            node_of_type(CJSON_NULL)
        } else {
            number_node((c.dec)(number_text(n.valuedouble, n.valueint, c.dec, c.close).unwrap()))
        }
    } else if t == CJSON_STRING {
        string_node(cstr(text_or_empty(n.valuestring)))
    } else if t == CJSON_ARRAY {
        container_node(CJSON_ARRAY, reread_items(n.child, c))
    } else {
        container_node(CJSON_OBJECT, reread_members(n.child, c))
    }
}

pub open spec fn reread_items(s: Seq<JsonNode>, c: PrintCtx) -> Seq<JsonNode>
    decreases s, 0int,
{
    if s.len() == 0 {
        Seq::empty()
    } else {
        seq![reread(s[0], c)] + reread_items(s.subrange(1, s.len() as int), c)
    }
}

pub open spec fn reread_members(s: Seq<JsonNode>, c: PrintCtx) -> Seq<JsonNode>
    decreases s, 0int,
{
    if s.len() == 0 {
        Seq::empty()
    } else {
        seq![member_node(cstr(text_or_empty(s[0].string)), reread(s[0], c))] + reread_members(
            s.subrange(1, s.len() as int),
            c,
        )
    }
}

proof fn lemma_ws_to(s: Seq<u8>, i: int, j: int)
    requires
        0 <= i <= j < s.len(),
        forall|m: int| i <= m < j ==> #[trigger] s[m] <= 32,
        s[j] > 32,
    ensures
        ws_end(s, i) == j,
        skip_ws(s, i) == j,
    decreases j - i,
{
    if i < j {
        assert(s[i] <= 32);
        lemma_ws_to(s, i + 1, j);
    }
}

proof fn lemma_ws_shift(s: Seq<u8>, i: int, e: int)
    requires
        0 <= i <= e <= s.len(),
        forall|m: int| i <= m < e ==> #[trigger] s[m] <= 32,
    ensures
        ws_end(s, i) == ws_end(s, e),
    decreases e - i,
{
    if i < e {
        assert(s[i] <= 32);
        lemma_ws_shift(s, i + 1, e);
    }
}

/// The printed text of a value, followed by a byte that cannot continue a
/// number, reads back as `reread(n, c)` and ends where the text ends.
#[verifier::rlimit(40)]
proof fn lemma_value_reads(s: Seq<u8>, off: int, n: JsonNode, depth: int, c: PrintCtx)
    requires
        0 <= depth,
        no_raw(n),
        pr_value(n, depth, c) matches Some((p, _)) && 0 <= off && off + p.len() < s.len() && s.subrange(off, off + p.len()) == p
            && !is_num_char(s[off + p.len()]),
    ensures
        pr_value(n, depth, c) matches Some((p, _)) && spec_parse_value(s, off, depth, c.dec) == PValue::Done(off + p.len(), reread(n, c)),
    decreases n, 2int,
{
    let t = type_byte(n.type_);
    let p = pr_value(n, depth, c).unwrap().0;
    lemma_value_shape(n, depth, c);
    assert forall|k: int| 0 <= k < p.len() implies s[off + k] == #[trigger] p[k] by {
        assert(s.subrange(off, off + p.len())[k] == s[off + k]);
    }
    assert(s[off] == p[0]);
    if t == CJSON_NULL {
        assert(matches_at(s, off, lit_null()));
    } else if t == CJSON_FALSE {
        assert(!matches_at(s, off, lit_null()));
        assert(matches_at(s, off, lit_false()));
    } else if t == CJSON_TRUE {
        assert(!matches_at(s, off, lit_null()));
        assert(!matches_at(s, off, lit_false()));
        assert(matches_at(s, off, lit_true()));
    } else if t == CJSON_NUMBER {
        if dbl_special(n.valuedouble) {
            assert(matches_at(s, off, lit_null()));
        } else {
            lemma_number_text_reads(n.valuedouble, n.valueint, c.dec, c.close);
            assert(!matches_at(s, off, lit_null()));
            assert(!matches_at(s, off, lit_false()));
            assert(!matches_at(s, off, lit_true()));
            assert forall|k: int| off <= k < off + p.len() implies is_num_char(#[trigger] s[k]) by {
                assert(s[k] == p[k - off]);
            }
            lemma_num_span_exact(s, off, p.len() as int);
            assert(s.subrange(off, off + p.len()) == p);
        }
    } else if t == CJSON_STRING {
        assert(!matches_at(s, off, lit_null()));
        assert(!matches_at(s, off, lit_false()));
        assert(!matches_at(s, off, lit_true()));
        law_printed_string_reads_back(s, off, n.valuestring);
    } else if t == CJSON_ARRAY {
        assert(!matches_at(s, off, lit_null()));
        assert(!matches_at(s, off, lit_false()));
        assert(!matches_at(s, off, lit_true()));
        lemma_array_reads(s, off, n, depth, c);
    } else {
        assert(t == CJSON_OBJECT);
        assert(!matches_at(s, off, lit_null()));
        assert(!matches_at(s, off, lit_false()));
        assert(!matches_at(s, off, lit_true()));
        lemma_object_reads(s, off, n, depth, c);
    }
}

#[verifier::rlimit(40)]
proof fn lemma_array_reads(s: Seq<u8>, off: int, n: JsonNode, depth: int, c: PrintCtx)
    requires
        0 <= depth,
        no_raw(n),
        type_byte(n.type_) == CJSON_ARRAY,
        pr_value(n, depth, c) matches Some((p, _)) && 0 <= off && off + p.len() < s.len() && s.subrange(off, off + p.len()) == p,
    ensures
        pr_value(n, depth, c) matches Some((p, _)) && crate::parse::spec_parse_array(s, off, depth, c.dec) == PValue::Done(off + p.len(), reread(n, c)),
    decreases n, 1int,
{
    let p = pr_value(n, depth, c).unwrap().0;
    assert forall|k: int| 0 <= k < p.len() implies s[off + k] == #[trigger] p[k] by {
        assert(s.subrange(off, off + p.len())[k] == s[off + k]);
    }
    let ip = pr_items(n.child, depth + 1, c).unwrap().0;
    assert(p =~= seq![91u8] + ip + seq![93u8]);
    assert(s[off] == p[0]);
    assert(s[off] == 91);
    if n.child.len() == 0 {
        assert(ip.len() == 0);
        assert(p[1] == 93);
        assert(s[off + 1] == 93);
        lemma_ws_to(s, off + 1, off + 1);
        assert(reread_items(n.child, c) =~= Seq::<JsonNode>::empty());
        assert(container_node(CJSON_ARRAY, Seq::<JsonNode>::empty()) == reread(n, c));
    } else {
        lemma_value_shape(n.child[0], depth + 1, c);
        let v0 = pr_value(n.child[0], depth + 1, c).unwrap().0;
        assert(ip[0] == v0[0]);
        assert(p[1] == ip[0]);
        assert(s[off + 1] == ip[0]);
        lemma_ws_to(s, off + 1, off + 1);
        assert forall|k: int| 0 <= k < ip.len() implies s[off + 1 + k] == #[trigger] ip[k] by {
            assert(p[1 + k] == ip[k]);
        }
        assert(s.subrange(off + 1, off + 1 + ip.len()) =~= ip);
        assert(p[1 + ip.len() as int] == 93);
        assert(s[off + 1 + ip.len()] == 93);
        lemma_items_reads(s, off, off + 1, n.child, depth + 1, c);
    }
}

#[verifier::rlimit(60)]
proof fn lemma_object_reads(s: Seq<u8>, off: int, n: JsonNode, depth: int, c: PrintCtx)
    requires
        0 <= depth,
        no_raw(n),
        type_byte(n.type_) == CJSON_OBJECT,
        pr_value(n, depth, c) matches Some((p, _)) && 0 <= off && off + p.len() < s.len() && s.subrange(off, off + p.len()) == p,
    ensures
        pr_value(n, depth, c) matches Some((p, _)) && crate::parse::spec_parse_object(s, off, depth, c.dec) == PValue::Done(off + p.len(), reread(n, c)),
    decreases n, 1int,
{
    let p = pr_value(n, depth, c).unwrap().0;
    assert forall|k: int| 0 <= k < p.len() implies s[off + k] == #[trigger] p[k] by {
        assert(s.subrange(off, off + p.len())[k] == s[off + k]);
    }
    let mp = pr_members(n.child, depth + 1, c).unwrap().0;
    let open: Seq<u8> = if c.fmt { seq![123u8, 10u8] } else { seq![123u8] };
    let close: Seq<u8> = if c.fmt { tabs(depth as nat) + seq![125u8] } else { seq![125u8] };
    assert(p =~= open + mp + close);
    assert(p[0] == 123);
    assert(s[off] == 123);
    let e = off + open.len() + mp.len();
    let j = off + p.len() - 1;
    assert(p[p.len() - 1] == close[close.len() - 1]);
    assert(s[j] == p[p.len() - 1]);
    assert(s[j] == 125);
    assert forall|m: int| e <= m < j implies #[trigger] s[m] <= 32 by {
        assert(s[m] == p[m - off]);
        assert(p[m - off] == close[m - e]);
        lemma_tabs_no_nul(depth as nat);
    }
    lemma_ws_to(s, e, j);
    if n.child.len() == 0 {
        assert(mp.len() == 0);
        if c.fmt {
            assert(p[1] == 10);
            assert(s[off + 1] == 10);
        }
        assert forall|m: int| off + 1 <= m < e implies #[trigger] s[m] <= 32 by {
            assert(s[m] == p[m - off]);
        }
        lemma_ws_shift(s, off + 1, e);
        assert(skip_ws(s, off + 1) == j);
        assert(reread_members(n.child, c) =~= Seq::<JsonNode>::empty());
    } else {
        let q0 = off + open.len();
        let ind: int = if c.fmt { depth + 1 } else { 0 };
        lemma_members_first(n.child, depth + 1, c);
        let k0 = q0 + ind;
        assert(p[open.len() + ind] == mp[ind]);
        assert(s[k0] == mp[ind]);
        assert forall|m: int| off + 1 <= m < k0 implies #[trigger] s[m] <= 32 by {
            assert(s[m] == p[m - off]);
            if m >= q0 {
                assert(p[m - off] == mp[m - q0]);
            }
        }
        lemma_ws_to(s, off + 1, k0);
        assert forall|k: int| 0 <= k < mp.len() implies s[q0 + k] == #[trigger] mp[k] by {
            assert(p[open.len() + k] == mp[k]);
        }
        assert(s.subrange(q0, q0 + mp.len()) =~= mp);
        lemma_members_reads(s, k0 - 1, q0, n.child, depth + 1, c);
    }
}

proof fn lemma_num_span_exact(s: Seq<u8>, off: int, len: int)
    requires
        0 <= off,
        0 <= len,
        off + len < s.len(),
        forall|k: int| off <= k < off + len ==> is_num_char(#[trigger] s[k]),
        !is_num_char(s[off + len]),
    ensures
        num_span(s, off) == len,
    decreases len,
{
    if len > 0 {
        assert(is_num_char(s[off]));
        lemma_num_span_exact(s, off + 1, len - 1);
    }
}

/// The first member of a printed member list starts with its indentation
/// and then its key's opening quote.
proof fn lemma_members_first(kids: Seq<JsonNode>, depth: int, c: PrintCtx)
    requires
        kids.len() >= 1,
        0 <= depth,
        pr_members(kids, depth, c) is Some,
    ensures
        pr_members(kids, depth, c) matches Some((p, _)) && p.len() > (if c.fmt { depth } else { 0 }) && p[if c.fmt { depth } else { 0 }] == 34
            && forall|m: int| 0 <= m < (if c.fmt { depth } else { 0 }) ==> #[trigger] p[m] == 9,
{
    let m0 = kids[0];
    let rest = kids.subrange(1, kids.len() as int);
    let p = pr_members(kids, depth, c).unwrap().0;
    let ind: int = if c.fmt { depth } else { 0 };
    let indent: Seq<u8> = if c.fmt { tabs(depth as nat) } else { Seq::<u8>::empty() };
    let colon: Seq<u8> = if c.fmt { seq![58u8, 9u8] } else { seq![58u8] };
    let end: Seq<u8> = (if kids.len() == 1 { Seq::<u8>::empty() } else { seq![44u8] }) + (if c.fmt {
        seq![10u8]
    } else {
        Seq::<u8>::empty()
    });
    let kp = string_piece(m0.string).unwrap().0;
    let v = pr_value(m0, depth, c).unwrap().0;
    let r = pr_members(rest, depth, c).unwrap().0;
    let mt = pr_member(m0, kids.len() == 1, depth, c).unwrap().0;
    assert(mt =~= indent + (kp + (colon + (v + end))));
    assert(p =~= mt + r);
    lemma_string_piece_shape(m0.string);
    lemma_tabs_no_nul(depth as nat);
    assert(indent.len() == ind);
    assert(p[ind] == kp[0]);
    assert forall|m: int| 0 <= m < ind implies #[trigger] p[m] == 9 by {
        assert(p[m] == indent[m]);
    }
}


/// Printed array elements, after the `[` or `,` at `c0` and whitespace up to
/// `q0`, and followed by `]`, read back as the reread elements.
#[verifier::rlimit(80)]
proof fn lemma_items_reads(s: Seq<u8>, c0: int, q0: int, kids: Seq<JsonNode>, depth: int, c: PrintCtx)
    requires
        1 <= depth <= 1000,
        kids.len() >= 1,
        no_raw_items(kids),
        pr_items(kids, depth, c) matches Some((p, _)) && 0 <= c0 < q0 && q0 + p.len() < s.len() && s.subrange(q0, q0 + p.len()) == p
            && s[q0 + p.len()] == 93,
        forall|m: int| c0 < m < q0 ==> #[trigger] s[m] <= 32,
    ensures
        pr_items(kids, depth, c) matches Some((p, _)) && spec_parse_items(s, c0, depth, c.dec) == PList::Done(q0 + p.len() + 1, reread_items(kids, c)),
    decreases kids, 0int,
{
    let p = pr_items(kids, depth, c).unwrap().0;
    let k0 = kids[0];
    let rest = kids.subrange(1, kids.len() as int);
    let v = pr_value(k0, depth, c).unwrap().0;
    let sep: Seq<u8> = if kids.len() > 1 { if c.fmt { seq![44u8, 32u8] } else { seq![44u8] } } else { Seq::<u8>::empty() };
    let r = pr_items(rest, depth, c).unwrap().0;
    assert(p =~= v + (sep + r));
    lemma_value_shape(k0, depth, c);
    assert forall|k: int| 0 <= k < p.len() implies s[q0 + k] == #[trigger] p[k] by {
        assert(s.subrange(q0, q0 + p.len())[k] == s[q0 + k]);
    }
    assert(p[0] == v[0]);
    assert(s[q0] == v[0]);
    lemma_ws_to(s, c0 + 1, q0);
    assert forall|k: int| 0 <= k < v.len() implies s[q0 + k] == #[trigger] v[k] by {
        assert(p[k] == v[k]);
    }
    assert(s.subrange(q0, q0 + v.len()) =~= v);
    let o2 = q0 + v.len();
    if kids.len() > 1 {
        assert(p[v.len() as int] == 44);
        assert(s[o2] == 44);
        lemma_value_reads(s, q0, k0, depth, c);
        lemma_ws_to(s, o2, o2);
        let q1 = o2 + sep.len();
        assert forall|m: int| o2 < m < q1 implies #[trigger] s[m] <= 32 by {
            assert(s[m] == p[m - q0]);
        }
        assert forall|k: int| 0 <= k < r.len() implies s[q1 + k] == #[trigger] r[k] by {
            assert(p[q1 - q0 + k] == r[k]);
        }
        assert(s.subrange(q1, q1 + r.len()) =~= r);
        assert(q1 + r.len() == q0 + p.len());
        lemma_items_reads(s, o2, q1, rest, depth, c);
    } else {
        assert(rest.len() == 0);
        assert(r.len() == 0);
        assert(o2 == q0 + p.len());
        assert(s[o2] == 93);
        lemma_value_reads(s, q0, k0, depth, c);
        lemma_ws_to(s, o2, o2);
        assert(reread_items(rest, c) =~= Seq::<JsonNode>::empty());
        assert(reread_items(kids, c) =~= seq![reread(k0, c)]);
    }
}

/// The length of what follows a member's value: a comma unless it is the
/// last member, and a line break when indenting.
pub open spec fn member_end_len(last: bool, fmt: bool) -> int {
    (if last { 0int } else { 1int }) + (if fmt { 1int } else { 0int })
}

/// One printed member at `q0`, after the `{` or `,` at `c0` and whitespace:
/// its key, colon and value read back, the value ending just before the
/// member's closing bytes.
#[verifier::rlimit(100)]
#[verifier::spinoff_prover]
proof fn lemma_member_reads(s: Seq<u8>, c0: int, q0: int, m0: JsonNode, last: bool, depth: int, c: PrintCtx)
    requires
        1 <= depth <= 1000,
        no_raw(m0),
        pr_member(m0, last, depth, c) matches Some((mt, _)) && 0 <= c0 && 0 <= q0 && c0 < q0 + (if c.fmt { depth } else { 0 }) && q0 + mt.len() < s.len()
            && s.subrange(q0, q0 + mt.len()) == mt && !is_num_char(s[q0 + mt.len()]),
        forall|m: int| c0 < m < q0 ==> #[trigger] s[m] <= 32,
    ensures
        pr_member(m0, last, depth, c) matches Some((mt, _)) && {
            let k = skip_ws(s, c0 + 1);
            &&& mt.len() >= member_end_len(last, c.fmt)
            &&& forall|m: int| q0 + mt.len() - member_end_len(last, c.fmt) <= m < q0 + mt.len() ==> #[trigger] s[m] == (if !last && m == q0 + mt.len() - member_end_len(last, c.fmt) { 44u8 } else { 10u8 })
            &&& spec_parse_string(s, k) matches PStr::Done(k2, key) && key == cstr(text_or_empty(m0.string)) && 0 <= k2 < s.len()
                && skip_ws(s, k2) == k2 && s[k2] == 58 && c0 < skip_ws(s, k2 + 1) && spec_parse_value(s, skip_ws(s, k2 + 1), depth, c.dec)
                == PValue::Done(q0 + mt.len() - member_end_len(last, c.fmt), reread(m0, c))
        },
    decreases m0, 3int,
{
    let mt = pr_member(m0, last, depth, c).unwrap().0;
    let ind: int = if c.fmt { depth } else { 0 };
    let indent: Seq<u8> = if c.fmt { tabs(depth as nat) } else { Seq::<u8>::empty() };
    let colon: Seq<u8> = if c.fmt { seq![58u8, 9u8] } else { seq![58u8] };
    let end: Seq<u8> = (if last { Seq::<u8>::empty() } else { seq![44u8] }) + (if c.fmt {
        seq![10u8]
    } else {
        Seq::<u8>::empty()
    });
    let kp = string_piece(m0.string).unwrap().0;
    let v = pr_value(m0, depth, c).unwrap().0;
    assert(mt =~= indent + (kp + (colon + (v + end))));
    assert(mt =~= indent + kp + colon + v + end);
    assert(end.len() == member_end_len(last, c.fmt));
    lemma_string_piece_shape(m0.string);
    lemma_value_shape(m0, depth, c);
    lemma_tabs_no_nul(depth as nat);
    assert forall|k: int| 0 <= k < mt.len() implies s[q0 + k] == #[trigger] mt[k] by {
        assert(s.subrange(q0, q0 + mt.len())[k] == s[q0 + k]);
    }
    let k0 = q0 + ind;
    assert(indent.len() == ind);
    assert(mt[ind] == kp[0]);
    assert(s[k0] == 34);
    assert forall|m: int| c0 + 1 <= m < k0 implies #[trigger] s[m] <= 32 by {
        if m >= q0 {
            assert(s[m] == mt[m - q0]);
            assert(mt[m - q0] == indent[m - q0]);
        }
    }
    lemma_ws_to(s, c0 + 1, k0);
    assert forall|k: int| 0 <= k < kp.len() implies s[k0 + k] == #[trigger] kp[k] by {
        assert(mt[ind + k] == kp[k]);
    }
    assert(s.subrange(k0, k0 + kp.len()) =~= kp);
    law_printed_string_reads_back(s, k0, m0.string);
    let k2 = k0 + kp.len();
    assert(mt[k2 - q0] == colon[0]);
    assert(s[k2] == 58);
    lemma_ws_to(s, k2, k2);
    let v0 = k2 + colon.len();
    assert(mt[v0 - q0] == v[0]);
    assert(s[v0] == v[0]);
    if c.fmt {
        assert(mt[k2 + 1 - q0] == 9);
        assert(s[k2 + 1] == 9);
    }
    lemma_ws_to(s, k2 + 1, v0);
    let v2 = v0 + v.len();
    let e = q0 + mt.len();
    assert forall|k: int| 0 <= k < v.len() implies s[v0 + k] == #[trigger] v[k] by {
        assert(mt[v0 - q0 + k] == v[k]);
    }
    assert(s.subrange(v0, v2) =~= v);
    assert(!is_num_char(s[v2])) by {
        if end.len() > 0 {
            assert(mt[v2 - q0] == end[0]);
            assert(s[v2] == end[0]);
        } else {
            assert(v2 == e);
        }
    }
    lemma_value_reads(s, v0, m0, depth, c);
    assert(v2 == e - end.len());
    assert forall|m: int| e - end.len() <= m < e implies #[trigger] s[m] == (if !last && m == e - end.len() { 44u8 } else { 10u8 }) by {
        assert(s[m] == mt[m - q0]);
        assert(mt[m - q0] == end[m - v2]);
    }
}

/// Printed object members, after the `{` or `,` at `c0` and whitespace up
/// to `q0`, and followed by whitespace and `}`, read back as the reread
/// members.
#[verifier::rlimit(60)]
proof fn lemma_members_reads(s: Seq<u8>, c0: int, q0: int, kids: Seq<JsonNode>, depth: int, c: PrintCtx)
    requires
        1 <= depth <= 1000,
        kids.len() >= 1,
        no_raw_items(kids),
        pr_members(kids, depth, c) matches Some((p, _)) && 0 <= c0 && 0 <= q0 && c0 < q0 + (if c.fmt { depth } else { 0 }) && q0 + p.len() < s.len()
            && s.subrange(q0, q0 + p.len()) == p && ws_end(s, q0 + p.len()) < s.len() && s[ws_end(s, q0 + p.len())] == 125,
        forall|m: int| c0 < m < q0 ==> #[trigger] s[m] <= 32,
    ensures
        pr_members(kids, depth, c) matches Some((p, _)) && spec_parse_members(s, c0, depth, c.dec) == PList::Done(
            ws_end(s, q0 + p.len()) + 1,
            reread_members(kids, c),
        ),
    decreases kids, 0int,
{
    let p = pr_members(kids, depth, c).unwrap().0;
    let m0 = kids[0];
    let last = kids.len() == 1;
    let rest = kids.subrange(1, kids.len() as int);
    let mt = pr_member(m0, last, depth, c).unwrap().0;
    let r = pr_members(rest, depth, c).unwrap().0;
    assert(p =~= mt + r);
    let e = q0 + p.len();
    let me = q0 + mt.len();
    assert forall|k: int| 0 <= k < mt.len() implies s[q0 + k] == #[trigger] mt[k] by {
        assert(s.subrange(q0, q0 + p.len())[k] == s[q0 + k]);
        assert(p[k] == mt[k]);
    }
    assert(s.subrange(q0, me) =~= mt);
    assert(!is_num_char(s[me])) by {
        if last {
            assert(me == e);
            if s[e] > 32 {
                assert(ws_end(s, e) == e);
            }
        } else {
            lemma_members_first(rest, depth, c);
            assert(r.len() >= 1);
            assert(s[me] == s.subrange(q0, q0 + p.len())[mt.len() as int]);
            assert(p[mt.len() as int] == r[0]);
            if c.fmt {
                assert(r[0] == 9);
            }
        }
    }
    lemma_member_reads(s, c0, q0, m0, last, depth, c);
    let v2 = me - member_end_len(last, c.fmt);
    if !last {
        assert(s[v2] == 44);
        lemma_ws_to(s, v2, v2);
        assert forall|m: int| v2 < m < me implies #[trigger] s[m] <= 32 by {
            assert(s[m] == 10u8);
        }
        assert forall|k: int| 0 <= k < r.len() implies s[me + k] == #[trigger] r[k] by {
            assert(s.subrange(q0, q0 + p.len())[mt.len() + k] == s[me + k]);
            assert(p[mt.len() + k] == r[k]);
        }
        assert(s.subrange(me, me + r.len()) =~= r);
        assert(me + r.len() == e);
        lemma_no_raw_rest(kids);
        lemma_members_reads(s, v2, me, rest, depth, c);
    } else {
        assert(rest.len() == 0);
        assert(r.len() == 0);
        assert(me == e);
        assert forall|m: int| v2 <= m < e implies #[trigger] s[m] <= 32 by {
            assert(s[m] == 10u8);
        }
        lemma_ws_shift(s, v2, e);
        assert(reread_members(rest, c) =~= Seq::<JsonNode>::empty());
        assert(reread_members(kids, c) =~= seq![member_node(cstr(text_or_empty(m0.string)), reread(m0, c))]);
    }
}

proof fn lemma_no_raw_rest(kids: Seq<JsonNode>)
    requires
        kids.len() >= 1,
        no_raw_items(kids),
    ensures
        no_raw(kids[0]),
        no_raw_items(kids.subrange(1, kids.len() as int)),
{
}

/// Reading back printed text: when a tree without raw nodes prints (with or
/// without indentation) to some text, parsing that text as a C string gives
/// `reread(n, c)` and stops at the end of the text, whether or not a
/// terminating NUL is required.
pub proof fn law_print_then_parse(n: JsonNode, c: PrintCtx)
    requires
        no_raw(n),
        print_spec(n, c) is Some,
    ensures
        spec_parse_document(c_text(print_spec(n, c).unwrap()), false, c.dec) == Ok::<(JsonNode, int), int>(
            (reread(n, c), print_spec(n, c).unwrap().len() as int),
        ),
        spec_parse_document(c_text(print_spec(n, c).unwrap()), true, c.dec) == Ok::<(JsonNode, int), int>(
            (reread(n, c), print_spec(n, c).unwrap().len() as int),
        ),
{
    let t = print_spec(n, c).unwrap();
    lemma_value_shape(n, 0, c);
    crate::text::lemma_cstr_of_no_nul(t);
    let s = c_text(t);
    assert(s =~= t.push(0));
    assert(s[0] == t[0]);
    assert(bom_end(s) == 0);
    lemma_ws_to(s, 0, 0);
    assert(s.subrange(0, t.len() as int) =~= t);
    assert(s[t.len() as int] == 0);
    lemma_value_reads(s, 0, n, 0, c);
    assert(ws_end(s, t.len() + 1int) == t.len() + 1);
    assert(ws_end(s, t.len() as int) == t.len() + 1);
    assert(skip_ws(s, t.len() as int) == t.len());
}


proof fn lemma_reread_fmt(n: JsonNode, c: PrintCtx, d: PrintCtx)
    requires
        c.dec == d.dec,
        c.close == d.close,
    ensures
        reread(n, c) == reread(n, d),
    decreases n, 1int,
{
    lemma_reread_items_fmt(n.child, c, d);
    lemma_reread_members_fmt(n.child, c, d);
}

proof fn lemma_reread_items_fmt(s: Seq<JsonNode>, c: PrintCtx, d: PrintCtx)
    requires
        c.dec == d.dec,
        c.close == d.close,
    ensures
        reread_items(s, c) == reread_items(s, d),
    decreases s, 0int,
{
    if s.len() > 0 {
        lemma_reread_fmt(s[0], c, d);
        lemma_reread_items_fmt(s.subrange(1, s.len() as int), c, d);
    }
}

proof fn lemma_reread_members_fmt(s: Seq<JsonNode>, c: PrintCtx, d: PrintCtx)
    requires
        c.dec == d.dec,
        c.close == d.close,
    ensures
        reread_members(s, c) == reread_members(s, d),
    decreases s, 0int,
{
    if s.len() > 0 {
        lemma_reread_fmt(s[0], c, d);
        lemma_reread_members_fmt(s.subrange(1, s.len() as int), c, d);
    }
}

/// The indented and the compact text of a tree without raw nodes read back
/// as the same tree, when both print.
pub proof fn law_formatting_reads_the_same(n: JsonNode, c: PrintCtx, d: PrintCtx)
    requires
        no_raw(n),
        c.dec == d.dec,
        c.close == d.close,
        print_spec(n, c) is Some,
        print_spec(n, d) is Some,
    ensures
        spec_parse_document(c_text(print_spec(n, c).unwrap()), false, c.dec) matches Ok((x, _))
            && spec_parse_document(c_text(print_spec(n, d).unwrap()), false, d.dec) matches Ok((y, _)) && x == y,
{
    law_print_then_parse(n, c);
    law_print_then_parse(n, d);
    lemma_reread_fmt(n, c, d);
}


// ---------------------------------------------------------------------------
// Comparing what is read back with what was printed.
// ---------------------------------------------------------------------------

/// A finite number whose printed text `c.dec` reads back as a double that
/// `close` accepts as equal to it, both ways round.
pub open spec fn number_reads_back(n: JsonNode, c: PrintCtx, close: spec_fn(u64, u64) -> bool) -> bool {
    let v = n.valuedouble;
    let back = (c.dec)(number_text(v, n.valueint, c.dec, c.close).unwrap());
    &&& !dbl_special(v)
    &&& close(back, v)
    &&& close(v, back)
}

/// What `cjson_compare` needs of a tree to judge the tree read back from
/// its printed text equal to it: every node has a known type other than
/// raw, every number reads back as one `close` accepts, every string has
/// its text, and every object member has a key that no other member of
/// its object matches (ASCII case folded unless `cs`).
pub open spec fn reads_back_equal(n: JsonNode, c: PrintCtx, cs: bool, close: spec_fn(u64, u64) -> bool) -> bool
    decreases n, 1int,
{
    let t = type_byte(n.type_);
    &&& known_type(t)
    &&& t != CJSON_RAW
    &&& t == CJSON_NUMBER ==> number_reads_back(n, c, close)
    &&& t == CJSON_STRING ==> n.valuestring is Some
    &&& (t == CJSON_ARRAY || t == CJSON_OBJECT) ==> all_read_back_equal(n.child, c, cs, close)
    &&& t == CJSON_OBJECT ==> distinct_keys(n.child, cs)
}

pub open spec fn all_read_back_equal(s: Seq<JsonNode>, c: PrintCtx, cs: bool, close: spec_fn(u64, u64) -> bool) -> bool
    decreases s, 0int,
{
    s.len() == 0 || (reads_back_equal(s[0], c, cs, close) && all_read_back_equal(s.subrange(1, s.len() as int), c, cs, close))
}

proof fn lemma_read_back_at(s: Seq<JsonNode>, c: PrintCtx, cs: bool, close: spec_fn(u64, u64) -> bool, i: int)
    requires
        all_read_back_equal(s, c, cs, close),
        0 <= i < s.len(),
    ensures
        reads_back_equal(s[i], c, cs, close),
    decreases i,
{
    if i > 0 {
        lemma_read_back_at(s.subrange(1, s.len() as int), c, cs, close, i - 1);
        assert(s.subrange(1, s.len() as int)[i - 1] == s[i]);
    }
}

proof fn lemma_reread_items_at(s: Seq<JsonNode>, c: PrintCtx)
    ensures
        reread_items(s, c).len() == s.len(),
        forall|i: int| 0 <= i < s.len() ==> #[trigger] reread_items(s, c)[i] == reread(s[i], c),
    decreases s.len(),
{
    if s.len() > 0 {
        let rest = s.subrange(1, s.len() as int);
        lemma_reread_items_at(rest, c);
        assert forall|i: int| 0 <= i < s.len() implies #[trigger] reread_items(s, c)[i] == reread(s[i], c) by {
            if i > 0 {
                assert(rest[i - 1] == s[i]);
            }
        }
    }
}

proof fn lemma_reread_members_at(s: Seq<JsonNode>, c: PrintCtx)
    ensures
        reread_members(s, c).len() == s.len(),
        forall|i: int| 0 <= i < s.len() ==> #[trigger] reread_members(s, c)[i] == member_node(cstr(text_or_empty(s[i].string)), reread(s[i], c)),
    decreases s.len(),
{
    if s.len() > 0 {
        let rest = s.subrange(1, s.len() as int);
        lemma_reread_members_at(rest, c);
        assert forall|i: int| 0 <= i < s.len() implies #[trigger] reread_members(s, c)[i] == member_node(cstr(text_or_empty(s[i].string)), reread(s[i], c)) by {
            if i > 0 {
                assert(rest[i - 1] == s[i]);
            }
        }
    }
}

/// Only the key of a member node differs from its value.
proof fn lemma_member_same(k: Seq<u8>, r: JsonNode, x: JsonNode, cs: bool, close: spec_fn(u64, u64) -> bool)
    requires
        same_tree(r, x, cs, close),
        same_tree(x, r, cs, close),
    ensures
        same_tree(member_node(k, r), x, cs, close),
        same_tree(x, member_node(k, r), cs, close),
{
    let m = member_node(k, r);
    assert(node_count(m) == node_count(r));
    assert(m.type_ == r.type_ && m.valuedouble == r.valuedouble && m.valuestring == r.valuestring && m.child == r.child);
    lemma_same_tree_fields(m, r, x, cs, close);
}

/// Comparison reads only the type, number, text and children of a node.
proof fn lemma_same_tree_fields(m: JsonNode, r: JsonNode, x: JsonNode, cs: bool, close: spec_fn(u64, u64) -> bool)
    requires
        m.type_ == r.type_,
        m.valuedouble == r.valuedouble,
        m.valuestring == r.valuestring,
        m.child == r.child,
    ensures
        same_tree(m, x, cs, close) == same_tree(r, x, cs, close),
        same_tree(x, m, cs, close) == same_tree(x, r, cs, close),
{
}

/// The tree read back from the printed text of `n` (see
/// `law_print_then_parse`) and `n` itself compare equal, both ways round,
/// whenever every number of `n` reads back as one that `close` accepts.
pub proof fn law_reread_compares_equal(n: JsonNode, c: PrintCtx, cs: bool, close: spec_fn(u64, u64) -> bool)
    requires
        reads_back_equal(n, c, cs, close),
    ensures
        same_tree(reread(n, c), n, cs, close),
        same_tree(n, reread(n, c), cs, close),
    decreases n,
{
    let r = reread(n, c);
    let t = type_byte(n.type_);
    crate::model::lemma_type_words(n.type_);
    if t == CJSON_STRING {
        let x = n.valuestring.unwrap();
        assert(r.valuestring == Some(cstr(x)));
        crate::text::lemma_str_diff_zero(x, x, false);
        crate::manip::lemma_diff_cstr(x, x, false);
        crate::manip::lemma_diff_cstr(cstr(x), x, false);
    } else if t == CJSON_ARRAY {
        let ks = reread_items(n.child, c);
        lemma_reread_items_at(n.child, c);
        assert(r.child == ks);
        assert forall|i: int| 0 <= i < n.child.len() implies same_tree(#[trigger] n.child[i], ks[i], cs, close)
            && same_tree(ks[i], n.child[i], cs, close) by {
            lemma_read_back_at(n.child, c, cs, close, i);
            law_reread_compares_equal(n.child[i], c, cs, close);
        }
        crate::manip::lemma_elements_same(n.child, ks, 0, cs, close, 0);
        crate::manip::lemma_elements_same(ks, n.child, 0, cs, close, 0);
        assert(n.child.subrange(0, n.child.len() as int) =~= n.child);
        assert(ks.subrange(0, ks.len() as int) =~= ks);
    } else if t == CJSON_OBJECT {
        let kids = n.child;
        let ks = reread_members(kids, c);
        lemma_reread_members_at(kids, c);
        assert(r.child == ks);
        assert forall|i: int| 0 <= i < kids.len() implies same_tree(#[trigger] kids[i], ks[i], cs, close)
            && same_tree(ks[i], kids[i], cs, close) by {
            lemma_read_back_at(kids, c, cs, close, i);
            law_reread_compares_equal(kids[i], c, cs, close);
            lemma_member_same(cstr(text_or_empty(kids[i].string)), reread(kids[i], c), kids[i], cs, close);
        }
        assert forall|i: int| 0 <= i < kids.len() implies (#[trigger] ks[i]).string == Some(cstr(kids[i].string.unwrap())) by {
            assert(kids[i].string is Some);
        }
        assert forall|i: int, j: int|
            0 <= i < ks.len() && 0 <= j < ks.len() && i != j implies c_str_diff(
                (#[trigger] ks[i]).string.unwrap(),
                (#[trigger] ks[j]).string.unwrap(),
                !cs,
            ) != 0 by {
            let a = kids[i].string.unwrap();
            let b = kids[j].string.unwrap();
            crate::manip::lemma_diff_cstr(cstr(a), b, !cs);
            crate::manip::lemma_diff_cstr(b, a, !cs);
            crate::manip::lemma_diff_cstr(a, b, !cs);
            assert(c_str_diff(a, b, !cs) != 0);
        }
        assert(distinct_keys(ks, cs));
        assert forall|i: int| 0 <= i < kids.len() implies find_member(ks, (#[trigger] kids[i]).string.unwrap(), cs) == Some(i) by {
            let k = kids[i].string.unwrap();
            crate::text::lemma_str_diff_zero(k, k, !cs);
            crate::manip::lemma_diff_cstr(k, k, !cs);
            crate::manip::lemma_find_distinct(ks, k, cs, i, 0);
        }
        assert forall|i: int| 0 <= i < ks.len() implies find_member(kids, (#[trigger] ks[i]).string.unwrap(), cs) == Some(i) by {
            let k = kids[i].string.unwrap();
            crate::text::lemma_str_diff_zero(k, k, !cs);
            crate::manip::lemma_diff_cstr(cstr(k), k, !cs);
            crate::manip::lemma_diff_cstr(k, k, !cs);
            crate::manip::lemma_find_distinct(kids, cstr(k), cs, i, 0);
        }
        crate::manip::lemma_members_found_all(kids, ks, cs, close, 0);
        crate::manip::lemma_members_found_all(ks, kids, cs, close, 0);
        assert(kids.subrange(0, kids.len() as int) =~= kids);
        assert(ks.subrange(0, ks.len() as int) =~= ks);
    }
}

} // verus!
