//! Printing a tree as JSON text, formatted or compact, with the buffer
//! limits of the printer: an output whose buffer requests would pass the
//! limit (the fixed size of a caller's buffer, or `INT_MAX` for a growing
//! one) is refused, as is a tree nested deeper than the nesting limit or one
//! holding a node of no known type.
//!
//! Number text needs two operations on doubles that the library leaves to
//! its caller: turning decimal text back into a double (C's `strtod`) and
//! comparing two doubles within a relative epsilon. Both are passed in as functions.

use vstd::prelude::*;
use crate::model::{opt_view, CJson, JsonNode, type_byte, CJSON_NULL, CJSON_FALSE, CJSON_TRUE, CJSON_NUMBER, CJSON_RAW, CJSON_STRING, CJSON_ARRAY, CJSON_OBJECT, CJSON_NESTING_LIMIT};
use crate::number::{dbl_special, dbl_equals_int, double_is_special, double_equals_int};
use crate::float::{g_text, dec_digits, format_g, push_decimal};
use crate::parse::{strtod_len, strtod_prefix_len, decoder_ok, decoder_fn, lemma_decoded};
use crate::text::{cstr, c_string, push_all};

verus! {

pub const INT_MAX: usize = 2147483647;

// ---------------------------------------------------------------------------
// What is printed.
// ---------------------------------------------------------------------------

/// A printed piece: its text and how far past the starting offset its
/// buffer requests reach (the largest `offset + needed + 1` of its calls of
/// `ensure`, less the starting offset). `None` when printing refuses.
pub type Piece = Option<(Seq<u8>, int)>;

/// Nothing printed, nothing requested.
pub open spec fn empty_piece() -> Piece {
    Some((Seq::empty(), 0))
}

/// One request for `needed` bytes, then the text `t` written.
pub open spec fn step(t: Seq<u8>, needed: int) -> Piece {
    Some((t, needed + 1))
}

/// `a` followed by `b`.
pub open spec fn then(a: Piece, b: Piece) -> Piece {
    match (a, b) {
        (Some((ta, na)), Some((tb, nb))) => Some((
            ta + tb,
            if na >= ta.len() + nb {
                na
            } else {
                ta.len() + nb
            },
        )),
        _ => None,
    }
}

/// The decimal text of an `int`, as `printf("%d")` writes it.
pub open spec fn int_text(v: int) -> Seq<u8> {
    if v < 0 {
        seq![45u8] + dec_digits((-v) as nat)
    } else {
        dec_digits(v as nat)
    }
}

/// The text of a number node: `null` for NaN and the infinities, the integer
/// when the double equals `valueint`, else 15 significant digits when those
/// read back (by `dec`) as a double that `close` accepts, else 17. `None`
/// when the text would not fit the printer's 26-byte number buffer.
pub open spec fn number_text(
    bits: u64,
    vi: i32,
    dec: spec_fn(Seq<u8>) -> u64,
    close: spec_fn(u64, u64) -> bool,
) -> Option<Seq<u8>> {
    if dbl_special(bits) {
        Some(seq![110u8, 117u8, 108u8, 108u8])
    } else if dbl_equals_int(bits, vi as int) {
        Some(int_text(vi as int))
    } else {
        let t15 = g_text(bits, 15);
        let back = strtod_len(t15);
        if t15.len() < 26 && back > 0 && close(dec(t15.take(back)), bits) {
            Some(t15)
        } else {
            let t17 = g_text(bits, 17);
            if t17.len() < 26 {
                Some(t17)
            } else {
                None
            }
        }
    }
}

/// The escape of one byte of a string.
pub open spec fn escape_byte(c: u8) -> Seq<u8> {
    if c == 34 {
        seq![92u8, 34u8]
    } else if c == 92 {
        seq![92u8, 92u8]
    } else if c == 8 {
        seq![92u8, 98u8]
    } else if c == 12 {
        seq![92u8, 102u8]
    } else if c == 10 {
        seq![92u8, 110u8]
    } else if c == 13 {
        seq![92u8, 114u8]
    } else if c == 9 {
        seq![92u8, 116u8]
    } else if c < 32 {
        seq![92u8, 117u8, 48u8, 48u8, hex_lower(c / 16), hex_lower(c % 16)]
    } else {
        seq![c]
    }
}

/// A lower-case hex digit.
pub open spec fn hex_lower(v: u8) -> u8 {
    if v < 10 {
        (48 + v) as u8
    } else {
        (87 + v) as u8
    }
}

/// The escaped bytes of a string's contents.
pub open spec fn escaped(s: Seq<u8>) -> Seq<u8>
    decreases s.len(),
{
    if s.len() == 0 {
        Seq::empty()
    } else {
        escaped(s.drop_last()) + escape_byte(s.last())
    }
}

/// A quoted, escaped string; an absent string prints as `""`. The text
/// ends at its first NUL byte.
pub open spec fn string_piece(s: Option<Seq<u8>>) -> Piece {
    match s {
        None => step(seq![34u8, 34u8], 3),
        Some(v) => {
            let body = escaped(cstr(v));
            step(seq![34u8] + body + seq![34u8], body.len() + 3int)
        },
    }
}

/// `k` tab characters.
pub open spec fn tabs(k: nat) -> Seq<u8> {
    Seq::new(k, |i: int| 9u8)
}

/// Everything the printer needs besides the tree: the depth of the node,
/// whether to format, and the number texts.
pub struct PrintCtx {
    pub fmt: bool,
    pub dec: spec_fn(Seq<u8>) -> u64,
    pub close: spec_fn(u64, u64) -> bool,
}

pub open spec fn lit_piece(t: Seq<u8>) -> Piece {
    step(t, t.len() + 1int)
}

/// The printed form of a node at nesting depth `depth`.
pub open spec fn pr_value(n: JsonNode, depth: int, c: PrintCtx) -> Piece
    decreases n, 1int,
{
    let t = type_byte(n.type_);
    if t == CJSON_NULL {
        lit_piece(seq![110u8, 117u8, 108u8, 108u8])
    } else if t == CJSON_FALSE {
        lit_piece(seq![102u8, 97u8, 108u8, 115u8, 101u8])
    } else if t == CJSON_TRUE {
        lit_piece(seq![116u8, 114u8, 117u8, 101u8])
    } else if t == CJSON_NUMBER {
        match number_text(n.valuedouble, n.valueint, c.dec, c.close) {
            Some(s) => step(s, s.len() + 1int),
            None => None,
        }
    } else if t == CJSON_RAW {
        match n.valuestring {
            None => None,
            Some(v) => step(cstr(v), cstr(v).len() + 1int),
        }
    } else if t == CJSON_STRING {
        string_piece(n.valuestring)
    } else if t == CJSON_ARRAY {
        pr_array(n, depth, c)
    } else if t == CJSON_OBJECT {
        pr_object(n, depth, c)
    } else {
        None
    }
}

/// A node's children printed as the elements of an array, whatever the
/// node's type.
pub open spec fn pr_array(n: JsonNode, depth: int, c: PrintCtx) -> Piece
    decreases n, 0int,
{
    if depth >= CJSON_NESTING_LIMIT {
        None
    } else {
        then(step(seq![91u8], 1), then(pr_items(n.child, depth + 1, c), step(seq![93u8], 2)))
    }
}

/// A node's children printed as the members of an object, whatever the
/// node's type.
pub open spec fn pr_object(n: JsonNode, depth: int, c: PrintCtx) -> Piece
    decreases n, 0int,
{
    if depth >= CJSON_NESTING_LIMIT {
        None
    } else {
        let open: Seq<u8> = if c.fmt { seq![123u8, 10u8] } else { seq![123u8] };
        let close: Seq<u8> = if c.fmt { tabs(depth as nat) + seq![125u8] } else { seq![125u8] };
        then(
            step(open, open.len() + 1int),
            then(pr_members(n.child, depth + 1, c), step(close, if c.fmt { depth + 2 } else { 2 })),
        )
    }
}

/// The elements of an array, at depth `depth`, with their separators.
pub open spec fn pr_items(s: Seq<JsonNode>, depth: int, c: PrintCtx) -> Piece
    decreases s, 0int,
{
    if s.len() == 0 {
        empty_piece()
    } else {
        let sep: Seq<u8> = if c.fmt { seq![44u8, 32u8] } else { seq![44u8] };
        then(
            pr_value(s[0], depth, c),
            then(
                if s.len() > 1 { step(sep, sep.len() + 1int) } else { empty_piece() },
                pr_items(s.subrange(1, s.len() as int), depth, c),
            ),
        )
    }
}

/// One member of an object at depth `depth`: indentation, key, colon,
/// value, and the separator or line end.
pub open spec fn pr_member(m: JsonNode, last: bool, depth: int, c: PrintCtx) -> Piece
    decreases m, 2int,
{
    let indent = if c.fmt { step(tabs(depth as nat), depth) } else { empty_piece() };
    let colon: Seq<u8> = if c.fmt { seq![58u8, 9u8] } else { seq![58u8] };
    let end: Seq<u8> = (if last { Seq::<u8>::empty() } else { seq![44u8] }) + (if c.fmt {
        seq![10u8]
    } else {
        Seq::<u8>::empty()
    });
    then(
        indent,
        then(
            string_piece(m.string),
            then(step(colon, colon.len() as int), then(pr_value(m, depth, c), step(end, end.len() + 1int))),
        ),
    )
}

/// The members of an object, at depth `depth`.
pub open spec fn pr_members(s: Seq<JsonNode>, depth: int, c: PrintCtx) -> Piece
    decreases s, 1int,
{
    if s.len() == 0 {
        empty_piece()
    } else {
        then(
            pr_member(s[0], s.len() == 1, depth, c),
            pr_members(s.subrange(1, s.len() as int), depth, c),
        )
    }
}


// ---------------------------------------------------------------------------
// Laws of pieces.
// ---------------------------------------------------------------------------

pub proof fn lemma_then_assoc(a: Piece, b: Piece, c: Piece)
    ensures
        then(a, then(b, c)) == then(then(a, b), c),
{
    match (a, b, c) {
        (Some((ta, na)), Some((tb, nb)), Some((tc, nc))) => {
            assert(ta + (tb + tc) =~= (ta + tb) + tc);
        },
        _ => {},
    }
}

pub proof fn lemma_then_empty(x: Piece)
    requires
        x matches Some((t, n)) ==> n >= 0,
    ensures
        then(empty_piece(), x) == x,
{
    if let Some((t, n)) = x {
        assert(Seq::<u8>::empty() + t =~= t);
    }
}

/// When the pieces before `x` fit and `x` does not, neither does the whole.
pub proof fn lemma_then_fail(acc_t: Seq<u8>, acc_n: int, x: Piece, rest: Piece, room: int)
    requires
        match x {
            Some((tx, nx)) => acc_t.len() + nx > room,
            None => true,
        },
    ensures
        match then(Some((acc_t, acc_n)), then(x, rest)) {
            Some((t, n)) => n > room,
            None => true,
        },
{
}

// ---------------------------------------------------------------------------
// The number functions supplied by the caller.
// ---------------------------------------------------------------------------

/// `c` may be called on any two doubles and gives one answer for each pair.
pub open spec fn closer_ok<C: Fn(u64, u64) -> bool>(c: C) -> bool {
    &&& forall|a: u64, b: u64| #[trigger] call_requires(c, (a, b))
    &&& forall|a: u64, b: u64, r1: bool, r2: bool|
        #[trigger] call_ensures(c, (a, b), r1) && #[trigger] call_ensures(c, (a, b), r2) ==> r1 == r2
}

/// The relation on doubles that `c` computes.
pub open spec fn closer_fn<C: Fn(u64, u64) -> bool>(c: C) -> spec_fn(u64, u64) -> bool {
    |a: u64, b: u64| call_ensures(c, (a, b), true)
}

pub proof fn lemma_closer<C: Fn(u64, u64) -> bool>(c: C, a: u64, b: u64, r: bool)
    requires
        closer_ok(c),
        call_ensures(c, (a, b), r),
    ensures
        closer_fn(c)(a, b) == r,
{
    if !r && closer_fn(c)(a, b) {
        assert(call_ensures(c, (a, b), true));
    }
}

pub open spec fn ctx<D: Fn(&[u8]) -> u64, C: Fn(u64, u64) -> bool>(fmt: bool, d: D, c: C) -> PrintCtx {
    PrintCtx { fmt, dec: decoder_fn(d), close: closer_fn(c) }
}

// ---------------------------------------------------------------------------
// The output buffer.
// ---------------------------------------------------------------------------

/// The printer's state: the text written so far, the write offset (where
/// the next text goes; text past it is written but not yet committed), the
/// size of the buffer, the nesting depth, whether the buffer may grow, and
/// whether to format.
pub struct PrintBuffer {
    pub buffer: Vec<u8>,
    pub offset: usize,
    pub length: usize,
    pub depth: usize,
    pub noalloc: bool,
    pub format: bool,
}

impl PrintBuffer {
    pub open spec fn offset(&self) -> int {
        self.offset as int
    }

    /// How far requests may reach: the buffer's size when it cannot grow,
    /// `INT_MAX` when it can.
    pub open spec fn cap(&self) -> int {
        if self.noalloc {
            self.length as int
        } else {
            INT_MAX as int
        }
    }

    /// The size fits an `int`, and the offset lies inside the buffer.
    pub open spec fn wf(&self) -> bool {
        &&& self.length <= INT_MAX
        &&& self.offset <= self.buffer@.len()
        &&& (self.buffer@.len() < self.length || self.buffer@.len() == 0)
    }

    /// Same depth, format, mode and limit.
    pub open spec fn same_mode(&self, other: &PrintBuffer) -> bool {
        &&& self.depth == other.depth
        &&& self.format == other.format
        &&& self.noalloc == other.noalloc
        &&& (self.noalloc ==> self.length == other.length)
    }
}

/// When `ensure` grants a request for `needed` more bytes.
pub open spec fn ensure_ok(p: PrintBuffer, needed: int) -> bool {
    &&& !(p.length > 0 && p.offset() >= p.length)
    &&& needed <= INT_MAX
    &&& (p.offset() + needed + 1 <= p.length || (!p.noalloc && p.offset() + needed + 1 <= INT_MAX))
}

/// The buffer size after a granted request: unchanged when it fits, else
/// twice the bytes required, or `INT_MAX` past half of it.
pub open spec fn grown_length(p: PrintBuffer, needed: int) -> int {
    let req = p.offset() + needed + 1;
    if req <= p.length {
        p.length as int
    } else if req > INT_MAX / 2 {
        INT_MAX as int
    } else {
        2 * req
    }
}

/// Makes room for `needed` more bytes, growing the buffer when it may.
pub fn ensure(p: &mut PrintBuffer, needed: usize) -> (r: bool)
    requires
        old(p).wf(),
    ensures
        r == ensure_ok(*old(p), needed as int),
        r ==> final(p).length == grown_length(*old(p), needed as int),
        !r ==> final(p).length == old(p).length,
        final(p).buffer@ == old(p).buffer@,
        final(p).offset == old(p).offset,
        final(p).depth == old(p).depth,
        final(p).format == old(p).format,
        final(p).noalloc == old(p).noalloc,
{
    let offset = p.offset;
    if p.length > 0 && offset >= p.length {
        return false;
    }
    if needed > INT_MAX {
        return false;
    }
    let req = needed + offset + 1;
    if req <= p.length {
        return true;
    }
    if p.noalloc {
        return false;
    }
    let newsize: usize;
    if req > INT_MAX / 2 {
        if req <= INT_MAX {
            newsize = INT_MAX;
        } else {
            return false;
        }
    } else {
        newsize = req * 2;
    }
    p.length = newsize;
    true
}

/// With the buffer in order, a request is granted exactly when it stays
/// within the limit.
pub proof fn lemma_ensure_ok(p: PrintBuffer, needed: int)
    requires
        p.wf(),
        needed >= 0,
    ensures
        ensure_ok(p, needed) == (p.offset() + needed + 1 <= p.cap()),
{
}

/// A granted request leaves the buffer large enough for it.
pub proof fn lemma_grown(p: PrintBuffer, needed: int)
    requires
        p.wf(),
        needed >= 0,
        ensure_ok(p, needed),
    ensures
        p.offset() + needed + 1 <= grown_length(p, needed) <= INT_MAX,
        grown_length(p, needed) >= p.length,
        p.noalloc ==> grown_length(p, needed) == p.length,
{
}


/// Printing from `p0` to `p1` with the outcome `r` did what the piece `x`
/// says: it succeeds exactly when `x` is printable and its requests stay
/// within the limit, and then appends its text.
pub open spec fn printed(p0: PrintBuffer, p1: PrintBuffer, x: Piece, r: bool) -> bool {
    &&& r == (match x {
        Some((t, n)) => p0.offset() + n <= p0.cap(),
        None => false,
    })
    &&& r ==> (match x {
        Some((t, n)) => p1.buffer@ == p0.buffer@.take(p0.offset()) + t,
        None => true,
    })
    &&& r ==> p1.wf() && p1.same_mode(&p0)
}

/// The text of a printed piece (empty when it cannot be printed).
pub open spec fn piece_text(x: Piece) -> Seq<u8> {
    match x {
        Some((t, n)) => t,
        None => Seq::empty(),
    }
}

/// Commits what has been written: the write offset moves to its end (the
/// printed texts hold no NUL byte, so this is where `update_offset` would
/// move it).
fn commit(p: &mut PrintBuffer)
    requires
        old(p).wf(),
    ensures
        final(p).offset() == old(p).buffer@.len(),
        final(p).buffer@ == old(p).buffer@,
        final(p).wf(),
        final(p).same_mode(&*old(p)),
        final(p).length == old(p).length,
{
    p.offset = p.buffer.len();
}

/// Moves the write offset past the written text that follows it, up to the
/// first NUL byte.
pub fn update_offset(p: &mut PrintBuffer)
    requires
        old(p).wf(),
    ensures
        final(p).offset() == old(p).offset() + cstr(old(p).buffer@.skip(old(p).offset())).len(),
        final(p).buffer@ == old(p).buffer@,
        final(p).wf(),
        final(p).same_mode(&*old(p)),
        final(p).length == old(p).length,
{
    let ghost tail = p.buffer@.skip(p.offset as int);
    let mut i: usize = p.offset;
    while i < p.buffer.len() && p.buffer[i] != 0
        invariant
            p.offset <= i <= p.buffer@.len(),
            tail == p.buffer@.skip(p.offset as int),
            forall|j: int| p.offset <= j < i ==> p.buffer@[j] != 0,
        decreases p.buffer.len() - i,
    {
        i += 1;
    }
    proof {
        let k = i - p.offset;
        assert forall|j: int| 0 <= j < k implies tail[j] != 0 by {
            assert(tail[j] == p.buffer@[p.offset + j]);
        }
        if i < p.buffer.len() {
            assert(tail[k] == 0);
        }
        crate::text::lemma_nul_index_unique(tail, k);
    }
    p.offset = i;
}

/// Requests `needed` bytes and writes `t`.
fn put(p: &mut PrintBuffer, t: &[u8], needed: usize) -> (r: bool)
    requires
        old(p).wf(),
        t@.len() <= needed,
    ensures
        printed(*old(p), *final(p), step(t@, needed as int), r),
        r ==> final(p).offset == old(p).offset,
{
    proof {
        lemma_ensure_ok(*p, needed as int);
    }
    let ghost p0 = *p;
    if !ensure(p, needed) {
        assert(p.buffer@ == p0.buffer@);
        return false;
    }
    proof {
        lemma_grown(p0, needed as int);
    }
    let off = p.offset;
    p.buffer.truncate(off);
    push_all(&mut p.buffer, t);
    true
}

/// Appends the decimal text of `v`.
pub fn push_int(out: &mut Vec<u8>, v: i32)
    ensures
        final(out)@ == old(out)@ + int_text(v as int),
{
    if v < 0 {
        out.push(45);
        let m: i64 = 0 - (v as i64);
        push_decimal(out, m as u64);
    } else {
        push_decimal(out, v as u64);
    }
    assert(final(out)@ =~= old(out)@ + int_text(v as int));
}

proof fn lemma_int_text_len(v: i32)
    ensures
        int_text(v as int).len() <= 11,
{
    reveal_with_fuel(crate::float::pow10, 11);
    if v < 0 {
        crate::float::lemma_dec_digits_len((-v) as nat, 10);
    } else {
        crate::float::lemma_dec_digits_len(v as nat, 10);
    }
}

/// Prints a number node.
pub fn print_number<D: Fn(&[u8]) -> u64, C: Fn(u64, u64) -> bool>(
    item: &CJson,
    p: &mut PrintBuffer,
    decode: &D,
    close: &C,
) -> (r: bool)
    requires
        old(p).wf(),
        decoder_ok(*decode),
        closer_ok(*close),
    ensures
        printed(
            *old(p),
            *final(p),
            match number_text(item.valuedouble, item.valueint, decoder_fn(*decode), closer_fn(*close)) {
                Some(s) => step(s, s.len() + 1int),
                None => None,
            },
            r,
        ),
        r ==> final(p).offset() == old(p).offset() + piece_text(
            match number_text(item.valuedouble, item.valueint, decoder_fn(*decode), closer_fn(*close)) {
                Some(s) => step(s, s.len() + 1int),
                None => None,
            },
        ).len(),
{
    let bits = item.valuedouble;
    let ghost want = number_text(bits, item.valueint, decoder_fn(*decode), closer_fn(*close));
    let mut nb: Vec<u8> = Vec::new();
    if double_is_special(bits) {
        nb.push(110);
        nb.push(117);
        nb.push(108);
        nb.push(108);
        assert(nb@ =~= want.unwrap());
    } else if double_equals_int(bits, item.valueint) {
        push_int(&mut nb, item.valueint);
        assert(nb@ =~= want.unwrap());
        proof {
            lemma_int_text_len(item.valueint);
        }
    } else {
        format_g(bits, 15, &mut nb);
        assert(nb@ =~= g_text(bits, 15));
        let mut ok = false;
        if nb.len() < 26 {
            let back = strtod_prefix_len(nb.as_slice());
            proof {
                crate::parse::lemma_strtod_len_bounds(nb@);
            }
            if back > 0 {
                let lexeme = &nb[0..back];
                let test = decode(lexeme);
                proof {
                    lemma_decoded(*decode, lexeme, test);
                    assert(lexeme@ =~= nb@.take(back as int));
                }
                ok = close(test, bits);
                proof {
                    if ok {
                        assert(closer_fn(*close)(test, bits));
                    } else {
                        if closer_fn(*close)(test, bits) {
                            assert(call_ensures(*close, (test, bits), true));
                        }
                    }
                }
            }
        }
        if !ok {
            nb = Vec::new();
            format_g(bits, 17, &mut nb);
            assert(nb@ =~= g_text(bits, 17));
            if nb.len() > 25 {
                return false;
            }
        }
        assert(want == Some(nb@));
    }
    if nb.len() > 25 {
        return false;
    }
    let ok = put(p, nb.as_slice(), nb.len() + 1);
    if ok {
        commit(p);
    }
    ok
}

/// Appends the escape of byte `c`.
fn push_escaped(out: &mut Vec<u8>, c: u8)
    ensures
        final(out)@ == old(out)@ + escape_byte(c),
{
    if c == 34 {
        out.push(92);
        out.push(34);
    } else if c == 92 {
        out.push(92);
        out.push(92);
    } else if c == 8 {
        out.push(92);
        out.push(98);
    } else if c == 12 {
        out.push(92);
        out.push(102);
    } else if c == 10 {
        out.push(92);
        out.push(110);
    } else if c == 13 {
        out.push(92);
        out.push(114);
    } else if c == 9 {
        out.push(92);
        out.push(116);
    } else if c < 32 {
        out.push(92);
        out.push(117);
        out.push(48);
        out.push(48);
        let hi = c / 16;
        let lo = c % 16;
        out.push(if hi < 10 { 48 + hi } else { 87 + hi });
        out.push(if lo < 10 { 48 + lo } else { 87 + lo });
    } else {
        out.push(c);
    }
    assert(final(out)@ =~= old(out)@ + escape_byte(c));
}

/// Prints a string (or an absent one as `""`), quoted and escaped, up to
/// its first NUL byte.
pub fn print_string_ptr(s: &Option<Vec<u8>>, p: &mut PrintBuffer) -> (r: bool)
    requires
        old(p).wf(),
    ensures
        printed(*old(p), *final(p), string_piece(opt_view(*s)), r),
        r ==> final(p).offset == old(p).offset,
{
    match s {
        None => {
            let q: [u8; 2] = [34, 34];
            assert(q@ =~= seq![34u8, 34u8]);
            put(p, &q, 3)
        },
        Some(v) => {
            let mut out: Vec<u8> = Vec::new();
            out.push(34);
            let mut i: usize = 0;
            while i < v.len() && v[i] != 0
                invariant
                    i <= v@.len(),
                    forall|j: int| 0 <= j < i ==> v@[j] != 0,
                    out@ == seq![34u8] + escaped(v@.take(i as int)),
                decreases v.len() - i,
            {
                push_escaped(&mut out, v[i]);
                proof {
                    assert(v@.take(i + 1).drop_last() =~= v@.take(i as int));
                }
                i += 1;
                assert(out@ =~= seq![34u8] + escaped(v@.take(i as int)));
            }
            proof {
                crate::text::lemma_nul_index_unique(v@, i as int);
            }
            let body_len = out.len() - 1;
            if body_len > INT_MAX - 3 {
                return false;
            }
            out.push(34);
            assert(out@ =~= seq![34u8] + escaped(cstr(v@)) + seq![34u8]);
            put(p, out.as_slice(), body_len + 3)
        },
    }
}


/// Prints the text of a string node.
pub fn print_string(item: &CJson, p: &mut PrintBuffer) -> (r: bool)
    requires
        old(p).wf(),
    ensures
        printed(*old(p), *final(p), string_piece(item@.valuestring), r),
        r ==> final(p).offset == old(p).offset,
{
    print_string_ptr(&item.valuestring, p)
}

// ---------------------------------------------------------------------------
// Accumulating printed pieces.
// ---------------------------------------------------------------------------

/// Where a printer stands after writing `acc_t` from the state `p0`: the
/// text before `p0`'s offset and then `acc_t`, all committed; or still at
/// `p0` itself, having written nothing.
pub open spec fn at_base(p0: PrintBuffer, before: PrintBuffer, acc_t: Seq<u8>) -> bool {
    ||| before.buffer@ == p0.buffer@.take(p0.offset()) + acc_t && before.offset() == before.buffer@.len()
    ||| before == p0 && acc_t.len() == 0
}

proof fn lemma_at_base(p0: PrintBuffer, before: PrintBuffer, acc_t: Seq<u8>)
    requires
        p0.wf(),
        at_base(p0, before, acc_t),
    ensures
        before.buffer@.take(before.offset()) == p0.buffer@.take(p0.offset()) + acc_t,
        before.offset() == p0.offset() + acc_t.len(),
{
    if before.buffer@ == p0.buffer@.take(p0.offset()) + acc_t && before.offset() == before.buffer@.len() {
        assert(before.buffer@.take(before.offset()) =~= before.buffer@);
    } else {
        assert(p0.buffer@.take(p0.offset()) + acc_t =~= p0.buffer@.take(p0.offset()));
    }
}

proof fn lemma_absorb_ok(p0: PrintBuffer, before: PrintBuffer, after: PrintBuffer, acc_t: Seq<u8>, acc_n: int, x: Piece)
    requires
        p0.wf(),
        at_base(p0, before, acc_t),
        p0.offset() + acc_n <= p0.cap(),
        before.cap() == p0.cap(),
        printed(before, after, x, true),
    ensures
        then(Some((acc_t, acc_n)), x) matches Some((t, n)) && after.buffer@ == p0.buffer@.take(p0.offset()) + t
            && p0.offset() + n <= p0.cap(),
        after.cap() == p0.cap(),
{
    let (tx, nx) = x.unwrap();
    lemma_at_base(p0, before, acc_t);
    assert(after.buffer@ =~= p0.buffer@.take(p0.offset()) + (acc_t + tx));
}

proof fn lemma_absorb_fail(p0: PrintBuffer, before: PrintBuffer, after: PrintBuffer, acc_t: Seq<u8>, acc_n: int, x: Piece, rest: Piece)
    requires
        p0.wf(),
        at_base(p0, before, acc_t),
        before.cap() == p0.cap(),
        printed(before, after, x, false),
    ensures
        match then(Some((acc_t, acc_n)), then(x, rest)) {
            Some((t, n)) => p0.offset() + n > p0.cap(),
            None => true,
        },
{
    lemma_at_base(p0, before, acc_t);
    lemma_then_fail(acc_t, acc_n, x, rest, p0.cap() - p0.offset());
}

proof fn lemma_absorb_empty(p0: PrintBuffer, before: PrintBuffer, acc_t: Seq<u8>, acc_n: int)
    requires
        at_base(p0, before, acc_t),
        p0.offset() + acc_n <= p0.cap(),
        before.cap() == p0.cap(),
        before.wf(),
        p0.wf(),
    ensures
        then(Some((acc_t, acc_n)), empty_piece()) matches Some((t, n)) && at_base(p0, before, t) && t == acc_t
            && p0.offset() + n <= p0.cap(),
{
    assert(acc_t + Seq::<u8>::empty() =~= acc_t);
}

/// Regrouping one element of an array and what follows it.
proof fn lemma_then_chain3(a: Piece, b: Piece, c: Piece, r: Piece)
    ensures
        then(then(a, then(b, c)), r) == then(a, then(b, then(c, r))),
{
    lemma_then_assoc(a, then(b, c), r);
    lemma_then_assoc(b, c, r);
}

// ---------------------------------------------------------------------------
// The printers.
// ---------------------------------------------------------------------------

/// How much of a printed node's text its printer commits: all of a
/// number's, none of a literal's, string's or raw text, and all of an
/// array's or object's but its closing bracket (with its indentation).
pub open spec fn value_commit(n: JsonNode, depth: int, c: PrintCtx) -> int {
    let t = type_byte(n.type_);
    let len = piece_text(pr_value(n, depth, c)).len() as int;
    if t == CJSON_NUMBER {
        len
    } else if t == CJSON_ARRAY {
        len - 1
    } else if t == CJSON_OBJECT {
        len - (if c.fmt { depth + 1 } else { 1 })
    } else {
        0
    }
}

/// Prints any node.
pub fn print_value<D: Fn(&[u8]) -> u64, C: Fn(u64, u64) -> bool>(
    item: &CJson,
    p: &mut PrintBuffer,
    decode: &D,
    close: &C,
) -> (r: bool)
    requires
        old(p).wf(),
        decoder_ok(*decode),
        closer_ok(*close),
    ensures
        printed(*old(p), *final(p), pr_value(item@, old(p).depth as int, ctx(old(p).format, *decode, *close)), r),
        r ==> final(p).offset() == old(p).offset() + value_commit(item@, old(p).depth as int, ctx(old(p).format, *decode, *close)),
    decreases item@, 2int,
{
    let t = item.base_type();
    if t == CJSON_NULL {
        let lit: [u8; 4] = [110, 117, 108, 108];
        assert(lit@ =~= seq![110u8, 117u8, 108u8, 108u8]);
        put(p, &lit, 5)
    } else if t == CJSON_FALSE {
        let lit: [u8; 5] = [102, 97, 108, 115, 101];
        assert(lit@ =~= seq![102u8, 97u8, 108u8, 115u8, 101u8]);
        put(p, &lit, 6)
    } else if t == CJSON_TRUE {
        let lit: [u8; 4] = [116, 114, 117, 101];
        assert(lit@ =~= seq![116u8, 114u8, 117u8, 101u8]);
        put(p, &lit, 5)
    } else if t == CJSON_NUMBER {
        print_number(item, p, decode, close)
    } else if t == CJSON_RAW {
        match &item.valuestring {
            None => false,
            Some(v) => {
                let raw = c_string(v.as_slice());
                if raw.len() >= INT_MAX {
                    return false;
                }
                put(p, raw.as_slice(), raw.len() + 1)
            },
        }
    } else if t == CJSON_STRING {
        print_string_ptr(&item.valuestring, p)
    } else if t == CJSON_ARRAY {
        print_array(item, p, decode, close)
    } else if t == CJSON_OBJECT {
        print_object(item, p, decode, close)
    } else {
        false
    }
}

/// Prints an array node.
pub fn print_array<D: Fn(&[u8]) -> u64, C: Fn(u64, u64) -> bool>(
    item: &CJson,
    p: &mut PrintBuffer,
    decode: &D,
    close: &C,
) -> (r: bool)
    requires
        old(p).wf(),
        decoder_ok(*decode),
        closer_ok(*close),
    ensures
        printed(*old(p), *final(p), pr_array(item@, old(p).depth as int, ctx(old(p).format, *decode, *close)), r),
        r ==> final(p).offset() == old(p).offset() + piece_text(pr_array(item@, old(p).depth as int, ctx(old(p).format, *decode, *close))).len() - 1,
    decreases item@, 1int,
{
    let ghost p0 = *p;
    let ghost c = ctx(p.format, *decode, *close);
    let ghost d0 = p.depth as int;
    let ghost total = pr_array(item@, d0, c);
    if p.depth >= CJSON_NESTING_LIMIT {
        return false;
    }
    let ghost kids = item@.child;
    let ghost closing = step(seq![93u8], 2);
    proof {
        crate::model::lemma_view_child(*item);
        assert(kids.subrange(0, kids.len() as int) =~= kids);
    }
    let open: [u8; 1] = [91];
    assert(open@ =~= seq![91u8]);
    let ghost before = *p;
    if !put(p, &open, 1) {
        proof {
            lemma_absorb_fail(p0, before, *p, Seq::empty(), 0, step(seq![91u8], 1), then(pr_items(kids, d0 + 1, c), closing));
            lemma_then_empty(total);
        }
        return false;
    }
    let ghost mut acc_t: Seq<u8> = Seq::empty();
    let ghost mut acc_n: int = 0;
    proof {
        assert(p0.buffer@ + Seq::<u8>::empty() =~= p0.buffer@);
        lemma_absorb_ok(p0, before, *p, acc_t, acc_n, step(seq![91u8], 1));
        lemma_then_empty(step(seq![91u8], 1));
        acc_t = seq![91u8];
        acc_n = 2;
    }
    commit(p);
    p.depth = p.depth + 1;
    let n = item.child.len();
    let mut i: usize = 0;
    while i < n
        invariant
            p.wf(),
            p0.wf(),
            p.depth == d0 + 1,
            p.format == p0.format,
            p.noalloc == p0.noalloc,
            p.noalloc ==> p.length == p0.length,
            d0 < CJSON_NESTING_LIMIT,
            i <= n,
            n == item.child@.len(),
            kids == item@.child,
            kids == crate::model::views(item.child@),
            c == ctx(p0.format, *decode, *close),
            decoder_ok(*decode),
            closer_ok(*close),
            closing == step(seq![93u8], 2),
            p0 == *old(p),
            d0 == old(p).depth,
            total == pr_array(item@, d0, c),
            total == then(Some((acc_t, acc_n)), then(pr_items(kids.subrange(i as int, n as int), d0 + 1, c), closing)),
            p.buffer@ == p0.buffer@.take(p0.offset()) + acc_t,
            p.offset() == p.buffer@.len(),
            p0.offset() + acc_n <= p0.cap(),
        decreases n - i,
    {
        let ghost s = kids.subrange(i as int, n as int);
        let ghost v = pr_value(s[0], d0 + 1, c);
        let ghost sep: Seq<u8> = if c.fmt { seq![44u8, 32u8] } else { seq![44u8] };
        let ghost sepp = if s.len() > 1 { step(sep, sep.len() + 1int) } else { empty_piece() };
        let ghost rest_items = pr_items(s.subrange(1, s.len() as int), d0 + 1, c);
        proof {
            assert(s.subrange(1, s.len() as int) =~= kids.subrange(i + 1, n as int));
            assert(s[0] == item.child@[i as int]@);
            lemma_then_chain3(v, sepp, rest_items, closing);
        }
        let ghost before = *p;
        let ok = print_value(&item.child[i], p, decode, close);
        if !ok {
            proof {
                lemma_absorb_fail(p0, before, *p, acc_t, acc_n, v, then(sepp, then(rest_items, closing)));
            }
            return false;
        }
        proof {
            lemma_absorb_ok(p0, before, *p, acc_t, acc_n, v);
            lemma_then_assoc(Some((acc_t, acc_n)), v, then(sepp, then(rest_items, closing)));
            let (t2, n2) = then(Some((acc_t, acc_n)), v).unwrap();
            acc_t = t2;
            acc_n = n2;
        }
        commit(p);
        if i + 1 < n {
            let ghost before2 = *p;
            let ok2 = if p.format {
                let sp: [u8; 2] = [44, 32];
                assert(sp@ =~= sep);
                put(p, &sp, 3)
            } else {
                let sp: [u8; 1] = [44];
                assert(sp@ =~= sep);
                put(p, &sp, 2)
            };
            if !ok2 {
                proof {
                    lemma_absorb_fail(p0, before2, *p, acc_t, acc_n, sepp, then(rest_items, closing));
                }
                return false;
            }
            proof {
                lemma_absorb_ok(p0, before2, *p, acc_t, acc_n, sepp);
                lemma_then_assoc(Some((acc_t, acc_n)), sepp, then(rest_items, closing));
                let (t2, n2) = then(Some((acc_t, acc_n)), sepp).unwrap();
                acc_t = t2;
                acc_n = n2;
            }
            commit(p);
        } else {
            proof {
                lemma_absorb_empty(p0, *p, acc_t, acc_n);
                lemma_then_assoc(Some((acc_t, acc_n)), sepp, then(rest_items, closing));
                let (t2, n2) = then(Some((acc_t, acc_n)), sepp).unwrap();
                acc_t = t2;
                acc_n = n2;
            }
        }
        i += 1;
    }
    proof {
        assert(pr_items(kids.subrange(n as int, n as int), d0 + 1, c) == empty_piece());
        lemma_absorb_empty(p0, *p, acc_t, acc_n);
        lemma_then_assoc(Some((acc_t, acc_n)), empty_piece(), closing);
        let (t2, n2) = then(Some((acc_t, acc_n)), empty_piece()).unwrap();
        acc_t = t2;
        acc_n = n2;
    }
    let close_b: [u8; 1] = [93];
    assert(close_b@ =~= seq![93u8]);
    let ghost before3 = *p;
    if !put(p, &close_b, 2) {
        proof {
            lemma_absorb_fail(p0, before3, *p, acc_t, acc_n, closing, empty_piece());
            lemma_then_assoc(Some((acc_t, acc_n)), closing, empty_piece());
            assert(then(closing, empty_piece()) == closing) by {
                assert(seq![93u8] + Seq::<u8>::empty() =~= seq![93u8]);
            }
        }
        return false;
    }
    proof {
        lemma_absorb_ok(p0, before3, *p, acc_t, acc_n, closing);
    }
    p.depth = p.depth - 1;
    true
}


/// `k` tabs.
fn tab_bytes(k: usize) -> (r: Vec<u8>)
    ensures
        r@ == tabs(k as nat),
{
    let mut r: Vec<u8> = Vec::new();
    while r.len() < k
        invariant
            r@.len() <= k,
            r@ == tabs(r@.len()),
        decreases k - r@.len(),
    {
        r.push(9);
        assert(r@ =~= tabs(r@.len()));
    }
    r
}

/// Prints one member of an object: indentation, key, colon, value, and
/// the separator or line end.
#[verifier::rlimit(30)]
fn print_member<D: Fn(&[u8]) -> u64, C: Fn(u64, u64) -> bool>(
    child: &CJson,
    last: bool,
    p: &mut PrintBuffer,
    decode: &D,
    close: &C,
) -> (r: bool)
    requires
        old(p).wf(),
        decoder_ok(*decode),
        closer_ok(*close),
    ensures
        printed(*old(p), *final(p), pr_member(child@, last, old(p).depth as int, ctx(old(p).format, *decode, *close)), r),
        r ==> final(p).offset() == final(p).buffer@.len(),
    decreases child@, 3int,
{
    let ghost p0 = *p;
    let ghost c = ctx(p.format, *decode, *close);
    let ghost d = p.depth as int;
    let ghost m = child@;
    let ghost indent = if c.fmt { step(tabs(d as nat), d) } else { empty_piece() };
    let ghost colon_t: Seq<u8> = if c.fmt { seq![58u8, 9u8] } else { seq![58u8] };
    let ghost end_t: Seq<u8> = (if last { Seq::<u8>::empty() } else { seq![44u8] }) + (if c.fmt {
        seq![10u8]
    } else {
        Seq::<u8>::empty()
    });
    let ghost key = string_piece(m.string);
    let ghost colon = step(colon_t, colon_t.len() as int);
    let ghost val = pr_value(m, d, c);
    let ghost endp = step(end_t, end_t.len() + 1int);
    let ghost total = pr_member(m, last, d, c);
    assert(total == then(indent, then(key, then(colon, then(val, endp)))));
    proof {
        assert(then(endp, empty_piece()) == endp) by {
            assert(end_t + Seq::<u8>::empty() =~= end_t);
        }
        assert(p0.buffer@ + Seq::<u8>::empty() =~= p0.buffer@);
        lemma_then_empty(total);
    }
    let ghost mut acc_t: Seq<u8> = Seq::empty();
    let ghost mut acc_n: int = 0;
    // indentation
    if p.format {
        let tb = tab_bytes(p.depth);
        let ghost b1 = *p;
        if !put(p, tb.as_slice(), p.depth) {
            proof {
                lemma_absorb_fail(p0, b1, *p, acc_t, acc_n, indent, then(key, then(colon, then(val, endp))));
            }
            return false;
        }
        proof {
            lemma_absorb_ok(p0, b1, *p, acc_t, acc_n, indent);
        }
        commit(p);
    } else {
        proof {
            lemma_absorb_empty(p0, *p, acc_t, acc_n);
        }
    }
    proof {
        lemma_then_assoc(Some((acc_t, acc_n)), indent, then(key, then(colon, then(val, endp))));
        let (t2, n2) = then(Some((acc_t, acc_n)), indent).unwrap();
        acc_t = t2;
        acc_n = n2;
    }
    // key
    let ghost b2 = *p;
    if !print_string_ptr(&child.string, p) {
        proof {
            lemma_absorb_fail(p0, b2, *p, acc_t, acc_n, key, then(colon, then(val, endp)));
        }
        return false;
    }
    proof {
        lemma_absorb_ok(p0, b2, *p, acc_t, acc_n, key);
        lemma_then_assoc(Some((acc_t, acc_n)), key, then(colon, then(val, endp)));
        let (t2, n2) = then(Some((acc_t, acc_n)), key).unwrap();
        acc_t = t2;
        acc_n = n2;
    }
    commit(p);
    // colon
    let ghost b3 = *p;
    let ok3 = if p.format {
        let cb: [u8; 2] = [58, 9];
        assert(cb@ =~= colon_t);
        put(p, &cb, 2)
    } else {
        let cb: [u8; 1] = [58];
        assert(cb@ =~= colon_t);
        put(p, &cb, 1)
    };
    if !ok3 {
        proof {
            lemma_absorb_fail(p0, b3, *p, acc_t, acc_n, colon, then(val, endp));
        }
        return false;
    }
    proof {
        lemma_absorb_ok(p0, b3, *p, acc_t, acc_n, colon);
        lemma_then_assoc(Some((acc_t, acc_n)), colon, then(val, endp));
        let (t2, n2) = then(Some((acc_t, acc_n)), colon).unwrap();
        acc_t = t2;
        acc_n = n2;
    }
    commit(p);
    // value
    let ghost b4 = *p;
    if !print_value(child, p, decode, close) {
        proof {
            lemma_absorb_fail(p0, b4, *p, acc_t, acc_n, val, endp);
        }
        return false;
    }
    proof {
        lemma_absorb_ok(p0, b4, *p, acc_t, acc_n, val);
        lemma_then_assoc(Some((acc_t, acc_n)), val, endp);
        let (t2, n2) = then(Some((acc_t, acc_n)), val).unwrap();
        acc_t = t2;
        acc_n = n2;
    }
    commit(p);
    // separator and line end
    let mut eb: Vec<u8> = Vec::new();
    if !last {
        eb.push(44);
    }
    if p.format {
        eb.push(10);
    }
    assert(eb@ =~= end_t);
    let ghost b5 = *p;
    if !put(p, eb.as_slice(), eb.len() + 1) {
        proof {
            lemma_absorb_fail(p0, b5, *p, acc_t, acc_n, endp, empty_piece());
        }
        return false;
    }
    proof {
        lemma_absorb_ok(p0, b5, *p, acc_t, acc_n, endp);
    }
    commit(p);
    true
}

/// Prints an object node.
pub fn print_object<D: Fn(&[u8]) -> u64, C: Fn(u64, u64) -> bool>(
    item: &CJson,
    p: &mut PrintBuffer,
    decode: &D,
    close: &C,
) -> (r: bool)
    requires
        old(p).wf(),
        decoder_ok(*decode),
        closer_ok(*close),
    ensures
        printed(*old(p), *final(p), pr_object(item@, old(p).depth as int, ctx(old(p).format, *decode, *close)), r),
        r ==> final(p).offset() == old(p).offset() + piece_text(pr_object(item@, old(p).depth as int, ctx(old(p).format, *decode, *close))).len() - (if old(p).format {
            old(p).depth + 1
        } else {
            1
        }),
    decreases item@, 1int,
{
    let ghost p0 = *p;
    let ghost c = ctx(p.format, *decode, *close);
    let ghost d0 = p.depth as int;
    let ghost total = pr_object(item@, d0, c);
    if p.depth >= CJSON_NESTING_LIMIT {
        return false;
    }
    let ghost kids = item@.child;
    let ghost open_t: Seq<u8> = if c.fmt { seq![123u8, 10u8] } else { seq![123u8] };
    let ghost opening = step(open_t, open_t.len() + 1int);
    let ghost close_t: Seq<u8> = if c.fmt { tabs(d0 as nat) + seq![125u8] } else { seq![125u8] };
    let ghost closing = step(close_t, if c.fmt { d0 + 2 } else { 2 });
    proof {
        crate::model::lemma_view_child(*item);
        assert(kids.subrange(0, kids.len() as int) =~= kids);
    }
    let ghost before = *p;
    let ok0 = if p.format {
        let o: [u8; 2] = [123, 10];
        assert(o@ =~= open_t);
        put(p, &o, 3)
    } else {
        let o: [u8; 1] = [123];
        assert(o@ =~= open_t);
        put(p, &o, 2)
    };
    if !ok0 {
        proof {
            lemma_absorb_fail(p0, before, *p, Seq::empty(), 0, opening, then(pr_members(kids, d0 + 1, c), closing));
            lemma_then_empty(total);
        }
        return false;
    }
    let ghost mut acc_t: Seq<u8> = Seq::empty();
    let ghost mut acc_n: int = 0;
    proof {
        assert(p0.buffer@ + Seq::<u8>::empty() =~= p0.buffer@);
        lemma_absorb_ok(p0, before, *p, acc_t, acc_n, opening);
        lemma_then_empty(opening);
        acc_t = open_t;
        acc_n = open_t.len() + 1int;
    }
    commit(p);
    p.depth = p.depth + 1;
    let n = item.child.len();
    let mut i: usize = 0;
    while i < n
        invariant
            p.wf(),
            p0.wf(),
            p.depth == d0 + 1,
            p.format == p0.format,
            p.noalloc == p0.noalloc,
            p.noalloc ==> p.length == p0.length,
            d0 < CJSON_NESTING_LIMIT,
            i <= n,
            n == item.child@.len(),
            kids == item@.child,
            kids == crate::model::views(item.child@),
            c == ctx(p0.format, *decode, *close),
            decoder_ok(*decode),
            closer_ok(*close),
            p0 == *old(p),
            d0 == old(p).depth,
            total == pr_object(item@, d0, c),
            total == then(Some((acc_t, acc_n)), then(pr_members(kids.subrange(i as int, n as int), d0 + 1, c), closing)),
            p.buffer@ == p0.buffer@.take(p0.offset()) + acc_t,
            p.offset() == p.buffer@.len(),
            p0.offset() + acc_n <= p0.cap(),
        decreases n - i,
    {
        let ghost s = kids.subrange(i as int, n as int);
        let ghost mem = pr_member(s[0], s.len() == 1, d0 + 1, c);
        let ghost rest = then(pr_members(s.subrange(1, s.len() as int), d0 + 1, c), closing);
        proof {
            assert(s.subrange(1, s.len() as int) =~= kids.subrange(i + 1, n as int));
            assert(s[0] == item.child@[i as int]@);
            lemma_then_assoc(mem, pr_members(s.subrange(1, s.len() as int), d0 + 1, c), closing);
        }
        let ghost b = *p;
        if !print_member(&item.child[i], i + 1 == n, p, decode, close) {
            proof {
                lemma_absorb_fail(p0, b, *p, acc_t, acc_n, mem, rest);
            }
            return false;
        }
        proof {
            lemma_absorb_ok(p0, b, *p, acc_t, acc_n, mem);
            lemma_then_assoc(Some((acc_t, acc_n)), mem, rest);
            let (t2, n2) = then(Some((acc_t, acc_n)), mem).unwrap();
            acc_t = t2;
            acc_n = n2;
        }
        i += 1;
    }
    proof {
        assert(pr_members(kids.subrange(n as int, n as int), d0 + 1, c) == empty_piece());
        lemma_absorb_empty(p0, *p, acc_t, acc_n);
        lemma_then_assoc(Some((acc_t, acc_n)), empty_piece(), closing);
        let (t2, n2) = then(Some((acc_t, acc_n)), empty_piece()).unwrap();
        acc_t = t2;
        acc_n = n2;
    }
    let ghost before3 = *p;
    let ok9 = if p.format {
        let mut cb = tab_bytes(p.depth - 1);
        cb.push(125);
        assert(cb@ =~= close_t);
        put(p, cb.as_slice(), p.depth + 1)
    } else {
        let cb: [u8; 1] = [125];
        assert(cb@ =~= close_t);
        put(p, &cb, 2)
    };
    if !ok9 {
        proof {
            lemma_absorb_fail(p0, before3, *p, acc_t, acc_n, closing, empty_piece());
            lemma_then_assoc(Some((acc_t, acc_n)), closing, empty_piece());
            assert(then(closing, empty_piece()) == closing) by {
                assert(close_t + Seq::<u8>::empty() =~= close_t);
            }
        }
        return false;
    }
    proof {
        lemma_absorb_ok(p0, before3, *p, acc_t, acc_n, closing);
    }
    p.depth = p.depth - 1;
    true
}


// ---------------------------------------------------------------------------
// Whole documents.
// ---------------------------------------------------------------------------

/// A piece whose requests reach past its own text.
pub open spec fn reaches_past(x: Piece) -> bool {
    x matches Some((t, n)) ==> n >= t.len() + 1
}

proof fn lemma_then_reaches(a: Piece, b: Piece)
    requires
        reaches_past(b),
    ensures
        reaches_past(then(a, b)),
{
}

/// Every printed node's last request reaches past its text (room for the
/// terminating NUL).
pub proof fn lemma_value_reaches(n: JsonNode, depth: int, c: PrintCtx)
    requires
        depth >= 0,
    ensures
        reaches_past(pr_value(n, depth, c)),
{
    let t = type_byte(n.type_);
    if t == CJSON_ARRAY && depth < CJSON_NESTING_LIMIT {
        lemma_then_reaches(pr_items(n.child, depth + 1, c), step(seq![93u8], 2));
        lemma_then_reaches(step(seq![91u8], 1), then(pr_items(n.child, depth + 1, c), step(seq![93u8], 2)));
    } else if t == CJSON_OBJECT && depth < CJSON_NESTING_LIMIT {
        let open: Seq<u8> = if c.fmt { seq![123u8, 10u8] } else { seq![123u8] };
        let close: Seq<u8> = if c.fmt { tabs(depth as nat) + seq![125u8] } else { seq![125u8] };
        let cl = step(close, if c.fmt { depth + 2 } else { 2 });
        lemma_then_reaches(pr_members(n.child, depth + 1, c), cl);
        lemma_then_reaches(step(open, open.len() + 1int), then(pr_members(n.child, depth + 1, c), cl));
    } else if t == CJSON_STRING {
        if let Some(v) = n.valuestring {
            assert((seq![34u8] + escaped(cstr(v)) + seq![34u8]).len() == escaped(cstr(v)).len() + 2);
        }
    }
}

/// The text of a whole document printed into a buffer that may grow: the
/// printed form of the root at depth 0, unless its requests pass `INT_MAX`.
pub open spec fn print_spec(n: JsonNode, c: PrintCtx) -> Option<Seq<u8>> {
    match pr_value(n, 0, c) {
        Some((t, need)) => if need <= INT_MAX {
            Some(t)
        } else {
            None
        },
        None => None,
    }
}

/// The smaller of two sizes.
pub fn cjson_min(a: usize, b: usize) -> (r: usize)
    ensures
        r == if a < b { a } else { b },
{
    if a < b {
        a
    } else {
        b
    }
}

/// Prints a document into a buffer that starts at `start_length` bytes
/// and may grow.
fn print_growing<D: Fn(&[u8]) -> u64, C: Fn(u64, u64) -> bool>(
    item: &CJson,
    start_length: usize,
    format: bool,
    decode: &D,
    close: &C,
) -> (r: Option<Vec<u8>>)
    requires
        start_length <= INT_MAX,
        decoder_ok(*decode),
        closer_ok(*close),
    ensures
        match r {
            Some(v) => print_spec(item@, ctx(format, *decode, *close)) == Some(v@),
            None => print_spec(item@, ctx(format, *decode, *close)) is None,
        },
{
    let mut p = PrintBuffer { buffer: Vec::new(), offset: 0, length: start_length, depth: 0, noalloc: false, format };
    if print_value(item, &mut p, decode, close) {
        assert(p.buffer@ =~= Seq::<u8>::empty() + p.buffer@);
        Some(p.buffer)
    } else {
        None
    }
}

/// Prints a document with indentation and line breaks; `None` when it
/// cannot be printed.
pub fn cjson_print<D: Fn(&[u8]) -> u64, C: Fn(u64, u64) -> bool>(item: &CJson, decode: &D, close: &C) -> (r: Option<Vec<u8>>)
    requires
        decoder_ok(*decode),
        closer_ok(*close),
    ensures
        match r {
            Some(v) => print_spec(item@, ctx(true, *decode, *close)) == Some(v@),
            None => print_spec(item@, ctx(true, *decode, *close)) is None,
        },
{
    print_growing(item, 256, true, decode, close)
}

/// Prints a document without whitespace; `None` when it cannot be printed.
pub fn cjson_print_unformatted<D: Fn(&[u8]) -> u64, C: Fn(u64, u64) -> bool>(
    item: &CJson,
    decode: &D,
    close: &C,
) -> (r: Option<Vec<u8>>)
    requires
        decoder_ok(*decode),
        closer_ok(*close),
    ensures
        match r {
            Some(v) => print_spec(item@, ctx(false, *decode, *close)) == Some(v@),
            None => print_spec(item@, ctx(false, *decode, *close)) is None,
        },
{
    print_growing(item, 256, false, decode, close)
}

/// Prints a document into a buffer that starts at `prebuffer` bytes and
/// grows as needed; `None` for a negative size or when it cannot be printed.
pub fn cjson_print_buffered<D: Fn(&[u8]) -> u64, C: Fn(u64, u64) -> bool>(
    item: &CJson,
    prebuffer: i32,
    fmt: bool,
    decode: &D,
    close: &C,
) -> (r: Option<Vec<u8>>)
    requires
        decoder_ok(*decode),
        closer_ok(*close),
    ensures
        prebuffer < 0 ==> r is None,
        prebuffer >= 0 ==> match r {
            Some(v) => print_spec(item@, ctx(fmt, *decode, *close)) == Some(v@),
            None => print_spec(item@, ctx(fmt, *decode, *close)) is None,
        },
{
    if prebuffer < 0 {
        return None;
    }
    print_growing(item, prebuffer as usize, fmt, decode, close)
}

/// Prints a document into the caller's buffer of `length` bytes, which
/// cannot grow. On success the buffer starts with the text and a NUL byte;
/// on failure (a negative length, or a text that does not fit) it is left
/// as it was.
pub fn cjson_print_preallocated<D: Fn(&[u8]) -> u64, C: Fn(u64, u64) -> bool>(
    item: &CJson,
    buffer: &mut Vec<u8>,
    length: i32,
    format: bool,
    decode: &D,
    close: &C,
) -> (r: bool)
    requires
        decoder_ok(*decode),
        closer_ok(*close),
        length >= 0 ==> old(buffer)@.len() >= length,
    ensures
        r == (length >= 0 && match pr_value(item@, 0, ctx(format, *decode, *close)) {
            Some((t, need)) => need <= length,
            None => false,
        }),
        r ==> match pr_value(item@, 0, ctx(format, *decode, *close)) {
            Some((t, need)) => final(buffer)@ == t + seq![0u8] + old(buffer)@.skip(t.len() + 1int),
            None => true,
        },
        !r ==> final(buffer)@ == old(buffer)@,
{
    if length < 0 {
        return false;
    }
    let mut p = PrintBuffer { buffer: Vec::new(), offset: 0, length: length as usize, depth: 0, noalloc: true, format };
    let ghost p0 = p;
    if !print_value(item, &mut p, decode, close) {
        return false;
    }
    proof {
        lemma_value_reaches(item@, 0, ctx(format, *decode, *close));
        assert(p.buffer@ =~= Seq::<u8>::empty() + p.buffer@);
    }
    let ghost b0 = buffer@;
    let tl = p.buffer.len();
    let mut i: usize = 0;
    while i < tl
        invariant
            i <= tl,
            tl == p.buffer@.len(),
            tl < buffer@.len(),
            buffer@.len() == b0.len(),
            forall|j: int| 0 <= j < i ==> buffer@[j] == p.buffer@[j],
            forall|j: int| i <= j < b0.len() ==> buffer@[j] == b0[j],
        decreases tl - i,
    {
        buffer.set(i, p.buffer[i]);
        i += 1;
    }
    buffer.set(tl, 0);
    assert(buffer@ =~= p.buffer@ + seq![0u8] + b0.skip(tl + 1));
    true
}

} // verus!
