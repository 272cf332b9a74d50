//! Sample documents for measuring the library and checking it against other
//! JSON implementations: two fixed documents, a xorshift random number
//! generator, and a generator of random documents.

use vstd::prelude::*;
use vstd::string::StrSliceExecFns;
use vstd::string::StringSliceAdditionalSpecFns;
use crate::float::{dec_digits, push_decimal};
use crate::text::push_all;

verus! {

/// The UTF-8 bytes of a text.
pub open spec fn lit(s: &str) -> Seq<u8> {
    s.spec_bytes()
}

/// Appends the UTF-8 bytes of `s`.
fn push_str(out: &mut Vec<u8>, s: &str)
    ensures
        final(out)@ == old(out)@ + lit(s),
{
    let b = s.as_bytes_vec();
    push_all(out, b.as_slice());
}

/// `s` followed by a NUL byte.
pub fn with_nul(s: &[u8]) -> (r: Vec<u8>)
    ensures
        r@ == s@ + seq![0u8],
{
    let mut bytes = crate::text::copy_bytes(s);
    bytes.push(0);
    bytes
}

/// A number of at least two digits, zero-padded (`{:02}`).
pub open spec fn two_digits(i: nat) -> Seq<u8> {
    if i < 10 {
        seq![48u8] + dec_digits(i)
    } else {
        dec_digits(i)
    }
}

fn push_two_digits(out: &mut Vec<u8>, i: u64)
    ensures
        final(out)@ == old(out)@ + two_digits(i as nat),
{
    if i < 10 {
        out.push(48);
    }
    push_decimal(out, i);
    assert(final(out)@ =~= old(out)@ + two_digits(i as nat));
}

/// One item of the medium document.
pub open spec fn medium_item(i: nat) -> Seq<u8> {
    lit("{\"id\":") + dec_digits(i) + lit(",\"name\":\"item-") + two_digits(i) + lit("\",\"value\":")
        + dec_digits(i * 17) + lit(",\"flag\":") + (if i % 2 == 0 {
        lit("true")
    } else {
        lit("false")
    }) + lit("}")
}

/// The first `n` items of the medium document, separated by commas.
pub open spec fn medium_items(n: nat) -> Seq<u8>
    decreases n,
{
    if n == 0 {
        Seq::empty()
    } else {
        medium_items((n - 1) as nat) + (if n - 1 != 0 {
            lit(",")
        } else {
            Seq::empty()
        }) + medium_item((n - 1) as nat)
    }
}

/// A document of 64 small objects and a metadata object.
pub open spec fn medium_text() -> Seq<u8> {
    lit("{\"items\":[") + medium_items(64) + lit(
        "],\"meta\":{\"name\":\"benchmark\",\"count\":64,\"active\":true,\"tags\":[\"a\",\"b\",\"c\"]}}",
    )
}

#[verifier::rlimit(60)]
pub fn medium_json() -> (r: Vec<u8>)
    ensures
        r@ == medium_text(),
{
    let mut s: Vec<u8> = Vec::new();
    push_str(&mut s, "{\"items\":[");
    let ghost head = s@;
    let mut i: u64 = 0;
    while i < 64
        invariant
            i <= 64,
            s@ == head + medium_items(i as nat),
        decreases 64 - i,
    {
        let ghost before = s@;
        if i != 0 {
            push_str(&mut s, ",");
        }
        push_str(&mut s, "{\"id\":");
        push_decimal(&mut s, i);
        push_str(&mut s, ",\"name\":\"item-");
        push_two_digits(&mut s, i);
        push_str(&mut s, "\",\"value\":");
        push_decimal(&mut s, i * 17);
        push_str(&mut s, ",\"flag\":");
        if i % 2 == 0 {
            push_str(&mut s, "true");
        } else {
            push_str(&mut s, "false");
        }
        push_str(&mut s, "}");
        proof {
            let sep = if i != 0 { lit(",") } else { Seq::<u8>::empty() };
            assert(s@ =~= before + sep + medium_item(i as nat));
            assert(medium_items((i + 1) as nat) == medium_items(i as nat) + sep + medium_item(i as nat));
            assert(s@ =~= head + medium_items((i + 1) as nat));
        }
        i += 1;
    }
    push_str(&mut s, "],\"meta\":{\"name\":\"benchmark\",\"count\":64,\"active\":true,\"tags\":[\"a\",\"b\",\"c\"]}}");
    s
}

/// The members `"keyNN":NN` for `NN` from 47 down to `47 - n + 1`.
pub open spec fn unsorted_members(n: nat) -> Seq<u8>
    decreases n,
{
    if n == 0 {
        Seq::empty()
    } else {
        let i = (48 - n) as nat;
        unsorted_members((n - 1) as nat) + (if i != 47 {
            lit(",")
        } else {
            Seq::empty()
        }) + lit("\"key") + two_digits(i) + lit("\":") + dec_digits(i)
    }
}

/// An object of 48 members whose keys are in descending order.
pub open spec fn unsorted_text() -> Seq<u8> {
    lit("{") + unsorted_members(48) + lit("}")
}

pub fn unsorted_json() -> (r: Vec<u8>)
    ensures
        r@ == unsorted_text(),
{
    let mut s: Vec<u8> = Vec::new();
    push_str(&mut s, "{");
    let ghost head = s@;
    let mut n: u64 = 0;
    while n < 48
        invariant
            n <= 48,
            s@ == head + unsorted_members(n as nat),
        decreases 48 - n,
    {
        let i = 47 - n;
        let ghost before = s@;
        if i != 47 {
            push_str(&mut s, ",");
        }
        push_str(&mut s, "\"key");
        push_two_digits(&mut s, i);
        push_str(&mut s, "\":");
        push_decimal(&mut s, i);
        proof {
            let sep = if i != 47 { lit(",") } else { Seq::<u8>::empty() };
            assert(s@ =~= before + sep + lit("\"key") + two_digits(i as nat) + lit("\":") + dec_digits(i as nat));
            assert(s@ =~= head + unsorted_members((n + 1) as nat));
        }
        n += 1;
    }
    push_str(&mut s, "}");
    s
}

// ---------------------------------------------------------------------------
// Random documents.
// ---------------------------------------------------------------------------

/// One step of the xorshift generator (shifts 13, 7, 17).
pub open spec fn xorshift(x: u64) -> u64 {
    let a = x ^ (x << 13u64);
    let b = a ^ (a >> 7u64);
    b ^ (b << 17u64)
}

/// A xorshift random number generator; its state is the last number drawn.
pub struct Rng(pub u64);

impl Rng {
    /// Advances the generator and returns the new state.
    pub fn next(&mut self) -> (r: u64)
        ensures
            r == xorshift(old(self).0),
            final(self).0 == r,
    {
        self.0 = self.0 ^ (self.0 << 13u64);
        self.0 = self.0 ^ (self.0 >> 7u64);
        self.0 = self.0 ^ (self.0 << 17u64);
        self.0
    }

    /// The next number drawn, reduced below `n`.
    pub fn below(&mut self, n: u64) -> (r: u64)
        requires
            n > 0,
        ensures
            r == xorshift(old(self).0) % n,
            final(self).0 == xorshift(old(self).0),
    {
        self.next() % n
    }
}

/// The number texts that documents draw from.
pub open spec fn number_bank(i: u64) -> Seq<u8> {
    if i == 0 {
        lit("0")
    } else if i == 1 {
        lit("-1")
    } else if i == 2 {
        lit("3.141592653589793")
    } else if i == 3 {
        lit("1e308")
    } else if i == 4 {
        lit("5e-324")
    } else if i == 5 {
        lit("1e-308")
    } else if i == 6 {
        lit("0.1")
    } else if i == 7 {
        lit("-0.0")
    } else if i == 8 {
        lit("1.0e20")
    } else if i == 9 {
        lit("9007199254740993")
    } else if i == 10 {
        lit("-9007199254740993")
    } else if i == 11 {
        lit("123456789012345678901234567890")
    } else if i == 12 {
        lit("4.9406564584124654e-324")
    } else {
        lit("2.2250738585072014e-308")
    }
}

fn push_number_bank(out: &mut Vec<u8>, i: u64)
    ensures
        final(out)@ == old(out)@ + number_bank(i),
{
    if i == 0 {
        push_str(out, "0");
    } else if i == 1 {
        push_str(out, "-1");
    } else if i == 2 {
        push_str(out, "3.141592653589793");
    } else if i == 3 {
        push_str(out, "1e308");
    } else if i == 4 {
        push_str(out, "5e-324");
    } else if i == 5 {
        push_str(out, "1e-308");
    } else if i == 6 {
        push_str(out, "0.1");
    } else if i == 7 {
        push_str(out, "-0.0");
    } else if i == 8 {
        push_str(out, "1.0e20");
    } else if i == 9 {
        push_str(out, "9007199254740993");
    } else if i == 10 {
        push_str(out, "-9007199254740993");
    } else if i == 11 {
        push_str(out, "123456789012345678901234567890");
    } else if i == 12 {
        push_str(out, "4.9406564584124654e-324");
    } else {
        push_str(out, "2.2250738585072014e-308");
    }
}

/// The string contents (already in JSON's escaped form) that documents
/// draw from.
pub open spec fn string_bank(i: u64) -> Seq<u8> {
    if i == 0 {
        lit("")
    } else if i == 1 {
        lit("hello")
    } else if i == 2 {
        lit("a\"b\\c")
    } else if i == 3 {
        lit("tab\there")
    } else if i == 4 {
        lit("newline\nhere")
    } else if i == 5 {
        lit("uni \u{00e9} \u{1f642}")
    } else if i == 6 {
        lit("\u{00df}\u{03a9}\u{4e2d}\u{6587}")
    } else {
        lit("esc\\/\\b\\f\\r\\u0041")
    }
}

fn push_string_bank(out: &mut Vec<u8>, i: u64)
    ensures
        final(out)@ == old(out)@ + string_bank(i),
{
    if i == 0 {
        push_str(out, "");
    } else if i == 1 {
        push_str(out, "hello");
    } else if i == 2 {
        push_str(out, "a\"b\\c");
    } else if i == 3 {
        push_str(out, "tab\there");
    } else if i == 4 {
        push_str(out, "newline\nhere");
    } else if i == 5 {
        push_str(out, "uni \u{00e9} \u{1f642}");
    } else if i == 6 {
        push_str(out, "\u{00df}\u{03a9}\u{4e2d}\u{6587}");
    } else {
        push_str(out, "esc\\/\\b\\f\\r\\u0041");
    }
}

/// The document that the generator in state `s` writes at depth `depth`,
/// and the generator's state afterwards: a scalar when `depth` is 0 or
/// the first draw is below 5, an array when it is 5, else an object; each
/// container holds fewer than six values one level shallower.
pub open spec fn gen_spec(s: u64, depth: u64) -> (Seq<u8>, u64)
    decreases depth, 7int,
{
    let s1 = xorshift(s);
    let r = s1 % 10;
    if depth == 0 || r < 5 {
        let s2 = xorshift(s1);
        let k = s2 % 4;
        let s3 = xorshift(s2);
        if k == 0 {
            (dec_digits((s3 % 2000000000000000000) as nat), s3)
        } else if k == 1 {
            (number_bank(s3 % 14), s3)
        } else if k == 2 {
            (lit("\"") + string_bank(s3 % 8) + lit("\""), s3)
        } else {
            let j = s3 % 3;
            (if j == 0 {
                lit("true")
            } else if j == 1 {
                lit("false")
            } else {
                lit("null")
            }, s3)
        }
    } else {
        let s2 = xorshift(s1);
        let n = s2 % 6;
        if r == 5 {
            let body = gen_elems(s2, (depth - 1) as u64, n, false, true, 0);
            (lit("[") + body.0 + lit("]"), body.1)
        } else {
            let s3 = xorshift(s2);
            let body = gen_elems(s3, (depth - 1) as u64, n, true, true, s3 % 8);
            (lit("{") + body.0 + lit("}"), body.1)
        }
    }
}

/// The key of the `i`-th member of an object whose keys start at entry
/// `k0` of the string bank: consecutive entries, wrapping around, so that
/// the at most five members of an object have different keys.
pub open spec fn member_key(k0: u64, i: u64) -> u64 {
    ((k0 + i) % 8) as u64
}

/// `n` generated values at depth `depth`, separated by commas; when
/// `keyed`, each is preceded by a key, entry `k` of the string bank for the
/// first, the next entries (wrapping around) for the others.
pub open spec fn gen_elems(s: u64, depth: u64, n: u64, keyed: bool, first: bool, k: u64) -> (Seq<u8>, u64)
    decreases depth + 1, n,
{
    if n == 0 || n >= 7 {
        (Seq::empty(), s)
    } else {
        let sep = if first { Seq::<u8>::empty() } else { lit(",") };
        let key = if keyed {
            lit("\"") + string_bank(k % 8) + lit("\":")
        } else {
            Seq::<u8>::empty()
        };
        let v = gen_spec(s, depth);
        let rest = gen_elems(v.1, depth, (n - 1) as u64, keyed, false, ((k + 1) % 8) as u64);
        (sep + key + v.0 + rest.0, rest.1)
    }
}

/// The first byte of a non-empty text is the first byte of its first
/// character's encoding.
proof fn lemma_first_byte(t: &str)
    requires
        t@.len() > 0,
    ensures
        lit(t).len() > 0,
        lit(t)[0] == vstd::utf8::encode_scalar(t@[0] as u32)[0],
{
    assert(lit(t) == vstd::utf8::encode_scalar(t@[0] as u32) + vstd::utf8::encode_utf8(t@.drop_first()));
}

/// The length of the string bank's `i`-th entry, when it is empty, and
/// otherwise its first byte.
pub open spec fn bank_head(i: u64) -> int {
    if string_bank(i).len() == 0 {
        -1
    } else {
        string_bank(i)[0] as int
    }
}

proof fn lemma_bank_heads()
    ensures
        bank_head(0) == -1,
        bank_head(1) == 104,
        bank_head(2) == 97,
        bank_head(3) == 116,
        bank_head(4) == 110,
        bank_head(5) == 117,
        bank_head(6) == 195,
        bank_head(7) == 101,
{
    reveal_strlit("");
    reveal_strlit("hello");
    reveal_strlit("a\"b\\c");
    reveal_strlit("tab\there");
    reveal_strlit("newline\nhere");
    reveal_strlit("uni \u{00e9} \u{1f642}");
    reveal_strlit("\u{00df}\u{03a9}\u{4e2d}\u{6587}");
    reveal_strlit("esc\\/\\b\\f\\r\\u0041");
    assert(lit("") == vstd::utf8::encode_utf8(""@));
    assert(lit("").len() == 0);
    lemma_first_byte("hello");
    lemma_first_byte("a\"b\\c");
    lemma_first_byte("tab\there");
    lemma_first_byte("newline\nhere");
    lemma_first_byte("uni \u{00e9} \u{1f642}");
    lemma_first_byte("\u{00df}\u{03a9}\u{4e2d}\u{6587}");
    lemma_first_byte("esc\\/\\b\\f\\r\\u0041");
    assert((104u32 & 0x7Fu32) as u8 == 104u8) by (bit_vector);
    assert((97u32 & 0x7Fu32) as u8 == 97u8) by (bit_vector);
    assert((116u32 & 0x7Fu32) as u8 == 116u8) by (bit_vector);
    assert((110u32 & 0x7Fu32) as u8 == 110u8) by (bit_vector);
    assert((117u32 & 0x7Fu32) as u8 == 117u8) by (bit_vector);
    assert((101u32 & 0x7Fu32) as u8 == 101u8) by (bit_vector);
    assert((0xC0u8 | ((223u32 >> 6u32) & 0x1Fu32) as u8) == 195u8) by (bit_vector);
}

/// The string bank's entries differ from one another.
pub proof fn lemma_string_bank_distinct(i: u64, j: u64)
    requires
        i < 8,
        j < 8,
        i != j,
    ensures
        string_bank(i) != string_bank(j),
{
    lemma_bank_heads();
    assert(bank_head(i) != bank_head(j));
}

/// The members of a generated object have pairwise different keys: the
/// `i`-th and `j`-th keys of an object of at most five members are
/// different entries of the string bank.
pub proof fn law_generated_keys_distinct(k0: u64, i: u64, j: u64)
    requires
        k0 < 8,
        i < j < 6,
    ensures
        member_key(k0, i) != member_key(k0, j),
        string_bank(member_key(k0, i)) != string_bank(member_key(k0, j)),
{
    assert(member_key(k0, i) != member_key(k0, j));
    lemma_string_bank_distinct(member_key(k0, i), member_key(k0, j));
}

/// Writes a random document of nesting depth at most `depth`.
pub fn gen_doc(rng: &mut Rng, depth: u64) -> (r: Vec<u8>)
    ensures
        (r@, final(rng).0) == gen_spec(old(rng).0, depth),
    decreases depth, 7int,
{
    let mut out: Vec<u8> = Vec::new();
    let r = rng.below(10);
    if depth == 0 || r < 5 {
        let k = rng.below(4);
        if k == 0 {
            let v = rng.below(2000000000000000000);
            push_decimal(&mut out, v);
        } else if k == 1 {
            let i = rng.below(14);
            push_number_bank(&mut out, i);
        } else if k == 2 {
            let i = rng.below(8);
            push_str(&mut out, "\"");
            push_string_bank(&mut out, i);
            push_str(&mut out, "\"");
        } else {
            let j = rng.below(3);
            if j == 0 {
                push_str(&mut out, "true");
            } else if j == 1 {
                push_str(&mut out, "false");
            } else {
                push_str(&mut out, "null");
            }
        }
        assert(out@ =~= gen_spec(old(rng).0, depth).0);
    } else {
        let n = rng.below(6);
        let mut k: u64 = 0;
        if r == 5 {
            push_str(&mut out, "[");
        } else {
            push_str(&mut out, "{");
            k = rng.below(8);
        }
        let body = gen_elems_exec(rng, depth - 1, n, r != 5, k);
        push_all(&mut out, body.as_slice());
        if r == 5 {
            push_str(&mut out, "]");
        } else {
            push_str(&mut out, "}");
        }
        assert(out@ =~= gen_spec(old(rng).0, depth).0);
    }
    out
}

/// Writes `n` random values, with random keys when `keyed`.
#[verifier::rlimit(60)]
fn gen_elems_exec(rng: &mut Rng, depth: u64, n: u64, keyed: bool, k0: u64) -> (r: Vec<u8>)
    requires
        n < 7,
        k0 < 8,
    ensures
        (r@, final(rng).0) == gen_elems(old(rng).0, depth, n, keyed, true, k0),
    decreases depth + 1, 6int,
{
    let mut out: Vec<u8> = Vec::new();
    let mut i: u64 = 0;
    let mut k: u64 = k0;
    let ghost s0 = rng.0;
    proof {
        assert(Seq::<u8>::empty() + gen_elems(s0, depth, n, keyed, true, k0).0 =~= gen_elems(s0, depth, n, keyed, true, k0).0);
    }
    while i < n
        invariant
            i <= n,
            n < 7,
            k < 8,
            gen_elems(s0, depth, n, keyed, true, k0).0 == out@ + gen_elems(rng.0, depth, (n - i) as u64, keyed, i == 0, k).0,
            gen_elems(s0, depth, n, keyed, true, k0).1 == gen_elems(rng.0, depth, (n - i) as u64, keyed, i == 0, k).1,
        decreases n - i,
    {
        let ghost st = rng.0;
        let ghost before = out@;
        if i != 0 {
            push_str(&mut out, ",");
        }
        if keyed {
            push_str(&mut out, "\"");
            push_string_bank(&mut out, k);
            push_str(&mut out, "\":");
        }
        let v = gen_doc(rng, depth);
        push_all(&mut out, v.as_slice());
        proof {
            let e = gen_elems(st, depth, (n - i) as u64, keyed, i == 0, k);
            let rest = gen_elems(rng.0, depth, (n - i - 1) as u64, keyed, false, ((k + 1) % 8) as u64);
            assert(e.0 == out@.subrange(before.len() as int, out@.len() as int) + rest.0) by {
                assert(out@.subrange(before.len() as int, out@.len() as int) =~= (if i == 0 {
                    Seq::<u8>::empty()
                } else {
                    lit(",")
                }) + (if keyed {
                    lit("\"") + string_bank(k % 8) + lit("\":")
                } else {
                    Seq::<u8>::empty()
                }) + v@);
            }
            assert(out@ =~= before + out@.subrange(before.len() as int, out@.len() as int));
        }
        k = (k + 1) % 8;
        i += 1;
    }
    proof {
        assert(out@ + Seq::<u8>::empty() =~= out@);
    }
    out
}

} // verus!
