//! Byte-string helpers: C-string truncation and copying.

use vstd::prelude::*;

verus! {

/// The index of the first NUL byte of `s`, or its length.
pub open spec fn nul_index(s: Seq<u8>) -> int
    decreases s.len(),
{
    if s.len() == 0 {
        0
    } else if s[0] == 0 {
        0
    } else {
        1 + nul_index(s.drop_first())
    }
}

/// The C string that `s` holds: its bytes before the first NUL.
pub open spec fn cstr(s: Seq<u8>) -> Seq<u8> {
    s.take(nul_index(s))
}

pub proof fn lemma_nul_index(s: Seq<u8>)
    ensures
        0 <= nul_index(s) <= s.len(),
        forall|i: int| 0 <= i < nul_index(s) ==> s[i] != 0,
        nul_index(s) < s.len() ==> s[nul_index(s)] == 0,
    decreases s.len(),
{
    if s.len() > 0 && s[0] != 0 {
        lemma_nul_index(s.drop_first());
        assert forall|i: int| 0 <= i < nul_index(s) implies s[i] != 0 by {
            if i > 0 {
                assert(s[i] == s.drop_first()[i - 1]);
            }
        }
    }
}

/// `nul_index` is the unique position with no NUL before it and a NUL (or the
/// end) at it.
pub proof fn lemma_nul_index_unique(s: Seq<u8>, k: int)
    requires
        0 <= k <= s.len(),
        forall|i: int| 0 <= i < k ==> s[i] != 0,
        k < s.len() ==> s[k] == 0,
    ensures
        nul_index(s) == k,
{
    lemma_nul_index(s);
    if nul_index(s) < k {
        assert(s[nul_index(s)] == 0);
    } else if nul_index(s) > k {
        assert(s[k] != 0);
    }
}

/// A C string has no NUL byte.
pub open spec fn no_nul(s: Seq<u8>) -> bool {
    forall|i: int| 0 <= i < s.len() ==> s[i] != 0
}

pub proof fn lemma_cstr_of_no_nul(s: Seq<u8>)
    requires
        no_nul(s),
    ensures
        cstr(s) == s,
{
    lemma_nul_index_unique(s, s.len() as int);
    assert(s.take(s.len() as int) =~= s);
}

pub proof fn lemma_cstr_no_nul(s: Seq<u8>)
    ensures
        no_nul(cstr(s)),
        cstr(s).len() == nul_index(s),
{
    lemma_nul_index(s);
}

/// The bytes of `s` before its first NUL, copied.
pub fn c_string(s: &[u8]) -> (r: Vec<u8>)
    ensures
        r@ == cstr(s@),
{
    let mut r: Vec<u8> = Vec::new();
    let mut i: usize = 0;
    while i < s.len() && s[i] != 0
        invariant
            i <= s.len(),
            r@ == s@.take(i as int),
            forall|j: int| 0 <= j < i ==> s@[j] != 0,
        decreases s.len() - i,
    {
        r.push(s[i]);
        i += 1;
        assert(r@ =~= s@.take(i as int));
    }
    proof {
        lemma_nul_index_unique(s@, i as int);
    }
    r
}

/// A copy of `s`.
pub fn copy_bytes(s: &[u8]) -> (r: Vec<u8>)
    ensures
        r@ == s@,
{
    let mut r: Vec<u8> = Vec::new();
    let mut i: usize = 0;
    while i < s.len()
        invariant
            i <= s.len(),
            r@ == s@.take(i as int),
        decreases s.len() - i,
    {
        r.push(s[i]);
        i += 1;
        assert(r@ =~= s@.take(i as int));
    }
    assert(s@.take(s@.len() as int) =~= s@);
    r
}

/// Appends `s` to `out`.
pub fn push_all(out: &mut Vec<u8>, s: &[u8])
    ensures
        final(out)@ == old(out)@ + s@,
{
    let mut i: usize = 0;
    while i < s.len()
        invariant
            i <= s.len(),
            out@ == old(out)@ + s@.take(i as int),
        decreases s.len() - i,
    {
        out.push(s[i]);
        i += 1;
        assert(out@ =~= old(out)@ + s@.take(i as int));
    }
    assert(s@.take(s@.len() as int) =~= s@);
}

/// ASCII lower case of one byte.
pub open spec fn lower(c: u8) -> u8 {
    if 65 <= c <= 90 {
        (c + 32) as u8
    } else {
        c
    }
}

pub fn to_lower(c: u8) -> (r: u8)
    ensures
        r == lower(c),
{
    if 65 <= c && c <= 90 {
        c + 32
    } else {
        c
    }
}


/// The byte of a C string at `i`: past its end, the terminating NUL.
pub open spec fn byte_at(s: Seq<u8>, i: int) -> u8 {
    if 0 <= i < s.len() {
        s[i]
    } else {
        0
    }
}

/// C's `strcmp` of the strings held by `a` and `b` from position `i` on
/// (ASCII case folded when `fold`): the difference of the first bytes that
/// differ, or 0.
pub open spec fn str_diff_from(a: Seq<u8>, b: Seq<u8>, i: nat, fold: bool) -> int
    decreases a.len() - i,
{
    let x = if fold { lower(byte_at(a, i as int)) } else { byte_at(a, i as int) };
    let y = if fold { lower(byte_at(b, i as int)) } else { byte_at(b, i as int) };
    if x != y {
        x - y
    } else if byte_at(a, i as int) == 0 || i >= a.len() {
        0
    } else {
        str_diff_from(a, b, i + 1, fold)
    }
}

/// C's `strcmp` (or its case-folding variant) of two C strings.
pub open spec fn c_str_diff(a: Seq<u8>, b: Seq<u8>, fold: bool) -> int {
    str_diff_from(a, b, 0, fold)
}

/// Compares the C strings `a` and `b` as `strcmp` does, folding ASCII case
/// when `fold`.
pub fn str_compare(a: &[u8], b: &[u8], fold: bool) -> (r: i32)
    ensures
        r as int == c_str_diff(a@, b@, fold),
{
    let mut i: usize = 0;
    loop
        invariant
            c_str_diff(a@, b@, fold) == str_diff_from(a@, b@, i as nat, fold),
            i <= a@.len(),
        decreases a@.len() - i,
    {
        let ca: u8 = if i < a.len() { a[i] } else { 0 };
        let cb: u8 = if i < b.len() { b[i] } else { 0 };
        let x: u8 = if fold { to_lower(ca) } else { ca };
        let y: u8 = if fold { to_lower(cb) } else { cb };
        if x != y {
            return x as i32 - y as i32;
        }
        if ca == 0 || i >= a.len() {
            return 0;
        }
        i += 1;
    }
}

/// A C string with every ASCII letter in lower case.
pub open spec fn lower_all(s: Seq<u8>) -> Seq<u8> {
    s.map_values(|c: u8| lower(c))
}

/// The strings compare equal exactly when their C strings are the same
/// (after folding case, when `fold`).
pub proof fn lemma_str_diff_zero(a: Seq<u8>, b: Seq<u8>, fold: bool)
    ensures
        (c_str_diff(a, b, fold) == 0) == (if fold {
            lower_all(cstr(a)) == lower_all(cstr(b))
        } else {
            cstr(a) == cstr(b)
        }),
{
    lemma_nul_index(a);
    lemma_nul_index(b);
    lemma_str_diff_zero_from(a, b, 0, fold);
}

proof fn lemma_str_diff_zero_from(a: Seq<u8>, b: Seq<u8>, i: nat, fold: bool)
    requires
        i <= nul_index(a),
        i <= nul_index(b),
        0 <= nul_index(a) <= a.len(),
        0 <= nul_index(b) <= b.len(),
        forall|j: int| 0 <= j < nul_index(a) ==> a[j] != 0,
        nul_index(a) < a.len() ==> a[nul_index(a)] == 0,
        forall|j: int| 0 <= j < nul_index(b) ==> b[j] != 0,
        nul_index(b) < b.len() ==> b[nul_index(b)] == 0,
        forall|j: int|
            0 <= j < i ==> (if fold { lower(a[j]) == lower(b[j]) } else { a[j] == b[j] }),
    ensures
        (str_diff_from(a, b, i, fold) == 0) == (if fold {
            lower_all(cstr(a)) == lower_all(cstr(b))
        } else {
            cstr(a) == cstr(b)
        }),
    decreases a.len() - i,
{
    let na = nul_index(a);
    let nb = nul_index(b);
    let ca = byte_at(a, i as int);
    let cb = byte_at(b, i as int);
    let x = if fold { lower(ca) } else { ca };
    let y = if fold { lower(cb) } else { cb };
    assert(i < na ==> ca != 0);
    assert(i == na ==> ca == 0);
    assert(i < nb ==> cb != 0);
    assert(i == nb ==> cb == 0);
    let sa = cstr(a);
    let sb = cstr(b);
    if x != y {
        // the strings differ at i, or one ends there
        if fold {
            if i < na && i < nb {
                assert(lower_all(sa)[i as int] != lower_all(sb)[i as int]);
            } else {
                assert(lower_all(sa).len() != lower_all(sb).len());
            }
        } else {
            if i < na && i < nb {
                assert(sa[i as int] != sb[i as int]);
            } else {
                assert(sa.len() != sb.len());
            }
        }
    } else if ca == 0 || i >= a.len() {
        // both end at i
        assert(i == na);
        assert(cb == 0);
        assert(i == nb);
        if fold {
            assert(lower_all(sa) =~= lower_all(sb));
        } else {
            assert(sa =~= sb);
        }
    } else {
        assert(i < nb);
        lemma_str_diff_zero_from(a, b, i + 1, fold);
    }
}

} // verus!
