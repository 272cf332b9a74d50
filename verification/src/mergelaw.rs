//! Merging the generated merge patch restores the target: when
//! `cjson_utils_generate_merge_patch(from, to)` is merged into `from` with
//! `cjson_utils_merge_patch`, the result compares equal to `to` (both as
//! generating the patch leaves them), for trees whose keys the patch
//! utilities can tell apart.

use vstd::prelude::*;
use crate::model::{JsonNode, type_byte, node_of_type, CJSON_NULL, CJSON_NUMBER, CJSON_STRING, CJSON_ARRAY, CJSON_OBJECT, CJSON_RAW};
use crate::text::{cstr, c_str_diff, str_diff_from, byte_at, lower, lower_all};
use crate::manip::{
    same_tree, same_elements, members_found, find_member, find_member_from, known_type, node_count, list_count,
    lemma_list_count, dup_tree, dup_list, keyed, with_kids, self_comparable,
};
use crate::utils::{
    key_diff, sorted_spec, json_equal, pairs_equal, merged, merge_members, merge_gen, merge_gen_members, take_member, compared, compared_list, ascending,
    lemma_merge_gen_objects, lemma_mgm_empty, lemma_mgm_remove, lemma_mgm_add, lemma_mgm_pair, lemma_compared_count,
    law_sort_orders_keys, all_keyed, key_ordered, lemma_str_diff_swap, lemma_count_sorted,
};

verus! {

// ---------------------------------------------------------------------------
// Keys.
// ---------------------------------------------------------------------------

/// A member's key, an absent one read as empty.
pub open spec fn key_of(n: JsonNode) -> Seq<u8> {
    match n.string {
        Some(k) => k,
        None => Seq::empty(),
    }
}

/// Whether two keys match with ASCII case folded.
pub open spec fn fold_eq(a: Seq<u8>, b: Seq<u8>) -> bool {
    c_str_diff(a, b, true) == 0
}

/// Whether folded and exact comparison order the two keys alike.
pub open spec fn orders_agree(a: Seq<u8>, b: Seq<u8>) -> bool {
    &&& (c_str_diff(a, b, true) < 0) == (c_str_diff(a, b, false) < 0)
    &&& (c_str_diff(a, b, true) == 0) == (c_str_diff(a, b, false) == 0)
}

/// Every member has a key, no two keys match with ASCII case folded, and
/// folded and exact comparison order every two keys alike.
pub open spec fn keys_in_order(s: Seq<JsonNode>) -> bool {
    &&& forall|i: int| 0 <= i < s.len() ==> (#[trigger] s[i]).string is Some
    &&& forall|i: int, j: int|
        0 <= i < s.len() && 0 <= j < s.len() && i != j ==> !fold_eq(key_of(#[trigger] s[i]), key_of(#[trigger] s[j]))
    &&& forall|i: int, j: int|
        0 <= i < s.len() && 0 <= j < s.len() ==> orders_agree(key_of(#[trigger] s[i]), key_of(#[trigger] s[j]))
}

pub proof fn lemma_diff_zero(a: Seq<u8>, b: Seq<u8>)
    ensures
        fold_eq(a, b) == (lower_all(cstr(a)) == lower_all(cstr(b))),
        (c_str_diff(a, b, false) == 0) == (cstr(a) == cstr(b)),
        fold_eq(a, b) == fold_eq(b, a),
        (c_str_diff(a, b, false) == 0) == (c_str_diff(b, a, false) == 0),
        c_str_diff(a, b, false) == 0 ==> fold_eq(a, b),
        fold_eq(a, a),
{
    crate::text::lemma_str_diff_zero(a, b, true);
    crate::text::lemma_str_diff_zero(a, b, false);
    crate::text::lemma_str_diff_zero(b, a, true);
    crate::text::lemma_str_diff_zero(b, a, false);
    crate::text::lemma_str_diff_zero(a, a, true);
}

pub proof fn lemma_fold_eq_trans(a: Seq<u8>, b: Seq<u8>, c: Seq<u8>)
    requires
        fold_eq(a, b),
        fold_eq(b, c),
    ensures
        fold_eq(a, c),
{
    lemma_diff_zero(a, b);
    lemma_diff_zero(b, c);
    lemma_diff_zero(a, c);
}

proof fn lemma_lt_trans_from(a: Seq<u8>, b: Seq<u8>, c: Seq<u8>, i: nat, fold: bool)
    requires
        str_diff_from(a, b, i, fold) <= 0,
        str_diff_from(b, c, i, fold) <= 0,
        str_diff_from(a, b, i, fold) < 0 || str_diff_from(b, c, i, fold) < 0,
    ensures
        str_diff_from(a, c, i, fold) < 0,
    decreases a.len() - i,
{
    let ca = byte_at(a, i as int);
    let cb = byte_at(b, i as int);
    let cc = byte_at(c, i as int);
    let x = if fold { lower(ca) } else { ca };
    let y = if fold { lower(cb) } else { cb };
    let z = if fold { lower(cc) } else { cc };
    assert(x == 0 <==> ca == 0);
    assert(y == 0 <==> cb == 0);
    assert(z == 0 <==> cc == 0);
    if x == y && x != 0 && y == z {
        assert(ca != 0);
        assert(i < a.len());
        lemma_lt_trans_from(a, b, c, i + 1, fold);
    }
}

/// Comparison of keys (folded or exact) orders them: strictly below and at
/// most equal chain together.
pub proof fn lemma_lt_trans(a: Seq<u8>, b: Seq<u8>, c: Seq<u8>, fold: bool)
    requires
        c_str_diff(a, b, fold) <= 0,
        c_str_diff(b, c, fold) <= 0,
        c_str_diff(a, b, fold) < 0 || c_str_diff(b, c, fold) < 0,
    ensures
        c_str_diff(a, c, fold) < 0,
{
    lemma_lt_trans_from(a, b, c, 0, fold);
}

pub proof fn lemma_swap(a: Seq<u8>, b: Seq<u8>, fold: bool)
    ensures
        c_str_diff(a, b, fold) == -c_str_diff(b, a, fold),
{
    lemma_str_diff_swap(a, b, 0, fold);
}

// ---------------------------------------------------------------------------
// Sorted member lists.
// ---------------------------------------------------------------------------

pub proof fn lemma_count_two<A>(s: Seq<A>, p: int, q: int)
    requires
        0 <= p < s.len(),
        0 <= q < s.len(),
        p != q,
        s[p] == s[q],
    ensures
        s.to_multiset().count(s[p]) >= 2,
{
    let x = s[p];
    vstd::seq_lib::to_multiset_remove(s, p);
    let r = s.remove(p);
    let q2 = if q < p { q } else { q - 1 };
    assert(r[q2] == x);
    assert(r.contains(x));
    vstd::seq_lib::to_multiset_contains(r, x);
    assert(s.to_multiset().remove(x) =~= r.to_multiset());
    vstd::seq_lib::to_multiset_contains(s, x);
    assert(s.contains(x));
}

pub proof fn lemma_two_positions<A>(s: Seq<A>, x: A)
    requires
        s.to_multiset().count(x) >= 2,
    ensures
        exists|i: int, j: int| 0 <= i < s.len() && 0 <= j < s.len() && i != j && s[i] == x && s[j] == x,
{
    vstd::seq_lib::to_multiset_contains(s, x);
    assert(s.contains(x));
    let i = choose|i: int| 0 <= i < s.len() && s[i] == x;
    vstd::seq_lib::to_multiset_remove(s, i);
    let r = s.remove(i);
    assert(s.to_multiset().remove(x) =~= r.to_multiset());
    vstd::seq_lib::to_multiset_contains(r, x);
    assert(r.contains(x));
    let k = choose|k: int| 0 <= k < r.len() && r[k] == x;
    let j = if k < i { k } else { k + 1 };
    assert(s[j] == x);
}

/// A rearrangement of members keeps the conditions on their keys, and each
/// member of one list is a member of the other.
pub proof fn lemma_perm_keys(s: Seq<JsonNode>, t: Seq<JsonNode>)
    requires
        t.to_multiset() == s.to_multiset(),
        keys_in_order(s),
    ensures
        keys_in_order(t),
        forall|p: int| 0 <= p < t.len() ==> s.contains(#[trigger] t[p]),
        forall|i: int| 0 <= i < s.len() ==> t.contains(#[trigger] s[i]),
{
    assert forall|p: int| 0 <= p < t.len() implies s.contains(#[trigger] t[p]) by {
        vstd::seq_lib::to_multiset_contains(t, t[p]);
        vstd::seq_lib::to_multiset_contains(s, t[p]);
        assert(t.contains(t[p]));
    }
    assert forall|i: int| 0 <= i < s.len() implies t.contains(#[trigger] s[i]) by {
        vstd::seq_lib::to_multiset_contains(t, s[i]);
        vstd::seq_lib::to_multiset_contains(s, s[i]);
        assert(s.contains(s[i]));
    }
    assert forall|p: int| 0 <= p < t.len() implies (#[trigger] t[p]).string is Some by {
        let i = choose|i: int| 0 <= i < s.len() && s[i] == t[p];
        assert(s[i].string is Some);
    }
    assert forall|p: int, q: int|
        0 <= p < t.len() && 0 <= q < t.len() && p != q implies !fold_eq(key_of(#[trigger] t[p]), key_of(#[trigger] t[q])) by {
        let i = choose|i: int| 0 <= i < s.len() && s[i] == t[p];
        let j = choose|j: int| 0 <= j < s.len() && s[j] == t[q];
        if t[p] == t[q] {
            lemma_count_two(t, p, q);
            lemma_two_positions(s, t[p]);
            let (i2, j2) = choose|i2: int, j2: int| 0 <= i2 < s.len() && 0 <= j2 < s.len() && i2 != j2 && s[i2] == t[p] && s[j2] == t[p];
            assert(!fold_eq(key_of(s[i2]), key_of(s[j2])));
            lemma_diff_zero(key_of(t[p]), key_of(t[p]));
        } else {
            assert(i != j);
            assert(!fold_eq(key_of(s[i]), key_of(s[j])));
        }
    }
    assert forall|p: int, q: int|
        0 <= p < t.len() && 0 <= q < t.len() implies orders_agree(key_of(#[trigger] t[p]), key_of(#[trigger] t[q])) by {
        let i = choose|i: int| 0 <= i < s.len() && s[i] == t[p];
        let j = choose|j: int| 0 <= j < s.len() && s[j] == t[q];
        assert(orders_agree(key_of(s[i]), key_of(s[j])));
    }
}

/// Sorting members whose keys are in order gives a rearrangement whose keys
/// strictly ascend, folded or exact.
pub proof fn lemma_sorted_strict(s: Seq<JsonNode>)
    requires
        keys_in_order(s),
    ensures
        sorted_spec(s, false).to_multiset() == s.to_multiset(),
        sorted_spec(s, false).len() == s.len(),
        keys_in_order(sorted_spec(s, false)),
        forall|p: int, q: int| 0 <= p < q < sorted_spec(s, false).len() ==>
            c_str_diff(key_of(#[trigger] sorted_spec(s, false)[p]), key_of(#[trigger] sorted_spec(s, false)[q]), true) < 0,
        forall|p: int, q: int| 0 <= p < q < sorted_spec(s, false).len() ==>
            c_str_diff(key_of(#[trigger] sorted_spec(s, false)[p]), key_of(#[trigger] sorted_spec(s, false)[q]), false) < 0,
{
    let t = sorted_spec(s, false);
    assert(all_keyed(s)) by {
        assert forall|i: int| 0 <= i < s.len() implies (#[trigger] s[i]).string is Some by {
        }
    }
    law_sort_orders_keys(s, false);
    crate::utils::lemma_sorted_perm(s, false);
    lemma_perm_keys(s, t);
    assert forall|p: int| 0 <= p < t.len() - 1 implies c_str_diff(key_of(#[trigger] t[p]), key_of(t[p + 1]), true) < 0 by {
        assert(key_diff(t[p].string, t[p + 1].string, false) <= 0);
        assert(t[p].string is Some && t[p + 1].string is Some);
        assert(!fold_eq(key_of(t[p]), key_of(t[p + 1])));
    }
    assert forall|p: int, q: int| 0 <= p < q < t.len() implies c_str_diff(key_of(#[trigger] t[p]), key_of(#[trigger] t[q]), true) < 0 by {
        lemma_ascend(t, p, q);
    }
    assert forall|p: int, q: int| 0 <= p < q < t.len() implies c_str_diff(key_of(#[trigger] t[p]), key_of(#[trigger] t[q]), false) < 0 by {
        lemma_ascend(t, p, q);
        assert(orders_agree(key_of(t[p]), key_of(t[q])));
    }
}

proof fn lemma_ascend(t: Seq<JsonNode>, p: int, q: int)
    requires
        0 <= p < q < t.len(),
        forall|k: int| 0 <= k < t.len() - 1 ==> c_str_diff(key_of(#[trigger] t[k]), key_of(t[k + 1]), true) < 0,
    ensures
        c_str_diff(key_of(t[p]), key_of(t[q]), true) < 0,
    decreases q - p,
{
    if q > p + 1 {
        lemma_ascend(t, p, q - 1);
        let k = q - 1;
        assert(c_str_diff(key_of(t[k]), key_of(t[k + 1]), true) < 0);
        lemma_lt_trans(key_of(t[p]), key_of(t[q - 1]), key_of(t[q]), true);
    }
}

proof fn lemma_pairs_at(sa: Seq<JsonNode>, sb: Seq<JsonNode>, cs: bool, close: spec_fn(u64, u64) -> bool, keys: bool)
    requires
        pairs_equal(sa, sb, cs, close, keys),
    ensures
        sa.len() == sb.len(),
        forall|p: int| 0 <= p < sa.len() ==> (keys ==> key_diff((#[trigger] sa[p]).string, sb[p].string, cs) == 0)
            && json_equal(sa[p], sb[p], cs, close),
    decreases sa.len(),
{
    if sa.len() > 0 && sb.len() > 0 {
        let ra = sa.subrange(1, sa.len() as int);
        let rb = sb.subrange(1, sb.len() as int);
        lemma_pairs_at(ra, rb, cs, close, keys);
        assert forall|p: int| 0 <= p < sa.len() implies (keys ==> key_diff((#[trigger] sa[p]).string, sb[p].string, cs) == 0)
            && json_equal(sa[p], sb[p], cs, close) by {
            if p > 0 {
                assert(sa[p] == ra[p - 1]);
                assert(sb[p] == rb[p - 1]);
            }
        }
    }
}


// ---------------------------------------------------------------------------
// Which trees the law is about.
// ---------------------------------------------------------------------------

/// Whether the patch utilities can work on a tree taken apart: strings
/// have their text, and the members of every object have keys in order.
pub open spec fn patchable(n: JsonNode) -> bool
    decreases n, 1int,
{
    let t = type_byte(n.type_);
    &&& t == CJSON_STRING ==> n.valuestring is Some
    &&& (t == CJSON_ARRAY || t == CJSON_OBJECT) ==> patchable_list(n.child)
    &&& t == CJSON_OBJECT ==> keys_in_order(n.child)
}

pub open spec fn patchable_list(s: Seq<JsonNode>) -> bool
    decreases s, 0int,
{
    s.len() == 0 || (patchable(s[0]) && patchable_list(s.subrange(1, s.len() as int)))
}

/// Whether a merge patch towards `n` can be built and read back, and the
/// result compared with `n`: every node has a known type other than raw,
/// numbers are ones that `close` accepts as equal to themselves, strings
/// have their text, object members have keys in order, and, where `nn`
/// (objects reached from the root through object members only), no member
/// is null.
pub open spec fn target_ok(n: JsonNode, close: spec_fn(u64, u64) -> bool, nn: bool) -> bool
    decreases n, 1int,
{
    let t = type_byte(n.type_);
    &&& known_type(t)
    &&& t != CJSON_RAW
    &&& t == CJSON_NUMBER ==> close(n.valuedouble, n.valuedouble)
    &&& t == CJSON_STRING ==> n.valuestring is Some
    &&& t == CJSON_ARRAY ==> targets_ok(n.child, close, false, false)
    &&& t == CJSON_OBJECT ==> targets_ok(n.child, close, nn, nn) && keys_in_order(n.child)
}

pub open spec fn targets_ok(s: Seq<JsonNode>, close: spec_fn(u64, u64) -> bool, no_null: bool, nn: bool) -> bool
    decreases s, 0int,
{
    s.len() == 0 || (target_ok(s[0], close, nn) && (no_null ==> type_byte(s[0].type_) != CJSON_NULL) && targets_ok(
        s.subrange(1, s.len() as int),
        close,
        no_null,
        nn,
    ))
}

/// Whether folded and exact comparison order alike the keys of every two
/// objects that comparing `f` with `t` sets side by side (members with
/// matching keys, and array elements at the same index).
pub open spec fn keys_agree(f: JsonNode, t: JsonNode) -> bool
    decreases t, 1int,
{
    let tf = type_byte(f.type_);
    let tt = type_byte(t.type_);
    if tf == CJSON_OBJECT && tt == CJSON_OBJECT {
        keys_agree_members(f.child, t.child)
    } else if tf == CJSON_ARRAY && tt == CJSON_ARRAY {
        keys_agree_items(f.child, t.child)
    } else {
        true
    }
}

pub open spec fn keys_agree_members(fs: Seq<JsonNode>, ts: Seq<JsonNode>) -> bool
    decreases ts, 0int,
{
    ts.len() == 0 || ((forall|i: int| 0 <= i < fs.len() ==> #[trigger] orders_agree(key_of(fs[i]), key_of(ts[0])))
        && (forall|i: int| 0 <= i < fs.len() ==> #[trigger] fold_eq(key_of(fs[i]), key_of(ts[0])) ==> keys_agree(fs[i], ts[0]))
        && keys_agree_members(fs, ts.subrange(1, ts.len() as int)))
}

pub open spec fn keys_agree_items(fs: Seq<JsonNode>, ts: Seq<JsonNode>) -> bool
    decreases ts, 0int,
{
    ts.len() == 0 || fs.len() == 0 || (keys_agree(fs[0], ts[0]) && keys_agree_items(
        fs.subrange(1, fs.len() as int),
        ts.subrange(1, ts.len() as int),
    ))
}

/// Whether every `null` member that `t`'s objects hold is one that `f`
/// already has: members of `t` without a member of `f` under a matching key
/// (ASCII case folded) are copied whole and may hold no `null` member in
/// objects reached through object members; members with one keep the
/// condition against it, and are `null` only where it is.
pub open spec fn nulls_kept(f: JsonNode, t: JsonNode, close: spec_fn(u64, u64) -> bool) -> bool
    decreases t, 1int,
{
    if type_byte(t.type_) != CJSON_OBJECT {
        true
    } else if type_byte(f.type_) != CJSON_OBJECT {
        target_ok(t, close, true)
    } else {
        nulls_kept_members(f.child, t.child, close)
    }
}

pub open spec fn nulls_kept_members(fs: Seq<JsonNode>, ts: Seq<JsonNode>, close: spec_fn(u64, u64) -> bool) -> bool
    decreases ts, 0int,
{
    ts.len() == 0 || (nulls_member_ok(fs, ts[0], close) && nulls_kept_members(fs, ts.subrange(1, ts.len() as int), close))
}

/// The condition for one member `y` of `t` against the members `fs` of `f`.
pub open spec fn nulls_member_ok(fs: Seq<JsonNode>, y: JsonNode, close: spec_fn(u64, u64) -> bool) -> bool
    decreases y, 2int,
{
    &&& forall|i: int|
        0 <= i < fs.len() && #[trigger] fold_eq(key_of(fs[i]), key_of(y)) ==> nulls_kept(fs[i], y, close) && (type_byte(
            y.type_,
        ) == CJSON_NULL ==> type_byte(fs[i].type_) == CJSON_NULL)
    &&& (forall|i: int| 0 <= i < fs.len() ==> !#[trigger] fold_eq(key_of(fs[i]), key_of(y))) ==> type_byte(y.type_)
        != CJSON_NULL && target_ok(y, close, true)
}

proof fn lemma_nulls_members_all(fs: Seq<JsonNode>, ts: Seq<JsonNode>, close: spec_fn(u64, u64) -> bool)
    ensures
        nulls_kept_members(fs, ts, close) <==> forall|j: int| 0 <= j < ts.len() ==> nulls_member_ok(fs, #[trigger] ts[j], close),
    decreases ts.len(),
{
    if ts.len() > 0 {
        let r = ts.subrange(1, ts.len() as int);
        lemma_nulls_members_all(fs, r, close);
        if forall|j: int| 0 <= j < ts.len() ==> nulls_member_ok(fs, #[trigger] ts[j], close) {
            assert forall|j: int| 0 <= j < r.len() implies nulls_member_ok(fs, #[trigger] r[j], close) by {
                assert(r[j] == ts[j + 1]);
            }
            assert(nulls_member_ok(fs, ts[0], close));
        }
        if nulls_kept_members(fs, ts, close) {
            assert forall|j: int| 0 <= j < ts.len() implies nulls_member_ok(fs, #[trigger] ts[j], close) by {
                if j > 0 {
                    assert(ts[j] == r[j - 1]);
                }
            }
        }
    }
}

/// The condition for a member against a list depends only on which members
/// the list holds.
proof fn lemma_nulls_member_perm(fs: Seq<JsonNode>, gs: Seq<JsonNode>, y: JsonNode, close: spec_fn(u64, u64) -> bool)
    requires
        nulls_member_ok(fs, y, close),
        forall|p: int| 0 <= p < gs.len() ==> fs.contains(#[trigger] gs[p]),
        forall|i: int| 0 <= i < fs.len() ==> gs.contains(#[trigger] fs[i]),
    ensures
        nulls_member_ok(gs, y, close),
{
    assert forall|p: int| 0 <= p < gs.len() && #[trigger] fold_eq(key_of(gs[p]), key_of(y)) implies nulls_kept(gs[p], y, close)
        && (type_byte(y.type_) == CJSON_NULL ==> type_byte(gs[p].type_) == CJSON_NULL) by {
        assert(fs.contains(gs[p]));
        let i = choose|i: int| 0 <= i < fs.len() && fs[i] == gs[p];
        assert(fold_eq(key_of(fs[i]), key_of(y)));
    }
    if forall|p: int| 0 <= p < gs.len() ==> !#[trigger] fold_eq(key_of(gs[p]), key_of(y)) {
        assert forall|i: int| 0 <= i < fs.len() implies !#[trigger] fold_eq(key_of(fs[i]), key_of(y)) by {
            assert(gs.contains(fs[i]));
            let p = choose|p: int| 0 <= p < gs.len() && gs[p] == fs[i];
            assert(!fold_eq(key_of(gs[p]), key_of(y)));
        }
    }
}

proof fn lemma_patchable_at(s: Seq<JsonNode>, i: int)
    requires
        patchable_list(s),
        0 <= i < s.len(),
    ensures
        patchable(s[i]),
    decreases i,
{
    if i > 0 {
        lemma_patchable_at(s.subrange(1, s.len() as int), i - 1);
    }
}

proof fn lemma_targets_at(s: Seq<JsonNode>, close: spec_fn(u64, u64) -> bool, no_null: bool, nn: bool, i: int)
    requires
        targets_ok(s, close, no_null, nn),
        0 <= i < s.len(),
    ensures
        target_ok(s[i], close, nn),
        no_null ==> type_byte(s[i].type_) != CJSON_NULL,
    decreases i,
{
    if i > 0 {
        lemma_targets_at(s.subrange(1, s.len() as int), close, no_null, nn, i - 1);
    }
}

proof fn lemma_agree_members_at(fs: Seq<JsonNode>, ts: Seq<JsonNode>, i: int, j: int)
    requires
        keys_agree_members(fs, ts),
        0 <= i < fs.len(),
        0 <= j < ts.len(),
    ensures
        orders_agree(key_of(fs[i]), key_of(ts[j])),
        fold_eq(key_of(fs[i]), key_of(ts[j])) ==> keys_agree(fs[i], ts[j]),
    decreases j,
{
    if j > 0 {
        lemma_agree_members_at(fs, ts.subrange(1, ts.len() as int), i, j - 1);
    } else {
        assert(orders_agree(key_of(fs[i]), key_of(ts[0])));
    }
}

proof fn lemma_agree_items_at(fs: Seq<JsonNode>, ts: Seq<JsonNode>, p: int)
    requires
        keys_agree_items(fs, ts),
        0 <= p < fs.len(),
        p < ts.len(),
    ensures
        keys_agree(fs[p], ts[p]),
    decreases p,
{
    if p > 0 {
        lemma_agree_items_at(fs.subrange(1, fs.len() as int), ts.subrange(1, ts.len() as int), p - 1);
    }
}


// ---------------------------------------------------------------------------
// What the patch utilities judge equal compares equal.
// ---------------------------------------------------------------------------

pub proof fn lemma_found_each(sa: Seq<JsonNode>, bk: Seq<JsonNode>, cs: bool, close: spec_fn(u64, u64) -> bool, from: int)
    requires
        0 <= from <= sa.len(),
        forall|i: int| 0 <= i < sa.len() ==> ((#[trigger] sa[i]).string matches Some(k) && find_member(bk, k, cs) matches Some(j)
            && 0 <= j < bk.len() && same_tree(sa[i], bk[j], cs, close)),
    ensures
        members_found(sa.subrange(from, sa.len() as int), bk, cs, close),
    decreases sa.len() - from,
{
    let s = sa.subrange(from, sa.len() as int);
    if from < sa.len() {
        lemma_found_each(sa, bk, cs, close, from + 1);
        assert(s[0] == sa[from]);
        assert(s.subrange(1, s.len() as int) =~= sa.subrange(from + 1, sa.len() as int));
        assert(sa[from].string is Some);
    }
}

/// Keys in order are told apart by exact comparison too.
proof fn lemma_exact_distinct(s: Seq<JsonNode>)
    requires
        keys_in_order(s),
    ensures
        crate::manip::distinct_keys(s, true),
        crate::manip::distinct_keys(s, false),
{
    assert forall|i: int, j: int|
        0 <= i < s.len() && 0 <= j < s.len() && i != j implies c_str_diff(
            (#[trigger] s[i]).string.unwrap(),
            (#[trigger] s[j]).string.unwrap(),
            false,
        ) != 0 by {
        assert(!fold_eq(key_of(s[i]), key_of(s[j])));
        lemma_diff_zero(key_of(s[i]), key_of(s[j]));
    }
    assert forall|i: int, j: int|
        0 <= i < s.len() && 0 <= j < s.len() && i != j implies c_str_diff(
            (#[trigger] s[i]).string.unwrap(),
            (#[trigger] s[j]).string.unwrap(),
            true,
        ) != 0 by {
        assert(!fold_eq(key_of(s[i]), key_of(s[j])));
    }
}

proof fn lemma_count_lt(f: JsonNode, i: int, t: JsonNode, j: int)
    requires
        0 <= i < f.child.len(),
        0 <= j < t.child.len(),
    ensures
        node_count(f.child[i]) + node_count(t.child[j]) < node_count(f) + node_count(t),
{
    lemma_list_count(f.child, i);
    lemma_list_count(t.child, j);
}

/// Whatever the patch utilities judge equal (`json_equal`, keys folded)
/// `cjson_compare` judges equal both ways, for trees whose keys are in
/// order.
pub proof fn lemma_equal_same(f: JsonNode, t: JsonNode, close: spec_fn(u64, u64) -> bool, nn: bool)
    requires
        forall|a: u64, b: u64| #[trigger] close(a, b) == close(b, a),
        patchable(f),
        target_ok(t, close, nn),
        keys_agree(f, t),
        json_equal(f, t, false, close),
    ensures
        same_tree(f, t, true, close),
        same_tree(t, f, true, close),
    decreases node_count(f) + node_count(t), 1int,
{
    let tt = type_byte(t.type_);
    if tt == CJSON_NUMBER {
        assert(close(f.valuedouble, t.valuedouble) == close(t.valuedouble, f.valuedouble));
    } else if tt == CJSON_STRING {
        lemma_diff_zero(f.valuestring.unwrap(), t.valuestring.unwrap());
    } else if tt == CJSON_ARRAY {
        lemma_equal_same_array(f, t, close, nn);
    } else if tt == CJSON_OBJECT {
        lemma_equal_same_object(f, t, close, nn, true);
        lemma_equal_same_object(f, t, close, nn, false);
    }
}

#[verifier::rlimit(40)]
proof fn lemma_equal_same_array(f: JsonNode, t: JsonNode, close: spec_fn(u64, u64) -> bool, nn: bool)
    requires
        forall|a: u64, b: u64| #[trigger] close(a, b) == close(b, a),
        patchable(f),
        target_ok(t, close, nn),
        keys_agree(f, t),
        json_equal(f, t, false, close),
        type_byte(t.type_) == CJSON_ARRAY,
    ensures
        same_tree(f, t, true, close),
        same_tree(t, f, true, close),
    decreases node_count(f) + node_count(t), 0int,
{
    lemma_pairs_at(f.child, t.child, false, close, false);
    assert forall|p: int| 0 <= p < f.child.len() implies same_tree(#[trigger] f.child[p], t.child[p], true, close)
        && same_tree(t.child[p], f.child[p], true, close) by {
        lemma_patchable_at(f.child, p);
        lemma_targets_at(t.child, close, false, false, p);
        lemma_agree_items_at(f.child, t.child, p);
        lemma_count_lt(f, p, t, p);
        lemma_equal_same(f.child[p], t.child[p], close, false);
    }
    crate::manip::lemma_elements_same(f.child, t.child, 0, true, close, 0);
    assert forall|p: int| 0 <= p < t.child.len() implies same_tree(#[trigger] t.child[p], f.child[p], true, close) by {
        assert(same_tree(t.child[p], f.child[p], true, close));
    }
    crate::manip::lemma_elements_same(t.child, f.child, 0, true, close, 0);
    assert(f.child.subrange(0, f.child.len() as int) =~= f.child);
    assert(t.child.subrange(0, t.child.len() as int) =~= t.child);
}

/// One direction of the object case: every member of `f` (when `fwd`) or
/// of `t` finds an equal member of the other.
#[verifier::rlimit(100)]
#[verifier::spinoff_prover]
proof fn lemma_equal_same_object(f: JsonNode, t: JsonNode, close: spec_fn(u64, u64) -> bool, nn: bool, fwd: bool)
    requires
        forall|a: u64, b: u64| #[trigger] close(a, b) == close(b, a),
        patchable(f),
        target_ok(t, close, nn),
        keys_agree(f, t),
        json_equal(f, t, false, close),
        type_byte(t.type_) == CJSON_OBJECT,
    ensures
        fwd ==> members_found(f.child, t.child, true, close),
        !fwd ==> members_found(t.child, f.child, true, close),
    decreases node_count(f) + node_count(t), 0int,
{
    let fk = f.child;
    let tk = t.child;
    let sf = sorted_spec(fk, false);
    let st = sorted_spec(tk, false);
    lemma_sorted_strict(fk);
    lemma_sorted_strict(tk);
    lemma_perm_keys(fk, sf);
    lemma_perm_keys(tk, st);
    lemma_pairs_at(sf, st, false, close, true);
    lemma_exact_distinct(tk);
    lemma_exact_distinct(fk);
    if fwd {
        assert forall|i: int| 0 <= i < fk.len() implies ((#[trigger] fk[i]).string matches Some(k) && find_member(tk, k, true) matches Some(j)
            && 0 <= j < tk.len() && same_tree(fk[i], tk[j], true, close)) by {
            let x = fk[i];
            assert(sf.contains(x));
            let p = choose|p: int| 0 <= p < sf.len() && sf[p] == x;
            let y = st[p];
            assert(tk.contains(y));
            let j = choose|j: int| 0 <= j < tk.len() && tk[j] == y;
            assert(key_diff(sf[p].string, st[p].string, false) == 0);
            assert(fold_eq(key_of(x), key_of(y)));
            lemma_agree_members_at(fk, tk, i, j);
            lemma_diff_zero(key_of(x), key_of(y));
            crate::manip::lemma_find_distinct(tk, key_of(x), true, j, 0);
            lemma_patchable_at(fk, i);
            lemma_targets_at(tk, close, nn, nn, j);
            lemma_count_lt(f, i, t, j);
            lemma_equal_same(x, y, close, nn);
        }
        lemma_found_each(fk, tk, true, close, 0);
        assert(fk.subrange(0, fk.len() as int) =~= fk);
    } else {
        assert forall|j: int| 0 <= j < tk.len() implies ((#[trigger] tk[j]).string matches Some(k) && find_member(fk, k, true) matches Some(i)
            && 0 <= i < fk.len() && same_tree(tk[j], fk[i], true, close)) by {
            let y = tk[j];
            assert(st.contains(y));
            let p = choose|p: int| 0 <= p < st.len() && st[p] == y;
            let x = sf[p];
            assert(fk.contains(x));
            let i = choose|i: int| 0 <= i < fk.len() && fk[i] == x;
            assert(key_diff(sf[p].string, st[p].string, false) == 0);
            assert(fold_eq(key_of(x), key_of(y)));
            lemma_agree_members_at(fk, tk, i, j);
            lemma_diff_zero(key_of(x), key_of(y));
            lemma_diff_zero(key_of(y), key_of(x));
            crate::manip::lemma_find_distinct(fk, key_of(y), true, i, 0);
            lemma_patchable_at(fk, i);
            lemma_targets_at(tk, close, nn, nn, j);
            lemma_count_lt(f, i, t, j);
            lemma_equal_same(x, y, close, nn);
        }
        lemma_found_each(tk, fk, true, close, 0);
        assert(tk.subrange(0, tk.len() as int) =~= tk);
    }
}


// ---------------------------------------------------------------------------
// Copies and keys.
// ---------------------------------------------------------------------------

/// A copy does not depend on the depth it was made at, as long as it can
/// be made.
pub proof fn lemma_dup_depth(n: JsonNode, d: int, d2: int)
    requires
        d2 <= d,
        dup_tree(n, d, true) is Some,
    ensures
        dup_tree(n, d2, true) == dup_tree(n, d, true),
    decreases n, 1int,
{
    lemma_dup_list_depth(n.child, d + 1, d2 + 1);
}

proof fn lemma_dup_list_depth(s: Seq<JsonNode>, d: int, d2: int)
    requires
        d2 <= d,
        dup_list(s, d) is Some,
    ensures
        dup_list(s, d2) == dup_list(s, d),
    decreases s, 0int,
{
    if s.len() > 0 {
        lemma_dup_depth(s[0], d, d2);
        lemma_dup_list_depth(s.subrange(1, s.len() as int), d, d2);
    }
}

proof fn lemma_targets_comparable(s: Seq<JsonNode>, close: spec_fn(u64, u64) -> bool, no_null: bool, nn: bool)
    requires
        targets_ok(s, close, no_null, nn),
    ensures
        crate::manip::comparable_list(s, true, close),
    decreases s, 0int,
{
    if s.len() > 0 {
        lemma_target_comparable(s[0], close, nn);
        lemma_targets_comparable(s.subrange(1, s.len() as int), close, no_null, nn);
    }
}

/// A target tree can be compared with a copy of itself.
pub proof fn lemma_target_comparable(n: JsonNode, close: spec_fn(u64, u64) -> bool, nn: bool)
    requires
        target_ok(n, close, nn),
    ensures
        self_comparable(n, true, close),
    decreases n, 1int,
{
    let t = type_byte(n.type_);
    if t == CJSON_ARRAY {
        lemma_targets_comparable(n.child, close, false, false);
    } else if t == CJSON_OBJECT {
        lemma_targets_comparable(n.child, close, nn, nn);
        lemma_exact_distinct(n.child);
    }
}

/// Comparison looks at neither a node's key nor its flags.
pub proof fn lemma_same_tree_keyed(a: JsonNode, k: Seq<u8>, c: bool, b: JsonNode, close: spec_fn(u64, u64) -> bool)
    ensures
        same_tree(keyed(a, k, c), b, true, close) == same_tree(a, b, true, close),
        same_tree(b, keyed(a, k, c), true, close) == same_tree(b, a, true, close),
{
    crate::model::lemma_type_words(a.type_);
    let ka = keyed(a, k, c);
    assert(type_byte(ka.type_) == type_byte(a.type_));
    assert(ka.child == a.child && ka.valuestring == a.valuestring && ka.valuedouble == a.valuedouble);
}


// ---------------------------------------------------------------------------
// Merging a copy of a target into nothing rebuilds it.
// ---------------------------------------------------------------------------

/// The member that merging the patch member `pc` into nothing appends.
pub open spec fn rebuilt(pc: JsonNode) -> JsonNode {
    keyed(merged(None, pc, false).unwrap(), pc.string.unwrap(), false)
}

pub open spec fn rebuilt_list(ks: Seq<JsonNode>) -> Seq<JsonNode> {
    ks.map_values(|pc: JsonNode| rebuilt(pc))
}

/// Merging a copy of a target into nothing gives a tree that compares
/// equal to the target both ways.
pub proof fn lemma_rebuild(t: JsonNode, d: int, close: spec_fn(u64, u64) -> bool)
    requires
        target_ok(t, close, true),
        dup_tree(t, d, true) is Some,
        0 <= d,
    ensures
        merged(None, dup_tree(t, d, true).unwrap(), false) matches Some(r) && same_tree(r, t, true, close) && same_tree(
            t,
            r,
            true,
            close,
        ),
    decreases t, 2int, 0int,
{
    let q = dup_tree(t, d, true).unwrap();
    crate::model::lemma_type_words(t.type_);
    assert(type_byte(q.type_) == type_byte(t.type_));
    lemma_target_comparable(t, close, true);
    crate::manip::law_duplicate_compares_equal(t, d, true, close);
    if type_byte(t.type_) != CJSON_OBJECT {
        crate::manip::law_duplicate_twice(t, d);
        lemma_dup_depth(q, d, 0);
    } else {
        lemma_rebuild_object(t, d, close);
    }
}

#[verifier::rlimit(60)]
proof fn lemma_rebuild_object(t: JsonNode, d: int, close: spec_fn(u64, u64) -> bool)
    requires
        target_ok(t, close, true),
        dup_tree(t, d, true) is Some,
        0 <= d,
        type_byte(t.type_) == CJSON_OBJECT,
    ensures
        merged(None, dup_tree(t, d, true).unwrap(), false) matches Some(r) && same_tree(r, t, true, close) && same_tree(
            t,
            r,
            true,
            close,
        ),
    decreases t, 1int, 0int,
{
    let q = dup_tree(t, d, true).unwrap();
    crate::model::lemma_type_words(t.type_);
    assert(type_byte(q.type_) == type_byte(t.type_));
    let ks = dup_list(t.child, d + 1).unwrap();
    assert(q.child == ks);
    crate::manip::lemma_dup_list_at(t.child, d + 1, ks);
    let start = node_of_type(CJSON_OBJECT);
    assert(with_kids(start, Seq::<JsonNode>::empty()) == start);
    assert(ks.subrange(0, ks.len() as int) =~= ks);
    lemma_rebuild_members(t, d, close, ks, 0, Seq::empty());
    let kids = rebuilt_list(ks);
    assert(Seq::<JsonNode>::empty() + kids =~= kids);
    let r = with_kids(start, kids);
    assert(merged(None, q, false) == Some(r));
    assert forall|j: int| 0 <= j < t.child.len() implies (#[trigger] ks[j]).string == opt_cstr_of(t.child[j].string) by {
        assert(dup_tree(t.child[j], d + 1, true) == Some(ks[j]));
    }
    lemma_rebuilt_compare(t, close, ks, kids);
}

pub open spec fn rebuilt_ok(t: JsonNode, close: spec_fn(u64, u64) -> bool, ks: Seq<JsonNode>, kids: Seq<JsonNode>) -> bool {
    &&& target_ok(t, close, true)
    &&& type_byte(t.type_) == CJSON_OBJECT
    &&& ks.len() == t.child.len()
    &&& kids.len() == ks.len()
    &&& forall|j: int| 0 <= j < t.child.len() ==> (#[trigger] ks[j]).string == opt_cstr_of(t.child[j].string)
    &&& forall|j: int| 0 <= j < ks.len() ==> #[trigger] kids[j] == rebuilt(ks[j])
    &&& forall|j: int| 0 <= j < ks.len() ==> (merged(None, #[trigger] ks[j], false) matches Some(r) && same_tree(r, t.child[j], true, close)
        && same_tree(t.child[j], r, true, close))
}

proof fn lemma_rebuilt_keys(t: JsonNode, close: spec_fn(u64, u64) -> bool, ks: Seq<JsonNode>, kids: Seq<JsonNode>)
    requires
        rebuilt_ok(t, close, ks, kids),
    ensures
        forall|j: int| 0 <= j < kids.len() ==> (#[trigger] kids[j]).string == Some(cstr(key_of(t.child[j]))),
        crate::manip::distinct_keys(kids, true),
        crate::manip::distinct_keys(t.child, true),
{
    lemma_exact_distinct(t.child);
    assert forall|j: int| 0 <= j < kids.len() implies (#[trigger] kids[j]).string == Some(cstr(key_of(t.child[j]))) by {
        assert(t.child[j].string is Some);
        assert(ks[j].string == Some(cstr(key_of(t.child[j]))));
        crate::text::lemma_cstr_no_nul(key_of(t.child[j]));
        crate::text::lemma_cstr_of_no_nul(cstr(key_of(t.child[j])));
    }
    assert forall|i: int, j: int|
        0 <= i < kids.len() && 0 <= j < kids.len() && i != j implies c_str_diff(
            (#[trigger] kids[i]).string.unwrap(),
            (#[trigger] kids[j]).string.unwrap(),
            false,
        ) != 0 by {
        let a = key_of(t.child[i]);
        let b = key_of(t.child[j]);
        assert(c_str_diff(a, b, false) != 0);
        crate::manip::lemma_diff_cstr(cstr(a), b, false);
        crate::manip::lemma_diff_cstr(b, a, false);
        crate::manip::lemma_diff_cstr(a, b, false);
    }
}

proof fn lemma_rebuilt_compare(t: JsonNode, close: spec_fn(u64, u64) -> bool, ks: Seq<JsonNode>, kids: Seq<JsonNode>)
    requires
        rebuilt_ok(t, close, ks, kids),
    ensures
        same_tree(with_kids(node_of_type(CJSON_OBJECT), kids), t, true, close),
        same_tree(t, with_kids(node_of_type(CJSON_OBJECT), kids), true, close),
{
    crate::model::lemma_type_words(t.type_);
    lemma_rebuilt_keys(t, close, ks, kids);
    lemma_rebuilt_fwd(t, close, ks, kids);
    lemma_rebuilt_bwd(t, close, ks, kids);
    assert(kids.subrange(0, kids.len() as int) =~= kids);
    assert(t.child.subrange(0, t.child.len() as int) =~= t.child);
}

proof fn lemma_rebuilt_fwd(t: JsonNode, close: spec_fn(u64, u64) -> bool, ks: Seq<JsonNode>, kids: Seq<JsonNode>)
    requires
        rebuilt_ok(t, close, ks, kids),
        forall|j: int| 0 <= j < kids.len() ==> (#[trigger] kids[j]).string == Some(cstr(key_of(t.child[j]))),
        crate::manip::distinct_keys(t.child, true),
    ensures
        members_found(kids.subrange(0, kids.len() as int), t.child, true, close),
{
    assert forall|j: int| 0 <= j < kids.len() implies ((#[trigger] kids[j]).string matches Some(k) && find_member(t.child, k, true) matches Some(i)
        && 0 <= i < t.child.len() && same_tree(kids[j], t.child[i], true, close)) by {
        let k = key_of(t.child[j]);
        crate::manip::lemma_diff_cstr(cstr(k), k, false);
        crate::manip::lemma_diff_cstr(k, k, false);
        crate::text::lemma_str_diff_zero(k, k, false);
        crate::manip::lemma_find_distinct(t.child, cstr(k), true, j, 0);
        assert(kids[j] == rebuilt(ks[j]));
        lemma_same_tree_keyed(merged(None, ks[j], false).unwrap(), ks[j].string.unwrap(), false, t.child[j], close);
    }
    lemma_found_each(kids, t.child, true, close, 0);
}

proof fn lemma_rebuilt_bwd(t: JsonNode, close: spec_fn(u64, u64) -> bool, ks: Seq<JsonNode>, kids: Seq<JsonNode>)
    requires
        rebuilt_ok(t, close, ks, kids),
        forall|j: int| 0 <= j < kids.len() ==> (#[trigger] kids[j]).string == Some(cstr(key_of(t.child[j]))),
        crate::manip::distinct_keys(kids, true),
    ensures
        members_found(t.child.subrange(0, t.child.len() as int), kids, true, close),
{
    assert forall|j: int| 0 <= j < t.child.len() implies ((#[trigger] t.child[j]).string matches Some(k) && find_member(kids, k, true) matches Some(i)
        && 0 <= i < kids.len() && same_tree(t.child[j], kids[i], true, close)) by {
        let k = key_of(t.child[j]);
        crate::manip::lemma_diff_cstr(k, k, false);
        crate::text::lemma_str_diff_zero(k, k, false);
        assert(kids[j].string == Some(cstr(k)));
        crate::manip::lemma_find_distinct(kids, k, true, j, 0);
        assert(kids[j] == rebuilt(ks[j]));
        lemma_same_tree_keyed(merged(None, ks[j], false).unwrap(), ks[j].string.unwrap(), false, t.child[j], close);
    }
    lemma_found_each(t.child, kids, true, close, 0);
}

/// An optional key copied as a C string.
pub open spec fn opt_cstr_of(o: Option<Seq<u8>>) -> Option<Seq<u8>> {
    match o {
        Some(v) => Some(cstr(v)),
        None => None,
    }
}

/// Merging the copied members `ks` from `i` on into an object that holds
/// the rebuilt members before `i` appends each rebuilt member in turn.
#[verifier::rlimit(40)]
proof fn lemma_rebuild_members(t: JsonNode, d: int, close: spec_fn(u64, u64) -> bool, ks: Seq<JsonNode>, i: int, prefix: Seq<JsonNode>)
    requires
        type_byte(t.type_) == CJSON_OBJECT,
        target_ok(t, close, true),
        0 <= d,
        dup_list(t.child, d + 1) == Some(ks),
        ks.len() == t.child.len(),
        forall|j: int| 0 <= j < t.child.len() ==> dup_tree(#[trigger] t.child[j], d + 1, true) == Some(ks[j]),
        0 <= i <= ks.len(),
        prefix.len() == i,
        forall|j: int| 0 <= j < i ==> (#[trigger] prefix[j]).string == Some(cstr(key_of(t.child[j]))),
    ensures
        merge_members(with_kids(node_of_type(CJSON_OBJECT), prefix), ks.subrange(i, ks.len() as int), false) == Some(
            with_kids(node_of_type(CJSON_OBJECT), prefix + rebuilt_list(ks.subrange(i, ks.len() as int))),
        ),
        forall|j: int| i <= j < ks.len() ==> (merged(None, #[trigger] ks[j], false) matches Some(r) && same_tree(r, t.child[j], true, close)
            && same_tree(t.child[j], r, true, close)),
    decreases t, 0int, ks.len() - i,
{
    let start = node_of_type(CJSON_OBJECT);
    let tail = ks.subrange(i, ks.len() as int);
    let tk = t.child;
    if i < ks.len() {
        let pc = ks[i];
        let ti = tk[i];
        lemma_targets_at(tk, close, true, true, i);
        crate::model::lemma_type_words(ti.type_);
        assert(type_byte(pc.type_) == type_byte(ti.type_));
        assert(type_byte(pc.type_) != CJSON_NULL);
        assert(pc.string == Some(cstr(key_of(ti))));
        let k = cstr(key_of(ti));
        let cur = with_kids(start, prefix);
        // no member so far matches the key
        assert(find_member(prefix, k, false) is None) by {
            lemma_no_match(prefix, k, 0, t, i);
        }
        lemma_rebuild(ti, d + 1, close);
        let rep = merged(None, pc, false).unwrap();
        let next = prefix.push(keyed(rep, k, false));
        assert(tail[0] == pc);
        assert(tail.subrange(1, tail.len() as int) =~= ks.subrange(i + 1, ks.len() as int));
        assert(with_kids(cur, cur.child.push(keyed(rep, k, false))) == with_kids(start, next));
        assert forall|j: int| 0 <= j < i + 1 implies (#[trigger] next[j]).string == Some(cstr(key_of(t.child[j]))) by {
            if j == i {
                crate::text::lemma_cstr_no_nul(key_of(ti));
                crate::text::lemma_cstr_of_no_nul(k);
            }
        }
        lemma_rebuild_members(t, d, close, ks, i + 1, next);
        let rest = ks.subrange(i + 1, ks.len() as int);
        assert(rebuilt_list(tail) =~= seq![rebuilt(pc)] + rebuilt_list(rest));
        assert(rebuilt(pc) == keyed(rep, k, false));
        assert(prefix + rebuilt_list(tail) =~= next + rebuilt_list(rest));
    } else {
        assert(tail =~= Seq::<JsonNode>::empty());
        assert(rebuilt_list(tail) =~= Seq::<JsonNode>::empty());
        assert(prefix + rebuilt_list(tail) =~= prefix);
    }
}

/// No member of the rebuilt prefix (keys of members before `i`) matches the
/// key of member `i`.
proof fn lemma_no_match(prefix: Seq<JsonNode>, k: Seq<u8>, from: nat, t: JsonNode, i: int)
    requires
        type_byte(t.type_) == CJSON_OBJECT,
        keys_in_order(t.child),
        0 <= i < t.child.len(),
        prefix.len() == i,
        forall|j: int| 0 <= j < i ==> (#[trigger] prefix[j]).string == Some(cstr(key_of(t.child[j]))),
        k == cstr(key_of(t.child[i])),
        from <= prefix.len(),
    ensures
        find_member_from(prefix, k, false, from) is None,
    decreases prefix.len() - from,
{
    if from < prefix.len() {
        let j = from as int;
        let a = key_of(t.child[j]);
        let b = key_of(t.child[i]);
        assert(!fold_eq(a, b));
        crate::manip::lemma_diff_cstr(cstr(b), a, true);
        crate::manip::lemma_diff_cstr(b, a, true);
        crate::manip::lemma_diff_cstr(cstr(b), cstr(a), true);
        crate::manip::lemma_diff_cstr(a, b, true);
        lemma_diff_zero(a, b);
        lemma_diff_zero(cstr(b), cstr(a));
        lemma_diff_zero(cstr(b), a);
        lemma_no_match(prefix, k, from + 1, t, i);
    }
}


// ---------------------------------------------------------------------------
// Steps of a merge.
// ---------------------------------------------------------------------------

/// Merging two patch lists one after the other.
pub proof fn lemma_merge_concat(t: JsonNode, p1: Seq<JsonNode>, p2: Seq<JsonNode>, cs: bool)
    ensures
        merge_members(t, p1 + p2, cs) == match merge_members(t, p1, cs) {
            Some(t1) => merge_members(t1, p2, cs),
            None => None,
        },
    decreases p1.len(),
{
    if p1.len() == 0 {
        assert(p1 + p2 =~= p2);
    } else {
        let s = p1 + p2;
        assert(s[0] == p1[0]);
        assert(s.subrange(1, s.len() as int) =~= p1.subrange(1, p1.len() as int) + p2);
        let pc = p1[0];
        let (t1, found) = take_member(t, pc.string, cs);
        if type_byte(pc.type_) == CJSON_NULL {
            lemma_merge_concat(t1, p1.subrange(1, p1.len() as int), p2, cs);
        } else {
            match merged(found, pc, cs) {
                None => {},
                Some(rep) => {
                    let t2 = match pc.string {
                        Some(k) => with_kids(t1, t1.child.push(keyed(rep, k, false))),
                        None => t1,
                    };
                    lemma_merge_concat(t2, p1.subrange(1, p1.len() as int), p2, cs);
                },
            }
        }
    }
}

/// A lookup finds nothing when no member's key matches.
proof fn lemma_find_none(s: Seq<JsonNode>, name: Seq<u8>, from: nat)
    requires
        from <= s.len(),
        forall|m: int| from <= m < s.len() ==> ((#[trigger] s[m]).string matches Some(k) ==> c_str_diff(name, k, true) != 0),
    ensures
        find_member_from(s, name, false, from) is None,
    decreases s.len() - from,
{
    if from < s.len() {
        lemma_find_none(s, name, from + 1);
    }
}

/// Comparison looks only at a node's type tag, value fields and children.
pub proof fn lemma_same_tree_shell(a: JsonNode, a2: JsonNode, x: JsonNode, close: spec_fn(u64, u64) -> bool)
    requires
        type_byte(a2.type_) == type_byte(a.type_),
        a2.valuestring == a.valuestring,
        a2.valuedouble == a.valuedouble,
        a2.child == a.child,
    ensures
        same_tree(a2, x, true, close) == same_tree(a, x, true, close),
        same_tree(x, a2, true, close) == same_tree(x, a, true, close),
{
}

/// Merging a patch member carrying a key works as merging its value: the
/// results compare alike.
pub proof fn lemma_merged_keyed(tg: Option<JsonNode>, p: JsonNode, k: Seq<u8>, x: JsonNode, close: spec_fn(u64, u64) -> bool)
    ensures
        (merged(tg, keyed(p, k, false), false) is Some) == (merged(tg, p, false) is Some),
        merged(tg, p, false) matches Some(r) ==> (merged(tg, keyed(p, k, false), false) matches Some(r2) && same_tree(r2, x, true, close)
            == same_tree(r, x, true, close) && same_tree(x, r2, true, close) == same_tree(x, r, true, close)),
{
    let kp = keyed(p, k, false);
    crate::model::lemma_type_words(p.type_);
    assert(type_byte(kp.type_) == type_byte(p.type_));
    if type_byte(p.type_) != CJSON_OBJECT {
        let t1 = kp.type_;
        let t0 = p.type_;
        crate::model::lemma_type_words(t1);
        assert(((t0 & !512i32) & !256i32) & 0xFF == (t0 & !256i32) & 0xFF) by (bit_vector);
        assert(kp.child == p.child);
        if let Some(r) = merged(tg, p, false) {
            let r2 = merged(tg, kp, false).unwrap();
            lemma_same_tree_shell(r, r2, x, close);
        }
    } else {
        assert(kp.child == p.child);
    }
}


// ---------------------------------------------------------------------------
// The state of the walk over two member lists, and its steps.
// ---------------------------------------------------------------------------

/// The conditions of the law: `close` is symmetric; in `from`, strings
/// have their text and the members of every object have keys, no two of
/// them matching with ASCII case folded, and folded and exact comparison
/// order them alike; `to` meets the same conditions, has only known types
/// other than raw, numbers that `close` accepts as equal to themselves, and
/// can be copied; every `null` member of `to`'s objects is one `from`
/// already has (`nulls_kept`); and folded and exact comparison order alike
/// the keys of every two objects that comparing `from` with `to` sets side
/// by side.
pub open spec fn law_cond(from: JsonNode, to: JsonNode, close: spec_fn(u64, u64) -> bool) -> bool {
    &&& forall|a: u64, b: u64| #[trigger] close(a, b) == close(b, a)
    &&& patchable(from)
    &&& target_ok(to, close, false)
    &&& nulls_kept(from, to, close)
    &&& keys_agree(from, to)
    &&& dup_tree(to, 0, true) is Some
}

/// `x` is one of the members of `fl` from `a` on.
pub open spec fn in_from(fl: Seq<JsonNode>, a: int, x: JsonNode) -> bool {
    exists|i: int| a <= i < fl.len() && #[trigger] fl[i] == x
}

/// `x` stands, under the same key, for one of the first `b` members of
/// `gl`, and compares equal to it both ways.
pub open spec fn done_with(x: JsonNode, gl: Seq<JsonNode>, b: int, close: spec_fn(u64, u64) -> bool) -> bool {
    exists|j: int|
        0 <= j < b && #[trigger] fold_eq(key_of(x), key_of(gl[j])) && c_str_diff(key_of(x), key_of(gl[j]), false) == 0
            && same_tree(x, gl[j], true, close) && same_tree(gl[j], x, true, close)
}

/// Some member of `k` has a key matching `y`'s.
pub open spec fn has_member_for(k: Seq<JsonNode>, y: JsonNode) -> bool {
    exists|m: int| 0 <= m < k.len() && #[trigger] fold_eq(key_of(k[m]), key_of(y))
}

/// The state of the merge after the walk has passed the first `a` members
/// of `fl` and the first `b` of `gl`: members of `fl` not yet passed are
/// untouched, every other member stands for a passed member of `gl`, and
/// every passed member of `gl` has one.
pub open spec fn walk_inv(t: JsonNode, fl: Seq<JsonNode>, gl: Seq<JsonNode>, a: int, b: int, close: spec_fn(u64, u64) -> bool) -> bool {
    let k = t.child;
    &&& type_byte(t.type_) == CJSON_OBJECT
    &&& crate::manip::distinct_keys(k, false)
    &&& forall|i: int| a <= i < fl.len() ==> k.contains(#[trigger] fl[i])
    &&& forall|m: int| 0 <= m < k.len() ==> in_from(fl, a, #[trigger] k[m]) || done_with(k[m], gl, b, close)
    &&& forall|j: int| 0 <= j < b ==> has_member_for(k, #[trigger] gl[j])
}

/// What the sorted member lists of `from` and `to` are like under the
/// conditions of the law.
pub proof fn lemma_sorted_ctx(from: JsonNode, to: JsonNode, close: spec_fn(u64, u64) -> bool)
    requires
        law_cond(from, to, close),
        type_byte(from.type_) == CJSON_OBJECT,
        type_byte(to.type_) == CJSON_OBJECT,
    ensures
        ({
            let fl = sorted_spec(from.child, false);
            let gl = sorted_spec(to.child, false);
            &&& keys_in_order(fl) && keys_in_order(gl)
            &&& forall|p: int, q: int| 0 <= p < q < fl.len() ==> c_str_diff(key_of(#[trigger] fl[p]), key_of(#[trigger] fl[q]), true) < 0
            &&& forall|p: int, q: int| 0 <= p < q < gl.len() ==> c_str_diff(key_of(#[trigger] gl[p]), key_of(#[trigger] gl[q]), true) < 0
            &&& forall|p: int| 0 <= p < fl.len() ==> from.child.contains(#[trigger] fl[p])
            &&& forall|p: int| 0 <= p < gl.len() ==> to.child.contains(#[trigger] gl[p])
            &&& forall|i: int| 0 <= i < from.child.len() ==> fl.contains(#[trigger] from.child[i])
            &&& forall|j: int| 0 <= j < to.child.len() ==> gl.contains(#[trigger] to.child[j])
        }),
{
    assert(keys_in_order(from.child));
    assert(keys_in_order(to.child));
    lemma_sorted_strict(from.child);
    lemma_sorted_strict(to.child);
    lemma_perm_keys(from.child, sorted_spec(from.child, false));
    lemma_perm_keys(to.child, sorted_spec(to.child, false));
}

/// What each member of the sorted lists is like, and how the keys of two
/// of them compare.
pub proof fn lemma_sorted_members(from: JsonNode, to: JsonNode, close: spec_fn(u64, u64) -> bool, i: int, j: int)
    requires
        law_cond(from, to, close),
        type_byte(from.type_) == CJSON_OBJECT,
        type_byte(to.type_) == CJSON_OBJECT,
        0 <= i < sorted_spec(from.child, false).len(),
        0 <= j < sorted_spec(to.child, false).len(),
    ensures
        ({
            let x = sorted_spec(from.child, false)[i];
            let y = sorted_spec(to.child, false)[j];
            &&& patchable(x)
            &&& target_ok(y, close, false)
            &&& dup_tree(y, 0, true) is Some
            &&& nulls_member_ok(sorted_spec(from.child, false), y, close)
            &&& orders_agree(key_of(x), key_of(y))
            &&& fold_eq(key_of(x), key_of(y)) ==> keys_agree(x, y)
            &&& node_count(x) + node_count(y) < node_count(from) + node_count(to)
            &&& x.string is Some && y.string is Some
        }),
{
    lemma_sorted_ctx(from, to, close);
    let x = sorted_spec(from.child, false)[i];
    let y = sorted_spec(to.child, false)[j];
    assert(from.child.contains(x));
    assert(to.child.contains(y));
    let i2 = choose|i2: int| 0 <= i2 < from.child.len() && from.child[i2] == x;
    let j2 = choose|j2: int| 0 <= j2 < to.child.len() && to.child[j2] == y;
    lemma_patchable_at(from.child, i2);
    lemma_targets_at(to.child, close, false, false, j2);
    lemma_agree_members_at(from.child, to.child, i2, j2);
    lemma_count_lt(from, i2, to, j2);
    lemma_nulls_members_all(from.child, to.child, close);
    assert(nulls_member_ok(from.child, to.child[j2], close));
    lemma_nulls_member_perm(from.child, sorted_spec(from.child, false), y, close);
    let ks = dup_list(to.child, 1).unwrap();
    crate::manip::lemma_dup_list_at(to.child, 1, ks);
    lemma_dup_depth(to.child[j2], 1, 0);
}


/// What the walk needs of the two member lists: keys in order in each,
/// strictly ascending with ASCII case folded, and folded and exact
/// comparison ordering every key of one list against every key of the
/// other alike.
pub open spec fn walk_ctx(fl: Seq<JsonNode>, gl: Seq<JsonNode>) -> bool {
    &&& keys_in_order(fl)
    &&& keys_in_order(gl)
    &&& forall|p: int, q: int| 0 <= p < q < fl.len() ==> c_str_diff(key_of(#[trigger] fl[p]), key_of(#[trigger] fl[q]), true) < 0
    &&& forall|p: int, q: int| 0 <= p < q < gl.len() ==> c_str_diff(key_of(#[trigger] gl[p]), key_of(#[trigger] gl[q]), true) < 0
    &&& forall|i: int, j: int|
        0 <= i < fl.len() && 0 <= j < gl.len() ==> orders_agree(key_of(#[trigger] fl[i]), key_of(#[trigger] gl[j]))
}

/// Every passed member of `gl` has a key below every member of `fl` not
/// yet passed.
pub open spec fn passed_below(fl: Seq<JsonNode>, gl: Seq<JsonNode>, a: int, b: int) -> bool {
    forall|j: int, i: int| 0 <= j < b && a <= i < fl.len() ==> c_str_diff(key_of(#[trigger] gl[j]), key_of(#[trigger] fl[i]), true) < 0
}

proof fn lemma_distinct_exact(s: Seq<JsonNode>)
    requires
        crate::manip::distinct_keys(s, false),
    ensures
        crate::manip::distinct_keys(s, true),
{
    assert forall|i: int, j: int|
        0 <= i < s.len() && 0 <= j < s.len() && i != j implies c_str_diff(
            (#[trigger] s[i]).string.unwrap(),
            (#[trigger] s[j]).string.unwrap(),
            false,
        ) != 0 by {
        lemma_diff_zero(s[i].string.unwrap(), s[j].string.unwrap());
    }
}

/// The member of `t` that is the node `x` is the one a lookup of `x`'s key
/// (copied as a C string) finds.
proof fn lemma_find_node(k: Seq<JsonNode>, x: JsonNode) -> (m0: int)
    requires
        crate::manip::distinct_keys(k, false),
        k.contains(x),
    ensures
        0 <= m0 < k.len(),
        k[m0] == x,
        find_member(k, cstr(key_of(x)), false) == Some(m0),
        forall|m: int| 0 <= m < k.len() && fold_eq(key_of(k[m]), key_of(x)) ==> m == m0,
{
    let m0 = choose|m: int| 0 <= m < k.len() && k[m] == x;
    assert(x.string is Some);
    let kx = key_of(x);
    crate::manip::lemma_diff_cstr(kx, kx, true);
    crate::manip::lemma_diff_cstr(cstr(kx), kx, true);
    lemma_diff_zero(kx, kx);
    crate::manip::lemma_find_distinct(k, cstr(kx), false, m0, 0);
    assert forall|m: int| 0 <= m < k.len() && fold_eq(key_of(k[m]), key_of(x)) implies m == m0 by {
        if m != m0 {
            assert(c_str_diff(k[m].string.unwrap(), k[m0].string.unwrap(), true) != 0);
        }
    }
    m0
}

/// Removing one member keeps the keys apart.
proof fn lemma_remove_distinct(k: Seq<JsonNode>, m0: int)
    requires
        crate::manip::distinct_keys(k, false),
        0 <= m0 < k.len(),
    ensures
        crate::manip::distinct_keys(k.remove(m0), false),
        forall|m: int| 0 <= m < k.remove(m0).len() ==> #[trigger] k.remove(m0)[m] == k[if m < m0 { m } else { m + 1 }],
{
    let r = k.remove(m0);
    assert forall|m: int| 0 <= m < r.len() implies #[trigger] r[m] == k[if m < m0 { m } else { m + 1 }] by {
    }
    assert forall|i: int, j: int|
        0 <= i < r.len() && 0 <= j < r.len() && i != j implies c_str_diff(
            (#[trigger] r[i]).string.unwrap(),
            (#[trigger] r[j]).string.unwrap(),
            true,
        ) != 0 by {
        let i2 = if i < m0 { i } else { i + 1 };
        let j2 = if j < m0 { j } else { j + 1 };
        assert(r[i] == k[i2] && r[j] == k[j2]);
        assert(c_str_diff(k[i2].string.unwrap(), k[j2].string.unwrap(), true) != 0);
    }
    assert forall|i: int| 0 <= i < r.len() implies (#[trigger] r[i]).string is Some by {
        let i2 = if i < m0 { i } else { i + 1 };
        assert(r[i] == k[i2]);
    }
}

/// Appending a member whose key matches none keeps the keys apart.
proof fn lemma_push_distinct(k: Seq<JsonNode>, y: JsonNode)
    requires
        crate::manip::distinct_keys(k, false),
        y.string is Some,
        forall|m: int| 0 <= m < k.len() ==> !fold_eq(key_of(#[trigger] k[m]), key_of(y)),
    ensures
        crate::manip::distinct_keys(k.push(y), false),
{
    let r = k.push(y);
    assert forall|i: int, j: int|
        0 <= i < r.len() && 0 <= j < r.len() && i != j implies c_str_diff(
            (#[trigger] r[i]).string.unwrap(),
            (#[trigger] r[j]).string.unwrap(),
            true,
        ) != 0 by {
        if i < k.len() && j < k.len() {
            assert(r[i] == k[i] && r[j] == k[j]);
        } else if i < k.len() {
            assert(r[i] == k[i] && r[j] == y);
            assert(!fold_eq(key_of(k[i]), key_of(y)));
        } else {
            assert(r[j] == k[j] && r[i] == y);
            assert(!fold_eq(key_of(k[j]), key_of(y)));
            lemma_diff_zero(key_of(y), key_of(k[j]));
        }
    }
    assert forall|i: int| 0 <= i < r.len() implies (#[trigger] r[i]).string is Some by {
        if i < k.len() {
            assert(r[i] == k[i]);
        }
    }
}


/// What a member of `to`'s sorted list is like.
pub proof fn lemma_to_member(from: JsonNode, to: JsonNode, close: spec_fn(u64, u64) -> bool, j: int)
    requires
        law_cond(from, to, close),
        type_byte(from.type_) == CJSON_OBJECT,
        type_byte(to.type_) == CJSON_OBJECT,
        0 <= j < sorted_spec(to.child, false).len(),
        forall|i: int|
            0 <= i < sorted_spec(from.child, false).len() ==> !#[trigger] fold_eq(
                key_of(sorted_spec(from.child, false)[i]),
                key_of(sorted_spec(to.child, false)[j]),
            ),
    ensures
        ({
            let y = sorted_spec(to.child, false)[j];
            &&& target_ok(y, close, true)
            &&& type_byte(y.type_) != CJSON_NULL
            &&& dup_tree(y, 0, true) is Some
            &&& y.string is Some
        }),
{
    lemma_sorted_ctx(from, to, close);
    let y = sorted_spec(to.child, false)[j];
    assert(to.child.contains(y));
    let j2 = choose|j2: int| 0 <= j2 < to.child.len() && to.child[j2] == y;
    lemma_targets_at(to.child, close, false, false, j2);
    lemma_nulls_members_all(from.child, to.child, close);
    assert(nulls_member_ok(from.child, to.child[j2], close));
    lemma_nulls_member_perm(from.child, sorted_spec(from.child, false), y, close);
    let fl = sorted_spec(from.child, false);
    assert(forall|i: int| 0 <= i < fl.len() ==> !#[trigger] fold_eq(key_of(fl[i]), key_of(y)));
    let ks = dup_list(to.child, 1).unwrap();
    crate::manip::lemma_dup_list_at(to.child, 1, ks);
    lemma_dup_depth(to.child[j2], 1, 0);
}

/// Removing the member `k[m0]`, which is `fl[a]`, passes `fl[a]`.
#[verifier::spinoff_prover]
proof fn lemma_inv_remove(k: Seq<JsonNode>, fl: Seq<JsonNode>, gl: Seq<JsonNode>, a: int, b: int, close: spec_fn(u64, u64) -> bool, m0: int)
    requires
        0 <= a < fl.len(),
        0 <= m0 < k.len(),
        k[m0] == fl[a],
        forall|m: int| 0 <= m < k.len() && fold_eq(key_of(k[m]), key_of(fl[a])) ==> m == m0,
        crate::manip::distinct_keys(k, false),
        forall|p: int, q: int| 0 <= p < q < fl.len() ==> c_str_diff(key_of(#[trigger] fl[p]), key_of(#[trigger] fl[q]), true) < 0,
        forall|i: int| a <= i < fl.len() ==> k.contains(#[trigger] fl[i]),
        forall|m: int| 0 <= m < k.len() ==> in_from(fl, a, #[trigger] k[m]) || done_with(k[m], gl, b, close),
        forall|j: int| 0 <= j < b ==> has_member_for(k, #[trigger] gl[j]),
        passed_below(fl, gl, a, b),
    ensures
        crate::manip::distinct_keys(k.remove(m0), false),
        forall|i: int| a + 1 <= i < fl.len() ==> k.remove(m0).contains(#[trigger] fl[i]),
        forall|m: int| 0 <= m < k.remove(m0).len() ==> in_from(fl, a + 1, #[trigger] k.remove(m0)[m]) || done_with(k.remove(m0)[m], gl, b, close),
        forall|j: int| 0 <= j < b ==> has_member_for(k.remove(m0), #[trigger] gl[j]),
{
    lemma_remove_distinct(k, m0);
    lemma_inv_remove_contains(k, fl, a, m0);
    lemma_inv_remove_members(k, fl, gl, a, b, close, m0);
    lemma_inv_remove_passed(k, fl, gl, a, b, m0);
}

proof fn lemma_inv_remove_contains(k: Seq<JsonNode>, fl: Seq<JsonNode>, a: int, m0: int)
    requires
        0 <= a < fl.len(),
        0 <= m0 < k.len(),
        k[m0] == fl[a],
        forall|p: int, q: int| 0 <= p < q < fl.len() ==> c_str_diff(key_of(#[trigger] fl[p]), key_of(#[trigger] fl[q]), true) < 0,
        forall|i: int| a <= i < fl.len() ==> k.contains(#[trigger] fl[i]),
    ensures
        forall|i: int| a + 1 <= i < fl.len() ==> k.remove(m0).contains(#[trigger] fl[i]),
{
    let r = k.remove(m0);
    assert forall|i: int| a + 1 <= i < fl.len() implies r.contains(#[trigger] fl[i]) by {
        assert(k.contains(fl[i]));
        let m = choose|m: int| 0 <= m < k.len() && k[m] == fl[i];
        if m == m0 {
            assert(c_str_diff(key_of(fl[a]), key_of(fl[i]), true) < 0);
            lemma_diff_zero(key_of(fl[i]), key_of(fl[i]));
        }
        let m2 = if m < m0 { m } else { m - 1 };
        assert(r[m2] == fl[i]);
    }
}

proof fn lemma_inv_remove_members(k: Seq<JsonNode>, fl: Seq<JsonNode>, gl: Seq<JsonNode>, a: int, b: int, close: spec_fn(u64, u64) -> bool, m0: int)
    requires
        0 <= a < fl.len(),
        0 <= m0 < k.len(),
        k[m0] == fl[a],
        forall|m: int| 0 <= m < k.len() && fold_eq(key_of(k[m]), key_of(fl[a])) ==> m == m0,
        forall|m: int| 0 <= m < k.len() ==> in_from(fl, a, #[trigger] k[m]) || done_with(k[m], gl, b, close),
    ensures
        forall|m: int| 0 <= m < k.remove(m0).len() ==> in_from(fl, a + 1, #[trigger] k.remove(m0)[m]) || done_with(k.remove(m0)[m], gl, b, close),
{
    let r = k.remove(m0);
    assert forall|m: int| 0 <= m < r.len() implies in_from(fl, a + 1, #[trigger] r[m]) || done_with(r[m], gl, b, close) by {
        let m2 = if m < m0 { m } else { m + 1 };
        assert(r[m] == k[m2]);
        assert(in_from(fl, a, k[m2]) || done_with(k[m2], gl, b, close));
        if in_from(fl, a, k[m2]) {
            let i = choose|i: int| a <= i < fl.len() && fl[i] == k[m2];
            if i == a {
                lemma_diff_zero(key_of(fl[a]), key_of(fl[a]));
                assert(fold_eq(key_of(k[m2]), key_of(fl[a])));
            }
            assert(fl[i] == r[m]);
        }
    }
}

proof fn lemma_inv_remove_passed(k: Seq<JsonNode>, fl: Seq<JsonNode>, gl: Seq<JsonNode>, a: int, b: int, m0: int)
    requires
        0 <= a < fl.len(),
        0 <= m0 < k.len(),
        k[m0] == fl[a],
        forall|j: int| 0 <= j < b ==> has_member_for(k, #[trigger] gl[j]),
        passed_below(fl, gl, a, b),
    ensures
        forall|j: int| 0 <= j < b ==> has_member_for(k.remove(m0), #[trigger] gl[j]),
{
    let r = k.remove(m0);
    assert forall|j: int| 0 <= j < b implies has_member_for(r, #[trigger] gl[j]) by {
        assert(has_member_for(k, gl[j]));
        let m = choose|m: int| 0 <= m < k.len() && fold_eq(key_of(k[m]), key_of(gl[j]));
        if m == m0 {
            assert(c_str_diff(key_of(gl[j]), key_of(fl[a]), true) < 0);
            lemma_diff_zero(key_of(gl[j]), key_of(fl[a]));
            lemma_diff_zero(key_of(fl[a]), key_of(gl[j]));
        }
        let m2 = if m < m0 { m } else { m - 1 };
        assert(r[m2] == k[m]);
    }
}

/// A patch member that removes the next member of `from`.
#[verifier::spinoff_prover]
proof fn lemma_step_remove(fl: Seq<JsonNode>, gl: Seq<JsonNode>, close: spec_fn(u64, u64) -> bool, t: JsonNode, a: int, b: int)
    requires
        walk_ctx(fl, gl),
        0 <= a < fl.len(),
        0 <= b <= gl.len(),
        walk_inv(t, fl, gl, a, b, close),
        passed_below(fl, gl, a, b),
    ensures
        merge_members(t, seq![keyed(node_of_type(CJSON_NULL), key_of(fl[a]), false)], false) matches Some(t1)
            && walk_inv(t1, fl, gl, a + 1, b, close) && passed_below(fl, gl, a + 1, b),
{
    let x = fl[a];
    let kx = key_of(x);
    let k = t.child;
    assert(k.contains(x));
    let m0 = lemma_find_node(k, x);
    let pc = keyed(node_of_type(CJSON_NULL), kx, false);
    crate::model::lemma_type_words(CJSON_NULL);
    assert(type_byte(pc.type_) == CJSON_NULL);
    assert(pc.string == Some(cstr(kx)));
    let t1 = with_kids(t, k.remove(m0));
    assert(take_member(t, pc.string, false) == (t1, Some(k[m0])));
    let ps = seq![pc];
    assert(ps.subrange(1, 1) =~= Seq::<JsonNode>::empty());
    assert(merge_members(t1, Seq::<JsonNode>::empty(), false) == Some(t1));
    assert(merge_members(t, ps, false) == Some(t1));
    lemma_inv_remove(k, fl, gl, a, b, close, m0);
}


/// Appending a member that stands for `gl[b]` passes `gl[b]`.
#[verifier::spinoff_prover]
proof fn lemma_inv_push(k: Seq<JsonNode>, fl: Seq<JsonNode>, gl: Seq<JsonNode>, a: int, b: int, close: spec_fn(u64, u64) -> bool, nm: JsonNode)
    requires
        0 <= b < gl.len(),
        gl[b].string is Some,
        nm.string == Some(cstr(key_of(gl[b]))),
        forall|m: int| 0 <= m < k.len() ==> !fold_eq(key_of(#[trigger] k[m]), key_of(gl[b])),
        same_tree(nm, gl[b], true, close),
        same_tree(gl[b], nm, true, close),
        crate::manip::distinct_keys(k, false),
        forall|i: int| a <= i < fl.len() ==> k.contains(#[trigger] fl[i]),
        forall|m: int| 0 <= m < k.len() ==> in_from(fl, a, #[trigger] k[m]) || done_with(k[m], gl, b, close),
        forall|j: int| 0 <= j < b ==> has_member_for(k, #[trigger] gl[j]),
    ensures
        crate::manip::distinct_keys(k.push(nm), false),
        forall|i: int| a <= i < fl.len() ==> k.push(nm).contains(#[trigger] fl[i]),
        forall|m: int| 0 <= m < k.push(nm).len() ==> in_from(fl, a, #[trigger] k.push(nm)[m]) || done_with(k.push(nm)[m], gl, b + 1, close),
        forall|j: int| 0 <= j < b + 1 ==> has_member_for(k.push(nm), #[trigger] gl[j]),
{
    let ky = key_of(gl[b]);
    let r = k.push(nm);
    crate::manip::lemma_diff_cstr(cstr(ky), ky, true);
    crate::manip::lemma_diff_cstr(ky, ky, true);
    crate::manip::lemma_diff_cstr(cstr(ky), ky, false);
    crate::manip::lemma_diff_cstr(ky, ky, false);
    lemma_diff_zero(ky, ky);
    crate::text::lemma_str_diff_zero(ky, ky, false);
    assert(key_of(nm) == cstr(ky));
    assert(fold_eq(key_of(nm), ky));
    assert(c_str_diff(key_of(nm), ky, false) == 0);
    assert forall|m: int| 0 <= m < k.len() implies !fold_eq(key_of(#[trigger] k[m]), key_of(nm)) by {
        assert(!fold_eq(key_of(k[m]), ky));
        if fold_eq(key_of(k[m]), key_of(nm)) {
            lemma_fold_eq_trans(key_of(k[m]), key_of(nm), ky);
        }
    }
    lemma_push_distinct(k, nm);
    assert forall|i: int| a <= i < fl.len() implies r.contains(#[trigger] fl[i]) by {
        assert(k.contains(fl[i]));
        let m = choose|m: int| 0 <= m < k.len() && k[m] == fl[i];
        assert(r[m] == fl[i]);
    }
    assert forall|m: int| 0 <= m < r.len() implies in_from(fl, a, #[trigger] r[m]) || done_with(r[m], gl, b + 1, close) by {
        if m < k.len() {
            assert(r[m] == k[m]);
            if done_with(k[m], gl, b, close) {
                let j = choose|j: int|
                    0 <= j < b && #[trigger] fold_eq(key_of(k[m]), key_of(gl[j])) && c_str_diff(key_of(k[m]), key_of(gl[j]), false) == 0
                        && same_tree(k[m], gl[j], true, close) && same_tree(gl[j], k[m], true, close);
                assert(fold_eq(key_of(r[m]), key_of(gl[j])));
            }
        } else {
            assert(r[m] == nm);
            assert(fold_eq(key_of(nm), key_of(gl[b])));
        }
    }
    assert forall|j: int| 0 <= j < b + 1 implies has_member_for(r, #[trigger] gl[j]) by {
        if j < b {
            assert(has_member_for(k, gl[j]));
            let m = choose|m: int| 0 <= m < k.len() && fold_eq(key_of(k[m]), key_of(gl[j]));
            assert(r[m] == k[m]);
        } else {
            assert(r[k.len() as int] == nm);
            assert(fold_eq(key_of(r[k.len() as int]), key_of(gl[j])));
        }
    }
}

/// A patch member that adds the next member of `to`, which `from` does not
/// have.
#[verifier::spinoff_prover]
#[verifier::rlimit(60)]
proof fn lemma_step_add(fl: Seq<JsonNode>, gl: Seq<JsonNode>, close: spec_fn(u64, u64) -> bool, t: JsonNode, a: int, b: int)
    requires
        walk_ctx(fl, gl),
        0 <= a <= fl.len(),
        0 <= b < gl.len(),
        a == fl.len() || c_str_diff(key_of(fl[a]), key_of(gl[b]), false) > 0,
        target_ok(gl[b], close, true),
        type_byte(gl[b].type_) != CJSON_NULL,
        dup_tree(gl[b], 0, true) is Some,
        walk_inv(t, fl, gl, a, b, close),
        passed_below(fl, gl, a, b),
    ensures
        merge_members(t, seq![keyed(dup_tree(gl[b], 0, true).unwrap(), key_of(gl[b]), false)], false) matches Some(t1)
            && walk_inv(t1, fl, gl, a, b + 1, close) && passed_below(fl, gl, a, b + 1),
{
    let y = gl[b];
    let ky = key_of(y);
    let k = t.child;
    // the new key is below every member of `from` not yet passed
    assert forall|i: int| a <= i < fl.len() implies c_str_diff(ky, key_of(#[trigger] fl[i]), true) < 0 by {
        assert(orders_agree(key_of(fl[a]), key_of(gl[b])));
        let kf = key_of(fl[a]);
        lemma_swap(kf, ky, true);
        assert(c_str_diff(ky, kf, true) < 0);
        if i > a {
            assert(c_str_diff(kf, key_of(fl[i]), true) < 0);
            lemma_lt_trans(ky, kf, key_of(fl[i]), true);
        }
    }
    assert forall|m: int| 0 <= m < k.len() implies !fold_eq(key_of(#[trigger] k[m]), ky) by {
        if in_from(fl, a, k[m]) {
            let i = choose|i: int| a <= i < fl.len() && fl[i] == k[m];
            assert(c_str_diff(ky, key_of(fl[i]), true) < 0);
            lemma_diff_zero(key_of(fl[i]), ky);
        } else {
            assert(done_with(k[m], gl, b, close));
            let j = choose|j: int|
                0 <= j < b && #[trigger] fold_eq(key_of(k[m]), key_of(gl[j])) && c_str_diff(key_of(k[m]), key_of(gl[j]), false) == 0
                    && same_tree(k[m], gl[j], true, close) && same_tree(gl[j], k[m], true, close);
            assert(c_str_diff(key_of(gl[j]), ky, true) < 0);
            if fold_eq(key_of(k[m]), ky) {
                lemma_diff_zero(key_of(k[m]), key_of(gl[j]));
                lemma_fold_eq_trans(key_of(gl[j]), key_of(k[m]), ky);
            }
        }
    }
    assert forall|m: int| 0 <= m < k.len() implies ((#[trigger] k[m]).string matches Some(km) ==> c_str_diff(cstr(ky), km, true) != 0) by {
        let km = key_of(k[m]);
        crate::manip::lemma_diff_cstr(km, ky, true);
        crate::manip::lemma_diff_cstr(cstr(ky), km, true);
        lemma_diff_zero(ky, km);
        lemma_diff_zero(km, ky);
    }
    lemma_find_none(k, cstr(ky), 0);
    let dd = dup_tree(y, 0, true).unwrap();
    let pc = keyed(dd, ky, false);
    crate::model::lemma_type_words(y.type_);
    crate::model::lemma_type_words(dd.type_);
    assert(type_byte(dd.type_) == type_byte(y.type_));
    assert(type_byte(pc.type_) != CJSON_NULL);
    assert(pc.string == Some(cstr(ky)));
    assert(take_member(t, pc.string, false) == (t, None::<JsonNode>));
    lemma_rebuild(y, 0, close);
    lemma_merged_keyed(None, dd, ky, y, close);
    let r2 = merged(None, pc, false).unwrap();
    let nm = keyed(r2, cstr(ky), false);
    let t2 = with_kids(t, k.push(nm));
    let ps = seq![pc];
    assert(ps.subrange(1, 1) =~= Seq::<JsonNode>::empty());
    assert(merge_members(t2, Seq::<JsonNode>::empty(), false) == Some(t2));
    assert(merge_members(t, ps, false) == Some(t2));
    crate::text::lemma_cstr_no_nul(ky);
    crate::text::lemma_cstr_of_no_nul(cstr(ky));
    lemma_same_tree_keyed(r2, cstr(ky), false, y, close);
    lemma_inv_push(k, fl, gl, a, b, close, nm);
}


/// A key below every member of `fl` not yet passed and above every passed
/// member of `gl` matches no member.
proof fn lemma_fresh_key(k: Seq<JsonNode>, fl: Seq<JsonNode>, gl: Seq<JsonNode>, a: int, b: int, close: spec_fn(u64, u64) -> bool, ky: Seq<u8>)
    requires
        forall|m: int| 0 <= m < k.len() ==> in_from(fl, a, #[trigger] k[m]) || done_with(k[m], gl, b, close),
        forall|i: int| a <= i < fl.len() ==> c_str_diff(ky, key_of(#[trigger] fl[i]), true) < 0,
        forall|j: int| 0 <= j < b ==> c_str_diff(key_of(#[trigger] gl[j]), ky, true) < 0,
    ensures
        forall|m: int| 0 <= m < k.len() ==> !fold_eq(key_of(#[trigger] k[m]), ky),
{
    assert forall|m: int| 0 <= m < k.len() implies !fold_eq(key_of(#[trigger] k[m]), ky) by {
        if in_from(fl, a, k[m]) {
            let i = choose|i: int| a <= i < fl.len() && fl[i] == k[m];
            assert(c_str_diff(ky, key_of(fl[i]), true) < 0);
            lemma_diff_zero(key_of(fl[i]), ky);
        } else {
            assert(done_with(k[m], gl, b, close));
            let j = choose|j: int|
                0 <= j < b && #[trigger] fold_eq(key_of(k[m]), key_of(gl[j])) && c_str_diff(key_of(k[m]), key_of(gl[j]), false) == 0
                    && same_tree(k[m], gl[j], true, close) && same_tree(gl[j], k[m], true, close);
            assert(c_str_diff(key_of(gl[j]), ky, true) < 0);
            if fold_eq(key_of(k[m]), ky) {
                lemma_diff_zero(key_of(k[m]), key_of(gl[j]));
                lemma_fold_eq_trans(key_of(gl[j]), key_of(k[m]), ky);
            }
        }
    }
}

/// When the next members of both lists share a key, `gl[b]`'s key is below
/// every member of `fl` after `fl[a]`.
proof fn lemma_shared_key_below(fl: Seq<JsonNode>, gl: Seq<JsonNode>, a: int, b: int)
    requires
        walk_ctx(fl, gl),
        0 <= a < fl.len(),
        0 <= b < gl.len(),
        c_str_diff(key_of(fl[a]), key_of(gl[b]), false) == 0,
    ensures
        fold_eq(key_of(fl[a]), key_of(gl[b])),
        forall|i: int| a + 1 <= i < fl.len() ==> c_str_diff(key_of(gl[b]), key_of(#[trigger] fl[i]), true) < 0,
{
    let kf = key_of(fl[a]);
    let ky = key_of(gl[b]);
    lemma_diff_zero(kf, ky);
    lemma_swap(kf, ky, true);
    assert forall|i: int| a + 1 <= i < fl.len() implies c_str_diff(ky, key_of(#[trigger] fl[i]), true) < 0 by {
        assert(c_str_diff(kf, key_of(fl[i]), true) < 0);
        lemma_lt_trans(ky, kf, key_of(fl[i]), true);
    }
}

/// The next members of both lists share a key and compare equal: the walk
/// passes both, keeping `from`'s member.
#[verifier::spinoff_prover]
#[verifier::rlimit(60)]
proof fn lemma_step_keep(fl: Seq<JsonNode>, gl: Seq<JsonNode>, close: spec_fn(u64, u64) -> bool, t: JsonNode, a: int, b: int)
    requires
        walk_ctx(fl, gl),
        0 <= a < fl.len(),
        0 <= b < gl.len(),
        c_str_diff(key_of(fl[a]), key_of(gl[b]), false) == 0,
        same_tree(fl[a], gl[b], true, close),
        same_tree(gl[b], fl[a], true, close),
        walk_inv(t, fl, gl, a, b, close),
        passed_below(fl, gl, a, b),
    ensures
        walk_inv(t, fl, gl, a + 1, b + 1, close),
        passed_below(fl, gl, a + 1, b + 1),
{
    lemma_shared_key_below(fl, gl, a, b);
    let x = fl[a];
    let k = t.child;
    assert(k.contains(x));
    let m0 = lemma_find_node(k, x);
    assert forall|i: int| a + 1 <= i < fl.len() implies k.contains(#[trigger] fl[i]) by {
        assert(k.contains(fl[i]));
    }
    assert forall|m: int| 0 <= m < k.len() implies in_from(fl, a + 1, #[trigger] k[m]) || done_with(k[m], gl, b + 1, close) by {
        if m == m0 {
            assert(fold_eq(key_of(k[m]), key_of(gl[b])));
        } else if in_from(fl, a, k[m]) {
            let i = choose|i: int| a <= i < fl.len() && fl[i] == k[m];
            if i == a {
                lemma_diff_zero(key_of(x), key_of(x));
                assert(fold_eq(key_of(k[m]), key_of(x)));
            }
            assert(fl[i] == k[m]);
        } else {
            assert(done_with(k[m], gl, b, close));
            let j = choose|j: int|
                0 <= j < b && #[trigger] fold_eq(key_of(k[m]), key_of(gl[j])) && c_str_diff(key_of(k[m]), key_of(gl[j]), false) == 0
                    && same_tree(k[m], gl[j], true, close) && same_tree(gl[j], k[m], true, close);
            assert(fold_eq(key_of(k[m]), key_of(gl[j])));
        }
    }
    assert forall|j: int| 0 <= j < b + 1 implies has_member_for(k, #[trigger] gl[j]) by {
        if j == b {
            assert(fold_eq(key_of(k[m0]), key_of(gl[b])));
        } else {
            assert(has_member_for(k, gl[j]));
        }
    }
}

/// The next members of both lists share a key but differ: the patch member
/// for that key replaces `from`'s member with the merged one.
#[verifier::spinoff_prover]
#[verifier::rlimit(60)]
proof fn lemma_step_patch(fl: Seq<JsonNode>, gl: Seq<JsonNode>, close: spec_fn(u64, u64) -> bool, t: JsonNode, a: int, b: int, p: JsonNode)
    requires
        walk_ctx(fl, gl),
        0 <= a < fl.len(),
        0 <= b < gl.len(),
        c_str_diff(key_of(fl[a]), key_of(gl[b]), false) == 0,
        type_byte(p.type_) != CJSON_NULL,
        merged(Some(fl[a]), p, false) matches Some(r) && same_tree(r, gl[b], true, close) && same_tree(gl[b], r, true, close),
        walk_inv(t, fl, gl, a, b, close),
        passed_below(fl, gl, a, b),
    ensures
        merge_members(t, seq![keyed(p, key_of(gl[b]), false)], false) matches Some(t1) && walk_inv(t1, fl, gl, a + 1, b + 1, close)
            && passed_below(fl, gl, a + 1, b + 1),
{
    lemma_shared_key_below(fl, gl, a, b);
    let x = fl[a];
    let y = gl[b];
    let kf = key_of(x);
    let ky = key_of(y);
    let k = t.child;
    assert(k.contains(x));
    let m0 = lemma_find_node(k, x);
    assert(x.string is Some);
    assert(k[m0].string.unwrap() == kf);
    crate::manip::lemma_diff_cstr(kf, ky, true);
    lemma_diff_zero(ky, kf);
    assert(c_str_diff(cstr(ky), k[m0].string.unwrap(), true) == 0);
    crate::manip::lemma_find_distinct(k, cstr(ky), false, m0, 0);
    let pc = keyed(p, ky, false);
    crate::model::lemma_type_words(p.type_);
    assert(type_byte(pc.type_) == type_byte(p.type_));
    assert(pc.string == Some(cstr(ky)));
    let rk = k.remove(m0);
    let t1 = with_kids(t, rk);
    assert(take_member(t, pc.string, false) == (t1, Some(x)));
    lemma_merged_keyed(Some(x), p, ky, y, close);
    let r2 = merged(Some(x), pc, false).unwrap();
    let nm = keyed(r2, cstr(ky), false);
    let t2 = with_kids(t1, rk.push(nm));
    let ps = seq![pc];
    assert(ps.subrange(1, 1) =~= Seq::<JsonNode>::empty());
    assert(merge_members(t2, Seq::<JsonNode>::empty(), false) == Some(t2));
    assert(merge_members(t, ps, false) == Some(t2));
    lemma_inv_remove(k, fl, gl, a, b, close, m0);
    assert forall|j: int| 0 <= j < b implies c_str_diff(key_of(#[trigger] gl[j]), ky, true) < 0 by {
        assert(c_str_diff(key_of(gl[j]), key_of(gl[b]), true) < 0);
    }
    lemma_fresh_key(rk, fl, gl, a + 1, b, close, ky);
    crate::text::lemma_cstr_no_nul(ky);
    crate::text::lemma_cstr_of_no_nul(cstr(ky));
    lemma_same_tree_keyed(r2, cstr(ky), false, y, close);
    lemma_inv_push(rk, fl, gl, a + 1, b, close, nm);
}


// ---------------------------------------------------------------------------
// Comparing two members keeps the conditions of the law.
// ---------------------------------------------------------------------------

proof fn lemma_patchable_all(s: Seq<JsonNode>)
    ensures
        patchable_list(s) <==> forall|i: int| 0 <= i < s.len() ==> patchable(#[trigger] s[i]),
    decreases s.len(),
{
    if s.len() > 0 {
        let r = s.subrange(1, s.len() as int);
        lemma_patchable_all(r);
        if forall|i: int| 0 <= i < s.len() ==> patchable(#[trigger] s[i]) {
            assert forall|i: int| 0 <= i < r.len() implies patchable(#[trigger] r[i]) by {
                assert(r[i] == s[i + 1]);
            }
        }
        if patchable_list(s) {
            assert forall|i: int| 0 <= i < s.len() implies patchable(#[trigger] s[i]) by {
                if i > 0 {
                    assert(s[i] == r[i - 1]);
                }
            }
        }
    }
}

proof fn lemma_targets_all(s: Seq<JsonNode>, close: spec_fn(u64, u64) -> bool, no_null: bool, nn: bool)
    ensures
        targets_ok(s, close, no_null, nn) <==> forall|i: int|
            0 <= i < s.len() ==> target_ok(#[trigger] s[i], close, nn) && (no_null ==> type_byte(s[i].type_) != CJSON_NULL),
    decreases s.len(),
{
    if s.len() > 0 {
        let r = s.subrange(1, s.len() as int);
        lemma_targets_all(r, close, no_null, nn);
        if forall|i: int| 0 <= i < s.len() ==> target_ok(#[trigger] s[i], close, nn) && (no_null ==> type_byte(s[i].type_) != CJSON_NULL) {
            assert forall|i: int| 0 <= i < r.len() implies target_ok(#[trigger] r[i], close, nn) && (no_null ==> type_byte(r[i].type_)
                != CJSON_NULL) by {
                assert(r[i] == s[i + 1]);
            }
        }
        if targets_ok(s, close, no_null, nn) {
            assert forall|i: int| 0 <= i < s.len() implies target_ok(#[trigger] s[i], close, nn) && (no_null ==> type_byte(s[i].type_)
                != CJSON_NULL) by {
                if i > 0 {
                    assert(s[i] == r[i - 1]);
                }
            }
        }
    }
}

proof fn lemma_dup_list_all(s: Seq<JsonNode>, d: int)
    ensures
        (dup_list(s, d) is Some) <==> forall|i: int| 0 <= i < s.len() ==> (dup_tree(#[trigger] s[i], d, true) is Some),
    decreases s.len(),
{
    if s.len() > 0 {
        let r = s.subrange(1, s.len() as int);
        lemma_dup_list_all(r, d);
        if forall|i: int| 0 <= i < s.len() ==> (dup_tree(#[trigger] s[i], d, true) is Some) {
            assert forall|i: int| 0 <= i < r.len() implies (dup_tree(#[trigger] r[i], d, true) is Some) by {
                assert(r[i] == s[i + 1]);
            }
        }
        if dup_list(s, d) is Some {
            assert forall|i: int| 0 <= i < s.len() implies (dup_tree(#[trigger] s[i], d, true) is Some) by {
                if i > 0 {
                    assert(s[i] == r[i - 1]);
                }
            }
        }
    }
}

proof fn lemma_agree_members_all(fs: Seq<JsonNode>, ts: Seq<JsonNode>)
    ensures
        keys_agree_members(fs, ts) <==> forall|i: int, j: int|
            0 <= i < fs.len() && 0 <= j < ts.len() ==> orders_agree(key_of(#[trigger] fs[i]), key_of(#[trigger] ts[j])) && (fold_eq(
                key_of(fs[i]),
                key_of(ts[j]),
            ) ==> keys_agree(fs[i], ts[j])),
    decreases ts.len(),
{
    if ts.len() > 0 {
        let r = ts.subrange(1, ts.len() as int);
        lemma_agree_members_all(fs, r);
        if forall|i: int, j: int|
            0 <= i < fs.len() && 0 <= j < ts.len() ==> orders_agree(key_of(#[trigger] fs[i]), key_of(#[trigger] ts[j])) && (fold_eq(
                key_of(fs[i]),
                key_of(ts[j]),
            ) ==> keys_agree(fs[i], ts[j])) {
            assert forall|i: int, j: int| 0 <= i < fs.len() && 0 <= j < r.len() implies orders_agree(
                key_of(#[trigger] fs[i]),
                key_of(#[trigger] r[j]),
            ) && (fold_eq(key_of(fs[i]), key_of(r[j])) ==> keys_agree(fs[i], r[j])) by {
                assert(r[j] == ts[j + 1]);
            }
            assert forall|i: int| 0 <= i < fs.len() implies #[trigger] orders_agree(key_of(fs[i]), key_of(ts[0])) by {
                assert(orders_agree(key_of(fs[i]), key_of(ts[0])));
            }
            assert forall|i: int| 0 <= i < fs.len() && #[trigger] fold_eq(key_of(fs[i]), key_of(ts[0])) implies keys_agree(
                fs[i],
                ts[0],
            ) by {
                assert(orders_agree(key_of(fs[i]), key_of(ts[0])));
            }
        }
        if keys_agree_members(fs, ts) {
            assert forall|i: int, j: int| 0 <= i < fs.len() && 0 <= j < ts.len() implies orders_agree(
                key_of(#[trigger] fs[i]),
                key_of(#[trigger] ts[j]),
            ) && (fold_eq(key_of(fs[i]), key_of(ts[j])) ==> keys_agree(fs[i], ts[j])) by {
                if j > 0 {
                    assert(ts[j] == r[j - 1]);
                    assert(orders_agree(key_of(fs[i]), key_of(r[j - 1])));
                } else {
                    assert(orders_agree(key_of(fs[i]), key_of(ts[0])));
                    assert(fold_eq(key_of(fs[i]), key_of(ts[0])) ==> keys_agree(fs[i], ts[0]));
                }
            }
        }
    }
}

proof fn lemma_agree_items_all(fs: Seq<JsonNode>, ts: Seq<JsonNode>)
    ensures
        keys_agree_items(fs, ts) <==> forall|i: int| 0 <= i < fs.len() && i < ts.len() ==> keys_agree(#[trigger] fs[i], ts[i]),
    decreases ts.len(),
{
    if ts.len() > 0 && fs.len() > 0 {
        let rf = fs.subrange(1, fs.len() as int);
        let rt = ts.subrange(1, ts.len() as int);
        lemma_agree_items_all(rf, rt);
        if forall|i: int| 0 <= i < fs.len() && i < ts.len() ==> keys_agree(#[trigger] fs[i], ts[i]) {
            assert forall|i: int| 0 <= i < rf.len() && i < rt.len() implies keys_agree(#[trigger] rf[i], rt[i]) by {
                assert(rf[i] == fs[i + 1]);
                assert(rt[i] == ts[i + 1]);
            }
        }
        if keys_agree_items(fs, ts) {
            assert forall|i: int| 0 <= i < fs.len() && i < ts.len() implies keys_agree(#[trigger] fs[i], ts[i]) by {
                if i > 0 {
                    assert(fs[i] == rf[i - 1]);
                    assert(ts[i] == rt[i - 1]);
                }
            }
        }
    }
}

proof fn lemma_pairs_from(sa: Seq<JsonNode>, sb: Seq<JsonNode>, cs: bool, close: spec_fn(u64, u64) -> bool, keys: bool)
    requires
        sa.len() == sb.len(),
        forall|p: int| 0 <= p < sa.len() ==> (keys ==> key_diff((#[trigger] sa[p]).string, sb[p].string, cs) == 0)
            && json_equal(sa[p], sb[p], cs, close),
    ensures
        pairs_equal(sa, sb, cs, close, keys),
    decreases sa.len(),
{
    if sa.len() > 0 {
        let ra = sa.subrange(1, sa.len() as int);
        let rb = sb.subrange(1, sb.len() as int);
        assert forall|p: int| 0 <= p < ra.len() implies (keys ==> key_diff((#[trigger] ra[p]).string, rb[p].string, cs) == 0)
            && json_equal(ra[p], rb[p], cs, close) by {
            assert(ra[p] == sa[p + 1]);
            assert(rb[p] == sb[p + 1]);
        }
        lemma_pairs_from(ra, rb, cs, close, keys);
        assert(json_equal(sa[0], sb[0], cs, close));
    }
}

/// How comparing two lists leaves them: up to where the comparison stopped
/// each pair is compared (and, when `keys`, had matching keys), the rest
/// is untouched.
pub open spec fn compared_pairs(
    sa: Seq<JsonNode>,
    sb: Seq<JsonNode>,
    x: Seq<JsonNode>,
    y: Seq<JsonNode>,
    cs: bool,
    close: spec_fn(u64, u64) -> bool,
    keys: bool,
) -> bool {
    &&& x.len() == sa.len()
    &&& y.len() == sb.len()
    &&& forall|i: int| #![trigger x[i]] 0 <= i < sa.len() && i >= sb.len() ==> x[i] == sa[i]
    &&& forall|i: int| #![trigger y[i]] 0 <= i < sb.len() && i >= sa.len() ==> y[i] == sb[i]
    &&& forall|i: int|
        #![trigger x[i]]
        #![trigger y[i]]
        0 <= i < sa.len() && i < sb.len() ==> (x[i] == sa[i] && y[i] == sb[i]) || ((x[i], y[i]) == compared(sa[i], sb[i], cs, close)
            && (keys ==> key_diff(sa[i].string, sb[i].string, cs) == 0))
}

proof fn lemma_compared_list_shape(sa: Seq<JsonNode>, sb: Seq<JsonNode>, cs: bool, close: spec_fn(u64, u64) -> bool, keys: bool)
    ensures
        compared_pairs(
            sa,
            sb,
            compared_list(sa, sb, cs, close, keys).0,
            compared_list(sa, sb, cs, close, keys).1,
            cs,
            close,
            keys,
        ),
        pairs_equal(sa, sb, cs, close, keys) ==> forall|i: int|
            0 <= i < sa.len() ==> (#[trigger] compared_list(sa, sb, cs, close, keys).0[i], compared_list(sa, sb, cs, close, keys).1[i])
                == compared(sa[i], sb[i], cs, close),
    decreases sa.len(),
{
    let x = compared_list(sa, sb, cs, close, keys).0;
    let y = compared_list(sa, sb, cs, close, keys).1;
    if sa.len() == 0 || sb.len() == 0 {
    } else if keys && key_diff(sa[0].string, sb[0].string, cs) != 0 {
    } else {
        let c = compared(sa[0], sb[0], cs, close);
        let ra = sa.subrange(1, sa.len() as int);
        let rb = sb.subrange(1, sb.len() as int);
        if json_equal(sa[0], sb[0], cs, close) {
            lemma_compared_list_shape(ra, rb, cs, close, keys);
            let rx = compared_list(ra, rb, cs, close, keys).0;
            let ry = compared_list(ra, rb, cs, close, keys).1;
            assert(x == seq![c.0] + rx);
            assert(y == seq![c.1] + ry);
            assert forall|i: int| 0 < i < sa.len() implies x[i] == rx[i - 1] && sa[i] == ra[i - 1] by {
            }
            assert forall|i: int| 0 < i < sb.len() implies y[i] == ry[i - 1] && sb[i] == rb[i - 1] by {
            }
            if pairs_equal(sa, sb, cs, close, keys) {
                assert(pairs_equal(ra, rb, cs, close, keys));
                lemma_pairs_at(ra, rb, cs, close, keys);
                assert forall|i: int| 0 <= i < sa.len() implies (#[trigger] x[i], y[i]) == compared(sa[i], sb[i], cs, close) by {
                    if i > 0 {
                        assert(x[i] == rx[i - 1]);
                        assert(y[i] == ry[i - 1]);
                        assert(sa[i] == ra[i - 1]);
                        assert(sb[i] == rb[i - 1]);
                        assert((rx[i - 1], ry[i - 1]) == compared(ra[i - 1], rb[i - 1], cs, close));
                    } else {
                        assert(x[0] == c.0);
                        assert(y[0] == c.1);
                    }
                }
            }
        } else {
            assert(x == seq![c.0] + ra);
            assert(y == seq![c.1] + rb);
            assert forall|i: int| 0 < i < sa.len() implies x[i] == sa[i] by {
            }
            assert forall|i: int| 0 < i < sb.len() implies y[i] == sb[i] by {
            }
        }
    }
}

/// What the law asks of a member of `from` and the member of `to` it is
/// compared with: at copying depth `d`, and with null members refused in
/// `to`'s objects where `nn`.
pub open spec fn pair_ok(x: JsonNode, y: JsonNode, close: spec_fn(u64, u64) -> bool, nn: bool, d: int) -> bool {
    &&& patchable(x)
    &&& target_ok(y, close, nn)
    &&& keys_agree(x, y)
    &&& dup_tree(y, d, true) is Some
}

/// What comparing leaves of a pair that meets the conditions of the law.
pub open spec fn compared_ok(x: JsonNode, y: JsonNode, close: spec_fn(u64, u64) -> bool, nn: bool, d: int) -> bool {
    let c = compared(x, y, false, close);
    &&& pair_ok(c.0, c.1, close, nn, d)
    &&& c.0.string == x.string
    &&& c.1.string == y.string
    &&& c.0.type_ == x.type_
    &&& c.1.type_ == y.type_
    &&& json_equal(x, y, false, close) ==> json_equal(c.0, c.1, false, close)
}

/// Comparing two trees that meet the conditions of the law leaves two
/// trees that meet them, with the same keys and types, and equal when the
/// two were.
pub proof fn lemma_compared_cond(x: JsonNode, y: JsonNode, close: spec_fn(u64, u64) -> bool, nn: bool, d: int)
    requires
        pair_ok(x, y, close, nn, d),
    ensures
        compared_ok(x, y, close, nn, d),
    decreases node_count(x) + node_count(y), 1int,
{
    let t = type_byte(x.type_);
    if t != type_byte(y.type_) || (t != CJSON_ARRAY && t != CJSON_OBJECT) {
        assert(compared(x, y, false, close) == (x, y));
    } else if t == CJSON_ARRAY {
        lemma_compared_cond_array(x, y, close, nn, d);
    } else {
        lemma_compared_cond_object(x, y, close, nn, d);
    }
}

#[verifier::rlimit(60)]
proof fn lemma_compared_cond_array(x: JsonNode, y: JsonNode, close: spec_fn(u64, u64) -> bool, nn: bool, d: int)
    requires
        pair_ok(x, y, close, nn, d),
        type_byte(x.type_) == CJSON_ARRAY,
        type_byte(y.type_) == CJSON_ARRAY,
    ensures
        compared_ok(x, y, close, nn, d),
    decreases node_count(x) + node_count(y), 0int,
{
    let sa = x.child;
    let sb = y.child;
    let xs = compared_list(sa, sb, false, close, false).0;
    let ys = compared_list(sa, sb, false, close, false).1;
    let c0 = with_kids(x, xs);
    let c1 = with_kids(y, ys);
    assert(compared(x, y, false, close) == (c0, c1));
    lemma_compared_list_shape(sa, sb, false, close, false);
    lemma_patchable_all(sa);
    lemma_targets_all(sb, close, false, false);
    lemma_agree_items_all(sa, sb);
    lemma_patchable_all(xs);
    lemma_targets_all(ys, close, false, false);
    lemma_agree_items_all(xs, ys);
    if sb.len() > 0 {
        lemma_dup_list_all(sb, d + 1);
        lemma_dup_list_all(ys, d + 1);
    }
    assert forall|i: int| 0 <= i < sa.len() && i < sb.len() implies pair_ok(#[trigger] xs[i], ys[i], close, false, d + 1) && (json_equal(
        sa[i],
        sb[i],
        false,
        close,
    ) ==> json_equal(xs[i], ys[i], false, close)) by {
        assert(patchable(sa[i]));
        assert(target_ok(sb[i], close, false));
        assert(keys_agree(sa[i], sb[i]));
        if !(xs[i] == sa[i] && ys[i] == sb[i]) {
            lemma_count_lt(x, i, y, i);
            lemma_compared_cond(sa[i], sb[i], close, false, d + 1);
        }
    }
    assert forall|i: int| 0 <= i < xs.len() implies patchable(#[trigger] xs[i]) by {
        if i < sb.len() {
            assert(pair_ok(xs[i], ys[i], close, false, d + 1));
        } else {
            assert(xs[i] == sa[i]);
        }
    }
    assert forall|j: int| 0 <= j < ys.len() implies target_ok(#[trigger] ys[j], close, false) by {
        if j < sa.len() {
            assert(pair_ok(xs[j], ys[j], close, false, d + 1));
        } else {
            assert(ys[j] == sb[j]);
        }
    }
    assert forall|i: int| 0 <= i < xs.len() && i < ys.len() implies keys_agree(#[trigger] xs[i], ys[i]) by {
        assert(pair_ok(xs[i], ys[i], close, false, d + 1));
    }
    if sb.len() > 0 {
        assert forall|j: int| 0 <= j < ys.len() implies (dup_tree(#[trigger] ys[j], d + 1, true) is Some) by {
            if j < sa.len() {
                assert(pair_ok(xs[j], ys[j], close, false, d + 1));
            } else {
                assert(ys[j] == sb[j]);
            }
        }
    }
    assert(dup_tree(c1, d, true) is Some);
    if json_equal(x, y, false, close) {
        lemma_pairs_at(sa, sb, false, close, false);
        assert forall|p: int| 0 <= p < xs.len() implies (false ==> key_diff((#[trigger] xs[p]).string, ys[p].string, false) == 0)
            && json_equal(xs[p], ys[p], false, close) by {
            assert(json_equal(sa[p], sb[p], false, close));
            assert(pair_ok(xs[p], ys[p], close, false, d + 1));
        }
        lemma_pairs_from(xs, ys, false, close, false);
    }
}

/// What the conditions of the law give about the `i`-th member of `x`'s
/// sorted members.
proof fn lemma_sorted_left(x: JsonNode, y: JsonNode, close: spec_fn(u64, u64) -> bool, nn: bool, d: int, i: int)
    requires
        pair_ok(x, y, close, nn, d),
        type_byte(x.type_) == CJSON_OBJECT,
        0 <= i < sorted_spec(x.child, false).len(),
    ensures
        patchable(sorted_spec(x.child, false)[i]),
        x.child.contains(sorted_spec(x.child, false)[i]),
{
    let sa = sorted_spec(x.child, false);
    lemma_sorted_strict(x.child);
    lemma_perm_keys(x.child, sa);
    assert(x.child.contains(sa[i]));
    let i2 = choose|i2: int| 0 <= i2 < x.child.len() && x.child[i2] == sa[i];
    lemma_patchable_all(x.child);
}

/// What the conditions of the law give about the `j`-th member of `y`'s
/// sorted members.
proof fn lemma_sorted_right(x: JsonNode, y: JsonNode, close: spec_fn(u64, u64) -> bool, nn: bool, d: int, j: int)
    requires
        pair_ok(x, y, close, nn, d),
        type_byte(y.type_) == CJSON_OBJECT,
        0 <= j < sorted_spec(y.child, false).len(),
    ensures
        ({
            let b = sorted_spec(y.child, false)[j];
            &&& target_ok(b, close, nn)
            &&& nn ==> type_byte(b.type_) != CJSON_NULL
            &&& dup_tree(b, d + 1, true) is Some
            &&& y.child.contains(b)
        }),
{
    let sb = sorted_spec(y.child, false);
    lemma_sorted_strict(y.child);
    lemma_perm_keys(y.child, sb);
    assert(y.child.contains(sb[j]));
    let j2 = choose|j2: int| 0 <= j2 < y.child.len() && y.child[j2] == sb[j];
    lemma_targets_all(y.child, close, nn, nn);
    lemma_dup_list_all(y.child, d + 1);
}

/// How the `i`-th member of `x`'s sorted members and the `j`-th of `y`'s
/// relate under the conditions of the law.
proof fn lemma_sorted_pair(x: JsonNode, y: JsonNode, close: spec_fn(u64, u64) -> bool, nn: bool, d: int, i: int, j: int)
    requires
        pair_ok(x, y, close, nn, d),
        type_byte(x.type_) == CJSON_OBJECT,
        type_byte(y.type_) == CJSON_OBJECT,
        0 <= i < sorted_spec(x.child, false).len(),
        0 <= j < sorted_spec(y.child, false).len(),
    ensures
        ({
            let a = sorted_spec(x.child, false)[i];
            let b = sorted_spec(y.child, false)[j];
            &&& orders_agree(key_of(a), key_of(b))
            &&& fold_eq(key_of(a), key_of(b)) ==> keys_agree(a, b)
            &&& node_count(a) + node_count(b) < node_count(x) + node_count(y)
        }),
{
    let sa = sorted_spec(x.child, false);
    let sb = sorted_spec(y.child, false);
    lemma_sorted_left(x, y, close, nn, d, i);
    lemma_sorted_right(x, y, close, nn, d, j);
    let i2 = choose|i2: int| 0 <= i2 < x.child.len() && x.child[i2] == sa[i];
    let j2 = choose|j2: int| 0 <= j2 < y.child.len() && y.child[j2] == sb[j];
    lemma_agree_members_all(x.child, y.child);
    assert(orders_agree(key_of(x.child[i2]), key_of(y.child[j2])));
    lemma_count_lt(x, i2, y, j2);
}

#[verifier::rlimit(100)]
#[verifier::spinoff_prover]
proof fn lemma_compared_cond_object(x: JsonNode, y: JsonNode, close: spec_fn(u64, u64) -> bool, nn: bool, d: int)
    requires
        pair_ok(x, y, close, nn, d),
        type_byte(x.type_) == CJSON_OBJECT,
        type_byte(y.type_) == CJSON_OBJECT,
    ensures
        compared_ok(x, y, close, nn, d),
    decreases node_count(x) + node_count(y), 0int,
{
    let sa = sorted_spec(x.child, false);
    let sb = sorted_spec(y.child, false);
    let xs = compared_list(sa, sb, false, close, true).0;
    let ys = compared_list(sa, sb, false, close, true).1;
    let c0 = with_kids(x, xs);
    let c1 = with_kids(y, ys);
    assert(compared(x, y, false, close) == (c0, c1));
    lemma_sorted_strict(x.child);
    lemma_sorted_strict(y.child);
    lemma_compared_list_shape(sa, sb, false, close, true);
    // each pair that was compared
    assert forall|i: int| 0 <= i < sa.len() && i < sb.len() && !(xs[i] == sa[i] && ys[i] == sb[i]) implies pair_ok(
        #[trigger] xs[i],
        ys[i],
        close,
        nn,
        d + 1,
    ) && xs[i].string == sa[i].string && ys[i].string == sb[i].string && xs[i].type_ == sa[i].type_ && ys[i].type_ == sb[i].type_
        && (json_equal(sa[i], sb[i], false, close) ==> json_equal(xs[i], ys[i], false, close)) by {
        lemma_sorted_left(x, y, close, nn, d, i);
        lemma_sorted_right(x, y, close, nn, d, i);
        lemma_sorted_pair(x, y, close, nn, d, i, i);
        assert(key_diff(sa[i].string, sb[i].string, false) == 0);
        assert(fold_eq(key_of(sa[i]), key_of(sb[i])));
        lemma_compared_cond(sa[i], sb[i], close, nn, d + 1);
    }
    // keys and types stay where they were
    assert forall|i: int| 0 <= i < xs.len() implies (#[trigger] xs[i]).string == sa[i].string && xs[i].type_ == sa[i].type_ && patchable(
        xs[i],
    ) by {
        lemma_sorted_left(x, y, close, nn, d, i);
        if i < sb.len() && !(xs[i] == sa[i] && ys[i] == sb[i]) {
            assert(pair_ok(xs[i], ys[i], close, nn, d + 1));
        } else {
            assert(xs[i] == sa[i]);
        }
    }
    assert forall|j: int| 0 <= j < ys.len() implies (#[trigger] ys[j]).string == sb[j].string && ys[j].type_ == sb[j].type_ && target_ok(
        ys[j],
        close,
        nn,
    ) && (nn ==> type_byte(ys[j].type_) != CJSON_NULL) && (dup_tree(ys[j], d + 1, true) is Some) by {
        lemma_sorted_right(x, y, close, nn, d, j);
        if j < sa.len() && !(xs[j] == sa[j] && ys[j] == sb[j]) {
            assert(pair_ok(xs[j], ys[j], close, nn, d + 1));
        } else {
            assert(ys[j] == sb[j]);
        }
    }
    // the patchable and target conditions
    lemma_patchable_all(xs);
    lemma_targets_all(ys, close, nn, nn);
    assert(keys_in_order(xs)) by {
        assert forall|i: int| 0 <= i < xs.len() implies (#[trigger] xs[i]).string is Some by {
            assert(sa[i].string is Some);
        }
        assert forall|i: int, j: int| 0 <= i < xs.len() && 0 <= j < xs.len() && i != j implies !fold_eq(
            key_of(#[trigger] xs[i]),
            key_of(#[trigger] xs[j]),
        ) by {
            assert(!fold_eq(key_of(sa[i]), key_of(sa[j])));
        }
        assert forall|i: int, j: int| 0 <= i < xs.len() && 0 <= j < xs.len() implies orders_agree(
            key_of(#[trigger] xs[i]),
            key_of(#[trigger] xs[j]),
        ) by {
            assert(orders_agree(key_of(sa[i]), key_of(sa[j])));
        }
    }
    assert(keys_in_order(ys)) by {
        assert forall|i: int| 0 <= i < ys.len() implies (#[trigger] ys[i]).string is Some by {
            assert(sb[i].string is Some);
        }
        assert forall|i: int, j: int| 0 <= i < ys.len() && 0 <= j < ys.len() && i != j implies !fold_eq(
            key_of(#[trigger] ys[i]),
            key_of(#[trigger] ys[j]),
        ) by {
            assert(!fold_eq(key_of(sb[i]), key_of(sb[j])));
        }
        assert forall|i: int, j: int| 0 <= i < ys.len() && 0 <= j < ys.len() implies orders_agree(
            key_of(#[trigger] ys[i]),
            key_of(#[trigger] ys[j]),
        ) by {
            assert(orders_agree(key_of(sb[i]), key_of(sb[j])));
        }
    }
    assert(patchable(c0));
    assert(target_ok(c1, close, nn));
    // the keys of the two agree
    lemma_agree_members_all(xs, ys);
    assert forall|i: int, j: int| 0 <= i < xs.len() && 0 <= j < ys.len() implies orders_agree(
        key_of(#[trigger] xs[i]),
        key_of(#[trigger] ys[j]),
    ) && (fold_eq(key_of(xs[i]), key_of(ys[j])) ==> keys_agree(xs[i], ys[j])) by {
        lemma_sorted_pair(x, y, close, nn, d, i, j);
        if fold_eq(key_of(xs[i]), key_of(ys[j])) {
            if i == j {
                if !(xs[i] == sa[i] && ys[i] == sb[i]) {
                    assert(pair_ok(xs[i], ys[i], close, nn, d + 1));
                }
            } else {
                if i < sb.len() && !(xs[i] == sa[i] && ys[i] == sb[i]) {
                    assert(key_diff(sa[i].string, sb[i].string, false) == 0);
                    lemma_diff_zero(key_of(sa[i]), key_of(sb[i]));
                    lemma_fold_eq_trans(key_of(sb[i]), key_of(sa[i]), key_of(sb[j]));
                    assert(!fold_eq(key_of(sb[i]), key_of(sb[j])));
                }
                if j < sa.len() && !(xs[j] == sa[j] && ys[j] == sb[j]) {
                    assert(key_diff(sa[j].string, sb[j].string, false) == 0);
                    lemma_diff_zero(key_of(sa[j]), key_of(sb[j]));
                    lemma_diff_zero(key_of(sa[i]), key_of(sb[j]));
                    lemma_fold_eq_trans(key_of(sa[i]), key_of(sb[j]), key_of(sa[j]));
                    assert(!fold_eq(key_of(sa[i]), key_of(sa[j])));
                }
                assert(xs[i] == sa[i]);
                assert(ys[j] == sb[j]);
            }
        }
    }
    assert(keys_agree(c0, c1));
    // the copy can still be made
    if ys.len() > 0 {
        lemma_dup_list_all(ys, d + 1);
    }
    assert(dup_tree(c1, d, true) is Some);
    // equal trees stay equal
    if json_equal(x, y, false, close) {
        lemma_pairs_at(sa, sb, false, close, true);
        assert(ascending(xs, false)) by {
            assert forall|i: int| 0 <= i < xs.len() - 1 implies #[trigger] key_diff(xs[i].string, xs[i + 1].string, false) < 0 by {
                assert(xs[i + 1].string == sa[i + 1].string);
                assert(c_str_diff(key_of(sa[i]), key_of(sa[i + 1]), true) < 0);
            }
        }
        assert(ascending(ys, false)) by {
            assert forall|i: int| 0 <= i < ys.len() - 1 implies #[trigger] key_diff(ys[i].string, ys[i + 1].string, false) < 0 by {
                assert(ys[i + 1].string == sb[i + 1].string);
                assert(c_str_diff(key_of(sb[i]), key_of(sb[i + 1]), true) < 0);
            }
        }
        assert(sorted_spec(xs, false) == xs);
        assert(sorted_spec(ys, false) == ys);
        assert forall|p: int| 0 <= p < xs.len() implies (true ==> key_diff((#[trigger] xs[p]).string, ys[p].string, false) == 0)
            && json_equal(xs[p], ys[p], false, close) by {
            assert(json_equal(sa[p], sb[p], false, close));
            assert(key_diff(sa[p].string, sb[p].string, false) == 0);
            assert(ys[p].string == sb[p].string);
            assert(!(xs[p] == sa[p] && ys[p] == sb[p]) ==> pair_ok(xs[p], ys[p], close, nn, d + 1));
        }
        lemma_pairs_from(xs, ys, false, close, true);
    }
}

/// Comparing keeps the keys and types of both trees.
proof fn lemma_compared_keeps(a: JsonNode, b: JsonNode, close: spec_fn(u64, u64) -> bool)
    ensures
        compared(a, b, false, close).0.string == a.string,
        compared(a, b, false, close).1.string == b.string,
        compared(a, b, false, close).0.type_ == a.type_,
        compared(a, b, false, close).1.type_ == b.type_,
{
}

/// Comparing two trees keeps `null` members where the law allows them.
pub proof fn lemma_compared_nulls(x: JsonNode, y: JsonNode, close: spec_fn(u64, u64) -> bool, nn: bool, d: int)
    requires
        pair_ok(x, y, close, nn, d),
        nulls_kept(x, y, close),
    ensures
        nulls_kept(compared(x, y, false, close).0, compared(x, y, false, close).1, close),
    decreases node_count(x) + node_count(y), 1int,
{
    lemma_compared_cond(x, y, close, nn, d);
    if type_byte(x.type_) == CJSON_OBJECT && type_byte(y.type_) == CJSON_OBJECT {
        lemma_compared_nulls_object(x, y, close, nn, d);
    } else if type_byte(x.type_) != type_byte(y.type_) {
        assert(compared(x, y, false, close) == (x, y));
    }
}

#[verifier::rlimit(100)]
#[verifier::spinoff_prover]
proof fn lemma_compared_nulls_object(x: JsonNode, y: JsonNode, close: spec_fn(u64, u64) -> bool, nn: bool, d: int)
    requires
        pair_ok(x, y, close, nn, d),
        nulls_kept(x, y, close),
        type_byte(x.type_) == CJSON_OBJECT,
        type_byte(y.type_) == CJSON_OBJECT,
    ensures
        nulls_kept(compared(x, y, false, close).0, compared(x, y, false, close).1, close),
    decreases node_count(x) + node_count(y), 0int,
{
    let sa = sorted_spec(x.child, false);
    let sb = sorted_spec(y.child, false);
    let xs = compared_list(sa, sb, false, close, true).0;
    let ys = compared_list(sa, sb, false, close, true).1;
    assert(compared(x, y, false, close) == (with_kids(x, xs), with_kids(y, ys)));
    lemma_sorted_strict(x.child);
    lemma_sorted_strict(y.child);
    lemma_perm_keys(x.child, sa);
    lemma_perm_keys(y.child, sb);
    lemma_compared_list_shape(sa, sb, false, close, true);
    lemma_compared_cond(x, y, close, nn, d);
    lemma_nulls_members_all(x.child, y.child, close);
    lemma_nulls_members_all(xs, ys, close);
    assert forall|i: int| 0 <= i < xs.len() implies (#[trigger] xs[i]).string == sa[i].string && xs[i].type_ == sa[i].type_ by {
        if i < sb.len() {
            lemma_compared_keeps(sa[i], sb[i], close);
        }
    }
    assert forall|j: int| 0 <= j < ys.len() implies (#[trigger] ys[j]).string == sb[j].string && ys[j].type_ == sb[j].type_ by {
        if j < sa.len() {
            lemma_compared_keeps(sa[j], sb[j], close);
        }
    }
    // the condition for each member of `y`'s sorted list, against `sa`
    assert forall|j: int| 0 <= j < sb.len() implies nulls_member_ok(sa, #[trigger] sb[j], close) by {
        assert(y.child.contains(sb[j]));
        let j2 = choose|j2: int| 0 <= j2 < y.child.len() && y.child[j2] == sb[j];
        assert(nulls_member_ok(x.child, y.child[j2], close));
        lemma_nulls_member_perm(x.child, sa, sb[j], close);
    }
    assert forall|j: int| 0 <= j < ys.len() implies nulls_member_ok(xs, #[trigger] ys[j], close) by {
        assert(nulls_member_ok(sa, sb[j], close));
        assert forall|i: int| 0 <= i < xs.len() && #[trigger] fold_eq(key_of(xs[i]), key_of(ys[j])) implies nulls_kept(
            xs[i],
            ys[j],
            close,
        ) && (type_byte(ys[j].type_) == CJSON_NULL ==> type_byte(xs[i].type_) == CJSON_NULL) by {
            assert(xs[i].string == sa[i].string && xs[i].type_ == sa[i].type_);
            assert(ys[j].string == sb[j].string && ys[j].type_ == sb[j].type_);
            assert(fold_eq(key_of(sa[i]), key_of(sb[j])));
            if i == j && !(xs[i] == sa[i] && ys[i] == sb[i]) {
                lemma_sorted_left(x, y, close, nn, d, i);
                lemma_sorted_right(x, y, close, nn, d, i);
                lemma_sorted_pair(x, y, close, nn, d, i, i);
                lemma_compared_nulls(sa[i], sb[i], close, nn, d + 1);
            } else if i != j {
                if i < sb.len() && !(xs[i] == sa[i] && ys[i] == sb[i]) {
                    assert(key_diff(sa[i].string, sb[i].string, false) == 0);
                    lemma_diff_zero(key_of(sa[i]), key_of(sb[i]));
                    lemma_fold_eq_trans(key_of(sb[i]), key_of(sa[i]), key_of(sb[j]));
                    assert(!fold_eq(key_of(sb[i]), key_of(sb[j])));
                }
                if j < sa.len() && !(xs[j] == sa[j] && ys[j] == sb[j]) {
                    assert(key_diff(sa[j].string, sb[j].string, false) == 0);
                    lemma_diff_zero(key_of(sa[j]), key_of(sb[j]));
                    lemma_diff_zero(key_of(sa[i]), key_of(sb[j]));
                    lemma_fold_eq_trans(key_of(sa[i]), key_of(sb[j]), key_of(sa[j]));
                    assert(!fold_eq(key_of(sa[i]), key_of(sa[j])));
                }
                assert(xs[i] == sa[i]);
                assert(ys[j] == sb[j]);
            }
        }
        if forall|i: int| 0 <= i < xs.len() ==> !#[trigger] fold_eq(key_of(xs[i]), key_of(ys[j])) {
            assert forall|i: int| 0 <= i < sa.len() implies !#[trigger] fold_eq(key_of(sa[i]), key_of(sb[j])) by {
                assert(xs[i].string == sa[i].string);
                assert(!fold_eq(key_of(xs[i]), key_of(ys[j])));
            }
            if j < sa.len() && !(xs[j] == sa[j] && ys[j] == sb[j]) {
                assert(key_diff(sa[j].string, sb[j].string, false) == 0);
                lemma_diff_zero(key_of(sa[j]), key_of(sb[j]));
                assert(fold_eq(key_of(sa[j]), key_of(sb[j])));
            }
            assert(ys[j] == sb[j]);
        }
    }
}

// ---------------------------------------------------------------------------
// The walk over both member lists as generating the patch leaves them.
// ---------------------------------------------------------------------------

/// The member patches of the merge patch from `from` to `to`, and the
/// members of both as generating it leaves them.
pub open spec fn finals(from: JsonNode, to: JsonNode, close: spec_fn(u64, u64) -> bool) -> (
    Seq<JsonNode>,
    Seq<JsonNode>,
    Seq<JsonNode>,
) {
    merge_gen_members(sorted_spec(from.child, false), sorted_spec(to.child, false), false, close)
}

/// The member patches and lists left of the walk from `fl[a]` and `gl[b]`
/// on.
pub open spec fn rest_of(from: JsonNode, to: JsonNode, close: spec_fn(u64, u64) -> bool, a: int, b: int) -> (
    Seq<JsonNode>,
    Seq<JsonNode>,
    Seq<JsonNode>,
) {
    let fl = sorted_spec(from.child, false);
    let gl = sorted_spec(to.child, false);
    merge_gen_members(fl.subrange(a, fl.len() as int), gl.subrange(b, gl.len() as int), false, close)
}

/// Generating the merge patch keeps every member's key and type, and the
/// number of members, of both lists.
proof fn lemma_mgm_keys(fs: Seq<JsonNode>, ts: Seq<JsonNode>, close: spec_fn(u64, u64) -> bool)
    ensures
        ({
            let r = merge_gen_members(fs, ts, false, close);
            &&& r.1.len() == fs.len()
            &&& r.2.len() == ts.len()
            &&& forall|i: int| 0 <= i < fs.len() ==> (#[trigger] r.1[i]).string == fs[i].string && r.1[i].type_ == fs[i].type_
            &&& forall|j: int| 0 <= j < ts.len() ==> (#[trigger] r.2[j]).string == ts[j].string && r.2[j].type_ == ts[j].type_
        }),
    decreases fs.len() + ts.len(),
{
    let r = merge_gen_members(fs, ts, false, close);
    if fs.len() == 0 && ts.len() == 0 {
        lemma_mgm_empty(fs, ts, false, close);
    } else {
        let fs1 = fs.subrange(1, fs.len() as int);
        let ts1 = ts.subrange(1, ts.len() as int);
        let diff = if fs.len() > 0 && ts.len() > 0 {
            key_diff(fs[0].string, ts[0].string, true)
        } else if fs.len() > 0 {
            -1
        } else {
            1
        };
        if diff < 0 {
            lemma_mgm_remove(fs, ts, false, close);
            lemma_mgm_keys(fs1, ts, close);
            let r1 = merge_gen_members(fs1, ts, false, close);
            assert(r.1 == seq![fs[0]] + r1.1);
            assert forall|i: int| 0 < i < fs.len() implies (#[trigger] r.1[i]) == r1.1[i - 1] && fs[i] == fs1[i - 1] by {
            }
        } else if diff > 0 {
            lemma_mgm_add(fs, ts, false, close);
            lemma_mgm_keys(fs, ts1, close);
            let r1 = merge_gen_members(fs, ts1, false, close);
            assert(r.2 == seq![ts[0]] + r1.2);
            assert forall|j: int| 0 < j < ts.len() implies (#[trigger] r.2[j]) == r1.2[j - 1] && ts[j] == ts1[j - 1] by {
            }
        } else {
            lemma_mgm_pair(fs, ts, false, close);
            lemma_mgm_keys(fs1, ts1, close);
            let r1 = merge_gen_members(fs1, ts1, false, close);
            let c = compared(fs[0], ts[0], false, close);
            let g = merge_gen(c.0, c.1, false, close);
            assert(c.0.string == fs[0].string && c.0.type_ == fs[0].type_);
            assert(c.1.string == ts[0].string && c.1.type_ == ts[0].type_);
            assert(g.1.string == c.0.string && g.1.type_ == c.0.type_);
            assert(g.2.string == c.1.string && g.2.type_ == c.1.type_);
            assert forall|i: int| 0 < i < fs.len() implies (#[trigger] r.1[i]) == r1.1[i - 1] && fs[i] == fs1[i - 1] by {
            }
            assert forall|j: int| 0 < j < ts.len() implies (#[trigger] r.2[j]) == r1.2[j - 1] && ts[j] == ts1[j - 1] by {
            }
        }
    }
}

/// The member lists as generating the patch leaves them have the keys and
/// types of the sorted lists, in the same places, so the walk can go over
/// them.
proof fn lemma_final_ctx(from: JsonNode, to: JsonNode, close: spec_fn(u64, u64) -> bool)
    requires
        law_cond(from, to, close),
        type_byte(from.type_) == CJSON_OBJECT,
        type_byte(to.type_) == CJSON_OBJECT,
    ensures
        ({
            let fl = sorted_spec(from.child, false);
            let gl = sorted_spec(to.child, false);
            let u = finals(from, to, close).1;
            let v = finals(from, to, close).2;
            &&& u.len() == fl.len()
            &&& v.len() == gl.len()
            &&& forall|i: int| 0 <= i < fl.len() ==> (#[trigger] u[i]).string == fl[i].string && u[i].type_ == fl[i].type_
            &&& forall|j: int| 0 <= j < gl.len() ==> (#[trigger] v[j]).string == gl[j].string && v[j].type_ == gl[j].type_
            &&& walk_ctx(u, v)
        }),
{
    let fl = sorted_spec(from.child, false);
    let gl = sorted_spec(to.child, false);
    let u = finals(from, to, close).1;
    let v = finals(from, to, close).2;
    lemma_mgm_keys(fl, gl, close);
    lemma_sorted_ctx(from, to, close);
    assert forall|i: int| 0 <= i < u.len() implies #[trigger] key_of(u[i]) == key_of(fl[i]) by {
    }
    assert forall|j: int| 0 <= j < v.len() implies #[trigger] key_of(v[j]) == key_of(gl[j]) by {
    }
    assert(keys_in_order(u)) by {
        assert forall|i: int| 0 <= i < u.len() implies (#[trigger] u[i]).string is Some by {
            assert(fl[i].string is Some);
        }
        assert forall|i: int, j: int| 0 <= i < u.len() && 0 <= j < u.len() && i != j implies !fold_eq(
            key_of(#[trigger] u[i]),
            key_of(#[trigger] u[j]),
        ) by {
            assert(!fold_eq(key_of(fl[i]), key_of(fl[j])));
        }
        assert forall|i: int, j: int| 0 <= i < u.len() && 0 <= j < u.len() implies orders_agree(
            key_of(#[trigger] u[i]),
            key_of(#[trigger] u[j]),
        ) by {
            assert(orders_agree(key_of(fl[i]), key_of(fl[j])));
        }
    }
    assert(keys_in_order(v)) by {
        assert forall|i: int| 0 <= i < v.len() implies (#[trigger] v[i]).string is Some by {
            assert(gl[i].string is Some);
        }
        assert forall|i: int, j: int| 0 <= i < v.len() && 0 <= j < v.len() && i != j implies !fold_eq(
            key_of(#[trigger] v[i]),
            key_of(#[trigger] v[j]),
        ) by {
            assert(!fold_eq(key_of(gl[i]), key_of(gl[j])));
        }
        assert forall|i: int, j: int| 0 <= i < v.len() && 0 <= j < v.len() implies orders_agree(
            key_of(#[trigger] v[i]),
            key_of(#[trigger] v[j]),
        ) by {
            assert(orders_agree(key_of(gl[i]), key_of(gl[j])));
        }
    }
    assert forall|p: int, q: int| 0 <= p < q < u.len() implies c_str_diff(key_of(#[trigger] u[p]), key_of(#[trigger] u[q]), true) < 0 by {
        assert(c_str_diff(key_of(fl[p]), key_of(fl[q]), true) < 0);
    }
    assert forall|p: int, q: int| 0 <= p < q < v.len() implies c_str_diff(key_of(#[trigger] v[p]), key_of(#[trigger] v[q]), true) < 0 by {
        assert(c_str_diff(key_of(gl[p]), key_of(gl[q]), true) < 0);
    }
    assert forall|i: int, j: int| 0 <= i < u.len() && 0 <= j < v.len() implies orders_agree(
        key_of(#[trigger] u[i]),
        key_of(#[trigger] v[j]),
    ) by {
        lemma_sorted_members(from, to, close, i, j);
    }
}

/// A generated patch for a target that is not `null` is not `null`.
proof fn lemma_patch_not_null(x: JsonNode, y: JsonNode, close: spec_fn(u64, u64) -> bool)
    requires
        type_byte(y.type_) != CJSON_NULL,
    ensures
        merge_gen(x, y, false, close).0 matches Some(p) ==> type_byte(p.type_) != CJSON_NULL,
{
    crate::model::lemma_type_words(y.type_);
    crate::model::lemma_type_words(CJSON_OBJECT);
    if type_byte(y.type_) != CJSON_OBJECT || type_byte(x.type_) != CJSON_OBJECT {
        if let Some(q) = dup_tree(y, 0, true) {
            assert(type_byte(q.type_) == type_byte(y.type_));
        }
    } else {
        lemma_merge_gen_objects(x, y, false, close);
    }
}

/// Where a list from its `a`-th member on is `h` followed by `rest`, its
/// `a`-th member is `h` and the members after it are `rest`.
proof fn lemma_tail_after(u: Seq<JsonNode>, a: int, h: JsonNode, rest: Seq<JsonNode>)
    requires
        0 <= a < u.len(),
        u.subrange(a, u.len() as int) == seq![h] + rest,
    ensures
        u[a] == h,
        u.subrange(a + 1, u.len() as int) == rest,
{
    let s = u.subrange(a, u.len() as int);
    let w = seq![h] + rest;
    assert(seq![h].len() == 1);
    assert(w.len() == 1 + rest.len());
    assert(w[0] == h);
    assert(s.len() == u.len() - a);
    assert(s[0] == u[a]);
    assert(s =~= w);
    assert(s[0] == w[0]);
    assert(s.len() == w.len());
    let t = u.subrange(a + 1, u.len() as int);
    assert(t.len() == u.len() - a - 1);
    assert(t.len() == rest.len());
    assert forall|i: int| 0 <= i < rest.len() implies #[trigger] t[i] == rest[i] by {
        assert(t[i] == u[a + 1 + i]);
        assert(s[i + 1] == u[a + 1 + i]);
        assert(w[i + 1] == rest[i]);
    }
    assert(t =~= rest);
}

/// No member of `fl` passed so far has a key matching (ASCII case folded)
/// a member of `gl` not yet passed.
pub open spec fn from_passed(fl: Seq<JsonNode>, gl: Seq<JsonNode>, a: int, b: int) -> bool {
    forall|i: int, j: int| 0 <= i < a && b <= j < gl.len() ==> !fold_eq(key_of(#[trigger] fl[i]), key_of(#[trigger] gl[j]))
}

/// Passing a member of `fl` whose key is below `gl[b]`'s keeps the passed
/// members of `fl` apart from the members of `gl` not yet passed.
proof fn lemma_passed_remove(from: JsonNode, to: JsonNode, close: spec_fn(u64, u64) -> bool, a: int, b: int)
    requires
        law_cond(from, to, close),
        type_byte(from.type_) == CJSON_OBJECT,
        type_byte(to.type_) == CJSON_OBJECT,
        0 <= a < sorted_spec(from.child, false).len(),
        0 <= b <= sorted_spec(to.child, false).len(),
        b < sorted_spec(to.child, false).len() ==> c_str_diff(
            key_of(sorted_spec(from.child, false)[a]),
            key_of(sorted_spec(to.child, false)[b]),
            false,
        ) < 0,
        from_passed(sorted_spec(from.child, false), sorted_spec(to.child, false), a, b),
    ensures
        from_passed(sorted_spec(from.child, false), sorted_spec(to.child, false), a + 1, b),
{
    let fl = sorted_spec(from.child, false);
    let gl = sorted_spec(to.child, false);
    lemma_sorted_ctx(from, to, close);
    assert forall|i: int, j: int| 0 <= i < a + 1 && b <= j < gl.len() implies !fold_eq(
        key_of(#[trigger] fl[i]),
        key_of(#[trigger] gl[j]),
    ) by {
        if i == a {
            lemma_sorted_members(from, to, close, a, b);
            let kf = key_of(fl[a]);
            let ky = key_of(gl[b]);
            assert(c_str_diff(kf, ky, true) < 0);
            if j > b {
                assert(c_str_diff(ky, key_of(gl[j]), true) < 0);
                lemma_lt_trans(kf, ky, key_of(gl[j]), true);
            }
        }
    }
}

/// Passing a pair with matching keys keeps the passed members of `fl`
/// apart from the members of `gl` not yet passed.
proof fn lemma_passed_pair(from: JsonNode, to: JsonNode, close: spec_fn(u64, u64) -> bool, a: int, b: int)
    requires
        law_cond(from, to, close),
        type_byte(from.type_) == CJSON_OBJECT,
        type_byte(to.type_) == CJSON_OBJECT,
        0 <= a < sorted_spec(from.child, false).len(),
        0 <= b < sorted_spec(to.child, false).len(),
        c_str_diff(key_of(sorted_spec(from.child, false)[a]), key_of(sorted_spec(to.child, false)[b]), false) == 0,
        from_passed(sorted_spec(from.child, false), sorted_spec(to.child, false), a, b),
    ensures
        from_passed(sorted_spec(from.child, false), sorted_spec(to.child, false), a + 1, b + 1),
{
    let fl = sorted_spec(from.child, false);
    let gl = sorted_spec(to.child, false);
    lemma_sorted_ctx(from, to, close);
    let x = fl[a];
    let y = gl[b];
    lemma_diff_zero(key_of(x), key_of(y));
    assert forall|i: int, j: int| 0 <= i < a + 1 && b + 1 <= j < gl.len() implies !fold_eq(
        key_of(#[trigger] fl[i]),
        key_of(#[trigger] gl[j]),
    ) by {
        if i == a && fold_eq(key_of(x), key_of(gl[j])) {
            lemma_fold_eq_trans(key_of(y), key_of(x), key_of(gl[j]));
            assert(c_str_diff(key_of(y), key_of(gl[j]), true) < 0);
        }
    }
}

/// The member `gl[b]` that the walk adds has no member of `fl` under a
/// matching key.
proof fn lemma_add_unmatched(from: JsonNode, to: JsonNode, close: spec_fn(u64, u64) -> bool, a: int, b: int)
    requires
        law_cond(from, to, close),
        type_byte(from.type_) == CJSON_OBJECT,
        type_byte(to.type_) == CJSON_OBJECT,
        0 <= a <= sorted_spec(from.child, false).len(),
        0 <= b < sorted_spec(to.child, false).len(),
        a < sorted_spec(from.child, false).len() ==> c_str_diff(
            key_of(sorted_spec(from.child, false)[a]),
            key_of(sorted_spec(to.child, false)[b]),
            false,
        ) > 0,
        from_passed(sorted_spec(from.child, false), sorted_spec(to.child, false), a, b),
    ensures
        forall|i: int|
            0 <= i < sorted_spec(from.child, false).len() ==> !#[trigger] fold_eq(
                key_of(sorted_spec(from.child, false)[i]),
                key_of(sorted_spec(to.child, false)[b]),
            ),
{
    let fl = sorted_spec(from.child, false);
    let gl = sorted_spec(to.child, false);
    lemma_sorted_ctx(from, to, close);
    let ky = key_of(gl[b]);
    assert forall|i: int| 0 <= i < fl.len() implies !#[trigger] fold_eq(key_of(fl[i]), ky) by {
        if i >= a {
            lemma_sorted_members(from, to, close, a, b);
            let kf = key_of(fl[a]);
            lemma_swap(kf, ky, true);
            assert(c_str_diff(ky, kf, true) < 0);
            if i > a {
                assert(c_str_diff(kf, key_of(fl[i]), true) < 0);
                lemma_lt_trans(ky, kf, key_of(fl[i]), true);
            }
            lemma_diff_zero(key_of(fl[i]), ky);
        }
    }
}

/// The walk over both member lists as generating the patch leaves them,
/// from the `a`-th and `b`-th members on, applies the rest of the member
/// patches and ends with every member of `to` passed.
#[verifier::spinoff_prover]
#[verifier::rlimit(100)]
proof fn lemma_walk(from: JsonNode, to: JsonNode, close: spec_fn(u64, u64) -> bool, t: JsonNode, a: int, b: int)
    requires
        law_cond(from, to, close),
        type_byte(from.type_) == CJSON_OBJECT,
        type_byte(to.type_) == CJSON_OBJECT,
        0 <= a <= sorted_spec(from.child, false).len(),
        0 <= b <= sorted_spec(to.child, false).len(),
        finals(from, to, close).1.subrange(a, finals(from, to, close).1.len() as int) == rest_of(from, to, close, a, b).1,
        finals(from, to, close).2.subrange(b, finals(from, to, close).2.len() as int) == rest_of(from, to, close, a, b).2,
        walk_inv(t, finals(from, to, close).1, finals(from, to, close).2, a, b, close),
        passed_below(finals(from, to, close).1, finals(from, to, close).2, a, b),
        from_passed(sorted_spec(from.child, false), sorted_spec(to.child, false), a, b),
    ensures
        merge_members(t, rest_of(from, to, close, a, b).0, false) matches Some(t2) && walk_inv(
            t2,
            finals(from, to, close).1,
            finals(from, to, close).2,
            finals(from, to, close).1.len() as int,
            finals(from, to, close).2.len() as int,
            close,
        ),
    decreases node_count(from) + node_count(to), 0int, (sorted_spec(from.child, false).len() - a) + (sorted_spec(
        to.child,
        false,
    ).len() - b),
{
    let fl = sorted_spec(from.child, false);
    let gl = sorted_spec(to.child, false);
    let u = finals(from, to, close).1;
    let v = finals(from, to, close).2;
    let fs = fl.subrange(a, fl.len() as int);
    let ts = gl.subrange(b, gl.len() as int);
    let r = rest_of(from, to, close, a, b);
    lemma_final_ctx(from, to, close);
    if a == fl.len() && b == gl.len() {
        lemma_mgm_empty(fs, ts, false, close);
        assert(merge_members(t, r.0, false) == Some(t));
    } else {
        lemma_sorted_ctx(from, to, close);
        let fs1 = fl.subrange(a + 1, fl.len() as int);
        let ts1 = gl.subrange(b + 1, gl.len() as int);
        if a < fl.len() {
            assert(fs[0] == fl[a]);
            assert(fs.subrange(1, fs.len() as int) =~= fs1);
        }
        if b < gl.len() {
            assert(ts[0] == gl[b]);
            assert(ts.subrange(1, ts.len() as int) =~= ts1);
        }
        let diff = if fs.len() > 0 && ts.len() > 0 {
            key_diff(fs[0].string, ts[0].string, true)
        } else if fs.len() > 0 {
            -1
        } else {
            1
        };
        if diff < 0 {
            lemma_mgm_remove(fs, ts, false, close);
            let r1 = merge_gen_members(fs1, ts, false, close);
            assert(fl[a].string is Some);
            let head = seq![keyed(node_of_type(CJSON_NULL), key_of(u[a]), false)];
            assert(r.0 == head + r1.0);
            assert(r.1 == seq![fs[0]] + r1.1);
            assert(rest_of(from, to, close, a + 1, b) == r1);
            lemma_tail_after(u, a, fs[0], r1.1);
            lemma_step_remove(u, v, close, t, a, b);
            lemma_passed_remove(from, to, close, a, b);
            let t1 = merge_members(t, head, false).unwrap();
            lemma_walk(from, to, close, t1, a + 1, b);
            lemma_merge_concat(t, head, r1.0, false);
        } else if diff > 0 {
            lemma_mgm_add(fs, ts, false, close);
            let r1 = merge_gen_members(fs, ts1, false, close);
            let y = gl[b];
            lemma_add_unmatched(from, to, close, a, b);
            lemma_to_member(from, to, close, b);
            assert(r.2 == seq![ts[0]] + r1.2);
            lemma_tail_after(v, b, ts[0], r1.2);
            assert(v[b] == y);
            let head = seq![keyed(dup_tree(y, 0, true).unwrap(), key_of(y), false)];
            assert(r.0 == head + r1.0);
            assert(rest_of(from, to, close, a, b + 1) == r1);
            lemma_step_add(u, v, close, t, a, b);
            let t1 = merge_members(t, head, false).unwrap();
            lemma_walk(from, to, close, t1, a, b + 1);
            lemma_merge_concat(t, head, r1.0, false);
        } else {
            let x = fl[a];
            let y = gl[b];
            lemma_sorted_members(from, to, close, a, b);
            lemma_diff_zero(key_of(x), key_of(y));
            lemma_mgm_pair(fs, ts, false, close);
            let r1 = merge_gen_members(fs1, ts1, false, close);
            assert(rest_of(from, to, close, a + 1, b + 1) == r1);
            let c = compared(x, y, false, close);
            lemma_compared_cond(x, y, close, false, 0);
            assert(fold_eq(key_of(fl[a]), key_of(y)));
            assert(nulls_kept(x, y, close));
            lemma_compared_nulls(x, y, close, false, 0);
            lemma_compared_count(x, y, false, close);
            lemma_compared_keeps(x, y, close);
            assert(law_cond(c.0, c.1, close));
            lemma_passed_pair(from, to, close, a, b);
            if type_byte(y.type_) == CJSON_NULL {
                assert(type_byte(x.type_) == CJSON_NULL);
                assert(json_equal(x, y, false, close));
            }
            if json_equal(x, y, false, close) {
                assert(r.0 == r1.0);
                assert(r.1 == seq![c.0] + r1.1);
                assert(r.2 == seq![c.1] + r1.2);
                lemma_tail_after(u, a, c.0, r1.1);
                lemma_tail_after(v, b, c.1, r1.2);
                lemma_equal_same(c.0, c.1, close, false);
                lemma_step_keep(u, v, close, t, a, b);
                lemma_walk(from, to, close, t, a + 1, b + 1);
            } else {
                let g = merge_gen(c.0, c.1, false, close);
                assert(r.1 == seq![g.1] + r1.1);
                assert(r.2 == seq![g.2] + r1.2);
                lemma_tail_after(u, a, g.1, r1.1);
                lemma_tail_after(v, b, g.2, r1.2);
                law_merge_restores_target(c.0, c.1, close);
                lemma_patch_not_null(c.0, c.1, close);
                match g.0 {
                    Some(p) => {
                        let head = seq![keyed(p, key_of(y), false)];
                        assert(r.0 == head + r1.0);
                        lemma_step_patch(u, v, close, t, a, b, p);
                        let t1 = merge_members(t, head, false).unwrap();
                        lemma_walk(from, to, close, t1, a + 1, b + 1);
                        lemma_merge_concat(t, head, r1.0, false);
                    },
                    None => {
                        assert(r.0 == r1.0);
                        lemma_step_keep(u, v, close, t, a, b);
                        lemma_walk(from, to, close, t, a + 1, b + 1);
                    },
                }
            }
        }
    }
}

/// Merging the patch generated from `from` to `to` into `from` as
/// generating it leaves `from` gives a tree that compares equal, both
/// ways, to `to` as generating the patch leaves it; where no patch is
/// generated, the two already compare equal both ways. This is stated for
/// the trees that meet `law_cond`.
pub proof fn law_merge_restores_target(from: JsonNode, to: JsonNode, close: spec_fn(u64, u64) -> bool)
    requires
        law_cond(from, to, close),
    ensures
        ({
            let g = merge_gen(from, to, false, close);
            match g.0 {
                Some(p) => merged(Some(g.1), p, false) matches Some(r) && same_tree(r, g.2, true, close) && same_tree(
                    g.2,
                    r,
                    true,
                    close,
                ),
                None => same_tree(g.1, g.2, true, close) && same_tree(g.2, g.1, true, close),
            }
        }),
    decreases node_count(from) + node_count(to), 1int, 0int,
{
    lemma_target_comparable(to, close, false);
    if type_byte(to.type_) != CJSON_OBJECT {
        crate::utils::law_merge_restores_non_object(from, to, close);
        crate::manip::law_duplicate_compares_equal(to, 0, true, close);
    } else if type_byte(from.type_) != CJSON_OBJECT {
        let q = dup_tree(to, 0, true).unwrap();
        crate::model::lemma_type_words(to.type_);
        assert(type_byte(q.type_) == type_byte(to.type_));
        assert(merged(Some(from), q, false) == merged(None, q, false));
        lemma_rebuild(to, 0, close);
    } else {
        let fl = sorted_spec(from.child, false);
        let gl = sorted_spec(to.child, false);
        let f = finals(from, to, close);
        let u = f.1;
        let v = f.2;
        lemma_merge_gen_objects(from, to, false, close);
        lemma_final_ctx(from, to, close);
        let t0 = with_kids(from, u);
        let tt = with_kids(to, v);
        assert(fl.subrange(0, fl.len() as int) =~= fl);
        assert(gl.subrange(0, gl.len() as int) =~= gl);
        assert(rest_of(from, to, close, 0, 0) == f);
        assert(u.subrange(0, u.len() as int) =~= u);
        assert(v.subrange(0, v.len() as int) =~= v);
        lemma_walk_start(u, v, close, t0);
        lemma_walk(from, to, close, t0, 0, 0);
        let m = f.0;
        let t2 = merge_members(t0, m, false).unwrap();
        lemma_walk_end(u, v, close, t2, tt);
        crate::model::lemma_type_words(CJSON_OBJECT);
        if m.len() > 0 {
            let p = crate::manip::holder_node(CJSON_OBJECT, m);
            assert(type_byte(p.type_) == CJSON_OBJECT);
            assert(merged(Some(t0), p, false) == merge_members(t0, m, false));
        } else {
            assert(merge_members(t0, m, false) == Some(t0));
        }
    }
}

/// Before the walk, `from` with its members as generating the patch leaves
/// them is the state: nothing passed.
proof fn lemma_walk_start(fl: Seq<JsonNode>, gl: Seq<JsonNode>, close: spec_fn(u64, u64) -> bool, t: JsonNode)
    requires
        walk_ctx(fl, gl),
        type_byte(t.type_) == CJSON_OBJECT,
        t.child == fl,
    ensures
        walk_inv(t, fl, gl, 0, 0, close),
        passed_below(fl, gl, 0, 0),
{
    let k = t.child;
    lemma_exact_distinct(k);
    assert forall|i: int| 0 <= i < fl.len() implies k.contains(#[trigger] fl[i]) by {
        assert(k[i] == fl[i]);
    }
    assert forall|m: int| 0 <= m < k.len() implies in_from(fl, 0, #[trigger] k[m]) by {
        assert(fl[m] == k[m]);
    }
}

/// After the walk, the state compares equal both ways to the object whose
/// members are `gl`.
proof fn lemma_walk_end(fl: Seq<JsonNode>, gl: Seq<JsonNode>, close: spec_fn(u64, u64) -> bool, t2: JsonNode, tt: JsonNode)
    requires
        walk_ctx(fl, gl),
        walk_inv(t2, fl, gl, fl.len() as int, gl.len() as int, close),
        type_byte(tt.type_) == CJSON_OBJECT,
        tt.child == gl,
    ensures
        same_tree(t2, tt, true, close),
        same_tree(tt, t2, true, close),
{
    lemma_walk_end_found(fl, gl, close, t2);
    lemma_walk_end_back(fl, gl, close, t2);
}

/// After the walk, every member of the state is found among `gl`.
#[verifier::spinoff_prover]
#[verifier::rlimit(60)]
proof fn lemma_walk_end_found(fl: Seq<JsonNode>, gl: Seq<JsonNode>, close: spec_fn(u64, u64) -> bool, t2: JsonNode)
    requires
        walk_ctx(fl, gl),
        walk_inv(t2, fl, gl, fl.len() as int, gl.len() as int, close),
    ensures
        members_found(t2.child, gl, true, close),
{
    let k = t2.child;
    let tk = gl;
    lemma_exact_distinct(tk);
    assert forall|m: int| 0 <= m < k.len() implies ((#[trigger] k[m]).string matches Some(km) && find_member(tk, km, true) matches Some(
        j,
    ) && 0 <= j < tk.len() && same_tree(k[m], tk[j], true, close)) by {
        assert(!in_from(fl, fl.len() as int, k[m]));
        assert(done_with(k[m], gl, gl.len() as int, close));
        let j = choose|j: int|
            0 <= j < gl.len() && #[trigger] fold_eq(key_of(k[m]), key_of(gl[j])) && c_str_diff(key_of(k[m]), key_of(gl[j]), false) == 0
                && same_tree(k[m], gl[j], true, close) && same_tree(gl[j], k[m], true, close);
        assert(gl[j].string is Some);
        assert(k[m].string is Some);
        crate::manip::lemma_find_distinct(tk, k[m].string.unwrap(), true, j, 0);
    }
    lemma_found_each(k, tk, true, close, 0);
    assert(k.subrange(0, k.len() as int) =~= k);
}

/// After the walk, every member of `gl` is found among the state's.
#[verifier::spinoff_prover]
#[verifier::rlimit(60)]
proof fn lemma_walk_end_back(fl: Seq<JsonNode>, gl: Seq<JsonNode>, close: spec_fn(u64, u64) -> bool, t2: JsonNode)
    requires
        walk_ctx(fl, gl),
        walk_inv(t2, fl, gl, fl.len() as int, gl.len() as int, close),
    ensures
        members_found(gl, t2.child, true, close),
{
    let k = t2.child;
    let tk = gl;
    lemma_distinct_exact(k);
    assert forall|i: int| 0 <= i < tk.len() implies ((#[trigger] tk[i]).string matches Some(ki) && find_member(k, ki, true) matches Some(
        m,
    ) && 0 <= m < k.len() && same_tree(tk[i], k[m], true, close)) by {
        assert(has_member_for(k, gl[i]));
        let m = choose|m: int| 0 <= m < k.len() && #[trigger] fold_eq(key_of(k[m]), key_of(gl[i]));
        assert(!in_from(fl, fl.len() as int, k[m]));
        assert(done_with(k[m], gl, gl.len() as int, close));
        let j3 = choose|j3: int|
            0 <= j3 < gl.len() && #[trigger] fold_eq(key_of(k[m]), key_of(gl[j3])) && c_str_diff(key_of(k[m]), key_of(gl[j3]), false) == 0
                && same_tree(k[m], gl[j3], true, close) && same_tree(gl[j3], k[m], true, close);
        lemma_diff_zero(key_of(k[m]), key_of(gl[i]));
        if j3 != i {
            lemma_fold_eq_trans(key_of(gl[i]), key_of(k[m]), key_of(gl[j3]));
            assert(!fold_eq(key_of(gl[i]), key_of(gl[j3])));
        }
        assert(gl[i].string is Some);
        assert(k[m].string is Some);
        crate::manip::lemma_find_distinct(k, tk[i].string.unwrap(), true, m, 0);
    }
    lemma_found_each(tk, k, true, close, 0);
    assert(tk.subrange(0, tk.len() as int) =~= tk);
}

} // verus!
