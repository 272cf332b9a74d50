//! Applying the generated JSON patches restores the target: the patches
//! that `cjson_utils_generate_patches_case_sensitive(from, to)` returns,
//! applied to `from` (as it stood before generating them) with
//! `cjson_utils_apply_patches_case_sensitive`, succeed and give a tree that
//! compares equal to `to`, for trees whose object keys a pointer names:
//! keys without NUL whose escaped pointer token (`~0` for `~`, `~1` for
//! `/`) the in-place decoding that applying uses gives back unchanged.

use vstd::prelude::*;
use crate::model::{JsonNode, type_byte, empty_node, CJSON_NULL, CJSON_NUMBER, CJSON_STRING, CJSON_ARRAY, CJSON_OBJECT, CJSON_RAW};
use crate::text::{cstr, c_str_diff, byte_at, no_nul};
use crate::manip::{
    same_tree, same_elements, members_found, find_member, find_member_from, known_type, node_count, list_count,
    dup_tree, dup_list, keyed, with_kids, text_node, holder_node, self_comparable,
};
use crate::utils::{
    key_diff, sorted_spec, text_of, patch_list, array_patches, object_patches, patch_node, patch_path, encode_pointer,
    op_add, op_remove, op_replace, op_move, op_copy, op_test, key_op, key_path, key_value, member_named, patch_op,
    apply_spec, apply_all, detach_spec, add_spec, value_spec, walk, node_at, valid_path, set_at, pointer_to,
    first_keys_along, c_rchr, decode_token, decode_state, decode_index, PATCH_ADD, PATCH_REMOVE, PATCH_REPLACE,
    diffed, diffed_items, diffed_members, ascending, all_keyed, law_sort_orders_keys, lemma_count_sorted,
};
use crate::mergelaw::key_of;

verus! {

// ---------------------------------------------------------------------------
// Which trees the law is about.
// ---------------------------------------------------------------------------

/// A key that a pointer names: it holds no NUL, and the in-place decoding
/// of its escaped token (`~0` for `~`, `~1` for `/`) gives it back.
#[verifier::opaque]
pub open spec fn pointer_key(k: Seq<u8>) -> bool {
    &&& forall|i: int| 0 <= i < k.len() ==> #[trigger] k[i] != 0
    &&& decode_token(encode_pointer(k)) == k
}

/// A key with no NUL, `/` or `~`: its pointer token is the key itself.
pub open spec fn simple_key(k: Seq<u8>) -> bool {
    forall|i: int| 0 <= i < k.len() ==> #[trigger] k[i] != 0 && k[i] != 47 && k[i] != 126
}

/// A pointer token that can end a pointer: no NUL and no `/`.
pub open spec fn token_text(tok: Seq<u8>) -> bool {
    forall|i: int| 0 <= i < tok.len() ==> #[trigger] tok[i] != 0 && tok[i] != 47
}

/// Every member has a key that a pointer names, and no two keys match (up to ASCII case
/// when `fold`).
pub open spec fn member_keys(s: Seq<JsonNode>, fold: bool) -> bool {
    &&& forall|i: int| 0 <= i < s.len() ==> (#[trigger] s[i]).string is Some && pointer_key(key_of(s[i]))
    &&& forall|i: int, j: int|
        0 <= i < s.len() && 0 <= j < s.len() && i != j ==> c_str_diff(key_of(#[trigger] s[i]), key_of(#[trigger] s[j]), fold) != 0
}

/// What the patches are generated from: strings have their text, arrays
/// fit a `usize` index, and the keys of each object are named by pointers and differ
/// up to ASCII case.
pub open spec fn source_ok(n: JsonNode) -> bool
    decreases n, 1int,
{
    let t = type_byte(n.type_);
    &&& t == CJSON_STRING ==> n.valuestring is Some
    &&& (t == CJSON_ARRAY || t == CJSON_OBJECT) ==> sources_ok(n.child)
    &&& t == CJSON_ARRAY ==> n.child.len() <= usize::MAX
    &&& t == CJSON_OBJECT ==> member_keys(n.child, true)
}

pub open spec fn sources_ok(s: Seq<JsonNode>) -> bool
    decreases s, 0int,
{
    s.len() == 0 || (source_ok(s[0]) && sources_ok(s.subrange(1, s.len() as int)))
}

/// What the patches lead to: every node has a known type other than raw,
/// numbers are ones that `close` accepts as equal to themselves, strings
/// have their text, and the keys of each object are named by pointers and differ.
pub open spec fn goal_ok(n: JsonNode, close: spec_fn(u64, u64) -> bool) -> bool
    decreases n, 1int,
{
    let t = type_byte(n.type_);
    &&& known_type(t)
    &&& t != CJSON_RAW
    &&& t == CJSON_NUMBER ==> close(n.valuedouble, n.valuedouble)
    &&& t == CJSON_STRING ==> n.valuestring is Some
    &&& (t == CJSON_ARRAY || t == CJSON_OBJECT) ==> goals_ok(n.child, close)
    &&& t == CJSON_OBJECT ==> member_keys(n.child, false)
}

pub open spec fn goals_ok(s: Seq<JsonNode>, close: spec_fn(u64, u64) -> bool) -> bool
    decreases s, 0int,
{
    s.len() == 0 || (goal_ok(s[0], close) && goals_ok(s.subrange(1, s.len() as int), close))
}

proof fn lemma_sources_at(s: Seq<JsonNode>, i: int)
    requires
        sources_ok(s),
        0 <= i < s.len(),
    ensures
        source_ok(s[i]),
    decreases s.len(),
{
    if i > 0 {
        lemma_sources_at(s.subrange(1, s.len() as int), i - 1);
    }
}

proof fn lemma_goals_at(s: Seq<JsonNode>, close: spec_fn(u64, u64) -> bool, i: int)
    requires
        goals_ok(s, close),
        0 <= i < s.len(),
    ensures
        goal_ok(s[i], close),
    decreases s.len(),
{
    if i > 0 {
        lemma_goals_at(s.subrange(1, s.len() as int), close, i - 1);
    }
}

// ---------------------------------------------------------------------------
// Literal texts.
// ---------------------------------------------------------------------------

proof fn lemma_plain_literal(s: Seq<u8>)
    requires
        forall|i: int| 0 <= i < s.len() ==> s[i] != 0,
    ensures
        cstr(s) == s,
        c_str_diff(s, s, false) == 0,
{
    crate::text::lemma_cstr_of_no_nul(s);
    crate::utils::lemma_str_diff_self(s, 0, false);
}

proof fn lemma_literals()
    ensures
        cstr(key_op()) == key_op(),
        cstr(key_path()) == key_path(),
        cstr(key_value()) == key_value(),
        cstr(op_add()) == op_add(),
        cstr(op_remove()) == op_remove(),
        cstr(op_replace()) == op_replace(),
        c_str_diff(key_op(), key_path(), false) != 0,
        c_str_diff(key_op(), key_value(), false) != 0,
        c_str_diff(key_path(), key_value(), false) != 0,
        c_str_diff(key_path(), key_path(), false) == 0,
        c_str_diff(key_op(), key_op(), false) == 0,
        c_str_diff(key_value(), key_value(), false) == 0,
        c_str_diff(op_add(), op_add(), false) == 0,
        c_str_diff(op_remove(), op_add(), false) != 0,
        c_str_diff(op_remove(), op_remove(), false) == 0,
        c_str_diff(op_replace(), op_add(), false) != 0,
        c_str_diff(op_replace(), op_remove(), false) != 0,
        c_str_diff(op_replace(), op_replace(), false) == 0,
{
    lemma_plain_literal(key_op());
    lemma_plain_literal(key_path());
    lemma_plain_literal(key_value());
    lemma_plain_literal(op_add());
    lemma_plain_literal(op_remove());
    lemma_plain_literal(op_replace());
    reveal_with_fuel(crate::text::str_diff_from, 3);
    assert(byte_at(key_op(), 0) == 111);
    assert(byte_at(key_path(), 0) == 112);
    assert(byte_at(key_value(), 0) == 118);
    assert(byte_at(op_add(), 0) == 97);
    assert(byte_at(op_remove(), 0) == 114);
    assert(byte_at(op_replace(), 0) == 114);
    assert(byte_at(op_remove(), 1) == 101);
    assert(byte_at(op_replace(), 1) == 101);
    assert(byte_at(op_remove(), 2) == 109);
    assert(byte_at(op_replace(), 2) == 112);
}

// ---------------------------------------------------------------------------
// Pointers along a path.
// ---------------------------------------------------------------------------

/// The token that names child `k` of `par`: its index in an array, its
/// key in an object.
pub open spec fn token_for(par: JsonNode, k: int) -> Seq<u8> {
    if type_byte(par.type_) == CJSON_ARRAY {
        crate::float::dec_digits(k as nat)
    } else {
        encode_pointer(cstr(key_of(par.child[k])))
    }
}

proof fn lemma_pointer_push(n: JsonNode, path: Seq<int>, k: int)
    requires
        valid_path(n, path),
        pointer_to(n, path) is Some,
        0 <= k < node_at(n, path).child.len(),
        type_byte(node_at(n, path).type_) == CJSON_ARRAY || type_byte(node_at(n, path).type_) == CJSON_OBJECT,
    ensures
        valid_path(n, path.push(k)),
        pointer_to(n, path.push(k)) == Some(pointer_to(n, path).unwrap() + seq![47u8] + token_for(node_at(n, path), k)),
    decreases path.len(),
{
    crate::utils::lemma_node_at_push(n, path, k);
    let pm = path.push(k);
    if path.len() == 0 {
        assert(pm.skip(1) =~= Seq::<int>::empty());
        assert(pm[0] == k);
        assert(node_at(n, path) == n);
        let key = match n.child[k].string {
            Some(x) => x,
            None => Seq::empty(),
        };
        assert(key == key_of(n.child[k]));
        assert(pointer_to(n.child[k], pm.skip(1)) == Some(Seq::<u8>::empty()));
        assert(pointer_to(n, path) == Some(Seq::<u8>::empty()));
        assert(pointer_to(n, pm) == Some(seq![47u8] + token_for(n, k) + Seq::<u8>::empty()));
        assert(seq![47u8] + token_for(n, k) + Seq::<u8>::empty() =~= Seq::<u8>::empty() + seq![47u8] + token_for(n, k));
    } else {
        let k0 = path[0];
        let c = n.child[k0];
        assert(pm.skip(1) =~= path.skip(1).push(k));
        assert(pm[0] == k0);
        assert(node_at(n, path) == node_at(c, path.skip(1)));
        lemma_pointer_push(c, path.skip(1), k);
        let sub = pointer_to(c, path.skip(1)).unwrap();
        let tok0 = token_for(n, k0);
        let key0 = match c.string {
            Some(x) => x,
            None => Seq::empty(),
        };
        assert(key0 == key_of(c));
        assert(pointer_to(n, path) == Some(seq![47u8] + tok0 + sub));
        let tail = seq![47u8] + token_for(node_at(n, path), k);
        assert(pointer_to(c, pm.skip(1)) == Some(sub + tail));
        assert(pointer_to(n, pm) == Some(seq![47u8] + tok0 + (sub + tail)));
        assert(seq![47u8] + tok0 + (sub + tail) =~= seq![47u8] + tok0 + sub + seq![47u8] + token_for(node_at(n, path), k));
    }
}

proof fn lemma_first_keys_push(n: JsonNode, path: Seq<int>, k: int, cs: bool)
    requires
        valid_path(n, path),
        first_keys_along(n, path, cs),
        0 <= k < node_at(n, path).child.len(),
        type_byte(node_at(n, path).type_) == CJSON_ARRAY ==> k <= usize::MAX,
        type_byte(node_at(n, path).type_) == CJSON_OBJECT ==> node_at(n, path).child[k].string is Some,
        type_byte(node_at(n, path).type_) == CJSON_OBJECT ==> forall|j: int|
            0 <= j < k ==> key_diff(#[trigger] node_at(n, path).child[j].string, node_at(n, path).child[k].string, cs) != 0,
    ensures
        first_keys_along(n, path.push(k), cs),
    decreases path.len(),
{
    let pm = path.push(k);
    if path.len() == 0 {
        assert(pm.skip(1) =~= Seq::<int>::empty());
        assert(pm[0] == k);
        assert(node_at(n, path) == n);
        assert(first_keys_along(n.child[k], pm.skip(1), cs));
    } else {
        let k0 = path[0];
        assert(pm.skip(1) =~= path.skip(1).push(k));
        assert(pm[0] == k0);
        assert(node_at(n, path) == node_at(n.child[k0], path.skip(1)));
        lemma_first_keys_push(n.child[k0], path.skip(1), k, cs);
        assert(first_keys_along(n.child[k0], pm.skip(1), cs));
    }
}

/// Replacing the node at `path` by one with the same key keeps the pointer
/// to it, and what a lookup along the path finds.
proof fn lemma_set_keeps_pointer(n: JsonNode, path: Seq<int>, y: JsonNode, cs: bool)
    requires
        valid_path(n, path),
        path.len() > 0 ==> y.string == node_at(n, path).string,
    ensures
        valid_path(set_at(n, path, y), path),
        pointer_to(set_at(n, path, y), path) == pointer_to(n, path),
        first_keys_along(set_at(n, path, y), path, cs) == first_keys_along(n, path, cs),
        path.len() > 0 ==> type_byte(set_at(n, path, y).type_) == type_byte(n.type_),
        path.len() > 0 ==> set_at(n, path, y).string == n.string,
    decreases path.len(),
{
    crate::utils::lemma_set_at(n, path, y, y);
    if path.len() > 0 {
        let k = path[0];
        let c = n.child[k];
        lemma_set_keeps_pointer(c, path.skip(1), y, cs);
        let c2 = set_at(c, path.skip(1), y);
        let n2 = set_at(n, path, y);
        assert(n2 == with_kids(n, n.child.update(k, c2)));
        assert(n2.child[k] == c2);
        if path.skip(1).len() == 0 {
            assert(c2 == y);
        }
        assert(c2.string == c.string);
        assert forall|j: int| 0 <= j < k implies #[trigger] n2.child[j] == n.child[j] by {}
        if type_byte(n.type_) == CJSON_OBJECT {
            assert((forall|j: int| 0 <= j < k ==> key_diff(#[trigger] n2.child[j].string, n2.child[k].string, cs) != 0) == (forall|j: int|
                0 <= j < k ==> key_diff(#[trigger] n.child[j].string, n.child[k].string, cs) != 0)) by {
                if forall|j: int| 0 <= j < k ==> key_diff(#[trigger] n.child[j].string, n.child[k].string, cs) != 0 {
                    assert forall|j: int| 0 <= j < k implies key_diff(#[trigger] n2.child[j].string, n2.child[k].string, cs) != 0 by {
                        assert(n2.child[j] == n.child[j]);
                    }
                }
                if forall|j: int| 0 <= j < k ==> key_diff(#[trigger] n2.child[j].string, n2.child[k].string, cs) != 0 {
                    assert forall|j: int| 0 <= j < k implies key_diff(#[trigger] n.child[j].string, n.child[k].string, cs) != 0 by {
                        assert(n2.child[j] == n.child[j]);
                        assert(key_diff(n2.child[j].string, n2.child[k].string, cs) != 0);
                    }
                }
            }
        }
    }
}

/// Setting a child of the node at `path` is setting the node at the
/// extended path.
proof fn lemma_set_at_push(n: JsonNode, path: Seq<int>, m: int, x: JsonNode)
    requires
        valid_path(n, path),
        0 <= m < node_at(n, path).child.len(),
    ensures
        set_at(n, path.push(m), x) == set_at(n, path, with_kids(node_at(n, path), node_at(n, path).child.update(m, x))),
    decreases path.len(),
{
    if path.len() == 0 {
        let pm = path.push(m);
        assert(pm.skip(1) =~= Seq::<int>::empty());
        assert(pm[0] == m);
        assert(pm.len() == 1);
        assert(set_at(n.child[m], pm.skip(1), x) == x);
        assert(set_at(n, pm, x) == with_kids(n, n.child.update(m, x)));
        assert(node_at(n, path) == n);
        assert(set_at(n, path, with_kids(n, n.child.update(m, x))) == with_kids(n, n.child.update(m, x)));
    } else {
        let k = path[0];
        assert(path.push(m).skip(1) =~= path.skip(1).push(m));
        assert(path.push(m)[0] == k);
        lemma_set_at_push(n.child[k], path.skip(1), m, x);
    }
}

/// The last `/` of a pointer that ends with `/` and a token without one.
proof fn lemma_last_slash(q: Seq<u8>, tok: Seq<u8>)
    requires
        forall|i: int| 0 <= i < tok.len() ==> #[trigger] tok[i] != 47,
    ensures
        c_rchr(q + seq![47u8] + tok, 47) == Some(q.len() as int),
    decreases tok.len(),
{
    let c = q + seq![47u8] + tok;
    if tok.len() == 0 {
        assert(c.last() == 47);
    } else {
        assert(c.last() == tok.last());
        assert(c.drop_last() =~= q + seq![47u8] + tok.drop_last());
        lemma_last_slash(q, tok.drop_last());
    }
}

proof fn lemma_decode_plain(c: Seq<u8>, s: int)
    requires
        0 <= s <= c.len(),
        forall|i: int| 0 <= i < c.len() ==> #[trigger] c[i] != 126,
    ensures
        decode_state(c, s, s, c) == c,
    decreases c.len() - s,
{
    if s < c.len() {
        assert(c[s] != 126);
        lemma_decode_plain(c, s + 1);
    } else {
        assert(c.take(s) =~= c);
    }
}

/// A simple key written as a pointer token is the key itself.
proof fn lemma_simple_token(k: Seq<u8>)
    requires
        simple_key(k),
    ensures
        cstr(k) == k,
        no_nul(k),
        encode_pointer(k) == k,
        decode_token(k) == k,
        token_text(k),
        pointer_key(k),
    decreases k.len(),
{
    reveal(pointer_key);
    assert forall|i: int| 0 <= i < k.len() implies #[trigger] k[i] != 0 by {
        assert(k[i] != 0 && k[i] != 47 && k[i] != 126);
    }
    crate::text::lemma_cstr_of_no_nul(k);
    assert forall|i: int| 0 <= i < k.len() implies #[trigger] k[i] != 126 by {
        assert(k[i] != 0 && k[i] != 47 && k[i] != 126);
    }
    lemma_decode_plain(k, 0);
    assert forall|i: int| 0 <= i < k.len() implies #[trigger] k[i] != 0 && k[i] != 47 by {
        assert(k[i] != 0 && k[i] != 47 && k[i] != 126);
    }
    if k.len() > 0 {
        let d = k.drop_last();
        assert forall|i: int| 0 <= i < d.len() implies #[trigger] d[i] != 0 && d[i] != 47 && d[i] != 126 by {
            assert(d[i] == k[i]);
            assert(k[i] != 0 && k[i] != 47 && k[i] != 126);
        }
        lemma_simple_token(d);
        let c = k.last();
        assert(c == k[k.len() - 1]);
        assert(c != 47 && c != 126);
        assert(encode_pointer(k) == encode_pointer(d) + seq![c]);
        assert(d.push(c) =~= k);
        assert(d + seq![c] =~= k);
    }
}

/// The escaped token of a key without NUL holds no NUL and no `/`.
proof fn lemma_encode_text(k: Seq<u8>)
    requires
        forall|i: int| 0 <= i < k.len() ==> #[trigger] k[i] != 0,
    ensures
        token_text(encode_pointer(k)),
    decreases k.len(),
{
    if k.len() > 0 {
        let d = k.drop_last();
        assert forall|i: int| 0 <= i < d.len() implies #[trigger] d[i] != 0 by {
            assert(d[i] == k[i]);
        }
        lemma_encode_text(d);
        let c = k.last();
        assert(c == k[k.len() - 1]);
        let e = encode_pointer(d);
        let tail = if c == 47 {
            seq![126u8, 49u8]
        } else if c == 126 {
            seq![126u8, 48u8]
        } else {
            seq![c]
        };
        assert(encode_pointer(k) == e + tail);
        assert forall|i: int| 0 <= i < (e + tail).len() implies #[trigger] (e + tail)[i] != 0 && (e + tail)[i] != 47 by {
            if i < e.len() {
                assert((e + tail)[i] == e[i]);
            } else {
                assert((e + tail)[i] == tail[i - e.len()]);
            }
        }
    }
}

/// The token of a key that a pointer names ends a pointer and decodes back
/// to the key.
proof fn lemma_pointer_token(k: Seq<u8>)
    requires
        pointer_key(k),
    ensures
        cstr(k) == k,
        no_nul(k),
        token_text(encode_pointer(k)),
        decode_token(encode_pointer(k)) == k,
{
    reveal(pointer_key);
    crate::text::lemma_cstr_of_no_nul(k);
    lemma_encode_text(k);
}

proof fn lemma_digits_plain(v: nat)
    ensures
        forall|i: int| 0 <= i < crate::float::dec_digits(v).len() ==> #[trigger] crate::float::dec_digits(v)[i] != 0
            && crate::float::dec_digits(v)[i] != 47 && crate::float::dec_digits(v)[i] != 126,
        decode_token(crate::float::dec_digits(v)) == crate::float::dec_digits(v),
        decode_index(crate::float::dec_digits(v), 0) == (if v <= usize::MAX { Some(v as usize) } else { decode_index(crate::float::dec_digits(v), 0) }),
{
    let d = crate::float::dec_digits(v);
    crate::utils::lemma_dec_digits_shape(v);
    assert forall|i: int| 0 <= i < d.len() implies #[trigger] d[i] != 0 && d[i] != 47 && d[i] != 126 by {
        assert(48 <= d[i] <= 57);
    }
    assert forall|i: int| 0 <= i < d.len() implies #[trigger] d[i] != 126 by {
        assert(48 <= d[i] <= 57);
    }
    lemma_decode_plain(d, 0);
    if v <= usize::MAX {
        assert forall|m: int| 0 <= m < 0 + d.len() implies 48 <= #[trigger] d[m] <= 57 by {}
        crate::utils::lemma_digit_run_exact(d, 0, d.len());
        assert(d.subrange(0, d.len() as int) =~= d);
        crate::utils::lemma_index_value_digits(d, 0, v);
        if d[0] == 48 {
            assert(v == 0);
            assert(d.len() == 1) by {
                reveal_with_fuel(crate::float::dec_digits, 2);
            }
        }
    }
}

// ---------------------------------------------------------------------------
// What one generated patch does.
// ---------------------------------------------------------------------------

/// The copy of `t` that applying a patch carrying `t` puts in place: a
/// copy of the patch's `value` member.
pub open spec fn applied_copy(t: JsonNode) -> JsonNode {
    dup_tree(keyed(dup_tree(t, 0, true).unwrap(), key_value(), false), 0, true).unwrap()
}

proof fn lemma_copy_exists(t: JsonNode)
    requires
        dup_tree(t, 0, true) is Some,
    ensures
        dup_tree(keyed(dup_tree(t, 0, true).unwrap(), key_value(), false), 0, true) is Some,
        type_byte(applied_copy(t).type_) == type_byte(t.type_),
{
    let x = dup_tree(t, 0, true).unwrap();
    let kx = keyed(x, key_value(), false);
    crate::manip::law_duplicate_twice(t, 0);
    crate::model::lemma_type_words(t.type_);
    crate::model::lemma_type_words(x.type_);
    crate::model::lemma_type_words(kx.type_);
    assert(type_byte(x.type_) == type_byte(t.type_));
    assert(kx.child == x.child);
}

proof fn lemma_applied_copy(t: JsonNode, close: spec_fn(u64, u64) -> bool)
    requires
        dup_tree(t, 0, true) is Some,
        self_comparable(t, true, close),
    ensures
        dup_tree(keyed(dup_tree(t, 0, true).unwrap(), key_value(), false), 0, true) is Some,
        type_byte(applied_copy(t).type_) == type_byte(t.type_),
        same_tree(applied_copy(t), t, true, close),
        same_tree(t, applied_copy(t), true, close),
{
    let x = dup_tree(t, 0, true).unwrap();
    let kx = keyed(x, key_value(), false);
    lemma_copy_exists(t);
    crate::manip::law_duplicate_twice(t, 0);
    crate::manip::law_duplicate_compares_equal(t, 0, true, close);
    crate::model::lemma_type_words(t.type_);
    crate::model::lemma_type_words(x.type_);
    crate::model::lemma_type_words(kx.type_);
    assert(type_byte(x.type_) == type_byte(t.type_));
    assert(kx.child == x.child);
    assert(dup_tree(x, 0, true) == Some(x));
    let ac = dup_tree(kx, 0, true).unwrap();
    assert(ac.child == x.child);
    assert(type_byte(ac.type_) == type_byte(x.type_));
    assert(ac.valuestring == x.valuestring) by {
        crate::manip::lemma_cstr_cstr(x.valuestring);
    }
    crate::mergelaw::lemma_same_tree_shell(x, ac, t, close);
}

/// The parts of a generated patch: its path, its operation and its value.
proof fn lemma_patch_parts(op: Seq<u8>, p: Seq<u8>, v: Option<JsonNode>)
    requires
        op == op_add() || op == op_remove() || op == op_replace(),
        no_nul(p),
        v matches Some(t) ==> dup_tree(t, 0, true) is Some,
    ensures
        member_named(patch_node(op, p, v), key_path(), true) matches Some(pm) && type_byte(pm.type_) == CJSON_STRING && text_of(
            pm,
        ) == p,
        patch_op(patch_node(op, p, v), true) == (if op == op_add() {
            PATCH_ADD
        } else if op == op_remove() {
            PATCH_REMOVE
        } else {
            PATCH_REPLACE
        }),
        member_named(patch_node(op, p, v), key_value(), true) == match v {
            Some(t) => Some(keyed(dup_tree(t, 0, true).unwrap(), key_value(), false)),
            None => None,
        },
{
    lemma_literals();
    crate::text::lemma_cstr_of_no_nul(p);
    let pn = patch_node(op, p, v);
    let m0 = keyed(text_node(CJSON_STRING, op), key_op(), false);
    let m1 = keyed(text_node(CJSON_STRING, p), key_path(), false);
    let kids = pn.child;
    assert(kids[0] == m0);
    assert(kids[1] == m1);
    assert(m0.string == Some(key_op()));
    assert(m1.string == Some(key_path()));
    reveal_with_fuel(find_member_from, 4);
    assert(find_member(kids, key_path(), true) == Some(1int));
    assert(find_member(kids, key_op(), true) == Some(0int));
    crate::model::lemma_type_words(CJSON_STRING);
    assert(type_byte(m1.type_) == CJSON_STRING);
    assert(type_byte(m0.type_) == CJSON_STRING);
    assert(text_of(m1) == p);
    assert(text_of(m0) == op);
    match v {
        Some(t) => {
            let d = dup_tree(t, 0, true).unwrap();
            let m2 = keyed(d, key_value(), false);
            assert(kids.len() == 3);
            assert(kids[2] == m2);
            assert(m2.string == Some(key_value()));
            assert(find_member(kids, key_value(), true) == Some(2int));
        },
        None => {
            assert(kids.len() == 2);
            assert(find_member(kids, key_value(), true) is None);
        },
    }
}

/// `pp` names, through the pointer `qp`, a node of `obj` that every lookup
/// along the way finds first.
pub open spec fn located(obj: JsonNode, pp: Seq<int>, qp: Seq<u8>) -> bool {
    &&& valid_path(obj, pp)
    &&& pointer_to(obj, pp) == Some(qp)
    &&& first_keys_along(obj, pp, true)
    &&& no_nul(qp)
}

proof fn lemma_located_walk(obj: JsonNode, pp: Seq<int>, qp: Seq<u8>)
    requires
        located(obj, pp, qp),
    ensures
        walk(obj, qp, 0, true) == Some(pp),
        qp.len() == 0 || qp[0] == 47,
{
    crate::utils::law_found_pointer_leads_back(obj, pp, true);
    crate::utils::lemma_pointer_to_head(obj, pp);
}

proof fn lemma_located_set(obj: JsonNode, pp: Seq<int>, qp: Seq<u8>, y: JsonNode)
    requires
        located(obj, pp, qp),
        pp.len() > 0 ==> y.string == node_at(obj, pp).string,
    ensures
        located(set_at(obj, pp, y), pp, qp),
        node_at(set_at(obj, pp, y), pp) == y,
{
    lemma_set_keeps_pointer(obj, pp, y, true);
    crate::utils::lemma_set_at(obj, pp, y, y);
}

/// How a pointer to a child of the node at `pp` is read back: the text
/// before its last `/` names the node, the rest is the child's token.
proof fn lemma_split_child_pointer(qp: Seq<u8>, tok: Seq<u8>)
    requires
        no_nul(qp),
        token_text(tok),
    ensures
        no_nul(qp + seq![47u8] + tok),
        cstr(qp + seq![47u8] + tok) == qp + seq![47u8] + tok,
        c_rchr(qp + seq![47u8] + tok, 47) == Some(qp.len() as int),
        (qp + seq![47u8] + tok).take(qp.len() as int) == qp,
        decode_token((qp + seq![47u8] + tok).skip(qp.len() as int + 1)) == decode_token(tok),
        byte_at(qp + seq![47u8] + tok, 0) != 0,
{
    let c = qp + seq![47u8] + tok;
    assert forall|i: int| 0 <= i < tok.len() implies #[trigger] tok[i] != 47 by {
        assert(tok[i] != 0 && tok[i] != 47);
    }
    assert forall|i: int| 0 <= i < c.len() implies c[i] != 0 by {
        if i < qp.len() {
            assert(c[i] == qp[i]);
        } else if i > qp.len() {
            assert(c[i] == tok[i - qp.len() - 1]);
            assert(tok[i - qp.len() - 1] != 0 && tok[i - qp.len() - 1] != 47);
        }
    }
    crate::text::lemma_cstr_of_no_nul(c);
    lemma_last_slash(qp, tok);
    assert(c.take(qp.len() as int) =~= qp);
    assert(c.skip(qp.len() as int + 1) =~= tok);
    assert(c.len() > 0);
}

/// Removing the child `m` of the node at `pp`, named by the token `tok`.
proof fn lemma_apply_remove(obj: JsonNode, pp: Seq<int>, qp: Seq<u8>, tok: Seq<u8>, m: int, close: spec_fn(u64, u64) -> bool)
    requires
        located(obj, pp, qp),
        token_text(tok),
        0 <= m < node_at(obj, pp).child.len(),
        type_byte(node_at(obj, pp).type_) == CJSON_ARRAY ==> m <= usize::MAX,
        (type_byte(node_at(obj, pp).type_) == CJSON_ARRAY && decode_index(decode_token(tok), 0) == Some(m as usize)) || (type_byte(
            node_at(obj, pp).type_,
        ) == CJSON_OBJECT && find_member(node_at(obj, pp).child, decode_token(tok), false) == Some(m)),
    ensures
        apply_spec(obj, patch_node(op_remove(), qp + seq![47u8] + tok, None), true, close) == (
            set_at(obj, pp, with_kids(node_at(obj, pp), node_at(obj, pp).child.remove(m))),
            0i32,
        ),
{
    let ptext = qp + seq![47u8] + tok;
    lemma_split_child_pointer(qp, tok);
    lemma_literals();
    lemma_patch_parts(op_remove(), ptext, None);
    lemma_located_walk(obj, pp, qp);
    let par = node_at(obj, pp);
    let pn = patch_node(op_remove(), ptext, None);
    let pathm = member_named(pn, key_path(), true).unwrap();
    assert(text_of(pathm) == ptext);
    assert(detach_spec(obj, ptext, true) == Some((set_at(obj, pp, with_kids(par, par.child.remove(m))), par.child[m])));
}

/// Replacing the child `m` of the node at `pp`, named by the token `tok`,
/// with a copy of `t`: in place in an array, at the end in an object.
proof fn lemma_apply_replace(obj: JsonNode, pp: Seq<int>, qp: Seq<u8>, tok: Seq<u8>, m: int, t: JsonNode, close: spec_fn(u64, u64) -> bool)
    requires
        located(obj, pp, qp),
        token_text(tok),
        0 <= m < node_at(obj, pp).child.len(),
        type_byte(node_at(obj, pp).type_) == CJSON_ARRAY ==> m <= usize::MAX,
        (type_byte(node_at(obj, pp).type_) == CJSON_ARRAY && decode_index(decode_token(tok), 0) == Some(m as usize)) || (type_byte(
            node_at(obj, pp).type_,
        ) == CJSON_OBJECT && find_member(node_at(obj, pp).child, decode_token(tok), false) == Some(m) && find_member(
            node_at(obj, pp).child.remove(m),
            decode_token(tok),
            true,
        ) is None),
        dup_tree(t, 0, true) is Some,
    ensures
        apply_spec(obj, patch_node(op_replace(), qp + seq![47u8] + tok, Some(t)), true, close) == (
            if type_byte(node_at(obj, pp).type_) == CJSON_ARRAY {
                set_at(obj, pp, with_kids(node_at(obj, pp), node_at(obj, pp).child.update(m, applied_copy(t))))
            } else {
                set_at(
                    obj,
                    pp,
                    with_kids(node_at(obj, pp), node_at(obj, pp).child.remove(m).push(keyed(applied_copy(t), decode_token(tok), false))),
                )
            },
            0i32,
        ),
{
    let ptext = qp + seq![47u8] + tok;
    lemma_split_child_pointer(qp, tok);
    lemma_literals();
    lemma_patch_parts(op_replace(), ptext, Some(t));
    lemma_copy_exists(t);
    lemma_located_walk(obj, pp, qp);
    let par = node_at(obj, pp);
    let pn = patch_node(op_replace(), ptext, Some(t));
    let pathm = member_named(pn, key_path(), true).unwrap();
    assert(text_of(pathm) == ptext);
    let par1 = with_kids(par, par.child.remove(m));
    let obj1 = set_at(obj, pp, par1);
    assert(detach_spec(obj, ptext, true) == Some((obj1, par.child[m])));
    let ac = applied_copy(t);
    assert(value_spec(obj1, pn, PATCH_REPLACE, true) == (obj1, Ok::<JsonNode, i32>(ac)));
    lemma_located_set(obj, pp, qp, par1);
    lemma_located_walk(obj1, pp, qp);
    crate::utils::lemma_set_at(obj, pp, par1, par1);
    if type_byte(par.type_) == CJSON_ARRAY {
        let name = decode_token(tok);
        if name == seq![45u8] {
            assert(byte_at(name, 0) == 45);
            assert(crate::utils::digit_run(name, 0) == 0);
            assert(decode_index(name, 0) is None);
        }
        let res = if m == par1.child.len() {
            with_kids(par1, par1.child.push(ac))
        } else {
            with_kids(par1, par1.child.insert(m, ac))
        };
        assert(res.child =~= par.child.update(m, ac));
        assert(res == with_kids(par, par.child.update(m, ac)));
        crate::utils::lemma_set_at(obj, pp, par1, res);
        assert(add_spec(obj1, ptext, ac, true) == (set_at(obj1, pp, res), 0i32));
    } else {
        let res = with_kids(par1, par1.child.push(keyed(ac, decode_token(tok), false)));
        assert(res == with_kids(par, par.child.remove(m).push(keyed(ac, decode_token(tok), false))));
        crate::utils::lemma_set_at(obj, pp, par1, res);
        assert(add_spec(obj1, ptext, ac, true) == (set_at(obj1, pp, res), 0i32));
    }
}

/// Adding a copy of `t` under the token `tok` (`-` for an array) to the
/// node at `pp`.
proof fn lemma_apply_add(obj: JsonNode, pp: Seq<int>, qp: Seq<u8>, tok: Seq<u8>, t: JsonNode, close: spec_fn(u64, u64) -> bool)
    requires
        located(obj, pp, qp),
        token_text(tok),
        (type_byte(node_at(obj, pp).type_) == CJSON_ARRAY && decode_token(tok) == seq![45u8]) || (type_byte(node_at(obj, pp).type_)
            == CJSON_OBJECT && find_member(node_at(obj, pp).child, decode_token(tok), true) is None),
        dup_tree(t, 0, true) is Some,
    ensures
        apply_spec(obj, patch_node(op_add(), qp + seq![47u8] + tok, Some(t)), true, close) == (
            set_at(
                obj,
                pp,
                with_kids(
                    node_at(obj, pp),
                    node_at(obj, pp).child.push(
                        if type_byte(node_at(obj, pp).type_) == CJSON_ARRAY {
                            applied_copy(t)
                        } else {
                            keyed(applied_copy(t), decode_token(tok), false)
                        },
                    ),
                ),
            ),
            0i32,
        ),
{
    let ptext = qp + seq![47u8] + tok;
    lemma_split_child_pointer(qp, tok);
    lemma_literals();
    lemma_patch_parts(op_add(), ptext, Some(t));
    lemma_copy_exists(t);
    lemma_located_walk(obj, pp, qp);
    let pn = patch_node(op_add(), ptext, Some(t));
    let pathm = member_named(pn, key_path(), true).unwrap();
    assert(text_of(pathm) == ptext);
    let ac = applied_copy(t);
    assert(value_spec(obj, pn, PATCH_ADD, true) == (obj, Ok::<JsonNode, i32>(ac)));
}

/// Replacing the whole tree with a copy of `t`.
proof fn lemma_apply_replace_root(obj: JsonNode, t: JsonNode, close: spec_fn(u64, u64) -> bool)
    requires
        dup_tree(t, 0, true) is Some,
    ensures
        apply_spec(obj, patch_node(op_replace(), Seq::empty(), Some(t)), true, close) == (
            JsonNode { string: None, ..applied_copy(t) },
            0i32,
        ),
{
    lemma_literals();
    assert(no_nul(Seq::<u8>::empty()));
    lemma_patch_parts(op_replace(), Seq::empty(), Some(t));
    lemma_copy_exists(t);
}

// ---------------------------------------------------------------------------
// Facts the walks use.
// ---------------------------------------------------------------------------

/// Applying two patch lists one after the other.
proof fn lemma_apply_concat(obj: JsonNode, p1: Seq<JsonNode>, p2: Seq<JsonNode>, close: spec_fn(u64, u64) -> bool)
    ensures
        apply_all(obj, p1 + p2, true, close) == (match apply_all(obj, p1, true, close) {
            (o, 0i32) => apply_all(o, p2, true, close),
            r => r,
        }),
    decreases p1.len(),
{
    if p1.len() == 0 {
        assert(p1 + p2 =~= p2);
    } else {
        let s = p1 + p2;
        assert(s[0] == p1[0]);
        assert(s.subrange(1, s.len() as int) =~= p1.subrange(1, p1.len() as int) + p2);
        let (o1, st) = apply_spec(obj, p1[0], true, close);
        if st == 0 {
            lemma_apply_concat(o1, p1.subrange(1, p1.len() as int), p2, close);
        }
    }
}

/// Applying a single patch.
proof fn lemma_apply_one(obj: JsonNode, pn: JsonNode, close: spec_fn(u64, u64) -> bool)
    ensures
        apply_spec(obj, pn, true, close).1 == 0 ==> apply_all(obj, seq![pn], true, close) == apply_spec(obj, pn, true, close),
{
    let ps = seq![pn];
    assert(ps[0] == pn);
    assert(ps.subrange(1, 1) =~= Seq::<JsonNode>::empty());
    let (o1, st) = apply_spec(obj, pn, true, close);
    assert(apply_all(o1, Seq::<JsonNode>::empty(), true, close) == (o1, 0i32));
}

/// A lookup up to ASCII case finds the first member whose key matches.
proof fn lemma_find_first_fold(kids: Seq<JsonNode>, name: Seq<u8>, m0: int, from: nat)
    requires
        from <= m0 < kids.len(),
        kids[m0].string matches Some(k) && c_str_diff(name, k, true) == 0,
        forall|m: int| from <= m < m0 ==> ((#[trigger] kids[m]).string matches Some(k) ==> c_str_diff(name, k, true) != 0),
    ensures
        find_member_from(kids, name, false, from) == Some(m0),
    decreases m0 - from,
{
    if from < m0 {
        assert((kids[from as int]).string matches Some(k) ==> c_str_diff(name, k, true) != 0);
        lemma_find_first_fold(kids, name, m0, from + 1);
    }
}

/// An exact lookup finds nothing when every member has a different key.
proof fn lemma_find_none_exact(kids: Seq<JsonNode>, name: Seq<u8>, from: nat)
    requires
        from <= kids.len(),
        forall|m: int| from <= m < kids.len() ==> ((#[trigger] kids[m]).string matches Some(k) && c_str_diff(k, name, false) != 0),
    ensures
        find_member_from(kids, name, true, from) is None,
    decreases kids.len() - from,
{
    if from < kids.len() {
        assert((kids[from as int]).string matches Some(k) && c_str_diff(k, name, false) != 0);
        lemma_find_none_exact(kids, name, from + 1);
    }
}

/// An exact lookup finds the only member with that key.
proof fn lemma_find_exact(kids: Seq<JsonNode>, name: Seq<u8>, m0: int, from: nat)
    requires
        from <= m0 < kids.len(),
        kids[m0].string matches Some(k) && c_str_diff(k, name, false) == 0,
        forall|m: int| from <= m < m0 ==> ((#[trigger] kids[m]).string matches Some(k) && c_str_diff(k, name, false) != 0),
    ensures
        find_member_from(kids, name, true, from) == Some(m0),
    decreases m0 - from,
{
    if from < m0 {
        assert((kids[from as int]).string matches Some(k) && c_str_diff(k, name, false) != 0);
        lemma_find_exact(kids, name, m0, from + 1);
    }
}

/// Keys named by pointers compare exactly equal when they are the same.
proof fn lemma_plain_diff(a: Seq<u8>, b: Seq<u8>)
    requires
        pointer_key(a),
        pointer_key(b),
    ensures
        (c_str_diff(a, b, false) == 0) == (a == b),
        (c_str_diff(b, a, false) == 0) == (a == b),
        a == b ==> c_str_diff(a, b, true) == 0,
{
    lemma_pointer_token(a);
    lemma_pointer_token(b);
    crate::mergelaw::lemma_diff_zero(a, b);
    crate::mergelaw::lemma_diff_zero(b, a);
}

/// Sorting members whose keys, named by pointers, all differ gives a rearrangement whose
/// keys strictly ascend.
proof fn lemma_sorted_exact(s: Seq<JsonNode>)
    requires
        member_keys(s, false),
    ensures
        sorted_spec(s, true).to_multiset() == s.to_multiset(),
        sorted_spec(s, true).len() == s.len(),
        member_keys(sorted_spec(s, true), false),
        forall|p: int, q: int| 0 <= p < q < sorted_spec(s, true).len() ==>
            c_str_diff(key_of(#[trigger] sorted_spec(s, true)[p]), key_of(#[trigger] sorted_spec(s, true)[q]), false) < 0,
        forall|p: int| 0 <= p < sorted_spec(s, true).len() ==> s.contains(#[trigger] sorted_spec(s, true)[p]),
        forall|i: int| 0 <= i < s.len() ==> sorted_spec(s, true).contains(#[trigger] s[i]),
{
    let t = sorted_spec(s, true);
    assert(crate::utils::all_keyed(s)) by {
        assert forall|i: int| 0 <= i < s.len() implies (#[trigger] s[i]).string is Some by {}
    }
    crate::utils::law_sort_orders_keys(s, true);
    crate::utils::lemma_sorted_perm(s, true);
    assert forall|p: int| 0 <= p < t.len() implies s.contains(#[trigger] t[p]) by {
        vstd::seq_lib::to_multiset_contains(t, t[p]);
        vstd::seq_lib::to_multiset_contains(s, t[p]);
        assert(t.contains(t[p]));
    }
    assert forall|i: int| 0 <= i < s.len() implies t.contains(#[trigger] s[i]) by {
        vstd::seq_lib::to_multiset_contains(t, s[i]);
        vstd::seq_lib::to_multiset_contains(s, s[i]);
        assert(s.contains(s[i]));
    }
    assert forall|p: int| 0 <= p < t.len() implies (#[trigger] t[p]).string is Some && pointer_key(key_of(t[p])) by {
        let i = choose|i: int| 0 <= i < s.len() && s[i] == t[p];
    }
    assert forall|p: int, q: int|
        0 <= p < t.len() && 0 <= q < t.len() && p != q implies c_str_diff(key_of(#[trigger] t[p]), key_of(#[trigger] t[q]), false) != 0 by {
        let i = choose|i: int| 0 <= i < s.len() && s[i] == t[p];
        let j = choose|j: int| 0 <= j < s.len() && s[j] == t[q];
        if t[p] == t[q] {
            crate::mergelaw::lemma_count_two(t, p, q);
            crate::mergelaw::lemma_two_positions(s, t[p]);
            let (i2, j2) = choose|i2: int, j2: int| 0 <= i2 < s.len() && 0 <= j2 < s.len() && i2 != j2 && s[i2] == t[p] && s[j2] == t[p];
            assert(c_str_diff(key_of(s[i2]), key_of(s[j2]), false) != 0);
            lemma_plain_diff(key_of(t[p]), key_of(t[p]));
        } else {
            assert(i != j);
            assert(c_str_diff(key_of(s[i]), key_of(s[j]), false) != 0);
        }
    }
    assert forall|p: int| 0 <= p < t.len() - 1 implies c_str_diff(key_of(#[trigger] t[p]), key_of(t[p + 1]), false) < 0 by {
        assert(key_diff(t[p].string, t[p + 1].string, true) <= 0);
        assert(t[p].string is Some && t[p + 1].string is Some);
        assert(c_str_diff(key_of(t[p]), key_of(t[p + 1]), false) != 0);
    }
    assert forall|p: int, q: int| 0 <= p < q < t.len() implies c_str_diff(key_of(#[trigger] t[p]), key_of(#[trigger] t[q]), false) < 0 by {
        lemma_ascend_exact(t, p, q);
    }
}

proof fn lemma_ascend_exact(t: Seq<JsonNode>, p: int, q: int)
    requires
        0 <= p < q < t.len(),
        forall|k: int| 0 <= k < t.len() - 1 ==> c_str_diff(key_of(#[trigger] t[k]), key_of(t[k + 1]), false) < 0,
    ensures
        c_str_diff(key_of(t[p]), key_of(t[q]), false) < 0,
    decreases q - p,
{
    if q > p + 1 {
        lemma_ascend_exact(t, p, q - 1);
        let k = q - 1;
        assert(c_str_diff(key_of(t[k]), key_of(t[k + 1]), false) < 0);
        crate::mergelaw::lemma_lt_trans(key_of(t[p]), key_of(t[q - 1]), key_of(t[q]), false);
    }
}

/// Equal elements pairwise make equal arrays.
proof fn lemma_pairs_same(sa: Seq<JsonNode>, sb: Seq<JsonNode>, close: spec_fn(u64, u64) -> bool)
    requires
        sa.len() == sb.len(),
        forall|i: int| 0 <= i < sa.len() ==> same_tree(#[trigger] sa[i], sb[i], true, close),
    ensures
        same_elements(sa, sb, true, close),
    decreases sa.len(),
{
    if sa.len() > 0 {
        let ra = sa.subrange(1, sa.len() as int);
        let rb = sb.subrange(1, sb.len() as int);
        assert forall|i: int| 0 <= i < ra.len() implies same_tree(#[trigger] ra[i], rb[i], true, close) by {
            assert(ra[i] == sa[i + 1]);
            assert(rb[i] == sb[i + 1]);
        }
        lemma_pairs_same(ra, rb, close);
        assert(same_tree(sa[0], sb[0], true, close));
    }
}

/// A goal tree can be compared with itself and with a copy of itself.
proof fn lemma_goal_comparable(n: JsonNode, close: spec_fn(u64, u64) -> bool)
    requires
        goal_ok(n, close),
    ensures
        self_comparable(n, true, close),
    decreases n, 1int,
{
    let t = type_byte(n.type_);
    if t == CJSON_ARRAY || t == CJSON_OBJECT {
        lemma_goals_comparable(n.child, close);
    }
    if t == CJSON_OBJECT {
        assert forall|i: int, j: int|
            0 <= i < n.child.len() && 0 <= j < n.child.len() && i != j implies c_str_diff(
                (#[trigger] n.child[i]).string.unwrap(),
                (#[trigger] n.child[j]).string.unwrap(),
                false,
            ) != 0 by {
            assert(c_str_diff(key_of(n.child[i]), key_of(n.child[j]), false) != 0);
        }
    }
}

proof fn lemma_goals_comparable(s: Seq<JsonNode>, close: spec_fn(u64, u64) -> bool)
    requires
        goals_ok(s, close),
    ensures
        crate::manip::comparable_list(s, true, close),
    decreases s, 0int,
{
    if s.len() > 0 {
        lemma_goal_comparable(s[0], close);
        lemma_goals_comparable(s.subrange(1, s.len() as int), close);
    }
}

/// What a child of a goal tree is like.
proof fn lemma_goal_child(t: JsonNode, close: spec_fn(u64, u64) -> bool, j: int)
    requires
        goal_ok(t, close),
        dup_tree(t, 0, true) is Some,
        type_byte(t.type_) == CJSON_ARRAY || type_byte(t.type_) == CJSON_OBJECT,
        0 <= j < t.child.len(),
    ensures
        goal_ok(t.child[j], close),
        dup_tree(t.child[j], 0, true) is Some,
        node_count(t.child[j]) < node_count(t),
{
    lemma_goals_at(t.child, close, j);
    let ks = crate::manip::dup_list(t.child, 1).unwrap();
    crate::manip::lemma_dup_list_at(t.child, 1, ks);
    crate::mergelaw::lemma_dup_depth(t.child[j], 1, 0);
    crate::manip::lemma_list_count(t.child, j);
}

// ---------------------------------------------------------------------------
// The walk over the sorted members of two objects.
// ---------------------------------------------------------------------------

/// `x` stands, under the same key, for one of the first `b` members of
/// `gl`, and compares equal to it both ways.
pub open spec fn stands_for(x: JsonNode, gl: Seq<JsonNode>, b: int, close: spec_fn(u64, u64) -> bool) -> bool {
    exists|j: int|
        0 <= j < b && key_of(x) == key_of(#[trigger] gl[j]) && same_tree(x, gl[j], true, close) && same_tree(gl[j], x, true, close)
}

/// Some member of `k` has `y`'s key.
pub open spec fn has_key(k: Seq<JsonNode>, y: JsonNode) -> bool {
    exists|m: int| 0 <= m < k.len() && key_of(#[trigger] k[m]) == key_of(y)
}

/// The members `k` of the object being patched, once the patches for the
/// first `a` members of `fl` and the first `b` of `gl` are applied: the
/// members of `fl` not yet passed are untouched; every other member stands
/// for a passed member of `gl`, and every passed member of `gl` has one;
/// keys are named by pointers and differ; a member not yet passed comes before any
/// member whose key matches it up to ASCII case; and every passed key of
/// `gl` is below every key of `fl` not yet passed.
pub open spec fn members_state(k: Seq<JsonNode>, fl: Seq<JsonNode>, gl: Seq<JsonNode>, a: int, b: int, close: spec_fn(u64, u64) -> bool) -> bool {
    &&& forall|i: int| a <= i < fl.len() ==> k.contains(#[trigger] fl[i])
    &&& forall|m: int| 0 <= m < k.len() ==> crate::mergelaw::in_from(fl, a, #[trigger] k[m]) || stands_for(k[m], gl, b, close)
    &&& forall|j: int| 0 <= j < b ==> has_key(k, #[trigger] gl[j])
    &&& forall|m: int| 0 <= m < k.len() ==> (#[trigger] k[m]).string is Some && pointer_key(key_of(k[m]))
    &&& forall|m: int, m2: int| 0 <= m < k.len() && 0 <= m2 < k.len() && m != m2 ==> key_of(#[trigger] k[m]) != key_of(#[trigger] k[m2])
    &&& forall|m: int, m2: int|
        0 <= m < k.len() && 0 <= m2 < k.len() && m != m2 && crate::mergelaw::in_from(fl, a, k[m2]) && c_str_diff(
            key_of(#[trigger] k[m]),
            key_of(#[trigger] k[m2]),
            true,
        ) == 0 ==> m2 < m
    &&& forall|j: int, i: int| 0 <= j < b && a <= i < fl.len() ==> c_str_diff(key_of(#[trigger] gl[j]), key_of(#[trigger] fl[i]), false) < 0
}

/// What the two sorted member lists are like.
pub open spec fn sorted_lists(fl: Seq<JsonNode>, gl: Seq<JsonNode>) -> bool {
    &&& member_keys(fl, true)
    &&& member_keys(gl, false)
    &&& forall|p: int, q: int| 0 <= p < q < fl.len() ==> c_str_diff(key_of(#[trigger] fl[p]), key_of(#[trigger] fl[q]), false) < 0
    &&& forall|p: int, q: int| 0 <= p < q < gl.len() ==> c_str_diff(key_of(#[trigger] gl[p]), key_of(#[trigger] gl[q]), false) < 0
}

/// Keys that differ up to ASCII case differ.
proof fn lemma_fold_distinct_exact(s: Seq<JsonNode>)
    requires
        member_keys(s, true),
    ensures
        member_keys(s, false),
{
    assert forall|i: int, j: int|
        0 <= i < s.len() && 0 <= j < s.len() && i != j implies c_str_diff(key_of(#[trigger] s[i]), key_of(#[trigger] s[j]), false) != 0 by {
        crate::mergelaw::lemma_diff_zero(key_of(s[i]), key_of(s[j]));
    }
}

/// Sorting members whose keys differ up to ASCII case keeps them so.
proof fn lemma_sorted_fold(s: Seq<JsonNode>)
    requires
        member_keys(s, true),
    ensures
        member_keys(sorted_spec(s, true), true),
{
    lemma_fold_distinct_exact(s);
    lemma_sorted_exact(s);
    let t = sorted_spec(s, true);
    assert forall|p: int, q: int|
        0 <= p < t.len() && 0 <= q < t.len() && p != q implies c_str_diff(key_of(#[trigger] t[p]), key_of(#[trigger] t[q]), true) != 0 by {
        let i = choose|i: int| 0 <= i < s.len() && s[i] == t[p];
        let j = choose|j: int| 0 <= j < s.len() && s[j] == t[q];
        assert(c_str_diff(key_of(t[p]), key_of(t[q]), false) != 0);
        if i == j {
            lemma_plain_diff(key_of(t[p]), key_of(t[q]));
        } else {
            assert(c_str_diff(key_of(s[i]), key_of(s[j]), true) != 0);
        }
    }
}

proof fn lemma_walk_start(f: JsonNode, t: JsonNode, close: spec_fn(u64, u64) -> bool)
    requires
        type_byte(f.type_) == CJSON_OBJECT,
        type_byte(t.type_) == CJSON_OBJECT,
        source_ok(f),
        goal_ok(t, close),
    ensures
        sorted_lists(sorted_spec(f.child, true), sorted_spec(t.child, true)),
        members_state(f.child, sorted_spec(f.child, true), sorted_spec(t.child, true), 0, 0, close),
{
    let fl = sorted_spec(f.child, true);
    let gl = sorted_spec(t.child, true);
    let k = f.child;
    lemma_fold_distinct_exact(k);
    lemma_sorted_exact(k);
    lemma_sorted_fold(k);
    lemma_sorted_exact(t.child);
    assert forall|m: int| 0 <= m < k.len() implies crate::mergelaw::in_from(fl, 0, #[trigger] k[m]) || stands_for(k[m], gl, 0, close) by {
        assert(fl.contains(k[m]));
        let i = choose|i: int| 0 <= i < fl.len() && fl[i] == k[m];
        assert(fl[i] == k[m]);
    }
    assert forall|m: int, m2: int| 0 <= m < k.len() && 0 <= m2 < k.len() && m != m2 implies key_of(#[trigger] k[m]) != key_of(#[trigger] k[m2]) by {
        assert(c_str_diff(key_of(k[m]), key_of(k[m2]), false) != 0);
        lemma_plain_diff(key_of(k[m]), key_of(k[m2]));
    }
}

/// Where the next member of `fl` stands among the members, and what the
/// lookups of its key find.
proof fn lemma_member_spot(k: Seq<JsonNode>, fl: Seq<JsonNode>, gl: Seq<JsonNode>, a: int, b: int, close: spec_fn(u64, u64) -> bool) -> (m0: int)
    requires
        members_state(k, fl, gl, a, b, close),
        0 <= a < fl.len(),
    ensures
        0 <= m0 < k.len(),
        k[m0] == fl[a],
        find_member(k, key_of(fl[a]), false) == Some(m0),
        find_member(k.remove(m0), key_of(fl[a]), true) is None,
        forall|j: int| 0 <= j < m0 ==> key_diff(#[trigger] k[j].string, k[m0].string, true) != 0,
{
    let x = fl[a];
    assert(k.contains(x));
    let m0 = choose|m: int| 0 <= m < k.len() && k[m] == x;
    let kx = key_of(x);
    assert(k[m0].string is Some && pointer_key(kx));
    assert(crate::mergelaw::in_from(fl, a, k[m0]));
    crate::utils::lemma_str_diff_self(kx, 0, true);
    assert forall|m: int| 0 <= m < m0 implies ((#[trigger] k[m]).string matches Some(kk) ==> c_str_diff(kx, kk, true) != 0) by {
        assert(k[m].string is Some);
        if c_str_diff(kx, key_of(k[m]), true) == 0 {
            crate::mergelaw::lemma_diff_zero(kx, key_of(k[m]));
            assert(c_str_diff(key_of(k[m]), key_of(k[m0]), true) == 0);
        }
    }
    lemma_find_first_fold(k, kx, m0, 0);
    let r = k.remove(m0);
    assert forall|m: int| 0 <= m < r.len() implies ((#[trigger] r[m]).string matches Some(kk) && c_str_diff(kk, kx, false) != 0) by {
        let mm = if m < m0 { m } else { m + 1 };
        assert(r[m] == k[mm]);
        assert(key_of(k[mm]) != key_of(k[m0]));
        lemma_plain_diff(key_of(k[mm]), kx);
    }
    lemma_find_none_exact(r, kx, 0);
    assert forall|j: int| 0 <= j < m0 implies key_diff(#[trigger] k[j].string, k[m0].string, true) != 0 by {
        assert(key_of(k[j]) != key_of(k[m0]));
        lemma_plain_diff(key_of(k[j]), key_of(k[m0]));
    }
    m0
}

/// After the next member of `fl` is removed.
#[verifier::spinoff_prover]
#[verifier::rlimit(40)]
proof fn lemma_after_remove(k: Seq<JsonNode>, fl: Seq<JsonNode>, gl: Seq<JsonNode>, a: int, b: int, close: spec_fn(u64, u64) -> bool, m0: int)
    requires
        members_state(k, fl, gl, a, b, close),
        sorted_lists(fl, gl),
        0 <= a < fl.len(),
        0 <= b <= gl.len(),
        0 <= m0 < k.len(),
        k[m0] == fl[a],
    ensures
        members_state(k.remove(m0), fl, gl, a + 1, b, close),
{
    let r = k.remove(m0);
    assert forall|i: int| a + 1 <= i < fl.len() implies r.contains(#[trigger] fl[i]) by {
        assert(k.contains(fl[i]));
        let m = choose|m: int| 0 <= m < k.len() && k[m] == fl[i];
        assert(c_str_diff(key_of(fl[a]), key_of(fl[i]), false) < 0);
        if m == m0 {
            crate::utils::lemma_str_diff_self(key_of(fl[a]), 0, false);
        }
        let mm = if m < m0 { m } else { m - 1 };
        assert(r[mm] == k[m]);
    }
    assert forall|m: int| 0 <= m < r.len() implies crate::mergelaw::in_from(fl, a + 1, #[trigger] r[m]) || stands_for(r[m], gl, b, close) by {
        let mk = if m < m0 { m } else { m + 1 };
        assert(r[m] == k[mk]);
        if crate::mergelaw::in_from(fl, a, k[mk]) {
            let i = choose|i: int| a <= i < fl.len() && fl[i] == k[mk];
            if i == a {
                assert(key_of(k[mk]) != key_of(k[m0]));
            }
            assert(fl[i] == r[m]);
        }
    }
    assert forall|j: int| 0 <= j < b implies has_key(r, #[trigger] gl[j]) by {
        assert(has_key(k, gl[j]));
        let m = choose|m: int| 0 <= m < k.len() && key_of(#[trigger] k[m]) == key_of(gl[j]);
        if m == m0 {
            assert(c_str_diff(key_of(gl[j]), key_of(fl[a]), false) < 0);
            crate::utils::lemma_str_diff_self(key_of(fl[a]), 0, false);
        }
        let mm = if m < m0 { m } else { m - 1 };
        assert(r[mm] == k[m]);
    }
    assert forall|m: int, m2: int| 0 <= m < r.len() && 0 <= m2 < r.len() && m != m2 implies key_of(#[trigger] r[m]) != key_of(#[trigger] r[m2]) by {
        let mk = if m < m0 { m } else { m + 1 };
        let mk2 = if m2 < m0 { m2 } else { m2 + 1 };
        assert(r[m] == k[mk] && r[m2] == k[mk2]);
    }
    assert forall|m: int, m2: int|
        0 <= m < r.len() && 0 <= m2 < r.len() && m != m2 && crate::mergelaw::in_from(fl, a + 1, r[m2]) && c_str_diff(
            key_of(#[trigger] r[m]),
            key_of(#[trigger] r[m2]),
            true,
        ) == 0 implies m2 < m by {
        let mk = if m < m0 { m } else { m + 1 };
        let mk2 = if m2 < m0 { m2 } else { m2 + 1 };
        assert(r[m] == k[mk] && r[m2] == k[mk2]);
        let i = choose|i: int| a + 1 <= i < fl.len() && fl[i] == r[m2];
        assert(crate::mergelaw::in_from(fl, a, k[mk2]));
    }
    assert forall|m: int| 0 <= m < r.len() implies (#[trigger] r[m]).string is Some && pointer_key(key_of(r[m])) by {
        let mk = if m < m0 { m } else { m + 1 };
        assert(r[m] == k[mk]);
    }
}

/// The key of `gl[b]` is none of the members' keys when it is below the
/// next member of `fl`.
proof fn lemma_fresh_key(k: Seq<JsonNode>, fl: Seq<JsonNode>, gl: Seq<JsonNode>, a: int, b: int, close: spec_fn(u64, u64) -> bool)
    requires
        members_state(k, fl, gl, a, b, close),
        sorted_lists(fl, gl),
        0 <= a <= fl.len(),
        0 <= b < gl.len(),
        a < fl.len() ==> c_str_diff(key_of(fl[a]), key_of(gl[b]), false) > 0,
    ensures
        forall|m: int| 0 <= m < k.len() ==> key_of(#[trigger] k[m]) != key_of(gl[b]),
        find_member(k, key_of(gl[b]), true) is None,
        forall|i: int| a <= i < fl.len() ==> c_str_diff(key_of(gl[b]), key_of(#[trigger] fl[i]), false) < 0,
{
    let kb = key_of(gl[b]);
    assert forall|i: int| a <= i < fl.len() implies c_str_diff(kb, key_of(#[trigger] fl[i]), false) < 0 by {
        crate::mergelaw::lemma_swap(key_of(fl[a]), kb, false);
        if i > a {
            assert(c_str_diff(key_of(fl[a]), key_of(fl[i]), false) < 0);
            crate::mergelaw::lemma_lt_trans(kb, key_of(fl[a]), key_of(fl[i]), false);
        }
    }
    assert forall|m: int| 0 <= m < k.len() implies key_of(#[trigger] k[m]) != kb by {
        if crate::mergelaw::in_from(fl, a, k[m]) {
            let i = choose|i: int| a <= i < fl.len() && fl[i] == k[m];
            assert(c_str_diff(kb, key_of(fl[i]), false) < 0);
            crate::utils::lemma_str_diff_self(kb, 0, false);
        } else {
            let j = choose|j: int|
                0 <= j < b && key_of(k[m]) == key_of(#[trigger] gl[j]) && same_tree(k[m], gl[j], true, close) && same_tree(gl[j], k[m], true, close);
            assert(c_str_diff(key_of(gl[j]), kb, false) < 0);
            crate::utils::lemma_str_diff_self(kb, 0, false);
        }
    }
    assert forall|m: int| 0 <= m < k.len() implies ((#[trigger] k[m]).string matches Some(kk) && c_str_diff(kk, kb, false) != 0) by {
        assert(k[m].string is Some);
        lemma_plain_diff(key_of(k[m]), kb);
    }
    lemma_find_none_exact(k, kb, 0);
}

/// After a member standing for `gl[b]` is appended.
#[verifier::spinoff_prover]
#[verifier::rlimit(40)]
proof fn lemma_after_push(k: Seq<JsonNode>, fl: Seq<JsonNode>, gl: Seq<JsonNode>, a: int, b: int, close: spec_fn(u64, u64) -> bool, x: JsonNode)
    requires
        members_state(k, fl, gl, a, b, close),
        sorted_lists(fl, gl),
        0 <= a <= fl.len(),
        0 <= b < gl.len(),
        forall|m: int| 0 <= m < k.len() ==> key_of(#[trigger] k[m]) != key_of(gl[b]),
        forall|i: int| a <= i < fl.len() ==> c_str_diff(key_of(gl[b]), key_of(#[trigger] fl[i]), false) < 0,
        x.string is Some,
        key_of(x) == key_of(gl[b]),
        same_tree(x, gl[b], true, close),
        same_tree(gl[b], x, true, close),
    ensures
        members_state(k.push(x), fl, gl, a, b + 1, close),
{
    let r = k.push(x);
    assert(gl[b].string is Some && pointer_key(key_of(gl[b])));
    assert forall|i: int| a <= i < fl.len() implies r.contains(#[trigger] fl[i]) by {
        assert(k.contains(fl[i]));
        let m = choose|m: int| 0 <= m < k.len() && k[m] == fl[i];
        assert(r[m] == k[m]);
    }
    assert(stands_for(x, gl, b + 1, close)) by {
        assert(key_of(x) == key_of(gl[b]));
    }
    assert forall|m: int| 0 <= m < r.len() implies crate::mergelaw::in_from(fl, a, #[trigger] r[m]) || stands_for(r[m], gl, b + 1, close) by {
        if m < k.len() {
            assert(r[m] == k[m]);
            if !crate::mergelaw::in_from(fl, a, k[m]) {
                let j = choose|j: int|
                    0 <= j < b && key_of(k[m]) == key_of(#[trigger] gl[j]) && same_tree(k[m], gl[j], true, close) && same_tree(gl[j], k[m], true, close);
                assert(key_of(r[m]) == key_of(gl[j]));
            }
        }
    }
    assert forall|j: int| 0 <= j < b + 1 implies has_key(r, #[trigger] gl[j]) by {
        if j == b {
            assert(key_of(r[k.len() as int]) == key_of(gl[b]));
        } else {
            assert(has_key(k, gl[j]));
            let m = choose|m: int| 0 <= m < k.len() && key_of(#[trigger] k[m]) == key_of(gl[j]);
            assert(r[m] == k[m]);
        }
    }
    assert forall|m: int| 0 <= m < r.len() implies (#[trigger] r[m]).string is Some && pointer_key(key_of(r[m])) by {
        if m < k.len() {
            assert(r[m] == k[m]);
        }
    }
    assert forall|m: int, m2: int| 0 <= m < r.len() && 0 <= m2 < r.len() && m != m2 implies key_of(#[trigger] r[m]) != key_of(#[trigger] r[m2]) by {
        if m < k.len() {
            assert(r[m] == k[m]);
        }
        if m2 < k.len() {
            assert(r[m2] == k[m2]);
        }
    }
    assert forall|m: int, m2: int|
        0 <= m < r.len() && 0 <= m2 < r.len() && m != m2 && crate::mergelaw::in_from(fl, a, r[m2]) && c_str_diff(
            key_of(#[trigger] r[m]),
            key_of(#[trigger] r[m2]),
            true,
        ) == 0 implies m2 < m by {
        if m2 == k.len() {
            let i = choose|i: int| a <= i < fl.len() && fl[i] == r[m2];
            assert(c_str_diff(key_of(gl[b]), key_of(fl[i]), false) < 0);
            crate::utils::lemma_str_diff_self(key_of(gl[b]), 0, false);
        }
        if m < k.len() {
            assert(r[m] == k[m]);
        }
        if m2 < k.len() {
            assert(r[m2] == k[m2]);
        }
    }
}

/// After the member for `fl[a]` is patched into one standing for `gl[b]`,
/// in place or moved to the end.
#[verifier::spinoff_prover]
#[verifier::rlimit(40)]
proof fn lemma_after_pair(
    k: Seq<JsonNode>,
    fl: Seq<JsonNode>,
    gl: Seq<JsonNode>,
    a: int,
    b: int,
    close: spec_fn(u64, u64) -> bool,
    m0: int,
    x: JsonNode,
    moved: bool,
)
    requires
        members_state(k, fl, gl, a, b, close),
        sorted_lists(fl, gl),
        0 <= a < fl.len(),
        0 <= b < gl.len(),
        0 <= m0 < k.len(),
        k[m0] == fl[a],
        key_of(fl[a]) == key_of(gl[b]),
        x.string == fl[a].string,
        same_tree(x, gl[b], true, close),
        same_tree(gl[b], x, true, close),
    ensures
        members_state(if moved { k.remove(m0).push(x) } else { k.update(m0, x) }, fl, gl, a + 1, b + 1, close),
{
    let kb = key_of(gl[b]);
    assert(fl[a].string is Some);
    lemma_after_remove(k, fl, gl, a, b, close, m0);
    let r = k.remove(m0);
    assert forall|i: int| a + 1 <= i < fl.len() implies c_str_diff(kb, key_of(#[trigger] fl[i]), false) < 0 by {
        assert(c_str_diff(key_of(fl[a]), key_of(fl[i]), false) < 0);
    }
    assert forall|m: int| 0 <= m < r.len() implies key_of(#[trigger] r[m]) != kb by {
        let mk = if m < m0 { m } else { m + 1 };
        assert(r[m] == k[mk]);
        assert(key_of(k[mk]) != key_of(k[m0]));
    }
    if moved {
        lemma_after_push(r, fl, gl, a + 1, b, close, x);
    } else {
        lemma_after_push(r, fl, gl, a + 1, b, close, x);
        lemma_update_state(k, fl, gl, a, b, close, m0, x);
    }
}

/// The in-place variant of `lemma_after_pair`.
#[verifier::spinoff_prover]
#[verifier::rlimit(60)]
proof fn lemma_update_state(k: Seq<JsonNode>, fl: Seq<JsonNode>, gl: Seq<JsonNode>, a: int, b: int, close: spec_fn(u64, u64) -> bool, m0: int, x: JsonNode)
    requires
        members_state(k, fl, gl, a, b, close),
        members_state(k.remove(m0).push(x), fl, gl, a + 1, b + 1, close),
        sorted_lists(fl, gl),
        0 <= a < fl.len(),
        0 <= m0 < k.len(),
        k[m0] == fl[a],
        x.string == fl[a].string,
    ensures
        members_state(k.update(m0, x), fl, gl, a + 1, b + 1, close),
{
    let u = k.update(m0, x);
    let p = k.remove(m0).push(x);
    let n = k.len();
    // position of u[m] in p
    assert forall|m: int| 0 <= m < n implies #[trigger] u[m] == p[if m < m0 { m } else if m == m0 { n - 1 } else { m - 1 }] by {}
    assert forall|i: int| a + 1 <= i < fl.len() implies u.contains(#[trigger] fl[i]) by {
        assert(p.contains(fl[i]));
        let mp = choose|mp: int| 0 <= mp < p.len() && p[mp] == fl[i];
        let mu = if mp < m0 { mp } else if mp == n - 1 { m0 } else { mp + 1 };
        assert(u[mu] == p[mp]);
    }
    assert forall|m: int| 0 <= m < u.len() implies crate::mergelaw::in_from(fl, a + 1, #[trigger] u[m]) || stands_for(u[m], gl, b + 1, close) by {
        let mp = if m < m0 { m } else if m == m0 { n - 1 } else { m - 1 };
        assert(u[m] == p[mp]);
    }
    assert forall|j: int| 0 <= j < b + 1 implies has_key(u, #[trigger] gl[j]) by {
        assert(has_key(p, gl[j]));
        let mp = choose|mp: int| 0 <= mp < p.len() && key_of(#[trigger] p[mp]) == key_of(gl[j]);
        let mu = if mp < m0 { mp } else if mp == n - 1 { m0 } else { mp + 1 };
        assert(u[mu] == p[mp]);
    }
    assert forall|m: int| 0 <= m < u.len() implies (#[trigger] u[m]).string is Some && pointer_key(key_of(u[m])) by {
        let mp = if m < m0 { m } else if m == m0 { n - 1 } else { m - 1 };
        assert(u[m] == p[mp]);
    }
    assert forall|m: int, m2: int| 0 <= m < u.len() && 0 <= m2 < u.len() && m != m2 implies key_of(#[trigger] u[m]) != key_of(#[trigger] u[m2]) by {
        let mp = if m < m0 { m } else if m == m0 { n - 1 } else { m - 1 };
        let mp2 = if m2 < m0 { m2 } else if m2 == m0 { n - 1 } else { m2 - 1 };
        assert(u[m] == p[mp] && u[m2] == p[mp2]);
    }
    assert forall|m: int, m2: int|
        0 <= m < u.len() && 0 <= m2 < u.len() && m != m2 && crate::mergelaw::in_from(fl, a + 1, u[m2]) && c_str_diff(
            key_of(#[trigger] u[m]),
            key_of(#[trigger] u[m2]),
            true,
        ) == 0 implies m2 < m by {
        // in k, the member at m2 was not yet passed either, and only `x` changed
        let i = choose|i: int| a + 1 <= i < fl.len() && fl[i] == u[m2];
        assert(m2 != m0) by {
            if m2 == m0 {
                assert(key_of(x) == key_of(fl[a]));
                assert(c_str_diff(key_of(fl[a]), key_of(fl[i]), false) < 0);
                crate::utils::lemma_str_diff_self(key_of(fl[a]), 0, false);
            }
        }
        assert(u[m2] == k[m2]);
        assert(crate::mergelaw::in_from(fl, a, k[m2]));
        if m == m0 {
            assert(key_of(u[m]) == key_of(fl[a]));
            assert(member_keys(fl, true));
            assert(c_str_diff(key_of(fl[a]), key_of(fl[i]), true) != 0);
        } else {
            assert(u[m] == k[m]);
        }
    }
}

/// At the end of the walk every member finds an equal member of the
/// target under its key.
#[verifier::spinoff_prover]
#[verifier::rlimit(60)]
proof fn lemma_walk_end_members(f: JsonNode, t: JsonNode, k: Seq<JsonNode>, close: spec_fn(u64, u64) -> bool)
    requires
        type_byte(f.type_) == CJSON_OBJECT,
        type_byte(t.type_) == CJSON_OBJECT,
        goal_ok(t, close),
        members_state(
            k,
            sorted_spec(f.child, true),
            sorted_spec(t.child, true),
            sorted_spec(f.child, true).len() as int,
            sorted_spec(t.child, true).len() as int,
            close,
        ),
    ensures
        forall|m: int| 0 <= m < k.len() ==> ((#[trigger] k[m]).string matches Some(km) && find_member(t.child, km, true) matches Some(
            j,
        ) && 0 <= j < t.child.len() && same_tree(k[m], t.child[j], true, close)),
{
    let fl = sorted_spec(f.child, true);
    let gl = sorted_spec(t.child, true);
    let tk = t.child;
    lemma_sorted_exact(tk);
    assert forall|m: int| 0 <= m < k.len() implies ((#[trigger] k[m]).string matches Some(km) && find_member(tk, km, true) matches Some(
        j,
    ) && 0 <= j < tk.len() && same_tree(k[m], tk[j], true, close)) by {
        assert(!crate::mergelaw::in_from(fl, fl.len() as int, k[m]));
        let j = choose|j: int|
            0 <= j < gl.len() && key_of(k[m]) == key_of(#[trigger] gl[j]) && same_tree(k[m], gl[j], true, close) && same_tree(gl[j], k[m], true, close);
        assert(tk.contains(gl[j]));
        let j2 = choose|j2: int| 0 <= j2 < tk.len() && tk[j2] == gl[j];
        let km = key_of(k[m]);
        assert(k[m].string == Some(km));
        assert forall|mm: int| 0 <= mm < j2 implies ((#[trigger] tk[mm]).string matches Some(kk) && c_str_diff(kk, km, false) != 0) by {
            assert(c_str_diff(key_of(tk[mm]), key_of(tk[j2]), false) != 0);
        }
        lemma_plain_diff(km, km);
        lemma_find_exact(tk, km, j2, 0);
    }
}

/// At the end of the walk every member of the target finds an equal
/// member under its key.
#[verifier::spinoff_prover]
#[verifier::rlimit(60)]
proof fn lemma_walk_end_targets(f: JsonNode, t: JsonNode, k: Seq<JsonNode>, close: spec_fn(u64, u64) -> bool)
    requires
        type_byte(f.type_) == CJSON_OBJECT,
        type_byte(t.type_) == CJSON_OBJECT,
        goal_ok(t, close),
        members_state(
            k,
            sorted_spec(f.child, true),
            sorted_spec(t.child, true),
            sorted_spec(f.child, true).len() as int,
            sorted_spec(t.child, true).len() as int,
            close,
        ),
    ensures
        forall|i: int| 0 <= i < t.child.len() ==> ((#[trigger] t.child[i]).string matches Some(ki) && find_member(k, ki, true) matches Some(
            m,
        ) && 0 <= m < k.len() && same_tree(t.child[i], k[m], true, close)),
{
    let fl = sorted_spec(f.child, true);
    let gl = sorted_spec(t.child, true);
    let tk = t.child;
    lemma_sorted_exact(tk);
    assert forall|i: int| 0 <= i < tk.len() implies ((#[trigger] tk[i]).string matches Some(ki) && find_member(k, ki, true) matches Some(
        m,
    ) && 0 <= m < k.len() && same_tree(tk[i], k[m], true, close)) by {
        assert(gl.contains(tk[i]));
        let j = choose|j: int| 0 <= j < gl.len() && gl[j] == tk[i];
        assert(has_key(k, gl[j]));
        let m = choose|m: int| 0 <= m < k.len() && key_of(#[trigger] k[m]) == key_of(gl[j]);
        assert(!crate::mergelaw::in_from(fl, fl.len() as int, k[m]));
        let j3 = choose|j3: int|
            0 <= j3 < gl.len() && key_of(k[m]) == key_of(#[trigger] gl[j3]) && same_tree(k[m], gl[j3], true, close) && same_tree(gl[j3], k[m], true, close);
        if j3 != j {
            assert(c_str_diff(key_of(gl[j]), key_of(gl[j3]), false) != 0);
            lemma_plain_diff(key_of(gl[j]), key_of(gl[j3]));
        }
        let ki = key_of(tk[i]);
        assert(tk[i].string == Some(ki));
        assert forall|mm: int| 0 <= mm < m implies ((#[trigger] k[mm]).string matches Some(kk) && c_str_diff(kk, ki, false) != 0) by {
            assert(key_of(k[mm]) != key_of(k[m]));
            lemma_plain_diff(key_of(k[mm]), ki);
        }
        lemma_plain_diff(ki, ki);
        lemma_find_exact(k, ki, m, 0);
    }
}

/// At the end of the walk the object compares equal to the target both
/// ways.
proof fn lemma_walk_end(f: JsonNode, t: JsonNode, k: Seq<JsonNode>, close: spec_fn(u64, u64) -> bool)
    requires
        type_byte(f.type_) == CJSON_OBJECT,
        type_byte(t.type_) == CJSON_OBJECT,
        goal_ok(t, close),
        members_state(
            k,
            sorted_spec(f.child, true),
            sorted_spec(t.child, true),
            sorted_spec(f.child, true).len() as int,
            sorted_spec(t.child, true).len() as int,
            close,
        ),
    ensures
        same_tree(with_kids(f, k), t, true, close),
        same_tree(t, with_kids(f, k), true, close),
{
    let tk = t.child;
    lemma_walk_end_members(f, t, k, close);
    crate::mergelaw::lemma_found_each(k, tk, true, close, 0);
    assert(k.subrange(0, k.len() as int) =~= k);
    lemma_walk_end_targets(f, t, k, close);
    crate::mergelaw::lemma_found_each(tk, k, true, close, 0);
    assert(tk.subrange(0, tk.len() as int) =~= tk);
}

// ---------------------------------------------------------------------------
// Applying the patches generated for two trees.
// ---------------------------------------------------------------------------

/// The tree after the node at `path` has become `x`: in place, or, when
/// `moved`, appended to its parent's members in place of the old one.
pub open spec fn put_back(obj: JsonNode, path: Seq<int>, x: JsonNode, moved: bool) -> JsonNode {
    if moved {
        set_at(
            obj,
            path.drop_last(),
            with_kids(node_at(obj, path.drop_last()), node_at(obj, path.drop_last()).child.remove(path.last()).push(x)),
        )
    } else {
        set_at(obj, path, x)
    }
}

/// How the node at `path`, named by the pointer `q`, sits in its parent,
/// named by `qp`: an element whose index is the last token, or a member
/// whose key, escaped, is the last token and which the lookups of that key
/// find.
pub open spec fn child_spot(obj: JsonNode, path: Seq<int>, q: Seq<u8>, qp: Seq<u8>, f: JsonNode) -> bool {
    path.len() > 0 ==> {
        let pp = path.drop_last();
        let m = path.last();
        let par = node_at(obj, pp);
        &&& located(obj, pp, qp)
        &&& (type_byte(par.type_) == CJSON_ARRAY && m <= usize::MAX && q == qp + seq![47u8] + crate::float::dec_digits(m as nat))
            || (type_byte(par.type_) == CJSON_OBJECT && f.string is Some && pointer_key(key_of(f)) && q == qp + seq![47u8]
            + encode_pointer(key_of(f)) && find_member(par.child, key_of(f), false) == Some(m) && find_member(par.child.remove(m), key_of(f), true)
            is None)
    }
}

proof fn lemma_valid_push_inv(n: JsonNode, path: Seq<int>, m: int)
    requires
        valid_path(n, path.push(m)),
    ensures
        valid_path(n, path),
        0 <= m < node_at(n, path).child.len(),
        node_at(n, path.push(m)) == node_at(n, path).child[m],
    decreases path.len(),
{
    let pm = path.push(m);
    if path.len() == 0 {
        assert(pm.skip(1) =~= Seq::<int>::empty());
        assert(pm[0] == m);
        assert(node_at(n, path) == n);
        assert(node_at(n.child[m], pm.skip(1)) == n.child[m]);
    } else {
        let k = path[0];
        assert(pm.skip(1) =~= path.skip(1).push(m));
        assert(pm[0] == k);
        lemma_valid_push_inv(n.child[k], path.skip(1), m);
        assert(node_at(n, path) == node_at(n.child[k], path.skip(1)));
        assert(node_at(n, pm) == node_at(n.child[k], pm.skip(1)));
    }
}

/// Equal scalars compare equal both ways.
proof fn lemma_same_scalars(f: JsonNode, t: JsonNode, close: spec_fn(u64, u64) -> bool)
    requires
        forall|a: u64, b: u64| #[trigger] close(a, b) == close(b, a),
        source_ok(f),
        goal_ok(t, close),
        type_byte(f.type_) == type_byte(t.type_),
        type_byte(f.type_) != CJSON_ARRAY && type_byte(f.type_) != CJSON_OBJECT,
        type_byte(f.type_) == CJSON_NUMBER ==> f.valueint == t.valueint && close(f.valuedouble, t.valuedouble),
        type_byte(f.type_) == CJSON_STRING ==> c_str_diff(text_of(f), text_of(t), false) == 0,
    ensures
        same_tree(f, t, true, close),
        same_tree(t, f, true, close),
{
    let ty = type_byte(f.type_);
    if ty == CJSON_NUMBER {
        assert(close(f.valuedouble, t.valuedouble) == close(t.valuedouble, f.valuedouble));
    } else if ty == CJSON_STRING {
        crate::mergelaw::lemma_diff_zero(f.valuestring.unwrap(), t.valuestring.unwrap());
    }
}

/// Applying the patches generated from `f` to `t` to the tree `obj`, in
/// which `f` is the node at `path`, named by the pointer `q`: they succeed
/// and leave there (or, for a member replaced whole, at the end of its
/// object) a node that compares equal to `t` both ways and keeps `f`'s key.
#[verifier::spinoff_prover]
#[verifier::rlimit(80)]
proof fn lemma_pair(obj: JsonNode, path: Seq<int>, q: Seq<u8>, qp: Seq<u8>, f: JsonNode, t: JsonNode, close: spec_fn(u64, u64) -> bool) -> (res: (
    JsonNode,
    bool,
))
    requires
        forall|a: u64, b: u64| #[trigger] close(a, b) == close(b, a),
        located(obj, path, q),
        node_at(obj, path) == f,
        source_ok(f),
        goal_ok(t, close),
        dup_tree(t, 0, true) is Some,
        path.len() == 0 ==> q == Seq::<u8>::empty(),
        child_spot(obj, path, q, qp, f),
    ensures
        apply_all(obj, patch_list(q, f, t, true, close), true, close) == (put_back(obj, path, res.0, res.1), 0i32),
        res.1 ==> path.len() > 0 && type_byte(node_at(obj, path.drop_last()).type_) == CJSON_OBJECT,
        same_tree(res.0, t, true, close),
        same_tree(t, res.0, true, close),
        (path.len() > 0 && type_byte(node_at(obj, path.drop_last()).type_) == CJSON_OBJECT) ==> res.0.string == f.string,
    decreases node_count(f) + node_count(t), 2int, 0int,
{
    let ty = type_byte(f.type_);
    lemma_goal_comparable(t, close);
    crate::text::lemma_cstr_of_no_nul(q);
    crate::utils::lemma_set_at(obj, path, f, f);
    let replace = ty != type_byte(t.type_) || (ty == CJSON_NUMBER && (f.valueint != t.valueint || !close(f.valuedouble, t.valuedouble)))
        || (ty == CJSON_STRING && c_str_diff(text_of(f), text_of(t), false) != 0);
    if replace {
        let pn = patch_node(op_replace(), q, Some(t));
        assert(patch_path(q, None) == q);
        assert(patch_list(q, f, t, true, close) == seq![pn]);
        lemma_applied_copy(t, close);
        let ac = applied_copy(t);
        if path.len() == 0 {
            lemma_apply_replace_root(obj, t, close);
            lemma_apply_one(obj, pn, close);
            let x = JsonNode { string: None, ..ac };
            crate::mergelaw::lemma_same_tree_shell(ac, x, t, close);
            (x, false)
        } else {
            let pp = path.drop_last();
            let m = path.last();
            let par = node_at(obj, pp);
            assert(path =~= pp.push(m));
            lemma_valid_push_inv(obj, pp, m);
            if type_byte(par.type_) == CJSON_ARRAY {
                let tok = crate::float::dec_digits(m as nat);
                lemma_digits_plain(m as nat);
                lemma_apply_replace(obj, pp, qp, tok, m, t, close);
                lemma_apply_one(obj, pn, close);
                lemma_set_at_push(obj, pp, m, ac);
                (ac, false)
            } else {
                let key = key_of(f);
                let tok = encode_pointer(key);
                crate::manip::lemma_find_member_bounds(par.child, key, false, 0);
                lemma_pointer_token(key);
                lemma_apply_replace(obj, pp, qp, tok, m, t, close);
                lemma_apply_one(obj, pn, close);
                let x = keyed(ac, key, false);
                crate::mergelaw::lemma_same_tree_keyed(ac, key, false, t, close);
                assert(f.string == Some(key));
                (x, true)
            }
        }
    } else if ty == CJSON_ARRAY {
        assert(f.child.subrange(0, f.child.len() as int) =~= f.child);
        assert(t.child.subrange(0, t.child.len() as int) =~= t.child);
        assert(Seq::<JsonNode>::empty() + f.child.subrange(0, f.child.len() as int) =~= f.child);
        assert(with_kids(f, f.child) == f);
        assert(array_at(obj, path, q, f, Seq::empty(), 0));
        let ys = lemma_array_walk(obj, path, q, f, t, 0, 0, 0, Seq::empty(), close);
        let x = with_kids(f, ys);
        lemma_pairs_same(ys, t.child, close);
        assert forall|i: int| 0 <= i < t.child.len() implies same_tree(#[trigger] t.child[i], ys[i], true, close) by {}
        lemma_pairs_same(t.child, ys, close);
        (x, false)
    } else if ty == CJSON_OBJECT {
        let fl = sorted_spec(f.child, true);
        let gl = sorted_spec(t.child, true);
        lemma_walk_start(f, t, close);
        lemma_sorted_exact(t.child);
        lemma_fold_distinct_exact(f.child);
        lemma_sorted_exact(f.child);
        assert(walk_lists(f, t));
        assert(fl.subrange(0, fl.len() as int) =~= fl);
        assert(gl.subrange(0, gl.len() as int) =~= gl);
        assert(with_kids(f, f.child) == f);
        let k2 = lemma_object_walk(obj, path, q, f, t, 0, 0, f.child, close);
        (with_kids(f, k2), false)
    } else {
        assert(patch_list(q, f, t, true, close) == Seq::<JsonNode>::empty());
        lemma_same_scalars(f, t, close);
        (f, false)
    }
}

/// An array being patched: the node at `path` holds the done elements
/// `xs` followed by the elements of `f` from `i_f` on.
pub open spec fn array_at(obj: JsonNode, path: Seq<int>, q: Seq<u8>, f: JsonNode, xs: Seq<JsonNode>, i_f: int) -> bool {
    &&& located(obj, path, q)
    &&& node_at(obj, path) == with_kids(f, xs + f.child.subrange(i_f, f.child.len() as int))
}

#[verifier::spinoff_prover]
proof fn lemma_array_pair_prep(
    obj: JsonNode,
    path: Seq<int>,
    q: Seq<u8>,
    f: JsonNode,
    t: JsonNode,
    i: int,
    xs: Seq<JsonNode>,
    close: spec_fn(u64, u64) -> bool,
)
    requires
        array_at(obj, path, q, f, xs, i),
        type_byte(f.type_) == CJSON_ARRAY,
        type_byte(t.type_) == CJSON_ARRAY,
        source_ok(f),
        goal_ok(t, close),
        dup_tree(t, 0, true) is Some,
        xs.len() == i,
        0 <= i < f.child.len(),
        i < t.child.len(),
    ensures
        located(obj, path.push(i), q + seq![47u8] + crate::float::dec_digits(i as nat)),
        node_at(obj, path.push(i)) == f.child[i],
        child_spot(obj, path.push(i), q + seq![47u8] + crate::float::dec_digits(i as nat), q, f.child[i]),
        path.push(i).len() > 0,
        path.push(i).drop_last() == path,
        type_byte(node_at(obj, path).type_) == CJSON_ARRAY,
        source_ok(f.child[i]),
        goal_ok(t.child[i], close),
        dup_tree(t.child[i], 0, true) is Some,
        node_count(f.child[i]) + node_count(t.child[i]) < node_count(f) + node_count(t),
        array_patches(q, f.child.subrange(i, f.child.len() as int), t.child.subrange(i, t.child.len() as int), i as nat, true, close)
            == patch_list(q + seq![47u8] + crate::float::dec_digits(i as nat), f.child[i], t.child[i], true, close) + array_patches(
            q,
            f.child.subrange(i + 1, f.child.len() as int),
            t.child.subrange(i + 1, t.child.len() as int),
            (i + 1) as nat,
            true,
            close,
        ),
{
    let fs = f.child.subrange(i, f.child.len() as int);
    let ts = t.child.subrange(i, t.child.len() as int);
    let node = node_at(obj, path);
    let cur = xs + fs;
    assert(cur[i] == f.child[i]);
    assert(node.child == cur);
    let tok = crate::float::dec_digits(i as nat);
    lemma_digits_plain(i as nat);
    crate::text::lemma_cstr_of_no_nul(q);
    lemma_split_child_pointer(q, tok);
    lemma_pointer_push(obj, path, i);
    lemma_first_keys_push(obj, path, i, true);
    crate::utils::lemma_node_at_push(obj, path, i);
    assert(path.push(i).drop_last() =~= path);
    assert(path.push(i).last() == i);
    lemma_sources_at(f.child, i);
    lemma_goal_child(t, close, i);
    crate::manip::lemma_list_count(f.child, i);
    assert(fs[0] == f.child[i]);
    assert(ts[0] == t.child[i]);
    assert(fs.subrange(1, fs.len() as int) =~= f.child.subrange(i + 1, f.child.len() as int));
    assert(ts.subrange(1, ts.len() as int) =~= t.child.subrange(i + 1, t.child.len() as int));
}

proof fn lemma_array_pair_post(obj: JsonNode, path: Seq<int>, q: Seq<u8>, f: JsonNode, i: int, xs: Seq<JsonNode>, x: JsonNode)
    requires
        array_at(obj, path, q, f, xs, i),
        xs.len() == i,
        0 <= i < f.child.len(),
    ensures
        put_back(obj, path.push(i), x, false) == set_at(obj, path, with_kids(f, xs.push(x) + f.child.subrange(i + 1, f.child.len() as int))),
        array_at(set_at(obj, path, with_kids(f, xs.push(x) + f.child.subrange(i + 1, f.child.len() as int))), path, q, f, xs.push(x), i + 1),
{
    let node = node_at(obj, path);
    let cur = xs + f.child.subrange(i, f.child.len() as int);
    let cur1 = cur.update(i, x);
    assert(cur1 =~= xs.push(x) + f.child.subrange(i + 1, f.child.len() as int));
    lemma_set_at_push(obj, path, i, x);
    let node1 = with_kids(f, cur1);
    assert(with_kids(node, cur1) == node1);
    lemma_located_set(obj, path, q, node1);
}

#[verifier::spinoff_prover]
proof fn lemma_array_remove_step(
    obj: JsonNode,
    path: Seq<int>,
    q: Seq<u8>,
    f: JsonNode,
    i_f: int,
    xs: Seq<JsonNode>,
    index: int,
    close: spec_fn(u64, u64) -> bool,
)
    requires
        array_at(obj, path, q, f, xs, i_f),
        type_byte(f.type_) == CJSON_ARRAY,
        source_ok(f),
        0 <= i_f < f.child.len(),
        xs.len() == index,
        index <= i_f,
    ensures
        array_at(set_at(obj, path, with_kids(f, xs + f.child.subrange(i_f + 1, f.child.len() as int))), path, q, f, xs, i_f + 1),
        apply_all(obj, seq![patch_node(op_remove(), patch_path(q, Some(crate::float::dec_digits(index as nat))), None)], true, close)
            == (set_at(obj, path, with_kids(f, xs + f.child.subrange(i_f + 1, f.child.len() as int))), 0i32),
{
    let node = node_at(obj, path);
    let cur = xs + f.child.subrange(i_f, f.child.len() as int);
    assert(cur[index] == f.child[i_f]);
    let tok = crate::float::dec_digits(index as nat);
    lemma_digits_plain(index as nat);
    lemma_simple_token(tok);
    crate::text::lemma_cstr_of_no_nul(q);
    let pn = patch_node(op_remove(), patch_path(q, Some(tok)), None);
    assert(patch_path(q, Some(tok)) == q + seq![47u8] + tok);
    lemma_apply_remove(obj, path, q, tok, index, close);
    let cur1 = cur.remove(index);
    assert(cur1 =~= xs + f.child.subrange(i_f + 1, f.child.len() as int));
    let node1 = with_kids(f, cur1);
    assert(with_kids(node, cur1) == node1);
    lemma_located_set(obj, path, q, node1);
    lemma_apply_one(obj, pn, close);
}

#[verifier::spinoff_prover]
proof fn lemma_array_add_step(
    obj: JsonNode,
    path: Seq<int>,
    q: Seq<u8>,
    f: JsonNode,
    t: JsonNode,
    i_t: int,
    xs: Seq<JsonNode>,
    close: spec_fn(u64, u64) -> bool,
)
    requires
        array_at(obj, path, q, f, xs, f.child.len() as int),
        type_byte(f.type_) == CJSON_ARRAY,
        type_byte(t.type_) == CJSON_ARRAY,
        goal_ok(t, close),
        dup_tree(t, 0, true) is Some,
        0 <= i_t < t.child.len(),
    ensures
        array_at(set_at(obj, path, with_kids(f, xs.push(applied_copy(t.child[i_t])))), path, q, f, xs.push(applied_copy(t.child[i_t])), f.child.len() as int),
        apply_all(obj, seq![patch_node(op_add(), patch_path(q, Some(seq![45u8])), Some(t.child[i_t]))], true, close) == (
            set_at(obj, path, with_kids(f, xs.push(applied_copy(t.child[i_t])))),
            0i32,
        ),
        same_tree(applied_copy(t.child[i_t]), t.child[i_t], true, close),
        same_tree(t.child[i_t], applied_copy(t.child[i_t]), true, close),
{
    let node = node_at(obj, path);
    let tok = seq![45u8];
    assert(simple_key(tok));
    lemma_simple_token(tok);
    crate::text::lemma_cstr_of_no_nul(q);
    let y = t.child[i_t];
    lemma_goal_child(t, close, i_t);
    lemma_goal_comparable(y, close);
    lemma_applied_copy(y, close);
    let pn = patch_node(op_add(), patch_path(q, Some(tok)), Some(y));
    assert(patch_path(q, Some(tok)) == q + seq![47u8] + tok);
    lemma_apply_add(obj, path, q, tok, y, close);
    let ac = applied_copy(y);
    let cur = xs + f.child.subrange(f.child.len() as int, f.child.len() as int);
    assert(cur =~= xs);
    let cur1 = xs.push(ac);
    assert(cur1 =~= cur1 + f.child.subrange(f.child.len() as int, f.child.len() as int));
    let node1 = with_kids(f, cur1);
    assert(with_kids(node, cur.push(ac)) == node1);
    lemma_located_set(obj, path, q, node1);
    lemma_apply_one(obj, pn, close);
}

/// The walk over the elements of two arrays, from `f.child[i_f]` and
/// `t.child[i_t]` on: the first `i_t` elements already compare equal to
/// those of `t`.
#[verifier::spinoff_prover]
#[verifier::rlimit(60)]
proof fn lemma_array_walk(
    obj: JsonNode,
    path: Seq<int>,
    q: Seq<u8>,
    f: JsonNode,
    t: JsonNode,
    i_f: int,
    i_t: int,
    index: int,
    xs: Seq<JsonNode>,
    close: spec_fn(u64, u64) -> bool,
) -> (ys: Seq<JsonNode>)
    requires
        forall|a: u64, b: u64| #[trigger] close(a, b) == close(b, a),
        array_at(obj, path, q, f, xs, i_f),
        type_byte(f.type_) == CJSON_ARRAY,
        type_byte(t.type_) == CJSON_ARRAY,
        source_ok(f),
        goal_ok(t, close),
        dup_tree(t, 0, true) is Some,
        0 <= i_f <= f.child.len(),
        0 <= i_t <= t.child.len(),
        xs.len() == i_t,
        i_f == i_t || (i_t == t.child.len() && i_f > i_t) || i_f == f.child.len(),
        i_f < f.child.len() ==> index == i_t,
        forall|j: int| 0 <= j < i_t ==> same_tree(#[trigger] xs[j], t.child[j], true, close) && same_tree(t.child[j], xs[j], true, close),
    ensures
        ys.len() == t.child.len(),
        forall|j: int| 0 <= j < ys.len() ==> same_tree(#[trigger] ys[j], t.child[j], true, close) && same_tree(t.child[j], ys[j], true, close),
        apply_all(
            obj,
            array_patches(q, f.child.subrange(i_f, f.child.len() as int), t.child.subrange(i_t, t.child.len() as int), index as nat, true, close),
            true,
            close,
        ) == (set_at(obj, path, with_kids(f, ys)), 0i32),
    decreases node_count(f) + node_count(t), 1int, (f.child.len() - i_f) + (t.child.len() - i_t),
{
    let fs = f.child.subrange(i_f, f.child.len() as int);
    let ts = t.child.subrange(i_t, t.child.len() as int);
    crate::utils::lemma_set_at(obj, path, node_at(obj, path), node_at(obj, path));
    if fs.len() > 0 && ts.len() > 0 {
        let i = i_f;
        lemma_array_pair_prep(obj, path, q, f, t, i, xs, close);
        let qc = q + seq![47u8] + crate::float::dec_digits(i as nat);
        let (x, moved) = lemma_pair(obj, path.push(i), qc, q, f.child[i], t.child[i], close);
        lemma_array_pair_post(obj, path, q, f, i, xs, x);
        let xs1 = xs.push(x);
        let node1 = with_kids(f, xs1 + f.child.subrange(i + 1, f.child.len() as int));
        let obj1 = set_at(obj, path, node1);
        assert forall|j: int| 0 <= j < i_t + 1 implies same_tree(#[trigger] xs1[j], t.child[j], true, close) && same_tree(t.child[j], xs1[j], true, close) by {
            if j < i_t {
                assert(xs1[j] == xs[j]);
            }
        }
        let ys = lemma_array_walk(obj1, path, q, f, t, i + 1, i + 1, index + 1, xs1, close);
        let head = patch_list(qc, f.child[i], t.child[i], true, close);
        let rest = array_patches(q, f.child.subrange(i + 1, f.child.len() as int), t.child.subrange(i + 1, t.child.len() as int), (index + 1) as nat, true, close);
        lemma_apply_concat(obj, head, rest, close);
        crate::utils::lemma_set_at(obj, path, node1, with_kids(f, ys));
        ys
    } else if fs.len() > 0 {
        lemma_array_remove_step(obj, path, q, f, i_f, xs, index, close);
        let node1 = with_kids(f, xs + f.child.subrange(i_f + 1, f.child.len() as int));
        let obj1 = set_at(obj, path, node1);
        let ys = lemma_array_walk(obj1, path, q, f, t, i_f + 1, i_t, index, xs, close);
        let head = seq![patch_node(op_remove(), patch_path(q, Some(crate::float::dec_digits(index as nat))), None)];
        assert(fs.subrange(1, fs.len() as int) =~= f.child.subrange(i_f + 1, f.child.len() as int));
        let rest = array_patches(q, f.child.subrange(i_f + 1, f.child.len() as int), ts, index as nat, true, close);
        assert(array_patches(q, fs, ts, index as nat, true, close) == head + rest);
        lemma_apply_concat(obj, head, rest, close);
        crate::utils::lemma_set_at(obj, path, node1, with_kids(f, ys));
        ys
    } else if ts.len() > 0 {
        lemma_array_add_step(obj, path, q, f, t, i_t, xs, close);
        let ac = applied_copy(t.child[i_t]);
        let xs1 = xs.push(ac);
        let node1 = with_kids(f, xs1);
        let obj1 = set_at(obj, path, node1);
        assert forall|j: int| 0 <= j < i_t + 1 implies same_tree(#[trigger] xs1[j], t.child[j], true, close) && same_tree(t.child[j], xs1[j], true, close) by {
            if j < i_t {
                assert(xs1[j] == xs[j]);
            }
        }
        let ys = lemma_array_walk(obj1, path, q, f, t, i_f, i_t + 1, index, xs1, close);
        let head = seq![patch_node(op_add(), patch_path(q, Some(seq![45u8])), Some(t.child[i_t]))];
        assert(ts[0] == t.child[i_t]);
        assert(ts.subrange(1, ts.len() as int) =~= t.child.subrange(i_t + 1, t.child.len() as int));
        let rest = array_patches(q, fs, t.child.subrange(i_t + 1, t.child.len() as int), index as nat, true, close);
        assert(array_patches(q, fs, ts, index as nat, true, close) == head + rest);
        lemma_apply_concat(obj, head, rest, close);
        crate::utils::lemma_set_at(obj, path, node1, with_kids(f, ys));
        ys
    } else {
        assert(array_patches(q, fs, ts, index as nat, true, close) == Seq::<JsonNode>::empty());
        assert(xs + fs =~= xs);
        xs
    }
}

/// The facts about the two sorted member lists that every step uses.
pub open spec fn walk_lists(f: JsonNode, t: JsonNode) -> bool {
    &&& sorted_lists(sorted_spec(f.child, true), sorted_spec(t.child, true))
    &&& forall|p: int| 0 <= p < sorted_spec(f.child, true).len() ==> f.child.contains(#[trigger] sorted_spec(f.child, true)[p])
    &&& forall|p: int| 0 <= p < sorted_spec(t.child, true).len() ==> t.child.contains(#[trigger] sorted_spec(t.child, true)[p])
}

/// An object being patched, with members `k`.
pub open spec fn object_at(obj: JsonNode, path: Seq<int>, q: Seq<u8>, f: JsonNode, k: Seq<JsonNode>) -> bool {
    &&& located(obj, path, q)
    &&& node_at(obj, path) == with_kids(f, k)
}

#[verifier::spinoff_prover]
#[verifier::rlimit(40)]
proof fn lemma_object_pair_prep(
    obj: JsonNode,
    path: Seq<int>,
    q: Seq<u8>,
    f: JsonNode,
    t: JsonNode,
    k: Seq<JsonNode>,
    a: int,
    b: int,
    close: spec_fn(u64, u64) -> bool,
) -> (m0: int)
    requires
        object_at(obj, path, q, f, k),
        type_byte(f.type_) == CJSON_OBJECT,
        type_byte(t.type_) == CJSON_OBJECT,
        source_ok(f),
        goal_ok(t, close),
        dup_tree(t, 0, true) is Some,
        walk_lists(f, t),
        0 <= a < sorted_spec(f.child, true).len(),
        0 <= b < sorted_spec(t.child, true).len(),
        members_state(k, sorted_spec(f.child, true), sorted_spec(t.child, true), a, b, close),
        key_diff(sorted_spec(f.child, true)[a].string, sorted_spec(t.child, true)[b].string, true) == 0,
    ensures
        0 <= m0 < k.len(),
        k[m0] == sorted_spec(f.child, true)[a],
        key_of(sorted_spec(f.child, true)[a]) == key_of(sorted_spec(t.child, true)[b]),
        located(obj, path.push(m0), q + seq![47u8] + encode_pointer(key_of(sorted_spec(f.child, true)[a]))),
        node_at(obj, path.push(m0)) == sorted_spec(f.child, true)[a],
        child_spot(obj, path.push(m0), q + seq![47u8] + encode_pointer(key_of(sorted_spec(f.child, true)[a])), q, sorted_spec(f.child, true)[a]),
        path.push(m0).len() > 0,
        path.push(m0).drop_last() == path,
        path.push(m0).last() == m0,
        type_byte(node_at(obj, path).type_) == CJSON_OBJECT,
        source_ok(sorted_spec(f.child, true)[a]),
        goal_ok(sorted_spec(t.child, true)[b], close),
        dup_tree(sorted_spec(t.child, true)[b], 0, true) is Some,
        node_count(sorted_spec(f.child, true)[a]) + node_count(sorted_spec(t.child, true)[b]) < node_count(f) + node_count(t),
        object_patches(
            q,
            sorted_spec(f.child, true).subrange(a, sorted_spec(f.child, true).len() as int),
            sorted_spec(t.child, true).subrange(b, sorted_spec(t.child, true).len() as int),
            true,
            close,
        ) == patch_list(q + seq![47u8] + encode_pointer(key_of(sorted_spec(f.child, true)[a])), sorted_spec(f.child, true)[a], sorted_spec(t.child, true)[b], true, close)
            + object_patches(
            q,
            sorted_spec(f.child, true).subrange(a + 1, sorted_spec(f.child, true).len() as int),
            sorted_spec(t.child, true).subrange(b + 1, sorted_spec(t.child, true).len() as int),
            true,
            close,
        ),
{
    let fl = sorted_spec(f.child, true);
    let gl = sorted_spec(t.child, true);
    let fs = fl.subrange(a, fl.len() as int);
    let gs = gl.subrange(b, gl.len() as int);
    let node = node_at(obj, path);
    let x0 = fl[a];
    let y0 = gl[b];
    let key = key_of(x0);
    assert(x0.string == Some(key));
    assert(y0.string == Some(key_of(y0)));
    lemma_pointer_token(key);
    lemma_plain_diff(key, key_of(y0));
    let m0 = lemma_member_spot(k, fl, gl, a, b, close);
    crate::text::lemma_cstr_of_no_nul(q);
    lemma_split_child_pointer(q, encode_pointer(key));
    lemma_pointer_push(obj, path, m0);
    assert(node.child == k);
    assert(token_for(node, m0) == encode_pointer(key));
    lemma_first_keys_push(obj, path, m0, true);
    crate::utils::lemma_node_at_push(obj, path, m0);
    assert(path.push(m0).drop_last() =~= path);
    assert(path.push(m0).last() == m0);
    assert(f.child.contains(x0));
    let i0 = choose|i0: int| 0 <= i0 < f.child.len() && f.child[i0] == x0;
    lemma_sources_at(f.child, i0);
    crate::manip::lemma_list_count(f.child, i0);
    assert(t.child.contains(y0));
    let j0 = choose|j0: int| 0 <= j0 < t.child.len() && t.child[j0] == y0;
    lemma_goal_child(t, close, j0);
    assert(fs[0] == x0);
    assert(gs[0] == y0);
    assert(fs.subrange(1, fs.len() as int) =~= fl.subrange(a + 1, fl.len() as int));
    assert(gs.subrange(1, gs.len() as int) =~= gl.subrange(b + 1, gl.len() as int));
    assert(cstr(q) + seq![47u8] + encode_pointer(cstr(key)) == q + seq![47u8] + encode_pointer(key));
    m0
}

#[verifier::spinoff_prover]
proof fn lemma_object_pair_post(
    obj: JsonNode,
    path: Seq<int>,
    q: Seq<u8>,
    f: JsonNode,
    t: JsonNode,
    k: Seq<JsonNode>,
    a: int,
    b: int,
    m0: int,
    x: JsonNode,
    moved: bool,
    close: spec_fn(u64, u64) -> bool,
)
    requires
        object_at(obj, path, q, f, k),
        walk_lists(f, t),
        0 <= a < sorted_spec(f.child, true).len(),
        0 <= b < sorted_spec(t.child, true).len(),
        members_state(k, sorted_spec(f.child, true), sorted_spec(t.child, true), a, b, close),
        0 <= m0 < k.len(),
        k[m0] == sorted_spec(f.child, true)[a],
        key_of(sorted_spec(f.child, true)[a]) == key_of(sorted_spec(t.child, true)[b]),
        x.string == sorted_spec(f.child, true)[a].string,
        same_tree(x, sorted_spec(t.child, true)[b], true, close),
        same_tree(sorted_spec(t.child, true)[b], x, true, close),
    ensures
        put_back(obj, path.push(m0), x, moved) == set_at(
            obj,
            path,
            with_kids(f, if moved { k.remove(m0).push(x) } else { k.update(m0, x) }),
        ),
        object_at(
            set_at(obj, path, with_kids(f, if moved { k.remove(m0).push(x) } else { k.update(m0, x) })),
            path,
            q,
            f,
            if moved { k.remove(m0).push(x) } else { k.update(m0, x) },
        ),
        members_state(
            if moved { k.remove(m0).push(x) } else { k.update(m0, x) },
            sorted_spec(f.child, true),
            sorted_spec(t.child, true),
            a + 1,
            b + 1,
            close,
        ),
{
    let fl = sorted_spec(f.child, true);
    let gl = sorted_spec(t.child, true);
    let node = node_at(obj, path);
    let k1 = if moved { k.remove(m0).push(x) } else { k.update(m0, x) };
    let node1 = with_kids(f, k1);
    assert(path.push(m0).drop_last() =~= path);
    assert(path.push(m0).last() == m0);
    if !moved {
        lemma_set_at_push(obj, path, m0, x);
    }
    assert(with_kids(node, k1) == node1);
    lemma_after_pair(k, fl, gl, a, b, close, m0, x, moved);
    lemma_located_set(obj, path, q, node1);
}

#[verifier::spinoff_prover]
#[verifier::rlimit(40)]
proof fn lemma_object_remove_step(
    obj: JsonNode,
    path: Seq<int>,
    q: Seq<u8>,
    f: JsonNode,
    t: JsonNode,
    k: Seq<JsonNode>,
    a: int,
    b: int,
    close: spec_fn(u64, u64) -> bool,
) -> (k1: Seq<JsonNode>)
    requires
        object_at(obj, path, q, f, k),
        type_byte(f.type_) == CJSON_OBJECT,
        walk_lists(f, t),
        0 <= a < sorted_spec(f.child, true).len(),
        0 <= b <= sorted_spec(t.child, true).len(),
        members_state(k, sorted_spec(f.child, true), sorted_spec(t.child, true), a, b, close),
    ensures
        object_at(set_at(obj, path, with_kids(f, k1)), path, q, f, k1),
        members_state(k1, sorted_spec(f.child, true), sorted_spec(t.child, true), a + 1, b, close),
        apply_all(obj, seq![patch_node(op_remove(), patch_path(q, sorted_spec(f.child, true)[a].string), None)], true, close) == (
            set_at(obj, path, with_kids(f, k1)),
            0i32,
        ),
{
    let fl = sorted_spec(f.child, true);
    let gl = sorted_spec(t.child, true);
    let node = node_at(obj, path);
    let x0 = fl[a];
    let key = key_of(x0);
    assert(x0.string == Some(key));
    lemma_pointer_token(key);
    crate::text::lemma_cstr_of_no_nul(q);
    let m0 = lemma_member_spot(k, fl, gl, a, b, close);
    let pn = patch_node(op_remove(), patch_path(q, x0.string), None);
    assert(patch_path(q, x0.string) == q + seq![47u8] + encode_pointer(key));
    assert(node.child == k);
    lemma_apply_remove(obj, path, q, encode_pointer(key), m0, close);
    let k1 = k.remove(m0);
    let node1 = with_kids(f, k1);
    assert(with_kids(node, k1) == node1);
    lemma_after_remove(k, fl, gl, a, b, close, m0);
    lemma_located_set(obj, path, q, node1);
    lemma_apply_one(obj, pn, close);
    k1
}

#[verifier::spinoff_prover]
#[verifier::rlimit(40)]
proof fn lemma_object_add_step(
    obj: JsonNode,
    path: Seq<int>,
    q: Seq<u8>,
    f: JsonNode,
    t: JsonNode,
    k: Seq<JsonNode>,
    a: int,
    b: int,
    close: spec_fn(u64, u64) -> bool,
) -> (k1: Seq<JsonNode>)
    requires
        object_at(obj, path, q, f, k),
        type_byte(f.type_) == CJSON_OBJECT,
        type_byte(t.type_) == CJSON_OBJECT,
        goal_ok(t, close),
        dup_tree(t, 0, true) is Some,
        walk_lists(f, t),
        0 <= a <= sorted_spec(f.child, true).len(),
        0 <= b < sorted_spec(t.child, true).len(),
        members_state(k, sorted_spec(f.child, true), sorted_spec(t.child, true), a, b, close),
        a < sorted_spec(f.child, true).len() ==> c_str_diff(
            key_of(sorted_spec(f.child, true)[a]),
            key_of(sorted_spec(t.child, true)[b]),
            false,
        ) > 0,
    ensures
        object_at(set_at(obj, path, with_kids(f, k1)), path, q, f, k1),
        members_state(k1, sorted_spec(f.child, true), sorted_spec(t.child, true), a, b + 1, close),
        apply_all(
            obj,
            seq![patch_node(op_add(), patch_path(q, sorted_spec(t.child, true)[b].string), Some(sorted_spec(t.child, true)[b]))],
            true,
            close,
        ) == (set_at(obj, path, with_kids(f, k1)), 0i32),
{
    let fl = sorted_spec(f.child, true);
    let gl = sorted_spec(t.child, true);
    let node = node_at(obj, path);
    let y0 = gl[b];
    let key = key_of(y0);
    assert(y0.string == Some(key));
    lemma_pointer_token(key);
    crate::text::lemma_cstr_of_no_nul(q);
    lemma_fresh_key(k, fl, gl, a, b, close);
    assert(t.child.contains(y0));
    let j0 = choose|j0: int| 0 <= j0 < t.child.len() && t.child[j0] == y0;
    lemma_goal_child(t, close, j0);
    lemma_goal_comparable(y0, close);
    lemma_applied_copy(y0, close);
    let pn = patch_node(op_add(), patch_path(q, y0.string), Some(y0));
    assert(patch_path(q, y0.string) == q + seq![47u8] + encode_pointer(key));
    assert(node.child == k);
    lemma_apply_add(obj, path, q, encode_pointer(key), y0, close);
    let ac = applied_copy(y0);
    let x = keyed(ac, key, false);
    crate::mergelaw::lemma_same_tree_keyed(ac, key, false, y0, close);
    assert(key_of(x) == key);
    lemma_after_push(k, fl, gl, a, b, close, x);
    let k1 = k.push(x);
    let node1 = with_kids(f, k1);
    assert(with_kids(node, k1) == node1);
    lemma_located_set(obj, path, q, node1);
    lemma_apply_one(obj, pn, close);
    k1
}

/// The walk over the sorted members of two objects, from `fl[a]` and
/// `gl[b]` on, with the object's members `k` as they stand.
#[verifier::spinoff_prover]
#[verifier::rlimit(60)]
proof fn lemma_object_walk(
    obj: JsonNode,
    path: Seq<int>,
    q: Seq<u8>,
    f: JsonNode,
    t: JsonNode,
    a: int,
    b: int,
    k: Seq<JsonNode>,
    close: spec_fn(u64, u64) -> bool,
) -> (k2: Seq<JsonNode>)
    requires
        forall|x: u64, y: u64| #[trigger] close(x, y) == close(y, x),
        object_at(obj, path, q, f, k),
        type_byte(f.type_) == CJSON_OBJECT,
        type_byte(t.type_) == CJSON_OBJECT,
        source_ok(f),
        goal_ok(t, close),
        dup_tree(t, 0, true) is Some,
        walk_lists(f, t),
        0 <= a <= sorted_spec(f.child, true).len(),
        0 <= b <= sorted_spec(t.child, true).len(),
        members_state(k, sorted_spec(f.child, true), sorted_spec(t.child, true), a, b, close),
    ensures
        apply_all(
            obj,
            object_patches(
                q,
                sorted_spec(f.child, true).subrange(a, sorted_spec(f.child, true).len() as int),
                sorted_spec(t.child, true).subrange(b, sorted_spec(t.child, true).len() as int),
                true,
                close,
            ),
            true,
            close,
        ) == (set_at(obj, path, with_kids(f, k2)), 0i32),
        same_tree(with_kids(f, k2), t, true, close),
        same_tree(t, with_kids(f, k2), true, close),
    decreases node_count(f) + node_count(t), 1int, (sorted_spec(f.child, true).len() - a) + (sorted_spec(t.child, true).len() - b),
{
    let fl = sorted_spec(f.child, true);
    let gl = sorted_spec(t.child, true);
    let fs = fl.subrange(a, fl.len() as int);
    let gs = gl.subrange(b, gl.len() as int);
    crate::utils::lemma_set_at(obj, path, node_at(obj, path), node_at(obj, path));
    if fs.len() == 0 && gs.len() == 0 {
        assert(object_patches(q, fs, gs, true, close) == Seq::<JsonNode>::empty());
        lemma_walk_end(f, t, k, close);
        k
    } else {
        let diff = if fs.len() == 0 {
            1
        } else if gs.len() == 0 {
            -1
        } else {
            key_diff(fs[0].string, gs[0].string, true)
        };
        if fs.len() > 0 {
            assert(fs[0] == fl[a]);
            assert(fs.subrange(1, fs.len() as int) =~= fl.subrange(a + 1, fl.len() as int));
        }
        if gs.len() > 0 {
            assert(gs[0] == gl[b]);
            assert(gs.subrange(1, gs.len() as int) =~= gl.subrange(b + 1, gl.len() as int));
        }
        if diff == 0 {
            let m0 = lemma_object_pair_prep(obj, path, q, f, t, k, a, b, close);
            let qc = q + seq![47u8] + encode_pointer(key_of(fl[a]));
            let (x, moved) = lemma_pair(obj, path.push(m0), qc, q, fl[a], gl[b], close);
            lemma_object_pair_post(obj, path, q, f, t, k, a, b, m0, x, moved, close);
            let k1 = if moved { k.remove(m0).push(x) } else { k.update(m0, x) };
            let node1 = with_kids(f, k1);
            let obj1 = set_at(obj, path, node1);
            let k2 = lemma_object_walk(obj1, path, q, f, t, a + 1, b + 1, k1, close);
            let head = patch_list(qc, fl[a], gl[b], true, close);
            let rest = object_patches(q, fl.subrange(a + 1, fl.len() as int), gl.subrange(b + 1, gl.len() as int), true, close);
            lemma_apply_concat(obj, head, rest, close);
            crate::utils::lemma_set_at(obj, path, node1, with_kids(f, k2));
            k2
        } else if diff < 0 {
            let k1 = lemma_object_remove_step(obj, path, q, f, t, k, a, b, close);
            let node1 = with_kids(f, k1);
            let obj1 = set_at(obj, path, node1);
            let k2 = lemma_object_walk(obj1, path, q, f, t, a + 1, b, k1, close);
            let head = seq![patch_node(op_remove(), patch_path(q, fl[a].string), None)];
            let rest = object_patches(q, fl.subrange(a + 1, fl.len() as int), gs, true, close);
            assert(object_patches(q, fs, gs, true, close) == head + rest);
            lemma_apply_concat(obj, head, rest, close);
            crate::utils::lemma_set_at(obj, path, node1, with_kids(f, k2));
            k2
        } else {
            let k1 = lemma_object_add_step(obj, path, q, f, t, k, a, b, close);
            let node1 = with_kids(f, k1);
            let obj1 = set_at(obj, path, node1);
            let k2 = lemma_object_walk(obj1, path, q, f, t, a, b + 1, k1, close);
            let head = seq![patch_node(op_add(), patch_path(q, gl[b].string), Some(gl[b]))];
            let rest = object_patches(q, fs, gl.subrange(b + 1, gl.len() as int), true, close);
            assert(object_patches(q, fs, gs, true, close) == head + rest);
            lemma_apply_concat(obj, head, rest, close);
            crate::utils::lemma_set_at(obj, path, node1, with_kids(f, k2));
            k2
        }
    }
}

// ---------------------------------------------------------------------------
// The law.
// ---------------------------------------------------------------------------

/// Applying the patches that `cjson_utils_generate_patches_case_sensitive`
/// generates from `from` to `to` to `from`, as it stood before generating
/// them, with
/// `cjson_utils_apply_patches_case_sensitive` succeeds, and the result
/// compares equal to `to` both ways (keys compared exactly), when the keys
/// of `from`'s objects differ up to ASCII case, those of `to`'s objects
/// differ, and a pointer names every key (`pointer_key`: no NUL, and the
/// in-place decoding of its escaped token gives it back).
pub proof fn law_generated_patches_apply(from: JsonNode, to: JsonNode, close: spec_fn(u64, u64) -> bool)
    requires
        forall|a: u64, b: u64| #[trigger] close(a, b) == close(b, a),
        source_ok(from),
        goal_ok(to, close),
        dup_tree(to, 0, true) is Some,
    ensures
        apply_all(from, patch_list(Seq::empty(), from, to, true, close), true, close).1 == 0,
        same_tree(apply_all(from, patch_list(Seq::empty(), from, to, true, close), true, close).0, to, true, close),
        same_tree(to, apply_all(from, patch_list(Seq::empty(), from, to, true, close), true, close).0, true, close),
{
    let root = Seq::<int>::empty();
    let q = Seq::<u8>::empty();
    assert(no_nul(q));
    assert(located(from, root, q));
    assert(node_at(from, root) == from);
    let (x, moved) = lemma_pair(from, root, q, q, from, to, close);
    assert(put_back(from, root, x, moved) == x);
}

// ---------------------------------------------------------------------------
// The documents as generating the patches leaves them.
// ---------------------------------------------------------------------------

proof fn lemma_sources_all(s: Seq<JsonNode>)
    ensures
        sources_ok(s) <==> forall|i: int| 0 <= i < s.len() ==> source_ok(#[trigger] s[i]),
    decreases s.len(),
{
    if s.len() > 0 {
        let r = s.subrange(1, s.len() as int);
        lemma_sources_all(r);
        if forall|i: int| 0 <= i < s.len() ==> source_ok(#[trigger] s[i]) {
            assert forall|i: int| 0 <= i < r.len() implies source_ok(#[trigger] r[i]) by {
                assert(r[i] == s[i + 1]);
            }
        }
        if sources_ok(s) {
            assert forall|i: int| 0 <= i < s.len() implies source_ok(#[trigger] s[i]) by {
                if i > 0 {
                    assert(s[i] == r[i - 1]);
                }
            }
        }
    }
}

proof fn lemma_goals_all(s: Seq<JsonNode>, close: spec_fn(u64, u64) -> bool)
    ensures
        goals_ok(s, close) <==> forall|i: int| 0 <= i < s.len() ==> goal_ok(#[trigger] s[i], close),
    decreases s.len(),
{
    if s.len() > 0 {
        let r = s.subrange(1, s.len() as int);
        lemma_goals_all(r, close);
        if forall|i: int| 0 <= i < s.len() ==> goal_ok(#[trigger] s[i], close) {
            assert forall|i: int| 0 <= i < r.len() implies goal_ok(#[trigger] r[i], close) by {
                assert(r[i] == s[i + 1]);
            }
        }
        if goals_ok(s, close) {
            assert forall|i: int| 0 <= i < s.len() implies goal_ok(#[trigger] s[i], close) by {
                if i > 0 {
                    assert(s[i] == r[i - 1]);
                }
            }
        }
    }
}

proof fn lemma_dups_all(s: Seq<JsonNode>, d: int)
    ensures
        (dup_list(s, d) is Some) <==> forall|i: int| 0 <= i < s.len() ==> (dup_tree(#[trigger] s[i], d, true) is Some),
    decreases s.len(),
{
    if s.len() > 0 {
        let r = s.subrange(1, s.len() as int);
        lemma_dups_all(r, d);
        if forall|i: int| 0 <= i < s.len() ==> (dup_tree(#[trigger] s[i], d, true) is Some) {
            assert forall|i: int| 0 <= i < r.len() implies (dup_tree(#[trigger] r[i], d, true) is Some) by {
                assert(r[i] == s[i + 1]);
            }
        }
        if dup_list(s, d) is Some {
            assert forall|i: int| 0 <= i < s.len() implies (dup_tree(#[trigger] s[i], d, true) is Some) by {
                if i > 0 {
                    assert(s[i] == r[i - 1]);
                }
            }
        }
    }
}

/// A rearrangement of members keeps their keys named by pointers and apart, and each
/// member of one list is a member of the other.
proof fn lemma_perm_member_keys(s: Seq<JsonNode>, t: Seq<JsonNode>, fold: bool)
    requires
        t.to_multiset() == s.to_multiset(),
        member_keys(s, fold),
    ensures
        member_keys(t, fold),
        forall|p: int| 0 <= p < t.len() ==> s.contains(#[trigger] t[p]),
        forall|i: int| 0 <= i < s.len() ==> t.contains(#[trigger] s[i]),
{
    assert forall|p: int| 0 <= p < t.len() implies s.contains(#[trigger] t[p]) by {
        vstd::seq_lib::to_multiset_contains(t, t[p]);
        vstd::seq_lib::to_multiset_contains(s, t[p]);
        assert(t.contains(t[p]));
    }
    assert forall|i: int| 0 <= i < s.len() implies t.contains(#[trigger] s[i]) by {
        vstd::seq_lib::to_multiset_contains(t, s[i]);
        vstd::seq_lib::to_multiset_contains(s, s[i]);
        assert(s.contains(s[i]));
    }
    assert forall|p: int| 0 <= p < t.len() implies (#[trigger] t[p]).string is Some && pointer_key(key_of(t[p])) by {
        let i = choose|i: int| 0 <= i < s.len() && s[i] == t[p];
        assert((s[i]).string is Some && pointer_key(key_of(s[i])));
    }
    assert forall|p: int, q: int| 0 <= p < t.len() && 0 <= q < t.len() && p != q implies c_str_diff(
        key_of(#[trigger] t[p]),
        key_of(#[trigger] t[q]),
        fold,
    ) != 0 by {
        let i = choose|i: int| 0 <= i < s.len() && s[i] == t[p];
        let j = choose|j: int| 0 <= j < s.len() && s[j] == t[q];
        if t[p] == t[q] {
            crate::mergelaw::lemma_count_two(t, p, q);
            crate::mergelaw::lemma_two_positions(s, t[p]);
            let (i2, j2) = choose|i2: int, j2: int| 0 <= i2 < s.len() && 0 <= j2 < s.len() && i2 != j2 && s[i2] == t[p] && s[j2] == t[p];
            assert(c_str_diff(key_of(s[i2]), key_of(s[j2]), fold) != 0);
            crate::mergelaw::lemma_diff_zero(key_of(t[p]), key_of(t[p]));
        } else {
            assert(i != j);
            assert(c_str_diff(key_of(s[i]), key_of(s[j]), fold) != 0);
        }
    }
}

/// Sorting members with keys named by pointers that differ (up to ASCII case when
/// `fold`) gives a rearrangement with the same property whose keys strictly
/// ascend by exact comparison.
proof fn lemma_sorted_ascending(s: Seq<JsonNode>, fold: bool)
    requires
        member_keys(s, fold),
    ensures
        ascending(sorted_spec(s, true), true),
        member_keys(sorted_spec(s, true), fold),
        sorted_spec(s, true).len() == s.len(),
        forall|p: int| 0 <= p < sorted_spec(s, true).len() ==> s.contains(#[trigger] sorted_spec(s, true)[p]),
{
    let t = sorted_spec(s, true);
    assert(all_keyed(s)) by {
        assert forall|i: int| 0 <= i < s.len() implies (#[trigger] s[i]).string is Some by {
        }
    }
    law_sort_orders_keys(s, true);
    crate::utils::lemma_sorted_perm(s, true);
    lemma_perm_member_keys(s, t, fold);
    assert forall|i: int| 0 <= i < t.len() - 1 implies #[trigger] key_diff(t[i].string, t[i + 1].string, true) < 0 by {
        assert(key_diff(t[i].string, t[i + 1].string, true) <= 0);
        assert(t[i].string is Some && t[i + 1].string is Some);
        assert(c_str_diff(key_of(t[i]), key_of(t[i + 1]), fold) != 0);
        crate::mergelaw::lemma_diff_zero(key_of(t[i]), key_of(t[i + 1]));
    }
}

/// Reaching a pair keeps the keys and types of both, and the number of
/// members of each list.
proof fn lemma_diffed_keys(f: JsonNode, t: JsonNode)
    ensures
        diffed(f, t, true).0.string == f.string,
        diffed(f, t, true).1.string == t.string,
        diffed(f, t, true).0.type_ == f.type_,
        diffed(f, t, true).1.type_ == t.type_,
{
}

proof fn lemma_dm_keys(fs: Seq<JsonNode>, ts: Seq<JsonNode>)
    ensures
        diffed_members(fs, ts, true).0.len() == fs.len(),
        diffed_members(fs, ts, true).1.len() == ts.len(),
        forall|i: int| 0 <= i < fs.len() ==> (#[trigger] diffed_members(fs, ts, true).0[i]).string == fs[i].string
            && diffed_members(fs, ts, true).0[i].type_ == fs[i].type_,
        forall|j: int| 0 <= j < ts.len() ==> (#[trigger] diffed_members(fs, ts, true).1[j]).string == ts[j].string
            && diffed_members(fs, ts, true).1[j].type_ == ts[j].type_,
    decreases fs.len() + ts.len(),
{
    let x = diffed_members(fs, ts, true).0;
    let y = diffed_members(fs, ts, true).1;
    if fs.len() > 0 && ts.len() > 0 {
        let fs1 = fs.subrange(1, fs.len() as int);
        let ts1 = ts.subrange(1, ts.len() as int);
        let diff = key_diff(fs[0].string, ts[0].string, true);
        if diff == 0 {
            lemma_diffed_keys(fs[0], ts[0]);
            lemma_dm_keys(fs1, ts1);
            let (rx, ry) = diffed_members(fs1, ts1, true);
            assert(x == seq![diffed(fs[0], ts[0], true).0] + rx);
            assert(y == seq![diffed(fs[0], ts[0], true).1] + ry);
            assert forall|i: int| 0 < i < fs.len() implies x[i] == rx[i - 1] && fs[i] == fs1[i - 1] by {
            }
            assert forall|j: int| 0 < j < ts.len() implies y[j] == ry[j - 1] && ts[j] == ts1[j - 1] by {
            }
        } else if diff < 0 {
            lemma_dm_keys(fs1, ts);
            let (rx, ry) = diffed_members(fs1, ts, true);
            assert(x == seq![fs[0]] + rx);
            assert forall|i: int| 0 < i < fs.len() implies x[i] == rx[i - 1] && fs[i] == fs1[i - 1] by {
            }
        } else {
            lemma_dm_keys(fs, ts1);
            let (rx, ry) = diffed_members(fs, ts1, true);
            assert(y == seq![ts[0]] + ry);
            assert forall|j: int| 0 < j < ts.len() implies y[j] == ry[j - 1] && ts[j] == ts1[j - 1] by {
            }
        }
    }
}

/// Reaching the pairs of two documents that meet the conditions of the law
/// leaves two documents that meet them, with the same keys and types.
pub open spec fn diffed_ok(f: JsonNode, t: JsonNode, close: spec_fn(u64, u64) -> bool, d: int) -> bool {
    let r = diffed(f, t, true);
    &&& source_ok(r.0)
    &&& goal_ok(r.1, close)
    &&& dup_tree(r.1, d, true) is Some
}

proof fn lemma_diffed_ok(f: JsonNode, t: JsonNode, close: spec_fn(u64, u64) -> bool, d: int)
    requires
        source_ok(f),
        goal_ok(t, close),
        dup_tree(t, d, true) is Some,
    ensures
        diffed_ok(f, t, close, d),
    decreases node_count(f) + node_count(t), 1int,
{
    let ty = type_byte(f.type_);
    if ty == type_byte(t.type_) && ty == CJSON_ARRAY {
        let (x, y) = diffed_items(f.child, t.child, true);
        lemma_sources_all(f.child);
        lemma_goals_all(t.child, close);
        if t.child.len() > 0 {
            lemma_dups_all(t.child, d + 1);
        }
        lemma_di_ok(f.child, t.child, close, d + 1);
        lemma_sources_all(x);
        lemma_goals_all(y, close);
        if y.len() > 0 {
            lemma_dups_all(y, d + 1);
        }
    } else if ty == type_byte(t.type_) && ty == CJSON_OBJECT {
        lemma_count_sorted(f.child, true);
        lemma_count_sorted(t.child, true);
        let sf = sorted_spec(f.child, true);
        let st = sorted_spec(t.child, true);
        let (x, y) = diffed_members(sf, st, true);
        lemma_sorted_ascending(f.child, true);
        lemma_sorted_ascending(t.child, false);
        lemma_sources_all(f.child);
        lemma_goals_all(t.child, close);
        if t.child.len() > 0 {
            lemma_dups_all(t.child, d + 1);
        }
        assert forall|i: int| 0 <= i < sf.len() implies source_ok(#[trigger] sf[i]) by {
            assert(f.child.contains(sf[i]));
        }
        assert forall|j: int| 0 <= j < st.len() implies goal_ok(#[trigger] st[j], close) && (dup_tree(st[j], d + 1, true) is Some) by {
            assert(t.child.contains(st[j]));
        }
        lemma_dm_ok(sf, st, close, d + 1);
        lemma_dm_keys(sf, st);
        lemma_sources_all(x);
        lemma_goals_all(y, close);
        if y.len() > 0 {
            lemma_dups_all(y, d + 1);
        }
        assert(member_keys(x, true)) by {
            assert forall|i: int| 0 <= i < x.len() implies (#[trigger] x[i]).string is Some && pointer_key(key_of(x[i])) by {
                assert(x[i].string == sf[i].string);
            }
            assert forall|i: int, j: int| 0 <= i < x.len() && 0 <= j < x.len() && i != j implies c_str_diff(
                key_of(#[trigger] x[i]),
                key_of(#[trigger] x[j]),
                true,
            ) != 0 by {
                assert(x[i].string == sf[i].string);
                assert(x[j].string == sf[j].string);
            }
        }
        assert(member_keys(y, false)) by {
            assert forall|i: int| 0 <= i < y.len() implies (#[trigger] y[i]).string is Some && pointer_key(key_of(y[i])) by {
                assert(y[i].string == st[i].string);
            }
            assert forall|i: int, j: int| 0 <= i < y.len() && 0 <= j < y.len() && i != j implies c_str_diff(
                key_of(#[trigger] y[i]),
                key_of(#[trigger] y[j]),
                false,
            ) != 0 by {
                assert(y[i].string == st[i].string);
                assert(y[j].string == st[j].string);
            }
        }
    }
}

proof fn lemma_di_ok(fs: Seq<JsonNode>, ts: Seq<JsonNode>, close: spec_fn(u64, u64) -> bool, d: int)
    requires
        forall|i: int| 0 <= i < fs.len() ==> source_ok(#[trigger] fs[i]),
        forall|j: int| 0 <= j < ts.len() ==> goal_ok(#[trigger] ts[j], close) && (dup_tree(ts[j], d, true) is Some),
    ensures
        diffed_items(fs, ts, true).0.len() == fs.len(),
        diffed_items(fs, ts, true).1.len() == ts.len(),
        forall|i: int| 0 <= i < fs.len() ==> source_ok(#[trigger] diffed_items(fs, ts, true).0[i]),
        forall|j: int| 0 <= j < ts.len() ==> goal_ok(#[trigger] diffed_items(fs, ts, true).1[j], close) && (dup_tree(
            diffed_items(fs, ts, true).1[j],
            d,
            true,
        ) is Some),
    decreases list_count(fs) + list_count(ts), 2int,
{
    let x = diffed_items(fs, ts, true).0;
    let y = diffed_items(fs, ts, true).1;
    if fs.len() > 0 && ts.len() > 0 {
        let fs1 = fs.subrange(1, fs.len() as int);
        let ts1 = ts.subrange(1, ts.len() as int);
        assert(list_count(fs) == node_count(fs[0]) + list_count(fs1));
        assert(list_count(ts) == node_count(ts[0]) + list_count(ts1));
        assert(node_count(fs[0]) >= 1);
        assert(node_count(ts[0]) >= 1);
        lemma_diffed_ok(fs[0], ts[0], close, d);
        assert forall|i: int| 0 <= i < fs1.len() implies source_ok(#[trigger] fs1[i]) by {
            assert(fs1[i] == fs[i + 1]);
        }
        assert forall|j: int| 0 <= j < ts1.len() implies goal_ok(#[trigger] ts1[j], close) && (dup_tree(ts1[j], d, true) is Some) by {
            assert(ts1[j] == ts[j + 1]);
        }
        lemma_di_ok(fs1, ts1, close, d);
        let (rx, ry) = diffed_items(fs1, ts1, true);
        assert(x == seq![diffed(fs[0], ts[0], true).0] + rx);
        assert(y == seq![diffed(fs[0], ts[0], true).1] + ry);
        assert forall|i: int| 0 <= i < fs.len() implies source_ok(#[trigger] x[i]) by {
            if i > 0 {
                assert(x[i] == rx[i - 1]);
            }
        }
        assert forall|j: int| 0 <= j < ts.len() implies goal_ok(#[trigger] y[j], close) && (dup_tree(y[j], d, true) is Some) by {
            if j > 0 {
                assert(y[j] == ry[j - 1]);
            }
        }
    }
}

proof fn lemma_dm_ok(fs: Seq<JsonNode>, ts: Seq<JsonNode>, close: spec_fn(u64, u64) -> bool, d: int)
    requires
        forall|i: int| 0 <= i < fs.len() ==> source_ok(#[trigger] fs[i]),
        forall|j: int| 0 <= j < ts.len() ==> goal_ok(#[trigger] ts[j], close) && (dup_tree(ts[j], d, true) is Some),
    ensures
        forall|i: int| 0 <= i < fs.len() ==> source_ok(#[trigger] diffed_members(fs, ts, true).0[i]),
        forall|j: int| 0 <= j < ts.len() ==> goal_ok(#[trigger] diffed_members(fs, ts, true).1[j], close) && (dup_tree(
            diffed_members(fs, ts, true).1[j],
            d,
            true,
        ) is Some),
    decreases list_count(fs) + list_count(ts), 2int,
{
    let x = diffed_members(fs, ts, true).0;
    let y = diffed_members(fs, ts, true).1;
    if fs.len() > 0 && ts.len() > 0 {
        let fs1 = fs.subrange(1, fs.len() as int);
        let ts1 = ts.subrange(1, ts.len() as int);
        assert(list_count(fs) == node_count(fs[0]) + list_count(fs1));
        assert(list_count(ts) == node_count(ts[0]) + list_count(ts1));
        assert(node_count(fs[0]) >= 1);
        assert(node_count(ts[0]) >= 1);
        assert forall|i: int| 0 <= i < fs1.len() implies source_ok(#[trigger] fs1[i]) by {
            assert(fs1[i] == fs[i + 1]);
        }
        assert forall|j: int| 0 <= j < ts1.len() implies goal_ok(#[trigger] ts1[j], close) && (dup_tree(ts1[j], d, true) is Some) by {
            assert(ts1[j] == ts[j + 1]);
        }
        let diff = key_diff(fs[0].string, ts[0].string, true);
        if diff == 0 {
            lemma_diffed_ok(fs[0], ts[0], close, d);
            lemma_dm_ok(fs1, ts1, close, d);
            lemma_dm_keys(fs1, ts1);
            let (rx, ry) = diffed_members(fs1, ts1, true);
            assert(x == seq![diffed(fs[0], ts[0], true).0] + rx);
            assert(y == seq![diffed(fs[0], ts[0], true).1] + ry);
            assert forall|i: int| 0 <= i < fs.len() implies source_ok(#[trigger] x[i]) by {
                if i > 0 {
                    assert(x[i] == rx[i - 1]);
                }
            }
            assert forall|j: int| 0 <= j < ts.len() implies goal_ok(#[trigger] y[j], close) && (dup_tree(y[j], d, true) is Some) by {
                if j > 0 {
                    assert(y[j] == ry[j - 1]);
                }
            }
        } else if diff < 0 {
            lemma_dm_ok(fs1, ts, close, d);
            lemma_dm_keys(fs1, ts);
            let (rx, ry) = diffed_members(fs1, ts, true);
            assert(x == seq![fs[0]] + rx);
            assert(y == ry);
            assert forall|i: int| 0 <= i < fs.len() implies source_ok(#[trigger] x[i]) by {
                if i > 0 {
                    assert(x[i] == rx[i - 1]);
                }
            }
        } else {
            lemma_dm_ok(fs, ts1, close, d);
            lemma_dm_keys(fs, ts1);
            let (rx, ry) = diffed_members(fs, ts1, true);
            assert(x == rx);
            assert(y == seq![ts[0]] + ry);
            assert forall|j: int| 0 <= j < ts.len() implies goal_ok(#[trigger] y[j], close) && (dup_tree(y[j], d, true) is Some) by {
                if j > 0 {
                    assert(y[j] == ry[j - 1]);
                }
            }
        }
    }
}

/// Generating the patches between the two documents as generating them
/// leaves them gives the same patches.
proof fn lemma_patch_list_diffed(path: Seq<u8>, f: JsonNode, t: JsonNode, close: spec_fn(u64, u64) -> bool)
    requires
        source_ok(f),
        goal_ok(t, close),
    ensures
        patch_list(path, diffed(f, t, true).0, diffed(f, t, true).1, true, close) == patch_list(path, f, t, true, close),
    decreases node_count(f) + node_count(t), 1int,
{
    let ty = type_byte(f.type_);
    if ty == type_byte(t.type_) && ty == CJSON_ARRAY {
        lemma_sources_all(f.child);
        lemma_goals_all(t.child, close);
        lemma_ap_diffed(path, f.child, t.child, 0, close);
    } else if ty == type_byte(t.type_) && ty == CJSON_OBJECT {
        lemma_count_sorted(f.child, true);
        lemma_count_sorted(t.child, true);
        let sf = sorted_spec(f.child, true);
        let st = sorted_spec(t.child, true);
        let (x, y) = diffed_members(sf, st, true);
        lemma_sorted_ascending(f.child, true);
        lemma_sorted_ascending(t.child, false);
        lemma_dm_keys(sf, st);
        lemma_sources_all(f.child);
        lemma_goals_all(t.child, close);
        assert forall|i: int| 0 <= i < sf.len() implies source_ok(#[trigger] sf[i]) by {
            assert(f.child.contains(sf[i]));
        }
        assert forall|j: int| 0 <= j < st.len() implies goal_ok(#[trigger] st[j], close) by {
            assert(t.child.contains(st[j]));
        }
        assert(ascending(x, true)) by {
            assert forall|i: int| 0 <= i < x.len() - 1 implies #[trigger] key_diff(x[i].string, x[i + 1].string, true) < 0 by {
                assert(x[i + 1].string == sf[i + 1].string);
                assert(key_diff(sf[i].string, sf[i + 1].string, true) < 0);
            }
        }
        assert(ascending(y, true)) by {
            assert forall|i: int| 0 <= i < y.len() - 1 implies #[trigger] key_diff(y[i].string, y[i + 1].string, true) < 0 by {
                assert(y[i + 1].string == st[i + 1].string);
                assert(key_diff(st[i].string, st[i + 1].string, true) < 0);
            }
        }
        assert(sorted_spec(x, true) == x);
        assert(sorted_spec(y, true) == y);
        lemma_op_diffed(path, sf, st, close);
    }
}

proof fn lemma_ap_diffed(path: Seq<u8>, fs: Seq<JsonNode>, ts: Seq<JsonNode>, index: nat, close: spec_fn(u64, u64) -> bool)
    requires
        forall|i: int| 0 <= i < fs.len() ==> source_ok(#[trigger] fs[i]),
        forall|j: int| 0 <= j < ts.len() ==> goal_ok(#[trigger] ts[j], close),
    ensures
        array_patches(path, diffed_items(fs, ts, true).0, diffed_items(fs, ts, true).1, index, true, close) == array_patches(
            path,
            fs,
            ts,
            index,
            true,
            close,
        ),
    decreases list_count(fs) + list_count(ts), 2int,
{
    if fs.len() > 0 && ts.len() > 0 {
        let fs1 = fs.subrange(1, fs.len() as int);
        let ts1 = ts.subrange(1, ts.len() as int);
        assert(list_count(fs) == node_count(fs[0]) + list_count(fs1));
        assert(list_count(ts) == node_count(ts[0]) + list_count(ts1));
        assert(node_count(fs[0]) >= 1);
        assert(node_count(ts[0]) >= 1);
        assert forall|i: int| 0 <= i < fs1.len() implies source_ok(#[trigger] fs1[i]) by {
            assert(fs1[i] == fs[i + 1]);
        }
        assert forall|j: int| 0 <= j < ts1.len() implies goal_ok(#[trigger] ts1[j], close) by {
            assert(ts1[j] == ts[j + 1]);
        }
        let p = cstr(path) + seq![47u8] + crate::float::dec_digits(index);
        lemma_patch_list_diffed(p, fs[0], ts[0], close);
        lemma_ap_diffed(path, fs1, ts1, index + 1, close);
        let d = diffed(fs[0], ts[0], true);
        let (rx, ry) = diffed_items(fs1, ts1, true);
        let x = seq![d.0] + rx;
        let y = seq![d.1] + ry;
        assert(diffed_items(fs, ts, true) == (x, y));
        assert(x.subrange(1, x.len() as int) =~= rx);
        assert(y.subrange(1, y.len() as int) =~= ry);
        assert(x[0] == d.0);
        assert(y[0] == d.1);
    }
}

proof fn lemma_op_diffed(path: Seq<u8>, fs: Seq<JsonNode>, ts: Seq<JsonNode>, close: spec_fn(u64, u64) -> bool)
    requires
        forall|i: int| 0 <= i < fs.len() ==> source_ok(#[trigger] fs[i]),
        forall|j: int| 0 <= j < ts.len() ==> goal_ok(#[trigger] ts[j], close),
    ensures
        object_patches(path, diffed_members(fs, ts, true).0, diffed_members(fs, ts, true).1, true, close) == object_patches(
            path,
            fs,
            ts,
            true,
            close,
        ),
    decreases list_count(fs) + list_count(ts), 2int,
{
    if fs.len() > 0 && ts.len() > 0 {
        let fs1 = fs.subrange(1, fs.len() as int);
        let ts1 = ts.subrange(1, ts.len() as int);
        assert(list_count(fs) == node_count(fs[0]) + list_count(fs1));
        assert(list_count(ts) == node_count(ts[0]) + list_count(ts1));
        assert(node_count(fs[0]) >= 1);
        assert(node_count(ts[0]) >= 1);
        assert forall|i: int| 0 <= i < fs1.len() implies source_ok(#[trigger] fs1[i]) by {
            assert(fs1[i] == fs[i + 1]);
        }
        assert forall|j: int| 0 <= j < ts1.len() implies goal_ok(#[trigger] ts1[j], close) by {
            assert(ts1[j] == ts[j + 1]);
        }
        let diff = key_diff(fs[0].string, ts[0].string, true);
        if diff == 0 {
            let key = match fs[0].string {
                Some(k) => k,
                None => Seq::empty(),
            };
            let p = cstr(path) + seq![47u8] + encode_pointer(cstr(key));
            lemma_patch_list_diffed(p, fs[0], ts[0], close);
            lemma_op_diffed(path, fs1, ts1, close);
            lemma_diffed_keys(fs[0], ts[0]);
            let d = diffed(fs[0], ts[0], true);
            let (rx, ry) = diffed_members(fs1, ts1, true);
            let x = seq![d.0] + rx;
            let y = seq![d.1] + ry;
            assert(diffed_members(fs, ts, true) == (x, y));
            assert(x.subrange(1, x.len() as int) =~= rx);
            assert(y.subrange(1, y.len() as int) =~= ry);
            assert(x[0] == d.0);
            assert(y[0] == d.1);
        } else if diff < 0 {
            lemma_op_diffed(path, fs1, ts, close);
            lemma_dm_keys(fs1, ts);
            let (rx, ry) = diffed_members(fs1, ts, true);
            let x = seq![fs[0]] + rx;
            assert(diffed_members(fs, ts, true) == (x, ry));
            assert(x.subrange(1, x.len() as int) =~= rx);
            assert(x[0] == fs[0]);
            assert(ry[0].string == ts[0].string);
        } else {
            lemma_op_diffed(path, fs, ts1, close);
            lemma_dm_keys(fs, ts1);
            let (rx, ry) = diffed_members(fs, ts1, true);
            let y = seq![ts[0]] + ry;
            assert(diffed_members(fs, ts, true) == (rx, y));
            assert(y.subrange(1, y.len() as int) =~= ry);
            assert(y[0] == ts[0]);
            assert(rx[0].string == fs[0].string);
        }
    }
}

/// Applying the patches that `cjson_utils_generate_patches_case_sensitive`
/// generates from `from` to `to` to `from` as generating them leaves it
/// (the members of the objects it reaches sorted), with
/// `cjson_utils_apply_patches_case_sensitive`, succeeds, and the result
/// compares equal both ways to `to` as generating them leaves it; for the
/// same trees as `law_generated_patches_apply`.
pub proof fn law_generated_patches_apply_in_place(from: JsonNode, to: JsonNode, close: spec_fn(u64, u64) -> bool)
    requires
        forall|a: u64, b: u64| #[trigger] close(a, b) == close(b, a),
        source_ok(from),
        goal_ok(to, close),
        dup_tree(to, 0, true) is Some,
    ensures
        ({
            let d = diffed(from, to, true);
            let r = apply_all(d.0, patch_list(Seq::empty(), from, to, true, close), true, close);
            &&& r.1 == 0
            &&& same_tree(r.0, d.1, true, close)
            &&& same_tree(d.1, r.0, true, close)
        }),
{
    let d = diffed(from, to, true);
    lemma_diffed_ok(from, to, close, 0);
    lemma_patch_list_diffed(Seq::empty(), from, to, close);
    law_generated_patches_apply(d.0, d.1, close);
}

} // verus!
