//! JSON Pointer (RFC 6901) lookup and discovery, JSON Patch (RFC 6902)
//! application and generation, JSON Merge Patch (RFC 7396) application and
//! generation, and sorting an object's members by key.

use vstd::prelude::*;
use crate::model::{
    CJson, JsonNode, type_byte, views, lemma_view_child, lemma_views_push, lemma_views_ops, CJSON_NUMBER,
    CJSON_STRING, CJSON_ARRAY, CJSON_OBJECT, CJSON_NULL,
};
use crate::text::{c_str_diff, str_compare, cstr, byte_at};
use crate::manip::{get_object_item, cjson_detach_item_from_object, cjson_detach_item_from_object_case_sensitive, text_node, node_count, list_count, lemma_list_count, copy_all, with_kids, find_member, lemma_find_member_bounds, object_item_index, keyed, dup_tree, cjson_duplicate, holder_node, add_item_to_object};
use crate::model::{node_of_type, opt_view, empty_node};
use crate::print::{closer_ok, closer_fn, lemma_closer};

verus! {

// ---------------------------------------------------------------------------
// Ordering members by key.
// ---------------------------------------------------------------------------

/// How two keys compare: as C strings (ASCII case folded unless `cs`); an
/// absent key compares as greater than anything.
pub open spec fn key_diff(a: Option<Seq<u8>>, b: Option<Seq<u8>>, cs: bool) -> int {
    match (a, b) {
        (Some(x), Some(y)) => c_str_diff(x, y, !cs),
        _ => 1,
    }
}

/// Compares two optional keys: 1 when either is absent, else their C
/// string difference.
pub fn compare_strings(string1: &Option<Vec<u8>>, string2: &Option<Vec<u8>>, case_sensitive: bool) -> (r: i32)
    ensures
        r == key_diff(crate::model::opt_view(*string1), crate::model::opt_view(*string2), case_sensitive),
{
    match (string1, string2) {
        (Some(a), Some(b)) => str_compare(a.as_slice(), b.as_slice(), !case_sensitive),
        _ => 1,
    }
}

/// Each member's key is below the next one's.
pub open spec fn ascending(s: Seq<JsonNode>, cs: bool) -> bool {
    forall|i: int| 0 <= i < s.len() - 1 ==> #[trigger] key_diff(s[i].string, s[i + 1].string, cs) < 0
}

/// Merges two member lists, taking from `a` while its key is below the
/// head of `b`.
pub open spec fn merge_spec(a: Seq<JsonNode>, b: Seq<JsonNode>, cs: bool) -> Seq<JsonNode>
    decreases a.len() + b.len(),
{
    if a.len() == 0 {
        b
    } else if b.len() == 0 {
        a
    } else if key_diff(a[0].string, b[0].string, cs) < 0 {
        seq![a[0]] + merge_spec(a.drop_first(), b, cs)
    } else {
        seq![b[0]] + merge_spec(a, b.drop_first(), cs)
    }
}

/// The members sorted by key with a merge sort: a list already in
/// ascending order is kept; any other is split after its first half
/// (rounded up), both halves sorted, and the results merged.
pub open spec fn sorted_spec(s: Seq<JsonNode>, cs: bool) -> Seq<JsonNode>
    decreases s.len(),
{
    if s.len() <= 1 || ascending(s, cs) {
        s
    } else {
        let mid = (s.len() + 1) / 2;
        merge_spec(sorted_spec(s.take(mid as int), cs), sorted_spec(s.skip(mid as int), cs), cs)
    }
}

pub proof fn lemma_merge_perm(a: Seq<JsonNode>, b: Seq<JsonNode>, cs: bool)
    ensures
        merge_spec(a, b, cs).to_multiset() == a.to_multiset().add(b.to_multiset()),
        merge_spec(a, b, cs).len() == a.len() + b.len(),
    decreases a.len() + b.len(),
{
    vstd::seq_lib::lemma_multiset_commutative(a, b);
    if a.len() == 0 {
        assert(a + b =~= b);
    } else if b.len() == 0 {
        assert(a + b =~= a);
    } else if key_diff(a[0].string, b[0].string, cs) < 0 {
        lemma_merge_perm(a.drop_first(), b, cs);
        vstd::seq_lib::lemma_multiset_commutative(seq![a[0]], merge_spec(a.drop_first(), b, cs));
        vstd::seq_lib::lemma_multiset_commutative(seq![a[0]], a.drop_first());
        assert(seq![a[0]] + a.drop_first() =~= a);
        assert(a.to_multiset().add(b.to_multiset()) =~= seq![a[0]].to_multiset().add(a.drop_first().to_multiset()).add(b.to_multiset()));
    } else {
        lemma_merge_perm(a, b.drop_first(), cs);
        vstd::seq_lib::lemma_multiset_commutative(seq![b[0]], merge_spec(a, b.drop_first(), cs));
        vstd::seq_lib::lemma_multiset_commutative(seq![b[0]], b.drop_first());
        assert(seq![b[0]] + b.drop_first() =~= b);
        assert(a.to_multiset().add(b.to_multiset()) =~= seq![b[0]].to_multiset().add(a.to_multiset()).add(b.drop_first().to_multiset()));
    }
}

/// Sorting keeps exactly the members it was given.
pub proof fn lemma_sorted_perm(s: Seq<JsonNode>, cs: bool)
    ensures
        sorted_spec(s, cs).to_multiset() == s.to_multiset(),
        sorted_spec(s, cs).len() == s.len(),
    decreases s.len(),
{
    if !(s.len() <= 1 || ascending(s, cs)) {
        let mid = (s.len() + 1) / 2;
        lemma_sorted_perm(s.take(mid as int), cs);
        lemma_sorted_perm(s.skip(mid as int), cs);
        lemma_merge_perm(sorted_spec(s.take(mid as int), cs), sorted_spec(s.skip(mid as int), cs), cs);
        vstd::seq_lib::lemma_multiset_commutative(s.take(mid as int), s.skip(mid as int));
        assert(s.take(mid as int) + s.skip(mid as int) =~= s);
    }
}

/// Every member has a key.
pub open spec fn all_keyed(s: Seq<JsonNode>) -> bool {
    forall|i: int| 0 <= i < s.len() ==> (#[trigger] s[i]).string is Some
}

/// Each member's key compares at most equal to the next one's.
pub open spec fn key_ordered(s: Seq<JsonNode>, cs: bool) -> bool {
    forall|i: int| 0 <= i < s.len() - 1 ==> #[trigger] key_diff(s[i].string, s[i + 1].string, cs) <= 0
}

/// Comparing the other way round negates the difference.
pub proof fn lemma_str_diff_swap(a: Seq<u8>, b: Seq<u8>, i: nat, fold: bool)
    ensures
        crate::text::str_diff_from(a, b, i, fold) == -crate::text::str_diff_from(b, a, i, fold),
    decreases a.len() - i,
{
    let ca = byte_at(a, i as int);
    let cb = byte_at(b, i as int);
    let x = if fold { crate::text::lower(ca) } else { ca };
    let y = if fold { crate::text::lower(cb) } else { cb };
    if x == y && !(ca == 0 || i >= a.len()) {
        assert(cb != 0);
        lemma_str_diff_swap(a, b, i + 1, fold);
    } else if x == y {
        assert(ca == 0);
        assert(cb == 0);
    }
}

proof fn lemma_merge_keyed(a: Seq<JsonNode>, b: Seq<JsonNode>, cs: bool)
    requires
        all_keyed(a),
        all_keyed(b),
    ensures
        all_keyed(merge_spec(a, b, cs)),
    decreases a.len() + b.len(),
{
    let m = merge_spec(a, b, cs);
    if a.len() > 0 && b.len() > 0 {
        if key_diff(a[0].string, b[0].string, cs) < 0 {
            lemma_merge_keyed(a.drop_first(), b, cs);
            let r = merge_spec(a.drop_first(), b, cs);
            assert forall|i: int| 0 <= i < m.len() implies (#[trigger] m[i]).string is Some by {
                if i > 0 {
                    assert(m[i] == r[i - 1]);
                }
            }
        } else {
            lemma_merge_keyed(a, b.drop_first(), cs);
            let r = merge_spec(a, b.drop_first(), cs);
            assert forall|i: int| 0 <= i < m.len() implies (#[trigger] m[i]).string is Some by {
                if i > 0 {
                    assert(m[i] == r[i - 1]);
                }
            }
        }
    }
}

pub proof fn lemma_sorted_keyed(s: Seq<JsonNode>, cs: bool)
    requires
        all_keyed(s),
    ensures
        all_keyed(sorted_spec(s, cs)),
    decreases s.len(),
{
    if !(s.len() <= 1 || ascending(s, cs)) {
        let mid = (s.len() + 1) / 2;
        assert(all_keyed(s.take(mid as int)));
        assert(all_keyed(s.skip(mid as int))) by {
            assert forall|i: int| 0 <= i < s.skip(mid as int).len() implies (#[trigger] s.skip(mid as int)[i]).string is Some by {
                assert(s.skip(mid as int)[i] == s[i + mid]);
            }
        }
        lemma_sorted_keyed(s.take(mid as int), cs);
        lemma_sorted_keyed(s.skip(mid as int), cs);
        lemma_merge_keyed(sorted_spec(s.take(mid as int), cs), sorted_spec(s.skip(mid as int), cs), cs);
    }
}

proof fn lemma_merge_ordered(a: Seq<JsonNode>, b: Seq<JsonNode>, cs: bool)
    requires
        all_keyed(a),
        all_keyed(b),
        key_ordered(a, cs),
        key_ordered(b, cs),
    ensures
        key_ordered(merge_spec(a, b, cs), cs),
        merge_spec(a, b, cs).len() > 0 ==> (a.len() > 0 && merge_spec(a, b, cs)[0] == a[0]) || (b.len() > 0 && merge_spec(a, b, cs)[0] == b[0]),
    decreases a.len() + b.len(),
{
    let m = merge_spec(a, b, cs);
    if a.len() > 0 && b.len() > 0 {
        if key_diff(a[0].string, b[0].string, cs) < 0 {
            let a1 = a.drop_first();
            assert(key_ordered(a1, cs)) by {
                assert forall|i: int| 0 <= i < a1.len() - 1 implies #[trigger] key_diff(a1[i].string, a1[i + 1].string, cs) <= 0 by {
                    assert(a1[i] == a[i + 1] && a1[i + 1] == a[i + 2]);
                    assert(key_diff(a[i + 1].string, a[i + 2].string, cs) <= 0);
                }
            }
            assert(all_keyed(a1)) by {
                assert forall|i: int| 0 <= i < a1.len() implies (#[trigger] a1[i]).string is Some by {
                    assert(a1[i] == a[i + 1]);
                }
            }
            lemma_merge_ordered(a1, b, cs);
            let r = merge_spec(a1, b, cs);
            assert(m == seq![a[0]] + r);
            assert forall|i: int| 0 <= i < m.len() - 1 implies #[trigger] key_diff(m[i].string, m[i + 1].string, cs) <= 0 by {
                if i > 0 {
                    let j = i - 1;
                    assert(m[i] == r[j] && m[i + 1] == r[j + 1]);
                    assert(key_diff(r[j].string, r[j + 1].string, cs) <= 0);
                } else {
                    assert(m[1] == r[0]);
                    if a1.len() > 0 && r[0] == a1[0] {
                        assert(a1[0] == a[1]);
                        assert(key_diff(a[0].string, a[1].string, cs) <= 0);
                    } else {
                        assert(r[0] == b[0]);
                    }
                }
            }
        } else {
            let b1 = b.drop_first();
            assert(key_ordered(b1, cs)) by {
                assert forall|i: int| 0 <= i < b1.len() - 1 implies #[trigger] key_diff(b1[i].string, b1[i + 1].string, cs) <= 0 by {
                    assert(b1[i] == b[i + 1] && b1[i + 1] == b[i + 2]);
                    assert(key_diff(b[i + 1].string, b[i + 2].string, cs) <= 0);
                }
            }
            assert(all_keyed(b1)) by {
                assert forall|i: int| 0 <= i < b1.len() implies (#[trigger] b1[i]).string is Some by {
                    assert(b1[i] == b[i + 1]);
                }
            }
            lemma_merge_ordered(a, b1, cs);
            let r = merge_spec(a, b1, cs);
            assert(m == seq![b[0]] + r);
            assert(a[0].string is Some && b[0].string is Some);
            lemma_str_diff_swap(a[0].string.unwrap(), b[0].string.unwrap(), 0, !cs);
            assert(key_diff(b[0].string, a[0].string, cs) <= 0);
            assert forall|i: int| 0 <= i < m.len() - 1 implies #[trigger] key_diff(m[i].string, m[i + 1].string, cs) <= 0 by {
                if i > 0 {
                    let j = i - 1;
                    assert(m[i] == r[j] && m[i + 1] == r[j + 1]);
                    assert(key_diff(r[j].string, r[j + 1].string, cs) <= 0);
                } else {
                    assert(m[1] == r[0]);
                    if b1.len() > 0 && r[0] == b1[0] {
                        assert(b1[0] == b[1]);
                        assert(key_diff(b[0].string, b[1].string, cs) <= 0);
                    } else {
                        assert(r[0] == a[0]);
                    }
                }
            }
        }
    }
}

/// Sorting an object whose members all have keys puts them in order: each
/// key compares at most equal to the next (ASCII case folded unless `cs`),
/// and no member is lost or added.
pub proof fn law_sort_orders_keys(s: Seq<JsonNode>, cs: bool)
    requires
        all_keyed(s),
    ensures
        key_ordered(sorted_spec(s, cs), cs),
        sorted_spec(s, cs).to_multiset() == s.to_multiset(),
    decreases s.len(),
{
    lemma_sorted_perm(s, cs);
    if !(s.len() <= 1 || ascending(s, cs)) {
        let mid = (s.len() + 1) / 2;
        assert(all_keyed(s.take(mid as int)));
        assert(all_keyed(s.skip(mid as int))) by {
            assert forall|i: int| 0 <= i < s.skip(mid as int).len() implies (#[trigger] s.skip(mid as int)[i]).string is Some by {
                assert(s.skip(mid as int)[i] == s[i + mid]);
            }
        }
        law_sort_orders_keys(s.take(mid as int), cs);
        law_sort_orders_keys(s.skip(mid as int), cs);
        lemma_sorted_keyed(s.take(mid as int), cs);
        lemma_sorted_keyed(s.skip(mid as int), cs);
        lemma_merge_ordered(sorted_spec(s.take(mid as int), cs), sorted_spec(s.skip(mid as int), cs), cs);
    } else if ascending(s, cs) {
        assert forall|i: int| 0 <= i < s.len() - 1 implies #[trigger] key_diff(s[i].string, s[i + 1].string, cs) <= 0 by {
            assert(key_diff(s[i].string, s[i + 1].string, cs) < 0);
        }
    }
}

/// Sorting leaves a list whose keys already ascend unchanged; and sorting a
/// list whose keys all differ gives a list that sorting again leaves
/// unchanged.
pub proof fn law_sort_idempotent(s: Seq<JsonNode>, cs: bool)
    requires
        all_keyed(s),
        forall|i: int, j: int|
            0 <= i < s.len() && 0 <= j < s.len() && i != j ==> key_diff((#[trigger] s[i]).string, (#[trigger] s[j]).string, cs) != 0,
    ensures
        ascending(s, cs) ==> sorted_spec(s, cs) == s,
        sorted_spec(sorted_spec(s, cs), cs) == sorted_spec(s, cs),
{
    let t = sorted_spec(s, cs);
    law_sort_orders_keys(s, cs);
    lemma_sorted_perm(s, cs);
    assert forall|p: int, q: int| 0 <= p < t.len() && 0 <= q < t.len() && p != q implies key_diff(
        (#[trigger] t[p]).string,
        (#[trigger] t[q]).string,
        cs,
    ) != 0 by {
        vstd::seq_lib::to_multiset_contains(t, t[p]);
        vstd::seq_lib::to_multiset_contains(s, t[p]);
        vstd::seq_lib::to_multiset_contains(t, t[q]);
        vstd::seq_lib::to_multiset_contains(s, t[q]);
        assert(t.contains(t[p]));
        assert(t.contains(t[q]));
        let i = choose|i: int| 0 <= i < s.len() && s[i] == t[p];
        let j = choose|j: int| 0 <= j < s.len() && s[j] == t[q];
        if t[p] == t[q] {
            crate::mergelaw::lemma_count_two(t, p, q);
            crate::mergelaw::lemma_two_positions(s, t[p]);
            let (i2, j2) = choose|i2: int, j2: int| 0 <= i2 < s.len() && 0 <= j2 < s.len() && i2 != j2 && s[i2] == t[p] && s[j2] == t[p];
            assert(key_diff(s[i2].string, s[j2].string, cs) != 0);
            assert(s[i2].string is Some);
            lemma_str_diff_self(s[i2].string.unwrap(), 0, !cs);
        } else {
            assert(i != j);
        }
    }
    assert forall|i: int| 0 <= i < t.len() - 1 implies #[trigger] key_diff(t[i].string, t[i + 1].string, cs) < 0 by {
        assert(key_diff(t[i].string, t[i + 1].string, cs) <= 0);
        assert(key_diff(t[i].string, t[i + 1].string, cs) != 0);
    }
    assert(ascending(t, cs));
}

/// Merges two sorted member lists.
fn merge_lists(a: Vec<CJson>, b: Vec<CJson>, case_sensitive: bool) -> (r: Vec<CJson>)
    ensures
        views(r@) == merge_spec(views(a@), views(b@), case_sensitive),
{
    let mut a = a;
    let mut b = b;
    let mut out: Vec<CJson> = Vec::new();
    let ghost total = merge_spec(views(a@), views(b@), case_sensitive);
    proof {
        assert(Seq::<JsonNode>::empty() + total =~= total);
    }
    while a.len() > 0 && b.len() > 0
        invariant
            total == views(out@) + merge_spec(views(a@), views(b@), case_sensitive),
        decreases a@.len() + b@.len(),
    {
        let ghost va = views(a@);
        let ghost vb = views(b@);
        let d = compare_strings(&a[0].string, &b[0].string, case_sensitive);
        assert(va[0] == a@[0]@ && vb[0] == b@[0]@);
        if d < 0 {
            proof {
                lemma_views_ops(a@, 0, a@[0]);
            }
            let x = a.remove(0);
            let ghost before = out@;
            out.push(x);
            proof {
                lemma_views_push(before, x);
                assert(va.remove(0) =~= va.drop_first());
                assert(views(before) + merge_spec(va, vb, case_sensitive) =~= views(out@) + merge_spec(
                    views(a@),
                    views(b@),
                    case_sensitive,
                ));
            }
        } else {
            proof {
                lemma_views_ops(b@, 0, b@[0]);
            }
            let x = b.remove(0);
            let ghost before = out@;
            out.push(x);
            proof {
                lemma_views_push(before, x);
                assert(vb.remove(0) =~= vb.drop_first());
                assert(views(before) + merge_spec(va, vb, case_sensitive) =~= views(out@) + merge_spec(
                    views(a@),
                    views(b@),
                    case_sensitive,
                ));
            }
        }
    }
    let ghost before = views(out@);
    out.append(&mut a);
    let ghost mid = views(out@);
    out.append(&mut b);
    proof {
        assert(views(out@) =~= total);
    }
    out
}

/// Whether each member's key is below the next one's.
fn is_ascending(list: &Vec<CJson>, case_sensitive: bool) -> (r: bool)
    ensures
        r == ascending(views(list@), case_sensitive),
{
    let n = list.len();
    if n == 0 {
        return true;
    }
    let mut i: usize = 0;
    while i + 1 < n
        invariant
            i + 1 <= n,
            n == list@.len(),
            forall|j: int| 0 <= j < i ==> #[trigger] key_diff(views(list@)[j].string, views(list@)[j + 1].string, case_sensitive) < 0,
        decreases n - i,
    {
        assert(views(list@)[i as int] == list@[i as int]@);
        assert(views(list@)[i + 1] == list@[i + 1]@);
        if compare_strings(&list[i].string, &list[i + 1].string, case_sensitive) >= 0 {
            assert(key_diff(views(list@)[i as int].string, views(list@)[i + 1].string, case_sensitive) >= 0);
            return false;
        }
        i += 1;
    }
    true
}

/// Sorts members by key with a merge sort (see `sorted_spec`).
pub fn sort_list(list: Vec<CJson>, case_sensitive: bool) -> (r: Vec<CJson>)
    ensures
        views(r@) == sorted_spec(views(list@), case_sensitive),
    decreases list@.len(),
{
    if list.len() <= 1 || is_ascending(&list, case_sensitive) {
        return list;
    }
    let mut first = list;
    let mid = first.len() - first.len() / 2;
    let ghost whole = views(first@);
    let second = first.split_off(mid);
    proof {
        assert(views(first@) =~= whole.take(mid as int));
        assert(views(second@) =~= whole.skip(mid as int));
    }
    let a = sort_list(first, case_sensitive);
    let b = sort_list(second, case_sensitive);
    merge_lists(a, b, case_sensitive)
}

/// `object` with its members sorted by key.
pub open spec fn sorted_node(n: JsonNode, cs: bool) -> JsonNode {
    with_kids(n, sorted_spec(n.child, cs))
}

/// Sorts the members of `object` by key.
pub fn sort_object(object: &mut CJson, case_sensitive: bool)
    ensures
        final(object)@ == sorted_node(old(object)@, case_sensitive),
{
    proof {
        lemma_view_child(*object);
    }
    let mut kids: Vec<CJson> = Vec::new();
    std::mem::swap(&mut kids, &mut object.child);
    object.child = sort_list(kids, case_sensitive);
    proof {
        lemma_view_child(*object);
        assert(object@ =~= sorted_node(old(object)@, case_sensitive));
    }
}

/// Sorts the members of `object` by key, up to ASCII case.
pub fn cjson_utils_sort_object(object: &mut CJson)
    ensures
        final(object)@ == sorted_node(old(object)@, false),
{
    sort_object(object, false)
}

/// Sorts the members of `object` by key.
pub fn cjson_utils_sort_object_case_sensitive(object: &mut CJson)
    ensures
        final(object)@ == sorted_node(old(object)@, true),
{
    sort_object(object, true)
}


// ---------------------------------------------------------------------------
// Comparing documents.
// ---------------------------------------------------------------------------

pub proof fn lemma_count_concat(a: Seq<JsonNode>, b: Seq<JsonNode>)
    ensures
        list_count(a + b) == list_count(a) + list_count(b),
    decreases a.len(),
{
    if a.len() == 0 {
        assert(a + b =~= b);
    } else {
        lemma_count_concat(a.subrange(1, a.len() as int), b);
        assert((a + b).subrange(1, (a + b).len() as int) =~= a.subrange(1, a.len() as int) + b);
        assert((a + b)[0] == a[0]);
    }
}

pub proof fn lemma_count_merge(a: Seq<JsonNode>, b: Seq<JsonNode>, cs: bool)
    ensures
        list_count(merge_spec(a, b, cs)) == list_count(a) + list_count(b),
    decreases a.len() + b.len(),
{
    if a.len() > 0 && b.len() > 0 {
        if key_diff(a[0].string, b[0].string, cs) < 0 {
            lemma_count_merge(a.drop_first(), b, cs);
            lemma_count_concat(seq![a[0]], merge_spec(a.drop_first(), b, cs));
            assert(seq![a[0]].subrange(1, 1) =~= Seq::<JsonNode>::empty());
            assert(list_count(Seq::<JsonNode>::empty()) == 0);
            assert(list_count(seq![a[0]]) == node_count(a[0]) + list_count(seq![a[0]].subrange(1, 1)));
            assert(a.drop_first() =~= a.subrange(1, a.len() as int));
            assert(list_count(a) == node_count(a[0]) + list_count(a.subrange(1, a.len() as int)));
        } else {
            lemma_count_merge(a, b.drop_first(), cs);
            lemma_count_concat(seq![b[0]], merge_spec(a, b.drop_first(), cs));
            assert(seq![b[0]].subrange(1, 1) =~= Seq::<JsonNode>::empty());
            assert(list_count(Seq::<JsonNode>::empty()) == 0);
            assert(list_count(seq![b[0]]) == node_count(b[0]) + list_count(seq![b[0]].subrange(1, 1)));
            assert(b.drop_first() =~= b.subrange(1, b.len() as int));
            assert(list_count(b) == node_count(b[0]) + list_count(b.subrange(1, b.len() as int)));
        }
    }
}

/// Sorting keeps the number of nodes.
pub proof fn lemma_count_sorted(s: Seq<JsonNode>, cs: bool)
    ensures
        list_count(sorted_spec(s, cs)) == list_count(s),
    decreases s.len(),
{
    if !(s.len() <= 1 || ascending(s, cs)) {
        let mid = (s.len() + 1) / 2;
        lemma_count_sorted(s.take(mid as int), cs);
        lemma_count_sorted(s.skip(mid as int), cs);
        lemma_count_merge(sorted_spec(s.take(mid as int), cs), sorted_spec(s.skip(mid as int), cs), cs);
        lemma_count_concat(s.take(mid as int), s.skip(mid as int));
        assert(s.take(mid as int) + s.skip(mid as int) =~= s);
    }
}

/// The text of a node, an absent one read as empty.
pub open spec fn text_of(n: JsonNode) -> Seq<u8> {
    match n.valuestring {
        Some(v) => v,
        None => Seq::empty(),
    }
}

/// Whether two documents are equal as the patch utilities judge them: the
/// same type; numbers with the same integer value whose doubles `close`
/// accepts; strings with the same C string; arrays equal element by
/// element; objects whose members, each sorted by key, pair up with equal
/// keys and equal values.
pub open spec fn json_equal(a: JsonNode, b: JsonNode, cs: bool, close: spec_fn(u64, u64) -> bool) -> bool
    decreases node_count(a) + node_count(b), 1int,
{
    let t = type_byte(a.type_);
    if t != type_byte(b.type_) {
        false
    } else if t == CJSON_NUMBER {
        a.valueint == b.valueint && close(a.valuedouble, b.valuedouble)
    } else if t == CJSON_STRING {
        c_str_diff(text_of(a), text_of(b), false) == 0
    } else if t == CJSON_ARRAY {
        pairs_equal(a.child, b.child, cs, close, false)
    } else if t == CJSON_OBJECT {
        proof {
            lemma_count_sorted(a.child, cs);
            lemma_count_sorted(b.child, cs);
        }
        pairs_equal(sorted_spec(a.child, cs), sorted_spec(b.child, cs), cs, close, true)
    } else {
        true
    }
}

/// Equal lengths, and equal values (and keys, when `keys`) pairwise.
pub open spec fn pairs_equal(sa: Seq<JsonNode>, sb: Seq<JsonNode>, cs: bool, close: spec_fn(u64, u64) -> bool, keys: bool) -> bool
    decreases list_count(sa) + list_count(sb), 2int,
{
    if sa.len() == 0 || sb.len() == 0 {
        sa.len() == sb.len()
    } else {
        proof {
            assert(list_count(sa) == node_count(sa[0]) + list_count(sa.subrange(1, sa.len() as int)));
            assert(list_count(sb) == node_count(sb[0]) + list_count(sb.subrange(1, sb.len() as int)));
            assert(node_count(sa[0]) >= 1);
            assert(node_count(sb[0]) >= 1);
        }
        (!keys || key_diff(sa[0].string, sb[0].string, cs) == 0) && json_equal(sa[0], sb[0], cs, close)
            && pairs_equal(sa.subrange(1, sa.len() as int), sb.subrange(1, sb.len() as int), cs, close, keys)
    }
}

/// Compares two documents as the patch utilities do, without changing
/// them: objects are compared on copies of their members sorted by key.
pub fn equal_json<C: Fn(u64, u64) -> bool>(a: &CJson, b: &CJson, case_sensitive: bool, close: &C) -> (r: bool)
    requires
        closer_ok(*close),
    ensures
        r == json_equal(a@, b@, case_sensitive, closer_fn(*close)),
    decreases node_count(a@) + node_count(b@), 1int,
{
    let t = a.base_type();
    if t != b.base_type() {
        return false;
    }
    if t == CJSON_NUMBER {
        if a.valueint != b.valueint {
            return false;
        }
        let r = close(a.valuedouble, b.valuedouble);
        proof {
            lemma_closer(*close, a.valuedouble, b.valuedouble, r);
        }
        return r;
    }
    if t == CJSON_STRING {
        let empty: Vec<u8> = Vec::new();
        let x = match &a.valuestring {
            Some(v) => v.as_slice(),
            None => empty.as_slice(),
        };
        let y = match &b.valuestring {
            Some(v) => v.as_slice(),
            None => empty.as_slice(),
        };
        return str_compare(x, y, false) == 0;
    }
    if t != CJSON_ARRAY && t != CJSON_OBJECT {
        return true;
    }
    proof {
        lemma_view_child(*a);
        lemma_view_child(*b);
        assert(node_count(a@) == 1 + list_count(a@.child));
        assert(node_count(b@) == 1 + list_count(b@.child));
    }
    let keys = t == CJSON_OBJECT;
    let sa: Vec<CJson> = if keys { sort_list(copy_all(&a.child), case_sensitive) } else { copy_all(&a.child) };
    let sb: Vec<CJson> = if keys { sort_list(copy_all(&b.child), case_sensitive) } else { copy_all(&b.child) };
    let ghost va = views(sa@);
    let ghost vb = views(sb@);
    proof {
        if keys {
            lemma_count_sorted(a@.child, case_sensitive);
            lemma_count_sorted(b@.child, case_sensitive);
        }
        assert(va.subrange(0, va.len() as int) =~= va);
        assert(vb.subrange(0, vb.len() as int) =~= vb);
    }
    let na = sa.len();
    let nb = sb.len();
    let mut i: usize = 0;
    while i < na && i < nb
        invariant
            i <= na,
            i <= nb,
            na == sa@.len(),
            nb == sb@.len(),
            va == views(sa@),
            vb == views(sb@),
            list_count(va) + list_count(vb) < node_count(a@) + node_count(b@),
            closer_ok(*close),
            json_equal(a@, b@, case_sensitive, closer_fn(*close)) == pairs_equal(va, vb, case_sensitive, closer_fn(*close), keys),
            pairs_equal(va, vb, case_sensitive, closer_fn(*close), keys) == pairs_equal(
                va.subrange(i as int, na as int),
                vb.subrange(i as int, nb as int),
                case_sensitive,
                closer_fn(*close),
                keys,
            ),
        decreases na - i,
    {
        let ghost x = va.subrange(i as int, na as int);
        let ghost y = vb.subrange(i as int, nb as int);
        proof {
            assert(x[0] == sa@[i as int]@);
            assert(y[0] == sb@[i as int]@);
            assert(x.subrange(1, x.len() as int) =~= va.subrange(i + 1, na as int));
            assert(y.subrange(1, y.len() as int) =~= vb.subrange(i + 1, nb as int));
            lemma_list_count(va, i as int);
            lemma_list_count(vb, i as int);
        }
        if keys && compare_strings(&sa[i].string, &sb[i].string, case_sensitive) != 0 {
            return false;
        }
        if !equal_json(&sa[i], &sb[i], case_sensitive, close) {
            return false;
        }
        i += 1;
    }
    na == nb
}


/// The two documents after `compare_json` has compared them: the members
/// of every pair of objects it reaches are sorted by key, and it reaches
/// the pairs of members (or elements) in order up to the first pair that
/// differs.
pub open spec fn compared(a: JsonNode, b: JsonNode, cs: bool, close: spec_fn(u64, u64) -> bool) -> (JsonNode, JsonNode)
    decreases node_count(a) + node_count(b), 1int,
{
    let t = type_byte(a.type_);
    if t != type_byte(b.type_) {
        (a, b)
    } else if t == CJSON_ARRAY {
        let (x, y) = compared_list(a.child, b.child, cs, close, false);
        (with_kids(a, x), with_kids(b, y))
    } else if t == CJSON_OBJECT {
        proof {
            lemma_count_sorted(a.child, cs);
            lemma_count_sorted(b.child, cs);
        }
        let (x, y) = compared_list(sorted_spec(a.child, cs), sorted_spec(b.child, cs), cs, close, true);
        (with_kids(a, x), with_kids(b, y))
    } else {
        (a, b)
    }
}

/// The lists `sa` and `sb` after their pairs have been compared in order,
/// up to the first pair whose keys (when `keys`) or values differ.
pub open spec fn compared_list(sa: Seq<JsonNode>, sb: Seq<JsonNode>, cs: bool, close: spec_fn(u64, u64) -> bool, keys: bool) -> (
    Seq<JsonNode>,
    Seq<JsonNode>,
)
    decreases list_count(sa) + list_count(sb), 2int,
{
    if sa.len() == 0 || sb.len() == 0 {
        (sa, sb)
    } else if keys && key_diff(sa[0].string, sb[0].string, cs) != 0 {
        (sa, sb)
    } else {
        proof {
            assert(list_count(sa) == node_count(sa[0]) + list_count(sa.subrange(1, sa.len() as int)));
            assert(list_count(sb) == node_count(sb[0]) + list_count(sb.subrange(1, sb.len() as int)));
            assert(node_count(sa[0]) >= 1);
            assert(node_count(sb[0]) >= 1);
        }
        let (x, y) = compared(sa[0], sb[0], cs, close);
        let ra = sa.subrange(1, sa.len() as int);
        let rb = sb.subrange(1, sb.len() as int);
        if json_equal(sa[0], sb[0], cs, close) {
            let (rx, ry) = compared_list(ra, rb, cs, close, keys);
            (seq![x] + rx, seq![y] + ry)
        } else {
            (seq![x] + ra, seq![y] + rb)
        }
    }
}

/// Compares two documents as the patch utilities do, sorting the members
/// of the objects it compares by key in place.
#[verifier::rlimit(60)]
pub fn compare_json<C: Fn(u64, u64) -> bool>(a: &mut CJson, b: &mut CJson, case_sensitive: bool, close: &C) -> (r: bool)
    requires
        closer_ok(*close),
    ensures
        r == json_equal(old(a)@, old(b)@, case_sensitive, closer_fn(*close)),
        (final(a)@, final(b)@) == compared(old(a)@, old(b)@, case_sensitive, closer_fn(*close)),
    decreases node_count(old(a)@) + node_count(old(b)@), 1int,
{
    let t = a.base_type();
    if t != b.base_type() {
        return false;
    }
    if t != CJSON_ARRAY && t != CJSON_OBJECT {
        return equal_json(a, b, case_sensitive, close);
    }
    proof {
        lemma_view_child(*a);
        lemma_view_child(*b);
        assert(node_count(a@) == 1 + list_count(a@.child));
        assert(node_count(b@) == 1 + list_count(b@.child));
    }
    let ghost a0 = a@;
    let ghost b0 = b@;
    let ghost cl = closer_fn(*close);
    let keys = t == CJSON_OBJECT;
    let mut ka: Vec<CJson> = Vec::new();
    std::mem::swap(&mut ka, &mut a.child);
    let mut kb: Vec<CJson> = Vec::new();
    std::mem::swap(&mut kb, &mut b.child);
    if keys {
        ka = sort_list(ka, case_sensitive);
        kb = sort_list(kb, case_sensitive);
    }
    let ghost va = views(ka@);
    let ghost vb = views(kb@);
    proof {
        if keys {
            lemma_count_sorted(a0.child, case_sensitive);
            lemma_count_sorted(b0.child, case_sensitive);
        }
        assert(va.subrange(0, va.len() as int) =~= va);
        assert(vb.subrange(0, vb.len() as int) =~= vb);
        assert(va.subrange(0, 0) + va =~= va);
        assert(vb.subrange(0, 0) + vb =~= vb);
    }
    let na = ka.len();
    let nb = kb.len();
    let mut i: usize = 0;
    let mut same = true;
    while same && i < na && i < nb
        invariant
            i <= na,
            i <= nb,
            na == ka@.len(),
            nb == kb@.len(),
            va.len() == na,
            vb.len() == nb,
            cl == closer_fn(*close),
            closer_ok(*close),
            list_count(va) + list_count(vb) < node_count(a0) + node_count(b0),
            json_equal(a0, b0, case_sensitive, cl) == pairs_equal(va, vb, case_sensitive, cl, keys),
            compared(a0, b0, case_sensitive, cl) == (
                with_kids(a0, compared_list(va, vb, case_sensitive, cl, keys).0),
                with_kids(b0, compared_list(va, vb, case_sensitive, cl, keys).1),
            ),
            a0 == old(a)@,
            b0 == old(b)@,
            same ==> views(ka@).subrange(i as int, na as int) == va.subrange(i as int, na as int),
            same ==> views(kb@).subrange(i as int, nb as int) == vb.subrange(i as int, nb as int),
            same ==> pairs_equal(va, vb, case_sensitive, cl, keys) == pairs_equal(
                va.subrange(i as int, na as int),
                vb.subrange(i as int, nb as int),
                case_sensitive,
                cl,
                keys,
            ),
            same ==> compared_list(va, vb, case_sensitive, cl, keys) == (
                views(ka@).subrange(0, i as int) + compared_list(
                    va.subrange(i as int, na as int),
                    vb.subrange(i as int, nb as int),
                    case_sensitive,
                    cl,
                    keys,
                ).0,
                views(kb@).subrange(0, i as int) + compared_list(
                    va.subrange(i as int, na as int),
                    vb.subrange(i as int, nb as int),
                    case_sensitive,
                    cl,
                    keys,
                ).1,
            ),
            !same ==> !pairs_equal(va, vb, case_sensitive, cl, keys),
            !same ==> compared_list(va, vb, case_sensitive, cl, keys) == (views(ka@), views(kb@)),
        decreases 2 * (na - i) + if same {
            1int
        } else {
            0int
        },
    {
        let ghost x = va.subrange(i as int, na as int);
        let ghost y = vb.subrange(i as int, nb as int);
        let ghost ka0 = ka@;
        let ghost kb0 = kb@;
        proof {
            assert(x[0] == views(ka@)[i as int]);
            assert(y[0] == views(kb@)[i as int]);
            assert(x.subrange(1, x.len() as int) =~= va.subrange(i + 1, na as int));
            assert(y.subrange(1, y.len() as int) =~= vb.subrange(i + 1, nb as int));
            lemma_list_count(va, i as int);
            lemma_list_count(vb, i as int);
        }
        if keys && compare_strings(&ka[i].string, &kb[i].string, case_sensitive) != 0 {
            same = false;
            proof {
                assert(views(ka@) =~= views(ka@).subrange(0, i as int) + x);
                assert(views(kb@) =~= views(kb@).subrange(0, i as int) + y);
            }
        } else {
            let r = compare_json(&mut ka[i], &mut kb[i], case_sensitive, close);
            proof {
                lemma_views_ops(ka0, i as int, ka@[i as int]);
                lemma_views_ops(kb0, i as int, kb@[i as int]);
                assert(ka@ == ka0.update(i as int, ka@[i as int]));
                assert(kb@ == kb0.update(i as int, kb@[i as int]));
            }
            if r {
                i += 1;
                proof {
                    assert(views(ka@).subrange(i as int, na as int) =~= va.subrange(i as int, na as int));
                    assert(views(kb@).subrange(i as int, nb as int) =~= vb.subrange(i as int, nb as int));
                    assert(views(ka@).subrange(0, i as int) =~= views(ka0).subrange(0, i - 1) + seq![ka@[i - 1]@]);
                    assert(views(kb@).subrange(0, i as int) =~= views(kb0).subrange(0, i - 1) + seq![kb@[i - 1]@]);
                }
            } else {
                same = false;
                proof {
                    assert(views(ka@) =~= views(ka0).subrange(0, i as int) + (seq![ka@[i as int]@] + x.subrange(1, x.len() as int)));
                    assert(views(kb@) =~= views(kb0).subrange(0, i as int) + (seq![kb@[i as int]@] + y.subrange(1, y.len() as int)));
                }
            }
        }
    }
    proof {
        if same {
            let x = va.subrange(i as int, na as int);
            let y = vb.subrange(i as int, nb as int);
            assert(x.len() == 0 || y.len() == 0);
            assert(views(ka@) =~= views(ka@).subrange(0, i as int) + x);
            assert(views(kb@) =~= views(kb@).subrange(0, i as int) + y);
        }
    }
    let r = same && na == nb;
    a.child = ka;
    b.child = kb;
    proof {
        lemma_view_child(*a);
        lemma_view_child(*b);
        assert(a@ =~= with_kids(a0, compared_list(va, vb, case_sensitive, cl, keys).0));
        assert(b@ =~= with_kids(b0, compared_list(va, vb, case_sensitive, cl, keys).1));
    }
    r
}

/// Comparing keeps every node of both documents: it only reorders members.
pub proof fn lemma_compared_count(a: JsonNode, b: JsonNode, cs: bool, close: spec_fn(u64, u64) -> bool)
    ensures
        node_count(compared(a, b, cs, close).0) == node_count(a),
        node_count(compared(a, b, cs, close).1) == node_count(b),
        compared(a, b, cs, close).0 == with_kids(a, compared(a, b, cs, close).0.child),
        compared(a, b, cs, close).1 == with_kids(b, compared(a, b, cs, close).1.child),
    decreases node_count(a) + node_count(b), 1int,
{
    let t = type_byte(a.type_);
    if t == type_byte(b.type_) {
        if t == CJSON_ARRAY {
            lemma_compared_list_count(a.child, b.child, cs, close, false);
        } else if t == CJSON_OBJECT {
            lemma_count_sorted(a.child, cs);
            lemma_count_sorted(b.child, cs);
            lemma_compared_list_count(sorted_spec(a.child, cs), sorted_spec(b.child, cs), cs, close, true);
        }
    }
}

pub proof fn lemma_compared_list_count(sa: Seq<JsonNode>, sb: Seq<JsonNode>, cs: bool, close: spec_fn(u64, u64) -> bool, keys: bool)
    ensures
        list_count(compared_list(sa, sb, cs, close, keys).0) == list_count(sa),
        list_count(compared_list(sa, sb, cs, close, keys).1) == list_count(sb),
    decreases list_count(sa) + list_count(sb), 2int,
{
    if sa.len() > 0 && sb.len() > 0 && !(keys && key_diff(sa[0].string, sb[0].string, cs) != 0) {
        let ra = sa.subrange(1, sa.len() as int);
        let rb = sb.subrange(1, sb.len() as int);
        assert(list_count(sa) == node_count(sa[0]) + list_count(ra));
        assert(list_count(sb) == node_count(sb[0]) + list_count(rb));
        assert(node_count(sa[0]) >= 1);
        assert(node_count(sb[0]) >= 1);
        lemma_compared_count(sa[0], sb[0], cs, close);
        let (x, y) = compared(sa[0], sb[0], cs, close);
        assert(seq![x].subrange(1, 1) =~= Seq::<JsonNode>::empty());
        assert(seq![y].subrange(1, 1) =~= Seq::<JsonNode>::empty());
        assert(list_count(seq![x]) == node_count(x) + list_count(Seq::<JsonNode>::empty()));
        assert(list_count(seq![y]) == node_count(y) + list_count(Seq::<JsonNode>::empty()));
        if json_equal(sa[0], sb[0], cs, close) {
            lemma_compared_list_count(ra, rb, cs, close, keys);
            let (rx, ry) = compared_list(ra, rb, cs, close, keys);
            lemma_count_concat(seq![x], rx);
            lemma_count_concat(seq![y], ry);
        } else {
            lemma_count_concat(seq![x], ra);
            lemma_count_concat(seq![y], rb);
        }
    }
}

// ---------------------------------------------------------------------------
// JSON pointers.
// ---------------------------------------------------------------------------

/// Where the pointer token that starts at `pos` ends: at the next `/` or at
/// the end of the C string `q`.
pub open spec fn token_end(q: Seq<u8>, pos: int) -> int
    decreases q.len() + 1 - pos,
{
    if pos < 0 || pos > q.len() || byte_at(q, pos) == 0 || byte_at(q, pos) == 47 {
        pos
    } else {
        token_end(q, pos + 1)
    }
}

pub proof fn lemma_token_end(q: Seq<u8>, pos: int)
    requires
        0 <= pos <= q.len(),
    ensures
        pos <= token_end(q, pos) <= q.len(),
        token_end(q, pos) < q.len() ==> q[token_end(q, pos)] == 0 || q[token_end(q, pos)] == 47,
    decreases q.len() + 1 - pos,
{
    if !(byte_at(q, pos) == 0 || byte_at(q, pos) == 47) {
        lemma_token_end(q, pos + 1);
    }
}

/// Whether the C string `nm`, from `i` on, matches the pointer token of `q`
/// from `j` on: `~0` stands for `~` and `~1` for `/`, any other `~` fails;
/// ASCII case is folded unless `cs`.
pub open spec fn name_matches(nm: Seq<u8>, q: Seq<u8>, i: int, j: int, cs: bool) -> bool
    decreases q.len() + 1 - j,
{
    let a = byte_at(nm, i);
    let b = byte_at(q, j);
    if j < 0 || j > q.len() {
        false
    } else if a != 0 && b != 0 && b != 47 {
        if b == 126 {
            let e = byte_at(q, j + 1);
            if !((e == 48 && a == 126) || (e == 49 && a == 47)) {
                false
            } else {
                name_matches(nm, q, i + 1, j + 2, cs)
            }
        } else if (!cs && crate::text::lower(a) != crate::text::lower(b)) || (cs && a != b) {
            false
        } else {
            name_matches(nm, q, i + 1, j + 1, cs)
        }
    } else {
        (b != 0 && b != 47) == (a != 0)
    }
}

/// Whether a member's key matches the pointer token at `j`; an absent key
/// matches nothing.
pub open spec fn key_matches(key: Option<Seq<u8>>, q: Seq<u8>, j: int, cs: bool) -> bool {
    match key {
        Some(nm) => name_matches(nm, q, 0, j, cs),
        None => false,
    }
}

/// Compares a member's key with the pointer token at `pos`.
pub fn compare_pointers(name: &Option<Vec<u8>>, pointer: &[u8], pos: usize, case_sensitive: bool) -> (r: bool)
    requires
        pos <= pointer@.len(),
    ensures
        r == key_matches(crate::model::opt_view(*name), pointer@, pos as int, case_sensitive),
{
    let nm = match name {
        Some(v) => v,
        None => {
            return false;
        },
    };
    let mut i: usize = 0;
    let mut j: usize = pos;
    loop
        invariant
            j <= pointer@.len(),
            i <= nm@.len() + j,
            key_matches(crate::model::opt_view(*name), pointer@, pos as int, case_sensitive) == name_matches(
                nm@,
                pointer@,
                i as int,
                j as int,
                case_sensitive,
            ),
        decreases pointer@.len() + 1 - j,
    {
        let a: u8 = if i < nm.len() { nm[i] } else { 0 };
        let b: u8 = if j < pointer.len() { pointer[j] } else { 0 };
        if !(a != 0 && b != 0 && b != 47) {
            return (b != 0 && b != 47) == (a != 0);
        }
        if b == 126 {
            let e: u8 = if j + 1 < pointer.len() { pointer[j + 1] } else { 0 };
            if !((e == 48 && a == 126) || (e == 49 && a == 47)) {
                return false;
            }
            if j + 1 >= pointer.len() {
                return false;
            }
            j += 2;
        } else {
            let la = crate::text::to_lower(a);
            let lb = crate::text::to_lower(b);
            if (!case_sensitive && la != lb) || (case_sensitive && a != b) {
                return false;
            }
            j += 1;
        }
        if i >= nm.len() {
            return false;
        }
        i += 1;
    }
}

/// The value that the digits of the pointer token at `pos` stand for,
/// computed with wrapping arithmetic over the first `k` digits.
pub open spec fn index_value(q: Seq<u8>, pos: int, k: nat) -> usize
    decreases k,
{
    if k == 0 {
        0
    } else {
        vstd::wrapping::usize_specs::wrapping_add(
            vstd::wrapping::usize_specs::wrapping_mul(index_value(q, pos, (k - 1) as nat), 10),
            (byte_at(q, pos + k - 1) - 48) as usize,
        )
    }
}

/// The number of digits from `pos` on.
pub open spec fn digit_run(q: Seq<u8>, pos: int) -> nat
    decreases q.len() + 1 - pos,
{
    if pos < 0 || pos >= q.len() || !(48 <= q[pos] <= 57) {
        0
    } else {
        1 + digit_run(q, pos + 1)
    }
}

/// The array index that the pointer token at `pos` names: its digits, with
/// no leading zero, followed by the end of the token; `None` otherwise.
pub open spec fn decode_index(q: Seq<u8>, pos: int) -> Option<usize> {
    if byte_at(q, pos) == 48 && byte_at(q, pos + 1) != 0 && byte_at(q, pos + 1) != 47 {
        None
    } else {
        let k = digit_run(q, pos);
        let e = byte_at(q, pos + k);
        if e != 0 && e != 47 {
            None
        } else {
            Some(index_value(q, pos, k))
        }
    }
}

pub proof fn lemma_digit_run(q: Seq<u8>, pos: int)
    requires
        0 <= pos,
    ensures
        pos + digit_run(q, pos) <= q.len() || digit_run(q, pos) == 0,
        forall|m: int| pos <= m < pos + digit_run(q, pos) ==> 48 <= #[trigger] q[m] <= 57,
        pos + digit_run(q, pos) < q.len() ==> !(48 <= q[pos + digit_run(q, pos)] <= 57),
    decreases q.len() + 1 - pos,
{
    if !(pos >= q.len() || !(48 <= q[pos] <= 57)) {
        lemma_digit_run(q, pos + 1);
    }
}

/// Reads the array index of the pointer token at `pos`.
pub fn decode_array_index_from_pointer(pointer: &[u8], pos: usize) -> (r: Option<usize>)
    requires
        pos <= pointer@.len(),
    ensures
        r == decode_index(pointer@, pos as int),
{
    let n = pointer.len();
    let c0: u8 = if pos < n { pointer[pos] } else { 0 };
    let c1: u8 = if pos < n && pos + 1 < n { pointer[pos + 1] } else { 0 };
    if c0 == 48 && c1 != 0 && c1 != 47 {
        return None;
    }
    proof {
        lemma_digit_run(pointer@, pos as int);
    }
    let mut parsed: usize = 0;
    let mut k: usize = 0;
    while pos + k < n && 48 <= pointer[pos + k] && pointer[pos + k] <= 57
        invariant
            pos <= n,
            n == pointer@.len(),
            k <= digit_run(pointer@, pos as int),
            pos + k <= n,
            parsed == index_value(pointer@, pos as int, k as nat),
            pos + digit_run(pointer@, pos as int) <= n || digit_run(pointer@, pos as int) == 0,
            forall|m: int| pos <= m < pos + digit_run(pointer@, pos as int) ==> 48 <= #[trigger] pointer@[m] <= 57,
            pos + digit_run(pointer@, pos as int) < n ==> !(48 <= pointer@[pos + digit_run(pointer@, pos as int)] <= 57),
        decreases n - (pos + k),
    {
        let d = pointer[pos + k] - 48;
        parsed = parsed.wrapping_mul(10).wrapping_add(d as usize);
        k += 1;
    }
    assert(k == digit_run(pointer@, pos as int));
    let e: u8 = if pos + k < n { pointer[pos + k] } else { 0 };
    if e != 0 && e != 47 {
        return None;
    }
    Some(parsed)
}


/// The node reached from `n` by following the child indices `path`.
pub open spec fn node_at(n: JsonNode, path: Seq<int>) -> JsonNode
    decreases path.len(),
{
    if path.len() == 0 {
        n
    } else if 0 <= path[0] < n.child.len() {
        node_at(n.child[path[0]], path.skip(1))
    } else {
        n
    }
}

/// Whether `path` leads through existing children.
pub open spec fn valid_path(n: JsonNode, path: Seq<int>) -> bool
    decreases path.len(),
{
    path.len() == 0 || (0 <= path[0] < n.child.len() && valid_path(n.child[path[0]], path.skip(1)))
}

/// The first member, from `i` on, whose key matches the pointer token at `j`.
pub open spec fn find_named(kids: Seq<JsonNode>, q: Seq<u8>, j: int, cs: bool, i: nat) -> Option<int>
    decreases kids.len() - i,
{
    if i >= kids.len() {
        None
    } else if key_matches(kids[i as int].string, q, j, cs) {
        Some(i as int)
    } else {
        find_named(kids, q, j, cs, i + 1)
    }
}

pub proof fn lemma_find_named(kids: Seq<JsonNode>, q: Seq<u8>, j: int, cs: bool, i: nat)
    ensures
        find_named(kids, q, j, cs, i) matches Some(k) ==> i <= k < kids.len(),
    decreases kids.len() - i,
{
    if i < kids.len() {
        lemma_find_named(kids, q, j, cs, i + 1);
    }
}

pub open spec fn prepend(k: int, r: Option<Seq<int>>) -> Option<Seq<int>> {
    match r {
        Some(p) => Some(seq![k] + p),
        None => None,
    }
}

/// The child indices that the pointer `q`, from `pos` on, leads to from
/// `n`: each `/token` selects an array element by index or the first object
/// member whose key matches; `None` when a step finds nothing or reaches a
/// node that is neither. Text not starting with `/` stops the walk.
pub open spec fn walk(n: JsonNode, q: Seq<u8>, pos: int, cs: bool) -> Option<Seq<int>>
    decreases q.len() + 1 - pos,
{
    if pos < 0 || pos >= q.len() || q[pos] != 47 {
        Some(Seq::empty())
    } else {
        let p1 = pos + 1;
        let next = token_end(q, p1);
        proof {
            lemma_token_end(q, p1);
        }
        let t = type_byte(n.type_);
        if t == CJSON_ARRAY {
            match decode_index(q, p1) {
                None => None,
                Some(k) => if k < n.child.len() {
                    prepend(k as int, walk(n.child[k as int], q, next, cs))
                } else {
                    None
                },
            }
        } else if t == CJSON_OBJECT {
            match find_named(n.child, q, p1, cs, 0) {
                None => None,
                Some(k) => if 0 <= k < n.child.len() {
                    prepend(k, walk(n.child[k], q, next, cs))
                } else {
                    None
                },
            }
        } else {
            None
        }
    }
}

pub proof fn lemma_node_at_push(n: JsonNode, path: Seq<int>, k: int)
    requires
        valid_path(n, path),
        0 <= k < node_at(n, path).child.len(),
    ensures
        valid_path(n, path.push(k)),
        node_at(n, path.push(k)) == node_at(n, path).child[k],
    decreases path.len(),
{
    if path.len() > 0 {
        assert(path.push(k).skip(1) =~= path.skip(1).push(k));
        assert(path.push(k)[0] == path[0]);
        lemma_node_at_push(n.child[path[0]], path.skip(1), k);
    } else {
        assert(path.push(k).skip(1) =~= Seq::<int>::empty());
        assert(path.push(k)[0] == k);
        assert(valid_path(n.child[k], Seq::<int>::empty()));
        assert(node_at(n.child[k], Seq::<int>::empty()) == n.child[k]);
    }
}

/// The first member of `object`, from `i` on, whose key matches the
/// pointer token at `pos`.
fn find_named_index(object: &CJson, pointer: &[u8], pos: usize, case_sensitive: bool) -> (r: Option<usize>)
    requires
        pos <= pointer@.len(),
    ensures
        match r {
            Some(k) => find_named(object@.child, pointer@, pos as int, case_sensitive, 0) == Some(k as int),
            None => find_named(object@.child, pointer@, pos as int, case_sensitive, 0) is None,
        },
{
    proof {
        lemma_view_child(*object);
    }
    let n = object.child.len();
    let mut i: usize = 0;
    while i < n
        invariant
            i <= n,
            n == object.child@.len(),
            pos <= pointer@.len(),
            object@.child == views(object.child@),
            find_named(object@.child, pointer@, pos as int, case_sensitive, 0) == find_named(
                object@.child,
                pointer@,
                pos as int,
                case_sensitive,
                i as nat,
            ),
        decreases n - i,
    {
        assert(object@.child[i as int] == object.child@[i as int]@);
        if compare_pointers(&object.child[i].string, pointer, pos, case_sensitive) {
            return Some(i);
        }
        i += 1;
    }
    None
}

/// The child indices that a pointer leads to.
pub fn pointer_path(object: &CJson, pointer: &[u8], case_sensitive: bool) -> (r: Option<Vec<usize>>)
    ensures
        match r {
            Some(p) => walk(object@, pointer@, 0, case_sensitive) == Some(p@.map_values(|k: usize| k as int)),
            None => walk(object@, pointer@, 0, case_sensitive) is None,
        },
{
    let mut path: Vec<usize> = Vec::new();
    let mut cur: &CJson = object;
    let mut pos: usize = 0;
    let n = pointer.len();
    let ghost total = walk(object@, pointer@, 0, case_sensitive);
    proof {
        assert(path@.map_values(|k: usize| k as int) =~= Seq::<int>::empty());
    }
    while pos < n && pointer[pos] == 47
        invariant
            pos <= n,
            n == pointer@.len(),
            total == walk(object@, pointer@, 0, case_sensitive),
            total == match walk(cur@, pointer@, pos as int, case_sensitive) {
                Some(rest) => Some(path@.map_values(|k: usize| k as int) + rest),
                None => None,
            },
        decreases n - pos,
    {
        let p1 = pos + 1;
        let mut next = p1;
        while next < n && pointer[next] != 0 && pointer[next] != 47
            invariant
                p1 <= next <= n,
                n == pointer@.len(),
                token_end(pointer@, p1 as int) == token_end(pointer@, next as int),
            decreases n - next,
        {
            next += 1;
        }
        proof {
            lemma_view_child(*cur);
            lemma_token_end(pointer@, p1 as int);
        }
        let ghost before = path@.map_values(|k: usize| k as int);
        let k: usize;
        if cur.base_type() == CJSON_ARRAY {
            match decode_array_index_from_pointer(pointer, p1) {
                None => {
                    return None;
                },
                Some(idx) => {
                    if idx >= cur.child.len() {
                        return None;
                    }
                    k = idx;
                },
            }
        } else if cur.base_type() == CJSON_OBJECT {
            proof {
                lemma_find_named(cur@.child, pointer@, p1 as int, case_sensitive, 0);
            }
            match find_named_index(cur, pointer, p1, case_sensitive) {
                None => {
                    return None;
                },
                Some(idx) => {
                    k = idx;
                },
            }
        } else {
            return None;
        }
        assert(cur@.child[k as int] == cur.child@[k as int]@);
        cur = &cur.child[k];
        path.push(k);
        proof {
            assert(path@.map_values(|k: usize| k as int) =~= before.push(k as int));
            match walk(cur@, pointer@, next as int, case_sensitive) {
                Some(rest) => {
                    assert(before + (seq![k as int] + rest) =~= path@.map_values(|k: usize| k as int) + rest);
                },
                None => {},
            }
        }
        pos = next;
    }
    proof {
        assert(path@.map_values(|k: usize| k as int) + Seq::<int>::empty() =~= path@.map_values(|k: usize| k as int));
    }
    Some(path)
}

pub proof fn lemma_walk_valid(n: JsonNode, q: Seq<u8>, pos: int, cs: bool)
    ensures
        walk(n, q, pos, cs) matches Some(p) ==> valid_path(n, p),
    decreases q.len() + 1 - pos,
{
    if !(pos < 0 || pos >= q.len() || q[pos] != 47) {
        let p1 = pos + 1;
        let next = token_end(q, p1);
        lemma_token_end(q, p1);
        lemma_find_named(n.child, q, p1, cs, 0);
        let t = type_byte(n.type_);
        if t == CJSON_ARRAY {
            if let Some(k) = decode_index(q, p1) {
                if k < n.child.len() {
                    lemma_walk_valid(n.child[k as int], q, next, cs);
                    if let Some(rest) = walk(n.child[k as int], q, next, cs) {
                        assert((seq![k as int] + rest).skip(1) =~= rest);
                    }
                }
            }
        } else if t == CJSON_OBJECT {
            if let Some(k) = find_named(n.child, q, p1, cs, 0) {
                lemma_walk_valid(n.child[k], q, next, cs);
                if let Some(rest) = walk(n.child[k], q, next, cs) {
                    assert((seq![k] + rest).skip(1) =~= rest);
                }
            }
        }
    }
}

/// The node that a JSON pointer leads to from `object`.
pub fn get_item_from_pointer<'a>(object: &'a CJson, pointer: &[u8], case_sensitive: bool) -> (r: Option<&'a CJson>)
    ensures
        match walk(object@, pointer@, 0, case_sensitive) {
            Some(p) => r matches Some(c) && c@ == node_at(object@, p),
            None => r is None,
        },
{
    let mut cur: &CJson = object;
    let mut pos: usize = 0;
    let n = pointer.len();
    let ghost mut path: Seq<int> = Seq::empty();
    let ghost total = walk(object@, pointer@, 0, case_sensitive);
    proof {
        lemma_walk_valid(object@, pointer@, 0, case_sensitive);
    }
    while pos < n && pointer[pos] == 47
        invariant
            pos <= n,
            n == pointer@.len(),
            total == walk(object@, pointer@, 0, case_sensitive),
            valid_path(object@, path),
            node_at(object@, path) == cur@,
            total == match walk(cur@, pointer@, pos as int, case_sensitive) {
                Some(rest) => Some(path + rest),
                None => None,
            },
        decreases n - pos,
    {
        let p1 = pos + 1;
        let mut next = p1;
        while next < n && pointer[next] != 0 && pointer[next] != 47
            invariant
                p1 <= next <= n,
                n == pointer@.len(),
                token_end(pointer@, p1 as int) == token_end(pointer@, next as int),
            decreases n - next,
        {
            next += 1;
        }
        proof {
            lemma_view_child(*cur);
            lemma_token_end(pointer@, p1 as int);
        }
        let k: usize;
        if cur.base_type() == CJSON_ARRAY {
            match decode_array_index_from_pointer(pointer, p1) {
                None => {
                    return None;
                },
                Some(idx) => {
                    if idx >= cur.child.len() {
                        return None;
                    }
                    k = idx;
                },
            }
        } else if cur.base_type() == CJSON_OBJECT {
            proof {
                lemma_find_named(cur@.child, pointer@, p1 as int, case_sensitive, 0);
            }
            match find_named_index(cur, pointer, p1, case_sensitive) {
                None => {
                    return None;
                },
                Some(idx) => {
                    k = idx;
                },
            }
        } else {
            return None;
        }
        assert(cur@.child[k as int] == cur.child@[k as int]@);
        proof {
            lemma_node_at_push(object@, path, k as int);
            match walk(cur.child@[k as int]@, pointer@, next as int, case_sensitive) {
                Some(rest) => {
                    assert(path + (seq![k as int] + rest) =~= path.push(k as int) + rest);
                },
                None => {},
            }
            path = path.push(k as int);
        }
        cur = &cur.child[k];
        pos = next;
    }
    proof {
        assert(path + Seq::<int>::empty() =~= path);
    }
    Some(cur)
}

/// The node that a JSON pointer leads to, keys matched up to ASCII case.
pub fn cjson_utils_get_pointer<'a>(object: &'a CJson, pointer: &[u8]) -> (r: Option<&'a CJson>)
    ensures
        match walk(object@, pointer@, 0, false) {
            Some(p) => r matches Some(c) && c@ == node_at(object@, p),
            None => r is None,
        },
{
    get_item_from_pointer(object, pointer, false)
}

/// The node that a JSON pointer leads to, keys matched exactly.
pub fn cjson_utils_get_pointer_case_sensitive<'a>(object: &'a CJson, pointer: &[u8]) -> (r: Option<&'a CJson>)
    ensures
        match walk(object@, pointer@, 0, true) {
            Some(p) => r matches Some(c) && c@ == node_at(object@, p),
            None => r is None,
        },
{
    get_item_from_pointer(object, pointer, true)
}


// ---------------------------------------------------------------------------
// Merge patches (RFC 7396).
// ---------------------------------------------------------------------------

/// `t` without the member that a lookup of `key` finds, and that member.
pub open spec fn take_member(t: JsonNode, key: Option<Seq<u8>>, cs: bool) -> (JsonNode, Option<JsonNode>) {
    match key {
        None => (t, None),
        Some(k) => match find_member(t.child, k, cs) {
            Some(i) => (with_kids(t, t.child.remove(i)), Some(t.child[i])),
            None => (t, None),
        },
    }
}

/// The result of applying the merge patch `patch` to `target` (absent when
/// `None`): a patch that is not an object replaces the target with a copy
/// of itself; an object patch turns the target into an object if it is not
/// one and then, member by member, removes the keys whose patch value is
/// `null` and merges the others into the target's member of that key,
/// which moves to the end. `None` when a copy cannot be made.
pub open spec fn merged(target: Option<JsonNode>, patch: JsonNode, cs: bool) -> Option<JsonNode>
    decreases patch, 1int,
{
    if type_byte(patch.type_) != CJSON_OBJECT {
        dup_tree(patch, 0, true)
    } else {
        let start = match target {
            Some(t) => if type_byte(t.type_) == CJSON_OBJECT {
                t
            } else {
                node_of_type(CJSON_OBJECT)
            },
            None => node_of_type(CJSON_OBJECT),
        };
        merge_members(start, patch.child, cs)
    }
}

/// Applies the members `s` of an object patch to the object `t`.
pub open spec fn merge_members(t: JsonNode, s: Seq<JsonNode>, cs: bool) -> Option<JsonNode>
    decreases s, 0int,
{
    if s.len() == 0 {
        Some(t)
    } else {
        let pc = s[0];
        let rest = s.subrange(1, s.len() as int);
        let (t1, found) = take_member(t, pc.string, cs);
        if type_byte(pc.type_) == CJSON_NULL {
            merge_members(t1, rest, cs)
        } else {
            match merged(found, pc, cs) {
                None => None,
                Some(rep) => {
                    let t2 = match pc.string {
                        Some(k) => with_kids(t1, t1.child.push(keyed(rep, k, false))),
                        None => t1,
                    };
                    merge_members(t2, rest, cs)
                },
            }
        }
    }
}

pub open spec fn opt_node(o: Option<CJson>) -> Option<JsonNode> {
    match o {
        Some(t) => Some(t@),
        None => None,
    }
}

/// Removes the member that a lookup of `key` finds.
fn take_member_exec(t: &mut CJson, key: &Option<Vec<u8>>, case_sensitive: bool) -> (r: Option<CJson>)
    ensures
        ({
            let (t1, found) = take_member(old(t)@, opt_view(*key), case_sensitive);
            &&& final(t)@ == t1
            &&& match r {
                Some(c) => found == Some(c@),
                None => found is None,
            }
        }),
{
    match key {
        None => None,
        Some(k) => {
            proof {
                lemma_find_member_bounds(t@.child, k@, case_sensitive, 0);
                lemma_view_child(*t);
            }
            match object_item_index(t, k.as_slice(), case_sensitive) {
                None => None,
                Some(i) => {
                    proof {
                        lemma_views_ops(t.child@, i as int, t.child@[i as int]);
                    }
                    let c = t.child.remove(i);
                    proof {
                        lemma_view_child(*t);
                        assert(t@ =~= with_kids(old(t)@, old(t)@.child.remove(i as int)));
                    }
                    Some(c)
                },
            }
        },
    }
}

/// Applies the merge patch `patch` to `target`.
#[verifier::loop_isolation(false)]
pub fn merge_patch(target: Option<CJson>, patch: &CJson, case_sensitive: bool) -> (r: Option<CJson>)
    ensures
        match r {
            Some(c) => merged(opt_node(target), patch@, case_sensitive) == Some(c@),
            None => merged(opt_node(target), patch@, case_sensitive) is None,
        },
    decreases patch@, 1int,
{
    if patch.base_type() != CJSON_OBJECT {
        return cjson_duplicate(patch, true);
    }
    let ghost total = merged(opt_node(target), patch@, case_sensitive);
    let mut t = match target {
        Some(t) => if t.base_type() == CJSON_OBJECT {
            t
        } else {
            crate::model::new_item(CJSON_OBJECT)
        },
        None => crate::model::new_item(CJSON_OBJECT),
    };
    proof {
        lemma_view_child(*patch);
        assert(patch@.child.subrange(0, patch@.child.len() as int) =~= patch@.child);
    }
    let n = patch.child.len();
    let mut i: usize = 0;
    while i < n
        invariant
            i <= n,
            n == patch.child@.len(),
            patch@.child == views(patch.child@),
            total == merge_members(t@, patch@.child.subrange(i as int, n as int), case_sensitive),
        decreases n - i,
    {
        let ghost s = patch@.child.subrange(i as int, n as int);
        proof {
            assert(s[0] == patch.child@[i as int]@);
            assert(s.subrange(1, s.len() as int) =~= patch@.child.subrange(i + 1, n as int));
        }
        let pc = &patch.child[i];
        let found = take_member_exec(&mut t, &pc.string, case_sensitive);
        if pc.base_type() != CJSON_NULL {
            let rep = merge_patch(found, pc, case_sensitive);
            match rep {
                None => {
                    return None;
                },
                Some(rep) => {
                    match &pc.string {
                        Some(k) => {
                            add_item_to_object(&mut t, k.as_slice(), rep, false);
                        },
                        None => {},
                    }
                },
            }
        }
        i += 1;
    }
    Some(t)
}

/// Applies a merge patch, keys matched up to ASCII case.
pub fn cjson_utils_merge_patch(target: Option<CJson>, patch: &CJson) -> (r: Option<CJson>)
    ensures
        match r {
            Some(c) => merged(opt_node(target), patch@, false) == Some(c@),
            None => merged(opt_node(target), patch@, false) is None,
        },
{
    merge_patch(target, patch, false)
}

/// Applies a merge patch, keys matched exactly.
pub fn cjson_utils_merge_patch_case_sensitive(target: Option<CJson>, patch: &CJson) -> (r: Option<CJson>)
    ensures
        match r {
            Some(c) => merged(opt_node(target), patch@, true) == Some(c@),
            None => merged(opt_node(target), patch@, true) is None,
        },
{
    merge_patch(target, patch, true)
}


/// The merge patch from `from` to `to`, with the two documents as
/// generating it leaves them: a copy of `to` unless both are objects; for
/// two objects, the members of each are sorted by key, and both lists are
/// walked in order (keys compared exactly): `null` under each key only
/// `from` has, a copy of each member only `to` has, and, for a key both
/// have, the two members are compared (which sorts what the comparison
/// reaches) and, when they differ, the merge patch between them as they
/// then stand; the patch is `None` when there are no member patches.
pub open spec fn merge_gen(from: JsonNode, to: JsonNode, cs: bool, close: spec_fn(u64, u64) -> bool) -> (
    Option<JsonNode>,
    JsonNode,
    JsonNode,
)
    decreases node_count(from) + node_count(to), 1int,
{
    if type_byte(to.type_) != CJSON_OBJECT || type_byte(from.type_) != CJSON_OBJECT {
        (dup_tree(to, 0, true), from, to)
    } else {
        proof {
            lemma_count_sorted(from.child, cs);
            lemma_count_sorted(to.child, cs);
        }
        let r = merge_gen_members(sorted_spec(from.child, cs), sorted_spec(to.child, cs), cs, close);
        (if r.0.len() == 0 {
            None
        } else {
            Some(holder_node(CJSON_OBJECT, r.0))
        }, with_kids(from, r.1), with_kids(to, r.2))
    }
}

/// The member patches for the sorted members `fs` and `ts`, and those
/// members as the walk leaves them.
#[verifier::opaque]
pub open spec fn merge_gen_members(fs: Seq<JsonNode>, ts: Seq<JsonNode>, cs: bool, close: spec_fn(u64, u64) -> bool) -> (
    Seq<JsonNode>,
    Seq<JsonNode>,
    Seq<JsonNode>,
)
    decreases list_count(fs) + list_count(ts), 2int,
{
    if fs.len() == 0 && ts.len() == 0 {
        (Seq::empty(), Seq::empty(), Seq::empty())
    } else {
        let diff = if fs.len() > 0 && ts.len() > 0 {
            key_diff(fs[0].string, ts[0].string, true)
        } else if fs.len() > 0 {
            -1
        } else {
            1
        };
        if diff < 0 {
            proof {
                assert(list_count(fs) == node_count(fs[0]) + list_count(fs.subrange(1, fs.len() as int)));
            }
            let r = merge_gen_members(fs.subrange(1, fs.len() as int), ts, cs, close);
            ((match fs[0].string {
                Some(k) => seq![keyed(node_of_type(CJSON_NULL), k, false)],
                None => Seq::empty(),
            }) + r.0, seq![fs[0]] + r.1, r.2)
        } else if diff > 0 {
            proof {
                assert(list_count(ts) == node_count(ts[0]) + list_count(ts.subrange(1, ts.len() as int)));
            }
            let r = merge_gen_members(fs, ts.subrange(1, ts.len() as int), cs, close);
            ((match (ts[0].string, dup_tree(ts[0], 0, true)) {
                (Some(k), Some(d)) => seq![keyed(d, k, false)],
                _ => Seq::empty(),
            }) + r.0, r.1, seq![ts[0]] + r.2)
        } else {
            proof {
                assert(list_count(fs) == node_count(fs[0]) + list_count(fs.subrange(1, fs.len() as int)));
                assert(list_count(ts) == node_count(ts[0]) + list_count(ts.subrange(1, ts.len() as int)));
                lemma_compared_count(fs[0], ts[0], cs, close);
            }
            let c = compared(fs[0], ts[0], cs, close);
            let r = merge_gen_members(fs.subrange(1, fs.len() as int), ts.subrange(1, ts.len() as int), cs, close);
            if json_equal(fs[0], ts[0], cs, close) {
                (r.0, seq![c.0] + r.1, seq![c.1] + r.2)
            } else {
                let g = merge_gen(c.0, c.1, false, close);
                ((match (ts[0].string, g.0) {
                    (Some(k), Some(p)) => seq![keyed(p, k, false)],
                    _ => Seq::empty(),
                }) + r.0, seq![g.1] + r.1, seq![g.2] + r.2)
            }
        }
    }
}

/// The merge patch between two objects, from their sorted members.
pub proof fn lemma_merge_gen_objects(from: JsonNode, to: JsonNode, cs: bool, close: spec_fn(u64, u64) -> bool)
    requires
        type_byte(from.type_) == CJSON_OBJECT,
        type_byte(to.type_) == CJSON_OBJECT,
    ensures
        merge_gen(from, to, cs, close) == ({
            let r = merge_gen_members(sorted_spec(from.child, cs), sorted_spec(to.child, cs), cs, close);
            (if r.0.len() == 0 {
                None
            } else {
                Some(holder_node(CJSON_OBJECT, r.0))
            }, with_kids(from, r.1), with_kids(to, r.2))
        }),
{
    reveal(merge_gen_members);
    reveal_with_fuel(merge_gen, 2);
}

/// The member patches when both member lists are used up.
pub proof fn lemma_mgm_empty(fs: Seq<JsonNode>, ts: Seq<JsonNode>, cs: bool, close: spec_fn(u64, u64) -> bool)
    requires
        fs.len() == 0,
        ts.len() == 0,
    ensures
        merge_gen_members(fs, ts, cs, close) == (Seq::<JsonNode>::empty(), Seq::<JsonNode>::empty(), Seq::<JsonNode>::empty()),
{
    reveal(merge_gen_members);
}

/// The member patches when the next key is only `from`'s.
pub proof fn lemma_mgm_remove(fs: Seq<JsonNode>, ts: Seq<JsonNode>, cs: bool, close: spec_fn(u64, u64) -> bool)
    requires
        fs.len() > 0,
        ts.len() == 0 || key_diff(fs[0].string, ts[0].string, true) < 0,
    ensures
        merge_gen_members(fs, ts, cs, close) == ({
            let r = merge_gen_members(fs.subrange(1, fs.len() as int), ts, cs, close);
            ((match fs[0].string {
                Some(k) => seq![keyed(node_of_type(CJSON_NULL), k, false)],
                None => Seq::empty(),
            }) + r.0, seq![fs[0]] + r.1, r.2)
        }),
{
    reveal(merge_gen_members);
}

/// The member patches when the next key is only `to`'s.
pub proof fn lemma_mgm_add(fs: Seq<JsonNode>, ts: Seq<JsonNode>, cs: bool, close: spec_fn(u64, u64) -> bool)
    requires
        ts.len() > 0,
        fs.len() == 0 || key_diff(fs[0].string, ts[0].string, true) > 0,
    ensures
        merge_gen_members(fs, ts, cs, close) == ({
            let r = merge_gen_members(fs, ts.subrange(1, ts.len() as int), cs, close);
            ((match (ts[0].string, dup_tree(ts[0], 0, true)) {
                (Some(k), Some(d)) => seq![keyed(d, k, false)],
                _ => Seq::empty(),
            }) + r.0, r.1, seq![ts[0]] + r.2)
        }),
{
    reveal(merge_gen_members);
}

/// The member patches when both have the next key.
pub proof fn lemma_mgm_pair(fs: Seq<JsonNode>, ts: Seq<JsonNode>, cs: bool, close: spec_fn(u64, u64) -> bool)
    requires
        fs.len() > 0,
        ts.len() > 0,
        key_diff(fs[0].string, ts[0].string, true) == 0,
    ensures
        merge_gen_members(fs, ts, cs, close) == ({
            let c = compared(fs[0], ts[0], cs, close);
            let r = merge_gen_members(fs.subrange(1, fs.len() as int), ts.subrange(1, ts.len() as int), cs, close);
            if json_equal(fs[0], ts[0], cs, close) {
                (r.0, seq![c.0] + r.1, seq![c.1] + r.2)
            } else {
                let g = merge_gen(c.0, c.1, false, close);
                ((match (ts[0].string, g.0) {
                    (Some(k), Some(p)) => seq![keyed(p, k, false)],
                    _ => Seq::empty(),
                }) + r.0, seq![g.1] + r.1, seq![g.2] + r.2)
            }
        }),
{
    reveal(merge_gen_members);
}

/// When `to` is not an object, the merge patch generated from `from` to
/// `to` is a copy of `to`, and merging it into `from` gives that copy,
/// which `cjson_compare` judges equal to `to` (when `to` can be compared
/// with a copy of itself).
pub proof fn law_merge_restores_non_object(from: JsonNode, to: JsonNode, close: spec_fn(u64, u64) -> bool)
    requires
        type_byte(to.type_) != CJSON_OBJECT,
        crate::manip::self_comparable(to, true, close),
        dup_tree(to, 0, true) is Some,
    ensures
        merge_gen(from, to, false, close) == (dup_tree(to, 0, true), from, to),
        merged(Some(from), dup_tree(to, 0, true).unwrap(), false) == dup_tree(to, 0, true),
        crate::manip::same_tree(dup_tree(to, 0, true).unwrap(), to, true, close),
{
    let d = dup_tree(to, 0, true).unwrap();
    crate::model::lemma_type_words(to.type_);
    assert(type_byte(d.type_) == type_byte(to.type_));
    crate::manip::law_duplicate_twice(to, 0);
    crate::manip::law_duplicate_compares_equal(to, 0, true, close);
}

/// Appends `item` under a copy of the key `key`, when both are present.
fn add_keyed(patch: &mut Vec<CJson>, key: &Option<Vec<u8>>, item: Option<CJson>)
    ensures
        views(final(patch)@) == views(old(patch)@) + match (opt_view(*key), opt_node(item)) {
            (Some(k), Some(d)) => seq![keyed(d, k, false)],
            _ => Seq::empty(),
        },
{
    match (key, item) {
        (Some(k), Some(d)) => {
            let mut d = d;
            let ghost before = d@;
            d.string = Some(crate::text::c_string(k.as_slice()));
            d.type_ = d.type_ & !crate::model::CJSON_STRING_IS_CONST;
            proof {
                lemma_view_child(d);
                assert(d@ =~= keyed(before, k@, false));
            }
            let ghost pv = patch@;
            patch.push(d);
            proof {
                lemma_views_push(pv, d);
                assert(views(pv).push(d@) =~= views(pv) + seq![d@]);
            }
        },
        _ => {
            assert(views(patch@) + Seq::<JsonNode>::empty() =~= views(patch@));
        },
    }
}

/// The merge patch that turns `from` into `to`; sorts the members of both
/// objects, and of what comparing their members reaches, in place.
#[verifier::rlimit(60)]
pub fn generate_merge_patch<C: Fn(u64, u64) -> bool>(from: &mut CJson, to: &mut CJson, case_sensitive: bool, close: &C) -> (r: Option<CJson>)
    requires
        closer_ok(*close),
    ensures
        (opt_node(r), final(from)@, final(to)@) == merge_gen(old(from)@, old(to)@, case_sensitive, closer_fn(*close)),
    decreases node_count(old(from)@) + node_count(old(to)@), 1int,
{
    if to.base_type() != CJSON_OBJECT || from.base_type() != CJSON_OBJECT {
        return cjson_duplicate(to, true);
    }
    proof {
        lemma_view_child(*from);
        lemma_view_child(*to);
        assert(node_count(from@) == 1 + list_count(from@.child));
        assert(node_count(to@) == 1 + list_count(to@.child));
        lemma_count_sorted(from@.child, case_sensitive);
        lemma_count_sorted(to@.child, case_sensitive);
    }
    let ghost f0 = from@;
    let ghost t0 = to@;
    let ghost cl = closer_fn(*close);
    let mut fs: Vec<CJson> = Vec::new();
    std::mem::swap(&mut fs, &mut from.child);
    let mut ts: Vec<CJson> = Vec::new();
    std::mem::swap(&mut ts, &mut to.child);
    fs = sort_list(fs, case_sensitive);
    ts = sort_list(ts, case_sensitive);
    let ghost vf = views(fs@);
    let ghost vt = views(ts@);
    let ghost total = merge_gen_members(vf, vt, case_sensitive, cl);
    let mut members: Vec<CJson> = Vec::new();
    let nf = fs.len();
    let nt = ts.len();
    let mut i: usize = 0;
    let mut j: usize = 0;
    proof {
        assert(vf.subrange(0, nf as int) =~= vf);
        assert(vt.subrange(0, nt as int) =~= vt);
        assert(views(members@) =~= Seq::<JsonNode>::empty());
        assert(Seq::<JsonNode>::empty() + total.0 =~= total.0);
        assert(views(fs@).subrange(0, 0) + total.1 =~= total.1);
        assert(views(ts@).subrange(0, 0) + total.2 =~= total.2);
    }
    while i < nf || j < nt
        invariant
            i <= nf,
            j <= nt,
            nf == fs@.len(),
            nt == ts@.len(),
            vf.len() == nf,
            vt.len() == nt,
            cl == closer_fn(*close),
            closer_ok(*close),
            f0 == old(from)@,
            t0 == old(to)@,
            list_count(vf) + list_count(vt) < node_count(f0) + node_count(t0),
            total == merge_gen_members(vf, vt, case_sensitive, cl),
            views(fs@).subrange(i as int, nf as int) == vf.subrange(i as int, nf as int),
            views(ts@).subrange(j as int, nt as int) == vt.subrange(j as int, nt as int),
            total == ({
                let r = merge_gen_members(vf.subrange(i as int, nf as int), vt.subrange(j as int, nt as int), case_sensitive, cl);
                (views(members@) + r.0, views(fs@).subrange(0, i as int) + r.1, views(ts@).subrange(0, j as int) + r.2)
            }),
        decreases (nf - i) + (nt - j),
    {
        let ghost x = vf.subrange(i as int, nf as int);
        let ghost y = vt.subrange(j as int, nt as int);
        let ghost before = views(members@);
        let ghost fs0 = fs@;
        let ghost ts0 = ts@;
        proof {
            if i < nf {
                assert(x[0] == views(fs@)[i as int]);
                assert(x.subrange(1, x.len() as int) =~= vf.subrange(i + 1, nf as int));
                lemma_list_count(vf, i as int);
            }
            if j < nt {
                assert(y[0] == views(ts@)[j as int]);
                assert(y.subrange(1, y.len() as int) =~= vt.subrange(j + 1, nt as int));
                lemma_list_count(vt, j as int);
            }
        }
        let diff: i32 = if i < nf && j < nt {
            compare_strings(&fs[i].string, &ts[j].string, true)
        } else if i < nf {
            -1
        } else {
            1
        };
        if diff < 0 {
            proof {
                lemma_mgm_remove(x, y, case_sensitive, cl);
            }
            let item = Some(crate::manip::cjson_create_null());
            add_keyed(&mut members, &fs[i].string, item);
            i += 1;
            proof {
                let r = merge_gen_members(vf.subrange(i as int, nf as int), vt.subrange(j as int, nt as int), case_sensitive, cl);
                assert(views(fs@).subrange(0, i as int) =~= views(fs@).subrange(0, i - 1) + seq![x[0]]);
                assert(views(members@) + r.0 =~= before + (views(members@).skip(before.len() as int) + r.0));
                assert(views(fs@).subrange(0, i - 1) + seq![x[0]] + r.1 =~= views(fs@).subrange(0, i - 1) + (seq![x[0]] + r.1));
            }
        } else if diff > 0 {
            proof {
                lemma_mgm_add(x, y, case_sensitive, cl);
            }
            let item = cjson_duplicate(&ts[j], true);
            add_keyed(&mut members, &ts[j].string, item);
            j += 1;
            proof {
                let r = merge_gen_members(vf.subrange(i as int, nf as int), vt.subrange(j as int, nt as int), case_sensitive, cl);
                assert(views(ts@).subrange(0, j as int) =~= views(ts@).subrange(0, j - 1) + seq![y[0]]);
                assert(views(members@) + r.0 =~= before + (views(members@).skip(before.len() as int) + r.0));
                assert(views(ts@).subrange(0, j - 1) + seq![y[0]] + r.2 =~= views(ts@).subrange(0, j - 1) + (seq![y[0]] + r.2));
            }
        } else {
            proof {
                lemma_compared_count(x[0], y[0], case_sensitive, cl);
                lemma_mgm_pair(x, y, case_sensitive, cl);
            }
            let same = compare_json(&mut fs[i], &mut ts[j], case_sensitive, close);
            let ghost c = compared(x[0], y[0], case_sensitive, cl);
            proof {
                lemma_views_ops(fs0, i as int, fs@[i as int]);
                lemma_views_ops(ts0, j as int, ts@[j as int]);
                assert(fs@ == fs0.update(i as int, fs@[i as int]));
                assert(ts@ == ts0.update(j as int, ts@[j as int]));
            }
            let ghost fs1 = fs@;
            let ghost ts1 = ts@;
            if !same {
                let item = generate_merge_patch(&mut fs[i], &mut ts[j], false, close);
                proof {
                    lemma_views_ops(fs1, i as int, fs@[i as int]);
                    lemma_views_ops(ts1, j as int, ts@[j as int]);
                    assert(fs@ == fs1.update(i as int, fs@[i as int]));
                    assert(ts@ == ts1.update(j as int, ts@[j as int]));
                }
                add_keyed(&mut members, &ts[j].string, item);
            }
            i += 1;
            j += 1;
            proof {
                let r = merge_gen_members(vf.subrange(i as int, nf as int), vt.subrange(j as int, nt as int), case_sensitive, cl);
                assert(views(fs@).subrange(i as int, nf as int) =~= vf.subrange(i as int, nf as int));
                assert(views(ts@).subrange(j as int, nt as int) =~= vt.subrange(j as int, nt as int));
                assert(views(fs@).subrange(0, i as int) =~= views(fs0).subrange(0, i - 1) + seq![fs@[i - 1]@]);
                assert(views(ts@).subrange(0, j as int) =~= views(ts0).subrange(0, j - 1) + seq![ts@[j - 1]@]);
                assert(views(members@) + r.0 =~= before + (views(members@).skip(before.len() as int) + r.0));
                assert(views(fs0).subrange(0, i - 1) + seq![fs@[i - 1]@] + r.1 =~= views(fs0).subrange(0, i - 1) + (seq![fs@[i - 1]@] + r.1));
                assert(views(ts0).subrange(0, j - 1) + seq![ts@[j - 1]@] + r.2 =~= views(ts0).subrange(0, j - 1) + (seq![ts@[j - 1]@] + r.2));
            }
        }
    }
    proof {
        assert(vf.subrange(nf as int, nf as int) =~= Seq::<JsonNode>::empty());
        assert(vt.subrange(nt as int, nt as int) =~= Seq::<JsonNode>::empty());
        lemma_mgm_empty(vf.subrange(nf as int, nf as int), vt.subrange(nt as int, nt as int), case_sensitive, cl);
        assert(views(members@) + Seq::<JsonNode>::empty() =~= views(members@));
        assert(views(fs@).subrange(0, nf as int) + Seq::<JsonNode>::empty() =~= views(fs@));
        assert(views(ts@).subrange(0, nt as int) + Seq::<JsonNode>::empty() =~= views(ts@));
    }
    from.child = fs;
    to.child = ts;
    proof {
        lemma_view_child(*from);
        lemma_view_child(*to);
        assert(from@ =~= with_kids(f0, total.1));
        assert(to@ =~= with_kids(t0, total.2));
        assert(vf == sorted_spec(f0.child, case_sensitive));
        assert(vt == sorted_spec(t0.child, case_sensitive));
        assert(type_byte(f0.type_) == CJSON_OBJECT);
        assert(type_byte(t0.type_) == CJSON_OBJECT);
        assert(total == merge_gen_members(sorted_spec(f0.child, case_sensitive), sorted_spec(t0.child, case_sensitive), case_sensitive, cl));
        lemma_merge_gen_objects(f0, t0, case_sensitive, cl);
        assert(merge_gen(f0, t0, case_sensitive, cl) == (if total.0.len() == 0 {
            None
        } else {
            Some(holder_node(CJSON_OBJECT, total.0))
        }, with_kids(f0, total.1), with_kids(t0, total.2)));
    }
    if members.len() == 0 {
        return None;
    }
    let mut patch = crate::model::new_item(CJSON_OBJECT);
    patch.child = members;
    proof {
        lemma_view_child(patch);
        assert(patch@ =~= holder_node(CJSON_OBJECT, total.0));
    }
    Some(patch)
}

/// The merge patch that turns `from` into `to`, keys sorted up to ASCII
/// case; `null` when there is no `to`.
pub fn cjson_utils_generate_merge_patch<C: Fn(u64, u64) -> bool>(from: &mut CJson, to: Option<&mut CJson>, close: &C) -> (r: Option<CJson>)
    requires
        closer_ok(*close),
    ensures
        match to {
            None => opt_node(r) == Some(node_of_type(CJSON_NULL)) && final(from)@ == old(from)@,
            Some(t) => (opt_node(r), final(from)@, final(t)@) == merge_gen(old(from)@, (*t)@, false, closer_fn(*close)),
        },
{
    match to {
        None => Some(crate::manip::cjson_create_null()),
        Some(t) => generate_merge_patch(from, t, false, close),
    }
}

/// The merge patch that turns `from` into `to`, keys sorted exactly;
/// `null` when there is no `to`.
pub fn cjson_utils_generate_merge_patch_case_sensitive<C: Fn(u64, u64) -> bool>(
    from: &mut CJson,
    to: Option<&mut CJson>,
    close: &C,
) -> (r: Option<CJson>)
    requires
        closer_ok(*close),
    ensures
        match to {
            None => opt_node(r) == Some(node_of_type(CJSON_NULL)) && final(from)@ == old(from)@,
            Some(t) => (opt_node(r), final(from)@, final(t)@) == merge_gen(old(from)@, (*t)@, true, closer_fn(*close)),
        },
{
    match to {
        None => Some(crate::manip::cjson_create_null()),
        Some(t) => generate_merge_patch(from, t, true, close),
    }
}


// ---------------------------------------------------------------------------
// Generating patches (RFC 6902).
// ---------------------------------------------------------------------------

/// `s` as a pointer token: `~` written `~0` and `/` written `~1`.
pub open spec fn encode_pointer(s: Seq<u8>) -> Seq<u8>
    decreases s.len(),
{
    if s.len() == 0 {
        Seq::empty()
    } else {
        let c = s.last();
        encode_pointer(s.drop_last()) + if c == 47 {
            seq![126u8, 49u8]
        } else if c == 126 {
            seq![126u8, 48u8]
        } else {
            seq![c]
        }
    }
}

/// The length of the C string `string` written as a pointer token.
pub fn pointer_encoded_length(string: &[u8]) -> (r: usize)
    ensures
        r == encode_pointer(cstr(string@)).len(),
{
    let mut out: Vec<u8> = Vec::new();
    encode_string_as_pointer(&mut out, string);
    out.len()
}

/// Appends the C string `source` written as a pointer token.
pub fn encode_string_as_pointer(destination: &mut Vec<u8>, source: &[u8])
    ensures
        final(destination)@ == old(destination)@ + encode_pointer(cstr(source@)),
{
    let mut i: usize = 0;
    while i < source.len() && source[i] != 0
        invariant
            i <= source@.len(),
            forall|j: int| 0 <= j < i ==> source@[j] != 0,
            destination@ == old(destination)@ + encode_pointer(source@.take(i as int)),
        decreases source@.len() - i,
    {
        let c = source[i];
        if c == 47 {
            destination.push(126);
            destination.push(49);
        } else if c == 126 {
            destination.push(126);
            destination.push(48);
        } else {
            destination.push(c);
        }
        proof {
            assert(source@.take(i + 1).drop_last() =~= source@.take(i as int));
        }
        i += 1;
        assert(destination@ =~= old(destination)@ + encode_pointer(source@.take(i as int)));
    }
    proof {
        crate::text::lemma_nul_index_unique(source@, i as int);
    }
}

pub proof fn lemma_encode_no_nul(s: Seq<u8>)
    requires
        crate::text::no_nul(s),
    ensures
        crate::text::no_nul(encode_pointer(s)),
    decreases s.len(),
{
    if s.len() > 0 {
        lemma_encode_no_nul(s.drop_last());
    }
}

pub open spec fn key_op() -> Seq<u8> {
    seq![111u8, 112u8]
}

pub open spec fn key_path() -> Seq<u8> {
    seq![112u8, 97u8, 116u8, 104u8]
}

pub open spec fn key_value() -> Seq<u8> {
    seq![118u8, 97u8, 108u8, 117u8, 101u8]
}

pub open spec fn key_from() -> Seq<u8> {
    seq![102u8, 114u8, 111u8, 109u8]
}

pub open spec fn op_add() -> Seq<u8> {
    seq![97u8, 100u8, 100u8]
}

pub open spec fn op_remove() -> Seq<u8> {
    seq![114u8, 101u8, 109u8, 111u8, 118u8, 101u8]
}

pub open spec fn op_replace() -> Seq<u8> {
    seq![114u8, 101u8, 112u8, 108u8, 97u8, 99u8, 101u8]
}

/// The path of a patch: `path`, or `path/suffix` with the suffix written
/// as a pointer token.
pub open spec fn patch_path(path: Seq<u8>, suffix: Option<Seq<u8>>) -> Seq<u8> {
    match suffix {
        None => cstr(path),
        Some(x) => cstr(path) + seq![47u8] + encode_pointer(cstr(x)),
    }
}

/// A patch object: `op`, `path`, and a copy of `value` when there is one
/// and it can be copied.
pub open spec fn patch_node(op: Seq<u8>, path: Seq<u8>, value: Option<JsonNode>) -> JsonNode {
    let base = seq![keyed(text_node(CJSON_STRING, op), key_op(), false), keyed(text_node(CJSON_STRING, path), key_path(), false)];
    holder_node(
        CJSON_OBJECT,
        match value {
            Some(v) => match dup_tree(v, 0, true) {
                Some(d) => base.push(keyed(d, key_value(), false)),
                None => base,
            },
            None => base,
        },
    )
}

/// Appends a patch with the operation `operation`, the path `path` (with
/// `suffix` as a last token) and a copy of `value`.
pub fn compose_patch(patches: &mut Vec<CJson>, operation: &[u8], path: &[u8], suffix: Option<&[u8]>, value: Option<&CJson>)
    ensures
        views(final(patches)@) == views(old(patches)@).push(
            patch_node(
                operation@,
                patch_path(path@, match suffix {
                    Some(x) => Some(x@),
                    None => None,
                }),
                match value {
                    Some(v) => Some(v@),
                    None => None,
                },
            ),
        ),
{
    let ghost sfx: Option<Seq<u8>> = match suffix {
        Some(x) => Some(x@),
        None => None,
    };
    let ghost val: Option<JsonNode> = match value {
        Some(v) => Some(v@),
        None => None,
    };
    let mut patch = crate::model::new_item(CJSON_OBJECT);
    let k_op: [u8; 2] = [111, 112];
    let k_path: [u8; 4] = [112, 97, 116, 104];
    let k_value: [u8; 5] = [118, 97, 108, 117, 101];
    assert(k_op@ =~= key_op());
    assert(k_path@ =~= key_path());
    assert(k_value@ =~= key_value());
    let ghost e_op = keyed(text_node(CJSON_STRING, operation@), key_op(), false);
    add_item_to_object(&mut patch, &k_op, crate::manip::cjson_create_string(operation), false);
    assert(patch@.child =~= seq![e_op]);
    let mut full: Vec<u8> = crate::text::c_string(path);
    match suffix {
        None => {},
        Some(x) => {
            full.push(47);
            encode_string_as_pointer(&mut full, x);
        },
    }
    proof {
        crate::text::lemma_cstr_no_nul(path@);
        match suffix {
            Some(x) => {
                crate::text::lemma_cstr_no_nul(x@);
                lemma_encode_no_nul(cstr(x@));
            },
            None => {},
        }
        assert(crate::text::no_nul(full@));
        crate::text::lemma_cstr_of_no_nul(full@);
        assert(full@ =~= patch_path(path@, sfx));
    }
    let ghost e_path = keyed(text_node(CJSON_STRING, patch_path(path@, sfx)), key_path(), false);
    add_item_to_object(&mut patch, &k_path, crate::manip::cjson_create_string(full.as_slice()), false);
    assert(patch@.child =~= seq![e_op, e_path]);
    match value {
        None => {},
        Some(v) => {
            match cjson_duplicate(v, true) {
                None => {},
                Some(d) => {
                    add_item_to_object(&mut patch, &k_value, d, false);
                },
            }
        },
    }
    proof {
        lemma_view_child(patch);
        assert(patch@ =~= patch_node(operation@, patch_path(path@, sfx), val));
    }
    let ghost pv = patches@;
    patches.push(patch);
    proof {
        lemma_views_push(pv, patch);
    }
}


/// The patches that turn `from` into `to` at the pointer `path`: a
/// replacement when the types, integer values, doubles (by `close`) or
/// strings differ; for arrays, the patches of the common elements, then
/// the removal of surplus elements and the addition of missing ones; for
/// objects (members sorted by key), the patches of common members, the
/// removal of members only `from` has and the addition of members only
/// `to` has.
pub open spec fn patch_list(path: Seq<u8>, from: JsonNode, to: JsonNode, cs: bool, close: spec_fn(u64, u64) -> bool) -> Seq<JsonNode>
    decreases node_count(from) + node_count(to), 1int,
{
    let t = type_byte(from.type_);
    let replace = seq![patch_node(op_replace(), patch_path(path, None), Some(to))];
    if t != type_byte(to.type_) {
        replace
    } else if t == CJSON_NUMBER {
        if from.valueint != to.valueint || !close(from.valuedouble, to.valuedouble) {
            replace
        } else {
            Seq::empty()
        }
    } else if t == CJSON_STRING {
        if c_str_diff(text_of(from), text_of(to), false) != 0 {
            replace
        } else {
            Seq::empty()
        }
    } else if t == CJSON_ARRAY {
        array_patches(path, from.child, to.child, 0, cs, close)
    } else if t == CJSON_OBJECT {
        proof {
            lemma_count_sorted(from.child, cs);
            lemma_count_sorted(to.child, cs);
        }
        object_patches(path, sorted_spec(from.child, cs), sorted_spec(to.child, cs), cs, close)
    } else {
        Seq::empty()
    }
}

/// The patches between the array elements `fs` and `ts`, the first of
/// them at position `index`.
pub open spec fn array_patches(path: Seq<u8>, fs: Seq<JsonNode>, ts: Seq<JsonNode>, index: nat, cs: bool, close: spec_fn(u64, u64) -> bool) -> Seq<JsonNode>
    decreases list_count(fs) + list_count(ts), 2int,
{
    if fs.len() > 0 && ts.len() > 0 {
        proof {
            assert(list_count(fs) == node_count(fs[0]) + list_count(fs.subrange(1, fs.len() as int)));
            assert(list_count(ts) == node_count(ts[0]) + list_count(ts.subrange(1, ts.len() as int)));
            assert(node_count(fs[0]) >= 1);
        }
        patch_list(cstr(path) + seq![47u8] + crate::float::dec_digits(index), fs[0], ts[0], cs, close) + array_patches(
            path,
            fs.subrange(1, fs.len() as int),
            ts.subrange(1, ts.len() as int),
            index + 1,
            cs,
            close,
        )
    } else if fs.len() > 0 {
        proof {
            assert(list_count(fs) == node_count(fs[0]) + list_count(fs.subrange(1, fs.len() as int)));
            assert(node_count(fs[0]) >= 1);
        }
        seq![patch_node(op_remove(), patch_path(path, Some(crate::float::dec_digits(index))), None)] + array_patches(
            path,
            fs.subrange(1, fs.len() as int),
            ts,
            index,
            cs,
            close,
        )
    } else if ts.len() > 0 {
        proof {
            assert(list_count(ts) == node_count(ts[0]) + list_count(ts.subrange(1, ts.len() as int)));
            assert(node_count(ts[0]) >= 1);
        }
        seq![patch_node(op_add(), patch_path(path, Some(seq![45u8])), Some(ts[0]))] + array_patches(
            path,
            fs,
            ts.subrange(1, ts.len() as int),
            index,
            cs,
            close,
        )
    } else {
        Seq::empty()
    }
}

/// The patches between the sorted object members `fs` and `ts`.
pub open spec fn object_patches(path: Seq<u8>, fs: Seq<JsonNode>, ts: Seq<JsonNode>, cs: bool, close: spec_fn(u64, u64) -> bool) -> Seq<JsonNode>
    decreases list_count(fs) + list_count(ts), 2int,
{
    if fs.len() == 0 && ts.len() == 0 {
        Seq::empty()
    } else {
        let diff = if fs.len() == 0 {
            1
        } else if ts.len() == 0 {
            -1
        } else {
            key_diff(fs[0].string, ts[0].string, cs)
        };
        if diff == 0 {
            proof {
                assert(list_count(fs) == node_count(fs[0]) + list_count(fs.subrange(1, fs.len() as int)));
                assert(list_count(ts) == node_count(ts[0]) + list_count(ts.subrange(1, ts.len() as int)));
                assert(node_count(fs[0]) >= 1);
            }
            let key = match fs[0].string {
                Some(k) => k,
                None => Seq::empty(),
            };
            patch_list(cstr(path) + seq![47u8] + encode_pointer(cstr(key)), fs[0], ts[0], cs, close) + object_patches(
                path,
                fs.subrange(1, fs.len() as int),
                ts.subrange(1, ts.len() as int),
                cs,
                close,
            )
        } else if diff < 0 {
            proof {
                assert(list_count(fs) == node_count(fs[0]) + list_count(fs.subrange(1, fs.len() as int)));
                assert(node_count(fs[0]) >= 1);
            }
            seq![patch_node(op_remove(), patch_path(path, fs[0].string), None)] + object_patches(
                path,
                fs.subrange(1, fs.len() as int),
                ts,
                cs,
                close,
            )
        } else {
            proof {
                assert(list_count(ts) == node_count(ts[0]) + list_count(ts.subrange(1, ts.len() as int)));
                assert(node_count(ts[0]) >= 1);
            }
            seq![patch_node(op_add(), patch_path(path, ts[0].string), Some(ts[0]))] + object_patches(
                path,
                fs,
                ts.subrange(1, ts.len() as int),
                cs,
                close,
            )
        }
    }
}

/// Appends the patches that turn `from` into `to` at the pointer `path`.
#[verifier::rlimit(60)]
pub fn create_patches<C: Fn(u64, u64) -> bool>(
    patches: &mut Vec<CJson>,
    path: &Vec<u8>,
    from: &CJson,
    to: &CJson,
    case_sensitive: bool,
    close: &C,
)
    requires
        closer_ok(*close),
    ensures
        views(final(patches)@) == views(old(patches)@) + patch_list(path@, from@, to@, case_sensitive, closer_fn(*close)),
    decreases node_count(from@) + node_count(to@), 1int,
{
    let ghost total = views(patches@) + patch_list(path@, from@, to@, case_sensitive, closer_fn(*close));
    let op_r: [u8; 7] = [114, 101, 112, 108, 97, 99, 101];
    let op_rm: [u8; 6] = [114, 101, 109, 111, 118, 101];
    let op_a: [u8; 3] = [97, 100, 100];
    assert(op_r@ =~= op_replace());
    assert(op_rm@ =~= op_remove());
    assert(op_a@ =~= op_add());
    let t = from.base_type();
    let mut replace = t != to.base_type();
    if !replace && t == CJSON_NUMBER {
        if from.valueint != to.valueint {
            replace = true;
        } else {
            let c = close(from.valuedouble, to.valuedouble);
            proof {
                lemma_closer(*close, from.valuedouble, to.valuedouble, c);
            }
            replace = !c;
        }
    } else if !replace && t == CJSON_STRING {
        let empty: Vec<u8> = Vec::new();
        let x = match &from.valuestring {
            Some(v) => v.as_slice(),
            None => empty.as_slice(),
        };
        let y = match &to.valuestring {
            Some(v) => v.as_slice(),
            None => empty.as_slice(),
        };
        replace = str_compare(x, y, false) != 0;
    }
    if replace {
        compose_patch(patches, &op_r, path.as_slice(), None, Some(to));
        proof {
            assert(views(old(patches)@).push(patch_node(op_replace(), patch_path(path@, None), Some(to@))) =~= total);
        }
        return;
    }
    if t != CJSON_ARRAY && t != CJSON_OBJECT {
        assert(views(patches@) =~= total);
        return;
    }
    proof {
        lemma_view_child(*from);
        lemma_view_child(*to);
        assert(node_count(from@) == 1 + list_count(from@.child));
        assert(node_count(to@) == 1 + list_count(to@.child));
        if t == CJSON_OBJECT {
            lemma_count_sorted(from@.child, case_sensitive);
            lemma_count_sorted(to@.child, case_sensitive);
        }
    }
    let is_obj = t == CJSON_OBJECT;
    let fs: Vec<CJson> = if is_obj { sort_list(copy_all(&from.child), case_sensitive) } else { copy_all(&from.child) };
    let ts: Vec<CJson> = if is_obj { sort_list(copy_all(&to.child), case_sensitive) } else { copy_all(&to.child) };
    let ghost vf = views(fs@);
    let ghost vt = views(ts@);
    let ghost cl = closer_fn(*close);
    let nf = fs.len();
    let nt = ts.len();
    let mut i: usize = 0;
    let mut j: usize = 0;
    let mut index: usize = 0;
    proof {
        assert(vf.subrange(0, nf as int) =~= vf);
        assert(vt.subrange(0, nt as int) =~= vt);
    }
    while i < nf || j < nt
        invariant
            i <= nf,
            j <= nt,
            !is_obj ==> ((i == index && j == index) || (j == nt && index == nt && i >= index) || (i == nf
                && index == nf && j >= index)),
            nf == fs@.len(),
            nt == ts@.len(),
            vf == views(fs@),
            vt == views(ts@),
            cl == closer_fn(*close),
            closer_ok(*close),
            op_rm@ == op_remove(),
            op_a@ == op_add(),
            list_count(vf) + list_count(vt) < node_count(from@) + node_count(to@),
            total == views(patches@) + (if is_obj {
                object_patches(path@, vf.subrange(i as int, nf as int), vt.subrange(j as int, nt as int), case_sensitive, cl)
            } else {
                array_patches(path@, vf.subrange(i as int, nf as int), vt.subrange(j as int, nt as int), index as nat, case_sensitive, cl)
            }),
        decreases (nf - i) + (nt - j),
    {
        let ghost x = vf.subrange(i as int, nf as int);
        let ghost y = vt.subrange(j as int, nt as int);
        let ghost before = views(patches@);
        proof {
            if i < nf {
                assert(x[0] == fs@[i as int]@);
                assert(x.subrange(1, x.len() as int) =~= vf.subrange(i + 1, nf as int));
                lemma_list_count(vf, i as int);
            }
            if j < nt {
                assert(y[0] == ts@[j as int]@);
                assert(y.subrange(1, y.len() as int) =~= vt.subrange(j + 1, nt as int));
                lemma_list_count(vt, j as int);
            }
        }
        let ghost rest_old = if is_obj {
            object_patches(path@, x, y, case_sensitive, cl)
        } else {
            array_patches(path@, x, y, index as nat, case_sensitive, cl)
        };
        let ghost mut head: Seq<JsonNode> = Seq::empty();
        if !is_obj {
            if i < nf && j < nt {
                let mut np = crate::text::c_string(path.as_slice());
                np.push(47);
                crate::float::push_decimal(&mut np, index as u64);
                create_patches(patches, &np, &fs[i], &ts[j], case_sensitive, close);
                proof {
                    head = patch_list(np@, x[0], y[0], case_sensitive, cl);
                    assert(np@ =~= cstr(path@) + seq![47u8] + crate::float::dec_digits(index as nat));
                }
                i += 1;
                j += 1;
                index += 1;
            } else if i < nf {
                let mut sfx: Vec<u8> = Vec::new();
                crate::float::push_decimal(&mut sfx, index as u64);
                assert(sfx@ =~= crate::float::dec_digits(index as nat));
                compose_patch(patches, &op_rm, path.as_slice(), Some(sfx.as_slice()), None);
                proof {
                    head = seq![patch_node(op_remove(), patch_path(path@, Some(crate::float::dec_digits(index as nat))), None)];
                }
                i += 1;
            } else {
                let dash: [u8; 1] = [45];
                assert(dash@ =~= seq![45u8]);
                compose_patch(patches, &op_a, path.as_slice(), Some(&dash), Some(&ts[j]));
                proof {
                    head = seq![patch_node(op_add(), patch_path(path@, Some(seq![45u8])), Some(y[0]))];
                }
                j += 1;
            }
        } else {
            let diff: i32 = if i >= nf {
                1
            } else if j >= nt {
                -1
            } else {
                compare_strings(&fs[i].string, &ts[j].string, case_sensitive)
            };
            if diff == 0 {
                let mut np = crate::text::c_string(path.as_slice());
                np.push(47);
                match &fs[i].string {
                    Some(k) => encode_string_as_pointer(&mut np, k.as_slice()),
                    None => {},
                }
                proof {
                    assert(cstr(Seq::<u8>::empty()) =~= Seq::<u8>::empty()) by {
                        crate::text::lemma_nul_index_unique(Seq::<u8>::empty(), 0);
                    }
                    assert(encode_pointer(Seq::<u8>::empty()) =~= Seq::<u8>::empty());
                    let key = match x[0].string {
                        Some(k) => k,
                        None => Seq::empty(),
                    };
                    assert(np@ =~= cstr(path@) + seq![47u8] + encode_pointer(cstr(key)));
                }
                create_patches(patches, &np, &fs[i], &ts[j], case_sensitive, close);
                proof {
                    head = patch_list(np@, x[0], y[0], case_sensitive, cl);
                }
                i += 1;
                j += 1;
            } else if diff < 0 {
                match &fs[i].string {
                    Some(k) => compose_patch(patches, &op_rm, path.as_slice(), Some(k.as_slice()), None),
                    None => compose_patch(patches, &op_rm, path.as_slice(), None, None),
                }
                proof {
                    head = seq![patch_node(op_remove(), patch_path(path@, x[0].string), None)];
                }
                i += 1;
            } else {
                match &ts[j].string {
                    Some(k) => compose_patch(patches, &op_a, path.as_slice(), Some(k.as_slice()), Some(&ts[j])),
                    None => compose_patch(patches, &op_a, path.as_slice(), None, Some(&ts[j])),
                }
                proof {
                    head = seq![patch_node(op_add(), patch_path(path@, y[0].string), Some(y[0]))];
                }
                j += 1;
            }
        }
        proof {
            let rest_new = if is_obj {
                object_patches(path@, vf.subrange(i as int, nf as int), vt.subrange(j as int, nt as int), case_sensitive, cl)
            } else {
                array_patches(path@, vf.subrange(i as int, nf as int), vt.subrange(j as int, nt as int), index as nat, case_sensitive, cl)
            };
            assert(views(patches@) =~= before + head);
            assert(rest_old == head + rest_new);
            assert(total =~= views(patches@) + rest_new);
        }
    }
    proof {
        assert(vf.subrange(nf as int, nf as int) =~= Seq::<JsonNode>::empty());
        assert(vt.subrange(nt as int, nt as int) =~= Seq::<JsonNode>::empty());
        assert(views(patches@) + Seq::<JsonNode>::empty() =~= views(patches@));
    }
}

/// The two documents after the patches between them have been generated:
/// the members of every pair of objects reached are sorted by key, pairs
/// being reached through elements at the same index and members under the
/// same key.
pub open spec fn diffed(f: JsonNode, t: JsonNode, cs: bool) -> (JsonNode, JsonNode)
    decreases node_count(f) + node_count(t), 1int,
{
    let ty = type_byte(f.type_);
    if ty != type_byte(t.type_) {
        (f, t)
    } else if ty == CJSON_ARRAY {
        let (x, y) = diffed_items(f.child, t.child, cs);
        (with_kids(f, x), with_kids(t, y))
    } else if ty == CJSON_OBJECT {
        proof {
            lemma_count_sorted(f.child, cs);
            lemma_count_sorted(t.child, cs);
        }
        let (x, y) = diffed_members(sorted_spec(f.child, cs), sorted_spec(t.child, cs), cs);
        (with_kids(f, x), with_kids(t, y))
    } else {
        (f, t)
    }
}

/// The array elements `fs` and `ts` after the pairs at the same index have
/// been reached.
pub open spec fn diffed_items(fs: Seq<JsonNode>, ts: Seq<JsonNode>, cs: bool) -> (Seq<JsonNode>, Seq<JsonNode>)
    decreases list_count(fs) + list_count(ts), 2int,
{
    if fs.len() == 0 || ts.len() == 0 {
        (fs, ts)
    } else {
        proof {
            assert(list_count(fs) == node_count(fs[0]) + list_count(fs.subrange(1, fs.len() as int)));
            assert(list_count(ts) == node_count(ts[0]) + list_count(ts.subrange(1, ts.len() as int)));
            assert(node_count(fs[0]) >= 1);
        }
        let (x, y) = diffed(fs[0], ts[0], cs);
        let (rx, ry) = diffed_items(fs.subrange(1, fs.len() as int), ts.subrange(1, ts.len() as int), cs);
        (seq![x] + rx, seq![y] + ry)
    }
}

/// The sorted object members `fs` and `ts` after the pairs under the same
/// key have been reached.
pub open spec fn diffed_members(fs: Seq<JsonNode>, ts: Seq<JsonNode>, cs: bool) -> (Seq<JsonNode>, Seq<JsonNode>)
    decreases list_count(fs) + list_count(ts), 2int,
{
    if fs.len() == 0 || ts.len() == 0 {
        (fs, ts)
    } else {
        proof {
            assert(list_count(fs) == node_count(fs[0]) + list_count(fs.subrange(1, fs.len() as int)));
            assert(list_count(ts) == node_count(ts[0]) + list_count(ts.subrange(1, ts.len() as int)));
            assert(node_count(fs[0]) >= 1);
            assert(node_count(ts[0]) >= 1);
        }
        let diff = key_diff(fs[0].string, ts[0].string, cs);
        if diff == 0 {
            let (x, y) = diffed(fs[0], ts[0], cs);
            let (rx, ry) = diffed_members(fs.subrange(1, fs.len() as int), ts.subrange(1, ts.len() as int), cs);
            (seq![x] + rx, seq![y] + ry)
        } else if diff < 0 {
            let (rx, ry) = diffed_members(fs.subrange(1, fs.len() as int), ts, cs);
            (seq![fs[0]] + rx, ry)
        } else {
            let (rx, ry) = diffed_members(fs, ts.subrange(1, ts.len() as int), cs);
            (rx, seq![ts[0]] + ry)
        }
    }
}

/// Sorts, as generating the patches between `from` and `to` does, the
/// members of every pair of objects that the generation reaches.
#[verifier::rlimit(60)]
pub fn sort_diffed(from: &mut CJson, to: &mut CJson, case_sensitive: bool)
    ensures
        (final(from)@, final(to)@) == diffed(old(from)@, old(to)@, case_sensitive),
    decreases node_count(old(from)@) + node_count(old(to)@), 1int,
{
    let t = from.base_type();
    if t != to.base_type() || (t != CJSON_ARRAY && t != CJSON_OBJECT) {
        return;
    }
    proof {
        lemma_view_child(*from);
        lemma_view_child(*to);
        assert(node_count(from@) == 1 + list_count(from@.child));
        assert(node_count(to@) == 1 + list_count(to@.child));
    }
    let ghost f0 = from@;
    let ghost t0 = to@;
    let is_obj = t == CJSON_OBJECT;
    let mut fs: Vec<CJson> = Vec::new();
    std::mem::swap(&mut fs, &mut from.child);
    let mut ts: Vec<CJson> = Vec::new();
    std::mem::swap(&mut ts, &mut to.child);
    if is_obj {
        fs = sort_list(fs, case_sensitive);
        ts = sort_list(ts, case_sensitive);
    }
    let ghost vf = views(fs@);
    let ghost vt = views(ts@);
    proof {
        if is_obj {
            lemma_count_sorted(f0.child, case_sensitive);
            lemma_count_sorted(t0.child, case_sensitive);
        }
        assert(vf.subrange(0, vf.len() as int) =~= vf);
        assert(vt.subrange(0, vt.len() as int) =~= vt);
        assert(vf.subrange(0, 0) + vf =~= vf);
        assert(vt.subrange(0, 0) + vt =~= vt);
    }
    let nf = fs.len();
    let nt = ts.len();
    let mut i: usize = 0;
    let mut j: usize = 0;
    while i < nf && j < nt
        invariant
            i <= nf,
            j <= nt,
            !is_obj ==> i == j,
            nf == fs@.len(),
            nt == ts@.len(),
            vf.len() == nf,
            vt.len() == nt,
            f0 == old(from)@,
            t0 == old(to)@,
            list_count(vf) + list_count(vt) < node_count(f0) + node_count(t0),
            diffed(f0, t0, case_sensitive) == (if is_obj {
                (with_kids(f0, diffed_members(vf, vt, case_sensitive).0), with_kids(t0, diffed_members(vf, vt, case_sensitive).1))
            } else {
                (with_kids(f0, diffed_items(vf, vt, case_sensitive).0), with_kids(t0, diffed_items(vf, vt, case_sensitive).1))
            }),
            views(fs@).subrange(i as int, nf as int) == vf.subrange(i as int, nf as int),
            views(ts@).subrange(j as int, nt as int) == vt.subrange(j as int, nt as int),
            (if is_obj {
                diffed_members(vf, vt, case_sensitive)
            } else {
                diffed_items(vf, vt, case_sensitive)
            }) == ({
                let r = if is_obj {
                    diffed_members(vf.subrange(i as int, nf as int), vt.subrange(j as int, nt as int), case_sensitive)
                } else {
                    diffed_items(vf.subrange(i as int, nf as int), vt.subrange(j as int, nt as int), case_sensitive)
                };
                (views(fs@).subrange(0, i as int) + r.0, views(ts@).subrange(0, j as int) + r.1)
            }),
        decreases (nf - i) + (nt - j),
    {
        let ghost x = vf.subrange(i as int, nf as int);
        let ghost y = vt.subrange(j as int, nt as int);
        let ghost fs0 = fs@;
        let ghost ts0 = ts@;
        proof {
            assert(x[0] == views(fs@)[i as int]);
            assert(y[0] == views(ts@)[j as int]);
            assert(x.subrange(1, x.len() as int) =~= vf.subrange(i + 1, nf as int));
            assert(y.subrange(1, y.len() as int) =~= vt.subrange(j + 1, nt as int));
            lemma_list_count(vf, i as int);
            lemma_list_count(vt, j as int);
        }
        let diff: i32 = if is_obj {
            compare_strings(&fs[i].string, &ts[j].string, case_sensitive)
        } else {
            0
        };
        if diff == 0 {
            sort_diffed(&mut fs[i], &mut ts[j], case_sensitive);
            proof {
                lemma_views_ops(fs0, i as int, fs@[i as int]);
                lemma_views_ops(ts0, j as int, ts@[j as int]);
                assert(fs@ == fs0.update(i as int, fs@[i as int]));
                assert(ts@ == ts0.update(j as int, ts@[j as int]));
            }
            i += 1;
            j += 1;
            proof {
                assert(views(fs@).subrange(i as int, nf as int) =~= vf.subrange(i as int, nf as int));
                assert(views(ts@).subrange(j as int, nt as int) =~= vt.subrange(j as int, nt as int));
                assert(views(fs@).subrange(0, i as int) =~= views(fs0).subrange(0, i - 1) + seq![fs@[i - 1]@]);
                assert(views(ts@).subrange(0, j as int) =~= views(ts0).subrange(0, j - 1) + seq![ts@[j - 1]@]);
            }
        } else if diff < 0 {
            i += 1;
            proof {
                assert(views(fs@).subrange(0, i as int) =~= views(fs@).subrange(0, i - 1) + seq![x[0]]);
            }
        } else {
            j += 1;
            proof {
                assert(views(ts@).subrange(0, j as int) =~= views(ts@).subrange(0, j - 1) + seq![y[0]]);
            }
        }
    }
    proof {
        let x = vf.subrange(i as int, nf as int);
        let y = vt.subrange(j as int, nt as int);
        assert(x.len() == 0 || y.len() == 0);
        assert(views(fs@) =~= views(fs@).subrange(0, i as int) + x);
        assert(views(ts@) =~= views(ts@).subrange(0, j as int) + y);
    }
    from.child = fs;
    to.child = ts;
    proof {
        lemma_view_child(*from);
        lemma_view_child(*to);
        if is_obj {
            assert(from@ =~= with_kids(f0, diffed_members(vf, vt, case_sensitive).0));
            assert(to@ =~= with_kids(t0, diffed_members(vf, vt, case_sensitive).1));
        } else {
            assert(from@ =~= with_kids(f0, diffed_items(vf, vt, case_sensitive).0));
            assert(to@ =~= with_kids(t0, diffed_items(vf, vt, case_sensitive).1));
        }
    }
}

/// The patches that turn `from` into `to`, as an array; object members
/// matched up to ASCII case.
pub fn cjson_utils_generate_patches<C: Fn(u64, u64) -> bool>(from: &mut CJson, to: &mut CJson, close: &C) -> (r: CJson)
    requires
        closer_ok(*close),
    ensures
        r@ == holder_node(CJSON_ARRAY, patch_list(Seq::empty(), old(from)@, old(to)@, false, closer_fn(*close))),
        (final(from)@, final(to)@) == diffed(old(from)@, old(to)@, false),
{
    let mut kids: Vec<CJson> = Vec::new();
    let path: Vec<u8> = Vec::new();
    create_patches(&mut kids, &path, from, to, false, close);
    let mut r = crate::model::new_item(CJSON_ARRAY);
    r.child = kids;
    proof {
        lemma_view_child(r);
        assert(views(Seq::<CJson>::empty()) =~= Seq::<JsonNode>::empty());
        assert(r@ =~= holder_node(CJSON_ARRAY, patch_list(Seq::empty(), from@, to@, false, closer_fn(*close))));
    }
    sort_diffed(from, to, false);
    r
}

/// The patches that turn `from` into `to`, as an array; object members
/// matched exactly.
pub fn cjson_utils_generate_patches_case_sensitive<C: Fn(u64, u64) -> bool>(from: &mut CJson, to: &mut CJson, close: &C) -> (r: CJson)
    requires
        closer_ok(*close),
    ensures
        r@ == holder_node(CJSON_ARRAY, patch_list(Seq::empty(), old(from)@, old(to)@, true, closer_fn(*close))),
        (final(from)@, final(to)@) == diffed(old(from)@, old(to)@, true),
{
    let mut kids: Vec<CJson> = Vec::new();
    let path: Vec<u8> = Vec::new();
    create_patches(&mut kids, &path, from, to, true, close);
    let mut r = crate::model::new_item(CJSON_ARRAY);
    r.child = kids;
    proof {
        lemma_view_child(r);
        assert(views(Seq::<CJson>::empty()) =~= Seq::<JsonNode>::empty());
        assert(r@ =~= holder_node(CJSON_ARRAY, patch_list(Seq::empty(), from@, to@, true, closer_fn(*close))));
    }
    sort_diffed(from, to, true);
    r
}

/// Appends to the array `array` a patch with the operation `operation`, the
/// path `path` and a copy of `value`.
pub fn cjson_utils_add_patch_to_array(array: &mut CJson, operation: &[u8], path: &[u8], value: Option<&CJson>)
    ensures
        final(array)@ == with_kids(
            old(array)@,
            old(array)@.child.push(patch_node(operation@, patch_path(path@, None), match value {
                Some(v) => Some(v@),
                None => None,
            })),
        ),
{
    proof {
        lemma_view_child(*array);
    }
    let mut kids: Vec<CJson> = Vec::new();
    std::mem::swap(&mut kids, &mut array.child);
    compose_patch(&mut kids, operation, path, None, value);
    array.child = kids;
    proof {
        lemma_view_child(*array);
        assert(array@ =~= with_kids(
            old(array)@,
            old(array)@.child.push(patch_node(operation@, patch_path(path@, None), match value {
                Some(v) => Some(v@),
                None => None,
            })),
        ));
    }
}


// ---------------------------------------------------------------------------
// Editing a tree at a path.
// ---------------------------------------------------------------------------

/// `n` with the node at `path` replaced by `v`.
pub open spec fn set_at(n: JsonNode, path: Seq<int>, v: JsonNode) -> JsonNode
    decreases path.len(),
{
    if path.len() == 0 {
        v
    } else if 0 <= path[0] < n.child.len() {
        with_kids(n, n.child.update(path[0], set_at(n.child[path[0]], path.skip(1), v)))
    } else {
        n
    }
}

pub proof fn lemma_set_at(n: JsonNode, path: Seq<int>, x: JsonNode, y: JsonNode)
    requires
        valid_path(n, path),
    ensures
        valid_path(set_at(n, path, x), path),
        node_at(set_at(n, path, x), path) == x,
        set_at(set_at(n, path, x), path, y) == set_at(n, path, y),
        set_at(n, path, node_at(n, path)) == n,
    decreases path.len(),
{
    if path.len() > 0 {
        let i = path[0];
        lemma_set_at(n.child[i], path.skip(1), x, y);
        let n1 = set_at(n, path, x);
        assert(n1.child[i] == set_at(n.child[i], path.skip(1), x));
        assert(n1.child.update(i, set_at(n1.child[i], path.skip(1), y)) =~= n.child.update(i, set_at(n.child[i], path.skip(1), y)));
        assert(n.child.update(i, set_at(n.child[i], path.skip(1), node_at(n.child[i], path.skip(1)))) =~= n.child);
    }
}

pub open spec fn ipath(p: Seq<usize>) -> Seq<int> {
    p.map_values(|k: usize| k as int)
}

/// An empty node standing in for a subtree while it is being edited.
fn placeholder() -> (r: CJson)
    ensures
        r@ == crate::model::empty_node(),
{
    crate::model::new_item(crate::model::CJSON_INVALID)
}

/// Takes the subtree at `path` out of `node`, leaving an empty node there.
fn take_at(node: &mut CJson, path: &[usize]) -> (r: CJson)
    requires
        valid_path(old(node)@, ipath(path@)),
    ensures
        r@ == node_at(old(node)@, ipath(path@)),
        final(node)@ == set_at(old(node)@, ipath(path@), crate::model::empty_node()),
    decreases path@.len(),
{
    let ghost ip = ipath(path@);
    if path.len() == 0 {
        let mut r = placeholder();
        std::mem::swap(node, &mut r);
        return r;
    }
    proof {
        lemma_view_child(*node);
        assert(ipath(path@.skip(1)) =~= ip.skip(1));
        assert(ip[0] == path@[0] as int);
    }
    let i = path[0];
    proof {
        lemma_views_ops(node.child@, i as int, node.child@[i as int]);
    }
    let mut c = node.child.remove(i);
    assert(c@ == old(node)@.child[i as int]);
    let r = take_at(&mut c, &path[1..path.len()]);
    assert(path@.subrange(1, path@.len() as int) =~= path@.skip(1));
    proof {
        lemma_views_ops(node.child@, i as int, c);
    }
    node.child.insert(i, c);
    proof {
        lemma_view_child(*node);
        assert(old(node)@.child.remove(i as int).insert(i as int, c@) =~= old(node)@.child.update(i as int, c@));
        assert(node@ =~= set_at(old(node)@, ip, crate::model::empty_node()));
    }
    r
}

/// Puts `sub` in place of the node at `path`.
fn put_at(node: &mut CJson, path: &[usize], sub: CJson)
    requires
        valid_path(old(node)@, ipath(path@)),
    ensures
        final(node)@ == set_at(old(node)@, ipath(path@), sub@),
    decreases path@.len(),
{
    let ghost ip = ipath(path@);
    if path.len() == 0 {
        *node = sub;
        return;
    }
    proof {
        lemma_view_child(*node);
        assert(ipath(path@.skip(1)) =~= ip.skip(1));
        assert(ip[0] == path@[0] as int);
    }
    let i = path[0];
    proof {
        lemma_views_ops(node.child@, i as int, node.child@[i as int]);
    }
    let mut c = node.child.remove(i);
    assert(c@ == old(node)@.child[i as int]);
    assert(path@.subrange(1, path@.len() as int) =~= path@.skip(1));
    put_at(&mut c, &path[1..path.len()], sub);
    proof {
        lemma_views_ops(node.child@, i as int, c);
    }
    node.child.insert(i, c);
    proof {
        lemma_view_child(*node);
        assert(old(node)@.child.remove(i as int).insert(i as int, c@) =~= old(node)@.child.update(i as int, c@));
        assert(node@ =~= set_at(old(node)@, ip, sub@));
    }
}


// ---------------------------------------------------------------------------
// Applying patches (RFC 6902).
// ---------------------------------------------------------------------------

/// The last position of `ch` in the C string `c` (`ch` 0 finds the
/// terminator).
pub open spec fn c_rchr(c: Seq<u8>, ch: u8) -> Option<int>
    decreases c.len(),
{
    if ch == 0 {
        Some(c.len() as int)
    } else if c.len() == 0 {
        None
    } else if c.last() == ch {
        Some(c.len() - 1)
    } else {
        c_rchr(c.drop_last(), ch)
    }
}

pub proof fn lemma_c_rchr(c: Seq<u8>, ch: u8)
    ensures
        c_rchr(c, ch) matches Some(k) ==> 0 <= k <= c.len() && (ch != 0 ==> k < c.len() && c[k] == ch),
    decreases c.len(),
{
    if ch != 0 && c.len() > 0 && c.last() != ch {
        lemma_c_rchr(c.drop_last(), ch);
    }
}

/// The last position of `ch` in the C string `s`.
pub fn cstr_rchr(s: &[u8], ch: u8) -> (r: Option<usize>)
    ensures
        match r {
            Some(k) => c_rchr(cstr(s@), ch) == Some(k as int),
            None => c_rchr(cstr(s@), ch) is None,
        },
{
    let c = crate::text::c_string(s);
    if ch == 0 {
        return Some(c.len());
    }
    let mut i = c.len();
    assert(c@.take(i as int) =~= c@);
    while i > 0
        invariant
            i <= c@.len(),
            ch != 0,
            c@ == cstr(s@),
            c_rchr(c@, ch) == c_rchr(c@.take(i as int), ch),
        decreases i,
    {
        assert(c@.take(i as int).drop_last() =~= c@.take(i - 1));
        if c[i - 1] == ch {
            return Some(i - 1);
        }
        i -= 1;
    }
    None
}

/// What the in-place decoding of the pointer token `c` leaves, reading
/// at `s` and writing at `d` into `buf`: `~0` writes `~` at the write
/// position, `~1` writes `/` one past it, other bytes are left where they
/// are; an invalid escape stops the decoding with the buffer as it stands.
pub open spec fn decode_state(c: Seq<u8>, s: int, d: int, buf: Seq<u8>) -> Seq<u8>
    decreases c.len() + 1 - s,
{
    if s < 0 || s >= c.len() {
        buf.take(d)
    } else if c[s] == 126 {
        let e = byte_at(c, s + 1);
        if e == 48 {
            decode_state(c, s + 2, d + 1, buf.update(d, 126u8))
        } else if e == 49 {
            decode_state(c, s + 2, d + 1, buf.update(d + 1, 47u8))
        } else {
            buf
        }
    } else {
        decode_state(c, s + 1, d + 1, buf)
    }
}

pub open spec fn decode_token(c: Seq<u8>) -> Seq<u8> {
    decode_state(c, 0, 0, c)
}

/// Decodes a pointer token in place (see `decode_state`).
pub fn decode_pointer_inplace(string: &mut Vec<u8>)
    ensures
        final(string)@ == decode_token(old(string)@),
{
    let ghost c = string@;
    let n = string.len();
    let mut s: usize = 0;
    let mut d: usize = 0;
    while s < n
        invariant
            n == c.len(),
            string@.len() == n,
            d <= s,
            s <= n,
            forall|m: int| s <= m < n ==> #[trigger] string@[m] == c[m],
            c == old(string)@,
            decode_token(c) == decode_state(c, s as int, d as int, string@),
        decreases n + 1 - s,
    {
        if string[s] == 126 {
            let e: u8 = if s + 1 < n { string[s + 1] } else { 0 };
            assert(e == byte_at(c, s + 1));
            if e == 48 {
                string.set(d, 126);
            } else if e == 49 {
                string.set(d + 1, 47);
            } else {
                return;
            }
            s += 1;
        }
        d += 1;
        s += 1;
    }
    string.truncate(d);
}

/// The patch member under `key`: an exact lookup when `cs`, else up to
/// ASCII case.
pub open spec fn member_named(patch: JsonNode, key: Seq<u8>, cs: bool) -> Option<JsonNode> {
    match find_member(patch.child, key, cs) {
        Some(i) => Some(patch.child[i]),
        None => None,
    }
}

pub const PATCH_INVALID: i32 = 0;
pub const PATCH_ADD: i32 = 1;
pub const PATCH_REMOVE: i32 = 2;
pub const PATCH_REPLACE: i32 = 3;
pub const PATCH_MOVE: i32 = 4;
pub const PATCH_COPY: i32 = 5;
pub const PATCH_TEST: i32 = 6;

pub open spec fn op_move() -> Seq<u8> {
    seq![109u8, 111u8, 118u8, 101u8]
}

pub open spec fn op_copy() -> Seq<u8> {
    seq![99u8, 111u8, 112u8, 121u8]
}

pub open spec fn op_test() -> Seq<u8> {
    seq![116u8, 101u8, 115u8, 116u8]
}

/// The operation of a patch: its `op` member must be a string naming one.
pub open spec fn patch_op(patch: JsonNode, cs: bool) -> i32 {
    match member_named(patch, key_op(), cs) {
        None => PATCH_INVALID,
        Some(op) => if type_byte(op.type_) != CJSON_STRING {
            PATCH_INVALID
        } else {
            let v = text_of(op);
            if c_str_diff(v, op_add(), false) == 0 {
                PATCH_ADD
            } else if c_str_diff(v, op_remove(), false) == 0 {
                PATCH_REMOVE
            } else if c_str_diff(v, op_replace(), false) == 0 {
                PATCH_REPLACE
            } else if c_str_diff(v, op_move(), false) == 0 {
                PATCH_MOVE
            } else if c_str_diff(v, op_copy(), false) == 0 {
                PATCH_COPY
            } else if c_str_diff(v, op_test(), false) == 0 {
                PATCH_TEST
            } else {
                PATCH_INVALID
            }
        },
    }
}

/// Detaching the node that the pointer text `ptext` names: its parent is
/// found by the pointer up to the last `/`; the last token, decoded, is an
/// array index or a key (matched up to ASCII case). The tree without that
/// node, and the node; `None` when there is none.
pub open spec fn detach_spec(obj: JsonNode, ptext: Seq<u8>, cs: bool) -> Option<(JsonNode, JsonNode)> {
    let c = cstr(ptext);
    match c_rchr(c, 47) {
        None => None,
        Some(k) => match walk(obj, c.take(k), 0, cs) {
            None => None,
            Some(pp) => {
                let par = node_at(obj, pp);
                let ch = decode_token(c.skip(k + 1));
                if type_byte(par.type_) == CJSON_ARRAY {
                    match decode_index(ch, 0) {
                        None => None,
                        Some(i) => if i < par.child.len() {
                            Some((set_at(obj, pp, with_kids(par, par.child.remove(i as int))), par.child[i as int]))
                        } else {
                            None
                        },
                    }
                } else if type_byte(par.type_) == CJSON_OBJECT {
                    match find_member(par.child, ch, false) {
                        Some(i) => if 0 <= i < par.child.len() {
                            Some((set_at(obj, pp, with_kids(par, par.child.remove(i))), par.child[i]))
                        } else {
                            None
                        },
                        None => None,
                    }
                } else {
                    None
                }
            },
        },
    }
}

/// Adding `value` at the pointer text `ptext`: to an array parent, appended
/// for the token `-` or inserted at the token's index (status 11 for a bad
/// index, 10 past the end); to an object parent, under the decoded token as
/// key, replacing a member of that key; status 9 when there is no such
/// parent. The tree and the status.
pub open spec fn add_spec(obj: JsonNode, ptext: Seq<u8>, value: JsonNode, cs: bool) -> (JsonNode, i32) {
    let c = cstr(ptext);
    match c_rchr(c, 47) {
        None => (obj, 9),
        Some(k) => match walk(obj, c.take(k), 0, cs) {
            None => (obj, 9),
            Some(pp) => {
                let par = node_at(obj, pp);
                let ch = decode_token(c.skip(k + 1));
                if type_byte(par.type_) == CJSON_ARRAY {
                    if ch == seq![45u8] {
                        (set_at(obj, pp, with_kids(par, par.child.push(value))), 0)
                    } else {
                        match decode_index(ch, 0) {
                            None => (obj, 11),
                            Some(i) => if i > par.child.len() {
                                (obj, 10)
                            } else if i == par.child.len() {
                                (set_at(obj, pp, with_kids(par, par.child.push(value))), 0)
                            } else {
                                (set_at(obj, pp, with_kids(par, par.child.insert(i as int, value))), 0)
                            },
                        }
                    }
                } else if type_byte(par.type_) == CJSON_OBJECT {
                    let kept = match find_member(par.child, ch, cs) {
                        Some(i) => if 0 <= i < par.child.len() {
                            par.child.remove(i)
                        } else {
                            par.child
                        },
                        None => par.child,
                    };
                    (set_at(obj, pp, with_kids(par, kept.push(keyed(value, ch, false)))), 0)
                } else {
                    (obj, 9)
                }
            },
        },
    }
}

/// The value that an add, replace, move or copy puts at the patch's path,
/// from the tree `obj`: a copy of the `value` member, or the node at the
/// `from` path (detached for a move, copied for a copy). The tree and the
/// value, or the tree and an error status.
pub open spec fn value_spec(obj: JsonNode, patch: JsonNode, op: i32, cs: bool) -> (JsonNode, Result<JsonNode, i32>) {
    if op == PATCH_MOVE || op == PATCH_COPY {
        match member_named(patch, key_from(), cs) {
            None => (obj, Err(4)),
            Some(from) => if type_byte(from.type_) != CJSON_STRING {
                (obj, Err(4))
            } else if op == PATCH_MOVE {
                match detach_spec(obj, text_of(from), cs) {
                    None => (obj, Err(5)),
                    Some((o2, v)) => (o2, Ok(v)),
                }
            } else {
                match walk(obj, text_of(from), 0, cs) {
                    None => (obj, Err(5)),
                    Some(pp) => match dup_tree(node_at(obj, pp), 0, true) {
                        None => (obj, Err(6)),
                        Some(d) => (obj, Ok(d)),
                    },
                }
            },
        }
    } else {
        match member_named(patch, key_value(), cs) {
            None => (obj, Err(7)),
            Some(v) => match dup_tree(v, 0, true) {
                None => (obj, Err(8)),
                Some(d) => (obj, Ok(d)),
            },
        }
    }
}

/// Applying one patch to the tree `obj`: the tree afterwards and the
/// status, 0 for success. A patch needs a string `path` (else 2) and a
/// known `op` (else 3); `test` compares the node at the path with the
/// `value` member (1 when they differ); at the empty path, `remove` leaves
/// an empty node and `add` or `replace` a copy of `value`; `remove` and
/// `replace` first detach the node at the path (13 when there is none);
/// the others then add their value at the path.
pub open spec fn apply_spec(obj: JsonNode, patch: JsonNode, cs: bool, close: spec_fn(u64, u64) -> bool) -> (JsonNode, i32) {
    match member_named(patch, key_path(), cs) {
        None => (obj, 2),
        Some(pathm) => if type_byte(pathm.type_) != CJSON_STRING {
            (obj, 2)
        } else {
            let ptext = text_of(pathm);
            let op = patch_op(patch, cs);
            if op == PATCH_INVALID {
                (obj, 3)
            } else if op == PATCH_TEST {
                match (walk(obj, ptext, 0, cs), member_named(patch, key_value(), cs)) {
                    (Some(pp), Some(v)) => (
                        set_at(obj, pp, compared(node_at(obj, pp), v, cs, close).0),
                        if json_equal(node_at(obj, pp), v, cs, close) {
                            0
                        } else {
                            1
                        },
                    ),
                    _ => (obj, 1),
                }
            } else if byte_at(ptext, 0) == 0 && op == PATCH_REMOVE {
                (empty_node(), 0)
            } else if byte_at(ptext, 0) == 0 && (op == PATCH_REPLACE || op == PATCH_ADD) {
                match member_named(patch, key_value(), cs) {
                    None => (obj, 7),
                    Some(v) => match dup_tree(v, 0, true) {
                        None => (obj, 8),
                        Some(d) => (JsonNode { string: None, ..d }, 0),
                    },
                }
            } else {
                let detached = if op == PATCH_REMOVE || op == PATCH_REPLACE {
                    detach_spec(obj, ptext, cs)
                } else {
                    Some((obj, obj))
                };
                match detached {
                    None => (obj, 13),
                    Some((obj1, gone)) => if op == PATCH_REMOVE {
                        (obj1, 0)
                    } else {
                        let (obj2, val) = value_spec(obj1, patch, op, cs);
                        match val {
                            Err(st) => (obj2, st),
                            Ok(v) => add_spec(obj2, ptext, v, cs),
                        }
                    },
                }
            }
        },
    }
}

/// Applying the patches `ps` in order, stopping at the first failure:
/// the tree afterwards and the status.
pub open spec fn apply_all(obj: JsonNode, ps: Seq<JsonNode>, cs: bool, close: spec_fn(u64, u64) -> bool) -> (JsonNode, i32)
    decreases ps.len(),
{
    if ps.len() == 0 {
        (obj, 0)
    } else {
        let (o1, st) = apply_spec(obj, ps[0], cs, close);
        if st != 0 {
            (o1, st)
        } else {
            apply_all(o1, ps.subrange(1, ps.len() as int), cs, close)
        }
    }
}


/// Splits the C string `text` at its last `/`: the part before it, and the
/// decoded token after it.
fn split_last_token(text: &[u8]) -> (r: Option<(Vec<u8>, Vec<u8>)>)
    ensures
        match c_rchr(cstr(text@), 47) {
            None => r is None,
            Some(k) => r matches Some((a, b)) && a@ == cstr(text@).take(k) && b@ == decode_token(cstr(text@).skip(k + 1)),
        },
{
    let c = crate::text::c_string(text);
    proof {
        crate::text::lemma_cstr_no_nul(text@);
        crate::text::lemma_cstr_of_no_nul(c@);
        lemma_c_rchr(c@, 47);
    }
    match cstr_rchr(c.as_slice(), 47) {
        None => None,
        Some(k) => {
            assert(cstr(c@) == c@);
            assert(c_rchr(c@, 47) == Some(k as int));
            assert(k < c.len());
            let parent = crate::text::copy_bytes(&c[0..k]);
            let mut child = crate::text::copy_bytes(&c[k + 1..c.len()]);
            assert(parent@ =~= c@.take(k as int));
            assert(child@ =~= c@.skip(k + 1));
            decode_pointer_inplace(&mut child);
            Some((parent, child))
        },
    }
}

/// Detaches the node that the pointer text `path` names.
pub fn detach_path(object: &mut CJson, path: &[u8], case_sensitive: bool) -> (r: Option<CJson>)
    ensures
        match detach_spec(old(object)@, path@, case_sensitive) {
            Some((o, d)) => final(object)@ == o && (r matches Some(c) && c@ == d),
            None => r is None && final(object)@ == old(object)@,
        },
{
    let (parent_ptr, child) = match split_last_token(path) {
        None => {
            return None;
        },
        Some(x) => x,
    };
    let pp = match pointer_path(object, parent_ptr.as_slice(), case_sensitive) {
        None => {
            return None;
        },
        Some(pp) => pp,
    };
    proof {
        lemma_walk_valid(object@, parent_ptr@, 0, case_sensitive);
        assert(ipath(pp@) == pp@.map_values(|k: usize| k as int));
    }
    let ghost o0 = object@;
    let mut par = take_at(object, pp.as_slice());
    proof {
        lemma_view_child(par);
        lemma_set_at(o0, ipath(pp@), empty_node(), par@);
    }
    let ghost par0 = par@;
    let res: Option<CJson> = if par.base_type() == CJSON_ARRAY {
        match decode_array_index_from_pointer(child.as_slice(), 0) {
            None => None,
            Some(i) => {
                if i < par.child.len() {
                    crate::manip::cjson_detach_item_via_pointer(&mut par, i)
                } else {
                    None
                }
            },
        }
    } else if par.base_type() == CJSON_OBJECT {
        cjson_detach_item_from_object(&mut par, child.as_slice())
    } else {
        None
    };
    proof {
        crate::manip::lemma_find_member_bounds(par0.child, child@, false, 0);
    }
    put_at(object, pp.as_slice(), par);
    proof {
        lemma_set_at(o0, ipath(pp@), empty_node(), par@);
        lemma_set_at(o0, ipath(pp@), par0, par0);
    }
    res
}

/// Adds `value` at the pointer text `path`; returns the status.
fn add_value_at(object: &mut CJson, path: &[u8], value: CJson, case_sensitive: bool) -> (r: i32)
    ensures
        (final(object)@, r) == add_spec(old(object)@, path@, value@, case_sensitive),
{
    let (parent_ptr, child) = match split_last_token(path) {
        None => {
            return 9;
        },
        Some(x) => x,
    };
    let pp = match pointer_path(object, parent_ptr.as_slice(), case_sensitive) {
        None => {
            return 9;
        },
        Some(pp) => pp,
    };
    proof {
        lemma_walk_valid(object@, parent_ptr@, 0, case_sensitive);
    }
    let ghost o0 = object@;
    let mut par = take_at(object, pp.as_slice());
    proof {
        lemma_view_child(par);
        lemma_set_at(o0, ipath(pp@), empty_node(), par@);
    }
    let ghost par0 = par@;
    let mut status: i32 = 0;
    if par.base_type() == CJSON_ARRAY {
        if child.len() == 1 && child[0] == 45 {
            assert(child@ =~= seq![45u8]);
            crate::manip::add_item_to_array(&mut par, value);
        } else {
            assert(child@ != seq![45u8]);
            match decode_array_index_from_pointer(child.as_slice(), 0) {
                None => {
                    status = 11;
                },
                Some(i) => {
                    if i > par.child.len() {
                        status = 10;
                    } else if i == par.child.len() {
                        crate::manip::add_item_to_array(&mut par, value);
                    } else {
                        proof {
                            lemma_views_ops(par.child@, i as int, value);
                        }
                        par.child.insert(i, value);
                        proof {
                            lemma_view_child(par);
                            assert(par@ =~= with_kids(par0, par0.child.insert(i as int, value@)));
                        }
                    }
                },
            }
        }
    } else if par.base_type() == CJSON_OBJECT {
        proof {
            crate::manip::lemma_find_member_bounds(par0.child, child@, case_sensitive, 0);
        }
        if case_sensitive {
            let _ = cjson_detach_item_from_object_case_sensitive(&mut par, child.as_slice());
        } else {
            let _ = cjson_detach_item_from_object(&mut par, child.as_slice());
        }
        add_item_to_object(&mut par, child.as_slice(), value, false);
        proof {
            match find_member(par0.child, child@, case_sensitive) {
                Some(k) => {
                    assert(par@ =~= with_kids(par0, par0.child.remove(k).push(keyed(value@, child@, false))));
                },
                None => {
                    assert(par@ =~= with_kids(par0, par0.child.push(keyed(value@, child@, false))));
                },
            }
        }
    } else {
        status = 9;
    }
    put_at(object, pp.as_slice(), par);
    proof {
        lemma_set_at(o0, ipath(pp@), empty_node(), par@);
        lemma_set_at(o0, ipath(pp@), par0, par0);
    }
    status
}

/// The operation that a patch names.
pub fn decode_patch_operation(patch: &CJson, case_sensitive: bool) -> (r: i32)
    ensures
        r == patch_op(patch@, case_sensitive),
{
    let k_op: [u8; 2] = [111, 112];
    assert(k_op@ =~= key_op());
    let op = match get_object_item(patch, &k_op, case_sensitive) {
        None => {
            return PATCH_INVALID;
        },
        Some(op) => op,
    };
    if op.base_type() != CJSON_STRING {
        return PATCH_INVALID;
    }
    let empty: Vec<u8> = Vec::new();
    let v = match &op.valuestring {
        Some(v) => v.as_slice(),
        None => empty.as_slice(),
    };
    let a: [u8; 3] = [97, 100, 100];
    let rm: [u8; 6] = [114, 101, 109, 111, 118, 101];
    let rp: [u8; 7] = [114, 101, 112, 108, 97, 99, 101];
    let mv: [u8; 4] = [109, 111, 118, 101];
    let cp: [u8; 4] = [99, 111, 112, 121];
    let ts: [u8; 4] = [116, 101, 115, 116];
    assert(a@ =~= op_add());
    assert(rm@ =~= op_remove());
    assert(rp@ =~= op_replace());
    assert(mv@ =~= op_move());
    assert(cp@ =~= op_copy());
    assert(ts@ =~= op_test());
    if str_compare(v, &a, false) == 0 {
        return PATCH_ADD;
    }
    if str_compare(v, &rm, false) == 0 {
        return PATCH_REMOVE;
    }
    if str_compare(v, &rp, false) == 0 {
        return PATCH_REPLACE;
    }
    if str_compare(v, &mv, false) == 0 {
        return PATCH_MOVE;
    }
    if str_compare(v, &cp, false) == 0 {
        return PATCH_COPY;
    }
    if str_compare(v, &ts, false) == 0 {
        return PATCH_TEST;
    }
    PATCH_INVALID
}

/// The value an add, replace, move or copy puts at the path.
fn patch_value(object: &mut CJson, patch: &CJson, op: i32, case_sensitive: bool) -> (r: Result<CJson, i32>)
    ensures
        ({
            let (o, v) = value_spec(old(object)@, patch@, op, case_sensitive);
            &&& final(object)@ == o
            &&& match (r, v) {
                (Ok(c), Ok(x)) => c@ == x,
                (Err(a), Err(b)) => a == b,
                _ => false,
            }
        }),
{
    if op == PATCH_MOVE || op == PATCH_COPY {
        let k_from: [u8; 4] = [102, 114, 111, 109];
        assert(k_from@ =~= key_from());
        let from = match get_object_item(patch, &k_from, case_sensitive) {
            None => {
                return Err(4);
            },
            Some(f) => f,
        };
        if from.base_type() != CJSON_STRING {
            return Err(4);
        }
        let empty: Vec<u8> = Vec::new();
        let ftext = match &from.valuestring {
            Some(v) => v.as_slice(),
            None => empty.as_slice(),
        };
        if op == PATCH_MOVE {
            match detach_path(object, ftext, case_sensitive) {
                None => Err(5),
                Some(v) => Ok(v),
            }
        } else {
            match get_item_from_pointer(object, ftext, case_sensitive) {
                None => Err(5),
                Some(v) => match cjson_duplicate(v, true) {
                    None => Err(6),
                    Some(d) => Ok(d),
                },
            }
        }
    } else {
        let k_value: [u8; 5] = [118, 97, 108, 117, 101];
        assert(k_value@ =~= key_value());
        match get_object_item(patch, &k_value, case_sensitive) {
            None => Err(7),
            Some(v) => match cjson_duplicate(v, true) {
                None => Err(8),
                Some(d) => Ok(d),
            },
        }
    }
}

/// Applies one patch to `object`; returns the status, 0 for success.
pub fn apply_patch<C: Fn(u64, u64) -> bool>(object: &mut CJson, patch: &CJson, case_sensitive: bool, close: &C) -> (r: i32)
    requires
        closer_ok(*close),
    ensures
        (final(object)@, r) == apply_spec(old(object)@, patch@, case_sensitive, closer_fn(*close)),
{
    let k_path: [u8; 4] = [112, 97, 116, 104];
    assert(k_path@ =~= key_path());
    let pathm = match get_object_item(patch, &k_path, case_sensitive) {
        None => {
            return 2;
        },
        Some(m) => m,
    };
    if pathm.base_type() != CJSON_STRING {
        return 2;
    }
    let empty: Vec<u8> = Vec::new();
    let ptext = match &pathm.valuestring {
        Some(v) => v.as_slice(),
        None => empty.as_slice(),
    };
    assert(ptext@ == text_of(pathm@));
    let op = decode_patch_operation(patch, case_sensitive);
    if op == PATCH_INVALID {
        return 3;
    }
    let k_value: [u8; 5] = [118, 97, 108, 117, 101];
    assert(k_value@ =~= key_value());
    if op == PATCH_TEST {
        let target = pointer_path(object, ptext, case_sensitive);
        let value = get_object_item(patch, &k_value, case_sensitive);
        return match (target, value) {
            (Some(pp), Some(v)) => {
                proof {
                    lemma_walk_valid(object@, ptext@, 0, case_sensitive);
                    assert(ipath(pp@) == pp@.map_values(|k: usize| k as int));
                }
                let ghost o0 = object@;
                let mut other = crate::manip::copy_node(v);
                let mut tg = take_at(object, pp.as_slice());
                let same = compare_json(&mut tg, &mut other, case_sensitive, close);
                proof {
                    lemma_set_at(o0, ipath(pp@), empty_node(), tg@);
                }
                put_at(object, pp.as_slice(), tg);
                if same {
                    0
                } else {
                    1
                }
            },
            _ => 1,
        };
    }
    let first: u8 = if ptext.len() > 0 { ptext[0] } else { 0 };
    if first == 0 && op == PATCH_REMOVE {
        *object = placeholder();
        return 0;
    }
    if first == 0 && (op == PATCH_REPLACE || op == PATCH_ADD) {
        return match get_object_item(patch, &k_value, case_sensitive) {
            None => 7,
            Some(v) => match cjson_duplicate(v, true) {
                None => 8,
                Some(d) => {
                    let mut d = d;
                    d.string = None;
                    proof {
                        lemma_view_child(d);
                    }
                    *object = d;
                    0
                },
            },
        };
    }
    if op == PATCH_REMOVE || op == PATCH_REPLACE {
        match detach_path(object, ptext, case_sensitive) {
            None => {
                return 13;
            },
            Some(_) => {},
        }
        if op == PATCH_REMOVE {
            return 0;
        }
    }
    match patch_value(object, patch, op, case_sensitive) {
        Err(st) => st,
        Ok(v) => add_value_at(object, ptext, v, case_sensitive),
    }
}

/// Applies the patches of the array `patches` in order, stopping at the
/// first that fails; returns its status, 0 when all succeed, 1 when
/// `patches` is not an array.
pub fn apply_patches<C: Fn(u64, u64) -> bool>(object: &mut CJson, patches: &CJson, case_sensitive: bool, close: &C) -> (r: i32)
    requires
        closer_ok(*close),
    ensures
        type_byte(patches.type_) != CJSON_ARRAY ==> r == 1 && final(object)@ == old(object)@,
        type_byte(patches.type_) == CJSON_ARRAY ==> (final(object)@, r) == apply_all(
            old(object)@,
            patches@.child,
            case_sensitive,
            closer_fn(*close),
        ),
{
    if patches.base_type() != CJSON_ARRAY {
        return 1;
    }
    proof {
        lemma_view_child(*patches);
        assert(patches@.child.subrange(0, patches@.child.len() as int) =~= patches@.child);
    }
    let ghost total = apply_all(object@, patches@.child, case_sensitive, closer_fn(*close));
    let n = patches.child.len();
    let mut i: usize = 0;
    while i < n
        invariant
            i <= n,
            n == patches.child@.len(),
            patches@.child == views(patches.child@),
            closer_ok(*close),
            type_byte(patches.type_) == CJSON_ARRAY,
            total == apply_all(old(object)@, patches@.child, case_sensitive, closer_fn(*close)),
            total == apply_all(object@, patches@.child.subrange(i as int, n as int), case_sensitive, closer_fn(*close)),
        decreases n - i,
    {
        let ghost s = patches@.child.subrange(i as int, n as int);
        proof {
            assert(s[0] == patches.child@[i as int]@);
            assert(s.subrange(1, s.len() as int) =~= patches@.child.subrange(i + 1, n as int));
        }
        let status = apply_patch(object, &patches.child[i], case_sensitive, close);
        if status != 0 {
            return status;
        }
        i += 1;
    }
    0
}

/// Applies an array of patches, keys matched up to ASCII case.
pub fn cjson_utils_apply_patches<C: Fn(u64, u64) -> bool>(object: &mut CJson, patches: &CJson, close: &C) -> (r: i32)
    requires
        closer_ok(*close),
    ensures
        type_byte(patches.type_) != CJSON_ARRAY ==> r == 1 && final(object)@ == old(object)@,
        type_byte(patches.type_) == CJSON_ARRAY ==> (final(object)@, r) == apply_all(old(object)@, patches@.child, false, closer_fn(*close)),
{
    apply_patches(object, patches, false, close)
}

/// Applies an array of patches, keys matched exactly.
pub fn cjson_utils_apply_patches_case_sensitive<C: Fn(u64, u64) -> bool>(object: &mut CJson, patches: &CJson, close: &C) -> (r: i32)
    requires
        closer_ok(*close),
    ensures
        type_byte(patches.type_) != CJSON_ARRAY ==> r == 1 && final(object)@ == old(object)@,
        type_byte(patches.type_) == CJSON_ARRAY ==> (final(object)@, r) == apply_all(old(object)@, patches@.child, true, closer_fn(*close)),
{
    apply_patches(object, patches, true, close)
}


// ---------------------------------------------------------------------------
// Finding the pointer to a node.
// ---------------------------------------------------------------------------

/// The JSON pointer from `n` to the node that the child indices `path`
/// lead to: `/index` for an array element, `/key` (written as a pointer
/// token) for an object member; `None` when an index is out of range or a
/// step passes through a node that is neither.
pub open spec fn pointer_to(n: JsonNode, path: Seq<int>) -> Option<Seq<u8>>
    decreases path.len(),
{
    if path.len() == 0 {
        Some(Seq::empty())
    } else {
        let k = path[0];
        if !(0 <= k < n.child.len()) {
            None
        } else {
            match pointer_to(n.child[k], path.skip(1)) {
                None => None,
                Some(sub) => if type_byte(n.type_) == CJSON_ARRAY {
                    Some(seq![47u8] + crate::float::dec_digits(k as nat) + sub)
                } else if type_byte(n.type_) == CJSON_OBJECT {
                    Some(seq![47u8] + encode_pointer(cstr(match n.child[k].string {
                        Some(key) => key,
                        None => Seq::empty(),
                    })) + sub)
                } else {
                    None
                },
            }
        }
    }
}

/// The JSON pointer from `object` to its descendant reached by the child
/// indices `target`.
pub fn cjson_utils_find_pointer_from_object_to(object: &CJson, target: &[usize]) -> (r: Option<Vec<u8>>)
    ensures
        match r {
            Some(v) => pointer_to(object@, ipath(target@)) == Some(v@),
            None => pointer_to(object@, ipath(target@)) is None,
        },
    decreases target@.len(),
{
    if target.len() == 0 {
        return Some(Vec::new());
    }
    proof {
        lemma_view_child(*object);
        assert(ipath(target@.skip(1)) =~= ipath(target@).skip(1));
        assert(target@.subrange(1, target@.len() as int) =~= target@.skip(1));
    }
    let k = target[0];
    if k >= object.child.len() {
        return None;
    }
    let child = &object.child[k];
    assert(object@.child[k as int] == child@);
    let sub = match cjson_utils_find_pointer_from_object_to(child, &target[1..target.len()]) {
        None => {
            return None;
        },
        Some(sub) => sub,
    };
    let mut full: Vec<u8> = Vec::new();
    if object.base_type() == CJSON_ARRAY {
        full.push(47);
        crate::float::push_decimal(&mut full, k as u64);
    } else if object.base_type() == CJSON_OBJECT {
        full.push(47);
        match &child.string {
            Some(key) => encode_string_as_pointer(&mut full, key.as_slice()),
            None => {
                proof {
                    crate::text::lemma_nul_index_unique(Seq::<u8>::empty(), 0);
                    assert(cstr(Seq::<u8>::empty()) =~= Seq::<u8>::empty());
                    assert(encode_pointer(Seq::<u8>::empty()) =~= Seq::<u8>::empty());
                }
            },
        }
    } else {
        return None;
    }
    crate::text::push_all(&mut full, sub.as_slice());
    Some(full)
}


// ---------------------------------------------------------------------------
// A found pointer leads back to its node.
// ---------------------------------------------------------------------------

/// Along `path`, each array index fits a `usize`, and each object member
/// passed through has a key that no earlier member of that object matches
/// as lookups compare keys (ASCII case folded unless `cs`).
pub open spec fn first_keys_along(n: JsonNode, path: Seq<int>, cs: bool) -> bool
    decreases path.len(),
{
    path.len() == 0 || {
        let k = path[0];
        &&& 0 <= k < n.child.len()
        &&& type_byte(n.type_) == CJSON_ARRAY ==> k <= usize::MAX
        &&& type_byte(n.type_) == CJSON_OBJECT ==> n.child[k].string is Some
        &&& type_byte(n.type_) == CJSON_OBJECT ==> forall|j: int|
            0 <= j < k ==> key_diff(#[trigger] n.child[j].string, n.child[k].string, cs) != 0
        &&& first_keys_along(n.child[k], path.skip(1), cs)
    }
}

/// A `remove` at a non-empty path either fails with status 13, leaving the
/// document as it was, or succeeds by taking exactly one child out of one
/// node of the document and changing nothing else.
pub proof fn law_remove_takes_out_one_child(obj: JsonNode, patch: JsonNode, cs: bool, close: spec_fn(u64, u64) -> bool)
    requires
        member_named(patch, key_path(), cs) matches Some(pm) && type_byte(pm.type_) == CJSON_STRING,
        patch_op(patch, cs) == PATCH_REMOVE,
        byte_at(text_of(member_named(patch, key_path(), cs).unwrap()), 0) != 0,
    ensures
        ({
            let (o, st) = apply_spec(obj, patch, cs, close);
            &&& st == 0 || st == 13
            &&& st == 13 ==> o == obj
            &&& st == 0 ==> exists|pp: Seq<int>, m: int|
                valid_path(obj, pp) && 0 <= m < node_at(obj, pp).child.len() && o == set_at(
                    obj,
                    pp,
                    with_kids(node_at(obj, pp), node_at(obj, pp).child.remove(m)),
                )
        }),
{
    let ptext = text_of(member_named(patch, key_path(), cs).unwrap());
    let c = cstr(ptext);
    match c_rchr(c, 47) {
        None => {},
        Some(k) => {
            lemma_walk_valid(obj, c.take(k), 0, cs);
        },
    }
}

/// A `test` operation succeeds only where its path names a node of the
/// document and a `value` is given that compares equal to that node; when
/// the path names nothing, or no value is given, it fails with status 1.
/// Either way it leaves the document's nodes where they were.
pub proof fn law_test_needs_the_named_node(obj: JsonNode, patch: JsonNode, cs: bool, close: spec_fn(u64, u64) -> bool)
    requires
        member_named(patch, key_path(), cs) matches Some(pm) && type_byte(pm.type_) == CJSON_STRING,
        patch_op(patch, cs) == PATCH_TEST,
    ensures
        ({
            let ptext = text_of(member_named(patch, key_path(), cs).unwrap());
            let st = apply_spec(obj, patch, cs, close).1;
            &&& st == 0 || st == 1
            &&& st == 0 <==> (walk(obj, ptext, 0, cs) matches Some(pp) && member_named(patch, key_value(), cs) matches Some(v)
                && json_equal(node_at(obj, pp), v, cs, close))
            &&& walk(obj, ptext, 0, cs) is None ==> st == 1
            &&& member_named(patch, key_value(), cs) is None ==> st == 1
        }),
{
}

/// The pointer that `cjson_utils_find_pointer_from_object_to` builds for a
/// path leads, through `cjson_utils_get_pointer` (or its case-sensitive
/// variant), back along that same path, when every object member on the way
/// is the first of its object with its key.
pub proof fn law_found_pointer_leads_back(n: JsonNode, path: Seq<int>, cs: bool)
    requires
        first_keys_along(n, path, cs),
        pointer_to(n, path) is Some,
    ensures
        walk(n, pointer_to(n, path).unwrap(), 0, cs) == Some(path),
{
    lemma_walk_pointer_to(n, path, cs, Seq::empty());
    assert(Seq::<u8>::empty() + pointer_to(n, path).unwrap() =~= pointer_to(n, path).unwrap());
}

pub proof fn lemma_pointer_to_head(n: JsonNode, path: Seq<int>)
    requires
        pointer_to(n, path) is Some,
    ensures
        pointer_to(n, path).unwrap().len() == 0 || pointer_to(n, path).unwrap()[0] == 47,
{
}

proof fn lemma_token_end_at(q: Seq<u8>, p: int, e: int)
    requires
        0 <= p <= e,
        forall|m: int| p <= m < e ==> #[trigger] byte_at(q, m) != 0 && byte_at(q, m) != 47,
        byte_at(q, e) == 0 || byte_at(q, e) == 47,
    ensures
        token_end(q, p) == e,
    decreases e - p,
{
    if p < e {
        assert(byte_at(q, p) != 0 && byte_at(q, p) != 47);
        assert(p < q.len());
        lemma_token_end_at(q, p + 1, e);
    }
}

pub proof fn lemma_dec_digits_shape(v: nat)
    ensures
        crate::float::dec_digits(v).len() >= 1,
        forall|m: int| 0 <= m < crate::float::dec_digits(v).len() ==> 48 <= #[trigger] crate::float::dec_digits(v)[m] <= 57,
        crate::float::dec_digits(v)[0] == 48 ==> v == 0,
    decreases v,
{
    if v >= 10 {
        lemma_dec_digits_shape(v / 10);
        let d = crate::float::dec_digits(v / 10);
        assert(crate::float::dec_digits(v) == d.push((48 + v % 10) as u8));
        assert forall|m: int| 0 <= m < crate::float::dec_digits(v).len() implies 48 <= #[trigger] crate::float::dec_digits(v)[m] <= 57 by {
            if m < d.len() {
                assert(crate::float::dec_digits(v)[m] == d[m]);
            }
        }
        assert(crate::float::dec_digits(v)[0] == d[0]);
    }
}

pub proof fn lemma_digit_run_exact(q: Seq<u8>, pos: int, len: nat)
    requires
        0 <= pos,
        pos + len <= q.len(),
        forall|m: int| pos <= m < pos + len ==> 48 <= #[trigger] q[m] <= 57,
        !(48 <= byte_at(q, pos + len) <= 57),
    ensures
        digit_run(q, pos) == len,
    decreases len,
{
    if len > 0 {
        assert(48 <= q[pos] <= 57);
        lemma_digit_run_exact(q, pos + 1, (len - 1) as nat);
    }
}

pub proof fn lemma_index_value_digits(q: Seq<u8>, pos: int, v: nat)
    requires
        0 <= pos,
        pos + crate::float::dec_digits(v).len() <= q.len(),
        q.subrange(pos, pos + crate::float::dec_digits(v).len()) == crate::float::dec_digits(v),
        v <= usize::MAX,
    ensures
        index_value(q, pos, crate::float::dec_digits(v).len()) == v as usize,
    decreases v,
{
    let d = crate::float::dec_digits(v);
    let range: nat = (usize::MAX - usize::MIN + 1) as nat;
    if v < 10 {
        assert(d.len() == 1);
        assert(q[pos] == d[0]);
        assert(index_value(q, pos, 0) == 0);
        assert(0nat * 10nat == 0nat);
        vstd::arithmetic::div_mod::lemma_small_mod(0, range);
        assert(vstd::wrapping::usize_specs::wrapping_mul(0, 10) == 0);
        assert(byte_at(q, pos) - 48 == v);
    } else {
        let d1 = crate::float::dec_digits(v / 10);
        assert(d == d1.push((48 + v % 10) as u8));
        let l1 = d1.len();
        assert(q.subrange(pos, pos + l1) =~= d.subrange(0, l1 as int));
        assert(d.subrange(0, l1 as int) =~= d1);
        lemma_index_value_digits(q, pos, v / 10);
        let w = (v / 10) as usize;
        assert((v / 10) * 10 + v % 10 == v && (v / 10) * 10 <= v) by (nonlinear_arith)
            requires v >= 10;
        vstd::arithmetic::div_mod::lemma_small_mod(((v / 10) * 10) as nat, range);
        assert(vstd::wrapping::usize_specs::wrapping_mul(w, 10) == ((v / 10) * 10) as usize);
        assert(q[pos + l1] == d[l1 as int]);
        assert(byte_at(q, pos + l1) - 48 == v % 10);
    }
}

proof fn lemma_encode_concat(a: Seq<u8>, b: Seq<u8>)
    ensures
        encode_pointer(a + b) == encode_pointer(a) + encode_pointer(b),
    decreases b.len(),
{
    if b.len() == 0 {
        assert(a + b =~= a);
        assert(encode_pointer(a) + Seq::<u8>::empty() =~= encode_pointer(a));
    } else {
        assert((a + b).drop_last() =~= a + b.drop_last());
        assert((a + b).last() == b.last());
        lemma_encode_concat(a, b.drop_last());
        let c = b.last();
        let tail: Seq<u8> = if c == 47 {
            seq![126u8, 49u8]
        } else if c == 126 {
            seq![126u8, 48u8]
        } else {
            seq![c]
        };
        assert(encode_pointer(a + b) == encode_pointer(a + b.drop_last()) + tail);
        assert(encode_pointer(b) == encode_pointer(b.drop_last()) + tail);
        assert(encode_pointer(a) + encode_pointer(b.drop_last()) + tail =~= encode_pointer(a) + (encode_pointer(b.drop_last()) + tail));
    }
}

proof fn lemma_encode_plain(s: Seq<u8>)
    requires
        crate::text::no_nul(s),
    ensures
        forall|m: int| 0 <= m < encode_pointer(s).len() ==> #[trigger] encode_pointer(s)[m] != 0 && encode_pointer(s)[m] != 47,
    decreases s.len(),
{
    if s.len() > 0 {
        lemma_encode_plain(s.drop_last());
        let c = s.last();
        let e0 = encode_pointer(s.drop_last());
        let tail: Seq<u8> = if c == 47 {
            seq![126u8, 49u8]
        } else if c == 126 {
            seq![126u8, 48u8]
        } else {
            seq![c]
        };
        assert(encode_pointer(s) == e0 + tail);
        assert forall|m: int| 0 <= m < encode_pointer(s).len() implies #[trigger] encode_pointer(s)[m] != 0 && encode_pointer(s)[m] != 47 by {
            if m < e0.len() {
                assert(encode_pointer(s)[m] == e0[m]);
            } else {
                assert(encode_pointer(s)[m] == tail[m - e0.len()]);
            }
        }
    }
}

pub proof fn lemma_str_diff_self(a: Seq<u8>, i: nat, fold: bool)
    ensures
        crate::text::str_diff_from(a, a, i, fold) == 0,
    decreases a.len() - i,
{
    if !(byte_at(a, i as int) == 0 || i >= a.len()) {
        lemma_str_diff_self(a, i + 1, fold);
    }
}

/// Matching a key against the written-out token of a key `key` is the
/// comparison of the two keys.
proof fn lemma_name_matches_encoded(nm: Seq<u8>, key: Seq<u8>, q: Seq<u8>, i: int, j: int, cs: bool)
    requires
        0 <= i <= cstr(key).len(),
        0 <= j,
        j + encode_pointer(cstr(key).skip(i)).len() <= q.len(),
        q.subrange(j, j + encode_pointer(cstr(key).skip(i)).len()) == encode_pointer(cstr(key).skip(i)),
        byte_at(q, j + encode_pointer(cstr(key).skip(i)).len()) == 0
            || byte_at(q, j + encode_pointer(cstr(key).skip(i)).len()) == 47,
    ensures
        name_matches(nm, q, i, j, cs) == (crate::text::str_diff_from(nm, key, i as nat, !cs) == 0),
    decreases cstr(key).len() - i,
{
    let t = cstr(key);
    crate::text::lemma_nul_index(key);
    crate::text::lemma_cstr_no_nul(key);
    let a = byte_at(nm, i);
    if i == t.len() {
        assert(t.skip(i) =~= Seq::<u8>::empty());
        assert(encode_pointer(Seq::<u8>::empty()) =~= Seq::<u8>::empty());
        assert(byte_at(key, i) == 0);
    } else {
        let c = t[i];
        assert(c != 0);
        assert(byte_at(key, i) == c);
        let rest = t.skip(i + 1);
        assert(t.skip(i) =~= seq![c] + rest);
        lemma_encode_concat(seq![c], rest);
        assert(seq![c].drop_last() =~= Seq::<u8>::empty());
        assert(encode_pointer(Seq::<u8>::empty()) =~= Seq::<u8>::empty());
        let head: Seq<u8> = if c == 47 {
            seq![126u8, 49u8]
        } else if c == 126 {
            seq![126u8, 48u8]
        } else {
            seq![c]
        };
        assert(encode_pointer(seq![c]) == encode_pointer(seq![c].drop_last()) + head);
        assert(encode_pointer(seq![c]) =~= head);
        let e = encode_pointer(t.skip(i));
        assert(e =~= head + encode_pointer(rest));
        let j2 = j + head.len();
        assert(q.subrange(j2, j2 + encode_pointer(rest).len()) =~= e.subrange(head.len() as int, e.len() as int));
        assert(e.subrange(head.len() as int, e.len() as int) =~= encode_pointer(rest));
        assert(t.skip(i + 1) == rest);
        assert(j2 + encode_pointer(rest).len() == j + e.len());
        assert(q[j] == e[0]);
        assert(byte_at(q, j) == head[0]);
        if head.len() == 2 {
            assert(q[j + 1] == e[1]);
            assert(byte_at(q, j + 1) == head[1]);
        }
        lemma_name_matches_encoded(nm, key, q, i + 1, j2, cs);
        if a == 0 {
            assert(crate::text::lower(c) != 0);
        }
    }
}

proof fn lemma_find_named_first(kids: Seq<JsonNode>, q: Seq<u8>, j: int, cs: bool, i: nat, k: int)
    requires
        i <= k < kids.len(),
        key_matches(kids[k].string, q, j, cs),
        forall|m: int| i <= m < k ==> !key_matches(#[trigger] kids[m].string, q, j, cs),
    ensures
        find_named(kids, q, j, cs, i) == Some(k),
    decreases k - i,
{
    if i < k {
        assert(!key_matches(kids[i as int].string, q, j, cs));
        lemma_find_named_first(kids, q, j, cs, i + 1, k);
    }
}

proof fn lemma_walk_pointer_to(n: JsonNode, path: Seq<int>, cs: bool, pre: Seq<u8>)
    requires
        first_keys_along(n, path, cs),
        pointer_to(n, path) is Some,
    ensures
        walk(n, pre + pointer_to(n, path).unwrap(), pre.len() as int, cs) == Some(path),
    decreases path.len(),
{
    let s = pointer_to(n, path).unwrap();
    let q = pre + s;
    if path.len() == 0 {
        assert(s.len() == 0);
    } else {
        let k = path[0];
        let child = n.child[k];
        let sub = pointer_to(child, path.skip(1)).unwrap();
        let t = type_byte(n.type_);
        let key = match child.string {
            Some(x) => x,
            None => Seq::empty(),
        };
        let tok = if t == CJSON_ARRAY {
            crate::float::dec_digits(k as nat)
        } else {
            encode_pointer(cstr(key))
        };
        assert(s == seq![47u8] + tok + sub);
        let pre2 = pre + seq![47u8] + tok;
        assert(q =~= pre2 + sub);
        lemma_walk_pointer_to(child, path.skip(1), cs, pre2);
        lemma_pointer_to_head(child, path.skip(1));
        let pos = pre.len() as int;
        let p1 = pos + 1;
        let e = pre2.len() as int;
        assert(e == p1 + tok.len());
        assert(q[pos] == 47);
        assert(q.subrange(p1, e) =~= tok);
        assert(byte_at(q, e) == 0 || byte_at(q, e) == 47) by {
            if sub.len() > 0 {
                assert(q[e] == sub[0]);
            }
        }
        if t == CJSON_ARRAY {
            lemma_dec_digits_shape(k as nat);
            assert forall|m: int| p1 <= m < e implies #[trigger] byte_at(q, m) != 0 && byte_at(q, m) != 47 by {
                assert(q[m] == tok[m - p1]);
            }
            lemma_token_end_at(q, p1, e);
            assert forall|m: int| p1 <= m < p1 + tok.len() implies 48 <= #[trigger] q[m] <= 57 by {
                assert(q[m] == tok[m - p1]);
            }
            lemma_digit_run_exact(q, p1, tok.len());
            lemma_index_value_digits(q, p1, k as nat);
            assert(byte_at(q, p1) == tok[0]);
            if tok[0] == 48 {
                assert(tok.len() == 1);
            }
            assert(decode_index(q, p1) == Some(k as usize));
        } else {
            assert(t == CJSON_OBJECT);
            crate::text::lemma_cstr_no_nul(key);
            lemma_encode_plain(cstr(key));
            assert forall|m: int| p1 <= m < e implies #[trigger] byte_at(q, m) != 0 && byte_at(q, m) != 47 by {
                assert(q[m] == tok[m - p1]);
            }
            lemma_token_end_at(q, p1, e);
            assert(cstr(key).skip(0) =~= cstr(key));
            assert forall|m: int| 0 <= m < k implies !key_matches(#[trigger] n.child[m].string, q, p1, cs) by {
                if let Some(o) = n.child[m].string {
                    lemma_name_matches_encoded(o, key, q, 0, p1, cs);
                    assert(key_diff(n.child[m].string, n.child[k].string, cs) != 0);
                }
            }
            lemma_name_matches_encoded(key, key, q, 0, p1, cs);
            lemma_str_diff_self(key, 0, !cs);
            lemma_find_named_first(n.child, q, p1, cs, 0, k);
        }
        assert(seq![k] + path.skip(1) =~= path);
    }
}

} // verus!
