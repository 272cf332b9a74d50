//! Building, reading and rearranging trees: constructors, lookups by index
//! and by key, insertion, detachment, replacement, duplication, deep
//! comparison, the type predicates, and minifying JSON text.
//!
//! Nodes are owned values, so a "reference" node is a copy of what it
//! refers to, carrying the reference flag; keys and string values are C
//! strings, copied up to their first NUL byte.

use vstd::prelude::*;
use crate::model::{
    CJson, JsonNode, opt_view, empty_node, node_of_type, type_byte, has_flag, lemma_type_words,
    CJSON_INVALID, CJSON_FALSE, CJSON_TRUE, CJSON_NULL, CJSON_NUMBER, CJSON_STRING, CJSON_ARRAY,
    CJSON_OBJECT, CJSON_RAW, CJSON_IS_REFERENCE, CJSON_STRING_IS_CONST, CJSON_CIRCULAR_LIMIT,
};
use crate::number::{sat_int, double_to_int};
use crate::text::{cstr, c_string, c_str_diff, str_compare, copy_bytes};
use crate::model::{views, lemma_view_child, lemma_views_push, lemma_views_ops};
use crate::print::{closer_ok, closer_fn, lemma_closer};

verus! {

// ---------------------------------------------------------------------------
// Looking members up.
// ---------------------------------------------------------------------------

/// The member that a lookup of `name` finds, searching from `i`: with
/// `cs`, the first member whose key equals `name`, the search ending at a
/// member without a key; without `cs`, the first member with a key equal to
/// `name` up to ASCII case.
pub open spec fn find_member_from(kids: Seq<JsonNode>, name: Seq<u8>, cs: bool, i: nat) -> Option<int>
    decreases kids.len() - i,
{
    if i >= kids.len() {
        None
    } else {
        match kids[i as int].string {
            None => if cs {
                None
            } else {
                find_member_from(kids, name, cs, i + 1)
            },
            Some(k) => if (cs && c_str_diff(k, name, false) == 0) || (!cs && c_str_diff(name, k, true) == 0) {
                Some(i as int)
            } else {
                find_member_from(kids, name, cs, i + 1)
            },
        }
    }
}

pub open spec fn find_member(kids: Seq<JsonNode>, name: Seq<u8>, cs: bool) -> Option<int> {
    find_member_from(kids, name, cs, 0)
}

pub proof fn lemma_find_member_bounds(kids: Seq<JsonNode>, name: Seq<u8>, cs: bool, i: nat)
    ensures
        find_member_from(kids, name, cs, i) matches Some(k) ==> i <= k < kids.len() && kids[k].string is Some,
    decreases kids.len() - i,
{
    if i < kids.len() {
        lemma_find_member_bounds(kids, name, cs, i + 1);
    }
}

/// The index of the member of `object` that a lookup of `name` finds.
pub fn object_item_index(object: &CJson, name: &[u8], case_sensitive: bool) -> (r: Option<usize>)
    ensures
        match r {
            Some(k) => find_member(object@.child, name@, case_sensitive) == Some(k as int),
            None => find_member(object@.child, name@, case_sensitive) is None,
        },
{
    proof {
        lemma_view_child(*object);
    }
    let ghost kids = object@.child;
    let n = object.child.len();
    let mut i: usize = 0;
    while i < n
        invariant
            i <= n,
            n == object.child@.len(),
            kids == object@.child,
            kids == views(object.child@),
            find_member(kids, name@, case_sensitive) == find_member_from(kids, name@, case_sensitive, i as nat),
        decreases n - i,
    {
        let c = &object.child[i];
        assert(kids[i as int] == c@);
        match &c.string {
            None => {
                if case_sensitive {
                    return None;
                }
            },
            Some(k) => {
                let d = if case_sensitive {
                    str_compare(k.as_slice(), name, false)
                } else {
                    str_compare(name, k.as_slice(), true)
                };
                if d == 0 {
                    return Some(i);
                }
            },
        }
        i += 1;
    }
    None
}

/// The member of `object` whose key is `name` (ASCII case folded unless
/// `case_sensitive`).
pub fn get_object_item<'a>(object: &'a CJson, name: &[u8], case_sensitive: bool) -> (r: Option<&'a CJson>)
    ensures
        match find_member(object@.child, name@, case_sensitive) {
            Some(k) => r matches Some(c) && c@ == object@.child[k],
            None => r is None,
        },
{
    proof {
        lemma_view_child(*object);
        lemma_find_member_bounds(object@.child, name@, case_sensitive, 0);
    }
    match object_item_index(object, name, case_sensitive) {
        Some(k) => Some(&object.child[k]),
        None => None,
    }
}

/// The member of `object` whose key is `name`, up to ASCII case.
pub fn cjson_get_object_item<'a>(object: &'a CJson, string: &[u8]) -> (r: Option<&'a CJson>)
    ensures
        match find_member(object@.child, string@, false) {
            Some(k) => r matches Some(c) && c@ == object@.child[k],
            None => r is None,
        },
{
    get_object_item(object, string, false)
}

/// The member of `object` whose key is exactly `name`.
pub fn cjson_get_object_item_case_sensitive<'a>(object: &'a CJson, string: &[u8]) -> (r: Option<&'a CJson>)
    ensures
        match find_member(object@.child, string@, true) {
            Some(k) => r matches Some(c) && c@ == object@.child[k],
            None => r is None,
        },
{
    get_object_item(object, string, true)
}

/// Whether `object` has a member with the key `string`, up to ASCII case.
pub fn cjson_has_object_item(object: &CJson, string: &[u8]) -> (r: bool)
    ensures
        r == find_member(object@.child, string@, false) is Some,
{
    object_item_index(object, string, false).is_some()
}

/// ASCII case-insensitive `strcmp` of two C strings.
pub fn case_insensitive_strcmp(s1: &[u8], s2: &[u8]) -> (r: i32)
    ensures
        r == c_str_diff(s1@, s2@, true),
{
    str_compare(s1, s2, true)
}

/// The number of elements of an array or members of an object, as a C
/// `int` (wrapping past `INT_MAX`).
pub fn cjson_get_array_size(array: &CJson) -> (r: i32)
    ensures
        r == array@.child.len() as i32,
{
    proof {
        lemma_view_child(*array);
    }
    let n = array.child.len();
    n as i32
}

/// The element at `index`.
pub fn get_array_item(array: &CJson, index: usize) -> (r: Option<&CJson>)
    ensures
        index < array@.child.len() ==> (r matches Some(c) && c@ == array@.child[index as int]),
        index >= array@.child.len() ==> r is None,
{
    proof {
        lemma_view_child(*array);
    }
    if index < array.child.len() {
        Some(&array.child[index])
    } else {
        None
    }
}

/// The element at `index`; `None` for a negative index.
pub fn cjson_get_array_item(array: &CJson, index: i32) -> (r: Option<&CJson>)
    ensures
        0 <= index < array@.child.len() ==> (r matches Some(c) && c@ == array@.child[index as int]),
        index < 0 || index >= array@.child.len() ==> r is None,
{
    if index < 0 {
        return None;
    }
    get_array_item(array, index as usize)
}


// ---------------------------------------------------------------------------
// Copies.
// ---------------------------------------------------------------------------

/// A copy of an optional byte string.
pub fn copy_opt(o: &Option<Vec<u8>>) -> (r: Option<Vec<u8>>)
    ensures
        opt_view(r) == opt_view(*o),
{
    match o {
        None => None,
        Some(v) => Some(copy_bytes(v.as_slice())),
    }
}

/// A deep copy of a tree.
pub fn copy_node(item: &CJson) -> (r: CJson)
    ensures
        r@ == item@,
    decreases item@,
{
    proof {
        lemma_view_child(*item);
    }
    let mut kids: Vec<CJson> = Vec::new();
    let n = item.child.len();
    let mut i: usize = 0;
    while i < n
        invariant
            i <= n,
            n == item.child@.len(),
            item@.child == views(item.child@),
            views(kids@) == item@.child.take(i as int),
        decreases n - i,
    {
        assert(item@.child[i as int] == item.child@[i as int]@);
        let k = copy_node(&item.child[i]);
        let ghost before = kids@;
        kids.push(k);
        proof {
            lemma_views_push(before, k);
        }
        i += 1;
        assert(views(kids@) =~= item@.child.take(i as int));
    }
    let r = CJson {
        type_: item.type_,
        valuestring: copy_opt(&item.valuestring),
        valueint: item.valueint,
        valuedouble: item.valuedouble,
        string: copy_opt(&item.string),
        child: kids,
    };
    proof {
        lemma_view_child(r);
        assert(item@.child.take(n as int) =~= item@.child);
        assert(r@ =~= item@);
    }
    r
}

// ---------------------------------------------------------------------------
// Constructors.
// ---------------------------------------------------------------------------

/// A node of type `t` with the C string `s` as its value.
pub open spec fn text_node(t: i32, s: Seq<u8>) -> JsonNode {
    JsonNode { type_: t, valuestring: Some(cstr(s)), ..empty_node() }
}

/// A number node: the double's bits and its saturated integer value.
pub open spec fn num_node(bits: u64) -> JsonNode {
    JsonNode { type_: CJSON_NUMBER, valuedouble: bits, valueint: sat_int(bits), ..empty_node() }
}

/// A container of type `t` holding `kids`.
pub open spec fn holder_node(t: i32, kids: Seq<JsonNode>) -> JsonNode {
    JsonNode { type_: t, child: kids, ..empty_node() }
}

pub fn cjson_create_null() -> (r: CJson)
    ensures
        r@ == node_of_type(CJSON_NULL),
{
    crate::model::new_item(CJSON_NULL)
}

pub fn cjson_create_true() -> (r: CJson)
    ensures
        r@ == node_of_type(CJSON_TRUE),
{
    crate::model::new_item(CJSON_TRUE)
}

pub fn cjson_create_false() -> (r: CJson)
    ensures
        r@ == node_of_type(CJSON_FALSE),
{
    crate::model::new_item(CJSON_FALSE)
}

/// `true` for a nonzero `boolean`, else `false`.
pub fn cjson_create_bool(boolean: i32) -> (r: CJson)
    ensures
        r@ == node_of_type(if boolean != 0 { CJSON_TRUE } else { CJSON_FALSE }),
{
    crate::model::new_item(if boolean != 0 { CJSON_TRUE } else { CJSON_FALSE })
}

/// A number node for the double with bit pattern `num`; its integer value
/// saturates at the `int` range.
pub fn cjson_create_number(num: u64) -> (r: CJson)
    ensures
        r@ == num_node(num),
{
    let mut item = crate::model::new_item(CJSON_NUMBER);
    item.valuedouble = num;
    item.valueint = double_to_int(num);
    proof {
        lemma_view_child(item);
        assert(item@ =~= num_node(num));
    }
    item
}

/// A string node holding a copy of the C string `string`.
pub fn cjson_create_string(string: &[u8]) -> (r: CJson)
    ensures
        r@ == text_node(CJSON_STRING, string@),
{
    let mut item = crate::model::new_item(CJSON_STRING);
    item.valuestring = Some(c_string(string));
    proof {
        lemma_view_child(item);
        assert(item@ =~= text_node(CJSON_STRING, string@));
    }
    item
}

/// A string node flagged as a reference to the C string `string`.
pub fn cjson_create_string_reference(string: &[u8]) -> (r: CJson)
    ensures
        r@ == text_node(CJSON_STRING | CJSON_IS_REFERENCE, string@),
{
    let mut item = crate::model::new_item(CJSON_STRING | CJSON_IS_REFERENCE);
    item.valuestring = Some(c_string(string));
    proof {
        lemma_view_child(item);
        assert(item@ =~= text_node(CJSON_STRING | CJSON_IS_REFERENCE, string@));
    }
    item
}

/// A raw node holding a copy of the C string `raw`, printed as it is.
pub fn cjson_create_raw(raw: &[u8]) -> (r: CJson)
    ensures
        r@ == text_node(CJSON_RAW, raw@),
{
    let mut item = crate::model::new_item(CJSON_RAW);
    item.valuestring = Some(c_string(raw));
    proof {
        lemma_view_child(item);
        assert(item@ =~= text_node(CJSON_RAW, raw@));
    }
    item
}

pub fn cjson_create_array() -> (r: CJson)
    ensures
        r@ == node_of_type(CJSON_ARRAY),
{
    crate::model::new_item(CJSON_ARRAY)
}

pub fn cjson_create_object() -> (r: CJson)
    ensures
        r@ == node_of_type(CJSON_OBJECT),
{
    crate::model::new_item(CJSON_OBJECT)
}

/// Copies of the nodes of `v`.
pub fn copy_all(v: &Vec<CJson>) -> (r: Vec<CJson>)
    ensures
        views(r@) == views(v@),
{
    let mut out: Vec<CJson> = Vec::new();
    let mut i: usize = 0;
    while i < v.len()
        invariant
            i <= v@.len(),
            views(out@) == views(v@).take(i as int),
        decreases v@.len() - i,
    {
        let k = copy_node(&v[i]);
        let ghost before = out@;
        out.push(k);
        proof {
            lemma_views_push(before, k);
        }
        i += 1;
        assert(views(out@) =~= views(v@).take(i as int));
    }
    assert(views(v@).take(v@.len() as int) =~= views(v@));
    out
}

/// An object node flagged as a reference, whose members are `child`.
pub fn cjson_create_object_reference(child: &Vec<CJson>) -> (r: CJson)
    ensures
        r@ == holder_node(CJSON_OBJECT | CJSON_IS_REFERENCE, views(child@)),
{
    let mut item = crate::model::new_item(CJSON_OBJECT | CJSON_IS_REFERENCE);
    item.child = copy_all(child);
    proof {
        lemma_view_child(item);
        assert(item@ =~= holder_node(CJSON_OBJECT | CJSON_IS_REFERENCE, views(child@)));
    }
    item
}

/// An array node flagged as a reference, whose elements are `child`.
pub fn cjson_create_array_reference(child: &Vec<CJson>) -> (r: CJson)
    ensures
        r@ == holder_node(CJSON_ARRAY | CJSON_IS_REFERENCE, views(child@)),
{
    let mut item = crate::model::new_item(CJSON_ARRAY | CJSON_IS_REFERENCE);
    item.child = copy_all(child);
    proof {
        lemma_view_child(item);
        assert(item@ =~= holder_node(CJSON_ARRAY | CJSON_IS_REFERENCE, views(child@)));
    }
    item
}

/// An array of number nodes for the `int`s of `numbers`.
pub fn cjson_create_int_array(numbers: &[i32]) -> (r: CJson)
    ensures
        r@ == holder_node(CJSON_ARRAY, Seq::new(numbers@.len(), |i: int| num_node(crate::number::int_bits(numbers@[i] as int)))),
{
    let mut a = cjson_create_array();
    let mut i: usize = 0;
    proof {
        lemma_view_child(a);
        assert(a@.child =~= Seq::new(0nat, |j: int| num_node(crate::number::int_bits(numbers@[j] as int))));
    }
    while i < numbers.len()
        invariant
            i <= numbers@.len(),
            a@.child == views(a.child@),
            a@ == holder_node(CJSON_ARRAY, Seq::new(i as nat, |j: int| num_node(crate::number::int_bits(numbers@[j] as int)))),
        decreases numbers@.len() - i,
    {
        let bits = crate::number::int_to_double(numbers[i]);
        let ghost before = a.child@;
        a.child.push(cjson_create_number(bits));
        i += 1;
        proof {
            lemma_view_child(a);
            lemma_views_push(before, a.child@.last());
            assert(a.child@.drop_last() =~= before);
            assert(a@.child =~= Seq::new(i as nat, |j: int| num_node(crate::number::int_bits(numbers@[j] as int))));
        }
    }
    a
}

/// An array of number nodes for the doubles with the bit patterns `numbers`.
pub fn cjson_create_double_array(numbers: &[u64]) -> (r: CJson)
    ensures
        r@ == holder_node(CJSON_ARRAY, Seq::new(numbers@.len(), |i: int| num_node(numbers@[i]))),
{
    let mut a = cjson_create_array();
    let mut i: usize = 0;
    proof {
        lemma_view_child(a);
        assert(a@.child =~= Seq::new(0nat, |j: int| num_node(numbers@[j])));
    }
    while i < numbers.len()
        invariant
            i <= numbers@.len(),
            a@.child == views(a.child@),
            a@ == holder_node(CJSON_ARRAY, Seq::new(i as nat, |j: int| num_node(numbers@[j]))),
        decreases numbers@.len() - i,
    {
        let ghost before = a.child@;
        a.child.push(cjson_create_number(numbers[i]));
        i += 1;
        proof {
            lemma_view_child(a);
            lemma_views_push(before, a.child@.last());
            assert(a.child@.drop_last() =~= before);
            assert(a@.child =~= Seq::new(i as nat, |j: int| num_node(numbers@[j])));
        }
    }
    a
}

/// An array of string nodes for the C strings of `strings`.
pub fn cjson_create_string_array(strings: &[Vec<u8>]) -> (r: CJson)
    ensures
        r@ == holder_node(CJSON_ARRAY, Seq::new(strings@.len(), |i: int| text_node(CJSON_STRING, strings@[i]@))),
{
    let mut a = cjson_create_array();
    let mut i: usize = 0;
    proof {
        lemma_view_child(a);
        assert(a@.child =~= Seq::new(0nat, |j: int| text_node(CJSON_STRING, strings@[j]@)));
    }
    while i < strings.len()
        invariant
            i <= strings@.len(),
            a@.child == views(a.child@),
            a@ == holder_node(CJSON_ARRAY, Seq::new(i as nat, |j: int| text_node(CJSON_STRING, strings@[j]@))),
        decreases strings@.len() - i,
    {
        let ghost before = a.child@;
        a.child.push(cjson_create_string(strings[i].as_slice()));
        i += 1;
        proof {
            lemma_view_child(a);
            lemma_views_push(before, a.child@.last());
            assert(a.child@.drop_last() =~= before);
            assert(a@.child =~= Seq::new(i as nat, |j: int| text_node(CJSON_STRING, strings@[j]@)));
        }
    }
    a
}


// ---------------------------------------------------------------------------
// Adding, detaching, inserting and replacing members.
// ---------------------------------------------------------------------------

/// `n` with the children `kids`.
pub open spec fn with_kids(n: JsonNode, kids: Seq<JsonNode>) -> JsonNode {
    JsonNode { child: kids, ..n }
}

/// `n` as a member under the key `key`: the key is copied, and the
/// constant-key flag set when `constant`, cleared otherwise.
pub open spec fn keyed(n: JsonNode, key: Seq<u8>, constant: bool) -> JsonNode {
    JsonNode {
        string: Some(cstr(key)),
        type_: if constant { n.type_ | CJSON_STRING_IS_CONST } else { n.type_ & !CJSON_STRING_IS_CONST },
        ..n
    }
}

/// A reference to `n`: its contents without its key, flagged as a
/// reference.
pub open spec fn reference_of(n: JsonNode) -> JsonNode {
    JsonNode { string: None, type_: n.type_ | CJSON_IS_REFERENCE, ..n }
}

/// A reference to `item`.
pub fn create_reference(item: &CJson) -> (r: CJson)
    ensures
        r@ == reference_of(item@),
{
    let mut r = copy_node(item);
    r.string = None;
    r.type_ = r.type_ | CJSON_IS_REFERENCE;
    proof {
        lemma_view_child(r);
        lemma_view_child(*item);
        assert(r@ =~= reference_of(item@));
    }
    r
}

/// Appends `item` to the children of `array`.
pub fn add_item_to_array(array: &mut CJson, item: CJson) -> (r: bool)
    ensures
        r,
        final(array)@ == with_kids(old(array)@, old(array)@.child.push(item@)),
{
    proof {
        lemma_view_child(*array);
        lemma_views_push(array.child@, item);
    }
    array.child.push(item);
    proof {
        lemma_view_child(*array);
        assert(array@ =~= with_kids(old(array)@, old(array)@.child.push(item@)));
    }
    true
}

pub fn cjson_add_item_to_array(array: &mut CJson, item: CJson) -> (r: bool)
    ensures
        r,
        final(array)@ == with_kids(old(array)@, old(array)@.child.push(item@)),
{
    add_item_to_array(array, item)
}

/// Appends `item` to `object` under a copy of the key `string`.
pub fn add_item_to_object(object: &mut CJson, string: &[u8], item: CJson, constant_key: bool) -> (r: bool)
    ensures
        r,
        final(object)@ == with_kids(old(object)@, old(object)@.child.push(keyed(item@, string@, constant_key))),
{
    let mut item = item;
    let ghost before = item@;
    item.string = Some(c_string(string));
    item.type_ = if constant_key { item.type_ | CJSON_STRING_IS_CONST } else { item.type_ & !CJSON_STRING_IS_CONST };
    proof {
        lemma_view_child(item);
        assert(item@ =~= keyed(before, string@, constant_key));
    }
    add_item_to_array(object, item)
}

pub fn cjson_add_item_to_object(object: &mut CJson, string: &[u8], item: CJson) -> (r: bool)
    ensures
        r,
        final(object)@ == with_kids(old(object)@, old(object)@.child.push(keyed(item@, string@, false))),
{
    add_item_to_object(object, string, item, false)
}

/// Appends `item` under the key `string`, flagging the key as constant.
pub fn cjson_add_item_to_object_cs(object: &mut CJson, string: &[u8], item: CJson) -> (r: bool)
    ensures
        r,
        final(object)@ == with_kids(old(object)@, old(object)@.child.push(keyed(item@, string@, true))),
{
    add_item_to_object(object, string, item, true)
}

/// Appends a reference to `item`.
pub fn cjson_add_item_reference_to_array(array: &mut CJson, item: &CJson) -> (r: bool)
    ensures
        r,
        final(array)@ == with_kids(old(array)@, old(array)@.child.push(reference_of(item@))),
{
    add_item_to_array(array, create_reference(item))
}

/// Appends a reference to `item` under the key `string`.
pub fn cjson_add_item_reference_to_object(object: &mut CJson, string: &[u8], item: &CJson) -> (r: bool)
    ensures
        r,
        final(object)@ == with_kids(old(object)@, old(object)@.child.push(keyed(reference_of(item@), string@, false))),
{
    add_item_to_object(object, string, create_reference(item), false)
}

pub fn cjson_add_null_to_object(object: &mut CJson, name: &[u8]) -> (r: bool)
    ensures
        r,
        final(object)@ == with_kids(old(object)@, old(object)@.child.push(keyed(node_of_type(CJSON_NULL), name@, false))),
{
    add_item_to_object(object, name, cjson_create_null(), false)
}

pub fn cjson_add_true_to_object(object: &mut CJson, name: &[u8]) -> (r: bool)
    ensures
        r,
        final(object)@ == with_kids(old(object)@, old(object)@.child.push(keyed(node_of_type(CJSON_TRUE), name@, false))),
{
    add_item_to_object(object, name, cjson_create_true(), false)
}

pub fn cjson_add_false_to_object(object: &mut CJson, name: &[u8]) -> (r: bool)
    ensures
        r,
        final(object)@ == with_kids(old(object)@, old(object)@.child.push(keyed(node_of_type(CJSON_FALSE), name@, false))),
{
    add_item_to_object(object, name, cjson_create_false(), false)
}

pub fn cjson_add_bool_to_object(object: &mut CJson, name: &[u8], boolean: i32) -> (r: bool)
    ensures
        r,
        final(object)@ == with_kids(
            old(object)@,
            old(object)@.child.push(keyed(node_of_type(if boolean != 0 { CJSON_TRUE } else { CJSON_FALSE }), name@, false)),
        ),
{
    add_item_to_object(object, name, cjson_create_bool(boolean), false)
}

/// Appends a number member for the double with bit pattern `number`.
pub fn cjson_add_number_to_object(object: &mut CJson, name: &[u8], number: u64) -> (r: bool)
    ensures
        r,
        final(object)@ == with_kids(old(object)@, old(object)@.child.push(keyed(num_node(number), name@, false))),
{
    add_item_to_object(object, name, cjson_create_number(number), false)
}

pub fn cjson_add_string_to_object(object: &mut CJson, name: &[u8], string: &[u8]) -> (r: bool)
    ensures
        r,
        final(object)@ == with_kids(old(object)@, old(object)@.child.push(keyed(text_node(CJSON_STRING, string@), name@, false))),
{
    add_item_to_object(object, name, cjson_create_string(string), false)
}

pub fn cjson_add_raw_to_object(object: &mut CJson, name: &[u8], raw: &[u8]) -> (r: bool)
    ensures
        r,
        final(object)@ == with_kids(old(object)@, old(object)@.child.push(keyed(text_node(CJSON_RAW, raw@), name@, false))),
{
    add_item_to_object(object, name, cjson_create_raw(raw), false)
}

pub fn cjson_add_object_to_object(object: &mut CJson, name: &[u8]) -> (r: bool)
    ensures
        r,
        final(object)@ == with_kids(old(object)@, old(object)@.child.push(keyed(node_of_type(CJSON_OBJECT), name@, false))),
{
    add_item_to_object(object, name, cjson_create_object(), false)
}

pub fn cjson_add_array_to_object(object: &mut CJson, name: &[u8]) -> (r: bool)
    ensures
        r,
        final(object)@ == with_kids(old(object)@, old(object)@.child.push(keyed(node_of_type(CJSON_ARRAY), name@, false))),
{
    add_item_to_object(object, name, cjson_create_array(), false)
}

/// Removes the child at `which` and hands it back; `None`, leaving the
/// parent unchanged, when there is no such child.
pub fn cjson_detach_item_via_pointer(parent: &mut CJson, which: usize) -> (r: Option<CJson>)
    ensures
        which < old(parent)@.child.len() ==> (r matches Some(c) && c@ == old(parent)@.child[which as int]
            && final(parent)@ == with_kids(old(parent)@, old(parent)@.child.remove(which as int))),
        which >= old(parent)@.child.len() ==> r is None && final(parent)@ == old(parent)@,
{
    proof {
        lemma_view_child(*parent);
    }
    if which >= parent.child.len() {
        return None;
    }
    proof {
        lemma_views_ops(parent.child@, which as int, parent.child@[which as int]);
    }
    let c = parent.child.remove(which);
    proof {
        lemma_view_child(*parent);
        assert(parent@ =~= with_kids(old(parent)@, old(parent)@.child.remove(which as int)));
    }
    Some(c)
}

/// Removes the element at `which`; `None` for a negative or missing index.
pub fn cjson_detach_item_from_array(array: &mut CJson, which: i32) -> (r: Option<CJson>)
    ensures
        0 <= which < old(array)@.child.len() ==> (r matches Some(c) && c@ == old(array)@.child[which as int]
            && final(array)@ == with_kids(old(array)@, old(array)@.child.remove(which as int))),
        which < 0 || which >= old(array)@.child.len() ==> r is None && final(array)@ == old(array)@,
{
    if which < 0 {
        return None;
    }
    cjson_detach_item_via_pointer(array, which as usize)
}

/// Removes and drops the element at `which`, if there is one.
pub fn cjson_delete_item_from_array(array: &mut CJson, which: i32)
    ensures
        0 <= which < old(array)@.child.len() ==> final(array)@ == with_kids(old(array)@, old(array)@.child.remove(which as int)),
        which < 0 || which >= old(array)@.child.len() ==> final(array)@ == old(array)@,
{
    let _ = cjson_detach_item_from_array(array, which);
}

/// Removes the member that a lookup of `string` finds.
fn detach_member(object: &mut CJson, string: &[u8], case_sensitive: bool) -> (r: Option<CJson>)
    ensures
        match find_member(old(object)@.child, string@, case_sensitive) {
            Some(k) => r matches Some(c) && c@ == old(object)@.child[k]
                && final(object)@ == with_kids(old(object)@, old(object)@.child.remove(k)),
            None => r is None && final(object)@ == old(object)@,
        },
{
    proof {
        lemma_find_member_bounds(object@.child, string@, case_sensitive, 0);
    }
    match object_item_index(object, string, case_sensitive) {
        Some(k) => cjson_detach_item_via_pointer(object, k),
        None => None,
    }
}

/// Removes the member whose key is `string`, up to ASCII case.
pub fn cjson_detach_item_from_object(object: &mut CJson, string: &[u8]) -> (r: Option<CJson>)
    ensures
        match find_member(old(object)@.child, string@, false) {
            Some(k) => r matches Some(c) && c@ == old(object)@.child[k]
                && final(object)@ == with_kids(old(object)@, old(object)@.child.remove(k)),
            None => r is None && final(object)@ == old(object)@,
        },
{
    detach_member(object, string, false)
}

/// Removes the member whose key is exactly `string`.
pub fn cjson_detach_item_from_object_case_sensitive(object: &mut CJson, string: &[u8]) -> (r: Option<CJson>)
    ensures
        match find_member(old(object)@.child, string@, true) {
            Some(k) => r matches Some(c) && c@ == old(object)@.child[k]
                && final(object)@ == with_kids(old(object)@, old(object)@.child.remove(k)),
            None => r is None && final(object)@ == old(object)@,
        },
{
    detach_member(object, string, true)
}

pub fn cjson_delete_item_from_object(object: &mut CJson, string: &[u8])
    ensures
        match find_member(old(object)@.child, string@, false) {
            Some(k) => final(object)@ == with_kids(old(object)@, old(object)@.child.remove(k)),
            None => final(object)@ == old(object)@,
        },
{
    let _ = detach_member(object, string, false);
}

pub fn cjson_delete_item_from_object_case_sensitive(object: &mut CJson, string: &[u8])
    ensures
        match find_member(old(object)@.child, string@, true) {
            Some(k) => final(object)@ == with_kids(old(object)@, old(object)@.child.remove(k)),
            None => final(object)@ == old(object)@,
        },
{
    let _ = detach_member(object, string, true);
}

/// Inserts `newitem` before the element at `which`, or appends it when
/// `which` is past the end; refuses a negative index.
pub fn cjson_insert_item_in_array(array: &mut CJson, which: i32, newitem: CJson) -> (r: bool)
    ensures
        r == (which >= 0),
        which < 0 ==> final(array)@ == old(array)@,
        0 <= which < old(array)@.child.len() ==> final(array)@ == with_kids(old(array)@, old(array)@.child.insert(which as int, newitem@)),
        which >= old(array)@.child.len() ==> final(array)@ == with_kids(old(array)@, old(array)@.child.push(newitem@)),
{
    if which < 0 {
        return false;
    }
    proof {
        lemma_view_child(*array);
    }
    let w = which as usize;
    if w >= array.child.len() {
        return add_item_to_array(array, newitem);
    }
    proof {
        lemma_views_ops(array.child@, w as int, newitem);
    }
    array.child.insert(w, newitem);
    proof {
        lemma_view_child(*array);
        assert(array@ =~= with_kids(old(array)@, old(array)@.child.insert(which as int, newitem@)));
    }
    true
}

/// Puts `replacement` in place of the child at `which`; refuses when there
/// is no such child.
pub fn cjson_replace_item_via_pointer(parent: &mut CJson, which: usize, replacement: CJson) -> (r: bool)
    ensures
        r == (which < old(parent)@.child.len()),
        r ==> final(parent)@ == with_kids(old(parent)@, old(parent)@.child.update(which as int, replacement@)),
        !r ==> final(parent)@ == old(parent)@,
{
    proof {
        lemma_view_child(*parent);
    }
    if which >= parent.child.len() {
        return false;
    }
    proof {
        lemma_views_ops(parent.child@, which as int, replacement);
    }
    parent.child.set(which, replacement);
    proof {
        lemma_view_child(*parent);
        assert(parent@ =~= with_kids(old(parent)@, old(parent)@.child.update(which as int, replacement@)));
    }
    true
}

/// Replaces the element at `which`; refuses a negative or missing index.
pub fn cjson_replace_item_in_array(array: &mut CJson, which: i32, newitem: CJson) -> (r: bool)
    ensures
        r == (0 <= which < old(array)@.child.len()),
        r ==> final(array)@ == with_kids(old(array)@, old(array)@.child.update(which as int, newitem@)),
        !r ==> final(array)@ == old(array)@,
{
    if which < 0 {
        return false;
    }
    cjson_replace_item_via_pointer(array, which as usize, newitem)
}

/// Replaces the member that a lookup of `string` finds with `replacement`,
/// which takes a copy of the key `string`; refuses when no member is found.
pub fn replace_item_in_object(object: &mut CJson, string: &[u8], replacement: CJson, case_sensitive: bool) -> (r: bool)
    ensures
        r == find_member(old(object)@.child, string@, case_sensitive) is Some,
        match find_member(old(object)@.child, string@, case_sensitive) {
            Some(k) => final(object)@ == with_kids(old(object)@, old(object)@.child.update(k, keyed(replacement@, string@, false))),
            None => final(object)@ == old(object)@,
        },
{
    let mut replacement = replacement;
    let ghost before = replacement@;
    replacement.string = Some(c_string(string));
    replacement.type_ = replacement.type_ & !CJSON_STRING_IS_CONST;
    proof {
        lemma_view_child(replacement);
        assert(replacement@ =~= keyed(before, string@, false));
        lemma_find_member_bounds(object@.child, string@, case_sensitive, 0);
    }
    match object_item_index(object, string, case_sensitive) {
        Some(k) => cjson_replace_item_via_pointer(object, k, replacement),
        None => false,
    }
}

pub fn cjson_replace_item_in_object(object: &mut CJson, string: &[u8], newitem: CJson) -> (r: bool)
    ensures
        r == find_member(old(object)@.child, string@, false) is Some,
        match find_member(old(object)@.child, string@, false) {
            Some(k) => final(object)@ == with_kids(old(object)@, old(object)@.child.update(k, keyed(newitem@, string@, false))),
            None => final(object)@ == old(object)@,
        },
{
    replace_item_in_object(object, string, newitem, false)
}

pub fn cjson_replace_item_in_object_case_sensitive(object: &mut CJson, string: &[u8], newitem: CJson) -> (r: bool)
    ensures
        r == find_member(old(object)@.child, string@, true) is Some,
        match find_member(old(object)@.child, string@, true) {
            Some(k) => final(object)@ == with_kids(old(object)@, old(object)@.child.update(k, keyed(newitem@, string@, false))),
            None => final(object)@ == old(object)@,
        },
{
    replace_item_in_object(object, string, newitem, true)
}


// ---------------------------------------------------------------------------
// Duplication.
// ---------------------------------------------------------------------------

pub open spec fn opt_cstr(o: Option<Seq<u8>>) -> Option<Seq<u8>> {
    match o {
        Some(v) => Some(cstr(v)),
        None => None,
    }
}

/// A node's own fields as duplication copies them: the reference flag
/// dropped, the strings copied as C strings, no children.
pub open spec fn dup_fields(n: JsonNode) -> JsonNode {
    JsonNode {
        type_: n.type_ & !CJSON_IS_REFERENCE,
        valuestring: opt_cstr(n.valuestring),
        valueint: n.valueint,
        valuedouble: n.valuedouble,
        string: opt_cstr(n.string),
        child: Seq::empty(),
    }
}

/// The duplicate of `n` at nesting depth `depth`; with `recurse`, its
/// children are duplicated too, and the duplicate refuses a node at depth
/// `CJSON_CIRCULAR_LIMIT` or more that has children.
pub open spec fn dup_tree(n: JsonNode, depth: int, recurse: bool) -> Option<JsonNode>
    decreases n, 1int,
{
    if !recurse {
        Some(dup_fields(n))
    } else if n.child.len() > 0 && depth >= CJSON_CIRCULAR_LIMIT {
        None
    } else {
        match dup_list(n.child, depth + 1) {
            Some(ks) => Some(with_kids(dup_fields(n), ks)),
            None => None,
        }
    }
}

pub open spec fn dup_list(s: Seq<JsonNode>, depth: int) -> Option<Seq<JsonNode>>
    decreases s, 0int,
{
    if s.len() == 0 {
        Some(Seq::empty())
    } else {
        match (dup_tree(s[0], depth, true), dup_list(s.subrange(1, s.len() as int), depth)) {
            (Some(a), Some(r)) => Some(seq![a] + r),
            _ => None,
        }
    }
}

pub open spec fn cat_nodes(pre: Seq<JsonNode>, r: Option<Seq<JsonNode>>) -> Option<Seq<JsonNode>> {
    match r {
        Some(x) => Some(pre + x),
        None => None,
    }
}

/// A copy of an optional C string.
fn copy_opt_cstr(o: &Option<Vec<u8>>) -> (r: Option<Vec<u8>>)
    ensures
        opt_view(r) == opt_cstr(opt_view(*o)),
{
    match o {
        None => None,
        Some(v) => Some(c_string(v.as_slice())),
    }
}

/// Duplicates `item` found at nesting depth `depth`.
pub fn duplicate_rec(item: &CJson, depth: usize, recurse: bool) -> (r: Option<CJson>)
    ensures
        match r {
            Some(c) => dup_tree(item@, depth as int, recurse) == Some(c@),
            None => dup_tree(item@, depth as int, recurse) is None,
        },
    decreases item@,
{
    let mut newitem = CJson {
        type_: item.type_ & !CJSON_IS_REFERENCE,
        valuestring: copy_opt_cstr(&item.valuestring),
        valueint: item.valueint,
        valuedouble: item.valuedouble,
        string: copy_opt_cstr(&item.string),
        child: Vec::new(),
    };
    proof {
        lemma_view_child(newitem);
        lemma_view_child(*item);
        assert(newitem@.child =~= Seq::<JsonNode>::empty());
        assert(newitem@ =~= dup_fields(item@));
    }
    if !recurse {
        return Some(newitem);
    }
    let ghost kids = item@.child;
    let n = item.child.len();
    proof {
        assert(kids.subrange(0, n as int) =~= kids);
        assert(Seq::<JsonNode>::empty() + kids =~= kids);
    }
    let mut i: usize = 0;
    while i < n
        invariant
            i <= n,
            n == item.child@.len(),
            kids == item@.child,
            kids == views(item.child@),
            recurse,
            i > 0 ==> depth < CJSON_CIRCULAR_LIMIT,
            newitem@ == with_kids(dup_fields(item@), views(newitem.child@)),
            dup_list(kids, depth + 1) == cat_nodes(views(newitem.child@), dup_list(kids.subrange(i as int, n as int), depth + 1)),
        decreases n - i,
    {
        if depth >= CJSON_CIRCULAR_LIMIT {
            return None;
        }
        let ghost s = kids.subrange(i as int, n as int);
        proof {
            assert(s[0] == item.child@[i as int]@);
            assert(s.subrange(1, s.len() as int) =~= kids.subrange(i + 1, n as int));
        }
        let newchild = duplicate_rec(&item.child[i], depth + 1, true);
        match newchild {
            None => {
                return None;
            },
            Some(c) => {
                let ghost before = newitem.child@;
                newitem.child.push(c);
                proof {
                    lemma_views_push(before, c);
                    lemma_view_child(newitem);
                    assert(views(before).push(c@) =~= views(before) + seq![c@]);
                    match dup_list(kids.subrange(i + 1, n as int), depth + 1) {
                        Some(x) => {
                            assert(views(before) + (seq![c@] + x) =~= views(newitem.child@) + x);
                        },
                        None => {},
                    }
                    assert(newitem@ =~= with_kids(dup_fields(item@), views(newitem.child@)));
                }
            },
        }
        i += 1;
    }
    proof {
        assert(kids.subrange(n as int, n as int) =~= Seq::<JsonNode>::empty());
        assert(views(newitem.child@) + Seq::<JsonNode>::empty() =~= views(newitem.child@));
    }
    Some(newitem)
}

/// A duplicate of `item`, with its whole subtree when `recurse`; `None`
/// when the tree nests too deeply to duplicate.
pub fn cjson_duplicate(item: &CJson, recurse: bool) -> (r: Option<CJson>)
    ensures
        match r {
            Some(c) => dup_tree(item@, 0, recurse) == Some(c@),
            None => dup_tree(item@, 0, recurse) is None,
        },
{
    duplicate_rec(item, 0, recurse)
}


// ---------------------------------------------------------------------------
// Deep comparison.
// ---------------------------------------------------------------------------

/// The number of nodes of a tree.
pub open spec fn node_count(n: JsonNode) -> nat
    decreases n, 1int,
{
    1 + list_count(n.child)
}

pub open spec fn list_count(s: Seq<JsonNode>) -> nat
    decreases s, 0int,
{
    if s.len() == 0 {
        0
    } else {
        node_count(s[0]) + list_count(s.subrange(1, s.len() as int))
    }
}

pub proof fn lemma_list_count(s: Seq<JsonNode>, i: int)
    requires
        0 <= i < s.len(),
    ensures
        node_count(s[i]) <= list_count(s),
    decreases s.len(),
{
    if i > 0 {
        lemma_list_count(s.subrange(1, s.len() as int), i - 1);
    }
}

/// Whether the type tag is one of the eight value types.
pub open spec fn known_type(t: i32) -> bool {
    t == CJSON_FALSE || t == CJSON_TRUE || t == CJSON_NULL || t == CJSON_NUMBER || t == CJSON_STRING
        || t == CJSON_RAW || t == CJSON_ARRAY || t == CJSON_OBJECT
}

/// Whether two trees are equal as `cjson_compare` judges them: the same
/// known type, numbers that `close` accepts, strings with the same C
/// string, arrays with equal elements pairwise, and objects in which every
/// member of each finds an equal member of the other under its key.
pub open spec fn same_tree(a: JsonNode, b: JsonNode, cs: bool, close: spec_fn(u64, u64) -> bool) -> bool
    decreases node_count(a) + node_count(b), 1int,
{
    let t = type_byte(a.type_);
    if t != type_byte(b.type_) || !known_type(t) {
        false
    } else if t == CJSON_FALSE || t == CJSON_TRUE || t == CJSON_NULL {
        true
    } else if t == CJSON_NUMBER {
        close(a.valuedouble, b.valuedouble)
    } else if t == CJSON_STRING || t == CJSON_RAW {
        match (a.valuestring, b.valuestring) {
            (Some(x), Some(y)) => c_str_diff(x, y, false) == 0,
            _ => false,
        }
    } else if t == CJSON_ARRAY {
        same_elements(a.child, b.child, cs, close)
    } else {
        members_found(a.child, b.child, cs, close) && members_found(b.child, a.child, cs, close)
    }
}

/// Equal lengths and equal elements pairwise.
pub open spec fn same_elements(sa: Seq<JsonNode>, sb: Seq<JsonNode>, cs: bool, close: spec_fn(u64, u64) -> bool) -> bool
    decreases list_count(sa) + list_count(sb), 2int,
{
    if sa.len() == 0 || sb.len() == 0 {
        sa.len() == sb.len()
    } else {
        proof {
            assert(list_count(sa) == node_count(sa[0]) + list_count(sa.subrange(1, sa.len() as int)));
            assert(list_count(sb) == node_count(sb[0]) + list_count(sb.subrange(1, sb.len() as int)));
            assert(node_count(sa[0]) >= 1);
            assert(node_count(sb[0]) >= 1);
        }
        same_tree(sa[0], sb[0], cs, close) && same_elements(
            sa.subrange(1, sa.len() as int),
            sb.subrange(1, sb.len() as int),
            cs,
            close,
        )
    }
}

/// Every member of `sa` has a key under which a lookup in `bk` finds an
/// equal member.
pub open spec fn members_found(sa: Seq<JsonNode>, bk: Seq<JsonNode>, cs: bool, close: spec_fn(u64, u64) -> bool) -> bool
    decreases list_count(sa) + list_count(bk), 2int,
{
    if sa.len() == 0 {
        true
    } else {
        let first = match sa[0].string {
            None => false,
            Some(k) => match find_member(bk, k, cs) {
                None => false,
                Some(j) => if 0 <= j < bk.len() {
                    proof {
                        lemma_list_count(sa, 0);
                        lemma_list_count(bk, j);
                    }
                    same_tree(sa[0], bk[j], cs, close)
                } else {
                    false
                },
            },
        };
        first && members_found(sa.subrange(1, sa.len() as int), bk, cs, close)
    }
}


/// Whether every member of `sa` has a key under which a lookup in `other`
/// finds an equal member.
fn members_match<C: Fn(u64, u64) -> bool>(sa: &Vec<CJson>, other: &CJson, case_sensitive: bool, close: &C) -> (r: bool)
    requires
        closer_ok(*close),
    ensures
        r == members_found(views(sa@), other@.child, case_sensitive, closer_fn(*close)),
    decreases list_count(views(sa@)) + list_count(other@.child), 2int,
{
    let ghost sv = views(sa@);
    let ghost bk = other@.child;
    proof {
        lemma_view_child(*other);
        assert(sv.subrange(0, sv.len() as int) =~= sv);
    }
    let n = sa.len();
    let mut i: usize = 0;
    while i < n
        invariant
            i <= n,
            n == sa@.len(),
            sv == views(sa@),
            bk == other@.child,
            bk == views(other.child@),
            closer_ok(*close),
            members_found(sv, bk, case_sensitive, closer_fn(*close)) == members_found(
                sv.subrange(i as int, n as int),
                bk,
                case_sensitive,
                closer_fn(*close),
            ),
        decreases n - i,
    {
        let ghost s = sv.subrange(i as int, n as int);
        proof {
            assert(s[0] == sa@[i as int]@);
            assert(s.subrange(1, s.len() as int) =~= sv.subrange(i + 1, n as int));
        }
        let el = &sa[i];
        match &el.string {
            None => {
                return false;
            },
            Some(k) => {
                proof {
                    lemma_find_member_bounds(bk, k@, case_sensitive, 0);
                }
                match object_item_index(other, k.as_slice(), case_sensitive) {
                    None => {
                        return false;
                    },
                    Some(j) => {
                        proof {
                            lemma_list_count(sv, i as int);
                            lemma_list_count(bk, j as int);
                            assert(other.child@[j as int]@ == bk[j as int]);
                        }
                        if !compare_trees(el, &other.child[j], case_sensitive, close) {
                            return false;
                        }
                    },
                }
            },
        }
        i += 1;
    }
    true
}

/// Whether two byte strings are equal.
fn same_bytes(x: &[u8], y: &[u8]) -> (r: bool)
    ensures
        r == (x@ == y@),
{
    if x.len() != y.len() {
        return false;
    }
    let mut i: usize = 0;
    while i < x.len()
        invariant
            x.len() == y.len(),
            0 <= i <= x.len(),
            forall|j: int| 0 <= j < i ==> x@[j] == y@[j],
        decreases x.len() - i,
    {
        if x[i] != y[i] {
            return false;
        }
        i += 1;
    }
    assert(x@ =~= y@);
    true
}

/// Whether two optional byte strings are equal.
fn same_opt_bytes(x: &Option<Vec<u8>>, y: &Option<Vec<u8>>) -> (r: bool)
    ensures
        r == (opt_view(*x) == opt_view(*y)),
{
    match (x, y) {
        (Some(u), Some(v)) => same_bytes(u.as_slice(), v.as_slice()),
        (None, None) => true,
        _ => false,
    }
}

/// Whether two trees are the same document, node for node: the same
/// fields everywhere.
pub fn same_document(a: &CJson, b: &CJson) -> (r: bool)
    ensures
        r == (a@ == b@),
    decreases node_count(a@),
{
    proof {
        lemma_view_child(*a);
        lemma_view_child(*b);
    }
    if a.type_ != b.type_ || a.valueint != b.valueint || a.valuedouble != b.valuedouble {
        return false;
    }
    if !same_opt_bytes(&a.valuestring, &b.valuestring) || !same_opt_bytes(&a.string, &b.string) {
        return false;
    }
    if a.child.len() != b.child.len() {
        assert(a@.child.len() != b@.child.len());
        return false;
    }
    let mut i: usize = 0;
    while i < a.child.len()
        invariant
            a.child@.len() == b.child@.len(),
            0 <= i <= a.child@.len(),
            a@.child == views(a.child@),
            b@.child == views(b.child@),
            forall|j: int| 0 <= j < i ==> a@.child[j] == b@.child[j],
        decreases a.child@.len() - i,
    {
        proof {
            lemma_list_count(a@.child, i as int);
            assert(a@.child[i as int] == a.child@[i as int]@);
            assert(b@.child[i as int] == b.child@[i as int]@);
        }
        if !same_document(&a.child[i], &b.child[i]) {
            assert(a@.child[i as int] != b@.child[i as int]);
            return false;
        }
        i += 1;
    }
    assert(a@.child =~= b@.child);
    true
}

/// Whether two trees are equal: never when their types differ or are not
/// known; `true` at once for the same document given twice (two trees
/// identical node for node count as the same document, also where they
/// hold a repeated key, a NaN or a string without text, which the
/// comparison below would judge unequal); otherwise
/// numbers that `close` accepts, the same C strings, arrays equal element by
/// element, and objects in which every member of each finds an equal member
/// of the other under its key (compared with ASCII case folded unless
/// `case_sensitive`).
pub fn cjson_compare<C: Fn(u64, u64) -> bool>(a: &CJson, b: &CJson, case_sensitive: bool, close: &C) -> (r: bool)
    requires
        closer_ok(*close),
    ensures
        r == ((a@ == b@ && known_type(type_byte(a@.type_))) || same_tree(a@, b@, case_sensitive, closer_fn(*close))),
{
    let t = a.base_type();
    if t != b.base_type() {
        return false;
    }
    if !(t == CJSON_FALSE || t == CJSON_TRUE || t == CJSON_NULL || t == CJSON_NUMBER || t == CJSON_STRING
        || t == CJSON_RAW || t == CJSON_ARRAY || t == CJSON_OBJECT) {
        return false;
    }
    if same_document(a, b) {
        return true;
    }
    compare_trees(a, b, case_sensitive, close)
}

/// Compares two trees as `cjson_compare` does once they are not the same
/// document.
fn compare_trees<C: Fn(u64, u64) -> bool>(a: &CJson, b: &CJson, case_sensitive: bool, close: &C) -> (r: bool)
    requires
        closer_ok(*close),
    ensures
        r == same_tree(a@, b@, case_sensitive, closer_fn(*close)),
    decreases node_count(a@) + node_count(b@), 1int,
{
    let t = a.base_type();
    if t != b.base_type() {
        return false;
    }
    if !(t == CJSON_FALSE || t == CJSON_TRUE || t == CJSON_NULL || t == CJSON_NUMBER || t == CJSON_STRING
        || t == CJSON_RAW || t == CJSON_ARRAY || t == CJSON_OBJECT) {
        return false;
    }
    if t == CJSON_FALSE || t == CJSON_TRUE || t == CJSON_NULL {
        return true;
    }
    if t == CJSON_NUMBER {
        let r = close(a.valuedouble, b.valuedouble);
        proof {
            lemma_closer(*close, a.valuedouble, b.valuedouble, r);
        }
        return r;
    }
    if t == CJSON_STRING || t == CJSON_RAW {
        return match (&a.valuestring, &b.valuestring) {
            (Some(x), Some(y)) => str_compare(x.as_slice(), y.as_slice(), false) == 0,
            _ => false,
        };
    }
    proof {
        lemma_view_child(*a);
        lemma_view_child(*b);
        assert(node_count(a@) == 1 + list_count(a@.child));
        assert(node_count(b@) == 1 + list_count(b@.child));
    }
    if t == CJSON_ARRAY {
        let ghost sa = a@.child;
        let ghost sb = b@.child;
        let na = a.child.len();
        let nb = b.child.len();
        let mut i: usize = 0;
        proof {
            assert(sa.subrange(0, na as int) =~= sa);
            assert(sb.subrange(0, nb as int) =~= sb);
        }
        while i < na && i < nb
            invariant
                i <= na,
                i <= nb,
                na == a.child@.len(),
                nb == b.child@.len(),
                sa == views(a.child@),
                sb == views(b.child@),
                sa == a@.child,
                sb == b@.child,
                node_count(a@) == 1 + list_count(sa),
                node_count(b@) == 1 + list_count(sb),
                closer_ok(*close),
                same_tree(a@, b@, case_sensitive, closer_fn(*close)) == same_elements(sa, sb, case_sensitive, closer_fn(*close)),
                same_elements(sa, sb, case_sensitive, closer_fn(*close)) == same_elements(
                    sa.subrange(i as int, na as int),
                    sb.subrange(i as int, nb as int),
                    case_sensitive,
                    closer_fn(*close),
                ),
            decreases na - i,
        {
            let ghost x = sa.subrange(i as int, na as int);
            let ghost y = sb.subrange(i as int, nb as int);
            proof {
                assert(x[0] == a.child@[i as int]@);
                assert(y[0] == b.child@[i as int]@);
                assert(x.subrange(1, x.len() as int) =~= sa.subrange(i + 1, na as int));
                assert(y.subrange(1, y.len() as int) =~= sb.subrange(i + 1, nb as int));
                lemma_list_count(sa, i as int);
                lemma_list_count(sb, i as int);
            }
            if !compare_trees(&a.child[i], &b.child[i], case_sensitive, close) {
                return false;
            }
            i += 1;
        }
        return na == nb;
    }
    members_match(&a.child, b, case_sensitive, close) && members_match(&b.child, a, case_sensitive, close)
}


// ---------------------------------------------------------------------------
// Type predicates and accessors.
// ---------------------------------------------------------------------------

pub fn cjson_is_invalid(item: &CJson) -> (r: bool)
    ensures
        r == (type_byte(item.type_) == CJSON_INVALID),
{
    item.base_type() == CJSON_INVALID
}

pub fn cjson_is_false(item: &CJson) -> (r: bool)
    ensures
        r == (type_byte(item.type_) == CJSON_FALSE),
{
    item.base_type() == CJSON_FALSE
}

pub fn cjson_is_true(item: &CJson) -> (r: bool)
    ensures
        r == (type_byte(item.type_) == CJSON_TRUE),
{
    item.base_type() == CJSON_TRUE
}

/// Whether either the `true` or the `false` bit of the type word is set.
pub fn cjson_is_bool(item: &CJson) -> (r: bool)
    ensures
        r == (item.type_ & (CJSON_TRUE | CJSON_FALSE) != 0),
{
    item.type_ & (CJSON_TRUE | CJSON_FALSE) != 0
}

pub fn cjson_is_null(item: &CJson) -> (r: bool)
    ensures
        r == (type_byte(item.type_) == CJSON_NULL),
{
    item.base_type() == CJSON_NULL
}

pub fn cjson_is_number(item: &CJson) -> (r: bool)
    ensures
        r == (type_byte(item.type_) == CJSON_NUMBER),
{
    item.base_type() == CJSON_NUMBER
}

pub fn cjson_is_string(item: &CJson) -> (r: bool)
    ensures
        r == (type_byte(item.type_) == CJSON_STRING),
{
    item.base_type() == CJSON_STRING
}

pub fn cjson_is_array(item: &CJson) -> (r: bool)
    ensures
        r == (type_byte(item.type_) == CJSON_ARRAY),
{
    item.base_type() == CJSON_ARRAY
}

pub fn cjson_is_object(item: &CJson) -> (r: bool)
    ensures
        r == (type_byte(item.type_) == CJSON_OBJECT),
{
    item.base_type() == CJSON_OBJECT
}

pub fn cjson_is_raw(item: &CJson) -> (r: bool)
    ensures
        r == (type_byte(item.type_) == CJSON_RAW),
{
    item.base_type() == CJSON_RAW
}

/// The text of a string node; `None` for any other node.
pub fn cjson_get_string_value(item: &CJson) -> (r: Option<Vec<u8>>)
    ensures
        opt_view(r) == if type_byte(item.type_) == CJSON_STRING { opt_view(item.valuestring) } else { None },
{
    if !cjson_is_string(item) {
        return None;
    }
    copy_opt(&item.valuestring)
}

/// The bit pattern of the quiet NaN that `NAN` stands for.
pub const NAN_BITS: u64 = 0x7ff8000000000000;

/// The double (as its bit pattern) of a number node; NaN for any other node.
pub fn cjson_get_number_value(item: &CJson) -> (r: u64)
    ensures
        r == if type_byte(item.type_) == CJSON_NUMBER { item.valuedouble } else { NAN_BITS },
{
    if !cjson_is_number(item) {
        return NAN_BITS;
    }
    item.valuedouble
}

/// Sets a node's number to the double with bit pattern `number` and its
/// integer value to that double saturated at the `int` range; returns
/// `number`.
pub fn cjson_set_number_helper(object: &mut CJson, number: u64) -> (r: u64)
    ensures
        r == number,
        final(object)@ == (JsonNode { valueint: sat_int(number), valuedouble: number, ..old(object)@ }),
{
    object.valueint = double_to_int(number);
    object.valuedouble = number;
    proof {
        lemma_view_child(*object);
        lemma_view_child(*old(object));
        assert(final(object)@ =~= JsonNode { valueint: sat_int(number), valuedouble: number, ..old(object)@ });
    }
    number
}

/// Replaces the text of a string node that is not a reference and has a
/// text, returning a copy of the new text; `None`, leaving the node
/// unchanged, otherwise.
pub fn cjson_set_valuestring(object: &mut CJson, valuestring: &[u8]) -> (r: Option<Vec<u8>>)
    ensures
        ({
            let ok = has_flag(old(object).type_, CJSON_STRING) && !has_flag(old(object).type_, CJSON_IS_REFERENCE)
                && old(object)@.valuestring is Some;
            &&& ok ==> (opt_view(r) == Some(cstr(valuestring@))
                && final(object)@ == JsonNode { valuestring: Some(cstr(valuestring@)), ..old(object)@ })
            &&& !ok ==> r is None && final(object)@ == old(object)@
        }),
{
    if object.type_ & CJSON_STRING == 0 || object.type_ & CJSON_IS_REFERENCE != 0 {
        return None;
    }
    if object.valuestring.is_none() {
        return None;
    }
    let copy = c_string(valuestring);
    let back = copy_bytes(copy.as_slice());
    object.valuestring = Some(copy);
    proof {
        lemma_view_child(*object);
        lemma_view_child(*old(object));
        assert(final(object)@ =~= JsonNode { valuestring: Some(cstr(valuestring@)), ..old(object)@ });
    }
    Some(back)
}

/// The version of this library.
pub fn cjson_version() -> (r: &'static str)
    ensures
        r@ == "1.7.19"@,
{
    "1.7.19"
}

/// Releases a tree; owned nodes need nothing more than dropping.
pub fn cjson_delete(item: CJson) {
    let _ = item;
}


// ---------------------------------------------------------------------------
// Minifying JSON text.
// ---------------------------------------------------------------------------

/// Where a `//` comment whose text starts at `k` ends: just past its line
/// break, or at the end of the text.
pub open spec fn oneline_end(s: Seq<u8>, k: int) -> int
    decreases s.len() - k,
{
    if k >= s.len() {
        s.len() as int
    } else if s[k] == 10 {
        k + 1
    } else {
        oneline_end(s, k + 1)
    }
}

/// Where a `/* */` comment whose text starts at `k` ends: just past its
/// `*/`, or at the end of the text.
pub open spec fn multiline_end(s: Seq<u8>, k: int) -> int
    decreases s.len() - k,
{
    if k >= s.len() {
        s.len() as int
    } else if s[k] == 42 && crate::text::byte_at(s, k + 1) == 47 {
        k + 2
    } else {
        multiline_end(s, k + 1)
    }
}

/// Where a string literal whose contents start at `k` ends: just past the
/// first quote not preceded by a backslash, or at the end of the text.
pub open spec fn string_close(s: Seq<u8>, k: int) -> int
    decreases s.len() - k,
{
    if k >= s.len() {
        s.len() as int
    } else if s[k] == 34 {
        k + 1
    } else if s[k] == 92 && crate::text::byte_at(s, k + 1) == 34 {
        string_close(s, k + 2)
    } else {
        string_close(s, k + 1)
    }
}

pub proof fn lemma_ends(s: Seq<u8>, k: int)
    requires
        0 <= k,
    ensures
        k <= s.len() ==> k <= oneline_end(s, k) <= s.len(),
        k <= s.len() ==> k <= multiline_end(s, k) <= s.len(),
        k <= s.len() ==> k <= string_close(s, k) <= s.len(),
        k > s.len() ==> oneline_end(s, k) == s.len() && multiline_end(s, k) == s.len() && string_close(s, k)
            == s.len(),
    decreases s.len() - k,
{
    if k < s.len() {
        lemma_ends(s, k + 1);
        if k + 2 <= s.len() {
            lemma_ends(s, k + 2);
        }
    }
}

/// The text `s` from `i` on with whitespace and comments removed and
/// string literals kept as they are.
pub open spec fn minify_from(s: Seq<u8>, i: int) -> Seq<u8>
    decreases s.len() - i,
{
    if i < 0 || i >= s.len() {
        Seq::empty()
    } else {
        let c = s[i];
        if c == 32 || c == 9 || c == 13 || c == 10 {
            minify_from(s, i + 1)
        } else if c == 47 {
            let d = crate::text::byte_at(s, i + 1);
            if d == 47 {
                proof {
                    lemma_ends(s, i + 2);
                }
                minify_from(s, oneline_end(s, i + 2))
            } else if d == 42 {
                proof {
                    lemma_ends(s, i + 2);
                }
                minify_from(s, multiline_end(s, i + 2))
            } else {
                minify_from(s, i + 1)
            }
        } else if c == 34 {
            proof {
                lemma_ends(s, i + 1);
            }
            let e = string_close(s, i + 1);
            s.subrange(i, e) + minify_from(s, e)
        } else {
            seq![c] + minify_from(s, i + 1)
        }
    }
}

/// Whitespace: space, tab, carriage return, line feed.
pub open spec fn is_ws(c: u8) -> bool {
    c == 32 || c == 9 || c == 13 || c == 10
}

/// Whether `t` from `i` on holds no whitespace outside string literals,
/// reading a literal from its opening quote to its close (see
/// `string_close`).
pub open spec fn ws_free(t: Seq<u8>, i: int) -> bool
    decreases t.len() - i,
{
    if i < 0 || i >= t.len() {
        true
    } else if t[i] == 34 {
        proof {
            lemma_ends(t, i + 1);
        }
        ws_free(t, string_close(t, i + 1))
    } else {
        !is_ws(t[i]) && ws_free(t, i + 1)
    }
}

/// Where a literal closes does not depend on what stands before it.
proof fn lemma_close_shift(p: Seq<u8>, r: Seq<u8>, k: int)
    requires
        0 <= k,
    ensures
        string_close(p + r, p.len() + k) == p.len() + string_close(r, k),
    decreases r.len() - k,
{
    let t = p + r;
    if k < r.len() {
        assert(t[p.len() + k] == r[k]);
        assert(crate::text::byte_at(t, p.len() + k + 1) == crate::text::byte_at(r, k + 1));
        lemma_close_shift(p, r, k + 1);
        if k + 2 <= r.len() {
            lemma_close_shift(p, r, k + 2);
        }
    }
}

proof fn lemma_ws_free_shift(p: Seq<u8>, r: Seq<u8>, j: int)
    requires
        0 <= j,
    ensures
        ws_free(p + r, p.len() + j) == ws_free(r, j),
    decreases r.len() - j,
{
    let t = p + r;
    if j < r.len() {
        assert(t[p.len() + j] == r[j]);
        if r[j] == 34 {
            lemma_close_shift(p, r, j + 1);
            lemma_ends(r, j + 1);
            lemma_ws_free_shift(p, r, string_close(r, j + 1));
        } else {
            lemma_ws_free_shift(p, r, j + 1);
        }
    }
}

/// A literal copied from `s` (from its quote at `i` to its close `e`) to the
/// front of `o` closes in `o` where it closed in `s`.
proof fn lemma_close_copy(s: Seq<u8>, o: Seq<u8>, i: int, k: int, e: int)
    requires
        0 <= i < k <= e <= s.len(),
        string_close(s, k) == e,
        o.len() >= e - i,
        forall|m: int| i <= m < e ==> o[m - i] == #[trigger] s[m],
        e == s.len() ==> o.len() == e - i,
    ensures
        string_close(o, k - i) == e - i,
    decreases e - k,
{
    if k < s.len() {
        lemma_ends(s, k + 1);
        lemma_ends(s, k + 2);
        assert(k < e);
        assert(o[k - i] == s[k]);
        if s[k] == 34 {
        } else if s[k] == 92 && crate::text::byte_at(s, k + 1) == 34 {
            assert(o[k + 1 - i] == s[k + 1]);
            lemma_close_copy(s, o, i, k + 2, e);
        } else {
            lemma_ends(s, k + 1);
            if s[k] == 92 {
                if k + 1 < e {
                    assert(o[k + 1 - i] == s[k + 1]);
                } else {
                    assert(k + 1 == e);
                    if k + 1 < s.len() {
                        assert(s[k + 1] != 34);
                    }
                }
            }
            lemma_close_copy(s, o, i, k + 1, e);
        }
    }
}

/// Minified text holds no whitespace outside its string literals.
pub proof fn law_minify_removes_whitespace(s: Seq<u8>, i: int)
    ensures
        ws_free(minify_from(s, i), 0),
    decreases s.len() - i,
{
    let o = minify_from(s, i);
    if 0 <= i < s.len() {
        let c = s[i];
        if c == 32 || c == 9 || c == 13 || c == 10 {
            law_minify_removes_whitespace(s, i + 1);
        } else if c == 47 {
            lemma_ends(s, i + 2);
            let d = crate::text::byte_at(s, i + 1);
            if d == 47 {
                law_minify_removes_whitespace(s, oneline_end(s, i + 2));
            } else if d == 42 {
                law_minify_removes_whitespace(s, multiline_end(s, i + 2));
            } else {
                law_minify_removes_whitespace(s, i + 1);
            }
        } else if c == 34 {
            lemma_ends(s, i + 1);
            let e = string_close(s, i + 1);
            let seg = s.subrange(i, e);
            let rest = minify_from(s, e);
            law_minify_removes_whitespace(s, e);
            assert(o == seg + rest);
            if e == s.len() {
                assert(rest =~= Seq::<u8>::empty());
            }
            assert forall|m: int| i <= m < e implies o[m - i] == #[trigger] s[m] by {
                assert(o[m - i] == seg[m - i]);
            }
            lemma_close_copy(s, o, i, i + 1, e);
            assert(o[0] == 34);
            lemma_ws_free_shift(seg, rest, 0);
        } else {
            law_minify_removes_whitespace(s, i + 1);
            let rest = minify_from(s, i + 1);
            assert(o == seq![c] + rest);
            lemma_ws_free_shift(seq![c], rest, 0);
        }
    }
}

/// `s` from `i` on with its whitespace bytes left out and every other byte
/// kept in order.
pub open spec fn drop_ws(s: Seq<u8>, i: int) -> Seq<u8>
    decreases s.len() - i,
{
    if i < 0 || i >= s.len() {
        Seq::empty()
    } else if is_ws(s[i]) {
        drop_ws(s, i + 1)
    } else {
        seq![s[i]] + drop_ws(s, i + 1)
    }
}

/// Text without quotes or slashes (so without strings or comments) loses
/// exactly its whitespace when minified: every other byte stays, in order.
pub proof fn law_minify_keeps_all_but_whitespace(s: Seq<u8>, i: int)
    requires
        forall|m: int| i <= m < s.len() ==> #[trigger] s[m] != 34 && s[m] != 47,
    ensures
        minify_from(s, i) == drop_ws(s, i),
    decreases s.len() - i,
{
    if 0 <= i < s.len() {
        assert(s[i] != 34 && s[i] != 47);
        law_minify_keeps_all_but_whitespace(s, i + 1);
    }
}

/// Skips a `//` comment at `i`; returns where it ends.
pub fn skip_oneline_comment(s: &[u8], i: usize) -> (r: usize)
    requires
        i < s@.len(),
    ensures
        r == oneline_end(s@, i + 2),
{
    let n = s.len();
    let mut k = if i < n - 1 { i + 2 } else { n };
    while k < s.len()
        invariant
            k <= s@.len(),
            oneline_end(s@, i + 2) == oneline_end(s@, k as int),
        decreases s@.len() - k,
    {
        if s[k] == 10 {
            return k + 1;
        }
        k += 1;
    }
    s.len()
}

/// Skips a `/* */` comment at `i`; returns where it ends.
pub fn skip_multiline_comment(s: &[u8], i: usize) -> (r: usize)
    requires
        i < s@.len(),
    ensures
        r == multiline_end(s@, i + 2),
{
    let n = s.len();
    let mut k = if i < n - 1 { i + 2 } else { n };
    while k < s.len()
        invariant
            k <= s@.len(),
            multiline_end(s@, i + 2) == multiline_end(s@, k as int),
        decreases s@.len() - k,
    {
        let next: u8 = if k + 1 < s.len() { s[k + 1] } else { 0 };
        if s[k] == 42 && next == 47 {
            return k + 2;
        }
        k += 1;
    }
    s.len()
}

/// Copies the string literal at `i` to `out`; returns where it ends.
pub fn minify_string(s: &[u8], i: usize, out: &mut Vec<u8>) -> (r: usize)
    requires
        i < s@.len(),
    ensures
        r == string_close(s@, i + 1),
        final(out)@ == old(out)@ + s@.subrange(i as int, r as int),
{
    proof {
        lemma_ends(s@, i + 1);
    }
    out.push(s[i]);
    let mut k = i + 1;
    while k < s.len()
        invariant
            i + 1 <= k <= s@.len(),
            string_close(s@, i + 1) == string_close(s@, k as int),
            out@ == old(out)@ + s@.subrange(i as int, k as int),
        decreases s@.len() - k,
    {
        let c = s[k];
        out.push(c);
        if c == 34 {
            assert(out@ =~= old(out)@ + s@.subrange(i as int, k + 1));
            return k + 1;
        }
        let next: u8 = if k + 1 < s.len() { s[k + 1] } else { 0 };
        if c == 92 && next == 34 {
            out.push(34);
            k += 2;
        } else {
            k += 1;
        }
        assert(out@ =~= old(out)@ + s@.subrange(i as int, k as int));
    }
    s.len()
}

/// The C string `json` with whitespace and comments removed; string
/// literals are kept as they are.
pub fn cjson_minify(json: &[u8]) -> (r: Vec<u8>)
    ensures
        r@ == minify_from(cstr(json@), 0),
{
    let s = c_string(json);
    let mut out: Vec<u8> = Vec::new();
    let mut i: usize = 0;
    while i < s.len()
        invariant
            i <= s@.len(),
            s@ == cstr(json@),
            minify_from(s@, 0) == out@ + minify_from(s@, i as int),
        decreases s@.len() - i,
    {
        let c = s[i];
        let i0 = i;
        let ghost before = out@;
        proof {
            lemma_ends(s@, i0 + 1);
            lemma_ends(s@, i0 + 2);
        }
        if c == 32 || c == 9 || c == 13 || c == 10 {
            i += 1;
        } else if c == 47 {
            let d: u8 = if i + 1 < s.len() { s[i + 1] } else { 0 };
            if d == 47 {
                i = skip_oneline_comment(s.as_slice(), i);
            } else if d == 42 {
                i = skip_multiline_comment(s.as_slice(), i);
            } else {
                i += 1;
            }
        } else if c == 34 {
            i = minify_string(s.as_slice(), i, &mut out);
            assert(before + s@.subrange(i0 as int, i as int) + minify_from(s@, i as int) =~= out@ + minify_from(
                s@,
                i as int,
            ));
        } else {
            out.push(c);
            i += 1;
            assert(before + (seq![c] + minify_from(s@, i as int)) =~= out@ + minify_from(s@, i as int));
        }
    }
    assert(out@ + Seq::<u8>::empty() =~= out@);
    out
}


// ---------------------------------------------------------------------------
// A duplicate compares equal to its original.
// ---------------------------------------------------------------------------

/// Whether `cjson_compare` can judge a tree equal to a copy of itself:
/// every node has a known type, every number is one that `close` accepts
/// as equal to itself, every string and raw node has its text, and every
/// object member has a key that no other member of its object matches
/// (ASCII case folded unless `cs`).
pub open spec fn self_comparable(n: JsonNode, cs: bool, close: spec_fn(u64, u64) -> bool) -> bool
    decreases n, 1int,
{
    let t = type_byte(n.type_);
    &&& known_type(t)
    &&& t == CJSON_NUMBER ==> close(n.valuedouble, n.valuedouble)
    &&& (t == CJSON_STRING || t == CJSON_RAW) ==> n.valuestring is Some
    &&& t == CJSON_ARRAY ==> comparable_list(n.child, cs, close)
    &&& t == CJSON_OBJECT ==> comparable_list(n.child, cs, close) && distinct_keys(n.child, cs)
}

pub open spec fn comparable_list(s: Seq<JsonNode>, cs: bool, close: spec_fn(u64, u64) -> bool) -> bool
    decreases s, 0int,
{
    s.len() == 0 || (self_comparable(s[0], cs, close) && comparable_list(s.subrange(1, s.len() as int), cs, close))
}

/// Every member has a key, and no two keys match.
pub open spec fn distinct_keys(s: Seq<JsonNode>, cs: bool) -> bool {
    &&& forall|i: int| 0 <= i < s.len() ==> (#[trigger] s[i]).string is Some
    &&& forall|i: int, j: int|
        0 <= i < s.len() && 0 <= j < s.len() && i != j ==> c_str_diff(
            (#[trigger] s[i]).string.unwrap(),
            (#[trigger] s[j]).string.unwrap(),
            !cs,
        ) != 0
}

proof fn lemma_comparable_at(s: Seq<JsonNode>, cs: bool, close: spec_fn(u64, u64) -> bool, i: int)
    requires
        comparable_list(s, cs, close),
        0 <= i < s.len(),
    ensures
        self_comparable(s[i], cs, close),
    decreases i,
{
    if i > 0 {
        lemma_comparable_at(s.subrange(1, s.len() as int), cs, close, i - 1);
        assert(s.subrange(1, s.len() as int)[i - 1] == s[i]);
    }
}

pub proof fn lemma_dup_list_at(s: Seq<JsonNode>, depth: int, ks: Seq<JsonNode>)
    requires
        dup_list(s, depth) == Some(ks),
    ensures
        ks.len() == s.len(),
        forall|i: int| 0 <= i < s.len() ==> dup_tree(#[trigger] s[i], depth, true) == Some(ks[i]),
    decreases s.len(),
{
    if s.len() > 0 {
        let rest = s.subrange(1, s.len() as int);
        let r = dup_list(rest, depth).unwrap();
        lemma_dup_list_at(rest, depth, r);
        assert(ks == seq![dup_tree(s[0], depth, true).unwrap()] + r);
        assert forall|i: int| 0 <= i < s.len() implies dup_tree(#[trigger] s[i], depth, true) == Some(ks[i]) by {
            if i > 0 {
                assert(s[i] == rest[i - 1]);
                assert(ks[i] == r[i - 1]);
            }
        }
    }
}

/// Comparing with a copy of a C string is comparing with the string.
pub proof fn lemma_diff_cstr(a: Seq<u8>, b: Seq<u8>, fold: bool)
    ensures
        (c_str_diff(a, cstr(b), fold) == 0) == (c_str_diff(a, b, fold) == 0),
        (c_str_diff(cstr(b), a, fold) == 0) == (c_str_diff(b, a, fold) == 0),
        (c_str_diff(a, b, fold) == 0) == (c_str_diff(b, a, fold) == 0),
{
    crate::text::lemma_str_diff_zero(a, cstr(b), fold);
    crate::text::lemma_str_diff_zero(a, b, fold);
    crate::text::lemma_str_diff_zero(cstr(b), a, fold);
    crate::text::lemma_str_diff_zero(b, a, fold);
    crate::text::lemma_cstr_no_nul(b);
    crate::text::lemma_cstr_of_no_nul(cstr(b));
}

/// In members with distinct keys, a lookup of a key matching member `i`'s
/// key finds member `i`.
pub proof fn lemma_find_distinct(kids: Seq<JsonNode>, name: Seq<u8>, cs: bool, i: int, from: nat)
    requires
        distinct_keys(kids, cs),
        0 <= from <= i < kids.len(),
        c_str_diff(name, kids[i].string.unwrap(), !cs) == 0,
    ensures
        find_member_from(kids, name, cs, from) == Some(i),
    decreases i - from,
{
    let k = kids[from as int].string.unwrap();
    assert(kids[from as int].string is Some);
    lemma_diff_cstr(name, k, !cs);
    lemma_diff_cstr(k, name, !cs);
    if from < i {
        if c_str_diff(name, k, !cs) == 0 {
            // then member `from` and member `i` would match each other
            crate::text::lemma_str_diff_zero(name, k, !cs);
            crate::text::lemma_str_diff_zero(name, kids[i].string.unwrap(), !cs);
            crate::text::lemma_str_diff_zero(k, kids[i].string.unwrap(), !cs);
            assert(c_str_diff(k, kids[i].string.unwrap(), !cs) != 0);
        }
        lemma_find_distinct(kids, name, cs, i, from + 1);
    }
}

/// The keys of the copies are the C strings of the keys, so they stay
/// distinct.
proof fn lemma_dup_keys(kids: Seq<JsonNode>, ks: Seq<JsonNode>, depth: int, cs: bool)
    requires
        distinct_keys(kids, cs),
        ks.len() == kids.len(),
        forall|i: int| 0 <= i < kids.len() ==> dup_tree(#[trigger] kids[i], depth, true) == Some(ks[i]),
    ensures
        distinct_keys(ks, cs),
        forall|i: int| 0 <= i < kids.len() ==> (#[trigger] ks[i]).string == Some(cstr(kids[i].string.unwrap())),
{
    assert forall|i: int| 0 <= i < kids.len() implies (#[trigger] ks[i]).string == Some(cstr(kids[i].string.unwrap())) by {
        assert(dup_tree(kids[i], depth, true) == Some(ks[i]));
        assert(kids[i].string is Some);
    }
    assert forall|i: int, j: int|
        0 <= i < ks.len() && 0 <= j < ks.len() && i != j implies c_str_diff(
            (#[trigger] ks[i]).string.unwrap(),
            (#[trigger] ks[j]).string.unwrap(),
            !cs,
        ) != 0 by {
        let a = kids[i].string.unwrap();
        let b = kids[j].string.unwrap();
        assert(ks[i].string == Some(cstr(a)));
        assert(ks[j].string == Some(cstr(b)));
        lemma_diff_cstr(cstr(a), b, !cs);
        lemma_diff_cstr(b, a, !cs);
        lemma_diff_cstr(a, b, !cs);
        assert(c_str_diff(a, b, !cs) != 0);
    }
}

pub proof fn lemma_elements_same(a: Seq<JsonNode>, b: Seq<JsonNode>, depth: int, cs: bool, close: spec_fn(u64, u64) -> bool, from: int)
    requires
        0 <= from <= a.len(),
        b.len() == a.len(),
        forall|i: int| 0 <= i < a.len() ==> same_tree(#[trigger] a[i], b[i], cs, close),
    ensures
        same_elements(a.subrange(from, a.len() as int), b.subrange(from, b.len() as int), cs, close),
    decreases a.len() - from,
{
    let sa = a.subrange(from, a.len() as int);
    let sb = b.subrange(from, b.len() as int);
    if from < a.len() {
        lemma_elements_same(a, b, depth, cs, close, from + 1);
        assert(sa[0] == a[from]);
        assert(sb[0] == b[from]);
        assert(sa.subrange(1, sa.len() as int) =~= a.subrange(from + 1, a.len() as int));
        assert(sb.subrange(1, sb.len() as int) =~= b.subrange(from + 1, b.len() as int));
    }
}

pub proof fn lemma_members_found_all(sa: Seq<JsonNode>, bk: Seq<JsonNode>, cs: bool, close: spec_fn(u64, u64) -> bool, from: int)
    requires
        0 <= from <= sa.len(),
        bk.len() == sa.len(),
        forall|i: int| 0 <= i < sa.len() ==> (#[trigger] sa[i]).string is Some,
        forall|i: int| 0 <= i < sa.len() ==> find_member(bk, (#[trigger] sa[i]).string.unwrap(), cs) == Some(i),
        forall|i: int| 0 <= i < sa.len() ==> same_tree(#[trigger] sa[i], bk[i], cs, close),
    ensures
        members_found(sa.subrange(from, sa.len() as int), bk, cs, close),
    decreases sa.len() - from,
{
    let s = sa.subrange(from, sa.len() as int);
    if from < sa.len() {
        lemma_members_found_all(sa, bk, cs, close, from + 1);
        assert(s[0] == sa[from]);
        assert(s.subrange(1, s.len() as int) =~= sa.subrange(from + 1, sa.len() as int));
        assert(find_member(bk, sa[from].string.unwrap(), cs) == Some(from));
        assert(same_tree(sa[from], bk[from], cs, close));
    }
}

/// A duplicate of a tree that `cjson_compare` can judge (see
/// `self_comparable`) compares equal to it, both ways round.
pub proof fn law_duplicate_compares_equal(n: JsonNode, depth: int, cs: bool, close: spec_fn(u64, u64) -> bool)
    requires
        self_comparable(n, cs, close),
        dup_tree(n, depth, true) is Some,
    ensures
        same_tree(n, dup_tree(n, depth, true).unwrap(), cs, close),
        same_tree(dup_tree(n, depth, true).unwrap(), n, cs, close),
    decreases n,
{
    let d = dup_tree(n, depth, true).unwrap();
    let t = type_byte(n.type_);
    lemma_type_words(n.type_);
    assert(type_byte(d.type_) == t);
    if t == CJSON_STRING || t == CJSON_RAW {
        let x = n.valuestring.unwrap();
        assert(d.valuestring == Some(cstr(x)));
        crate::text::lemma_str_diff_zero(x, x, false);
        lemma_diff_cstr(x, x, false);
        lemma_diff_cstr(cstr(x), x, false);
    } else if t == CJSON_ARRAY || t == CJSON_OBJECT {
        let ks = dup_list(n.child, depth + 1).unwrap();
        assert(d.child == ks);
        lemma_dup_list_at(n.child, depth + 1, ks);
        assert forall|i: int| 0 <= i < n.child.len() implies same_tree(#[trigger] n.child[i], ks[i], cs, close)
            && same_tree(ks[i], n.child[i], cs, close) by {
            lemma_comparable_at(n.child, cs, close, i);
            law_duplicate_compares_equal(n.child[i], depth + 1, cs, close);
        }
        if t == CJSON_ARRAY {
            lemma_elements_same(n.child, ks, depth, cs, close, 0);
            lemma_elements_same(ks, n.child, depth, cs, close, 0);
            assert(n.child.subrange(0, n.child.len() as int) =~= n.child);
            assert(ks.subrange(0, ks.len() as int) =~= ks);
        } else {
            let kids = n.child;
            lemma_dup_keys(kids, ks, depth + 1, cs);
            assert forall|i: int| 0 <= i < kids.len() implies find_member(ks, (#[trigger] kids[i]).string.unwrap(), cs) == Some(i) by {
                let k = kids[i].string.unwrap();
                assert(ks[i].string == Some(cstr(k)));
                crate::text::lemma_str_diff_zero(k, k, !cs);
                lemma_diff_cstr(k, k, !cs);
                lemma_find_distinct(ks, k, cs, i, 0);
            }
            assert forall|i: int| 0 <= i < ks.len() implies find_member(kids, (#[trigger] ks[i]).string.unwrap(), cs) == Some(i) by {
                let k = kids[i].string.unwrap();
                assert(ks[i].string == Some(cstr(k)));
                crate::text::lemma_str_diff_zero(k, k, !cs);
                lemma_diff_cstr(cstr(k), k, !cs);
                lemma_diff_cstr(k, k, !cs);
                lemma_find_distinct(kids, cstr(k), cs, i, 0);
            }
            assert forall|i: int| 0 <= i < ks.len() implies (#[trigger] ks[i]).string is Some by {
                assert(ks[i].string == Some(cstr(kids[i].string.unwrap())));
            }
            assert forall|i: int| 0 <= i < ks.len() implies same_tree(#[trigger] ks[i], kids[i], cs, close) by {
                assert(same_tree(ks[i], n.child[i], cs, close));
            }
            lemma_members_found_all(kids, ks, cs, close, 0);
            lemma_members_found_all(ks, kids, cs, close, 0);
            assert(kids.subrange(0, kids.len() as int) =~= kids);
            assert(ks.subrange(0, ks.len() as int) =~= ks);
        }
    }
}


/// Two numbers compare equal exactly when the supplied comparison of
/// doubles accepts their values, whatever their signs or magnitudes.
pub proof fn law_numbers_compare_by_value(a: JsonNode, b: JsonNode, cs: bool, close: spec_fn(u64, u64) -> bool)
    requires
        type_byte(a.type_) == CJSON_NUMBER,
        type_byte(b.type_) == CJSON_NUMBER,
    ensures
        same_tree(a, b, cs, close) == close(a.valuedouble, b.valuedouble),
{
}

/// Two strings (or two raw texts) compare equal exactly when their C
/// strings are the same, byte for byte, with case kept.
pub proof fn law_strings_compare_by_text(a: JsonNode, b: JsonNode, cs: bool, close: spec_fn(u64, u64) -> bool)
    requires
        type_byte(a.type_) == type_byte(b.type_),
        type_byte(a.type_) == CJSON_STRING || type_byte(a.type_) == CJSON_RAW,
        a.valuestring is Some,
        b.valuestring is Some,
    ensures
        same_tree(a, b, cs, close) == (cstr(a.valuestring.unwrap()) == cstr(b.valuestring.unwrap())),
{
    crate::text::lemma_str_diff_zero(a.valuestring.unwrap(), b.valuestring.unwrap(), false);
}

/// Nodes of different types never compare equal, and two `null`s, two
/// `true`s or two `false`s always do.
pub proof fn law_compare_by_type(a: JsonNode, b: JsonNode, cs: bool, close: spec_fn(u64, u64) -> bool)
    ensures
        type_byte(a.type_) != type_byte(b.type_) ==> !same_tree(a, b, cs, close),
        type_byte(a.type_) == type_byte(b.type_) && (type_byte(a.type_) == CJSON_NULL || type_byte(a.type_) == CJSON_TRUE
            || type_byte(a.type_) == CJSON_FALSE) ==> same_tree(a, b, cs, close),
{
}

/// Comparison does not depend on the order of its arguments, when the
/// comparison of numbers does not.
pub proof fn law_compare_symmetric(a: JsonNode, b: JsonNode, cs: bool, close: spec_fn(u64, u64) -> bool)
    requires
        forall|x: u64, y: u64| #[trigger] close(x, y) == close(y, x),
    ensures
        same_tree(a, b, cs, close) == same_tree(b, a, cs, close),
    decreases node_count(a) + node_count(b), 1int,
{
    let t = type_byte(a.type_);
    if t == type_byte(b.type_) && known_type(t) {
        if t == CJSON_NUMBER {
            assert(close(a.valuedouble, b.valuedouble) == close(b.valuedouble, a.valuedouble));
        } else if t == CJSON_STRING || t == CJSON_RAW {
            match (a.valuestring, b.valuestring) {
                (Some(x), Some(y)) => {
                    lemma_diff_cstr(x, y, false);
                },
                _ => {},
            }
        } else if t == CJSON_ARRAY {
            lemma_elements_symmetric(a.child, b.child, cs, close);
        }
    }
}

proof fn lemma_elements_symmetric(sa: Seq<JsonNode>, sb: Seq<JsonNode>, cs: bool, close: spec_fn(u64, u64) -> bool)
    requires
        forall|x: u64, y: u64| #[trigger] close(x, y) == close(y, x),
    ensures
        same_elements(sa, sb, cs, close) == same_elements(sb, sa, cs, close),
    decreases list_count(sa) + list_count(sb), 2int,
{
    if sa.len() > 0 && sb.len() > 0 {
        assert(list_count(sa) == node_count(sa[0]) + list_count(sa.subrange(1, sa.len() as int)));
        assert(list_count(sb) == node_count(sb[0]) + list_count(sb.subrange(1, sb.len() as int)));
        assert(node_count(sa[0]) >= 1);
        assert(node_count(sb[0]) >= 1);
        law_compare_symmetric(sa[0], sb[0], cs, close);
        lemma_elements_symmetric(sa.subrange(1, sa.len() as int), sb.subrange(1, sb.len() as int), cs, close);
    }
}

// ---------------------------------------------------------------------------
// Reading what was written.
// ---------------------------------------------------------------------------

/// After appending `x` to an array, the element at the old length is `x`,
/// the elements before it are unchanged, and detaching it gives the array
/// back as it was.
pub proof fn law_append_then_read(a: JsonNode, x: JsonNode)
    ensures
        with_kids(a, a.child.push(x)).child[a.child.len() as int] == x,
        forall|i: int| 0 <= i < a.child.len() ==> #[trigger] with_kids(a, a.child.push(x)).child[i] == a.child[i],
        with_kids(with_kids(a, a.child.push(x)), a.child.push(x).remove(a.child.len() as int)) == a,
{
    assert(a.child.push(x).remove(a.child.len() as int) =~= a.child);
}

/// After replacing the element at `i`, reading at `i` gives the
/// replacement and every other element is unchanged.
pub proof fn law_replace_then_read(a: JsonNode, i: int, x: JsonNode)
    requires
        0 <= i < a.child.len(),
    ensures
        with_kids(a, a.child.update(i, x)).child[i] == x,
        forall|j: int| 0 <= j < a.child.len() && j != i ==> #[trigger] with_kids(a, a.child.update(i, x)).child[j] == a.child[j],
{
}

/// After inserting before the element at `i`, reading at `i` gives the new
/// element, the ones before are unchanged, the later ones move up by one,
/// and detaching at `i` gives the array back.
pub proof fn law_insert_then_read(a: JsonNode, i: int, x: JsonNode)
    requires
        0 <= i < a.child.len(),
    ensures
        with_kids(a, a.child.insert(i, x)).child[i] == x,
        forall|j: int| 0 <= j < i ==> #[trigger] with_kids(a, a.child.insert(i, x)).child[j] == a.child[j],
        forall|j: int| i <= j < a.child.len() ==> #[trigger] with_kids(a, a.child.insert(i, x)).child[j + 1] == a.child[j],
        with_kids(with_kids(a, a.child.insert(i, x)), a.child.insert(i, x).remove(i)) == a,
{
    assert(a.child.insert(i, x).remove(i) =~= a.child);
}

proof fn lemma_find_after_push(kids: Seq<JsonNode>, y: JsonNode, name: Seq<u8>, cs: bool, from: nat)
    requires
        from <= kids.len(),
        find_member_from(kids, name, cs, from) is None,
        cs ==> forall|i: int| 0 <= i < kids.len() ==> (#[trigger] kids[i]).string is Some,
        y.string == Some(cstr(name)),
    ensures
        find_member_from(kids.push(y), name, cs, from) == Some(kids.len() as int),
    decreases kids.len() - from,
{
    let all = kids.push(y);
    if from < kids.len() {
        assert(all[from as int] == kids[from as int]);
        lemma_find_after_push(kids, y, name, cs, from + 1);
    } else {
        assert(all[from as int] == y);
        lemma_diff_cstr(name, name, !cs);
        crate::text::lemma_str_diff_zero(name, name, !cs);
        lemma_diff_cstr(cstr(name), name, false);
        crate::text::lemma_str_diff_zero(name, name, false);
    }
}

/// After adding `x` to an object under a key that no member matches, a
/// lookup of that key finds the new member; deleting that key then gives the
/// object back. (A case-sensitive lookup stops at a member without a key, so
/// there every member must have one.)
pub proof fn law_add_then_lookup(o: JsonNode, key: Seq<u8>, x: JsonNode, constant: bool, cs: bool)
    requires
        find_member(o.child, key, cs) is None,
        cs ==> forall|i: int| 0 <= i < o.child.len() ==> (#[trigger] o.child[i]).string is Some,
    ensures
        find_member(o.child.push(keyed(x, key, constant)), key, cs) == Some(o.child.len() as int),
        with_kids(o, o.child.push(keyed(x, key, constant))).child[o.child.len() as int] == keyed(x, key, constant),
        with_kids(
            with_kids(o, o.child.push(keyed(x, key, constant))),
            o.child.push(keyed(x, key, constant)).remove(o.child.len() as int),
        ) == o,
{
    lemma_find_after_push(o.child, keyed(x, key, constant), key, cs, 0);
    assert(o.child.push(keyed(x, key, constant)).remove(o.child.len() as int) =~= o.child);
}


// ---------------------------------------------------------------------------
// Duplicating a duplicate.
// ---------------------------------------------------------------------------

pub proof fn lemma_cstr_cstr(o: Option<Seq<u8>>)
    ensures
        opt_cstr(opt_cstr(o)) == opt_cstr(o),
{
    if let Some(v) = o {
        crate::text::lemma_cstr_no_nul(v);
        crate::text::lemma_cstr_of_no_nul(cstr(v));
    }
}

/// A duplicate of a duplicate is the duplicate itself.
pub proof fn law_duplicate_twice(n: JsonNode, depth: int)
    requires
        dup_tree(n, depth, true) is Some,
    ensures
        dup_tree(dup_tree(n, depth, true).unwrap(), depth, true) == dup_tree(n, depth, true),
    decreases n, 1int,
{
    let d = dup_tree(n, depth, true).unwrap();
    lemma_cstr_cstr(n.valuestring);
    lemma_cstr_cstr(n.string);
    let t = n.type_;
    assert((t & !256i32) & !256i32 == t & !256i32) by (bit_vector);
    assert(dup_fields(d) == dup_fields(n));
    let ks = dup_list(n.child, depth + 1).unwrap();
    lemma_dup_list_twice(n.child, depth + 1);
    assert(d.child == ks);
}

proof fn lemma_dup_list_twice(s: Seq<JsonNode>, depth: int)
    requires
        dup_list(s, depth) is Some,
    ensures
        dup_list(dup_list(s, depth).unwrap(), depth) == dup_list(s, depth),
    decreases s, 0int,
{
    if s.len() > 0 {
        let ks = dup_list(s, depth).unwrap();
        let rest = s.subrange(1, s.len() as int);
        let a = dup_tree(s[0], depth, true).unwrap();
        let r = dup_list(rest, depth).unwrap();
        assert(ks == seq![a] + r);
        law_duplicate_twice(s[0], depth);
        lemma_dup_list_twice(rest, depth);
        assert(ks[0] == a);
        assert(ks.subrange(1, ks.len() as int) =~= r);
    }
}

} // verus!
