//! The document model: one node type for every JSON value.

use vstd::prelude::*;

verus! {

/// Type tags, one bit each, as stored in the low byte of `CJson::type_`.
pub const CJSON_INVALID: i32 = 0;
pub const CJSON_FALSE: i32 = 1;
pub const CJSON_TRUE: i32 = 2;
pub const CJSON_NULL: i32 = 4;
pub const CJSON_NUMBER: i32 = 8;
pub const CJSON_STRING: i32 = 16;
pub const CJSON_ARRAY: i32 = 32;
pub const CJSON_OBJECT: i32 = 64;
pub const CJSON_RAW: i32 = 128;

/// Flag: the node was made as a reference to another node's contents.
pub const CJSON_IS_REFERENCE: i32 = 256;
/// Flag: the node's key was attached as a constant string.
pub const CJSON_STRING_IS_CONST: i32 = 512;

/// How deeply arrays and objects may nest before parsing and printing refuse.
pub const CJSON_NESTING_LIMIT: usize = 1000;
/// How deeply a tree may nest before duplication refuses.
pub const CJSON_CIRCULAR_LIMIT: usize = 10000;

/// One JSON value. Arrays and objects keep their members in `child`, in
/// order; an object member carries its key in `string`.
pub struct CJson {
    /// The type tag in the low byte, plus the reference / constant-key flags.
    pub type_: i32,
    /// The text of a string or raw node.
    pub valuestring: Option<Vec<u8>>,
    /// The integer value of a number (saturated), 1 for a parsed `true`.
    pub valueint: i32,
    /// The IEEE-754 bit pattern of a number's double value.
    pub valuedouble: u64,
    /// The key of an object member.
    pub string: Option<Vec<u8>>,
    /// The members of an array or object.
    pub child: Vec<CJson>,
}

/// The mathematical value of a `CJson` node.
pub struct JsonNode {
    pub type_: i32,
    pub valuestring: Option<Seq<u8>>,
    pub valueint: i32,
    pub valuedouble: u64,
    pub string: Option<Seq<u8>>,
    pub child: Seq<JsonNode>,
}

pub open spec fn opt_view(o: Option<Vec<u8>>) -> Option<Seq<u8>> {
    match o {
        Some(v) => Some(v@),
        None => None,
    }
}

pub open spec fn node_view(c: CJson) -> JsonNode
    decreases c,
{
    JsonNode {
        type_: c.type_,
        valuestring: opt_view(c.valuestring),
        valueint: c.valueint,
        valuedouble: c.valuedouble,
        string: opt_view(c.string),
        child: Seq::new(
            c.child@.len(),
            |i: int|
                if 0 <= i < c.child@.len() {
                    node_view(c.child@[i])
                } else {
                    empty_node()
                },
        ),
    }
}

impl View for CJson {
    type V = JsonNode;

    open spec fn view(&self) -> JsonNode {
        node_view(*self)
    }
}

/// A node with every field zero, as a freshly allocated item.
pub open spec fn empty_node() -> JsonNode {
    JsonNode {
        type_: CJSON_INVALID,
        valuestring: None,
        valueint: 0,
        valuedouble: 0,
        string: None,
        child: Seq::empty(),
    }
}

/// A zeroed node of the given type.
pub open spec fn node_of_type(t: i32) -> JsonNode {
    JsonNode { type_: t, ..empty_node() }
}

/// The type tag of a full type word (its low byte).
pub open spec fn type_byte(t: i32) -> i32 {
    t & 0xFF
}

pub open spec fn has_flag(t: i32, flag: i32) -> bool {
    t & flag != 0
}

/// Facts about the type words that the library builds from the constants.
pub proof fn lemma_type_words(t: i32)
    by (bit_vector)
    ensures
        0i32 & 0xFF == 0i32,
        1i32 & 0xFF == 1i32,
        2i32 & 0xFF == 2i32,
        4i32 & 0xFF == 4i32,
        8i32 & 0xFF == 8i32,
        16i32 & 0xFF == 16i32,
        32i32 & 0xFF == 32i32,
        64i32 & 0xFF == 64i32,
        128i32 & 0xFF == 128i32,
        (t | 256) & 0xFF == t & 0xFF,
        (t & !256i32) & 0xFF == t & 0xFF,
        (t | 512) & 0xFF == t & 0xFF,
        (t & !512i32) & 0xFF == t & 0xFF,
        (t | 256) & 256 != 0,
        (t & !256i32) & 256 == 0,
        (t | 512) & 512 != 0,
        (t & !512i32) & 512 == 0,
        (t | 256) & 512 == t & 512,
        (t & !256i32) & 512 == t & 512,
        (t | 512) & 256 == t & 256,
        (t & !512i32) & 256 == t & 256,
        (16i32 | 256) & 0xFF == 16,
        (32i32 | 256) & 0xFF == 32,
        (64i32 | 256) & 0xFF == 64,
        (16i32 | 256) & 256 != 0,
        (32i32 | 256) & 256 != 0,
        (64i32 | 256) & 256 != 0,
        (16i32 | 256) & 512 == 0,
        (32i32 | 256) & 512 == 0,
        (64i32 | 256) & 512 == 0,
        0i32 & 256 == 0,
        1i32 & 256 == 0,
        2i32 & 256 == 0,
        4i32 & 256 == 0,
        8i32 & 256 == 0,
        16i32 & 256 == 0,
        32i32 & 256 == 0,
        64i32 & 256 == 0,
        128i32 & 256 == 0,
        0i32 & 512 == 0,
        1i32 & 512 == 0,
        2i32 & 512 == 0,
        4i32 & 512 == 0,
        8i32 & 512 == 0,
        16i32 & 512 == 0,
        32i32 & 512 == 0,
        64i32 & 512 == 0,
        128i32 & 512 == 0,
        t & 3 == 0 <==> (t & 0xFF) & 3 == 0,
{
}

impl CJson {
    /// The type tag without the reference / constant-key flags.
    pub fn base_type(&self) -> (r: i32)
        ensures
            r == type_byte(self.type_),
    {
        self.type_ & 0xFF
    }

    /// Whether the node was made as a reference.
    pub fn is_reference(&self) -> (r: bool)
        ensures
            r == has_flag(self.type_, CJSON_IS_REFERENCE),
    {
        self.type_ & CJSON_IS_REFERENCE != 0
    }

    /// Whether the node's key was attached as a constant.
    pub fn is_string_is_const(&self) -> (r: bool)
        ensures
            r == has_flag(self.type_, CJSON_STRING_IS_CONST),
    {
        self.type_ & CJSON_STRING_IS_CONST != 0
    }
}

/// The position of a failed parse, as reported by the error pointer.
pub struct GlobalError {
    /// Offset into the parsed text at which parsing stopped.
    pub position: usize,
}

/// A fresh node of the given type word with every other field zero.
pub fn new_item(t: i32) -> (r: CJson)
    ensures
        r@ == node_of_type(t),
{
    let r = CJson {
        type_: t,
        valuestring: None,
        valueint: 0,
        valuedouble: 0,
        string: None,
        child: Vec::new(),
    };
    assert(r@.child =~= Seq::<JsonNode>::empty());
    r
}


/// The views of a vector's nodes.
pub open spec fn views(v: Seq<CJson>) -> Seq<JsonNode> {
    Seq::new(v.len(), |i: int| v[i]@)
}

pub proof fn lemma_view_child(c: CJson)
    ensures
        c@.child == views(c.child@),
        c@.child.len() == c.child@.len(),
{
    assert(c@.child =~= views(c.child@));
}


pub proof fn lemma_views_push(v: Seq<CJson>, x: CJson)
    ensures
        views(v.push(x)) == views(v).push(x@),
{
    assert(views(v.push(x)) =~= views(v).push(x@));
}


pub proof fn lemma_views_ops(v: Seq<CJson>, i: int, x: CJson)
    ensures
        0 <= i < v.len() ==> views(v.remove(i)) == views(v).remove(i),
        0 <= i <= v.len() ==> views(v.insert(i, x)) == views(v).insert(i, x@),
        0 <= i < v.len() ==> views(v.update(i, x)) == views(v).update(i, x@),
{
    if 0 <= i < v.len() {
        assert(views(v.remove(i)) =~= views(v).remove(i));
        assert(views(v.update(i, x)) =~= views(v).update(i, x@));
    }
    if 0 <= i <= v.len() {
        assert(views(v.insert(i, x)) =~= views(v).insert(i, x@));
    }
}

} // verus!
