//! Shape-directed decoding of tree nodes: classification of raw values when
//! no shape is known, scalar decoding with exact error conditions, splitting
//! of comma-separated sequence values, and the access disciplines for
//! sequences, maps, structs, and enums.

use vstd::prelude::*;

use crate::scalar::{
    all_digits, digits_val, parse_bool_spec, parse_char_spec, parse_digits, parse_i64,
    parse_i64_spec, parse_u64, parse_u64_spec,
};
use crate::text::{clone_string, lower, split_on, split_str, str_eq, to_lower, trim, trim_str, views_of};
use crate::tree::{spec_get, Node, NodeView};

verus! {

/// The scalar shape a raw value failed to parse as.
#[derive(Clone, Copy, PartialEq, Eq, Debug)]
pub enum ScalarKind {
    Bool,
    U8,
    U16,
    U32,
    U64,
    I8,
    I16,
    I32,
    I64,
    Char,
}

/// Why decoding failed. Every error aborts the whole decode; there is no
/// partial result.
#[derive(PartialEq, Eq, Debug)]
pub enum DecodeError {
    /// A raw value could not be parsed as the requested scalar shape.
    Parse { raw: String, target: ScalarKind },
    /// An enum value matched no candidate variant name.
    UnknownVariant { value: String },
    /// A tuple-variant payload was requested; no encoding exists for it.
    UnsupportedShape,
    /// A unit variant was requested at a node that has children.
    MalformedUnitVariant,
    /// A buffered map or struct value was requested before one was ready, or
    /// left unconsumed: a defect in the calling framework, not bad input.
    InternalContractViolation,
}

impl DecodeError {
    /// A human-readable description of the error.
    pub fn message(&self) -> (r: String)
        ensures
            match self {
                DecodeError::Parse { raw, target } => r@ == "failed to parse `"@ + raw@ + "`"@,
                DecodeError::UnknownVariant { value } => r@ == "no variant `"@ + value@
                    + "` found"@,
                DecodeError::UnsupportedShape => r@ == "tuple variant is not supported"@,
                DecodeError::MalformedUnitVariant => r@ == "variant is not unit"@,
                DecodeError::InternalContractViolation => r@
                    == "map value requested out of order"@,
            },
    {
        match self {
            DecodeError::Parse { raw, target } => {
                let mut m = String::from_str("failed to parse `");
                m.append(raw.as_str());
                m.append("`");
                m
            }
            DecodeError::UnknownVariant { value } => {
                let mut m = String::from_str("no variant `");
                m.append(value.as_str());
                m.append("` found");
                m
            }
            DecodeError::UnsupportedShape => String::from_str("tuple variant is not supported"),
            DecodeError::MalformedUnitVariant => String::from_str("variant is not unit"),
            DecodeError::InternalContractViolation => String::from_str(
                "map value requested out of order",
            ),
        }
    }
}

/// What a raw value looks like when the caller supplies no shape.
#[derive(PartialEq, Eq, Debug)]
pub enum Class {
    /// Empty value: treated as absent.
    Absent,
    /// Holds a comma: a sequence, whatever else it looks like.
    Sequence,
    /// All digits, within `u64`.
    Unsigned(u64),
    /// A `-` then digits, within `i64`.
    Signed(i64),
    /// `true` or `false`, in any letter case.
    Boolean(bool),
    /// Anything else.
    Text,
}

/// Classification of a raw value with no shape supplied, checked in this
/// order: empty, comma (a sequence, even when it starts with a digit), all
/// digits (falling back to text on overflow), `-` then digits (likewise),
/// boolean in any letter case, text.
pub open spec fn classify_spec(s: Seq<char>) -> Class {
    if s.len() == 0 {
        Class::Absent
    } else if s.contains(',') {
        Class::Sequence
    } else if all_digits(s) {
        if digits_val(s) <= u64::MAX {
            Class::Unsigned(digits_val(s) as u64)
        } else {
            Class::Text
        }
    } else if s[0] == '-' && all_digits(s.drop_first()) {
        if s.len() > 1 && digits_val(s.drop_first()) <= i64::MAX + 1 {
            Class::Signed((0 - digits_val(s.drop_first())) as i64)
        } else {
            Class::Text
        }
    } else if lower(s) == seq!['t', 'r', 'u', 'e'] {
        Class::Boolean(true)
    } else if lower(s) == seq!['f', 'a', 'l', 's', 'e'] {
        Class::Boolean(false)
    } else {
        Class::Text
    }
}

fn contains_char(s: &str, c: char) -> (r: bool)
    ensures
        r == s@.contains(c),
{
    let n = s.unicode_len();
    let mut i: usize = 0;
    while i < n
        invariant
            i <= n,
            n == s@.len(),
            forall|m: int| 0 <= m < i ==> s@[m] != c,
        decreases n - i,
    {
        if s.get_char(i) == c {
            return true;
        }
        i = i + 1;
    }
    proof {
        assert(!s@.contains(c)) by {
            if s@.contains(c) {
                let m = choose|m: int| 0 <= m < s@.len() && s@[m] == c;
                assert(s@[m] != c);
            }
        }
    }
    false
}

fn all_digits_exec(s: &str, start: usize) -> (r: bool)
    requires
        start <= s@.len(),
    ensures
        r == all_digits(s@.skip(start as int)),
{
    let n = s.unicode_len();
    let ghost body = s@.skip(start as int);
    let mut i: usize = start;
    while i < n
        invariant
            start <= i <= n,
            n == s@.len(),
            body == s@.skip(start as int),
            forall|m: int| 0 <= m < i - start ==> crate::scalar::is_digit(#[trigger] body[m]),
        decreases n - i,
    {
        let c = s.get_char(i);
        proof {
            assert(body[i - start] == s@[i as int]);
        }
        if crate::scalar::digit_exec(c) >= 10 {
            return false;
        }
        i = i + 1;
    }
    true
}

/// Classifies the node's raw value, as [`classify_spec`] describes.
pub fn classify(node: &Node) -> (r: Class)
    ensures
        r == classify_spec(node@.value),
{
    let v = node.value();
    let n = v.unicode_len();
    if n == 0 {
        return Class::Absent;
    }
    if contains_char(v, ',') {
        return Class::Sequence;
    }
    proof {
        assert(v@.skip(0) =~= v@);
    }
    if all_digits_exec(v, 0) {
        match parse_digits(v, 0) {
            Some(u) => {
                return Class::Unsigned(u);
            }
            None => {
                return Class::Text;
            }
        }
    }
    if v.get_char(0) == '-' {
        proof {
            assert(v@.skip(1) =~= v@.drop_first());
        }
        if all_digits_exec(v, 1) {
            if n > 1 {
                proof {
                    crate::scalar::lemma_digits_val_nonneg(v@.drop_first());
                }
                match parse_digits(v, 1) {
                    Some(mag) => {
                        if mag <= 0x7fff_ffff_ffff_ffff {
                            return Class::Signed(-(mag as i64));
                        } else if mag == 0x8000_0000_0000_0000 {
                            return Class::Signed(i64::MIN);
                        } else {
                            return Class::Text;
                        }
                    }
                    None => {
                        return Class::Text;
                    }
                }
            } else {
                return Class::Text;
            }
        }
    }
    proof {
        reveal_strlit("true");
        reveal_strlit("false");
        assert(("true")@ =~= seq!['t', 'r', 'u', 'e']);
        assert(("false")@ =~= seq!['f', 'a', 'l', 's', 'e']);
    }
    let lowered = to_lower(v);
    if str_eq(lowered.as_str(), "true") {
        Class::Boolean(true)
    } else if str_eq(lowered.as_str(), "false") {
        Class::Boolean(false)
    } else {
        Class::Text
    }
}

/// A parse error carrying the node's raw value and the requested shape.
fn parse_error(node: &Node, k: ScalarKind) -> (r: DecodeError)
    ensures
        r matches DecodeError::Parse { raw, target } && raw@ == node@.value && target == k,
{
    DecodeError::Parse { raw: String::from_str(node.value()), target: k }
}

/// Decodes the node's raw value as a boolean: exactly `"true"` or `"false"`.
pub fn decode_bool(node: &Node) -> (r: Result<bool, DecodeError>)
    ensures
        match r {
            Ok(v) => parse_bool_spec(node@.value) == Some(v),
            Err(e) => parse_bool_spec(node@.value) is None && (e matches DecodeError::Parse {
                raw,
                target,
            } && raw@ == node@.value && target == ScalarKind::Bool),
        },
{
    proof {
        reveal_strlit("true");
        reveal_strlit("false");
        assert(("true")@ =~= seq!['t', 'r', 'u', 'e']);
        assert(("false")@ =~= seq!['f', 'a', 'l', 's', 'e']);
    }
    let v = node.value();
    if str_eq(v, "true") {
        Ok(true)
    } else if str_eq(v, "false") {
        Ok(false)
    } else {
        Err(parse_error(node, ScalarKind::Bool))
    }
}

/// Decodes the node's raw value as a character: exactly one character.
pub fn decode_char(node: &Node) -> (r: Result<char, DecodeError>)
    ensures
        match r {
            Ok(v) => parse_char_spec(node@.value) == Some(v),
            Err(e) => parse_char_spec(node@.value) is None && (e matches DecodeError::Parse {
                raw,
                target,
            } && raw@ == node@.value && target == ScalarKind::Char),
        },
{
    let v = node.value();
    if v.unicode_len() == 1 {
        Ok(v.get_char(0))
    } else {
        Err(parse_error(node, ScalarKind::Char))
    }
}

/// Decodes the node's raw value under the unsigned 64-bit decimal grammar.
pub fn decode_u64(node: &Node) -> (r: Result<u64, DecodeError>)
    ensures
        match r {
            Ok(v) => parse_u64_spec(node@.value) == Some(v),
            Err(e) => parse_u64_spec(node@.value) is None && (e matches DecodeError::Parse {
                raw,
                target,
            } && raw@ == node@.value && target == ScalarKind::U64),
        },
{
    match parse_u64(node.value()) {
        Some(v) => Ok(v),
        None => Err(parse_error(node, ScalarKind::U64)),
    }
}

/// Decodes the node's raw value as `u32`: the unsigned grammar, within range.
pub fn decode_u32(node: &Node) -> (r: Result<u32, DecodeError>)
    ensures
        match r {
            Ok(v) => crate::scalar::parse_u32_spec(node@.value) == Some(v),
            Err(e) => crate::scalar::parse_u32_spec(node@.value) is None && (e
                matches DecodeError::Parse {
                raw,
                target,
            } && raw@ == node@.value && target == ScalarKind::U32),
        },
{
    match parse_u64(node.value()) {
        Some(v) => if v <= 0xffff_ffff {
            Ok(v as u32)
        } else {
            Err(parse_error(node, ScalarKind::U32))
        },
        None => Err(parse_error(node, ScalarKind::U32)),
    }
}

/// Decodes the node's raw value as `u16`: the unsigned grammar, within range.
pub fn decode_u16(node: &Node) -> (r: Result<u16, DecodeError>)
    ensures
        match r {
            Ok(v) => crate::scalar::parse_u16_spec(node@.value) == Some(v),
            Err(e) => crate::scalar::parse_u16_spec(node@.value) is None && (e
                matches DecodeError::Parse {
                raw,
                target,
            } && raw@ == node@.value && target == ScalarKind::U16),
        },
{
    match parse_u64(node.value()) {
        Some(v) => if v <= 0xffff {
            Ok(v as u16)
        } else {
            Err(parse_error(node, ScalarKind::U16))
        },
        None => Err(parse_error(node, ScalarKind::U16)),
    }
}

/// Decodes the node's raw value as `u8`: the unsigned grammar, within range.
pub fn decode_u8(node: &Node) -> (r: Result<u8, DecodeError>)
    ensures
        match r {
            Ok(v) => crate::scalar::parse_u8_spec(node@.value) == Some(v),
            Err(e) => crate::scalar::parse_u8_spec(node@.value) is None && (e
                matches DecodeError::Parse {
                raw,
                target,
            } && raw@ == node@.value && target == ScalarKind::U8),
        },
{
    match parse_u64(node.value()) {
        Some(v) => if v <= 0xff {
            Ok(v as u8)
        } else {
            Err(parse_error(node, ScalarKind::U8))
        },
        None => Err(parse_error(node, ScalarKind::U8)),
    }
}

/// Decodes the node's raw value under the signed 64-bit decimal grammar.
pub fn decode_i64(node: &Node) -> (r: Result<i64, DecodeError>)
    ensures
        match r {
            Ok(v) => parse_i64_spec(node@.value) == Some(v),
            Err(e) => parse_i64_spec(node@.value) is None && (e matches DecodeError::Parse {
                raw,
                target,
            } && raw@ == node@.value && target == ScalarKind::I64),
        },
{
    match parse_i64(node.value()) {
        Some(v) => Ok(v),
        None => Err(parse_error(node, ScalarKind::I64)),
    }
}

/// Decodes the node's raw value as `i32`: the signed grammar, within range.
pub fn decode_i32(node: &Node) -> (r: Result<i32, DecodeError>)
    ensures
        match r {
            Ok(v) => crate::scalar::parse_i32_spec(node@.value) == Some(v),
            Err(e) => crate::scalar::parse_i32_spec(node@.value) is None && (e
                matches DecodeError::Parse {
                raw,
                target,
            } && raw@ == node@.value && target == ScalarKind::I32),
        },
{
    match parse_i64(node.value()) {
        Some(v) => if -0x8000_0000 <= v && v <= 0x7fff_ffff {
            Ok(v as i32)
        } else {
            Err(parse_error(node, ScalarKind::I32))
        },
        None => Err(parse_error(node, ScalarKind::I32)),
    }
}

/// Decodes the node's raw value as `i16`: the signed grammar, within range.
pub fn decode_i16(node: &Node) -> (r: Result<i16, DecodeError>)
    ensures
        match r {
            Ok(v) => crate::scalar::parse_i16_spec(node@.value) == Some(v),
            Err(e) => crate::scalar::parse_i16_spec(node@.value) is None && (e
                matches DecodeError::Parse {
                raw,
                target,
            } && raw@ == node@.value && target == ScalarKind::I16),
        },
{
    match parse_i64(node.value()) {
        Some(v) => if -0x8000 <= v && v <= 0x7fff {
            Ok(v as i16)
        } else {
            Err(parse_error(node, ScalarKind::I16))
        },
        None => Err(parse_error(node, ScalarKind::I16)),
    }
}

/// Decodes the node's raw value as `i8`: the signed grammar, within range.
pub fn decode_i8(node: &Node) -> (r: Result<i8, DecodeError>)
    ensures
        match r {
            Ok(v) => crate::scalar::parse_i8_spec(node@.value) == Some(v),
            Err(e) => crate::scalar::parse_i8_spec(node@.value) is None && (e
                matches DecodeError::Parse {
                raw,
                target,
            } && raw@ == node@.value && target == ScalarKind::I8),
        },
{
    match parse_i64(node.value()) {
        Some(v) => if -0x80 <= v && v <= 0x7f {
            Ok(v as i8)
        } else {
            Err(parse_error(node, ScalarKind::I8))
        },
        None => Err(parse_error(node, ScalarKind::I8)),
    }
}

/// Consumes the node, handing out its raw value as a string.
pub fn decode_string(node: Node) -> (r: String)
    ensures
        r@ == node@.value,
{
    node.into_value()
}

/// The raw bytes of the node's value, UTF-8 encoded.
pub fn decode_bytes(node: &Node) -> (r: Vec<u8>)
    ensures
        r@ == vstd::utf8::encode_utf8(node@.value),
{
    node.value().as_bytes_vec()
}

/// The comma-separated elements of a raw value, each trimmed of surrounding
/// whitespace, with empty elements dropped: the empty value has no elements.
pub open spec fn sequence_elements_spec(s: Seq<char>) -> Seq<Seq<char>> {
    split_on(s, ',').map_values(|e: Seq<char>| trim(e)).filter(|e: Seq<char>| e.len() > 0)
}

/// The comma-separated elements of a raw value, each trimmed of surrounding
/// whitespace, empty elements kept: in a fixed-size tuple, positions matter.
pub open spec fn tuple_elements_spec(s: Seq<char>) -> Seq<Seq<char>> {
    split_on(s, ',').map_values(|e: Seq<char>| trim(e))
}

/// Filtering a sequence extended by one element keeps the element exactly
/// when it satisfies the predicate.
proof fn lemma_filter_push(v: Seq<Seq<char>>, x: Seq<char>, pred: spec_fn(Seq<char>) -> bool)
    ensures
        pred(x) ==> v.push(x).filter(pred) == v.filter(pred).push(x),
        !pred(x) ==> v.push(x).filter(pred) == v.filter(pred),
{
    reveal(Seq::filter);
    assert(v.push(x).drop_last() =~= v);
    assert(v.push(x).last() == x);
}

/// The elements of the node's raw value for a plain sequence: split on `,`,
/// trimmed, empty elements dropped.
pub fn sequence_elements(node: &Node) -> (r: Vec<String>)
    ensures
        views_of(r@) == sequence_elements_spec(node@.value),
{
    let pieces = split_str(node.value(), ',');
    let ghost pv = views_of(pieces@);
    let mut out: Vec<String> = Vec::new();
    let mut k: usize = 0;
    proof {
        reveal(Seq::filter);
        assert(pv.take(0) =~= Seq::<Seq<char>>::empty());
        assert(pv.take(0).map_values(|e: Seq<char>| trim(e)) =~= Seq::<Seq<char>>::empty());
        assert(views_of(out@) =~= Seq::<Seq<char>>::empty());
    }
    while k < pieces.len()
        invariant
            k <= pieces@.len(),
            pv == views_of(pieces@),
            pv == split_on(node@.value, ','),
            views_of(out@) == pv.take(k as int).map_values(|e: Seq<char>| trim(e)).filter(
                |e: Seq<char>| e.len() > 0,
            ),
        decreases pieces@.len() - k,
    {
        let t = trim_str(pieces[k].as_str());
        let ghost old_out = out@;
        if !t.as_str().is_empty() {
            out.push(t);
        }
        k = k + 1;
        proof {
            let f = |e: Seq<char>| trim(e);
            let pred = |e: Seq<char>| e.len() > 0;
            assert(pv.take(k as int) =~= pv.take(k - 1).push(pv[k - 1]));
            assert(pv.take(k as int).map_values(f) =~= pv.take(k - 1).map_values(f).push(
                trim(pv[k - 1]),
            ));
            lemma_filter_push(pv.take(k - 1).map_values(f), trim(pv[k - 1]), pred);
            if trim(pv[k - 1]).len() > 0 {
                assert(views_of(out@) =~= views_of(old_out).push(trim(pv[k - 1])));
            }
        }
    }
    proof {
        assert(pv.take(pieces@.len() as int) =~= pv);
    }
    out
}

/// The elements of the node's raw value for a fixed-size tuple: split on `,`
/// and trimmed, with empty elements kept.
pub fn tuple_elements(node: &Node) -> (r: Vec<String>)
    ensures
        views_of(r@) == tuple_elements_spec(node@.value),
{
    let pieces = split_str(node.value(), ',');
    let ghost pv = views_of(pieces@);
    let mut out: Vec<String> = Vec::new();
    let mut k: usize = 0;
    proof {
        assert(pv.take(0) =~= Seq::<Seq<char>>::empty());
        assert(views_of(out@) =~= pv.take(0).map_values(|e: Seq<char>| trim(e)));
    }
    while k < pieces.len()
        invariant
            k <= pieces@.len(),
            pv == views_of(pieces@),
            pv == split_on(node@.value, ','),
            views_of(out@) == pv.take(k as int).map_values(|e: Seq<char>| trim(e)),
        decreases pieces@.len() - k,
    {
        let t = trim_str(pieces[k].as_str());
        let ghost old_out = out@;
        out.push(t);
        k = k + 1;
        proof {
            let f = |e: Seq<char>| trim(e);
            assert(pv.take(k as int) =~= pv.take(k - 1).push(pv[k - 1]));
            assert(views_of(out@) =~= views_of(old_out).push(trim(pv[k - 1])));
            assert(pv.take(k as int).map_values(f) =~= pv.take(k - 1).map_values(f).push(
                trim(pv[k - 1]),
            ));
        }
    }
    proof {
        assert(pv.take(pieces@.len() as int) =~= pv);
    }
    out
}

/// Hands out the elements of a decoded sequence one by one, each as a fresh
/// node holding only that element as its value.
#[derive(Debug)]
pub struct SeqAccessor {
    elements: Vec<String>,
    pos: usize,
}

impl SeqAccessor {
    /// The elements not yet handed out.
    pub closed spec fn remaining(self) -> Seq<Seq<char>> {
        if self.pos <= self.elements@.len() {
            views_of(self.elements@).skip(self.pos as int)
        } else {
            Seq::empty()
        }
    }

    /// An accessor over the given elements, in order.
    pub fn new(keys: Vec<String>) -> (r: SeqAccessor)
        ensures
            r.remaining() == views_of(keys@),
    {
        let r = SeqAccessor { elements: keys, pos: 0 };
        proof {
            assert(r.remaining() =~= views_of(r.elements@));
        }
        r
    }

    /// The next element as a value-only node, or `None` when all elements
    /// have been handed out.
    pub fn next_element(&mut self) -> (r: Option<Node>)
        ensures
            match r {
                Some(n) => old(self).remaining().len() > 0 && n@ == (NodeView {
                    value: old(self).remaining()[0],
                    children: Seq::empty(),
                }) && final(self).remaining() == old(self).remaining().drop_first(),
                None => old(self).remaining().len() == 0 && final(self).remaining() == old(self).remaining(),
            },
    {
        if self.pos < self.elements.len() {
            let v = clone_string(&self.elements[self.pos]);
            let node = Node::new(v);
            let ghost pre = *self;
            self.pos = self.pos + 1;
            proof {
                assert(pre.remaining()[0] == views_of(pre.elements@)[pre.pos as int]);
                assert(self.remaining() =~= pre.remaining().drop_first());
            }
            Some(node)
        } else {
            None
        }
    }
}

/// What finding the next resolvable key at offset `j` of the pending keys
/// means: the earlier pending keys resolve to nothing, the key at `j`
/// resolves, the node it names is buffered, and the keys after `j` stay
/// pending.
pub open spec fn next_key_found(pre: MapAccessor, post: MapAccessor, k: Seq<char>, j: int) -> bool {
    &&& 0 <= j < pre.remaining_keys().len()
    &&& k == pre.remaining_keys()[j]
    &&& (forall|m: int|
        0 <= m < j ==> spec_get(pre.tree(), #[trigger] pre.remaining_keys()[m]) is None)
    &&& spec_get(pre.tree(), k) is Some
    &&& post.buffered() == Some(spec_get(pre.tree(), k).unwrap())
    &&& post.remaining_keys() == pre.remaining_keys().skip(j + 1)
    &&& post.tree() == pre.tree()
}

/// A key was found: [`next_key_found`] holds at some offset of the pending
/// keys.
pub open spec fn next_key_ok(pre: MapAccessor, post: MapAccessor, k: Seq<char>) -> bool {
    exists|j: int| next_key_found(pre, post, k, j)
}

/// Walks a list of candidate keys over one node, handing out each key that
/// resolves and then, exactly once before the next key, the node it named.
#[derive(Debug)]
pub struct MapAccessor {
    keys: Vec<String>,
    pos: usize,
    last_value: Option<Node>,
    node: Node,
}

impl MapAccessor {
    /// The candidate keys not yet tried.
    pub closed spec fn remaining_keys(self) -> Seq<Seq<char>> {
        if self.pos <= self.keys@.len() {
            views_of(self.keys@).skip(self.pos as int)
        } else {
            Seq::empty()
        }
    }

    /// The resolved node waiting to be consumed, if any.
    pub closed spec fn buffered(self) -> Option<NodeView> {
        match self.last_value {
            Some(n) => Some(n@),
            None => None,
        }
    }

    /// The node the keys are resolved against.
    pub closed spec fn tree(self) -> NodeView {
        self.node@
    }

    /// An accessor that tries `keys` in order against `node`.
    pub fn new(keys: Vec<String>, node: Node) -> (r: MapAccessor)
        ensures
            r.remaining_keys() == views_of(keys@),
            r.buffered() is None,
            r.tree() == node@,
    {
        let r = MapAccessor { keys, pos: 0, last_value: None, node };
        proof {
            assert(r.remaining_keys() =~= views_of(r.keys@));
        }
        r
    }

    /// The next pending key that resolves in the tree, buffering the node it
    /// names; `None` when no pending key resolves. Requesting a key while a
    /// buffered value awaits consumption is a contract violation.
    pub fn next_key(&mut self) -> (r: Result<Option<String>, DecodeError>)
        ensures
            match r {
                Err(e) => e == DecodeError::InternalContractViolation && old(self).buffered() is Some && *final(self) == *old(self),
                Ok(None) => {
                    &&& old(self).buffered() is None
                    &&& forall|m: int|
                        0 <= m < old(self).remaining_keys().len() ==> spec_get(
                            old(self).tree(),
                            #[trigger] old(self).remaining_keys()[m],
                        ) is None
                    &&& final(self).remaining_keys().len() == 0
                    &&& final(self).buffered() is None
                    &&& final(self).tree() == old(self).tree()
                },
                Ok(Some(k)) => old(self).buffered() is None && next_key_ok(
                    *old(self),
                    *final(self),
                    k@,
                ),
            },
    {
        if self.last_value.is_some() {
            return Err(DecodeError::InternalContractViolation);
        }
        while self.pos < self.keys.len()
            invariant
                old(self).pos <= self.pos,
                self.keys == old(self).keys,
                self.node == old(self).node,
                self.last_value is None,
                old(self).last_value is None,
                forall|m: int|
                    old(self).pos <= m < self.pos ==> spec_get(
                        self.node@,
                        #[trigger] views_of(self.keys@)[m],
                    ) is None,
            decreases self.keys@.len() - self.pos,
        {
            let found = match self.node.get(self.keys[self.pos].as_str()) {
                Some(v) => Some(v.duplicate()),
                None => None,
            };
            match found {
                Some(dup) => {
                    let key_out = clone_string(&self.keys[self.pos]);
                    let ghost pre = *old(self);
                    let ghost j = self.pos - pre.pos;
                    self.last_value = Some(dup);
                    self.pos = self.pos + 1;
                    proof {
                        assert(pre.remaining_keys()[j] == views_of(pre.keys@)[pre.pos + j]);
                        assert forall|m: int| 0 <= m < j implies spec_get(
                            pre.tree(),
                            #[trigger] pre.remaining_keys()[m],
                        ) is None by {
                            assert(pre.remaining_keys()[m] == views_of(pre.keys@)[pre.pos + m]);
                        }
                        assert(self.remaining_keys() =~= pre.remaining_keys().skip(j + 1));
                        assert(next_key_found(pre, *self, key_out@, j));
                        assert(next_key_ok(pre, *self, key_out@));
                    }
                    return Ok(Some(key_out));
                }
                None => {
                    self.pos = self.pos + 1;
                }
            }
        }
        proof {
            let pre = *old(self);
            if self.pos <= self.keys@.len() {
                assert(self.remaining_keys() =~= Seq::<Seq<char>>::empty());
            }
            if pre.pos <= pre.keys@.len() {
                assert forall|m: int| 0 <= m < pre.remaining_keys().len() implies spec_get(
                    pre.tree(),
                    #[trigger] pre.remaining_keys()[m],
                ) is None by {
                    assert(pre.remaining_keys()[m] == views_of(pre.keys@)[pre.pos + m]);
                }
            }
        }
        Ok(None)
    }

    /// The buffered node, consumed. Requesting a value when none is buffered
    /// is a contract violation.
    pub fn next_value(&mut self) -> (r: Result<Node, DecodeError>)
        ensures
            match r {
                Ok(n) => old(self).buffered() == Some(n@) && final(self).buffered() is None
                    && final(self).remaining_keys() == old(self).remaining_keys() && final(self).tree() == old(self).tree(),
                Err(e) => e == DecodeError::InternalContractViolation && old(self).buffered() is None && *final(self) == *old(self),
            },
    {
        match self.last_value.take() {
            Some(n) => Ok(n),
            None => Err(DecodeError::InternalContractViolation),
        }
    }
}

/// Matches a node's raw value against an enum's candidate variant names and
/// hands the node on for the matched variant's payload.
#[derive(Debug)]
pub struct EnumAccessor {
    keys: Vec<String>,
    node: Node,
}

impl EnumAccessor {
    /// The candidate variant names.
    pub closed spec fn candidates(self) -> Seq<Seq<char>> {
        views_of(self.keys@)
    }

    /// The node being decoded as an enum.
    pub closed spec fn tree(self) -> NodeView {
        self.node@
    }

    /// An accessor that matches `node`'s value against `keys`.
    pub fn new(keys: Vec<String>, node: Node) -> (r: EnumAccessor)
        ensures
            r.candidates() == views_of(keys@),
            r.tree() == node@,
    {
        EnumAccessor { keys, node }
    }

    /// The index of a candidate equal to the node's raw value, if any.
    fn find_match(&self) -> (r: Option<usize>)
        ensures
            match r {
                Some(j) => j < self.candidates().len() && self.candidates()[j as int]
                    == self.tree().value && self.candidates().contains(self.tree().value),
                None => !self.candidates().contains(self.tree().value),
            },
    {
        let mut j: usize = 0;
        while j < self.keys.len()
            invariant
                j <= self.keys@.len(),
                forall|m: int| 0 <= m < j ==> views_of(self.keys@)[m] != self.node@.value,
            decreases self.keys@.len() - j,
        {
            if str_eq(self.keys[j].as_str(), self.node.value()) {
                proof {
                    assert(self.candidates()[j as int] == self.tree().value);
                }
                return Some(j);
            }
            j = j + 1;
        }
        proof {
            assert(!self.candidates().contains(self.tree().value)) by {
                if self.candidates().contains(self.tree().value) {
                    let m = choose|m: int|
                        0 <= m < self.candidates().len() && self.candidates()[m]
                            == self.tree().value;
                    assert(views_of(self.keys@)[m] != self.node@.value);
                }
            }
        }
        None
    }

    /// The variant whose name equals the node's raw value, by exact,
    /// case-sensitive comparison, together with an accessor for its payload;
    /// an unknown-variant error when no candidate matches.
    pub fn variant(self) -> (r: Result<(String, VariantAccessor), DecodeError>)
        ensures
            match r {
                Ok(p) => self.candidates().contains(self.tree().value) && p.0@
                    == self.tree().value && p.1.tree() == self.tree(),
                Err(e) => !self.candidates().contains(self.tree().value) && (e
                    matches DecodeError::UnknownVariant { value } && value@ == self.tree().value),
            },
    {
        match self.find_match() {
            Some(j) => {
                let name = clone_string(&self.keys[j]);
                Ok((name, VariantAccessor::new(self.node)))
            }
            None => {
                let raw = String::from_str(self.node.value());
                Err(DecodeError::UnknownVariant { value: raw })
            }
        }
    }
}

/// Decodes the payload of a matched, externally-tagged enum variant: the
/// variant name was the node's own value, and any payload fields live in the
/// node's children.
#[derive(Debug)]
pub struct VariantAccessor {
    node: Node,
}

impl VariantAccessor {
    /// The node carrying the variant's payload.
    pub closed spec fn tree(self) -> NodeView {
        self.node@
    }

    /// An accessor for the payload carried by `node`.
    pub fn new(node: Node) -> (r: VariantAccessor)
        ensures
            r.tree() == node@,
    {
        VariantAccessor { node }
    }

    /// A unit payload: succeeds exactly when the node has no children.
    pub fn unit_variant(self) -> (r: Result<(), DecodeError>)
        ensures
            match r {
                Ok(u) => self.tree().is_leaf(),
                Err(e) => !self.tree().is_leaf() && e == DecodeError::MalformedUnitVariant,
            },
    {
        if self.node.has_children() {
            Err(DecodeError::MalformedUnitVariant)
        } else {
            Ok(())
        }
    }

    /// A newtype payload: the same node, to be decoded with the inner shape.
    pub fn newtype_variant_node(self) -> (r: Node)
        ensures
            r@ == self.tree(),
    {
        self.node
    }

    /// A positional-tuple payload: never supported.
    pub fn tuple_variant(self) -> (r: Result<Node, DecodeError>)
        ensures
            r matches Err(e) && e == DecodeError::UnsupportedShape,
    {
        Err(DecodeError::UnsupportedShape)
    }

    /// A named-field payload: the same node, read as a struct with the given
    /// field names.
    pub fn struct_variant(self, fields: Vec<String>) -> (r: MapAccessor)
        ensures
            r.remaining_keys() == views_of(fields@),
            r.buffered() is None,
            r.tree() == self.tree(),
    {
        MapAccessor::new(fields, self.node)
    }
}

} // verus!
