//! JSON documents behind handles. A handle of a parsed document is for reading; one
//! of a value under construction can be filled.
use crate::slot::{Key, SlotMap};
use vstd::prelude::*;

verus! {

/// A number as a document holds it.
#[derive(Clone, Copy, PartialEq, Eq, Structural, Debug)]
pub enum Num {
    /// A whole number that fits 64 bits with a sign.
    Int(i64),
    /// A larger one that fits without.
    Uint(u64),
    /// Any other, by its bits.
    Float(u64),
}

/// A document.
pub enum Doc {
    Null,
    Bool(bool),
    Number(Num),
    Text(Seq<char>),
    List(Seq<Doc>),
    Object(Seq<(Seq<char>, Doc)>),
}

/// A JSON value of the `serde_json` crate.
#[verifier::external_type_specification]
#[verifier::external_body]
pub struct ExValue(serde_json::Value);

/// The document a value holds. The entries of an object stand in the order they
/// were first put in.
pub uninterp spec fn doc(v: serde_json::Value) -> Doc;

/// The document a text parses as, where it parses.
pub uninterp spec fn parsed(text: Seq<char>) -> Option<Doc>;

/// What is wrong with a text that does not parse, in the parser's words.
pub uninterp spec fn parse_message(text: Seq<char>) -> Seq<char>;

/// The indented text of a document.
pub uninterp spec fn pretty(d: Doc) -> Seq<char>;

/// A number as a float: its bits, and what is left when the fraction is cut off.
pub uninterp spec fn as_float(n: Num) -> (u64, i64);

/// How many arrays and objects inside each other the parser follows.
pub const DEPTH: u8 = 127;

/// Whether a document is read back from its text to the last digit: it holds no
/// float, names no member twice, and nests no deeper than `depth`.
pub open spec fn exact(d: Doc, depth: u8) -> bool
    decreases depth,
{
    match d {
        Doc::Number(n) => n !is Float,
        Doc::List(l) => depth > 0 && forall|i: int|
            0 <= i < l.len() ==> exact(#[trigger] l[i], (depth - 1) as u8),
        Doc::Object(o) => depth > 0 && (forall|i: int|
            0 <= i < o.len() ==> exact((#[trigger] o[i]).1, (depth - 1) as u8)) && forall|i: int, j: int|
            0 <= i < j < o.len() ==> (#[trigger] o[i]).0 != (#[trigger] o[j]).0,
        _ => true,
    }
}

/// What a value is, with what a scalar holds.
pub enum Shape {
    Null,
    Bool(bool),
    Number,
    Text(String),
    List,
    Object,
}

/// `serde_json::from_str` into a value. What a text parses as depends on the text
/// alone, and so does the message of the error where it does not.
#[verifier::external_body]
fn parse_text(text: &str) -> (r: Result<serde_json::Value, String>)
    ensures
        match r {
            Ok(v) => parsed(text@) == Some(doc(v)),
            Err(e) => parsed(text@) is None && e@ == parse_message(text@),
        },
{
    serde_json::from_str::<serde_json::Value>(text).map_err(|e| e.to_string())
}

/// `serde_json::to_string_pretty`. The text depends on the document alone, and
/// `serde_json::from_str` reads it as the same document where that holds no float
/// and is within the depth the parser follows. Of floats it is not said: the parser
/// may be off in the last digit.
#[verifier::external_body]
fn pretty_text(v: &serde_json::Value) -> (r: String)
    ensures
        r@ == pretty(doc(*v)),
        exact(doc(*v), DEPTH) ==> parsed(r@) == Some(doc(*v)),
{
    serde_json::to_string_pretty(v).unwrap_or_default()
}

/// The variants of `serde_json::Value` told apart, a string with its characters.
#[verifier::external_body]
fn shape(v: &serde_json::Value) -> (r: Shape)
    ensures
        match doc(*v) {
            Doc::Null => r is Null,
            Doc::Bool(b) => r == Shape::Bool(b),
            Doc::Number(_) => r is Number,
            Doc::Text(s) => r is Text && r->Text_0@ == s,
            Doc::List(_) => r is List,
            Doc::Object(_) => r is Object,
        },
{
    match v {
        serde_json::Value::Null => Shape::Null,
        serde_json::Value::Bool(b) => Shape::Bool(*b),
        serde_json::Value::Number(_) => Shape::Number,
        serde_json::Value::String(s) => Shape::Text(s.clone()),
        serde_json::Value::Array(_) => Shape::List,
        serde_json::Value::Object(_) => Shape::Object,
    }
}

/// The length of the array or the map inside a `serde_json::Value`; 0 for anything
/// else.
#[verifier::external_body]
fn entries(v: &serde_json::Value) -> (r: usize)
    ensures
        r == (match doc(*v) {
            Doc::List(l) => l.len(),
            Doc::Object(o) => o.len(),
            _ => 0,
        }),
{
    match v {
        serde_json::Value::Array(a) => a.len(),
        serde_json::Value::Object(o) => o.len(),
        _ => 0,
    }
}

/// `serde_json::Value::get` with a key, copied: the member of an object.
#[verifier::external_body]
fn member_of(v: &serde_json::Value, key: &str) -> (r: Option<serde_json::Value>)
    ensures
        match r {
            Some(c) => doc(*v) is Object && member(doc(*v)->Object_0, key@) == Some(doc(c)),
            None => doc(*v) is Object ==> member(doc(*v)->Object_0, key@) is None,
        },
{
    v.get(key).cloned()
}

/// `serde_json::Value::get` with an index, copied: the element of an array.
#[verifier::external_body]
fn element_of(v: &serde_json::Value, i: usize) -> (r: Option<serde_json::Value>)
    ensures
        match r {
            Some(c) => doc(*v) is List && i < doc(*v)->List_0.len() && doc(*v)->List_0[i as int]
                == doc(c),
            None => doc(*v) is List ==> i >= doc(*v)->List_0.len(),
        },
{
    v.get(i).cloned()
}

/// Key `i` of the map inside a `serde_json::Value`, in the map's order.
#[verifier::external_body]
fn key_of(v: &serde_json::Value, i: usize) -> (r: Option<String>)
    ensures
        match r {
            Some(k) => doc(*v) is Object && i < doc(*v)->Object_0.len() && doc(
                *v,
            )->Object_0[i as int].0 == k@,
            None => doc(*v) is Object ==> i >= doc(*v)->Object_0.len(),
        },
{
    v.as_object().and_then(|o| o.keys().nth(i).cloned())
}

/// `serde_json::Value::as_i64`: a whole number that fits.
#[verifier::external_body]
fn whole(v: &serde_json::Value) -> (r: Option<i64>)
    ensures
        r == (match doc(*v) {
            Doc::Number(Num::Int(n)) => Some(n),
            _ => None,
        }),
{
    v.as_i64()
}

/// `serde_json::Value::as_f64`: any number, as its bits and cut to a whole one. One
/// that is held as a float comes back bit for bit.
#[verifier::external_body]
fn float(v: &serde_json::Value) -> (r: Option<(u64, i64)>)
    ensures
        r == (match doc(*v) {
            Doc::Number(n) => Some(as_float(n)),
            _ => None,
        }),
        match (r, doc(*v)) {
            (Some(f), Doc::Number(Num::Float(b))) => f.0 == b,
            _ => true,
        },
{
    v.as_f64().map(|x| (x.to_bits(), x as i64))
}

/// `serde_json::Value::clone`: the same document again.
#[verifier::external_body]
fn copy(v: &serde_json::Value) -> (r: serde_json::Value)
    ensures
        doc(r) == doc(*v),
{
    v.clone()
}

/// An empty `serde_json::Map` as a value.
#[verifier::external_body]
fn empty_object() -> (r: serde_json::Value)
    ensures
        doc(r) == Doc::Object(Seq::empty()),
{
    serde_json::Value::Object(serde_json::Map::new())
}

/// An empty array as a `serde_json::Value`.
#[verifier::external_body]
fn empty_list() -> (r: serde_json::Value)
    ensures
        doc(r) == Doc::List(Seq::empty()),
{
    serde_json::Value::Array(Vec::new())
}

/// A string as a `serde_json::Value`.
#[verifier::external_body]
fn text_value(s: String) -> (r: serde_json::Value)
    ensures
        doc(r) == Doc::Text(s@),
{
    serde_json::Value::String(s)
}

/// A truth value as a `serde_json::Value`.
#[verifier::external_body]
fn bool_value(b: bool) -> (r: serde_json::Value)
    ensures
        doc(r) == Doc::Bool(b),
{
    serde_json::Value::Bool(b)
}

/// `serde_json::Map::insert` where the value is an object: the member of that name
/// takes the new value in its place, or a new one comes last. Anything else stays
/// as it is.
#[verifier::external_body]
fn put(v: &mut serde_json::Value, key: String, child: serde_json::Value)
    ensures
        doc(*final(v)) == (match doc(*old(v)) {
            Doc::Object(o) => Doc::Object(with_member(o, key@, doc(child))),
            d => d,
        }),
{
    if let Some(o) = v.as_object_mut() {
        o.insert(key, child);
    }
}

/// Appends to the array inside a `serde_json::Value`. Anything else stays as it is.
#[verifier::external_body]
fn append(v: &mut serde_json::Value, child: serde_json::Value)
    ensures
        doc(*final(v)) == (match doc(*old(v)) {
            Doc::List(l) => Doc::List(l.push(doc(child))),
            d => d,
        }),
{
    if let Some(a) = v.as_array_mut() {
        a.push(child);
    }
}

/// Where an object has a member of this name.
pub open spec fn member_at(o: Seq<(Seq<char>, Doc)>, key: Seq<char>, i: int) -> bool {
    0 <= i < o.len() && o[i].0 == key
}

/// The member of an object.
pub open spec fn member(o: Seq<(Seq<char>, Doc)>, key: Seq<char>) -> Option<Doc> {
    if exists|i: int| member_at(o, key, i) {
        Some(o[choose|i: int| member_at(o, key, i)].1)
    } else {
        None
    }
}

/// An object with a member set.
pub open spec fn with_member(
    o: Seq<(Seq<char>, Doc)>,
    key: Seq<char>,
    d: Doc,
) -> Seq<(Seq<char>, Doc)> {
    if exists|i: int| member_at(o, key, i) {
        o.update(choose|i: int| member_at(o, key, i), (key, d))
    } else {
        o.push((key, d))
    }
}

/// What a handle names: a value, and whether it can be filled.
pub struct Node {
    pub value: serde_json::Value,
    pub owned: bool,
}

pub struct Json {
    pub nodes: SlotMap<Node>,
}

/// The key a handle stands for.
pub open spec fn key(h: i64) -> Key {
    Key { slot: (h % 0x1_0000_0000) as u32, gen: (h / 0x1_0000_0000) as u32 }
}

/// The kind of a document as a number.
pub open spec fn kind_number(d: Doc) -> int {
    match d {
        Doc::Null => 0,
        Doc::Bool(_) => 1,
        Doc::Number(_) => 2,
        Doc::Text(_) => 3,
        Doc::List(_) => 4,
        Doc::Object(_) => 5,
    }
}

/// How much a document holds: elements, members, or the bytes of a string.
pub open spec fn extent(d: Doc) -> int {
    match d {
        Doc::List(l) => l.len() as int,
        Doc::Object(o) => o.len() as int,
        Doc::Text(s) => vstd::utf8::encode_utf8(s).len() as int,
        _ => 0,
    }
}

/// A number cut to a whole one; 0 for what is no number.
pub open spec fn whole_of(d: Doc) -> i64 {
    match d {
        Doc::Number(Num::Int(n)) => n,
        Doc::Number(n) => as_float(n).1,
        _ => 0,
    }
}

/// The member of a document that is an object.
pub open spec fn member_in(d: Doc, name: Seq<char>) -> Option<Doc> {
    match d {
        Doc::Object(o) => member(o, name),
        _ => None,
    }
}

/// The element of a document that is an array.
pub open spec fn element_in(d: Doc, i: int) -> Option<Doc> {
    match d {
        Doc::List(l) => if 0 <= i < l.len() {
            Some(l[i])
        } else {
            None
        },
        _ => None,
    }
}

/// A document after a member was set in it, where it is an object.
pub open spec fn set_in(d: Doc, name: Seq<char>, child: Doc) -> Doc {
    match d {
        Doc::Object(o) => Doc::Object(with_member(o, name, child)),
        _ => d,
    }
}

/// A document after an element was appended, where it is an array.
pub open spec fn pushed_in(d: Doc, child: Doc) -> Doc {
    match d {
        Doc::List(l) => Doc::List(l.push(child)),
        _ => d,
    }
}

/// The name of member `i` of an object, a negative number counting as the first;
/// nothing where there is none.
pub open spec fn key_in(d: Doc, i: int) -> Seq<char> {
    let at = if i > 0 {
        i
    } else {
        0
    };
    match d {
        Doc::Object(o) => if at < o.len() {
            o[at].0
        } else {
            Seq::empty()
        },
        _ => Seq::empty(),
    }
}

impl Json {
    pub open spec fn wf(self) -> bool {
        self.nodes.wf()
    }

    /// What a handle names.
    pub open spec fn named(self, h: i64) -> Option<Node> {
        if h >= 0x1_0000_0000 && self.nodes@.dom().contains(key(h)) {
            Some(self.nodes@[key(h)])
        } else {
            None
        }
    }

    /// The document behind a handle.
    pub open spec fn at(self, h: i64) -> Option<Doc> {
        match self.named(h) {
            Some(n) => Some(doc(n.value)),
            None => None,
        }
    }

    /// Whether the handle can be filled.
    pub open spec fn fillable(self, h: i64) -> bool {
        self.named(h) is Some && self.named(h)->0.owned
    }

    /// `after` is this store with a new handle for a document.
    pub open spec fn gained(self, after: Json, h: i64, d: Doc, owned: bool) -> bool {
        &&& after.wf()
        &&& h >= 0x1_0000_0000
        &&& !self.nodes.issued(key(h))
        &&& after.at(h) == Some(d)
        &&& after.fillable(h) == owned
        &&& forall|g: i64| g != h ==> #[trigger] after.named(g) == self.named(g)
        &&& forall|k: Key|
            #[trigger] after.nodes.issued(k) <==> self.nodes.issued(k) || k == key(h)
        &&& after.nodes.comes_from(self.nodes)
        &&& after.nodes.live_len() == self.nodes.live_len() + 1
        &&& after.nodes.slots_len() == self.nodes.slots_len() + (if self.nodes.full() {
            1nat
        } else {
            0
        })
    }

    /// `after` is this store with the document behind a handle replaced.
    pub open spec fn changed(self, after: Json, h: i64, d: Doc) -> bool {
        &&& after.wf()
        &&& after.at(h) == Some(d)
        &&& after.fillable(h) == self.fillable(h)
        &&& forall|g: i64| g != h ==> #[trigger] after.named(g) == self.named(g)
        &&& after.nodes.same_keys(self.nodes)
        &&& after.nodes.comes_from(self.nodes)
    }

    pub fn new() -> (j: Json)
        ensures
            j.wf(),
            forall|h: i64| #[trigger] j.at(h) is None,
            forall|k: Key| !#[trigger] j.nodes.issued(k),
            j.nodes.slots_len() == 0,
            j.nodes.live_len() == 0,
    {
        Json { nodes: SlotMap::new() }
    }

    fn push_node(&mut self, value: serde_json::Value, owned: bool) -> (h: i64)
        requires
            old(self).wf(),
            old(self).nodes.room(),
        ensures
            old(self).gained(*final(self), h, doc(value), owned),
    {
        let ghost a = *self;
        let k = self.nodes.insert(Node { value, owned });
        let h: i64 = k.to_i64();
        proof {
            assert(key(h) == k);
            assert forall|g: i64| g != h implies #[trigger] self.named(g) == a.named(g) by {
                if g >= 0x1_0000_0000 && key(g) == k {
                    assert(key(g).packed() == g);
                    assert(false);
                }
            }
        }
        h
    }

    fn find(&self, h: i64) -> (r: Option<&Node>)
        ensures
            match r {
                Some(n) => self.named(h) == Some(*n),
                None => self.named(h) is None,
            },
    {
        match Key::from_i64(h) {
            Some(k) => {
                assert(key(h) == k);
                self.nodes.get(k)
            },
            None => None,
        }
    }

    fn replace(&mut self, h: i64, value: serde_json::Value)
        requires
            old(self).wf(),
            old(self).fillable(h),
        ensures
            old(self).changed(*final(self), h, doc(value)),
    {
        let ghost a = *self;
        if let Some(k) = Key::from_i64(h) {
            assert(key(h) == k);
            let done: bool = self.nodes.set(k, Node { value, owned: true });
            proof {
                assert forall|g: i64| g != h implies #[trigger] self.named(g) == a.named(g) by {
                    if g >= 0x1_0000_0000 && key(g) == k {
                        assert(key(g).packed() == g);
                        assert(key(h).packed() == h);
                        assert(false);
                    }
                }
            }
        }
    }

    /// Parse a text and name the document. The error is the parser's message.
    pub fn json_parse(&mut self, text: &str) -> (r: Result<i64, String>)
        requires
            old(self).wf(),
            old(self).nodes.room(),
        ensures
            match r {
                Ok(h) => parsed(text@) is Some && old(self).gained(
                    *final(self),
                    h,
                    parsed(text@)->0,
                    false,
                ),
                Err(e) => parsed(text@) is None && e@ == parse_message(text@) && *final(self)
                    == *old(self),
            },
    {
        match parse_text(text) {
            Ok(v) => Ok(self.push_node(v, false)),
            Err(e) => Err(e),
        }
    }

    /// Name the member of an object. Returns 0 where there is none.
    pub fn json_get(&mut self, h: i64, name: &str) -> (r: i64)
        requires
            old(self).wf(),
            old(self).nodes.room(),
        ensures
            ({
                let child = match old(self).at(h) {
                    Some(d) => member_in(d, name@),
                    None => None,
                };
                match child {
                    Some(d) => old(self).gained(*final(self), r, d, old(self).fillable(h)),
                    None => r == 0 && *final(self) == *old(self),
                }
            }),
    {
        let (child, owned): (Option<serde_json::Value>, bool) = match self.find(h) {
            Some(n) => (member_of(&n.value, name), n.owned),
            None => (None, false),
        };
        match child {
            Some(v) => self.push_node(v, owned),
            None => 0,
        }
    }

    /// Name an element of an array. Returns 0 where there is none.
    pub fn json_at(&mut self, h: i64, i: i64) -> (r: i64)
        requires
            old(self).wf(),
            old(self).nodes.room(),
        ensures
            ({
                let child = match old(self).at(h) {
                    Some(d) => element_in(d, i as int),
                    None => None,
                };
                match child {
                    Some(d) => old(self).gained(*final(self), r, d, old(self).fillable(h)),
                    None => r == 0 && *final(self) == *old(self),
                }
            }),
    {
        let (child, owned): (Option<serde_json::Value>, bool) = match self.find(h) {
            Some(n) => if i < 0 || i as u64 >= entries(&n.value) as u64 {
                (None, false)
            } else {
                (element_of(&n.value, i as usize), n.owned)
            },
            None => (None, false),
        };
        match child {
            Some(v) => self.push_node(v, owned),
            None => 0,
        }
    }

    /// The elements, the members, or the bytes of a string; 0 for anything else.
    pub fn json_len(&self, h: i64) -> (r: usize)
        ensures
            r == (match self.at(h) {
                Some(d) => extent(d),
                None => 0,
            }),
    {
        match self.find(h) {
            Some(n) => match shape(&n.value) {
                Shape::Text(s) => s.as_str().as_bytes().len(),
                _ => entries(&n.value),
            },
            None => 0,
        }
    }

    /// A number as the bits of a float; 0 for anything else.
    pub fn json_num(&self, h: i64) -> (r: u64)
        ensures
            r == (match self.at(h) {
                Some(Doc::Number(n)) => as_float(n).0,
                _ => 0,
            }),
            self.at(h) matches Some(Doc::Number(Num::Float(b))) ==> r == b,
    {
        match self.find(h) {
            Some(n) => match float(&n.value) {
                Some(x) => x.0,
                None => 0,
            },
            None => 0,
        }
    }

    /// A number as a whole one, the fraction cut off; 0 for anything else.
    pub fn json_int(&self, h: i64) -> (r: i64)
        ensures
            r == (match self.at(h) {
                Some(d) => whole_of(d),
                None => 0,
            }),
    {
        match self.find(h) {
            Some(n) => match whole(&n.value) {
                Some(i) => i,
                None => match float(&n.value) {
                    Some(x) => x.1,
                    None => 0,
                },
            },
            None => 0,
        }
    }

    /// 1 for true, 0 for anything else.
    pub fn json_bool(&self, h: i64) -> (r: i64)
        ensures
            r == (if self.at(h) == Some(Doc::Bool(true)) {
                1int
            } else {
                0
            }),
    {
        match self.find(h) {
            Some(n) => match shape(&n.value) {
                Shape::Bool(b) => if b {
                    1
                } else {
                    0
                },
                _ => 0,
            },
            None => 0,
        }
    }

    /// A string's characters; nothing for anything else.
    pub fn json_str(&self, h: i64) -> (r: String)
        ensures
            r@ == (match self.at(h) {
                Some(Doc::Text(s)) => s,
                _ => Seq::empty(),
            }),
    {
        match self.find(h) {
            Some(n) => match shape(&n.value) {
                Shape::Text(s) => s,
                _ => String::new(),
            },
            None => String::new(),
        }
    }

    /// What a handle names: -1 nothing, 0 null, 1 a truth value, 2 a number, 3 a
    /// string, 4 an array, 5 an object.
    pub fn json_kind(&self, h: i64) -> (r: i64)
        ensures
            r == (match self.at(h) {
                Some(d) => kind_number(d),
                None => -1,
            }),
    {
        match self.find(h) {
            Some(n) => match shape(&n.value) {
                Shape::Null => 0,
                Shape::Bool(_) => 1,
                Shape::Number => 2,
                Shape::Text(_) => 3,
                Shape::List => 4,
                Shape::Object => 5,
            },
            None => -1,
        }
    }

    /// 1 where an object has a member, else 0.
    pub fn json_has(&self, h: i64, name: &str) -> (r: i64)
        ensures
            r == (match self.at(h) {
                Some(d) => if member_in(d, name@) is Some {
                    1int
                } else {
                    0
                },
                None => 0,
            }),
    {
        match self.find(h) {
            Some(n) => match member_of(&n.value, name) {
                Some(_) => 1,
                None => 0,
            },
            None => 0,
        }
    }

    /// The name of member `i` of an object, in the document's order; nothing where
    /// there is none. A negative index counts as the first.
    pub fn json_key(&self, h: i64, i: i64) -> (r: String)
        ensures
            r@ == (match self.at(h) {
                Some(d) => key_in(d, i as int),
                None => Seq::empty(),
            }),
    {
        match self.find(h) {
            Some(n) => {
                let at: u64 = if i > 0 {
                    i as u64
                } else {
                    0
                };
                if at >= entries(&n.value) as u64 {
                    return String::new();
                }
                match key_of(&n.value, at as usize) {
                    Some(k) => k,
                    None => String::new(),
                }
            },
            None => String::new(),
        }
    }

    /// Release a handle. One that names nothing is left alone.
    pub fn json_free(&mut self, h: i64)
        requires
            old(self).wf(),
        ensures
            final(self).wf(),
            final(self).at(h) is None,
            forall|g: i64| g != h ==> #[trigger] final(self).named(g) == old(self).named(g),
            forall|k: Key| #[trigger] final(self).nodes.issued(k) <==> old(self).nodes.issued(k),
            final(self).nodes.comes_from(old(self).nodes),
            final(self).nodes.slots_len() == old(self).nodes.slots_len(),
            final(self).nodes.live_len() == old(self).nodes.live_len() - (if old(self).named(h) is Some {
                1int
            } else {
                0
            }),
    {
        let ghost a = *self;
        if let Some(k) = Key::from_i64(h) {
            assert(key(h) == k);
            let gone = self.nodes.remove(k);
            proof {
                assert forall|g: i64| g != h implies #[trigger] self.named(g) == a.named(g) by {
                    if g >= 0x1_0000_0000 && key(g) == k {
                        assert(key(g).packed() == g);
                        assert(key(h).packed() == h);
                        assert(false);
                    }
                }
            }
        }
    }

    /// A new, empty object to fill.
    pub fn json_new_obj(&mut self) -> (h: i64)
        requires
            old(self).wf(),
            old(self).nodes.room(),
        ensures
            old(self).gained(*final(self), h, Doc::Object(Seq::empty()), true),
    {
        let v = empty_object();
        self.push_node(v, true)
    }

    /// A new, empty array to fill.
    pub fn json_new_arr(&mut self) -> (h: i64)
        requires
            old(self).wf(),
            old(self).nodes.room(),
        ensures
            old(self).gained(*final(self), h, Doc::List(Seq::empty()), true),
    {
        let v = empty_list();
        self.push_node(v, true)
    }

    /// Set a member of an object under construction. Anything else is left alone.
    fn set_value(&mut self, h: i64, name: &str, child: serde_json::Value)
        requires
            old(self).wf(),
        ensures
            !old(self).fillable(h) ==> *final(self) == *old(self),
            old(self).fillable(h) ==> old(self).changed(
                *final(self),
                h,
                set_in(old(self).at(h)->0, name@, doc(child)),
            ),
    {
        let mut v = match self.find(h) {
            Some(n) => {
                if !n.owned {
                    return;
                }
                copy(&n.value)
            },
            None => {
                return;
            },
        };
        put(&mut v, name.to_owned(), child);
        self.replace(h, v);
    }

    fn push_value(&mut self, h: i64, child: serde_json::Value)
        requires
            old(self).wf(),
        ensures
            !old(self).fillable(h) ==> *final(self) == *old(self),
            old(self).fillable(h) ==> old(self).changed(
                *final(self),
                h,
                pushed_in(old(self).at(h)->0, doc(child)),
            ),
    {
        let mut v = match self.find(h) {
            Some(n) => {
                if !n.owned {
                    return;
                }
                copy(&n.value)
            },
            None => {
                return;
            },
        };
        append(&mut v, child);
        self.replace(h, v);
    }

    /// Set a member to a copy of what another handle names.
    pub fn json_set(&mut self, h: i64, name: &str, child: i64)
        requires
            old(self).wf(),
        ensures
            !(old(self).fillable(h) && old(self).at(child) is Some) ==> *final(self) == *old(self),
            old(self).fillable(h) && old(self).at(child) is Some ==> old(self).changed(
                *final(self),
                h,
                set_in(old(self).at(h)->0, name@, old(self).at(child)->0),
            ),
    {
        let v = match self.find(child) {
            Some(n) => copy(&n.value),
            None => {
                return;
            },
        };
        self.set_value(h, name, v);
    }

    /// Set a member to a number, given as the value that holds it.
    pub fn json_set_num(&mut self, h: i64, name: &str, x: serde_json::Value)
        requires
            old(self).wf(),
        ensures
            !old(self).fillable(h) ==> *final(self) == *old(self),
            old(self).fillable(h) ==> old(self).changed(
                *final(self),
                h,
                set_in(old(self).at(h)->0, name@, doc(x)),
            ),
    {
        self.set_value(h, name, x);
    }

    /// Set a member to a string.
    pub fn json_set_str(&mut self, h: i64, name: &str, s: &str)
        requires
            old(self).wf(),
        ensures
            !old(self).fillable(h) ==> *final(self) == *old(self),
            old(self).fillable(h) ==> old(self).changed(
                *final(self),
                h,
                set_in(old(self).at(h)->0, name@, Doc::Text(s@)),
            ),
    {
        let v = text_value(s.to_owned());
        self.set_value(h, name, v);
    }

    /// Set a member to a truth value.
    pub fn json_set_bool(&mut self, h: i64, name: &str, b: bool)
        requires
            old(self).wf(),
        ensures
            !old(self).fillable(h) ==> *final(self) == *old(self),
            old(self).fillable(h) ==> old(self).changed(
                *final(self),
                h,
                set_in(old(self).at(h)->0, name@, Doc::Bool(b)),
            ),
    {
        let v = bool_value(b);
        self.set_value(h, name, v);
    }

    /// Append a copy of what another handle names.
    pub fn json_push(&mut self, h: i64, child: i64)
        requires
            old(self).wf(),
        ensures
            !(old(self).fillable(h) && old(self).at(child) is Some) ==> *final(self) == *old(self),
            old(self).fillable(h) && old(self).at(child) is Some ==> old(self).changed(
                *final(self),
                h,
                pushed_in(old(self).at(h)->0, old(self).at(child)->0),
            ),
    {
        let v = match self.find(child) {
            Some(n) => copy(&n.value),
            None => {
                return;
            },
        };
        self.push_value(h, v);
    }

    /// Append a number, given as the value that holds it.
    pub fn json_push_num(&mut self, h: i64, x: serde_json::Value)
        requires
            old(self).wf(),
        ensures
            !old(self).fillable(h) ==> *final(self) == *old(self),
            old(self).fillable(h) ==> old(self).changed(
                *final(self),
                h,
                pushed_in(old(self).at(h)->0, doc(x)),
            ),
    {
        self.push_value(h, x);
    }

    /// Append a string.
    pub fn json_push_str(&mut self, h: i64, s: &str)
        requires
            old(self).wf(),
        ensures
            !old(self).fillable(h) ==> *final(self) == *old(self),
            old(self).fillable(h) ==> old(self).changed(
                *final(self),
                h,
                pushed_in(old(self).at(h)->0, Doc::Text(s@)),
            ),
    {
        let v = text_value(s.to_owned());
        self.push_value(h, v);
    }

    /// The indented text of what a handle names, where it names something. Parsing
    /// it gives the document back, where that holds no float and is not nested deeper
    /// than the parser follows.
    pub fn json_to_str(&self, h: i64) -> (r: Option<String>)
        ensures
            match self.at(h) {
                Some(d) => r is Some && r->0@ == pretty(d) && (exact(d, DEPTH) ==> parsed(r->0@)
                    == Some(d)),
                None => r is None,
            },
    {
        match self.find(h) {
            Some(n) => Some(pretty_text(&n.value)),
            None => None,
        }
    }

    /// How many handles are live.
    pub fn live(&self) -> (r: usize)
        ensures
            r == self.nodes.live_len(),
    {
        self.nodes.len()
    }

    /// How many slots handles ever took.
    pub fn slot_count(&self) -> (r: usize)
        ensures
            r == self.nodes.slots_len(),
    {
        self.nodes.slot_count()
    }
}

/// A released handle never comes to name a later document, whatever is parsed, filled
/// and released afterwards.
pub proof fn law_freed_handles_stay_free(run: Seq<Json>, dead: i64, i: int, n: int)
    requires
        forall|m: int|
            0 <= m < run.len() - 1 ==> run[m + 1].nodes.comes_from((#[trigger] run[m]).nodes),
        0 <= i <= n < run.len(),
        dead >= 0x1_0000_0000,
        run[i].nodes.issued(key(dead)),
        run[i].at(dead) is None,
    ensures
        run[n].nodes.issued(key(dead)),
        run[n].at(dead) is None,
    decreases n,
{
    if i < n {
        law_freed_handles_stay_free(run, dead, i, n - 1);
        assert(run[n - 1 + 1].nodes.comes_from(run[n - 1].nodes));
    }
}

/// A handle of a document's part lives on when the handle of the whole is released.
pub proof fn law_parts_outlive_the_whole(before: Json, after: Json, whole: i64, part: i64)
    requires
        whole != part,
        forall|g: i64| g != whole ==> #[trigger] after.named(g) == before.named(g),
    ensures
        after.at(part) == before.at(part),
{
    assert(after.named(part) == before.named(part));
}

/// A document that is read back exactly still is when it is filled with another such.
pub proof fn law_filling_keeps_documents_exact(d: Doc, name: Seq<char>, child: Doc, depth: u8)
    requires
        depth > 0,
        exact(d, depth),
        exact(child, (depth - 1) as u8),
    ensures
        exact(set_in(d, name, child), depth),
        exact(pushed_in(d, child), depth),
{
    match d {
        Doc::Object(o) => {
            let w = with_member(o, name, child);
            assert forall|i: int| 0 <= i < w.len() implies exact(
                (#[trigger] w[i]).1,
                (depth - 1) as u8,
            ) by {
                if i < o.len() {
                    assert(exact(o[i].1, (depth - 1) as u8));
                }
            }
            assert forall|i: int, j: int| 0 <= i < j < w.len() implies (#[trigger] w[i]).0 != (
            #[trigger] w[j]).0 by {
                if j < o.len() {
                    assert(o[i].0 != o[j].0);
                } else {
                    assert(!member_at(o, name, i));
                }
            }
        },
        Doc::List(l) => {
            let p = l.push(child);
            assert forall|i: int| 0 <= i < p.len() implies exact(
                #[trigger] p[i],
                (depth - 1) as u8,
            ) by {
                if i < l.len() {
                    assert(exact(l[i], (depth - 1) as u8));
                }
            }
        },
        _ => {},
    }
}

/// A member that was set is found again, and setting it leaves the others.
pub proof fn law_set_members_are_found(
    o: Seq<(Seq<char>, Doc)>,
    name: Seq<char>,
    d: Doc,
    other: Seq<char>,
)
    requires
        forall|i: int, j: int|
            0 <= i < j < o.len() ==> (#[trigger] o[i]).0 != (#[trigger] o[j]).0,
    ensures
        member(with_member(o, name, d), name) == Some(d),
        other != name ==> member(with_member(o, name, d), other) == member(o, other),
{
    let w = with_member(o, name, d);
    if exists|i: int| member_at(o, name, i) {
        let i = choose|i: int| member_at(o, name, i);
        assert(member_at(w, name, i));
        let k = choose|k: int| member_at(w, name, k);
        assert(k == i) by {
            if k < i {
                assert(o[k].0 != o[i].0);
            } else if i < k {
                assert(o[i].0 != o[k].0);
            }
        }
    } else {
        assert(member_at(w, name, o.len() as int));
        let k = choose|k: int| member_at(w, name, k);
        if k < o.len() {
            assert(member_at(o, name, k));
        }
    }
    if other != name {
        if exists|i: int| member_at(o, other, i) {
            let i = choose|i: int| member_at(o, other, i);
            assert(member_at(w, other, i));
            let k = choose|k: int| member_at(w, other, k);
            assert(member_at(o, other, k));
            assert(k == i) by {
                if k < i {
                    assert(o[k].0 != o[i].0);
                } else if i < k {
                    assert(o[i].0 != o[k].0);
                }
            }
        } else if exists|k: int| member_at(w, other, k) {
            let k = choose|k: int| member_at(w, other, k);
            assert(member_at(o, other, k));
        }
    }
}

/// Documents have the same kind number exactly where they are of one kind, and the kinds
/// are numbered from nothing on: those that hold one value first, those that hold others
/// last.
pub proof fn law_kinds_are_told_apart(a: Doc, b: Doc, flag: bool, n: Num, s: Seq<char>)
    ensures
        0 <= kind_number(a) < 6,
        kind_number(a) == kind_number(b) <==> {
            ||| a is Null && b is Null
            ||| a is Bool && b is Bool
            ||| a is Number && b is Number
            ||| a is Text && b is Text
            ||| a is List && b is List
            ||| a is Object && b is Object
        },
        kind_number(Doc::Null) == 0,
        kind_number(Doc::Null) < kind_number(Doc::Bool(flag)) < kind_number(Doc::Number(n))
            < kind_number(Doc::Text(s)) < kind_number(Doc::List(Seq::empty())) < kind_number(
            Doc::Object(Seq::empty()),
        ),
{
}

/// An appended element is the last one, and the others keep their places. Nothing is
/// appended to what is no array.
pub proof fn law_appended_elements_come_last(d: Doc, child: Doc, i: int)
    ensures
        d is List ==> {
            &&& extent(pushed_in(d, child)) == extent(d) + 1
            &&& element_in(pushed_in(d, child), extent(d)) == Some(child)
            &&& i != extent(d) ==> element_in(pushed_in(d, child), i) == element_in(d, i)
        },
        d !is List ==> pushed_in(d, child) == d && element_in(d, i) is None,
        element_in(d, i) is Some <==> d is List && 0 <= i < extent(d),
{
}

/// A new member is the last one; one that was there keeps its place. Either way the names
/// before it stay. Nothing is set in what is no object.
pub proof fn law_new_members_come_last(d: Doc, name: Seq<char>, child: Doc, i: int)
    requires
        i >= 0,
    ensures
        d is Object && member_in(d, name) is None ==> {
            &&& extent(set_in(d, name, child)) == extent(d) + 1
            &&& key_in(set_in(d, name, child), extent(d)) == name
        },
        d is Object && member_in(d, name) is Some ==> extent(set_in(d, name, child)) == extent(d),
        d is Object && i < extent(d) ==> key_in(set_in(d, name, child), i) == key_in(d, i),
        d !is Object ==> set_in(d, name, child) == d && member_in(d, name) is None,
{
    if let Doc::Object(o) = d {
        if exists|k: int| member_at(o, name, k) {
            let k = choose|k: int| member_at(o, name, k);
            assert(o[k].0 == name);
        }
    }
}

/// Every member is found under its name, and the names of an object are read in order. A
/// negative place counts as the first, and past the last there is no name.
pub proof fn law_members_are_found_by_their_names(o: Seq<(Seq<char>, Doc)>, i: int)
    requires
        forall|a: int, b: int|
            0 <= a < b < o.len() ==> (#[trigger] o[a]).0 != (#[trigger] o[b]).0,
    ensures
        0 <= i < o.len() ==> key_in(Doc::Object(o), i) == o[i].0 && member_in(
            Doc::Object(o),
            o[i].0,
        ) == Some(o[i].1),
        i < 0 ==> key_in(Doc::Object(o), i) == key_in(Doc::Object(o), 0),
        i >= o.len() && i >= 0 ==> key_in(Doc::Object(o), i) == Seq::<char>::empty(),
{
    if 0 <= i < o.len() {
        let name = o[i].0;
        assert(member_at(o, name, i));
        let k = choose|k: int| member_at(o, name, k);
        if k < i {
            assert(o[k].0 != o[i].0);
        } else if i < k {
            assert(o[i].0 != o[k].0);
        }
    }
}

/// A whole number is itself; what is no number counts as 0, and what holds nothing has no
/// extent.
pub proof fn law_whole_numbers_are_themselves(n: i64, d: Doc)
    ensures
        whole_of(Doc::Number(Num::Int(n))) == n,
        d !is Number ==> whole_of(d) == 0,
        d is Null || d is Bool || d is Number ==> extent(d) == 0,
        d matches Doc::Object(o) ==> extent(d) == o.len(),
        d matches Doc::List(l) ==> extent(d) == l.len(),
{
}

/// A handle is its slot and, in the higher half, its generation: different handles stand
/// for different keys.
pub proof fn law_handles_are_told_apart(g: i64, h: i64)
    requires
        0 <= g,
        0 <= h,
    ensures
        key(h).gen * 0x1_0000_0000 + key(h).slot == h,
        key(g) == key(h) <==> g == h,
{
}

/// A handle can be filled only where it names a document that was made to be filled.
pub proof fn law_only_made_documents_are_filled(s: Json, h: i64)
    ensures
        s.fillable(h) ==> s.at(h) is Some,
        s.named(h) matches Some(n) ==> (s.fillable(h) <==> n.owned),
        s.named(h) is None ==> !s.fillable(h) && s.at(h) is None,
        h < 0x1_0000_0000 ==> s.named(h) is None,
{
}

/// A changed document is read back as it was changed to, and a new one as it was made;
/// every other handle reads as before.
pub proof fn law_changes_are_read_back(a: Json, b: Json, h: i64, d: Doc, owned: bool, g: i64)
    requires
        a.changed(b, h, d) || a.gained(b, h, d, owned),
        g != h,
    ensures
        b.at(h) == Some(d),
        b.at(g) == a.at(g),
        b.fillable(g) == a.fillable(g),
        a.gained(b, h, d, owned) ==> b.fillable(h) == owned,
{
    assert(b.named(g) == a.named(g));
}

/// Every document is named by its packed key, and a key of none names nothing.
pub proof fn law_live_documents_are_named(s: Json, k: Key)
    requires
        k.valid(),
    ensures
        s.nodes@.dom().contains(k) ==> s.named(k.packed() as i64) == Some(s.nodes@[k]),
        !s.nodes@.dom().contains(k) ==> s.named(k.packed() as i64) is None,
{
    crate::slot::law_keys_are_packed_in_halves(k);
    assert(key(k.packed() as i64) == k);
}

} // verus!
