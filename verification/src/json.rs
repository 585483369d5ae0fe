//! The library's JSON value, its mathematical model, and the calls into
//! `serde_json` for parsing and rendering JSON text.
//!
//! Objects keep their members sorted by key (code-point order), which is the
//! order `serde_json::Map` iterates in.

use vstd::prelude::*;

use vstd::string::StringSliceAdditionalSpecFns;

use crate::text::chars_of;

verus! {

/// Model of a JSON number, as `serde_json::Number` distinguishes them.
pub enum JsonNum {
    /// A non-negative integer.
    PosInt(u64),
    /// A negative integer.
    NegInt(i64),
    /// A finite float, by its canonical decimal text.
    Float(Seq<char>),
}

/// Model of a JSON value.
pub enum Json {
    Null,
    Bool(bool),
    Num(JsonNum),
    Str(Seq<char>),
    Arr(Seq<Json>),
    Obj(Seq<(Seq<char>, Json)>),
}

/// A JSON number.
#[derive(Debug, Clone, PartialEq)]
pub enum JsonNumber {
    /// A non-negative integer.
    PosInt(u64),
    /// A negative integer.
    NegInt(i64),
    /// A finite float, held as the canonical decimal text `serde_json` writes.
    Float(String),
}

impl View for JsonNumber {
    type V = JsonNum;

    open spec fn view(&self) -> JsonNum {
        match self {
            JsonNumber::PosInt(u) => JsonNum::PosInt(*u),
            JsonNumber::NegInt(i) => JsonNum::NegInt(*i),
            JsonNumber::Float(t) => JsonNum::Float(t@),
        }
    }
}

/// A JSON value. Object members are kept sorted by key.
#[derive(Debug, PartialEq)]
pub enum JsonValue {
    Null,
    Bool(bool),
    Number(JsonNumber),
    String(String),
    Array(Vec<JsonValue>),
    Object(Vec<(String, JsonValue)>),
}

impl JsonValue {
    /// The model of this value.
    pub open spec fn model(self) -> Json
        decreases self,
    {
        match self {
            JsonValue::Null => Json::Null,
            JsonValue::Bool(b) => Json::Bool(b),
            JsonValue::Number(n) => Json::Num(n@),
            JsonValue::String(s) => Json::Str(s@),
            JsonValue::Array(items) => Json::Arr(
                Seq::new(
                    items@.len(),
                    |i: int|
                        if 0 <= i < items@.len() {
                            items@[i].model()
                        } else {
                            Json::Null
                        },
                ),
            ),
            JsonValue::Object(pairs) => Json::Obj(
                Seq::new(
                    pairs@.len(),
                    |i: int|
                        if 0 <= i < pairs@.len() {
                            (pairs@[i].0@, pairs@[i].1.model())
                        } else {
                            (Seq::empty(), Json::Null)
                        },
                ),
            ),
        }
    }
}

impl View for JsonValue {
    type V = Json;

    open spec fn view(&self) -> Json {
        self.model()
    }
}

/// Models of a sequence of values.
pub open spec fn models(s: Seq<JsonValue>) -> Seq<Json> {
    Seq::new(s.len(), |i: int| s[i].model())
}

/// Models of a sequence of object members.
pub open spec fn pair_models(s: Seq<(String, JsonValue)>) -> Seq<(Seq<char>, Json)> {
    Seq::new(s.len(), |i: int| (s[i].0@, s[i].1.model()))
}

pub proof fn lemma_array_model(items: Vec<JsonValue>)
    ensures
        JsonValue::Array(items)@ == Json::Arr(models(items@)),
{
    let m = JsonValue::Array(items)@;
    assert(m is Arr);
    assert(m->Arr_0 =~= models(items@));
}

pub proof fn lemma_object_model(pairs: Vec<(String, JsonValue)>)
    ensures
        JsonValue::Object(pairs)@ == Json::Obj(pair_models(pairs@)),
{
    let m = JsonValue::Object(pairs)@;
    assert(m is Obj);
    assert(m->Obj_0 =~= pair_models(pairs@));
}

/// Lexicographic order on code points, the order of `String`'s `Ord`.
pub open spec fn seq_lt(a: Seq<char>, b: Seq<char>) -> bool
    decreases a.len(),
{
    if a.len() == 0 {
        b.len() > 0
    } else if b.len() == 0 {
        false
    } else if (a[0] as u32) < (b[0] as u32) {
        true
    } else if a[0] == b[0] {
        seq_lt(a.drop_first(), b.drop_first())
    } else {
        false
    }
}

pub proof fn lemma_seq_lt_irrefl(a: Seq<char>, b: Seq<char>)
    requires
        seq_lt(a, b),
    ensures
        a != b,
        !seq_lt(b, a),
    decreases a.len(),
{
    if a.len() > 0 && b.len() > 0 && a[0] == b[0] {
        lemma_seq_lt_irrefl(a.drop_first(), b.drop_first());
        if a == b {
            assert(a.drop_first() == b.drop_first());
        }
    }
}

pub proof fn lemma_seq_lt_total(a: Seq<char>, b: Seq<char>)
    requires
        !seq_lt(a, b),
        a != b,
    ensures
        seq_lt(b, a),
    decreases a.len(),
{
    if a.len() == 0 {
        assert(b.len() == 0);
        assert(a =~= b);
    } else if b.len() > 0 && a[0] == b[0] {
        if a.drop_first() == b.drop_first() {
            assert(a =~= seq![a[0]] + a.drop_first());
            assert(b =~= seq![b[0]] + b.drop_first());
        }
        lemma_seq_lt_total(a.drop_first(), b.drop_first());
    } else if b.len() > 0 {
        assert((a[0] as u32) != (b[0] as u32)) by {
            vstd::utf8::char_u32_cast(a[0], a[0] as u32);
            vstd::utf8::char_u32_cast(b[0], b[0] as u32);
        }
    }
}

pub proof fn lemma_seq_lt_trans(a: Seq<char>, b: Seq<char>, c: Seq<char>)
    requires
        seq_lt(a, b),
        seq_lt(b, c),
    ensures
        seq_lt(a, c),
    decreases a.len(),
{
    if a.len() > 0 && a[0] == b[0] && b[0] == c[0] {
        lemma_seq_lt_trans(a.drop_first(), b.drop_first(), c.drop_first());
    }
}

/// "Not less than" is transitive: `c <= b <= a` gives `c <= a`.
pub proof fn lemma_seq_le_trans(a: Seq<char>, b: Seq<char>, c: Seq<char>)
    requires
        !seq_lt(a, b),
        !seq_lt(b, c),
    ensures
        !seq_lt(a, c),
{
    if seq_lt(a, c) {
        if a == b {
        } else {
            lemma_seq_lt_total(a, b);
            lemma_seq_lt_trans(b, a, c);
        }
    }
}

/// The value of the first member with key `k`.
pub open spec fn obj_lookup(p: Seq<(Seq<char>, Json)>, k: Seq<char>) -> Option<Json>
    decreases p.len(),
{
    if p.len() == 0 {
        None
    } else if p[0].0 == k {
        Some(p[0].1)
    } else {
        obj_lookup(p.drop_first(), k)
    }
}

/// `serde_json::Map::insert` on members sorted by key: replaces the value of
/// an existing key, or inserts the member at its sorted position.
pub open spec fn obj_insert(p: Seq<(Seq<char>, Json)>, k: Seq<char>, v: Json) -> Seq<(Seq<char>, Json)>
    decreases p.len(),
{
    if p.len() == 0 {
        seq![(k, v)]
    } else if p[0].0 == k {
        seq![(k, v)] + p.drop_first()
    } else if seq_lt(k, p[0].0) {
        seq![(k, v)] + p
    } else {
        seq![p[0]] + obj_insert(p.drop_first(), k, v)
    }
}

/// Whether the members' keys are strictly increasing.
pub open spec fn keys_sorted(p: Seq<(Seq<char>, Json)>) -> bool {
    forall|i: int, j: int| 0 <= i < j < p.len() ==> seq_lt(#[trigger] p[i].0, #[trigger] p[j].0)
}

/// A value whose `serde_json` text reads back as the same value: a string
/// or a non-negative integer.
pub open spec fn reads_back(v: Json) -> bool {
    v is Str || v matches Json::Num(JsonNum::PosInt(_))
}

/// The text of one object member as `serde_json` writes it: the key's
/// string text, `:`, the value's text.
pub open spec fn member_text(k: Seq<char>, v: Json) -> Seq<char> {
    json_text(Json::Str(k)) + ":"@ + json_text(v)
}

/// The members' texts joined with `,`.
pub open spec fn members_text(m: Seq<(Seq<char>, Json)>) -> Seq<char>
    decreases m.len(),
{
    if m.len() == 0 {
        Seq::empty()
    } else if m.len() == 1 {
        member_text(m[0].0, m[0].1)
    } else {
        members_text(m.drop_last()) + ","@ + member_text(m.last().0, m.last().1)
    }
}

/// An object's text written member by member, in the given order.
pub open spec fn object_text(m: Seq<(Seq<char>, Json)>) -> Seq<char> {
    "{"@ + members_text(m) + "}"@
}

/// Members `i..` of `m` inserted in order into `acc`, as into a
/// `serde_json::Map`.
pub open spec fn insert_members(m: Seq<(Seq<char>, Json)>, i: nat, acc: Seq<(Seq<char>, Json)>) -> Seq<(Seq<char>, Json)>
    decreases m.len() - i,
{
    if i >= m.len() {
        acc
    } else {
        insert_members(m, i + 1, obj_insert(acc, m[i as int].0, m[i as int].1))
    }
}

/// What `serde_json::from_str::<serde_json::Value>` gives for a text.
pub uninterp spec fn parsed_json(text: Seq<char>) -> Option<Json>;

/// The `Display` text of the error `serde_json::from_str` reports for a text.
pub uninterp spec fn json_parse_error(text: Seq<char>) -> Seq<char>;

/// What `serde_json::to_string` writes for a value.
pub uninterp spec fn json_text(v: Json) -> Seq<char>;

/// The text `serde_json::Number`'s `Display` writes for the number that its
/// `FromStr` reads from a text, when it reads one.
pub uninterp spec fn number_text(text: Seq<char>) -> Option<Seq<char>>;

#[verifier::external_type_specification]
#[verifier::external_body]
pub struct ExSerdeValue(serde_json::Value);

#[verifier::external_type_specification]
#[verifier::external_body]
pub struct ExSerdeError(serde_json::Error);

#[verifier::external_type_specification]
#[verifier::external_body]
pub struct ExSerdeNumber(serde_json::Number);

/// Converts a `serde_json::Number` into a [`JsonNumber`].
///
/// Trusted: tells the number's kinds apart with `as_u64` / `as_i64`; a
/// float keeps its `Display` text. Nothing is stated of the result.
#[verifier::external_body]
fn number_from_serde(n: serde_json::Number) -> JsonNumber {
    match (n.as_u64(), n.as_i64()) {
        (Some(u), _) => JsonNumber::PosInt(u),
        (None, Some(i)) => JsonNumber::NegInt(i),
        (None, None) => JsonNumber::Float(n.to_string()),
    }
}

/// Converts a `serde_json::Value` into a [`JsonValue`], variant for variant.
///
/// Trusted: moves each variant's fields across. Nothing is stated of the
/// result: callers state what they need over named results.
#[verifier::external_body]
fn from_serde(v: serde_json::Value) -> JsonValue {
    match v {
        serde_json::Value::Null => JsonValue::Null,
        serde_json::Value::Bool(b) => JsonValue::Bool(b),
        serde_json::Value::Number(n) => JsonValue::Number(number_from_serde(n)),
        serde_json::Value::String(s) => JsonValue::String(s),
        serde_json::Value::Array(a) => JsonValue::Array(a.into_iter().map(from_serde).collect()),
        serde_json::Value::Object(m) => JsonValue::Object(m.into_iter().map(|(k, x)| (k, from_serde(x))).collect()),
    }
}

/// Converts a [`JsonNumber`] into a `serde_json::Value`.
///
/// Trusted: integers go through `From<u64>` / `From<i64>`; a float's text is
/// read back with `serde_json::Number`'s `FromStr`. Nothing is stated of the
/// result.
#[verifier::external_body]
fn number_to_serde(n: &JsonNumber) -> serde_json::Value {
    match n {
        JsonNumber::PosInt(u) => serde_json::Value::from(*u),
        JsonNumber::NegInt(i) => serde_json::Value::from(*i),
        JsonNumber::Float(t) => t.parse::<serde_json::Number>().map(serde_json::Value::Number).unwrap_or(serde_json::Value::Null),
    }
}

/// Converts a [`JsonValue`] into a `serde_json::Value`, variant for variant.
///
/// Trusted: the inverse of `from_serde`. Nothing is stated of the result.
#[verifier::external_body]
fn to_serde(v: &JsonValue) -> serde_json::Value {
    match v {
        JsonValue::Null => serde_json::Value::Null,
        JsonValue::Bool(b) => serde_json::Value::Bool(*b),
        JsonValue::Number(n) => number_to_serde(n),
        JsonValue::String(s) => serde_json::Value::String(s.clone()),
        JsonValue::Array(a) => serde_json::Value::Array(a.iter().map(to_serde).collect()),
        JsonValue::Object(m) => serde_json::Value::Object(m.iter().map(|(k, x)| (k.clone(), to_serde(x))).collect()),
    }
}

/// Parses JSON text.
///
/// Trusted: calls `serde_json::from_str::<serde_json::Value>`. The contract
/// states that the result is the named parse of the text, and the error text
/// the named error rendering. It also states that a read gives back what a
/// write wrote: an object text written member by member with the texts
/// `serde_json` writes for keys and for string or non-negative integer
/// values parses, and the value deserialiser inserts those members in order
/// into a `serde_json::Map`.
#[verifier::external_body]
pub(crate) fn parse_json(text: &str) -> (r: Result<JsonValue, String>)
    ensures
        match r {
            Ok(v) => parsed_json(text@) == Some(v@),
            Err(m) => parsed_json(text@) is None && m@ == json_parse_error(text@),
        },
        r matches Ok(v) ==> forall|m: Seq<(Seq<char>, Json)>|
            #![trigger object_text(m)]
            text@ == object_text(m) && (forall|i: int| 0 <= i < m.len() ==> reads_back(#[trigger] m[i].1))
                ==> v@ == Json::Obj(insert_members(m, 0, Seq::empty())),
        r is Err ==> forall|m: Seq<(Seq<char>, Json)>|
            #![trigger object_text(m)]
            !(text@ == object_text(m) && (forall|i: int| 0 <= i < m.len() ==> reads_back(#[trigger] m[i].1))),
{
    match serde_json::from_str::<serde_json::Value>(text) {
        Ok(v) => Ok(from_serde(v)),
        Err(e) => Err(e.to_string()),
    }
}

/// Renders a value as compact JSON text.
///
/// Trusted: calls `serde_json::to_string`, which cannot fail on a
/// `serde_json::Value`; the result is the named rendering of the argument.
#[verifier::external_body]
pub(crate) fn to_json_text(v: &JsonValue) -> (r: String)
    ensures
        r@ == json_text(v@),
{
    serde_json::to_string(&to_serde(v)).unwrap_or_default()
}

/// Reads a JSON number literal and renders it back canonically.
///
/// Trusted: calls `serde_json::Number`'s `FromStr` and `Display`; the result
/// is the named text, `None` where the literal is refused or out of range.
#[verifier::external_body]
pub(crate) fn canonical_number_text(text: &str) -> (r: Option<String>)
    ensures
        match r {
            Some(t) => number_text(text@) == Some(t@),
            None => number_text(text@) is None,
        },
{
    text.parse::<serde_json::Number>().ok().map(|n| n.to_string())
}

/// The byte length of `s` in UTF-8.
pub fn utf8_len(s: &str) -> (r: usize)
    ensures
        r == s.spec_bytes().len() as usize,
{
    s.len()
}

/// Whether `a` precedes `b` in code-point order.
pub fn str_lt(a: &str, b: &str) -> (r: bool)
    ensures
        r == seq_lt(a@, b@),
{
    let va = chars_of(a);
    let vb = chars_of(b);
    let mut i: usize = 0;
    assert(a@.skip(0) =~= a@ && b@.skip(0) =~= b@);
    while i < va.len() && i < vb.len() && va[i] == vb[i]
        invariant
            va@ == a@,
            vb@ == b@,
            i <= va.len(),
            i <= vb.len(),
            seq_lt(a@, b@) == seq_lt(a@.skip(i as int), b@.skip(i as int)),
        decreases va.len() - i,
    {
        proof {
            let x = a@.skip(i as int);
            let y = b@.skip(i as int);
            assert(x.drop_first() =~= a@.skip(i + 1));
            assert(y.drop_first() =~= b@.skip(i + 1));
        }
        i = i + 1;
    }
    let ghost x = a@.skip(i as int);
    let ghost y = b@.skip(i as int);
    if i == va.len() {
        i < vb.len()
    } else if i == vb.len() {
        false
    } else {
        assert(x[0] == va@[i as int] && y[0] == vb@[i as int]);
        (va[i] as u32) < (vb[i] as u32)
    }
}

impl Clone for JsonValue {
    fn clone(&self) -> (r: JsonValue)
        ensures
            r@ == self@,
    {
        self.deep_clone()
    }
}

impl JsonNumber {
    /// A copy of this number.
    pub fn copy(&self) -> (r: JsonNumber)
        ensures
            r@ == self@,
    {
        match self {
            JsonNumber::PosInt(u) => JsonNumber::PosInt(*u),
            JsonNumber::NegInt(i) => JsonNumber::NegInt(*i),
            JsonNumber::Float(t) => JsonNumber::Float(t.clone()),
        }
    }
}

impl JsonValue {
    /// A deep copy of this value.
    pub fn deep_clone(&self) -> (r: JsonValue)
        ensures
            r@ == self@,
        decreases self,
    {
        match self {
            JsonValue::Null => JsonValue::Null,
            JsonValue::Bool(b) => JsonValue::Bool(*b),
            JsonValue::Number(n) => JsonValue::Number(n.copy()),
            JsonValue::String(s) => JsonValue::String(s.clone()),
            JsonValue::Array(items) => {
                let mut out: Vec<JsonValue> = Vec::new();
                let mut i: usize = 0;
                while i < items.len()
                    invariant
                        i <= items@.len(),
                        out@.len() == i,
                        forall|j: int| 0 <= j < i ==> (#[trigger] out@[j])@ == items@[j]@,
                        *self == JsonValue::Array(*items),
                    decreases items@.len() - i,
                {
                    assert(decreases_to!(*self => (*self)->Array_0));
                    assert(decreases_to!(*items => items@));
                    assert(decreases_to!(items@ => items@[i as int]));
                    let c = items[i].deep_clone();
                    out.push(c);
                    i = i + 1;
                }
                proof {
                    lemma_array_model(out);
                    lemma_array_model(*items);
                    assert(models(out@) =~= models(items@));
                }
                JsonValue::Array(out)
            },
            JsonValue::Object(pairs) => {
                let mut out: Vec<(String, JsonValue)> = Vec::new();
                let mut i: usize = 0;
                while i < pairs.len()
                    invariant
                        i <= pairs@.len(),
                        out@.len() == i,
                        forall|j: int|
                            0 <= j < i ==> (#[trigger] out@[j]).0@ == pairs@[j].0@ && out@[j].1@
                                == pairs@[j].1@,
                        *self == JsonValue::Object(*pairs),
                    decreases pairs@.len() - i,
                {
                    assert(decreases_to!(*self => (*self)->Object_0));
                    assert(decreases_to!(*pairs => pairs@));
                    assert(decreases_to!(pairs@ => pairs@[i as int]));
                    assert(decreases_to!(pairs@[i as int] => pairs@[i as int].1));
                    let k = pairs[i].0.clone();
                    let c = pairs[i].1.deep_clone();
                    out.push((k, c));
                    i = i + 1;
                }
                proof {
                    lemma_object_model(out);
                    lemma_object_model(*pairs);
                    assert(pair_models(out@) =~= pair_models(pairs@));
                }
                JsonValue::Object(out)
            },
        }
    }

    /// A string value holding `s`.
    pub fn from_str_slice(s: &str) -> (r: JsonValue)
        ensures
            r@ == Json::Str(s@),
    {
        JsonValue::String(s.to_owned())
    }

    /// The integer `n`, as `serde_json::Number::from(i64)` stores it.
    pub fn from_i64(n: i64) -> (r: JsonValue)
        ensures
            r@ == Json::Num(int_number(n as int)),
    {
        if n < 0 {
            JsonValue::Number(JsonNumber::NegInt(n))
        } else {
            JsonValue::Number(JsonNumber::PosInt(n as u64))
        }
    }

    /// An empty object.
    pub fn empty_object() -> (r: JsonValue)
        ensures
            r@ == Json::Obj(Seq::empty()),
    {
        let v: Vec<(String, JsonValue)> = Vec::new();
        proof {
            lemma_object_model(v);
            assert(pair_models(v@) =~= Seq::empty());
        }
        JsonValue::Object(v)
    }

    /// Whether this is `null`.
    pub fn is_null(&self) -> (r: bool)
        ensures
            r == (self@ is Null),
    {
        match self {
            JsonValue::Null => true,
            _ => false,
        }
    }

    /// The string this value holds, if it is a string.
    pub fn as_str(&self) -> (r: Option<&str>)
        ensures
            match self@ {
                Json::Str(s) => r matches Some(t) && t@ == s,
                _ => r is None,
            },
    {
        match self {
            JsonValue::String(s) => Some(s.as_str()),
            _ => None,
        }
    }

    /// The member `key` of this value, if it is an object that has one.
    pub fn get(&self, key: &str) -> (r: Option<&JsonValue>)
        ensures
            match self@ {
                Json::Obj(p) => match obj_lookup(p, key@) {
                    Some(v) => r matches Some(x) && x@ == v,
                    None => r is None,
                },
                _ => r is None,
            },
    {
        match self {
            JsonValue::Object(pairs) => {
                proof {
                    lemma_object_model(*pairs);
                }
                match object_find(pairs, key) {
                    Some(i) => Some(&pairs[i].1),
                    None => None,
                }
            },
            _ => None,
        }
    }
}

/// The number model of the integer `n`.
pub open spec fn int_number(n: int) -> JsonNum {
    if n < 0 {
        JsonNum::NegInt(n as i64)
    } else {
        JsonNum::PosInt(n as u64)
    }
}

proof fn lemma_lookup_skip(p: Seq<(Seq<char>, Json)>, k: Seq<char>, i: int)
    requires
        0 <= i <= p.len(),
        forall|j: int| 0 <= j < i ==> (#[trigger] p[j]).0 != k,
    ensures
        obj_lookup(p, k) == obj_lookup(p.skip(i), k),
    decreases i,
{
    if i > 0 {
        assert(p.skip(1) =~= p.drop_first());
        lemma_lookup_skip(p.drop_first(), k, i - 1);
        assert(p.drop_first().skip(i - 1) =~= p.skip(i));
    } else {
        assert(p.skip(0) =~= p);
    }
}

/// The index of the first member with key `key`.
pub fn object_find(pairs: &Vec<(String, JsonValue)>, key: &str) -> (r: Option<usize>)
    ensures
        match obj_lookup(pair_models(pairs@), key@) {
            Some(v) => r matches Some(i) && i < pairs@.len() && pairs@[i as int].1@ == v
                && pairs@[i as int].0@ == key@,
            None => r is None,
        },
{
    let ghost p = pair_models(pairs@);
    let mut i: usize = 0;
    while i < pairs.len()
        invariant
            i <= pairs@.len(),
            p == pair_models(pairs@),
            forall|j: int| 0 <= j < i ==> (#[trigger] p[j]).0 != key@,
        decreases pairs@.len() - i,
    {
        if crate::text::str_eq(pairs[i].0.as_str(), key) {
            proof {
                lemma_lookup_skip(p, key@, i as int);
                assert(p.skip(i as int)[0] == p[i as int]);
            }
            return Some(i);
        }
        i = i + 1;
    }
    proof {
        lemma_lookup_skip(p, key@, i as int);
    }
    None
}

proof fn lemma_insert_skip(p: Seq<(Seq<char>, Json)>, k: Seq<char>, v: Json, i: int)
    requires
        0 <= i <= p.len(),
        forall|j: int| 0 <= j < i ==> seq_lt((#[trigger] p[j]).0, k),
    ensures
        obj_insert(p, k, v) == p.take(i) + obj_insert(p.skip(i), k, v),
    decreases i,
{
    if i > 0 {
        lemma_seq_lt_irrefl(p[0].0, k);
        assert(p.skip(1) =~= p.drop_first());
        lemma_insert_skip(p.drop_first(), k, v, i - 1);
        assert(p.drop_first().skip(i - 1) =~= p.skip(i));
        assert(seq![p[0]] + (p.drop_first().take(i - 1) + obj_insert(p.skip(i), k, v)) =~= p.take(i)
            + obj_insert(p.skip(i), k, v));
    } else {
        assert(p.skip(0) =~= p);
        assert(p.take(0) + obj_insert(p, k, v) =~= obj_insert(p, k, v));
    }
}

/// `serde_json::Map::insert` on sorted members.
pub fn object_insert(pairs: &mut Vec<(String, JsonValue)>, key: String, value: JsonValue)
    ensures
        pair_models(final(pairs)@) == obj_insert(pair_models(old(pairs)@), key@, value@),
{
    let ghost p = pair_models(pairs@);
    let ghost kv = key@;
    let ghost vv = value@;
    let mut i: usize = 0;
    while i < pairs.len() && str_lt(pairs[i].0.as_str(), key.as_str())
        invariant
            i <= pairs@.len(),
            p == pair_models(pairs@),
            kv == key@,
            forall|j: int| 0 <= j < i ==> seq_lt((#[trigger] p[j]).0, kv),
        decreases pairs@.len() - i,
    {
        i = i + 1;
    }
    proof {
        lemma_insert_skip(p, kv, vv, i as int);
    }
    let ghost rest = p.skip(i as int);
    if i < pairs.len() && crate::text::str_eq(pairs[i].0.as_str(), key.as_str()) {
        pairs.set(i, (key, value));
        proof {
            assert(rest[0] == p[i as int]);
            assert(pair_models(pairs@) =~= p.take(i as int) + (seq![(kv, vv)] + rest.drop_first()));
        }
    } else {
        pairs.insert(i, (key, value));
        proof {
            if i < p.len() {
                assert(rest[0] == p[i as int]);
                lemma_seq_lt_total(p[i as int].0, kv);
                assert(seq_lt(kv, rest[0].0));
                assert(pair_models(pairs@) =~= p.take(i as int) + (seq![(kv, vv)] + rest));
            } else {
                assert(rest.len() == 0);
                assert(pair_models(pairs@) =~= p.take(i as int) + seq![(kv, vv)]);
            }
        }
    }
}

} // verus!
