//! The eagerly typed tree: every leaf is a string, a number, a boolean or
//! null, and objects and arrays own their children.

use vstd::prelude::*;
use crate::chars::{chars_of, same_text};
use crate::entries::{
    distinct_keys, entries_map, lemma_entries_map_dom, lemma_entries_map_len,
    lemma_entries_map_lookup, lemma_entries_map_push, lemma_entries_map_update,
};
use crate::error::{Failure, ParseError};
use crate::numeral::{float_literal, is_float_literal};

verus! {

/// A floating-point number, known by its literal.  The literal is always
/// well formed, so that it can be turned into a binary floating-point number
/// wherever one is wanted.
#[derive(Debug)]
pub struct FloatLiteral {
    text: String,
}

impl FloatLiteral {
    #[verifier::type_invariant]
    spec fn well_formed(&self) -> bool {
        float_literal(self.text@)
    }

    /// The literal.
    pub closed spec fn view(&self) -> Seq<char> {
        self.text@
    }

    /// The number that `s` is the literal of, if `s` is a well-formed
    /// floating-point literal.
    pub fn parse(s: &str) -> (r: Option<FloatLiteral>)
        ensures
            match r {
                Some(f) => float_literal(s@) && f@ == s@,
                None => !float_literal(s@),
            },
    {
        let chars = chars_of(s);
        if is_float_literal(chars.as_slice()) {
            Some(FloatLiteral { text: s.to_owned() })
        } else {
            None
        }
    }

    /// The literal, which is well formed.
    pub fn as_str(&self) -> (s: &str)
        ensures
            s@ == self@,
            float_literal(s@),
    {
        proof {
            use_type_invariant(self);
        }
        self.text.as_str()
    }
}

impl Clone for FloatLiteral {
    fn clone(&self) -> (r: Self)
        ensures
            r@ == self@,
    {
        proof {
            use_type_invariant(self);
        }
        FloatLiteral { text: self.text.clone() }
    }
}

/// A number: exactly one of the two kinds, chosen when the numeral was read.
#[derive(Debug)]
pub enum Number {
    Int(i64),
    Float(FloatLiteral),
}

/// The mathematical content of a [`Number`].
pub enum NumberModel {
    Int(i64),
    Float(Seq<char>),
}

impl Number {
    /// The mathematical content of the number.
    pub open spec fn view(&self) -> NumberModel {
        match self {
            Number::Int(i) => NumberModel::Int(*i),
            Number::Float(f) => NumberModel::Float(f@),
        }
    }

    /// The integer, if the number is one.
    pub fn try_into_int(self) -> (r: Result<i64, ParseError>)
        ensures
            match r {
                Ok(i) => self@ == NumberModel::Int(i),
                Err(e) => !(self@ is Int) && e@ == Failure::expected("Number::Int"@),
            },
    {
        match self {
            Number::Int(i) => Ok(i),
            _ => Err(ParseError::expected("Number::Int")),
        }
    }

    /// The floating-point number, if the number is one.
    pub fn try_into_float(self) -> (r: Result<FloatLiteral, ParseError>)
        ensures
            match r {
                Ok(f) => self@ == NumberModel::Float(f@),
                Err(e) => !(self@ is Float) && e@ == Failure::expected("Number::Float"@),
            },
    {
        match self {
            Number::Float(f) => Ok(f),
            _ => Err(ParseError::expected("Number::Float")),
        }
    }
}

impl Clone for Number {
    fn clone(&self) -> (r: Self)
        ensures
            r@ == self@,
    {
        match self {
            Number::Int(i) => Number::Int(*i),
            Number::Float(f) => Number::Float(f.clone()),
        }
    }
}

/// The mathematical content of a [`JsonValue`]: a tree whose objects are
/// mappings, so that the order of an object's members plays no part in it.
pub enum JsonModel {
    String(Seq<char>),
    Number(NumberModel),
    Bool(bool),
    Null,
    Object(Map<Seq<char>, JsonModel>),
    Array(Seq<JsonModel>),
    InValidLocation,
}

impl JsonModel {
    /// The member `key` of an object; the sentinel where there is none or
    /// where the tree is no object.
    pub open spec fn lookup(self, key: Seq<char>) -> JsonModel {
        match self {
            JsonModel::Object(members) => if members.dom().contains(key) {
                members[key]
            } else {
                JsonModel::InValidLocation
            },
            _ => JsonModel::InValidLocation,
        }
    }
}

/// An object: its members, each under a key of its own.
#[derive(Debug)]
pub struct JsonObject {
    entries: Vec<(String, JsonValue)>,
}

/// A decoded value.
#[derive(Debug)]
pub enum JsonValue {
    String(String),
    Number(Number),
    Bool(bool),
    Null,
    Object(JsonObject),
    Array(Vec<JsonValue>),
    /// What a lookup yields that found nothing.  Decoding never produces it.
    InValidLocation,
}

/// The trees of a list of values.
pub open spec fn values_model(values: Seq<JsonValue>) -> Seq<JsonModel>
    decreases values, 0int,
{
    Seq::new(
        values.len(),
        |i: int|
            if 0 <= i < values.len() {
                values[i].view()
            } else {
                JsonModel::Null
            },
    )
}

/// The keys and trees of a list of entries.
pub open spec fn pairs_model(pairs: Seq<(String, JsonValue)>) -> Seq<(Seq<char>, JsonModel)>
    decreases pairs, 0int,
{
    Seq::new(
        pairs.len(),
        |i: int|
            if 0 <= i < pairs.len() {
                (pairs[i].0@, pairs[i].1.view())
            } else {
                (Seq::empty(), JsonModel::Null)
            },
    )
}

impl JsonValue {
    /// The tree that the value is.
    pub open spec fn view(&self) -> JsonModel
        decreases self, 0int,
    {
        match self {
            JsonValue::String(s) => JsonModel::String(s@),
            JsonValue::Number(n) => JsonModel::Number(n@),
            JsonValue::Bool(b) => JsonModel::Bool(*b),
            JsonValue::Null => JsonModel::Null,
            JsonValue::Object(o) => JsonModel::Object(o.view()),
            JsonValue::Array(v) => JsonModel::Array(values_model(v@)),
            JsonValue::InValidLocation => JsonModel::InValidLocation,
        }
    }
}

impl JsonObject {
    #[verifier::type_invariant]
    spec fn keys_are_distinct(&self) -> bool {
        distinct_keys(pairs_model(self.entries@))
    }

    /// The mapping from each key to the tree of its member.
    pub closed spec fn view(&self) -> Map<Seq<char>, JsonModel>
        decreases self, 0int,
    {
        entries_map(pairs_model(self.entries@))
    }

    /// The object without members.
    pub fn new() -> (r: Self)
        ensures
            r@ == Map::<Seq<char>, JsonModel>::empty(),
    {
        JsonObject { entries: Vec::new() }
    }

    /// The number of members.
    pub fn len(&self) -> (n: usize)
        ensures
            self@.dom().finite(),
            n == self@.len(),
    {
        proof {
            use_type_invariant(self);
            lemma_entries_map_len(pairs_model(self.entries@));
        }
        self.entries.len()
    }

    /// Whether the object has no members.
    pub fn is_empty(&self) -> (b: bool)
        ensures
            b == (self@ == Map::<Seq<char>, JsonModel>::empty()),
    {
        proof {
            use_type_invariant(self);
            lemma_entries_map_len(pairs_model(self.entries@));
            if self.entries@.len() == 0 {
                assert(self@ =~= Map::<Seq<char>, JsonModel>::empty());
            }
        }
        self.entries.len() == 0
    }

    /// The member under `key`, if there is one.
    pub fn get(&self, key: &str) -> (r: Option<&JsonValue>)
        ensures
            match r {
                Some(v) => self@.dom().contains(key@) && self@[key@] == v@,
                None => !self@.dom().contains(key@),
            },
    {
        proof {
            use_type_invariant(self);
        }
        let ghost pairs = pairs_model(self.entries@);
        let mut i: usize = 0;
        while i < self.entries.len()
            invariant
                i <= self.entries.len(),
                pairs == pairs_model(self.entries@),
                distinct_keys(pairs),
                forall|j: int| 0 <= j < i ==> (#[trigger] pairs[j]).0 != key@,
            decreases self.entries.len() - i,
        {
            if same_text(self.entries[i].0.as_str(), key) {
                proof {
                    lemma_entries_map_lookup(pairs, i as int);
                }
                return Some(&self.entries[i].1);
            }
            i += 1;
        }
        proof {
            lemma_entries_map_dom(pairs);
        }
        None
    }

    /// Puts `value` under `key`, in place of the member that was there, if
    /// there was one.
    pub fn insert(&mut self, key: String, value: JsonValue)
        ensures
            final(self)@ == old(self)@.insert(key@, value@),
    {
        proof {
            use_type_invariant(&*self);
        }
        let mut entries: Vec<(String, JsonValue)> = Vec::new();
        assert(pairs_model(entries@) =~= Seq::empty());
        core::mem::swap(&mut self.entries, &mut entries);
        let ghost pairs = pairs_model(entries@);
        let mut i: usize = 0;
        while i < entries.len()
            invariant
                i <= entries.len(),
                pairs == pairs_model(entries@),
                forall|j: int| 0 <= j < i ==> (#[trigger] pairs[j]).0 != key@,
            ensures
                i <= entries.len(),
                forall|j: int| 0 <= j < i ==> (#[trigger] pairs[j]).0 != key@,
                i < entries.len() ==> pairs[i as int].0 == key@,
            decreases entries.len() - i,
        {
            if entries[i].0 == key {
                break ;
            }
            i += 1;
        }
        if i < entries.len() {
            proof {
                lemma_entries_map_update(pairs, i as int, value@);
            }
            entries.set(i, (key, value));
            assert(pairs_model(entries@) =~= pairs.update(i as int, (key@, value@)));
        } else {
            proof {
                lemma_entries_map_push(pairs, key@, value@);
                let pushed = pairs.push((key@, value@));
                assert forall|a: int, b: int| 0 <= a < b < pushed.len() implies (
                #[trigger] pushed[a]).0 != (#[trigger] pushed[b]).0 by {
                    if b < pairs.len() {
                        assert(pairs[a].0 != pairs[b].0);
                    } else {
                        assert(pairs[a].0 != key@);
                    }
                }
            }
            entries.push((key, value));
            assert(pairs_model(entries@) =~= pairs.push((key@, value@)));
        }
        core::mem::swap(&mut self.entries, &mut entries);
    }

    /// The members with their keys.  No key occurs twice.
    pub fn into_entries(self) -> (r: Vec<(String, JsonValue)>)
        ensures
            distinct_keys(pairs_model(r@)),
            entries_map(pairs_model(r@)) == self@,
    {
        proof {
            use_type_invariant(&self);
        }
        self.entries
    }
}

/// A copy of each value of `values`.
fn clone_values(values: &Vec<JsonValue>) -> (r: Vec<JsonValue>)
    ensures
        values_model(r@) == values_model(values@),
    decreases values,
{
    let mut out: Vec<JsonValue> = Vec::new();
    let mut i: usize = 0;
    while i < values.len()
        invariant
            i <= values.len(),
            out.len() == i,
            forall|j: int| 0 <= j < i ==> out[j]@ == values[j]@,
        decreases values.len() - i,
    {
        let copy = values[i].clone();
        out.push(copy);
        i += 1;
    }
    assert(values_model(out@) =~= values_model(values@));
    out
}

impl Clone for JsonObject {
    fn clone(&self) -> (r: Self)
        ensures
            r@ == self@,
        decreases self,
    {
        proof {
            use_type_invariant(self);
        }
        let mut entries: Vec<(String, JsonValue)> = Vec::new();
        let mut i: usize = 0;
        while i < self.entries.len()
            invariant
                i <= self.entries.len(),
                entries.len() == i,
                forall|j: int|
                    0 <= j < i ==> entries[j].0@ == self.entries[j].0@ && entries[j].1@
                        == self.entries[j].1@,
            decreases self.entries.len() - i,
        {
            let key = self.entries[i].0.clone();
            let value = self.entries[i].1.clone();
            entries.push((key, value));
            i += 1;
        }
        assert(pairs_model(entries@) =~= pairs_model(self.entries@));
        JsonObject { entries }
    }
}

impl Clone for JsonValue {
    fn clone(&self) -> (r: Self)
        ensures
            r@ == self@,
        decreases self,
    {
        match self {
            JsonValue::String(s) => JsonValue::String(s.clone()),
            JsonValue::Number(n) => JsonValue::Number(n.clone()),
            JsonValue::Bool(b) => JsonValue::Bool(*b),
            JsonValue::Null => JsonValue::Null,
            JsonValue::Object(o) => JsonValue::Object(o.clone()),
            JsonValue::Array(v) => JsonValue::Array(clone_values(v)),
            JsonValue::InValidLocation => JsonValue::InValidLocation,
        }
    }
}

impl JsonValue {
    /// The member `key` of an object.  Where `self` is no object, or has no
    /// such member, the result is the sentinel, so that lookups can be
    /// chained without a test in between.
    pub fn index(&self, key: &str) -> (r: &JsonValue)
        ensures
            r@ == self@.lookup(key@),
    {
        match self {
            JsonValue::Object(members) => match members.get(key) {
                Some(value) => value,
                None => &JsonValue::InValidLocation,
            },
            _ => &JsonValue::InValidLocation,
        }
    }

    /// The text, if the value is a string.
    pub fn try_into_string(self) -> (r: Result<String, ParseError>)
        ensures
            match r {
                Ok(s) => self@ == JsonModel::String(s@),
                Err(e) => !(self@ is String) && e@ == Failure::expected("JsonValue::String"@),
            },
    {
        match self {
            JsonValue::String(s) => Ok(s),
            _ => Err(ParseError::expected("JsonValue::String")),
        }
    }

    /// The number, if the value is one.
    pub fn try_into_number(self) -> (r: Result<Number, ParseError>)
        ensures
            match r {
                Ok(n) => self@ == JsonModel::Number(n@),
                Err(e) => !(self@ is Number) && e@ == Failure::expected("JsonValue::Number"@),
            },
    {
        match self {
            JsonValue::Number(n) => Ok(n),
            _ => Err(ParseError::expected("JsonValue::Number")),
        }
    }

    /// The boolean, if the value is one.
    pub fn try_into_bool(self) -> (r: Result<bool, ParseError>)
        ensures
            match r {
                Ok(b) => self@ == JsonModel::Bool(b),
                Err(e) => !(self@ is Bool) && e@ == Failure::expected("JsonValue::Bool"@),
            },
    {
        match self {
            JsonValue::Bool(b) => Ok(b),
            _ => Err(ParseError::expected("JsonValue::Bool")),
        }
    }

    /// The object, if the value is one.
    pub fn try_into_object(self) -> (r: Result<JsonObject, ParseError>)
        ensures
            match r {
                Ok(o) => self@ == JsonModel::Object(o@),
                Err(e) => !(self@ is Object) && e@ == Failure::expected("JsonValue::Object"@),
            },
    {
        match self {
            JsonValue::Object(o) => Ok(o),
            _ => Err(ParseError::expected("JsonValue::Object")),
        }
    }

    /// The elements, if the value is an array.
    pub fn try_into_array(self) -> (r: Result<Vec<JsonValue>, ParseError>)
        ensures
            match r {
                Ok(v) => self@ == JsonModel::Array(values_model(v@)),
                Err(e) => !(self@ is Array) && e@ == Failure::expected("JsonValue::Array"@),
            },
    {
        match self {
            JsonValue::Array(v) => Ok(v),
            _ => Err(ParseError::expected("JsonValue::Array")),
        }
    }
}

} // verus!
