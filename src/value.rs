use vstd::prelude::*;

verus! {

/// The mathematical model of a decoded JSON value.
pub enum JsonValue {
    Null,
    Boolean(bool),
    Number(i64),
    Str(Seq<char>),
    Array(Seq<JsonValue>),
    Object(Map<Seq<char>, JsonValue>),
}

/// A decoded JSON value. An object holds its members as key/value pairs,
/// each key at most once (see `wf`).
#[derive(Debug)]
pub enum Value {
    NULL,
    BOOLEAN(bool),
    NUMBER(i64),
    STRING(String),
    ARRAY(Vec<Value>),
    OBJECT(Vec<(String, Value)>),
}

/// The model of a value.
pub open spec fn value_view(v: Value) -> JsonValue
    decreases v,
{
    match v {
        Value::NULL => JsonValue::Null,
        Value::BOOLEAN(b) => JsonValue::Boolean(b),
        Value::NUMBER(n) => JsonValue::Number(n),
        Value::STRING(s) => JsonValue::Str(s@),
        Value::ARRAY(a) => JsonValue::Array(values_view(a@)),
        Value::OBJECT(m) => JsonValue::Object(entries_view(m@)),
    }
}

/// The models of a sequence of values, in order.
pub open spec fn values_view(s: Seq<Value>) -> Seq<JsonValue>
    decreases s,
{
    if s.len() == 0 {
        Seq::empty()
    } else {
        values_view(s.subrange(0, s.len() - 1)).push(value_view(s[s.len() - 1]))
    }
}

/// The map that a list of members stands for: each pair in turn, a later
/// pair overriding an earlier one with the same key.
pub open spec fn entries_view(s: Seq<(String, Value)>) -> Map<Seq<char>, JsonValue>
    decreases s,
{
    if s.len() == 0 {
        Map::empty()
    } else {
        entries_view(s.subrange(0, s.len() - 1)).insert(
            s[s.len() - 1].0@,
            value_view(s[s.len() - 1].1),
        )
    }
}

/// No key stands twice among the members `s`.
pub open spec fn keys_unique(s: Seq<(String, Value)>) -> bool {
    forall|i: int, j: int| 0 <= i < j < s.len() ==> s[i].0@ != s[j].0@
}

/// Well-formedness of a value: in every object, at every depth, each key
/// stands at most once.
pub open spec fn value_wf(v: Value) -> bool
    decreases v,
{
    match v {
        Value::ARRAY(a) => forall|i: int| 0 <= i < a.len() ==> value_wf(#[trigger] a@[i]),
        Value::OBJECT(m) => keys_unique(m@) && forall|i: int|
            0 <= i < m.len() ==> value_wf(#[trigger] m@[i].1),
        _ => true,
    }
}

impl View for Value {
    type V = JsonValue;

    open spec fn view(&self) -> JsonValue {
        value_view(*self)
    }
}

impl Value {
    pub fn is_object(&self) -> (r: bool)
        ensures
            r == (self is OBJECT),
    {
        self.as_object().is_some()
    }

    /// The members of an object; `None` for any other variant.
    pub fn as_object(&self) -> (r: Option<&Vec<(String, Value)>>)
        ensures
            r is Some <==> self is OBJECT,
            r is Some ==> *r->0 == self->OBJECT_0,
    {
        match self {
            Value::OBJECT(map) => Some(map),
            _ => None,
        }
    }

    pub fn as_object_mut(&mut self) -> (r: Option<&mut Vec<(String, Value)>>)
        ensures
            r is Some <==> (*old(self)) is OBJECT,
            r is Some ==> *r->0 == old(self)->OBJECT_0 && *final(self) == Value::OBJECT(
                *final(r->0),
            ),
            r is None ==> *final(self) == *old(self),
    {
        match self {
            Value::OBJECT(map) => Some(map),
            _ => None,
        }
    }

    pub fn is_array(&self) -> (r: bool)
        ensures
            r == (self is ARRAY),
    {
        self.as_array().is_some()
    }

    /// The elements of an array; `None` for any other variant.
    pub fn as_array(&self) -> (r: Option<&Vec<Value>>)
        ensures
            r is Some <==> self is ARRAY,
            r is Some ==> *r->0 == self->ARRAY_0,
    {
        match self {
            Value::ARRAY(array) => Some(array),
            _ => None,
        }
    }

    pub fn as_array_mut(&mut self) -> (r: Option<&mut Vec<Value>>)
        ensures
            r is Some <==> (*old(self)) is ARRAY,
            r is Some ==> *r->0 == old(self)->ARRAY_0 && *final(self) == Value::ARRAY(
                *final(r->0),
            ),
            r is None ==> *final(self) == *old(self),
    {
        match self {
            Value::ARRAY(array) => Some(array),
            _ => None,
        }
    }

    pub fn is_string(&self) -> (r: bool)
        ensures
            r == (self is STRING),
    {
        self.as_string().is_some()
    }

    /// The text of a string; `None` for any other variant.
    pub fn as_string(&self) -> (r: Option<&str>)
        ensures
            r is Some <==> self is STRING,
            r is Some ==> r->0@ == self->STRING_0@,
    {
        match self {
            Value::STRING(s) => Some(s.as_str()),
            _ => None,
        }
    }

    pub fn as_string_mut(&mut self) -> (r: Option<&mut String>)
        ensures
            r is Some <==> (*old(self)) is STRING,
            r is Some ==> *r->0 == old(self)->STRING_0 && *final(self) == Value::STRING(
                *final(r->0),
            ),
            r is None ==> *final(self) == *old(self),
    {
        match self {
            Value::STRING(s) => Some(s),
            _ => None,
        }
    }

    pub fn is_number(&self) -> (r: bool)
        ensures
            r == (self is NUMBER),
    {
        self.as_number().is_some()
    }

    /// The integer of a number; `None` for any other variant.
    pub fn as_number(&self) -> (r: Option<&i64>)
        ensures
            r is Some <==> self is NUMBER,
            r is Some ==> *r->0 == self->NUMBER_0,
    {
        match self {
            Value::NUMBER(n) => Some(n),
            _ => None,
        }
    }

    pub fn is_boolean(&self) -> (r: bool)
        ensures
            r == (self is BOOLEAN),
    {
        self.as_boolean().is_some()
    }

    /// The truth value of a boolean; `None` for any other variant.
    pub fn as_boolean(&self) -> (r: Option<&bool>)
        ensures
            r is Some <==> self is BOOLEAN,
            r is Some ==> *r->0 == self->BOOLEAN_0,
    {
        match self {
            Value::BOOLEAN(b) => Some(b),
            _ => None,
        }
    }

    pub fn is_null(&self) -> (r: bool)
        ensures
            r == (self is NULL),
    {
        match self {
            Value::NULL => true,
            _ => false,
        }
    }
}

} // verus!
