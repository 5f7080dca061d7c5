use vstd::prelude::*;
use std::collections::VecDeque;
use crate::err::JsonParseError;
use crate::token::{TokenType, TokenView, Tokenizer, scan, tokens_view};
pub use crate::value::{JsonValue, Value};
use crate::value::{entries_view, keys_unique, value_wf, values_view};

verus! {

/// Where the object parser stands: the kind of token it accepted last.
#[derive(Clone, Copy)]
pub enum ObjectState {
    /// The opening brace.
    Begin,
    /// A key, which now waits for its colon.
    Key,
    /// The colon after a key.
    Colon,
    /// A member's value.
    Value,
    /// A comma between members.
    Comma,
}

/// Where the array parser stands: the kind of token it accepted last.
#[derive(Clone, Copy)]
pub enum ArrayState {
    /// The opening bracket.
    Begin,
    /// An element.
    Value,
    /// A comma between elements.
    Comma,
}

pub open spec fn is_scalar(t: TokenView) -> bool {
    t is Null || t is Boolean || t is Number || t is Str
}

/// The value that a scalar token stands for.
pub open spec fn scalar_value(t: TokenView) -> JsonValue {
    match t {
        TokenView::Boolean(b) => JsonValue::Boolean(b),
        TokenView::Number(n) => JsonValue::Number(n),
        TokenView::Str(s) => JsonValue::Str(s),
        _ => JsonValue::Null,
    }
}

/// The object that the tokens `ts` complete, from the state `st` with the
/// pending key `key` and the members `acc` read so far, together with the
/// tokens after its closing brace; or the first error met.
pub open spec fn object_from(
    ts: Seq<TokenView>,
    st: ObjectState,
    key: Seq<char>,
    acc: Map<Seq<char>, JsonValue>,
) -> Result<(JsonValue, Seq<TokenView>), JsonParseError>
    decreases ts.len(),
{
    if ts.len() == 0 {
        Err(JsonParseError::ExpectedValue)
    } else {
        let t = ts[0];
        let rest = ts.drop_first();
        if (st is Begin || st is Comma) && t is Str {
            object_from(rest, ObjectState::Key, t->Str_0, acc)
        } else if st is Key && t is Colon {
            object_from(rest, ObjectState::Colon, key, acc)
        } else if st is Colon && is_scalar(t) {
            object_from(rest, ObjectState::Value, Seq::empty(), acc.insert(key, scalar_value(t)))
        } else if st is Colon && (t is BeginObject || t is BeginArray) {
            let inner = if t is BeginObject {
                object_from(rest, ObjectState::Begin, Seq::empty(), Map::empty())
            } else {
                array_from(rest, ArrayState::Begin, Seq::empty())
            };
            match inner {
                Err(e) => Err(e),
                Ok((v, after)) => if after.len() < ts.len() {
                    object_from(after, ObjectState::Value, Seq::empty(), acc.insert(key, v))
                } else {
                    Err(JsonParseError::InvalidValue)
                },
            }
        } else if (st is Begin || st is Value) && t is Comma {
            object_from(rest, ObjectState::Comma, key, acc)
        } else if (st is Begin || st is Key || st is Value) && t is EndObject {
            Ok((JsonValue::Object(acc), rest))
        } else {
            Err(JsonParseError::InvalidValue)
        }
    }
}

/// The array that the tokens `ts` complete, from the state `st` with the
/// elements `acc` read so far, together with the tokens after its closing
/// bracket; or the first error met.
pub open spec fn array_from(ts: Seq<TokenView>, st: ArrayState, acc: Seq<JsonValue>) -> Result<
    (JsonValue, Seq<TokenView>),
    JsonParseError,
>
    decreases ts.len(),
{
    if ts.len() == 0 {
        Err(JsonParseError::ExpectedValue)
    } else {
        let t = ts[0];
        let rest = ts.drop_first();
        if (st is Begin || st is Comma) && is_scalar(t) {
            array_from(rest, ArrayState::Value, acc.push(scalar_value(t)))
        } else if (st is Begin || st is Comma) && (t is BeginObject || t is BeginArray) {
            let inner = if t is BeginObject {
                object_from(rest, ObjectState::Begin, Seq::empty(), Map::empty())
            } else {
                array_from(rest, ArrayState::Begin, Seq::empty())
            };
            match inner {
                Err(e) => Err(e),
                Ok((v, after)) => if after.len() < ts.len() {
                    array_from(after, ArrayState::Value, acc.push(v))
                } else {
                    Err(JsonParseError::InvalidValue)
                },
            }
        } else if !(st is Comma) && t is Comma {
            array_from(rest, ArrayState::Comma, acc)
        } else if !(st is Comma) && t is EndArray {
            Ok((JsonValue::Array(acc), rest))
        } else {
            Err(JsonParseError::InvalidValue)
        }
    }
}

/// A container's value, where no token is left after it.
pub open spec fn root_only(r: Result<(JsonValue, Seq<TokenView>), JsonParseError>) -> Result<
    JsonValue,
    JsonParseError,
> {
    match r {
        Ok((v, rest)) => if rest.len() == 0 {
            Ok(v)
        } else {
            Err(JsonParseError::RootNotSingular)
        },
        Err(e) => Err(e),
    }
}

/// The document that the tokens `ts` make up.
pub open spec fn parse_tokens(ts: Seq<TokenView>) -> Result<JsonValue, JsonParseError> {
    if ts.len() == 0 {
        Err(JsonParseError::ExpectedValue)
    } else if ts.len() == 1 {
        if is_scalar(ts[0]) {
            Ok(scalar_value(ts[0]))
        } else if ts[0] is BeginObject || ts[0] is BeginArray {
            Err(JsonParseError::ExpectedValue)
        } else {
            Err(JsonParseError::InvalidValue)
        }
    } else if ts[0] is BeginObject {
        root_only(object_from(ts.drop_first(), ObjectState::Begin, Seq::empty(), Map::empty()))
    } else if ts[0] is BeginArray {
        root_only(array_from(ts.drop_first(), ArrayState::Begin, Seq::empty()))
    } else if ts[0] is EndArray || ts[0] is Colon || ts[0] is Comma || ts[0] is EndObject {
        Err(JsonParseError::InvalidValue)
    } else {
        Err(JsonParseError::RootNotSingular)
    }
}

/// The document that the text `s` holds.
pub open spec fn parse_text(s: Seq<char>) -> Result<JsonValue, JsonParseError> {
    match scan(s) {
        Ok(ts) => parse_tokens(ts),
        Err(e) => Err(e),
    }
}

/// The members `s` are those of a well-formed object.
pub open spec fn members_wf(s: Seq<(String, Value)>) -> bool {
    keys_unique(s) && forall|i: int| 0 <= i < s.len() ==> value_wf(#[trigger] s[i].1)
}

/// Whether the parser's result `r`, with the tokens `rest` left, agrees
/// with the modelled result `m`.
pub open spec fn parsed(
    r: Result<Value, JsonParseError>,
    m: Result<(JsonValue, Seq<TokenView>), JsonParseError>,
    rest: Seq<TokenView>,
) -> bool {
    match m {
        Ok((v, after)) => r is Ok && r->Ok_0@ == v && rest == after,
        Err(e) => r is Err && r->Err_0 == e,
    }
}

proof fn lemma_values_view_push(s: Seq<Value>, v: Value)
    ensures
        values_view(s.push(v)) == values_view(s).push(v@),
{
    assert(s.push(v).subrange(0, s.len() as int) =~= s);
}

proof fn lemma_entries_view_push(s: Seq<(String, Value)>, p: (String, Value))
    ensures
        entries_view(s.push(p)) == entries_view(s).insert(p.0@, p.1@),
{
    assert(s.push(p).subrange(0, s.len() as int) =~= s);
}

/// With unique keys, putting a new pair in the place of the one with the
/// same key overrides that key in the map.
proof fn lemma_entries_view_update(s: Seq<(String, Value)>, i: int, p: (String, Value))
    requires
        keys_unique(s),
        0 <= i < s.len(),
        s[i].0@ == p.0@,
    ensures
        entries_view(s.update(i, p)) == entries_view(s).insert(p.0@, p.1@),
    decreases s.len(),
{
    let n = s.len() - 1;
    let init = s.subrange(0, n);
    let u = s.update(i, p);
    assert(u.subrange(0, n) =~= if i == n { init } else { init.update(i, p) });
    if i < n {
        assert(keys_unique(init));
        lemma_entries_view_update(init, i, p);
        assert(s[n].0@ != p.0@);
        assert(entries_view(u) =~= entries_view(s).insert(p.0@, p.1@));
    } else {
        assert(entries_view(u) =~= entries_view(s).insert(p.0@, p.1@));
    }
}

/// Sets `key` to `value` among the members `map`: in place of the member
/// with that key, else as a new member at the end.
fn insert_member(map: &mut Vec<(String, Value)>, key: String, value: Value)
    requires
        members_wf(old(map)@),
        value_wf(value),
    ensures
        members_wf(final(map)@),
        entries_view(final(map)@) == entries_view(old(map)@).insert(key@, value@),
{
    let mut i: usize = 0;
    while i < map.len()
        invariant
            *map == *old(map),
            members_wf(map@),
            value_wf(value),
            i <= map.len(),
            forall|j: int| 0 <= j < i ==> map@[j].0@ != key@,
        decreases map.len() - i,
    {
        if map[i].0 == key {
            let ghost s = map@;
            proof {
                lemma_entries_view_update(s, i as int, (key, value));
            }
            map[i] = (key, value);
            assert(map@ == s.update(i as int, (key, value)));
            assert(forall|j: int| 0 <= j < map@.len() ==> (#[trigger] map@[j]).0@ == s[j].0@);
            assert(keys_unique(map@));
            assert forall|j: int| 0 <= j < map@.len() implies value_wf(#[trigger] map@[j].1) by {
                if j != i {
                    assert(map@[j] == s[j]);
                }
            }
            return;
        }
        i = i + 1;
    }
    let ghost s = map@;
    proof {
        lemma_entries_view_push(s, (key, value));
    }
    map.push((key, value));
}

/// Binds the pending `key` (leaving it empty) to `value` among `map`.
fn bind(map: &mut Vec<(String, Value)>, key: &mut String, value: Value)
    requires
        members_wf(old(map)@),
        value_wf(value),
    ensures
        members_wf(final(map)@),
        entries_view(final(map)@) == entries_view(old(map)@).insert(old(key)@, value@),
        final(key)@ == Seq::<char>::empty(),
{
    let mut k = String::new();
    std::mem::swap(&mut k, key);
    insert_member(map, k, value);
}

/// The parser from text to value.
pub struct JsonParse {}

impl JsonParse {
    /// Decodes the text `json` as one JSON document.
    pub fn parse(json: &str) -> (r: Result<Value, JsonParseError>)
        ensures
            r is Ok <==> parse_text(json@) is Ok,
            r is Ok ==> r->Ok_0@ == parse_text(json@)->Ok_0,
            r is Err ==> r->Err_0 == parse_text(json@)->Err_0,
            r is Ok ==> value_wf(r->Ok_0),
    {
        match Tokenizer::from(json) {
            Err(err) => Err(err),
            Ok(mut tokens) => {
                let ghost ts = tokens_view(tokens@);
                if tokens.len() == 1 {
                    match tokens.pop_front() {
                        Some(TokenType::STRING(s)) => Ok(Value::STRING(s)),
                        Some(TokenType::BOOLEAN(b)) => Ok(Value::BOOLEAN(b)),
                        Some(TokenType::NULL) => Ok(Value::NULL),
                        Some(TokenType::NUMBER(n)) => Ok(Value::NUMBER(n)),
                        Some(TokenType::BeginObject) | Some(TokenType::BeginArray) => Err(
                            JsonParseError::ExpectedValue,
                        ),
                        _ => Err(JsonParseError::InvalidValue),
                    }
                } else {
                    match tokens.pop_front() {
                        None => Err(JsonParseError::ExpectedValue),
                        Some(TokenType::BeginObject) => {
                            assert(tokens_view(tokens@) =~= ts.drop_first());
                            let r = JsonParse::parse_object(&mut tokens);
                            JsonParse::single_root(r, &tokens)
                        },
                        Some(TokenType::BeginArray) => {
                            assert(tokens_view(tokens@) =~= ts.drop_first());
                            let r = JsonParse::parse_array(&mut tokens);
                            JsonParse::single_root(r, &tokens)
                        },
                        Some(TokenType::EndArray) | Some(TokenType::SepColon) | Some(
                            TokenType::SepComma,
                        ) | Some(TokenType::EndObject) => Err(JsonParseError::InvalidValue),
                        _ => Err(JsonParseError::RootNotSingular),
                    }
                }
            },
        }
    }

    /// Accepts a root container only where no token follows it.
    fn single_root(r: Result<Value, JsonParseError>, tokens: &VecDeque<TokenType>) -> (res: Result<
        Value,
        JsonParseError,
    >)
        ensures
            r is Ok && tokens@.len() == 0 ==> res == r,
            r is Ok && tokens@.len() > 0 ==> res == Err::<Value, JsonParseError>(
                JsonParseError::RootNotSingular,
            ),
            r is Err ==> res == r,
    {
        match r {
            Ok(v) => if tokens.len() == 0 {
                Ok(v)
            } else {
                Err(JsonParseError::RootNotSingular)
            },
            Err(e) => Err(e),
        }
    }

    /// Reads the members of an object whose opening brace is already taken,
    /// up to and with its closing brace.
    fn parse_object(tokens: &mut VecDeque<TokenType>) -> (r: Result<Value, JsonParseError>)
        ensures
            parsed(
                r,
                object_from(
                    tokens_view(old(tokens)@),
                    ObjectState::Begin,
                    Seq::empty(),
                    Map::empty(),
                ),
                tokens_view(final(tokens)@),
            ),
            r is Ok ==> final(tokens)@.len() < old(tokens)@.len(),
            r is Ok ==> value_wf(r->Ok_0),
        decreases old(tokens)@.len(),
    {
        let ghost ts0 = tokens_view(tokens@);
        let mut map: Vec<(String, Value)> = Vec::new();
        let mut now_token = ObjectState::Begin;
        let mut key = String::new();
        assert(entries_view(map@) =~= Map::empty());
        loop
            invariant
                ts0 == tokens_view(old(tokens)@),
                tokens@.len() <= old(tokens)@.len(),
                members_wf(map@),
                object_from(ts0, ObjectState::Begin, Seq::empty(), Map::empty()) == object_from(
                    tokens_view(tokens@),
                    now_token,
                    key@,
                    entries_view(map@),
                ),
            decreases tokens@.len(),
        {
            let ghost cur = tokens_view(tokens@);
            let token = match tokens.pop_front() {
                Some(token) => token,
                None => return Err(JsonParseError::ExpectedValue),
            };
            assert(tokens_view(tokens@) =~= cur.drop_first());
            assert(cur[0] == token@);
            match token {
                TokenType::STRING(s) if matches!(now_token, ObjectState::Begin | ObjectState::Comma) => {
                    key = s;
                    now_token = ObjectState::Key;
                },
                TokenType::SepColon if matches!(now_token, ObjectState::Key) => {
                    now_token = ObjectState::Colon;
                },
                TokenType::NULL if matches!(now_token, ObjectState::Colon) => {
                    bind(&mut map, &mut key, Value::NULL);
                    now_token = ObjectState::Value;
                },
                TokenType::BOOLEAN(b) if matches!(now_token, ObjectState::Colon) => {
                    bind(&mut map, &mut key, Value::BOOLEAN(b));
                    now_token = ObjectState::Value;
                },
                TokenType::NUMBER(n) if matches!(now_token, ObjectState::Colon) => {
                    bind(&mut map, &mut key, Value::NUMBER(n));
                    now_token = ObjectState::Value;
                },
                TokenType::STRING(s) if matches!(now_token, ObjectState::Colon) => {
                    bind(&mut map, &mut key, Value::STRING(s));
                    now_token = ObjectState::Value;
                },
                TokenType::BeginObject if matches!(now_token, ObjectState::Colon) => {
                    let value = match JsonParse::parse_object(&mut *tokens) {
                        Ok(value) => value,
                        Err(err) => return Err(err),
                    };
                    bind(&mut map, &mut key, value);
                    now_token = ObjectState::Value;
                },
                TokenType::BeginArray if matches!(now_token, ObjectState::Colon) => {
                    let value = match JsonParse::parse_array(&mut *tokens) {
                        Ok(value) => value,
                        Err(err) => return Err(err),
                    };
                    bind(&mut map, &mut key, value);
                    now_token = ObjectState::Value;
                },
                TokenType::SepComma if matches!(now_token, ObjectState::Begin | ObjectState::Value) => {
                    now_token = ObjectState::Comma;
                },
                TokenType::EndObject if matches!(
                    now_token,
                    ObjectState::Begin | ObjectState::Key | ObjectState::Value
                ) => {
                    assert(has_resolved(tokens));
                    return Ok(Value::OBJECT(map));
                },
                _ => return Err(JsonParseError::InvalidValue),
            }
        }
    }

    /// Reads the elements of an array whose opening bracket is already taken,
    /// up to and with its closing bracket.
    fn parse_array(tokens: &mut VecDeque<TokenType>) -> (r: Result<Value, JsonParseError>)
        ensures
            parsed(
                r,
                array_from(tokens_view(old(tokens)@), ArrayState::Begin, Seq::empty()),
                tokens_view(final(tokens)@),
            ),
            r is Ok ==> final(tokens)@.len() < old(tokens)@.len(),
            r is Ok ==> value_wf(r->Ok_0),
        decreases old(tokens)@.len(),
    {
        let ghost ts0 = tokens_view(tokens@);
        let mut array: Vec<Value> = Vec::new();
        let mut now_token = ArrayState::Begin;
        assert(values_view(array@) =~= Seq::empty());
        loop
            invariant
                ts0 == tokens_view(old(tokens)@),
                tokens@.len() <= old(tokens)@.len(),
                forall|i: int| 0 <= i < array@.len() ==> value_wf(#[trigger] array@[i]),
                array_from(ts0, ArrayState::Begin, Seq::empty()) == array_from(
                    tokens_view(tokens@),
                    now_token,
                    values_view(array@),
                ),
            decreases tokens@.len(),
        {
            let ghost cur = tokens_view(tokens@);
            let token = match tokens.pop_front() {
                Some(token) => token,
                None => return Err(JsonParseError::ExpectedValue),
            };
            assert(tokens_view(tokens@) =~= cur.drop_first());
            assert(cur[0] == token@);
            let ghost before = array@;
            match token {
                TokenType::NUMBER(n) if matches!(now_token, ArrayState::Begin | ArrayState::Comma) => {
                    array.push(Value::NUMBER(n));
                    proof { lemma_values_view_push(before, Value::NUMBER(n)); }
                    now_token = ArrayState::Value;
                },
                TokenType::STRING(s) if matches!(now_token, ArrayState::Begin | ArrayState::Comma) => {
                    let value = Value::STRING(s);
                    proof { lemma_values_view_push(before, value); }
                    array.push(value);
                    now_token = ArrayState::Value;
                },
                TokenType::NULL if matches!(now_token, ArrayState::Begin | ArrayState::Comma) => {
                    array.push(Value::NULL);
                    proof { lemma_values_view_push(before, Value::NULL); }
                    now_token = ArrayState::Value;
                },
                TokenType::BOOLEAN(b) if matches!(now_token, ArrayState::Begin | ArrayState::Comma) => {
                    array.push(Value::BOOLEAN(b));
                    proof { lemma_values_view_push(before, Value::BOOLEAN(b)); }
                    now_token = ArrayState::Value;
                },
                TokenType::BeginObject if matches!(now_token, ArrayState::Begin | ArrayState::Comma) => {
                    let value = match JsonParse::parse_object(&mut *tokens) {
                        Ok(value) => value,
                        Err(err) => return Err(err),
                    };
                    proof { lemma_values_view_push(before, value); }
                    array.push(value);
                    now_token = ArrayState::Value;
                },
                TokenType::BeginArray if matches!(now_token, ArrayState::Begin | ArrayState::Comma) => {
                    let value = match JsonParse::parse_array(&mut *tokens) {
                        Ok(value) => value,
                        Err(err) => return Err(err),
                    };
                    proof { lemma_values_view_push(before, value); }
                    array.push(value);
                    now_token = ArrayState::Value;
                },
                TokenType::SepComma if !matches!(now_token, ArrayState::Comma) => {
                    now_token = ArrayState::Comma;
                },
                TokenType::EndArray if !matches!(now_token, ArrayState::Comma) => {
                    assert(has_resolved(tokens));
                    return Ok(Value::ARRAY(array));
                },
                _ => return Err(JsonParseError::InvalidValue),
            }
        }
    }
}

} // verus!
