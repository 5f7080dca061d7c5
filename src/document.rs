//! What the parser makes of well-formed texts: scalars, and documents of
//! nested arrays and objects written out as tokens.
use vstd::prelude::*;
use crate::char_reader::skip_spaces;
use crate::err::JsonParseError;
use crate::parse::{
    ArrayState, ObjectState, array_from, is_scalar, object_from, parse_text, parse_tokens,
};
use crate::token::{
    TokenView, all_digits, integer_of, is_digit, leading_digits, scan, scan_token, split_at_quote,
};
use crate::value::JsonValue;

verus! {

/// A well-formed JSON document: an object lists its members in the order
/// they are written, and may repeat a key.
pub enum Document {
    Null,
    Boolean(bool),
    Number(i64),
    Str(Seq<char>),
    Array(Seq<Document>),
    Object(Seq<(Seq<char>, Document)>),
}

/// The tokens that spell `d`.
pub open spec fn doc_tokens(d: Document) -> Seq<TokenView>
    decreases d,
{
    match d {
        Document::Null => seq![TokenView::Null],
        Document::Boolean(b) => seq![TokenView::Boolean(b)],
        Document::Number(n) => seq![TokenView::Number(n)],
        Document::Str(s) => seq![TokenView::Str(s)],
        Document::Array(items) => seq![TokenView::BeginArray] + items_tokens(items) + seq![
            TokenView::EndArray,
        ],
        Document::Object(ms) => seq![TokenView::BeginObject] + members_tokens(ms) + seq![
            TokenView::EndObject,
        ],
    }
}

/// The tokens of the elements `items`, separated by commas.
pub open spec fn items_tokens(items: Seq<Document>) -> Seq<TokenView>
    decreases items,
{
    if items.len() == 0 {
        Seq::empty()
    } else {
        doc_tokens(items[0]) + items_tail(items.subrange(1, items.len() as int))
    }
}

/// The tokens of the elements `items`, each after a comma.
pub open spec fn items_tail(items: Seq<Document>) -> Seq<TokenView>
    decreases items,
{
    if items.len() == 0 {
        Seq::empty()
    } else {
        seq![TokenView::Comma] + doc_tokens(items[0]) + items_tail(
            items.subrange(1, items.len() as int),
        )
    }
}

/// The tokens of the members `ms`, separated by commas.
pub open spec fn members_tokens(ms: Seq<(Seq<char>, Document)>) -> Seq<TokenView>
    decreases ms,
{
    if ms.len() == 0 {
        Seq::empty()
    } else {
        seq![TokenView::Str(ms[0].0), TokenView::Colon] + doc_tokens(ms[0].1) + members_tail(
            ms.subrange(1, ms.len() as int),
        )
    }
}

/// The tokens of the members `ms`, each after a comma.
pub open spec fn members_tail(ms: Seq<(Seq<char>, Document)>) -> Seq<TokenView>
    decreases ms,
{
    if ms.len() == 0 {
        Seq::empty()
    } else {
        seq![TokenView::Comma, TokenView::Str(ms[0].0), TokenView::Colon] + doc_tokens(ms[0].1)
            + members_tail(ms.subrange(1, ms.len() as int))
    }
}

/// The value that `d` stands for.
pub open spec fn doc_value(d: Document) -> JsonValue
    decreases d,
{
    match d {
        Document::Null => JsonValue::Null,
        Document::Boolean(b) => JsonValue::Boolean(b),
        Document::Number(n) => JsonValue::Number(n),
        Document::Str(s) => JsonValue::Str(s),
        Document::Array(items) => JsonValue::Array(items_into(Seq::empty(), items)),
        Document::Object(ms) => JsonValue::Object(members_into(Map::empty(), ms)),
    }
}

/// `acc` followed by the values of `items`, in order.
pub open spec fn items_into(acc: Seq<JsonValue>, items: Seq<Document>) -> Seq<JsonValue>
    decreases items,
{
    if items.len() == 0 {
        acc
    } else {
        items_into(acc.push(doc_value(items[0])), items.subrange(1, items.len() as int))
    }
}

/// `acc` with each member of `ms` set in turn: a later member overrides an
/// earlier one with the same key.
pub open spec fn members_into(acc: Map<Seq<char>, JsonValue>, ms: Seq<(Seq<char>, Document)>) -> Map<
    Seq<char>,
    JsonValue,
>
    decreases ms,
{
    if ms.len() == 0 {
        acc
    } else {
        members_into(
            acc.insert(ms[0].0, doc_value(ms[0].1)),
            ms.subrange(1, ms.len() as int),
        )
    }
}

/// A document in an element's place of an array: the parser takes its
/// tokens, appends its value, and goes on after them.
proof fn lemma_array_value(
    d: Document,
    st: ArrayState,
    acc: Seq<JsonValue>,
    after: Seq<TokenView>,
)
    requires
        st is Begin || st is Comma,
    ensures
        array_from(doc_tokens(d) + after, st, acc) == array_from(
            after,
            ArrayState::Value,
            acc.push(doc_value(d)),
        ),
    decreases d, 2int,
{
    let ts = doc_tokens(d) + after;
    assert(ts.drop_first() =~= doc_tokens(d).drop_first() + after);
    if d is Array || d is Object {
        lemma_container(d, after);
    }
}

/// A document in a member's value place of an object: the parser takes its
/// tokens, binds the pending key to its value, and goes on after them.
proof fn lemma_object_value(
    d: Document,
    key: Seq<char>,
    acc: Map<Seq<char>, JsonValue>,
    after: Seq<TokenView>,
)
    ensures
        object_from(doc_tokens(d) + after, ObjectState::Colon, key, acc) == object_from(
            after,
            ObjectState::Value,
            Seq::empty(),
            acc.insert(key, doc_value(d)),
        ),
    decreases d, 2int,
{
    let ts = doc_tokens(d) + after;
    assert(ts.drop_first() =~= doc_tokens(d).drop_first() + after);
    if d is Array || d is Object {
        lemma_container(d, after);
    }
}

/// After its opening token, a container's tokens parse to its value, and
/// the parser stops right after its closing token.
proof fn lemma_container(d: Document, after: Seq<TokenView>)
    ensures
        d is Array ==> array_from(doc_tokens(d).drop_first() + after, ArrayState::Begin, Seq::empty())
            == Ok::<(JsonValue, Seq<TokenView>), JsonParseError>((doc_value(d), after)),
        d is Object ==> object_from(
            doc_tokens(d).drop_first() + after,
            ObjectState::Begin,
            Seq::empty(),
            Map::empty(),
        ) == Ok::<(JsonValue, Seq<TokenView>), JsonParseError>((doc_value(d), after)),
    decreases d, 1int,
{
    match d {
        Document::Array(items) => {
            let ts = doc_tokens(d).drop_first() + after;
            let close = seq![TokenView::EndArray] + after;
            if items.len() == 0 {
                assert(ts =~= close);
                assert(close.drop_first() =~= after);
            } else {
                let tail = items.subrange(1, items.len() as int);
                assert(ts =~= doc_tokens(items[0]) + (items_tail(tail) + close));
                lemma_array_value(items[0], ArrayState::Begin, Seq::empty(), items_tail(tail) + close);
                lemma_items_tail(tail, seq![doc_value(items[0])], after);
                assert(Seq::<JsonValue>::empty().push(doc_value(items[0])) =~= seq![doc_value(items[0])]);
            }
        },
        Document::Object(ms) => {
            let ts = doc_tokens(d).drop_first() + after;
            let close = seq![TokenView::EndObject] + after;
            if ms.len() == 0 {
                assert(ts =~= close);
                assert(close.drop_first() =~= after);
            } else {
                let tail = ms.subrange(1, ms.len() as int);
                let value_on = doc_tokens(ms[0].1) + (members_tail(tail) + close);
                assert(ts =~= seq![TokenView::Str(ms[0].0), TokenView::Colon] + value_on);
                assert(ts.drop_first().drop_first() =~= value_on);
                let k = ms[0].0;
                let e = Map::<Seq<char>, JsonValue>::empty();
                assert(object_from(ts, ObjectState::Begin, Seq::empty(), e) == object_from(
                    ts.drop_first(),
                    ObjectState::Key,
                    k,
                    e,
                ));
                assert(object_from(ts.drop_first(), ObjectState::Key, k, e) == object_from(
                    value_on,
                    ObjectState::Colon,
                    k,
                    e,
                ));
                lemma_object_value(ms[0].1, ms[0].0, Map::empty(), members_tail(tail) + close);
                lemma_members_tail(
                    tail,
                    Map::<Seq<char>, JsonValue>::empty().insert(ms[0].0, doc_value(ms[0].1)),
                    after,
                );
            }
        },
        _ => {},
    }
}

/// The elements after the first one, each after its comma, then the
/// closing bracket.
proof fn lemma_items_tail(items: Seq<Document>, acc: Seq<JsonValue>, after: Seq<TokenView>)
    ensures
        array_from(items_tail(items) + (seq![TokenView::EndArray] + after), ArrayState::Value, acc)
            == Ok::<(JsonValue, Seq<TokenView>), JsonParseError>(
            (JsonValue::Array(items_into(acc, items)), after),
        ),
    decreases items, 0int,
{
    let close = seq![TokenView::EndArray] + after;
    let ts = items_tail(items) + close;
    if items.len() == 0 {
        assert(ts =~= close);
        assert(close.drop_first() =~= after);
    } else {
        let tail = items.subrange(1, items.len() as int);
        let value_on = doc_tokens(items[0]) + (items_tail(tail) + close);
        assert(ts =~= seq![TokenView::Comma] + value_on);
        assert(ts.drop_first() =~= value_on);
        lemma_array_value(items[0], ArrayState::Comma, acc, items_tail(tail) + close);
        lemma_items_tail(tail, acc.push(doc_value(items[0])), after);
    }
}

/// The members after the first one, each after its comma, then the closing
/// brace.
proof fn lemma_members_tail(
    ms: Seq<(Seq<char>, Document)>,
    acc: Map<Seq<char>, JsonValue>,
    after: Seq<TokenView>,
)
    ensures
        object_from(
            members_tail(ms) + (seq![TokenView::EndObject] + after),
            ObjectState::Value,
            Seq::empty(),
            acc,
        ) == Ok::<(JsonValue, Seq<TokenView>), JsonParseError>(
            (JsonValue::Object(members_into(acc, ms)), after),
        ),
    decreases ms, 0int,
{
    let close = seq![TokenView::EndObject] + after;
    let ts = members_tail(ms) + close;
    if ms.len() == 0 {
        assert(ts =~= close);
        assert(close.drop_first() =~= after);
    } else {
        let tail = ms.subrange(1, ms.len() as int);
        let value_on = doc_tokens(ms[0].1) + (members_tail(tail) + close);
        assert(ts =~= seq![TokenView::Comma, TokenView::Str(ms[0].0), TokenView::Colon]
            + value_on);
        assert(ts.drop_first().drop_first().drop_first() =~= value_on);
        let k = ms[0].0;
        let t1 = ts.drop_first();
        let t2 = t1.drop_first();
        assert(object_from(ts, ObjectState::Value, Seq::empty(), acc) == object_from(
            t1,
            ObjectState::Comma,
            Seq::empty(),
            acc,
        ));
        assert(object_from(t1, ObjectState::Comma, Seq::empty(), acc) == object_from(
            t2,
            ObjectState::Key,
            k,
            acc,
        ));
        assert(object_from(t2, ObjectState::Key, k, acc) == object_from(
            value_on,
            ObjectState::Colon,
            k,
            acc,
        ));
        lemma_object_value(ms[0].1, ms[0].0, acc, members_tail(tail) + close);
        lemma_members_tail(tail, acc.insert(ms[0].0, doc_value(ms[0].1)), after);
    }
}

/// Every well-formed document parses back to its value: each element in
/// its place, each member under its key, where a later member overrides an
/// earlier one with the same key; nothing is lost and nothing is added.
pub proof fn lemma_document_parses(s: Seq<char>, d: Document)
    requires
        scan(s) == Ok::<Seq<TokenView>, JsonParseError>(doc_tokens(d)),
    ensures
        parse_text(s) == Ok::<JsonValue, JsonParseError>(doc_value(d)),
{
    let ts = doc_tokens(d);
    assert(ts.drop_first() + Seq::<TokenView>::empty() =~= ts.drop_first());
    lemma_container(d, Seq::empty());
}

/// A successful parse uses up every token: a lone scalar, or one container
/// after whose closing token nothing is left.
pub proof fn lemma_parse_consumes_all(ts: Seq<TokenView>)
    requires
        parse_tokens(ts) is Ok,
    ensures
        ts.len() == 1 && is_scalar(ts[0]) || ts.len() > 1 && ts[0] is BeginObject && object_from(
            ts.drop_first(),
            ObjectState::Begin,
            Seq::empty(),
            Map::empty(),
        ) == Ok::<(JsonValue, Seq<TokenView>), JsonParseError>(
            (parse_tokens(ts)->Ok_0, Seq::empty()),
        ) || ts.len() > 1 && ts[0] is BeginArray && array_from(
            ts.drop_first(),
            ArrayState::Begin,
            Seq::empty(),
        ) == Ok::<(JsonValue, Seq<TokenView>), JsonParseError>(
            (parse_tokens(ts)->Ok_0, Seq::empty()),
        ),
{
    if ts.len() > 1 {
        let inner = if ts[0] is BeginObject {
            object_from(ts.drop_first(), ObjectState::Begin, Seq::empty(), Map::empty())
        } else {
            array_from(ts.drop_first(), ArrayState::Begin, Seq::empty())
        };
        match inner {
            Ok((v, rest)) => {
                assert(rest =~= Seq::<TokenView>::empty());
            },
            Err(_) => {},
        }
    }
}

/// A text made of one scalar token and nothing else parses to that scalar.
proof fn lemma_single_token(s: Seq<char>, tok: TokenView, v: JsonValue)
    requires
        s.len() > 0,
        s[0] != ' ',
        scan_token(s) == Ok::<(TokenView, Seq<char>), JsonParseError>((tok, Seq::empty())),
        is_scalar(tok),
        v == crate::parse::scalar_value(tok),
    ensures
        parse_text(s) == Ok::<JsonValue, JsonParseError>(v),
{
    assert(skip_spaces(s) == s);
    assert(skip_spaces(Seq::<char>::empty()) =~= Seq::<char>::empty());
    assert(scan(Seq::<char>::empty()) == Ok::<Seq<TokenView>, JsonParseError>(Seq::empty()));
    assert(seq![tok] + Seq::<TokenView>::empty() =~= seq![tok]);
    assert(scan(s) == Ok::<Seq<TokenView>, JsonParseError>(seq![tok]));
}

/// The keywords `null`, `true` and `false` parse to their values.
pub proof fn lemma_keywords_parse()
    ensures
        parse_text(seq!['n', 'u', 'l', 'l']) == Ok::<JsonValue, JsonParseError>(JsonValue::Null),
        parse_text(seq!['t', 'r', 'u', 'e']) == Ok::<JsonValue, JsonParseError>(
            JsonValue::Boolean(true),
        ),
        parse_text(seq!['f', 'a', 'l', 's', 'e']) == Ok::<JsonValue, JsonParseError>(
            JsonValue::Boolean(false),
        ),
{
    let null = seq!['n', 'u', 'l', 'l'];
    let t = seq!['t', 'r', 'u', 'e'];
    let f = seq!['f', 'a', 'l', 's', 'e'];
    assert(null.drop_first().take(3) =~= seq!['u', 'l', 'l']);
    assert(null.drop_first().skip(3) =~= Seq::<char>::empty());
    lemma_single_token(null, TokenView::Null, JsonValue::Null);
    assert(t.drop_first().take(3) =~= seq!['r', 'u', 'e']);
    assert(t.drop_first().skip(3) =~= Seq::<char>::empty());
    lemma_single_token(t, TokenView::Boolean(true), JsonValue::Boolean(true));
    assert(f.drop_first().take(4) =~= seq!['a', 'l', 's', 'e']);
    assert(f.drop_first().skip(4) =~= Seq::<char>::empty());
    lemma_single_token(f, TokenView::Boolean(false), JsonValue::Boolean(false));
}

proof fn lemma_split_at_closing_quote(body: Seq<char>)
    requires
        forall|i: int| 0 <= i < body.len() ==> body[i] != '"',
    ensures
        split_at_quote(body + seq!['"']) == Some((body, Seq::<char>::empty())),
    decreases body.len(),
{
    let t = body + seq!['"'];
    if body.len() == 0 {
        assert(t.drop_first() =~= Seq::<char>::empty());
    } else {
        assert(t.drop_first() =~= body.drop_first() + seq!['"']);
        lemma_split_at_closing_quote(body.drop_first());
        assert(seq![body[0]] + body.drop_first() =~= body);
    }
}

/// A quoted text without a double quote inside parses to that text.
pub proof fn lemma_string_parses(body: Seq<char>)
    requires
        forall|i: int| 0 <= i < body.len() ==> body[i] != '"',
    ensures
        parse_text(seq!['"'] + body + seq!['"']) == Ok::<JsonValue, JsonParseError>(
            JsonValue::Str(body),
        ),
{
    let t = seq!['"'] + body + seq!['"'];
    assert(t.drop_first() =~= body + seq!['"']);
    lemma_split_at_closing_quote(body);
    lemma_single_token(t, TokenView::Str(body), JsonValue::Str(body));
}

proof fn lemma_leading_digits_all(s: Seq<char>)
    requires
        all_digits(s),
    ensures
        leading_digits(s) == s,
    decreases s.len(),
{
    if s.len() > 0 {
        assert(is_digit(s[0]));
        assert(all_digits(s.drop_first())) by {
            assert forall|i: int| 0 <= i < s.drop_first().len() implies is_digit(
                #[trigger] s.drop_first()[i],
            ) by {
                assert(is_digit(s[i + 1]));
            }
        }
        lemma_leading_digits_all(s.drop_first());
        assert(seq![s[0]] + s.drop_first() =~= s);
    }
}

/// A 64-bit integer written in decimal, with or without a minus sign,
/// parses to that integer.
pub proof fn lemma_integer_parses(text: Seq<char>)
    requires
        integer_of(text) is Some,
    ensures
        parse_text(text) == Ok::<JsonValue, JsonParseError>(
            JsonValue::Number(integer_of(text)->0),
        ),
{
    let r = text.drop_first();
    let negative = text[0] == '-';
    if negative {
        lemma_leading_digits_all(r);
    } else {
        assert(is_digit(text[0]));
        assert(all_digits(r)) by {
            assert forall|i: int| 0 <= i < r.len() implies is_digit(#[trigger] r[i]) by {
                assert(is_digit(text[i + 1]));
            }
        }
        lemma_leading_digits_all(r);
    }
    assert(seq![text[0]] + r =~= text);
    assert(r.skip(r.len() as int) =~= Seq::<char>::empty());
    let tok = TokenView::Number(integer_of(text)->0);
    assert(scan_token(text) == Ok::<(TokenView, Seq<char>), JsonParseError>((tok, Seq::empty())));
    lemma_single_token(text, tok, JsonValue::Number(integer_of(text)->0));
}

} // verus!
