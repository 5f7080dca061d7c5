use vstd::prelude::*;
use std::collections::VecDeque;
use crate::char_reader::{CharReader, skip_spaces};
use crate::err::JsonParseError;

verus! {

/// A lexical unit of JSON text.
#[derive(Debug, PartialEq)]
pub enum TokenType {
    BeginObject,
    EndObject,
    BeginArray,
    EndArray,
    NULL,
    NUMBER(i64),
    STRING(String),
    BOOLEAN(bool),
    /// `:`
    SepColon,
    /// `,`
    SepComma,
    /// The end of the text; the scanner never hands it out.
    EndDocument,
}

/// The mathematical model of a token.
pub enum TokenView {
    BeginObject,
    EndObject,
    BeginArray,
    EndArray,
    Null,
    Number(i64),
    Str(Seq<char>),
    Boolean(bool),
    Colon,
    Comma,
    EndDocument,
}

impl View for TokenType {
    type V = TokenView;

    open spec fn view(&self) -> TokenView {
        match self {
            TokenType::BeginObject => TokenView::BeginObject,
            TokenType::EndObject => TokenView::EndObject,
            TokenType::BeginArray => TokenView::BeginArray,
            TokenType::EndArray => TokenView::EndArray,
            TokenType::NULL => TokenView::Null,
            TokenType::NUMBER(n) => TokenView::Number(*n),
            TokenType::STRING(s) => TokenView::Str(s@),
            TokenType::BOOLEAN(b) => TokenView::Boolean(*b),
            TokenType::SepColon => TokenView::Colon,
            TokenType::SepComma => TokenView::Comma,
            TokenType::EndDocument => TokenView::EndDocument,
        }
    }
}

/// The models of a sequence of tokens, in order.
pub open spec fn tokens_view(ts: Seq<TokenType>) -> Seq<TokenView> {
    ts.map_values(|t: TokenType| t@)
}

pub open spec fn is_digit(c: char) -> bool {
    '0' <= c <= '9'
}

pub open spec fn all_digits(d: Seq<char>) -> bool {
    forall|i: int| 0 <= i < d.len() ==> is_digit(#[trigger] d[i])
}

/// The number that a string of decimal digits spells.
pub open spec fn digits_value(d: Seq<char>) -> int
    decreases d.len(),
{
    if d.len() == 0 {
        0
    } else {
        digits_value(d.drop_last()) * 10 + (d.last() as int - '0' as int)
    }
}

/// The 64-bit integer that `text` spells: an optional minus sign, then one
/// or more decimal digits; `None` where the text has another shape or the
/// number does not fit.
pub open spec fn integer_of(text: Seq<char>) -> Option<i64> {
    let negative = text.len() > 0 && text[0] == '-';
    let d = if negative { text.drop_first() } else { text };
    let v = if negative { -digits_value(d) } else { digits_value(d) };
    if d.len() > 0 && all_digits(d) && i64::MIN <= v <= i64::MAX {
        Some(v as i64)
    } else {
        None
    }
}

/// The decimal digits at the front of `s`.
pub open spec fn leading_digits(s: Seq<char>) -> Seq<char>
    decreases s.len(),
{
    if s.len() > 0 && is_digit(s[0]) {
        seq![s[0]] + leading_digits(s.drop_first())
    } else {
        Seq::empty()
    }
}

/// Splits `s` at its first double quote: the text before it, and the text
/// after it; `None` where `s` holds no double quote.
pub open spec fn split_at_quote(s: Seq<char>) -> Option<(Seq<char>, Seq<char>)>
    decreases s.len(),
{
    if s.len() == 0 {
        None
    } else if s[0] == '"' {
        Some((Seq::empty(), s.drop_first()))
    } else {
        match split_at_quote(s.drop_first()) {
            Some((a, b)) => Some((seq![s[0]] + a, b)),
            None => None,
        }
    }
}

/// Whether `s` begins with `word`.
pub open spec fn starts_with(s: Seq<char>, word: Seq<char>) -> bool {
    s.len() >= word.len() && s.take(word.len() as int) == word
}

/// The token that the keyword `word` stands for, where `s` (the text after
/// the keyword's first character) goes on with the rest of it.
pub open spec fn scan_keyword(s: Seq<char>, word: Seq<char>, tok: TokenView) -> Result<
    (TokenView, Seq<char>),
    JsonParseError,
> {
    if starts_with(s, word) {
        Ok((tok, s.skip(word.len() as int)))
    } else {
        Err(JsonParseError::InvalidValue)
    }
}

/// The first token of `t`, which is not empty and does not start with a
/// space, and the text that follows it.
pub open spec fn scan_token(t: Seq<char>) -> Result<(TokenView, Seq<char>), JsonParseError> {
    let c = t[0];
    let r = t.drop_first();
    if c == '{' {
        Ok((TokenView::BeginObject, r))
    } else if c == '}' {
        Ok((TokenView::EndObject, r))
    } else if c == '[' {
        Ok((TokenView::BeginArray, r))
    } else if c == ']' {
        Ok((TokenView::EndArray, r))
    } else if c == ',' {
        Ok((TokenView::Comma, r))
    } else if c == ':' {
        Ok((TokenView::Colon, r))
    } else if c == 'n' {
        scan_keyword(r, seq!['u', 'l', 'l'], TokenView::Null)
    } else if c == 't' {
        scan_keyword(r, seq!['r', 'u', 'e'], TokenView::Boolean(true))
    } else if c == 'f' {
        scan_keyword(r, seq!['a', 'l', 's', 'e'], TokenView::Boolean(false))
    } else if c == '"' {
        match split_at_quote(r) {
            Some((body, rest)) => Ok((TokenView::Str(body), rest)),
            None => Err(JsonParseError::ExpectedValue),
        }
    } else if c == '-' || is_digit(c) {
        let d = leading_digits(r);
        match integer_of(seq![c] + d) {
            Some(n) => Ok((TokenView::Number(n), r.skip(d.len() as int))),
            None => Err(JsonParseError::InvalidValue),
        }
    } else {
        Err(JsonParseError::InvalidValue)
    }
}

/// The tokens of the text `s`, or the first error met while scanning it.
pub open spec fn scan(s: Seq<char>) -> Result<Seq<TokenView>, JsonParseError>
    decreases s.len(),
{
    let t = skip_spaces(s);
    if t.len() == 0 {
        Ok(Seq::empty())
    } else {
        match scan_token(t) {
            Err(e) => Err(e),
            Ok((tok, rest)) => if rest.len() < s.len() {
                match scan(rest) {
                    Ok(ts) => Ok(seq![tok] + ts),
                    Err(e) => Err(e),
                }
            } else {
                Err(JsonParseError::InvalidValue)
            },
        }
    }
}

/// `r` preceded by the tokens `prefix`, errors left as they are.
pub open spec fn after_tokens(prefix: Seq<TokenView>, r: Result<Seq<TokenView>, JsonParseError>) -> Result<
    Seq<TokenView>,
    JsonParseError,
> {
    match r {
        Ok(ts) => Ok(prefix + ts),
        Err(e) => Err(e),
    }
}

/// `o` with `prefix` put before the text in front of the quote.
pub open spec fn after_text(prefix: Seq<char>, o: Option<(Seq<char>, Seq<char>)>) -> Option<
    (Seq<char>, Seq<char>),
> {
    match o {
        Some((a, b)) => Some((prefix + a, b)),
        None => None,
    }
}

/// Whether the scanner's result `r`, with the text `rest` left unread,
/// agrees with the modelled result `m`.
pub open spec fn scanned(
    r: Result<TokenType, JsonParseError>,
    m: Result<(TokenView, Seq<char>), JsonParseError>,
    rest: Seq<char>,
) -> bool {
    match m {
        Ok((tok, after)) => r is Ok && r->Ok_0@ == tok && rest == after,
        Err(e) => r == Err::<TokenType, JsonParseError>(e),
    }
}

proof fn lemma_skip_spaces_suffix(s: Seq<char>)
    ensures
        skip_spaces(s).len() <= s.len(),
        skip_spaces(s) == s.skip(s.len() - skip_spaces(s).len()),
    decreases s.len(),
{
    if s.len() > 0 && s[0] == ' ' {
        lemma_skip_spaces_suffix(s.drop_first());
        let t = skip_spaces(s);
        assert(s.drop_first().skip(s.drop_first().len() - t.len()) =~= s.skip(s.len() - t.len()));
    } else {
        assert(s.skip(0) =~= s);
    }
}

proof fn lemma_leading_digits(s: Seq<char>)
    ensures
        leading_digits(s).len() <= s.len(),
        leading_digits(s) == s.take(leading_digits(s).len() as int),
        all_digits(leading_digits(s)),
    decreases s.len(),
{
    if s.len() > 0 && is_digit(s[0]) {
        let r = s.drop_first();
        lemma_leading_digits(r);
        let d = leading_digits(s);
        assert(d =~= s.take(d.len() as int));
        assert forall|i: int| 0 <= i < d.len() implies is_digit(#[trigger] d[i]) by {
            if i > 0 {
                assert(d[i] == leading_digits(r)[i - 1]);
            }
        }
    } else {
        assert(s.take(0) =~= Seq::<char>::empty());
    }
}

proof fn lemma_split_at_quote(s: Seq<char>)
    ensures
        match split_at_quote(s) {
            Some((_, rest)) => rest.len() < s.len(),
            None => true,
        },
    decreases s.len(),
{
    if s.len() > 0 && s[0] != '"' {
        lemma_split_at_quote(s.drop_first());
    }
}

proof fn lemma_scan_token_shrinks(t: Seq<char>)
    requires
        t.len() > 0,
    ensures
        match scan_token(t) {
            Ok((_, rest)) => rest.len() < t.len(),
            Err(_) => true,
        },
{
    lemma_split_at_quote(t.drop_first());
    lemma_leading_digits(t.drop_first());
}

proof fn lemma_digits_value_take(d: Seq<char>, k: int)
    requires
        0 <= k < d.len(),
    ensures
        digits_value(d.take(k + 1)) == digits_value(d.take(k)) * 10 + (d[k] as int - '0' as int),
{
    assert(d.take(k + 1).drop_last() =~= d.take(k));
}

proof fn lemma_digits_value_nonneg(d: Seq<char>)
    requires
        all_digits(d),
    ensures
        digits_value(d) >= 0,
    decreases d.len(),
{
    if d.len() > 0 {
        assert(all_digits(d.drop_last())) by {
            assert forall|i: int| 0 <= i < d.drop_last().len() implies is_digit(
                #[trigger] d.drop_last()[i],
            ) by {
                assert(is_digit(d[i]));
            }
        }
        lemma_digits_value_nonneg(d.drop_last());
        assert(is_digit(d[d.len() - 1]));
    }
}

/// More digits never make a smaller number.
proof fn lemma_digits_value_grows(d: Seq<char>, k: int)
    requires
        all_digits(d),
        0 <= k <= d.len(),
    ensures
        digits_value(d.take(k)) <= digits_value(d),
    decreases d.len() - k,
{
    if k < d.len() {
        lemma_digits_value_grows(d, k + 1);
        lemma_digits_value_take(d, k);
        assert(all_digits(d.take(k))) by {
            assert forall|i: int| 0 <= i < d.take(k).len() implies is_digit(
                #[trigger] d.take(k)[i],
            ) by {
                assert(is_digit(d[i]));
            }
        }
        lemma_digits_value_nonneg(d.take(k));
        assert(is_digit(d[k]));
    } else {
        assert(d.take(k) =~= d);
    }
}

proof fn lemma_digits_step(b0: Seq<char>, t: Seq<char>, b: Seq<char>)
    requires
        t.len() >= 1,
        t.len() - 1 <= b0.len(),
        b == b0.skip(t.len() - 1),
        b.len() > 0,
        is_digit(b[0]),
        leading_digits(b0) == t.drop_first() + leading_digits(b),
    ensures
        t.len() <= b0.len(),
        b.drop_first() == b0.skip(t.len() as int),
        leading_digits(b0) == t.push(b[0]).drop_first() + leading_digits(b.drop_first()),
{
    assert(t.drop_first() + leading_digits(b) =~= t.push(b[0]).drop_first() + leading_digits(
        b.drop_first(),
    ));
    assert(b.drop_first() =~= b0.skip(t.len() as int));
}

/// Relies on `String::push`: appends one character.
#[verifier::external_body]
fn push_char(s: &mut String, c: char)
    ensures
        final(s)@ == old(s)@.push(c),
{
    s.push(c)
}

/// Reads `text` as a 64-bit integer: an optional minus sign, then decimal
/// digits.
pub fn parse_integer(text: &Vec<char>) -> (r: Option<i64>)
    ensures
        r == integer_of(text@),
{
    let n = text.len();
    if n == 0 {
        return None;
    }
    let negative = text[0] == '-';
    let start: usize = if negative { 1 } else { 0 };
    let ghost d = if negative { text@.drop_first() } else { text@ };
    assert(d =~= text@.skip(start as int));
    if start >= n {
        return None;
    }
    let mut magnitude: i128 = 0;
    let mut i: usize = start;
    assert(d.take(0) =~= Seq::<char>::empty());
    while i < n
        invariant
            start <= i <= n,
            n == text@.len(),
            negative == (text@[0] == '-'),
            start == (if negative { 1usize } else { 0usize }),
            d == (if negative { text@.drop_first() } else { text@ }),
            d == text@.skip(start as int),
            magnitude == digits_value(d.take(i - start)),
            all_digits(d.take(i - start)),
            0 <= magnitude <= 0x8000_0000_0000_0000,
        decreases n - i,
    {
        let c = text[i];
        assert(d[i - start] == c);
        if !('0' <= c && c <= '9') {
            assert(!is_digit(d[i - start]));
            assert(!all_digits(d));
            return None;
        }
        proof {
            lemma_digits_value_take(d, i - start);
            assert forall|j: int| 0 <= j < i + 1 - start implies is_digit(
                #[trigger] d.take(i + 1 - start)[j],
            ) by {
                if j < i - start {
                    assert(d.take(i - start)[j] == d[j]);
                }
            }
        }
        magnitude = magnitude * 10 + (c as i128 - '0' as i128);
        i = i + 1;
        if magnitude > 0x8000_0000_0000_0000 {
            proof {
                if all_digits(d) {
                    lemma_digits_value_grows(d, i - start);
                    assert(digits_value(d) > 0x8000_0000_0000_0000);
                }
            }
            return None;
        }
    }
    assert(d.take(i - start) =~= d);
    if negative {
        Some((-magnitude) as i64)
    } else if magnitude <= 0x7fff_ffff_ffff_ffff {
        Some(magnitude as i64)
    } else {
        None
    }
}

/// Turns a text into its sequence of tokens.
pub struct Tokenizer {
    buffer: CharReader,
    token_list: VecDeque<TokenType>,
}

impl Tokenizer {
    /// Scans the whole of `json_string`; the tokens in order, or the first
    /// error met.
    pub fn from(json_string: &str) -> (r: Result<VecDeque<TokenType>, JsonParseError>)
        ensures
            r is Ok <==> scan(json_string@) is Ok,
            r is Ok ==> tokens_view(r->Ok_0@) == scan(json_string@)->Ok_0,
            r is Err ==> r->Err_0 == scan(json_string@)->Err_0,
    {
        let mut tokenizer = Tokenizer {
            buffer: CharReader::new(json_string),
            token_list: VecDeque::new(),
        };
        assert(tokens_view(tokenizer.token_list@) =~= Seq::empty());
        assert(seq![] + Seq::<TokenView>::empty() =~= Seq::<TokenView>::empty());
        loop
            invariant
                tokenizer.buffer.wf(),
                scan(json_string@) == after_tokens(
                    tokens_view(tokenizer.token_list@),
                    scan(tokenizer.buffer@),
                ),
            ensures
                scan(json_string@) == Ok::<Seq<TokenView>, JsonParseError>(
                    tokens_view(tokenizer.token_list@),
                ),
            decreases tokenizer.buffer@.len(),
        {
            let ghost before = tokenizer.buffer@;
            proof {
                lemma_skip_spaces_suffix(before);
                if skip_spaces(before).len() > 0 {
                    lemma_scan_token_shrinks(skip_spaces(before));
                }
            }
            let token = tokenizer.charge();
            match token {
                Ok(TokenType::EndDocument) => {
                    assert(skip_spaces(before).len() == 0);
                    assert(skip_spaces(tokenizer.buffer@).len() == 0);
                    assert(scan(tokenizer.buffer@) == Ok::<Seq<TokenView>, JsonParseError>(Seq::empty()));
                    assert(tokens_view(tokenizer.token_list@) + Seq::<TokenView>::empty()
                        =~= tokens_view(tokenizer.token_list@));
                    break;
                },
                Ok(token) => {
                    let ghost prefix = tokens_view(tokenizer.token_list@);
                    tokenizer.token_list.push_back(token);
                    proof {
                        assert(tokens_view(tokenizer.token_list@) =~= prefix.push(token@));
                        match scan(tokenizer.buffer@) {
                            Ok(ts) => {
                                assert(prefix + (seq![token@] + ts) =~= prefix.push(token@)
                                    + ts);
                            },
                            Err(_) => {},
                        }
                    }
                },
                Err(err) => return Err(err),
            }
        }
        Ok(tokenizer.token_list)
    }

    /// The next token, or `EndDocument` where only spaces are left.
    fn charge(&mut self) -> (r: Result<TokenType, JsonParseError>)
        requires
            old(self).buffer.wf(),
        ensures
            final(self).buffer.wf(),
            final(self).token_list == old(self).token_list,
            skip_spaces(old(self).buffer@).len() == 0 ==> r == Ok::<
                TokenType,
                JsonParseError,
            >(TokenType::EndDocument) && final(self).buffer@.len() == 0,
            skip_spaces(old(self).buffer@).len() > 0 ==> scanned(
                r,
                scan_token(skip_spaces(old(self).buffer@)),
                final(self).buffer@,
            ),
    {
        self.buffer.whitespace();
        match self.buffer.next() {
            None => Ok(TokenType::EndDocument),
            Some(ch) => match ch {
                '{' => Ok(TokenType::BeginObject),
                '}' => Ok(TokenType::EndObject),
                '[' => Ok(TokenType::BeginArray),
                ']' => Ok(TokenType::EndArray),
                ',' => Ok(TokenType::SepComma),
                ':' => Ok(TokenType::SepColon),
                'n' => self.read_null(),
                '"' => self.read_string(),
                't' => self.read_true(),
                'f' => self.read_false(),
                '-' | '0' | '1' | '2' | '3' | '4' | '5' | '6' | '7' | '8' | '9' => {
                    self.read_number(ch)
                },
                _ => Err(JsonParseError::InvalidValue),
            },
        }
    }

    /// Consumes the lookahead character, and tells whether it was `c`.
    fn expect(&mut self, c: char) -> (r: bool)
        requires
            old(self).buffer.wf(),
        ensures
            final(self).buffer.wf(),
            final(self).token_list == old(self).token_list,
            r == (old(self).buffer@.len() > 0 && old(self).buffer@[0] == c),
            old(self).buffer@.len() > 0 ==> final(self).buffer@ == old(self).buffer@.drop_first(),
    {
        match self.buffer.next() {
            Some(ch) => ch == c,
            None => false,
        }
    }

    /// The rest of `null`, after its `n`.
    fn read_null(&mut self) -> (r: Result<TokenType, JsonParseError>)
        requires
            old(self).buffer.wf(),
        ensures
            final(self).buffer.wf(),
            final(self).token_list == old(self).token_list,
            scanned(r, scan_keyword(old(self).buffer@, seq!['u', 'l', 'l'], TokenView::Null), final(self).buffer@),
    {
        let ghost s = self.buffer@;
        if self.expect('u') && self.expect('l') && self.expect('l') {
            assert(s.take(3) =~= seq!['u', 'l', 'l']);
            assert(self.buffer@ =~= s.skip(3));
            Ok(TokenType::NULL)
        } else {
            proof {
                if starts_with(s, seq!['u', 'l', 'l']) {
                    assert(s.take(3)[0] == 'u' && s.take(3)[1] == 'l' && s.take(3)[2] == 'l');
                }
            }
            Err(JsonParseError::InvalidValue)
        }
    }

    /// The rest of `true`, after its `t`.
    fn read_true(&mut self) -> (r: Result<TokenType, JsonParseError>)
        requires
            old(self).buffer.wf(),
        ensures
            final(self).buffer.wf(),
            final(self).token_list == old(self).token_list,
            scanned(r, scan_keyword(old(self).buffer@, seq!['r', 'u', 'e'], TokenView::Boolean(true)), final(self).buffer@),
    {
        let ghost s = self.buffer@;
        if self.expect('r') && self.expect('u') && self.expect('e') {
            assert(s.take(3) =~= seq!['r', 'u', 'e']);
            assert(self.buffer@ =~= s.skip(3));
            Ok(TokenType::BOOLEAN(true))
        } else {
            proof {
                if starts_with(s, seq!['r', 'u', 'e']) {
                    assert(s.take(3)[0] == 'r' && s.take(3)[1] == 'u' && s.take(3)[2] == 'e');
                }
            }
            Err(JsonParseError::InvalidValue)
        }
    }

    /// The rest of `false`, after its `f`.
    fn read_false(&mut self) -> (r: Result<TokenType, JsonParseError>)
        requires
            old(self).buffer.wf(),
        ensures
            final(self).buffer.wf(),
            final(self).token_list == old(self).token_list,
            scanned(r, scan_keyword(old(self).buffer@, seq!['a', 'l', 's', 'e'], TokenView::Boolean(false)), final(self).buffer@),
    {
        let ghost s = self.buffer@;
        if self.expect('a') && self.expect('l') && self.expect('s') && self.expect('e') {
            assert(s.take(4) =~= seq!['a', 'l', 's', 'e']);
            assert(self.buffer@ =~= s.skip(4));
            Ok(TokenType::BOOLEAN(false))
        } else {
            proof {
                if starts_with(s, seq!['a', 'l', 's', 'e']) {
                    assert(s.take(4)[0] == 'a' && s.take(4)[1] == 'l' && s.take(4)[2] == 's'
                        && s.take(4)[3] == 'e');
                }
            }
            Err(JsonParseError::InvalidValue)
        }
    }

    /// The rest of a string, after its opening quote: every character up to
    /// the closing quote, taken as it stands.
    fn read_string(&mut self) -> (r: Result<TokenType, JsonParseError>)
        requires
            old(self).buffer.wf(),
        ensures
            final(self).buffer.wf(),
            final(self).token_list == old(self).token_list,
            scanned(
                r,
                match split_at_quote(old(self).buffer@) {
                    Some((body, rest)) => Ok((TokenView::Str(body), rest)),
                    None => Err(JsonParseError::ExpectedValue),
                },
                final(self).buffer@,
            ),
    {
        let mut s = String::new();
        assert(s@ + Seq::<char>::empty() =~= Seq::<char>::empty());
        loop
            invariant
                self.buffer.wf(),
                self.token_list == old(self).token_list,
                split_at_quote(old(self).buffer@) == after_text(s@, split_at_quote(self.buffer@)),
            decreases self.buffer@.len(),
        {
            let ghost b = self.buffer@;
            match self.buffer.next() {
                Some(ch) => {
                    if ch != '"' {
                        let ghost before = s@;
                        push_char(&mut s, ch);
                        proof {
                            match split_at_quote(self.buffer@) {
                                Some((a, rest)) => {
                                    assert(before + (seq![ch] + a) =~= s@ + a);
                                },
                                None => {},
                            }
                        }
                    } else {
                        assert(s@ + Seq::<char>::empty() =~= s@);
                        return Ok(TokenType::STRING(s));
                    }
                },
                None => return Err(JsonParseError::ExpectedValue),
            }
        }
    }

    /// The rest of a number, after its first character `peek`: the digits
    /// that follow, read as one integer.
    fn read_number(&mut self, peek: char) -> (r: Result<TokenType, JsonParseError>)
        requires
            old(self).buffer.wf(),
        ensures
            final(self).buffer.wf(),
            final(self).token_list == old(self).token_list,
            scanned(
                r,
                match integer_of(seq![peek] + leading_digits(old(self).buffer@)) {
                    Some(n) => Ok(
                        (
                            TokenView::Number(n),
                            old(self).buffer@.skip(leading_digits(old(self).buffer@).len() as int),
                        ),
                    ),
                    None => Err(JsonParseError::InvalidValue),
                },
                final(self).buffer@,
            ),
    {
        let ghost b0 = self.buffer@;
        let mut text: Vec<char> = Vec::new();
        text.push(peek);
        proof {
            lemma_leading_digits(b0);
            assert(text@.drop_first() + leading_digits(b0) =~= leading_digits(b0));
            assert(b0.skip(0) =~= b0);
        }
        loop
            invariant
                self.buffer.wf(),
                self.token_list == old(self).token_list,
                b0 == old(self).buffer@,
                text@.len() >= 1,
                text@[0] == peek,
                leading_digits(b0) == text@.drop_first() + leading_digits(self.buffer@),
                self.buffer@ == b0.skip(text@.len() - 1),
                text@.len() - 1 <= b0.len(),
            ensures
                self.buffer.wf(),
                self.token_list == old(self).token_list,
                text@.len() >= 1,
                text@[0] == peek,
                leading_digits(b0) == text@.drop_first() + leading_digits(self.buffer@),
                self.buffer@ == b0.skip(text@.len() - 1),
                self.buffer@.len() == 0 || !is_digit(self.buffer@[0]),
            decreases self.buffer@.len(),
        {
            match self.buffer.peek() {
                Some(ch) if '0' <= ch && ch <= '9' => {
                    let ghost b = self.buffer@;
                    let ghost t = text@;
                    text.push(ch);
                    self.buffer.pop();
                    proof {
                        lemma_digits_step(b0, t, b);
                    }
                },
                _ => break,
            }
        }
        assert(leading_digits(self.buffer@) =~= Seq::<char>::empty());
        assert(seq![peek] + leading_digits(b0) =~= text@);
        assert(leading_digits(b0).len() == text@.len() - 1);
        match parse_integer(&text) {
            Some(n) => Ok(TokenType::NUMBER(n)),
            None => Err(JsonParseError::InvalidValue),
        }
    }
}

} // verus!
