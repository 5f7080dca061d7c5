use vstd::prelude::*;

verus! {

/// Drops the plain spaces at the front of `s`.
pub open spec fn skip_spaces(s: Seq<char>) -> Seq<char>
    decreases s.len(),
{
    if s.len() > 0 && s[0] == ' ' {
        skip_spaces(s.drop_first())
    } else {
        s
    }
}

/// Relies on `str::chars`: the characters of the text, in order.
#[verifier::external_body]
fn chars_of(s: &str) -> (r: Vec<char>)
    ensures
        r@ == s@,
{
    s.chars().collect()
}

/// A cursor over a text with one character of lookahead.
pub struct CharReader {
    chars: Vec<char>,
    pos: usize,
}

impl View for CharReader {
    type V = Seq<char>;

    /// The characters that have not been consumed yet, lookahead first.
    closed spec fn view(&self) -> Seq<char> {
        self.chars@.skip(self.pos as int)
    }
}

impl CharReader {
    /// The cursor never stands past the end of its text.
    pub closed spec fn wf(&self) -> bool {
        self.pos <= self.chars.len()
    }

    pub fn new(json_string: &str) -> (r: Self)
        ensures
            r.wf(),
            r@ == json_string@,
    {
        let r = CharReader { chars: chars_of(json_string), pos: 0 };
        assert(r@ =~= json_string@);
        r
    }

    /// Consumes and returns the lookahead character.
    pub fn next(&mut self) -> (r: Option<char>)
        requires
            old(self).wf(),
        ensures
            final(self).wf(),
            old(self)@.len() == 0 ==> r is None && final(self)@.len() == 0,
            old(self)@.len() > 0 ==> r == Some(old(self)@[0]) && final(self)@ == old(self)@.drop_first(),
    {
        if self.pos < self.chars.len() {
            let c = self.chars[self.pos];
            self.pos = self.pos + 1;
            assert(self@ =~= old(self)@.drop_first());
            Some(c)
        } else {
            None
        }
    }

    /// Drops the lookahead character.
    pub fn pop(&mut self)
        requires
            old(self).wf(),
        ensures
            final(self).wf(),
            old(self)@.len() == 0 ==> final(self)@.len() == 0,
            old(self)@.len() > 0 ==> final(self)@ == old(self)@.drop_first(),
    {
        self.next();
    }

    /// The lookahead character, left in place.
    pub fn peek(&self) -> (r: Option<char>)
        requires
            self.wf(),
        ensures
            self@.len() == 0 ==> r is None,
            self@.len() > 0 ==> r == Some(self@[0]),
    {
        if self.pos < self.chars.len() {
            Some(self.chars[self.pos])
        } else {
            None
        }
    }

    /// Consumes the plain spaces (`' '` only) at the front.
    pub fn whitespace(&mut self)
        requires
            old(self).wf(),
        ensures
            final(self).wf(),
            final(self)@ == skip_spaces(old(self)@),
    {
        loop
            invariant
                self.wf(),
                skip_spaces(self@) == skip_spaces(old(self)@),
            ensures
                self.wf(),
                self@ == skip_spaces(old(self)@),
            decreases self@.len(),
        {
            match self.peek() {
                Some(ch) if ch == ' ' => self.pop(),
                _ => break,
            }
        }
    }
}

} // verus!
