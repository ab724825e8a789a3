use vstd::prelude::*;
use crate::error::{Error, LexError};
use crate::text::{chars_of, string_of};

verus! {

#[derive(Debug, PartialEq, Eq, Clone, Copy, Hash, Structural)]
pub enum TokenType {
    // Characters
    LeftParen,
    RightParen,
    ListBegin,
    ListEnd,
    RecordBegin,
    RecordEnd,
    Comma,
    Dot,
    Pipe,
    Semicolon,
    Equal,
    // Arithmetic operators
    Plus,
    Minus,
    Star,
    Slash,
    // Unary bool op.
    Bang,
    // Relational operators
    Greater,
    Lesser,
    GreaterEqual,
    LesserEqual,
    EqualEqual,
    BangEqual,
    // Keywords
    Or,
    And,
    // All rest
    Identifier,
    Variable,
    String,
    Number,
    Bool,
    Eof,
}

/// A token: its kind, the text it was cut from, and the line it starts on.
#[derive(Debug)]
pub struct Token {
    pub token_type: TokenType,
    pub lexeme: String,
    pub linenum: usize,
}

/// The content of a token: kind, text, line.
pub struct TokView {
    pub kind: TokenType,
    pub text: Seq<char>,
    pub line: usize,
}

impl View for Token {
    type V = TokView;

    open spec fn view(&self) -> TokView {
        TokView { kind: self.token_type, text: self.lexeme@, line: self.linenum }
    }
}

impl Clone for Token {
    fn clone(&self) -> (r: Self)
        ensures
            r@ == self@,
    {
        Token { token_type: self.token_type, lexeme: self.lexeme.clone(), linenum: self.linenum }
    }
}

pub open spec fn is_digit(c: char) -> bool {
    '0' <= c <= '9'
}

pub open spec fn is_alpha(c: char) -> bool {
    ('a' <= c <= 'z') || ('A' <= c <= 'Z')
}

pub open spec fn is_ident_char(c: char) -> bool {
    c == '_' || is_alpha(c) || is_digit(c)
}

/// The end of the run of identifier characters that starts at `i`.
pub open spec fn ident_end(s: Seq<char>, i: int) -> int
    decreases s.len() - i,
{
    if 0 <= i < s.len() && is_ident_char(s[i]) {
        ident_end(s, i + 1)
    } else {
        i
    }
}

/// The end of the run of digits that starts at `i`.
pub open spec fn digits_end(s: Seq<char>, i: int) -> int
    decreases s.len() - i,
{
    if 0 <= i < s.len() && is_digit(s[i]) {
        digits_end(s, i + 1)
    } else {
        i
    }
}

/// The index of the first newline at or after `i`, or the end of `s`.
pub open spec fn line_end(s: Seq<char>, i: int) -> int
    decreases s.len() - i,
{
    if 0 <= i < s.len() && s[i] != '\n' {
        line_end(s, i + 1)
    } else {
        i
    }
}

/// The index just past the first `"` at or after `i`, if there is one.
pub open spec fn quote_end(s: Seq<char>, i: int) -> Option<int>
    decreases s.len() - i,
{
    if i < 0 || i >= s.len() {
        None
    } else if s[i] == '"' {
        Some(i + 1)
    } else {
        quote_end(s, i + 1)
    }
}

/// The line of index `i`: one more than the newlines before it.
pub open spec fn line_at(s: Seq<char>, i: int) -> int
    decreases i,
{
    if i <= 0 || s.len() == 0 {
        1
    } else if i > s.len() {
        line_at(s, s.len() as int)
    } else {
        line_at(s, i - 1) + if s[i - 1] == '\n' { 1int } else { 0int }
    }
}

/// `line_at`, held to the range of `usize`.
pub open spec fn line_of(s: Seq<char>, i: int) -> usize {
    if line_at(s, i) > usize::MAX {
        usize::MAX
    } else {
        line_at(s, i) as usize
    }
}

/// Identifiers that are reserved words get their own kinds.
pub open spec fn word_kind(w: Seq<char>) -> TokenType {
    if w == seq!['t', 'r', 'u', 'e'] || w == seq!['f', 'a', 'l', 's', 'e'] {
        TokenType::Bool
    } else if w == seq!['o', 'r'] {
        TokenType::Or
    } else if w == seq!['a', 'n', 'd'] {
        TokenType::And
    } else {
        TokenType::Identifier
    }
}

/// One step of the lexer at index `i`.
pub enum Step {
    /// Nothing to emit (white space, a comment); go on at the index.
    Skip(int),
    /// A token of this kind spans from `i` to the index.
    Emit(TokenType, int),
    Fail(LexError),
}

pub open spec fn single(k: TokenType, i: int) -> Step {
    Step::Emit(k, i + 1)
}

/// A one-character token, or the two-character token when `=` follows.
pub open spec fn with_equal(s: Seq<char>, i: int, one: TokenType, two: TokenType) -> Step {
    if i + 1 < s.len() && s[i + 1] == '=' {
        Step::Emit(two, i + 2)
    } else {
        Step::Emit(one, i + 1)
    }
}

pub open spec fn number_step(s: Seq<char>, i: int) -> Step {
    let j = digits_end(s, i + 1);
    if j < s.len() && s[j] == '.' {
        if j + 1 < s.len() && is_digit(s[j + 1]) {
            Step::Emit(TokenType::Number, digits_end(s, j + 1))
        } else {
            Step::Fail(LexError::MalformedNumber)
        }
    } else {
        Step::Emit(TokenType::Number, j)
    }
}

/// What the lexer does with the character at index `i` (`0 <= i < s.len()`).
pub open spec fn step(s: Seq<char>, i: int) -> Step {
    let c = s[i];
    if c == '(' {
        single(TokenType::LeftParen, i)
    } else if c == ')' {
        single(TokenType::RightParen, i)
    } else if c == '[' {
        single(TokenType::ListBegin, i)
    } else if c == ']' {
        single(TokenType::ListEnd, i)
    } else if c == '{' {
        single(TokenType::RecordBegin, i)
    } else if c == '}' {
        single(TokenType::RecordEnd, i)
    } else if c == ',' {
        single(TokenType::Comma, i)
    } else if c == '.' {
        single(TokenType::Dot, i)
    } else if c == '|' {
        single(TokenType::Pipe, i)
    } else if c == '+' {
        single(TokenType::Plus, i)
    } else if c == '-' {
        single(TokenType::Minus, i)
    } else if c == '*' {
        single(TokenType::Star, i)
    } else if c == ';' {
        single(TokenType::Semicolon, i)
    } else if c == '/' {
        if i + 1 < s.len() && s[i + 1] == '/' {
            Step::Skip(line_end(s, i + 2))
        } else {
            single(TokenType::Slash, i)
        }
    } else if c == '=' {
        with_equal(s, i, TokenType::Equal, TokenType::EqualEqual)
    } else if c == '>' {
        with_equal(s, i, TokenType::Greater, TokenType::GreaterEqual)
    } else if c == '<' {
        with_equal(s, i, TokenType::Lesser, TokenType::LesserEqual)
    } else if c == '!' {
        with_equal(s, i, TokenType::Bang, TokenType::BangEqual)
    } else if c == '"' {
        match quote_end(s, i + 1) {
            Some(j) => Step::Emit(TokenType::String, j),
            None => Step::Fail(LexError::UnterminatedString),
        }
    } else if c == '_' || is_alpha(c) {
        let j = ident_end(s, i + 1);
        Step::Emit(word_kind(s.subrange(i, j)), j)
    } else if is_digit(c) {
        number_step(s, i)
    } else if c == '$' {
        if i + 1 < s.len() && is_alpha(s[i + 1]) {
            Step::Emit(TokenType::Variable, ident_end(s, i + 1))
        } else {
            Step::Fail(LexError::BadVariable)
        }
    } else if c == '@' {
        single(TokenType::Variable, i)
    } else if c == ' ' || c == '\t' || c == '\r' || c == '\n' {
        Step::Skip(i + 1)
    } else {
        Step::Fail(LexError::UnexpectedChar(c))
    }
}

proof fn lemma_ident_end(s: Seq<char>, i: int)
    requires
        0 <= i <= s.len(),
    ensures
        i <= ident_end(s, i) <= s.len(),
    decreases s.len() - i,
{
    if i < s.len() && is_ident_char(s[i]) {
        lemma_ident_end(s, i + 1);
    }
}

proof fn lemma_digits_end(s: Seq<char>, i: int)
    requires
        0 <= i <= s.len(),
    ensures
        i <= digits_end(s, i) <= s.len(),
    decreases s.len() - i,
{
    if i < s.len() && is_digit(s[i]) {
        lemma_digits_end(s, i + 1);
    }
}

proof fn lemma_line_end(s: Seq<char>, i: int)
    requires
        0 <= i <= s.len(),
    ensures
        i <= line_end(s, i) <= s.len(),
    decreases s.len() - i,
{
    if i < s.len() && s[i] != '\n' {
        lemma_line_end(s, i + 1);
    }
}

proof fn lemma_quote_end(s: Seq<char>, i: int)
    requires
        0 <= i <= s.len(),
    ensures
        quote_end(s, i) matches Some(j) ==> i < j <= s.len(),
    decreases s.len() - i,
{
    if i < s.len() && s[i] != '"' {
        lemma_quote_end(s, i + 1);
    }
}

/// Every step that does not fail moves forward and stays within the text.
proof fn lemma_step_advances(s: Seq<char>, i: int)
    requires
        0 <= i < s.len(),
    ensures
        step(s, i) matches Step::Skip(j) ==> i < j <= s.len(),
        step(s, i) matches Step::Emit(_, j) ==> i < j <= s.len(),
{
    lemma_ident_end(s, i + 1);
    lemma_digits_end(s, i + 1);
    if i + 2 <= s.len() {
        lemma_line_end(s, i + 2);
    }
    lemma_quote_end(s, i + 1);
    let j = digits_end(s, i + 1);
    if j + 1 < s.len() {
        lemma_digits_end(s, j + 1);
    }
}

/// A token's kind and span `[start, end)` in the text.
pub struct Span {
    pub kind: TokenType,
    pub start: int,
    pub end: int,
}

/// The failure of lexing `s`: its kind and the index where its token starts.
pub struct LexFailure {
    pub kind: LexError,
    pub at: int,
}

/// The tokens of `s` from index `i` on, ending with an empty `Eof` token at the
/// end of `s`; or the first failure.
pub open spec fn lex_from(s: Seq<char>, i: int) -> Result<Seq<Span>, LexFailure>
    decreases s.len() - i,
{
    if i < 0 || i >= s.len() {
        Ok(seq![Span { kind: TokenType::Eof, start: s.len() as int, end: s.len() as int }])
    } else {
        match step(s, i) {
            Step::Skip(j) => if i < j <= s.len() {
                lex_from(s, j)
            } else {
                Err(LexFailure { kind: LexError::BadVariable, at: i })
            },
            Step::Emit(k, j) => if i < j <= s.len() {
                match lex_from(s, j) {
                    Ok(rest) => Ok(seq![Span { kind: k, start: i, end: j }] + rest),
                    Err(e) => Err(e),
                }
            } else {
                Err(LexFailure { kind: LexError::BadVariable, at: i })
            },
            Step::Fail(e) => Err(LexFailure { kind: e, at: i }),
        }
    }
}

pub open spec fn prepend(pre: Seq<Span>, r: Result<Seq<Span>, LexFailure>) -> Result<Seq<Span>, LexFailure> {
    match r {
        Ok(rest) => Ok(pre + rest),
        Err(e) => Err(e),
    }
}

impl Token {
    /// This token was cut from `s` as `sp`.
    pub open spec fn from_span(self, s: Seq<char>, sp: Span) -> bool {
        &&& self.token_type == sp.kind
        &&& self.lexeme@ == s.subrange(sp.start, sp.end)
        &&& self.linenum == line_of(s, sp.start)
    }

    /// The text a literal or variable stands for.
    pub open spec fn literal_of(self) -> Seq<char> {
        let l = self.lexeme@;
        if self.token_type == TokenType::String && l.len() >= 2 {
            l.subrange(1, l.len() - 1)
        } else if self.token_type == TokenType::Variable && l.len() >= 1 && l[0] == '$' {
            l.subrange(1, l.len() as int)
        } else {
            l
        }
    }

    /// The text without its surrounding syntax: a string without its quotes, a
    /// `$name` variable without its `$`.
    pub fn literal(&self) -> (r: String)
        ensures
            r@ == self.literal_of(),
    {
        let l = chars_of(self.lexeme.as_str());
        let n = l.len();
        if self.token_type == TokenType::String && n >= 2 {
            string_of(&l, 1, n - 1)
        } else if self.token_type == TokenType::Variable && n >= 1 && l[0] == '$' {
            string_of(&l, 1, n)
        } else {
            proof {
                assert(l@.subrange(0, n as int) =~= l@);
            }
            string_of(&l, 0, n)
        }
    }
}

pub struct Lexer {
    query: Vec<char>,
    current: usize,
    start: usize,
    line: usize,
    /// The line of `start`.
    start_line: usize,
}

impl Lexer {
    pub closed spec fn text(&self) -> Seq<char> {
        self.query@
    }

    pub closed spec fn position(&self) -> int {
        self.current as int
    }

    pub closed spec fn wf(&self) -> bool {
        &&& self.start <= self.current <= self.query@.len()
        &&& self.line == line_of(self.query@, self.current as int)
        &&& self.start_line == line_of(self.query@, self.start as int)
    }

    pub fn new(query: &str) -> (r: Lexer)
        ensures
            r.wf(),
            0 <= r.position() <= r.text().len(),
            r.text() == query@,
            r.position() == 0,
    {
        let q = chars_of(query);
        Lexer { query: q, current: 0, start: 0, line: 1, start_line: 1 }
    }

    fn peek(&self) -> (r: Option<char>)
        ensures
            r == (if self.current < self.query@.len() {
                Some(self.query@[self.current as int])
            } else {
                None::<char>
            }),
    {
        if self.current < self.query.len() {
            Some(self.query[self.current])
        } else {
            None
        }
    }

    fn peek_next(&self) -> (r: Option<char>)
        ensures
            r == (if self.current + 1 < self.query@.len() {
                Some(self.query@[self.current + 1])
            } else {
                None::<char>
            }),
    {
        if self.current < self.query.len() && self.current + 1 < self.query.len() {
            Some(self.query[self.current + 1])
        } else {
            None
        }
    }

    proof fn lemma_line_step(s: Seq<char>, i: int)
        requires
            0 <= i < s.len(),
        ensures
            s[i] == '\n' ==> line_at(s, i + 1) == line_at(s, i) + 1,
            s[i] != '\n' ==> line_at(s, i + 1) == line_at(s, i),
            line_of(s, i) < usize::MAX ==> line_of(s, i) == line_at(s, i),
            line_of(s, i) == usize::MAX ==> line_at(s, i) >= usize::MAX,
    {
        Lexer::lemma_line_positive(s, i);
    }

    proof fn lemma_line_positive(s: Seq<char>, i: int)
        ensures
            line_at(s, i) >= 1,
        decreases i,
    {
        if i <= 0 || s.len() == 0 {
        } else if i > s.len() {
            Lexer::lemma_line_positive(s, s.len() as int);
        } else {
            Lexer::lemma_line_positive(s, i - 1);
        }
    }

    fn advance(&mut self) -> (r: Option<char>)
        requires
            old(self).wf(),
        ensures
            final(self).wf(),
            final(self).query == old(self).query,
            final(self).start == old(self).start,
            final(self).start_line == old(self).start_line,
            old(self).current < old(self).query@.len() ==> final(self).current == old(self).current + 1
                && r == Some(old(self).query@[old(self).current as int]),
            old(self).current >= old(self).query@.len() ==> final(self).current == old(self).current
                && r is None,
    {
        if self.current < self.query.len() {
            let c = self.query[self.current];
            proof {
                Lexer::lemma_line_step(self.query@, self.current as int);
            }
            if c == '\n' && self.line < usize::MAX {
                self.line = self.line + 1;
            }
            self.current = self.current + 1;
            Some(c)
        } else {
            None
        }
    }

    fn done(&self) -> (r: bool)
        ensures
            r == (self.current >= self.query@.len()),
    {
        self.current >= self.query.len()
    }

    /// Consumes identifier characters.
    fn identifier(&mut self)
        requires
            old(self).wf(),
        ensures
            final(self).wf(),
            final(self).query == old(self).query,
            final(self).start == old(self).start,
            final(self).current == ident_end(old(self).query@, old(self).current as int),
    {
        while self.current < self.query.len() && (self.query[self.current] == '_'
            || is_alpha_char(self.query[self.current]) || is_digit_char(self.query[self.current]))
            invariant
                self.wf(),
                self.query == old(self).query,
                self.start == old(self).start,
                ident_end(self.query@, self.current as int) == ident_end(
                    old(self).query@,
                    old(self).current as int,
                ),
            decreases self.query@.len() - self.current,
        {
            self.advance();
        }
    }

    /// Consumes digits.
    fn parse_digits(&mut self)
        requires
            old(self).wf(),
        ensures
            final(self).wf(),
            final(self).query == old(self).query,
            final(self).start == old(self).start,
            final(self).current == digits_end(old(self).query@, old(self).current as int),
    {
        while self.current < self.query.len() && is_digit_char(self.query[self.current])
            invariant
                self.wf(),
                self.query == old(self).query,
                self.start == old(self).start,
                digits_end(self.query@, self.current as int) == digits_end(
                    old(self).query@,
                    old(self).current as int,
                ),
            decreases self.query@.len() - self.current,
        {
            self.advance();
        }
    }

    /// Consumes up to (not including) the next newline.
    fn comment(&mut self)
        requires
            old(self).wf(),
        ensures
            final(self).wf(),
            final(self).query == old(self).query,
            final(self).start == old(self).start,
            final(self).current == line_end(old(self).query@, old(self).current as int),
    {
        while self.current < self.query.len() && self.query[self.current] != '\n'
            invariant
                self.wf(),
                self.query == old(self).query,
                self.start == old(self).start,
                line_end(self.query@, self.current as int) == line_end(
                    old(self).query@,
                    old(self).current as int,
                ),
            decreases self.query@.len() - self.current,
        {
            self.advance();
        }
    }

    /// Consumes the rest of a string literal, through its closing quote.
    fn string(&mut self) -> (r: Result<(), LexError>)
        requires
            old(self).wf(),
        ensures
            final(self).wf(),
            final(self).query == old(self).query,
            final(self).start == old(self).start,
            match quote_end(old(self).query@, old(self).current as int) {
                Some(j) => r is Ok && final(self).current == j,
                None => r == Err::<(), LexError>(LexError::UnterminatedString),
            },
    {
        while self.current < self.query.len()
            invariant
                self.wf(),
                self.query == old(self).query,
                self.start == old(self).start,
                quote_end(self.query@, self.current as int) == quote_end(
                    old(self).query@,
                    old(self).current as int,
                ),
            decreases self.query@.len() - self.current,
        {
            let c = self.advance();
            if c == Some('"') {
                return Ok(());
            }
        }
        Err(LexError::UnterminatedString)
    }

    /// Consumes the rest of a number: digits, then `.` and digits.
    fn number(&mut self) -> (r: Result<(), LexError>)
        requires
            old(self).wf(),
            old(self).current == old(self).start + 1,
            old(self).current <= old(self).query@.len(),
            is_digit(old(self).query@[old(self).start as int]),
        ensures
            final(self).wf(),
            final(self).query == old(self).query,
            final(self).start == old(self).start,
            match number_step(old(self).query@, old(self).start as int) {
                Step::Emit(_, j) => r is Ok && final(self).current == j,
                Step::Fail(e) => r == Err::<(), LexError>(e),
                Step::Skip(_) => false,
            },
    {
        self.parse_digits();
        if self.peek() == Some('.') {
            match self.peek_next() {
                Some(c) => {
                    if is_digit_char(c) {
                        self.advance();
                        self.parse_digits();
                        Ok(())
                    } else {
                        Err(LexError::MalformedNumber)
                    }
                },
                None => Err(LexError::MalformedNumber),
            }
        } else {
            Ok(())
        }
    }

    fn new_token(&self, token_type: TokenType) -> (r: Token)
        requires
            self.wf(),
        ensures
            r.from_span(
                self.query@,
                Span { kind: token_type, start: self.start as int, end: self.current as int },
            ),
    {
        Token {
            token_type,
            lexeme: string_of(&self.query, self.start, self.current),
            linenum: self.start_line,
        }
    }

    /// Whether the current token's text is `w`.
    fn span_is(&self, w: &Vec<char>) -> (r: bool)
        requires
            self.wf(),
        ensures
            r == (self.query@.subrange(self.start as int, self.current as int) == w@),
    {
        if self.current - self.start != w.len() {
            proof {
                assert(self.query@.subrange(self.start as int, self.current as int).len() != w@.len());
            }
            return false;
        }
        let mut i: usize = 0;
        while i < w.len()
            invariant
                self.wf(),
                self.current - self.start == w@.len(),
                i <= w@.len(),
                forall|k: int| 0 <= k < i ==> self.query@[self.start + k] == w@[k],
            decreases w@.len() - i,
        {
            if self.query[self.start + i] != w[i] {
                proof {
                    assert(self.query@.subrange(self.start as int, self.current as int)[i as int] != w@[i as int]);
                }
                return false;
            }
            i += 1;
        }
        proof {
            assert(self.query@.subrange(self.start as int, self.current as int) =~= w@);
        }
        true
    }

    fn word_type(&self) -> (r: TokenType)
        requires
            self.wf(),
        ensures
            r == word_kind(self.query@.subrange(self.start as int, self.current as int)),
    {
        if self.span_is(&vec!['t', 'r', 'u', 'e']) || self.span_is(&vec!['f', 'a', 'l', 's', 'e']) {
            TokenType::Bool
        } else if self.span_is(&vec!['o', 'r']) {
            TokenType::Or
        } else if self.span_is(&vec!['a', 'n', 'd']) {
            TokenType::And
        } else {
            TokenType::Identifier
        }
    }

    /// The token of `kind` after consuming a `=` that follows, else of `one`.
    fn with_equal(&mut self, one: TokenType, two: TokenType) -> (r: Token)
        requires
            old(self).wf(),
            old(self).current == old(self).start + 1,
        ensures
            final(self).wf(),
            final(self).query == old(self).query,
            final(self).start == old(self).start,
            match with_equal(old(self).query@, old(self).start as int, one, two) {
                Step::Emit(k, j) => final(self).current == j && r.from_span(
                    old(self).query@,
                    Span { kind: k, start: old(self).start as int, end: j },
                ),
                _ => false,
            },
    {
        if self.peek() == Some('=') {
            self.advance();
            self.new_token(two)
        } else {
            self.new_token(one)
        }
    }

    /// Reads one token, or skips white space or a comment, starting at the
    /// current position.
    pub fn next(&mut self) -> (r: Result<Option<Token>, Error>)
        requires
            old(self).wf(),
        ensures
            final(self).wf(),
            final(self).text() == old(self).text(),
            0 <= old(self).position() <= old(self).text().len(),
            0 <= final(self).position() <= final(self).text().len(),
            old(self).position() >= old(self).text().len() ==> (r matches Ok(None)
                && final(self).position() == old(self).position()),
            old(self).position() < old(self).text().len() ==> match step(
                old(self).text(),
                old(self).position(),
            ) {
                Step::Skip(j) => r matches Ok(None) && final(self).position() == j,
                Step::Emit(k, j) => r matches Ok(Some(t)) && final(self).position() == j
                    && t.from_span(
                    old(self).text(),
                    Span { kind: k, start: old(self).position(), end: j },
                ),
                Step::Fail(e) => r matches Err(Error::Lex { kind, line }) && kind == e && line
                    == line_of(old(self).text(), old(self).position()),
            },
    {
        self.start = self.current;
        self.start_line = self.line;
        let c = match self.advance() {
            Some(c) => c,
            None => {
                return Ok(None);
            },
        };
        if c == '(' {
            Ok(Some(self.new_token(TokenType::LeftParen)))
        } else if c == ')' {
            Ok(Some(self.new_token(TokenType::RightParen)))
        } else if c == '[' {
            Ok(Some(self.new_token(TokenType::ListBegin)))
        } else if c == ']' {
            Ok(Some(self.new_token(TokenType::ListEnd)))
        } else if c == '{' {
            Ok(Some(self.new_token(TokenType::RecordBegin)))
        } else if c == '}' {
            Ok(Some(self.new_token(TokenType::RecordEnd)))
        } else if c == ',' {
            Ok(Some(self.new_token(TokenType::Comma)))
        } else if c == '.' {
            Ok(Some(self.new_token(TokenType::Dot)))
        } else if c == '|' {
            Ok(Some(self.new_token(TokenType::Pipe)))
        } else if c == '+' {
            Ok(Some(self.new_token(TokenType::Plus)))
        } else if c == '-' {
            Ok(Some(self.new_token(TokenType::Minus)))
        } else if c == '*' {
            Ok(Some(self.new_token(TokenType::Star)))
        } else if c == ';' {
            Ok(Some(self.new_token(TokenType::Semicolon)))
        } else if c == '/' {
            if self.peek() == Some('/') {
                // a comment runs to the end of the line; it yields no token
                self.advance();
                self.comment();
                Ok(None)
            } else {
                Ok(Some(self.new_token(TokenType::Slash)))
            }
        } else if c == '=' {
            Ok(Some(self.with_equal(TokenType::Equal, TokenType::EqualEqual)))
        } else if c == '>' {
            Ok(Some(self.with_equal(TokenType::Greater, TokenType::GreaterEqual)))
        } else if c == '<' {
            Ok(Some(self.with_equal(TokenType::Lesser, TokenType::LesserEqual)))
        } else if c == '!' {
            Ok(Some(self.with_equal(TokenType::Bang, TokenType::BangEqual)))
        } else if c == '"' {
            match self.string() {
                Ok(()) => Ok(Some(self.new_token(TokenType::String))),
                Err(e) => Err(Error::Lex { kind: e, line: self.start_line }),
            }
        } else if c == '_' || is_alpha_char(c) {
            self.identifier();
            let k = self.word_type();
            Ok(Some(self.new_token(k)))
        } else if is_digit_char(c) {
            match self.number() {
                Ok(()) => Ok(Some(self.new_token(TokenType::Number))),
                Err(e) => Err(Error::Lex { kind: e, line: self.start_line }),
            }
        } else if c == '$' {
            match self.peek() {
                Some(d) => {
                    if is_alpha_char(d) {
                        self.identifier();
                        Ok(Some(self.new_token(TokenType::Variable)))
                    } else {
                        Err(Error::Lex { kind: LexError::BadVariable, line: self.start_line })
                    }
                },
                None => Err(Error::Lex { kind: LexError::BadVariable, line: self.start_line }),
            }
        } else if c == '@' {
            Ok(Some(self.new_token(TokenType::Variable)))
        } else if c == ' ' || c == '\t' || c == '\r' || c == '\n' {
            Ok(None)
        } else {
            Err(Error::Lex { kind: LexError::UnexpectedChar(c), line: self.start_line })
        }
    }

    /// Cuts the rest of the text into tokens, ending with an `Eof` token.
    pub fn tokenize(self) -> (r: Result<Vec<Token>, Error>)
        requires
            self.wf(),
        ensures
            match lex_from(self.text(), self.position()) {
                Ok(spans) => r matches Ok(toks) && toks@.len() == spans.len() && forall|k: int|
                    0 <= k < spans.len() ==> #[trigger] toks@[k].from_span(self.text(), spans[k]),
                Err(f) => r matches Err(Error::Lex { kind, line }) && kind == f.kind && line
                    == line_of(self.text(), f.at),
            },
    {
        let mut lexer = self;
        let ghost s = lexer.query@;
        let mut tokens: Vec<Token> = Vec::new();
        let ghost mut spans: Seq<Span> = Seq::empty();
        while !lexer.done()
            invariant
                lexer.wf(),
                lexer.query@ == s,
                s == self.query@,
                tokens@.len() == spans.len(),
                forall|k: int| 0 <= k < spans.len() ==> #[trigger] tokens@[k].from_span(s, spans[k]),
                lex_from(s, self.current as int) == prepend(spans, lex_from(s, lexer.current as int)),
            decreases s.len() - lexer.current,
        {
            let ghost i = lexer.current as int;
            proof {
                lemma_step_advances(s, i);
            }
            proof {
                assert(lex_from(s, i) == match step(s, i) {
                    Step::Skip(j) => if i < j <= s.len() {
                        lex_from(s, j)
                    } else {
                        Err(LexFailure { kind: LexError::BadVariable, at: i })
                    },
                    Step::Emit(k, j) => if i < j <= s.len() {
                        match lex_from(s, j) {
                            Ok(rest) => Ok(seq![Span { kind: k, start: i, end: j }] + rest),
                            Err(e) => Err(e),
                        }
                    } else {
                        Err(LexFailure { kind: LexError::BadVariable, at: i })
                    },
                    Step::Fail(e) => Err(LexFailure { kind: e, at: i }),
                });
            }
            match lexer.next() {
                Ok(Some(t)) => {
                    proof {
                        let sp = Span { kind: t.token_type, start: i, end: lexer.current as int };
                        assert(lexer.current as int > i);
                        let ghost old_spans = spans;
                        spans = spans.push(sp);
                        match lex_from(s, lexer.current as int) {
                            Ok(rest) => {
                                assert(old_spans + (seq![sp] + rest) =~= spans + rest);
                            },
                            Err(_) => {},
                        }
                    }
                    tokens.push(t);
                },
                Ok(None) => {
                    assert(lexer.current as int > i);
                },
                Err(e) => {
                    return Err(e);
                },
            }
        }
        lexer.start = lexer.current;
        lexer.start_line = lexer.line;
        let eof = lexer.new_token(TokenType::Eof);
        proof {
            let sp = Span { kind: TokenType::Eof, start: s.len() as int, end: s.len() as int };
            assert(lex_from(s, lexer.current as int) == Ok::<Seq<Span>, LexFailure>(seq![sp]));
            spans = spans.push(sp);
        }
        tokens.push(eof);
        Ok(tokens)
    }

}

pub fn is_digit_char(c: char) -> (r: bool)
    ensures
        r == is_digit(c),
{
    '0' <= c && c <= '9'
}

pub fn is_alpha_char(c: char) -> (r: bool)
    ensures
        r == is_alpha(c),
{
    ('a' <= c && c <= 'z') || ('A' <= c && c <= 'Z')
}

} // verus!
