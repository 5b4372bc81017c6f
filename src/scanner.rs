use vstd::prelude::*;

use crate::token::{
    is_digit, is_nextline, is_part_of_digit, is_part_of_identifier, is_whitespace, spec_is_digit,
    spec_is_letter, records, Position, Token, TokenRecord, TokenView, TokenWithContext,
};

verus! {

/// A lexical error. Scanning goes on after it.
#[derive(Debug, Clone, Copy, PartialEq, Eq, Structural)]
pub enum ScannerError {
    /// A string ran into a newline or the end of the input; the position is where it stopped.
    MissingStringTerminator(Position),
    /// A character that starts no token.
    UnexpectedCharacter(Position),
    /// A run of letters other than `true` and `false`; the position is where it starts.
    UnknownIdentifier(Position),
}

/// The characters that continue a token once its first character has been read.
#[derive(Clone, Copy)]
pub enum CharClass {
    /// Digits and `.`, after a leading digit.
    Digits,
    /// ASCII letters, after a leading letter.
    Letters,
    /// Anything but a quote or a newline, after an opening quote.
    StringBody,
}

impl CharClass {
    pub open spec fn spec_accepts(self, c: char) -> bool {
        match self {
            CharClass::Digits => spec_is_digit(c) || c == '.',
            CharClass::Letters => spec_is_letter(c),
            CharClass::StringBody => c != '"' && c != '\n',
        }
    }

    pub fn accepts(self, c: char) -> (r: bool)
        ensures
            r == self.spec_accepts(c),
    {
        match self {
            CharClass::Digits => is_part_of_digit(c),
            CharClass::Letters => is_part_of_identifier(c),
            CharClass::StringBody => c != '"' && !is_nextline(c),
        }
    }
}

/// The position after `c` when it is read at position `p`.
pub open spec fn next_position(p: Position, c: char) -> Position {
    if c == '\n' {
        Position { line: (p.line + 1) as usize, column: 1 }
    } else {
        Position { line: p.line, column: (p.column + 1) as usize }
    }
}

/// The position of the `k`-th character of `s`, or just after the last one for `k == s.len()`.
pub open spec fn position_at(s: Seq<char>, k: int) -> Position
    decreases k,
{
    if k <= 0 {
        Position { line: 1, column: 1 }
    } else {
        next_position(position_at(s, k - 1), s[k - 1])
    }
}

/// The first index from `i` on whose character does not belong to `class`.
pub open spec fn run_end(s: Seq<char>, i: int, class: CharClass) -> int
    decreases s.len() - i,
{
    if 0 <= i < s.len() && class.spec_accepts(s[i]) {
        run_end(s, i + 1, class)
    } else {
        i
    }
}

/// The token made of `s[i..j]`.
pub open spec fn record(s: Seq<char>, i: int, j: int, token: TokenView) -> TokenRecord {
    TokenRecord { token, lexeme: s.subrange(i, j), position: position_at(s, i) }
}

pub open spec fn word_true() -> Seq<char> {
    seq!['t', 'r', 'u', 'e']
}

pub open spec fn word_false() -> Seq<char> {
    seq!['f', 'a', 'l', 's', 'e']
}

/// One attempt to read a token at index `i`: what it yields and the index after it.
pub open spec fn step(s: Seq<char>, i: int) -> (Result<TokenRecord, ScannerError>, int) {
    let c = s[i];
    if c == '[' {
        (Ok(record(s, i, i + 1, TokenView::LeftBracket)), i + 1)
    } else if c == ']' {
        (Ok(record(s, i, i + 1, TokenView::RightBracket)), i + 1)
    } else if c == '{' {
        (Ok(record(s, i, i + 1, TokenView::LeftBrace)), i + 1)
    } else if c == '}' {
        (Ok(record(s, i, i + 1, TokenView::RightBrace)), i + 1)
    } else if c == ':' {
        (Ok(record(s, i, i + 1, TokenView::Colon)), i + 1)
    } else if c == ',' {
        (Ok(record(s, i, i + 1, TokenView::Comma)), i + 1)
    } else if c == '\n' {
        (Ok(record(s, i, i + 1, TokenView::NextLine)), i + 1)
    } else if c == ' ' || c == '\r' || c == '\t' {
        (Ok(record(s, i, i + 1, TokenView::Whitespace)), i + 1)
    } else if spec_is_digit(c) {
        let j = run_end(s, i + 1, CharClass::Digits);
        (Ok(record(s, i, j, TokenView::DigitLiteral(s.subrange(i, j)))), j)
    } else if c == '"' {
        let j = run_end(s, i + 1, CharClass::StringBody);
        if j < s.len() && s[j] == '"' {
            (Ok(record(s, i, j + 1, TokenView::StringLiteral(s.subrange(i + 1, j)))), j + 1)
        } else {
            (Err(ScannerError::MissingStringTerminator(position_at(s, j))), j)
        }
    } else if spec_is_letter(c) {
        let j = run_end(s, i + 1, CharClass::Letters);
        let w = s.subrange(i, j);
        if w == word_true() {
            (Ok(record(s, i, j, TokenView::True)), j)
        } else if w == word_false() {
            (Ok(record(s, i, j, TokenView::False)), j)
        } else {
            (Err(ScannerError::UnknownIdentifier(position_at(s, i))), j)
        }
    } else {
        (Err(ScannerError::UnexpectedCharacter(position_at(s, i))), i + 1)
    }
}

/// Everything that scanning yields from index `i` on, whitespace included.
pub open spec fn raw_scan(s: Seq<char>, i: int) -> Seq<Result<TokenRecord, ScannerError>>
    decreases s.len() - i,
{
    if 0 <= i < s.len() {
        proof {
            lemma_step_advances(s, i);
        }
        let (r, j) = step(s, i);
        seq![r] + raw_scan(s, j)
    } else {
        seq![]
    }
}

/// Tokens other than whitespace, and errors, each in order.
pub open spec fn sorted_out(rs: Seq<Result<TokenRecord, ScannerError>>) -> (Seq<TokenRecord>, Seq<ScannerError>)
    decreases rs.len(),
{
    if rs.len() == 0 {
        (seq![], seq![])
    } else {
        let (ts, es) = sorted_out(rs.drop_last());
        match rs.last() {
            Ok(t) => if t.token is Whitespace {
                (ts, es)
            } else {
                (ts.push(t), es)
            },
            Err(e) => (ts, es.push(e)),
        }
    }
}

/// What `scan` returns for the characters `s`.
pub open spec fn scanned(s: Seq<char>) -> (Seq<TokenRecord>, Seq<ScannerError>) {
    sorted_out(raw_scan(s, 0))
}

pub open spec fn outcome(r: Result<TokenWithContext, ScannerError>) -> Result<TokenRecord, ScannerError> {
    match r {
        Ok(t) => Ok(t@),
        Err(e) => Err(e),
    }
}

pub open spec fn outcomes(rs: Seq<Result<TokenWithContext, ScannerError>>) -> Seq<Result<TokenRecord, ScannerError>> {
    rs.map_values(|r: Result<TokenWithContext, ScannerError>| outcome(r))
}

/// Reads `source` from start to end: every token, whitespace included, and every error, in the
/// order of the text.
pub fn scan_into_iterator(source: &str) -> (r: Vec<Result<TokenWithContext, ScannerError>>)
    requires
        source@.len() < usize::MAX,
    ensures
        outcomes(r@) == raw_scan(source@, 0),
{
    let mut scanner = Scanner::initialize(source);
    let mut results: Vec<Result<TokenWithContext, ScannerError>> = Vec::new();
    assert(outcomes(results@) =~= Seq::<Result<TokenRecord, ScannerError>>::empty());
    loop
        invariant
            scanner.wf(),
            scanner.source@ == source@,
            outcomes(results@) + raw_scan(source@, scanner.cursor as int) == raw_scan(source@, 0),
        ensures
            outcomes(results@) == raw_scan(source@, 0),
        decreases scanner.source.len() - scanner.cursor,
    {
        let ghost before = scanner.cursor as int;
        let ghost done = results@;
        match scanner.scan_next() {
            Some(result) => {
                proof {
                    lemma_step_advances(source@, before);
                }
                results.push(result);
                assert(outcomes(results@) =~= outcomes(done).push(outcome(result)));
                assert(raw_scan(source@, before) == seq![outcome(result)] + raw_scan(
                    source@,
                    scanner.cursor as int,
                ));
                assert(outcomes(results@) + raw_scan(source@, scanner.cursor as int) =~= outcomes(
                    done,
                ) + raw_scan(source@, before));
            },
            None => {
                assert(outcomes(results@) =~= outcomes(results@) + raw_scan(
                    source@,
                    scanner.cursor as int,
                ));
                break ;
            },
        }
    }
    results
}

/// Scans `source` into its tokens, whitespace left out, and its lexical errors.
pub fn scan(source: &str) -> (r: (Vec<TokenWithContext>, Vec<ScannerError>))
    requires
        source@.len() < usize::MAX,
    ensures
        (records(r.0@), r.1@) == scanned(source@),
{
    let results = scan_into_iterator(source);
    let ghost all = results@;
    let mut tokens: Vec<TokenWithContext> = Vec::new();
    let mut errors: Vec<ScannerError> = Vec::new();
    assert(outcomes(all).take(0) =~= Seq::<Result<TokenRecord, ScannerError>>::empty());
    assert(records(tokens@) =~= Seq::<TokenRecord>::empty());
    for result in it: results
        invariant
            it.seq() == all,
            (records(tokens@), errors@) == sorted_out(outcomes(all).take(it.index() as int)),
    {
        let ghost k = it.index() as int;
        let ghost ts = tokens@;
        assert(outcomes(all).take(k + 1).drop_last() =~= outcomes(all).take(k));
        assert(outcomes(all).take(k + 1).last() == outcome(result));
        match result {
            Ok(token_with_context) => match token_with_context.token {
                Token::Whitespace => {},
                _ => {
                    tokens.push(token_with_context);
                    assert(records(tokens@) =~= records(ts).push(token_with_context@));
                },
            },
            Err(error) => errors.push(error),
        }
    }
    assert(outcomes(all).take(all.len() as int) =~= outcomes(all));
    (tokens, errors)
}

/// What a token-reading step yields once the lexeme `lexeme` that starts at `s[i]` is known.
pub open spec fn attach(r: Result<Token, ScannerError>, lexeme: Seq<char>, s: Seq<char>, i: int) -> Result<TokenRecord, ScannerError> {
    match r {
        Ok(t) => Ok(TokenRecord { token: t@, lexeme, position: position_at(s, i) }),
        Err(e) => Err(e),
    }
}

pub proof fn lemma_run_end_bounds(s: Seq<char>, i: int, class: CharClass)
    requires
        0 <= i <= s.len(),
    ensures
        i <= run_end(s, i, class) <= s.len(),
        run_end(s, i, class) < s.len() ==> !class.spec_accepts(s[run_end(s, i, class)]),
        forall|k: int| i <= k < run_end(s, i, class) ==> class.spec_accepts(#[trigger] s[k]),
    decreases s.len() - i,
{
    if i < s.len() && class.spec_accepts(s[i]) {
        lemma_run_end_bounds(s, i + 1, class);
    }
}

pub proof fn lemma_step_advances(s: Seq<char>, i: int)
    requires
        0 <= i < s.len(),
    ensures
        i < step(s, i).1 <= s.len(),
{
    lemma_run_end_bounds(s, i + 1, CharClass::Digits);
    lemma_run_end_bounds(s, i + 1, CharClass::Letters);
    lemma_run_end_bounds(s, i + 1, CharClass::StringBody);
}

pub proof fn lemma_position_bounds(s: Seq<char>, k: int)
    requires
        0 <= k,
        k + 1 <= usize::MAX,
    ensures
        1 <= position_at(s, k).line <= k + 1,
        1 <= position_at(s, k).column <= k + 1,
    decreases k,
{
    if k > 0 {
        lemma_position_bounds(s, k - 1);
    }
}


/// Relies on `String::push`: the character is appended at the end.
#[verifier::external_body]
fn push_char(s: &mut String, c: char)
    ensures
        final(s)@ == old(s)@.push(c),
{
    s.push(c);
}

struct Scanner {
    source: Vec<char>,
    cursor: usize,
    current_position: Position,
    current_lexeme: String,
}

impl Scanner {
    spec fn wf(&self) -> bool {
        &&& self.source.len() < usize::MAX
        &&& self.cursor <= self.source.len()
        &&& self.current_position == position_at(self.source@, self.cursor as int)
    }

    fn initialize(source: &str) -> (r: Scanner)
        requires
            source@.len() < usize::MAX,
        ensures
            r.wf(),
            r.source@ == source@,
            r.cursor == 0,
            r.current_lexeme@ == Seq::<char>::empty(),
    {
        let mut chars: Vec<char> = Vec::new();
        for c in it: source.chars()
            invariant
                chars@ == it.seq().take(it.index() as int),
        {
            chars.push(c);
        }
        assert(chars@ =~= source@);
        Scanner {
            source: chars,
            cursor: 0,
            current_position: Position::initial(),
            current_lexeme: String::new(),
        }
    }

    fn advance(&mut self) -> (r: Option<char>)
        requires
            old(self).wf(),
        ensures
            final(self).wf(),
            final(self).source == old(self).source,
            old(self).cursor < old(self).source.len() ==> {
                &&& r == Some(old(self).source@[old(self).cursor as int])
                &&& final(self).cursor == old(self).cursor + 1
                &&& final(self).current_lexeme@ == old(self).current_lexeme@.push(
                    old(self).source@[old(self).cursor as int],
                )
            },
            old(self).cursor == old(self).source.len() ==> {
                &&& r is None
                &&& final(self).cursor == old(self).cursor
                &&& final(self).current_lexeme@ == old(self).current_lexeme@
            },
    {
        if self.cursor < self.source.len() {
            let c = self.source[self.cursor];
            push_char(&mut self.current_lexeme, c);
            proof {
                lemma_position_bounds(self.source@, self.cursor as int);
            }
            if c == '\n' {
                self.current_position.increment_line();
            } else {
                self.current_position.increment_column();
            }
            self.cursor = self.cursor + 1;
            Some(c)
        } else {
            None
        }
    }

    fn add_context(&self, token: Token, initial_position: Position) -> (r: TokenWithContext)
        ensures
            r.token == token,
            r.lexeme@ == self.current_lexeme@,
            r.position == initial_position,
    {
        TokenWithContext { token, lexeme: self.current_lexeme.clone(), position: initial_position }
    }

    fn peek_check(&self, class: CharClass) -> (r: bool)
        requires
            self.wf(),
        ensures
            r == (self.cursor < self.source.len() && class.spec_accepts(
                self.source@[self.cursor as int],
            )),
    {
        self.cursor < self.source.len() && class.accepts(self.source[self.cursor])
    }

    fn advance_if_match(&mut self, expected: char) -> (r: bool)
        requires
            old(self).wf(),
        ensures
            final(self).wf(),
            final(self).source == old(self).source,
            r == (old(self).cursor < old(self).source.len() && old(self).source@[old(
                self,
            ).cursor as int] == expected),
            r ==> final(self).cursor == old(self).cursor + 1,
            r ==> final(self).current_lexeme@ == old(self).current_lexeme@.push(expected),
            !r ==> final(self).cursor == old(self).cursor,
            !r ==> final(self).current_lexeme@ == old(self).current_lexeme@,
    {
        if self.cursor < self.source.len() && self.source[self.cursor] == expected {
            let _ = self.advance();
            true
        } else {
            false
        }
    }

    fn advance_while(&mut self, class: CharClass)
        requires
            old(self).wf(),
        ensures
            final(self).wf(),
            final(self).source == old(self).source,
            final(self).cursor == run_end(old(self).source@, old(self).cursor as int, class),
            old(self).cursor <= final(self).cursor,
            final(self).current_lexeme@ == old(self).current_lexeme@ + old(self).source@.subrange(
                old(self).cursor as int,
                final(self).cursor as int,
            ),
    {
        let ghost start = self.cursor as int;
        let ghost lexeme0 = self.current_lexeme@;
        while self.peek_check(class)
            invariant
                self.wf(),
                self.source == old(self).source,
                start == old(self).cursor,
                lexeme0 == old(self).current_lexeme@,
                start <= self.cursor,
                run_end(self.source@, self.cursor as int, class) == run_end(
                    self.source@,
                    start,
                    class,
                ),
                self.current_lexeme@ == lexeme0 + self.source@.subrange(start, self.cursor as int),
            decreases self.source.len() - self.cursor,
        {
            self.advance();
            assert(self.source@.subrange(start, self.cursor as int) =~= self.source@.subrange(
                start,
                self.cursor - 1,
            ).push(self.source@[self.cursor - 1]));
            assert(self.current_lexeme@ =~= lexeme0 + self.source@.subrange(
                start,
                self.cursor as int,
            ));
        }
    }

    /// Reads the rest of a number; `self.source[cursor - 1]` is its first digit.
    fn digit(&mut self) -> (r: Token)
        requires
            old(self).wf(),
            1 <= old(self).cursor,
            spec_is_digit(old(self).source@[old(self).cursor - 1]),
            old(self).current_lexeme@ == old(self).source@.subrange(
                old(self).cursor - 1,
                old(self).cursor as int,
            ),
        ensures
            final(self).wf(),
            final(self).source == old(self).source,
            final(self).current_lexeme@ == old(self).source@.subrange(
                old(self).cursor - 1,
                final(self).cursor as int,
            ),
            attach(Ok(r), final(self).current_lexeme@, old(self).source@, old(self).cursor - 1)
                == step(old(self).source@, old(self).cursor - 1).0,
            final(self).cursor == step(old(self).source@, old(self).cursor - 1).1,
    {
        let ghost i = self.cursor - 1;
        self.advance_while(CharClass::Digits);
        proof {
            lemma_run_end_bounds(self.source@, i + 1, CharClass::Digits);
        }
        assert(self.current_lexeme@ =~= self.source@.subrange(i, self.cursor as int));
        Token::DigitLiteral(self.current_lexeme.clone())
    }

    /// Reads the rest of a string; `self.source[cursor - 1]` is its opening quote.
    fn string(&mut self) -> (r: Result<Token, ScannerError>)
        requires
            old(self).wf(),
            1 <= old(self).cursor,
            old(self).source@[old(self).cursor - 1] == '"',
            old(self).current_lexeme@ == old(self).source@.subrange(
                old(self).cursor - 1,
                old(self).cursor as int,
            ),
        ensures
            final(self).wf(),
            final(self).source == old(self).source,
            final(self).current_lexeme@ == old(self).source@.subrange(
                old(self).cursor - 1,
                final(self).cursor as int,
            ),
            attach(r, final(self).current_lexeme@, old(self).source@, old(self).cursor - 1)
                == step(old(self).source@, old(self).cursor - 1).0,
            final(self).cursor == step(old(self).source@, old(self).cursor - 1).1,
    {
        let ghost i = self.cursor - 1;
        let body_start = self.cursor;
        self.advance_while(CharClass::StringBody);
        let body_end = self.cursor;
        proof {
            lemma_run_end_bounds(self.source@, i + 1, CharClass::StringBody);
        }
        if !self.advance_if_match('"') {
            assert(self.current_lexeme@ =~= self.source@.subrange(i, self.cursor as int));
            return Err(ScannerError::MissingStringTerminator(self.current_position));
        }
        assert(self.current_lexeme@ =~= self.source@.subrange(i, self.cursor as int));
        let literal = self.text(body_start, body_end);
        Ok(Token::StringLiteral(literal))
    }

    /// Reads the rest of a word; `self.source[cursor - 1]` is its first letter.
    fn word(&mut self, initial_position: Position) -> (r: Result<Token, ScannerError>)
        requires
            old(self).wf(),
            1 <= old(self).cursor,
            spec_is_letter(old(self).source@[old(self).cursor - 1]),
            initial_position == position_at(old(self).source@, old(self).cursor - 1),
            old(self).current_lexeme@ == old(self).source@.subrange(
                old(self).cursor - 1,
                old(self).cursor as int,
            ),
        ensures
            final(self).wf(),
            final(self).source == old(self).source,
            final(self).current_lexeme@ == old(self).source@.subrange(
                old(self).cursor - 1,
                final(self).cursor as int,
            ),
            attach(r, final(self).current_lexeme@, old(self).source@, old(self).cursor - 1)
                == step(old(self).source@, old(self).cursor - 1).0,
            final(self).cursor == step(old(self).source@, old(self).cursor - 1).1,
    {
        let start = self.cursor - 1;
        self.advance_while(CharClass::Letters);
        proof {
            lemma_run_end_bounds(self.source@, start + 1, CharClass::Letters);
            reveal_strlit("true");
            reveal_strlit("false");
        }
        assert(self.current_lexeme@ =~= self.source@.subrange(start as int, self.cursor as int));
        if self.spells(start, self.cursor, "true") {
            assert("true"@ =~= word_true());
            Ok(Token::True)
        } else if self.spells(start, self.cursor, "false") {
            assert("true"@ =~= word_true());
            assert("false"@ =~= word_false());
            Ok(Token::False)
        } else {
            assert("true"@ =~= word_true());
            assert("false"@ =~= word_false());
            Err(ScannerError::UnknownIdentifier(initial_position))
        }
    }

    fn scan_next(&mut self) -> (r: Option<Result<TokenWithContext, ScannerError>>)
        requires
            old(self).wf(),
        ensures
            final(self).wf(),
            final(self).source == old(self).source,
            old(self).cursor == old(self).source.len() ==> {
                &&& r is None
                &&& final(self).cursor == old(self).cursor
            },
            old(self).cursor < old(self).source.len() ==> {
                &&& r is Some
                &&& outcome(r->0) == step(old(self).source@, old(self).cursor as int).0
                &&& final(self).cursor == step(old(self).source@, old(self).cursor as int).1
            },
    {
        let initial_position = self.current_position;
        let ghost i = self.cursor as int;
        self.current_lexeme = String::new();
        let next_char = match self.advance() {
            Some(c) => c,
            None => return None,
        };
        assert(self.current_lexeme@ =~= self.source@.subrange(i, i + 1));
        let result = if next_char == '[' {
            Ok(Token::LeftBracket)
        } else if next_char == ']' {
            Ok(Token::RightBracket)
        } else if next_char == '{' {
            Ok(Token::LeftBrace)
        } else if next_char == '}' {
            Ok(Token::RightBrace)
        } else if next_char == ':' {
            Ok(Token::Colon)
        } else if next_char == ',' {
            Ok(Token::Comma)
        } else if is_nextline(next_char) {
            Ok(Token::NextLine)
        } else if is_whitespace(next_char) {
            Ok(Token::Whitespace)
        } else if is_digit(next_char) {
            Ok(self.digit())
        } else if next_char == '"' {
            self.string()
        } else if is_part_of_identifier(next_char) {
            self.word(initial_position)
        } else {
            Err(ScannerError::UnexpectedCharacter(initial_position))
        };
        match result {
            Ok(token) => Some(Ok(self.add_context(token, initial_position))),
            Err(error) => Some(Err(error)),
        }
    }

    /// Whether `self.source[from..to]` spells `word`.
    fn spells(&self, from: usize, to: usize, word: &str) -> (r: bool)
        requires
            from <= to <= self.source.len(),
        ensures
            r == (self.source@.subrange(from as int, to as int) == word@),
    {
        let n = word.unicode_len();
        if to - from != n {
            return false;
        }
        let mut k: usize = 0;
        while k < n
            invariant
                from <= to <= self.source.len(),
                to - from == n,
                n == word@.len(),
                k <= n,
                forall|m: int| 0 <= m < k ==> self.source@[from + m] == word@[m],
            decreases n - k,
        {
            if self.source[from + k] != word.get_char(k) {
                assert(self.source@.subrange(from as int, to as int)[k as int] != word@[k as int]);
                return false;
            }
            k = k + 1;
        }
        assert(self.source@.subrange(from as int, to as int) =~= word@);
        true
    }

    /// The characters `self.source[from..to]` as a string.
    fn text(&self, from: usize, to: usize) -> (r: String)
        requires
            from <= to <= self.source.len(),
        ensures
            r@ == self.source@.subrange(from as int, to as int),
    {
        let mut out = String::new();
        let mut k: usize = from;
        while k < to
            invariant
                from <= k <= to <= self.source.len(),
                out@ == self.source@.subrange(from as int, k as int),
            decreases to - k,
        {
            push_char(&mut out, self.source[k]);
            k = k + 1;
            assert(out@ =~= self.source@.subrange(from as int, k as int));
        }
        out
    }
}

} // verus!
