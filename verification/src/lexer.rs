use crate::error::EvaluationError;
use crate::number::{
    char_to_digit, decimal_of, digit_value, digit_values, is_digit, is_number_char, Decimal,
    DecimalView,
};
use vstd::prelude::*;

verus! {

/// The smallest unit of an expression.
#[derive(Debug, Clone, PartialEq, Eq)]
pub enum Token {
    Number(Decimal),
    /// A binary operator: one of `+ - * / ^`.
    Operator(char),
    /// A sign in front of an operand: `+` or `-`.
    UnaryOperator(char),
    LParen,
    RParen,
    EOF,
}

/// The mathematical content of a [`Token`].
pub enum TokenView {
    Number(DecimalView),
    Operator(char),
    UnaryOperator(char),
    LParen,
    RParen,
    EOF,
}

/// What the tokenizer remembers of the token it gave out last.
#[derive(Debug, Clone, Copy, PartialEq, Eq, Structural)]
pub enum TokenKind {
    Number,
    Operator,
    UnaryOperator,
    LParen,
    RParen,
}

impl View for Token {
    type V = TokenView;

    open spec fn view(&self) -> TokenView {
        match self {
            Token::Number(d) => TokenView::Number(d@),
            Token::Operator(op) => TokenView::Operator(*op),
            Token::UnaryOperator(op) => TokenView::UnaryOperator(*op),
            Token::LParen => TokenView::LParen,
            Token::RParen => TokenView::RParen,
            Token::EOF => TokenView::EOF,
        }
    }
}

impl DeepView for Token {
    type V = TokenView;

    open spec fn deep_view(&self) -> TokenView {
        self@
    }
}

/// Space and tab stand between tokens and are part of none.
pub open spec fn is_blank(c: char) -> bool {
    c == ' ' || c == '\t'
}

/// The symbols that can stand in front of an operand.
pub open spec fn is_sign(c: char) -> bool {
    c == '+' || c == '-'
}

/// The symbols that can stand between two operands.
pub open spec fn is_binary_symbol(c: char) -> bool {
    c == '+' || c == '-' || c == '*' || c == '/' || c == '^'
}

impl TokenView {
    /// An operator token carries one of its symbols, a number is a sound
    /// decimal.
    pub open spec fn wf(self) -> bool {
        match self {
            TokenView::Number(d) => d.wf(),
            TokenView::Operator(op) => is_binary_symbol(op),
            TokenView::UnaryOperator(op) => is_sign(op),
            _ => true,
        }
    }
}

/// The first position at or after `from` that holds no blank, or the end.
pub open spec fn skip_blanks(s: Seq<char>, from: int) -> int
    decreases s.len() - from,
{
    if 0 <= from < s.len() && is_blank(s[from]) {
        skip_blanks(s, from + 1)
    } else {
        from
    }
}

/// The first position at or after `from` that holds neither a digit nor a
/// point, or the end: where the number that starts at `from` stops.
pub open spec fn run_end(s: Seq<char>, from: int) -> int
    decreases s.len() - from,
{
    if 0 <= from < s.len() && is_number_char(s[from]) {
        run_end(s, from + 1)
    } else {
        from
    }
}

/// A `+` or `-` is a sign, not a binary operator, at the start of the
/// expression and after an operator, a sign or an opening parenthesis.
pub open spec fn sign_expected(last: Option<TokenKind>) -> bool {
    last is None || last == Some(TokenKind::Operator) || last == Some(TokenKind::UnaryOperator)
        || last == Some(TokenKind::LParen)
}

/// A tokenizer's state: the text, the read position, and the kind of the
/// last token given out.
pub struct LexerView {
    pub source: Seq<char>,
    pub pos: nat,
    pub last: Option<TokenKind>,
}

/// One step of a tokenizer: what it gives out, and the state it is left in.
pub struct Lexed {
    pub token: Result<TokenView, EvaluationError>,
    pub rest: LexerView,
}

impl LexerView {
    /// The state in front of the first character, no token given out yet.
    pub open spec fn start(source: Seq<char>) -> LexerView {
        LexerView { source, pos: 0, last: None }
    }

    /// The same text, read up to `pos`, with `last` remembered.
    pub open spec fn moved(self, pos: int, last: Option<TokenKind>) -> LexerView {
        LexerView { source: self.source, pos: pos as nat, last }
    }

    /// The next token of the text. Blanks are passed over. A digit starts a
    /// number, which runs as far as digits and points go. A character of no
    /// token is an error, and so is a number with a second point; the
    /// position then stands behind the character, or behind the number.
    pub open spec fn step(self) -> Lexed {
        let at = skip_blanks(self.source, self.pos as int);
        if at >= self.source.len() {
            Lexed { token: Ok(TokenView::EOF), rest: self.moved(at, self.last) }
        } else {
            let c = self.source[at];
            if is_digit(c) {
                let end = run_end(self.source, at);
                match decimal_of(self.source.subrange(at, end)) {
                    Some(d) => Lexed {
                        token: Ok(TokenView::Number(d)),
                        rest: self.moved(end, Some(TokenKind::Number)),
                    },
                    None => Lexed {
                        token: Err(EvaluationError::UnexpectedCharacter('.')),
                        rest: self.moved(end, self.last),
                    },
                }
            } else if is_sign(c) && sign_expected(self.last) {
                Lexed {
                    token: Ok(TokenView::UnaryOperator(c)),
                    rest: self.moved(at + 1, Some(TokenKind::UnaryOperator)),
                }
            } else if is_binary_symbol(c) {
                Lexed {
                    token: Ok(TokenView::Operator(c)),
                    rest: self.moved(at + 1, Some(TokenKind::Operator)),
                }
            } else if c == '(' {
                Lexed { token: Ok(TokenView::LParen), rest: self.moved(at + 1, Some(TokenKind::LParen)) }
            } else if c == ')' {
                Lexed { token: Ok(TokenView::RParen), rest: self.moved(at + 1, Some(TokenKind::RParen)) }
            } else {
                Lexed {
                    token: Err(EvaluationError::UnexpectedCharacter(c)),
                    rest: self.moved(at + 1, self.last),
                }
            }
        }
    }
}

/// The view of what a tokenizer call returned.
pub open spec fn lexed_view(r: Result<Token, EvaluationError>) -> Result<TokenView, EvaluationError> {
    match r {
        Ok(t) => Ok(t@),
        Err(e) => Err(e),
    }
}

/// Where the blanks from `from` on stop: at or after `from`, inside the
/// text, behind blanks only and in front of none.
proof fn lemma_skip_blanks_bounds(s: Seq<char>, from: int)
    requires
        0 <= from,
    ensures
        from <= skip_blanks(s, from),
        from <= s.len() ==> skip_blanks(s, from) <= s.len(),
        forall|k: int| from <= k < skip_blanks(s, from) ==> is_blank(#[trigger] s[k]),
        skip_blanks(s, from) < s.len() ==> !is_blank(s[skip_blanks(s, from)]),
    decreases s.len() - from,
{
    if from < s.len() && is_blank(s[from]) {
        lemma_skip_blanks_bounds(s, from + 1);
    }
}

/// Where the number from `from` on stops: at or after `from`, inside the
/// text, behind digits and points only and in front of none.
proof fn lemma_run_end_bounds(s: Seq<char>, from: int)
    requires
        0 <= from,
    ensures
        from <= run_end(s, from),
        from <= s.len() ==> run_end(s, from) <= s.len(),
        forall|k: int| from <= k < run_end(s, from) ==> is_number_char(#[trigger] s[k]),
        run_end(s, from) < s.len() ==> !is_number_char(s[run_end(s, from)]),
        from < s.len() && is_number_char(s[from]) ==> from < run_end(s, from),
    decreases s.len() - from,
{
    if from < s.len() && is_number_char(s[from]) {
        lemma_run_end_bounds(s, from + 1);
    }
}

/// Blanks are passed over up to the end of the text or the first other
/// character.
pub proof fn lemma_blanks_stop(s: Seq<char>, from: int, to: int)
    requires
        0 <= from <= to <= s.len(),
        forall|i: int| from <= i < to ==> is_blank(#[trigger] s[i]),
        to < s.len() ==> !is_blank(s[to]),
    ensures
        skip_blanks(s, from) == to,
    decreases to - from,
{
    if from < to {
        lemma_blanks_stop(s, from + 1, to);
    }
}

/// A run of digits and points stops where the text ends or another
/// character stands.
pub proof fn lemma_number_run_stops(s: Seq<char>, from: int, to: int)
    requires
        0 <= from <= to <= s.len(),
        forall|i: int| from <= i < to ==> is_number_char(#[trigger] s[i]),
        to < s.len() ==> !is_number_char(s[to]),
    ensures
        run_end(s, from) == to,
    decreases to - from,
{
    if from < to {
        lemma_number_run_stops(s, from + 1, to);
    }
}

/// A step never moves backwards, and never past the end of a text it
/// started inside of; a step that gives out a token other than the end
/// marker moves forward.
pub proof fn lemma_step_advances(v: LexerView)
    ensures
        v.step().rest.source == v.source,
        v.step().rest.pos >= v.pos,
        v.pos <= v.source.len() ==> v.step().rest.pos <= v.source.len(),
        v.step().token != Ok::<TokenView, EvaluationError>(TokenView::EOF) ==> v.step().rest.pos > v.pos,
        v.step().token is Ok ==> v.step().token->Ok_0.wf(),
{
    let at = skip_blanks(v.source, v.pos as int);
    lemma_skip_blanks_bounds(v.source, v.pos as int);
    if at < v.source.len() {
        lemma_run_end_bounds(v.source, at);
        let c = v.source[at];
        if is_digit(c) {
            let end = run_end(v.source, at);
            lemma_decimal_of_run(v.source.subrange(at, end));
        }
    }
}

/// A run that starts with a digit and holds digits and points only denotes,
/// if anything, a sound decimal.
proof fn lemma_decimal_of_run(run: Seq<char>)
    requires
        run.len() > 0,
        is_digit(run[0]),
        forall|i: int| 0 <= i < run.len() ==> is_number_char(#[trigger] run[i]),
    ensures
        decimal_of(run) is Some ==> decimal_of(run)->Some_0.wf(),
{
    run.index_of_first_ensures('.');
    match run.index_of_first('.') {
        None => {
            assert forall|i: int| 0 <= i < run.len() implies is_digit(#[trigger] run[i]) by {
                assert(is_number_char(run[i]));
                assert(run.contains(run[i]));
            }
        },
        Some(d) => {
            let rest = run.subrange(d + 1, run.len() as int);
            if !rest.contains('.') {
                assert forall|i: int| 0 <= i < rest.len() implies is_digit(#[trigger] rest[i]) by {
                    assert(is_number_char(run[d + 1 + i]));
                    assert(rest.contains(rest[i]));
                }
                let head = run.subrange(0, d);
                assert forall|i: int| 0 <= i < head.len() implies is_digit(#[trigger] head[i]) by {
                    assert(is_number_char(run[i]));
                }
            }
        },
    }
}

/// A tokenizer over one line of text. It gives out the tokens one by one.
pub struct Lexer {
    chars: Vec<char>,
    pos: usize,
    last_token: Option<TokenKind>,
}

impl View for Lexer {
    type V = LexerView;

    closed spec fn view(&self) -> LexerView {
        LexerView { source: self.chars@, pos: self.pos as nat, last: self.last_token }
    }
}

impl Lexer {
    /// A tokenizer at the start of `source`.
    pub fn new(source: &str) -> (lexer: Lexer)
        ensures
            lexer@ == LexerView::start(source@),
    {
        let mut chars: Vec<char> = Vec::new();
        for c in it: source.chars()
            invariant
                chars@ == it.seq().take(it.index() as int),
                it.seq() == source@,
        {
            chars.push(c);
        }
        assert(chars@ =~= source@);
        Lexer { chars, pos: 0, last_token: None }
    }

    /// The next token, as [`LexerView::step`] defines it. After the end
    /// marker every further call gives the end marker again.
    pub fn next_token(&mut self) -> (r: Result<Token, EvaluationError>)
        ensures
            lexed_view(r) == old(self)@.step().token,
            final(self)@ == old(self)@.step().rest,
            r is Ok ==> r->Ok_0@.wf(),
    {
        proof {
            lemma_step_advances(self@);
        }
        while self.pos < self.chars.len() && (self.chars[self.pos] == ' ' || self.chars[self.pos]
            == '\t')
            invariant
                self.chars == old(self).chars,
                self.last_token == old(self).last_token,
                skip_blanks(self.chars@, self.pos as int) == skip_blanks(
                    self.chars@,
                    old(self).pos as int,
                ),
            decreases self.chars.len() - self.pos,
        {
            self.pos = self.pos + 1;
        }
        if self.pos >= self.chars.len() {
            return Ok(Token::EOF);
        }
        let ch = self.chars[self.pos];
        self.pos = self.pos + 1;
        if ch >= '0' && ch <= '9' {
            self.tokenize_number(ch)
        } else if ch == '+' || ch == '-' {
            let unary = match self.last_token {
                None => true,
                Some(TokenKind::Operator) => true,
                Some(TokenKind::UnaryOperator) => true,
                Some(TokenKind::LParen) => true,
                _ => false,
            };
            if unary {
                self.last_token = Some(TokenKind::UnaryOperator);
                Ok(Token::UnaryOperator(ch))
            } else {
                self.last_token = Some(TokenKind::Operator);
                Ok(Token::Operator(ch))
            }
        } else if ch == '*' || ch == '/' || ch == '^' {
            self.last_token = Some(TokenKind::Operator);
            Ok(Token::Operator(ch))
        } else if ch == '(' {
            self.last_token = Some(TokenKind::LParen);
            Ok(Token::LParen)
        } else if ch == ')' {
            self.last_token = Some(TokenKind::RParen);
            Ok(Token::RParen)
        } else {
            Err(EvaluationError::UnexpectedCharacter(ch))
        }
    }

    /// Reads the rest of the number whose first digit has just been read.
    fn tokenize_number(&mut self, first_char: char) -> (r: Result<Token, EvaluationError>)
        requires
            0 < old(self).pos <= old(self).chars.len(),
            old(self).chars[old(self).pos - 1] == first_char,
            is_digit(first_char),
        ensures
            final(self).chars == old(self).chars,
            final(self).pos == run_end(old(self).chars@, old(self).pos - 1),
            lexed_view(r) == match decimal_of(
                old(self).chars@.subrange(old(self).pos - 1, final(self).pos as int),
            ) {
                Some(d) => Ok::<TokenView, EvaluationError>(TokenView::Number(d)),
                None => Err(EvaluationError::UnexpectedCharacter('.')),
            },
            final(self).last_token == if r is Ok {
                Some(TokenKind::Number)
            } else {
                old(self).last_token
            },
    {
        let ghost start: int = self.pos - 1;
        let ghost point: int = 0;
        let ghost second: int = 0;
        let mut whole: Vec<u8> = Vec::new();
        let mut fraction: Vec<u8> = Vec::new();
        let mut seen_point = false;
        let mut second_point = false;
        whole.push(char_to_digit(first_char));
        proof {
            assert(self.chars@.subrange(start, start + 1) =~= seq![first_char]);
            assert(digit_values(seq![first_char]) =~= seq![digit_value(first_char)]);
        }
        while self.pos < self.chars.len() && (self.chars[self.pos] == '.' || (self.chars[self.pos]
            >= '0' && self.chars[self.pos] <= '9'))
            invariant
                self.chars == old(self).chars,
                self.last_token == old(self).last_token,
                0 <= start < self.pos <= self.chars.len(),
                start == old(self).pos - 1,
                run_end(self.chars@, self.pos as int) == run_end(self.chars@, start),
                !seen_point ==> {
                    &&& !second_point
                    &&& forall|k: int| start <= k < self.pos ==> self.chars@[k] != '.'
                    &&& whole@ == digit_values(self.chars@.subrange(start, self.pos as int))
                    &&& fraction@ == Seq::<u8>::empty()
                },
                seen_point ==> {
                    &&& start < point < self.pos
                    &&& self.chars@[point] == '.'
                    &&& forall|k: int| start <= k < point ==> self.chars@[k] != '.'
                },
                seen_point && !second_point ==> {
                    &&& forall|k: int| point < k < self.pos ==> self.chars@[k] != '.'
                    &&& whole@ == digit_values(self.chars@.subrange(start, point))
                    &&& fraction@ == digit_values(self.chars@.subrange(point + 1, self.pos as int))
                },
                second_point ==> {
                    &&& seen_point
                    &&& point < second < self.pos
                    &&& self.chars@[second] == '.'
                },
            decreases self.chars.len() - self.pos,
        {
            let ch = self.chars[self.pos];
            if ch == '.' {
                if seen_point {
                    second_point = true;
                    proof {
                        if !(point < second < self.pos && self.chars@[second] == '.') {
                            second = self.pos as int;
                        }
                    }
                } else {
                    seen_point = true;
                    proof {
                        point = self.pos as int;
                        assert(self.chars@.subrange(point + 1, self.pos + 1) =~= Seq::<char>::empty());
                        assert(digit_values(Seq::<char>::empty()) =~= Seq::<u8>::empty());
                    }
                }
            } else {
                let d = char_to_digit(ch);
                if seen_point {
                    fraction.push(d);
                    proof {
                        if !second_point {
                            assert(self.chars@.subrange(point + 1, self.pos + 1)
                                =~= self.chars@.subrange(point + 1, self.pos as int).push(ch));
                            assert(digit_values(
                                self.chars@.subrange(point + 1, self.pos as int).push(ch),
                            ) =~= digit_values(
                                self.chars@.subrange(point + 1, self.pos as int),
                            ).push(d));
                        }
                    }
                } else {
                    whole.push(d);
                    proof {
                        assert(self.chars@.subrange(start, self.pos + 1) =~= self.chars@.subrange(
                            start,
                            self.pos as int,
                        ).push(ch));
                        assert(digit_values(self.chars@.subrange(start, self.pos as int).push(ch))
                            =~= digit_values(self.chars@.subrange(start, self.pos as int)).push(d));
                    }
                }
            }
            self.pos = self.pos + 1;
        }
        proof {
            let run = self.chars@.subrange(start, self.pos as int);
            run.index_of_first_ensures('.');
            if !seen_point {
                if run.contains('.') {
                    let k = choose|k: int| 0 <= k < run.len() && run[k] == '.';
                    assert(self.chars@[start + k] == '.');
                }
            } else {
                assert(run[point - start] == '.');
                let d = run.index_of_first('.')->Some_0;
                assert(d == point - start) by {
                    if d < point - start {
                        assert(self.chars@[start + d] == '.');
                    }
                }
                let rest = run.subrange(d + 1, run.len() as int);
                assert(rest =~= self.chars@.subrange(point + 1, self.pos as int));
                assert(run.subrange(0, d) =~= self.chars@.subrange(start, point));
                if second_point {
                    assert(rest[second - point - 1] == '.');
                } else {
                    if rest.contains('.') {
                        let k = choose|k: int| 0 <= k < rest.len() && rest[k] == '.';
                        assert(self.chars@[point + 1 + k] == '.');
                    }
                }
            }
        }
        if second_point {
            Err(EvaluationError::UnexpectedCharacter('.'))
        } else {
            self.last_token = Some(TokenKind::Number);
            Ok(Token::Number(Decimal { whole, fraction }))
        }
    }
}

/// The tokens of a text from a tokenizer's state on: those before the end
/// of the text or the first error, that error if there is one, and the
/// state in which the tokenizer stops.
pub struct TokenStream {
    pub tokens: Seq<TokenView>,
    pub error: Option<EvaluationError>,
    pub rest: LexerView,
}

impl LexerView {
    /// The tokens that the tokenizer has yet to give, step by step.
    pub open spec fn stream(self) -> TokenStream
        decreases self.source.len() - self.pos,
    {
        let lexed = self.step();
        match lexed.token {
            Err(e) => TokenStream { tokens: Seq::empty(), error: Some(e), rest: lexed.rest },
            Ok(TokenView::EOF) => TokenStream { tokens: Seq::empty(), error: None, rest: lexed.rest },
            Ok(t) => {
                proof {
                    lemma_step_advances(self);
                }
                let tail = lexed.rest.stream();
                TokenStream { tokens: seq![t] + tail.tokens, error: tail.error, rest: tail.rest }
            },
        }
    }
}

/// Every token of the sequence is sound.
pub open spec fn all_wf(tokens: Seq<TokenView>) -> bool {
    forall|i: int| 0 <= i < tokens.len() ==> (#[trigger] tokens[i]).wf()
}

/// Every token of a stream is sound, and none is the end marker; the error
/// that breaks a stream off is a character.
pub proof fn lemma_stream_tokens(v: LexerView)
    ensures
        all_wf(v.stream().tokens),
        forall|i: int| 0 <= i < v.stream().tokens.len() ==> !(#[trigger] v.stream().tokens[i] is EOF),
        v.stream().error is Some ==> v.stream().error->Some_0 is UnexpectedCharacter,
        v.stream().rest.source == v.source,
    decreases v.source.len() - v.pos,
{
    let lexed = v.step();
    lemma_step_advances(v);
    match lexed.token {
        Err(e) => {},
        Ok(TokenView::EOF) => {},
        Ok(t) => {
            lemma_stream_tokens(lexed.rest);
        },
    }
}

/// Once a tokenizer has given the end marker, it gives the end marker again
/// on every further step, and stays as it is.
pub proof fn lemma_end_is_final(v: LexerView)
    requires
        v.step().token == Ok::<TokenView, EvaluationError>(TokenView::EOF),
    ensures
        v.step().rest.step() == v.step(),
        v.step().rest.stream().tokens == Seq::<TokenView>::empty(),
        v.step().rest.stream().error is None,
{
    lemma_skip_blanks_bounds(v.source, v.pos as int);
    let at = skip_blanks(v.source, v.pos as int);
    if at < v.source.len() {
        let c = v.source[at];
        if is_digit(c) {
            assert(decimal_of(v.source.subrange(at, run_end(v.source, at))) is Some);
        }
    }
}

} // verus!
