use crate::ast::{
    fold_tokens, lemma_fold_inverts_postfix, lemma_operations_of_operations,
    lemma_tree_of_postfix_wf, rpn_to_ast, tree_of_postfix, ASTNode, ASTView,
};
use crate::error::EvaluationError;
use crate::lexer::{
    all_wf, lemma_number_run_stops, lemma_step_advances, lemma_stream_tokens, Lexer, LexerView,
    Token, TokenStream, TokenView,
};
use crate::number::{decimal_of, is_literal};
use crate::operator::{is_left_associative, precedence, yields_to};
use crate::shunting::{
    balanced, lemma_accept_all_tidy, lemma_accept_all_wf, lemma_finish_tidy, lemma_finish_wf,
    lemma_pass_wants_balance, lemma_postfix_wants_balance, postfix_of, ShuntState,
};
use crate::views::{lemma_deep_view_pop, lemma_deep_view_push};
use vstd::prelude::*;

verus! {

/// A parser's state: the tokenizer it draws from, and the token it has
/// drawn and not yet taken in.
pub struct ParserView {
    pub lexer: LexerView,
    pub current: TokenView,
}

/// The precedence pass over a token stream, begun in `state`. An error of
/// the pass comes before the error that ends the stream: the pass meets it
/// first.
pub open spec fn scan_stream(state: ShuntState, input: TokenStream) -> Result<
    ShuntState,
    EvaluationError,
> {
    match state.accept_all(input.tokens) {
        Err(e) => Err(e),
        Ok(end) => match input.error {
            Some(e) => Err(e),
            None => Ok(end),
        },
    }
}

/// The postfix order of a token stream.
pub open spec fn postfix_of_stream(input: TokenStream) -> Result<Seq<TokenView>, EvaluationError> {
    match scan_stream(ShuntState::empty(), input) {
        Err(e) => Err(e),
        Ok(end) => end.finish(),
    }
}

/// The tree of a token stream: its postfix order, folded. A postfix order
/// that is not that of one tree makes the expression malformed.
pub open spec fn tree_of_stream(input: TokenStream) -> Result<ASTView, EvaluationError> {
    match postfix_of_stream(input) {
        Err(e) => Err(e),
        Ok(rpn) => match tree_of_postfix(rpn) {
            Some(tree) => Ok(tree),
            None => Err(EvaluationError::MalformedExpression),
        },
    }
}

/// The tree of a text.
pub open spec fn tree_of_text(text: Seq<char>) -> Result<ASTView, EvaluationError> {
    tree_of_stream(LexerView::start(text).stream())
}

impl ParserView {
    /// The tokens the parser has yet to take in: the one it holds, then
    /// those its tokenizer has yet to give.
    pub open spec fn pending(self) -> TokenStream {
        if self.current is EOF {
            TokenStream { tokens: Seq::empty(), error: None, rest: self.lexer }
        } else {
            let tail = self.lexer.stream();
            TokenStream {
                tokens: seq![self.current] + tail.tokens,
                error: tail.error,
                rest: tail.rest,
            }
        }
    }

    /// The state in which the precedence pass, begun in `state`, leaves the
    /// parser. The pass takes in the token held and draws the next, until
    /// it holds the end marker. Where a token fails, in the pass or in the
    /// tokenizer, it stops there, holding the end marker.
    pub open spec fn scanned(self, state: ShuntState) -> ParserView
        decreases
                self.lexer.source.len() - self.lexer.pos,
                if self.current is EOF {
                    0nat
                } else {
                    1nat
                },
    {
        if self.current is EOF {
            self
        } else {
            match state.accept(self.current) {
                Err(_) => ParserView { lexer: self.lexer, current: TokenView::EOF },
                Ok(next) => {
                    let lexed = self.lexer.step();
                    match lexed.token {
                        Err(_) => ParserView { lexer: lexed.rest, current: TokenView::EOF },
                        Ok(t) => {
                            proof {
                                lemma_step_advances(self.lexer);
                            }
                            ParserView { lexer: lexed.rest, current: t }.scanned(next)
                        },
                    }
                },
            }
        }
    }
}

/// The precedence pass over what a parser has yet to take in, told one
/// token at a time: the token held is taken in, then the next is drawn.
proof fn lemma_scan_unfolds(p: ParserView, state: ShuntState)
    requires
        !(p.current is EOF),
    ensures
        scan_stream(state, p.pending()) == match state.accept(p.current) {
            Err(e) => Err(e),
            Ok(next) => match p.lexer.step().token {
                Err(e) => Err(e),
                Ok(t) => scan_stream(
                    next,
                    ParserView { lexer: p.lexer.step().rest, current: t }.pending(),
                ),
            },
        },
{
    let tail = p.lexer.stream();
    let tokens = seq![p.current] + tail.tokens;
    assert(tokens.drop_first() =~= tail.tokens);
    assert(tokens[0] == p.current);
    assert(state.accept_all(tokens) == match state.accept(p.current) {
        Err(e) => Err(e),
        Ok(next) => next.accept_all(tail.tokens),
    });
    match state.accept(p.current) {
        Err(e) => {},
        Ok(next) => {
            let lexed = p.lexer.step();
            match lexed.token {
                Err(e) => {
                    assert(tail.tokens =~= Seq::<TokenView>::empty());
                    assert(tail.error == Some(e));
                    assert(next.accept_all(tail.tokens) == Ok::<ShuntState, EvaluationError>(next));
                },
                Ok(t) => {
                    let q = ParserView { lexer: lexed.rest, current: t };
                    if t is EOF {
                        assert(tail.tokens =~= Seq::<TokenView>::empty());
                        assert(tail.error is None);
                        assert(q.pending().tokens =~= Seq::<TokenView>::empty());
                        assert(next.accept_all(tail.tokens) == Ok::<ShuntState, EvaluationError>(next));
                    } else {
                        assert(q.pending().tokens == tail.tokens);
                        assert(q.pending().error == tail.error);
                    }
                },
            }
        },
    }
}

/// The tree of a stream of sound tokens is sound.
pub proof fn lemma_tree_of_stream_wf(input: TokenStream)
    requires
        all_wf(input.tokens),
    ensures
        tree_of_stream(input) is Ok ==> tree_of_stream(input)->Ok_0.wf(),
{
    lemma_accept_all_wf(ShuntState::empty(), input.tokens);
    if let Ok(end) = scan_stream(ShuntState::empty(), input) {
        lemma_finish_wf(end);
        if let Ok(rpn) = end.finish() {
            lemma_tree_of_postfix_wf(rpn);
        }
    }
}

/// Parsing inverts postfix order: a token stream parses to a tree exactly
/// if its postfix order is that of the tree.
pub proof fn lemma_tree_spells_postfix(input: TokenStream, tree: ASTView)
    ensures
        tree_of_stream(input) == Ok::<ASTView, EvaluationError>(tree) <==> postfix_of_stream(input)
            == Ok::<Seq<TokenView>, EvaluationError>(tree.postfix()),
{
    lemma_accept_all_tidy(ShuntState::empty(), input.tokens);
    if let Ok(end) = scan_stream(ShuntState::empty(), input) {
        lemma_finish_tidy(end);
        if let Ok(rpn) = end.finish() {
            lemma_operations_of_operations(rpn);
            lemma_fold_inverts_postfix(rpn, tree);
        }
    }
}

/// When a parse fails, and how. Of a stream that the tokenizer brought to
/// its end, the parse fails on parentheses exactly if they do not pair up,
/// and as malformed exactly if they do and the postfix order is that of no
/// tree. Of a stream that the tokenizer broke off, the parse fails with the
/// tokenizer's error, unless a closing parenthesis before it had no
/// partner.
pub proof fn lemma_parse_failures(input: TokenStream)
    ensures
        input.error is None ==> (tree_of_stream(input) == Err::<ASTView, EvaluationError>(
            EvaluationError::MismatchedParentheses,
        ) <==> !balanced(input.tokens)),
        input.error is None ==> (tree_of_stream(input) == Err::<ASTView, EvaluationError>(
            EvaluationError::MalformedExpression,
        ) <==> balanced(input.tokens) && forall|t: ASTView|
            postfix_of(input.tokens) != Ok::<Seq<TokenView>, EvaluationError>(
                #[trigger] t.postfix(),
            )),
        input.error is None ==> (tree_of_stream(input) is Ok || tree_of_stream(input) == Err::<
            ASTView,
            EvaluationError,
        >(EvaluationError::MismatchedParentheses) || tree_of_stream(input) == Err::<
            ASTView,
            EvaluationError,
        >(EvaluationError::MalformedExpression)),
        input.error is Some ==> tree_of_stream(input) == Err::<ASTView, EvaluationError>(
            if ShuntState::empty().accept_all(input.tokens) is Ok {
                input.error->Some_0
            } else {
                EvaluationError::MismatchedParentheses
            },
        ),
{
    let start = ShuntState::empty();
    lemma_pass_wants_balance(start, input.tokens);
    lemma_postfix_wants_balance(input.tokens);
    if input.error is None {
        assert(postfix_of_stream(input) == postfix_of(input.tokens));
        assert forall|t: ASTView|
            tree_of_stream(input) == Ok::<ASTView, EvaluationError>(t) <==> postfix_of(
                input.tokens,
            ) == Ok::<Seq<TokenView>, EvaluationError>(#[trigger] t.postfix()) by {
            lemma_tree_spells_postfix(input, t);
        }
        if let Ok(t) = tree_of_stream(input) {
            assert(postfix_of(input.tokens) == Ok::<Seq<TokenView>, EvaluationError>(t.postfix()));
        }
    }
}

/// The tree of a text is sound.
pub proof fn lemma_tree_of_text_wf(text: Seq<char>)
    ensures
        tree_of_text(text) is Ok ==> tree_of_text(text)->Ok_0.wf(),
{
    lemma_stream_tokens(LexerView::start(text));
    lemma_tree_of_stream_wf(LexerView::start(text).stream());
}

/// The view of what the precedence pass returned.
pub open spec fn postfix_view(r: Result<Vec<Token>, EvaluationError>) -> Result<
    Seq<TokenView>,
    EvaluationError,
> {
    match r {
        Ok(rpn) => Ok(rpn.deep_view()),
        Err(e) => Err(e),
    }
}

/// The view of what a parse returned.
pub open spec fn tree_view(r: Result<ASTNode, EvaluationError>) -> Result<ASTView, EvaluationError> {
    match r {
        Ok(tree) => Ok(tree@),
        Err(e) => Err(e),
    }
}

/// The state of the precedence pass that two vectors of tokens stand for.
spec fn shunt_state(output: Vec<Token>, stack: Vec<Token>) -> ShuntState {
    ShuntState { output: output.deep_view(), stack: stack.deep_view() }
}

/// A parser over the tokens of one expression. It draws them from its
/// tokenizer one at a time.
pub struct Parser<'a> {
    lexer: &'a mut Lexer,
    current_token: Token,
}

impl<'a> View for Parser<'a> {
    type V = ParserView;

    closed spec fn view(&self) -> ParserView {
        ParserView { lexer: (*self.lexer)@, current: self.current_token@ }
    }
}

/// Whether `top`, on the operator stack, leaves it before `op` enters.
fn leaves_before(top: &Token, op: &Token) -> (leaves: bool)
    ensures
        leaves == yields_to(top@, op@),
{
    match top {
        Token::Operator(_) | Token::UnaryOperator(_) => {
            let top_precedence = precedence(top);
            let op_precedence = precedence(op);
            top_precedence > op_precedence || (top_precedence == op_precedence
                && top_precedence != 0 && is_left_associative(top))
        },
        _ => false,
    }
}

impl<'a> Parser<'a> {
    /// The borrow of the tokenizer that the parser holds.
    pub closed spec fn source(self) -> &'a mut Lexer {
        self.lexer
    }

    /// A parser that has drawn the first token from `lexer`; the error of
    /// that first token, if it has one.
    pub fn new(lexer: &'a mut Lexer) -> (r: Result<Parser<'a>, EvaluationError>)
        ensures
            match r {
                Ok(parser) => {
                    &&& old(lexer)@.step().token == Ok::<TokenView, EvaluationError>(parser@.current)
                    &&& parser@.current.wf()
                    &&& parser@.lexer == old(lexer)@.step().rest
                    &&& *final(lexer) == *final(parser.source())
                },
                Err(e) => {
                    &&& old(lexer)@.step().token == Err::<TokenView, EvaluationError>(e)
                    &&& final(lexer)@ == old(lexer)@.step().rest
                },
            },
    {
        proof {
            lemma_step_advances(lexer@);
        }
        match lexer.next_token() {
            Ok(current_token) => Ok(Parser { lexer, current_token }),
            Err(e) => Err(e),
        }
    }

    /// Draws the next token from the tokenizer.
    fn advance(&mut self) -> (r: Result<(), EvaluationError>)
        ensures
            final(self)@.lexer == old(self)@.lexer.step().rest,
            match r {
                Ok(_) => old(self)@.lexer.step().token == Ok::<TokenView, EvaluationError>(
                    final(self)@.current,
                ),
                Err(e) => {
                    &&& old(self)@.lexer.step().token == Err::<TokenView, EvaluationError>(e)
                    &&& final(self)@.current == old(self)@.current
                },
            },
            *final(final(self).source()) == *final(old(self).source()),
    {
        proof {
            lemma_step_advances((*self.lexer)@);
        }
        match self.lexer.next_token() {
            Ok(token) => {
                self.current_token = token;
                Ok(())
            },
            Err(e) => Err(e),
        }
    }

    /// The precedence pass: draws the tokens to the end and returns them in
    /// postfix order. A closing parenthesis without an opening one, an
    /// opening one never closed, and an error of the tokenizer each end the
    /// pass, the one met first.
    #[verifier::loop_isolation(false)]
    pub fn shunting_yard(&mut self) -> (r: Result<Vec<Token>, EvaluationError>)
        ensures
            postfix_view(r) == postfix_of_stream(old(self)@.pending()),
            final(self)@ == old(self)@.scanned(ShuntState::empty()),
            *final(final(self).source()) == *final(old(self).source()),
    {
        let mut output_queue: Vec<Token> = Vec::new();
        let mut operator_stack: Vec<Token> = Vec::new();
        assert(shunt_state(output_queue, operator_stack) == ShuntState::empty()) by {
            assert(output_queue.deep_view() =~= Seq::<TokenView>::empty());
            assert(operator_stack.deep_view() =~= Seq::<TokenView>::empty());
        }
        loop
            invariant
                scan_stream(shunt_state(output_queue, operator_stack), self@.pending())
                    == scan_stream(ShuntState::empty(), old(self)@.pending()),
                self@.scanned(shunt_state(output_queue, operator_stack)) == old(self)@.scanned(
                    ShuntState::empty(),
                ),
                *final(self.source()) == *final(old(self).source()),
            decreases
                    self@.lexer.source.len() - self@.lexer.pos,
                    if self@.current is EOF {
                        0nat
                    } else {
                        1nat
                    },
        {
            let ghost held = self@;
            let ghost before = shunt_state(output_queue, operator_stack);
            let mut token = Token::EOF;
            core::mem::swap(&mut self.current_token, &mut token);
            assert(token@ == held.current);
            assert(self@.current is EOF);
            assert(self@.lexer == held.lexer);
            proof {
                if !(held.current is EOF) {
                    lemma_scan_unfolds(held, before);
                    lemma_step_advances(held.lexer);
                }
            }
            match token {
                Token::EOF => {
                    break ;
                },
                Token::Number(num) => {
                    let ghost so = output_queue;
                    let number = Token::Number(num);
                    output_queue.push(number);
                    proof {
                        lemma_deep_view_push(so, output_queue, number);
                    }
                },
                Token::Operator(op) => {
                    let incoming = Token::Operator(op);
                    while operator_stack.len() > 0 && leaves_before(
                        &operator_stack[operator_stack.len() - 1],
                        &incoming,
                    )
                        invariant
                            shunt_state(output_queue, operator_stack).make_way(incoming@)
                                == before.make_way(incoming@),
                        decreases operator_stack.len(),
                    {
                        let ghost so = output_queue;
                        let ghost ss = operator_stack;
                        let top = operator_stack.pop().unwrap();
                        output_queue.push(top);
                        proof {
                            lemma_deep_view_pop(ss, operator_stack);
                            lemma_deep_view_push(so, output_queue, top);
                        }
                    }
                    let ghost ss = operator_stack;
                    proof {
                        if operator_stack.len() > 0 {
                            assert(operator_stack.deep_view().last() == operator_stack@.last()@);
                        }
                        assert(operator_stack.deep_view().len() == operator_stack.len());
                    }
                    operator_stack.push(incoming);
                    proof {
                        lemma_deep_view_push(ss, operator_stack, incoming);
                    }
                },
                Token::UnaryOperator(op) => {
                    let ghost ss = operator_stack;
                    let sign = Token::UnaryOperator(op);
                    operator_stack.push(sign);
                    proof {
                        lemma_deep_view_push(ss, operator_stack, sign);
                    }
                },
                Token::LParen => {
                    let ghost ss = operator_stack;
                    operator_stack.push(Token::LParen);
                    proof {
                        lemma_deep_view_push(ss, operator_stack, Token::LParen);
                    }
                },
                Token::RParen => {
                    let mut matched = false;
                    while !matched && operator_stack.len() > 0
                        invariant
                            matched ==> before.close() == Ok::<ShuntState, EvaluationError>(
                                shunt_state(output_queue, operator_stack),
                            ),
                            !matched ==> shunt_state(output_queue, operator_stack).close()
                                == before.close(),
                        decreases operator_stack.len(),
                    {
                        let ghost so = output_queue;
                        let ghost ss = operator_stack;
                        let top = operator_stack.pop().unwrap();
                        proof {
                            lemma_deep_view_pop(ss, operator_stack);
                        }
                        match top {
                            Token::LParen => {
                                matched = true;
                            },
                            other => {
                                output_queue.push(other);
                                proof {
                                    lemma_deep_view_push(so, output_queue, other);
                                }
                            },
                        }
                    }
                    if !matched {
                        assert(operator_stack.deep_view().len() == 0);
                        return Err(EvaluationError::MismatchedParentheses);
                    }
                },
            }
            match self.advance() {
                Err(e) => {
                    return Err(e);
                },
                Ok(_) => {},
            }
        }
        let ghost end = shunt_state(output_queue, operator_stack);
        let mut unmatched = false;
        while !unmatched && operator_stack.len() > 0
            invariant
                unmatched ==> end.finish() == Err::<Seq<TokenView>, EvaluationError>(
                    EvaluationError::MismatchedParentheses,
                ),
                !unmatched ==> shunt_state(output_queue, operator_stack).finish() == end.finish(),
            decreases operator_stack.len(),
        {
            let ghost so = output_queue;
            let ghost ss = operator_stack;
            let top = operator_stack.pop().unwrap();
            proof {
                lemma_deep_view_pop(ss, operator_stack);
            }
            match top {
                Token::LParen => {
                    unmatched = true;
                },
                other => {
                    output_queue.push(other);
                    proof {
                        lemma_deep_view_push(so, output_queue, other);
                    }
                },
            }
        }
        if unmatched {
            return Err(EvaluationError::MismatchedParentheses);
        }
        assert(operator_stack.deep_view().len() == 0);
        Ok(output_queue)
    }

    /// Parses the expression that the parser has yet to take in: the
    /// precedence pass, then the fold of its postfix order into a tree.
    pub fn parse(&mut self) -> (r: Result<ASTNode, EvaluationError>)
        ensures
            tree_view(r) == tree_of_stream(old(self)@.pending()),
            old(self)@.current.wf() && r is Ok ==> r->Ok_0@.wf(),
            final(self)@ == old(self)@.scanned(ShuntState::empty()),
            *final(final(self).source()) == *final(old(self).source()),
    {
        proof {
            let input = self@.pending();
            lemma_stream_tokens(self@.lexer);
            if self@.current.wf() {
                assert(all_wf(input.tokens));
                lemma_tree_of_stream_wf(input);
            }
        }
        match self.shunting_yard() {
            Err(e) => Err(e),
            Ok(output_queue) => match rpn_to_ast(output_queue) {
                Some(node) => Ok(node),
                None => Err(EvaluationError::MalformedExpression),
            },
        }
    }
}

/// Parses one line of text into its tree: tokenizer, precedence pass and
/// fold, the first error ending the work.
pub fn parse_text(text: &str) -> (r: Result<ASTNode, EvaluationError>)
    ensures
        tree_view(r) == tree_of_text(text@),
        r is Ok ==> r->Ok_0@.wf(),
{
    let mut lexer = Lexer::new(text);
    proof {
        lemma_step_advances(lexer@);
        lemma_tree_of_text_wf(text@);
    }
    match Parser::new(&mut lexer) {
        Err(e) => Err(e),
        Ok(mut parser) => parser.parse(),
    }
}

/// A literal alone parses to the number it denotes: the tree of a text
/// that is one number, a digit first and at most one decimal point, is the
/// leaf that holds its digits.
pub proof fn lemma_literal_parses_to_its_number(text: Seq<char>)
    requires
        is_literal(text),
    ensures
        tree_of_text(text) == Ok::<ASTView, EvaluationError>(
            ASTView::Number(decimal_of(text)->Some_0),
        ),
        decimal_of(text)->Some_0.wf(),
{
    let d = decimal_of(text)->Some_0;
    let v = LexerView::start(text);
    lemma_number_run_stops(text, 0, text.len() as int);
    assert(text.subrange(0, text.len() as int) =~= text);
    assert(v.step().token == Ok::<TokenView, EvaluationError>(TokenView::Number(d)));
    let rest = v.step().rest;
    assert(rest.pos == text.len());
    assert(rest.step().token == Ok::<TokenView, EvaluationError>(TokenView::EOF));
    assert(rest.stream().tokens =~= Seq::<TokenView>::empty());
    let tokens = v.stream().tokens;
    assert(tokens =~= seq![TokenView::Number(d)]);
    assert(v.stream().error is None);
    let first = ShuntState::empty().emit(TokenView::Number(d));
    assert(tokens.drop_first() =~= Seq::<TokenView>::empty());
    assert(first.accept_all(tokens.drop_first()) == Ok::<ShuntState, EvaluationError>(first));
    assert(ShuntState::empty().accept_all(tokens) == Ok::<ShuntState, EvaluationError>(first));
    assert(first.finish() == Ok::<Seq<TokenView>, EvaluationError>(first.output));
    let rpn = first.output;
    assert(rpn =~= seq![TokenView::Number(d)]);
    let leaf = Seq::<ASTView>::empty().push(ASTView::Number(d));
    assert(rpn.drop_first() =~= Seq::<TokenView>::empty());
    assert(fold_tokens(leaf, rpn.drop_first()) == Some(leaf));
    assert(fold_tokens(Seq::empty(), rpn) == Some(leaf));
    lemma_tree_of_text_wf(text);
}

/// Parsing holds no state: whatever two parses of one text return, they
/// return the same, tree for tree and error for error.
pub proof fn lemma_parse_is_repeatable(
    text: Seq<char>,
    first: Result<ASTNode, EvaluationError>,
    second: Result<ASTNode, EvaluationError>,
)
    requires
        tree_view(first) == tree_of_text(text),
        tree_view(second) == tree_of_text(text),
    ensures
        tree_view(first) == tree_view(second),
        first is Err ==> second == first,
{
}

} // verus!
