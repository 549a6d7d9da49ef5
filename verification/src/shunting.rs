use crate::error::EvaluationError;
use crate::lexer::{all_wf, TokenView};
use crate::ast::is_operation;
use crate::operator::{is_operator, yields_to};
use vstd::prelude::*;

verus! {

/// The state of the precedence pass: the postfix sequence written so far,
/// and the stack of operators and opening parentheses that wait, the top
/// last.
pub struct ShuntState {
    pub output: Seq<TokenView>,
    pub stack: Seq<TokenView>,
}

impl ShuntState {
    /// Nothing written, nothing waiting.
    pub open spec fn empty() -> ShuntState {
        ShuntState { output: Seq::empty(), stack: Seq::empty() }
    }

    /// The state with this output and this stack.
    pub open spec fn holding(output: Seq<TokenView>, stack: Seq<TokenView>) -> ShuntState {
        ShuntState { output, stack }
    }

    /// The token goes to the output.
    pub open spec fn emit(self, t: TokenView) -> ShuntState {
        ShuntState { output: self.output.push(t), stack: self.stack }
    }

    /// The token goes on the stack.
    pub open spec fn hold(self, t: TokenView) -> ShuntState {
        ShuntState { output: self.output, stack: self.stack.push(t) }
    }

    /// The top of the stack moves to the output.
    pub open spec fn release(self) -> ShuntState {
        ShuntState { output: self.output.push(self.stack.last()), stack: self.stack.drop_last() }
    }

    /// Every operator on top of the stack that is applied before `op` moves
    /// to the output.
    pub open spec fn make_way(self, op: TokenView) -> ShuntState
        decreases self.stack.len(),
    {
        if self.stack.len() > 0 && yields_to(self.stack.last(), op) {
            self.release().make_way(op)
        } else {
            self
        }
    }

    /// What waits above the nearest opening parenthesis moves to the
    /// output, and the parenthesis is dropped. Without one on the stack the
    /// closing parenthesis has no partner.
    pub open spec fn close(self) -> Result<ShuntState, EvaluationError>
        decreases self.stack.len(),
    {
        if self.stack.len() == 0 {
            Err(EvaluationError::MismatchedParentheses)
        } else if self.stack.last() is LParen {
            Ok(ShuntState { output: self.output, stack: self.stack.drop_last() })
        } else {
            self.release().close()
        }
    }

    /// One token taken in.
    pub open spec fn accept(self, t: TokenView) -> Result<ShuntState, EvaluationError> {
        match t {
            TokenView::Number(_) => Ok(self.emit(t)),
            TokenView::Operator(_) => Ok(self.make_way(t).hold(t)),
            TokenView::UnaryOperator(_) => Ok(self.hold(t)),
            TokenView::LParen => Ok(self.hold(t)),
            TokenView::RParen => self.close(),
            TokenView::EOF => Ok(self),
        }
    }

    /// The tokens taken in from left to right, up to the first that fails
    /// or the end marker.
    pub open spec fn accept_all(self, tokens: Seq<TokenView>) -> Result<ShuntState, EvaluationError>
        decreases tokens.len(),
    {
        if tokens.len() == 0 || tokens[0] is EOF {
            Ok(self)
        } else {
            match self.accept(tokens[0]) {
                Err(e) => Err(e),
                Ok(next) => next.accept_all(tokens.drop_first()),
            }
        }
    }

    /// After the last token the stack is emptied into the output, the top
    /// first. An opening parenthesis still there has no partner.
    pub open spec fn finish(self) -> Result<Seq<TokenView>, EvaluationError>
        decreases self.stack.len(),
    {
        if self.stack.len() == 0 {
            Ok(self.output)
        } else if self.stack.last() is LParen {
            Err(EvaluationError::MismatchedParentheses)
        } else {
            self.release().finish()
        }
    }
}

/// The postfix order of an infix token sequence.
pub open spec fn postfix_of(tokens: Seq<TokenView>) -> Result<Seq<TokenView>, EvaluationError> {
    match ShuntState::empty().accept_all(tokens) {
        Err(e) => Err(e),
        Ok(state) => state.finish(),
    }
}

impl ShuntState {
    /// Every token held, in the output or on the stack, is sound.
    pub open spec fn wf(self) -> bool {
        all_wf(self.output) && all_wf(self.stack)
    }
}

/// Making way keeps the tokens sound.
proof fn lemma_make_way_wf(state: ShuntState, op: TokenView)
    requires
        state.wf(),
    ensures
        state.make_way(op).wf(),
    decreases state.stack.len(),
{
    if state.stack.len() > 0 && yields_to(state.stack.last(), op) {
        lemma_make_way_wf(state.release(), op);
    }
}

/// Closing a parenthesis keeps the tokens sound.
proof fn lemma_close_wf(state: ShuntState)
    requires
        state.wf(),
    ensures
        state.close() is Ok ==> state.close()->Ok_0.wf(),
    decreases state.stack.len(),
{
    if state.stack.len() > 0 && !(state.stack.last() is LParen) {
        lemma_close_wf(state.release());
    }
}

/// Taking in a sound token keeps the tokens sound.
proof fn lemma_accept_wf(state: ShuntState, t: TokenView)
    requires
        state.wf(),
        t.wf(),
    ensures
        state.accept(t) is Ok ==> state.accept(t)->Ok_0.wf(),
{
    lemma_make_way_wf(state, t);
    lemma_close_wf(state);
}

/// Taking in sound tokens keeps the tokens sound.
pub proof fn lemma_accept_all_wf(state: ShuntState, tokens: Seq<TokenView>)
    requires
        state.wf(),
        all_wf(tokens),
    ensures
        state.accept_all(tokens) is Ok ==> state.accept_all(tokens)->Ok_0.wf(),
    decreases tokens.len(),
{
    if tokens.len() > 0 && !(tokens[0] is EOF) {
        lemma_accept_wf(state, tokens[0]);
        if let Ok(next) = state.accept(tokens[0]) {
            lemma_accept_all_wf(next, tokens.drop_first());
        }
    }
}

/// What the pass returns of sound tokens is sound.
pub proof fn lemma_finish_wf(state: ShuntState)
    requires
        state.wf(),
    ensures
        state.finish() is Ok ==> all_wf(state.finish()->Ok_0),
    decreases state.stack.len(),
{
    if state.stack.len() > 0 && !(state.stack.last() is LParen) {
        lemma_finish_wf(state.release());
    }
}

impl ShuntState {
    /// The output holds numbers and operators only, the stack operators
    /// and opening parentheses only.
    pub open spec fn tidy(self) -> bool {
        &&& forall|i: int| 0 <= i < self.output.len() ==> is_operation(#[trigger] self.output[i])
        &&& forall|i: int|
            0 <= i < self.stack.len() ==> is_operator(#[trigger] self.stack[i]) || self.stack[i] is LParen
    }
}

/// Making way keeps the state tidy.
proof fn lemma_make_way_tidy(state: ShuntState, op: TokenView)
    requires
        state.tidy(),
    ensures
        state.make_way(op).tidy(),
    decreases state.stack.len(),
{
    if state.stack.len() > 0 && yields_to(state.stack.last(), op) {
        lemma_make_way_tidy(state.release(), op);
    }
}

/// Closing a parenthesis keeps the state tidy.
proof fn lemma_close_tidy(state: ShuntState)
    requires
        state.tidy(),
    ensures
        state.close() is Ok ==> state.close()->Ok_0.tidy(),
    decreases state.stack.len(),
{
    if state.stack.len() > 0 && !(state.stack.last() is LParen) {
        lemma_close_tidy(state.release());
    }
}

/// Taking tokens in keeps the state tidy.
pub proof fn lemma_accept_all_tidy(state: ShuntState, tokens: Seq<TokenView>)
    requires
        state.tidy(),
    ensures
        state.accept_all(tokens) is Ok ==> state.accept_all(tokens)->Ok_0.tidy(),
    decreases tokens.len(),
{
    if tokens.len() > 0 && !(tokens[0] is EOF) {
        lemma_make_way_tidy(state, tokens[0]);
        lemma_close_tidy(state);
        if let Ok(next) = state.accept(tokens[0]) {
            lemma_accept_all_tidy(next, tokens.drop_first());
        }
    }
}

/// What the pass returns holds numbers and operators only.
pub proof fn lemma_finish_tidy(state: ShuntState)
    requires
        state.tidy(),
    ensures
        state.finish() is Ok ==> forall|i: int|
            0 <= i < state.finish()->Ok_0.len() ==> is_operation(#[trigger] state.finish()->Ok_0[i]),
    decreases state.stack.len(),
{
    if state.stack.len() > 0 && !(state.stack.last() is LParen) {
        lemma_finish_tidy(state.release());
    }
}

/// The number of opening parentheses among the tokens.
pub open spec fn open_count(tokens: Seq<TokenView>) -> nat
    decreases tokens.len(),
{
    if tokens.len() == 0 {
        0
    } else if tokens.last() is LParen {
        open_count(tokens.drop_last()) + 1
    } else {
        open_count(tokens.drop_last())
    }
}

/// Whether the parentheses of a token sequence pair up, `depth` of them
/// being open where it starts: no closing one comes without an open one
/// before it, and none is open at the end. What follows an end marker does
/// not count.
pub open spec fn balanced_from(tokens: Seq<TokenView>, depth: nat) -> bool
    decreases tokens.len(),
{
    if tokens.len() == 0 || tokens[0] is EOF {
        depth == 0
    } else if tokens[0] is LParen {
        balanced_from(tokens.drop_first(), depth + 1)
    } else if tokens[0] is RParen {
        depth > 0 && balanced_from(tokens.drop_first(), (depth - 1) as nat)
    } else {
        balanced_from(tokens.drop_first(), depth)
    }
}

/// Whether the parentheses of a token sequence pair up.
pub open spec fn balanced(tokens: Seq<TokenView>) -> bool {
    balanced_from(tokens, 0)
}

/// Making way moves operators only: the parentheses stay.
proof fn lemma_make_way_keeps_parentheses(state: ShuntState, op: TokenView)
    ensures
        open_count(state.make_way(op).stack) == open_count(state.stack),
    decreases state.stack.len(),
{
    if state.stack.len() > 0 && yields_to(state.stack.last(), op) {
        lemma_make_way_keeps_parentheses(state.release(), op);
    }
}

/// A parenthesis can be closed exactly if one is open on the stack, and
/// one fewer is open then.
proof fn lemma_close_takes_a_parenthesis(state: ShuntState)
    ensures
        state.close() is Ok <==> open_count(state.stack) > 0,
        state.close() is Ok ==> open_count(state.close()->Ok_0.stack) + 1 == open_count(
            state.stack,
        ),
        state.close() is Err ==> state.close() == Err::<ShuntState, EvaluationError>(
            EvaluationError::MismatchedParentheses,
        ),
    decreases state.stack.len(),
{
    if state.stack.len() > 0 && !(state.stack.last() is LParen) {
        lemma_close_takes_a_parenthesis(state.release());
    }
}

/// The stack can be emptied at the end exactly if no parenthesis is open on
/// it.
proof fn lemma_finish_wants_none_open(state: ShuntState)
    ensures
        state.finish() is Ok <==> open_count(state.stack) == 0,
        state.finish() is Err ==> state.finish() == Err::<Seq<TokenView>, EvaluationError>(
            EvaluationError::MismatchedParentheses,
        ),
    decreases state.stack.len(),
{
    if state.stack.len() > 0 && !(state.stack.last() is LParen) {
        lemma_finish_wants_none_open(state.release());
    }
}

/// The pass, begun with some parentheses open on the stack, comes to its
/// end exactly if the parentheses of the tokens pair up with those.
pub proof fn lemma_pass_wants_balance(state: ShuntState, tokens: Seq<TokenView>)
    ensures
        match state.accept_all(tokens) {
            Ok(end) => end.finish() is Ok <==> balanced_from(tokens, open_count(state.stack)),
            Err(e) => e == EvaluationError::MismatchedParentheses && !balanced_from(
                tokens,
                open_count(state.stack),
            ),
        },
    decreases tokens.len(),
{
    if tokens.len() == 0 || tokens[0] is EOF {
        lemma_finish_wants_none_open(state);
    } else {
        let t = tokens[0];
        lemma_make_way_keeps_parentheses(state, t);
        lemma_close_takes_a_parenthesis(state);
        if let Ok(next) = state.accept(t) {
            assert(state.stack.push(t).drop_last() =~= state.stack);
            assert(state.make_way(t).stack.push(t).drop_last() =~= state.make_way(t).stack);
            lemma_pass_wants_balance(next, tokens.drop_first());
        }
    }
}

/// The precedence pass fails on unpaired parentheses and on nothing else:
/// it gives a postfix order exactly if the parentheses of the tokens pair
/// up.
pub proof fn lemma_postfix_wants_balance(tokens: Seq<TokenView>)
    ensures
        postfix_of(tokens) is Ok <==> balanced(tokens),
        postfix_of(tokens) is Err ==> postfix_of(tokens) == Err::<Seq<TokenView>, EvaluationError>(
            EvaluationError::MismatchedParentheses,
        ),
{
    lemma_pass_wants_balance(ShuntState::empty(), tokens);
    if let Ok(end) = ShuntState::empty().accept_all(tokens) {
        lemma_finish_wants_none_open(end);
    }
}

} // verus!
