use crate::ast::{tree_of_postfix, ASTView, lemma_fold_of_postfix};
use crate::error::EvaluationError;
use crate::lexer::{
    is_binary_symbol, is_blank, is_sign, lemma_blanks_stop, lemma_number_run_stops, sign_expected,
    skip_blanks, LexerView, TokenKind, TokenView,
};
use crate::parser::tree_of_text;
use crate::number::{is_digit, is_number_char, lemma_decimal_round_trip, DecimalView};
use crate::operator::{is_operator, left_associative, precedence_of, yields_to};
use crate::shunting::{postfix_of, ShuntState};
use vstd::prelude::*;

verus! {

/// An expression as it is written: a syntax tree that also says where the
/// parentheses stand, and which blanks stand in front of each token.
pub enum Infix {
    Number { blanks: Seq<char>, value: DecimalView },
    Unary { blanks: Seq<char>, op: char, operand: Box<Infix> },
    Binary { lhs: Box<Infix>, blanks: Seq<char>, op: char, rhs: Box<Infix> },
    Paren { blanks: Seq<char>, inner: Box<Infix>, closing_blanks: Seq<char> },
}

/// Nothing but spaces and tabs.
pub open spec fn all_blank(s: Seq<char>) -> bool {
    forall|i: int| 0 <= i < s.len() ==> is_blank(#[trigger] s[i])
}

/// The level of a sign in front of its operand.
pub open spec fn sign_level() -> nat {
    precedence_of(TokenView::UnaryOperator('-'))
}

/// The level of a number and of an expression in parentheses: above every
/// operator.
pub open spec fn atom_level() -> nat {
    sign_level() + 1
}

/// The least level that the left operand of a binary operator must have
/// to stand without parentheses: the operator's own where it groups from
/// the left, the next above where it groups from the right.
pub open spec fn left_need(op: char) -> nat {
    let t = TokenView::Operator(op);
    if left_associative(t) {
        precedence_of(t)
    } else {
        precedence_of(t) + 1
    }
}

/// The same for the right operand.
pub open spec fn right_need(op: char) -> nat {
    let t = TokenView::Operator(op);
    if left_associative(t) {
        precedence_of(t) + 1
    } else {
        precedence_of(t)
    }
}

impl Infix {
    /// The expression, token by token.
    pub open spec fn tokens(self) -> Seq<TokenView>
        decreases self,
    {
        match self {
            Infix::Number { value: d, .. } => seq![TokenView::Number(d)],
            Infix::Unary { op, operand, .. } => seq![TokenView::UnaryOperator(op)] + operand.tokens(),
            Infix::Binary { lhs, op, rhs, .. } => lhs.tokens() + seq![TokenView::Operator(op)]
                + rhs.tokens(),
            Infix::Paren { inner, .. } => seq![TokenView::LParen] + inner.tokens() + seq![TokenView::RParen],
        }
    }

    /// The syntax tree that the expression stands for: itself without the
    /// parentheses.
    pub open spec fn tree(self) -> ASTView
        decreases self,
    {
        match self {
            Infix::Number { value: d, .. } => ASTView::Number(d),
            Infix::Unary { op, operand, .. } => ASTView::UnaryOperator {
                op,
                operand: Box::new(operand.tree()),
            },
            Infix::Binary { lhs, op, rhs, .. } => ASTView::BinaryOperator {
                lhs: Box::new(lhs.tree()),
                op,
                rhs: Box::new(rhs.tree()),
            },
            Infix::Paren { inner, .. } => inner.tree(),
        }
    }

    /// How tightly the expression holds together: the precedence of its
    /// outermost operator, or the level of an atom.
    pub open spec fn level(self) -> nat {
        match self {
            Infix::Number { .. } => atom_level(),
            Infix::Unary { .. } => sign_level(),
            Infix::Binary { op, .. } => precedence_of(TokenView::Operator(op)),
            Infix::Paren { .. } => atom_level(),
        }
    }

    /// The expression is written by the rules: between the tokens stand
    /// blanks only, every number is a sound decimal, every operator is one
    /// of its symbols, and an operand that binds less tightly than its place
    /// asks stands in parentheses. The operand of a sign is a number, an
    /// expression in parentheses, or again a sign with its operand.
    pub open spec fn grammatical(self) -> bool
        decreases self,
    {
        match self {
            Infix::Number { blanks, value } => all_blank(blanks) && value.wf(),
            Infix::Unary { blanks, op, operand } => {
                &&& all_blank(blanks)
                &&& is_sign(op)
                &&& operand.grammatical()
                &&& operand.level() >= sign_level()
            },
            Infix::Binary { lhs, blanks, op, rhs } => {
                &&& all_blank(blanks)
                &&& is_binary_symbol(op)
                &&& lhs.grammatical()
                &&& rhs.grammatical()
                &&& lhs.level() >= left_need(op)
                &&& rhs.level() >= right_need(op)
            },
            Infix::Paren { blanks, inner, closing_blanks } => {
                &&& all_blank(blanks)
                &&& all_blank(closing_blanks)
                &&& inner.grammatical()
            },
        }
    }

    /// What the precedence pass has written to the output when it has
    /// taken the expression in.
    pub open spec fn settled(self) -> Seq<TokenView>
        decreases self,
    {
        match self {
            Infix::Number { value: d, .. } => seq![TokenView::Number(d)],
            Infix::Unary { op, operand, .. } => operand.settled(),
            Infix::Binary { lhs, op, rhs, .. } => lhs.tree().postfix() + rhs.settled(),
            Infix::Paren { inner, .. } => inner.tree().postfix(),
        }
    }

    /// The operators that then still wait on the stack, the top last.
    pub open spec fn waiting(self) -> Seq<TokenView>
        decreases self,
    {
        match self {
            Infix::Number { value: d, .. } => Seq::empty(),
            Infix::Unary { op, operand, .. } => seq![TokenView::UnaryOperator(op)] + operand.waiting(),
            Infix::Binary { lhs, op, rhs, .. } => seq![TokenView::Operator(op)] + rhs.waiting(),
            Infix::Paren { inner, .. } => Seq::empty(),
        }
    }
}

/// The token `guard`, on top of the stack, stays there whatever binary
/// operator of level `level` or above arrives.
pub open spec fn stays_below(guard: TokenView, level: nat) -> bool {
    ||| !is_operator(guard)
    ||| precedence_of(guard) < level
    ||| (precedence_of(guard) == level && !left_associative(guard))
}

/// The top of the stack, if there is one, stays there whatever binary
/// operator of level `level` or above arrives.
pub open spec fn shelters(state: ShuntState, level: nat) -> bool {
    state.stack.len() > 0 ==> stays_below(state.stack.last(), level)
}

/// Every token is an operator of level `level` or above.
pub open spec fn operators_from(tokens: Seq<TokenView>, level: nat) -> bool {
    forall|i: int|
        0 <= i < tokens.len() ==> is_operator(#[trigger] tokens[i]) && precedence_of(tokens[i])
            >= level
}

/// One token sequence taken in after another is the two taken in in a
/// row, where the first holds no end marker.
proof fn lemma_accept_in_a_row(state: ShuntState, first: Seq<TokenView>, second: Seq<TokenView>)
    requires
        forall|i: int| 0 <= i < first.len() ==> !(#[trigger] first[i] is EOF),
    ensures
        state.accept_all(first + second) == match state.accept_all(first) {
            Err(e) => Err(e),
            Ok(middle) => middle.accept_all(second),
        },
    decreases first.len(),
{
    if first.len() == 0 {
        assert(first + second =~= second);
    } else {
        assert((first + second)[0] == first[0]);
        assert((first + second).drop_first() =~= first.drop_first() + second);
        if let Ok(next) = state.accept(first[0]) {
            lemma_accept_in_a_row(next, first.drop_first(), second);
        }
    }
}

/// The tokens of an expression hold no end marker.
proof fn lemma_tokens_hold_no_end(e: Infix)
    ensures
        forall|i: int| 0 <= i < e.tokens().len() ==> !(#[trigger] e.tokens()[i] is EOF),
    decreases e,
{
    match e {
        Infix::Number { value: d, .. } => {},
        Infix::Unary { op, operand, .. } => {
            lemma_tokens_hold_no_end(*operand);
        },
        Infix::Binary { lhs, op, rhs, .. } => {
            lemma_tokens_hold_no_end(*lhs);
            lemma_tokens_hold_no_end(*rhs);
        },
        Infix::Paren { inner, .. } => {
            lemma_tokens_hold_no_end(*inner);
        },
    }
}

/// Operators that wait on top of the stack and all leave before `op`,
/// above a token that stays, move to the output, the top first.
proof fn lemma_make_way_moves(
    output: Seq<TokenView>,
    base: Seq<TokenView>,
    waiting: Seq<TokenView>,
    op: TokenView,
)
    requires
        forall|i: int| 0 <= i < waiting.len() ==> yields_to(#[trigger] waiting[i], op),
        base.len() > 0 ==> !yields_to(base.last(), op),
    ensures
        ShuntState::holding(output, base + waiting).make_way(op) == ShuntState::holding(
            output + waiting.reverse(),
            base,
        ),
    decreases waiting.len(),
{
    let state = ShuntState { output, stack: base + waiting };
    if waiting.len() == 0 {
        assert(base + waiting =~= base);
        assert(output + waiting.reverse() =~= output);
    } else {
        let top = waiting.last();
        assert(state.stack.last() == top);
        assert(state.stack.drop_last() =~= base + waiting.drop_last());
        lemma_make_way_moves(output.push(top), base, waiting.drop_last(), op);
        assert(output.push(top) + waiting.drop_last().reverse() =~= output + waiting.reverse());
    }
}

/// Operators that wait above an opening parenthesis move to the output
/// when the parenthesis is closed, the top first, and the parenthesis goes.
proof fn lemma_close_moves(output: Seq<TokenView>, base: Seq<TokenView>, waiting: Seq<TokenView>)
    requires
        forall|i: int| 0 <= i < waiting.len() ==> is_operator(#[trigger] waiting[i]),
    ensures
        ShuntState::holding(output, base.push(TokenView::LParen) + waiting).close() == Ok::<
            ShuntState,
            EvaluationError,
        >(ShuntState::holding(output + waiting.reverse(), base)),
    decreases waiting.len(),
{
    let state = ShuntState { output, stack: base.push(TokenView::LParen) + waiting };
    if waiting.len() == 0 {
        assert(base.push(TokenView::LParen) + waiting =~= base.push(TokenView::LParen));
        assert(state.stack.drop_last() =~= base);
        assert(output + waiting.reverse() =~= output);
    } else {
        let top = waiting.last();
        assert(state.stack.last() == top);
        assert(state.stack.drop_last() =~= base.push(TokenView::LParen) + waiting.drop_last());
        lemma_close_moves(output.push(top), base, waiting.drop_last());
        assert(output.push(top) + waiting.drop_last().reverse() =~= output + waiting.reverse());
    }
}

/// Operators that wait on the stack at the end move to the output, the top
/// first.
proof fn lemma_finish_moves(output: Seq<TokenView>, waiting: Seq<TokenView>)
    requires
        forall|i: int| 0 <= i < waiting.len() ==> is_operator(#[trigger] waiting[i]),
    ensures
        ShuntState::holding(output, waiting).finish() == Ok::<Seq<TokenView>, EvaluationError>(
            output + waiting.reverse(),
        ),
    decreases waiting.len(),
{
    let state = ShuntState { output, stack: waiting };
    if waiting.len() == 0 {
        assert(output + waiting.reverse() =~= output);
    } else {
        let top = waiting.last();
        lemma_finish_moves(output.push(top), waiting.drop_last());
        assert(output.push(top) + waiting.drop_last().reverse() =~= output + waiting.reverse());
    }
}

/// What is written and what waits, read one after the other, is the
/// postfix order of the tree; and what waits are operators of the
/// expression's level or above.
proof fn lemma_settled_and_waiting(e: Infix)
    requires
        e.grammatical(),
    ensures
        e.settled() + e.waiting().reverse() == e.tree().postfix(),
        operators_from(e.waiting(), e.level()),
    decreases e,
{
    match e {
        Infix::Number { value: d, .. } => {
            assert(e.waiting().reverse() =~= Seq::<TokenView>::empty());
            assert(e.settled() + e.waiting().reverse() =~= e.tree().postfix());
        },
        Infix::Unary { op, operand, .. } => {
            lemma_settled_and_waiting(*operand);
            let first = seq![TokenView::UnaryOperator(op)];
            assert((first + operand.waiting()).reverse() =~= operand.waiting().reverse() + first);
            assert(e.settled() + e.waiting().reverse() =~= (operand.settled()
                + operand.waiting().reverse()) + first);
        },
        Infix::Binary { lhs, op, rhs, .. } => {
            lemma_settled_and_waiting(*rhs);
            let first = seq![TokenView::Operator(op)];
            assert((first + rhs.waiting()).reverse() =~= rhs.waiting().reverse() + first);
            assert(e.settled() + e.waiting().reverse() =~= lhs.tree().postfix() + (rhs.settled()
                + rhs.waiting().reverse()) + first);
        },
        Infix::Paren { inner, .. } => {
            assert(e.waiting().reverse() =~= Seq::<TokenView>::empty());
            assert(e.settled() + e.waiting().reverse() =~= e.tree().postfix());
        },
    }
}

/// The precedence pass over an expression written by the rules: from a
/// state whose stack top stays put, it adds to the output what
/// [`Infix::settled`] says and to the stack what [`Infix::waiting`] says.
pub proof fn lemma_accept_infix(state: ShuntState, e: Infix)
    requires
        e.grammatical(),
        shelters(state, e.level()),
    ensures
        state.accept_all(e.tokens()) == Ok::<ShuntState, EvaluationError>(
            ShuntState::holding(state.output + e.settled(), state.stack + e.waiting()),
        ),
    decreases e,
{
    let none = Seq::<TokenView>::empty();
    match e {
        Infix::Number { value: d, .. } => {
            let tokens = e.tokens();
            assert(tokens.drop_first() =~= none);
            let next = state.emit(TokenView::Number(d));
            assert(next.accept_all(none) == Ok::<ShuntState, EvaluationError>(next));
            assert(state.stack + e.waiting() =~= state.stack);
            assert(state.output + e.settled() =~= next.output);
        },
        Infix::Unary { op, operand, .. } => {
            let sign = TokenView::UnaryOperator(op);
            let first = seq![sign];
            let next = state.hold(sign);
            assert(first.drop_first() =~= none);
            assert(next.accept_all(none) == Ok::<ShuntState, EvaluationError>(next));
            assert(state.accept_all(first) == Ok::<ShuntState, EvaluationError>(next));
            lemma_accept_in_a_row(state, first, operand.tokens());
            lemma_accept_infix(next, *operand);
            assert(next.stack + operand.waiting() =~= state.stack + e.waiting());
        },
        Infix::Binary { lhs, op, rhs, .. } => {
            let t = TokenView::Operator(op);
            let first = seq![t];
            lemma_tokens_hold_no_end(*lhs);
            lemma_accept_in_a_row(state, lhs.tokens() + first, rhs.tokens());
            lemma_accept_in_a_row(state, lhs.tokens(), first);
            lemma_accept_infix(state, *lhs);
            lemma_settled_and_waiting(*lhs);
            let left = ShuntState {
                output: state.output + lhs.settled(),
                stack: state.stack + lhs.waiting(),
            };
            lemma_make_way_moves(left.output, state.stack, lhs.waiting(), t);
            let made = ShuntState { output: left.output + lhs.waiting().reverse(), stack: state.stack };
            assert(left.make_way(t) == made);
            let next = made.hold(t);
            assert(first.drop_first() =~= none);
            assert(next.accept_all(none) == Ok::<ShuntState, EvaluationError>(next));
            assert(left.accept_all(first) == Ok::<ShuntState, EvaluationError>(next));
            lemma_accept_infix(next, *rhs);
            assert(made.output =~= state.output + lhs.tree().postfix());
            assert(next.output + rhs.settled() =~= state.output + e.settled());
            assert(next.stack + rhs.waiting() =~= state.stack + e.waiting());
        },
        Infix::Paren { inner, .. } => {
            let open = seq![TokenView::LParen];
            let shut = seq![TokenView::RParen];
            lemma_tokens_hold_no_end(*inner);
            lemma_accept_in_a_row(state, open + inner.tokens(), shut);
            lemma_accept_in_a_row(state, open, inner.tokens());
            let next = state.hold(TokenView::LParen);
            assert(open.drop_first() =~= none);
            assert(next.accept_all(none) == Ok::<ShuntState, EvaluationError>(next));
            assert(state.accept_all(open) == Ok::<ShuntState, EvaluationError>(next));
            lemma_accept_infix(next, *inner);
            lemma_settled_and_waiting(*inner);
            let inside = ShuntState {
                output: next.output + inner.settled(),
                stack: next.stack + inner.waiting(),
            };
            lemma_close_moves(inside.output, state.stack, inner.waiting());
            let closed = ShuntState {
                output: inside.output + inner.waiting().reverse(),
                stack: state.stack,
            };
            assert(inside.close() == Ok::<ShuntState, EvaluationError>(closed));
            assert(shut.drop_first() =~= none);
            assert(closed.accept_all(none) == Ok::<ShuntState, EvaluationError>(closed));
            assert(inside.accept_all(shut) == Ok::<ShuntState, EvaluationError>(closed));
            assert(closed.output =~= state.output + e.settled());
            assert(state.stack + e.waiting() =~= state.stack);
        },
    }
}

/// The precedence pass is right: the postfix order it gives for an
/// expression written by the rules is the postfix order of the tree that
/// the expression stands for, and folds into that tree.
pub proof fn lemma_pass_of_infix(e: Infix)
    requires
        e.grammatical(),
    ensures
        postfix_of(e.tokens()) == Ok::<Seq<TokenView>, EvaluationError>(e.tree().postfix()),
        tree_of_postfix(e.tree().postfix()) == Some(e.tree()),
{
    let start = ShuntState::empty();
    lemma_accept_infix(start, e);
    lemma_settled_and_waiting(e);
    assert(start.output + e.settled() =~= e.settled());
    assert(start.stack + e.waiting() =~= e.waiting());
    lemma_finish_moves(e.settled(), e.waiting());
    lemma_fold_of_postfix(Seq::empty(), e.tree());
    assert(Seq::<ASTView>::empty().push(e.tree())[0] == e.tree());
}

impl Infix {
    /// The expression, character by character.
    pub open spec fn text(self) -> Seq<char>
        decreases self,
    {
        match self {
            Infix::Number { blanks, value } => blanks + value.text(),
            Infix::Unary { blanks, op, operand } => blanks + seq![op] + operand.text(),
            Infix::Binary { lhs, blanks, op, rhs } => lhs.text() + blanks + seq![op] + rhs.text(),
            Infix::Paren { blanks, inner, closing_blanks } => blanks + seq!['('] + inner.text()
                + closing_blanks + seq![')'],
        }
    }

    /// The state of a tokenizer that has gone over the expression from the
    /// state `v`.
    pub open spec fn behind(self, v: LexerView) -> LexerView {
        v.moved((v.pos + self.text().len()) as int, Some(self.last_kind()))
    }

    /// The kind of the expression's last token.
    pub open spec fn last_kind(self) -> TokenKind
        decreases self,
    {
        match self {
            Infix::Number { .. } => TokenKind::Number,
            Infix::Unary { op, operand, .. } => operand.last_kind(),
            Infix::Binary { lhs, op, rhs, .. } => rhs.last_kind(),
            Infix::Paren { .. } => TokenKind::RParen,
        }
    }
}

/// An expression ends in a number or a closing parenthesis: a sign behind
/// it is a binary operator.
proof fn lemma_ends_in_operand(e: Infix)
    ensures
        !sign_expected(Some(e.last_kind())),
    decreases e,
{
    match e {
        Infix::Number { .. } => {},
        Infix::Unary { op, operand, .. } => {
            lemma_ends_in_operand(*operand);
        },
        Infix::Binary { lhs, op, rhs, .. } => {
            lemma_ends_in_operand(*rhs);
        },
        Infix::Paren { .. } => {},
    }
}

/// Whether the text holds `part` from position `at` on.
pub open spec fn holds_at(source: Seq<char>, at: int, part: Seq<char>) -> bool {
    &&& 0 <= at
    &&& at + part.len() <= source.len()
    &&& source.subrange(at, at + part.len()) == part
}

/// A text that holds two parts in a row holds each at its place.
proof fn lemma_holds_parts(source: Seq<char>, at: int, first: Seq<char>, second: Seq<char>)
    requires
        holds_at(source, at, first + second),
    ensures
        holds_at(source, at, first),
        holds_at(source, at + first.len(), second),
{
    let whole = first + second;
    let part = source.subrange(at, at + whole.len());
    assert forall|j: int| 0 <= j < first.len() implies source[at + j] == first[j] by {
        assert(part[j] == whole[j]);
    }
    assert forall|j: int| 0 <= j < second.len() implies source[at + first.len() + j]
        == second[j] by {
        assert(part[first.len() + j] == whole[first.len() + j]);
    }
    assert(source.subrange(at, at + first.len()) =~= first);
    assert(source.subrange(at + first.len(), at + first.len() + second.len()) =~= second);
}

/// Blanks in front of a character that is none are passed over.
proof fn lemma_blanks_before(source: Seq<char>, at: int, blanks: Seq<char>, c: char)
    requires
        holds_at(source, at, blanks + seq![c]),
        all_blank(blanks),
        !is_blank(c),
    ensures
        skip_blanks(source, at) == at + blanks.len(),
        source[at + blanks.len()] == c,
{
    lemma_holds_parts(source, at, blanks, seq![c]);
    let from = at + blanks.len();
    assert(source.subrange(from, from + 1)[0] == c);
    assert forall|i: int| at <= i < from implies is_blank(#[trigger] source[i]) by {
        assert(source.subrange(at, from)[i - at] == blanks[i - at]);
    }
    lemma_blanks_stop(source, at, from);
}

/// The tokenizer over a number with blanks in front: it gives the number
/// and stands behind it.
proof fn lemma_step_over_number(v: LexerView, e: Infix)
    requires
        e is Number,
        e.grammatical(),
        holds_at(v.source, v.pos as int, e.text()),
        e.behind(v).pos < v.source.len() ==> !is_number_char(v.source[e.behind(v).pos as int]),
    ensures
        v.step().token == Ok::<TokenView, EvaluationError>(e.tokens()[0]),
        v.step().rest == e.behind(v),
{
    let s = v.source;
    let at = v.pos as int;
    if let Infix::Number { blanks, value } = e {
        let from = at + blanks.len();
        let end = from + value.text().len();
        lemma_decimal_round_trip(value);
        lemma_holds_parts(s, at, blanks, value.text());
        assert forall|i: int| at <= i < from implies is_blank(#[trigger] s[i]) by {
            assert(s.subrange(at, from)[i - at] == blanks[i - at]);
        }
        assert forall|i: int| from <= i < end implies is_number_char(#[trigger] s[i]) by {
            assert(s.subrange(from, end)[i - from] == value.text()[i - from]);
        }
        assert(is_digit(s[from]));
        lemma_blanks_stop(s, at, from);
        lemma_number_run_stops(s, from, end);
    }
}

/// The tokenizer over an expression written by the rules: where the text
/// holds the expression at the tokenizer's position, a sign would be
/// expected there, and no digit or point follows the expression, the
/// tokenizer gives the expression's tokens and goes on behind it.
pub proof fn lemma_stream_of_infix(v: LexerView, e: Infix)
    requires
        e.grammatical(),
        sign_expected(v.last),
        holds_at(v.source, v.pos as int, e.text()),
        e.behind(v).pos < v.source.len() ==> !is_number_char(v.source[e.behind(v).pos as int]),
    ensures
        v.stream().tokens == e.tokens() + e.behind(v).stream().tokens,
        v.stream().error == e.behind(v).stream().error,
        v.stream().rest == e.behind(v).stream().rest,
    decreases e, 1nat,
{
    match e {
        Infix::Number { blanks, value } => {
            let after = e.behind(v);
            lemma_step_over_number(v, e);
            assert(seq![TokenView::Number(value)] + after.stream().tokens =~= e.tokens()
                + after.stream().tokens);
        },
        Infix::Unary { .. } => {
            lemma_stream_of_sign(v, e);
        },
        Infix::Binary { .. } => {
            lemma_stream_of_binary(v, e);
        },
        Infix::Paren { .. } => {
            lemma_stream_of_parentheses(v, e);
        },
    }
}

/// [`lemma_stream_of_infix`] for a sign and its operand.
proof fn lemma_stream_of_sign(v: LexerView, e: Infix)
    requires
        e is Unary,
        e.grammatical(),
        sign_expected(v.last),
        holds_at(v.source, v.pos as int, e.text()),
        e.behind(v).pos < v.source.len() ==> !is_number_char(v.source[e.behind(v).pos as int]),
    ensures
        v.stream().tokens == e.tokens() + e.behind(v).stream().tokens,
        v.stream().error == e.behind(v).stream().error,
        v.stream().rest == e.behind(v).stream().rest,
    decreases e, 0nat,
{
    let s = v.source;
    let at = v.pos as int;
    let after = e.behind(v);
    if let Infix::Unary { blanks, op, operand } = e {
        let from = at + blanks.len();
        assert(e.text() =~= (blanks + seq![op]) + operand.text());
        lemma_holds_parts(s, at, blanks + seq![op], operand.text());
        lemma_blanks_before(s, at, blanks, op);
        let next = v.moved(from + 1, Some(TokenKind::UnaryOperator));
        assert(v.step().token == Ok::<TokenView, EvaluationError>(TokenView::UnaryOperator(op)));
        assert(v.step().rest == next);
        assert(operand.behind(next) == after);
        lemma_stream_of_infix(next, *operand);
        assert(seq![TokenView::UnaryOperator(op)] + (operand.tokens() + after.stream().tokens)
            =~= e.tokens() + after.stream().tokens);
    }
}

/// [`lemma_stream_of_infix`] for a binary operator and its operands.
proof fn lemma_stream_of_binary(v: LexerView, e: Infix)
    requires
        e is Binary,
        e.grammatical(),
        sign_expected(v.last),
        holds_at(v.source, v.pos as int, e.text()),
        e.behind(v).pos < v.source.len() ==> !is_number_char(v.source[e.behind(v).pos as int]),
    ensures
        v.stream().tokens == e.tokens() + e.behind(v).stream().tokens,
        v.stream().error == e.behind(v).stream().error,
        v.stream().rest == e.behind(v).stream().rest,
    decreases e, 0nat,
{
    let s = v.source;
    let at = v.pos as int;
    let after = e.behind(v);
    if let Infix::Binary { lhs, blanks, op, rhs } = e {
        let middle = at + lhs.text().len();
        let from = middle + blanks.len();
        assert(e.text() =~= lhs.text() + ((blanks + seq![op]) + rhs.text()));
        lemma_holds_parts(s, at, lhs.text(), (blanks + seq![op]) + rhs.text());
        lemma_holds_parts(s, middle, blanks + seq![op], rhs.text());
        lemma_blanks_before(s, middle, blanks, op);
        let left = lhs.behind(v);
        assert(left.pos == middle);
        if blanks.len() == 0 {
            assert(s[middle] == op);
        } else {
            lemma_holds_parts(s, middle, blanks, seq![op]);
            assert(s.subrange(middle, from)[0] == blanks[0]);
        }
        lemma_stream_of_infix(v, *lhs);
        lemma_ends_in_operand(*lhs);
        let next = v.moved(from + 1, Some(TokenKind::Operator));
        assert(left.step().token == Ok::<TokenView, EvaluationError>(TokenView::Operator(op)));
        assert(left.step().rest == next);
        assert(rhs.behind(next) == after);
        lemma_stream_of_infix(next, *rhs);
        assert(lhs.tokens() + (seq![TokenView::Operator(op)] + (rhs.tokens()
            + after.stream().tokens)) =~= e.tokens() + after.stream().tokens);
    }
}

/// [`lemma_stream_of_infix`] for an expression in parentheses.
proof fn lemma_stream_of_parentheses(v: LexerView, e: Infix)
    requires
        e is Paren,
        e.grammatical(),
        sign_expected(v.last),
        holds_at(v.source, v.pos as int, e.text()),
    ensures
        v.stream().tokens == e.tokens() + e.behind(v).stream().tokens,
        v.stream().error == e.behind(v).stream().error,
        v.stream().rest == e.behind(v).stream().rest,
    decreases e, 0nat,
{
    let s = v.source;
    let at = v.pos as int;
    let after = e.behind(v);
    if let Infix::Paren { blanks, inner, closing_blanks } = e {
        let from = at + blanks.len();
        let shut = from + 1 + inner.text().len();
        let last = shut + closing_blanks.len();
        assert(e.text() =~= (blanks + seq!['(']) + (inner.text() + (closing_blanks + seq![')'])));
        lemma_holds_parts(s, at, blanks + seq!['('], inner.text() + (closing_blanks + seq![')']));
        lemma_holds_parts(s, from + 1, inner.text(), closing_blanks + seq![')']);
        lemma_blanks_before(s, at, blanks, '(');
        lemma_blanks_before(s, shut, closing_blanks, ')');
        let next = v.moved(from + 1, Some(TokenKind::LParen));
        assert(v.step().token == Ok::<TokenView, EvaluationError>(TokenView::LParen));
        assert(v.step().rest == next);
        let inside = inner.behind(next);
        assert(inside.pos == shut);
        if closing_blanks.len() == 0 {
            assert(s[shut] == ')');
        } else {
            lemma_holds_parts(s, shut, closing_blanks, seq![')']);
            assert(s.subrange(shut, last)[0] == closing_blanks[0]);
        }
        lemma_stream_of_infix(next, *inner);
        assert(inside.step().token == Ok::<TokenView, EvaluationError>(TokenView::RParen));
        assert(inside.step().rest == after);
        assert(seq![TokenView::LParen] + (inner.tokens() + (seq![TokenView::RParen]
            + after.stream().tokens)) =~= e.tokens() + after.stream().tokens);
    }
}

/// The parser is right: an expression written by the rules, with blanks
/// behind it or none, parses to the tree that it stands for.
pub proof fn lemma_parse_of_infix(e: Infix, trailing: Seq<char>)
    requires
        e.grammatical(),
        all_blank(trailing),
    ensures
        tree_of_text(e.text() + trailing) == Ok::<ASTView, EvaluationError>(e.tree()),
{
    let text = e.text() + trailing;
    let v = LexerView::start(text);
    let end = e.text().len() as int;
    assert(text.subrange(0, end) =~= e.text());
    if end < text.len() {
        assert(text[end] == trailing[0]);
    }
    lemma_stream_of_infix(v, e);
    let after = e.behind(v);
    assert forall|i: int| end <= i < text.len() implies is_blank(#[trigger] text[i]) by {
        assert(text[i] == trailing[i - end]);
    }
    lemma_blanks_stop(text, end, text.len() as int);
    assert(after.step().token == Ok::<TokenView, EvaluationError>(TokenView::EOF));
    assert(e.tokens() + after.stream().tokens =~= e.tokens());
    lemma_pass_of_infix(e);
}

} // verus!
