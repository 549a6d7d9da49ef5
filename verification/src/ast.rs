use crate::lexer::{all_wf, is_binary_symbol, is_sign, Token, TokenView};
use crate::number::{Decimal, DecimalView};
use crate::views::{lemma_deep_view_pop, lemma_deep_view_push};
use vstd::prelude::*;

verus! {

/// A syntax tree. Each node owns its children.
#[derive(Debug, PartialEq, Eq)]
pub enum ASTNode {
    Number(Decimal),
    BinaryOperator { lhs: Box<ASTNode>, op: char, rhs: Box<ASTNode> },
    UnaryOperator { op: char, operand: Box<ASTNode> },
}

/// The mathematical content of an [`ASTNode`].
pub enum ASTView {
    Number(DecimalView),
    BinaryOperator { lhs: Box<ASTView>, op: char, rhs: Box<ASTView> },
    UnaryOperator { op: char, operand: Box<ASTView> },
}

impl ASTNode {
    /// The tree as a mathematical value, node for node.
    pub open spec fn model(&self) -> ASTView
        decreases self,
    {
        match self {
            ASTNode::Number(d) => ASTView::Number(d@),
            ASTNode::BinaryOperator { lhs, op, rhs } => ASTView::BinaryOperator {
                lhs: Box::new(lhs.model()),
                op: *op,
                rhs: Box::new(rhs.model()),
            },
            ASTNode::UnaryOperator { op, operand } => ASTView::UnaryOperator {
                op: *op,
                operand: Box::new(operand.model()),
            },
        }
    }
}

impl View for ASTNode {
    type V = ASTView;

    open spec fn view(&self) -> ASTView {
        self.model()
    }
}

impl DeepView for ASTNode {
    type V = ASTView;

    open spec fn deep_view(&self) -> ASTView {
        self.model()
    }
}

impl ASTView {
    /// The tree in postfix order: the operands of a node, left before
    /// right, then its operator.
    pub open spec fn postfix(self) -> Seq<TokenView>
        decreases self,
    {
        match self {
            ASTView::Number(d) => seq![TokenView::Number(d)],
            ASTView::BinaryOperator { lhs, op, rhs } => lhs.postfix() + rhs.postfix()
                + seq![TokenView::Operator(op)],
            ASTView::UnaryOperator { op, operand } => operand.postfix()
                + seq![TokenView::UnaryOperator(op)],
        }
    }
}

/// One postfix token applied to a stack of trees, the top last. A number
/// becomes a leaf. A binary operator takes the two topmost trees, the lower
/// as its left operand; a sign takes the topmost. `None` where operands are
/// missing. Parentheses and the end marker change nothing.
pub open spec fn fold_token(stack: Seq<ASTView>, t: TokenView) -> Option<Seq<ASTView>> {
    match t {
        TokenView::Number(d) => Some(stack.push(ASTView::Number(d))),
        TokenView::Operator(op) => {
            if stack.len() >= 2 {
                Some(
                    stack.take(stack.len() - 2).push(
                        ASTView::BinaryOperator {
                            lhs: Box::new(stack[stack.len() - 2]),
                            op,
                            rhs: Box::new(stack[stack.len() - 1]),
                        },
                    ),
                )
            } else {
                None
            }
        },
        TokenView::UnaryOperator(op) => {
            if stack.len() >= 1 {
                Some(
                    stack.take(stack.len() - 1).push(
                        ASTView::UnaryOperator { op, operand: Box::new(stack[stack.len() - 1]) },
                    ),
                )
            } else {
                None
            }
        },
        _ => Some(stack),
    }
}

/// A postfix sequence applied to a stack of trees, from left to right.
pub open spec fn fold_tokens(stack: Seq<ASTView>, rpn: Seq<TokenView>) -> Option<Seq<ASTView>>
    decreases rpn.len(),
{
    if rpn.len() == 0 {
        Some(stack)
    } else {
        match fold_token(stack, rpn[0]) {
            None => None,
            Some(next) => fold_tokens(next, rpn.drop_first()),
        }
    }
}

/// The tree that a postfix sequence folds into: the one tree left when the
/// sequence has been applied to the empty stack.
pub open spec fn tree_of_postfix(rpn: Seq<TokenView>) -> Option<ASTView> {
    match fold_tokens(Seq::empty(), rpn) {
        Some(stack) => if stack.len() == 1 {
            Some(stack[0])
        } else {
            None
        },
        None => None,
    }
}

/// Folds a postfix token sequence into its tree; `None` where it is not
/// the postfix order of exactly one tree.
pub fn rpn_to_ast(rpn_tokens: Vec<Token>) -> (tree: Option<ASTNode>)
    ensures
        tree.deep_view() == tree_of_postfix(rpn_tokens.deep_view()),
        match tree {
            Some(node) => node@.postfix() == operations(rpn_tokens.deep_view()),
            None => forall|t: ASTView| t.postfix() != operations(rpn_tokens.deep_view()),
        },
{
    let ghost all = rpn_tokens.deep_view();
    assert forall|t: ASTView| tree_of_postfix(all) == Some(t) <==> #[trigger] t.postfix()
        == operations(all) by {
        lemma_fold_inverts_postfix(all, t);
    }
    let ghost raw = rpn_tokens@;
    let mut stack: Vec<ASTNode> = Vec::new();
    assert(stack.deep_view() =~= Seq::<ASTView>::empty());
    assert(all.skip(0) =~= all);
    for token in it: rpn_tokens
        invariant
            it.seq() == raw,
            all == rpn_tokens.deep_view(),
            forall|t: ASTView|
                tree_of_postfix(all) == Some(t) <==> #[trigger] t.postfix() == operations(all),
            all.len() == raw.len(),
            forall|i: int| 0 <= i < raw.len() ==> all[i] == raw[i]@,
            fold_tokens(stack.deep_view(), all.skip(it.index() as int)) == fold_tokens(
                Seq::empty(),
                all,
            ),
    {
        let ghost rest = all.skip(it.index() as int);
        let ghost before = stack;
        assert(rest[0] == token@);
        assert(rest.drop_first() =~= all.skip(it.index() + 1));
        assert(stack.deep_view().len() == stack.len());
        assert(fold_tokens(stack.deep_view(), rest) == match fold_token(stack.deep_view(), rest[0]) {
            None => None,
            Some(next) => fold_tokens(next, rest.drop_first()),
        });
        match token {
            Token::Number(num) => {
                let node = ASTNode::Number(num);
                stack.push(node);
                proof {
                    lemma_deep_view_push(before, stack, node);
                }
            },
            Token::Operator(op) => {
                if stack.len() < 2 {
                    return None;
                }
                let right = stack.pop().unwrap();
                let ghost middle = stack;
                let left = stack.pop().unwrap();
                let ghost lower = stack;
                let node = ASTNode::BinaryOperator { lhs: Box::new(left), op, rhs: Box::new(right) };
                stack.push(node);
                proof {
                    lemma_deep_view_pop(before, middle);
                    lemma_deep_view_pop(middle, lower);
                    lemma_deep_view_push(lower, stack, node);
                    let views = before.deep_view();
                    assert(views.drop_last().drop_last() =~= views.take(views.len() - 2));
                    assert(views[views.len() - 2] == left@);
                }
            },
            Token::UnaryOperator(op) => {
                if stack.len() < 1 {
                    return None;
                }
                let opr = stack.pop().unwrap();
                let ghost lower = stack;
                let node = ASTNode::UnaryOperator { op, operand: Box::new(opr) };
                stack.push(node);
                proof {
                    lemma_deep_view_pop(before, lower);
                    lemma_deep_view_push(lower, stack, node);
                    let views = before.deep_view();
                    assert(views.drop_last() =~= views.take(views.len() - 1));
                }
            },
            _ => {},
        }
    }
    assert(all.skip(raw.len() as int).len() == 0);
    if stack.len() == 1 {
        stack.pop()
    } else {
        None
    }
}

impl ASTView {
    /// Every operator in the tree is one of its symbols, every number a
    /// sound decimal.
    pub open spec fn wf(self) -> bool
        decreases self,
    {
        match self {
            ASTView::Number(d) => d.wf(),
            ASTView::BinaryOperator { lhs, op, rhs } => is_binary_symbol(op) && lhs.wf() && rhs.wf(),
            ASTView::UnaryOperator { op, operand } => is_sign(op) && operand.wf(),
        }
    }
}

/// Every tree of the sequence is sound.
pub open spec fn all_trees_wf(trees: Seq<ASTView>) -> bool {
    forall|i: int| 0 <= i < trees.len() ==> (#[trigger] trees[i]).wf()
}

/// A fold of sound tokens over sound trees leaves sound trees.
proof fn lemma_fold_tokens_wf(stack: Seq<ASTView>, rpn: Seq<TokenView>)
    requires
        all_trees_wf(stack),
        all_wf(rpn),
    ensures
        fold_tokens(stack, rpn) is Some ==> all_trees_wf(fold_tokens(stack, rpn)->Some_0),
    decreases rpn.len(),
{
    if rpn.len() > 0 {
        assert(rpn[0].wf());
        if let Some(next) = fold_token(stack, rpn[0]) {
            lemma_fold_tokens_wf(next, rpn.drop_first());
        }
    }
}

/// The tree that sound postfix tokens fold into is sound.
pub proof fn lemma_tree_of_postfix_wf(rpn: Seq<TokenView>)
    requires
        all_wf(rpn),
    ensures
        tree_of_postfix(rpn) is Some ==> tree_of_postfix(rpn)->Some_0.wf(),
{
    lemma_fold_tokens_wf(Seq::empty(), rpn);
}

/// The tokens that make up postfix order: numbers and operators.
pub open spec fn is_operation(t: TokenView) -> bool {
    t is Number || t is Operator || t is UnaryOperator
}

/// A token sequence without its parentheses and end markers.
pub open spec fn operations(tokens: Seq<TokenView>) -> Seq<TokenView>
    decreases tokens.len(),
{
    if tokens.len() == 0 {
        Seq::empty()
    } else if is_operation(tokens[0]) {
        seq![tokens[0]] + operations(tokens.drop_first())
    } else {
        operations(tokens.drop_first())
    }
}

/// The postfix orders of a stack of trees, one after the other, the bottom
/// first.
pub open spec fn forest_postfix(trees: Seq<ASTView>) -> Seq<TokenView>
    decreases trees.len(),
{
    if trees.len() == 0 {
        Seq::empty()
    } else {
        forest_postfix(trees.drop_last()) + trees.last().postfix()
    }
}

/// A sequence that holds numbers and operators only is its own
/// [`operations`].
pub proof fn lemma_operations_of_operations(tokens: Seq<TokenView>)
    requires
        forall|i: int| 0 <= i < tokens.len() ==> is_operation(#[trigger] tokens[i]),
    ensures
        operations(tokens) == tokens,
    decreases tokens.len(),
{
    if tokens.len() > 0 {
        lemma_operations_of_operations(tokens.drop_first());
        assert(seq![tokens[0]] + tokens.drop_first() =~= tokens);
    }
}

/// Folding one sequence after another is folding the two in a row.
proof fn lemma_fold_in_a_row(stack: Seq<ASTView>, first: Seq<TokenView>, second: Seq<TokenView>)
    ensures
        fold_tokens(stack, first + second) == match fold_tokens(stack, first) {
            None => None,
            Some(middle) => fold_tokens(middle, second),
        },
    decreases first.len(),
{
    if first.len() == 0 {
        assert(first + second =~= second);
    } else {
        assert((first + second)[0] == first[0]);
        assert((first + second).drop_first() =~= first.drop_first() + second);
        if let Some(next) = fold_token(stack, first[0]) {
            lemma_fold_in_a_row(next, first.drop_first(), second);
        }
    }
}

/// Folding the postfix order of a tree puts that tree on the stack.
pub proof fn lemma_fold_of_postfix(stack: Seq<ASTView>, tree: ASTView)
    ensures
        fold_tokens(stack, tree.postfix()) == Some(stack.push(tree)),
    decreases tree,
{
    match tree {
        ASTView::Number(d) => {
            let rpn = seq![TokenView::Number(d)];
            assert(rpn.drop_first() =~= Seq::<TokenView>::empty());
            assert(fold_tokens(stack.push(tree), rpn.drop_first()) == Some(stack.push(tree)));
        },
        ASTView::BinaryOperator { lhs, op, rhs } => {
            let last = seq![TokenView::Operator(op)];
            lemma_fold_of_postfix(stack, *lhs);
            lemma_fold_of_postfix(stack.push(*lhs), *rhs);
            lemma_fold_in_a_row(stack, lhs.postfix(), rhs.postfix());
            lemma_fold_in_a_row(stack, lhs.postfix() + rhs.postfix(), last);
            let both = stack.push(*lhs).push(*rhs);
            assert(both.take(both.len() - 2) =~= stack);
            assert(last.drop_first() =~= Seq::<TokenView>::empty());
            assert(fold_tokens(stack.push(tree), last.drop_first()) == Some(stack.push(tree)));
            assert(fold_token(both, last[0]) == Some(stack.push(tree)));
        },
        ASTView::UnaryOperator { op, operand } => {
            let last = seq![TokenView::UnaryOperator(op)];
            lemma_fold_of_postfix(stack, *operand);
            lemma_fold_in_a_row(stack, operand.postfix(), last);
            let one = stack.push(*operand);
            assert(one.take(one.len() - 1) =~= stack);
            assert(last.drop_first() =~= Seq::<TokenView>::empty());
            assert(fold_tokens(stack.push(tree), last.drop_first()) == Some(stack.push(tree)));
            assert(fold_token(one, last[0]) == Some(stack.push(tree)));
        },
    }
}

/// Parentheses and end markers make no difference to a fold.
proof fn lemma_fold_of_operations(stack: Seq<ASTView>, rpn: Seq<TokenView>)
    ensures
        fold_tokens(stack, rpn) == fold_tokens(stack, operations(rpn)),
    decreases rpn.len(),
{
    if rpn.len() > 0 {
        let rest = rpn.drop_first();
        if is_operation(rpn[0]) {
            let ops = seq![rpn[0]] + operations(rest);
            assert(ops[0] == rpn[0]);
            assert(ops.drop_first() =~= operations(rest));
            if let Some(next) = fold_token(stack, rpn[0]) {
                lemma_fold_of_operations(next, rest);
            }
        } else {
            lemma_fold_of_operations(stack, rest);
        }
    }
}

/// What a fold leaves on the stack spells, in postfix order, what was on
/// the stack before and then the numbers and operators folded.
proof fn lemma_fold_keeps_postfix(stack: Seq<ASTView>, rpn: Seq<TokenView>)
    requires
        fold_tokens(stack, rpn) is Some,
    ensures
        forest_postfix(fold_tokens(stack, rpn)->Some_0) == forest_postfix(stack) + operations(rpn),
    decreases rpn.len(),
{
    if rpn.len() == 0 {
        assert(forest_postfix(stack) + operations(rpn) =~= forest_postfix(stack));
    } else {
        let t = rpn[0];
        let rest = rpn.drop_first();
        let next = fold_token(stack, t)->Some_0;
        lemma_fold_keeps_postfix(next, rest);
        let n = stack.len() as int;
        match t {
            TokenView::Number(d) => {
                assert(next.drop_last() =~= stack);
                assert(forest_postfix(next) == forest_postfix(stack) + seq![t]);
            },
            TokenView::Operator(op) => {
                let below = stack.take(n - 2);
                assert(next.drop_last() =~= below);
                assert(stack.drop_last().drop_last() =~= below);
                assert(stack.drop_last().last() == stack[n - 2]);
                assert(forest_postfix(stack.drop_last()) == forest_postfix(below) + stack[n
                    - 2].postfix());
                assert(forest_postfix(stack) == forest_postfix(below) + stack[n - 2].postfix()
                    + stack[n - 1].postfix());
                assert(forest_postfix(next) =~= forest_postfix(stack) + seq![t]);
            },
            TokenView::UnaryOperator(op) => {
                let below = stack.take(n - 1);
                assert(next.drop_last() =~= below);
                assert(stack.drop_last() =~= below);
                assert(forest_postfix(next) =~= forest_postfix(stack) + seq![t]);
            },
            _ => {},
        }
        if is_operation(t) {
            assert(forest_postfix(next) + operations(rest) =~= forest_postfix(stack) + (seq![t]
                + operations(rest)));
        }
    }
}

/// A postfix sequence folds into a tree exactly if its numbers and
/// operators are the postfix order of that tree.
pub proof fn lemma_fold_inverts_postfix(rpn: Seq<TokenView>, tree: ASTView)
    ensures
        tree_of_postfix(rpn) == Some(tree) <==> tree.postfix() == operations(rpn),
{
    let none = Seq::<ASTView>::empty();
    if tree_of_postfix(rpn) == Some(tree) {
        lemma_fold_keeps_postfix(none, rpn);
        let stack = fold_tokens(none, rpn)->Some_0;
        assert(stack.drop_last() =~= none);
        assert(forest_postfix(stack) =~= tree.postfix());
        assert(forest_postfix(none) + operations(rpn) =~= operations(rpn));
    }
    if tree.postfix() == operations(rpn) {
        lemma_fold_of_operations(none, rpn);
        lemma_fold_of_postfix(none, tree);
    }
}

/// No two trees share a postfix order.
pub proof fn lemma_postfix_is_injective(a: ASTView, b: ASTView)
    requires
        a.postfix() == b.postfix(),
    ensures
        a == b,
{
    lemma_fold_of_postfix(Seq::empty(), a);
    lemma_fold_of_postfix(Seq::empty(), b);
    assert(Seq::<ASTView>::empty().push(a)[0] == a);
    assert(Seq::<ASTView>::empty().push(b)[0] == b);
}

} // verus!
