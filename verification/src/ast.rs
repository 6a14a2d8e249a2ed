//! The parser: tokens to an expression tree, by precedence climbing.

use crate::scan::{Token, TokenError};
use vstd::prelude::*;

verus! {

/// A node of an expression tree: an integer, or an operator over two
/// subtrees.
#[derive(Debug, PartialEq)]
pub struct ASTNode {
    pub operation: Token,
    pub left: Option<Box<ASTNode>>,
    pub right: Option<Box<ASTNode>>,
}

/// Why a token sequence is no expression.
#[derive(Debug, Clone, Copy, PartialEq, Eq, Structural)]
pub enum ASTError {
    UnexpectedToken(Token),
    LexicalError(TokenError),
    ExpectedOperator,
    ExpectedInteger,
    EmptyExpression,
    InvalidLeafNode,
}

/// How strongly a token binds as an operator: 1 for `+` and `-`, 2 for `*`
/// and `/`, and 0 for a token that is no operator.
pub open spec fn binding_power(token: Token) -> nat {
    match token {
        Token::PLUS | Token::MINUS => 1,
        Token::ASTERISK | Token::SLASH => 2,
        _ => 0,
    }
}

/// The four arithmetic operators.
pub open spec fn is_operator(token: Token) -> bool {
    binding_power(token) > 0
}

/// The node that holds the integer `token` and has no children.
pub open spec fn leaf(token: Token) -> ASTNode {
    ASTNode { operation: token, left: None, right: None }
}

/// The node that applies `operation` to two subtrees.
pub open spec fn branch(operation: Token, left: ASTNode, right: ASTNode) -> ASTNode {
    ASTNode { operation, left: Some(Box::new(left)), right: Some(Box::new(right)) }
}

/// The binding power of the token at `at`; 0 where a scanner's error stands.
pub open spec fn power_at(tokens: Seq<Result<Token, TokenError>>, at: int) -> nat {
    match tokens[at] {
        Ok(token) => binding_power(token),
        Err(_) => 0,
    }
}

/// What is found where an operand has to stand: the leaf of an integer, or
/// the error for anything else.
pub open spec fn primary_spec(tokens: Seq<Result<Token, TokenError>>, at: int) -> Result<
    ASTNode,
    ASTError,
> {
    if 0 <= at < tokens.len() {
        match tokens[at] {
            Ok(Token::INT(n)) => Ok(leaf(Token::INT(n))),
            Ok(token) => Err(ASTError::UnexpectedToken(token)),
            Err(error) => Err(ASTError::LexicalError(error)),
        }
    } else {
        Err(ASTError::EmptyExpression)
    }
}

/// Where the expression that starts at `start` ends, if only operators of
/// binding power `min` or more may continue it: the position behind its last
/// operand. An expression is a chain of operands with an operator between
/// each two. Where the chain breaks, the result is the error together with
/// the position at which reading stopped.
pub open spec fn expression_end(tokens: Seq<Result<Token, TokenError>>, start: int, min: nat) -> Result<
    int,
    (ASTError, int),
>
    decreases tokens.len() - start, 1nat,
{
    match primary_spec(tokens, start) {
        Ok(_) => operator_end(tokens, start + 1, min),
        Err(error) => Err((error, if start < tokens.len() { start + 1 } else { start })),
    }
}

/// As `expression_end`, for a chain whose last operand ends at `at`: it goes
/// on if an operator of binding power `min` or more stands at `at`, fails if a
/// scanner's error stands there, and ends otherwise.
pub open spec fn operator_end(tokens: Seq<Result<Token, TokenError>>, at: int, min: nat) -> Result<
    int,
    (ASTError, int),
>
    decreases tokens.len() - at, 0nat,
{
    if 0 <= at < tokens.len() {
        match tokens[at] {
            Ok(token) => if is_operator(token) && binding_power(token) >= min {
                expression_end(tokens, at + 1, min)
            } else {
                Ok(at)
            },
            Err(error) => Err((ASTError::LexicalError(error), at)),
        }
    } else {
        Ok(at)
    }
}

/// The position of the operator that is applied last in the chain from `lo`
/// to `hi`: of the operators that bind most weakly, the rightmost.
pub open spec fn split_point(tokens: Seq<Result<Token, TokenError>>, lo: int, hi: int) -> int
    decreases hi - lo,
{
    if hi - lo <= 3 {
        lo + 1
    } else {
        let earlier = split_point(tokens, lo, hi - 2);
        if power_at(tokens, hi - 2) <= power_at(tokens, earlier) {
            hi - 2
        } else {
            earlier
        }
    }
}

/// The split point of a chain of three tokens or more lies inside it.
pub proof fn lemma_split_point_inside(tokens: Seq<Result<Token, TokenError>>, lo: int, hi: int)
    requires
        hi - lo >= 3,
    ensures
        lo < split_point(tokens, lo, hi) < hi - 1,
        (hi - lo) % 2 == 1 ==> (split_point(tokens, lo, hi) - lo) % 2 == 1,
    decreases hi - lo,
{
    if hi - lo >= 5 {
        lemma_split_point_inside(tokens, lo, hi - 2);
    } else if hi - lo == 4 {
        assert(split_point(tokens, lo, hi - 2) == lo + 1);
    }
}

/// The tree of the chain from `lo` to `hi`: a leaf for a single operand, and
/// otherwise the operator at the split point over the trees of the chains on
/// its two sides. So `*` and `/` bind more strongly than `+` and `-`, and
/// operators of equal strength group from the left.
pub open spec fn tree_of(tokens: Seq<Result<Token, TokenError>>, lo: int, hi: int) -> ASTNode
    decreases hi - lo,
    via tree_of_decreases
{
    if hi - lo < 3 {
        leaf(tokens[lo]->Ok_0)
    } else {
        let at = split_point(tokens, lo, hi);
        branch(tokens[at]->Ok_0, tree_of(tokens, lo, at), tree_of(tokens, at + 1, hi))
    }
}

#[via_fn]
proof fn tree_of_decreases(tokens: Seq<Result<Token, TokenError>>, lo: int, hi: int) {
    if hi - lo >= 3 {
        lemma_split_point_inside(tokens, lo, hi);
    }
}

/// The tokens from `lo` to `hi` are a chain: operands and operators in turn,
/// an operand first and last, every operator of binding power `min` or more.
pub open spec fn is_chain(tokens: Seq<Result<Token, TokenError>>, lo: int, hi: int, min: nat) -> bool {
    &&& 0 <= lo < hi <= tokens.len()
    &&& (hi - lo) % 2 == 1
    &&& forall|i: int|
        lo <= i < hi && (i - lo) % 2 == 0 ==> (#[trigger] tokens[i]) is Ok && tokens[i]->Ok_0 is INT
    &&& forall|i: int|
        lo <= i < hi && (i - lo) % 2 == 1 ==> (#[trigger] tokens[i]) is Ok && power_at(tokens, i)
            >= min && power_at(tokens, i) >= 1
}

/// The operator at `at` is the split point of the chain from `lo` to `hi` if
/// no operator of the chain binds more weakly and every operator to its right
/// binds more strongly.
pub proof fn lemma_split_point_unique(
    tokens: Seq<Result<Token, TokenError>>,
    lo: int,
    hi: int,
    at: int,
)
    requires
        lo < at < hi,
        (at - lo) % 2 == 1,
        (hi - lo) % 2 == 1,
        forall|i: int|
            lo < i < at && (i - lo) % 2 == 1 ==> #[trigger] power_at(tokens, i) >= power_at(
                tokens,
                at,
            ),
        forall|i: int|
            at < i < hi && (i - lo) % 2 == 1 ==> #[trigger] power_at(tokens, i) > power_at(
                tokens,
                at,
            ),
    ensures
        split_point(tokens, lo, hi) == at,
    decreases hi - lo,
{
    if hi - lo > 3 {
        lemma_split_point_inside(tokens, lo, hi - 2);
        if at < hi - 2 {
            lemma_split_point_unique(tokens, lo, hi - 2, at);
        }
    }
}

/// Where `expression_end` gives an end, the tokens up to it are a chain, and
/// what stands at the end does not continue it.
pub proof fn lemma_expression_end_chain(
    tokens: Seq<Result<Token, TokenError>>,
    start: int,
    min: nat,
)
    requires
        0 <= start,
        expression_end(tokens, start, min) is Ok,
    ensures
        is_chain(tokens, start, expression_end(tokens, start, min)->Ok_0, min),
        operator_end(tokens, expression_end(tokens, start, min)->Ok_0, min) == expression_end(
            tokens,
            start,
            min,
        ),
    decreases tokens.len() - start,
{
    let end = expression_end(tokens, start, min)->Ok_0;
    if operator_end(tokens, start + 1, min) != Ok::<int, (ASTError, int)>(start + 1) {
        lemma_expression_end_chain(tokens, start + 2, min);
        assert forall|i: int| start <= i < end && (i - start) % 2 == 0 implies (
        #[trigger] tokens[i]) is Ok && tokens[i]->Ok_0 is INT by {
            if i >= start + 2 {
                assert((i - (start + 2)) % 2 == 0);
            }
        }
        assert forall|i: int| start <= i < end && (i - start) % 2 == 1 implies (
        #[trigger] tokens[i]) is Ok && power_at(tokens, i) >= min && power_at(tokens, i)
            >= 1 by {
            if i >= start + 2 {
                assert((i - (start + 2)) % 2 == 1);
            }
        }
    }
}

/// An expression read with a stricter bound is the front part of the one read
/// with a weaker bound: reading goes on where it ended, and an error in it is
/// an error of the whole.
pub proof fn lemma_expression_end_resume(
    tokens: Seq<Result<Token, TokenError>>,
    start: int,
    strict: nat,
    min: nat,
)
    requires
        0 <= start,
        min <= strict,
    ensures
        expression_end(tokens, start, min) == match expression_end(tokens, start, strict) {
            Ok(end) => operator_end(tokens, end, min),
            Err(failure) => Err(failure),
        },
    decreases tokens.len() - start,
{
    if primary_spec(tokens, start) is Ok && start + 1 < tokens.len() {
        match tokens[start + 1] {
            Ok(token) => {
                if is_operator(token) && binding_power(token) >= strict {
                    lemma_expression_end_resume(tokens, start + 2, strict, min);
                }
            },
            Err(_) => {},
        }
    }
}

/// In a chain, no operator binds more weakly than the one at the split point,
/// and every operator to the right of the split point binds more strongly.
pub proof fn lemma_split_point_weakest(tokens: Seq<Result<Token, TokenError>>, lo: int, hi: int)
    requires
        hi - lo >= 3,
        (hi - lo) % 2 == 1,
    ensures
        forall|i: int|
            lo < i < hi && (i - lo) % 2 == 1 ==> #[trigger] power_at(tokens, i) >= power_at(
                tokens,
                split_point(tokens, lo, hi),
            ),
        forall|i: int|
            split_point(tokens, lo, hi) < i < hi && (i - lo) % 2 == 1 ==> #[trigger] power_at(
                tokens,
                i,
            ) > power_at(tokens, split_point(tokens, lo, hi)),
    decreases hi - lo,
{
    if hi - lo > 3 {
        lemma_split_point_weakest(tokens, lo, hi - 2);
        lemma_split_point_inside(tokens, lo, hi - 2);
    }
}

/// Part of a chain, from an operand to an operand, is a chain.
pub proof fn lemma_chain_part(
    tokens: Seq<Result<Token, TokenError>>,
    lo: int,
    hi: int,
    min: nat,
    from: int,
    to: int,
)
    requires
        is_chain(tokens, lo, hi, min),
        lo <= from < to <= hi,
        (from - lo) % 2 == 0,
        (to - from) % 2 == 1,
    ensures
        is_chain(tokens, from, to, min),
{
    assert forall|i: int| from <= i < to && (i - from) % 2 == 0 implies (#[trigger] tokens[i]) is Ok
        && tokens[i]->Ok_0 is INT by {
        assert((i - lo) % 2 == 0);
    }
    assert forall|i: int| from <= i < to && (i - from) % 2 == 1 implies (#[trigger] tokens[i]) is Ok
        && power_at(tokens, i) >= min && power_at(tokens, i) >= 1 by {
        assert((i - lo) % 2 == 1);
    }
}

/// The tree of a chain is well formed.
pub proof fn lemma_tree_of_chain_wf(
    tokens: Seq<Result<Token, TokenError>>,
    lo: int,
    hi: int,
    min: nat,
)
    requires
        is_chain(tokens, lo, hi, min),
    ensures
        tree_of(tokens, lo, hi).wf(),
    decreases hi - lo,
{
    if hi - lo >= 3 {
        let at = split_point(tokens, lo, hi);
        lemma_split_point_inside(tokens, lo, hi);
        lemma_chain_part(tokens, lo, hi, min, lo, at);
        lemma_chain_part(tokens, lo, hi, min, at + 1, hi);
        lemma_tree_of_chain_wf(tokens, lo, at, min);
        lemma_tree_of_chain_wf(tokens, at + 1, hi, min);
        assert(tokens[at] is Ok && power_at(tokens, at) >= 1);
    } else {
        assert(tokens[lo] is Ok && tokens[lo]->Ok_0 is INT);
    }
}

/// The tokens of a chain, without the `Ok` around each.
pub open spec fn chain_tokens(tokens: Seq<Result<Token, TokenError>>, lo: int, hi: int) -> Seq<
    Token,
> {
    Seq::new((hi - lo) as nat, |i: int| tokens[lo + i]->Ok_0)
}

/// Read from left to right, the tree of a chain gives the chain back: no
/// token is lost, added or moved.
pub proof fn lemma_tree_of_chain_in_order(
    tokens: Seq<Result<Token, TokenError>>,
    lo: int,
    hi: int,
    min: nat,
)
    requires
        is_chain(tokens, lo, hi, min),
    ensures
        tree_of(tokens, lo, hi).in_order() == chain_tokens(tokens, lo, hi),
    decreases hi - lo,
{
    if hi - lo >= 3 {
        let at = split_point(tokens, lo, hi);
        lemma_split_point_inside(tokens, lo, hi);
        lemma_chain_part(tokens, lo, hi, min, lo, at);
        lemma_chain_part(tokens, lo, hi, min, at + 1, hi);
        lemma_tree_of_chain_in_order(tokens, lo, at, min);
        lemma_tree_of_chain_in_order(tokens, at + 1, hi, min);
        assert(tree_of(tokens, lo, hi).in_order() =~= chain_tokens(tokens, lo, hi));
    } else {
        assert(tree_of(tokens, lo, hi).in_order() =~= chain_tokens(tokens, lo, hi));
    }
}

/// In the tree of a chain, an operator's right operand is never an operator
/// that binds as weakly as it, and its left operand never one that binds
/// more weakly.
pub proof fn lemma_tree_of_chain_respects_precedence(
    tokens: Seq<Result<Token, TokenError>>,
    lo: int,
    hi: int,
    min: nat,
)
    requires
        is_chain(tokens, lo, hi, min),
    ensures
        tree_of(tokens, lo, hi).respects_precedence(),
    decreases hi - lo,
{
    if hi - lo >= 3 {
        let at = split_point(tokens, lo, hi);
        lemma_split_point_inside(tokens, lo, hi);
        lemma_split_point_weakest(tokens, lo, hi);
        lemma_chain_part(tokens, lo, hi, min, lo, at);
        lemma_chain_part(tokens, lo, hi, min, at + 1, hi);
        lemma_tree_of_chain_respects_precedence(tokens, lo, at, min);
        lemma_tree_of_chain_respects_precedence(tokens, at + 1, hi, min);
        assert(tokens[at] is Ok);
        if at - lo >= 3 {
            let inner = split_point(tokens, lo, at);
            lemma_split_point_inside(tokens, lo, at);
            assert(tokens[inner] is Ok);
            assert(power_at(tokens, inner) >= power_at(tokens, at));
        } else {
            assert(tokens[lo] is Ok && tokens[lo]->Ok_0 is INT);
        }
        if hi - (at + 1) >= 3 {
            let inner = split_point(tokens, at + 1, hi);
            lemma_split_point_inside(tokens, at + 1, hi);
            assert((inner - lo) % 2 == 1);
            assert(tokens[inner] is Ok);
            assert(power_at(tokens, inner) > power_at(tokens, at));
        } else {
            assert(tokens[at + 1] is Ok && tokens[at + 1]->Ok_0 is INT);
        }
    }
}

/// One step of precedence climbing. Reading from `start` has come to the
/// operator at `at`, which continues the expression, and no operator read so
/// far binds more weakly than it. The expression behind it that binds more
/// strongly ends at `next`. Then the tokens from `start` to `next` are a chain
/// whose tree has the operator at `at` at its root, reading goes on at `next`,
/// and no operator read so far binds more weakly than one that stands there.
proof fn lemma_climb_step(
    all: Seq<Result<Token, TokenError>>,
    start: int,
    at: int,
    next: int,
    min: nat,
)
    requires
        is_chain(all, start, at, min),
        at < all.len(),
        all[at] is Ok,
        power_at(all, at) >= min,
        power_at(all, at) >= 1,
        forall|i: int|
            start < i < at && (i - start) % 2 == 1 ==> #[trigger] power_at(all, i) >= power_at(
                all,
                at,
            ),
        expression_end(all, at + 1, power_at(all, at) + 1) == Ok::<int, (ASTError, int)>(next),
        expression_end(all, start, min) == operator_end(all, at, min),
    ensures
        is_chain(all, start, next, min),
        tree_of(all, start, next) == branch(
            all[at]->Ok_0,
            tree_of(all, start, at),
            tree_of(all, at + 1, next),
        ),
        expression_end(all, start, min) == operator_end(all, next, min),
        next < all.len() ==> forall|i: int|
            start < i < next && (i - start) % 2 == 1 ==> #[trigger] power_at(all, i) >= power_at(
                all,
                next,
            ),
{
    let strict = power_at(all, at) + 1;
    lemma_expression_end_resume(all, at + 1, strict, min);
    lemma_expression_end_chain(all, at + 1, strict);
    assert forall|i: int| start <= i < next && (i - start) % 2 == 0 implies (#[trigger] all[i]) is Ok
        && all[i]->Ok_0 is INT by {
        if i > at {
            assert((i - (at + 1)) % 2 == 0);
        }
    }
    assert forall|i: int| start <= i < next && (i - start) % 2 == 1 implies (#[trigger] all[i]) is Ok
        && power_at(all, i) >= min && power_at(all, i) >= 1 by {
        if i > at {
            assert((i - (at + 1)) % 2 == 1);
        }
    }
    assert forall|i: int| at < i < next && (i - start) % 2 == 1 implies #[trigger] power_at(all, i)
        > power_at(all, at) by {
        assert((i - (at + 1)) % 2 == 1);
        assert(all[i] is Ok);
    }
    lemma_split_point_unique(all, start, next, at);
    if next < all.len() {
        if expression_end(all, next + 1, strict) is Ok {
            lemma_expression_end_chain(all, next + 1, strict);
        }
        assert(power_at(all, next) <= power_at(all, at));
        assert forall|i: int| start < i < next && (i - start) % 2 == 1 implies #[trigger] power_at(
            all,
            i,
        ) >= power_at(all, next) by {
            if i > at {
                assert((i - (at + 1)) % 2 == 1);
                assert(all[i] is Ok);
            }
        }
    }
}

/// Reading a chain from its start comes to its end without an error; what
/// stands behind the chain decides how reading goes on.
pub proof fn lemma_chain_is_read(tokens: Seq<Result<Token, TokenError>>, lo: int, hi: int, min: nat)
    requires
        is_chain(tokens, lo, hi, min),
    ensures
        expression_end(tokens, lo, min) == operator_end(tokens, hi, min),
    decreases hi - lo,
{
    assert(tokens[lo] is Ok && tokens[lo]->Ok_0 is INT);
    if hi - lo >= 3 {
        assert(tokens[lo + 1] is Ok && power_at(tokens, lo + 1) >= min && power_at(tokens, lo + 1)
            >= 1);
        lemma_chain_part(tokens, lo, hi, min, lo + 2, hi);
        lemma_chain_is_read(tokens, lo + 2, hi, min);
    }
}

/// A tree that parsing gives is well formed, respects precedence, and holds
/// from left to right exactly the tokens that were read, which are a chain
/// at the start of the input.
pub proof fn lemma_parse_tree(tokens: Seq<Result<Token, TokenError>>)
    requires
        parse_spec(tokens) is Ok,
    ensures
        expression_end(tokens, 0, 0) is Ok,
        is_chain(tokens, 0, expression_end(tokens, 0, 0)->Ok_0, 0),
        parse_spec(tokens)->Ok_0.wf(),
        parse_spec(tokens)->Ok_0.respects_precedence(),
        parse_spec(tokens)->Ok_0.in_order() == chain_tokens(
            tokens,
            0,
            expression_end(tokens, 0, 0)->Ok_0,
        ),
{
    let end = expression_end(tokens, 0, 0)->Ok_0;
    lemma_expression_end_chain(tokens, 0, 0);
    lemma_tree_of_chain_wf(tokens, 0, end, 0);
    lemma_tree_of_chain_respects_precedence(tokens, 0, end, 0);
    lemma_tree_of_chain_in_order(tokens, 0, end, 0);
}

/// Parsing succeeds on every input that is a chain as a whole, and on every
/// input that starts with a chain behind which a token stands that is no
/// operator.
pub proof fn lemma_parse_succeeds(tokens: Seq<Result<Token, TokenError>>, end: int)
    requires
        is_chain(tokens, 0, end, 0),
        end == tokens.len() || (tokens[end] is Ok && !is_operator(tokens[end]->Ok_0)),
    ensures
        parse_spec(tokens) == Ok::<ASTNode, ASTError>(tree_of(tokens, 0, end)),
{
    lemma_chain_is_read(tokens, 0, end, 0);
}

/// A scanner's error that stands where a chain at the start of the input
/// ends, or behind the operator that follows such a chain, or in the first
/// place, is the error of parsing.
pub proof fn lemma_parse_lexical_error(tokens: Seq<Result<Token, TokenError>>, at: int)
    requires
        0 <= at < tokens.len(),
        tokens[at] is Err,
        at == 0 || is_chain(tokens, 0, at, 0) || (at >= 2 && is_chain(tokens, 0, at - 1, 0)
            && tokens[at - 1] is Ok && is_operator(tokens[at - 1]->Ok_0)),
    ensures
        parse_spec(tokens) == Err::<ASTNode, ASTError>(
            ASTError::LexicalError(tokens[at]->Err_0),
        ),
{
    if at == 0 {
    } else if is_chain(tokens, 0, at, 0) {
        lemma_chain_is_read(tokens, 0, at, 0);
    } else {
        lemma_chain_is_read(tokens, 0, at - 1, 0);
    }
}

/// The quotient of two integers, rounded toward zero.
pub open spec fn quotient(a: int, b: int) -> int {
    let magnitude = (if a < 0 { -a } else { a }) / (if b < 0 { -b } else { b });
    if (a < 0) == (b < 0) {
        magnitude
    } else {
        -magnitude
    }
}

/// What an operator makes of two integers. Only division can fail, on a
/// divisor of zero.
pub open spec fn apply(operation: Token, left: int, right: int) -> Result<int, ASTError> {
    match operation {
        Token::PLUS => Ok(left + right),
        Token::MINUS => Ok(left - right),
        Token::ASTERISK => Ok(left * right),
        Token::SLASH => if right == 0 {
            Err(ASTError::ExpectedInteger)
        } else {
            Ok(quotient(left, right))
        },
        _ => Err(ASTError::UnexpectedToken(operation)),
    }
}

/// What parsing a whole token sequence gives.
pub open spec fn parse_spec(tokens: Seq<Result<Token, TokenError>>) -> Result<ASTNode, ASTError> {
    if tokens.len() == 0 {
        Err(ASTError::EmptyExpression)
    } else {
        match expression_end(tokens, 0, 0) {
            Ok(end) => Ok(tree_of(tokens, 0, end)),
            Err((error, _)) => Err(error),
        }
    }
}

/// A position in a token sequence, with one token of lookahead.
pub struct TokenCursor {
    tokens: Vec<Result<Token, TokenError>>,
    position: usize,
}

impl TokenCursor {
    #[verifier::type_invariant]
    spec fn in_bounds(self) -> bool {
        self.position <= self.tokens.len()
    }

    /// All the tokens.
    pub closed spec fn tokens(self) -> Seq<Result<Token, TokenError>> {
        self.tokens@
    }

    /// The number of tokens that were consumed.
    pub closed spec fn position(self) -> int {
        self.position as int
    }

    /// The token that comes next, if one is left.
    pub open spec fn peek_spec(self) -> Option<Result<Token, TokenError>> {
        if self.position() < self.tokens().len() {
            Some(self.tokens()[self.position()])
        } else {
            None
        }
    }

    /// A cursor at the start of `tokens`.
    pub fn new(tokens: Vec<Result<Token, TokenError>>) -> (cursor: TokenCursor)
        ensures
            cursor.tokens() == tokens@,
            cursor.position() == 0,
    {
        TokenCursor { tokens, position: 0 }
    }

    /// The next token, which stays in place.
    pub fn peek(&self) -> (next: Option<Result<Token, TokenError>>)
        ensures
            next == self.peek_spec(),
            0 <= self.position() <= self.tokens().len(),
    {
        proof {
            use_type_invariant(self);
        }
        if self.position < self.tokens.len() {
            Some(self.tokens[self.position])
        } else {
            None
        }
    }

    /// The next token; the cursor moves past it.
    pub fn next(&mut self) -> (next: Option<Result<Token, TokenError>>)
        ensures
            next == old(self).peek_spec(),
            final(self).tokens() == old(self).tokens(),
            final(self).position() == if next is Some {
                old(self).position() + 1
            } else {
                old(self).position()
            },
            0 <= old(self).position() <= final(self).position() <= final(self).tokens().len(),
    {
        proof {
            use_type_invariant(&*self);
        }
        if self.position < self.tokens.len() {
            let token = self.tokens[self.position];
            self.position = self.position + 1;
            Some(token)
        } else {
            None
        }
    }
}

impl Clone for ASTNode {
    /// A copy of the whole tree.
    fn clone(&self) -> (copy: Self)
        ensures
            copy == *self,
        decreases self,
    {
        let left = match &self.left {
            Some(child) => Some(Box::new((**child).clone())),
            None => None,
        };
        let right = match &self.right {
            Some(child) => Some(Box::new((**child).clone())),
            None => None,
        };
        ASTNode { operation: self.operation, left, right }
    }
}

impl ASTNode {
    /// A tree is well formed if each node without children holds an integer
    /// and every other node holds an operator over two well-formed subtrees.
    pub open spec fn wf(self) -> bool
        decreases self,
    {
        match (self.left, self.right) {
            (None, None) => self.operation is INT,
            (Some(l), Some(r)) => is_operator(self.operation) && l.wf() && r.wf(),
            _ => false,
        }
    }

    /// The tokens of the tree from left to right: the left subtree, the
    /// node's own token, the right subtree.
    pub open spec fn in_order(self) -> Seq<Token>
        decreases self,
    {
        (match self.left {
            Some(l) => l.in_order(),
            None => Seq::empty(),
        }) + seq![self.operation] + (match self.right {
            Some(r) => r.in_order(),
            None => Seq::empty(),
        })
    }

    /// Below every operator, the left operand is no operator that binds more
    /// weakly, and the right operand is no operator that binds as weakly: this
    /// is how multiplication goes before addition and equal operators group
    /// from the left.
    pub open spec fn respects_precedence(self) -> bool
        decreases self,
    {
        match (self.left, self.right) {
            (Some(l), Some(r)) => {
                &&& l.respects_precedence()
                &&& r.respects_precedence()
                &&& is_operator(l.operation) ==> binding_power(l.operation) >= binding_power(
                    self.operation,
                )
                &&& is_operator(r.operation) ==> binding_power(r.operation) > binding_power(
                    self.operation,
                )
            },
            _ => true,
        }
    }

    /// The value of the tree over the integers. An integer node is its
    /// number, whatever hangs below it. An operator node needs both operands:
    /// the left one is evaluated first, and the first failure is the result.
    /// A boundary token has no value.
    pub open spec fn value(self) -> Result<int, ASTError>
        decreases self,
    {
        match self.operation {
            Token::INT(n) => Ok(n as int),
            Token::EndOfLine | Token::EndOfFile => Err(ASTError::UnexpectedToken(self.operation)),
            _ => match self.left {
                None => Err(ASTError::ExpectedInteger),
                Some(l) => match l.value() {
                    Err(error) => Err(error),
                    Ok(a) => match self.right {
                        None => Err(ASTError::ExpectedInteger),
                        Some(r) => match r.value() {
                            Err(error) => Err(error),
                            Ok(b) => apply(self.operation, a, b),
                        },
                    },
                },
            },
        }
    }

    /// Every number that comes up while the tree is evaluated fits in an
    /// `i32`.
    pub open spec fn value_fits(self) -> bool
        decreases self,
    {
        match self.operation {
            Token::INT(_) | Token::EndOfLine | Token::EndOfFile => true,
            _ => match self.left {
                None => true,
                Some(l) => l.value_fits() && match (l.value(), self.right) {
                    (Ok(a), Some(r)) => r.value_fits() && match r.value() {
                        Ok(b) => match apply(self.operation, a, b) {
                            Ok(c) => i32::MIN <= c <= i32::MAX,
                            Err(_) => true,
                        },
                        Err(_) => true,
                    },
                    _ => true,
                },
            },
        }
    }

    /// Joins two subtrees under an operation, or passes on the scanner's
    /// error where there is no operation.
    pub fn new(operation: Result<Token, TokenError>, left: Box<ASTNode>, right: Box<ASTNode>) -> (node:
        Result<Self, ASTError>)
        ensures
            node == match operation {
                Ok(op) => Ok::<ASTNode, ASTError>(branch(op, *left, *right)),
                Err(error) => Err(ASTError::LexicalError(error)),
            },
    {
        match operation {
            Ok(op) => Ok(Self { operation: op, left: Some(left), right: Some(right) }),
            Err(token) => Err(ASTError::LexicalError(token)),
        }
    }

    /// A leaf for an integer token; no other token can be a leaf.
    pub fn make_leaf(operation: Token) -> (node: Result<Self, ASTError>)
        ensures
            node == if operation is INT {
                Ok::<ASTNode, ASTError>(leaf(operation))
            } else {
                Err(ASTError::InvalidLeafNode)
            },
    {
        match operation {
            Token::INT(_) => Ok(Self { operation, left: None, right: None }),
            _ => Err(ASTError::InvalidLeafNode),
        }
    }

    /// The precedence of a token: higher binds more strongly, 0 is no
    /// operator. A boundary token has none.
    pub fn get_precedence(token: &Token) -> (precedence: Result<u8, ASTError>)
        ensures
            precedence == match *token {
                Token::EndOfLine | Token::EndOfFile => Err::<u8, ASTError>(
                    ASTError::ExpectedOperator,
                ),
                _ => Ok(binding_power(*token) as u8),
            },
    {
        match token {
            Token::PLUS | Token::MINUS => Ok(1),
            Token::ASTERISK | Token::SLASH => Ok(2),
            Token::EndOfLine | Token::EndOfFile => Err(ASTError::ExpectedOperator),
            _ => Ok(0),
        }
    }

    /// Reads one operand: the next token, which has to be an integer.
    pub fn parse_primary(tokens: &mut TokenCursor) -> (node: Result<Self, ASTError>)
        ensures
            node == primary_spec(old(tokens).tokens(), old(tokens).position()),
            final(tokens).tokens() == old(tokens).tokens(),
            final(tokens).position() == if old(tokens).position() < old(tokens).tokens().len() {
                old(tokens).position() + 1
            } else {
                old(tokens).position()
            },
            0 <= old(tokens).position() <= final(tokens).position() <= final(tokens).tokens().len(),
    {
        match tokens.next() {
            Some(Ok(Token::INT(n))) => Self::make_leaf(Token::INT(n)),
            Some(Ok(token)) => Err(ASTError::UnexpectedToken(token)),
            Some(Err(token_error)) => Err(ASTError::LexicalError(token_error)),
            None => Err(ASTError::EmptyExpression),
        }
    }

    /// Reads the expression at the cursor by precedence climbing: an operand,
    /// and then, as long as an operator of precedence `min_precedence` or more
    /// follows, that operator and the expression behind it that binds more
    /// strongly. Reading stops in front of the first token that does not
    /// continue the expression.
    pub fn parse_one_line_expression(tokens: &mut TokenCursor, min_precedence: u8) -> (node: Result<
        Self,
        ASTError,
    >)
        ensures
            final(tokens).tokens() == old(tokens).tokens(),
            0 <= old(tokens).position() <= final(tokens).position() <= final(tokens).tokens().len(),
            match expression_end(
                old(tokens).tokens(),
                old(tokens).position(),
                min_precedence as nat,
            ) {
                Ok(end) => node == Ok::<ASTNode, ASTError>(
                    tree_of(old(tokens).tokens(), old(tokens).position(), end),
                ) && final(tokens).position() == end,
                Err((error, stop)) => node == Err::<ASTNode, ASTError>(error)
                    && final(tokens).position() == stop,
            },
        decreases old(tokens).tokens().len() - old(tokens).position(),
    {
        let ghost all = tokens.tokens();
        let ghost start = tokens.position();
        let ghost min = min_precedence as nat;
        let mut left: ASTNode = match Self::parse_primary(tokens) {
            Ok(operand) => operand,
            Err(error) => {
                return Err(error);
            },
        };
        loop
            invariant
                tokens.tokens() == all,
                start == old(tokens).position(),
                all == old(tokens).tokens(),
                min == min_precedence as nat,
                is_chain(all, start, tokens.position(), min),
                left == tree_of(all, start, tokens.position()),
                expression_end(all, start, min) == operator_end(all, tokens.position(), min),
                tokens.position() < all.len() ==> forall|i: int|
                    start < i < tokens.position() && (i - start) % 2 == 1 ==> #[trigger] power_at(
                        all,
                        i,
                    ) >= power_at(all, tokens.position()),
            ensures
                tokens.tokens() == all,
                start < tokens.position() <= all.len(),
                left == tree_of(all, start, tokens.position()),
                expression_end(all, start, min) == Ok::<int, (ASTError, int)>(tokens.position()),
            decreases all.len() - tokens.position(),
        {
            let ghost at = tokens.position();
            let op = match tokens.peek() {
                Some(Ok(op)) => op,
                Some(Err(err)) => {
                    return Err(ASTError::LexicalError(err));
                },
                None => {
                    break ;
                },
            };
            let precedence = match Self::get_precedence(&op) {
                Ok(precedence) => precedence,
                Err(_) => {
                    break ;
                },
            };
            if precedence == 0 || precedence < min_precedence {
                break ;
            }
            let _ = tokens.next();
            let right: ASTNode = match Self::parse_one_line_expression(tokens, precedence + 1) {
                Ok(right) => right,
                Err(error) => {
                    proof {
                        lemma_expression_end_resume(all, at + 1, (precedence + 1) as nat, min);
                    }
                    return Err(error);
                },
            };
            proof {
                lemma_climb_step(all, start, at, tokens.position(), min);
            }
            left = match Self::new(Ok(op), Box::new(left), Box::new(right)) {
                Ok(joined) => joined,
                Err(error) => {
                    return Err(error);
                },
            };
        }
        Ok(left)
    }

    /// Evaluates the tree in 32-bit arithmetic.
    pub fn test_evaluate(&self) -> (result: Result<i32, ASTError>)
        requires
            self.value_fits(),
        ensures
            result == match self.value() {
                Ok(v) => Ok::<i32, ASTError>(v as i32),
                Err(error) => Err(error),
            },
            self.value() is Ok ==> i32::MIN <= self.value()->Ok_0 <= i32::MAX,
        decreases self,
    {
        match self.operation {
            Token::INT(n) => Ok(n),
            Token::EndOfFile => Err(ASTError::UnexpectedToken(Token::EndOfFile)),
            Token::EndOfLine => Err(ASTError::UnexpectedToken(Token::EndOfLine)),
            operation => {
                let left: i32 = match &self.left {
                    Some(node) => match node.test_evaluate() {
                        Ok(value) => value,
                        Err(error) => {
                            return Err(error);
                        },
                    },
                    None => {
                        return Err(ASTError::ExpectedInteger);
                    },
                };
                let right: i32 = match &self.right {
                    Some(node) => match node.test_evaluate() {
                        Ok(value) => value,
                        Err(error) => {
                            return Err(error);
                        },
                    },
                    None => {
                        return Err(ASTError::ExpectedInteger);
                    },
                };
                match operation {
                    Token::PLUS => Ok(left + right),
                    Token::MINUS => Ok(left - right),
                    Token::ASTERISK => Ok(left * right),
                    _ => {
                        if right == 0 {
                            Err(ASTError::ExpectedInteger)  // division by zero
                        } else {
                            Ok(Self::divide(left, right))
                        }
                    },
                }
            },
        }
    }

    /// Division that rounds toward zero, as the machine's does.
    fn divide(left: i32, right: i32) -> (result: i32)
        requires
            right != 0,
            i32::MIN <= quotient(left as int, right as int) <= i32::MAX,
        ensures
            result == quotient(left as int, right as int),
    {
        let wide_left: i64 = left as i64;
        let wide_right: i64 = right as i64;
        let wide: i64 = if wide_right > 0 {
            wide_left / wide_right
        } else {
            -(wide_left / (-wide_right))
        };
        wide as i32
    }

    /// Parses a token sequence into the tree of the expression that it
    /// starts with. An empty sequence is no expression.
    pub fn parse(tokens: Vec<Result<Token, TokenError>>) -> (node: Result<Self, ASTError>)
        ensures
            node == parse_spec(tokens@),
            node is Ok ==> node->Ok_0.wf(),
    {
        if tokens.is_empty() {
            return Err(ASTError::EmptyExpression);
        }
        proof {
            if parse_spec(tokens@) is Ok {
                lemma_parse_tree(tokens@);
            }
        }
        let mut token_iter = TokenCursor::new(tokens);
        Self::parse_one_line_expression(&mut token_iter, 0)
    }
}

} // verus!
