//! The abstract syntax tree: the tagged-variant node type, its mathematical
//! model, the pre-order traversal, and the recursive-descent parser that
//! builds trees from token sequences.

use vstd::prelude::*;

use crate::token::Token;
use crate::token::TokenType;
use crate::token::TokenV;
use crate::token::Type;
use crate::token::views_of;

verus! {

/// A node of the abstract syntax tree. Every non-leaf node exclusively owns
/// its children; each node carries the source line it came from.
#[derive(Debug)]
pub enum ASTNode {
    Program(Vec<ASTNode>),
    VariableDeclaration {
        identifier: String,
        initializer: Option<Box<ASTNode>>,
        line: u32,
        var_type: Option<Type>,
    },
    DisplayStatement(String, u32),
    DisplayIntStatement(String, u32),
    DisplayStringStatement(String, u32),
    ExpressionStatement { expression: Box<ASTNode>, identifier: String, line: u32 },
    BinaryOp { operator: String, left: Box<ASTNode>, right: Box<ASTNode>, line: u32 },
    Identifier(String, u32),
    Number(String, u32),
    StringLiteral(String, u32),
    IfStatement {
        condition: Box<ASTNode>,
        then_block: Vec<ASTNode>,
        else_if_blocks: Vec<(Box<ASTNode>, Vec<ASTNode>)>,
        else_block: Option<Vec<ASTNode>>,
        line: u32,
    },
}

/// Mathematical model of an `ASTNode`: strings become character sequences and
/// vectors become sequences.
pub ghost enum AstV {
    Program(Seq<AstV>),
    VariableDeclaration {
        identifier: Seq<char>,
        initializer: Option<Box<AstV>>,
        line: u32,
        var_type: Option<Type>,
    },
    DisplayStatement(Seq<char>, u32),
    DisplayIntStatement(Seq<char>, u32),
    DisplayStringStatement(Seq<char>, u32),
    ExpressionStatement { expression: Box<AstV>, identifier: Seq<char>, line: u32 },
    BinaryOp { operator: Seq<char>, left: Box<AstV>, right: Box<AstV>, line: u32 },
    Identifier(Seq<char>, u32),
    Number(Seq<char>, u32),
    StringLiteral(Seq<char>, u32),
    IfStatement {
        condition: Box<AstV>,
        then_block: Seq<AstV>,
        else_if_blocks: Seq<(AstV, Seq<AstV>)>,
        else_block: Option<Seq<AstV>>,
        line: u32,
    },
}

/// The model of a node.
pub open spec fn ast_view(a: ASTNode) -> AstV
    decreases a,
{
    match a {
        ASTNode::Program(ss) => AstV::Program(ast_views(ss@)),
        ASTNode::VariableDeclaration { identifier, initializer, line, var_type } => {
            AstV::VariableDeclaration {
                identifier: identifier@,
                initializer: match initializer {
                    Some(b) => Some(Box::new(ast_view(*b))),
                    None => None,
                },
                line,
                var_type,
            }
        },
        ASTNode::DisplayStatement(id, line) => AstV::DisplayStatement(id@, line),
        ASTNode::DisplayIntStatement(id, line) => AstV::DisplayIntStatement(id@, line),
        ASTNode::DisplayStringStatement(id, line) => AstV::DisplayStringStatement(id@, line),
        ASTNode::ExpressionStatement { expression, identifier, line } => {
            AstV::ExpressionStatement {
                expression: Box::new(ast_view(*expression)),
                identifier: identifier@,
                line,
            }
        },
        ASTNode::BinaryOp { operator, left, right, line } => {
            AstV::BinaryOp {
                operator: operator@,
                left: Box::new(ast_view(*left)),
                right: Box::new(ast_view(*right)),
                line,
            }
        },
        ASTNode::Identifier(name, line) => AstV::Identifier(name@, line),
        ASTNode::Number(text, line) => AstV::Number(text@, line),
        ASTNode::StringLiteral(text, line) => AstV::StringLiteral(text@, line),
        ASTNode::IfStatement { condition, then_block, else_if_blocks, else_block, line } => {
            AstV::IfStatement {
                condition: Box::new(ast_view(*condition)),
                then_block: ast_views(then_block@),
                else_if_blocks: pair_views(else_if_blocks@),
                else_block: match else_block {
                    Some(v) => Some(ast_views(v@)),
                    None => None,
                },
                line,
            }
        },
    }
}

/// The models of a node sequence, in order.
pub open spec fn ast_views(s: Seq<ASTNode>) -> Seq<AstV>
    decreases s,
{
    if s.len() == 0 {
        Seq::empty()
    } else {
        ast_views(s.drop_last()).push(ast_view(s.last()))
    }
}

/// The models of an else-if sequence: each entry a condition and its block.
pub open spec fn pair_views(s: Seq<(Box<ASTNode>, Vec<ASTNode>)>) -> Seq<(AstV, Seq<AstV>)>
    decreases s,
{
    if s.len() == 0 {
        Seq::empty()
    } else {
        pair_views(s.drop_last()).push((ast_view(*s.last().0), ast_views(s.last().1@)))
    }
}

impl View for ASTNode {
    type V = AstV;

    open spec fn view(&self) -> AstV {
        ast_view(*self)
    }
}

pub proof fn lemma_ast_views_len(s: Seq<ASTNode>)
    ensures
        ast_views(s).len() == s.len(),
    decreases s,
{
    if s.len() > 0 {
        lemma_ast_views_len(s.drop_last());
    }
}

pub proof fn lemma_ast_views_push(s: Seq<ASTNode>, x: ASTNode)
    ensures
        ast_views(s.push(x)) == ast_views(s).push(ast_view(x)),
{
    assert(s.push(x).drop_last() =~= s);
    assert(s.push(x).last() == x);
}

pub proof fn lemma_pair_views_push(s: Seq<(Box<ASTNode>, Vec<ASTNode>)>, x: (Box<ASTNode>, Vec<ASTNode>))
    ensures
        pair_views(s.push(x)) == pair_views(s).push((ast_view(*x.0), ast_views(x.1@))),
{
    assert(s.push(x).drop_last() =~= s);
    assert(s.push(x).last() == x);
}

/// The pre-order visitation sequence of a tree: the node itself first, then
/// its children's sequences in their fixed order.
pub open spec fn preorder(a: AstV) -> Seq<AstV>
    decreases a,
{
    match a {
        AstV::Program(ss) => seq![a] + preorder_all(ss),
        AstV::VariableDeclaration { initializer, .. } => match initializer {
            Some(b) => seq![a] + preorder(*b),
            None => seq![a],
        },
        AstV::ExpressionStatement { expression, .. } => seq![a] + preorder(*expression),
        AstV::BinaryOp { left, right, .. } => seq![a] + preorder(*left) + preorder(*right),
        AstV::IfStatement { condition, then_block, else_if_blocks, else_block, .. } => {
            seq![a] + preorder(*condition) + preorder_all(then_block) + preorder_pairs(
                else_if_blocks,
            ) + (match else_block {
                Some(e) => preorder_all(e),
                None => Seq::empty(),
            })
        },
        _ => seq![a],
    }
}

/// The concatenation of the pre-order sequences of `ss`, in order.
pub open spec fn preorder_all(ss: Seq<AstV>) -> Seq<AstV>
    decreases ss,
{
    if ss.len() == 0 {
        Seq::empty()
    } else {
        preorder(ss.first()) + preorder_all(ss.drop_first())
    }
}

/// The concatenation of the pre-order sequences of each else-if entry: its
/// condition first, then its block.
pub open spec fn preorder_pairs(ps: Seq<(AstV, Seq<AstV>)>) -> Seq<AstV>
    decreases ps,
{
    if ps.len() == 0 {
        Seq::empty()
    } else {
        preorder(ps.first().0) + preorder_all(ps.first().1) + preorder_pairs(ps.drop_first())
    }
}

pub proof fn lemma_preorder_all_push(ss: Seq<AstV>, x: AstV)
    ensures
        preorder_all(ss.push(x)) == preorder_all(ss) + preorder(x),
    decreases ss,
{
    reveal_with_fuel(preorder_all, 2);
    if ss.len() == 0 {
        assert(ss.push(x).first() == x);
        assert(ss.push(x).drop_first() =~= Seq::<AstV>::empty());
        assert(preorder_all(ss.push(x)) == preorder(x) + preorder_all(Seq::<AstV>::empty()));
        assert(preorder_all(ss.push(x)) =~= preorder_all(ss) + preorder(x));
    } else {
        assert(ss.push(x).drop_first() =~= ss.drop_first().push(x));
        lemma_preorder_all_push(ss.drop_first(), x);
        assert(preorder(ss.first()) + (preorder_all(ss.drop_first()) + preorder(x)) =~= (preorder(
            ss.first(),
        ) + preorder_all(ss.drop_first())) + preorder(x));
    }
}

pub proof fn lemma_preorder_pairs_push(ps: Seq<(AstV, Seq<AstV>)>, x: (AstV, Seq<AstV>))
    ensures
        preorder_pairs(ps.push(x)) == preorder_pairs(ps) + preorder(x.0) + preorder_all(x.1),
    decreases ps,
{
    reveal_with_fuel(preorder_pairs, 2);
    if ps.len() == 0 {
        assert(ps.push(x).first() == x);
        assert(ps.push(x).drop_first() =~= Seq::<(AstV, Seq<AstV>)>::empty());
        assert(preorder_pairs(ps.push(x)) == preorder(x.0) + preorder_all(x.1) + preorder_pairs(
            Seq::<(AstV, Seq<AstV>)>::empty(),
        ));
        assert(preorder_pairs(ps.push(x)) =~= preorder_pairs(ps) + preorder(x.0) + preorder_all(
            x.1,
        ));
    } else {
        assert(ps.push(x).drop_first() =~= ps.drop_first().push(x));
        lemma_preorder_pairs_push(ps.drop_first(), x);
        assert(preorder(ps.first().0) + preorder_all(ps.first().1) + (preorder_pairs(
            ps.drop_first(),
        ) + preorder(x.0) + preorder_all(x.1)) =~= (preorder(ps.first().0) + preorder_all(
            ps.first().1,
        ) + preorder_pairs(ps.drop_first())) + preorder(x.0) + preorder_all(x.1));
    }
}

impl ASTNode {
    /// A deep copy of the tree, with the same model.
    #[verifier::loop_isolation(false)]
    pub fn duplicate(&self) -> (r: ASTNode)
        ensures
            r@ == self@,
        decreases *self,
    {
        match self {
            ASTNode::Program(ss) => {
                let copies = duplicate_all(ss);
                ASTNode::Program(copies)
            },
            ASTNode::VariableDeclaration { identifier, initializer, line, var_type } => {
                let init2: Option<Box<ASTNode>> = match initializer {
                    Some(b) => Some(Box::new((&**b).duplicate())),
                    None => None,
                };
                ASTNode::VariableDeclaration {
                    identifier: identifier.clone(),
                    initializer: init2,
                    line: *line,
                    var_type: *var_type,
                }
            },
            ASTNode::DisplayStatement(id, line) => ASTNode::DisplayStatement(id.clone(), *line),
            ASTNode::DisplayIntStatement(id, line) => ASTNode::DisplayIntStatement(
                id.clone(),
                *line,
            ),
            ASTNode::DisplayStringStatement(id, line) => ASTNode::DisplayStringStatement(
                id.clone(),
                *line,
            ),
            ASTNode::ExpressionStatement { expression, identifier, line } => {
                ASTNode::ExpressionStatement {
                    expression: Box::new((&**expression).duplicate()),
                    identifier: identifier.clone(),
                    line: *line,
                }
            },
            ASTNode::BinaryOp { operator, left, right, line } => {
                ASTNode::BinaryOp {
                    operator: operator.clone(),
                    left: Box::new((&**left).duplicate()),
                    right: Box::new((&**right).duplicate()),
                    line: *line,
                }
            },
            ASTNode::Identifier(name, line) => ASTNode::Identifier(name.clone(), *line),
            ASTNode::Number(text, line) => ASTNode::Number(text.clone(), *line),
            ASTNode::StringLiteral(text, line) => ASTNode::StringLiteral(text.clone(), *line),
            ASTNode::IfStatement { condition, then_block, else_if_blocks, else_block, line } => {
                let cond2 = Box::new((&**condition).duplicate());
                let then2 = duplicate_all(then_block);
                let mut elifs2: Vec<(Box<ASTNode>, Vec<ASTNode>)> = Vec::new();
                let mut k: usize = 0;
                while k < else_if_blocks.len()
                    invariant
                        k <= else_if_blocks@.len(),
                        pair_views(elifs2@) == pair_views(else_if_blocks@.take(k as int)),
                    decreases else_if_blocks@.len() - k,
                {
                    let pair = &else_if_blocks[k];
                    proof {
                        assert(else_if_blocks@[k as int] == *pair);
                        assert(decreases_to!(*self => *else_if_blocks));
                        assert(decreases_to!(*else_if_blocks => else_if_blocks@));
                        assert(decreases_to!(else_if_blocks@ => else_if_blocks@[k as int]));
                    }
                    let c2 = Box::new((&*pair.0).duplicate());
                    let b2 = duplicate_all(&pair.1);
                    let ghost prev = elifs2@;
                    let ghost c2v = ast_view(*c2);
                    let ghost b2v = ast_views(b2@);
                    elifs2.push((c2, b2));
                    proof {
                        lemma_pair_views_push(prev, elifs2@.last());
                        assert(ast_view(*elifs2@.last().0) == c2v);
                        assert(ast_views(elifs2@.last().1@) == b2v);
                        lemma_pair_views_push(
                            else_if_blocks@.take(k as int),
                            else_if_blocks@[k as int],
                        );
                        assert(else_if_blocks@.take(k as int).push(else_if_blocks@[k as int])
                            =~= else_if_blocks@.take(k + 1));
                    }
                    k += 1;
                }
                proof {
                    assert(else_if_blocks@.take(else_if_blocks@.len() as int) =~= else_if_blocks@);
                }
                let else2: Option<Vec<ASTNode>> = match else_block {
                    Some(v) => Some(duplicate_all(v)),
                    None => None,
                };
                ASTNode::IfStatement {
                    condition: cond2,
                    then_block: then2,
                    else_if_blocks: elifs2,
                    else_block: else2,
                    line: *line,
                }
            },
        }
    }

    /// Pre-order traversal: the visitation sequence, as copies of the visited
    /// nodes. The node itself comes first; then, in their fixed order, the
    /// children's sequences: a `Program`'s statements in source order, a
    /// declaration's initializer, an assignment's expression, an operator's
    /// left then right side, a conditional's condition, then-block, else-if
    /// entries (condition before block) and else-block. No node is visited
    /// more than once and none is skipped.
    #[verifier::loop_isolation(false)]
    pub fn traverse(&self) -> (r: Vec<ASTNode>)
        ensures
            ast_views(r@) == preorder(self@),
        decreases *self,
    {
        let mut out: Vec<ASTNode> = Vec::new();
        let first = self.duplicate();
        out.push(first);
        proof {
            reveal_with_fuel(ast_views, 2);
            assert(ast_views(out@) =~= seq![self@]);
        }
        match self {
            ASTNode::Program(ss) => {
                proof {
                    assert(decreases_to!(*self => *ss));
                }
                let mut sub = traverse_all(ss);
                proof {
                    lemma_ast_views_concat(out@, sub@);
                }
                out.append(&mut sub);
                proof {
                    assert(ast_views(out@) =~= preorder(self@));
                }
            },
            ASTNode::VariableDeclaration { initializer, .. } => {
                match initializer {
                    Some(b) => {
                        let mut sub = (&**b).traverse();
                        proof {
                            lemma_ast_views_concat(out@, sub@);
                        }
                        out.append(&mut sub);
                        proof {
                            assert(ast_views(out@) =~= preorder(self@));
                        }
                    },
                    None => {},
                }
            },
            ASTNode::ExpressionStatement { expression, .. } => {
                let mut sub = (&**expression).traverse();
                proof {
                    lemma_ast_views_concat(out@, sub@);
                }
                out.append(&mut sub);
                proof {
                    assert(ast_views(out@) =~= preorder(self@));
                }
            },
            ASTNode::BinaryOp { left, right, .. } => {
                let mut subl = (&**left).traverse();
                proof {
                    lemma_ast_views_concat(out@, subl@);
                }
                out.append(&mut subl);
                let mut subr = (&**right).traverse();
                proof {
                    lemma_ast_views_concat(out@, subr@);
                }
                out.append(&mut subr);
                proof {
                    assert(ast_views(out@) =~= preorder(self@));
                }
            },
            ASTNode::IfStatement { condition, then_block, else_if_blocks, else_block, .. } => {
                let mut subc = (&**condition).traverse();
                proof {
                    lemma_ast_views_concat(out@, subc@);
                }
                out.append(&mut subc);
                proof {
                    assert(decreases_to!(*self => *then_block));
                }
                let mut subt = traverse_all(then_block);
                proof {
                    lemma_ast_views_concat(out@, subt@);
                }
                out.append(&mut subt);
                let ghost head = ast_views(out@);
                proof {
                    assert(else_if_blocks@.take(0) =~= Seq::<(Box<ASTNode>, Vec<ASTNode>)>::empty());
                    assert(ast_views(out@) =~= head + preorder_pairs(
                        pair_views(else_if_blocks@.take(0)),
                    ));
                }
                let mut k: usize = 0;
                while k < else_if_blocks.len()
                    invariant
                        k <= else_if_blocks@.len(),
                        ast_views(out@) == head + preorder_pairs(
                            pair_views(else_if_blocks@.take(k as int)),
                        ),
                    decreases else_if_blocks@.len() - k,
                {
                    let pair = &else_if_blocks[k];
                    proof {
                        assert(else_if_blocks@[k as int] == *pair);
                        assert(decreases_to!(*self => *else_if_blocks));
                        assert(decreases_to!(*else_if_blocks => else_if_blocks@));
                        assert(decreases_to!(else_if_blocks@ => else_if_blocks@[k as int]));
                    }
                    let mut sube = (&*pair.0).traverse();
                    proof {
                        lemma_ast_views_concat(out@, sube@);
                    }
                    out.append(&mut sube);
                    let mut subb = traverse_all(&pair.1);
                    proof {
                        lemma_ast_views_concat(out@, subb@);
                    }
                    out.append(&mut subb);
                    proof {
                        lemma_pair_views_push(
                            else_if_blocks@.take(k as int),
                            else_if_blocks@[k as int],
                        );
                        assert(else_if_blocks@.take(k as int).push(else_if_blocks@[k as int])
                            =~= else_if_blocks@.take(k + 1));
                        lemma_preorder_pairs_push(
                            pair_views(else_if_blocks@.take(k as int)),
                            (ast_view(*pair.0), ast_views(pair.1@)),
                        );
                        assert(ast_views(out@) =~= head + preorder_pairs(
                            pair_views(else_if_blocks@.take(k + 1)),
                        ));
                    }
                    k += 1;
                }
                proof {
                    assert(else_if_blocks@.take(else_if_blocks@.len() as int)
                        =~= else_if_blocks@);
                }
                match else_block {
                    Some(v) => {
                        proof {
                            assert(decreases_to!(*self => *else_block));
                        }
                        let mut subel = traverse_all(v);
                        proof {
                            lemma_ast_views_concat(out@, subel@);
                        }
                        out.append(&mut subel);
                    },
                    None => {},
                }
                proof {
                    assert(ast_views(out@) =~= preorder(self@));
                }
            },
            _ => {},
        }
        out
    }
}

pub proof fn lemma_ast_views_concat(s1: Seq<ASTNode>, s2: Seq<ASTNode>)
    ensures
        ast_views(s1 + s2) == ast_views(s1) + ast_views(s2),
    decreases s2,
{
    if s2.len() == 0 {
        assert(s1 + s2 =~= s1);
        assert(ast_views(s1) + ast_views(s2) =~= ast_views(s1));
    } else {
        assert((s1 + s2).drop_last() =~= s1 + s2.drop_last());
        assert((s1 + s2).last() == s2.last());
        lemma_ast_views_concat(s1, s2.drop_last());
        assert(ast_views(s1) + ast_views(s2) =~= (ast_views(s1) + ast_views(
            s2.drop_last(),
        )).push(ast_view(s2.last())));
    }
}

/// The pre-order traversal of every node in `ss`, in order, as one sequence.
#[verifier::loop_isolation(false)]
fn traverse_all(ss: &Vec<ASTNode>) -> (r: Vec<ASTNode>)
    ensures
        ast_views(r@) == preorder_all(ast_views(ss@)),
    decreases *ss,
{
    let mut r: Vec<ASTNode> = Vec::new();
    proof {
        assert(ss@.take(0) =~= Seq::<ASTNode>::empty());
        assert(ast_views(r@) =~= preorder_all(ast_views(ss@.take(0))));
    }
    let mut k: usize = 0;
    while k < ss.len()
        invariant
            k <= ss@.len(),
            ast_views(r@) == preorder_all(ast_views(ss@.take(k as int))),
        decreases ss@.len() - k,
    {
        proof {
            assert(decreases_to!(*ss => ss@));
            assert(decreases_to!(ss@ => ss@[k as int]));
        }
        let mut sub = (&ss[k]).traverse();
        proof {
            lemma_ast_views_concat(r@, sub@);
        }
        r.append(&mut sub);
        proof {
            lemma_ast_views_push(ss@.take(k as int), ss@[k as int]);
            assert(ss@.take(k as int).push(ss@[k as int]) =~= ss@.take(k + 1));
            lemma_preorder_all_push(ast_views(ss@.take(k as int)), ast_view(ss@[k as int]));
        }
        k += 1;
    }
    proof {
        assert(ss@.take(ss@.len() as int) =~= ss@);
    }
    r
}

/// A fatal parser diagnostic: what was expected, and the line of the token
/// that failed to match. It aborts the whole parse; no partial tree is ever
/// returned.
#[derive(Debug)]
pub struct SyntaxError {
    pub message: String,
    pub line: u32,
}

/// Mathematical model of a `SyntaxError`.
pub ghost struct SynV {
    pub message: Seq<char>,
    pub line: u32,
}

impl View for SyntaxError {
    type V = SynV;

    open spec fn view(&self) -> SynV {
        SynV { message: self.message@, line: self.line }
    }
}

/// The result of a spec-level parsing step: the parsed value and the position
/// after it, or the error that aborts the parse.
pub type PRes<A> = Result<(A, int), SynV>;

/// A placeholder error for spec branches that a parser run can never reach
/// (a sub-parser that claims success without consuming anything).
pub open spec fn guard_err() -> SynV {
    SynV { message: Seq::empty(), line: 0 }
}

/// Whether the token at `p` exists, is not the end marker, and has kind `tt`.
pub open spec fn s_check(toks: Seq<TokenV>, p: int, tt: TokenType) -> bool {
    &&& 0 <= p < toks.len()
    &&& toks[p].token_type != TokenType::EOF
    &&& toks[p].token_type == tt
}

/// Whether the token at `p` is the end marker.
pub open spec fn s_at_end(toks: Seq<TokenV>, p: int) -> bool {
    toks[p].token_type == TokenType::EOF
}

/// The operator kinds the flat `Term` level folds over, left to right.
pub open spec fn is_binop_tt(tt: TokenType) -> bool {
    ||| tt == TokenType::Plus
    ||| tt == TokenType::Minus
    ||| tt == TokenType::Star
    ||| tt == TokenType::Slash
    ||| tt == TokenType::LessThan
    ||| tt == TokenType::LessOrEqual
    ||| tt == TokenType::GreaterThan
    ||| tt == TokenType::GreaterOrEqual
}

/// `Factor := Number | Identifier | String | '(' Expression ')'`.
pub open spec fn s_factor(toks: Seq<TokenV>, p: int) -> PRes<AstV>
    decreases toks.len() - p, 2int,
{
    if s_check(toks, p, TokenType::Number) {
        Ok((AstV::Number(toks[p].lexeme, toks[p].line), p + 1))
    } else if s_check(toks, p, TokenType::Identifier) {
        Ok((AstV::Identifier(toks[p].lexeme, toks[p].line), p + 1))
    } else if s_check(toks, p, TokenType::String) {
        Ok((AstV::StringLiteral(toks[p].lexeme, toks[p].line), p + 1))
    } else if s_check(toks, p, TokenType::LParen) {
        match s_expression(toks, p + 1) {
            Err(e) => Err(e),
            Ok((e0, p2)) => {
                if s_check(toks, p2, TokenType::RParen) {
                    Ok((e0, p2 + 1))
                } else {
                    Err(SynV { message: "Expected ')' after expression."@, line: toks[p2].line })
                }
            },
        }
    } else {
        Err(SynV { message: "Unexpected token in factor"@, line: toks[p].line })
    }
}

/// `Term := Factor (op Factor)*`, folding strictly left to right with one
/// flat precedence level: `1 + 2 * 3` parses as `(1 + 2) * 3`.
pub open spec fn s_term(toks: Seq<TokenV>, p: int) -> PRes<AstV>
    decreases toks.len() - p, 3int,
{
    match s_factor(toks, p) {
        Err(e) => Err(e),
        Ok((e0, p0)) => {
            if p0 <= p || p0 > toks.len() {
                Ok((e0, p0))
            } else {
                s_term_rest(toks, p0, e0)
            }
        },
    }
}

/// The left fold of `Term`: while an operator follows, parse one more factor
/// and wrap the accumulator into a `BinaryOp` carrying the operator's lexeme.
pub open spec fn s_term_rest(toks: Seq<TokenV>, p: int, acc: AstV) -> PRes<AstV>
    decreases toks.len() - p, 0int,
{
    if !(0 <= p < toks.len() && is_binop_tt(toks[p].token_type)) {
        Ok((acc, p))
    } else {
        let op = toks[p];
        match s_factor(toks, p + 1) {
            Err(e) => Err(e),
            Ok((r, p2)) => {
                let node = AstV::BinaryOp {
                    operator: op.lexeme,
                    left: Box::new(acc),
                    right: Box::new(r),
                    line: op.line,
                };
                if p2 > p && p2 <= toks.len() {
                    s_term_rest(toks, p2, node)
                } else {
                    Ok((node, p2))
                }
            },
        }
    }
}

/// `Expression := Term`.
pub open spec fn s_expression(toks: Seq<TokenV>, p: int) -> PRes<AstV>
    decreases toks.len() - p, 4int,
{
    s_term(toks, p)
}

/// `VarDecl`, after its keyword: an identifier, an optional `= Expression`
/// initializer, and the closing `;`. `line` and `vt` come from the keyword
/// token.
pub open spec fn s_var_decl(toks: Seq<TokenV>, p: int, line: u32, vt: Type) -> PRes<AstV>
    decreases toks.len() - p, 0int,
{
    if !s_check(toks, p, TokenType::Identifier) {
        Err(SynV { message: "Expected identifier."@, line: toks[p].line })
    } else {
        let id = toks[p].lexeme;
        if s_check(toks, p + 1, TokenType::Equals) {
            match s_expression(toks, p + 2) {
                Err(e) => Err(e),
                Ok((e0, p2)) => {
                    if s_check(toks, p2, TokenType::Semicolon) {
                        Ok(
                            (
                                AstV::VariableDeclaration {
                                    identifier: id,
                                    initializer: Some(Box::new(e0)),
                                    line,
                                    var_type: Some(vt),
                                },
                                p2 + 1,
                            ),
                        )
                    } else {
                        Err(
                            SynV {
                                message: "Expected ';' after variable declaration."@,
                                line: toks[p2].line,
                            },
                        )
                    }
                },
            }
        } else {
            if s_check(toks, p + 1, TokenType::Semicolon) {
                Ok(
                    (
                        AstV::VariableDeclaration {
                            identifier: id,
                            initializer: None,
                            line,
                            var_type: Some(vt),
                        },
                        p + 2,
                    ),
                )
            } else {
                Err(
                    SynV {
                        message: "Expected ';' after variable declaration."@,
                        line: toks[p + 1].line,
                    },
                )
            }
        }
    }
}

/// The identifier message each display-statement flavor expects.
pub open spec fn display_ident_message(which: TokenType) -> Seq<char> {
    if which == TokenType::Display {
        "Expected identifier before display_statement."@
    } else if which == TokenType::DisplayInt {
        "Expected identifier before int."@
    } else {
        "Expected identifier before string."@
    }
}

/// A display statement, after its keyword: an identifier and the closing
/// `;`. `which` is the keyword's kind; `line` comes from the keyword token.
pub open spec fn s_display(toks: Seq<TokenV>, p: int, line: u32, which: TokenType) -> PRes<AstV>
    decreases toks.len() - p, 0int,
{
    if !s_check(toks, p, TokenType::Identifier) {
        Err(SynV { message: display_ident_message(which), line: toks[p].line })
    } else if !s_check(toks, p + 1, TokenType::Semicolon) {
        Err(SynV { message: "Expected ';' after display statement."@, line: toks[p + 1].line })
    } else {
        let node = if which == TokenType::Display {
            AstV::DisplayStatement(toks[p].lexeme, line)
        } else if which == TokenType::DisplayInt {
            AstV::DisplayIntStatement(toks[p].lexeme, line)
        } else {
            AstV::DisplayStringStatement(toks[p].lexeme, line)
        };
        Ok((node, p + 2))
    }
}

/// `ExprStmt := Identifier '=' Expression ';'` — a reassignment; its line is
/// the `=` token's line.
pub open spec fn s_expression_statement(toks: Seq<TokenV>, p: int) -> PRes<AstV>
    decreases toks.len() - p, 5int,
{
    if !s_check(toks, p, TokenType::Identifier) {
        Err(SynV { message: "Expected identifier before exp."@, line: toks[p].line })
    } else if !s_check(toks, p + 1, TokenType::Equals) {
        Err(SynV { message: "Expected '='."@, line: toks[p + 1].line })
    } else {
        let id = toks[p].lexeme;
        let eq_line = toks[p + 1].line;
        match s_expression(toks, p + 2) {
            Err(e) => Err(e),
            Ok((e0, p2)) => {
                if s_check(toks, p2, TokenType::Semicolon) {
                    Ok(
                        (
                            AstV::ExpressionStatement {
                                expression: Box::new(e0),
                                identifier: id,
                                line: eq_line,
                            },
                            p2 + 1,
                        ),
                    )
                } else {
                    Err(
                        SynV {
                            message: "Expected ';' after expression statement."@,
                            line: toks[p2].line,
                        },
                    )
                }
            },
        }
    }
}

/// `Statement := VarDecl | DisplayStmt | DisplayIntStmt | DisplayStrStmt |
/// IfStmt | ExprStmt`, dispatched on one token of lookahead.
pub open spec fn s_statement(toks: Seq<TokenV>, p: int) -> PRes<AstV>
    decreases toks.len() - p, 6int,
{
    if s_check(toks, p, TokenType::IntVarKeyword) {
        s_var_decl(toks, p + 1, toks[p].line, Type::Int)
    } else if s_check(toks, p, TokenType::StrVarKeyword) {
        s_var_decl(toks, p + 1, toks[p].line, Type::Str)
    } else if s_check(toks, p, TokenType::Display) {
        s_display(toks, p + 1, toks[p].line, TokenType::Display)
    } else if s_check(toks, p, TokenType::DisplayInt) {
        s_display(toks, p + 1, toks[p].line, TokenType::DisplayInt)
    } else if s_check(toks, p, TokenType::DisplayStr) {
        s_display(toks, p + 1, toks[p].line, TokenType::DisplayStr)
    } else if s_check(toks, p, TokenType::If) {
        s_if_block(toks, p + 1, toks[p].line)
    } else {
        s_expression_statement(toks, p)
    }
}

/// `Block := Statement*`, ended by `ELIF`, `ELSE` or `END-IF` in lookahead.
/// At the end marker the block does not stop: the statement parser then
/// reports its error, as the one token of lookahead demands.
pub open spec fn s_block(toks: Seq<TokenV>, p: int) -> PRes<Seq<AstV>>
    decreases toks.len() - p, 8int,
{
    if s_check(toks, p, TokenType::Elif) || s_check(toks, p, TokenType::Else) || s_check(
        toks,
        p,
        TokenType::EndIfElse,
    ) {
        Ok((Seq::empty(), p))
    } else {
        match s_statement(toks, p) {
            Err(e) => Err(e),
            Ok((s0, p1)) => {
                if p1 <= p || p1 > toks.len() {
                    Err(guard_err())
                } else {
                    match s_block(toks, p1) {
                        Err(e) => Err(e),
                        Ok((rest, p2)) => Ok((seq![s0] + rest, p2)),
                    }
                }
            },
        }
    }
}

/// The `('ELIF' Condition 'THEN' Block)*` tail of a conditional, in source
/// order. Each condition is a bare `Factor`.
pub open spec fn s_elifs(toks: Seq<TokenV>, p: int) -> PRes<Seq<(AstV, Seq<AstV>)>>
    decreases toks.len() - p, 9int,
{
    if !s_check(toks, p, TokenType::Elif) {
        Ok((Seq::empty(), p))
    } else {
        match s_factor(toks, p + 1) {
            Err(e) => Err(e),
            Ok((c, q2)) => {
                if q2 <= p {
                    Err(guard_err())
                } else if !s_check(toks, q2, TokenType::Then) {
                    Err(
                        SynV {
                            message: "Expected 'THEN' after ELSE-IF condition"@,
                            line: toks[q2].line,
                        },
                    )
                } else {
                    match s_block(toks, q2 + 1) {
                        Err(e) => Err(e),
                        Ok((b, q4)) => {
                            if q4 <= p || q4 > toks.len() {
                                Err(guard_err())
                            } else {
                                match s_elifs(toks, q4) {
                                    Err(e) => Err(e),
                                    Ok((rest, q5)) => Ok((seq![(c, b)] + rest, q5)),
                                }
                            }
                        },
                    }
                }
            },
        }
    }
}

/// `IfStmt`, after its `IF` keyword: the fixed empty `'(' ')'`, a bare
/// `Factor` condition, `THEN`, a block, else-if entries, an optional else
/// block, and the closing `END-IF`. `line` comes from the `IF` token.
pub open spec fn s_if_block(toks: Seq<TokenV>, p: int, line: u32) -> PRes<AstV>
    decreases toks.len() - p, 0int,
{
    if !s_check(toks, p, TokenType::LParen) {
        Err(SynV { message: "Expected '(' after IF"@, line: toks[p].line })
    } else if !s_check(toks, p + 1, TokenType::RParen) {
        Err(SynV { message: "Expected ) after expression"@, line: toks[p + 1].line })
    } else {
        match s_factor(toks, p + 2) {
            Err(e) => Err(e),
            Ok((cond, p3)) => {
                if p3 <= p + 1 {
                    Err(guard_err())
                } else if !s_check(toks, p3, TokenType::Then) {
                    Err(
                        SynV {
                            message: "Expected 'THEN' after IF condition"@,
                            line: toks[p3].line,
                        },
                    )
                } else {
                    match s_block(toks, p3 + 1) {
                        Err(e) => Err(e),
                        Ok((thenb, p4)) => {
                            if p4 < p3 + 1 || p4 > toks.len() {
                                Err(guard_err())
                            } else {
                                match s_elifs(toks, p4) {
                                    Err(e) => Err(e),
                                    Ok((elifs, p5)) => {
                                        if p5 < p4 {
                                            Err(guard_err())
                                        } else if s_check(toks, p5, TokenType::Else) {
                                            match s_block(toks, p5 + 1) {
                                                Err(e) => Err(e),
                                                Ok((elseb, p6)) => {
                                                    if !s_check(toks, p6, TokenType::EndIfElse) {
                                                        Err(
                                                            SynV {
                                                                message:
                                                                    "Expected 'END-IF' to close block"@,
                                                                line: toks[p6].line,
                                                            },
                                                        )
                                                    } else {
                                                        Ok(
                                                            (
                                                                AstV::IfStatement {
                                                                    condition: Box::new(cond),
                                                                    then_block: thenb,
                                                                    else_if_blocks: elifs,
                                                                    else_block: Some(elseb),
                                                                    line,
                                                                },
                                                                p6 + 1,
                                                            ),
                                                        )
                                                    }
                                                },
                                            }
                                        } else if !s_check(toks, p5, TokenType::EndIfElse) {
                                            Err(
                                                SynV {
                                                    message: "Expected 'END-IF' to close block"@,
                                                    line: toks[p5].line,
                                                },
                                            )
                                        } else {
                                            Ok(
                                                (
                                                    AstV::IfStatement {
                                                        condition: Box::new(cond),
                                                        then_block: thenb,
                                                        else_if_blocks: elifs,
                                                        else_block: None,
                                                        line,
                                                    },
                                                    p5 + 1,
                                                ),
                                            )
                                        }
                                    },
                                }
                            }
                        },
                    }
                }
            },
        }
    }
}

/// `Program := Statement* EOF`: the statements up to the end marker, which is
/// not consumed. A position outside the sequence is unreachable while an end
/// marker lies ahead.
pub open spec fn s_stmts(toks: Seq<TokenV>, p: int) -> PRes<Seq<AstV>>
    decreases toks.len() - p, 8int,
{
    if p < 0 || p >= toks.len() {
        Err(guard_err())
    } else if toks[p].token_type == TokenType::EOF {
        Ok((Seq::empty(), p))
    } else {
        match s_statement(toks, p) {
            Err(e) => Err(e),
            Ok((s0, p1)) => {
                if p1 <= p || p1 > toks.len() {
                    Err(guard_err())
                } else {
                    match s_stmts(toks, p1) {
                        Err(e) => Err(e),
                        Ok((rest, p2)) => Ok((seq![s0] + rest, p2)),
                    }
                }
            },
        }
    }
}

/// What parsing a whole token sequence from `p` yields: the `Program` tree,
/// or the first syntax error.
pub open spec fn s_parse(toks: Seq<TokenV>, p: int) -> Result<AstV, SynV> {
    match s_stmts(toks, p) {
        Ok((ss, _)) => Ok(AstV::Program(ss)),
        Err(e) => Err(e),
    }
}

/// An end marker stands at or after position `p`.
pub open spec fn has_eof_from(toks: Seq<TokenV>, p: int) -> bool {
    exists|k: int| p <= k < toks.len() && toks[k].token_type == TokenType::EOF
}

/// Deep copies of every node in `ss`, in order.
fn duplicate_all(ss: &Vec<ASTNode>) -> (r: Vec<ASTNode>)
    ensures
        ast_views(r@) == ast_views(ss@),
    decreases *ss,
{
    let mut r: Vec<ASTNode> = Vec::new();
    let mut k: usize = 0;
    while k < ss.len()
        invariant
            k <= ss@.len(),
            ast_views(r@) == ast_views(ss@.take(k as int)),
        decreases ss@.len() - k,
    {
        proof {
            assert(decreases_to!(*ss => ss@));
            assert(decreases_to!(ss@ => ss@[k as int]));
        }
        let c = (&ss[k]).duplicate();
        let ghost prev = r@;
        let ghost cv = ast_view(c);
        r.push(c);
        proof {
            assert(r@ == prev.push(r@.last()));
            lemma_ast_views_push(prev, r@.last());
            assert(ast_view(r@.last()) == cv);
            lemma_ast_views_push(ss@.take(k as int), ss@[k as int]);
            assert(ss@.take(k as int).push(ss@[k as int]) =~= ss@.take(k + 1));
        }
        k += 1;
    }
    proof {
        assert(ss@.take(ss@.len() as int) =~= ss@);
    }
    r
}

} // verus!

verus! {

/// Prefixing statements onto a spec block/program result: errors pass
/// through.
pub open spec fn prepend_stmts(pre: Seq<AstV>, r: PRes<Seq<AstV>>) -> PRes<Seq<AstV>> {
    match r {
        Ok((ss, p)) => Ok((pre + ss, p)),
        Err(e) => Err(e),
    }
}

/// Prefixing else-if entries onto a spec else-if-tail result: errors pass
/// through.
pub open spec fn prepend_elifs(
    pre: Seq<(AstV, Seq<AstV>)>,
    r: PRes<Seq<(AstV, Seq<AstV>)>>,
) -> PRes<Seq<(AstV, Seq<AstV>)>> {
    match r {
        Ok((ss, p)) => Ok((pre + ss, p)),
        Err(e) => Err(e),
    }
}

/// A vector holding one token kind, for single-kind lookahead.
fn one_type(tt: TokenType) -> (v: Vec<TokenType>)
    ensures
        v@ == seq![tt],
{
    let mut v: Vec<TokenType> = Vec::new();
    v.push(tt);
    proof {
        assert(v@ =~= seq![tt]);
    }
    v
}

/// The operator kinds of the flat `Term` level, in the order the parser
/// tries them.
fn binop_types() -> (v: Vec<TokenType>)
    ensures
        v@ == seq![
            TokenType::Plus,
            TokenType::Minus,
            TokenType::Star,
            TokenType::Slash,
            TokenType::LessThan,
            TokenType::LessOrEqual,
            TokenType::GreaterThan,
            TokenType::GreaterOrEqual,
        ],
        forall|i: int| 0 <= i < v@.len() ==> is_binop_tt(#[trigger] v@[i]),
{
    let mut v: Vec<TokenType> = Vec::new();
    v.push(TokenType::Plus);
    v.push(TokenType::Minus);
    v.push(TokenType::Star);
    v.push(TokenType::Slash);
    v.push(TokenType::LessThan);
    v.push(TokenType::LessOrEqual);
    v.push(TokenType::GreaterThan);
    v.push(TokenType::GreaterOrEqual);
    proof {
        assert(v@ =~= seq![
            TokenType::Plus,
            TokenType::Minus,
            TokenType::Star,
            TokenType::Slash,
            TokenType::LessThan,
            TokenType::LessOrEqual,
            TokenType::GreaterThan,
            TokenType::GreaterOrEqual,
        ]);
    }
    v
}

/// The recursive-descent parser: one token of lookahead over an owned token
/// sequence, no backtracking beyond the grouping-parenthesis rule. The first
/// expectation mismatch aborts the whole parse.
pub struct Parser {
    pub tokens: Vec<Token>,
    pub current: usize,
}

impl Parser {
    /// The model of the token sequence.
    pub open spec fn toksv(&self) -> Seq<TokenV> {
        views_of(self.tokens@)
    }

    /// Well-formedness: an end marker lies at or after the cursor, so the
    /// parser never reads past the sequence.
    pub open spec fn wf(&self) -> bool {
        has_eof_from(self.toksv(), self.current as int)
    }

    /// A parser over `tokens`, cursor at the start.
    pub fn new(tokens: Vec<Token>) -> (p: Self)
        ensures
            p.tokens == tokens,
            p.current == 0,
    {
        Parser { tokens, current: 0 }
    }

    fn peek(&self) -> (t: &Token)
        requires
            self.wf(),
        ensures
            t@ == self.toksv()[self.current as int],
    {
        proof {
            assert(self.current < self.tokens@.len());
        }
        let t = &self.tokens[self.current];
        proof {
            assert(self.toksv()[self.current as int] == self.tokens@[self.current as int]@);
        }
        t
    }

    fn previous(&self) -> (t: Token)
        requires
            1 <= self.current <= self.tokens@.len(),
        ensures
            t == self.tokens@[self.current - 1],
            t@ == self.toksv()[self.current - 1],
    {
        let t = self.tokens[self.current - 1].clone();
        proof {
            assert(self.toksv()[self.current - 1] == self.tokens@[self.current - 1]@);
        }
        t
    }

    fn is_at_end(&self) -> (r: bool)
        requires
            self.wf(),
        ensures
            r == s_at_end(self.toksv(), self.current as int),
    {
        let t = self.peek();
        t.token_type == TokenType::EOF
    }

    fn check(&self, token_type: TokenType) -> (r: bool)
        requires
            self.wf(),
        ensures
            r == s_check(self.toksv(), self.current as int, token_type),
    {
        proof {
            assert(self.current < self.tokens@.len());
        }
        if self.is_at_end() {
            false
        } else {
            let t = self.peek();
            t.token_type == token_type
        }
    }

    fn advance(&mut self) -> (t: Token)
        requires
            old(self).wf(),
            !s_at_end(old(self).toksv(), old(self).current as int),
        ensures
            final(self).tokens == old(self).tokens,
            final(self).current == old(self).current + 1,
            final(self).wf(),
            t@ == old(self).toksv()[old(self).current as int],
    {
        let n = self.tokens.len();
        proof {
            let k = choose|k: int|
                old(self).current <= k < old(self).toksv().len() && old(self).toksv()[k].token_type
                    == TokenType::EOF;
            assert(old(self).current < k);
            assert(self.current < n);
        }
        self.current = self.current + 1;
        self.previous()
    }

    fn match_token(&mut self, types: &Vec<TokenType>) -> (r: bool)
        requires
            old(self).wf(),
        ensures
            final(self).tokens == old(self).tokens,
            final(self).wf(),
            r == (exists|i: int|
                0 <= i < types@.len() && s_check(
                    old(self).toksv(),
                    old(self).current as int,
                    types@[i],
                )),
            types@.len() == 1 ==> r == s_check(
                old(self).toksv(),
                old(self).current as int,
                types@[0],
            ),
            r ==> final(self).current == old(self).current + 1 && s_check(
                old(self).toksv(),
                old(self).current as int,
                old(self).toksv()[old(self).current as int].token_type,
            ),
            !r ==> *final(self) == *old(self),
    {
        let mut k: usize = 0;
        while k < types.len()
            invariant
                k <= types@.len(),
                *self == *old(self),
                old(self).wf(),
                forall|i: int|
                    0 <= i < k ==> !s_check(
                        self.toksv(),
                        self.current as int,
                        #[trigger] types@[i],
                    ),
            decreases types@.len() - k,
        {
            if self.check(types[k]) {
                self.advance();
                return true;
            }
            k += 1;
        }
        false
    }

    fn consume(&mut self, token_type: TokenType, message: &str) -> (r: Result<Token, SyntaxError>)
        requires
            old(self).wf(),
        ensures
            final(self).tokens == old(self).tokens,
            final(self).wf(),
            final(self).current >= old(self).current,
            match r {
                Ok(t) => {
                    &&& s_check(old(self).toksv(), old(self).current as int, token_type)
                    &&& t@ == old(self).toksv()[old(self).current as int]
                    &&& final(self).current == old(self).current + 1
                },
                Err(e) => {
                    &&& !s_check(old(self).toksv(), old(self).current as int, token_type)
                    &&& e@ == (SynV {
                        message: message@,
                        line: old(self).toksv()[old(self).current as int].line,
                    })
                    &&& final(self).current == old(self).current
                },
            },
    {
        if self.check(token_type) {
            Ok(self.advance())
        } else {
            let line = self.peek().line;
            Err(SyntaxError { message: String::from_str(message), line })
        }
    }
}

} // verus!

verus! {

impl Parser {
    /// `Factor := Number | Identifier | String | '(' Expression ')'`.
    #[verifier::loop_isolation(false)]
    fn factor(&mut self) -> (r: Result<ASTNode, SyntaxError>)
        requires
            old(self).wf(),
        ensures
            final(self).tokens == old(self).tokens,
            final(self).wf(),
            final(self).current >= old(self).current,
            match r {
                Ok(node) => s_factor(old(self).toksv(), old(self).current as int) == Ok::<
                    (AstV, int),
                    SynV,
                >((node@, final(self).current as int)) && final(self).current > old(self).current,
                Err(e) => s_factor(old(self).toksv(), old(self).current as int) == Err::<
                    (AstV, int),
                    SynV,
                >(e@),
            },
        decreases self.tokens@.len() - self.current, 2int,
    {
        let tn = one_type(TokenType::Number);
        if self.match_token(&tn) {
            let token = self.previous();
            return Ok(ASTNode::Number(token.lexeme, token.line));
        }
        let ti = one_type(TokenType::Identifier);
        if self.match_token(&ti) {
            let token = self.previous();
            return Ok(ASTNode::Identifier(token.lexeme, token.line));
        }
        let ts = one_type(TokenType::String);
        if self.match_token(&ts) {
            let token = self.previous();
            return Ok(ASTNode::StringLiteral(token.lexeme, token.line));
        }
        let tl = one_type(TokenType::LParen);
        if self.match_token(&tl) {
            let expr = match self.expression() {
                Ok(e) => e,
                Err(e) => return Err(e),
            };
            match self.consume(TokenType::RParen, "Expected ')' after expression.") {
                Ok(_) => Ok(expr),
                Err(e) => Err(e),
            }
        } else {
            let line = self.peek().line;
            Err(SyntaxError { message: String::from_str("Unexpected token in factor"), line })
        }
    }

    /// `Expression := Term`.
    fn expression(&mut self) -> (r: Result<ASTNode, SyntaxError>)
        requires
            old(self).wf(),
        ensures
            final(self).tokens == old(self).tokens,
            final(self).wf(),
            final(self).current >= old(self).current,
            match r {
                Ok(node) => s_expression(old(self).toksv(), old(self).current as int) == Ok::<
                    (AstV, int),
                    SynV,
                >((node@, final(self).current as int)) && final(self).current > old(self).current,
                Err(e) => s_expression(old(self).toksv(), old(self).current as int) == Err::<
                    (AstV, int),
                    SynV,
                >(e@),
            },
        decreases self.tokens@.len() - self.current, 4int,
    {
        self.term()
    }

    /// `Term := Factor (op Factor)*`: a strict left fold with one flat
    /// precedence level over the arithmetic and comparison operators.
    #[verifier::loop_isolation(false)]
    fn term(&mut self) -> (r: Result<ASTNode, SyntaxError>)
        requires
            old(self).wf(),
        ensures
            final(self).tokens == old(self).tokens,
            final(self).wf(),
            final(self).current >= old(self).current,
            match r {
                Ok(node) => s_term(old(self).toksv(), old(self).current as int) == Ok::<
                    (AstV, int),
                    SynV,
                >((node@, final(self).current as int)) && final(self).current > old(self).current,
                Err(e) => s_term(old(self).toksv(), old(self).current as int) == Err::<
                    (AstV, int),
                    SynV,
                >(e@),
            },
        decreases self.tokens@.len() - self.current, 3int,
    {
        let ghost t0 = self.toksv();
        let ghost p0 = self.current as int;
        let mut expr = match self.factor() {
            Ok(e) => e,
            Err(e) => return Err(e),
        };
        let ops = binop_types();
        let mut done = false;
        while !done
            invariant
                self.wf(),
                self.tokens == old(self).tokens,
                self.current > p0,
                !done ==> s_term(t0, p0) == s_term_rest(t0, self.current as int, expr@),
                done ==> s_term(t0, p0) == Ok::<(AstV, int), SynV>((
                    expr@,
                    self.current as int,
                )),
            decreases (self.tokens@.len() - self.current) * 2 + (if done {
                0int
            } else {
                1int
            }),
        {
            if !self.match_token(&ops) {
                proof {
                    if self.current < t0.len() && is_binop_tt(
                        t0[self.current as int].token_type,
                    ) {
                        assert(s_check(t0, self.current as int, t0[self.current as int].token_type));
                        assert(exists|i: int|
                            0 <= i < ops@.len() && s_check(t0, self.current as int, ops@[i]));
                    }
                }
                done = true;
            } else {
                let op = self.previous();
                let right = match self.factor() {
                    Ok(x) => x,
                    Err(e) => return Err(e),
                };
                let ghost prev_expr = expr@;
                expr = ASTNode::BinaryOp {
                    operator: op.lexeme,
                    left: Box::new(expr),
                    right: Box::new(right),
                    line: op.line,
                };
            }
        }
        Ok(expr)
    }

    /// `VarDecl` after the `VARint` keyword.
    fn int_variable_declaration(&mut self) -> (r: Result<ASTNode, SyntaxError>)
        requires
            old(self).wf(),
            old(self).current >= 1,
        ensures
            final(self).tokens == old(self).tokens,
            final(self).wf(),
            final(self).current >= old(self).current,
            match r {
                Ok(node) => s_var_decl(
                    old(self).toksv(),
                    old(self).current as int,
                    old(self).toksv()[old(self).current - 1].line,
                    Type::Int,
                ) == Ok::<(AstV, int), SynV>((node@, final(self).current as int)) && final(self).current > old(self).current,
                Err(e) => s_var_decl(
                    old(self).toksv(),
                    old(self).current as int,
                    old(self).toksv()[old(self).current - 1].line,
                    Type::Int,
                ) == Err::<(AstV, int), SynV>(e@),
            },
        decreases self.tokens@.len() - self.current, 1int,
    {
        let var_token = self.previous();
        let identifier = match self.consume(TokenType::Identifier, "Expected identifier.") {
            Ok(t) => t,
            Err(e) => return Err(e),
        };
        let te = one_type(TokenType::Equals);
        let initializer: Option<Box<ASTNode>> = if self.match_token(&te) {
            match self.expression() {
                Ok(e) => Some(Box::new(e)),
                Err(e) => return Err(e),
            }
        } else {
            None
        };
        match self.consume(TokenType::Semicolon, "Expected ';' after variable declaration.") {
            Ok(_) => Ok(
                ASTNode::VariableDeclaration {
                    identifier: identifier.lexeme,
                    initializer,
                    var_type: Some(Type::Int),
                    line: var_token.line,
                },
            ),
            Err(e) => Err(e),
        }
    }

    /// `VarDecl` after the `VARstr` keyword.
    fn str_variable_declaration(&mut self) -> (r: Result<ASTNode, SyntaxError>)
        requires
            old(self).wf(),
            old(self).current >= 1,
        ensures
            final(self).tokens == old(self).tokens,
            final(self).wf(),
            final(self).current >= old(self).current,
            match r {
                Ok(node) => s_var_decl(
                    old(self).toksv(),
                    old(self).current as int,
                    old(self).toksv()[old(self).current - 1].line,
                    Type::Str,
                ) == Ok::<(AstV, int), SynV>((node@, final(self).current as int)) && final(self).current > old(self).current,
                Err(e) => s_var_decl(
                    old(self).toksv(),
                    old(self).current as int,
                    old(self).toksv()[old(self).current - 1].line,
                    Type::Str,
                ) == Err::<(AstV, int), SynV>(e@),
            },
        decreases self.tokens@.len() - self.current, 1int,
    {
        let var_token = self.previous();
        let identifier = match self.consume(TokenType::Identifier, "Expected identifier.") {
            Ok(t) => t,
            Err(e) => return Err(e),
        };
        let te = one_type(TokenType::Equals);
        let initializer: Option<Box<ASTNode>> = if self.match_token(&te) {
            match self.expression() {
                Ok(e) => Some(Box::new(e)),
                Err(e) => return Err(e),
            }
        } else {
            None
        };
        match self.consume(TokenType::Semicolon, "Expected ';' after variable declaration.") {
            Ok(_) => Ok(
                ASTNode::VariableDeclaration {
                    identifier: identifier.lexeme,
                    initializer,
                    var_type: Some(Type::Str),
                    line: var_token.line,
                },
            ),
            Err(e) => Err(e),
        }
    }

    /// `DisplayStmt := 'DISPLAY' Identifier ';'`, after its keyword.
    fn display_statement(&mut self) -> (r: Result<ASTNode, SyntaxError>)
        requires
            old(self).wf(),
            old(self).current >= 1,
        ensures
            final(self).tokens == old(self).tokens,
            final(self).wf(),
            final(self).current >= old(self).current,
            match r {
                Ok(node) => s_display(
                    old(self).toksv(),
                    old(self).current as int,
                    old(self).toksv()[old(self).current - 1].line,
                    TokenType::Display,
                ) == Ok::<(AstV, int), SynV>((node@, final(self).current as int)) && final(self).current > old(self).current,
                Err(e) => s_display(
                    old(self).toksv(),
                    old(self).current as int,
                    old(self).toksv()[old(self).current - 1].line,
                    TokenType::Display,
                ) == Err::<(AstV, int), SynV>(e@),
            },
        decreases self.tokens@.len() - self.current, 1int,
    {
        let display_token = self.previous();
        let identifier = match self.consume(
            TokenType::Identifier,
            "Expected identifier before display_statement.",
        ) {
            Ok(t) => t,
            Err(e) => return Err(e),
        };
        match self.consume(TokenType::Semicolon, "Expected ';' after display statement.") {
            Ok(_) => Ok(ASTNode::DisplayStatement(identifier.lexeme, display_token.line)),
            Err(e) => Err(e),
        }
    }

    /// `DisplayIntStmt := 'DISPLAYnumeric' Identifier ';'`, after its keyword.
    fn display_int(&mut self) -> (r: Result<ASTNode, SyntaxError>)
        requires
            old(self).wf(),
            old(self).current >= 1,
        ensures
            final(self).tokens == old(self).tokens,
            final(self).wf(),
            final(self).current >= old(self).current,
            match r {
                Ok(node) => s_display(
                    old(self).toksv(),
                    old(self).current as int,
                    old(self).toksv()[old(self).current - 1].line,
                    TokenType::DisplayInt,
                ) == Ok::<(AstV, int), SynV>((node@, final(self).current as int)) && final(self).current > old(self).current,
                Err(e) => s_display(
                    old(self).toksv(),
                    old(self).current as int,
                    old(self).toksv()[old(self).current - 1].line,
                    TokenType::DisplayInt,
                ) == Err::<(AstV, int), SynV>(e@),
            },
        decreases self.tokens@.len() - self.current, 1int,
    {
        let display_token = self.previous();
        let identifier = match self.consume(
            TokenType::Identifier,
            "Expected identifier before int.",
        ) {
            Ok(t) => t,
            Err(e) => return Err(e),
        };
        match self.consume(TokenType::Semicolon, "Expected ';' after display statement.") {
            Ok(_) => Ok(ASTNode::DisplayIntStatement(identifier.lexeme, display_token.line)),
            Err(e) => Err(e),
        }
    }

    /// `DisplayStrStmt := 'DISPLAYstring' Identifier ';'`, after its keyword.
    fn display_string(&mut self) -> (r: Result<ASTNode, SyntaxError>)
        requires
            old(self).wf(),
            old(self).current >= 1,
        ensures
            final(self).tokens == old(self).tokens,
            final(self).wf(),
            final(self).current >= old(self).current,
            match r {
                Ok(node) => s_display(
                    old(self).toksv(),
                    old(self).current as int,
                    old(self).toksv()[old(self).current - 1].line,
                    TokenType::DisplayStr,
                ) == Ok::<(AstV, int), SynV>((node@, final(self).current as int)) && final(self).current > old(self).current,
                Err(e) => s_display(
                    old(self).toksv(),
                    old(self).current as int,
                    old(self).toksv()[old(self).current - 1].line,
                    TokenType::DisplayStr,
                ) == Err::<(AstV, int), SynV>(e@),
            },
        decreases self.tokens@.len() - self.current, 1int,
    {
        let display_token = self.previous();
        let identifier = match self.consume(
            TokenType::Identifier,
            "Expected identifier before string.",
        ) {
            Ok(t) => t,
            Err(e) => return Err(e),
        };
        match self.consume(TokenType::Semicolon, "Expected ';' after display statement.") {
            Ok(_) => Ok(ASTNode::DisplayStringStatement(identifier.lexeme, display_token.line)),
            Err(e) => Err(e),
        }
    }

    /// `ExprStmt := Identifier '=' Expression ';'`.
    fn expression_statement(&mut self) -> (r: Result<ASTNode, SyntaxError>)
        requires
            old(self).wf(),
        ensures
            final(self).tokens == old(self).tokens,
            final(self).wf(),
            final(self).current >= old(self).current,
            match r {
                Ok(node) => s_expression_statement(old(self).toksv(), old(self).current as int)
                    == Ok::<(AstV, int), SynV>((node@, final(self).current as int)) && final(self).current > old(self).current,
                Err(e) => s_expression_statement(old(self).toksv(), old(self).current as int)
                    == Err::<(AstV, int), SynV>(e@),
            },
        decreases self.tokens@.len() - self.current, 5int,
    {
        let identifier = match self.consume(
            TokenType::Identifier,
            "Expected identifier before exp.",
        ) {
            Ok(t) => t,
            Err(e) => return Err(e),
        };
        let equals_token = match self.consume(TokenType::Equals, "Expected '='.") {
            Ok(t) => t,
            Err(e) => return Err(e),
        };
        let expr = match self.expression() {
            Ok(e) => e,
            Err(e) => return Err(e),
        };
        match self.consume(TokenType::Semicolon, "Expected ';' after expression statement.") {
            Ok(_) => Ok(
                ASTNode::ExpressionStatement {
                    expression: Box::new(expr),
                    identifier: identifier.lexeme,
                    line: equals_token.line,
                },
            ),
            Err(e) => Err(e),
        }
    }

    /// One statement, dispatched on the current token.
    fn statement(&mut self) -> (r: Result<ASTNode, SyntaxError>)
        requires
            old(self).wf(),
        ensures
            final(self).tokens == old(self).tokens,
            final(self).wf(),
            final(self).current >= old(self).current,
            match r {
                Ok(node) => s_statement(old(self).toksv(), old(self).current as int) == Ok::<
                    (AstV, int),
                    SynV,
                >((node@, final(self).current as int)) && final(self).current > old(self).current,
                Err(e) => s_statement(old(self).toksv(), old(self).current as int) == Err::<
                    (AstV, int),
                    SynV,
                >(e@),
            },
        decreases self.tokens@.len() - self.current, 6int,
    {
        let t1 = one_type(TokenType::IntVarKeyword);
        if self.match_token(&t1) {
            return self.int_variable_declaration();
        }
        let t2 = one_type(TokenType::StrVarKeyword);
        if self.match_token(&t2) {
            return self.str_variable_declaration();
        }
        let t3 = one_type(TokenType::Display);
        if self.match_token(&t3) {
            return self.display_statement();
        }
        let t4 = one_type(TokenType::DisplayInt);
        if self.match_token(&t4) {
            return self.display_int();
        }
        let t5 = one_type(TokenType::DisplayStr);
        if self.match_token(&t5) {
            return self.display_string();
        }
        let t6 = one_type(TokenType::If);
        if self.match_token(&t6) {
            return self.if_block();
        }
        self.expression_statement()
    }

    /// `Block := Statement*`, ended by `ELIF`, `ELSE` or `END-IF` lookahead.
    #[verifier::loop_isolation(false)]
    fn block(&mut self) -> (r: Result<Vec<ASTNode>, SyntaxError>)
        requires
            old(self).wf(),
        ensures
            final(self).tokens == old(self).tokens,
            final(self).wf(),
            final(self).current >= old(self).current,
            match r {
                Ok(v) => s_block(old(self).toksv(), old(self).current as int) == Ok::<
                    (Seq<AstV>, int),
                    SynV,
                >((ast_views(v@), final(self).current as int)),
                Err(e) => s_block(old(self).toksv(), old(self).current as int) == Err::<
                    (Seq<AstV>, int),
                    SynV,
                >(e@),
            },
        decreases self.tokens@.len() - self.current, 8int,
    {
        let ghost t0 = self.toksv();
        let ghost p0 = self.current as int;
        let mut statements: Vec<ASTNode> = Vec::new();
        proof {
            assert(ast_views(statements@) =~= Seq::<AstV>::empty());
            match s_block(t0, p0) {
                Ok((ss, q)) => {
                    assert(Seq::<AstV>::empty() + ss =~= ss);
                },
                Err(_) => {},
            }
        }
        while !(self.check(TokenType::Elif) || self.check(TokenType::Else) || self.check(
            TokenType::EndIfElse,
        ))
            invariant
                self.wf(),
                self.tokens == old(self).tokens,
                self.current >= p0,
                prepend_stmts(ast_views(statements@), s_block(t0, self.current as int)) == s_block(
                    t0,
                    p0,
                ),
            decreases self.tokens@.len() - self.current,
        {
            let s = match self.statement() {
                Ok(s) => s,
                Err(e) => return Err(e),
            };
            let ghost prev = statements@;
            let ghost sv = s@;
            statements.push(s);
            proof {
                lemma_ast_views_push(prev, statements@.last());
                match s_block(t0, self.current as int) {
                    Ok((rest, q)) => {
                        assert(ast_views(prev) + (seq![sv] + rest) =~= ast_views(prev).push(sv)
                            + rest);
                    },
                    Err(_) => {},
                }
            }
        }
        proof {
            match s_block(t0, self.current as int) {
                Ok((ss, q)) => {
                    assert(ast_views(statements@) + Seq::<AstV>::empty() =~= ast_views(
                        statements@,
                    ));
                },
                Err(_) => {},
            }
        }
        Ok(statements)
    }

    /// `IfStmt`, after its `IF` keyword: fixed `'(' ')'`, a bare `Factor`
    /// condition, `THEN`, a block, else-if entries in source order, an
    /// optional else block, and the closing `END-IF`.
    #[verifier::loop_isolation(false)]
    fn if_block(&mut self) -> (r: Result<ASTNode, SyntaxError>)
        requires
            old(self).wf(),
            old(self).current >= 1,
        ensures
            final(self).tokens == old(self).tokens,
            final(self).wf(),
            final(self).current >= old(self).current,
            match r {
                Ok(node) => s_if_block(
                    old(self).toksv(),
                    old(self).current as int,
                    old(self).toksv()[old(self).current - 1].line,
                ) == Ok::<(AstV, int), SynV>((node@, final(self).current as int)) && final(self).current > old(self).current,
                Err(e) => s_if_block(
                    old(self).toksv(),
                    old(self).current as int,
                    old(self).toksv()[old(self).current - 1].line,
                ) == Err::<(AstV, int), SynV>(e@),
            },
        decreases self.tokens@.len() - self.current, 1int,
    {
        let ghost t0 = self.toksv();
        let ghost p0 = self.current as int;
        let iftok = self.previous();
        if let Err(e) = self.consume(TokenType::LParen, "Expected '(' after IF") {
            return Err(e);
        }
        if let Err(e) = self.consume(TokenType::RParen, "Expected ) after expression") {
            return Err(e);
        }
        let cond = match self.factor() {
            Ok(c) => c,
            Err(e) => return Err(e),
        };
        if let Err(e) = self.consume(TokenType::Then, "Expected 'THEN' after IF condition") {
            return Err(e);
        }
        let i_block = match self.block() {
            Ok(b) => b,
            Err(e) => return Err(e),
        };
        let ghost p4 = self.current as int;
        let mut else_if_blocks: Vec<(Box<ASTNode>, Vec<ASTNode>)> = Vec::new();
        proof {
            assert(pair_views(else_if_blocks@) =~= Seq::<(AstV, Seq<AstV>)>::empty());
            match s_elifs(t0, p4) {
                Ok((ss, q)) => {
                    assert(Seq::<(AstV, Seq<AstV>)>::empty() + ss =~= ss);
                },
                Err(_) => {},
            }
        }
        let telif = one_type(TokenType::Elif);
        let mut done = false;
        while !done
            invariant
                self.wf(),
                self.tokens == old(self).tokens,
                self.current >= p4,
                telif@ == seq![TokenType::Elif],
                !done ==> prepend_elifs(
                    pair_views(else_if_blocks@),
                    s_elifs(t0, self.current as int),
                ) == s_elifs(t0, p4),
                done ==> s_elifs(t0, p4) == Ok::<(Seq<(AstV, Seq<AstV>)>, int), SynV>((
                    pair_views(else_if_blocks@),
                    self.current as int,
                )),
            decreases (self.tokens@.len() - self.current) * 2 + (if done {
                0int
            } else {
                1int
            }),
        {
            if !self.match_token(&telif) {
                proof {
                    match s_elifs(t0, self.current as int) {
                        Ok((ss, q)) => {
                            assert(pair_views(else_if_blocks@) + Seq::<(AstV, Seq<AstV>)>::empty()
                                =~= pair_views(else_if_blocks@));
                        },
                        Err(_) => {},
                    }
                }
                done = true;
            } else {
                let else_if_cond = match self.factor() {
                    Ok(c) => c,
                    Err(e) => return Err(e),
                };
                if let Err(e) = self.consume(
                    TokenType::Then,
                    "Expected 'THEN' after ELSE-IF condition",
                ) {
                    return Err(e);
                }
                let else_if_block = match self.block() {
                    Ok(b) => b,
                    Err(e) => return Err(e),
                };
                let ghost prev = else_if_blocks@;
                let ghost cv = else_if_cond@;
                let ghost bv = ast_views(else_if_block@);
                else_if_blocks.push((Box::new(else_if_cond), else_if_block));
                proof {
                    lemma_pair_views_push(prev, else_if_blocks@.last());
                    assert(ast_view(*else_if_blocks@.last().0) == cv);
                    assert(ast_views(else_if_blocks@.last().1@) == bv);
                    match s_elifs(t0, self.current as int) {
                        Ok((rest, q)) => {
                            assert(pair_views(prev) + (seq![(cv, bv)] + rest) =~= pair_views(
                                prev,
                            ).push((cv, bv)) + rest);
                        },
                        Err(_) => {},
                    }
                }
            }
        }
        let telse = one_type(TokenType::Else);
        let el_block: Option<Vec<ASTNode>> = if self.match_token(&telse) {
            match self.block() {
                Ok(b) => Some(b),
                Err(e) => return Err(e),
            }
        } else {
            None
        };
        if let Err(e) = self.consume(TokenType::EndIfElse, "Expected 'END-IF' to close block") {
            return Err(e);
        }
        Ok(
            ASTNode::IfStatement {
                condition: Box::new(cond),
                then_block: i_block,
                else_if_blocks,
                else_block: el_block,
                line: iftok.line,
            },
        )
    }

    /// `Program := Statement* EOF`: gathers statements up to the end marker,
    /// which is not consumed.
    #[verifier::loop_isolation(false)]
    fn program(&mut self) -> (r: Result<ASTNode, SyntaxError>)
        requires
            old(self).wf(),
        ensures
            final(self).tokens == old(self).tokens,
            final(self).wf(),
            final(self).current >= old(self).current,
            match r {
                Ok(node) => node@ is Program && s_stmts(old(self).toksv(), old(self).current as int)
                    == Ok::<(Seq<AstV>, int), SynV>((
                    node@->Program_0,
                    final(self).current as int,
                )),
                Err(e) => s_stmts(old(self).toksv(), old(self).current as int) == Err::<
                    (Seq<AstV>, int),
                    SynV,
                >(e@),
            },
    {
        let ghost t0 = self.toksv();
        let ghost p0 = self.current as int;
        let mut statements: Vec<ASTNode> = Vec::new();
        proof {
            assert(ast_views(statements@) =~= Seq::<AstV>::empty());
            match s_stmts(t0, p0) {
                Ok((ss, q)) => {
                    assert(Seq::<AstV>::empty() + ss =~= ss);
                },
                Err(_) => {},
            }
        }
        while !self.is_at_end()
            invariant
                self.wf(),
                self.tokens == old(self).tokens,
                self.current >= p0,
                prepend_stmts(ast_views(statements@), s_stmts(t0, self.current as int)) == s_stmts(
                    t0,
                    p0,
                ),
            decreases self.tokens@.len() - self.current,
        {
            let s = match self.statement() {
                Ok(s) => s,
                Err(e) => return Err(e),
            };
            let ghost prev = statements@;
            let ghost sv = s@;
            statements.push(s);
            proof {
                lemma_ast_views_push(prev, statements@.last());
                match s_stmts(t0, self.current as int) {
                    Ok((rest, q)) => {
                        assert(ast_views(prev) + (seq![sv] + rest) =~= ast_views(prev).push(sv)
                            + rest);
                    },
                    Err(_) => {},
                }
            }
        }
        proof {
            assert(self.current < self.tokens@.len());
            match s_stmts(t0, self.current as int) {
                Ok((ss, q)) => {
                    assert(ast_views(statements@) + Seq::<AstV>::empty() =~= ast_views(
                        statements@,
                    ));
                },
                Err(_) => {},
            }
        }
        Ok(ASTNode::Program(statements))
    }

    /// Parses the token sequence into a `Program` tree, or the first syntax
    /// error. No partial tree is returned: an expectation mismatch aborts
    /// the whole parse.
    pub fn parse(&mut self) -> (r: Result<ASTNode, SyntaxError>)
        requires
            old(self).wf(),
        ensures
            final(self).tokens == old(self).tokens,
            final(self).wf(),
            match r {
                Ok(node) => s_parse(old(self).toksv(), old(self).current as int) == Ok::<
                    AstV,
                    SynV,
                >(node@),
                Err(e) => s_parse(old(self).toksv(), old(self).current as int) == Err::<
                    AstV,
                    SynV,
                >(e@),
            },
    {
        match self.program() {
            Ok(n) => Ok(n),
            Err(e) => Err(e),
        }
    }
}

} // verus!

verus! {

pub proof fn lemma_preorder_all_concat(a: Seq<AstV>, b: Seq<AstV>)
    ensures
        preorder_all(a + b) == preorder_all(a) + preorder_all(b),
    decreases a,
{
    reveal_with_fuel(preorder_all, 2);
    if a.len() == 0 {
        assert(a + b =~= b);
        assert(preorder_all(a) + preorder_all(b) =~= preorder_all(b));
    } else {
        assert((a + b).first() == a.first());
        assert((a + b).drop_first() =~= a.drop_first() + b);
        lemma_preorder_all_concat(a.drop_first(), b);
        assert(preorder_all(a + b) =~= preorder_all(a) + preorder_all(b));
    }
}

/// Round-trip ordering: the traversal of a `Program` visits the root first
/// and then the statements' visitation sequences in source order — however
/// the statements are split, every node of the earlier statements is visited
/// before every node of the later ones.
pub proof fn lemma_traverse_program_order(ss: Seq<AstV>, i: int)
    requires
        0 <= i <= ss.len(),
    ensures
        preorder(AstV::Program(ss)) == seq![AstV::Program(ss)] + preorder_all(ss.take(i))
            + preorder_all(ss.skip(i)),
{
    assert(ss.take(i) + ss.skip(i) =~= ss);
    lemma_preorder_all_concat(ss.take(i), ss.skip(i));
    assert(seq![AstV::Program(ss)] + preorder_all(ss.take(i)) + preorder_all(ss.skip(i))
        =~= seq![AstV::Program(ss)] + preorder_all(ss));
}

/// Idempotence of traversal: the visitation sequence is a function of the
/// tree alone, so two runs of `traverse` over the same unchanged tree visit
/// the same nodes in the same order.
pub proof fn lemma_traverse_idempotent(a: AstV, r1: Seq<AstV>, r2: Seq<AstV>)
    requires
        r1 == preorder(a),
        r2 == preorder(a),
    ensures
        r1 == r2,
{
}

} // verus!

verus! {

/// How many leaves — identifiers, numbers, string literals — a tree holds.
pub open spec fn leaf_count(a: AstV) -> int
    decreases a,
{
    match a {
        AstV::Program(ss) => leaf_count_all(ss),
        AstV::VariableDeclaration { initializer, .. } => match initializer {
            Some(b) => leaf_count(*b),
            None => 0,
        },
        AstV::ExpressionStatement { expression, .. } => leaf_count(*expression),
        AstV::BinaryOp { left, right, .. } => leaf_count(*left) + leaf_count(*right),
        AstV::IfStatement { condition, then_block, else_if_blocks, else_block, .. } => {
            leaf_count(*condition) + leaf_count_all(then_block) + leaf_count_pairs(else_if_blocks)
                + (match else_block {
                Some(e) => leaf_count_all(e),
                None => 0,
            })
        },
        AstV::Identifier(..) => 1,
        AstV::Number(..) => 1,
        AstV::StringLiteral(..) => 1,
        _ => 0,
    }
}

pub open spec fn leaf_count_all(ss: Seq<AstV>) -> int
    decreases ss,
{
    if ss.len() == 0 {
        0
    } else {
        leaf_count(ss.first()) + leaf_count_all(ss.drop_first())
    }
}

pub open spec fn leaf_count_pairs(ps: Seq<(AstV, Seq<AstV>)>) -> int
    decreases ps,
{
    if ps.len() == 0 {
        0
    } else {
        leaf_count(ps.first().0) + leaf_count_all(ps.first().1) + leaf_count_pairs(ps.drop_first())
    }
}

/// How many statements of a tree bind an identifier token into a field
/// rather than a leaf: declarations, the three display statements, and
/// assignments.
pub open spec fn binder_count(a: AstV) -> int
    decreases a,
{
    match a {
        AstV::Program(ss) => binder_count_all(ss),
        AstV::VariableDeclaration { initializer, .. } => 1 + (match initializer {
            Some(b) => binder_count(*b),
            None => 0,
        }),
        AstV::DisplayStatement(..) => 1,
        AstV::DisplayIntStatement(..) => 1,
        AstV::DisplayStringStatement(..) => 1,
        AstV::ExpressionStatement { expression, .. } => 1 + binder_count(*expression),
        AstV::BinaryOp { left, right, .. } => binder_count(*left) + binder_count(*right),
        AstV::IfStatement { condition, then_block, else_if_blocks, else_block, .. } => {
            binder_count(*condition) + binder_count_all(then_block) + binder_count_pairs(
                else_if_blocks,
            ) + (match else_block {
                Some(e) => binder_count_all(e),
                None => 0,
            })
        },
        _ => 0,
    }
}

pub open spec fn binder_count_all(ss: Seq<AstV>) -> int
    decreases ss,
{
    if ss.len() == 0 {
        0
    } else {
        binder_count(ss.first()) + binder_count_all(ss.drop_first())
    }
}

pub open spec fn binder_count_pairs(ps: Seq<(AstV, Seq<AstV>)>) -> int
    decreases ps,
{
    if ps.len() == 0 {
        0
    } else {
        binder_count(ps.first().0) + binder_count_all(ps.first().1) + binder_count_pairs(
            ps.drop_first(),
        )
    }
}

/// A token whose lexeme is a literal or identifier: what the grammar's
/// leaves are made of.
pub open spec fn is_leafy(t: TokenV) -> bool {
    t.token_type == TokenType::Number || t.token_type == TokenType::Identifier || t.token_type
        == TokenType::String
}

/// How many literal/identifier tokens stand in `toks[p..q)`.
pub open spec fn leafy_count(toks: Seq<TokenV>, p: int, q: int) -> int
    decreases q - p,
{
    if p >= q {
        0
    } else {
        (if is_leafy(toks[p]) {
            1int
        } else {
            0int
        }) + leafy_count(toks, p + 1, q)
    }
}

pub proof fn lemma_leafy_split(toks: Seq<TokenV>, p: int, m: int, q: int)
    requires
        p <= m <= q,
    ensures
        leafy_count(toks, p, q) == leafy_count(toks, p, m) + leafy_count(toks, m, q),
    decreases m - p,
{
    if p < m {
        lemma_leafy_split(toks, p + 1, m, q);
    }
}

proof fn lemma_counts_cons(x: AstV, rest: Seq<AstV>)
    ensures
        leaf_count_all(seq![x] + rest) == leaf_count(x) + leaf_count_all(rest),
        binder_count_all(seq![x] + rest) == binder_count(x) + binder_count_all(rest),
{
    assert((seq![x] + rest).first() == x);
    assert((seq![x] + rest).drop_first() =~= rest);
    assert((seq![x] + rest).len() > 0);
}

proof fn lemma_counts_cons_pairs(x: (AstV, Seq<AstV>), rest: Seq<(AstV, Seq<AstV>)>)
    ensures
        leaf_count_pairs(seq![x] + rest) == leaf_count(x.0) + leaf_count_all(x.1)
            + leaf_count_pairs(rest),
        binder_count_pairs(seq![x] + rest) == binder_count(x.0) + binder_count_all(x.1)
            + binder_count_pairs(rest),
{
    assert((seq![x] + rest).first() == x);
    assert((seq![x] + rest).drop_first() =~= rest);
    assert((seq![x] + rest).len() > 0);
}

proof fn l_factor(toks: Seq<TokenV>, p: int)
    requires
        0 <= p <= toks.len(),
    ensures
        match s_factor(toks, p) {
            Ok((a, q)) => p <= q <= toks.len() && leaf_count(a) + binder_count(a) == leafy_count(
                toks,
                p,
                q,
            ),
            Err(_) => true,
        },
    decreases toks.len() - p, 2int,
{
    reveal_with_fuel(leafy_count, 3);
    if s_check(toks, p, TokenType::Number) || s_check(toks, p, TokenType::Identifier) || s_check(
        toks,
        p,
        TokenType::String,
    ) {
    } else if s_check(toks, p, TokenType::LParen) {
        l_expression(toks, p + 1);
        match s_expression(toks, p + 1) {
            Ok((e0, p2)) => {
                if s_check(toks, p2, TokenType::RParen) {
                    lemma_leafy_split(toks, p, p + 1, p2 + 1);
                    lemma_leafy_split(toks, p + 1, p2, p2 + 1);
                }
            },
            Err(_) => {},
        }
    }
}

proof fn l_term_rest(toks: Seq<TokenV>, p: int, acc: AstV)
    requires
        0 <= p,
    ensures
        match s_term_rest(toks, p, acc) {
            Ok((a, q)) => p <= q && (q <= toks.len() || q == p) && leaf_count(a) + binder_count(a)
                == leaf_count(acc) + binder_count(acc) + leafy_count(toks, p, q),
            Err(_) => true,
        },
    decreases toks.len() - p, 0int,
{
    reveal_with_fuel(leafy_count, 3);
    if !(0 <= p < toks.len() && is_binop_tt(toks[p].token_type)) {
    } else {
        l_factor(toks, p + 1);
        match s_factor(toks, p + 1) {
            Ok((r, p2)) => {
                let node = AstV::BinaryOp {
                    operator: toks[p].lexeme,
                    left: Box::new(acc),
                    right: Box::new(r),
                    line: toks[p].line,
                };
                if p2 > p && p2 <= toks.len() {
                    l_term_rest(toks, p2, node);
                    match s_term_rest(toks, p2, node) {
                        Ok((a, q)) => {
                            lemma_leafy_split(toks, p, p + 1, q);
                            lemma_leafy_split(toks, p + 1, p2, q);
                        },
                        Err(_) => {},
                    }
                }
            },
            Err(_) => {},
        }
    }
}

proof fn l_term(toks: Seq<TokenV>, p: int)
    requires
        0 <= p <= toks.len(),
    ensures
        match s_term(toks, p) {
            Ok((a, q)) => p <= q <= toks.len() && leaf_count(a) + binder_count(a) == leafy_count(
                toks,
                p,
                q,
            ),
            Err(_) => true,
        },
    decreases toks.len() - p, 3int,
{
    l_factor(toks, p);
    match s_factor(toks, p) {
        Ok((e0, p0)) => {
            if !(p0 <= p || p0 > toks.len()) {
                l_term_rest(toks, p0, e0);
                match s_term_rest(toks, p0, e0) {
                    Ok((a, q)) => {
                        lemma_leafy_split(toks, p, p0, q);
                    },
                    Err(_) => {},
                }
            }
        },
        Err(_) => {},
    }
}

proof fn l_expression(toks: Seq<TokenV>, p: int)
    requires
        0 <= p <= toks.len(),
    ensures
        match s_expression(toks, p) {
            Ok((a, q)) => p <= q <= toks.len() && leaf_count(a) + binder_count(a) == leafy_count(
                toks,
                p,
                q,
            ),
            Err(_) => true,
        },
    decreases toks.len() - p, 4int,
{
    l_term(toks, p);
}

proof fn l_var_decl(toks: Seq<TokenV>, p: int, line: u32, vt: Type)
    requires
        0 <= p <= toks.len(),
    ensures
        match s_var_decl(toks, p, line, vt) {
            Ok((a, q)) => p <= q <= toks.len() && leaf_count(a) + binder_count(a) == leafy_count(
                toks,
                p,
                q,
            ),
            Err(_) => true,
        },
    decreases toks.len() - p, 0int,
{
    reveal_with_fuel(leafy_count, 4);
    if s_check(toks, p, TokenType::Identifier) {
        if s_check(toks, p + 1, TokenType::Equals) {
            l_expression(toks, p + 2);
            match s_expression(toks, p + 2) {
                Ok((e0, p2)) => {
                    if s_check(toks, p2, TokenType::Semicolon) {
                        lemma_leafy_split(toks, p, p + 2, p2 + 1);
                        lemma_leafy_split(toks, p + 2, p2, p2 + 1);
                    }
                },
                Err(_) => {},
            }
        }
    }
}

proof fn l_display(toks: Seq<TokenV>, p: int, line: u32, which: TokenType)
    requires
        0 <= p <= toks.len(),
    ensures
        match s_display(toks, p, line, which) {
            Ok((a, q)) => p <= q <= toks.len() && leaf_count(a) + binder_count(a) == leafy_count(
                toks,
                p,
                q,
            ),
            Err(_) => true,
        },
    decreases toks.len() - p, 0int,
{
    reveal_with_fuel(leafy_count, 3);
}

proof fn l_expression_statement(toks: Seq<TokenV>, p: int)
    requires
        0 <= p <= toks.len(),
    ensures
        match s_expression_statement(toks, p) {
            Ok((a, q)) => p <= q <= toks.len() && leaf_count(a) + binder_count(a) == leafy_count(
                toks,
                p,
                q,
            ),
            Err(_) => true,
        },
    decreases toks.len() - p, 5int,
{
    reveal_with_fuel(leafy_count, 4);
    if s_check(toks, p, TokenType::Identifier) && s_check(toks, p + 1, TokenType::Equals) {
        l_expression(toks, p + 2);
        match s_expression(toks, p + 2) {
            Ok((e0, p2)) => {
                if s_check(toks, p2, TokenType::Semicolon) {
                    lemma_leafy_split(toks, p, p + 2, p2 + 1);
                    lemma_leafy_split(toks, p + 2, p2, p2 + 1);
                }
            },
            Err(_) => {},
        }
    }
}

proof fn l_statement(toks: Seq<TokenV>, p: int)
    requires
        0 <= p <= toks.len(),
    ensures
        match s_statement(toks, p) {
            Ok((a, q)) => p <= q <= toks.len() && leaf_count(a) + binder_count(a) == leafy_count(
                toks,
                p,
                q,
            ),
            Err(_) => true,
        },
    decreases toks.len() - p, 6int,
{
    reveal_with_fuel(leafy_count, 2);
    if s_check(toks, p, TokenType::IntVarKeyword) {
        l_var_decl(toks, p + 1, toks[p].line, Type::Int);
        match s_var_decl(toks, p + 1, toks[p].line, Type::Int) {
            Ok((a, q)) => {
                lemma_leafy_split(toks, p, p + 1, q);
            },
            Err(_) => {},
        }
    } else if s_check(toks, p, TokenType::StrVarKeyword) {
        l_var_decl(toks, p + 1, toks[p].line, Type::Str);
        match s_var_decl(toks, p + 1, toks[p].line, Type::Str) {
            Ok((a, q)) => {
                lemma_leafy_split(toks, p, p + 1, q);
            },
            Err(_) => {},
        }
    } else if s_check(toks, p, TokenType::Display) {
        l_display(toks, p + 1, toks[p].line, TokenType::Display);
        match s_display(toks, p + 1, toks[p].line, TokenType::Display) {
            Ok((a, q)) => {
                lemma_leafy_split(toks, p, p + 1, q);
            },
            Err(_) => {},
        }
    } else if s_check(toks, p, TokenType::DisplayInt) {
        l_display(toks, p + 1, toks[p].line, TokenType::DisplayInt);
        match s_display(toks, p + 1, toks[p].line, TokenType::DisplayInt) {
            Ok((a, q)) => {
                lemma_leafy_split(toks, p, p + 1, q);
            },
            Err(_) => {},
        }
    } else if s_check(toks, p, TokenType::DisplayStr) {
        l_display(toks, p + 1, toks[p].line, TokenType::DisplayStr);
        match s_display(toks, p + 1, toks[p].line, TokenType::DisplayStr) {
            Ok((a, q)) => {
                lemma_leafy_split(toks, p, p + 1, q);
            },
            Err(_) => {},
        }
    } else if s_check(toks, p, TokenType::If) {
        l_if_block(toks, p + 1, toks[p].line);
        match s_if_block(toks, p + 1, toks[p].line) {
            Ok((a, q)) => {
                lemma_leafy_split(toks, p, p + 1, q);
            },
            Err(_) => {},
        }
    } else {
        l_expression_statement(toks, p);
    }
}

proof fn l_block(toks: Seq<TokenV>, p: int)
    requires
        0 <= p <= toks.len(),
    ensures
        match s_block(toks, p) {
            Ok((ss, q)) => p <= q <= toks.len() && leaf_count_all(ss) + binder_count_all(ss)
                == leafy_count(toks, p, q),
            Err(_) => true,
        },
    decreases toks.len() - p, 8int,
{
    if s_check(toks, p, TokenType::Elif) || s_check(toks, p, TokenType::Else) || s_check(
        toks,
        p,
        TokenType::EndIfElse,
    ) {
    } else {
        l_statement(toks, p);
        match s_statement(toks, p) {
            Ok((s0, p1)) => {
                if !(p1 <= p || p1 > toks.len()) {
                    l_block(toks, p1);
                    match s_block(toks, p1) {
                        Ok((rest, p2)) => {
                            lemma_counts_cons(s0, rest);
                            lemma_leafy_split(toks, p, p1, p2);
                        },
                        Err(_) => {},
                    }
                }
            },
            Err(_) => {},
        }
    }
}

proof fn l_elifs(toks: Seq<TokenV>, p: int)
    requires
        0 <= p <= toks.len(),
    ensures
        match s_elifs(toks, p) {
            Ok((ps, q)) => p <= q <= toks.len() && leaf_count_pairs(ps) + binder_count_pairs(ps)
                == leafy_count(toks, p, q),
            Err(_) => true,
        },
    decreases toks.len() - p, 9int,
{
    reveal_with_fuel(leafy_count, 3);
    if !s_check(toks, p, TokenType::Elif) {
    } else {
        l_factor(toks, p + 1);
        match s_factor(toks, p + 1) {
            Ok((c, q2)) => {
                if q2 > p && s_check(toks, q2, TokenType::Then) {
                    l_block(toks, q2 + 1);
                    match s_block(toks, q2 + 1) {
                        Ok((b, q4)) => {
                            if !(q4 <= p || q4 > toks.len()) {
                                l_elifs(toks, q4);
                                match s_elifs(toks, q4) {
                                    Ok((rest, q5)) => {
                                        lemma_counts_cons_pairs((c, b), rest);
                                        lemma_leafy_split(toks, p, p + 1, q5);
                                        lemma_leafy_split(toks, p + 1, q2, q5);
                                        lemma_leafy_split(toks, q2, q2 + 1, q5);
                                        lemma_leafy_split(toks, q2 + 1, q4, q5);
                                    },
                                    Err(_) => {},
                                }
                            }
                        },
                        Err(_) => {},
                    }
                }
            },
            Err(_) => {},
        }
    }
}

proof fn l_if_block(toks: Seq<TokenV>, p: int, line: u32)
    requires
        0 <= p <= toks.len(),
    ensures
        match s_if_block(toks, p, line) {
            Ok((a, q)) => p <= q <= toks.len() && leaf_count(a) + binder_count(a) == leafy_count(
                toks,
                p,
                q,
            ),
            Err(_) => true,
        },
    decreases toks.len() - p, 0int,
{
    reveal_with_fuel(leafy_count, 3);
    if s_check(toks, p, TokenType::LParen) && s_check(toks, p + 1, TokenType::RParen) {
        l_factor(toks, p + 2);
        match s_factor(toks, p + 2) {
            Ok((cond, p3)) => {
                if p3 > p + 1 && s_check(toks, p3, TokenType::Then) {
                    l_block(toks, p3 + 1);
                    match s_block(toks, p3 + 1) {
                        Ok((thenb, p4)) => {
                            if !(p4 < p3 + 1 || p4 > toks.len()) {
                                l_elifs(toks, p4);
                                match s_elifs(toks, p4) {
                                    Ok((elifs, p5)) => {
                                        if p5 >= p4 {
                                            if s_check(toks, p5, TokenType::Else) {
                                                l_block(toks, p5 + 1);
                                                match s_block(toks, p5 + 1) {
                                                    Ok((elseb, p6)) => {
                                                        if s_check(
                                                            toks,
                                                            p6,
                                                            TokenType::EndIfElse,
                                                        ) {
                                                            lemma_leafy_split(toks, p, p + 2, p6 + 1);
                                                            lemma_leafy_split(
                                                                toks,
                                                                p + 2,
                                                                p3,
                                                                p6 + 1,
                                                            );
                                                            lemma_leafy_split(
                                                                toks,
                                                                p3,
                                                                p3 + 1,
                                                                p6 + 1,
                                                            );
                                                            lemma_leafy_split(
                                                                toks,
                                                                p3 + 1,
                                                                p4,
                                                                p6 + 1,
                                                            );
                                                            lemma_leafy_split(
                                                                toks,
                                                                p4,
                                                                p5,
                                                                p6 + 1,
                                                            );
                                                            lemma_leafy_split(
                                                                toks,
                                                                p5,
                                                                p5 + 1,
                                                                p6 + 1,
                                                            );
                                                            lemma_leafy_split(
                                                                toks,
                                                                p5 + 1,
                                                                p6,
                                                                p6 + 1,
                                                            );
                                                        }
                                                    },
                                                    Err(_) => {},
                                                }
                                            } else if s_check(toks, p5, TokenType::EndIfElse) {
                                                lemma_leafy_split(toks, p, p + 2, p5 + 1);
                                                lemma_leafy_split(toks, p + 2, p3, p5 + 1);
                                                lemma_leafy_split(toks, p3, p3 + 1, p5 + 1);
                                                lemma_leafy_split(toks, p3 + 1, p4, p5 + 1);
                                                lemma_leafy_split(toks, p4, p5, p5 + 1);
                                            }
                                        }
                                    },
                                    Err(_) => {},
                                }
                            }
                        },
                        Err(_) => {},
                    }
                }
            },
            Err(_) => {},
        }
    }
}

proof fn l_stmts(toks: Seq<TokenV>, p: int)
    requires
        0 <= p <= toks.len(),
    ensures
        match s_stmts(toks, p) {
            Ok((ss, q)) => p <= q <= toks.len() && leaf_count_all(ss) + binder_count_all(ss)
                == leafy_count(toks, p, q),
            Err(_) => true,
        },
    decreases toks.len() - p, 8int,
{
    if p < 0 || p >= toks.len() {
    } else if toks[p].token_type == TokenType::EOF {
    } else {
        l_statement(toks, p);
        match s_statement(toks, p) {
            Ok((s0, p1)) => {
                if !(p1 <= p || p1 > toks.len()) {
                    l_stmts(toks, p1);
                    match s_stmts(toks, p1) {
                        Ok((rest, p2)) => {
                            lemma_counts_cons(s0, rest);
                            lemma_leafy_split(toks, p, p1, p2);
                        },
                        Err(_) => {},
                    }
                }
            },
            Err(_) => {},
        }
    }
}

/// For every token sequence the parser accepts, the tree's leaf count plus
/// the count of its identifier-binding statements (declarations, display
/// statements, assignments — each of which folds one identifier token into a
/// field rather than a leaf) equals the number of literal/identifier tokens
/// consumed up to the end marker. On trees without binding statements the
/// leaf count alone equals that token count.
pub proof fn lemma_parse_leaf_count(toks: Seq<TokenV>)
    requires
        s_parse(toks, 0) is Ok,
    ensures
        ({
            let a = s_parse(toks, 0)->Ok_0;
            leaf_count(a) + binder_count(a) == leafy_count(toks, 0, s_stmts(toks, 0)->Ok_0.1)
        }),
{
    l_stmts(toks, 0);
}

/// The same, stated of source text: a well-formed source — one whose token
/// sequence the parser accepts — parses, and its tree's leaf count plus its
/// binding-statement count equals the literal/identifier tokens the scan
/// produced before the end marker.
pub proof fn lemma_lex_parse_leaf_count(source: Seq<char>, line0: u32)
    requires
        s_parse(crate::token::s_lex(source, line0).0, 0) is Ok,
    ensures
        ({
            let toks = crate::token::s_lex(source, line0).0;
            let a = s_parse(toks, 0)->Ok_0;
            leaf_count(a) + binder_count(a) == leafy_count(toks, 0, s_stmts(toks, 0)->Ok_0.1)
        }),
{
    lemma_parse_leaf_count(crate::token::s_lex(source, line0).0);
}

} // verus!
