//! The code generator: a thin pass that renders a completed tree either as a
//! human-readable description or as C-like source text. It consumes the tree
//! read-only and builds text; writing the text anywhere is its caller's
//! business.

use vstd::prelude::*;

use crate::ast::ASTNode;
use crate::ast::ast_view;
use crate::ast::lemma_ast_views_len;
use crate::ast::lemma_ast_views_push;
use crate::ast::lemma_pair_views_push;
use crate::ast::AstV;
use crate::ast::ast_views;
use crate::ast::pair_views;
use crate::token::Type;

verus! {

/// The character of a single decimal digit.
pub open spec fn digit_char(d: nat) -> char {
    ((48 + d) as u8) as char
}

/// The decimal rendering of a number, most significant digit first.
pub open spec fn dec_str(n: nat) -> Seq<char>
    decreases n,
{
    if n < 10 {
        seq![digit_char(n)]
    } else {
        dec_str(n / 10) + seq![digit_char(n % 10)]
    }
}

/// The decimal digits of `n`, as characters.
fn dec_chars(n: u32) -> (v: Vec<char>)
    ensures
        v@ == dec_str(n as nat),
    decreases n,
{
    if n < 10 {
        let c = (48u8 + (n as u8)) as char;
        let mut v: Vec<char> = Vec::new();
        v.push(c);
        proof {
            assert(v@ =~= seq![digit_char(n as nat)]);
        }
        v
    } else {
        let mut v = dec_chars(n / 10);
        let c = (48u8 + ((n % 10) as u8)) as char;
        v.push(c);
        proof {
            assert(v@ =~= dec_str((n / 10) as nat) + seq![digit_char((n % 10) as nat)]);
        }
        v
    }
}

/// The decimal rendering of a line number.
fn u32_string(n: u32) -> (s: String)
    ensures
        s@ == dec_str(n as nat),
{
    let v = dec_chars(n);
    crate::token::chars_to_string(&v)
}

/// The name the description gives a declared type; an absent one reads
/// `Unknown`.
pub open spec fn declared_type_text(vt: Option<Type>) -> Seq<char> {
    match vt {
        Some(Type::Int) => "Int"@,
        Some(Type::Str) => "Str"@,
        _ => "Unknown"@,
    }
}

/// The textual description of a tree: one line per node, children following
/// their parent.
pub open spec fn describe(a: AstV) -> Seq<char>
    decreases a,
{
    match a {
        AstV::Program(ss) => "Program with "@ + dec_str(ss.len()) + " statements\n"@
            + describe_all(ss),
        AstV::VariableDeclaration { identifier, initializer, line, var_type } => {
            "Variable Declaration: "@ + identifier + " on line "@ + dec_str(line as nat)
                + " of type "@ + declared_type_text(var_type) + "\n"@ + (match initializer {
                Some(b) => "  Initialized with:\n"@ + describe(*b),
                None => Seq::empty(),
            })
        },
        AstV::DisplayStatement(id, line) => "Display Statement: "@ + id + " on line "@ + dec_str(
            line as nat,
        ) + "\n"@,
        AstV::DisplayIntStatement(id, line) => "Display int Statement: "@ + id + " on line "@
            + dec_str(line as nat) + "\n"@,
        AstV::DisplayStringStatement(id, line) => "Display string Statement: "@ + id + " on line "@
            + dec_str(line as nat) + "\n"@,
        AstV::ExpressionStatement { expression, identifier, line } => {
            "Expression Statement: "@ + identifier + " = ... on line "@ + dec_str(line as nat)
                + "\n"@ + describe(*expression)
        },
        AstV::BinaryOp { operator, left, right, line } => {
            "Binary Operation: "@ + operator + " on line "@ + dec_str(line as nat) + "\n"@
                + "  Left:\n"@ + describe(*left) + "  Right:\n"@ + describe(*right)
        },
        AstV::Identifier(name, line) => "Identifier: "@ + name + " on line "@ + dec_str(
            line as nat,
        ) + "\n"@,
        AstV::Number(text, line) => "Number: "@ + text + " on line "@ + dec_str(line as nat)
            + "\n"@,
        AstV::StringLiteral(text, line) => "String Literal: \""@ + text + "\" on line "@ + dec_str(
            line as nat,
        ) + "\n"@,
        AstV::IfStatement { condition, then_block, else_if_blocks, else_block, line } => {
            "If Statement on line "@ + dec_str(line as nat) + "\n"@ + "  Condition:\n"@ + describe(
                *condition,
            ) + "  Then:\n"@ + describe_all(then_block) + describe_pairs(else_if_blocks) + (
            match else_block {
                Some(e) => "  Else:\n"@ + describe_all(e),
                None => Seq::empty(),
            })
        },
    }
}

/// The descriptions of a node sequence, in order.
pub open spec fn describe_all(ss: Seq<AstV>) -> Seq<char>
    decreases ss,
{
    if ss.len() == 0 {
        Seq::empty()
    } else {
        describe(ss.first()) + describe_all(ss.drop_first())
    }
}

/// The descriptions of the else-if entries, each headed by an `Elif` line.
pub open spec fn describe_pairs(ps: Seq<(AstV, Seq<AstV>)>) -> Seq<char>
    decreases ps,
{
    if ps.len() == 0 {
        Seq::empty()
    } else {
        "  Elif:\n"@ + describe(ps.first().0) + describe_all(ps.first().1) + describe_pairs(
            ps.drop_first(),
        )
    }
}

pub proof fn lemma_describe_all_push(ss: Seq<AstV>, x: AstV)
    ensures
        describe_all(ss.push(x)) == describe_all(ss) + describe(x),
    decreases ss,
{
    reveal_with_fuel(describe_all, 2);
    if ss.len() == 0 {
        assert(ss.push(x).first() == x);
        assert(ss.push(x).drop_first() =~= Seq::<AstV>::empty());
        assert(describe_all(ss.push(x)) =~= describe_all(ss) + describe(x));
    } else {
        assert(ss.push(x).drop_first() =~= ss.drop_first().push(x));
        lemma_describe_all_push(ss.drop_first(), x);
        assert(describe_all(ss.push(x)) =~= describe_all(ss) + describe(x));
    }
}

pub proof fn lemma_describe_pairs_push(ps: Seq<(AstV, Seq<AstV>)>, x: (AstV, Seq<AstV>))
    ensures
        describe_pairs(ps.push(x)) == describe_pairs(ps) + ("  Elif:\n"@ + describe(x.0)
            + describe_all(x.1)),
    decreases ps,
{
    reveal_with_fuel(describe_pairs, 2);
    if ps.len() == 0 {
        assert(ps.push(x).first() == x);
        assert(ps.push(x).drop_first() =~= Seq::<(AstV, Seq<AstV>)>::empty());
        assert(describe_pairs(ps.push(x)) =~= describe_pairs(ps) + ("  Elif:\n"@ + describe(x.0)
            + describe_all(x.1)));
    } else {
        assert(ps.push(x).drop_first() =~= ps.drop_first().push(x));
        lemma_describe_pairs_push(ps.drop_first(), x);
        assert(describe_pairs(ps.push(x)) =~= describe_pairs(ps) + ("  Elif:\n"@ + describe(x.0)
            + describe_all(x.1)));
    }
}

} // verus!

verus! {

/// The C-like rendering of a tree. Conditionals render as nothing: that part
/// of the pass is not implemented.
pub open spec fn c_of(a: AstV) -> Seq<char>
    decreases a,
{
    match a {
        AstV::Program(ss) => c_of_all(ss),
        AstV::VariableDeclaration { identifier, initializer, line, var_type } => {
            (match var_type {
                Some(Type::Int) => "int "@ + identifier + ";\n"@,
                Some(Type::Str) => "char "@ + identifier + "[]="@,
                _ => "/* Unknown type */ void* "@ + identifier + ";\n"@,
            }) + (match initializer {
                Some(b) => {
                    if var_type == Some(Type::Int) {
                        identifier + " = "@ + c_of(*b) + ";\n"@
                    } else {
                        c_of(*b) + ";\n"@
                    }
                },
                None => Seq::empty(),
            })
        },
        AstV::DisplayStatement(id, _line) => "printf(\"%d\\n\", "@ + id + ");\n"@,
        AstV::DisplayIntStatement(id, _line) => "printf(\"%d\\n\", "@ + id + ");\n"@,
        AstV::DisplayStringStatement(id, _line) => "printf(\"%s\\n\", "@ + id + ");\n"@,
        AstV::ExpressionStatement { expression, identifier, line } => {
            identifier + " ="@ + c_of(*expression) + ";\n"@
        },
        AstV::BinaryOp { operator, left, right, line } => {
            "("@ + c_of(*left) + " "@ + operator + " "@ + c_of(*right) + ")"@
        },
        AstV::Identifier(name, _line) => name,
        AstV::Number(text, _line) => text,
        AstV::StringLiteral(text, _line) => "\""@ + text + "\""@,
        AstV::IfStatement { .. } => Seq::empty(),
    }
}

/// The C-like renderings of a node sequence, in order.
pub open spec fn c_of_all(ss: Seq<AstV>) -> Seq<char>
    decreases ss,
{
    if ss.len() == 0 {
        Seq::empty()
    } else {
        c_of(ss.first()) + c_of_all(ss.drop_first())
    }
}

pub proof fn lemma_c_of_all_push(ss: Seq<AstV>, x: AstV)
    ensures
        c_of_all(ss.push(x)) == c_of_all(ss) + c_of(x),
    decreases ss,
{
    reveal_with_fuel(c_of_all, 2);
    if ss.len() == 0 {
        assert(ss.push(x).first() == x);
        assert(ss.push(x).drop_first() =~= Seq::<AstV>::empty());
        assert(c_of_all(ss.push(x)) =~= c_of_all(ss) + c_of(x));
    } else {
        assert(ss.push(x).drop_first() =~= ss.drop_first().push(x));
        lemma_c_of_all_push(ss.drop_first(), x);
        assert(c_of_all(ss.push(x)) =~= c_of_all(ss) + c_of(x));
    }
}

/// The decimal rendering of a count or line number.
fn dec_string(n: usize) -> (s: String)
    ensures
        s@ == dec_str(n as nat),
    decreases n,
{
    if n < 10 {
        let c = (48u8 + (n as u8)) as char;
        let mut v: Vec<char> = Vec::new();
        v.push(c);
        proof {
            assert(v@ =~= seq![digit_char(n as nat)]);
        }
        crate::token::chars_to_string(&v)
    } else {
        let mut s = dec_string(n / 10);
        let c = (48u8 + ((n % 10) as u8)) as char;
        let mut v: Vec<char> = Vec::new();
        v.push(c);
        let tail = crate::token::chars_to_string(&v);
        s.append(tail.as_str());
        proof {
            assert(s@ =~= dec_str((n / 10) as nat) + seq![digit_char((n % 10) as nat)]);
        }
        s
    }
}

/// The textual description of a tree, one line per node.
#[verifier::loop_isolation(false)]
fn describe_exec(node: &ASTNode) -> (r: String)
    ensures
        r@ == describe(node@),
    decreases *node,
{
    match node {
        ASTNode::Program(ss) => {
            let mut s = String::from_str("Program with ");
            proof {
                lemma_ast_views_len(ss@);
            }
            let count = dec_string(ss.len());
            s.append(count.as_str());
            s.append(" statements\n");
            let ghost head = s@;
            proof {
                assert(ss@.take(0) =~= Seq::<ASTNode>::empty());
                assert(s@ =~= head + describe_all(ast_views(ss@.take(0))));
            }
            let mut k: usize = 0;
            while k < ss.len()
                invariant
                    k <= ss@.len(),
                    s@ == head + describe_all(ast_views(ss@.take(k as int))),
                decreases ss@.len() - k,
            {
                proof {
                    assert(decreases_to!(*node => *ss));
                    assert(decreases_to!(*ss => ss@));
                    assert(decreases_to!(ss@ => ss@[k as int]));
                }
                let sub = describe_exec(&ss[k]);
                s.append(sub.as_str());
                proof {
                    lemma_ast_views_push(ss@.take(k as int), ss@[k as int]);
                    assert(ss@.take(k as int).push(ss@[k as int]) =~= ss@.take(k + 1));
                    lemma_describe_all_push(ast_views(ss@.take(k as int)), ast_view(ss@[k as int]));
                }
                k += 1;
            }
            proof {
                assert(ss@.take(ss@.len() as int) =~= ss@);
                assert(s@ =~= describe(node@));
            }
            s
        },
        ASTNode::VariableDeclaration { identifier, initializer, line, var_type } => {
            let mut s = String::from_str("Variable Declaration: ");
            s.append(identifier.as_str());
            s.append(" on line ");
            let ln = dec_string(*line as usize);
            s.append(ln.as_str());
            s.append(" of type ");
            match var_type {
                Some(Type::Int) => s.append("Int"),
                Some(Type::Str) => s.append("Str"),
                _ => s.append("Unknown"),
            }
            s.append("\n");
            match initializer {
                Some(b) => {
                    s.append("  Initialized with:\n");
                    let sub = describe_exec(&**b);
                    s.append(sub.as_str());
                },
                None => {},
            }
            proof {
                assert(s@ =~= describe(node@));
            }
            s
        },
        ASTNode::DisplayStatement(id, line) => {
            let mut s = String::from_str("Display Statement: ");
            s.append(id.as_str());
            s.append(" on line ");
            let ln = dec_string(*line as usize);
            s.append(ln.as_str());
            s.append("\n");
            proof {
                assert(s@ =~= describe(node@));
            }
            s
        },
        ASTNode::DisplayIntStatement(id, line) => {
            let mut s = String::from_str("Display int Statement: ");
            s.append(id.as_str());
            s.append(" on line ");
            let ln = dec_string(*line as usize);
            s.append(ln.as_str());
            s.append("\n");
            proof {
                assert(s@ =~= describe(node@));
            }
            s
        },
        ASTNode::DisplayStringStatement(id, line) => {
            let mut s = String::from_str("Display string Statement: ");
            s.append(id.as_str());
            s.append(" on line ");
            let ln = dec_string(*line as usize);
            s.append(ln.as_str());
            s.append("\n");
            proof {
                assert(s@ =~= describe(node@));
            }
            s
        },
        ASTNode::ExpressionStatement { expression, identifier, line } => {
            let mut s = String::from_str("Expression Statement: ");
            s.append(identifier.as_str());
            s.append(" = ... on line ");
            let ln = dec_string(*line as usize);
            s.append(ln.as_str());
            s.append("\n");
            let sub = describe_exec(&**expression);
            s.append(sub.as_str());
            proof {
                assert(s@ =~= describe(node@));
            }
            s
        },
        ASTNode::BinaryOp { operator, left, right, line } => {
            let mut s = String::from_str("Binary Operation: ");
            s.append(operator.as_str());
            s.append(" on line ");
            let ln = dec_string(*line as usize);
            s.append(ln.as_str());
            s.append("\n");
            s.append("  Left:\n");
            let subl = describe_exec(&**left);
            s.append(subl.as_str());
            s.append("  Right:\n");
            let subr = describe_exec(&**right);
            s.append(subr.as_str());
            proof {
                assert(s@ =~= describe(node@));
            }
            s
        },
        ASTNode::Identifier(name, line) => {
            let mut s = String::from_str("Identifier: ");
            s.append(name.as_str());
            s.append(" on line ");
            let ln = dec_string(*line as usize);
            s.append(ln.as_str());
            s.append("\n");
            proof {
                assert(s@ =~= describe(node@));
            }
            s
        },
        ASTNode::Number(text, line) => {
            let mut s = String::from_str("Number: ");
            s.append(text.as_str());
            s.append(" on line ");
            let ln = dec_string(*line as usize);
            s.append(ln.as_str());
            s.append("\n");
            proof {
                assert(s@ =~= describe(node@));
            }
            s
        },
        ASTNode::StringLiteral(text, line) => {
            let mut s = String::from_str("String Literal: \"");
            s.append(text.as_str());
            s.append("\" on line ");
            let ln = dec_string(*line as usize);
            s.append(ln.as_str());
            s.append("\n");
            proof {
                assert(s@ =~= describe(node@));
            }
            s
        },
        ASTNode::IfStatement { condition, then_block, else_if_blocks, else_block, line } => {
            let mut s = String::from_str("If Statement on line ");
            let ln = dec_string(*line as usize);
            s.append(ln.as_str());
            s.append("\n");
            s.append("  Condition:\n");
            let subc = describe_exec(&**condition);
            s.append(subc.as_str());
            s.append("  Then:\n");
            proof {
                assert(decreases_to!(*node => *then_block));
            }
            let subt = describe_all_exec(then_block);
            s.append(subt.as_str());
            let ghost head = s@;
            proof {
                assert(else_if_blocks@.take(0) =~= Seq::<(Box<ASTNode>, Vec<ASTNode>)>::empty());
                assert(s@ =~= head + describe_pairs(pair_views(else_if_blocks@.take(0))));
            }
            let mut k: usize = 0;
            while k < else_if_blocks.len()
                invariant
                    k <= else_if_blocks@.len(),
                    s@ == head + describe_pairs(pair_views(else_if_blocks@.take(k as int))),
                decreases else_if_blocks@.len() - k,
            {
                let pair = &else_if_blocks[k];
                proof {
                    assert(else_if_blocks@[k as int] == *pair);
                    assert(decreases_to!(*node => *else_if_blocks));
                    assert(decreases_to!(*else_if_blocks => else_if_blocks@));
                    assert(decreases_to!(else_if_blocks@ => else_if_blocks@[k as int]));
                }
                s.append("  Elif:\n");
                let subp = describe_exec(&*pair.0);
                s.append(subp.as_str());
                let subb = describe_all_exec(&pair.1);
                s.append(subb.as_str());
                proof {
                    lemma_pair_views_push(
                        else_if_blocks@.take(k as int),
                        else_if_blocks@[k as int],
                    );
                    assert(else_if_blocks@.take(k as int).push(else_if_blocks@[k as int])
                        =~= else_if_blocks@.take(k + 1));
                    lemma_describe_pairs_push(
                        pair_views(else_if_blocks@.take(k as int)),
                        (ast_view(*pair.0), ast_views(pair.1@)),
                    );
                    assert(s@ =~= head + describe_pairs(pair_views(else_if_blocks@.take(k + 1))));
                }
                k += 1;
            }
            proof {
                assert(else_if_blocks@.take(else_if_blocks@.len() as int) =~= else_if_blocks@);
            }
            match else_block {
                Some(v) => {
                    s.append("  Else:\n");
                    proof {
                        assert(decreases_to!(*node => *else_block));
                    }
                    let sube = describe_all_exec(v);
                    s.append(sube.as_str());
                },
                None => {},
            }
            proof {
                assert(s@ =~= describe(node@));
            }
            s
        },
    }
}

/// The descriptions of every node in `ss`, in order, as one text.
#[verifier::loop_isolation(false)]
fn describe_all_exec(ss: &Vec<ASTNode>) -> (r: String)
    ensures
        r@ == describe_all(ast_views(ss@)),
    decreases *ss,
{
    let mut s = String::new();
    proof {
        assert(ss@.take(0) =~= Seq::<ASTNode>::empty());
        assert(s@ =~= describe_all(ast_views(ss@.take(0))));
    }
    let mut k: usize = 0;
    while k < ss.len()
        invariant
            k <= ss@.len(),
            s@ == describe_all(ast_views(ss@.take(k as int))),
        decreases ss@.len() - k,
    {
        proof {
            assert(decreases_to!(*ss => ss@));
            assert(decreases_to!(ss@ => ss@[k as int]));
        }
        let sub = describe_exec(&ss[k]);
        s.append(sub.as_str());
        proof {
            lemma_ast_views_push(ss@.take(k as int), ss@[k as int]);
            assert(ss@.take(k as int).push(ss@[k as int]) =~= ss@.take(k + 1));
            lemma_describe_all_push(ast_views(ss@.take(k as int)), ast_view(ss@[k as int]));
        }
        k += 1;
    }
    proof {
        assert(ss@.take(ss@.len() as int) =~= ss@);
    }
    s
}

/// The code generator: it gathers C-like text for a completed tree.
pub struct CodeGenerator {
    pub c_code: String,
}

impl CodeGenerator {
    /// A fresh generator holding no text.
    pub fn new() -> (g: Self)
        ensures
            g.c_code@ == Seq::<char>::empty(),
    {
        CodeGenerator { c_code: String::new() }
    }

    /// The human-readable description of a completed tree, one line per node
    /// in pre-order. The caller decides where the text goes.
    pub fn generate(&self, ast: &ASTNode) -> (r: String)
        ensures
            r@ == describe(ast@),
    {
        describe_exec(ast)
    }

    /// Appends the C-like rendering of `node` to the gathered text.
    #[verifier::loop_isolation(false)]
    pub fn gen_ir_ast(&mut self, node: &ASTNode)
        ensures
            final(self).c_code@ == old(self).c_code@ + c_of(node@),
        decreases *node,
    {
        match node {
            ASTNode::Program(ss) => {
                let ghost head = self.c_code@;
                proof {
                    assert(ss@.take(0) =~= Seq::<ASTNode>::empty());
                    assert(self.c_code@ =~= head + c_of_all(ast_views(ss@.take(0))));
                }
                let mut k: usize = 0;
                while k < ss.len()
                    invariant
                        k <= ss@.len(),
                        self.c_code@ == head + c_of_all(ast_views(ss@.take(k as int))),
                    decreases ss@.len() - k,
                {
                    proof {
                        assert(decreases_to!(*node => *ss));
                        assert(decreases_to!(*ss => ss@));
                        assert(decreases_to!(ss@ => ss@[k as int]));
                    }
                    self.gen_ir_ast(&ss[k]);
                    proof {
                        lemma_ast_views_push(ss@.take(k as int), ss@[k as int]);
                        assert(ss@.take(k as int).push(ss@[k as int]) =~= ss@.take(k + 1));
                        lemma_c_of_all_push(ast_views(ss@.take(k as int)), ast_view(ss@[k as int]));
                    }
                    k += 1;
                }
                proof {
                    assert(ss@.take(ss@.len() as int) =~= ss@);
                    assert(self.c_code@ =~= old(self).c_code@ + c_of(node@));
                }
            },
            ASTNode::VariableDeclaration { identifier, initializer, line, var_type } => {
                match var_type {
                    Some(Type::Int) => {
                        self.c_code.append("int ");
                        self.c_code.append(identifier.as_str());
                        self.c_code.append(";\n");
                    },
                    Some(Type::Str) => {
                        self.c_code.append("char ");
                        self.c_code.append(identifier.as_str());
                        self.c_code.append("[]=");
                    },
                    _ => {
                        self.c_code.append("/* Unknown type */ void* ");
                        self.c_code.append(identifier.as_str());
                        self.c_code.append(";\n");
                    },
                }
                match initializer {
                    Some(b) => {
                        match var_type {
                            Some(Type::Int) => {
                                self.c_code.append(identifier.as_str());
                                self.c_code.append(" = ");
                                self.gen_ir_ast(&**b);
                                self.c_code.append(";\n");
                            },
                            _ => {
                                self.gen_ir_ast(&**b);
                                self.c_code.append(";\n");
                            },
                        }
                    },
                    None => {},
                }
                proof {
                    assert(self.c_code@ =~= old(self).c_code@ + c_of(node@));
                }
            },
            ASTNode::DisplayStatement(id, _line) => {
                self.c_code.append("printf(\"%d\\n\", ");
                self.c_code.append(id.as_str());
                self.c_code.append(");\n");
                proof {
                    assert(self.c_code@ =~= old(self).c_code@ + c_of(node@));
                }
            },
            ASTNode::DisplayIntStatement(id, _line) => {
                self.c_code.append("printf(\"%d\\n\", ");
                self.c_code.append(id.as_str());
                self.c_code.append(");\n");
                proof {
                    assert(self.c_code@ =~= old(self).c_code@ + c_of(node@));
                }
            },
            ASTNode::DisplayStringStatement(id, _line) => {
                self.c_code.append("printf(\"%s\\n\", ");
                self.c_code.append(id.as_str());
                self.c_code.append(");\n");
                proof {
                    assert(self.c_code@ =~= old(self).c_code@ + c_of(node@));
                }
            },
            ASTNode::ExpressionStatement { expression, identifier, line } => {
                self.c_code.append(identifier.as_str());
                self.c_code.append(" =");
                self.gen_ir_ast(&**expression);
                self.c_code.append(";\n");
                proof {
                    assert(self.c_code@ =~= old(self).c_code@ + c_of(node@));
                }
            },
            ASTNode::BinaryOp { operator, left, right, line } => {
                self.c_code.append("(");
                self.gen_ir_ast(&**left);
                self.c_code.append(" ");
                self.c_code.append(operator.as_str());
                self.c_code.append(" ");
                self.gen_ir_ast(&**right);
                self.c_code.append(")");
                proof {
                    assert(self.c_code@ =~= old(self).c_code@ + c_of(node@));
                }
            },
            ASTNode::Identifier(name, _line) => {
                self.c_code.append(name.as_str());
                proof {
                    assert(self.c_code@ =~= old(self).c_code@ + c_of(node@));
                }
            },
            ASTNode::Number(text, _line) => {
                self.c_code.append(text.as_str());
                proof {
                    assert(self.c_code@ =~= old(self).c_code@ + c_of(node@));
                }
            },
            ASTNode::StringLiteral(text, _line) => {
                self.c_code.append("\"");
                self.c_code.append(text.as_str());
                self.c_code.append("\"");
                proof {
                    assert(self.c_code@ =~= old(self).c_code@ + c_of(node@));
                }
            },
            ASTNode::IfStatement { .. } => {
                proof {
                    assert(self.c_code@ =~= old(self).c_code@ + c_of(node@));
                }
            },
        }
    }

    /// Replaces the gathered text with a whole C-like program for the tree —
    /// a `main` wrapping the statements' rendering — and returns a copy.
    pub fn generate_ir(&mut self, ast: &ASTNode) -> (r: String)
        ensures
            r@ == "#include <stdio.h>\n\nint main() {\n"@ + c_of(ast@) + "    return 0;\n"@
                + "}\n"@,
            final(self).c_code@ == r@,
    {
        self.c_code = String::new();
        self.c_code.append("#include <stdio.h>\n\nint main() {\n");
        self.gen_ir_ast(ast);
        self.c_code.append("    return 0;\n");
        self.c_code.append("}\n");
        let r = self.c_code.clone();
        proof {
            assert(r@ =~= "#include <stdio.h>\n\nint main() {\n"@ + c_of(ast@)
                + "    return 0;\n"@ + "}\n"@);
        }
        r
    }
}

} // verus!
