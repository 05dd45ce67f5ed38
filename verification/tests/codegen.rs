use scolang::ast::{ASTNode, Parser};
use scolang::codegen::CodeGenerator;
use scolang::token::Lexer;

fn parse_ok(source: &str) -> ASTNode {
    let mut lexer = Lexer::new();
    lexer.tokenize(source);
    let mut parser = Parser::new(lexer.return_tok());
    parser.parse().unwrap()
}

#[test]
fn new_generator_holds_no_text() {
    let g = CodeGenerator::new();
    assert_eq!(g.c_code, "");
}

#[test]
fn generate_ir_renders_a_whole_program() {
    let ast = parse_ok("VARint x = 1; DISPLAY x; END");
    let mut g = CodeGenerator::new();
    let code = g.generate_ir(&ast);
    assert_eq!(
        code,
        "#include <stdio.h>\n\nint main() {\nint x;\nx = 1;\nprintf(\"%d\\n\", x);\n    return 0;\n}\n"
    );
    assert_eq!(g.c_code, code);
}

#[test]
fn generate_ir_string_declaration() {
    let ast = parse_ok("VARstr s = \"hi\"; DISPLAYstring s; END");
    let mut g = CodeGenerator::new();
    let code = g.generate_ir(&ast);
    assert_eq!(
        code,
        "#include <stdio.h>\n\nint main() {\nchar s[]=\"hi\";\nprintf(\"%s\\n\", s);\n    return 0;\n}\n"
    );
}

#[test]
fn generate_ir_assignment_and_operators() {
    let ast = parse_ok("x = 1 + 2 * 3; END");
    let mut g = CodeGenerator::new();
    let code = g.generate_ir(&ast);
    assert_eq!(
        code,
        "#include <stdio.h>\n\nint main() {\nx =((1 + 2) * 3);\n    return 0;\n}\n"
    );
}

#[test]
fn generate_ir_skips_conditionals() {
    let ast = parse_ok("IF () a THEN x = 1; END-IF DISPLAYnumeric a; END");
    let mut g = CodeGenerator::new();
    let code = g.generate_ir(&ast);
    assert_eq!(
        code,
        "#include <stdio.h>\n\nint main() {\nprintf(\"%d\\n\", a);\n    return 0;\n}\n"
    );
}

#[test]
fn generate_ir_replaces_earlier_text() {
    let first = parse_ok("x = 1; END");
    let second = parse_ok("y = 2; END");
    let mut g = CodeGenerator::new();
    g.generate_ir(&first);
    let code = g.generate_ir(&second);
    assert_eq!(code, "#include <stdio.h>\n\nint main() {\ny =2;\n    return 0;\n}\n");
}

#[test]
fn gen_ir_ast_appends_to_gathered_text() {
    let mut g = CodeGenerator::new();
    g.gen_ir_ast(&ASTNode::Identifier("a".to_string(), 1));
    g.gen_ir_ast(&ASTNode::Number("7".to_string(), 1));
    assert_eq!(g.c_code, "a7");
}

#[test]
fn generate_describes_a_declaration() {
    let ast = parse_ok("VARint x = 1; END");
    let g = CodeGenerator::new();
    let text = g.generate(&ast);
    assert_eq!(
        text,
        "Program with 1 statements\nVariable Declaration: x on line 1 of type Int\n  Initialized with:\nNumber: 1 on line 1\n"
    );
}

#[test]
fn generate_describes_operations_and_displays() {
    let ast = parse_ok("DISPLAY a; x = 1 + 2; END");
    let g = CodeGenerator::new();
    let text = g.generate(&ast);
    assert_eq!(
        text,
        "Program with 2 statements\n\
         Display Statement: a on line 1\n\
         Expression Statement: x = ... on line 2\n\
         Binary Operation: + on line 2\n\
         \x20 Left:\n\
         Number: 1 on line 2\n\
         \x20 Right:\n\
         Number: 2 on line 2\n"
    );
}

#[test]
fn generate_counts_statements_in_decimal() {
    let mut source = String::new();
    for _ in 0..12 {
        source.push_str("x = 1;");
    }
    source.push_str("END");
    let ast = parse_ok(&source);
    let g = CodeGenerator::new();
    let text = g.generate(&ast);
    assert!(text.starts_with("Program with 12 statements\n"));
}
