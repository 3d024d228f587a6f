use solver::analysis::{extract_calculated_vars, extract_constraints, extract_domains, extract_free_variables};
use solver::ast::{AstNode, BinOp};
use solver::float_lit::is_float_literal;
use solver::parser::{parse_dsl, ExprError, ExprParser};
use solver::statement::{extract_label, parse_line, parse_range, parse_script, split_relational, RelOp, Statement};
use solver::strategy::Strategy;
use solver::ValidationIssue;
use solver::token::{tokenize, OpTok, TokenKind};

fn chars(s: &str) -> Vec<char> {
    s.chars().collect()
}

fn num(s: &str) -> AstNode {
    AstNode::Number(s.to_string())
}

fn var(s: &str) -> AstNode {
    AstNode::Variable(s.to_string())
}

fn bin(op: BinOp, l: AstNode, r: AstNode) -> AstNode {
    AstNode::Binary { op, left: Box::new(l), right: Box::new(r) }
}

fn expr(s: &str) -> AstNode {
    parse_dsl(&chars(s)).expect("parses")
}

#[test]
fn tokenize_numbers_ids_and_operators() {
    let t = tokenize("NF >= 4.0 ** x_1, (a)");
    assert_eq!(
        t,
        vec![
            TokenKind::Id("NF".to_string()),
            TokenKind::Op(OpTok::Ge),
            TokenKind::Number("4.0".to_string()),
            TokenKind::Op(OpTok::Pow),
            TokenKind::Id("x_1".to_string()),
            TokenKind::Comma,
            TokenKind::LParen,
            TokenKind::Id("a".to_string()),
            TokenKind::RParen,
            TokenKind::Eof,
        ]
    );
}

#[test]
fn tokenize_skips_unknown_characters_and_reads_leading_dot() {
    let t = tokenize("$ .5 . ?");
    assert_eq!(t, vec![TokenKind::Number(".5".to_string()), TokenKind::Eof]);
    let t = tokenize("1.2.3");
    assert_eq!(t, vec![TokenKind::Number("1.2.3".to_string()), TokenKind::Eof]);
}

#[test]
fn tokenize_empty_input_is_only_eof() {
    assert_eq!(tokenize(""), vec![TokenKind::Eof]);
    assert_eq!(tokenize("   "), vec![TokenKind::Eof]);
}

#[test]
fn multiplication_binds_tighter_than_addition() {
    assert_eq!(expr("1 + 2 * 3"), bin(BinOp::Add, num("1"), bin(BinOp::Mul, num("2"), num("3"))));
}

#[test]
fn subtraction_groups_to_the_left() {
    assert_eq!(expr("a - b - c"), bin(BinOp::Sub, bin(BinOp::Sub, var("a"), var("b")), var("c")));
}

#[test]
fn power_groups_to_the_right() {
    assert_eq!(expr("2 ** 3 ** 2"), bin(BinOp::Pow, num("2"), bin(BinOp::Pow, num("3"), num("2"))));
}

#[test]
fn unary_minus_is_zero_minus_operand() {
    assert_eq!(expr("-x"), bin(BinOp::Sub, num("0"), var("x")));
    assert_eq!(expr("-x ** 2"), bin(BinOp::Pow, bin(BinOp::Sub, num("0"), var("x")), num("2")));
}

#[test]
fn parentheses_and_calls() {
    assert_eq!(
        expr("(x - 1) ** 2"),
        bin(BinOp::Pow, AstNode::Parens(Box::new(bin(BinOp::Sub, var("x"), num("1")))), num("2"))
    );
    assert_eq!(
        expr("min(a, b + 1)"),
        AstNode::Function { name: "min".to_string(), args: vec![var("a"), bin(BinOp::Add, var("b"), num("1"))] }
    );
    assert_eq!(expr("prom()"), AstNode::Function { name: "prom".to_string(), args: vec![] });
}

#[test]
fn parse_errors() {
    assert_eq!(parse_dsl(&chars("(a + b")), Err(ExprError::MissingParen(TokenKind::Eof)));
    assert_eq!(parse_dsl(&chars("f(a b)")), Err(ExprError::MissingParen(TokenKind::Id("b".to_string()))));
    assert_eq!(parse_dsl(&chars("* 2")), Err(ExprError::Unexpected(TokenKind::Op(OpTok::Star))));
    assert_eq!(parse_dsl(&chars("")), Err(ExprError::Unexpected(TokenKind::Eof)));
}

#[test]
fn trailing_tokens_are_ignored() {
    assert_eq!(expr("a b"), var("a"));
}

#[test]
fn expr_parser_moves_past_the_expression() {
    let mut p = ExprParser::new(tokenize("a + b , c"));
    assert_eq!(p.parse_expr(), Ok(bin(BinOp::Add, var("a"), var("b"))));
    assert_eq!(p.pos, 3);
    let mut q = ExprParser::new(tokenize(")"));
    assert!(q.parse_expr().is_err());
    assert_eq!(q.pos, 0);
}

#[test]
fn expr_parser_stops_at_the_offending_token() {
    let mut p = ExprParser::new(tokenize("(a"));
    assert_eq!(p.parse_expr(), Err(ExprError::MissingParen(TokenKind::Eof)));
    assert_eq!(p.pos, 2);
    let mut q = ExprParser::new(tokenize("a + * b"));
    assert_eq!(q.parse_expr(), Err(ExprError::Unexpected(TokenKind::Op(OpTok::Star))));
    assert_eq!(q.pos, 2);
    let mut r = ExprParser::new(tokenize("- )"));
    assert_eq!(r.parse_expr(), Err(ExprError::Unexpected(TokenKind::RParen)));
    assert_eq!(r.pos, 1);
}

#[test]
fn labels() {
    let (l, rest) = extract_label(&chars("critica: NF >= 4.0"));
    assert_eq!(l, Some("critica".to_string()));
    assert_eq!(rest, chars("NF >= 4.0"));
    let (l, rest) = extract_label(&chars("a+b: x"));
    assert_eq!(l, None);
    assert_eq!(rest, chars("a+b: x"));
    let (l, _) = extract_label(&chars("a::b"));
    assert_eq!(l, None);
    let (l, _) = extract_label(&chars(": x > 1"));
    assert_eq!(l, None);
}

#[test]
fn relational_split_tries_two_character_operators_first() {
    assert_eq!(split_relational(&chars("a >= b")), Some((chars("a"), RelOp::Gte, chars("b"))));
    assert_eq!(split_relational(&chars("a > b")), Some((chars("a"), RelOp::Gt, chars("b"))));
    assert_eq!(split_relational(&chars("a + b == 15")), Some((chars("a + b"), RelOp::Eq, chars("15"))));
    assert_eq!(split_relational(&chars("a = b")), None);
    assert_eq!(split_relational(&chars("a => b")), None);
    assert_eq!(split_relational(&chars(">= b")), None);
}

#[test]
fn ranges() {
    assert_eq!(parse_range(&chars("[1.0, 7.0]")), Some(("1.0".to_string(), "7.0".to_string())));
    assert_eq!(parse_range(&chars(" [ -1e3 , +INF ] ")), Some(("-1e3".to_string(), "+INF".to_string())));
    assert_eq!(parse_range(&chars("[a, 2]")), None);
    assert_eq!(parse_range(&chars("[1 2]")), None);
    assert_eq!(parse_range(&chars("1, 2")), None);
    assert_eq!(parse_range(&chars("[1, 2, 3]")), None);
}

#[test]
fn float_literals_follow_the_from_str_grammar() {
    for ok in ["0", "1.", ".5", "1.5e10", "2E-3", "-7", "+inf", "Infinity", "NaN", "1e+5"] {
        assert!(is_float_literal(&chars(ok)), "{ok}");
        assert!(ok.parse::<f64>().is_ok(), "{ok}");
    }
    for bad in ["", ".", "e5", "1e", "1.2.3", "--1", "1 ", "inff", "0x10", "1e5.0"] {
        assert!(!is_float_literal(&chars(bad)), "{bad}");
        assert!(bad.parse::<f64>().is_err(), "{bad}");
    }
}

#[test]
fn domain_declarations_in_both_forms() {
    let a = parse_line(&chars("dominio NP, Ex [1.0, 7.0]")).unwrap();
    let b = parse_line(&chars("NP, Ex in [1.0, 7.0]")).unwrap();
    match (&a, &b) {
        (
            Statement::Domain { variables: va, min: mina, max: maxa, .. },
            Statement::Domain { variables: vb, min: minb, max: maxb, .. },
        ) => {
            assert_eq!(va, &vec!["NP".to_string(), "Ex".to_string()]);
            assert_eq!(va, vb);
            assert_eq!((mina, maxa), (minb, maxb));
            assert_eq!(mina, "1.0");
            assert_eq!(maxa, "7.0");
        }
        _ => panic!("expected domains"),
    }
    let c = parse_line(&chars("DOMINIO X [0, 100]")).unwrap();
    assert!(matches!(c, Statement::Domain { ref variables, .. } if variables == &vec!["X".to_string()]));
}

#[test]
fn a_line_starting_with_the_keyword_is_only_ever_a_domain() {
    assert_eq!(parse_line(&chars("dominioX = 5")), None);
}

#[test]
fn assignments_and_constraints() {
    let st = parse_line(&chars("NF = NP * 0.6 + Ex * 0.4")).unwrap();
    assert_eq!(
        st,
        Statement::Assignment {
            lhs: "NF".to_string(),
            expr: bin(BinOp::Add, bin(BinOp::Mul, var("NP"), num("0.6")), bin(BinOp::Mul, var("Ex"), num("0.4"))),
            raw: "NF = NP * 0.6 + Ex * 0.4".to_string(),
            label: None,
        }
    );
    let st = parse_line(&chars("suave: NP <= 7.0")).unwrap();
    assert_eq!(
        st,
        Statement::Constraint {
            left: var("NP"),
            op: RelOp::Lte,
            right: num("7.0"),
            raw: "suave: NP <= 7.0".to_string(),
            label: Some("suave".to_string()),
        }
    );
    assert!(matches!(parse_line(&chars("a + b == 15")), Some(Statement::Constraint { op: RelOp::Eq, .. })));
    assert_eq!(parse_line(&chars("1x = 3")), None);
    assert_eq!(parse_line(&chars("x = (")), None);
    assert_eq!(parse_line(&chars("hello")), None);
}

#[test]
fn script_skips_comments_blank_and_unknown_lines() {
    let script = "// ramo\n\nNF = NP * 0.6 + Ex * 0.4\r\ncritica: NF >= 4.0\n  garbage line  \nNP in [1.0, 7.0]\n";
    let stmts = parse_script(script);
    assert_eq!(stmts.len(), 3);
    assert!(matches!(&stmts[0], Statement::Assignment { lhs, .. } if lhs == "NF"));
    assert!(matches!(&stmts[1], Statement::Constraint { label: Some(l), raw, .. } if l == "critica" && raw == "critica: NF >= 4.0"));
    assert!(matches!(&stmts[2], Statement::Domain { .. }));
}

#[test]
fn scripts_joined_by_a_line_break_concatenate() {
    let a = "x = 1\n// c\nx > 0";
    let b = "y in [0, 1]\ny < x";
    let joined = format!("{a}\n{b}");
    let whole = parse_script(&joined);
    let mut parts = parse_script(a);
    parts.extend(parse_script(b));
    assert_eq!(whole, parts);
    assert_eq!(whole.len(), 4);
}

#[test]
fn calculated_and_free_variables() {
    let stmts = parse_script("NF = NP * 0.6 + Ex * 0.4\nNF >= 4.0\nz = NF + w\nNF = 2");
    let mut calc = extract_calculated_vars(&stmts);
    calc.sort();
    assert_eq!(calc, vec!["NF".to_string(), "z".to_string()]);
    let free = extract_free_variables(&stmts);
    assert_eq!(free, vec!["Ex".to_string(), "NP".to_string(), "w".to_string()]);
    for f in &free {
        assert!(!calc.contains(f));
    }
}

#[test]
fn free_variables_of_all_assigned_script_are_empty() {
    let stmts = parse_script("x = 5\nx > 0");
    assert!(extract_free_variables(&stmts).is_empty());
    assert_eq!(extract_calculated_vars(&stmts), vec!["x".to_string()]);
}

#[test]
fn later_domain_declarations_win() {
    let stmts = parse_script("a, b in [0, 1]\ndominio b [2, 3]\na > b");
    let mut d = extract_domains(&stmts);
    d.sort();
    assert_eq!(
        d,
        vec![
            ("a".to_string(), ("0".to_string(), "1".to_string())),
            ("b".to_string(), ("2".to_string(), "3".to_string())),
        ]
    );
}

#[test]
fn constraints_in_order() {
    let stmts = parse_script("x = 1\nx > 0\ny in [0, 1]\ny < 3");
    let c = extract_constraints(&stmts);
    assert_eq!(c.len(), 2);
    assert!(matches!(c[0], Statement::Constraint { op: RelOp::Gt, .. }));
    assert!(matches!(c[1], Statement::Constraint { op: RelOp::Lt, .. }));
}

#[test]
fn strategy_names() {
    for s in [Strategy::MinimoEsfuerzo, Strategy::MaximoSeguridad, Strategy::PuntoMedio, Strategy::MinimoVarianza] {
        assert_eq!(Strategy::from_str(s.name()), s);
    }
    assert_eq!(Strategy::from_str("minimo_esfuerzo"), Strategy::MinimoEsfuerzo);
    assert_eq!(Strategy::from_str("otra"), Strategy::PuntoMedio);
    assert_eq!(Strategy::MinimoVarianza.name(), "minimo_varianza");
}

#[test]
fn rel_op_from_str() {
    assert_eq!(RelOp::from_str(">="), Some(RelOp::Gte));
    assert_eq!(RelOp::from_str("<="), Some(RelOp::Lte));
    assert_eq!(RelOp::from_str(">"), Some(RelOp::Gt));
    assert_eq!(RelOp::from_str("<"), Some(RelOp::Lt));
    assert_eq!(RelOp::from_str("=="), Some(RelOp::Eq));
    assert_eq!(RelOp::from_str("="), None);
}

#[test]
fn validation_accepts_a_clean_script() {
    assert_eq!(solver::validate_dsl("x >= 5"), Ok(()));
    assert_eq!(solver::validate_dsl("// c\n\nNF = NP * 0.6 + Ex * 0.4\nNF >= 4.0\nNP in [1.0, 7.0]"), Ok(()));
}

#[test]
fn validation_reports_unknown_lines_and_assigned_domains() {
    let r = solver::validate_dsl("x = 1\nbogus\nx in [0, 2]\n  ???  ");
    assert_eq!(
        r,
        Err(vec![
            ValidationIssue::UnrecognizedLine("bogus".to_string()),
            ValidationIssue::UnrecognizedLine("???".to_string()),
            ValidationIssue::AssignedWithDomain("x".to_string()),
        ])
    );
}

#[test]
fn validation_issue_messages() {
    assert_eq!(
        ValidationIssue::UnrecognizedLine("bogus".to_string()).message(),
        "Línea no reconocida: 'bogus'"
    );
    assert_eq!(
        ValidationIssue::AssignedWithDomain("x".to_string()).message(),
        "La variable 'x' tiene dominio y no puede asignarse"
    );
}

#[test]
fn ascii_classes_match_std() {
    for u in 0u32..0x80 {
        let c = char::from_u32(u).unwrap();
        assert_eq!(solver::text::is_alphabetic(c), c.is_ascii_alphabetic(), "U+{u:04X}");
        assert_eq!(solver::text::is_alphanumeric(c), c.is_ascii_alphanumeric(), "U+{u:04X}");
    }
    assert_eq!(solver::text::to_lowercase("DOMINIO Ab_9"), "dominio ab_9");
    assert!(solver::text::is_alphabetic('ñ'));
}

#[test]
fn whitespace_class_matches_std_on_every_char() {
    for u in 0u32..=0x10FFFF {
        if let Some(c) = char::from_u32(u) {
            assert_eq!(solver::text::is_whitespace(c), c.is_whitespace(), "U+{u:04X}");
        }
    }
}

#[test]
fn declared_variables_are_free_unless_assigned() {
    let stmts = parse_script("NF = NP * 0.6 + Ex * 0.4\nNF >= 4.0\nNP in [1.0, 7.0]\nZ in [0, 1]");
    assert_eq!(
        extract_free_variables(&stmts),
        vec!["Ex".to_string(), "NP".to_string(), "Z".to_string()]
    );
    let stmts = parse_script("x = 1\nx in [0, 2]\ny in [0, 2]");
    assert_eq!(extract_free_variables(&stmts), vec!["y".to_string()]);
}

#[test]
fn joining_after_a_carriage_return_still_concatenates() {
    let a = "x = 1\r";
    let b = "x > 0";
    let joined = format!("{a}\n{b}");
    let whole = parse_script(&joined);
    let mut parts = parse_script(a);
    parts.extend(parse_script(b));
    assert_eq!(whole, parts);
    assert_eq!(whole.len(), 2);
}

#[test]
fn statements_keep_their_trimmed_lines_in_order() {
    let stmts = parse_script("  x = 1  \n\n// c\nnot a statement\n\ty > 2 \n");
    let raws: Vec<&str> = stmts
        .iter()
        .map(|s| match s {
            Statement::Assignment { raw, .. } | Statement::Constraint { raw, .. } | Statement::Domain { raw, .. } => {
                raw.as_str()
            }
        })
        .collect();
    assert_eq!(raws, vec!["x = 1", "y > 2"]);
}

#[test]
fn parse_error_messages() {
    let e = parse_dsl(&chars("(a + b")).unwrap_err();
    assert_eq!(e.message(), "Se esperaba ')', se encontró 'Eof'");
    let e = parse_dsl(&chars("f(a b)")).unwrap_err();
    assert_eq!(e.message(), "Se esperaba ')', se encontró 'Id(\"b\")'");
    let e = parse_dsl(&chars("* 2")).unwrap_err();
    assert_eq!(e.message(), "Token inesperado: Op(\"*\")");
    let e = parse_dsl(&chars(",")).unwrap_err();
    assert_eq!(e.message(), "Token inesperado: Comma");
}

#[test]
fn clones_are_equal() {
    let a = parse_dsl(&chars("f(a, -b ** 2) / (c + 1)")).unwrap();
    assert_eq!(a.clone(), a);
    let st = parse_script("x in [0, 2]\nNF = a * 2\nc: NF >= 4.0");
    assert_eq!(st.clone(), st);
    for s in &st {
        assert_eq!(s.clone(), *s);
    }
}
