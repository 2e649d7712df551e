use formal::ast::AstGen;
use formal::lexer::{Lexer, MatchState, Token};
use formal::parser::{pattern_match_tree, ParseError, Parser};
use formal::sym::{Assoc, SymDB, TableError};

const DEFAULT_TABLE: &str = "# loosest first
∀ 1 1 R
∃ 1 1
-> 1 1 R
∨ 1 1 L
∧ 1 1 L
! 0 1 R
= 1 1 L
≠ 1 1
< 1 1 L
> 1 1
+ 1 1 L
* 1 1 L
/ 1 1
- 0 1 R
^ 1 1 R
' 1 0 L
";

fn default_table() -> SymDB {
    let lines: Vec<String> = DEFAULT_TABLE.lines().map(|l| l.to_string()).collect();
    SymDB::parse_lines(&lines).unwrap()
}

fn render(p: &mut Parser, s: &str) -> String {
    let ast = p.parse(s).unwrap();
    p.symdb().ast_to_string_minimal(&ast)
}

#[test]
fn parser_it_works() {
    let mut pe = Parser::new(default_table());

    let result = pe.parse("");
    assert!(result.is_err());

    let result = pe.parse("a + b + ");
    assert!(result.is_err());

    let ast = pe.parse("a").unwrap();
    let simplified = pe.symdb().ast_to_string_minimal(&ast);
    assert_eq!(simplified, "a");

    let ast = pe.parse("(a)").unwrap();
    let simplified = pe.symdb().ast_to_string_minimal(&ast);
    assert_eq!(simplified, "a");

    let ast = pe.parse("!!(--a = a)").unwrap();
    let simplified = pe.symdb().ast_to_string_minimal(&ast);
    assert_eq!(simplified, "! ! - - a = a");

    let ast = pe.parse("(a^2 + 3) * (4*b) = 4*a^2*b + 12*b").unwrap();
    let pat = pe.parse("(@alpha + 3) * _ = 4*@alpha*b + @beta*b").unwrap();
    let map = pattern_match_tree(ast.subtree_root(), pat.subtree_root()).unwrap();
    let alpha = pe.parse("a^2").unwrap();
    let beta = pe.parse("12").unwrap();
    assert_eq!(map.get("alpha").map(|t| t.subtree_root()), Some(alpha.subtree_root()));
    assert_eq!(map.get("beta").map(|t| t.subtree_root()), Some(beta.subtree_root()));
    assert_eq!(map.len(), 2);
}

#[test]
fn ast_btree_it_works() {
    let syms = default_table();
    let mut lexer = Lexer::new(syms);
    let mut parser = AstGen::new();

    lexer.push_str("");
    lexer.delimit();
    let tokens = lexer.recv_tokens();
    let result = parser.recv_all(tokens);
    assert!(result.is_err());

    parser.clear();
    lexer.push_str("-a + (b * c)");
    lexer.delimit();
    let tokens = lexer.recv_tokens();
    let ast = parser.recv_all(tokens).unwrap();
    assert_eq!(ast.to_string(), "+(-(a) *(b c))");
}

#[test]
fn lexer() {
    let syms = default_table();
    let mut lexer = Lexer::new(syms);
    let s = "(2+13)*x = alpha";
    lexer.push_str(s);
    lexer.delimit();
    let mut tokens = lexer.recv_tokens().into_iter();

    if let Some(Token::PrthL) = tokens.next() {
    } else {
        panic!()
    }
    if let Some(Token::Literal(s)) = tokens.next() {
        assert_eq!(s, "2");
    } else {
        panic!()
    }
    if let Some(Token::Op(s)) = tokens.next() {
        assert_eq!(s.name, "+");
    } else {
        panic!()
    }
    if let Some(Token::Literal(s)) = tokens.next() {
        assert_eq!(s, "13");
    } else {
        panic!()
    }
    if let Some(Token::PrthR) = tokens.next() {
    } else {
        panic!()
    }
    if let Some(Token::Op(s)) = tokens.next() {
        assert_eq!(s.name, "*");
    } else {
        panic!()
    }
    if let Some(Token::Ident(s)) = tokens.next() {
        assert_eq!(s, "x");
    } else {
        panic!()
    }
    if let Some(Token::Op(s)) = tokens.next() {
        assert_eq!(s.name, "=");
    } else {
        panic!()
    }
    if let Some(Token::Ident(s)) = tokens.next() {
        assert_eq!(s, "alpha");
    } else {
        panic!()
    }
}

#[test]
fn sym_db() {
    let sym_db = default_table();
    assert_eq!(sym_db.len(), 16);
    let mul = sym_db.get("*");
    assert_eq!(mul.assoc, Assoc::L);
    assert_eq!(mul.layout.front, 1);
    assert_eq!(mul.layout.back, 1);
    let div = sym_db.get("/");
    assert_eq!(div.assoc, Assoc::L);
    assert_eq!(div.layout.front, 1);
    assert_eq!(div.layout.back, 1);
    assert_eq!(mul.prec, div.prec);
    let add = sym_db.get("+");
    assert!(add.prec < mul.prec);
}

#[test]
fn undeclared_names_are_variables() {
    let db = default_table();
    let x = db.get("x");
    assert!(x.is_nullary());
    assert_eq!(x.prec, i32::MAX);
    assert!(db.is_variable("x"));
    assert!(!db.is_variable("->"));
}

#[test]
fn table_errors() {
    let lines = vec!["+ 1 1".to_string()];
    assert_eq!(SymDB::parse_lines(&lines).err(), Some(TableError::FirstAssoc));
    let lines = vec!["+ 1".to_string()];
    assert_eq!(SymDB::parse_lines(&lines).err(), Some(TableError::Syntax));
    let lines = vec!["+ x 1 L".to_string()];
    assert_eq!(SymDB::parse_lines(&lines).err(), Some(TableError::Number));
    let lines = vec!["+ 1 1 Q".to_string()];
    assert_eq!(SymDB::parse_lines(&lines).err(), Some(TableError::Assoc));
    let lines = vec!["a 1 1 L".to_string(), "b 1 1".to_string(), "c 1 1 R".to_string()];
    let db = SymDB::parse_lines(&lines).unwrap();
    assert_eq!(db.get("a").prec, db.get("b").prec);
    assert!(db.get("b").prec < db.get("c").prec);
    assert!(db.get("c").prec < i32::MAX);
    assert_eq!(db.get("b").assoc, Assoc::L);
    let lines = vec!["# only a comment".to_string(), "".to_string()];
    assert_eq!(SymDB::parse_lines(&lines).unwrap().len(), 0);
}

#[test]
fn precedence_and_associativity() {
    let mut p = Parser::new(default_table());
    let t = p.parse("-a + (b * c)").unwrap();
    assert_eq!(t.to_string(), "+(-(a) *(b c))");
    let t = p.parse("a * b * c").unwrap();
    assert_eq!(t.to_string(), "*(*(a b) c)");
    let t = p.parse("a ^ b ^ c").unwrap();
    assert_eq!(t.to_string(), "^(a ^(b c))");
    let t = p.parse("a -> b -> c").unwrap();
    assert_eq!(t.to_string(), "->(a ->(b c))");
}

#[test]
fn minimal_rendering_keeps_needed_parentheses() {
    let mut p = Parser::new(default_table());
    assert_eq!(render(&mut p, "(a + b) * c"), "(a + b) * c");
    assert_eq!(render(&mut p, "a * (b * c)"), "a * (b * c)");
    assert_eq!(render(&mut p, "(a * b) * c"), "a * b * c");
    assert_eq!(render(&mut p, "(a -> b) -> c"), "(a -> b) -> c");
    assert_eq!(render(&mut p, "x ∀ (x = y)"), "x ∀ x = y");
}

#[test]
fn rendering_round_trips() {
    let mut p = Parser::new(default_table());
    for s in ["(a + b) * c", "! ! - - a = a", "(x ∀ p -> q) -> (x ∀ p) -> x ∀ q", "a ^ (b ^ c) ^ d"] {
        let t = p.parse(s).unwrap();
        let text = p.symdb().ast_to_string_minimal(&t);
        let again = p.parse(&text).unwrap();
        assert_eq!(t.subtree_root(), again.subtree_root());
    }
}

#[test]
fn parse_errors() {
    let mut p = Parser::new(default_table());
    assert!(matches!(p.parse("a $ b"), Err(ParseError::Lex)));
    assert!(matches!(p.parse("(a + b"), Err(ParseError::Build(_))));
    assert!(matches!(p.parse("a + b)"), Err(ParseError::Build(_))));
    assert!(matches!(p.parse("a b"), Err(ParseError::Build(_))));
    assert!(matches!(p.parse("()"), Err(ParseError::Build(_))));
    assert!(p.parse("a + b").is_ok());
}

#[test]
fn repeated_capture_must_agree() {
    let mut p = Parser::new(default_table());
    let ast = p.parse("a + b").unwrap();
    let pat = p.parse("@x + @x").unwrap();
    assert!(pattern_match_tree(ast.subtree_root(), pat.subtree_root()).is_err());
    let ast = p.parse("a + a").unwrap();
    let map = pattern_match_tree(ast.subtree_root(), pat.subtree_root()).unwrap();
    assert_eq!(map.len(), 1);
}

#[test]
fn lexer_failure_is_sticky() {
    let mut lexer = Lexer::new(default_table());
    assert_eq!(lexer.push_str("a $"), MatchState::Failure);
    assert_eq!(lexer.push_str("b"), MatchState::Failure);
    lexer.clear();
    assert_eq!(lexer.push_str("b"), MatchState::Growable);
    assert_eq!(lexer.delimit(), MatchState::Growable);
    assert!(matches!(lexer.recv_token(), Some(Token::Ident(_))));
}
