use ast_script::lexer::{tokenize, LexError, Token};
use ast_script::parser::{parse_tokens, ParseError};
use ast_script::printer::{reconstruct_script, value_to_script};
use ast_script::scenario::{extract, merge, prune, TreeError};
use ast_script::script::{extract_to_yaml, parse_script, read_yaml_as_strings, SyntaxError};
use ast_script::text::is_whitespace;
use ast_script::value::{Decimal, Entry, Value};

const SAMPLE: &str =
    "astver = 2.0\nast = {block_00000 = {{\"x\"}, text = {ja = {{\"hello\"}}}, line = 1}}\n";

fn strings(v: &[&str]) -> Vec<String> {
    v.iter().map(|s| s.to_string()).collect()
}

fn lookup<'a>(d: &'a Vec<Entry>, k: &str) -> Option<&'a Value> {
    d.iter().find(|e| e.key == k).map(|e| &e.value)
}

fn block_items<'a>(doc: &'a Vec<Entry>, block: &str) -> &'a Vec<Value> {
    let ast = lookup(doc, "ast").unwrap().as_array().unwrap();
    let wrapper = ast[0].as_dictionary().unwrap();
    lookup(wrapper, block).unwrap().as_array().unwrap()
}

#[test]
fn sample_extract_merge_prune() {
    let mut doc = parse_script(SAMPLE).unwrap();
    assert_eq!(extract(&doc).unwrap(), strings(&["hello"]));
    merge(&mut doc, &strings(&["world"])).unwrap();
    assert_eq!(extract(&doc).unwrap(), strings(&["world"]));
    prune(&mut doc);
    let items = block_items(&doc, "block_00000");
    assert_eq!(items.len(), 2);
    assert_eq!(items[0].as_dictionary().unwrap().len(), 0);
    let last = items[1].as_dictionary().unwrap();
    assert_eq!(last.len(), 1);
    assert_eq!(last[0].key, "line");
    assert_eq!(last[0].value.as_integer(), Some(1));
}

#[test]
fn escaped_newline_in_string() {
    let tokens = tokenize("\"a\\nb\"").unwrap();
    assert_eq!(tokens.len(), 1);
    match &tokens[0] {
        Token::StringLiteral(s) => assert_eq!(s, "a\nb"),
        other => panic!("unexpected token {:?}", other),
    }
}

#[test]
fn unterminated_string() {
    assert!(matches!(tokenize("\"abc"), Err(LexError::UnterminatedString)));
}

#[test]
fn lex_errors() {
    assert!(matches!(tokenize("\"a\\qb\""), Err(LexError::UnknownEscape)));
    assert!(matches!(tokenize("\"abc\\"), Err(LexError::IncompleteEscape)));
    assert!(matches!(tokenize("a = @"), Err(LexError::UnexpectedCharacter)));
    assert!(matches!(tokenize("1.2.3"), Err(LexError::NumberFormat)));
    assert!(matches!(tokenize("9223372036854775808"), Err(LexError::NumberFormat)));
    assert!(matches!(tokenize("99999999999999999999999"), Err(LexError::NumberFormat)));
}

#[test]
fn integer_limits() {
    let tokens = tokenize("-9223372036854775808 9223372036854775807 -0 007").unwrap();
    let values: Vec<i64> = tokens
        .iter()
        .map(|t| match t {
            Token::IntegerLiteral(n) => *n,
            other => panic!("unexpected token {:?}", other),
        })
        .collect();
    assert_eq!(values, vec![i64::MIN, i64::MAX, 0, 7]);
}

#[test]
fn decimals_are_canonical() {
    let tokens = tokenize("002.500 1. -0.0 2.0 -3.25").unwrap();
    let texts: Vec<String> = tokens
        .iter()
        .map(|t| match t {
            Token::FloatLiteral(d) => d.text.clone(),
            other => panic!("unexpected token {:?}", other),
        })
        .collect();
    assert_eq!(texts, strings(&["2.5", "1.0", "-0.0", "2.0", "-3.25"]));
}

#[test]
fn tokens_of_a_pair() {
    let tokens = tokenize("key_1 = {x, -4}").unwrap();
    assert_eq!(tokens.len(), 7);
    assert!(matches!(&tokens[0], Token::Identifier(s) if s == "key_1"));
    assert!(matches!(tokens[1], Token::Equal));
    assert!(matches!(tokens[2], Token::OpenBrace));
    assert!(matches!(&tokens[3], Token::Identifier(s) if s == "x"));
    assert!(matches!(tokens[4], Token::Comma));
    assert!(matches!(tokens[5], Token::IntegerLiteral(-4)));
    assert!(matches!(tokens[6], Token::CloseBrace));
}

#[test]
fn parse_errors() {
    let p = |s: &str| parse_tokens(&tokenize(s).unwrap());
    assert!(matches!(p("= 1"), Err(ParseError::ExpectedIdentifier)));
    assert!(matches!(p("a = ="), Err(ParseError::UnexpectedToken(Token::Equal))));
    assert!(matches!(p("a = {1, }}"), Err(ParseError::ExpectedIdentifier)));
    assert!(matches!(p("a = {1,"), Err(ParseError::UnexpectedEndOfInput)));
    assert!(matches!(p("a = b"), Err(ParseError::UnexpectedEndOfInput)));
    assert!(matches!(p("a"), Err(ParseError::UnexpectedEndOfInput)));
    assert!(matches!(p("a 1"), Err(ParseError::UnexpectedToken(Token::IntegerLiteral(1)))));
    assert!(matches!(parse_script("a = \"x"), Err(SyntaxError::Lex(LexError::UnterminatedString))));
}

#[test]
fn identifier_shapes() {
    let doc = parse_script("a = {b = c, d, 1}").unwrap();
    let items = lookup(&doc, "a").unwrap().as_array().unwrap();
    assert_eq!(items.len(), 3);
    let inner = items[0].as_dictionary().unwrap();
    assert_eq!(inner.len(), 1);
    assert_eq!(inner[0].key, "b");
    assert_eq!(inner[0].value.as_string().unwrap(), "c");
    assert_eq!(items[1].as_string().unwrap(), "d");
    assert_eq!(items[2].as_integer(), Some(1));
}

#[test]
fn repeated_key_takes_later_value() {
    let doc = parse_script("a = 1 b = 2 a = 3").unwrap();
    assert_eq!(doc.len(), 2);
    assert_eq!(doc[0].key, "a");
    assert_eq!(doc[0].value.as_integer(), Some(3));
    assert_eq!(doc[1].value.as_integer(), Some(2));
}

#[test]
fn empty_input_is_empty_document() {
    assert_eq!(parse_script("  \n\r\t").unwrap().len(), 0);
    assert_eq!(reconstruct_script(&Vec::new()), "");
}

#[test]
fn printed_text() {
    let doc = parse_script("a = 1 b = {\"x\", c = -2, 2.50}").unwrap();
    assert_eq!(
        reconstruct_script(&doc),
        "a = 1\nb = {\n\t\"x\",\n\t\n\t\tc=-2\n\t,\n\t2.5\n}\n"
    );
}

#[test]
fn printed_values() {
    assert_eq!(value_to_script(&Value::Integer(-5), 0), "-5");
    assert_eq!(value_to_script(&Value::Integer(i64::MIN), 3), "-9223372036854775808");
    let d = Value::Float(Decimal { text: "2.0".to_string() });
    assert_eq!(value_to_script(&d, 0), "2.0");
    let s = Value::String("q\"\\\n\tz".to_string());
    assert_eq!(value_to_script(&s, 0), "\"q\\\"\\\\\\n\\tz\"");
    let a = Value::Array(vec![]);
    assert_eq!(value_to_script(&a, 1), "{\n\t\t\n\t}");
}

#[test]
fn print_then_parse_gives_same_document() {
    let text = "astver = 2.0\nast = {block_1 = {{\"a\\\"b\", k = v, 3}, text = {ja = {{\"x\\ty\", n = {\"m\"}}}}}}\n";
    let doc = parse_script(text).unwrap();
    let printed = reconstruct_script(&doc);
    let again = parse_script(&printed).unwrap();
    assert_eq!(reconstruct_script(&again), printed);
    assert_eq!(extract(&again).unwrap(), extract(&doc).unwrap());
    assert_eq!(extract(&doc).unwrap(), strings(&["x\ty"]));
}

#[test]
fn merge_then_extract_gives_list() {
    let text = "ast = {block_1 = {text = {ja = {{\"a\", \"b\"}, {\"c\"}}}, text = {vo = {}}}, block_2 = {}, other = {text = {ja = {{\"z\"}}}}}";
    let mut doc = parse_script(text).unwrap();
    assert_eq!(extract(&doc).unwrap(), strings(&["a", "b", "c"]));
    let list = strings(&["1", "2", "3"]);
    merge(&mut doc, &list).unwrap();
    assert_eq!(extract(&doc).unwrap(), list);
}

#[test]
fn merge_length_mismatch() {
    let mut doc = parse_script(SAMPLE).unwrap();
    let before = reconstruct_script(&doc);
    assert_eq!(merge(&mut doc, &strings(&[])), Err(TreeError::ExhaustedInput));
    assert_eq!(merge(&mut doc, &strings(&["a", "b"])), Err(TreeError::UnusedInput));
    assert_eq!(reconstruct_script(&doc), before);
}

#[test]
fn tree_errors() {
    let mut no_ast = parse_script("astver = 2.0").unwrap();
    assert_eq!(extract(&no_ast), Err(TreeError::MissingField));
    assert_eq!(merge(&mut no_ast, &strings(&[])), Err(TreeError::MissingField));
    let not_array = parse_script("ast = 1").unwrap();
    assert_eq!(extract(&not_array), Err(TreeError::TypeMismatch));
    let bad_wrapper = parse_script("ast = {1}").unwrap();
    assert_eq!(extract(&bad_wrapper), Err(TreeError::TypeMismatch));
}

#[test]
fn prune_twice_is_prune_once() {
    let text = "astver = 2.0\nast = {block_0 = {{\"bg\"}, text = {ja = {{\"x\"}}}, linknext = \"block_1\", line = 3}, block_1 = {{\"se\", id = 1}}}\n";
    let mut once = parse_script(text).unwrap();
    prune(&mut once);
    let printed_once = reconstruct_script(&once);
    let mut twice = parse_script(text).unwrap();
    prune(&mut twice);
    prune(&mut twice);
    assert_eq!(reconstruct_script(&twice), printed_once);
}

#[test]
fn pruned_items_keep_only_links() {
    let text = "ast = {block_0 = {{\"bg\"}, text = {ja = {{\"x\"}}}, linknext = \"block_1\", line = 3, 7}}";
    let mut doc = parse_script(text).unwrap();
    prune(&mut doc);
    for item in block_items(&doc, "block_0") {
        for e in item.as_dictionary().unwrap() {
            assert!(e.key == "linknext" || e.key == "line");
        }
    }
    assert_eq!(block_items(&doc, "block_0").len(), 3);
    assert_eq!(extract(&doc).unwrap().len(), 0);
}

#[test]
fn yaml_list_round_trip() {
    let doc = parse_script(SAMPLE).unwrap();
    let yaml = extract_to_yaml(&doc).unwrap();
    assert!(yaml.contains("hello"));
    assert_ne!(yaml, "");
    assert_eq!(read_yaml_as_strings(&yaml).unwrap(), strings(&["hello"]));
    assert_eq!(read_yaml_as_strings("- a\n- b\n").unwrap(), strings(&["a", "b"]));
    assert!(read_yaml_as_strings("a: 1\n").is_err());
}

#[test]
fn accessors() {
    let mut v = Value::String("s".to_string());
    assert!(v.as_string().is_some());
    assert!(!v.is_array() && !v.is_dictionary());
    v.as_string_mut().unwrap().push('t');
    assert_eq!(v.as_string().unwrap(), "st");
    let mut a = Value::Array(vec![Value::Integer(4)]);
    assert!(a.is_array());
    a.as_array_mut().unwrap().push(Value::Integer(5));
    assert_eq!(a.as_array().unwrap().len(), 2);
    assert!(a.as_integer().is_none() && a.as_float().is_none());
    let mut d = Value::Dictionary(vec![]);
    assert!(d.is_dictionary());
    d.as_dictionary_mut().unwrap().push(Entry { key: "k".to_string(), value: Value::Integer(1) });
    assert_eq!(d.as_dictionary().unwrap().len(), 1);
    let f = Value::Float(Decimal { text: "1.5".to_string() });
    assert_eq!(f.as_float().unwrap().text, "1.5");
}

#[test]
fn whitespace_class_matches_std() {
    for code in 0u32..0x3100 {
        if let Some(c) = char::from_u32(code) {
            assert_eq!(is_whitespace(c), c.is_whitespace(), "{:?}", c);
        }
    }
    assert!(is_whitespace('\u{3000}') && is_whitespace('\u{a0}'));
    assert!(!is_whitespace('a') && !is_whitespace('\u{200b}'));
}

#[test]
fn yaml_export_of_empty_dialogue() {
    let doc = parse_script("ast = {}").unwrap();
    let yaml = extract_to_yaml(&doc).unwrap();
    assert_eq!(read_yaml_as_strings(&yaml).unwrap(), Vec::<String>::new());
}
