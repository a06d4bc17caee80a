use fuba::flagcheck::FlagCheck;

fn flags(v: &[&str]) -> Vec<String> {
    v.iter().map(|s| String::from(*s)).collect()
}

fn eval(expr: &str, set: &[&str]) -> bool {
    let fc = match FlagCheck::new(expr) {
        Ok(fc) => fc,
        Err(m) => panic!("parse error: {}", m),
    };
    fc.check(&flags(set)).unwrap()
}

fn parse_error(expr: &str) -> String {
    match FlagCheck::new(expr) {
        Ok(_) => panic!("expected an error for {}", expr),
        Err(m) => m,
    }
}

#[test]
fn single_flag() {
    assert!(eval("A1", &["A1", "B2"]));
    assert!(!eval("A1", &["B2"]));
    assert!(!eval("A1", &[]));
}

#[test]
fn and_or_not() {
    assert!(eval("A & B", &["A", "B"]));
    assert!(!eval("A & B", &["A"]));
    assert!(eval("A | B", &["B"]));
    assert!(!eval("A | B", &["C"]));
    assert!(eval("!A", &["B"]));
    assert!(!eval("!A", &["A"]));
}

#[test]
fn operators_group_to_the_right() {
    // `!` takes the whole expression after it
    assert!(eval("!A & B", &["A"]));
    assert!(!eval("!A & B", &["A", "B"]));
    // parentheses bind first
    assert!(eval("(!A) & B", &["B"]));
    assert!(!eval("(!A) & B", &["A", "B"]));
    assert!(eval("(A | B) & C", &["B", "C"]));
    assert!(!eval("(A | B) & C", &["A"]));
}

#[test]
fn pretty_print_shows_operators() {
    let fc = FlagCheck::new("(A|B)&!C").ok().unwrap();
    // both binary operators print as `&`
    assert_eq!(fc.pretty_print(), String::from("(A & B) & !C"));
    let fc = FlagCheck::new("W1 & R2").ok().unwrap();
    assert_eq!(fc.pretty_print(), String::from("W1 & R2"));
}

#[test]
fn pretty_print_round_trips_without_or() {
    for e in ["A & !(B & C)", "!(X)", "A1 & B2 & C3", "((A))"] {
        let fc = FlagCheck::new(e).ok().unwrap();
        let again = FlagCheck::new(&fc.pretty_print()).ok().unwrap();
        assert_eq!(again.pretty_print(), fc.pretty_print());
        for set in [vec![], vec!["A"], vec!["A", "B"], vec!["A", "B", "C"], vec!["X"], vec!["A1", "B2", "C3"]] {
            assert_eq!(fc.check(&flags(&set)), again.check(&flags(&set)));
        }
    }
}

#[test]
fn copy_checks_the_same() {
    let fc = FlagCheck::new("A | !B").ok().unwrap();
    let c = fc.copy();
    assert_eq!(c.pretty_print(), fc.pretty_print());
    assert_eq!(c.check(&flags(&["B"])), Ok(false));
    assert_eq!(c.check(&flags(&[])), Ok(true));
}

#[test]
fn unexpected_character() {
    assert_eq!(parse_error("A + B"), String::from("Unexpected character: +"));
    assert_eq!(parse_error("_A"), String::from("Unexpected character: _"));
}

#[test]
fn unexpected_end_of_input() {
    assert_eq!(parse_error(""), String::from("Unexpected end of input, expected paren or number"));
    assert_eq!(parse_error("A &"), String::from("Unexpected end of input, expected paren or number"));
}

#[test]
fn unexpected_token() {
    assert_eq!(parse_error(")"), String::from("Unexpected token ParenClose, expected paren or number"));
    assert_eq!(parse_error("& A"), String::from("Unexpected token Op('&'), expected paren or number"));
}

#[test]
fn missing_closing_paren() {
    assert_eq!(parse_error("(A"), String::from("Expected closing paren at 2 but found None"));
    assert_eq!(parse_error("(A B"), String::from("Expected closing paren at 2 but found Some(Flag(\"B\"))"));
}

#[test]
fn trailing_tokens() {
    assert_eq!(parse_error("A B"), String::from("Expected end of input, found Flag(\"B\") at idx 1"));
    assert_eq!(parse_error("A )"), String::from("Expected end of input, found ParenClose at idx 1"));
}

#[test]
fn flags_with_letters_beyond_ascii() {
    // a flag starts with an ASCII letter or digit and goes on with any alphanumeric character
    assert!(eval("Aé", &["Aé"]));
    assert_eq!(parse_error("éA"), String::from("Unexpected character: é"));
}

#[test]
fn order_and_repetition_of_flags_do_not_matter() {
    let checks = ["(A | B) & !C", "!(A & C) | B", "A & B & !D"];
    let lists: [&[&str]; 3] = [&["A", "B", "C"], &["C", "B", "A", "A"], &["B", "C", "C", "A"]];
    for c in checks.iter() {
        let first = eval(c, lists[0]);
        for l in lists.iter() {
            assert_eq!(eval(c, l), first);
        }
    }
    assert!(!eval("(A | B) & !C", lists[1]));
    assert!(eval("A & B & !D", lists[2]));
}
