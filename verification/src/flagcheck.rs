//! Boolean expressions over flags, such as `(A | B) & !C`.
//!
//! A round can mark teams with flags; a later round picks its entrants by
//! checking such expressions against the flags that were set.
use vstd::prelude::*;
use crate::text::{dec, dec_chars, push_char, push_str_chars, str_chars};

verus! {

// ----------------------------------------------------------------------
// Public interface
// ----------------------------------------------------------------------

/// A parsed flag expression.
pub struct FlagCheck {
    node: ParseNode,
}

/// The meaning of a flag expression.
pub enum Expr {
    And(Box<Expr>, Box<Expr>),
    Or(Box<Expr>, Box<Expr>),
    Not(Box<Expr>),
    Paren(Box<Expr>),
    Flag(Seq<char>),
}

/// `flags` holds the flag `f`.
pub open spec fn has_flag(flags: Seq<Seq<char>>, f: Seq<char>) -> bool {
    exists|i: int| 0 <= i < flags.len() && flags[i] == f
}

/// Truth value of an expression when exactly the flags in `flags` are set.
pub open spec fn eval(e: Expr, flags: Seq<Seq<char>>) -> bool
    decreases e,
{
    match e {
        Expr::And(a, b) => eval(*a, flags) && eval(*b, flags),
        Expr::Or(a, b) => eval(*a, flags) || eval(*b, flags),
        Expr::Not(a) => !eval(*a, flags),
        Expr::Paren(a) => eval(*a, flags),
        Expr::Flag(f) => has_flag(flags, f),
    }
}

/// Text of an expression as printed by `pretty_print`. Both binary operators
/// are printed with `&`.
pub open spec fn render(e: Expr) -> Seq<char>
    decreases e,
{
    match e {
        Expr::And(a, b) => render(*a) + seq![' ', '&', ' '] + render(*b),
        Expr::Or(a, b) => render(*a) + seq![' ', '&', ' '] + render(*b),
        Expr::Not(a) => seq!['!'] + render(*a),
        Expr::Paren(a) => seq!['('] + render(*a) + seq![')'],
        Expr::Flag(f) => f,
    }
}

/// The views of a sequence of strings.
pub open spec fn strings_view(v: Seq<String>) -> Seq<Seq<char>> {
    v.map_values(|s: String| s@)
}

impl FlagCheck {
    /// The expression this check evaluates.
    pub closed spec fn expr(&self) -> Expr {
        node_expr(self.node)
    }

    #[verifier::type_invariant]
    closed spec fn wf(&self) -> bool {
        node_wf(self.node)
    }

    /// Parses a flag expression. The grammar is
    /// `expr := operand ('|' expr)?`, `operand := atom ('&' expr)?`,
    /// `atom := '!' expr | FLAG | '(' expr ')'`, where a flag starts with an
    /// ASCII letter or digit and goes on with alphanumeric characters, and
    /// spaces separate tokens.
    pub fn new(input: &str) -> (res: Result<FlagCheck, String>)
        ensures
            match parse_input(input@) {
                Ok(e) => res matches Ok(fc) && fc.expr() == e,
                Err(m) => res matches Err(msg) && msg@ == m,
            },
    {
        match parse(input) {
            Ok(node) => Ok(FlagCheck { node }),
            Err(e) => Err(e),
        }
    }

    /// Evaluates the expression with exactly the flags in `flags` set.
    pub fn check(&self, flags: &[String]) -> (res: Result<bool, String>)
        ensures
            res == Ok::<bool, String>(eval(self.expr(), strings_view(flags@))),
    {
        proof {
            use_type_invariant(self);
        }
        self.node.check(flags)
    }

    /// The expression as text.
    pub fn pretty_print(&self) -> (res: String)
        ensures
            res@ == render(self.expr()),
    {
        proof {
            use_type_invariant(self);
        }
        self.node.pretty_print()
    }

    /// A copy of this check.
    pub fn copy(&self) -> (res: FlagCheck)
        ensures
            res.expr() == self.expr(),
    {
        proof {
            use_type_invariant(self);
        }
        FlagCheck { node: self.node.copy() }
    }
}

// ----------------------------------------------------------------------
// Parse trees
// ----------------------------------------------------------------------

enum GrammarItem {
    And,
    Or,
    Not,
    Flag(String),
    Paren,
}

struct ParseNode {
    children: Vec<ParseNode>,
    entry: GrammarItem,
}

/// Every node has the children its kind needs: one below `!` and
/// parentheses, two below `&` and `|`, none below a flag.
spec fn node_wf(n: ParseNode) -> bool
    decreases n,
{
    match n.entry {
        GrammarItem::Paren | GrammarItem::Not => n.children@.len() == 1 && node_wf(
            n.children@[0],
        ),
        GrammarItem::And | GrammarItem::Or => n.children@.len() == 2 && node_wf(n.children@[0])
            && node_wf(n.children@[1]),
        GrammarItem::Flag(_) => n.children@.len() == 0,
    }
}

/// The expression a well-formed node stands for.
spec fn node_expr(n: ParseNode) -> Expr
    decreases n,
{
    match n.entry {
        GrammarItem::Paren => if n.children@.len() >= 1 {
            Expr::Paren(Box::new(node_expr(n.children@[0])))
        } else {
            Expr::Flag(seq![])
        },
        GrammarItem::Not => if n.children@.len() >= 1 {
            Expr::Not(Box::new(node_expr(n.children@[0])))
        } else {
            Expr::Flag(seq![])
        },
        GrammarItem::And => if n.children@.len() >= 2 {
            Expr::And(Box::new(node_expr(n.children@[0])), Box::new(node_expr(n.children@[1])))
        } else {
            Expr::Flag(seq![])
        },
        GrammarItem::Or => if n.children@.len() >= 2 {
            Expr::Or(Box::new(node_expr(n.children@[0])), Box::new(node_expr(n.children@[1])))
        } else {
            Expr::Flag(seq![])
        },
        GrammarItem::Flag(f) => Expr::Flag(f@),
    }
}

impl ParseNode {
    fn new(entry: GrammarItem) -> (res: ParseNode)
        ensures
            res.children@.len() == 0,
            res.entry == entry,
    {
        ParseNode { children: Vec::new(), entry }
    }

    fn check(&self, flags: &[String]) -> (res: Result<bool, String>)
        requires
            node_wf(*self),
        ensures
            res == Ok::<bool, String>(eval(node_expr(*self), strings_view(flags@))),
        decreases self,
    {
        match self.entry {
            GrammarItem::Paren => self.children[0].check(flags),
            GrammarItem::Not => match self.children[0].check(flags) {
                Ok(v) => Ok(!v),
                Err(e) => Err(e),
            },
            GrammarItem::And => {
                let r1 = self.children[0].check(flags);
                let r2 = self.children[1].check(flags);
                if let Ok(v1) = r1 {
                    if let Ok(v2) = r2 {
                        Ok(v1 && v2)
                    } else {
                        Err(String::from_str("Error in parse tree, missing lhs operand to AND"))
                    }
                } else {
                    Err(String::from_str("Error in parse tree, missing rhs operand to AND"))
                }
            },
            GrammarItem::Or => {
                let r1 = self.children[0].check(flags);
                let r2 = self.children[1].check(flags);
                if let Ok(v1) = r1 {
                    if let Ok(v2) = r2 {
                        Ok(v1 || v2)
                    } else {
                        Err(String::from_str("Error in parse tree, missing lhs to OR"))
                    }
                } else {
                    Err(String::from_str("Error in parse tree, missing rhs operand to OR"))
                }
            },
            GrammarItem::Flag(ref f) => {
                let found = contains_string(flags, f);
                Ok(found)
            },
        }
    }

    fn pretty_print(&self) -> (res: String)
        requires
            node_wf(*self),
        ensures
            res@ == render(node_expr(*self)),
        decreases self,
    {
        match self.entry {
            GrammarItem::Paren => {
                let inner = self.children[0].pretty_print();
                let mut s = String::new();
                push_char(&mut s, '(');
                s.append(inner.as_str());
                push_char(&mut s, ')');
                s
            },
            GrammarItem::Not => {
                let inner = self.children[0].pretty_print();
                let mut s = String::new();
                push_char(&mut s, '!');
                s.append(inner.as_str());
                s
            },
            GrammarItem::Or => {
                let lhs = self.children[0].pretty_print();
                let rhs = self.children[1].pretty_print();
                join_and(&lhs, &rhs)
            },
            GrammarItem::And => {
                let lhs = self.children[0].pretty_print();
                let rhs = self.children[1].pretty_print();
                join_and(&lhs, &rhs)
            },
            GrammarItem::Flag(ref f) => f.clone(),
        }
    }

    fn copy(&self) -> (res: ParseNode)
        requires
            node_wf(*self),
        ensures
            node_wf(res),
            node_expr(res) == node_expr(*self),
        decreases self,
    {
        match self.entry {
            GrammarItem::Paren => {
                let c = self.children[0].copy();
                let mut n = ParseNode::new(GrammarItem::Paren);
                n.children.push(c);
                n
            },
            GrammarItem::Not => {
                let c = self.children[0].copy();
                let mut n = ParseNode::new(GrammarItem::Not);
                n.children.push(c);
                n
            },
            GrammarItem::And => {
                let a = self.children[0].copy();
                let b = self.children[1].copy();
                let mut n = ParseNode::new(GrammarItem::And);
                n.children.push(a);
                n.children.push(b);
                n
            },
            GrammarItem::Or => {
                let a = self.children[0].copy();
                let b = self.children[1].copy();
                let mut n = ParseNode::new(GrammarItem::Or);
                n.children.push(a);
                n.children.push(b);
                n
            },
            GrammarItem::Flag(ref f) => ParseNode::new(GrammarItem::Flag(f.clone())),
        }
    }
}

/// `lhs & rhs`.
fn join_and(lhs: &String, rhs: &String) -> (res: String)
    ensures
        res@ == lhs@ + seq![' ', '&', ' '] + rhs@,
{
    let mut s = String::new();
    s.append(lhs.as_str());
    push_char(&mut s, ' ');
    push_char(&mut s, '&');
    push_char(&mut s, ' ');
    s.append(rhs.as_str());
    assert(s@ =~= lhs@ + seq![' ', '&', ' '] + rhs@);
    s
}

/// Whether `flags` holds `f`.
pub(crate) fn contains_string(flags: &[String], f: &String) -> (res: bool)
    ensures
        res == has_flag(strings_view(flags@), f@),
{
    let mut i: usize = 0;
    while i < flags.len()
        invariant
            i <= flags.len(),
            forall|j: int| 0 <= j < i ==> flags@[j]@ != f@,
        decreases flags.len() - i,
    {
        if flags[i] == *f {
            assert(strings_view(flags@)[i as int] == f@);
            return true;
        }
        i = i + 1;
    }
    proof {
        if has_flag(strings_view(flags@), f@) {
            let j = choose|j: int|
                0 <= j < strings_view(flags@).len() && strings_view(flags@)[j] == f@;
            assert(flags@[j]@ == f@);
        }
    }
    false
}

// ----------------------------------------------------------------------
// Lexer
// ----------------------------------------------------------------------

enum LexItem {
    ParenOpen,
    ParenClose,
    Op(char),
    Flag(String),
}

/// A token of a flag expression.
pub enum Tok {
    ParenOpen,
    ParenClose,
    Op(char),
    Flag(Seq<char>),
}

spec fn tok_view(t: LexItem) -> Tok {
    match t {
        LexItem::ParenOpen => Tok::ParenOpen,
        LexItem::ParenClose => Tok::ParenClose,
        LexItem::Op(c) => Tok::Op(c),
        LexItem::Flag(f) => Tok::Flag(f@),
    }
}

spec fn toks_view(v: Seq<LexItem>) -> Seq<Tok> {
    v.map_values(|t: LexItem| tok_view(t))
}

/// An ASCII letter or digit: the first character of a flag.
pub open spec fn is_flag_start(c: char) -> bool {
    ('a' <= c && c <= 'z') || ('A' <= c && c <= 'Z') || ('0' <= c && c <= '9')
}

/// Whether std's `char::is_alphanumeric` holds of a character outside ASCII.
pub uninterp spec fn char_is_alphanumeric(c: char) -> bool;

/// Whether std's `char::is_alphanumeric` holds of `c`: within ASCII exactly
/// the letters and digits.
pub open spec fn alphanumeric(c: char) -> bool {
    if (c as u32) < 128 {
        is_flag_start(c)
    } else {
        char_is_alphanumeric(c)
    }
}

/// Calls `char::is_alphanumeric`. The contract claims that within ASCII it
/// holds exactly of the letters and digits (std documents it as
/// `is_alphabetic() || is_numeric()`); outside ASCII its result is only named.
#[verifier::external_body]
fn is_alphanumeric(c: char) -> (res: bool)
    ensures
        res == (if (c as u32) < 128 {
            is_flag_start(c)
        } else {
            char_is_alphanumeric(c)
        }),
{
    c.is_alphanumeric()
}

/// Number of leading alphanumeric characters of `s`.
pub open spec fn alnum_run(s: Seq<char>) -> nat
    decreases s.len(),
{
    if s.len() > 0 && alphanumeric(s[0]) {
        1 + alnum_run(s.drop_first())
    } else {
        0
    }
}

/// A run of alphanumeric characters lies within the text.
pub proof fn lemma_alnum_run_bound(s: Seq<char>)
    ensures
        alnum_run(s) <= s.len(),
    decreases s.len(),
{
    if s.len() > 0 && alphanumeric(s[0]) {
        lemma_alnum_run_bound(s.drop_first());
    }
}

/// Tokens `p` in front of the outcome `r` of lexing the rest.
pub open spec fn prepend_toks(p: Seq<Tok>, r: Result<Seq<Tok>, char>) -> Result<Seq<Tok>, char> {
    match r {
        Ok(t) => Ok(p + t),
        Err(c) => Err(c),
    }
}

/// Length of the flag that starts `s` (whose first character is a flag start).
pub open spec fn flag_len(s: Seq<char>) -> nat {
    1 + alnum_run(s.drop_first())
}

/// Tokens of `s`, or the first character that cannot start a token.
pub open spec fn lex_spec(s: Seq<char>) -> Result<Seq<Tok>, char>
    decreases s.len(),
{
    if s.len() == 0 {
        Ok(seq![])
    } else {
        let c = s[0];
        if is_flag_start(c) {
            proof {
                lemma_alnum_run_bound(s.drop_first());
            }
            prepend_toks(seq![Tok::Flag(s.take(flag_len(s) as int))], lex_spec(s.skip(flag_len(s) as int)))
        } else if c == '|' || c == '&' || c == '!' {
            prepend_toks(seq![Tok::Op(c)], lex_spec(s.drop_first()))
        } else if c == '(' {
            prepend_toks(seq![Tok::ParenOpen], lex_spec(s.drop_first()))
        } else if c == ')' {
            prepend_toks(seq![Tok::ParenClose], lex_spec(s.drop_first()))
        } else if c == ' ' {
            lex_spec(s.drop_first())
        } else {
            Err(c)
        }
    }
}

/// Message for a character that cannot start a token.
pub open spec fn unexpected_char_msg(c: char) -> Seq<char> {
    "Unexpected character: "@.push(c)
}

proof fn lemma_prepend_assoc(p: Seq<Tok>, q: Seq<Tok>, r: Result<Seq<Tok>, char>)
    ensures
        prepend_toks(p, prepend_toks(q, r)) == prepend_toks(p + q, r),
{
    match r {
        Ok(t) => {
            assert(p + (q + t) =~= (p + q) + t);
        },
        Err(_) => {},
    }
}

fn get_flag(chars: &Vec<char>, start: usize) -> (res: (String, usize))
    requires
        start < chars.len(),
    ensures
        res.1 == start + flag_len(chars@.skip(start as int)),
        res.1 <= chars.len(),
        res.0@ == chars@.subrange(start as int, res.1 as int),
{
    let mut flag = String::new();
    push_char(&mut flag, chars[start]);
    let mut j: usize = start + 1;
    proof {
        assert(chars@.skip(start as int).drop_first() =~= chars@.skip(j as int));
        assert(flag@ =~= chars@.subrange(start as int, j as int));
    }
    while j < chars.len() && is_alphanumeric(chars[j])
        invariant
            start < j <= chars.len(),
            flag@ == chars@.subrange(start as int, j as int),
            alnum_run(chars@.skip(start as int + 1)) == (j - start - 1) + alnum_run(
                chars@.skip(j as int),
            ),
        decreases chars.len() - j,
    {
        proof {
            assert(chars@.skip(j as int).drop_first() =~= chars@.skip(j as int + 1));
        }
        push_char(&mut flag, chars[j]);
        j = j + 1;
        proof {
            assert(flag@ =~= chars@.subrange(start as int, j as int));
        }
    }
    proof {
        assert(chars@.skip(start as int).drop_first() =~= chars@.skip(start as int + 1));
    }
    (flag, j)
}

fn lex(input: &str) -> (res: Result<Vec<LexItem>, String>)
    ensures
        match lex_spec(input@) {
            Ok(t) => res matches Ok(v) && toks_view(v@) == t,
            Err(c) => res matches Err(m) && m@ == unexpected_char_msg(c),
        },
{
    let chars = str_chars(input);
    let mut result: Vec<LexItem> = Vec::new();
    let mut i: usize = 0;
    proof {
        assert(chars@.skip(0) =~= chars@);
        assert(toks_view(result@) =~= seq![]);
        assert(prepend_toks(seq![], lex_spec(chars@)) == lex_spec(chars@)) by {
            match lex_spec(chars@) {
                Ok(t) => {
                    assert(Seq::<Tok>::empty() + t =~= t);
                },
                Err(_) => {},
            }
        }
    }
    while i < chars.len()
        invariant
            i <= chars.len(),
            chars@ == input@,
            lex_spec(chars@) == prepend_toks(toks_view(result@), lex_spec(chars@.skip(i as int))),
        decreases chars.len() - i,
    {
        let c = chars[i];
        let ghost rest = chars@.skip(i as int);
        let ghost old_res = result@;
        proof {
            assert(rest[0] == c);
            assert(rest.drop_first() =~= chars@.skip(i as int + 1));
        }
        if ('a' <= c && c <= 'z') || ('A' <= c && c <= 'Z') || ('0' <= c && c <= '9') {
            let (f, next) = get_flag(&chars, i);
            proof {
                assert(rest.take(flag_len(rest) as int) =~= f@);
                assert(rest.skip(flag_len(rest) as int) =~= chars@.skip(next as int));
                lemma_prepend_assoc(toks_view(old_res), seq![Tok::Flag(f@)], lex_spec(chars@.skip(next as int)));
            }
            result.push(LexItem::Flag(f));
            proof {
                assert(toks_view(result@) =~= toks_view(old_res) + seq![Tok::Flag(f@)]);
            }
            i = next;
        } else if c == '|' || c == '&' || c == '!' {
            result.push(LexItem::Op(c));
            proof {
                lemma_prepend_assoc(toks_view(old_res), seq![Tok::Op(c)], lex_spec(rest.drop_first()));
                assert(toks_view(result@) =~= toks_view(old_res) + seq![Tok::Op(c)]);
            }
            i = i + 1;
        } else if c == '(' {
            result.push(LexItem::ParenOpen);
            proof {
                lemma_prepend_assoc(toks_view(old_res), seq![Tok::ParenOpen], lex_spec(rest.drop_first()));
                assert(toks_view(result@) =~= toks_view(old_res) + seq![Tok::ParenOpen]);
            }
            i = i + 1;
        } else if c == ')' {
            result.push(LexItem::ParenClose);
            proof {
                lemma_prepend_assoc(toks_view(old_res), seq![Tok::ParenClose], lex_spec(rest.drop_first()));
                assert(toks_view(result@) =~= toks_view(old_res) + seq![Tok::ParenClose]);
            }
            i = i + 1;
        } else if c == ' ' {
            i = i + 1;
        } else {
            let mut m = String::from_str("Unexpected character: ");
            push_char(&mut m, c);
            return Err(m);
        }
    }
    proof {
        assert(chars@.skip(i as int) =~= Seq::<char>::empty());
        assert(toks_view(result@) + Seq::<Tok>::empty() =~= toks_view(result@));
    }
    Ok(result)
}

// ----------------------------------------------------------------------
// Parser
// ----------------------------------------------------------------------

/// The text std's `Debug` gives a string: quoted, with escapes.
pub uninterp spec fn str_debug(s: Seq<char>) -> Seq<char>;

/// Formats a string with std's `Debug`; the contract only names the result.
#[verifier::external_body]
fn debug_string(s: &String) -> (res: String)
    ensures
        res@ == str_debug(s@),
{
    format!("{:?}", s)
}

/// A token as shown in error messages (the operators are `|`, `&` and `!`,
/// which `Debug` prints between single quotes).
pub open spec fn tok_debug(t: Tok) -> Seq<char> {
    match t {
        Tok::ParenOpen => "ParenOpen"@,
        Tok::ParenClose => "ParenClose"@,
        Tok::Op(c) => seq!['O', 'p', '(', '\'', c, '\'', ')'],
        Tok::Flag(f) => seq!['F', 'l', 'a', 'g', '('] + str_debug(f) + seq![')'],
    }
}

/// The token at `i`, if any, as shown in error messages.
pub open spec fn opt_tok_debug(t: Seq<Tok>, i: nat) -> Seq<char> {
    if i < t.len() {
        seq!['S', 'o', 'm', 'e', '('] + tok_debug(t[i as int]) + seq![')']
    } else {
        "None"@
    }
}

/// Outcome of parsing a part of the tokens: the expression and the position
/// after it, or an error message.
pub type ParseOutcome = Result<(Expr, nat), Seq<char>>;

pub open spec fn msg_end_of_input() -> Seq<char> {
    "Unexpected end of input, expected paren or number"@
}

pub open spec fn msg_closing_paren(t: Seq<Tok>, i: nat) -> Seq<char> {
    "Expected closing paren at "@ + dec(i) + " but found "@ + opt_tok_debug(t, i)
}

pub open spec fn msg_unexpected_token(tok: Tok) -> Seq<char> {
    "Unexpected token "@ + tok_debug(tok) + ", expected paren or number"@
}

pub open spec fn msg_trailing(t: Seq<Tok>, i: nat) -> Seq<char> {
    "Expected end of input, found "@ + tok_debug(t[i as int]) + " at idx "@ + dec(i)
}

/// `expr := operand ('|' expr)?`, parsed from position `p`.
/// (Positions only move forward, see `lemma_parse_advances`, so the guard
/// `np >= p` below always holds; it only lets the definition terminate.)
pub open spec fn parse_expr_s(t: Seq<Tok>, p: nat) -> ParseOutcome
    decreases t.len() - p, 2nat,
{
    if p > t.len() {
        Err(msg_end_of_input())
    } else {
        match parse_or_s(t, p) {
            Err(m) => Err(m),
            Ok((lhs, np)) => if np < t.len() && t[np as int] == Tok::Op('|') && np >= p {
                match parse_expr_s(t, np + 1) {
                    Err(m) => Err(m),
                    Ok((rhs, i)) => Ok((Expr::Or(Box::new(lhs), Box::new(rhs)), i)),
                }
            } else {
                Ok((lhs, np))
            },
        }
    }
}

/// `operand := atom ('&' expr)?`, parsed from position `p`.
pub open spec fn parse_or_s(t: Seq<Tok>, p: nat) -> ParseOutcome
    decreases t.len() - p, 1nat,
{
    if p > t.len() {
        Err(msg_end_of_input())
    } else {
        match parse_and_s(t, p) {
            Err(m) => Err(m),
            Ok((lhs, np)) => if np < t.len() && t[np as int] == Tok::Op('&') && np >= p {
                match parse_expr_s(t, np + 1) {
                    Err(m) => Err(m),
                    Ok((rhs, i)) => Ok((Expr::And(Box::new(lhs), Box::new(rhs)), i)),
                }
            } else {
                Ok((lhs, np))
            },
        }
    }
}

/// `atom := '!' expr | FLAG | '(' expr ')'`, parsed from position `p`.
pub open spec fn parse_and_s(t: Seq<Tok>, p: nat) -> ParseOutcome
    decreases t.len() - p, 0nat,
{
    if p >= t.len() {
        Err(msg_end_of_input())
    } else {
        match t[p as int] {
            Tok::Op(c) => if c == '!' {
                match parse_expr_s(t, p + 1) {
                    Err(m) => Err(m),
                    Ok((e, np)) => Ok((Expr::Not(Box::new(e)), np)),
                }
            } else {
                Err(msg_unexpected_token(t[p as int]))
            },
            Tok::Flag(f) => Ok((Expr::Flag(f), p + 1)),
            Tok::ParenOpen => match parse_expr_s(t, p + 1) {
                Err(m) => Err(m),
                Ok((e, np)) => if np < t.len() && t[np as int] == Tok::ParenClose {
                    Ok((Expr::Paren(Box::new(e)), np + 1))
                } else {
                    Err(msg_closing_paren(t, np))
                },
            },
            Tok::ParenClose => Err(msg_unexpected_token(t[p as int])),
        }
    }
}

/// The expression that `s` denotes, or the error message for it.
pub open spec fn parse_input(s: Seq<char>) -> Result<Expr, Seq<char>> {
    match lex_spec(s) {
        Err(c) => Err(unexpected_char_msg(c)),
        Ok(t) => match parse_expr_s(t, 0) {
            Err(m) => Err(m),
            Ok((e, i)) => if i == t.len() {
                Ok(e)
            } else {
                Err(msg_trailing(t, i))
            },
        },
    }
}

/// Parsing from `p` either fails or ends after `p`, within the tokens.
pub proof fn lemma_parse_advances(t: Seq<Tok>, p: nat)
    ensures
        parse_expr_s(t, p) matches Ok((_, np)) ==> p < np <= t.len(),
        parse_or_s(t, p) matches Ok((_, np)) ==> p < np <= t.len(),
        parse_and_s(t, p) matches Ok((_, np)) ==> p < np <= t.len(),
    decreases t.len() - p,
{
    if p < t.len() {
        lemma_parse_advances(t, p + 1);
        // the results from positions after p advance; so do those from p
        if let Ok((_, np)) = parse_and_s(t, p) {
            if np < t.len() {
                lemma_parse_advances(t, np + 1);
            }
        }
        if let Ok((_, np)) = parse_or_s(t, p) {
            if np < t.len() {
                lemma_parse_advances(t, np + 1);
            }
        }
    }
}

/// Outcome of an executable parse, seen as a parse outcome.
spec fn outcome_view(r: Result<(ParseNode, usize), String>) -> ParseOutcome {
    match r {
        Ok((n, i)) => Ok((node_expr(n), i as nat)),
        Err(m) => Err(m@),
    }
}

spec fn outcome_wf(r: Result<(ParseNode, usize), String>) -> bool {
    r matches Ok((n, _)) ==> node_wf(n)
}

fn token_debug(t: &LexItem) -> (res: String)
    ensures
        res@ == tok_debug(tok_view(*t)),
{
    match t {
        LexItem::ParenOpen => String::from_str("ParenOpen"),
        LexItem::ParenClose => String::from_str("ParenClose"),
        LexItem::Op(c) => {
            let mut s = String::from_str("Op(");
            push_char(&mut s, '\'');
            push_char(&mut s, *c);
            push_char(&mut s, '\'');
            push_char(&mut s, ')');
            proof {
                reveal_strlit("Op(");
                assert(s@ =~= seq!['O', 'p', '(', '\'', *c, '\'', ')']);
            }
            s
        },
        LexItem::Flag(f) => {
            let mut s = String::from_str("Flag(");
            let d = debug_string(f);
            s.append(d.as_str());
            push_char(&mut s, ')');
            proof {
                reveal_strlit("Flag(");
                assert(s@ =~= seq!['F', 'l', 'a', 'g', '('] + str_debug(f@) + seq![')']);
            }
            s
        },
    }
}

fn msg_closing_paren_exec(tokens: &Vec<LexItem>, i: usize) -> (res: String)
    ensures
        res@ == msg_closing_paren(toks_view(tokens@), i as nat),
{
    let mut s = String::from_str("Expected closing paren at ");
    let d = dec_chars(i as u64);
    push_str_chars(&mut s, &d);
    s.append(" but found ");
    if i < tokens.len() {
        let mut o = String::from_str("Some(");
        let td = token_debug(&tokens[i]);
        o.append(td.as_str());
        push_char(&mut o, ')');
        proof {
            reveal_strlit("Some(");
            assert(o@ =~= seq!['S', 'o', 'm', 'e', '('] + tok_debug(toks_view(tokens@)[i as int]) + seq![')']);
        }
        s.append(o.as_str());
    } else {
        s.append("None");
    }
    s
}

fn msg_unexpected_token_exec(tok: &LexItem) -> (res: String)
    ensures
        res@ == msg_unexpected_token(tok_view(*tok)),
{
    let mut s = String::from_str("Unexpected token ");
    let td = token_debug(tok);
    s.append(td.as_str());
    s.append(", expected paren or number");
    s
}

fn msg_trailing_exec(tokens: &Vec<LexItem>, i: usize) -> (res: String)
    requires
        i < tokens.len(),
    ensures
        res@ == msg_trailing(toks_view(tokens@), i as nat),
{
    let mut s = String::from_str("Expected end of input, found ");
    let td = token_debug(&tokens[i]);
    s.append(td.as_str());
    s.append(" at idx ");
    let d = dec_chars(i as u64);
    push_str_chars(&mut s, &d);
    s
}

fn parse(input: &str) -> (res: Result<ParseNode, String>)
    ensures
        match parse_input(input@) {
            Ok(e) => res matches Ok(n) && node_wf(n) && node_expr(n) == e,
            Err(m) => res matches Err(msg) && msg@ == m,
        },
{
    let tokens = match lex(input) {
        Ok(t) => t,
        Err(e) => return Err(e),
    };
    let ghost t = toks_view(tokens@);
    match parse_expr(&tokens, 0) {
        Ok((n, i)) => {
            if i == tokens.len() {
                Ok(n)
            } else {
                proof {
                    lemma_parse_advances(t, 0);
                }
                Err(msg_trailing_exec(&tokens, i))
            }
        },
        Err(e) => Err(e),
    }
}

fn parse_expr(tokens: &Vec<LexItem>, pos: usize) -> (res: Result<(ParseNode, usize), String>)
    ensures
        outcome_view(res) == parse_expr_s(toks_view(tokens@), pos as nat),
        outcome_wf(res),
    decreases tokens.len() - pos, 2nat,
{
    let ghost t = toks_view(tokens@);
    proof {
        lemma_parse_advances(t, pos as nat);
    }
    let (lhs, next_pos) = match parse_or_operand(tokens, pos) {
        Ok(x) => x,
        Err(e) => return Err(e),
    };
    if next_pos < tokens.len() && is_op(&tokens[next_pos], '|') {
        let mut or_node = ParseNode::new(GrammarItem::Or);
        or_node.children.push(lhs);
        let (rhs, i) = match parse_expr(tokens, next_pos + 1) {
            Ok(x) => x,
            Err(e) => return Err(e),
        };
        or_node.children.push(rhs);
        proof {
            assert(or_node.children@[0] == lhs);
        }
        Ok((or_node, i))
    } else {
        Ok((lhs, next_pos))
    }
}

fn parse_or_operand(tokens: &Vec<LexItem>, pos: usize) -> (res: Result<(ParseNode, usize), String>)
    ensures
        outcome_view(res) == parse_or_s(toks_view(tokens@), pos as nat),
        outcome_wf(res),
    decreases tokens.len() - pos, 1nat,
{
    let ghost t = toks_view(tokens@);
    proof {
        lemma_parse_advances(t, pos as nat);
    }
    let (lhs, next_pos) = match parse_and_operand(tokens, pos) {
        Ok(x) => x,
        Err(e) => return Err(e),
    };
    if next_pos < tokens.len() && is_op(&tokens[next_pos], '&') {
        let mut and_node = ParseNode::new(GrammarItem::And);
        and_node.children.push(lhs);
        let (rhs, i) = match parse_expr(tokens, next_pos + 1) {
            Ok(x) => x,
            Err(e) => return Err(e),
        };
        and_node.children.push(rhs);
        proof {
            assert(and_node.children@[0] == lhs);
        }
        Ok((and_node, i))
    } else {
        Ok((lhs, next_pos))
    }
}

fn parse_and_operand(tokens: &Vec<LexItem>, pos: usize) -> (res: Result<(ParseNode, usize), String>)
    ensures
        outcome_view(res) == parse_and_s(toks_view(tokens@), pos as nat),
        outcome_wf(res),
    decreases tokens.len() - pos, 0nat,
{
    let ghost t = toks_view(tokens@);
    if pos >= tokens.len() {
        return Err(String::from_str("Unexpected end of input, expected paren or number"));
    }
    let c: &LexItem = &tokens[pos];
    proof {
        assert(t[pos as int] == tok_view(*c));
    }
    match c {
        LexItem::Op(ch) => {
            if *ch == '!' {
                let mut not_node = ParseNode::new(GrammarItem::Not);
                let (operand, next_pos) = match parse_expr(tokens, pos + 1) {
                    Ok(x) => x,
                    Err(e) => return Err(e),
                };
                not_node.children.push(operand);
                proof {
                    assert(not_node.children@[0] == operand);
                }
                Ok((not_node, next_pos))
            } else {
                Err(msg_unexpected_token_exec(c))
            }
        },
        LexItem::Flag(f) => {
            let node = ParseNode::new(GrammarItem::Flag(f.clone()));
            Ok((node, pos + 1))
        },
        LexItem::ParenOpen => {
            let (node, next_pos) = match parse_expr(tokens, pos + 1) {
                Ok(x) => x,
                Err(e) => return Err(e),
            };
            if next_pos < tokens.len() && is_paren_close(&tokens[next_pos]) {
                let mut paren = ParseNode::new(GrammarItem::Paren);
                paren.children.push(node);
                proof {
                    assert(paren.children@[0] == node);
                }
                Ok((paren, next_pos + 1))
            } else {
                Err(msg_closing_paren_exec(tokens, next_pos))
            }
        },
        LexItem::ParenClose => Err(msg_unexpected_token_exec(c)),
    }
}

fn is_op(t: &LexItem, op: char) -> (res: bool)
    ensures
        res == (tok_view(*t) == Tok::Op(op)),
{
    match t {
        LexItem::Op(c) => *c == op,
        _ => false,
    }
}

fn is_paren_close(t: &LexItem) -> (res: bool)
    ensures
        res == (tok_view(*t) == Tok::ParenClose),
{
    match t {
        LexItem::ParenClose => true,
        _ => false,
    }
}

// ----------------------------------------------------------------------
// Laws
// ----------------------------------------------------------------------

/// A check depends only on which flags are set: two lists that hold the
/// same flags, in any order and with any repetitions, give the same result.
pub proof fn lemma_eval_depends_on_flag_set(e: Expr, f1: Seq<Seq<char>>, f2: Seq<Seq<char>>)
    requires
        forall|f: Seq<char>| has_flag(f1, f) <==> has_flag(f2, f),
    ensures
        eval(e, f1) == eval(e, f2),
    decreases e,
{
    match e {
        Expr::And(a, b) => {
            lemma_eval_depends_on_flag_set(*a, f1, f2);
            lemma_eval_depends_on_flag_set(*b, f1, f2);
        },
        Expr::Or(a, b) => {
            lemma_eval_depends_on_flag_set(*a, f1, f2);
            lemma_eval_depends_on_flag_set(*b, f1, f2);
        },
        Expr::Not(a) => {
            lemma_eval_depends_on_flag_set(*a, f1, f2);
        },
        Expr::Paren(a) => {
            lemma_eval_depends_on_flag_set(*a, f1, f2);
        },
        Expr::Flag(f) => {},
    }
}

} // verus!
