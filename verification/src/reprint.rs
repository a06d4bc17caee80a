//! Printing a flag check and reading it back. `pretty_print` writes both
//! binary operators as `&`, so the round trip holds for checks written
//! without `|`: reading the printed text gives the same check.
use vstd::prelude::*;
use crate::flagcheck::{
    Expr, Tok, alphanumeric, alnum_run, flag_len, is_flag_start, lex_spec, lemma_alnum_run_bound, lemma_parse_advances,
    parse_and_s, parse_expr_s, parse_input, parse_or_s, prepend_toks, render,
};

verus! {

/// A flag as the lexer reads it: a letter or digit, then alphanumeric
/// characters.
pub open spec fn valid_flag(f: Seq<char>) -> bool {
    &&& f.len() > 0
    &&& is_flag_start(f[0])
    &&& forall|i: int| 1 <= i < f.len() ==> alphanumeric(#[trigger] f[i])
}

/// A flag or a parenthesis: an operand that ends where its text ends.
pub open spec fn closed(e: Expr) -> bool {
    e is Flag || e is Paren
}

/// The shapes of expressions that the parser gives for text without `|`:
/// no `Or`, valid flags, and the left side of an `And` a flag or a
/// parenthesis (a `!` takes everything after it).
pub open spec fn printable(e: Expr) -> bool
    decreases e,
{
    match e {
        Expr::Flag(f) => valid_flag(f),
        Expr::Paren(a) => printable(*a),
        Expr::Not(a) => printable(*a),
        Expr::And(a, b) => closed(*a) && printable(*a) && printable(*b),
        Expr::Or(_, _) => false,
    }
}

/// The tokens of the printed text of an expression.
pub open spec fn toks(e: Expr) -> Seq<Tok>
    decreases e,
{
    match e {
        Expr::Flag(f) => seq![Tok::Flag(f)],
        Expr::Paren(a) => seq![Tok::ParenOpen] + toks(*a) + seq![Tok::ParenClose],
        Expr::Not(a) => seq![Tok::Op('!')] + toks(*a),
        Expr::And(a, b) => toks(*a) + seq![Tok::Op('&')] + toks(*b),
        Expr::Or(a, b) => toks(*a) + seq![Tok::Op('|')] + toks(*b),
    }
}

/// The text starts with no alphanumeric character (or is empty).
spec fn clean_start(y: Seq<char>) -> bool {
    y.len() == 0 || !alphanumeric(y[0])
}

/// A run of alphanumeric characters ends where a character that is not one
/// follows.
proof fn lemma_alnum_run_concat(x: Seq<char>, y: Seq<char>)
    requires
        forall|i: int| 0 <= i < x.len() ==> alphanumeric(#[trigger] x[i]),
        clean_start(y),
    ensures
        alnum_run(x + y) == x.len(),
    decreases x.len(),
{
    if x.len() == 0 {
        assert(x + y =~= y);
    } else {
        assert((x + y).drop_first() =~= x.drop_first() + y);
        assert forall|i: int| 0 <= i < x.drop_first().len() implies alphanumeric(#[trigger] x.drop_first()[i]) by {
            assert(x.drop_first()[i] == x[i + 1]);
        }
        assert(alphanumeric(x[0]));
        lemma_alnum_run_concat(x.drop_first(), y);
    }
}

/// The printed text of a printable expression, followed by text that does
/// not go on with a flag character, lexes to its tokens and then the rest.
proof fn lemma_lex_render(e: Expr, y: Seq<char>)
    requires
        printable(e),
        clean_start(y),
    ensures
        lex_spec(render(e) + y) == prepend_toks(toks(e), lex_spec(y)),
    decreases e,
{
    match e {
        Expr::Flag(f) => {
            let s = f + y;
            assert(s[0] == f[0]);
            assert(f.drop_first() + y =~= s.drop_first());
            assert forall|i: int| 0 <= i < f.drop_first().len() implies alphanumeric(#[trigger] f.drop_first()[i]) by {
                assert(f.drop_first()[i] == f[i + 1]);
            }
            lemma_alnum_run_concat(f.drop_first(), y);
            assert(flag_len(s) == f.len());
            assert(s.take(f.len() as int) =~= f);
            assert(s.skip(f.len() as int) =~= y);
        },
        Expr::Paren(a) => {
            let ra = render(*a);
            let s = seq!['('] + ra + seq![')'] + y;
            assert(render(e) + y =~= s);
            assert(s.drop_first() =~= ra + (seq![')'] + y));
            assert(!alphanumeric(')'));
            lemma_lex_render(*a, seq![')'] + y);
            assert((seq![')'] + y).drop_first() =~= y);
            assert(lex_spec(seq![')'] + y) == prepend_toks(seq![Tok::ParenClose], lex_spec(y)));
            lemma_prepend_assoc3(seq![Tok::ParenOpen], toks(*a), seq![Tok::ParenClose], lex_spec(y));
        },
        Expr::Not(a) => {
            let ra = render(*a);
            let s = seq!['!'] + ra + y;
            assert(render(e) + y =~= s);
            assert(s.drop_first() =~= ra + y);
            lemma_lex_render(*a, y);
            lemma_prepend_assoc2(seq![Tok::Op('!')], toks(*a), lex_spec(y));
        },
        Expr::And(a, b) => {
            let ra = render(*a);
            let rb = render(*b);
            let rest = seq![' ', '&', ' '] + rb + y;
            assert(render(e) + y =~= ra + rest);
            assert(!alphanumeric(' '));
            lemma_lex_render(*a, rest);
            assert(rest.drop_first() =~= seq!['&', ' '] + rb + y);
            assert((seq!['&', ' '] + rb + y).drop_first() =~= seq![' '] + rb + y);
            assert((seq![' '] + rb + y).drop_first() =~= rb + y);
            lemma_lex_render(*b, y);
            let r1 = seq!['&', ' '] + rb + y;
            let r2 = seq![' '] + rb + y;
            assert(rest[0] == ' ');
            assert(rest.drop_first() =~= r1);
            assert(lex_spec(rest) == lex_spec(r1));
            assert(r1[0] == '&');
            assert(r1.drop_first() =~= r2);
            assert(lex_spec(r1) == prepend_toks(seq![Tok::Op('&')], lex_spec(r2)));
            assert(r2[0] == ' ');
            assert(r2.drop_first() =~= rb + y);
            assert(lex_spec(r2) == lex_spec(rb + y));
            lemma_prepend_assoc3(toks(*a), seq![Tok::Op('&')], toks(*b), lex_spec(y));
        },
        Expr::Or(_, _) => {},
    }
}

proof fn lemma_prepend_assoc2(p: Seq<Tok>, q: Seq<Tok>, r: Result<Seq<Tok>, char>)
    ensures
        prepend_toks(p, prepend_toks(q, r)) == prepend_toks(p + q, r),
{
    if let Ok(t) = r {
        assert(p + (q + t) =~= (p + q) + t);
    }
}

proof fn lemma_prepend_assoc3(p: Seq<Tok>, q: Seq<Tok>, u: Seq<Tok>, r: Result<Seq<Tok>, char>)
    ensures
        prepend_toks(p, prepend_toks(q, prepend_toks(u, r))) == prepend_toks(p + q + u, r),
{
    if let Ok(t) = r {
        assert(p + (q + (u + t)) =~= (p + q + u) + t);
    }
}

/// The token at `q`, if any, does not continue an expression.
spec fn ends_clean(t: Seq<Tok>, q: int) -> bool {
    q >= t.len() || (t[q] != Tok::Op('&') && t[q] != Tok::Op('|'))
}

/// The tokens of a printable expression, found at position `p` and followed
/// by a token that does not continue it, parse back to it.
proof fn lemma_parse_toks(e: Expr, t: Seq<Tok>, p: int)
    requires
        printable(e),
        0 <= p,
        p + toks(e).len() <= t.len(),
        t.subrange(p, p + toks(e).len()) == toks(e),
    ensures
        closed(e) ==> parse_and_s(t, p as nat) == Ok::<(Expr, nat), Seq<char>>((e, (p + toks(e).len()) as nat)),
        ends_clean(t, p + toks(e).len()) ==> parse_expr_s(t, p as nat) == Ok::<(Expr, nat), Seq<char>>((e, (p + toks(e).len()) as nat)),
    decreases e,
{
    let q = p + toks(e).len();
    let tt = toks(e);
    assert(forall|i: int| 0 <= i < tt.len() ==> #[trigger] t[p + i] == tt[i]) by {
        assert forall|i: int| 0 <= i < tt.len() implies #[trigger] t[p + i] == tt[i] by {
            assert(t.subrange(p, q)[i] == t[p + i]);
        }
    }
    match e {
        Expr::Flag(f) => {
            assert(tt[0] == Tok::Flag(f));
            assert(t[p] == tt[0]);
            assert(parse_and_s(t, p as nat) == Ok::<(Expr, nat), Seq<char>>((e, (p + 1) as nat)));
            if ends_clean(t, q) {
                assert(parse_or_s(t, p as nat) == Ok::<(Expr, nat), Seq<char>>((e, (p + 1) as nat)));
            }
        },
        Expr::Paren(a) => {
            let ta = toks(*a);
            assert(t[p] == tt[0]);
            assert(t.subrange(p + 1, p + 1 + ta.len()) =~= ta) by {
                assert forall|i: int| 0 <= i < ta.len() implies #[trigger] t.subrange(p + 1, p + 1 + ta.len())[i] == ta[i] by {
                    assert(tt[1 + i] == ta[i]);
                    assert(t[p + (1 + i)] == tt[1 + i]);
                }
            }
            assert(t[q - 1] == tt[tt.len() - 1]);
            lemma_parse_toks(*a, t, p + 1);
        },
        Expr::Not(a) => {
            let ta = toks(*a);
            assert(t[p] == tt[0]);
            assert(t.subrange(p + 1, p + 1 + ta.len()) =~= ta) by {
                assert forall|i: int| 0 <= i < ta.len() implies #[trigger] t.subrange(p + 1, p + 1 + ta.len())[i] == ta[i] by {
                    assert(tt[1 + i] == ta[i]);
                    assert(t[p + (1 + i)] == tt[1 + i]);
                }
            }
            lemma_parse_toks(*a, t, p + 1);
        },
        Expr::And(a, b) => {
            let ta = toks(*a);
            let tb = toks(*b);
            let m = p + ta.len();
            assert(t.subrange(p, m) =~= ta) by {
                assert forall|i: int| 0 <= i < ta.len() implies #[trigger] t.subrange(p, m)[i] == ta[i] by {
                    assert(tt[i] == ta[i]);
                    assert(t[p + i] == tt[i]);
                }
            }
            assert(t[m] == tt[ta.len() as int]);
            assert(t.subrange(m + 1, m + 1 + tb.len()) =~= tb) by {
                assert forall|i: int| 0 <= i < tb.len() implies #[trigger] t.subrange(m + 1, m + 1 + tb.len())[i] == tb[i] by {
                    assert(tt[ta.len() + 1 + i] == tb[i]);
                    assert(t[p + (ta.len() + 1 + i)] == tt[ta.len() + 1 + i]);
                }
            }
            lemma_parse_toks(*a, t, p);
            lemma_parse_toks(*b, t, m + 1);
        },
        Expr::Or(_, _) => {},
    }
}

/// The printed text of a printable expression reads back as it.
pub proof fn lemma_render_parses(e: Expr)
    requires
        printable(e),
    ensures
        parse_input(render(e)) == Ok::<Expr, Seq<char>>(e),
{
    let y = Seq::<char>::empty();
    lemma_lex_render(e, y);
    assert(render(e) + y =~= render(e));
    let t = toks(e);
    assert(lex_spec(render(e)) == Ok::<Seq<Tok>, char>(t)) by {
        assert(t + Seq::<Tok>::empty() =~= t);
    }
    assert(t.subrange(0, t.len() as int) =~= t);
    lemma_parse_toks(e, t, 0);
}

/// A token that text without `|` can lex to.
spec fn tok_ok(k: Tok) -> bool {
    &&& k != Tok::Op('|')
    &&& (k matches Tok::Flag(f) ==> valid_flag(f))
}

spec fn tokens_ok(t: Seq<Tok>) -> bool {
    forall|i: int| 0 <= i < t.len() ==> tok_ok(#[trigger] t[i])
}

/// The characters of a run of alphanumeric characters are alphanumeric.
proof fn lemma_alnum_run_chars(x: Seq<char>, i: int)
    requires
        0 <= i < alnum_run(x),
    ensures
        alphanumeric(x[i]),
    decreases x.len(),
{
    lemma_alnum_run_bound(x);
    if i > 0 {
        lemma_alnum_run_chars(x.drop_first(), i - 1);
        assert(x.drop_first()[i - 1] == x[i]);
    }
}

/// Text without `|` lexes to tokens without `|` and with valid flags.
proof fn lemma_lex_ok(s: Seq<char>)
    requires
        forall|i: int| 0 <= i < s.len() ==> s[i] != '|',
    ensures
        lex_spec(s) matches Ok(t) ==> tokens_ok(t),
    decreases s.len(),
{
    if s.len() > 0 {
        let c = s[0];
        if is_flag_start(c) {
            lemma_alnum_run_bound(s.drop_first());
            let n = flag_len(s);
            let f = s.take(n as int);
            let r = s.skip(n as int);
            assert forall|i: int| 0 <= i < r.len() implies r[i] != '|' by {
                assert(r[i] == s[n + i]);
            }
            lemma_lex_ok(r);
            assert forall|i: int| 1 <= i < f.len() implies alphanumeric(#[trigger] f[i]) by {
                lemma_alnum_run_chars(s.drop_first(), i - 1);
                assert(s.drop_first()[i - 1] == s[i]);
            }
            assert(valid_flag(f));
            if let Ok(t) = lex_spec(s) {
                let rt = lex_spec(r)->Ok_0;
                assert(t == seq![Tok::Flag(f)] + rt);
                assert forall|i: int| 0 <= i < t.len() implies tok_ok(#[trigger] t[i]) by {
                    if i > 0 {
                        assert(t[i] == rt[i - 1]);
                    }
                }
            }
        } else {
            let r = s.drop_first();
            assert forall|i: int| 0 <= i < r.len() implies r[i] != '|' by {
                assert(r[i] == s[i + 1]);
            }
            lemma_lex_ok(r);
            if let Ok(t) = lex_spec(s) {
                let rt = lex_spec(r)->Ok_0;
                assert forall|i: int| 0 <= i < t.len() implies tok_ok(#[trigger] t[i]) by {
                    if c != ' ' && i > 0 {
                        assert(t[i] == rt[i - 1]);
                    }
                }
            }
        }
    }
}

/// From tokens without `|` and with valid flags, the parser gives printable
/// expressions, and an expression ends before a token that would continue
/// it, except a flag or parenthesis operand.
proof fn lemma_parsed_printable(t: Seq<Tok>, p: nat)
    requires
        tokens_ok(t),
    ensures
        parse_expr_s(t, p) matches Ok((e, np)) ==> printable(e) && ends_clean(t, np as int),
        parse_or_s(t, p) matches Ok((e, np)) ==> printable(e) && ends_clean(t, np as int),
        parse_and_s(t, p) matches Ok((e, np)) ==> printable(e) && !(e is And) && (!closed(e) ==> ends_clean(t, np as int)),
    decreases t.len() - p,
{
    if p < t.len() {
        lemma_parse_advances(t, p);
        lemma_parsed_printable(t, p + 1);
        assert(tok_ok(t[p as int]));
        if let Ok((lhs, np)) = parse_and_s(t, p) {
            assert(printable(lhs) && !(lhs is And) && (!closed(lhs) ==> ends_clean(t, np as int)));
            if np < t.len() {
                assert(tok_ok(t[np as int]));
                lemma_parsed_printable(t, np + 1);
                if t[np as int] == Tok::Op('&') {
                    assert(closed(lhs));
                    if let Ok((rhs, i)) = parse_expr_s(t, np + 1) {
                        let e = Expr::And(Box::new(lhs), Box::new(rhs));
                        assert(printable(e));
                        assert(parse_or_s(t, p) == Ok::<(Expr, nat), Seq<char>>((e, i)));
                    }
                } else {
                    assert(parse_or_s(t, p) == Ok::<(Expr, nat), Seq<char>>((lhs, np)));
                }
            } else {
                assert(parse_or_s(t, p) == Ok::<(Expr, nat), Seq<char>>((lhs, np)));
            }
        }
        if let Ok((e, np)) = parse_or_s(t, p) {
            assert(printable(e) && ends_clean(t, np as int));
            assert(parse_expr_s(t, p) == Ok::<(Expr, nat), Seq<char>>((e, np)));
        }
    } else {
        assert(parse_and_s(t, p) is Err);
        assert(parse_or_s(t, p) is Err);
        assert(parse_expr_s(t, p) is Err);
    }
}

/// Printing a check written without `|` and reading the text back gives the
/// same check.
pub proof fn lemma_print_round_trip(s: Seq<char>)
    requires
        forall|i: int| 0 <= i < s.len() ==> s[i] != '|',
    ensures
        parse_input(s) matches Ok(e) ==> printable(e) && parse_input(render(e)) == Ok::<Expr, Seq<char>>(e),
{
    lemma_lex_ok(s);
    if let Ok(t) = lex_spec(s) {
        lemma_parsed_printable(t, 0);
        if let Ok(e) = parse_input(s) {
            lemma_render_parses(e);
        }
    }
}

} // verus!
