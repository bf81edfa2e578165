//! Writing tokens, values and bound parameters back as argument text, and
//! the proofs that reading that text gives them back.

use vstd::prelude::*;

use crate::lexer::{
    append, buf_token, emit, enter, false_word, flush, initial_model, lemma_lex_tokens_wf,
    lex_tokens, run, step, token_wf, tokens_wf, true_word, LexModel, LexerState, TokenView,
};
use crate::number::{
    eq_ignore_case, is_digit, is_float_literal, is_mantissa, is_sign,
    lemma_classified_is_float_literal, number_lexeme,
};
use crate::binder::{bind_pairs, bind_step, is_ascii_alpha, is_parameter_name_spec, BindOutcome};
use crate::restapiv1::{bind_from, has_key, insert_entry, keys_unique};
use crate::parser::{
    argument_at, array_at, element_at, parse_text, scalar_at, sequence_at, sequence_rest,
    value_wf, values_wf, Value,
};

verus! {

pub open spec fn escape_char(c: char) -> Seq<char> {
    if c == '"' || c == '`' {
        seq!['`', c]
    } else {
        seq![c]
    }
}

/// The text with a backtick before each `"` and each backtick.
pub open spec fn escape(x: Seq<char>) -> Seq<char>
    decreases x.len(),
{
    if x.len() == 0 {
        Seq::empty()
    } else {
        escape_char(x[0]) + escape(x.skip(1))
    }
}

/// The text in double quotes, escaped.
pub open spec fn quote(x: Seq<char>) -> Seq<char> {
    seq!['"'] + escape(x) + seq!['"']
}

/// The text of one token: scalars in double quotes, brackets and commas as
/// themselves.
pub open spec fn token_text(t: TokenView) -> Seq<char> {
    match t {
        TokenView::String(x) => quote(x),
        TokenView::Number(l) => quote(l),
        TokenView::Bool(b) => quote(if b { true_word() } else { false_word() }),
        TokenView::Comma => seq![','],
        TokenView::ArrayBegin => seq!['['],
        TokenView::ArrayEnd => seq![']'],
        TokenView::ArrayOpBegin => seq!['@', '('],
        TokenView::ArrayOpEnd => seq![')'],
    }
}

/// The tokens written one after another.
pub open spec fn tokens_text(ts: Seq<TokenView>) -> Seq<char>
    decreases ts.len(),
{
    if ts.len() == 0 {
        Seq::empty()
    } else {
        token_text(ts[0]) + tokens_text(ts.skip(1))
    }
}

/// The lexer between tokens: in the control state, nothing pending.
pub open spec fn is_clean(m: LexModel) -> bool {
    m.state == LexerState::Control && !m.escaping && m.buf.len() == 0
}

pub proof fn lemma_run_concat(m: LexModel, a: Seq<char>, b: Seq<char>)
    ensures
        run(m, a + b) == run(run(m, a), b),
    decreases a.len(),
{
    if a.len() == 0 {
        assert(a + b =~= b);
    } else {
        assert((a + b)[0] == a[0]);
        assert((a + b).skip(1) =~= a.skip(1) + b);
        lemma_run_concat(step(m, a[0]), a.skip(1), b);
    }
}

proof fn lemma_run_one(m: LexModel, c: char)
    ensures
        run(m, seq![c]) == step(m, c),
{
    assert(seq![c].skip(1) =~= Seq::<char>::empty());
    assert(run(step(m, c), Seq::<char>::empty()) == step(m, c));
}

proof fn lemma_run_two(m: LexModel, c: char, d: char)
    ensures
        run(m, seq![c, d]) == step(step(m, c), d),
{
    assert(seq![c, d].skip(1) =~= seq![d]);
    lemma_run_one(step(m, c), d);
}

/// Inside double quotes, escaped text is read back as itself.
proof fn lemma_run_escape(m: LexModel, x: Seq<char>)
    requires
        m.state == LexerState::DoubleQuote,
        !m.escaping,
    ensures
        run(m, escape(x)) == (LexModel { buf: m.buf + x, ..m }),
    decreases x.len(),
{
    if x.len() == 0 {
        assert(m.buf + x =~= m.buf);
    } else {
        let c = x[0];
        lemma_run_concat(m, escape_char(c), escape(x.skip(1)));
        if c == '"' || c == '`' {
            lemma_run_two(m, '`', c);
        } else {
            lemma_run_one(m, c);
        }
        let m2 = LexModel { buf: m.buf.push(c), ..m };
        lemma_run_escape(m2, x.skip(1));
        assert(m.buf.push(c) + x.skip(1) =~= m.buf + x);
    }
}

proof fn lemma_run_quote(m: LexModel, x: Seq<char>)
    requires
        is_clean(m),
        x.len() > 0,
    ensures
        run(m, quote(x)) == (LexModel { tokens: m.tokens.push(buf_token(x)), ..m }),
{
    let m1 = enter(m, LexerState::DoubleQuote);
    lemma_run_concat(m, seq!['"'] + escape(x), seq!['"']);
    lemma_run_concat(m, seq!['"'], escape(x));
    lemma_run_one(m, '"');
    lemma_run_escape(m1, x);
    let m2 = LexModel { buf: m1.buf + x, ..m1 };
    assert(m1.buf + x =~= x);
    lemma_run_one(m2, '"');
    assert(flush(m2).buf =~= m.buf);
}

proof fn lemma_not_mantissa(t: Seq<char>)
    requires
        t.len() > 0 ==> !is_digit(t[0]) && t[0] != '.',
    ensures
        !is_mantissa(t),
{
    if t.len() > 0 {
        if exists|k: int|
            0 <= k < t.len() && #[trigger] t[k] == '.' && t.len() >= 2 && crate::number::all_digits(
                t.take(k),
            ) && crate::number::all_digits(t.skip(k + 1)) {
            let k = choose|k: int|
                0 <= k < t.len() && #[trigger] t[k] == '.' && t.len() >= 2
                    && crate::number::all_digits(t.take(k)) && crate::number::all_digits(
                    t.skip(k + 1),
                );
            if k > 0 {
                assert(t.take(k)[0] == t[0]);
            }
        }
    }
}

/// Text that starts with a character that no float literal starts with is no
/// float literal.
proof fn lemma_not_float(s: Seq<char>)
    requires
        s.len() > 0,
        !is_digit(s[0]),
        s[0] != '.',
        !is_sign(s[0]),
        !eq_ignore_case(s[0], 'i'),
        !eq_ignore_case(s[0], 'n'),
    ensures
        !is_float_literal(s),
{
    lemma_not_mantissa(s);
    assert forall|k: int| 0 <= k < s.len() implies !is_mantissa(#[trigger] s.take(k)) by {
        if k > 0 {
            assert(s.take(k)[0] == s[0]);
        }
        lemma_not_mantissa(s.take(k));
    }
    assert(seq!['i', 'n', 'f'][0] == 'i');
    assert(seq!['i', 'n', 'f', 'i', 'n', 'i', 't', 'y'][0] == 'i');
    assert(seq!['n', 'a', 'n'][0] == 'n');
}

proof fn lemma_words_are_booleans()
    ensures
        buf_token(true_word()) == TokenView::Bool(true),
        buf_token(false_word()) == TokenView::Bool(false),
{
    assert(('$' as u32) == 36 && ('i' as u32) == 105 && ('n' as u32) == 110);
    assert(true_word()[0] == '$');
    assert(false_word()[0] == '$');
    lemma_not_float(true_word());
    lemma_not_float(false_word());
    assert(true_word() != false_word()) by {
        assert(true_word().len() != false_word().len());
    }
}

proof fn lemma_float_literal_nonempty(l: Seq<char>)
    requires
        is_float_literal(l),
    ensures
        l.len() > 0,
{
    if l.len() == 0 {
        lemma_not_mantissa(l);
        assert(crate::number::unsigned_part(l) =~= l);
    }
}

/// From a clean state, a well-formed token's text is read back as that token.
proof fn lemma_run_token(m: LexModel, t: TokenView)
    requires
        is_clean(m),
        token_wf(t),
    ensures
        run(m, token_text(t)) == (LexModel { tokens: m.tokens.push(t), ..m }),
{
    match t {
        TokenView::String(x) => {
            lemma_run_quote(m, x);
        },
        TokenView::Number(l) => {
            lemma_float_literal_nonempty(l);
            lemma_run_quote(m, l);
        },
        TokenView::Bool(b) => {
            lemma_words_are_booleans();
            lemma_run_quote(m, if b { true_word() } else { false_word() });
        },
        TokenView::ArrayOpBegin => {
            lemma_run_two(m, '@', '(');
        },
        _ => {
            lemma_run_one(m, token_text(t)[0]);
            assert(seq![token_text(t)[0]] =~= token_text(t));
        },
    }
}

proof fn lemma_run_tokens(m: LexModel, ts: Seq<TokenView>)
    requires
        is_clean(m),
        tokens_wf(ts),
    ensures
        run(m, tokens_text(ts)) == (LexModel { tokens: m.tokens + ts, ..m }),
    decreases ts.len(),
{
    if ts.len() == 0 {
        assert(m.tokens + ts =~= m.tokens);
    } else {
        lemma_run_concat(m, token_text(ts[0]), tokens_text(ts.skip(1)));
        lemma_run_token(m, ts[0]);
        let m1 = LexModel { tokens: m.tokens.push(ts[0]), ..m };
        assert(tokens_wf(ts.skip(1))) by {
            assert forall|i: int| 0 <= i < ts.skip(1).len() implies token_wf(#[trigger] ts.skip(1)[i]) by {
                assert(ts.skip(1)[i] == ts[i + 1]);
            }
        }
        lemma_run_tokens(m1, ts.skip(1));
        assert(m.tokens.push(ts[0]) + ts.skip(1) =~= m.tokens + ts);
    }
}

/// Well-formed tokens, written out, are lexed back as themselves.
pub proof fn lemma_relex_tokens(ts: Seq<TokenView>)
    requires
        tokens_wf(ts),
    ensures
        lex_tokens(tokens_text(ts)) == ts,
{
    lemma_run_tokens(initial_model(), ts);
    assert(Seq::<TokenView>::empty() + ts =~= ts);
}

/// The tokens written out with one space between each two.
pub open spec fn tokens_text_spaced(ts: Seq<TokenView>) -> Seq<char>
    decreases ts.len(),
{
    if ts.len() == 0 {
        Seq::empty()
    } else if ts.len() == 1 {
        token_text(ts[0])
    } else {
        token_text(ts[0]) + seq![' '] + tokens_text_spaced(ts.skip(1))
    }
}

proof fn lemma_run_tokens_spaced(m: LexModel, ts: Seq<TokenView>)
    requires
        is_clean(m),
        tokens_wf(ts),
    ensures
        run(m, tokens_text_spaced(ts)) == (LexModel { tokens: m.tokens + ts, ..m }),
    decreases ts.len(),
{
    if ts.len() == 0 {
        assert(m.tokens + ts =~= m.tokens);
    } else {
        lemma_run_token(m, ts[0]);
        let m1 = LexModel { tokens: m.tokens.push(ts[0]), ..m };
        if ts.len() == 1 {
            assert(m.tokens.push(ts[0]) =~= m.tokens + ts);
        } else {
            lemma_run_concat(m, token_text(ts[0]) + seq![' '], tokens_text_spaced(ts.skip(1)));
            lemma_run_concat(m, token_text(ts[0]), seq![' ']);
            lemma_run_one(m1, ' ');
            assert(tokens_wf(ts.skip(1))) by {
                assert forall|i: int| 0 <= i < ts.skip(1).len() implies token_wf(#[trigger] ts.skip(1)[i]) by {
                    assert(ts.skip(1)[i] == ts[i + 1]);
                }
            }
            lemma_run_tokens_spaced(m1, ts.skip(1));
            assert(m.tokens.push(ts[0]) + ts.skip(1) =~= m.tokens + ts);
        }
    }
}

/// Lexing, writing the tokens out with faithful quoting and one space
/// between each two, and lexing again gives the same tokens.
pub proof fn lemma_lex_round_trip_spaced(s: Seq<char>)
    ensures
        lex_tokens(tokens_text_spaced(lex_tokens(s))) == lex_tokens(s),
{
    lemma_lex_tokens_wf(s);
    lemma_run_tokens_spaced(initial_model(), lex_tokens(s));
    assert(Seq::<TokenView>::empty() + lex_tokens(s) =~= lex_tokens(s));
}

/// Lexing, writing the tokens out with faithful quoting, and lexing again
/// gives the same tokens.
pub proof fn lemma_lex_round_trip(s: Seq<char>)
    ensures
        lex_tokens(tokens_text(lex_tokens(s))) == lex_tokens(s),
{
    lemma_lex_tokens_wf(s);
    lemma_relex_tokens(lex_tokens(s));
}

/// The tokens that a value is written as; array items are separated by
/// commas inside brackets.
pub open spec fn value_tokens(v: Value) -> Seq<TokenView>
    decreases v,
{
    match v {
        Value::String(s) => seq![TokenView::String(s)],
        Value::Number(n) => seq![TokenView::Number(number_lexeme(n))],
        Value::Bool(b) => seq![TokenView::Bool(b)],
        Value::Array(vs) => if vs.len() == 0 {
            seq![TokenView::ArrayBegin, TokenView::ArrayEnd]
        } else {
            seq![TokenView::ArrayBegin] + value_tokens(vs[0]) + items_tail(vs.subrange(1, vs.len() as int))
                + seq![TokenView::ArrayEnd]
        },
    }
}

/// The tokens of array items after the first, each after a comma.
pub open spec fn items_tail(ws: Seq<Value>) -> Seq<TokenView>
    decreases ws,
{
    if ws.len() == 0 {
        Seq::empty()
    } else {
        seq![TokenView::Comma] + value_tokens(ws[0]) + items_tail(ws.subrange(1, ws.len() as int))
    }
}

/// The argument text of a value.
pub open spec fn value_text(v: Value) -> Seq<char> {
    tokens_text(value_tokens(v))
}

/// `ts` stands in `toks` from `p` on.
pub open spec fn tokens_at(toks: Seq<TokenView>, p: int, ts: Seq<TokenView>) -> bool {
    0 <= p && p + ts.len() <= toks.len() && forall|i: int| 0 <= i < ts.len() ==> toks[p + i] == #[trigger] ts[i]
}

proof fn lemma_values_tail_wf(vs: Seq<Value>)
    requires
        values_wf(vs),
        vs.len() > 0,
    ensures
        values_wf(vs.subrange(1, vs.len() as int)),
        value_wf(vs[0]),
{
    assert forall|i: int| 0 <= i < vs.len() - 1 implies value_wf(#[trigger] vs.subrange(1, vs.len() as int)[i]) by {
        assert(vs.subrange(1, vs.len() as int)[i] == vs[i + 1]);
    }
}

/// A value's tokens, wherever they stand, parse as an element giving the value.
proof fn lemma_element_parses(toks: Seq<TokenView>, p: nat, v: Value)
    requires
        value_wf(v),
        tokens_at(toks, p as int, value_tokens(v)),
    ensures
        element_at(toks, p) == Some((v, value_tokens(v).len())),
    decreases v,
{
    let vt = value_tokens(v);
    assert(toks[p as int] == vt[0]);
    match v {
        Value::Array(vs) => {
            assert(values_wf(vs));
            if vs.len() == 0 {
                assert(toks[p + 1int] == vt[1]);
                assert(vs =~= Seq::<Value>::empty());
            } else {
                let first = value_tokens(vs[0]);
                let tail = items_tail(vs.subrange(1, vs.len() as int));
                lemma_values_tail_wf(vs);
                assert(tokens_at(toks, p + 1int, first)) by {
                    assert forall|i: int| 0 <= i < first.len() implies toks[p + 1 + i] == #[trigger] first[i] by {
                        assert(vt[1 + i] == first[i]);
                    }
                }
                lemma_element_parses(toks, p + 1, vs[0]);
                let q = p + 1 + first.len();
                assert(tokens_at(toks, q as int, tail)) by {
                    assert forall|i: int| 0 <= i < tail.len() implies toks[q + i] == #[trigger] tail[i] by {
                        assert(vt[1 + first.len() + i] == tail[i]);
                    }
                }
                assert(toks[(q + tail.len()) as int] == vt[(1 + first.len() + tail.len()) as int]);
                lemma_tail_parses(toks, q, vs.subrange(1, vs.len() as int), seq![vs[0]]);
                assert(seq![vs[0]] + vs.subrange(1, vs.len() as int) =~= vs);
            }
        },
        _ => {},
    }
}

/// The tokens of the items after the first parse as the rest of a sequence,
/// when no comma follows them.
proof fn lemma_tail_parses(toks: Seq<TokenView>, q: nat, ws: Seq<Value>, acc: Seq<Value>)
    requires
        values_wf(ws),
        tokens_at(toks, q as int, items_tail(ws)),
        q + items_tail(ws).len() == toks.len() || !(toks[(q + items_tail(ws).len()) as int] is Comma),
    ensures
        sequence_rest(toks, q, acc) == (acc + ws, items_tail(ws).len()),
    decreases ws,
{
    let tt = items_tail(ws);
    if ws.len() == 0 {
        assert(acc + ws =~= acc);
    } else {
        assert(toks[q as int] == tt[0]);
        let first = value_tokens(ws[0]);
        let rest = ws.subrange(1, ws.len() as int);
        let rt = items_tail(rest);
        lemma_values_tail_wf(ws);
        assert(tokens_at(toks, q + 1int, first)) by {
            assert forall|i: int| 0 <= i < first.len() implies toks[q + 1 + i] == #[trigger] first[i] by {
                assert(tt[1 + i] == first[i]);
            }
        }
        lemma_element_parses(toks, q + 1, ws[0]);
        let q2 = q + 1 + first.len();
        assert(tokens_at(toks, q2 as int, rt)) by {
            assert forall|i: int| 0 <= i < rt.len() implies toks[q2 + i] == #[trigger] rt[i] by {
                assert(tt[1 + first.len() + i] == rt[i]);
            }
        }
        lemma_tail_parses(toks, q2, rest, acc.push(ws[0]));
        assert(acc.push(ws[0]) + rest =~= acc + ws);
    }
}

proof fn lemma_value_tokens_wf(v: Value)
    requires
        value_wf(v),
    ensures
        tokens_wf(value_tokens(v)),
    decreases v,
{
    match v {
        Value::Number(n) => {
            lemma_classified_is_float_literal(number_lexeme(n));
        },
        Value::Array(vs) => {
            if vs.len() > 0 {
                lemma_values_tail_wf(vs);
                lemma_value_tokens_wf(vs[0]);
                lemma_tail_tokens_wf(vs.subrange(1, vs.len() as int));
                let vt = value_tokens(v);
                let first = value_tokens(vs[0]);
                let tail = items_tail(vs.subrange(1, vs.len() as int));
                assert forall|i: int| 0 <= i < vt.len() implies token_wf(#[trigger] vt[i]) by {
                    if 1 <= i < 1 + first.len() {
                        assert(vt[i] == first[i - 1]);
                    } else if 1 + first.len() <= i < 1 + first.len() + tail.len() {
                        assert(vt[i] == tail[i - 1 - first.len()]);
                    }
                }
            }
        },
        _ => {},
    }
}

proof fn lemma_tail_tokens_wf(ws: Seq<Value>)
    requires
        values_wf(ws),
    ensures
        tokens_wf(items_tail(ws)),
    decreases ws,
{
    if ws.len() > 0 {
        lemma_values_tail_wf(ws);
        lemma_value_tokens_wf(ws[0]);
        lemma_tail_tokens_wf(ws.subrange(1, ws.len() as int));
        let tt = items_tail(ws);
        let first = value_tokens(ws[0]);
        let rest = items_tail(ws.subrange(1, ws.len() as int));
        assert forall|i: int| 0 <= i < tt.len() implies token_wf(#[trigger] tt[i]) by {
            if 1 <= i < 1 + first.len() {
                assert(tt[i] == first[i - 1]);
            } else if 1 + first.len() <= i {
                assert(tt[i] == rest[i - 1 - first.len()]);
            }
        }
    }
}

/// A well-formed value, written out, parses back as itself.
pub proof fn lemma_value_text_parses(v: Value)
    requires
        value_wf(v),
    ensures
        parse_text(value_text(v)) == Ok::<Value, crate::lexer::Error>(v),
{
    let vt = value_tokens(v);
    lemma_value_tokens_wf(v);
    lemma_relex_tokens(vt);
    assert(tokens_at(vt, 0, vt)) by {
        assert forall|i: int| 0 <= i < vt.len() implies vt[0 + i] == #[trigger] vt[i] by {
        }
    }
    lemma_element_parses(vt, 0, v);
    match v {
        Value::Array(_) => {},
        _ => {
            assert(vt.len() == 1);
        },
    }
}

/// A value's text starts with `"` or `[`.
pub proof fn lemma_value_text_start(v: Value)
    ensures
        value_text(v).len() > 0,
        value_text(v)[0] == '"' || value_text(v)[0] == '[',
{
    let vt = value_tokens(v);
    assert(vt.len() > 0);
    let t0 = token_text(vt[0]);
    assert(t0.len() > 0);
    assert(value_text(v) == t0 + tokens_text(vt.skip(1)));
    assert(value_text(v)[0] == t0[0]);
}

/// The argument list that gives each (name, value) pair as `-name` followed
/// by the value's text.
pub open spec fn parameter_args(ps: Seq<(Seq<char>, Value)>) -> Seq<Seq<char>>
    decreases ps.len(),
{
    if ps.len() == 0 {
        Seq::empty()
    } else {
        seq![seq!['-'] + ps[0].0, value_text(ps[0].1)] + parameter_args(ps.skip(1))
    }
}

/// Pairs that can be written as parameters: each name starts with an ASCII
/// letter, and each value is well formed.
pub open spec fn parameters_wf(ps: Seq<(Seq<char>, Value)>) -> bool {
    forall|i: int|
        0 <= i < ps.len() ==> (#[trigger] ps[i]).0.len() > 0 && is_ascii_alpha(ps[i].0[0])
            && value_wf(ps[i].1)
}

proof fn lemma_parameter_args_index(ps: Seq<(Seq<char>, Value)>, i: int)
    requires
        0 <= i < ps.len(),
    ensures
        parameter_args(ps).len() == 2 * ps.len(),
        parameter_args(ps)[2 * i] == seq!['-'] + ps[i].0,
        parameter_args(ps)[2 * i + 1] == value_text(ps[i].1),
    decreases ps.len(),
{
    if i > 0 {
        lemma_parameter_args_index(ps.skip(1), i - 1);
        assert(ps.skip(1)[i - 1] == ps[i]);
    } else if ps.len() > 1 {
        lemma_parameter_args_index(ps.skip(1), 0);
    } else {
        assert(ps.skip(1).len() == 0);
        assert(parameter_args(ps.skip(1)).len() == 0);
    }
}

proof fn lemma_bind_parameters_from(ps: Seq<(Seq<char>, Value)>, i: nat)
    requires
        i <= ps.len(),
        parameters_wf(ps),
        keys_unique(ps),
    ensures
        bind_from(parameter_args(ps), 2 * i, ps.take(i as int)) == Ok::<
            Seq<(Seq<char>, Value)>,
            (Option<Seq<char>>, crate::lexer::Error),
        >(ps),
    decreases ps.len() - i,
{
    let args = parameter_args(ps);
    if i == ps.len() {
        if ps.len() > 0 {
            lemma_parameter_args_index(ps, 0);
        } else {
            assert(args.len() == 0);
        }
        assert(ps.take(i as int) =~= ps);
    } else {
        lemma_parameter_args_index(ps, i as int);
        let (name, v) = ps[i as int];
        let flag = seq!['-'] + name;
        assert(flag[1] == name[0]);
        assert(is_parameter_name_spec(flag));
        lemma_value_text_start(v);
        lemma_value_text_parses(v);
        assert(!is_parameter_name_spec(args[2 * i + 1int]));
        assert(flag.skip(1) =~= name);
        assert(bind_step(args, 2 * i) == (BindOutcome::Pair(name, v), 2nat));
        assert(!has_key(ps.take(i as int), name)) by {
            if has_key(ps.take(i as int), name) {
                let j = choose|j: int| 0 <= j < ps.take(i as int).len() && (#[trigger] ps.take(i as int)[j]).0 == name;
                assert(ps[j].0 == ps[i as int].0);
            }
        }
        assert(insert_entry(ps.take(i as int), name, v) =~= ps.take(i + 1int));
        lemma_bind_parameters_from(ps, i + 1);
        assert(2 * i + 2 == 2 * (i + 1));
    }
}

/// Binding the argument list written from (name, value) pairs gives back the
/// same pairs, in the same order, when the names are distinct and start with
/// an ASCII letter and the values are well formed.
pub proof fn lemma_bind_round_trip(ps: Seq<(Seq<char>, Value)>)
    requires
        parameters_wf(ps),
        keys_unique(ps),
    ensures
        bind_from(parameter_args(ps), 0, Seq::empty()) == Ok::<
            Seq<(Seq<char>, Value)>,
            (Option<Seq<char>>, crate::lexer::Error),
        >(ps),
{
    lemma_bind_parameters_from(ps, 0);
    assert(ps.take(0) =~= Seq::<(Seq<char>, Value)>::empty());
}

/// The arguments that give a parameter: `-name`, then the value's text, or
/// nothing for a switch.
pub open spec fn written_parameter(name: Seq<char>, text: Option<Seq<char>>) -> Seq<Seq<char>> {
    match text {
        Some(t) => seq![seq!['-'] + name, t],
        None => seq![seq!['-'] + name],
    }
}

/// The argument list of parameters written one after another.
pub open spec fn written_args(ws: Seq<(Seq<char>, Option<Seq<char>>)>) -> Seq<Seq<char>>
    decreases ws.len(),
{
    if ws.len() == 0 {
        Seq::empty()
    } else {
        written_parameter(ws[0].0, ws[0].1) + written_args(ws.skip(1))
    }
}

/// Parameters written faithfully for the values `vs`: each name starts with
/// an ASCII letter; a text that follows it is no parameter name and parses
/// as the value; a switch, with no text, stands for `true`.
#[verifier::opaque]
pub open spec fn written_faithfully(ws: Seq<(Seq<char>, Option<Seq<char>>)>, vs: Seq<Value>) -> bool {
    &&& ws.len() == vs.len()
    &&& forall|i: int|
        0 <= i < ws.len() ==> {
            &&& (#[trigger] ws[i]).0.len() > 0
            &&& is_ascii_alpha(ws[i].0[0])
            &&& match ws[i].1 {
                Some(t) => parse_text(t) == Ok::<Value, crate::lexer::Error>(vs[i])
                    && !is_parameter_name_spec(t),
                None => vs[i] == Value::Bool(true),
            }
        }
}

/// The (name, value) pairs of written parameters.
pub open spec fn named_values(ws: Seq<(Seq<char>, Option<Seq<char>>)>, vs: Seq<Value>) -> Seq<
    (Seq<char>, Value),
> {
    Seq::new(ws.len(), |i: int| (ws[i].0, vs[i]))
}

proof fn lemma_step_written(
    args: Seq<Seq<char>>,
    pos: nat,
    name: Seq<char>,
    text: Option<Seq<char>>,
    v: Value,
)
    requires
        pos < args.len(),
        args[pos as int] == seq!['-'] + name,
        name.len() > 0,
        is_ascii_alpha(name[0]),
        match text {
            Some(t) => pos + 1 < args.len() && args[pos + 1int] == t && parse_text(t) == Ok::<
                Value,
                crate::lexer::Error,
            >(v) && !is_parameter_name_spec(t),
            None => v == Value::Bool(true) && (pos + 1 == args.len() || is_parameter_name_spec(
                args[pos + 1int],
            )),
        },
    ensures
        bind_step(args, pos) == (BindOutcome::Pair(name, v), if text is Some {
            2nat
        } else {
            1nat
        }),
{
    let flag = seq!['-'] + name;
    assert(flag[1] == name[0]);
    assert(flag.skip(1) =~= name);
}

proof fn lemma_written_at(ws: Seq<(Seq<char>, Option<Seq<char>>)>, vs: Seq<Value>, i: int)
    requires
        written_faithfully(ws, vs),
        0 <= i < ws.len(),
    ensures
        ws.len() == vs.len(),
        ws[i].0.len() > 0,
        is_ascii_alpha(ws[i].0[0]),
        match ws[i].1 {
            Some(t) => parse_text(t) == Ok::<Value, crate::lexer::Error>(vs[i])
                && !is_parameter_name_spec(t),
            None => vs[i] == Value::Bool(true),
        },
{
    reveal(written_faithfully);
}

proof fn lemma_written_tail(ws: Seq<(Seq<char>, Option<Seq<char>>)>, vs: Seq<Value>)
    requires
        written_faithfully(ws, vs),
        ws.len() > 0,
    ensures
        written_faithfully(ws.skip(1), vs.skip(1)),
{
    reveal(written_faithfully);
    let rest = ws.skip(1);
    let vrest = vs.skip(1);
    assert forall|i: int| 0 <= i < rest.len() implies {
        &&& (#[trigger] rest[i]).0.len() > 0
        &&& is_ascii_alpha(rest[i].0[0])
        &&& match rest[i].1 {
            Some(t) => parse_text(t) == Ok::<Value, crate::lexer::Error>(vrest[i])
                && !is_parameter_name_spec(t),
            None => vrest[i] == Value::Bool(true),
        }
    } by {
        assert(rest[i] == ws[i + 1]);
        assert(vrest[i] == vs[i + 1]);
    }
}

#[verifier::rlimit(60)]
proof fn lemma_bind_written_after(
    pre: Seq<Seq<char>>,
    ws: Seq<(Seq<char>, Option<Seq<char>>)>,
    vs: Seq<Value>,
)
    requires
        written_faithfully(ws, vs),
    ensures
        bind_pairs(pre + written_args(ws), pre.len()) == Ok::<
            Seq<(Seq<char>, Value)>,
            (Option<Seq<char>>, crate::lexer::Error),
        >(named_values(ws, vs)),
    decreases ws.len(),
{
    let args = pre + written_args(ws);
    let pos = pre.len();
    if ws.len() == 0 {
        assert(named_values(ws, vs) =~= Seq::<(Seq<char>, Value)>::empty());
    } else {
        lemma_written_at(ws, vs, 0);
        if ws.len() > 1 {
            lemma_written_at(ws, vs, 1);
        }
        let name = ws[0].0;
        let text = ws[0].1;
        let head = written_parameter(name, text);
        let rest = ws.skip(1);
        let vrest = vs.skip(1);
        lemma_written_tail(ws, vs);
        assert(written_args(ws) == head + written_args(rest));
        assert(args =~= (pre + head) + written_args(rest));
        lemma_bind_written_after(pre + head, rest, vrest);
        assert(args[pos as int] == head[0]);
        if text is Some {
            assert(args[pos + 1int] == head[1]);
        } else if rest.len() > 0 {
            assert(rest[0] == ws[1]);
            let f2 = seq!['-'] + rest[0].0;
            assert(written_args(rest) == written_parameter(rest[0].0, rest[0].1) + written_args(rest.skip(1)));
            assert(written_args(rest)[0] == f2);
            assert(args[pos + 1int] == f2);
            assert(f2[1] == rest[0].0[0]);
        } else {
            assert(written_args(rest).len() == 0);
        }
        lemma_step_written(args, pos, name, text, vs[0]);
        assert(named_values(ws, vs) =~= seq![(name, vs[0])] + named_values(rest, vrest));
    }
}

/// Binding parameters written faithfully yields their (name, value) pairs,
/// in their order, one per step, whatever the names; a switch is bound to
/// `true`.
pub proof fn lemma_bind_written(ws: Seq<(Seq<char>, Option<Seq<char>>)>, vs: Seq<Value>)
    requires
        written_faithfully(ws, vs),
    ensures
        bind_pairs(written_args(ws), 0) == Ok::<
            Seq<(Seq<char>, Value)>,
            (Option<Seq<char>>, crate::lexer::Error),
        >(named_values(ws, vs)),
{
    lemma_bind_written_after(Seq::empty(), ws, vs);
    assert(Seq::<Seq<char>>::empty() + written_args(ws) =~= written_args(ws));
}

} // verus!
