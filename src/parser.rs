//! The recursive-descent parser from tokens to argument values, and the
//! composition of lexer and parser on one argument.

use vstd::prelude::*;

use crate::lexer::{
    buf_token, lemma_lex_tokens_wf, lex_tokens, token_wf, tokens_view, tokens_wf, Error, Lexer,
    Token, TokenView,
};
use crate::number::{
    classify, decimal, is_finite_float_literal, lemma_classified_number_wf, lemma_finite_is_float_literal,
    lemma_integer_lexeme_finite, number_lexeme, number_wf, Number, NumberView,
};

verus! {

/// An argument value: text, a number, a boolean or a nested array.
#[derive(Debug, PartialEq)]
pub enum CliArgument {
    Array(Vec<CliArgument>),
    Bool(bool),
    Number(Number),
    String(String),
}

/// The mathematical value of an argument.
pub enum Value {
    Array(Seq<Value>),
    Bool(bool),
    Number(NumberView),
    String(Seq<char>),
}

pub open spec fn arg_view(a: CliArgument) -> Value
    decreases a,
{
    match a {
        CliArgument::Array(v) => Value::Array(args_view(v@)),
        CliArgument::Bool(b) => Value::Bool(b),
        CliArgument::Number(n) => Value::Number(n@),
        CliArgument::String(s) => Value::String(s@),
    }
}

pub open spec fn args_view(s: Seq<CliArgument>) -> Seq<Value>
    decreases s,
{
    if s.len() == 0 {
        Seq::empty()
    } else {
        args_view(s.subrange(0, s.len() - 1)).push(arg_view(s[s.len() - 1]))
    }
}

impl View for CliArgument {
    type V = Value;

    open spec fn view(&self) -> Value {
        arg_view(*self)
    }
}

pub proof fn lemma_args_view_push(s: Seq<CliArgument>, a: CliArgument)
    ensures
        args_view(s.push(a)) == args_view(s).push(arg_view(a)),
{
    assert(s.push(a).subrange(0, s.len() as int) =~= s);
}

/// How many tokens are left from `p` on.
pub open spec fn left(toks: Seq<TokenView>, p: nat) -> nat {
    if p < toks.len() {
        (toks.len() - p) as nat
    } else {
        0
    }
}

/// A string, number or boolean token at `p`, as a value.
pub open spec fn scalar_at(toks: Seq<TokenView>, p: nat) -> Option<Value> {
    if p < toks.len() {
        match toks[p as int] {
            TokenView::String(s) => Some(Value::String(s)),
            TokenView::Number(l) => match classify(l) {
                Some(n) => Some(Value::Number(n)),
                None => None,
            },
            TokenView::Bool(b) => Some(Value::Bool(b)),
            _ => None,
        }
    } else {
        None
    }
}

pub open spec fn is_open_bracket(t: TokenView) -> bool {
    t is ArrayBegin || t is ArrayOpBegin
}

/// The token that closes the array that `t` opens.
pub open spec fn closing_bracket(t: TokenView) -> TokenView {
    if t is ArrayBegin {
        TokenView::ArrayEnd
    } else {
        TokenView::ArrayOpEnd
    }
}

/// The results of the grammar's productions at position `p`: the value and
/// how many tokens it takes.
///
/// `array := '[' sequence? ']' | '@(' sequence? ')'`
pub open spec fn array_at(toks: Seq<TokenView>, p: nat) -> Option<(Value, nat)>
    decreases left(toks, p), 1nat,
{
    if p < toks.len() && is_open_bracket(toks[p as int]) {
        let (items, k) = match sequence_at(toks, p + 1) {
            Some((items, k)) => (items, k),
            None => (Seq::empty(), 0nat),
        };
        let q = p + 1 + k;
        if q < toks.len() && toks[q as int] == closing_bracket(toks[p as int]) {
            Some((Value::Array(items), k + 2))
        } else {
            None
        }
    } else {
        None
    }
}

/// `element := scalar | array`
pub open spec fn element_at(toks: Seq<TokenView>, p: nat) -> Option<(Value, nat)>
    decreases left(toks, p), 2nat,
{
    match scalar_at(toks, p) {
        Some(v) => Some((v, 1nat)),
        None => array_at(toks, p),
    }
}

/// `sequence := element (',' element)*`; a trailing comma is taken.
pub open spec fn sequence_at(toks: Seq<TokenView>, p: nat) -> Option<(Seq<Value>, nat)>
    decreases left(toks, p), 3nat,
{
    match element_at(toks, p) {
        Some((v, k)) => {
            let (vs, k2) = sequence_rest(toks, p + k, seq![v]);
            Some((vs, k + k2))
        },
        None => None,
    }
}

/// The `(',' element)*` part of a sequence after the elements `acc`.
pub open spec fn sequence_rest(toks: Seq<TokenView>, q: nat, acc: Seq<Value>) -> (Seq<Value>, nat)
    decreases left(toks, q), 0nat,
{
    if q < toks.len() && toks[q as int] is Comma {
        match element_at(toks, q + 1) {
            Some((v, k)) => {
                let (vs, k2) = sequence_rest(toks, q + 1 + k, acc.push(v));
                (vs, 1 + k + k2)
            },
            None => (acc, 1nat),
        }
    } else {
        (acc, 0nat)
    }
}

/// `sequence_by_comma_op := element ',' sequence?`: a top-level comma makes
/// an array.
pub open spec fn comma_sequence_at(toks: Seq<TokenView>, p: nat) -> Option<(Value, nat)> {
    match element_at(toks, p) {
        Some((v, k)) => if p + k < toks.len() && toks[(p + k) as int] is Comma {
            match sequence_at(toks, p + k + 1) {
                Some((vs, k2)) => Some((Value::Array(seq![v] + vs), k + 1 + k2)),
                None => Some((Value::Array(seq![v]), k + 1)),
            }
        } else {
            None
        },
        None => None,
    }
}

/// `argument := sequence_by_comma_op | array | scalar`, tried in that order.
pub open spec fn argument_at(toks: Seq<TokenView>, p: nat) -> Option<(Value, nat)> {
    match comma_sequence_at(toks, p) {
        Some(r) => Some(r),
        None => match array_at(toks, p) {
            Some(r) => Some(r),
            None => match scalar_at(toks, p) {
                Some(v) => Some((v, 1nat)),
                None => None,
            },
        },
    }
}

/// The value of an argument's text: its tokens parsed from the first one,
/// with none left over.
pub open spec fn parse_text(s: Seq<char>) -> Result<Value, Error> {
    match argument_at(lex_tokens(s), 0) {
        Some((v, k)) => if k == lex_tokens(s).len() {
            Ok(v)
        } else {
            Err(Error::Parser)
        },
        None => Err(Error::Parser),
    }
}

fn same_token(a: &Token, b: &Token) -> (r: bool)
    ensures
        r == (a@ == b@),
{
    match (a, b) {
        (Token::String(x), Token::String(y)) => x.eq(y),
        (Token::Number(x), Token::Number(y)) => x.eq(y),
        (Token::Bool(x), Token::Bool(y)) => *x == *y,
        (Token::Comma, Token::Comma) => true,
        (Token::ArrayBegin, Token::ArrayBegin) => true,
        (Token::ArrayEnd, Token::ArrayEnd) => true,
        (Token::ArrayOpBegin, Token::ArrayOpBegin) => true,
        (Token::ArrayOpEnd, Token::ArrayOpEnd) => true,
        _ => false,
    }
}

/// A parser over a token slice, with the position it has reached. Each
/// production either succeeds and moves past what it took, or fails and
/// leaves the position where it was.
pub struct Parser<'a> {
    input: &'a [Token],
    pos: usize,
}

impl<'a> Parser<'a> {
    pub closed spec fn tokens(&self) -> Seq<TokenView> {
        tokens_view(self.input@)
    }

    pub closed spec fn position(&self) -> nat {
        self.pos as nat
    }

    pub closed spec fn wf(&self) -> bool {
        self.pos <= self.input@.len()
    }

    pub fn new(input: &'a [Token]) -> (r: Parser<'a>)
        ensures
            r.wf(),
            r.tokens() == tokens_view(input@),
            r.position() == 0,
    {
        Parser { input, pos: 0 }
    }

    /// `argument := sequence_by_comma_op | array | scalar`
    pub fn parse_argument(&mut self) -> (r: Result<CliArgument, Error>)
        requires
            old(self).wf(),
        ensures
            final(self).wf(),
            final(self).tokens() == old(self).tokens(),
            match argument_at(old(self).tokens(), old(self).position()) {
                Some((v, k)) => r matches Ok(a) && a@ == v && final(self).position() == old(self).position() + k,
                None => r == Err::<CliArgument, Error>(Error::Parser) && final(self).position()
                    == old(self).position(),
            },
    {
        match self.parse_sequence_by_comma_op() {
            Ok(a) => Ok(a),
            Err(_) => match self.parse_array() {
                Ok(a) => Ok(a),
                Err(_) => match self.parse_skalar() {
                    Ok(a) => Ok(a),
                    Err(_) => Err(Error::Parser),
                },
            },
        }
    }

    /// `array := '[' sequence? ']' | '@(' sequence? ')'`
    pub fn parse_array(&mut self) -> (r: Result<CliArgument, Error>)
        requires
            old(self).wf(),
        ensures
            final(self).wf(),
            final(self).tokens() == old(self).tokens(),
            match array_at(old(self).tokens(), old(self).position()) {
                Some((v, k)) => r matches Ok(a) && a@ == v && final(self).position() == old(self).position() + k,
                None => r is Err && final(self).position() == old(self).position(),
            },
        decreases left(old(self).tokens(), old(self).position()), 1nat,
    {
        let backtrack = self.pos;
        let ghost toks = self.tokens();
        let close = if self.parse_newtype_token(Token::ArrayBegin).is_ok() {
            Token::ArrayEnd
        } else if self.parse_newtype_token(Token::ArrayOpBegin).is_ok() {
            Token::ArrayOpEnd
        } else {
            return Err(Error::Parser);
        };
        proof {
            assert(toks[backtrack as int] == self.input@[backtrack as int]@);
        }
        let mut sequence_by_array = Vec::new();
        if let Ok(sequence) = self.parse_sequence() {
            sequence_by_array = sequence;
        }
        proof {
            assert(args_view(Seq::<CliArgument>::empty()) =~= Seq::<Value>::empty());
        }
        if self.parse_newtype_token(close).is_ok() {
            return Ok(CliArgument::Array(sequence_by_array));
        }
        self.pos = backtrack;
        Err(Error::Parser)
    }

    /// `comma_op := element ','`
    fn parse_comma_op(&mut self) -> (r: Result<Vec<CliArgument>, Error>)
        requires
            old(self).wf(),
        ensures
            final(self).wf(),
            final(self).tokens() == old(self).tokens(),
            match element_at(old(self).tokens(), old(self).position()) {
                Some((v, k)) => {
                    let q = old(self).position() + k;
                    if q < old(self).tokens().len() && old(self).tokens()[q as int] is Comma {
                        r matches Ok(items) && args_view(items@) == seq![v] && final(self).position()
                            == q + 1
                    } else {
                        r is Err && final(self).position() == old(self).position()
                    }
                },
                None => r is Err && final(self).position() == old(self).position(),
            },
    {
        let backtrack = self.pos;
        if let Ok(element) = self.parse_element() {
            if self.parse_newtype_token(Token::Comma).is_ok() {
                let items = vec![element];
                proof {
                    lemma_args_view_push(Seq::empty(), element);
                    assert(Seq::<CliArgument>::empty().push(element) =~= items@);
                    assert(args_view(Seq::<CliArgument>::empty()) =~= Seq::<Value>::empty());
                    assert(Seq::<Value>::empty().push(element@) =~= seq![element@]);
                }
                return Ok(items);
            }
        }
        self.pos = backtrack;
        Err(Error::Parser)
    }

    /// `sequence_by_comma_op := comma_op sequence?`
    fn parse_sequence_by_comma_op(&mut self) -> (r: Result<CliArgument, Error>)
        requires
            old(self).wf(),
        ensures
            final(self).wf(),
            final(self).tokens() == old(self).tokens(),
            match comma_sequence_at(old(self).tokens(), old(self).position()) {
                Some((v, k)) => r matches Ok(a) && a@ == v && final(self).position() == old(self).position() + k,
                None => r is Err && final(self).position() == old(self).position(),
            },
    {
        let backtrack = self.pos;
        if let Ok(mut sequence_by_comma_op) = self.parse_comma_op() {
            if let Ok(mut sequence) = self.parse_sequence() {
                let ghost a = sequence_by_comma_op@;
                let ghost b = sequence@;
                sequence_by_comma_op.append(&mut sequence);
                proof {
                    lemma_args_view_concat(a, b);
                }
            }
            Ok(CliArgument::Array(sequence_by_comma_op))
        } else {
            self.pos = backtrack;
            Err(Error::Parser)
        }
    }

    /// `sequence := element (',' element)*`
    fn parse_sequence(&mut self) -> (r: Result<Vec<CliArgument>, Error>)
        requires
            old(self).wf(),
        ensures
            final(self).wf(),
            final(self).tokens() == old(self).tokens(),
            match sequence_at(old(self).tokens(), old(self).position()) {
                Some((vs, k)) => r matches Ok(items) && args_view(items@) == vs && final(self).position() == old(self).position() + k,
                None => r is Err && final(self).position() == old(self).position(),
            },
        decreases left(old(self).tokens(), old(self).position()), 3nat,
    {
        let ghost toks = self.tokens();
        let ghost p = self.position();
        if let Ok(element) = self.parse_element() {
            let ghost target = sequence_at(toks, p);
            let mut sequence = vec![element];
            proof {
                lemma_args_view_push(Seq::empty(), element);
                assert(Seq::<CliArgument>::empty().push(element) =~= sequence@);
                assert(args_view(Seq::<CliArgument>::empty()) =~= Seq::<Value>::empty());
                assert(Seq::<Value>::empty().push(element@) =~= seq![element@]);
            }
            proof {
                assert(self.position() > p);
            }
            loop
                invariant_except_break
                    target matches Some((vs, k)) && sequence_rest(
                        toks,
                        self.position(),
                        args_view(sequence@),
                    ) == (vs, (p + k - self.position()) as nat) && self.position() <= p + k,
                invariant
                    self.wf(),
                    self.tokens() == toks,
                    self.position() > p,
                    p < toks.len(),
                    toks == old(self).tokens(),
                    p == old(self).position(),
                ensures
                    target matches Some((vs, k)) && args_view(sequence@) == vs && self.position()
                        == p + k,
                decreases toks.len() - self.position(),
            {
                if self.parse_newtype_token(Token::Comma).is_err() {
                    break;
                }
                if let Ok(element) = self.parse_element() {
                    proof {
                        lemma_args_view_push(sequence@, element);
                    }
                    sequence.push(element);
                } else {
                    break;
                }
            }
            Ok(sequence)
        } else {
            Err(Error::Parser)
        }
    }

    /// `element := scalar | array`
    fn parse_element(&mut self) -> (r: Result<CliArgument, Error>)
        requires
            old(self).wf(),
        ensures
            final(self).wf(),
            final(self).tokens() == old(self).tokens(),
            match element_at(old(self).tokens(), old(self).position()) {
                Some((v, k)) => r matches Ok(a) && a@ == v && final(self).position() == old(self).position() + k,
                None => r is Err && final(self).position() == old(self).position(),
            },
        decreases left(old(self).tokens(), old(self).position()), 2nat,
    {
        match self.parse_skalar() {
            Ok(a) => Ok(a),
            Err(_) => self.parse_array(),
        }
    }

    /// `scalar := STRING | NUMBER | BOOL`
    fn parse_skalar(&mut self) -> (r: Result<CliArgument, Error>)
        requires
            old(self).wf(),
        ensures
            final(self).wf(),
            final(self).tokens() == old(self).tokens(),
            match scalar_at(old(self).tokens(), old(self).position()) {
                Some(v) => r matches Ok(a) && a@ == v && final(self).position() == old(self).position() + 1,
                None => r is Err && final(self).position() == old(self).position(),
            },
    {
        if self.pos >= self.input.len() {
            return Err(Error::Parser);
        }
        proof {
            assert(self.tokens()[self.pos as int] == self.input@[self.pos as int]@);
        }
        let skalar = match &self.input[self.pos] {
            Token::String(string_token) => CliArgument::String(string_token.clone()),
            Token::Number(number_token) => match Number::parse(number_token.as_str()) {
                Some(n) => CliArgument::Number(n),
                None => {
                    return Err(Error::Parser);
                },
            },
            Token::Bool(bool_token) => CliArgument::Bool(*bool_token),
            _ => {
                return Err(Error::Parser);
            },
        };
        self.pos = self.pos + 1;
        Ok(skalar)
    }

    /// Takes the given token, if it comes next.
    fn parse_newtype_token(&mut self, token: Token) -> (r: Result<Token, Error>)
        requires
            old(self).wf(),
        ensures
            final(self).wf(),
            final(self).tokens() == old(self).tokens(),
            if old(self).position() < old(self).tokens().len() && old(self).tokens()[old(self).position() as int] == token@ {
                r == Ok::<Token, Error>(token) && final(self).position() == old(self).position()
                    + 1
            } else {
                r is Err && final(self).position() == old(self).position()
            },
    {
        if self.pos < self.input.len() {
            proof {
                assert(self.tokens()[self.pos as int] == self.input@[self.pos as int]@);
            }
            if same_token(&self.input[self.pos], &token) {
                self.pos = self.pos + 1;
                return Ok(token);
            }
        }
        Err(Error::Parser)
    }
}

pub proof fn lemma_args_view_concat(a: Seq<CliArgument>, b: Seq<CliArgument>)
    ensures
        args_view(a + b) == args_view(a) + args_view(b),
    decreases b.len(),
{
    if b.len() == 0 {
        assert(a + b =~= a);
        assert(args_view(a) + args_view(b) =~= args_view(a));
    } else {
        let b1 = b.drop_last();
        lemma_args_view_concat(a, b1);
        assert(a + b =~= (a + b1).push(b.last()));
        assert(b =~= b1.push(b.last()));
        lemma_args_view_push(a + b1, b.last());
        lemma_args_view_push(b1, b.last());
        assert(args_view(a) + args_view(b) =~= (args_view(a) + args_view(b1)).push(arg_view(b.last())));
    }
}

/// Lexes and parses one argument.
pub fn from_str(input: &str) -> (r: Result<CliArgument, Error>)
    ensures
        match parse_text(input@) {
            Ok(v) => r matches Ok(a) && a@ == v,
            Err(e) => r == Err::<CliArgument, Error>(e),
        },
{
    let lexer = Lexer::from_str(input);
    let tokens = match lexer.lex() {
        Ok(tokens) => tokens,
        Err(e) => {
            return Err(e);
        },
    };
    let mut parser = Parser::new(tokens.as_slice());
    let argument = parser.parse_argument();
    if argument.is_ok() && parser.pos < tokens.len() {
        return Err(Error::Parser);
    }
    argument
}

/// A value that parsing can produce: text is never empty and never reads as
/// a number or a boolean, and each number is written as a finite float
/// literal that the classifier gives it back from.
pub open spec fn value_wf(v: Value) -> bool
    decreases v,
{
    match v {
        Value::String(s) => s.len() > 0 && buf_token(s) == TokenView::String(s),
        Value::Number(n) => number_wf(n) && is_finite_float_literal(number_lexeme(n)),
        Value::Bool(_) => true,
        Value::Array(vs) => forall|i: int| 0 <= i < vs.len() ==> value_wf(#[trigger] vs[i]),
    }
}

pub open spec fn values_wf(vs: Seq<Value>) -> bool {
    forall|i: int| 0 <= i < vs.len() ==> value_wf(#[trigger] vs[i])
}

proof fn lemma_values_push_wf(vs: Seq<Value>, v: Value)
    requires
        values_wf(vs),
        value_wf(v),
    ensures
        values_wf(vs.push(v)),
{
    assert forall|i: int| 0 <= i < vs.push(v).len() implies value_wf(#[trigger] vs.push(v)[i]) by {
        if i < vs.len() {
            assert(vs.push(v)[i] == vs[i]);
        }
    }
}

proof fn lemma_scalar_wf(toks: Seq<TokenView>, p: nat)
    requires
        tokens_wf(toks),
        scalar_at(toks, p) is Some,
    ensures
        value_wf(scalar_at(toks, p)->0),
{
    assert(token_wf(toks[p as int]));
    if let TokenView::Number(l) = toks[p as int] {
        lemma_finite_is_float_literal(l);
        lemma_classified_number_wf(l);
        match classify(l)->0 {
            NumberView::PosInt(v) => lemma_integer_lexeme_finite(v as nat),
            NumberView::NegInt(v) => lemma_integer_lexeme_finite((-v) as nat),
            NumberView::Float(_) => {},
        }
    }
}

proof fn lemma_array_wf(toks: Seq<TokenView>, p: nat)
    requires
        tokens_wf(toks),
        array_at(toks, p) is Some,
    ensures
        array_at(toks, p) matches Some((v, _)) && value_wf(v),
    decreases left(toks, p), 1nat,
{
    if sequence_at(toks, p + 1) is Some {
        lemma_sequence_wf(toks, p + 1);
    }
}

proof fn lemma_element_wf(toks: Seq<TokenView>, p: nat)
    requires
        tokens_wf(toks),
        element_at(toks, p) is Some,
    ensures
        element_at(toks, p) matches Some((v, _)) && value_wf(v),
    decreases left(toks, p), 2nat,
{
    if scalar_at(toks, p) is Some {
        lemma_scalar_wf(toks, p);
    } else {
        lemma_array_wf(toks, p);
    }
}

proof fn lemma_sequence_wf(toks: Seq<TokenView>, p: nat)
    requires
        tokens_wf(toks),
        sequence_at(toks, p) is Some,
    ensures
        sequence_at(toks, p) matches Some((vs, _)) && values_wf(vs),
    decreases left(toks, p), 3nat,
{
    let (v, k) = element_at(toks, p)->0;
    lemma_element_wf(toks, p);
    lemma_values_push_wf(Seq::empty(), v);
    assert(Seq::<Value>::empty().push(v) =~= seq![v]);
    lemma_rest_wf(toks, p + k, seq![v]);
}

proof fn lemma_rest_wf(toks: Seq<TokenView>, q: nat, acc: Seq<Value>)
    requires
        tokens_wf(toks),
        values_wf(acc),
    ensures
        values_wf(sequence_rest(toks, q, acc).0),
    decreases left(toks, q), 0nat,
{
    if q < toks.len() && toks[q as int] is Comma {
        if element_at(toks, q + 1) is Some {
            let (v, k) = element_at(toks, q + 1)->0;
            lemma_element_wf(toks, q + 1);
            lemma_values_push_wf(acc, v);
            lemma_rest_wf(toks, q + 1 + k, acc.push(v));
        }
    }
}

/// Every value that parsing an argument's text produces is well formed: no
/// empty text, and every number written as a finite float literal that the
/// classifier gives it back from.
pub proof fn lemma_parsed_value_wf(s: Seq<char>)
    ensures
        parse_text(s) matches Ok(v) ==> value_wf(v),
{
    let toks = lex_tokens(s);
    lemma_lex_tokens_wf(s);
    if comma_sequence_at(toks, 0) is Some {
        let (v, k) = element_at(toks, 0)->0;
        lemma_element_wf(toks, 0);
        let items = if sequence_at(toks, k + 1) is Some {
            lemma_sequence_wf(toks, k + 1);
            let (vs, _) = sequence_at(toks, k + 1)->0;
            seq![v] + vs
        } else {
            seq![v]
        };
        assert(values_wf(items)) by {
            assert forall|i: int| 0 <= i < items.len() implies value_wf(#[trigger] items[i]) by {
                if i > 0 {
                    let (vs, _) = sequence_at(toks, k + 1)->0;
                    assert(items[i] == vs[i - 1]);
                }
            }
        }
        assert(value_wf(Value::Array(items)));
    } else if array_at(toks, 0) is Some {
        lemma_array_wf(toks, 0);
    } else if scalar_at(toks, 0) is Some {
        lemma_scalar_wf(toks, 0);
    }
}

} // verus!
