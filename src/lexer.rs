//! The lexer of the argument mini-language: quoting, escaping, array
//! brackets, sub-expression literals, booleans and numbers.

use vstd::prelude::*;

use crate::number::{finite_float_literal_chars, is_finite_float_literal};
use crate::text::chars_of;

verus! {

/// What went wrong while turning an argument into a value.
#[derive(Debug, Clone, Copy, PartialEq, Eq, Structural)]
pub enum Error {
    Lexer,
    Parser,
    ParameterBinder,
}

impl Error {
    /// The message that describes the error.
    pub fn to_string(&self) -> (r: String)
        ensures
            r@ == error_message(*self),
    {
        match self {
            Error::Lexer => "failed to lex PowerShell syntax".to_owned(),
            Error::Parser => "failed to parse PowerShell syntax".to_owned(),
            Error::ParameterBinder => "failed to bind arguments as parameters".to_owned(),
        }
    }
}

pub open spec fn error_message(e: Error) -> Seq<char> {
    match e {
        Error::Lexer => "failed to lex PowerShell syntax"@,
        Error::Parser => "failed to parse PowerShell syntax"@,
        Error::ParameterBinder => "failed to bind arguments as parameters"@,
    }
}

/// A token of the argument language. A number keeps its lexeme.
#[derive(Debug, PartialEq)]
pub enum Token {
    String(String),
    Number(String),
    Bool(bool),
    Comma,
    ArrayBegin,
    ArrayEnd,
    ArrayOpBegin,
    ArrayOpEnd,
}

pub enum TokenView {
    String(Seq<char>),
    Number(Seq<char>),
    Bool(bool),
    Comma,
    ArrayBegin,
    ArrayEnd,
    ArrayOpBegin,
    ArrayOpEnd,
}

impl View for Token {
    type V = TokenView;

    open spec fn view(&self) -> TokenView {
        match self {
            Token::String(s) => TokenView::String(s@),
            Token::Number(s) => TokenView::Number(s@),
            Token::Bool(b) => TokenView::Bool(*b),
            Token::Comma => TokenView::Comma,
            Token::ArrayBegin => TokenView::ArrayBegin,
            Token::ArrayEnd => TokenView::ArrayEnd,
            Token::ArrayOpBegin => TokenView::ArrayOpBegin,
            Token::ArrayOpEnd => TokenView::ArrayOpEnd,
        }
    }
}

pub open spec fn tokens_view(ts: Seq<Token>) -> Seq<TokenView> {
    ts.map_values(|t: Token| t@)
}

#[derive(Debug, Clone, Copy, PartialEq, Eq, Structural)]
pub enum LexerState {
    Control,
    SingleQuote,
    DoubleQuote,
    MaybeArrayOp,
    ParenthesesCmd,
}

/// The lexer between two characters: its state, whether the next character
/// is escaped, the pending text, and the tokens emitted so far.
pub struct LexModel {
    pub state: LexerState,
    pub escaping: bool,
    pub buf: Seq<char>,
    pub tokens: Seq<TokenView>,
}

pub open spec fn true_word() -> Seq<char> {
    seq!['$', 'T', 'r', 'u', 'e']
}

pub open spec fn false_word() -> Seq<char> {
    seq!['$', 'F', 'a', 'l', 's', 'e']
}

/// The token that pending text becomes: a number when it is a finite float
/// literal, a boolean when it is `$True` or `$False`, a string otherwise.
pub open spec fn buf_token(b: Seq<char>) -> TokenView {
    if is_finite_float_literal(b) {
        TokenView::Number(b)
    } else if b == true_word() {
        TokenView::Bool(true)
    } else if b == false_word() {
        TokenView::Bool(false)
    } else {
        TokenView::String(b)
    }
}

/// Emits the pending text as a token, if there is any.
pub open spec fn flush(m: LexModel) -> LexModel {
    if m.buf.len() == 0 {
        m
    } else {
        LexModel { buf: Seq::empty(), tokens: m.tokens.push(buf_token(m.buf)), ..m }
    }
}

pub open spec fn emit(m: LexModel, t: TokenView) -> LexModel {
    LexModel { tokens: m.tokens.push(t), ..m }
}

pub open spec fn append(m: LexModel, c: char) -> LexModel {
    LexModel { buf: m.buf.push(c), ..m }
}

pub open spec fn enter(m: LexModel, s: LexerState) -> LexModel {
    LexModel { state: s, ..m }
}

pub open spec fn is_blank(c: char) -> bool {
    c == ' ' || c == '\t' || c == '\r'
}

/// One character read in the control state.
pub open spec fn step_control(m: LexModel, c: char) -> LexModel {
    if m.escaping {
        LexModel { escaping: false, ..append(m, c) }
    } else if c == '"' {
        enter(m, LexerState::DoubleQuote)
    } else if c == '\'' {
        enter(m, LexerState::SingleQuote)
    } else if is_blank(c) {
        m
    } else if c == '[' {
        emit(flush(m), TokenView::ArrayBegin)
    } else if c == ']' {
        emit(flush(m), TokenView::ArrayEnd)
    } else if c == '(' {
        enter(append(m, c), LexerState::ParenthesesCmd)
    } else if c == ')' {
        emit(flush(m), TokenView::ArrayOpEnd)
    } else if c == '`' {
        LexModel { escaping: true, ..m }
    } else if c == ',' {
        emit(flush(m), TokenView::Comma)
    } else if c == '@' {
        enter(m, LexerState::MaybeArrayOp)
    } else {
        append(m, c)
    }
}

/// One character read inside single quotes: no escapes.
pub open spec fn step_single_quote(m: LexModel, c: char) -> LexModel {
    if c == '\'' {
        enter(flush(m), LexerState::Control)
    } else {
        append(m, c)
    }
}

/// One character read inside double quotes: a backtick escapes the next one.
pub open spec fn step_double_quote(m: LexModel, c: char) -> LexModel {
    if m.escaping {
        LexModel { escaping: false, ..append(m, c) }
    } else if c == '`' {
        LexModel { escaping: true, ..m }
    } else if c == '"' {
        enter(flush(m), LexerState::Control)
    } else {
        append(m, c)
    }
}

/// One character read inside a sub-expression: kept verbatim, and the first
/// `)` ends it.
pub open spec fn step_parentheses(m: LexModel, c: char) -> LexModel {
    if c == ')' {
        enter(flush(append(m, c)), LexerState::Control)
    } else {
        append(m, c)
    }
}

/// One character read after `@`: `(` opens an array, anything else is text.
pub open spec fn step_maybe_array_op(m: LexModel, c: char) -> LexModel {
    if c == '(' {
        enter(emit(m, TokenView::ArrayOpBegin), LexerState::Control)
    } else {
        enter(append(append(m, '@'), c), LexerState::Control)
    }
}

pub open spec fn step(m: LexModel, c: char) -> LexModel {
    match m.state {
        LexerState::Control => step_control(m, c),
        LexerState::SingleQuote => step_single_quote(m, c),
        LexerState::DoubleQuote => step_double_quote(m, c),
        LexerState::MaybeArrayOp => step_maybe_array_op(m, c),
        LexerState::ParenthesesCmd => step_parentheses(m, c),
    }
}

/// The lexer after reading all of `s`.
pub open spec fn run(m: LexModel, s: Seq<char>) -> LexModel
    decreases s.len(),
{
    if s.len() == 0 {
        m
    } else {
        run(step(m, s[0]), s.skip(1))
    }
}

/// The tokens of `s` read on from `m`, with the pending text emitted at the end.
pub open spec fn lex_from(m: LexModel, s: Seq<char>) -> Seq<TokenView> {
    flush(run(m, s)).tokens
}

pub open spec fn initial_model() -> LexModel {
    LexModel {
        state: LexerState::Control,
        escaping: false,
        buf: Seq::empty(),
        tokens: Seq::empty(),
    }
}

/// The tokens of a whole argument.
pub open spec fn lex_tokens(s: Seq<char>) -> Seq<TokenView> {
    lex_from(initial_model(), s)
}

/// A lexer over one argument: the characters, how far it has read, the
/// tokens emitted so far, its state and the pending text.
pub struct Lexer {
    input: Vec<char>,
    pos: usize,
    tokens: Vec<Token>,
    state: LexerState,
    escaping: bool,
    buf: String,
}

impl Lexer {
    pub closed spec fn model(&self) -> LexModel {
        LexModel {
            state: self.state,
            escaping: self.escaping,
            buf: self.buf@,
            tokens: tokens_view(self.tokens@),
        }
    }

    /// The characters not read yet.
    pub closed spec fn remaining(&self) -> Seq<char> {
        self.input@.skip(self.pos as int)
    }

    pub closed spec fn wf(&self) -> bool {
        self.pos <= self.input.len()
    }

    pub fn from_str(input: &str) -> (r: Lexer)
        ensures
            r.wf(),
            r.model() == initial_model(),
            r.remaining() == input@,
    {
        let r = Lexer {
            input: chars_of(input),
            pos: 0,
            tokens: Vec::new(),
            state: LexerState::Control,
            escaping: false,
            buf: String::new(),
        };
        proof {
            assert(r.input@.skip(0) =~= input@);
            assert(tokens_view(r.tokens@) =~= Seq::<TokenView>::empty());
        }
        r
    }

    /// Reads the whole input and returns its tokens. Input that ends inside
    /// quotes or a sub-expression still yields the pending text.
    pub fn lex(self) -> (r: Result<Vec<Token>, Error>)
        requires
            self.wf(),
        ensures
            r matches Ok(ts) && tokens_view(ts@) == lex_from(self.model(), self.remaining()),
    {
        let ghost goal = lex_from(self.model(), self.remaining());
        let mut lx = self;
        while lx.pos < lx.input.len()
            invariant
                lx.wf(),
                lex_from(lx.model(), lx.remaining()) == goal,
            decreases lx.input.len() - lx.pos,
        {
            let ghost before = lx;
            match lx.state {
                LexerState::Control => lx.scan_control(),
                LexerState::SingleQuote => lx.scan_singlequote(),
                LexerState::DoubleQuote => lx.scan_doublequote(),
                LexerState::MaybeArrayOp => lx.scan_maybearrayop(),
                LexerState::ParenthesesCmd => lx.scan_parentheses_cmd(),
            }
            proof {
                assert(before.remaining().skip(1) =~= lx.remaining());
                assert(before.remaining()[0] == before.input@[before.pos as int]);
            }
        }
        lx.store_buf_as_token();
        Ok(lx.tokens)
    }

    fn push_token(&mut self, t: Token)
        ensures
            final(self).input == old(self).input,
            final(self).pos == old(self).pos,
            final(self).model() == emit(old(self).model(), t@),
    {
        let ghost v = t@;
        self.tokens.push(t);
        proof {
            assert(tokens_view(self.tokens@) =~= tokens_view(old(self).tokens@).push(v));
        }
    }

    fn push_char(&mut self, c: char)
        ensures
            final(self).input == old(self).input,
            final(self).pos == old(self).pos,
            final(self).model() == append(old(self).model(), c),
    {
        self.buf.push(c);
    }

    fn eat(&mut self, num: usize)
        requires
            old(self).pos + num <= old(self).input.len(),
        ensures
            final(self).input == old(self).input,
            final(self).pos == old(self).pos + num,
            final(self).model() == old(self).model(),
    {
        self.pos = self.pos + num;
    }

    fn scan_control(&mut self)
        requires
            old(self).wf(),
            old(self).pos < old(self).input.len(),
            old(self).state == LexerState::Control,
        ensures
            final(self).wf(),
            final(self).input == old(self).input,
            final(self).pos == old(self).pos + 1,
            final(self).model() == step(old(self).model(), old(self).input@[old(self).pos as int]),
    {
        let c = self.input[self.pos];
        self.eat(1);
        if self.escaping {
            self.push_char(c);
            self.escaping = false;
        } else if c == '"' {
            self.state = LexerState::DoubleQuote;
        } else if c == '\'' {
            self.state = LexerState::SingleQuote;
        } else if c == ' ' || c == '\t' || c == '\r' {
        } else if c == '[' {
            self.store_buf_as_token();
            self.push_token(Token::ArrayBegin);
        } else if c == ']' {
            self.store_buf_as_token();
            self.push_token(Token::ArrayEnd);
        } else if c == '(' {
            self.push_char(c);
            self.state = LexerState::ParenthesesCmd;
        } else if c == ')' {
            self.store_buf_as_token();
            self.push_token(Token::ArrayOpEnd);
        } else if c == '`' {
            self.escaping = true;
        } else if c == ',' {
            self.store_buf_as_token();
            self.push_token(Token::Comma);
        } else if c == '@' {
            self.state = LexerState::MaybeArrayOp;
        } else {
            self.push_char(c);
        }
    }

    fn scan_singlequote(&mut self)
        requires
            old(self).wf(),
            old(self).pos < old(self).input.len(),
            old(self).state == LexerState::SingleQuote,
        ensures
            final(self).wf(),
            final(self).input == old(self).input,
            final(self).pos == old(self).pos + 1,
            final(self).model() == step(old(self).model(), old(self).input@[old(self).pos as int]),
    {
        let c = self.input[self.pos];
        self.eat(1);
        if c == '\'' {
            self.store_buf_as_token();
            self.state = LexerState::Control;
        } else {
            self.push_char(c);
        }
    }

    fn scan_doublequote(&mut self)
        requires
            old(self).wf(),
            old(self).pos < old(self).input.len(),
            old(self).state == LexerState::DoubleQuote,
        ensures
            final(self).wf(),
            final(self).input == old(self).input,
            final(self).pos == old(self).pos + 1,
            final(self).model() == step(old(self).model(), old(self).input@[old(self).pos as int]),
    {
        let c = self.input[self.pos];
        self.eat(1);
        if self.escaping {
            self.push_char(c);
            self.escaping = false;
        } else if c == '`' {
            self.escaping = true;
        } else if c == '"' {
            self.store_buf_as_token();
            self.state = LexerState::Control;
        } else {
            self.push_char(c);
        }
    }

    fn scan_parentheses_cmd(&mut self)
        requires
            old(self).wf(),
            old(self).pos < old(self).input.len(),
            old(self).state == LexerState::ParenthesesCmd,
        ensures
            final(self).wf(),
            final(self).input == old(self).input,
            final(self).pos == old(self).pos + 1,
            final(self).model() == step(old(self).model(), old(self).input@[old(self).pos as int]),
    {
        let c = self.input[self.pos];
        self.eat(1);
        self.push_char(c);
        if c == ')' {
            self.store_buf_as_token();
            self.state = LexerState::Control;
        }
    }

    fn scan_maybearrayop(&mut self)
        requires
            old(self).wf(),
            old(self).pos < old(self).input.len(),
            old(self).state == LexerState::MaybeArrayOp,
        ensures
            final(self).wf(),
            final(self).input == old(self).input,
            final(self).pos == old(self).pos + 1,
            final(self).model() == step(old(self).model(), old(self).input@[old(self).pos as int]),
    {
        let c = self.input[self.pos];
        self.eat(1);
        if c == '(' {
            self.push_token(Token::ArrayOpBegin);
        } else {
            self.push_char('@');
            self.push_char(c);
        }
        self.state = LexerState::Control;
    }

    fn is_number(&self) -> (r: bool)
        ensures
            r == is_finite_float_literal(self.buf@),
    {
        finite_float_literal_chars(&chars_of(self.buf.as_str()))
    }

    fn is_bool(&self) -> (r: Option<bool>)
        ensures
            r == (if self.buf@ == true_word() {
                Some(true)
            } else if self.buf@ == false_word() {
                Some(false)
            } else {
                None::<bool>
            }),
    {
        proof {
            reveal_strlit("$True");
            reveal_strlit("$False");
            assert("$True"@ =~= true_word());
            assert("$False"@ =~= false_word());
        }
        if self.buf == "$True".to_owned() {
            Some(true)
        } else if self.buf == "$False".to_owned() {
            Some(false)
        } else {
            None
        }
    }

    fn take_buf(&mut self) -> (r: String)
        ensures
            r@ == old(self).buf@,
            final(self).buf@ == Seq::<char>::empty(),
            final(self).input == old(self).input,
            final(self).pos == old(self).pos,
            final(self).tokens == old(self).tokens,
            final(self).state == old(self).state,
            final(self).escaping == old(self).escaping,
    {
        let mut r = String::new();
        std::mem::swap(&mut self.buf, &mut r);
        r
    }

    /// Emits the pending text as a number, a boolean or a string token.
    fn store_buf_as_token(&mut self)
        ensures
            final(self).input == old(self).input,
            final(self).pos == old(self).pos,
            final(self).model() == flush(old(self).model()),
    {
        if !self.buf.as_str().is_empty() {
            if self.is_number() {
                let b = self.take_buf();
                self.push_token(Token::Number(b));
            } else if let Some(bool_value) = self.is_bool() {
                let _ = self.take_buf();
                self.push_token(Token::Bool(bool_value));
            } else {
                let b = self.take_buf();
                self.push_token(Token::String(b));
            }
        }
    }
}

/// A token that the lexer can emit: text is never empty and never reads as
/// a number or a boolean, and a number's lexeme is a finite float literal.
pub open spec fn token_wf(t: TokenView) -> bool {
    match t {
        TokenView::String(s) => s.len() > 0 && buf_token(s) == TokenView::String(s),
        TokenView::Number(l) => is_finite_float_literal(l),
        _ => true,
    }
}

pub open spec fn tokens_wf(ts: Seq<TokenView>) -> bool {
    forall|i: int| 0 <= i < ts.len() ==> token_wf(#[trigger] ts[i])
}

proof fn lemma_push_wf(ts: Seq<TokenView>, t: TokenView)
    requires
        tokens_wf(ts),
        token_wf(t),
    ensures
        tokens_wf(ts.push(t)),
{
    assert forall|i: int| 0 <= i < ts.push(t).len() implies token_wf(#[trigger] ts.push(t)[i]) by {
        if i < ts.len() {
            assert(ts.push(t)[i] == ts[i]);
        }
    }
}

proof fn lemma_flush_wf(m: LexModel)
    requires
        tokens_wf(m.tokens),
    ensures
        tokens_wf(flush(m).tokens),
{
    if m.buf.len() > 0 {
        lemma_push_wf(m.tokens, buf_token(m.buf));
    }
}

proof fn lemma_step_wf(m: LexModel, c: char)
    requires
        tokens_wf(m.tokens),
    ensures
        tokens_wf(step(m, c).tokens),
{
    lemma_flush_wf(m);
    lemma_flush_wf(append(m, c));
    lemma_push_wf(flush(m).tokens, TokenView::ArrayBegin);
    lemma_push_wf(flush(m).tokens, TokenView::ArrayEnd);
    lemma_push_wf(flush(m).tokens, TokenView::ArrayOpEnd);
    lemma_push_wf(flush(m).tokens, TokenView::Comma);
    lemma_push_wf(m.tokens, TokenView::ArrayOpBegin);
}

proof fn lemma_run_wf(m: LexModel, s: Seq<char>)
    requires
        tokens_wf(m.tokens),
    ensures
        tokens_wf(run(m, s).tokens),
    decreases s.len(),
{
    if s.len() > 0 {
        lemma_step_wf(m, s[0]);
        lemma_run_wf(step(m, s[0]), s.skip(1));
    }
}

/// Every token the lexer emits is well formed.
pub proof fn lemma_lex_tokens_wf(s: Seq<char>)
    ensures
        tokens_wf(lex_tokens(s)),
{
    lemma_run_wf(initial_model(), s);
    lemma_flush_wf(run(initial_model(), s));
}

} // verus!
