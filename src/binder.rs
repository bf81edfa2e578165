//! The parameter binder: pairs each `-Name` in a flat argument list with the
//! value that follows it, or with `true` when a flag or the end follows.

use vstd::prelude::*;

use crate::icinga::{ExitCode, IcingaTermination};
use crate::lexer::{error_message, Error};
use crate::parser::{from_str, parse_text, CliArgument, Value};
use crate::text::chars_of;

verus! {

pub open spec fn is_ascii_alpha(c: char) -> bool {
    ('a' <= c && c <= 'z') || ('A' <= c && c <= 'Z')
}

/// A `-` followed by an ASCII letter.
pub open spec fn is_parameter_name_spec(s: Seq<char>) -> bool {
    s.len() >= 2 && s[0] == '-' && is_ascii_alpha(s[1])
}

/// An argument as the binder reads it: a parameter name or a value.
pub trait ParameterBinderToken {
    spec fn token_chars(&self) -> Seq<char>;

    fn is_parameter_name(&self) -> (r: bool)
        ensures
            r == is_parameter_name_spec(self.token_chars()),
    ;

    /// The name without its leading `-`.
    fn as_parameter_name(&self) -> (r: String)
        requires
            self.token_chars().len() > 0,
        ensures
            r@ == self.token_chars().skip(1),
    ;
}

fn is_ascii_alpha_char(c: char) -> (r: bool)
    ensures
        r == is_ascii_alpha(c),
{
    ('a' <= c && c <= 'z') || ('A' <= c && c <= 'Z')
}

fn is_parameter_name_str(s: &str) -> (r: bool)
    ensures
        r == is_parameter_name_spec(s@),
{
    let cs = chars_of(s);
    cs.len() >= 2 && cs[0] == '-' && is_ascii_alpha_char(cs[1])
}

fn without_first_char(s: &str) -> (r: String)
    requires
        s@.len() > 0,
    ensures
        r@ == s@.skip(1),
{
    let cs = chars_of(s);
    let mut r = String::new();
    let mut i: usize = 1;
    while i < cs.len()
        invariant
            1 <= i <= cs.len(),
            cs@ == s@,
            r@ == cs@.subrange(1, i as int),
        decreases cs.len() - i,
    {
        r.push(cs[i]);
        i = i + 1;
        assert(r@ =~= cs@.subrange(1, i as int));
    }
    assert(cs@.subrange(1, cs.len() as int) =~= s@.skip(1));
    r
}

impl ParameterBinderToken for String {
    open spec fn token_chars(&self) -> Seq<char> {
        self@
    }

    fn is_parameter_name(&self) -> (r: bool) {
        is_parameter_name_str(self.as_str())
    }

    fn as_parameter_name(&self) -> (r: String) {
        without_first_char(self.as_str())
    }
}

impl ParameterBinderToken for str {
    open spec fn token_chars(&self) -> Seq<char> {
        self@
    }

    fn is_parameter_name(&self) -> (r: bool) {
        is_parameter_name_str(self)
    }

    fn as_parameter_name(&self) -> (r: String) {
        without_first_char(self)
    }
}

/// A failed binding: the argument it failed at, if any, and why.
#[derive(Debug)]
pub struct ParameterBinderError {
    pub failed_arg: Option<String>,
    pub reason: Error,
}

pub open spec fn failed_arg_view(f: Option<String>) -> Option<Seq<char>> {
    match f {
        Some(s) => Some(s@),
        None => None,
    }
}

pub open spec fn binder_error_matches(err: ParameterBinderError, f: Option<Seq<char>>, e: Error) -> bool {
    failed_arg_view(err.failed_arg) == f && err.reason == e
}

/// The outcome of one binding step.
pub enum BindOutcome {
    Pair(Seq<char>, Value),
    Failed(Option<Seq<char>>, Error),
}

/// One step of the binder at `pos`, and how many arguments it takes. A name
/// followed by a value takes both; a name followed by a name, or by nothing,
/// is a switch bound to `true`. A step that fails takes nothing.
pub open spec fn bind_step(args: Seq<Seq<char>>, pos: nat) -> (BindOutcome, nat) {
    if pos >= args.len() {
        (BindOutcome::Failed(None, Error::ParameterBinder), 0)
    } else if !is_parameter_name_spec(args[pos as int]) {
        (BindOutcome::Failed(Some(args[pos as int]), Error::ParameterBinder), 0)
    } else if pos + 1 < args.len() && !is_parameter_name_spec(args[pos + 1int]) {
        match parse_text(args[pos + 1int]) {
            Ok(v) => (BindOutcome::Pair(args[pos as int].skip(1), v), 2),
            Err(e) => (BindOutcome::Failed(Some(args[pos as int]), e), 0),
        }
    } else {
        (BindOutcome::Pair(args[pos as int].skip(1), Value::Bool(true)), 1)
    }
}

/// The pairs that binding `args` from `pos` on yields one after another, up
/// to the end, or the first failure.
pub open spec fn bind_pairs(args: Seq<Seq<char>>, pos: nat) -> Result<
    Seq<(Seq<char>, Value)>,
    (Option<Seq<char>>, Error),
>
    decreases args.len() - pos,
{
    if pos >= args.len() {
        Ok(Seq::empty())
    } else {
        match bind_step(args, pos) {
            (BindOutcome::Pair(name, v), k) => if k > 0 {
                match bind_pairs(args, pos + k) {
                    Ok(ps) => Ok(seq![(name, v)] + ps),
                    Err(f) => Err(f),
                }
            } else {
                Ok(Seq::empty())
            },
            (BindOutcome::Failed(f, e), _) => Err((f, e)),
        }
    }
}

pub open spec fn strings_view(v: Seq<String>) -> Seq<Seq<char>> {
    v.map_values(|s: String| s@)
}

/// Whether a binder's result is the outcome `o`.
pub open spec fn result_matches(
    r: Result<(String, CliArgument), ParameterBinderError>,
    o: BindOutcome,
) -> bool {
    match o {
        BindOutcome::Pair(name, v) => r matches Ok((n, a)) && n@ == name && a@ == v,
        BindOutcome::Failed(f, e) => r matches Err(err) && binder_error_matches(err, f, e),
    }
}

/// A walk over a flat argument list, one (name, value) pair at a time.
pub struct ParameterBinder<'a> {
    input_args: &'a [String],
    position: usize,
}

impl<'a> ParameterBinder<'a> {
    pub closed spec fn args(&self) -> Seq<Seq<char>> {
        strings_view(self.input_args@)
    }

    pub closed spec fn position(&self) -> nat {
        self.position as nat
    }

    pub closed spec fn wf(&self) -> bool {
        self.position <= self.input_args@.len()
    }

    pub fn new(input_args: &'a [String]) -> (r: ParameterBinder<'a>)
        ensures
            r.wf(),
            r.args() == strings_view(input_args@),
            r.position() == 0,
    {
        ParameterBinder { input_args, position: 0 }
    }

    /// Binds the next pair, and moves past it when it succeeds.
    pub fn next_parameter_pair(&mut self) -> (r: Result<(String, CliArgument), ParameterBinderError>)
        requires
            old(self).wf(),
        ensures
            final(self).wf(),
            final(self).args() == old(self).args(),
            result_matches(r, bind_step(old(self).args(), old(self).position()).0),
            final(self).position() == old(self).position() + bind_step(
                old(self).args(),
                old(self).position(),
            ).1,
    {
        let n = self.input_args.len();
        assert(self.args().len() == n);
        let current_arg = match self.peek(0) {
            Some(a) => a,
            None => {
                return Err(ParameterBinderError { failed_arg: None, reason: Error::ParameterBinder });
            },
        };
        if current_arg.is_parameter_name() {
            let mut shift_position: usize = 1;
            let parameter_name = current_arg.as_parameter_name();
            let parameter_value = if let Some(next_arg) = self.peek(1) {
                if next_arg.is_parameter_name() {
                    CliArgument::Bool(true)
                } else {
                    shift_position = 2;
                    match from_str(next_arg) {
                        Ok(v) => v,
                        Err(e) => {
                            return Err(
                                ParameterBinderError {
                                    failed_arg: Some(current_arg.to_owned()),
                                    reason: e,
                                },
                            );
                        },
                    }
                }
            } else {
                CliArgument::Bool(true)
            };
            self.position = self.position + shift_position;
            Ok((parameter_name, parameter_value))
        } else {
            Err(
                ParameterBinderError {
                    failed_arg: Some(current_arg.to_owned()),
                    reason: Error::ParameterBinder,
                },
            )
        }
    }

    pub fn has_next(&self) -> (r: bool)
        requires
            self.wf(),
        ensures
            r == (self.position() < self.args().len()),
    {
        self.position < self.input_args.len()
    }

    /// The argument `offset` places after the current one, if there is one.
    fn peek(&self, offset: usize) -> (r: Option<&str>)
        requires
            self.wf(),
        ensures
            match r {
                Some(s) => self.position() + offset < self.args().len() && s@ == self.args()[self.position() + offset],
                None => self.position() + offset >= self.args().len(),
            },
    {
        if offset < self.input_args.len() - self.position {
            Some(self.input_args[self.position + offset].as_str())
        } else {
            None
        }
    }

    /// The next pair, or `None` once every argument is bound.
    pub fn next(&mut self) -> (r: Option<Result<(String, CliArgument), ParameterBinderError>>)
        requires
            old(self).wf(),
        ensures
            final(self).wf(),
            final(self).args() == old(self).args(),
            if old(self).position() < old(self).args().len() {
                r matches Some(res) && result_matches(res, bind_step(old(self).args(), old(self).position()).0)
                    && final(self).position() == old(self).position() + bind_step(
                    old(self).args(),
                    old(self).position(),
                ).1
            } else {
                r is None && final(self).position() == old(self).position()
            },
    {
        if self.has_next() {
            Some(self.next_parameter_pair())
        } else {
            None
        }
    }
}

/// A dash followed by any text is a parameter name exactly when the text
/// starts with an ASCII letter.
pub proof fn lemma_parameter_name_after_dash(x: Seq<char>)
    ensures
        is_parameter_name_spec(seq!['-'] + x) <==> (x.len() > 0 && is_ascii_alpha(x[0])),
{
    let s = seq!['-'] + x;
    if x.len() > 0 {
        assert(s[1] == x[0]);
    }
}

pub open spec fn binder_error_text(e: ParameterBinderError) -> Seq<char> {
    match e.failed_arg {
        Some(a) => "invalid value for argument '"@ + a@ + "' ("@ + error_message(e.reason) + ")"@,
        None => "no more arguments for parameter binder ("@ + error_message(e.reason) + ")"@,
    }
}

impl ParameterBinderError {
    /// The message that names the failing argument and the reason.
    pub fn to_string(&self) -> (r: String)
        ensures
            r@ == binder_error_text(*self),
    {
        let mut r = match &self.failed_arg {
            Some(failed_arg) => {
                let mut r = "invalid value for argument '".to_owned();
                r.push_str(failed_arg.as_str());
                r.push_str("' (");
                r
            },
            None => "no more arguments for parameter binder (".to_owned(),
        };
        let reason = self.reason.to_string();
        r.push_str(reason.as_str());
        r.push_str(")");
        r
    }
}

impl IcingaTermination for ParameterBinderError {
    open spec fn termination_code(&self) -> ExitCode {
        ExitCode::Unknown
    }

    open spec fn termination_text(&self) -> Seq<char> {
        binder_error_text(*self)
    }

    fn exitcode(&self) -> (r: ExitCode) {
        ExitCode::Unknown
    }

    fn report_text(&self) -> (r: String) {
        self.to_string()
    }
}

} // verus!
