//! The request and response types of the daemon's checker endpoint, and the
//! ordered map of bound arguments that forms a request's body.

use vstd::prelude::*;

use indexmap::IndexMap;

use crate::binder::{
    bind_step, binder_error_matches, strings_view, BindOutcome, ParameterBinder,
    ParameterBinderError,
};
use crate::icinga::{exit_code_of, ExitCode, IcingaTermination};
use crate::lexer::{error_message, Error};
use crate::text::chars_of;
use crate::parser::{CliArgument, Value};

verus! {

/// `indexmap::IndexMap`, an insertion-ordered hash map; what it holds is
/// seen only through `argument_entries`.
#[verifier::external_type_specification]
#[verifier::external_body]
#[verifier::reject_recursive_types(K)]
#[verifier::reject_recursive_types(V)]
#[verifier::reject_recursive_types(S)]
pub struct ExIndexMap<K, V, S>(indexmap::IndexMap<K, V, S>);

/// The entries of an argument map, in their order.
pub uninterp spec fn argument_entries(m: indexmap::IndexMap<String, CliArgument>) -> Seq<(Seq<char>, Value)>;

pub open spec fn has_key(es: Seq<(Seq<char>, Value)>, k: Seq<char>) -> bool {
    exists|i: int| 0 <= i < es.len() && (#[trigger] es[i]).0 == k
}

pub open spec fn key_index(es: Seq<(Seq<char>, Value)>, k: Seq<char>) -> int
    recommends
        has_key(es, k),
{
    choose|i: int| 0 <= i < es.len() && (#[trigger] es[i]).0 == k
}

pub open spec fn keys_unique(es: Seq<(Seq<char>, Value)>) -> bool {
    forall|i: int, j: int|
        0 <= i < es.len() && 0 <= j < es.len() && (#[trigger] es[i]).0 == (#[trigger] es[j]).0
            ==> i == j
}

/// An insertion into an ordered map: an existing key keeps its place and
/// takes the new value; a new key goes last.
pub open spec fn insert_entry(es: Seq<(Seq<char>, Value)>, k: Seq<char>, v: Value) -> Seq<
    (Seq<char>, Value),
> {
    if has_key(es, k) {
        es.update(key_index(es, k), (k, v))
    } else {
        es.push((k, v))
    }
}

/// Relies on `IndexMap::new`: a new map has no entries.
#[verifier::external_body]
fn new_argument_map() -> (r: IndexMap<String, CliArgument>)
    ensures
        argument_entries(r) == Seq::<(Seq<char>, Value)>::empty(),
{
    IndexMap::new()
}

/// Relies on `IndexMap::insert`: an existing key keeps its place in the order
/// and takes the new value; a new key is inserted last.
#[verifier::external_body]
fn insert_argument(m: &mut IndexMap<String, CliArgument>, name: String, value: CliArgument)
    ensures
        argument_entries(*final(m)) == insert_entry(argument_entries(*old(m)), name@, value@),
{
    m.insert(name, value);
}

/// Relies on `IndexMap::get`: the value stored under the key, if any.
#[verifier::external_body]
fn get_argument<'b>(m: &'b IndexMap<String, CliArgument>, name: &str) -> (r: Option<&'b CliArgument>)
    ensures
        match r {
            Some(a) => exists|i: int|
                0 <= i < argument_entries(*m).len() && #[trigger] argument_entries(*m)[i] == (
                name@,
                a@,
            ),
            None => !has_key(argument_entries(*m), name@),
        },
{
    m.get(name)
}

/// Relies on `IndexMap::len`: the number of entries.
#[verifier::external_body]
fn count_arguments(m: &IndexMap<String, CliArgument>) -> (r: usize)
    ensures
        r == argument_entries(*m).len(),
{
    m.len()
}

/// The entries that binding `args` from `pos` on adds to `es`, or the first
/// failure.
pub open spec fn bind_from(args: Seq<Seq<char>>, pos: nat, es: Seq<(Seq<char>, Value)>) -> Result<
    Seq<(Seq<char>, Value)>,
    (Option<Seq<char>>, Error),
>
    decreases args.len() - pos,
{
    if pos >= args.len() {
        Ok(es)
    } else {
        match bind_step(args, pos) {
            (BindOutcome::Pair(name, v), k) => if k > 0 {
                bind_from(args, pos + k, insert_entry(es, name, v))
            } else {
                Ok(es)
            },
            (BindOutcome::Failed(f, e), _) => Err((f, e)),
        }
    }
}

/// The request body: parameter names without their `-`, each with its value,
/// in the order in which they were first given.
#[derive(Debug)]
pub struct CommandArguments(IndexMap<String, CliArgument>);

impl CommandArguments {
    pub closed spec fn entries(&self) -> Seq<(Seq<char>, Value)> {
        argument_entries(self.0)
    }

    /// Binds a forwarded argument list; the first failure is returned.
    pub fn try_from(args: &[String]) -> (r: Result<CommandArguments, ParameterBinderError>)
        ensures
            match bind_from(strings_view(args@), 0, Seq::empty()) {
                Ok(es) => r matches Ok(c) && c.entries() == es && keys_unique(es),
                Err((f, e)) => r matches Err(err) && binder_error_matches(err, f, e),
            },
    {
        let mut command_map = new_argument_map();
        let mut param_binder = ParameterBinder::new(args);
        let ghost a = strings_view(args@);
        loop
            invariant
                param_binder.wf(),
                param_binder.args() == a,
                a == strings_view(args@),
                keys_unique(argument_entries(command_map)),
                bind_from(a, param_binder.position(), argument_entries(command_map))
                    == bind_from(a, 0, Seq::empty()),
            decreases a.len() - param_binder.position(),
        {
            match param_binder.next() {
                None => {
                    return Ok(CommandArguments(command_map));
                },
                Some(Ok((param_name, param_value))) => {
                    proof {
                        lemma_insert_keeps_unique(argument_entries(command_map), param_name@, param_value@);
                    }
                    insert_argument(&mut command_map, param_name, param_value);
                },
                Some(Err(e)) => {
                    return Err(e);
                },
            }
        }
    }

    /// The value bound to `name`, if any.
    pub fn get(&self, name: &str) -> (r: Option<&CliArgument>)
        ensures
            match r {
                Some(a) => has_key(self.entries(), name@) && exists|i: int|
                    0 <= i < self.entries().len() && #[trigger] self.entries()[i] == (name@, a@),
                None => !has_key(self.entries(), name@),
            },
    {
        get_argument(&self.0, name)
    }

    pub fn len(&self) -> (r: usize)
        ensures
            r == self.entries().len(),
    {
        count_arguments(&self.0)
    }

    /// The map itself, for encoding.
    pub fn into_inner(self) -> (r: IndexMap<String, CliArgument>)
        ensures
            argument_entries(r) == self.entries(),
    {
        self.0
    }
}

impl<'a> std::convert::TryFrom<&'a [String]> for CommandArguments {
    type Error = ParameterBinderError;

    fn try_from(args: &'a [String]) -> (r: Result<CommandArguments, ParameterBinderError>) {
        CommandArguments::try_from(args)
    }
}

/// What binding returns is stated by the inherent `CommandArguments::try_from`;
/// no value of this kind can be written in a specification, so the trait's
/// own specification claims nothing.
impl<'a> vstd::std_specs::convert::TryFromSpecImpl<&'a [String]> for CommandArguments {
    open spec fn obeys_try_from_spec() -> bool {
        false
    }

    open spec fn try_from_spec(args: &'a [String]) -> Result<Self, ParameterBinderError> {
        Err(ParameterBinderError { failed_arg: None, reason: Error::ParameterBinder })
    }
}

pub proof fn lemma_insert_keeps_unique(es: Seq<(Seq<char>, Value)>, k: Seq<char>, v: Value)
    requires
        keys_unique(es),
    ensures
        keys_unique(insert_entry(es, k, v)),
        has_key(insert_entry(es, k, v), k),
{
    let r = insert_entry(es, k, v);
    if has_key(es, k) {
        let i = key_index(es, k);
        assert(r[i].0 == k);
    } else {
        assert(r[es.len() as int].0 == k);
        assert forall|i: int, j: int|
            0 <= i < r.len() && 0 <= j < r.len() && (#[trigger] r[i]).0 == (#[trigger] r[j]).0
            implies i == j by {
            if i < es.len() && j == es.len() {
                assert(es[i].0 == k);
            }
            if j < es.len() && i == es.len() {
                assert(es[j].0 == k);
            }
        }
    }
}

/// A forwarded argument: a value, or a stand-in `true` for a switch.
#[derive(Debug, PartialEq)]
pub enum Argument {
    RealArgument(String),
    DummyArgument(bool),
}

/// The exit code in a check result: a number, or `{}` when the check did not
/// run.
#[derive(Debug, Clone, Copy, PartialEq, Eq, Structural)]
pub enum Exitcode {
    Executed(i32),
    NotExecuted,
}

/// The performance data in a check result: one line, several, or `{}`.
#[derive(Debug, PartialEq)]
pub enum Perfdata {
    Single(String),
    Multiple(Vec<String>),
    Absent,
}

/// Lines joined by single spaces.
pub open spec fn join_spaces(ls: Seq<Seq<char>>) -> Seq<char>
    decreases ls.len(),
{
    if ls.len() == 0 {
        Seq::empty()
    } else if ls.len() == 1 {
        ls[0]
    } else {
        join_spaces(ls.drop_last()) + seq![' '] + ls.last()
    }
}

pub open spec fn perfdata_valid(p: Perfdata) -> bool {
    match p {
        Perfdata::Absent => false,
        Perfdata::Single(s) => s@.len() > 0,
        Perfdata::Multiple(v) => v@.len() > 0,
    }
}

pub open spec fn perfdata_text(p: Perfdata) -> Seq<char> {
    match p {
        Perfdata::Single(s) => s@,
        Perfdata::Multiple(v) => join_spaces(strings_view(v@)),
        Perfdata::Absent => Seq::empty(),
    }
}

impl Perfdata {
    /// Whether there is any performance data to print.
    pub fn valid(&self) -> (r: bool)
        ensures
            r == perfdata_valid(*self),
    {
        match self {
            Perfdata::Absent => false,
            Perfdata::Single(single_perfdata) => !single_perfdata.as_str().is_empty(),
            Perfdata::Multiple(multiple_perfdatas) => multiple_perfdatas.len() != 0,
        }
    }

    /// The performance data as one line.
    pub fn to_string(&self) -> (r: String)
        ensures
            r@ == perfdata_text(*self),
    {
        match self {
            Perfdata::Single(single_perfdata) => single_perfdata.clone(),
            Perfdata::Multiple(multiple_perfdatas) => {
                let mut r = String::new();
                let mut i: usize = 0;
                while i < multiple_perfdatas.len()
                    invariant
                        i <= multiple_perfdatas@.len(),
                        r@ == join_spaces(strings_view(multiple_perfdatas@.take(i as int))),
                    decreases multiple_perfdatas@.len() - i,
                {
                    proof {
                        let ls = strings_view(multiple_perfdatas@.take(i + 1));
                        assert(ls.drop_last() =~= strings_view(multiple_perfdatas@.take(i as int)));
                        if i == 0 {
                            assert(join_spaces(strings_view(multiple_perfdatas@.take(0))) =~= Seq::<char>::empty());
                        }
                    }
                    if i > 0 {
                        r.push(' ');
                    }
                    r.push_str(multiple_perfdatas[i].as_str());
                    i = i + 1;
                    proof {
                        if i == 1 {
                            assert(r@ =~= join_spaces(strings_view(multiple_perfdatas@.take(i as int))));
                        }
                    }
                }
                assert(multiple_perfdatas@.take(i as int) =~= multiple_perfdatas@);
                r
            },
            Perfdata::Absent => String::new(),
        }
    }
}

/// The text with each `\r\n` turned into `\n`.
pub open spec fn normalize_newlines(s: Seq<char>) -> Seq<char>
    decreases s.len(),
{
    if s.len() == 0 {
        Seq::empty()
    } else if s.len() >= 2 && s[0] == '\r' && s[1] == '\n' {
        seq!['\n'] + normalize_newlines(s.skip(2))
    } else {
        seq![s[0]] + normalize_newlines(s.skip(1))
    }
}

fn replace_crlf(s: &str) -> (r: String)
    ensures
        r@ == normalize_newlines(s@),
{
    let cs = chars_of(s);
    let mut r = String::new();
    let mut i: usize = 0;
    assert(cs@.skip(0) =~= cs@);
    assert(r@ + normalize_newlines(cs@.skip(0)) =~= normalize_newlines(s@));
    while i < cs.len()
        invariant
            i <= cs@.len(),
            cs@ == s@,
            r@ + normalize_newlines(cs@.skip(i as int)) == normalize_newlines(s@),
        decreases cs@.len() - i,
    {
        let ghost rest = cs@.skip(i as int);
        if i + 1 < cs.len() && cs[i] == '\r' && cs[i + 1] == '\n' {
            r.push('\n');
            i = i + 2;
            proof {
                assert(rest.skip(2) =~= cs@.skip(i as int));
                assert(r@ + normalize_newlines(cs@.skip(i as int)) =~= (r@.drop_last() + (seq!['\n'] + normalize_newlines(rest.skip(2)))));
            }
        } else {
            r.push(cs[i]);
            i = i + 1;
            proof {
                assert(rest.skip(1) =~= cs@.skip(i as int));
                assert(r@ + normalize_newlines(cs@.skip(i as int)) =~= (r@.drop_last() + (seq![rest[0]] + normalize_newlines(rest.skip(1)))));
            }
        }
    }
    assert(r@ + normalize_newlines(cs@.skip(i as int)) =~= r@);
    r
}

/// What the daemon returns for one check.
#[derive(Debug, PartialEq)]
pub struct CheckerResult {
    pub exitcode: Exitcode,
    pub checkresult: String,
    pub perfdata: Perfdata,
}

/// The verdict line: the result text with `\r\n` normalised, then ` | ` and the
/// performance data when there is any.
pub open spec fn verdict_text(c: CheckerResult) -> Seq<char> {
    let text = normalize_newlines(c.checkresult@);
    if perfdata_valid(c.perfdata) {
        text + " | "@ + perfdata_text(c.perfdata)
    } else {
        text
    }
}

pub open spec fn result_exit_code(e: Exitcode) -> ExitCode {
    match e {
        Exitcode::Executed(code) => exit_code_of(code),
        Exitcode::NotExecuted => ExitCode::Unknown,
    }
}

impl CheckerResult {
    /// The verdict line printed for this result.
    pub fn to_string(&self) -> (r: String)
        ensures
            r@ == verdict_text(*self),
    {
        let mut icinga_cr = replace_crlf(self.checkresult.as_str());
        if self.perfdata.valid() {
            icinga_cr.push_str(" | ");
            let perfdata = self.perfdata.to_string();
            icinga_cr.push_str(perfdata.as_str());
        }
        icinga_cr
    }
}

impl IcingaTermination for CheckerResult {
    open spec fn termination_code(&self) -> ExitCode {
        result_exit_code(self.exitcode)
    }

    open spec fn termination_text(&self) -> Seq<char> {
        verdict_text(*self)
    }

    fn exitcode(&self) -> (r: ExitCode) {
        match self.exitcode {
            Exitcode::Executed(code) => ExitCode::from_i32(code),
            Exitcode::NotExecuted => ExitCode::Unknown,
        }
    }

    fn report_text(&self) -> (r: String) {
        self.to_string()
    }
}

} // verus!
