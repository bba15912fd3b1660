//! The command line of the server.

use vstd::prelude::*;
#[allow(unused_imports)]
use vstd::string::StringExecFns;
use crate::digest::{hex_decode, is_hex, unhex};
use crate::index::opt_text;
use crate::node::{clone_text, strings};
use crate::text::{chars_of, number_value, parse_number, same_text, text_of};

verus! {

/// What the environment sets, where it does.
#[derive(Debug)]
pub struct Environment {
    pub host: Option<String>,
    pub port: Option<String>,
    pub token: Option<String>,
    pub memory: Option<String>,
}

/// How the server is to run.
#[derive(Debug)]
pub struct Options {
    pub data_dir: Option<String>,
    pub host: String,
    pub port: u16,
    pub token: Option<String>,
    pub memory: bool,
    pub dag_v3: bool,
    pub fast_fsync: bool,
}

/// What the options are.
#[verifier::ext_equal]
pub struct OptionsV {
    pub data_dir: Option<Seq<char>>,
    pub host: Seq<char>,
    pub port: u16,
    pub token: Option<Seq<char>>,
    pub memory: bool,
    pub dag_v3: bool,
    pub fast_fsync: bool,
}

impl View for Options {
    type V = OptionsV;

    open spec fn view(&self) -> OptionsV {
        OptionsV {
            data_dir: opt_text(self.data_dir),
            host: self.host@,
            port: self.port,
            token: opt_text(self.token),
            memory: self.memory,
            dag_v3: self.dag_v3,
            fast_fsync: self.fast_fsync,
        }
    }
}

/// What the command line asks for.
#[derive(Debug)]
pub enum Command {
    Help,
    Version,
    Serve(Options),
}

/// What is asked for.
pub enum CommandV {
    Help,
    Version,
    Serve(OptionsV),
}

impl View for Command {
    type V = CommandV;

    open spec fn view(&self) -> CommandV {
        match self {
            Command::Help => CommandV::Help,
            Command::Version => CommandV::Version,
            Command::Serve(o) => CommandV::Serve(o@),
        }
    }
}

/// What is wrong with a command line.
#[derive(Debug)]
pub enum UsageError {
    /// The option needs a value.
    MissingValue(String),
    /// The text is not a port.
    InvalidPort(String),
    /// There is no such option.
    UnknownOption(String),
    /// There is a data directory already.
    ExtraArgument(String),
}

/// What is wrong.
pub enum UsageV {
    MissingValue(Seq<char>),
    InvalidPort(Seq<char>),
    UnknownOption(Seq<char>),
    ExtraArgument(Seq<char>),
}

impl View for UsageError {
    type V = UsageV;

    open spec fn view(&self) -> UsageV {
        match self {
            UsageError::MissingValue(s) => UsageV::MissingValue(s@),
            UsageError::InvalidPort(s) => UsageV::InvalidPort(s@),
            UsageError::UnknownOption(s) => UsageV::UnknownOption(s@),
            UsageError::ExtraArgument(s) => UsageV::ExtraArgument(s@),
        }
    }
}

/// What to say of an error.
pub open spec fn usage_text(e: UsageV) -> Seq<char> {
    match e {
        UsageV::MissingValue(s) => "option '"@ + s + "' requires a value"@,
        UsageV::InvalidPort(s) => "invalid --port '"@ + s + "': expected 0-65535"@,
        UsageV::UnknownOption(s) => "unknown option '"@ + s + "'"@,
        UsageV::ExtraArgument(s) => "unexpected extra argument '"@ + s + "'"@,
    }
}

impl UsageError {
    /// What to say of the error.
    pub fn message(&self) -> (r: String)
        ensures
            r@ == usage_text(self@),
    {
        let (front, what, back) = match self {
            UsageError::MissingValue(s) => ("option '", s, "' requires a value"),
            UsageError::InvalidPort(s) => ("invalid --port '", s, "': expected 0-65535"),
            UsageError::UnknownOption(s) => ("unknown option '", s, "'"),
            UsageError::ExtraArgument(s) => ("unexpected extra argument '", s, "'"),
        };
        let mut out = front.to_owned();
        out.append(what.as_str());
        out.append(back);
        out
    }
}

/// The port where none is set.
pub const DEFAULT_PORT: u16 = 7070;

/// A text; an empty one is none.
pub open spec fn non_empty(s: Option<Seq<char>>) -> Option<Seq<char>> {
    match s {
        Some(t) => if t.len() > 0 {
            Some(t)
        } else {
            None
        },
        None => None,
    }
}

/// The port that a text spells.
pub open spec fn port_value(s: Seq<char>) -> Option<u16> {
    match number_value(s, u16::MAX as nat) {
        Some(n) => Some(n as u16),
        None => None,
    }
}

/// The options before the command line is looked at.
pub open spec fn defaults(env: Environment) -> OptionsV {
    OptionsV {
        data_dir: None,
        host: match env.host {
            Some(h) => h@,
            None => "127.0.0.1"@,
        },
        port: match env.port {
            Some(p) => match port_value(p@) {
                Some(n) => n,
                None => DEFAULT_PORT,
            },
            None => DEFAULT_PORT,
        },
        token: non_empty(opt_text(env.token)),
        memory: match env.memory {
            Some(m) => m@ == "1"@ || m@ == "true"@ || m@ == "yes"@,
            None => false,
        },
        dag_v3: false,
        fast_fsync: false,
    }
}

/// Where a text is cut: at the first `=`, or not at all.
pub open spec fn cut_at(s: Seq<char>) -> int
    decreases s.len(),
{
    if s.len() == 0 || s[0] == '=' {
        0
    } else {
        1 + cut_at(s.drop_first())
    }
}

/// The name of an option.
pub open spec fn option_name(arg: Seq<char>) -> Seq<char> {
    arg.take(cut_at(arg))
}

/// What stands behind the `=`, where there is one.
pub open spec fn inline_value(arg: Seq<char>) -> Option<Seq<char>> {
    if cut_at(arg) < arg.len() {
        Some(arg.skip(cut_at(arg) + 1))
    } else {
        None
    }
}

/// The value of the option at `i`, and where to go on: the value stands behind
/// the `=`, or is the next argument.
pub open spec fn value_at(args: Seq<Seq<char>>, i: int) -> Option<(Seq<char>, int)> {
    match inline_value(args[i]) {
        Some(v) => Some((v, i + 1)),
        None => if i + 1 < args.len() {
            Some((args[i + 1], i + 2))
        } else {
            None
        },
    }
}

/// An option with a value, by its full name.
pub open spec fn valued(key: Seq<char>) -> Option<Seq<char>> {
    if key == "-d"@ || key == "--data"@ {
        Some("--data"@)
    } else if key == "-H"@ || key == "--host"@ {
        Some("--host"@)
    } else if key == "-p"@ || key == "--port"@ {
        Some("--port"@)
    } else if key == "--token"@ {
        Some("--token"@)
    } else {
        None
    }
}

/// The options with the value of one set.
pub open spec fn value_set(o: OptionsV, name: Seq<char>, v: Seq<char>) -> Result<OptionsV, UsageV> {
    if name == "--data"@ {
        Ok(OptionsV { data_dir: Some(v), ..o })
    } else if name == "--host"@ {
        Ok(OptionsV { host: v, ..o })
    } else if name == "--port"@ {
        match port_value(v) {
            Some(p) => Ok(OptionsV { port: p, ..o }),
            None => Err(UsageV::InvalidPort(v)),
        }
    } else {
        Ok(OptionsV { token: non_empty(Some(v)), ..o })
    }
}

/// The options with an argument taken in that is no option with a value.
pub open spec fn argument_set(o: OptionsV, arg: Seq<char>) -> Result<OptionsV, UsageV> {
    let key = option_name(arg);
    if key == "--dag-v3"@ {
        Ok(OptionsV { dag_v3: true, ..o })
    } else if key == "--fast-fsync"@ || key == "--dag-fast-sync"@ {
        Ok(OptionsV { fast_fsync: true, ..o })
    } else if key == "-m"@ || key == "--memory"@ {
        Ok(OptionsV { memory: true, ..o })
    } else if key.len() > 0 && key[0] == '-' && key != "-"@ {
        Err(UsageV::UnknownOption(key))
    } else if o.data_dir is Some {
        Err(UsageV::ExtraArgument(arg))
    } else {
        Ok(OptionsV { data_dir: Some(arg), ..o })
    }
}

/// What the arguments from `i` on ask for.
pub open spec fn asked_from(args: Seq<Seq<char>>, i: int, o: OptionsV) -> Result<CommandV, UsageV>
    decreases args.len() - i,
{
    if i >= args.len() {
        Ok(CommandV::Serve(o))
    } else {
        let key = option_name(args[i]);
        if key == "-h"@ || key == "--help"@ {
            Ok(CommandV::Help)
        } else if key == "-V"@ || key == "--version"@ {
            Ok(CommandV::Version)
        } else {
            match valued(key) {
                Some(name) => match value_at(args, i) {
                    Some((v, next)) => match value_set(o, name, v) {
                        Ok(p) => asked_from(args, next, p),
                        Err(e) => Err(e),
                    },
                    None => Err(UsageV::MissingValue(name)),
                },
                None => match argument_set(o, args[i]) {
                    Ok(p) => asked_from(args, i + 1, p),
                    Err(e) => Err(e),
                },
            }
        }
    }
}

/// Whether two ways to run, from different environments, are the same but for
/// what no argument sets, which is as each environment has it.
pub open spec fn flags_win(o: OptionsV, a: OptionsV, p: OptionsV, b: OptionsV) -> bool {
    &&& a.data_dir == b.data_dir
    &&& a.host == b.host || a.host == o.host && b.host == p.host
    &&& a.port == b.port || a.port == o.port && b.port == p.port
    &&& a.token == b.token || a.token == o.token && b.token == p.token
    &&& a.memory == b.memory || a.memory == o.memory && b.memory == p.memory
    &&& a.dag_v3 == b.dag_v3 || a.dag_v3 == o.dag_v3 && b.dag_v3 == p.dag_v3
    &&& a.fast_fsync == b.fast_fsync || a.fast_fsync == o.fast_fsync && b.fast_fsync
        == p.fast_fsync
}

/// Arguments take precedence over the environment: what they set is set
/// whatever the environment says, and whether they can be read does not depend
/// on it.
pub proof fn lemma_flags_win(args: Seq<Seq<char>>, i: int, o: OptionsV, p: OptionsV)
    requires
        0 <= i,
        o.data_dir == p.data_dir,
    ensures
        match (asked_from(args, i, o), asked_from(args, i, p)) {
            (Ok(CommandV::Serve(a)), Ok(CommandV::Serve(b))) => flags_win(o, a, p, b),
            (x, y) => x == y,
        },
    decreases args.len() - i,
{
    if i < args.len() {
        match valued(option_name(args[i])) {
            Some(name) => {
                if let Some((v, next)) = value_at(args, i) {
                    if let (Ok(a), Ok(b)) = (value_set(o, name, v), value_set(p, name, v)) {
                        lemma_flags_win(args, next, a, b);
                    }
                }
            },
            None => {
                if let (Ok(a), Ok(b)) = (argument_set(o, args[i]), argument_set(p, args[i])) {
                    lemma_flags_win(args, i + 1, a, b);
                }
            },
        }
    }
}

fn keep_non_empty(s: Option<String>) -> (r: Option<String>)
    ensures
        opt_text(r) == non_empty(opt_text(s)),
{
    match s {
        Some(t) => if t.as_str().is_empty() {
            None
        } else {
            Some(t)
        },
        None => None,
    }
}

fn read_port(s: &str) -> (r: Option<u16>)
    ensures
        r == port_value(s@),
{
    match parse_number(s, u16::MAX as u64) {
        Some(n) => Some(n as u16),
        None => None,
    }
}

/// The options before the command line is looked at.
fn default_options(env: &Environment) -> (r: Options)
    ensures
        r@ == defaults(*env),
{
    let port: u16 = match &env.port {
        Some(p) => match read_port(p.as_str()) {
            Some(n) => n,
            None => DEFAULT_PORT,
        },
        None => DEFAULT_PORT,
    };
    Options {
        data_dir: None,
        host: match &env.host {
            Some(h) => h.clone(),
            None => "127.0.0.1".to_owned(),
        },
        port,
        token: keep_non_empty(clone_text(&env.token)),
        memory: match &env.memory {
            Some(m) => same_text(m.as_str(), "1") || same_text(m.as_str(), "true") || same_text(
                m.as_str(),
                "yes",
            ),
            None => false,
        },
        dag_v3: false,
        fast_fsync: false,
    }
}

proof fn lemma_cut(s: Seq<char>, n: int)
    requires
        0 <= n <= s.len(),
        forall|i: int| 0 <= i < n ==> s[i] != '=',
        n < s.len() ==> s[n] == '=',
    ensures
        cut_at(s) == n,
    decreases n,
{
    if n > 0 {
        lemma_cut(s.drop_first(), n - 1);
    }
}

/// Cuts an argument in two: the name, and what stands behind the `=`.
fn split_once(arg: &str) -> (r: (String, Option<String>))
    ensures
        r.0@ == option_name(arg@),
        opt_text(r.1) == inline_value(arg@),
{
    let c = chars_of(arg);
    let mut n: usize = 0;
    while n < c.len() && c[n] != '='
        invariant
            n <= c.len(),
            c@ == arg@,
            forall|i: int| 0 <= i < n ==> c@[i] != '=',
        decreases c.len() - n,
    {
        n = n + 1;
    }
    proof {
        lemma_cut(c@, n as int);
        assert(c@.subrange(0, n as int) =~= arg@.take(n as int));
    }
    let key = text_of(&c, 0, n);
    if n < c.len() {
        assert(c@.subrange(n + 1, c@.len() as int) =~= arg@.skip(n + 1));
        (key, Some(text_of(&c, n + 1, c.len())))
    } else {
        (key, None)
    }
}

fn full_name(key: &str) -> (r: Option<String>)
    ensures
        opt_text(r) == valued(key@),
{
    if same_text(key, "-d") || same_text(key, "--data") {
        Some("--data".to_owned())
    } else if same_text(key, "-H") || same_text(key, "--host") {
        Some("--host".to_owned())
    } else if same_text(key, "-p") || same_text(key, "--port") {
        Some("--port".to_owned())
    } else if same_text(key, "--token") {
        Some("--token".to_owned())
    } else {
        None
    }
}

/// Sets the value of an option.
fn set_value(o: &mut Options, name: &str, v: String) -> (r: Result<(), UsageError>)
    ensures
        match r {
            Ok(_) => value_set(old(o)@, name@, v@) == Ok::<OptionsV, UsageV>(final(o)@),
            Err(e) => value_set(old(o)@, name@, v@) == Err::<OptionsV, UsageV>(e@),
        },
{
    if same_text(name, "--data") {
        o.data_dir = Some(v);
    } else if same_text(name, "--host") {
        o.host = v;
    } else if same_text(name, "--port") {
        match read_port(v.as_str()) {
            Some(p) => {
                o.port = p;
            },
            None => {
                return Err(UsageError::InvalidPort(v));
            },
        }
    } else {
        o.token = keep_non_empty(Some(v));
    }
    Ok(())
}

/// Takes in an argument that is no option with a value.
fn set_argument(o: &mut Options, key: &str, arg: &str) -> (r: Result<(), UsageError>)
    requires
        key@ == option_name(arg@),
    ensures
        match r {
            Ok(_) => argument_set(old(o)@, arg@) == Ok::<OptionsV, UsageV>(final(o)@),
            Err(e) => argument_set(old(o)@, arg@) == Err::<OptionsV, UsageV>(e@),
        },
{
    if same_text(key, "--dag-v3") {
        o.dag_v3 = true;
    } else if same_text(key, "--fast-fsync") || same_text(key, "--dag-fast-sync") {
        o.fast_fsync = true;
    } else if same_text(key, "-m") || same_text(key, "--memory") {
        o.memory = true;
    } else {
        let c = chars_of(key);
        if c.len() > 0 && c[0] == '-' && !same_text(key, "-") {
            return Err(UsageError::UnknownOption(key.to_owned()));
        }
        if o.data_dir.is_some() {
            return Err(UsageError::ExtraArgument(arg.to_owned()));
        }
        o.data_dir = Some(arg.to_owned());
    }
    Ok(())
}

/// What a command line asks for. What it sets counts before what the
/// environment sets.
pub fn parse_args(args: &Vec<String>, env: &Environment) -> (r: Result<Command, UsageError>)
    ensures
        match r {
            Ok(c) => asked_from(strings(args@), 0, defaults(*env)) == Ok::<CommandV, UsageV>(c@),
            Err(e) => asked_from(strings(args@), 0, defaults(*env)) == Err::<CommandV, UsageV>(e@),
        },
{
    let ghost all = strings(args@);
    let ghost want = asked_from(all, 0, defaults(*env));
    let mut o = default_options(env);
    let mut i: usize = 0;
    while i < args.len()
        invariant
            i <= args.len(),
            all == strings(args@),
            want == asked_from(all, 0, defaults(*env)),
            want == asked_from(all, i as int, o@),
        decreases args.len() - i,
    {
        assert(all[i as int] == args@[i as int]@);
        let (key, inline) = split_once(args[i].as_str());
        let k = key.as_str();
        if same_text(k, "-h") || same_text(k, "--help") {
            return Ok(Command::Help);
        }
        if same_text(k, "-V") || same_text(k, "--version") {
            return Ok(Command::Version);
        }
        match full_name(k) {
            Some(name) => {
                let v = match inline {
                    Some(v) => v,
                    None => {
                        if i + 1 >= args.len() {
                            return Err(UsageError::MissingValue(name));
                        }
                        i = i + 1;
                        assert(all[i as int] == args@[i as int]@);
                        args[i].clone()
                    },
                };
                if let Err(e) = set_value(&mut o, name.as_str(), v) {
                    return Err(e);
                }
            },
            None => {
                if let Err(e) = set_argument(&mut o, k, args[i].as_str()) {
                    return Err(e);
                }
            },
        }
        i = i + 1;
    }
    Ok(Command::Serve(o))
}

/// The directory where none is given.
pub open spec fn directory(o: OptionsV) -> Seq<char> {
    match o.data_dir {
        Some(d) => d,
        None => "./nedb-data"@,
    }
}

impl Options {
    /// The directory that databases are kept in.
    pub fn directory(&self) -> (r: String)
        ensures
            r@ == directory(self@),
    {
        match &self.data_dir {
            Some(d) => d.clone(),
            None => "./nedb-data".to_owned(),
        }
    }
}

/// The master key that a text spells: 32 bytes in hexadecimal.
pub fn read_tmk(s: &str) -> (r: Option<[u8; 32]>)
    ensures
        match r {
            Some(k) => is_hex(s@) && k@ == unhex(s@),
            None => !(is_hex(s@) && unhex(s@).len() == 32),
        },
{
    let bytes = match hex_decode(s) {
        Some(b) => b,
        None => {
            return None;
        },
    };
    if bytes.len() != 32 {
        return None;
    }
    let mut key = [0u8;32];
    let mut i: usize = 0;
    while i < 32
        invariant
            i <= 32,
            bytes@.len() == 32,
            forall|j: int| 0 <= j < i ==> key@[j] == bytes@[j],
        decreases 32 - i,
    {
        key[i] = bytes[i];
        i = i + 1;
    }
    assert(key@ =~= bytes@);
    Some(key)
}

} // verus!
