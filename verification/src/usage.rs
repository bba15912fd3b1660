//! What each option of the command line does, wherever it stands.

use vstd::prelude::*;
use crate::cli::{
    asked_from, cut_at, defaults, directory, inline_value, option_name, port_value, CommandV,
    Environment, OptionsV, UsageV,
};
use crate::store::setting_on;
use crate::text::{
    all_digits, ascii_lower, decimal, digits_value, lemma_decimal, number_digits, trimmed,
};

verus! {

proof fn lemma_cut(s: Seq<char>, k: int)
    requires
        0 <= k <= s.len(),
        forall|i: int| 0 <= i < k ==> #[trigger] s[i] != '=',
        k < s.len() ==> s[k] == '=',
    ensures
        cut_at(s) == k,
    decreases s.len(),
{
    if k > 0 {
        assert(s[0] != '=');
        let rest = s.drop_first();
        assert forall|i: int| 0 <= i < k - 1 implies #[trigger] rest[i] != '=' by {
            assert(s[i + 1] != '=');
        }
        lemma_cut(rest, k - 1);
    }
}

/// Whether there is no sign of equality in a text.
pub open spec fn uncut(s: Seq<char>) -> bool {
    forall|i: int| 0 <= i < s.len() ==> #[trigger] s[i] != '='
}

proof fn lemma_uncut(s: Seq<char>, v: Seq<char>)
    requires
        uncut(s),
    ensures
        option_name(s) == s,
        inline_value(s) is None,
        option_name(s + seq!['='] + v) == s,
        inline_value(s + seq!['='] + v) == Some(v),
{
    let n = s.len() as int;
    let t = s + seq!['='] + v;
    lemma_cut(s, n);
    assert(s.take(n) =~= s);
    assert(t[n] == '=');
    assert forall|i: int| 0 <= i < n implies #[trigger] t[i] != '=' by {
        assert(t[i] == s[i]);
    }
    lemma_cut(t, n);
    assert(t.take(n) =~= s);
    assert(t.skip(n + 1) =~= v);
}

/// Whether an option with a value stands at a place, with the value behind a
/// sign of equality or as the next argument, and where the arguments go on.
pub open spec fn option_stands(
    args: Seq<Seq<char>>,
    i: int,
    option: Seq<char>,
    value: Seq<char>,
    next: int,
) -> bool {
    ||| 0 <= i < args.len() && args[i] == option + seq!['='] + value && next == i + 1
    ||| 0 <= i && i + 1 < args.len() && args[i] == option && args[i + 1] == value && next == i + 2
}

proof fn lemma_stands(
    args: Seq<Seq<char>>,
    i: int,
    option: Seq<char>,
    value: Seq<char>,
    next: int,
)
    requires
        option_stands(args, i, option, value, next),
        uncut(option),
    ensures
        option_name(args[i]) == option,
        crate::cli::value_at(args, i) == Some((value, next)),
{
    lemma_uncut(option, value);
}

proof fn lemma_long_options()
    ensures
        "--data"@.len() == 6 && "--data"@[2] == 'd' && uncut("--data"@),
        "--host"@.len() == 6 && "--host"@[2] == 'h' && "--host"@[3] == 'o' && uncut("--host"@),
        "--port"@.len() == 6 && "--port"@[2] == 'p' && uncut("--port"@),
        "--help"@.len() == 6 && "--help"@[2] == 'h' && "--help"@[3] == 'e' && uncut("--help"@),
        "--token"@.len() == 7 && uncut("--token"@),
        "--dag-v3"@.len() == 8 && "--dag-v3"@[2] == 'd' && uncut("--dag-v3"@),
        "--memory"@.len() == 8 && "--memory"@[2] == 'm' && uncut("--memory"@),
        "--version"@.len() == 9 && uncut("--version"@),
        "--fast-fsync"@.len() == 12 && uncut("--fast-fsync"@),
        "--dag-fast-sync"@.len() == 15 && uncut("--dag-fast-sync"@),
{
    reveal_strlit("--data");
    reveal_strlit("--host");
    reveal_strlit("--port");
    reveal_strlit("--help");
    reveal_strlit("--token");
    reveal_strlit("--dag-v3");
    reveal_strlit("--memory");
    reveal_strlit("--version");
    reveal_strlit("--fast-fsync");
    reveal_strlit("--dag-fast-sync");
}

proof fn lemma_short_options()
    ensures
        "-d"@.len() == 2 && "-d"@[1] == 'd' && uncut("-d"@),
        "-H"@.len() == 2 && "-H"@[1] == 'H' && uncut("-H"@),
        "-h"@.len() == 2 && "-h"@[1] == 'h' && uncut("-h"@),
        "-p"@.len() == 2 && "-p"@[1] == 'p' && uncut("-p"@),
        "-V"@.len() == 2 && "-V"@[1] == 'V' && uncut("-V"@),
        "-m"@.len() == 2 && "-m"@[1] == 'm' && uncut("-m"@),
        "-"@.len() == 1 && "-"@[0] == '-',
{
    reveal_strlit("-d");
    reveal_strlit("-H");
    reveal_strlit("-h");
    reveal_strlit("-p");
    reveal_strlit("-V");
    reveal_strlit("-m");
    reveal_strlit("-");
}

/// A port in decimal is that port; a text that spells no number, or one that
/// is too large, is none.
pub proof fn lemma_port(n: nat)
    ensures
        n <= 65535 ==> port_value(decimal(n)) == Some(n as u16),
        n > 65535 ==> port_value(decimal(n)) is None,
{
    lemma_decimal(n);
    assert(all_digits(decimal(n)));
    assert(crate::text::ascii_digit(decimal(n)[0]));
    assert(number_digits(decimal(n)) == decimal(n));
    assert(digits_value(decimal(n)) == n);
}

/// An option with a value sets that one thing, and what was set of it before no
/// longer counts; the arguments go on behind it. A port has to be one, and an
/// empty token is none.
pub proof fn lemma_option_set(
    args: Seq<Seq<char>>,
    i: int,
    o: OptionsV,
    value: Seq<char>,
    port: u16,
    next: int,
)
    ensures
        option_stands(args, i, "-d"@, value, next) || option_stands(args, i, "--data"@, value, next)
            ==> asked_from(args, i, o) == asked_from(
            args,
            next,
            OptionsV { data_dir: Some(value), ..o },
        ),
        option_stands(args, i, "-H"@, value, next) || option_stands(args, i, "--host"@, value, next)
            ==> asked_from(args, i, o) == asked_from(args, next, OptionsV { host: value, ..o }),
        option_stands(args, i, "--token"@, value, next) && value.len() > 0 ==> asked_from(args, i, o)
            == asked_from(args, next, OptionsV { token: Some(value), ..o }),
        option_stands(args, i, "--token"@, value, next) && value.len() == 0 ==> asked_from(
            args,
            i,
            o,
        ) == asked_from(args, next, OptionsV { token: None, ..o }),
        (option_stands(args, i, "-p"@, value, next) || option_stands(
            args,
            i,
            "--port"@,
            value,
            next,
        )) && value == decimal(port as nat) ==> asked_from(args, i, o) == asked_from(
            args,
            next,
            OptionsV { port, ..o },
        ),
        (option_stands(args, i, "-p"@, value, next) || option_stands(
            args,
            i,
            "--port"@,
            value,
            next,
        )) && port_value(value) is None ==> asked_from(args, i, o) == Err::<CommandV, UsageV>(
            UsageV::InvalidPort(value),
        ),
{
    lemma_long_options();
    lemma_short_options();
    lemma_port(port as nat);
    if option_stands(args, i, "-d"@, value, next) {
        lemma_stands(args, i, "-d"@, value, next);
    }
    if option_stands(args, i, "--data"@, value, next) {
        lemma_stands(args, i, "--data"@, value, next);
    }
    if option_stands(args, i, "-H"@, value, next) {
        lemma_stands(args, i, "-H"@, value, next);
    }
    if option_stands(args, i, "--host"@, value, next) {
        lemma_stands(args, i, "--host"@, value, next);
    }
    if option_stands(args, i, "--token"@, value, next) {
        lemma_stands(args, i, "--token"@, value, next);
    }
    if option_stands(args, i, "-p"@, value, next) {
        lemma_stands(args, i, "-p"@, value, next);
    }
    if option_stands(args, i, "--port"@, value, next) {
        lemma_stands(args, i, "--port"@, value, next);
    }
}

/// A switch turns one thing on and nothing off; asking for help or for the
/// version is all that is asked for, whatever comes behind it; and where the
/// arguments end, what they and the environment have set is how to run.
pub proof fn lemma_switch_set(args: Seq<Seq<char>>, i: int, o: OptionsV)
    requires
        0 <= i < args.len(),
    ensures
        args[i] == "--dag-v3"@ ==> asked_from(args, i, o) == asked_from(
            args,
            i + 1,
            OptionsV { dag_v3: true, ..o },
        ),
        args[i] == "--fast-fsync"@ || args[i] == "--dag-fast-sync"@ ==> asked_from(args, i, o)
            == asked_from(args, i + 1, OptionsV { fast_fsync: true, ..o }),
        args[i] == "-m"@ || args[i] == "--memory"@ ==> asked_from(args, i, o) == asked_from(
            args,
            i + 1,
            OptionsV { memory: true, ..o },
        ),
        args[i] == "-h"@ || args[i] == "--help"@ ==> asked_from(args, i, o) == Ok::<
            CommandV,
            UsageV,
        >(CommandV::Help),
        args[i] == "-V"@ || args[i] == "--version"@ ==> asked_from(args, i, o) == Ok::<
            CommandV,
            UsageV,
        >(CommandV::Version),
        asked_from(args, args.len() as int, o) == Ok::<CommandV, UsageV>(CommandV::Serve(o)),
{
    lemma_long_options();
    lemma_short_options();
    if uncut(args[i]) {
        lemma_uncut(args[i], args[i]);
    }
}

/// An argument that is no option is the directory, where there is none yet, and
/// one too many where there is.
pub proof fn lemma_directory_set(args: Seq<Seq<char>>, i: int, o: OptionsV)
    requires
        0 <= i < args.len(),
        args[i].len() > 0,
        args[i][0] != '-',
        args[i][0] != '=',
    ensures
        o.data_dir is None ==> asked_from(args, i, o) == asked_from(
            args,
            i + 1,
            OptionsV { data_dir: Some(args[i]), ..o },
        ),
        o.data_dir is Some ==> asked_from(args, i, o) == Err::<CommandV, UsageV>(
            UsageV::ExtraArgument(args[i]),
        ),
        o.data_dir matches Some(d) ==> directory(o) == d,
{
    let key = option_name(args[i]);
    assert(cut_at(args[i]) > 0 && key.len() > 0 && key[0] == args[i][0]) by {
        lemma_cut_within(args[i]);
    }
    reveal_strlit("-d");
    reveal_strlit("--data");
    reveal_strlit("-H");
    reveal_strlit("--host");
    reveal_strlit("-p");
    reveal_strlit("--port");
    reveal_strlit("--token");
    reveal_strlit("-h");
    reveal_strlit("--help");
    reveal_strlit("-V");
    reveal_strlit("--version");
    reveal_strlit("--dag-v3");
    reveal_strlit("--fast-fsync");
    reveal_strlit("--dag-fast-sync");
    reveal_strlit("-m");
    reveal_strlit("--memory");
    assert("-d"@[0] == '-' && "--data"@[0] == '-' && "-H"@[0] == '-' && "--host"@[0] == '-'
        && "-p"@[0] == '-' && "--port"@[0] == '-' && "--token"@[0] == '-' && "-h"@[0] == '-'
        && "--help"@[0] == '-' && "-V"@[0] == '-' && "--version"@[0] == '-' && "--dag-v3"@[0] == '-'
        && "--fast-fsync"@[0] == '-' && "--dag-fast-sync"@[0] == '-' && "-m"@[0] == '-'
        && "--memory"@[0] == '-');
}

proof fn lemma_cut_within(s: Seq<char>)
    ensures
        0 <= cut_at(s) <= s.len(),
        s.len() > 0 && s[0] != '=' ==> cut_at(s) > 0,
    decreases s.len(),
{
    if s.len() > 0 && s[0] != '=' {
        lemma_cut_within(s.drop_first());
    }
}

/// What the environment sets holds where the command line does not set it:
/// the host, a port that is one, and a token that is not empty.
pub proof fn lemma_environment(env: Environment, port: u16)
    ensures
        env.host matches Some(h) ==> defaults(env).host == h@,
        env.host is None ==> defaults(env).host == "127.0.0.1"@,
        env.port matches Some(p) ==> p@ == decimal(port as nat) ==> defaults(env).port == port,
        env.port is None ==> defaults(env).port == 7070,
        env.token matches Some(t) ==> t@.len() > 0 ==> defaults(env).token == Some(t@),
        env.token matches Some(t) ==> t@.len() == 0 ==> defaults(env).token is None,
        env.token is None ==> defaults(env).token is None,
        env.memory matches Some(m) ==> (defaults(env).memory <==> m@ == "1"@ || m@ == "true"@ || m@
            == "yes"@),
        env.memory is None ==> !defaults(env).memory,
        defaults(env).data_dir is None && !defaults(env).dag_v3 && !defaults(env).fast_fsync,
{
    lemma_port(port as nat);
}

/// Whether a text is a word in small letters but for the case of its letters.
pub open spec fn in_any_case(s: Seq<char>, word: Seq<char>) -> bool {
    s.len() == word.len() && forall|i: int|
        0 <= i < s.len() ==> {
            ||| #[trigger] s[i] == word[i]
            ||| 'A' <= s[i] <= 'Z' && s[i] as int + 32 == word[i] as int
        }
}

proof fn lemma_lowered(s: Seq<char>, word: Seq<char>)
    requires
        forall|i: int| 0 <= i < word.len() ==> !('A' <= #[trigger] word[i] <= 'Z'),
    ensures
        s.map_values(|c: char| ascii_lower(c)) == word <==> in_any_case(s, word),
{
    let t = s.map_values(|c: char| ascii_lower(c));
    if in_any_case(s, word) {
        assert forall|i: int| 0 <= i < s.len() implies #[trigger] t[i] == word[i] by {
            assert(t[i] == ascii_lower(s[i]));
            assert(s[i] == word[i] || 'A' <= s[i] <= 'Z' && s[i] as int + 32 == word[i] as int);
        }
        assert(t =~= word);
    }
    if t == word {
        assert forall|i: int| 0 <= i < s.len() implies {
            ||| #[trigger] s[i] == word[i]
            ||| 'A' <= s[i] <= 'Z' && s[i] as int + 32 == word[i] as int
        } by {
            assert(t[i] == ascii_lower(s[i]));
        }
    }
}

/// A setting is on where it says one of four things, in whatever case and with
/// white space around it, and off where it says anything else.
pub proof fn lemma_setting(s: Seq<char>)
    ensures
        setting_on(s) <==> in_any_case(trimmed(s), "1"@) || in_any_case(trimmed(s), "true"@)
            || in_any_case(trimmed(s), "on"@) || in_any_case(trimmed(s), "yes"@),
{
    reveal_strlit("1");
    reveal_strlit("true");
    reveal_strlit("on");
    reveal_strlit("yes");
    lemma_lowered(trimmed(s), "1"@);
    lemma_lowered(trimmed(s), "true"@);
    lemma_lowered(trimmed(s), "on"@);
    lemma_lowered(trimmed(s), "yes"@);
}

} // verus!
