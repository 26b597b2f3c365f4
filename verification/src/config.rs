//! Runtime configuration of the sampler.
use vstd::prelude::*;
use crate::text;
use crate::text::{chars_of, lower, parse_number, same_text, trim};

verus! {

/// Mean sampling interval in bytes where profiling is asked for without one.
pub const DEFAULT_SAMPLING_RATE_BYTES: usize = 524_288;

/// Environment variable that sets the sampling interval in bytes. 0 turns
/// sampling off. A value that is not a number counts as unset.
pub const ENV_PROFILE_RATE: &'static str = "SNMALLOC_PROFILE_RATE";

/// Environment variable that turns sampling on at the default interval, or
/// off, where the interval is not set.
pub const ENV_PROFILE_ENABLE: &'static str = "SNMALLOC_PROFILE_ENABLE";

/// What is asked of the sampler.
#[derive(Clone, Copy, Debug, PartialEq, Eq, Structural)]
pub struct ProfileConfig {
    /// Mean sampling interval in bytes. 0 turns sampling off.
    pub sampling_rate: usize,
    /// Take the interval from the environment instead, and the default
    /// interval where the environment says nothing.
    pub enable_from_env: bool,
}

impl Default for ProfileConfig {
    fn default() -> (cfg: Self)
        ensures
            cfg.sampling_rate == 0,
            !cfg.enable_from_env,
    {
        ProfileConfig { sampling_rate: 0, enable_from_env: false }
    }
}

impl ProfileConfig {
    /// A configuration that sets the sampling interval only.
    pub fn with_sampling_rate(sampling_rate: usize) -> (cfg: Self)
        ensures
            cfg.sampling_rate == sampling_rate,
            !cfg.enable_from_env,
    {
        ProfileConfig { sampling_rate, enable_from_env: false }
    }
}

/// What a flag says: on, off, or nothing that is understood. White space
/// around it and the case of letters make no difference.
pub open spec fn flag_value(raw: Seq<char>) -> Option<bool> {
    let s = text::lowered(text::trimmed(raw));
    if s == "1"@ || s == "true"@ || s == "yes"@ {
        Some(true)
    } else if s == "0"@ || s == "false"@ || s == "no"@ || s == ""@ {
        Some(false)
    } else {
        None
    }
}

/// Read a flag.
pub fn parse_bool_env(raw: &str) -> (value: Option<bool>)
    ensures
        value == flag_value(raw@),
{
    let s = lower(&trim(&chars_of(raw)));
    if same_text(&s, "1") || same_text(&s, "true") || same_text(&s, "yes") {
        Some(true)
    } else if same_text(&s, "0") || same_text(&s, "false") || same_text(&s, "no") || same_text(
        &s,
        "",
    ) {
        Some(false)
    } else {
        None
    }
}

/// An environment variable's characters, where it is set.
pub open spec fn var_view(var: Option<&str>) -> Option<Seq<char>> {
    match var {
        Some(s) => Some(s@),
        None => None,
    }
}

/// The number that a variable gives, if it is set and gives one.
pub open spec fn rate_value(raw: Option<Seq<char>>) -> Option<nat> {
    match raw {
        Some(s) => text::parsed_number(text::trimmed(s), 10),
        None => None,
    }
}

/// The sampling interval that the environment asks for: a number in the first
/// variable wins; otherwise the flag in the second asks for the default
/// interval or for 0; otherwise nothing is asked for.
pub open spec fn env_rate(rate: Option<Seq<char>>, enable: Option<Seq<char>>) -> Option<nat> {
    if rate_value(rate) is Some {
        rate_value(rate)
    } else {
        match enable {
            Some(flag) => match flag_value(flag) {
                Some(true) => Some(DEFAULT_SAMPLING_RATE_BYTES as nat),
                Some(false) => Some(0),
                None => None,
            },
            None => None,
        }
    }
}

/// The sampling interval that the environment asks for, given the values of
/// [`ENV_PROFILE_RATE`] and [`ENV_PROFILE_ENABLE`].
pub fn resolve_rate_from_env(rate: Option<&str>, enable: Option<&str>) -> (resolved: Option<usize>)
    ensures
        match resolved {
            Some(r) => env_rate(var_view(rate), var_view(enable)) == Some(r as nat),
            None => env_rate(var_view(rate), var_view(enable)) is None,
        },
{
    if let Some(raw) = rate {
        let trimmed = trim(&chars_of(raw));
        if let Some(parsed) = parse_number(&trimmed, 10) {
            return Some(parsed);
        }
    }
    if let Some(raw) = enable {
        if let Some(on) = parse_bool_env(raw) {
            return if on {
                Some(DEFAULT_SAMPLING_RATE_BYTES)
            } else {
                Some(0)
            };
        }
    }
    None
}

/// The sampling interval that a configuration asks for.
pub open spec fn config_rate(
    cfg: ProfileConfig,
    rate: Option<Seq<char>>,
    enable: Option<Seq<char>>,
) -> nat {
    if cfg.enable_from_env {
        match env_rate(rate, enable) {
            Some(r) => r,
            None => DEFAULT_SAMPLING_RATE_BYTES as nat,
        }
    } else {
        cfg.sampling_rate as nat
    }
}

/// A number in the first variable wins over any flag.
pub proof fn rate_overrides_flag(
    rate: Option<Seq<char>>,
    enable: Option<Seq<char>>,
    other: Option<Seq<char>>,
)
    requires
        rate_value(rate) is Some,
    ensures
        env_rate(rate, enable) == rate_value(rate),
        env_rate(rate, enable) == env_rate(rate, other),
{
}

/// A value that is not a number counts as unset.
pub proof fn bad_rate_counts_as_unset(rate: Option<Seq<char>>, enable: Option<Seq<char>>)
    requires
        rate_value(rate) is None,
    ensures
        env_rate(rate, enable) == env_rate(None, enable),
{
}

/// A flag is on where it is one of these words and off where it is one of
/// those, whatever white space is around it and in whatever case its letters
/// are; nothing else is understood.
pub proof fn flags_are_these_words(
    raw: &str,
    value: Option<bool>,
    a: Seq<char>,
    s: Seq<char>,
    b: Seq<char>,
)
    requires
        call_ensures(parse_bool_env, (raw,), value),
        raw@ == a + s + b,
        text::all_white(a),
        text::all_white(b),
        s.len() > 0 ==> !text::is_white(s[0]) && !text::is_white(s[s.len() - 1]),
    ensures
        value == Some(true) <==> text::lowered(s) == "1"@ || text::lowered(s) == "true"@
            || text::lowered(s) == "yes"@,
        value == Some(false) <==> text::lowered(s) == "0"@ || text::lowered(s) == "false"@
            || text::lowered(s) == "no"@ || s.len() == 0,
        s == "1"@ || s == "true"@ || s == "TRUE"@ || s == "True"@ || s == "yes"@ || s == "YES"@ ==> value
            == Some(true),
        s == "0"@ || s == "false"@ || s == "FALSE"@ || s == "False"@ || s == "no"@ || s == "NO"@ ==> value
            == Some(false),
        s == "on"@ || s == "off"@ || s == "2"@ || s == "y"@ || s == "n"@ ==> value is None,
{
    text::white_space_around_makes_no_difference(a, s, b);
    assert(text::trimmed(s) == s) by {
        reveal_with_fuel(text::trimmed_start, 2);
        reveal_with_fuel(text::trimmed_end, 2);
    }
    let t = text::lowered(s);
    reveal_strlit("1");
    reveal_strlit("true");
    reveal_strlit("TRUE");
    reveal_strlit("True");
    reveal_strlit("yes");
    reveal_strlit("YES");
    reveal_strlit("0");
    reveal_strlit("false");
    reveal_strlit("FALSE");
    reveal_strlit("False");
    reveal_strlit("no");
    reveal_strlit("NO");
    reveal_strlit("");
    reveal_strlit("on");
    reveal_strlit("off");
    reveal_strlit("2");
    reveal_strlit("y");
    reveal_strlit("n");
    assert(t.len() == s.len());
    assert(""@.len() == 0);
    if s.len() == 0 {
        assert(t =~= ""@);
    }
    assert("1"@[0] == '1' && "0"@[0] == '0' && "true"@[0] == 't' && "yes"@[0] == 'y');
    assert("false"@[0] == 'f' && "no"@[0] == 'n');
    if s == "1"@ || s == "true"@ || s == "yes"@ || s == "0"@ || s == "false"@ || s == "no"@ {
        assert(t =~= s);
    }
    if s == "TRUE"@ || s == "True"@ {
        assert(t =~= "true"@);
    }
    if s == "YES"@ {
        assert(t =~= "yes"@);
    }
    if s == "FALSE"@ || s == "False"@ {
        assert(t =~= "false"@);
    }
    if s == "NO"@ {
        assert(t =~= "no"@);
    }
    if s == "on"@ || s == "off"@ || s == "2"@ || s == "y"@ || s == "n"@ {
        assert(t =~= s);
        assert(s[0] == 'o' || s[0] == '2' || s.len() == 1 && (s[0] == 'y' || s[0] == 'n'));
    }
}

/// A number in the first variable, in decimal digits and with any white space
/// around it, is the interval asked for, whatever the flag says. Without such
/// a number a flag that is on asks for 524288 bytes and one that is off for 0;
/// without a flag that is understood nothing is asked for.
pub proof fn numbers_win_over_flags(
    rate: Option<&str>,
    enable: Option<&str>,
    resolved: Option<usize>,
    a: Seq<char>,
    n: usize,
    b: Seq<char>,
    on: Option<bool>,
)
    requires
        call_ensures(resolve_rate_from_env, (rate, enable), resolved),
        text::all_white(a),
        text::all_white(b),
        enable is Some ==> call_ensures(parse_bool_env, (enable->0,), on),
    ensures
        rate is Some && rate->0@ == a + text::decimal(n as nat) + b ==> resolved == Some(n),
        rate is None && enable is Some && on == Some(true) ==> resolved == Some(524288usize),
        rate is None && enable is Some && on == Some(false) ==> resolved == Some(0usize),
        rate is None && enable is Some && on is None ==> resolved is None,
        rate is None && enable is None ==> resolved is None,
        resolved is Some && rate is Some && enable is None ==> text::parsed_number(
            text::trimmed(rate->0@),
            10,
        ) == Some(resolved->0 as nat),
{
    let digits = text::decimal(n as nat);
    text::decimals_are_digits(n as nat);
    text::decimal_reads_back(n as nat);
    if rate is Some && rate->0@ == a + digits + b {
        text::white_space_around_makes_no_difference(a, digits, b);
        assert('0' <= digits[0] <= '9' && '0' <= digits[digits.len() - 1] <= '9');
        assert(text::trimmed(digits) == digits) by {
            reveal_with_fuel(text::trimmed_start, 2);
            reveal_with_fuel(text::trimmed_end, 2);
        }
    }
}

/// A configuration asks for its own interval, unless it leaves the interval to
/// the environment; it then asks for what the environment asks for, or for
/// 524288 bytes.
pub proof fn configurations_ask_for_an_interval(
    n: usize,
    plain: ProfileConfig,
    off: ProfileConfig,
    rate: Option<&str>,
    enable: Option<&str>,
    resolved: Option<usize>,
)
    requires
        call_ensures(ProfileConfig::with_sampling_rate, (n,), plain),
        call_ensures(<ProfileConfig as Default>::default, (), off),
        call_ensures(resolve_rate_from_env, (rate, enable), resolved),
    ensures
        config_rate(plain, var_view(rate), var_view(enable)) == n,
        config_rate(off, var_view(rate), var_view(enable)) == 0,
        resolved is Some ==> config_rate(
            ProfileConfig { sampling_rate: n, enable_from_env: true },
            var_view(rate),
            var_view(enable),
        ) == resolved->0,
        resolved is None ==> config_rate(
            ProfileConfig { sampling_rate: n, enable_from_env: true },
            var_view(rate),
            var_view(enable),
        ) == 524288,
{
}

} // verus!
