use vstd::prelude::*;
use vstd::string::StrSliceExecFns;
use vstd::string::StringExecFns;

verus! {

/// What `str::replace` returns for a haystack, a pattern and a replacement;
/// the result depends on the three strings alone.
pub uninterp spec fn replaced(s: Seq<char>, pat: Seq<char>, with: Seq<char>) -> Seq<char>;

/// Relies on str::replace: replaces every match of the pattern string; a pure
/// function of its three arguments.
#[verifier::external_body]
fn str_replace(s: &str, pat: &str, with: &str) -> (r: String)
    ensures
        r@ == replaced(s@, pat@, with@),
{
    s.replace(pat, with)
}

/// What `str::split_whitespace` returns: the whitespace-separated tokens, a
/// pure function of the string.
pub uninterp spec fn tokens_of(s: Seq<char>) -> Seq<Seq<char>>;

/// Relies on str::split_whitespace: the tokens of the string, in order.
#[verifier::external_body]
fn split_whitespace_vec(s: &str) -> (r: Vec<String>)
    ensures
        r.deep_view() == tokens_of(s@),
{
    s.split_whitespace().map(|t| t.to_string()).collect()
}

/// Whether `char::is_alphanumeric` accepts the character; a property of the
/// character alone.
pub uninterp spec fn alphanumeric(c: char) -> bool;

/// Relies on char::is_alphanumeric.
#[verifier::external_body]
fn char_is_alphanumeric(c: char) -> (r: bool)
    ensures
        r == alphanumeric(c),
{
    c.is_alphanumeric()
}

/// The pattern `${NAME}` for a variable name.
pub open spec fn braced_pat(k: Seq<char>) -> Seq<char> {
    seq!['$', '{'] + k + seq!['}']
}

/// The pattern `$NAME` for a variable name.
pub open spec fn dollar_pat(k: Seq<char>) -> Seq<char> {
    seq!['$'] + k
}

/// Environment substitution: for each pair in order, replace every `${NAME}`
/// and then every `$NAME` by the value.
pub open spec fn expand_spec(s: Seq<char>, env: Seq<(Seq<char>, Seq<char>)>) -> Seq<char>
    decreases env.len(),
{
    if env.len() == 0 {
        s
    } else {
        expand_spec(
            replaced(replaced(s, braced_pat(env[0].0), env[0].1), dollar_pat(env[0].0), env[0].1),
            env.drop_first(),
        )
    }
}

/// Expand environment variables in a string: `${NAME}` and `$NAME` patterns,
/// walking the pairs in order.
pub fn expand_env_vars(s: &str, env_vars: &Vec<(String, String)>) -> (r: String)
    ensures
        r@ == expand_spec(s@, env_vars.deep_view()),
{
    let ghost env = env_vars.deep_view();
    let mut acc = s.to_owned();
    let mut i: usize = 0;
    proof {
        assert(env.skip(0) =~= env);
    }
    while i < env_vars.len()
        invariant
            i <= env_vars.len(),
            env == env_vars.deep_view(),
            expand_spec(s@, env) == expand_spec(acc@, env.skip(i as int)),
        decreases env_vars.len() - i,
    {
        let key = &env_vars[i].0;
        let value = &env_vars[i].1;
        let braced = String::from_str("${").concat(key.as_str()).concat("}");
        let dollar = String::from_str("$").concat(key.as_str());
        proof {
            reveal_strlit("${");
            reveal_strlit("}");
            reveal_strlit("$");
            assert(braced@ =~= braced_pat(key@));
            assert(dollar@ =~= dollar_pat(key@));
            assert(env.skip(i as int).drop_first() =~= env.skip(i as int + 1));
            assert(env.skip(i as int)[0] == env[i as int]);
        }
        let step = str_replace(acc.as_str(), braced.as_str(), value.as_str());
        acc = str_replace(step.as_str(), dollar.as_str(), value.as_str());
        i += 1;
    }
    proof {
        assert(env.skip(env.len() as int) =~= Seq::<(Seq<char>, Seq<char>)>::empty());
    }
    acc
}

/// Parse a command string into program and arguments: the program is the
/// first whitespace-delimited token, the arguments are the remaining tokens.
/// There is no shell quoting: embedded quotes split like any other text.
pub fn parse_command(command: &str) -> (r: (String, Vec<String>))
    ensures
        tokens_of(command@).len() == 0 ==> r.0@ == Seq::<char>::empty() && r.1.deep_view()
            == Seq::<Seq<char>>::empty(),
        tokens_of(command@).len() > 0 ==> r.0@ == tokens_of(command@)[0] && r.1.deep_view()
            == tokens_of(command@).drop_first(),
{
    let mut tokens = split_whitespace_vec(command);
    if tokens.len() == 0 {
        let args: Vec<String> = Vec::new();
        proof {
            assert(args.deep_view() =~= Seq::<Seq<char>>::empty());
        }
        (String::new(), args)
    } else {
        let ghost toks = tokens.deep_view();
        let program = tokens.remove(0);
        proof {
            assert(tokens.deep_view() =~= toks.drop_first());
        }
        (program, tokens)
    }
}

/// The millisecond remainder rendered with at least three digits, zero
/// padded.
pub open spec fn padded_millis(m: nat) -> Seq<char> {
    if m < 10 {
        seq!['0', '0'] + decimal_digits(m)
    } else if m < 100 {
        seq!['0'] + decimal_digits(m)
    } else {
        decimal_digits(m)
    }
}

/// The rendering of a duration: seconds with three millisecond digits when at
/// least a second passed, bare milliseconds otherwise.
pub open spec fn duration_display(secs: nat, millis: nat) -> Seq<char> {
    if secs > 0 {
        decimal_digits(secs) + seq!['.'] + padded_millis(millis) + seq!['s']
    } else {
        decimal_digits(millis) + seq!['m', 's']
    }
}

/// Format a duration given as whole seconds and the millisecond remainder.
pub fn format_duration(secs: u64, millis: u32) -> (r: String)
    ensures
        r@ == duration_display(secs as nat, millis as nat),
{
    if secs > 0 {
        let mut s = u64_to_string(secs);
        s.append(".");
        if millis < 10 {
            s.append("00");
        } else if millis < 100 {
            s.append("0");
        }
        let m = u64_to_string(millis as u64);
        s.append(m.as_str());
        s.append("s");
        proof {
            reveal_strlit(".");
            reveal_strlit("00");
            reveal_strlit("0");
            reveal_strlit("s");
            assert(s@ =~= duration_display(secs as nat, millis as nat));
        }
        s
    } else {
        let mut s = u64_to_string(millis as u64);
        s.append("ms");
        proof {
            reveal_strlit("ms");
            assert(s@ =~= duration_display(secs as nat, millis as nat));
        }
        s
    }
}

/// A character a task name may hold.
pub open spec fn valid_name_char(c: char) -> bool {
    alphanumeric(c) || c == '-' || c == '_'
}

/// A valid task name: non-empty, all characters alphanumeric, hyphen or
/// underscore.
pub open spec fn valid_name(s: Seq<char>) -> bool {
    s.len() > 0 && forall|i: int| 0 <= i < s.len() ==> valid_name_char(#[trigger] s[i])
}

/// Validate a task name (alphanumeric, hyphens, underscores only).
pub fn is_valid_task_name(name: &str) -> (r: bool)
    ensures
        r == valid_name(name@),
{
    let n = name.unicode_len();
    if n == 0 {
        return false;
    }
    let mut i: usize = 0;
    while i < n
        invariant
            i <= n,
            n == name@.len(),
            forall|j: int| 0 <= j < i ==> valid_name_char(#[trigger] name@[j]),
        decreases n - i,
    {
        let c = name.get_char(i);
        if !(char_is_alphanumeric(c) || c == '-' || c == '_') {
            return false;
        }
        i += 1;
    }
    true
}

/// The shell used to run commands (this library targets unix hosts).
pub fn get_shell_command() -> (r: String)
    ensures
        r@ == "sh"@,
{
    String::from_str("sh")
}

/// The arguments that make the shell run one command string.
pub fn get_shell_args() -> (r: Vec<String>)
    ensures
        r.deep_view() == seq!["-c"@],
{
    let mut v: Vec<String> = Vec::new();
    v.push(String::from_str("-c"));
    proof {
        assert(v.deep_view() =~= seq!["-c"@]);
    }
    v
}


/// The decimal digit character for a value below ten.
pub open spec fn digit_char(d: nat) -> char {
    if d == 0 {
        '0'
    } else if d == 1 {
        '1'
    } else if d == 2 {
        '2'
    } else if d == 3 {
        '3'
    } else if d == 4 {
        '4'
    } else if d == 5 {
        '5'
    } else if d == 6 {
        '6'
    } else if d == 7 {
        '7'
    } else if d == 8 {
        '8'
    } else {
        '9'
    }
}

/// The decimal rendering of a number, most significant digit first.
pub open spec fn decimal_digits(n: nat) -> Seq<char>
    decreases n,
{
    if n < 10 {
        seq![digit_char(n)]
    } else {
        decimal_digits(n / 10).push(digit_char(n % 10))
    }
}

fn digit_string(d: u64) -> (r: String)
    requires
        d < 10,
    ensures
        r@ == seq![digit_char(d as nat)],
{
    let s = if d == 0 {
        String::from_str("0")
    } else if d == 1 {
        String::from_str("1")
    } else if d == 2 {
        String::from_str("2")
    } else if d == 3 {
        String::from_str("3")
    } else if d == 4 {
        String::from_str("4")
    } else if d == 5 {
        String::from_str("5")
    } else if d == 6 {
        String::from_str("6")
    } else if d == 7 {
        String::from_str("7")
    } else if d == 8 {
        String::from_str("8")
    } else {
        String::from_str("9")
    };
    proof {
        reveal_strlit("0");
        reveal_strlit("1");
        reveal_strlit("2");
        reveal_strlit("3");
        reveal_strlit("4");
        reveal_strlit("5");
        reveal_strlit("6");
        reveal_strlit("7");
        reveal_strlit("8");
        reveal_strlit("9");
        assert(s@ =~= seq![digit_char(d as nat)]);
    }
    s
}

/// Render a number in decimal.
pub fn u64_to_string(n: u64) -> (r: String)
    ensures
        r@ == decimal_digits(n as nat),
    decreases n,
{
    if n < 10 {
        digit_string(n)
    } else {
        let prefix = u64_to_string(n / 10);
        let last = digit_string(n % 10);
        let r = prefix.concat(last.as_str());
        proof {
            assert((n / 10) as nat == n as nat / 10);
            assert((n % 10) as nat == n as nat % 10);
            assert(r@ =~= decimal_digits(n as nat / 10).push(digit_char(n as nat % 10)));
        }
        r
    }
}


} // verus!
