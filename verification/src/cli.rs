//! The command line: the subcommand, the options of `prompt`, and the shell
//! integration scripts that `init` prints.
use vstd::prelude::*;

use crate::prompt::{decimal, digit_char, Shell};
use crate::prompt_escape::PromptEscape;
use crate::text::{all_digits, chars_of, has_prefix, is_digit, push_char, str_eq, strip_prefix};

verus! {

/// The value of the decimal digits `s`.
pub open spec fn decimal_value(s: Seq<char>) -> nat
    decreases s.len(),
{
    if s.len() == 0 {
        0
    } else {
        decimal_value(s.drop_last()) * 10 + ((s.last() as u32) - ('0' as u32)) as nat
    }
}

/// A prefix of digits never has a larger value than the digits it starts.
pub proof fn lemma_decimal_value_prefix(s: Seq<char>, k: int)
    requires
        0 <= k <= s.len(),
        all_digits(s),
    ensures
        decimal_value(s.take(k)) <= decimal_value(s),
    decreases s.len() - k,
{
    if k < s.len() {
        lemma_decimal_value_prefix(s, k + 1);
        assert(s.take(k + 1).drop_last() =~= s.take(k));
        assert(is_digit(s[k]));
    } else {
        assert(s.take(k) =~= s);
    }
}

/// `str::parse::<u16>`: an optional `+`, then one or more decimal digits whose
/// value fits in 16 bits.
pub open spec fn spec_parse_u16(s: Seq<char>) -> Option<nat> {
    let digits = if s.len() > 0 && s[0] == '+' {
        s.skip(1)
    } else {
        s
    };
    if digits.len() > 0 && all_digits(digits) && decimal_value(digits) <= 65535 {
        Some(decimal_value(digits))
    } else {
        None
    }
}

/// The exit status given on the command line: its value capped at 255, or 0
/// where it is not a number that fits in 16 bits.
pub open spec fn spec_parse_status(value: Seq<char>) -> u8 {
    match spec_parse_u16(value) {
        Some(n) => if n > 255 {
            255
        } else {
            n as u8
        },
        None => 0,
    }
}

/// The value of `--status`.
pub fn parse_status(value: &str) -> (status: u8)
    ensures
        status == spec_parse_status(value@),
{
    let chars = chars_of(value);
    let ghost s = value@;
    let len = chars.len();
    let start: usize = if len > 0 && chars[0] == '+' {
        1
    } else {
        0
    };
    let ghost digits = s.skip(start as int);
    assert(digits == (if s.len() > 0 && s[0] == '+' {
        s.skip(1)
    } else {
        s
    }));
    if start == len {
        return 0;
    }
    let mut n: u32 = 0;
    let mut i: usize = start;
    assert(digits.take(0) =~= Seq::<char>::empty());
    while i < len
        invariant
            chars@ == s,
            s == value@,
            len == chars.len(),
            start <= i <= len,
            start < len,
            digits == s.skip(start as int),
            digits == (if s.len() > 0 && s[0] == '+' {
                s.skip(1)
            } else {
                s
            }),
            all_digits(digits.take(i - start)),
            n == decimal_value(digits.take(i - start)),
            n <= 65535,
        decreases len - i,
    {
        let c = chars[i];
        assert(digits[i - start] == c);
        if !('0' <= c && c <= '9') {
            assert(!all_digits(digits)) by {
                assert(!is_digit(digits[i - start]));
            }
            assert(spec_parse_u16(s) is None);
            return 0;
        }
        assert(digits.take(i - start + 1).drop_last() =~= digits.take(i - start));
        assert(all_digits(digits.take(i - start + 1))) by {
            assert forall|j: int| 0 <= j < i - start + 1 implies is_digit(
                #[trigger] digits.take(i - start + 1)[j],
            ) by {
                if j < i - start {
                    assert(digits.take(i - start + 1)[j] == digits.take(i - start)[j]);
                }
            }
        }
        n = n * 10 + ((c as u32) - ('0' as u32));
        i = i + 1;
        if n > 65535 {
            proof {
                if all_digits(digits) {
                    lemma_decimal_value_prefix(digits, i - start);
                }
            }
            assert(spec_parse_u16(s) is None);
            return 0;
        }
    }
    assert(digits.take(i - start) =~= digits);
    if n > 255 {
        255
    } else {
        n as u8
    }
}

/// The shell named `name`, if it is one of `zsh`, `bash` and `fish`.
pub open spec fn shell_named(name: Seq<char>) -> Option<Shell> {
    if name == "zsh"@ {
        Some(Shell::Zsh)
    } else if name == "bash"@ {
        Some(Shell::Bash)
    } else if name == "fish"@ {
        Some(Shell::Fish)
    } else {
        None
    }
}

/// The errors of the command line.
#[derive(Debug, PartialEq, Eq)]
pub enum ParseError {
    /// An unknown option or value: the usage text is due.
    Usage,
    /// The named option came last, without its value.
    MissingValue(&'static str),
}

/// The value of `--shell`, or of the shell given to `init`.
pub fn parse_shell(value: &str) -> (r: Result<Shell, ParseError>)
    ensures
        r matches Ok(shell) ==> shell_named(value@) == Some(shell),
        r is Err ==> shell_named(value@) is None && r == Err::<Shell, ParseError>(ParseError::Usage),
{
    if str_eq(value, "zsh") {
        Ok(Shell::Zsh)
    } else if str_eq(value, "bash") {
        Ok(Shell::Bash)
    } else if str_eq(value, "fish") {
        Ok(Shell::Fish)
    } else {
        Err(ParseError::Usage)
    }
}

/// The escaping named `name`, if it is one of `none`, `zsh`, `bash` and `fish`.
pub open spec fn escape_named(name: Seq<char>) -> Option<PromptEscape> {
    if name == "none"@ {
        Some(PromptEscape::Raw)
    } else if name == "zsh"@ {
        Some(PromptEscape::Zsh)
    } else if name == "bash"@ {
        Some(PromptEscape::Bash)
    } else if name == "fish"@ {
        Some(PromptEscape::Fish)
    } else {
        None
    }
}

/// The value of `--prompt-escape`.
pub fn parse_prompt_escape(value: &str) -> (r: Result<PromptEscape, ParseError>)
    ensures
        r matches Ok(escape) ==> escape_named(value@) == Some(escape),
        r is Err ==> escape_named(value@) is None && r == Err::<PromptEscape, ParseError>(
            ParseError::Usage,
        ),
{
    if str_eq(value, "none") {
        Ok(PromptEscape::Raw)
    } else if str_eq(value, "zsh") {
        Ok(PromptEscape::Zsh)
    } else if str_eq(value, "bash") {
        Ok(PromptEscape::Bash)
    } else if str_eq(value, "fish") {
        Ok(PromptEscape::Fish)
    } else {
        Err(ParseError::Usage)
    }
}

/// The options of the `prompt` subcommand.
#[derive(Debug, PartialEq, Eq)]
pub struct PromptArgs {
    pub status: u8,
    pub cwd: Option<String>,
    pub host: Option<String>,
    pub user: Option<String>,
    pub shell: Shell,
    pub prompt_escape: PromptEscape,
}

/// The options of the `prompt` subcommand, as values.
pub struct ArgsModel {
    pub status: u8,
    pub cwd: Option<Seq<char>>,
    pub host: Option<Seq<char>>,
    pub user: Option<Seq<char>>,
    pub shell: Shell,
    pub prompt_escape: PromptEscape,
}

pub open spec fn opt_view(o: Option<String>) -> Option<Seq<char>> {
    match o {
        Some(s) => Some(s@),
        None => None,
    }
}

impl View for PromptArgs {
    type V = ArgsModel;

    open spec fn view(&self) -> ArgsModel {
        ArgsModel {
            status: self.status,
            cwd: opt_view(self.cwd),
            host: opt_view(self.host),
            user: opt_view(self.user),
            shell: self.shell,
            prompt_escape: self.prompt_escape,
        }
    }
}

/// The options before any is given: status 0, nothing overridden, zsh, no escaping.
pub open spec fn default_args() -> ArgsModel {
    ArgsModel {
        status: 0,
        cwd: None,
        host: None,
        user: None,
        shell: Shell::Zsh,
        prompt_escape: PromptEscape::Raw,
    }
}

/// The views of the command-line arguments.
pub open spec fn arg_views(args: Seq<String>) -> Seq<Seq<char>> {
    args.map_values(|a: String| a@)
}

/// What one option does: the options read so far updated, and whether the
/// option took the next argument as its value; or the error it raises.
pub enum Step {
    Next(ArgsModel, bool),
    Stop(ParseError),
}

/// One option `arg`, followed by the argument `next` where there is one.
/// Each option is `--name=value` or `--name value`.
pub open spec fn option_step(arg: Seq<char>, next: Option<Seq<char>>, acc: ArgsModel) -> Step {
    if has_prefix(arg, "--status="@) {
        Step::Next(
            ArgsModel { status: spec_parse_status(arg.skip("--status="@.len() as int)), ..acc },
            false,
        )
    } else if arg == "--status"@ {
        let value = match next {
            Some(v) => v,
            None => "0"@,
        };
        Step::Next(ArgsModel { status: spec_parse_status(value), ..acc }, true)
    } else if has_prefix(arg, "--cwd="@) {
        Step::Next(ArgsModel { cwd: Some(arg.skip("--cwd="@.len() as int)), ..acc }, false)
    } else if arg == "--cwd"@ {
        match next {
            Some(v) => Step::Next(ArgsModel { cwd: Some(v), ..acc }, true),
            None => Step::Stop(ParseError::MissingValue("--cwd")),
        }
    } else if has_prefix(arg, "--host="@) {
        Step::Next(ArgsModel { host: Some(arg.skip("--host="@.len() as int)), ..acc }, false)
    } else if arg == "--host"@ {
        match next {
            Some(v) => Step::Next(ArgsModel { host: Some(v), ..acc }, true),
            None => Step::Stop(ParseError::MissingValue("--host")),
        }
    } else if has_prefix(arg, "--user="@) {
        Step::Next(ArgsModel { user: Some(arg.skip("--user="@.len() as int)), ..acc }, false)
    } else if arg == "--user"@ {
        match next {
            Some(v) => Step::Next(ArgsModel { user: Some(v), ..acc }, true),
            None => Step::Stop(ParseError::MissingValue("--user")),
        }
    } else if has_prefix(arg, "--shell="@) {
        match shell_named(arg.skip("--shell="@.len() as int)) {
            Some(shell) => Step::Next(ArgsModel { shell, ..acc }, false),
            None => Step::Stop(ParseError::Usage),
        }
    } else if arg == "--shell"@ {
        let value = match next {
            Some(v) => v,
            None => ""@,
        };
        match shell_named(value) {
            Some(shell) => Step::Next(ArgsModel { shell, ..acc }, true),
            None => Step::Stop(ParseError::Usage),
        }
    } else if has_prefix(arg, "--prompt-escape="@) {
        match escape_named(arg.skip("--prompt-escape="@.len() as int)) {
            Some(prompt_escape) => Step::Next(ArgsModel { prompt_escape, ..acc }, false),
            None => Step::Stop(ParseError::Usage),
        }
    } else if arg == "--prompt-escape"@ {
        let value = match next {
            Some(v) => v,
            None => ""@,
        };
        match escape_named(value) {
            Some(prompt_escape) => Step::Next(ArgsModel { prompt_escape, ..acc }, true),
            None => Step::Stop(ParseError::Usage),
        }
    } else {
        Step::Stop(ParseError::Usage)
    }
}

/// The argument after the `i`-th, where there is one.
pub open spec fn next_arg(args: Seq<Seq<char>>, i: int) -> Option<Seq<char>> {
    if 0 <= i + 1 < args.len() {
        Some(args[i + 1])
    } else {
        None
    }
}

/// Reading the options from the `i`-th argument on, with `acc` read so far;
/// a later option overrides an earlier one.
pub open spec fn parse_from(args: Seq<Seq<char>>, i: int, acc: ArgsModel) -> Result<
    ArgsModel,
    ParseError,
>
    decreases args.len() + 1 - i,
{
    if i < 0 || i >= args.len() {
        Ok(acc)
    } else {
        match option_step(args[i], next_arg(args, i), acc) {
            Step::Next(m, took_value) => parse_from(
                args,
                i + if took_value {
                    2int
                } else {
                    1int
                },
                m,
            ),
            Step::Stop(e) => Err(e),
        }
    }
}

/// The options given by `args`, the arguments after `prompt`.
pub open spec fn spec_parse_prompt_args(args: Seq<Seq<char>>) -> Result<ArgsModel, ParseError> {
    parse_from(args, 0, default_args())
}

/// The options of `prompt`, read from the arguments that follow it.
pub fn parse_prompt_args(args: &[String]) -> (r: Result<PromptArgs, ParseError>)
    ensures
        r matches Ok(parsed) ==> spec_parse_prompt_args(arg_views(args@)) == Ok::<
            ArgsModel,
            ParseError,
        >(parsed@),
        r matches Err(e) ==> spec_parse_prompt_args(arg_views(args@)) == Err::<ArgsModel, ParseError>(
            e,
        ),
{
    let ghost views = arg_views(args@);
    let mut parsed = PromptArgs {
        status: 0,
        cwd: None,
        host: None,
        user: None,
        shell: Shell::Zsh,
        prompt_escape: PromptEscape::Raw,
    };
    let len = args.len();
    let mut index: usize = 0;
    while index < len
        invariant
            len == args@.len(),
            views == arg_views(args@),
            index <= len,
            spec_parse_prompt_args(views) == parse_from(views, index as int, parsed@),
        decreases len - index,
    {
        let arg = args[index].as_str();
        let mut takes_value = false;
        let ghost old_model = parsed@;
        assert(views[index as int] == arg@);
        if index + 1 < len {
            assert(views[index + 1] == args@[index + 1]@);
        }
        if let Some(value) = strip_prefix(arg, "--status=") {
            parsed.status = parse_status(value);
        } else if str_eq(arg, "--status") {
            takes_value = true;
            let value = if index + 1 < len {
                args[index + 1].as_str()
            } else {
                "0"
            };
            parsed.status = parse_status(value);
        } else if let Some(value) = strip_prefix(arg, "--cwd=") {
            parsed.cwd = Some(value.to_owned());
        } else if str_eq(arg, "--cwd") {
            takes_value = true;
            if index + 1 < len {
                parsed.cwd = Some(args[index + 1].as_str().to_owned());
            } else {
                return Err(ParseError::MissingValue("--cwd"));
            }
        } else if let Some(value) = strip_prefix(arg, "--host=") {
            parsed.host = Some(value.to_owned());
        } else if str_eq(arg, "--host") {
            takes_value = true;
            if index + 1 < len {
                parsed.host = Some(args[index + 1].as_str().to_owned());
            } else {
                return Err(ParseError::MissingValue("--host"));
            }
        } else if let Some(value) = strip_prefix(arg, "--user=") {
            parsed.user = Some(value.to_owned());
        } else if str_eq(arg, "--user") {
            takes_value = true;
            if index + 1 < len {
                parsed.user = Some(args[index + 1].as_str().to_owned());
            } else {
                return Err(ParseError::MissingValue("--user"));
            }
        } else if let Some(value) = strip_prefix(arg, "--shell=") {
            parsed.shell = match parse_shell(value) {
                Ok(shell) => shell,
                Err(e) => {
                    return Err(e);
                },
            };
        } else if str_eq(arg, "--shell") {
            takes_value = true;
            let value = if index + 1 < len {
                args[index + 1].as_str()
            } else {
                ""
            };
            parsed.shell = match parse_shell(value) {
                Ok(shell) => shell,
                Err(e) => {
                    return Err(e);
                },
            };
        } else if let Some(value) = strip_prefix(arg, "--prompt-escape=") {
            parsed.prompt_escape = match parse_prompt_escape(value) {
                Ok(escape) => escape,
                Err(e) => {
                    return Err(e);
                },
            };
        } else if str_eq(arg, "--prompt-escape") {
            takes_value = true;
            let value = if index + 1 < len {
                args[index + 1].as_str()
            } else {
                ""
            };
            parsed.prompt_escape = match parse_prompt_escape(value) {
                Ok(escape) => escape,
                Err(e) => {
                    return Err(e);
                },
            };
        } else {
            return Err(ParseError::Usage);
        }
        assert(parse_from(views, index as int, old_model) == parse_from(
            views,
            index + (if takes_value {
                2int
            } else {
                1int
            }),
            parsed@,
        ));
        index = if !takes_value {
            index + 1
        } else if index + 1 < len {
            index + 2
        } else {
            len
        };
    }
    Ok(parsed)
}

/// `value` with each `'` written as `'\''`: the text that stands between
/// single quotes for a POSIX shell to read back `value`.
pub open spec fn quote_escaped(value: Seq<char>) -> Seq<char>
    decreases value.len(),
{
    if value.len() == 0 {
        seq![]
    } else {
        (if value[0] == '\'' {
            seq!['\'', '\\', '\'', '\'']
        } else {
            seq![value[0]]
        }) + quote_escaped(value.skip(1))
    }
}

/// `value` as a single-quoted shell word.
pub open spec fn single_quoted(value: Seq<char>) -> Seq<char> {
    seq!['\''] + quote_escaped(value) + seq!['\'']
}

/// Appends `value` as a single-quoted shell word.
pub fn write_single_quoted(out: &mut String, value: &str)
    ensures
        final(out)@ == old(out)@ + single_quoted(value@),
{
    let chars = chars_of(value);
    let ghost v = value@;
    push_char(out, '\'');
    let ghost start = out@;
    let mut i: usize = 0;
    assert(v.skip(0) =~= v);
    while i < chars.len()
        invariant
            chars@ == v,
            i <= chars.len(),
            start + quote_escaped(v) == out@ + quote_escaped(v.skip(i as int)),
        decreases chars.len() - i,
    {
        let ghost before = out@;
        let c = chars[i];
        assert(v.skip(i as int)[0] == c);
        assert(v.skip(i as int).skip(1) =~= v.skip(i + 1));
        if c == '\'' {
            push_char(out, '\'');
            push_char(out, '\\');
            push_char(out, '\'');
            push_char(out, '\'');
        } else {
            push_char(out, c);
        }
        assert(out@ =~= before + (if c == '\'' {
            seq!['\'', '\\', '\'', '\'']
        } else {
            seq![c]
        }));
        i = i + 1;
    }
    assert(v.skip(i as int) =~= Seq::<char>::empty());
    push_char(out, '\'');
    assert(out@ =~= old(out)@ + single_quoted(v));
}

/// How a POSIX shell reads a word made of single-quoted parts and backslash
/// escapes; `quoted` tells whether it is inside single quotes.
pub open spec fn shell_unquote(s: Seq<char>, quoted: bool) -> Seq<char>
    decreases s.len(),
{
    if s.len() == 0 {
        seq![]
    } else if quoted {
        if s[0] == '\'' {
            shell_unquote(s.skip(1), false)
        } else {
            seq![s[0]] + shell_unquote(s.skip(1), true)
        }
    } else if s[0] == '\'' {
        shell_unquote(s.skip(1), true)
    } else if s[0] == '\\' && s.len() > 1 {
        seq![s[1]] + shell_unquote(s.skip(2), false)
    } else {
        seq![s[0]] + shell_unquote(s.skip(1), false)
    }
}

proof fn lemma_unquote_escaped(value: Seq<char>, tail: Seq<char>)
    ensures
        shell_unquote(quote_escaped(value) + seq!['\''] + tail, true) == value + shell_unquote(
            tail,
            false,
        ),
    decreases value.len(),
{
    let rest = value.skip(1);
    if value.len() == 0 {
        let whole = seq!['\''] + tail;
        assert(quote_escaped(value) + seq!['\''] + tail =~= whole);
        assert(whole.skip(1) =~= tail);
        assert(shell_unquote(whole, true) == shell_unquote(tail, false));
        assert(value + shell_unquote(tail, false) =~= shell_unquote(tail, false));
    } else {
        lemma_unquote_escaped(rest, tail);
        let after = quote_escaped(rest) + seq!['\''] + tail;
        assert(shell_unquote(after, true) == rest + shell_unquote(tail, false));
        assert(value =~= seq![value[0]] + rest);
        if value[0] == '\'' {
            let whole = seq!['\'', '\\', '\'', '\''] + after;
            let w1 = seq!['\\', '\'', '\''] + after;
            let w3 = seq!['\''] + after;
            assert(quote_escaped(value) + seq!['\''] + tail =~= whole);
            assert(whole.skip(1) =~= w1);
            assert(w1.skip(2) =~= w3);
            assert(w3.skip(1) =~= after);
            assert(shell_unquote(w3, false) == shell_unquote(after, true));
            assert(shell_unquote(w1, false) == seq!['\''] + shell_unquote(w3, false));
            assert(shell_unquote(whole, true) == shell_unquote(w1, false));
            assert(seq!['\''] + (rest + shell_unquote(tail, false)) =~= value + shell_unquote(
                tail,
                false,
            ));
        } else {
            let whole = seq![value[0]] + after;
            assert(quote_escaped(value) + seq!['\''] + tail =~= whole);
            assert(whole.skip(1) =~= after);
            assert(shell_unquote(whole, true) == seq![value[0]] + shell_unquote(after, true));
            assert(seq![value[0]] + (rest + shell_unquote(tail, false)) =~= value + shell_unquote(
                tail,
                false,
            ));
        }
    }
}

/// A shell reads the quoted word back as the value that was quoted.
pub proof fn law_single_quoted_reads_back(value: Seq<char>)
    ensures
        shell_unquote(single_quoted(value), false) == value,
{
    let q = single_quoted(value);
    lemma_unquote_escaped(value, seq![]);
    assert(q.skip(1) =~= quote_escaped(value) + seq!['\''] + Seq::<char>::empty());
    assert(value + shell_unquote(Seq::<char>::empty(), false) =~= value);
}

/// `s` with each occurrence of `pat`, leftmost first, replaced by `repl`.
pub open spec fn substituted(s: Seq<char>, pat: Seq<char>, repl: Seq<char>) -> Seq<char>
    decreases s.len(),
{
    if s.len() == 0 {
        seq![]
    } else if pat.len() > 0 && has_prefix(s, pat) {
        repl + substituted(s.skip(pat.len() as int), pat, repl)
    } else {
        seq![s[0]] + substituted(s.skip(1), pat, repl)
    }
}

/// The placeholder in the shell integration scripts for the program's path.
pub open spec fn binary_placeholder() -> Seq<char> {
    "__RS_PROMPT_BIN__"@
}

/// Whether `pat` occurs in `chars` at `at`.
fn occurs_at(chars: &Vec<char>, at: usize, pat: &Vec<char>) -> (r: bool)
    requires
        at <= chars.len(),
    ensures
        r == has_prefix(chars@.skip(at as int), pat@),
{
    let ghost rest = chars@.skip(at as int);
    if pat.len() > chars.len() - at {
        return false;
    }
    let mut k: usize = 0;
    while k < pat.len()
        invariant
            rest == chars@.skip(at as int),
            at <= chars.len(),
            pat.len() <= chars.len() - at,
            k <= pat.len(),
            forall|j: int| 0 <= j < k ==> rest[j] == pat@[j],
        decreases pat.len() - k,
    {
        assert(rest[k as int] == chars@[at + k]);
        if chars[at + k] != pat[k] {
            assert(rest.take(pat@.len() as int)[k as int] != pat@[k as int]);
            return false;
        }
        k = k + 1;
    }
    assert(rest.take(pat@.len() as int) =~= pat@);
    true
}

/// Writes `script` with each placeholder for the program's path replaced by
/// `exe_path` as a single-quoted shell word.
pub fn write_init_script(out: &mut String, exe_path: &str, script: &str)
    ensures
        final(out)@ == old(out)@ + substituted(
            script@,
            binary_placeholder(),
            single_quoted(exe_path@),
        ),
{
    let mut quoted = String::new();
    write_single_quoted(&mut quoted, exe_path);
    let ghost repl = single_quoted(exe_path@);
    assert(quoted@ =~= repl);
    let placeholder = "__RS_PROMPT_BIN__";
    let pat = chars_of(placeholder);
    proof {
        reveal_strlit("__RS_PROMPT_BIN__");
    }
    assert(pat@.len() > 0);
    let chars = chars_of(script);
    let ghost s = script@;
    let ghost pv = binary_placeholder();
    let mut i: usize = 0;
    assert(s.skip(0) =~= s);
    while i < chars.len()
        invariant
            chars@ == s,
            pat@ == pv,
            pv.len() > 0,
            quoted@ == repl,
            i <= chars.len(),
            old(out)@ + substituted(s, pv, repl) == out@ + substituted(s.skip(i as int), pv, repl),
        decreases chars.len() - i,
    {
        let ghost rest = s.skip(i as int);
        if occurs_at(&chars, i, &pat) {
            out.append(quoted.as_str());
            assert(rest.skip(pv.len() as int) =~= s.skip(i + pat.len()));
            i = i + pat.len();
        } else {
            push_char(out, chars[i]);
            assert(rest[0] == s[i as int]);
            assert(rest.skip(1) =~= s.skip(i + 1));
            i = i + 1;
        }
    }
    assert(s.skip(i as int) =~= Seq::<char>::empty());
    assert(out@ =~= out@ + substituted(s.skip(i as int), pv, repl));
}

/// A script without the placeholder is written as it is.
pub proof fn law_script_without_placeholder_unchanged(s: Seq<char>, repl: Seq<char>)
    requires
        forall|i: int| 0 <= i < s.len() ==> !has_prefix(#[trigger] s.skip(i), binary_placeholder()),
    ensures
        substituted(s, binary_placeholder(), repl) == s,
    decreases s.len(),
{
    if s.len() > 0 {
        assert(s.skip(0) =~= s);
        let t = s.skip(1);
        assert forall|i: int| 0 <= i < t.len() implies !has_prefix(
            #[trigger] t.skip(i),
            binary_placeholder(),
        ) by {
            assert(t.skip(i) =~= s.skip(i + 1));
        }
        law_script_without_placeholder_unchanged(t, repl);
        assert(s =~= seq![s[0]] + t);
    }
}

/// What the command line asks for.
#[derive(Clone, Copy, Debug, PartialEq, Eq, Structural)]
pub enum Command {
    /// Print the prompt.
    Prompt,
    /// Print the integration script for a shell.
    Init(Shell),
    /// Print the usage text and fail.
    Usage,
}

/// The subcommand given by `args` (the program's name first): `prompt` where
/// none is given, `init` with the shell, `zsh` where none is given.
pub open spec fn spec_parse_command(args: Seq<Seq<char>>) -> Command {
    let command = if args.len() > 1 {
        args[1]
    } else {
        "prompt"@
    };
    if command == "prompt"@ {
        Command::Prompt
    } else if command == "init"@ {
        let shell = if args.len() > 2 {
            args[2]
        } else {
            "zsh"@
        };
        match shell_named(shell) {
            Some(s) => Command::Init(s),
            None => Command::Usage,
        }
    } else {
        Command::Usage
    }
}

/// The subcommand of the command line `args`.
pub fn parse_command(args: &[String]) -> (command: Command)
    ensures
        command == spec_parse_command(arg_views(args@)),
{
    let ghost views = arg_views(args@);
    let command = if args.len() > 1 {
        assert(views[1] == args@[1]@);
        args[1].as_str()
    } else {
        "prompt"
    };
    if str_eq(command, "prompt") {
        Command::Prompt
    } else if str_eq(command, "init") {
        let shell = if args.len() > 2 {
            assert(views[2] == args@[2]@);
            args[2].as_str()
        } else {
            "zsh"
        };
        match parse_shell(shell) {
            Ok(s) => Command::Init(s),
            Err(_) => Command::Usage,
        }
    } else {
        Command::Usage
    }
}

/// The program's path as the integration script should call it: the first
/// argument, or `rs-prompt` where there is none.
pub fn init_exe_path(args: &[String]) -> (path: &str)
    ensures
        path@ == (if args@.len() > 0 {
            args@[0]@
        } else {
            "rs-prompt"@
        }),
{
    if args.len() > 0 {
        args[0].as_str()
    } else {
        "rs-prompt"
    }
}

/// The user name: `$USER` where it is set and not empty, else `$LOGNAME`
/// likewise, else empty.
pub open spec fn spec_default_user(user: Option<Seq<char>>, logname: Option<Seq<char>>) -> Seq<
    char,
> {
    match user {
        Some(u) if u.len() > 0 => u,
        _ => match logname {
            Some(l) if l.len() > 0 => l,
            _ => seq![],
        },
    }
}

pub open spec fn opt_str_view(o: Option<&str>) -> Option<Seq<char>> {
    match o {
        Some(s) => Some(s@),
        None => None,
    }
}

/// The user name, given the values of `$USER` and `$LOGNAME` where set.
pub fn default_user(user: Option<&str>, logname: Option<&str>) -> (name: String)
    ensures
        name@ == spec_default_user(opt_str_view(user), opt_str_view(logname)),
{
    if let Some(u) = user {
        if u.unicode_len() > 0 {
            return u.to_owned();
        }
    }
    if let Some(l) = logname {
        if l.unicode_len() > 0 {
            return l.to_owned();
        }
    }
    String::new()
}

/// `s` without the line breaks (`\r` and `\n`) that end it.
pub open spec fn trim_line_breaks(s: Seq<char>) -> Seq<char>
    decreases s.len(),
{
    if s.len() > 0 && (s.last() == '\r' || s.last() == '\n') {
        trim_line_breaks(s.drop_last())
    } else {
        s
    }
}

/// The host name: `$HOST` where it is set and not empty; else the contents of
/// the first readable host-name file without its final line breaks, where
/// that leaves something; else `unknown`.
pub open spec fn spec_system_hostname(host: Option<Seq<char>>, file: Option<Seq<char>>) -> Seq<
    char,
> {
    match host {
        Some(h) if h.len() > 0 => h,
        _ => match file {
            Some(f) if trim_line_breaks(f).len() > 0 => trim_line_breaks(f),
            _ => "unknown"@,
        },
    }
}

/// The host name, given the value of `$HOST` where set and the contents of
/// the first host-name file that could be read.
pub fn system_hostname(host: Option<&str>, hostname_file: Option<&str>) -> (name: String)
    ensures
        name@ == spec_system_hostname(opt_str_view(host), opt_str_view(hostname_file)),
{
    if let Some(h) = host {
        if h.unicode_len() > 0 {
            return h.to_owned();
        }
    }
    if let Some(contents) = hostname_file {
        let chars = chars_of(contents);
        let ghost f = contents@;
        let mut end = chars.len();
        assert(f.take(end as int) =~= f);
        while end > 0 && (chars[end - 1] == '\r' || chars[end - 1] == '\n')
            invariant
                chars@ == f,
                end <= chars.len(),
                trim_line_breaks(f) == trim_line_breaks(f.take(end as int)),
            decreases end,
        {
            assert(f.take(end as int).drop_last() =~= f.take(end - 1));
            end = end - 1;
        }
        assert(trim_line_breaks(f.take(end as int)) == f.take(end as int));
        if end > 0 {
            return contents.substring_char(0, end).to_owned();
        }
    }
    "unknown".to_owned()
}

proof fn lemma_decimal_digits(n: nat)
    ensures
        decimal(n).len() > 0,
        all_digits(decimal(n)),
        decimal_value(decimal(n)) == n,
    decreases n,
{
    if n < 10 {
        let d = digit_char(n as int);
        assert((d as u32) == n + 48);
        assert(decimal(n).drop_last() =~= Seq::<char>::empty());
        assert(('0' as u32) == 48);
        assert(decimal(n).last() == d);
        assert(decimal_value(Seq::<char>::empty()) == 0);
    } else {
        lemma_decimal_digits(n / 10);
        let d = digit_char((n % 10) as int);
        assert((d as u32) == n % 10 + 48);
        let x = decimal(n / 10);
        assert(decimal(n).drop_last() =~= x);
        assert(decimal(n).last() == d);
        assert(('0' as u32) == 48);
        assert(decimal_value(decimal(n)) == decimal_value(x) * 10 + (n % 10));
        assert((n / 10) * 10 + n % 10 == n);
        assert forall|i: int| 0 <= i < decimal(n).len() implies is_digit(#[trigger] decimal(n)[i]) by {
            if i < x.len() {
                assert(decimal(n)[i] == x[i]);
            }
        }
    }
}

/// The exit status as the prompt prints it reads back as the same status.
pub proof fn law_printed_status_reads_back(status: u8)
    ensures
        spec_parse_status(decimal(status as nat)) == status,
{
    lemma_decimal_digits(status as nat);
    let s = decimal(status as nat);
    assert(is_digit(s[0]));
}

/// Reading options at an offset reads the same as reading the arguments from
/// that offset on.
proof fn lemma_parse_shift(p: Seq<Seq<char>>, rest: Seq<Seq<char>>, i: int, acc: ArgsModel)
    requires
        0 <= i,
    ensures
        parse_from(p + rest, p.len() + i, acc) == parse_from(rest, i, acc),
    decreases rest.len() + 1 - i,
{
    if i < rest.len() {
        let a = p + rest;
        assert(a[p.len() + i] == rest[i]);
        assert(next_arg(a, p.len() + i) == next_arg(rest, i)) by {
            if i + 1 < rest.len() {
                assert(a[p.len() + i + 1] == rest[i + 1]);
            }
        }
        match option_step(rest[i], next_arg(rest, i), acc) {
            Step::Next(m, took_value) => {
                let n: int = if took_value {
                    2
                } else {
                    1
                };
                lemma_parse_shift(p, rest, i + n, m);
                assert(p.len() + i + n == p.len() + (i + n));
            },
            Step::Stop(_) => {},
        }
    }
}

/// `s` does not start with `lit`, nor is it `lit`, where they differ at `k`.
proof fn lemma_differs_at(s: Seq<char>, lit: Seq<char>, k: int)
    requires
        0 <= k < lit.len(),
        k < s.len(),
        s[k] != lit[k],
    ensures
        !has_prefix(s, lit),
        s != lit,
{
    if has_prefix(s, lit) {
        assert(s.take(lit.len() as int)[k] == s[k]);
    }
}

/// `s` is not `lit` where it is shorter.
proof fn lemma_shorter(s: Seq<char>, lit: Seq<char>)
    requires
        s.len() < lit.len(),
    ensures
        !has_prefix(s, lit),
        s != lit,
{
}

/// The names of the options of `prompt` that take a value.
pub open spec fn is_option_name(name: Seq<char>) -> bool {
    ||| name == "--status"@
    ||| name == "--cwd"@
    ||| name == "--host"@
    ||| name == "--user"@
    ||| name == "--shell"@
    ||| name == "--prompt-escape"@
}

/// `--name=value` and `--name value` mean the same, whatever follows.
pub proof fn law_option_spellings_agree(name: Seq<char>, value: Seq<char>, rest: Seq<Seq<char>>)
    requires
        is_option_name(name),
    ensures
        spec_parse_prompt_args(seq![name + seq!['='] + value] + rest) == spec_parse_prompt_args(
            seq![name, value] + rest,
        ),
{
    reveal_strlit("--status");
    reveal_strlit("--status=");
    reveal_strlit("--cwd");
    reveal_strlit("--cwd=");
    reveal_strlit("--host");
    reveal_strlit("--host=");
    reveal_strlit("--user");
    reveal_strlit("--user=");
    reveal_strlit("--shell");
    reveal_strlit("--shell=");
    reveal_strlit("--prompt-escape");
    reveal_strlit("--prompt-escape=");
    let joined_arg = name + seq!['='] + value;
    let one = seq![joined_arg] + rest;
    let two = seq![name, value] + rest;
    let s1 = option_step(joined_arg, next_arg(one, 0), default_args());
    let s2 = option_step(name, next_arg(two, 0), default_args());
    assert(one[0] == joined_arg);
    assert(two[0] == name);
    assert(two[1] == value);
    assert(joined_arg.take(name.len() + 1int) =~= name + seq!['=']);
    assert(name + seq!['='] =~= name.push('='));
    assert(joined_arg.skip(name.len() + 1int) =~= value);
    let ls = "--status"@;
    let lc = "--cwd"@;
    let lh = "--host"@;
    let lu = "--user"@;
    let lsh = "--shell"@;
    let lp = "--prompt-escape"@;
    assert(ls =~= seq!['-', '-', 's', 't', 'a', 't', 'u', 's']);
    assert(lc =~= seq!['-', '-', 'c', 'w', 'd']);
    assert(lh =~= seq!['-', '-', 'h', 'o', 's', 't']);
    assert(lu =~= seq!['-', '-', 'u', 's', 'e', 'r']);
    assert(lsh =~= seq!['-', '-', 's', 'h', 'e', 'l', 'l']);
    assert(lp.len() == 15 && lp[2] == 'p');
    assert("--status="@ =~= ls.push('='));
    assert("--cwd="@ =~= lc.push('='));
    assert("--host="@ =~= lh.push('='));
    assert("--user="@ =~= lu.push('='));
    assert("--shell="@ =~= lsh.push('='));
    assert("--prompt-escape="@ =~= lp.push('='));
    assert(joined_arg[2] == name[2] && joined_arg[3] == name[3]);
    if name == ls {
        assert(has_prefix(joined_arg, "--status="@));
        assert(has_prefix(two[0], "--status="@) == false);
    } else if name == lc {
        lemma_differs_at(joined_arg, "--status="@, 2);
        lemma_differs_at(joined_arg, "--status"@, 2);
        lemma_differs_at(name, "--status="@, 2);
        lemma_differs_at(name, "--status"@, 2);
        lemma_shorter(name, "--cwd="@);
        assert(has_prefix(joined_arg, "--cwd="@));
    } else if name == lh {
        lemma_differs_at(joined_arg, "--status="@, 2);
        lemma_differs_at(joined_arg, "--status"@, 2);
        lemma_differs_at(joined_arg, "--cwd="@, 2);
        lemma_differs_at(joined_arg, "--cwd"@, 2);
        lemma_differs_at(name, "--status="@, 2);
        lemma_differs_at(name, "--status"@, 2);
        lemma_differs_at(name, "--cwd="@, 2);
        lemma_differs_at(name, "--cwd"@, 2);
        lemma_shorter(name, "--host="@);
        assert(has_prefix(joined_arg, "--host="@));
    } else if name == lu {
        lemma_differs_at(joined_arg, "--status="@, 2);
        lemma_differs_at(joined_arg, "--status"@, 2);
        lemma_differs_at(joined_arg, "--cwd="@, 2);
        lemma_differs_at(joined_arg, "--cwd"@, 2);
        lemma_differs_at(joined_arg, "--host="@, 2);
        lemma_differs_at(joined_arg, "--host"@, 2);
        lemma_differs_at(name, "--status="@, 2);
        lemma_differs_at(name, "--status"@, 2);
        lemma_differs_at(name, "--cwd="@, 2);
        lemma_differs_at(name, "--cwd"@, 2);
        lemma_differs_at(name, "--host="@, 2);
        lemma_differs_at(name, "--host"@, 2);
        lemma_shorter(name, "--user="@);
        assert(has_prefix(joined_arg, "--user="@));
    } else if name == lsh {
        lemma_differs_at(joined_arg, "--status="@, 3);
        lemma_differs_at(joined_arg, "--status"@, 3);
        lemma_differs_at(joined_arg, "--cwd="@, 2);
        lemma_differs_at(joined_arg, "--cwd"@, 2);
        lemma_differs_at(joined_arg, "--host="@, 2);
        lemma_differs_at(joined_arg, "--host"@, 2);
        lemma_differs_at(joined_arg, "--user="@, 2);
        lemma_differs_at(joined_arg, "--user"@, 2);
        lemma_differs_at(name, "--status="@, 3);
        lemma_differs_at(name, "--status"@, 3);
        lemma_differs_at(name, "--cwd="@, 2);
        lemma_differs_at(name, "--cwd"@, 2);
        lemma_differs_at(name, "--host="@, 2);
        lemma_differs_at(name, "--host"@, 2);
        lemma_differs_at(name, "--user="@, 2);
        lemma_differs_at(name, "--user"@, 2);
        lemma_shorter(name, "--shell="@);
        assert(has_prefix(joined_arg, "--shell="@));
    } else {
        assert(name == lp);
        lemma_differs_at(joined_arg, "--status="@, 2);
        lemma_differs_at(joined_arg, "--status"@, 2);
        lemma_differs_at(joined_arg, "--cwd="@, 2);
        lemma_differs_at(joined_arg, "--cwd"@, 2);
        lemma_differs_at(joined_arg, "--host="@, 2);
        lemma_differs_at(joined_arg, "--host"@, 2);
        lemma_differs_at(joined_arg, "--user="@, 2);
        lemma_differs_at(joined_arg, "--user"@, 2);
        lemma_differs_at(joined_arg, "--shell="@, 2);
        lemma_differs_at(joined_arg, "--shell"@, 2);
        lemma_differs_at(name, "--status="@, 2);
        lemma_differs_at(name, "--status"@, 2);
        lemma_differs_at(name, "--cwd="@, 2);
        lemma_differs_at(name, "--cwd"@, 2);
        lemma_differs_at(name, "--host="@, 2);
        lemma_differs_at(name, "--host"@, 2);
        lemma_differs_at(name, "--user="@, 2);
        lemma_differs_at(name, "--user"@, 2);
        lemma_differs_at(name, "--shell="@, 2);
        lemma_differs_at(name, "--shell"@, 2);
        lemma_shorter(name, "--prompt-escape="@);
        assert(has_prefix(joined_arg, "--prompt-escape="@));
    }
    assert(next_arg(two, 0) == Some(value));
    match s2 {
        Step::Next(m, took_value) => {
            assert(took_value);
            assert(s1 == Step::Next(m, false));
            lemma_parse_shift(seq![joined_arg], rest, 0, m);
            lemma_parse_shift(seq![name, value], rest, 0, m);
        },
        Step::Stop(e) => {
            assert(s1 == Step::Stop(e));
        },
    }
}

/// An option that is not a bare option name does not read the argument after it.
proof fn lemma_step_ignores_next(arg: Seq<char>, n1: Option<Seq<char>>, n2: Option<Seq<char>>, acc: ArgsModel)
    requires
        !is_option_name(arg),
    ensures
        option_step(arg, n1, acc) == option_step(arg, n2, acc),
{
}

/// Reading `a + b` reads `a` first, then `b`, where `a` does not end with a
/// bare option name (which would take the first of `b` as its value).
proof fn lemma_parse_append(a: Seq<Seq<char>>, b: Seq<Seq<char>>, i: int, acc: ArgsModel)
    requires
        0 <= i <= a.len(),
        a.len() == 0 || !is_option_name(a.last()),
    ensures
        parse_from(a + b, i, acc) == (match parse_from(a, i, acc) {
            Ok(m) => parse_from(a + b, a.len() as int, m),
            Err(e) => Err(e),
        }),
    decreases a.len() - i,
{
    if i < a.len() {
        let ab = a + b;
        assert(ab[i] == a[i]);
        if i + 1 < a.len() {
            assert(ab[i + 1] == a[i + 1]);
            assert(next_arg(ab, i) == next_arg(a, i));
        } else {
            assert(a[i] == a.last());
            lemma_step_ignores_next(a[i], next_arg(ab, i), next_arg(a, i), acc);
        }
        match option_step(a[i], next_arg(a, i), acc) {
            Step::Next(m, took_value) => {
                if took_value {
                    assert(is_option_name(a[i]));
                    assert(i + 1 < a.len());
                    lemma_parse_append(a, b, i + 2, m);
                } else {
                    lemma_parse_append(a, b, i + 1, m);
                }
            },
            Step::Stop(_) => {},
        }
    }
}

/// Options are read from left to right: an option appended after options
/// that read without error is applied last, to what they set (a later
/// option overrides an earlier one). The appended option is one that
/// carries its value (`--name=value`), and the options before it do not end
/// in a bare option name waiting for its value.
pub proof fn law_options_apply_in_order(args: Seq<Seq<char>>, arg: Seq<char>)
    requires
        spec_parse_prompt_args(args) is Ok,
        args.len() == 0 || !is_option_name(args.last()),
        !is_option_name(arg),
    ensures
        spec_parse_prompt_args(args.push(arg)) == (match option_step(
            arg,
            None,
            spec_parse_prompt_args(args)->Ok_0,
        ) {
            Step::Next(m, _) => Ok(m),
            Step::Stop(e) => Err(e),
        }),
{
    let m = spec_parse_prompt_args(args)->Ok_0;
    lemma_parse_append(args, seq![arg], 0, default_args());
    let all = args + seq![arg];
    assert(args.push(arg) =~= all);
    assert(all[args.len() as int] == arg);
    assert(next_arg(all, args.len() as int) == None::<Seq<char>>);
    let n = args.len() as int;
    match option_step(arg, None, m) {
        Step::Next(m2, took_value) => {
            assert(!took_value) by {
                if took_value {
                    assert(is_option_name(arg));
                }
            }
            assert(parse_from(all, n + 1, m2) == Ok::<ArgsModel, ParseError>(m2));
            assert(parse_from(all, n, m) == Ok::<ArgsModel, ParseError>(m2));
        },
        Step::Stop(e) => {
            assert(parse_from(all, n, m) == Err::<ArgsModel, ParseError>(e));
        },
    }
}

/// The subcommand is read from the second argument: none or `prompt` prints
/// the prompt; `init` prints the integration script of exactly the shell
/// named by the third argument (`zsh` where there is none), and the usage
/// text for an unknown shell; anything else prints the usage text.
pub proof fn law_command_selects_named_shell(args: Seq<Seq<char>>)
    ensures
        args.len() <= 1 ==> spec_parse_command(args) == Command::Prompt,
        args.len() > 1 && args[1] == "prompt"@ ==> spec_parse_command(args) == Command::Prompt,
        args.len() == 2 && args[1] == "init"@ ==> spec_parse_command(args) == Command::Init(
            Shell::Zsh,
        ),
        args.len() > 2 && args[1] == "init"@ && args[2] == "zsh"@ ==> spec_parse_command(args)
            == Command::Init(Shell::Zsh),
        args.len() > 2 && args[1] == "init"@ && args[2] == "bash"@ ==> spec_parse_command(args)
            == Command::Init(Shell::Bash),
        args.len() > 2 && args[1] == "init"@ && args[2] == "fish"@ ==> spec_parse_command(args)
            == Command::Init(Shell::Fish),
        args.len() > 2 && args[1] == "init"@ && args[2] != "zsh"@ && args[2] != "bash"@
            && args[2] != "fish"@ ==> spec_parse_command(args) == Command::Usage,
        args.len() > 1 && args[1] != "prompt"@ && args[1] != "init"@ ==> spec_parse_command(args)
            == Command::Usage,
{
    reveal_strlit("zsh");
    reveal_strlit("bash");
    reveal_strlit("fish");
    reveal_strlit("prompt");
    reveal_strlit("init");
    assert("zsh"@ != "bash"@) by {
        assert("zsh"@.len() != "bash"@.len());
    }
    assert("zsh"@ != "fish"@) by {
        assert("zsh"@.len() != "fish"@.len());
    }
    assert("bash"@ != "fish"@) by {
        assert("bash"@[0] != "fish"@[0]);
    }
    assert("prompt"@ != "init"@) by {
        assert("prompt"@.len() != "init"@.len());
    }
}

/// Each shell and each escaping is named by its own name, and only by it.
pub proof fn law_shell_and_escape_names()
    ensures
        shell_named("zsh"@) == Some(Shell::Zsh),
        shell_named("bash"@) == Some(Shell::Bash),
        shell_named("fish"@) == Some(Shell::Fish),
        escape_named("none"@) == Some(PromptEscape::Raw),
        escape_named("zsh"@) == Some(PromptEscape::Zsh),
        escape_named("bash"@) == Some(PromptEscape::Bash),
        escape_named("fish"@) == Some(PromptEscape::Fish),
        forall|name: Seq<char>|
            name != "zsh"@ && name != "bash"@ && name != "fish"@ ==> #[trigger] shell_named(name)
                is None,
        forall|name: Seq<char>|
            name != "none"@ && name != "zsh"@ && name != "bash"@ && name != "fish"@
                ==> #[trigger] escape_named(name) is None,
{
    reveal_strlit("zsh");
    reveal_strlit("bash");
    reveal_strlit("fish");
    reveal_strlit("none");
    assert("zsh"@ != "bash"@) by {
        assert("zsh"@.len() != "bash"@.len());
    }
    assert("zsh"@ != "fish"@) by {
        assert("zsh"@.len() != "fish"@.len());
    }
    assert("bash"@ != "fish"@) by {
        assert("bash"@[0] != "fish"@[0]);
    }
    assert("none"@ != "zsh"@) by {
        assert("none"@.len() != "zsh"@.len());
    }
    assert("none"@ != "bash"@) by {
        assert("none"@[0] != "bash"@[0]);
    }
    assert("none"@ != "fish"@) by {
        assert("none"@[0] != "fish"@[0]);
    }
}

/// A leading `+` does not change the status.
pub proof fn law_status_plus_sign(digits: Seq<char>)
    requires
        digits.len() > 0,
        digits[0] != '+',
    ensures
        spec_parse_status(seq!['+'] + digits) == spec_parse_status(digits),
{
    assert((seq!['+'] + digits).skip(1) =~= digits);
}

/// A status with any character other than a digit (after an optional
/// leading `+`) reads as 0.
pub proof fn law_status_non_digit_is_zero(value: Seq<char>, i: int)
    requires
        0 <= i < value.len(),
        !is_digit(value[i]),
        !(i == 0 && value[i] == '+'),
    ensures
        spec_parse_status(value) == 0,
{
    if value.len() > 0 && value[0] == '+' {
        let d = value.skip(1);
        if i > 0 {
            assert(d[i - 1] == value[i]);
        }
    }
}

/// Digits read as their decimal value, capped at 255: a further digit
/// multiplies the value read so far by ten and adds itself.
pub proof fn law_status_digit_steps(digits: Seq<char>, d: char)
    requires
        all_digits(digits),
        is_digit(d),
    ensures
        decimal_value(digits.push(d)) == decimal_value(digits) * 10 + (d as u32 - '0' as u32),
        decimal_value(Seq::<char>::empty()) == 0,
{
    assert(digits.push(d).drop_last() =~= digits);
}

/// A script with one placeholder, and none before it, is written with the
/// placeholder replaced by the quoted program path.
pub proof fn law_placeholder_replaced(before: Seq<char>, after: Seq<char>, repl: Seq<char>)
    requires
        forall|i: int|
            0 <= i < before.len() ==> !has_prefix(
                #[trigger] (before + binary_placeholder() + after).skip(i),
                binary_placeholder(),
            ),
    ensures
        substituted(before + binary_placeholder() + after, binary_placeholder(), repl) == before
            + repl + substituted(after, binary_placeholder(), repl),
    decreases before.len(),
{
    reveal_strlit("__RS_PROMPT_BIN__");
    let pat = binary_placeholder();
    assert(pat.len() > 0);
    let whole = before + pat + after;
    if before.len() == 0 {
        assert(whole =~= pat + after);
        assert(has_prefix(whole, pat)) by {
            assert(whole.take(pat.len() as int) =~= pat);
        }
        assert(whole.skip(pat.len() as int) =~= after);
        assert(before + repl + substituted(after, pat, repl) =~= repl + substituted(after, pat, repl));
    } else {
        assert(whole.skip(0) =~= whole);
        assert(!has_prefix(whole, pat));
        let b2 = before.skip(1);
        assert(whole.skip(1) =~= b2 + pat + after);
        assert forall|i: int| 0 <= i < b2.len() implies !has_prefix(
            #[trigger] (b2 + pat + after).skip(i),
            pat,
        ) by {
            assert((b2 + pat + after).skip(i) =~= whole.skip(i + 1));
        }
        law_placeholder_replaced(b2, after, repl);
        assert(whole[0] == before[0]);
        assert(before =~= seq![before[0]] + b2);
    }
}

/// A single argument is read as one option step.
proof fn lemma_single_arg(arg: Seq<char>)
    ensures
        spec_parse_prompt_args(seq![arg]) == match option_step(arg, None, default_args()) {
            Step::Next(m, _) => Ok::<ArgsModel, ParseError>(m),
            Step::Stop(e) => Err(e),
        },
{
    let args = seq![arg];
    assert(args[0] == arg);
    assert(next_arg(args, 0) == None::<Seq<char>>);
    match option_step(arg, None, default_args()) {
        Step::Next(m, took_value) => {
            assert(parse_from(args, 1, m) == Ok::<ArgsModel, ParseError>(m));
            assert(parse_from(args, 2, m) == Ok::<ArgsModel, ParseError>(m));
        },
        Step::Stop(_) => {},
    }
}

/// `--status=value` sets the status option to the value, and nothing else.
pub proof fn law_status_option_sets_its_field(v: Seq<char>)
    ensures
        spec_parse_prompt_args(seq!["--status="@ + v]) == Ok::<ArgsModel, ParseError>(
            ArgsModel { status: spec_parse_status(v), ..default_args() },
        ),
{
    reveal_strlit("--status=");
    let arg = "--status="@ + v;
    assert(arg.take("--status="@.len() as int) =~= "--status="@);
    assert(arg.skip("--status="@.len() as int) =~= v);
    lemma_single_arg(arg);
}

/// `--cwd=value` sets the cwd option to the value, and nothing else.
pub proof fn law_cwd_option_sets_its_field(v: Seq<char>)
    ensures
        spec_parse_prompt_args(seq!["--cwd="@ + v]) == Ok::<ArgsModel, ParseError>(
            ArgsModel { cwd: Some(v), ..default_args() },
        ),
{
    reveal_strlit("--cwd=");
    reveal_strlit("--status=");
    reveal_strlit("--status");
    let arg = "--cwd="@ + v;
    assert(arg.take("--cwd="@.len() as int) =~= "--cwd="@);
    assert(arg.skip("--cwd="@.len() as int) =~= v);
    assert(arg[2] == 'c');
    lemma_differs_at(arg, "--status="@, 2);
    assert(arg[2] == 'c');
    lemma_differs_at(arg, "--status"@, 2);
    lemma_single_arg(arg);
}

/// `--host=value` sets the host option to the value, and nothing else.
pub proof fn law_host_option_sets_its_field(v: Seq<char>)
    ensures
        spec_parse_prompt_args(seq!["--host="@ + v]) == Ok::<ArgsModel, ParseError>(
            ArgsModel { host: Some(v), ..default_args() },
        ),
{
    reveal_strlit("--host=");
    reveal_strlit("--status=");
    reveal_strlit("--status");
    reveal_strlit("--cwd=");
    reveal_strlit("--cwd");
    let arg = "--host="@ + v;
    assert(arg.take("--host="@.len() as int) =~= "--host="@);
    assert(arg.skip("--host="@.len() as int) =~= v);
    assert(arg[2] == 'h');
    lemma_differs_at(arg, "--status="@, 2);
    assert(arg[2] == 'h');
    lemma_differs_at(arg, "--status"@, 2);
    assert(arg[2] == 'h');
    lemma_differs_at(arg, "--cwd="@, 2);
    assert(arg[2] == 'h');
    lemma_differs_at(arg, "--cwd"@, 2);
    lemma_single_arg(arg);
}

/// `--user=value` sets the user option to the value, and nothing else.
pub proof fn law_user_option_sets_its_field(v: Seq<char>)
    ensures
        spec_parse_prompt_args(seq!["--user="@ + v]) == Ok::<ArgsModel, ParseError>(
            ArgsModel { user: Some(v), ..default_args() },
        ),
{
    reveal_strlit("--user=");
    reveal_strlit("--status=");
    reveal_strlit("--status");
    reveal_strlit("--cwd=");
    reveal_strlit("--cwd");
    reveal_strlit("--host=");
    reveal_strlit("--host");
    let arg = "--user="@ + v;
    assert(arg.take("--user="@.len() as int) =~= "--user="@);
    assert(arg.skip("--user="@.len() as int) =~= v);
    assert(arg[2] == 'u');
    lemma_differs_at(arg, "--status="@, 2);
    assert(arg[2] == 'u');
    lemma_differs_at(arg, "--status"@, 2);
    assert(arg[2] == 'u');
    lemma_differs_at(arg, "--cwd="@, 2);
    assert(arg[2] == 'u');
    lemma_differs_at(arg, "--cwd"@, 2);
    assert(arg[2] == 'u');
    lemma_differs_at(arg, "--host="@, 2);
    assert(arg[2] == 'u');
    lemma_differs_at(arg, "--host"@, 2);
    lemma_single_arg(arg);
}

/// `--shell=value` sets the shell option to the value, and nothing else.
pub proof fn law_shell_option_sets_its_field(v: Seq<char>)
    ensures
        spec_parse_prompt_args(seq!["--shell="@ + v]) == match shell_named(v) {
            Some(shell) => Ok::<ArgsModel, ParseError>(ArgsModel { shell, ..default_args() }),
            None => Err(ParseError::Usage),
        },
{
    reveal_strlit("--shell=");
    reveal_strlit("--status=");
    reveal_strlit("--status");
    reveal_strlit("--cwd=");
    reveal_strlit("--cwd");
    reveal_strlit("--host=");
    reveal_strlit("--host");
    reveal_strlit("--user=");
    reveal_strlit("--user");
    let arg = "--shell="@ + v;
    assert(arg.take("--shell="@.len() as int) =~= "--shell="@);
    assert(arg.skip("--shell="@.len() as int) =~= v);
    assert(arg[3] == 'h');
    lemma_differs_at(arg, "--status="@, 3);
    assert(arg[3] == 'h');
    lemma_differs_at(arg, "--status"@, 3);
    assert(arg[2] == 's');
    lemma_differs_at(arg, "--cwd="@, 2);
    assert(arg[2] == 's');
    lemma_differs_at(arg, "--cwd"@, 2);
    assert(arg[2] == 's');
    lemma_differs_at(arg, "--host="@, 2);
    assert(arg[2] == 's');
    lemma_differs_at(arg, "--host"@, 2);
    assert(arg[2] == 's');
    lemma_differs_at(arg, "--user="@, 2);
    assert(arg[2] == 's');
    lemma_differs_at(arg, "--user"@, 2);
    lemma_single_arg(arg);
}

/// `--prompt-escape=value` sets the prompt_escape option to the value, and nothing else.
pub proof fn law_prompt_escape_option_sets_its_field(v: Seq<char>)
    ensures
        spec_parse_prompt_args(seq!["--prompt-escape="@ + v]) == match escape_named(v) {
            Some(prompt_escape) => Ok::<ArgsModel, ParseError>(
                ArgsModel { prompt_escape, ..default_args() },
            ),
            None => Err(ParseError::Usage),
        },
{
    reveal_strlit("--prompt-escape=");
    reveal_strlit("--status=");
    reveal_strlit("--status");
    reveal_strlit("--cwd=");
    reveal_strlit("--cwd");
    reveal_strlit("--host=");
    reveal_strlit("--host");
    reveal_strlit("--user=");
    reveal_strlit("--user");
    reveal_strlit("--shell=");
    reveal_strlit("--shell");
    let arg = "--prompt-escape="@ + v;
    assert(arg.take("--prompt-escape="@.len() as int) =~= "--prompt-escape="@);
    assert(arg.skip("--prompt-escape="@.len() as int) =~= v);
    assert(arg[2] == 'p');
    lemma_differs_at(arg, "--status="@, 2);
    assert(arg[2] == 'p');
    lemma_differs_at(arg, "--status"@, 2);
    assert(arg[2] == 'p');
    lemma_differs_at(arg, "--cwd="@, 2);
    assert(arg[2] == 'p');
    lemma_differs_at(arg, "--cwd"@, 2);
    assert(arg[2] == 'p');
    lemma_differs_at(arg, "--host="@, 2);
    assert(arg[2] == 'p');
    lemma_differs_at(arg, "--host"@, 2);
    assert(arg[2] == 'p');
    lemma_differs_at(arg, "--user="@, 2);
    assert(arg[2] == 'p');
    lemma_differs_at(arg, "--user"@, 2);
    assert(arg[2] == 'p');
    lemma_differs_at(arg, "--shell="@, 2);
    assert(arg[2] == 'p');
    lemma_differs_at(arg, "--shell"@, 2);
    lemma_single_arg(arg);
}

/// An argument that does not start with `-` is no option and is refused.
pub proof fn law_non_option_refused(arg: Seq<char>)
    requires
        arg.len() == 0 || arg[0] != '-',
    ensures
        spec_parse_prompt_args(seq![arg]) == Err::<ArgsModel, ParseError>(ParseError::Usage),
{
    reveal_strlit("--status=");
    reveal_strlit("--status");
    reveal_strlit("--cwd=");
    reveal_strlit("--cwd");
    reveal_strlit("--host=");
    reveal_strlit("--host");
    reveal_strlit("--user=");
    reveal_strlit("--user");
    reveal_strlit("--shell=");
    reveal_strlit("--shell");
    reveal_strlit("--prompt-escape=");
    reveal_strlit("--prompt-escape");
    if arg.len() > 0 {
        lemma_differs_at(arg, "--status="@, 0);
    } else {
        lemma_shorter(arg, "--status="@);
    }
    if arg.len() > 0 {
        lemma_differs_at(arg, "--status"@, 0);
    } else {
        lemma_shorter(arg, "--status"@);
    }
    if arg.len() > 0 {
        lemma_differs_at(arg, "--cwd="@, 0);
    } else {
        lemma_shorter(arg, "--cwd="@);
    }
    if arg.len() > 0 {
        lemma_differs_at(arg, "--cwd"@, 0);
    } else {
        lemma_shorter(arg, "--cwd"@);
    }
    if arg.len() > 0 {
        lemma_differs_at(arg, "--host="@, 0);
    } else {
        lemma_shorter(arg, "--host="@);
    }
    if arg.len() > 0 {
        lemma_differs_at(arg, "--host"@, 0);
    } else {
        lemma_shorter(arg, "--host"@);
    }
    if arg.len() > 0 {
        lemma_differs_at(arg, "--user="@, 0);
    } else {
        lemma_shorter(arg, "--user="@);
    }
    if arg.len() > 0 {
        lemma_differs_at(arg, "--user"@, 0);
    } else {
        lemma_shorter(arg, "--user"@);
    }
    if arg.len() > 0 {
        lemma_differs_at(arg, "--shell="@, 0);
    } else {
        lemma_shorter(arg, "--shell="@);
    }
    if arg.len() > 0 {
        lemma_differs_at(arg, "--shell"@, 0);
    } else {
        lemma_shorter(arg, "--shell"@);
    }
    if arg.len() > 0 {
        lemma_differs_at(arg, "--prompt-escape="@, 0);
    } else {
        lemma_shorter(arg, "--prompt-escape="@);
    }
    if arg.len() > 0 {
        lemma_differs_at(arg, "--prompt-escape"@, 0);
    } else {
        lemma_shorter(arg, "--prompt-escape"@);
    }
    lemma_single_arg(arg);
}

/// A bare `--cwd` at the end misses its value; a bare `--status` at the end
/// reads as status 0.
pub proof fn law_bare_option_at_end()
    ensures
        spec_parse_prompt_args(seq!["--cwd"@]) == Err::<ArgsModel, ParseError>(
            ParseError::MissingValue("--cwd"),
        ),
        spec_parse_prompt_args(seq!["--status"@]) == Ok::<ArgsModel, ParseError>(default_args()),
{
    reveal_strlit("--cwd");
    reveal_strlit("--cwd=");
    reveal_strlit("--status");
    reveal_strlit("--status=");
    reveal_strlit("0");
    let bare_cwd = "--cwd"@;
    lemma_differs_at(bare_cwd, "--status="@, 2);
    lemma_differs_at(bare_cwd, "--status"@, 2);
    lemma_shorter(bare_cwd, "--cwd="@);
    lemma_single_arg(bare_cwd);
    let bare_status = "--status"@;
    lemma_shorter(bare_status, "--status="@);
    lemma_single_arg(bare_status);
    assert(spec_parse_status("0"@) == 0) by {
        assert("0"@.drop_last() =~= Seq::<char>::empty());
        assert(decimal_value("0"@.drop_last()) == 0);
    }
    assert(ArgsModel { status: 0, ..default_args() } == default_args());
}

proof fn lemma_trim_line_breaks_shape(s: Seq<char>)
    ensures
        trim_line_breaks(s).len() <= s.len(),
        trim_line_breaks(s) == s.take(trim_line_breaks(s).len() as int),
        trim_line_breaks(s).len() > 0 ==> trim_line_breaks(s).last() != '\r' && trim_line_breaks(
            s,
        ).last() != '\n',
        forall|k: int|
            trim_line_breaks(s).len() <= k < s.len() ==> s[k] == '\r' || s[k] == '\n',
    decreases s.len(),
{
    if s.len() > 0 && (s.last() == '\r' || s.last() == '\n') {
        let q = s.drop_last();
        lemma_trim_line_breaks_shape(q);
        let t = trim_line_breaks(q);
        assert(q.take(t.len() as int) =~= s.take(t.len() as int));
        assert forall|k: int| t.len() <= k < s.len() implies s[k] == '\r' || s[k] == '\n' by {
            if k < q.len() {
                assert(s[k] == q[k]);
            }
        }
    } else {
        assert(s.take(s.len() as int) =~= s);
    }
}

/// The host name is never empty: a set, nonempty `$HOST` is taken as it is;
/// otherwise the host-name file's contents up to their final line breaks,
/// which are all dropped, where anything is left; otherwise `unknown`.
pub proof fn law_system_hostname_never_empty(host: Option<Seq<char>>, file: Option<Seq<char>>)
    ensures
        spec_system_hostname(host, file).len() > 0,
        host is Some && host->0.len() > 0 ==> spec_system_hostname(host, file) == host->0,
        !(host is Some && host->0.len() > 0) && file is Some ==> {
            let f = file->0;
            let r = spec_system_hostname(host, file);
            ||| r == "unknown"@ && forall|k: int| 0 <= k < f.len() ==> f[k] == '\r' || f[k]
                == '\n'
            ||| r.len() <= f.len() && r == f.take(r.len() as int) && r.last() != '\r' && r.last()
                != '\n' && forall|k: int| r.len() <= k < f.len() ==> f[k] == '\r' || f[k]
                == '\n'
        },
        !(host is Some && host->0.len() > 0) && file is None ==> spec_system_hostname(host, file)
            == "unknown"@,
{
    reveal_strlit("unknown");
    if let Some(f) = file {
        lemma_trim_line_breaks_shape(f);
    }
}

/// The user name is `$USER` where set and not empty, else `$LOGNAME` where
/// set and not empty; it is empty only where neither is.
pub proof fn law_default_user_prefers_user(user: Option<Seq<char>>, logname: Option<Seq<char>>)
    ensures
        user is Some && user->0.len() > 0 ==> spec_default_user(user, logname) == user->0,
        !(user is Some && user->0.len() > 0) && logname is Some && logname->0.len() > 0
            ==> spec_default_user(user, logname) == logname->0,
        spec_default_user(user, logname).len() == 0 <==> !(user is Some && user->0.len() > 0)
            && !(logname is Some && logname->0.len() > 0),
{
}

} // verus!
