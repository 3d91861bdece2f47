//! Which kind of Windows shell a program is, and how a shell variable such as
//! `$VAR` or `${VAR}` is written for it.
use vstd::prelude::*;
use vstd::string::{StrSliceExecFns, StringExecFns};

verus! {

#[derive(Clone, Copy, Debug, PartialEq, Eq, Structural)]
pub enum WindowsShellType {
    Powershell,
    Cmd,
    Other,
}

pub open spec fn ends_with(s: Seq<char>, suffix: Seq<char>) -> bool {
    s.len() >= suffix.len() && s.subrange(s.len() - suffix.len(), s.len() as int) == suffix
}

pub open spec fn shell_type_of(s: Seq<char>) -> WindowsShellType {
    if s == "powershell"@ || ends_with(s, "powershell.exe"@) || s == "pwsh"@ || ends_with(
        s,
        "pwsh.exe"@,
    ) {
        WindowsShellType::Powershell
    } else if s == "cmd"@ || ends_with(s, "cmd.exe"@) {
        WindowsShellType::Cmd
    } else {
        WindowsShellType::Other
    }
}

/// `s` starts with `${`.
pub open spec fn braced(s: Seq<char>) -> bool {
    s.len() >= 2 && s[0] == '$' && s[1] == '{'
}

/// `s` starts with `$`.
pub open spec fn dollar(s: Seq<char>) -> bool {
    s.len() >= 1 && s[0] == '$'
}

/// `s` is `${NAME}` with no `:` in it: the closing byte is dropped.
pub open spec fn plain_braced(s: Seq<char>) -> bool {
    braced(s) && !s.skip(2).contains(':')
}

/// A variable the conversion can take: where it drops the closing byte of
/// `${NAME}`, there is one, and it is a whole character.
pub open spec fn variable_ok(s: Seq<char>) -> bool {
    plain_braced(s) ==> s.len() >= 3 && (s.last() as u32) < 128
}

/// `${NAME}` and `$NAME` written as `%NAME%`; anything else unchanged.
pub open spec fn cmd_variable(s: Seq<char>) -> Seq<char> {
    if plain_braced(s) {
        "%"@ + s.subrange(2, s.len() - 1) + "%"@
    } else if braced(s) {
        s
    } else if dollar(s) {
        "%"@ + s.skip(1) + "%"@
    } else {
        s
    }
}

/// `${NAME}` and `$NAME` written as `$env:NAME`; anything else unchanged.
pub open spec fn powershell_variable(s: Seq<char>) -> Seq<char> {
    if plain_braced(s) {
        "$env:"@ + s.subrange(2, s.len() - 1)
    } else if braced(s) {
        s
    } else if dollar(s) {
        "$env:"@ + s.skip(1)
    } else {
        s
    }
}

pub open spec fn shell_variable(t: WindowsShellType, s: Seq<char>) -> Seq<char> {
    match t {
        WindowsShellType::Powershell => powershell_variable(s),
        WindowsShellType::Cmd => cmd_variable(s),
        WindowsShellType::Other => s,
    }
}

fn ends_with_chars(s: &str, suffix: &str) -> (r: bool)
    ensures
        r == ends_with(s@, suffix@),
{
    let n = s.unicode_len();
    let k = suffix.unicode_len();
    if k > n {
        return false;
    }
    let mut i: usize = 0;
    while i < k
        invariant
            n == s@.len(),
            k == suffix@.len(),
            k <= n,
            i <= k,
            forall|j: int| 0 <= j < i ==> s@[n - k + j] == suffix@[j],
        decreases k - i,
    {
        if s.get_char(n - k + i) != suffix.get_char(i) {
            assert(s@.subrange(n - k, n as int)[i as int] != suffix@[i as int]);
            return false;
        }
        i += 1;
    }
    assert(s@.subrange(n - k, n as int) =~= suffix@);
    true
}

fn same_chars(s: &str, t: &str) -> (r: bool)
    ensures
        r == (s@ == t@),
{
    if s.unicode_len() != t.unicode_len() {
        return false;
    }
    let r = ends_with_chars(s, t);
    assert(s@.subrange(0, s@.len() as int) =~= s@);
    r
}

/// The kind of shell that the program `shell` is, by its name or the end of its path.
pub fn to_windows_shell_type(shell: &str) -> (r: WindowsShellType)
    ensures
        r == shell_type_of(shell@),
{
    if same_chars(shell, "powershell") || ends_with_chars(shell, "powershell.exe") || same_chars(
        shell,
        "pwsh",
    ) || ends_with_chars(shell, "pwsh.exe") {
        WindowsShellType::Powershell
    } else if same_chars(shell, "cmd") || ends_with_chars(shell, "cmd.exe") {
        WindowsShellType::Cmd
    } else {
        WindowsShellType::Other
    }
}

fn has_colon_after_brace(s: &str) -> (r: bool)
    requires
        s@.len() >= 2,
    ensures
        r == s@.skip(2).contains(':'),
{
    let n = s.unicode_len();
    let mut i: usize = 2;
    while i < n
        invariant
            n == s@.len(),
            2 <= i <= n,
            forall|j: int| 2 <= j < i ==> s@[j] != ':',
        decreases n - i,
    {
        if s.get_char(i) == ':' {
            assert(s@.skip(2)[i - 2] == ':');
            return true;
        }
        i += 1;
    }
    assert forall|j: int| 0 <= j < s@.skip(2).len() implies s@.skip(2)[j] != ':' by {
        assert(s@.skip(2)[j] == s@[j + 2]);
    }
    false
}

/// Converts `${NAME}` or `$NAME` to `%NAME%`. A `${..}` with a `:` in it, or
/// anything that is not a variable, is returned as it is.
pub fn to_cmd_variable(input: String) -> (r: String)
    requires
        variable_ok(input@),
    ensures
        r@ == cmd_variable(input@),
{
    let n = input.as_str().unicode_len();
    if n >= 2 && input.as_str().get_char(0) == '$' && input.as_str().get_char(1) == '{' {
        if !has_colon_after_brace(input.as_str()) {
            let name = input.as_str().substring_char(2, n - 1);
            "%".to_owned().concat(name).concat("%")
        } else {
            input
        }
    } else if n >= 1 && input.as_str().get_char(0) == '$' {
        let name = input.as_str().substring_char(1, n);
        assert(name@ == input@.skip(1));
        "%".to_owned().concat(name).concat("%")
    } else {
        input
    }
}

/// Converts `${NAME}` or `$NAME` to `$env:NAME`. A `${..}` with a `:` in it,
/// or anything that is not a variable, is returned as it is.
pub fn to_powershell_variable(input: String) -> (r: String)
    requires
        variable_ok(input@),
    ensures
        r@ == powershell_variable(input@),
{
    let n = input.as_str().unicode_len();
    if n >= 2 && input.as_str().get_char(0) == '$' && input.as_str().get_char(1) == '{' {
        if !has_colon_after_brace(input.as_str()) {
            let name = input.as_str().substring_char(2, n - 1);
            "$env:".to_owned().concat(name)
        } else {
            input
        }
    } else if n >= 1 && input.as_str().get_char(0) == '$' {
        let name = input.as_str().substring_char(1, n);
        assert(name@ == input@.skip(1));
        "$env:".to_owned().concat(name)
    } else {
        input
    }
}

/// Writes the variable `input` as the shell `shell_type` expects it.
pub fn to_windows_shell_variable(shell_type: WindowsShellType, input: String) -> (r: String)
    requires
        variable_ok(input@),
    ensures
        r@ == shell_variable(shell_type, input@),
{
    match shell_type {
        WindowsShellType::Powershell => to_powershell_variable(input),
        WindowsShellType::Cmd => to_cmd_variable(input),
        WindowsShellType::Other => input,
    }
}

} // verus!
