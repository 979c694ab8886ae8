//! The shell code that loads the secrets at shell startup.
//!
//! Stdout may only ever carry `export NAME=value` / `set -gx NAME value`
//! lines; every diagnostic goes to stderr.

use vstd::prelude::*;
use crate::cli::Shell;
use crate::secret::zeroize_string;
use crate::secrets::Secrets;
use crate::text::{chars_of, push_char};

verus! {

/// One character of a value inside fish single quotes: `\` and `'` take a
/// backslash before them.
pub open spec fn fish_escape_char(c: char) -> Seq<char> {
    if c == '\\' || c == '\'' {
        seq!['\\', c]
    } else {
        seq![c]
    }
}

/// A value with fish's single-quote escapes applied.
pub open spec fn fish_escape(s: Seq<char>) -> Seq<char>
    decreases s.len(),
{
    if s.len() == 0 {
        seq![]
    } else {
        fish_escape_char(s[0]) + fish_escape(s.drop_first())
    }
}

/// `value` as a fish single-quoted word.
pub open spec fn spec_fish_quote(value: Seq<char>) -> Seq<char> {
    seq!['\''] + fish_escape(value) + seq!['\'']
}

proof fn lemma_fish_escape_push(s: Seq<char>, c: char)
    ensures
        fish_escape(s.push(c)) == fish_escape(s) + fish_escape_char(c),
    decreases s.len(),
{
    if s.len() == 0 {
        assert(s.push(c).drop_first() =~= Seq::<char>::empty());
        assert(s.push(c)[0] == c);
        assert(fish_escape(s) =~= Seq::<char>::empty());
        assert(fish_escape(s.push(c)) == fish_escape_char(c) + fish_escape(Seq::<char>::empty()));
        assert(fish_escape(s.push(c)) =~= fish_escape(s) + fish_escape_char(c));
    } else {
        lemma_fish_escape_push(s.drop_first(), c);
        assert(s.push(c).drop_first() =~= s.drop_first().push(c));
        assert(fish_escape(s.push(c)) =~= fish_escape(s) + fish_escape_char(c));
    }
}

/// Quotes `value` for fish: single quotes, with `\` and `'` escaped, the only
/// two characters that fish treats specially inside them.
pub fn fish_quote(value: &str) -> (quoted: String)
    ensures
        quoted@ == spec_fish_quote(value@),
{
    let cs = chars_of(value);
    let mut out = String::new();
    push_char(&mut out, '\'');
    let mut i: usize = 0;
    while i < cs.len()
        invariant
            i <= cs@.len(),
            cs@ == value@,
            out@ == seq!['\''] + fish_escape(cs@.take(i as int)),
        decreases cs@.len() - i,
    {
        let c = cs[i];
        proof {
            lemma_fish_escape_push(cs@.take(i as int), c);
            assert(cs@.take(i + 1) =~= cs@.take(i as int).push(c));
        }
        if c == '\\' || c == '\'' {
            push_char(&mut out, '\\');
        }
        push_char(&mut out, c);
        assert(out@ =~= seq!['\''] + fish_escape(cs@.take(i + 1)));
        i = i + 1;
    }
    push_char(&mut out, '\'');
    assert(cs@.take(i as int) =~= cs@);
    out
}

/// How fish reads the rest of a single-quoted word: `\\` and `\'` stand for
/// `\` and `'`, any other character for itself, and an unescaped `'` ends
/// the word, which must then be over.
pub open spec fn fish_read_quoted(s: Seq<char>) -> Option<Seq<char>>
    decreases s.len(),
{
    if s.len() == 0 {
        None
    } else if s[0] == '\'' {
        if s.len() == 1 {
            Some(seq![])
        } else {
            None
        }
    } else if s[0] == '\\' && s.len() >= 2 && (s[1] == '\\' || s[1] == '\'') {
        match fish_read_quoted(s.subrange(2, s.len() as int)) {
            Some(rest) => Some(seq![s[1]] + rest),
            None => None,
        }
    } else {
        match fish_read_quoted(s.drop_first()) {
            Some(rest) => Some(seq![s[0]] + rest),
            None => None,
        }
    }
}

/// How fish reads a word that opens with a single quote.
pub open spec fn fish_read(word: Seq<char>) -> Option<Seq<char>> {
    if word.len() > 0 && word[0] == '\'' {
        fish_read_quoted(word.drop_first())
    } else {
        None
    }
}

proof fn lemma_fish_read_escaped(v: Seq<char>)
    ensures
        fish_read_quoted(fish_escape(v) + seq!['\'']) == Some(v),
    decreases v.len(),
{
    if v.len() == 0 {
        assert(fish_escape(v) + seq!['\''] =~= seq!['\'']);
    } else {
        lemma_fish_read_escaped(v.drop_first());
        let c = v[0];
        let rest = fish_escape(v.drop_first()) + seq!['\''];
        let s = fish_escape(v) + seq!['\''];
        assert(s =~= fish_escape_char(c) + rest);
        if c == '\\' || c == '\'' {
            assert(s.subrange(2, s.len() as int) =~= rest);
        } else {
            assert(s.drop_first() =~= rest);
        }
        assert(seq![c] + v.drop_first() =~= v);
    }
}

/// Fish reads a quoted value back exactly.
pub proof fn lemma_fish_round_trip(value: Seq<char>)
    ensures
        fish_read(spec_fish_quote(value)) == Some(value),
{
    lemma_fish_read_escaped(value);
    assert(spec_fish_quote(value).drop_first() =~= fish_escape(value) + seq!['\'']);
}

/// What `shlex::try_quote` makes of a string it accepts.
pub uninterp spec fn shlex_quoted(s: Seq<char>) -> Seq<char>;

/// `shlex::try_quote`: refuses exactly the strings that hold a NUL, quotes the
/// others (the empty string as `''`).
#[verifier::external_body]
fn posix_quote(value: &str) -> (r: Option<String>)
    ensures
        match r {
            Some(q) => !value@.contains('\0') && q@ == shlex_quoted(value@) && (value@.len() == 0
                ==> q@ == seq!['\'', '\'']),
            None => value@.contains('\0'),
        },
{
    shlex::try_quote(value).ok().map(|q| q.into_owned())
}

/// A line of hook output: to stdout (shell code) or to stderr (a warning).
#[derive(Debug)]
pub enum HookLine {
    Stdout(String),
    Stderr(String),
}

/// Whether the line goes to stdout, and its text.
pub open spec fn line_view(l: HookLine) -> (bool, Seq<char>) {
    match l {
        HookLine::Stdout(s) => (true, s@),
        HookLine::Stderr(s) => (false, s@),
    }
}

/// `export NAME=quoted`.
pub open spec fn posix_export_text(name: Seq<char>, quoted: Seq<char>) -> Seq<char> {
    "export "@ + name + "="@ + quoted
}

/// `set -gx NAME quoted`.
pub open spec fn fish_export_text(name: Seq<char>, quoted: Seq<char>) -> Seq<char> {
    "set -gx "@ + name + " "@ + quoted
}

/// The warning for a value that cannot be quoted for a POSIX shell.
pub open spec fn nul_warning(name: Seq<char>) -> Seq<char> {
    "reliquary: warning: secret \""@ + name + "\" contains a NUL byte and can't be safely exported"@
}

/// The warning for a configured name with no stored value.
pub open spec fn missing_warning(name: Seq<char>) -> Seq<char> {
    "reliquary: warning: secret \""@ + name
        + "\" is configured but not found in the OS keyring (run: reliquary add "@ + name + ")"@
}

/// The bash/zsh line for `name`, given what POSIX quoting made of its value
/// (`None`: the value holds a NUL).
pub open spec fn spec_posix_line(name: Seq<char>, quoted: Option<Seq<char>>) -> (bool, Seq<char>) {
    match quoted {
        Some(q) => (true, posix_export_text(name, q)),
        None => (false, nul_warning(name)),
    }
}

/// The line for `name` whose value is `value`.
pub open spec fn spec_export_line(shell: Shell, name: Seq<char>, value: Seq<char>) -> (bool, Seq<char>) {
    match shell {
        Shell::Fish => (true, fish_export_text(name, spec_fish_quote(value))),
        _ => spec_posix_line(
            name,
            if value.contains('\0') {
                None
            } else {
                Some(shlex_quoted(value))
            },
        ),
    }
}

/// The bash/zsh line for `name`, given what POSIX quoting made of its value.
pub fn posix_line(name: &str, quoted: Option<String>) -> (l: HookLine)
    ensures
        line_view(l) == spec_posix_line(
            name@,
            match quoted {
                Some(q) => Some(q@),
                None => None,
            },
        ),
{
    match quoted {
        Some(mut q) => {
            let mut out = "export ".to_owned();
            out.append(name);
            out.append("=");
            out.append(q.as_str());
            zeroize_string(&mut q);
            HookLine::Stdout(out)
        },
        None => {
            let mut out = "reliquary: warning: secret \"".to_owned();
            out.append(name);
            out.append("\" contains a NUL byte and can't be safely exported");
            HookLine::Stderr(out)
        },
    }
}

/// The line that loads `value` into `name` for `shell`.
pub fn export_line(shell: Shell, name: &str, value: &str) -> (l: HookLine)
    ensures
        line_view(l) == spec_export_line(shell, name@, value@),
{
    match shell {
        Shell::Fish => {
            let mut quoted = fish_quote(value);
            let mut out = "set -gx ".to_owned();
            out.append(name);
            out.append(" ");
            out.append(quoted.as_str());
            zeroize_string(&mut quoted);
            HookLine::Stdout(out)
        },
        _ => posix_line(name, posix_quote(value)),
    }
}

/// The line for configured name `name`, given the stored secrets.
pub open spec fn spec_hook_line(shell: Shell, name: Seq<char>, secrets: Map<Seq<char>, Seq<char>>) -> (
    bool,
    Seq<char>,
) {
    if secrets.contains_key(name) {
        spec_export_line(shell, name, secrets[name])
    } else {
        (false, missing_warning(name))
    }
}

/// The hook output for the configured `names`: one line per name, in order.
pub fn hook_lines(shell: Shell, names: &Vec<String>, secrets: &Secrets) -> (lines: Vec<HookLine>)
    ensures
        lines@.len() == names@.len(),
        forall|i: int|
            0 <= i < names@.len() ==> line_view(#[trigger] lines@[i]) == spec_hook_line(
                shell,
                names@[i]@,
                secrets@,
            ),
{
    let mut lines: Vec<HookLine> = Vec::new();
    let mut i: usize = 0;
    while i < names.len()
        invariant
            i <= names@.len(),
            lines@.len() == i,
            forall|k: int|
                0 <= k < i ==> line_view(#[trigger] lines@[k]) == spec_hook_line(
                    shell,
                    names@[k]@,
                    secrets@,
                ),
        decreases names@.len() - i,
    {
        let name = names[i].as_str();
        let line = match secrets.get(name) {
            Some(value) => export_line(shell, name, value),
            None => {
                let mut out = "reliquary: warning: secret \"".to_owned();
                out.append(name);
                out.append("\" is configured but not found in the OS keyring (run: reliquary add ");
                out.append(name);
                out.append(")");
                HookLine::Stderr(out)
            },
        };
        lines.push(line);
        i = i + 1;
    }
    lines
}

/// A configured name whose secret is stored is exported on stdout: fish gets
/// `set -gx NAME word`, a word that fish reads back as the stored value; bash
/// and zsh get `export NAME=word`, the word being `shlex`'s quoting of the
/// stored value (a value holding a NUL, which no POSIX word can carry, is
/// warned about instead). The missing-secret warning comes for a name
/// exactly when no secret is stored under it.
pub proof fn lemma_hook_exports_stored(
    shell: Shell,
    name: Seq<char>,
    secrets: Map<Seq<char>, Seq<char>>,
)
    ensures
        secrets.contains_key(name) && shell == Shell::Fish ==> exists|q: Seq<char>|
            #![trigger fish_read(q)]
            spec_hook_line(shell, name, secrets) == (true, "set -gx "@ + name + " "@ + q)
                && fish_read(q) == Some(secrets[name]),
        secrets.contains_key(name) && shell != Shell::Fish && !secrets[name].contains('\0')
            ==> spec_hook_line(shell, name, secrets) == (true, "export "@ + name + "="@
            + shlex_quoted(secrets[name])),
        spec_hook_line(shell, name, secrets) == (false, "reliquary: warning: secret \""@ + name
            + "\" is configured but not found in the OS keyring (run: reliquary add "@ + name
            + ")"@) <==> !secrets.contains_key(name),
{
    if secrets.contains_key(name) {
        let v = secrets[name];
        if shell == Shell::Fish {
            lemma_fish_round_trip(v);
            assert(fish_read(spec_fish_quote(v)) == Some(v));
        } else if v.contains('\0') {
            let p = "reliquary: warning: secret \""@;
            let k = p.len() + name.len() + 2int;
            reveal_strlit("reliquary: warning: secret \"");
            reveal_strlit("\" contains a NUL byte and can't be safely exported");
            reveal_strlit("\" is configured but not found in the OS keyring (run: reliquary add ");
            assert(nul_warning(name)[k] == 'c');
            assert(missing_warning(name)[k] == 'i');
        }
    }
}

/// Stdout only ever carries `export NAME=...` or `set -gx NAME ...` for a
/// configured name.
pub proof fn lemma_stdout_only_exports(
    shell: Shell,
    name: Seq<char>,
    secrets: Map<Seq<char>, Seq<char>>,
)
    ensures
        spec_hook_line(shell, name, secrets).0 ==> (exists|q: Seq<char>|
            #![trigger posix_export_text(name, q)]
            #![trigger fish_export_text(name, q)]
            spec_hook_line(shell, name, secrets).1 == (if shell == Shell::Fish {
                fish_export_text(name, q)
            } else {
                posix_export_text(name, q)
            })),
{
    if spec_hook_line(shell, name, secrets).0 {
        let v = secrets[name];
        if shell == Shell::Fish {
            assert(spec_hook_line(shell, name, secrets).1 == fish_export_text(name, spec_fish_quote(v)));
        } else {
            assert(spec_hook_line(shell, name, secrets).1 == posix_export_text(name, shlex_quoted(v)));
        }
    }
}

} // verus!
