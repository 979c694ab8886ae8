//! The decisions behind `init`, `add`, `remove` and `list`; prompts, files
//! and printing are the caller's.

use vstd::prelude::*;
use vstd::utf8::encode_utf8;
use crate::cli::Shell;
use crate::config::{component, join_path, join_path_bytes, trim, views};
use crate::secrets::Secrets;
use crate::text::{chars_of, push_char, same_text};

verus! {

/// The line that opens the hook block in a shell's rc file.
pub const MARKER_BEGIN: &'static str = "# >>> reliquary hook >>>";

/// The line that closes the hook block in a shell's rc file.
pub const MARKER_END: &'static str = "# <<< reliquary hook <<<";

/// The shell that a program file name stands for.
pub open spec fn spec_shell_named(name: Seq<char>) -> Option<Shell> {
    if name == "bash"@ {
        Some(Shell::Bash)
    } else if name == "zsh"@ {
        Some(Shell::Zsh)
    } else if name == "fish"@ {
        Some(Shell::Fish)
    } else {
        None
    }
}

/// The supported shell whose program is called `name`.
pub fn shell_named(name: &str) -> (r: Option<Shell>)
    ensures
        r == spec_shell_named(name@),
{
    if same_text(name, "bash") {
        Some(Shell::Bash)
    } else if same_text(name, "zsh") {
        Some(Shell::Zsh)
    } else if same_text(name, "fish") {
        Some(Shell::Fish)
    } else {
        None
    }
}

/// The characters of `p` after its last `/` (all of `p` where it has none).
pub open spec fn last_piece(p: Seq<char>) -> Seq<char>
    decreases p.len(),
{
    if p.len() == 0 || p.last() == '/' {
        Seq::empty()
    } else {
        last_piece(p.drop_last()).push(p.last())
    }
}

/// The final component of the Unix path `p`, as `Path::file_name` documents
/// it: trailing and repeated `/` and the pieces `.` do not count; a path
/// that ends in `..`, or has no other component, has none.
pub open spec fn path_file_name(p: Seq<char>) -> Option<Seq<char>>
    decreases p.len(),
{
    if p.len() == 0 {
        None
    } else if p.last() == '/' || (p.last() == '.' && (p.len() == 1 || p[p.len() - 2] == '/')) {
        path_file_name(p.drop_last())
    } else if last_piece(p) == ".."@ {
        None
    } else {
        Some(last_piece(p))
    }
}

proof fn lemma_last_piece_after_slash(dir: Seq<char>, n: Seq<char>)
    requires
        !n.contains('/'),
    ensures
        last_piece(dir + seq!['/'] + n) == n,
    decreases n.len(),
{
    let s = dir + seq!['/'] + n;
    if n.len() == 0 {
        assert(s.last() == '/');
        assert(n =~= Seq::<char>::empty());
    } else {
        assert(s.drop_last() =~= dir + seq!['/'] + n.drop_last());
        assert(s.last() == n.last());
        assert(n.last() != '/') by {
            assert(n[n.len() - 1] == n.last());
        }
        assert(!n.drop_last().contains('/')) by {
            if n.drop_last().contains('/') {
                let k = choose|k: int| 0 <= k < n.drop_last().len() && n.drop_last()[k] == '/';
                assert(n[k] == '/');
            }
        }
        lemma_last_piece_after_slash(dir, n.drop_last());
        assert(n.drop_last().push(n.last()) =~= n);
    }
}

/// The file name of a path is its last piece: in any directory, a name
/// without `/` that is neither `.` nor `..` is the file name, and trailing
/// `/` do not change it.
pub proof fn lemma_file_name_is_last_piece(dir: Seq<char>, n: Seq<char>)
    requires
        n.len() > 0,
        !n.contains('/'),
        n != "."@,
        n != ".."@,
    ensures
        path_file_name(dir + seq!['/'] + n) == Some(n),
        path_file_name((dir + seq!['/'] + n).push('/')) == Some(n),
{
    reveal_strlit(".");
    reveal_strlit("..");
    let p = dir + seq!['/'] + n;
    lemma_last_piece_after_slash(dir, n);
    assert(p.last() == n.last());
    assert(n.last() != '/') by {
        assert(n[n.len() - 1] == n.last());
    }
    if n.last() == '.' {
        if n.len() == 1 {
            assert(n =~= "."@);
        } else {
            assert(p[p.len() - 2] == n[n.len() - 2]);
            assert(n[n.len() - 2] != '/');
        }
    }
    assert(p.push('/').drop_last() =~= p);
}

/// `Path::file_name` followed by `OsStr::to_str`: the final component of
/// `path`. A piece of a `&str` cut at `/` is valid UTF-8, so `to_str` does
/// not fail here.
#[verifier::external_body]
fn file_name(path: &str) -> (r: Option<String>)
    ensures
        match r {
            Some(n) => path_file_name(path@) == Some(n@),
            None => path_file_name(path@) is None,
        },
{
    std::path::Path::new(path).file_name().and_then(|n| n.to_str()).map(|n| n.to_owned())
}

/// The supported shell that the program at `shell_path` (the value of
/// `$SHELL`) is, if any.
pub fn detect_shell(shell_path: &str) -> (r: Option<Shell>)
    ensures
        r == match path_file_name(shell_path@) {
            Some(n) => spec_shell_named(n),
            None => None,
        },
{
    match file_name(shell_path) {
        Some(name) => shell_named(name.as_str()),
        None => None,
    }
}

/// The rc file of `shell` under the home directory `home`.
pub open spec fn spec_rc_path(shell: Shell, home: Seq<u8>) -> Seq<u8> {
    match shell {
        Shell::Bash => join_path(home, component(".bashrc")),
        Shell::Zsh => join_path(home, component(".zshrc")),
        Shell::Fish => join_path(
            join_path(join_path(home, component(".config")), component("fish")),
            component("config.fish"),
        ),
    }
}

/// The rc file of `shell` under the home directory `home`.
pub fn rc_path_for(shell: Shell, home: &[u8]) -> (p: Vec<u8>)
    ensures
        p@ == spec_rc_path(shell, home@),
{
    match shell {
        Shell::Bash => join_path_bytes(home, ".bashrc".as_bytes()),
        Shell::Zsh => join_path_bytes(home, ".zshrc".as_bytes()),
        Shell::Fish => {
            let dir = join_path_bytes(home, ".config".as_bytes());
            let dir = join_path_bytes(dir.as_slice(), "fish".as_bytes());
            join_path_bytes(dir.as_slice(), "config.fish".as_bytes())
        },
    }
}

/// The line that loads the hook in `shell`'s rc file.
pub open spec fn spec_hook_line_for(shell: Shell) -> Seq<char> {
    match shell {
        Shell::Bash => "eval \"$(reliquary hook bash)\""@,
        Shell::Zsh => "eval \"$(reliquary hook zsh)\""@,
        Shell::Fish => "reliquary hook fish | source"@,
    }
}

/// The line that loads the hook in `shell`'s rc file.
pub fn hook_line_for(shell: Shell) -> (line: &'static str)
    ensures
        line@ == spec_hook_line_for(shell),
{
    match shell {
        Shell::Bash => "eval \"$(reliquary hook bash)\"",
        Shell::Zsh => "eval \"$(reliquary hook zsh)\"",
        Shell::Fish => "reliquary hook fish | source",
    }
}

/// The hook line runs the hook of its own shell: bash and zsh evaluate the
/// output of `reliquary hook <shell>`, fish pipes it into `source`, where
/// `<shell>` is the program name of that very shell.
pub proof fn lemma_hook_line_runs_own_hook(shell: Shell)
    ensures
        exists|n: Seq<char>|
            #![trigger spec_shell_named(n)]
            spec_shell_named(n) == Some(shell) && spec_hook_line_for(shell) == (if shell
                == Shell::Fish {
                "reliquary hook "@ + n + " | source"@
            } else {
                "eval \"$(reliquary hook "@ + n + ")\""@
            }),
{
    reveal_strlit("bash");
    reveal_strlit("zsh");
    reveal_strlit("fish");
    reveal_strlit("reliquary hook ");
    reveal_strlit(" | source");
    reveal_strlit("eval \"$(reliquary hook ");
    reveal_strlit(")\"");
    reveal_strlit("eval \"$(reliquary hook bash)\"");
    reveal_strlit("eval \"$(reliquary hook zsh)\"");
    reveal_strlit("reliquary hook fish | source");
    let n = match shell {
        Shell::Bash => "bash"@,
        Shell::Zsh => "zsh"@,
        Shell::Fish => "fish"@,
    };
    assert("zsh"@ != "bash"@) by {
        assert("zsh"@.len() != "bash"@.len());
    }
    assert("fish"@ != "bash"@) by {
        assert("fish"@[0] != "bash"@[0]);
    }
    assert("fish"@ != "zsh"@) by {
        assert("fish"@.len() != "zsh"@.len());
    }
    assert(spec_shell_named(n) == Some(shell));
    if shell == Shell::Fish {
        assert(spec_hook_line_for(shell) =~= "reliquary hook "@ + n + " | source"@);
    } else {
        assert(spec_hook_line_for(shell) =~= "eval \"$(reliquary hook "@ + n + ")\""@);
    }
}

/// `needle` occurs in `hay`.
pub open spec fn contains_text(hay: Seq<char>, needle: Seq<char>) -> bool {
    exists|i: int| 0 <= i && i + needle.len() <= hay.len() && #[trigger] hay.subrange(i, i + needle.len()) == needle
}

/// Whether `needle` occurs in `hay`.
pub fn find_text(hay: &str, needle: &str) -> (r: bool)
    ensures
        r == contains_text(hay@, needle@),
{
    let h = chars_of(hay);
    let n = chars_of(needle);
    if n.len() > h.len() {
        return false;
    }
    let hl = h.len();
    let last = hl - n.len();
    let mut i: usize = 0;
    while i <= last
        invariant
            h@ == hay@,
            n@ == needle@,
            last == h@.len() - n@.len(),
            hl == h@.len(),
            i <= last + 1,
            forall|k: int| 0 <= k < i ==> #[trigger] h@.subrange(k, k + n@.len()) != n@,
        decreases last + 1 - i,
    {
        let mut j: usize = 0;
        let mut same = true;
        while j < n.len()
            invariant
                h@ == hay@,
                n@ == needle@,
                i + n@.len() <= h@.len(),
                hl == h@.len(),
                j <= n@.len(),
                same == (forall|t: int| 0 <= t < j ==> h@[i + t] == n@[t]),
            decreases n@.len() - j,
        {
            if h[i + j] != n[j] {
                same = false;
            }
            j = j + 1;
        }
        if same {
            assert(h@.subrange(i as int, i + n@.len()) =~= n@);
            return true;
        }
        assert(h@.subrange(i as int, i + n@.len()) != n@) by {
            let t = choose|t: int| 0 <= t < n@.len() && h@[i + t] != n@[t];
            assert(h@.subrange(i as int, i + n@.len())[t] == h@[i + t]);
        }
        i = i + 1;
    }
    assert forall|k: int| 0 <= k && k + needle@.len() <= hay@.len() implies #[trigger] hay@.subrange(k, k + needle@.len()) != needle@ by {
        assert(k < i);
    }
    false
}

/// The rc file contents already load the hook for `shell`: they hold the
/// hook block, or the hook line on its own.
pub open spec fn spec_hook_installed(contents: Seq<char>, shell: Shell) -> bool {
    contains_text(contents, MARKER_BEGIN@) || contains_text(contents, spec_hook_line_for(shell))
}

/// Whether the rc file contents already load the hook for `shell`, so that
/// `init` adds nothing.
pub fn is_hook_installed(contents: &str, shell: Shell) -> (b: bool)
    ensures
        b == spec_hook_installed(contents@, shell),
{
    find_text(contents, MARKER_BEGIN) || find_text(contents, hook_line_for(shell))
}

/// The text appended to an rc file holding `existing`: the hook block, on a
/// line of its own.
pub open spec fn spec_hook_block(existing: Seq<char>, hook_line: Seq<char>) -> Seq<char> {
    (if existing.len() > 0 && existing.last() != '\n' {
        seq!['\n']
    } else {
        seq![]
    }) + MARKER_BEGIN@ + seq!['\n'] + hook_line + seq!['\n'] + MARKER_END@ + seq!['\n']
}

/// The text to append to an rc file holding `existing`.
pub fn hook_block(existing: &str, hook_line: &str) -> (block: String)
    ensures
        block@ == spec_hook_block(existing@, hook_line@),
{
    let cs = chars_of(existing);
    let mut out = String::new();
    if cs.len() > 0 && cs[cs.len() - 1] != '\n' {
        push_char(&mut out, '\n');
    }
    out.append(MARKER_BEGIN);
    push_char(&mut out, '\n');
    out.append(hook_line);
    push_char(&mut out, '\n');
    out.append(MARKER_END);
    push_char(&mut out, '\n');
    assert(out@ =~= spec_hook_block(existing@, hook_line@));
    out
}

/// Once the block is appended, the hook counts as installed: running `init`
/// again adds nothing.
pub proof fn lemma_installed_after_append(existing: Seq<char>, shell: Shell)
    ensures
        spec_hook_installed(existing + spec_hook_block(existing, spec_hook_line_for(shell)), shell),
{
    let hook_line = spec_hook_line_for(shell);
    let pre = if existing.len() > 0 && existing.last() != '\n' {
        seq!['\n']
    } else {
        Seq::<char>::empty()
    };
    let all = existing + spec_hook_block(existing, hook_line);
    let i: int = existing.len() as int + pre.len() as int;
    let m = MARKER_BEGIN@;
    assert(all =~= existing + pre + m + (seq!['\n'] + hook_line + seq!['\n'] + MARKER_END@ + seq!['\n']));
    assert(all.subrange(i, i + m.len()) =~= m);
}

/// Appending the block keeps the rc file's text as it was and adds, from the
/// start of a line, the begin marker, the hook line and the end marker, each
/// on a line of its own.
pub proof fn lemma_block_on_own_lines(existing: Seq<char>, hook_line: Seq<char>)
    ensures
        ({
            let all = existing + spec_hook_block(existing, hook_line);
            &&& all.subrange(0, existing.len() as int) == existing
            &&& exists|i: int|
                #![trigger all.subrange(i, all.len() as int)]
                existing.len() <= i && (i == 0 || all[i - 1] == '\n') && all.subrange(
                    i,
                    all.len() as int,
                ) == MARKER_BEGIN@ + seq!['\n'] + hook_line + seq!['\n'] + MARKER_END@ + seq![
                    '\n',
                ]
        }),
{
    let all = existing + spec_hook_block(existing, hook_line);
    let tail = MARKER_BEGIN@ + seq!['\n'] + hook_line + seq!['\n'] + MARKER_END@ + seq!['\n'];
    let pre = if existing.len() > 0 && existing.last() != '\n' {
        seq!['\n']
    } else {
        Seq::<char>::empty()
    };
    let i = existing.len() + pre.len() + 0int;
    assert(all =~= existing + pre + tail);
    assert(all.subrange(0, existing.len() as int) =~= existing);
    assert(all.subrange(i, all.len() as int) =~= tail);
    if i > 0 {
        if pre.len() == 0 {
            assert(all[i - 1] == existing.last());
        } else {
            assert(all[i - 1] == '\n');
        }
    }
}

/// The rc file is the one the shell reads at startup: `.<shell>rc` in the
/// home directory for bash and zsh, `.config/<shell>/config.<shell>` there
/// for fish, where `<shell>` is the program name of that very shell.
pub proof fn lemma_rc_file_of_shell(shell: Shell, home: Seq<u8>)
    ensures
        exists|n: Seq<char>|
            #![trigger spec_shell_named(n)]
            spec_shell_named(n) == Some(shell) && spec_rc_path(shell, home) == (if shell
                == Shell::Fish {
                join_path(
                    join_path(join_path(home, encode_utf8(".config"@)), encode_utf8(n)),
                    encode_utf8("config."@ + n),
                )
            } else {
                join_path(home, encode_utf8("."@ + n + "rc"@))
            }),
{
    reveal_strlit("bash");
    reveal_strlit("zsh");
    reveal_strlit("fish");
    reveal_strlit(".");
    reveal_strlit("rc");
    reveal_strlit("config.");
    reveal_strlit(".bashrc");
    reveal_strlit(".zshrc");
    reveal_strlit("config.fish");
    assert("zsh"@ != "bash"@) by {
        assert("zsh"@.len() != "bash"@.len());
    }
    assert("fish"@ != "bash"@) by {
        assert("fish"@[0] != "bash"@[0]);
    }
    assert("fish"@ != "zsh"@) by {
        assert("fish"@.len() != "zsh"@.len());
    }
    match shell {
        Shell::Bash => {
            assert(spec_shell_named("bash"@) == Some(shell));
            assert(".bashrc"@ =~= "."@ + "bash"@ + "rc"@);
        },
        Shell::Zsh => {
            assert(spec_shell_named("zsh"@) == Some(shell));
            assert(".zshrc"@ =~= "."@ + "zsh"@ + "rc"@);
        },
        Shell::Fish => {
            assert(spec_shell_named("fish"@) == Some(shell));
            assert("config.fish"@ =~= "config."@ + "fish"@);
        },
    }
}

/// `c` is `lower` or its ASCII capital.
pub open spec fn letter_is(c: char, lower: char, upper: char) -> bool {
    c == lower || c == upper
}

/// A confirmation answer: `y` or `yes` in any ASCII case, white space around it ignored.
pub open spec fn spec_is_affirmative(answer: Seq<char>) -> bool {
    let t = trim(answer);
    ||| (t.len() == 1 && letter_is(t[0], 'y', 'Y'))
    ||| (t.len() == 3 && letter_is(t[0], 'y', 'Y') && letter_is(t[1], 'e', 'E') && letter_is(
        t[2],
        's',
        'S',
    ))
}

/// `c` with an ASCII capital turned into its small letter.
pub open spec fn ascii_lower(c: char) -> char {
    if 'A' <= c <= 'Z' {
        ((c as u32) + 32) as char
    } else {
        c
    }
}

/// An answer is affirmative exactly when, trimmed and with ASCII capitals
/// made small, it is `y` or `yes`.
pub proof fn lemma_affirmative_is_yes(answer: Seq<char>)
    ensures
        spec_is_affirmative(answer) <==> (trim(answer).map_values(|c: char| ascii_lower(c))
            == "y"@ || trim(answer).map_values(|c: char| ascii_lower(c)) == "yes"@),
{
    reveal_strlit("y");
    reveal_strlit("yes");
    let t = trim(answer);
    let l = t.map_values(|c: char| ascii_lower(c));
    if l == "y"@ {
        assert(l.len() == 1 && l[0] == 'y');
    }
    if l == "yes"@ {
        assert(l.len() == 3 && l[0] == 'y' && l[1] == 'e' && l[2] == 's');
    }
    if t.len() == 1 && letter_is(t[0], 'y', 'Y') {
        assert(l =~= "y"@);
    }
    if t.len() == 3 && letter_is(t[0], 'y', 'Y') && letter_is(t[1], 'e', 'E') && letter_is(t[2], 's', 'S') {
        assert(l =~= "yes"@);
    }
}

/// Whether the answer to a `[y/N]` prompt is yes.
pub fn is_affirmative(answer: &str) -> (b: bool)
    ensures
        b == spec_is_affirmative(answer@),
{
    let cs = chars_of(answer);
    let t = crate::config::trim_chars(&cs);
    let t = chars_of(t.as_str());
    (t.len() == 1 && (t[0] == 'y' || t[0] == 'Y')) || (t.len() == 3 && (t[0] == 'y' || t[0] == 'Y')
        && (t[1] == 'e' || t[1] == 'E') && (t[2] == 's' || t[2] == 'S'))
}

/// Whether `name` is among the configured `names`.
pub fn is_configured(names: &Vec<String>, name: &str) -> (b: bool)
    ensures
        b == views(names@).contains(name@),
{
    let mut i: usize = 0;
    while i < names.len()
        invariant
            i <= names@.len(),
            forall|k: int| 0 <= k < i ==> names@[k]@ != name@,
        decreases names@.len() - i,
    {
        if same_text(names[i].as_str(), name) {
            assert(views(names@)[i as int] == name@);
            return true;
        }
        i = i + 1;
    }
    assert(!views(names@).contains(name@)) by {
        if views(names@).contains(name@) {
            let k = choose|k: int| 0 <= k < views(names@).len() && views(names@)[k] == name@;
            assert(names@[k]@ == name@);
        }
    }
    false
}

/// Adds `name` to the configured names, unless it is there already.
pub fn add_name(names: &mut Vec<String>, name: &str)
    ensures
        views(old(names)@).contains(name@) ==> views(final(names)@) == views(old(names)@),
        !views(old(names)@).contains(name@) ==> views(final(names)@) == views(old(names)@).push(name@),
{
    if !is_configured(names, name) {
        names.push(name.to_owned());
        assert(views(names@) =~= views(old(names)@).push(name@));
    }
}

/// The names of `s` other than `x`, in order.
pub open spec fn without(s: Seq<Seq<char>>, x: Seq<char>) -> Seq<Seq<char>>
    decreases s.len(),
{
    if s.len() == 0 {
        seq![]
    } else if s.last() == x {
        without(s.drop_last(), x)
    } else {
        without(s.drop_last(), x).push(s.last())
    }
}

/// The test that a name is not `x`.
pub open spec fn other_than(x: Seq<char>) -> spec_fn(Seq<char>) -> bool {
    |n: Seq<char>| n != x
}

/// Removing a name drops exactly its occurrences: every other name stays,
/// as often as it was there and in the same order.
pub proof fn lemma_remove_keeps_others(s: Seq<Seq<char>>, x: Seq<char>)
    ensures
        without(s, x) == s.filter(other_than(x)),
    decreases s.len(),
{
    reveal(Seq::filter);
    if s.len() > 0 {
        lemma_remove_keeps_others(s.drop_last(), x);
    }
}

/// Removes every occurrence of `name` from the configured names.
pub fn remove_name(names: &mut Vec<String>, name: &str)
    ensures
        views(final(names)@) == without(views(old(names)@), name@),
        views(final(names)@) == views(old(names)@).filter(other_than(name@)),
{
    proof {
        lemma_remove_keeps_others(views(old(names)@), name@);
    }
    let ghost given = views(names@);
    let mut kept: Vec<String> = Vec::new();
    let mut rest: Vec<String> = Vec::new();
    std::mem::swap(&mut rest, names);
    let mut i: usize = 0;
    assert(given.take(0) =~= Seq::<Seq<char>>::empty());
    while i < rest.len()
        invariant
            i <= rest@.len(),
            views(rest@) == given,
            views(kept@) == without(given.take(i as int), name@),
        decreases rest@.len() - i,
    {
        let n = rest[i].as_str();
        proof {
            let t = given.take(i + 1);
            assert(t.drop_last() =~= given.take(i as int));
            assert(t.last() == rest@[i as int]@);
        }
        if !same_text(n, name) {
            kept.push(n.to_owned());
            assert(views(kept@) =~= without(given.take(i as int), name@).push(n@));
        }
        i = i + 1;
    }
    assert(given.take(i as int) =~= given);
    *names = kept;
}

/// Once removed, a name is no longer configured.
pub proof fn lemma_removed_is_gone(s: Seq<Seq<char>>, x: Seq<char>)
    ensures
        !without(s, x).contains(x),
    decreases s.len(),
{
    if s.len() > 0 {
        lemma_removed_is_gone(s.drop_last(), x);
        if without(s, x).contains(x) {
            let w = without(s.drop_last(), x);
            let k = choose|k: int| 0 <= k < without(s, x).len() && without(s, x)[k] == x;
            if s.last() != x {
                assert(without(s, x) == w.push(s.last()));
                if k < w.len() {
                    assert(w[k] == x);
                }
            }
        }
    }
}

/// `name: present` or `name: MISSING from keyring`.
pub open spec fn spec_status_line(name: Seq<char>, present: bool) -> Seq<char> {
    name + (if present {
        ": present"@
    } else {
        ": MISSING from keyring"@
    })
}

/// A status line names the secret and says `present` exactly when a value
/// is stored under it.
pub proof fn lemma_status_says_presence(name: Seq<char>, secrets: Map<Seq<char>, Seq<char>>)
    ensures
        spec_status_line(name, secrets.contains_key(name)) == name + ": "@ + (if secrets.contains_key(
            name,
        ) {
            "present"@
        } else {
            "MISSING from keyring"@
        }),
{
    reveal_strlit(": present");
    reveal_strlit(": MISSING from keyring");
    reveal_strlit(": ");
    reveal_strlit("present");
    reveal_strlit("MISSING from keyring");
    if secrets.contains_key(name) {
        assert(name + ": present"@ =~= name + ": "@ + "present"@);
    } else {
        assert(name + ": MISSING from keyring"@ =~= name + ": "@ + "MISSING from keyring"@);
    }
}

/// One status line per configured name: whether its secret is stored.
pub fn list_lines(names: &Vec<String>, secrets: &Secrets) -> (lines: Vec<String>)
    ensures
        lines@.len() == names@.len(),
        forall|i: int|
            0 <= i < names@.len() ==> (#[trigger] lines@[i])@ == spec_status_line(
                names@[i]@,
                secrets@.contains_key(names@[i]@),
            ),
{
    let mut lines: Vec<String> = Vec::new();
    let mut i: usize = 0;
    while i < names.len()
        invariant
            i <= names@.len(),
            lines@.len() == i,
            forall|k: int|
                0 <= k < i ==> (#[trigger] lines@[k])@ == spec_status_line(
                    names@[k]@,
                    secrets@.contains_key(names@[k]@),
                ),
        decreases names@.len() - i,
    {
        let name = names[i].as_str();
        let mut line = name.to_owned();
        if secrets.contains_key(name) {
            line.append(": present");
        } else {
            line.append(": MISSING from keyring");
        }
        lines.push(line);
        i = i + 1;
    }
    lines
}

} // verus!
