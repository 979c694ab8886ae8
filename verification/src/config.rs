//! The config file: one secret name per line, under `~/.config/reliquary/config`.
//!
//! Reading and writing the file is the caller's; here is what goes in it and
//! what comes out of it.

use vstd::prelude::*;
use vstd::string::StringSliceAdditionalSpecFns;
use vstd::utf8::encode_utf8;
use crate::text::{chars_of, push_ascii, push_char, string_from};

verus! {

/// An ASCII letter.
pub open spec fn is_ascii_letter(c: char) -> bool {
    ('A' <= c <= 'Z') || ('a' <= c <= 'z')
}

/// An ASCII digit.
pub open spec fn is_ascii_digit(c: char) -> bool {
    '0' <= c <= '9'
}

/// A valid secret name, `[A-Za-z_][A-Za-z0-9_]*`: it doubles as an
/// environment variable name, so `export NAME=...` is safe unquoted.
pub open spec fn is_valid_name(s: Seq<char>) -> bool {
    &&& s.len() > 0
    &&& (is_ascii_letter(s[0]) || s[0] == '_')
    &&& forall|k: int|
        1 <= k < s.len() ==> (is_ascii_letter(#[trigger] s[k]) || is_ascii_digit(s[k]) || s[k]
            == '_')
}

/// A name that is not a valid environment variable name.
#[derive(Debug)]
pub struct InvalidName {
    pub name: String,
}

/// The valid names are exactly the non-empty strings of ASCII letters
/// `A`..=`Z` and `a`..=`z`, digits `0`..=`9` and `_` that do not start with a
/// digit.
pub proof fn lemma_valid_names_are_identifiers(s: Seq<char>)
    ensures
        is_valid_name(s) <==> (s.len() > 0 && !('0' <= s[0] <= '9') && forall|k: int|
            0 <= k < s.len() ==> ('A' <= #[trigger] s[k] <= 'Z' || 'a' <= s[k] <= 'z' || '0'
                <= s[k] <= '9' || s[k] == '_')),
{
}

/// Accepts exactly the names that match `[A-Za-z_][A-Za-z0-9_]*`.
pub fn validate_name(name: &str) -> (r: Result<(), InvalidName>)
    ensures
        r is Ok <==> is_valid_name(name@),
        r matches Err(e) ==> e.name@ == name@,
{
    let cs = chars_of(name);
    let mut ok = cs.len() > 0;
    if ok {
        let c = cs[0];
        ok = ('A' <= c && c <= 'Z') || ('a' <= c && c <= 'z') || c == '_';
    }
    let mut i: usize = 1;
    while ok && i < cs.len()
        invariant
            cs@ == name@,
            1 <= i <= cs@.len() || (!ok && i == 1),
            ok ==> (cs@.len() > 0 && (is_ascii_letter(cs@[0]) || cs@[0] == '_')),
            ok ==> forall|k: int|
                1 <= k < i ==> (is_ascii_letter(#[trigger] cs@[k]) || is_ascii_digit(cs@[k])
                    || cs@[k] == '_'),
            !ok ==> !is_valid_name(name@),
            cs@.len() > 0 && !(is_ascii_letter(cs@[0]) || cs@[0] == '_') ==> !ok,
            cs@.len() == 0 ==> !ok,
        decreases cs@.len() - i,
    {
        let c = cs[i];
        if !(('A' <= c && c <= 'Z') || ('a' <= c && c <= 'z') || ('0' <= c && c <= '9') || c
            == '_') {
            ok = false;
        }
        i = i + 1;
    }
    if ok {
        Ok(())
    } else {
        Err(InvalidName { name: name.to_owned() })
    }
}

/// Unicode white space, the characters that `str::trim` removes.
pub open spec fn is_whitespace(c: char) -> bool {
    let v = c as u32;
    ||| 0x09 <= v <= 0x0d
    ||| v == 0x20
    ||| v == 0x85
    ||| v == 0xa0
    ||| v == 0x1680
    ||| 0x2000 <= v <= 0x200a
    ||| v == 0x2028
    ||| v == 0x2029
    ||| v == 0x202f
    ||| v == 0x205f
    ||| v == 0x3000
}

/// Whether `c` is Unicode white space.
pub fn whitespace(c: char) -> (b: bool)
    ensures
        b == is_whitespace(c),
{
    let v = c as u32;
    (0x09 <= v && v <= 0x0d) || v == 0x20 || v == 0x85 || v == 0xa0 || v == 0x1680 || (0x2000
        <= v && v <= 0x200a) || v == 0x2028 || v == 0x2029 || v == 0x202f || v == 0x205f || v
        == 0x3000
}

/// `s` without its leading white space.
pub open spec fn trim_start(s: Seq<char>) -> Seq<char>
    decreases s.len(),
{
    if s.len() > 0 && is_whitespace(s[0]) {
        trim_start(s.drop_first())
    } else {
        s
    }
}

/// `s` without its trailing white space.
pub open spec fn trim_end(s: Seq<char>) -> Seq<char>
    decreases s.len(),
{
    if s.len() > 0 && is_whitespace(s.last()) {
        trim_end(s.drop_last())
    } else {
        s
    }
}

/// `s` without leading and trailing white space, as `str::trim` gives it.
pub open spec fn trim(s: Seq<char>) -> Seq<char> {
    trim_end(trim_start(s))
}

/// The lines of `s`: the pieces between newlines (the last may be empty).
pub open spec fn split_lines(s: Seq<char>) -> Seq<Seq<char>>
    decreases s.len(),
{
    if s.len() == 0 {
        seq![Seq::<char>::empty()]
    } else {
        let p = split_lines(s.drop_last());
        if s.last() == '\n' {
            p.push(Seq::<char>::empty())
        } else {
            p.update(p.len() - 1, p.last().push(s.last()))
        }
    }
}

/// A trimmed line names a secret when it is neither empty nor a comment.
pub open spec fn names_a_secret(t: Seq<char>) -> bool {
    t.len() > 0 && t[0] != '#'
}

/// The secret names among `lines`, trimmed, in order.
pub open spec fn names_in(lines: Seq<Seq<char>>) -> Seq<Seq<char>>
    decreases lines.len(),
{
    if lines.len() == 0 {
        seq![]
    } else {
        let before = names_in(lines.drop_last());
        let t = trim(lines.last());
        if names_a_secret(t) {
            before.push(t)
        } else {
            before
        }
    }
}

/// The names a config text holds: its lines, trimmed, without empty lines
/// and `#` comments.
pub open spec fn spec_parse_names(text: Seq<char>) -> Seq<Seq<char>> {
    names_in(split_lines(text))
}

proof fn lemma_split_lines_nonempty(s: Seq<char>)
    ensures
        split_lines(s).len() >= 1,
    decreases s.len(),
{
    if s.len() > 0 {
        lemma_split_lines_nonempty(s.drop_last());
    }
}

proof fn lemma_split_lines_one(n: Seq<char>)
    requires
        !n.contains('\n'),
    ensures
        split_lines(n) == seq![n],
    decreases n.len(),
{
    if n.len() > 0 {
        assert(!n.drop_last().contains('\n')) by {
            if n.drop_last().contains('\n') {
                let k = choose|k: int| 0 <= k < n.drop_last().len() && n.drop_last()[k] == '\n';
                assert(n[k] == '\n');
            }
        }
        assert(n.last() != '\n') by {
            assert(n[n.len() - 1] == n.last());
        }
        lemma_split_lines_one(n.drop_last());
        assert(n.drop_last().push(n.last()) =~= n);
        assert(seq![n.drop_last()].update(0, n.drop_last().push(n.last())) =~= seq![n]);
    } else {
        assert(n =~= Seq::<char>::empty());
    }
}

proof fn lemma_split_lines_join(p: Seq<char>, b: Seq<char>)
    ensures
        split_lines(p + seq!['\n'] + b) == split_lines(p) + split_lines(b),
    decreases b.len(),
{
    let x = split_lines(p);
    if b.len() == 0 {
        assert(p + seq!['\n'] + b =~= p.push('\n'));
        assert((p + seq!['\n'] + b).drop_last() =~= p);
        assert(x.push(Seq::<char>::empty()) =~= x + seq![Seq::<char>::empty()]);
    } else {
        let s = p + seq!['\n'] + b;
        assert(s.drop_last() =~= p + seq!['\n'] + b.drop_last());
        assert(s.last() == b.last());
        lemma_split_lines_join(p, b.drop_last());
        lemma_split_lines_nonempty(b.drop_last());
        let y = split_lines(b.drop_last());
        if b.last() == '\n' {
            assert((x + y).push(Seq::<char>::empty()) =~= x + y.push(Seq::<char>::empty()));
        } else {
            assert((x + y).update((x + y).len() - 1, (x + y).last().push(b.last())) =~= x + y.update(
                y.len() - 1,
                y.last().push(b.last()),
            ));
        }
    }
}

proof fn lemma_names_in_concat(x: Seq<Seq<char>>, y: Seq<Seq<char>>)
    ensures
        names_in(x + y) == names_in(x) + names_in(y),
    decreases y.len(),
{
    if y.len() == 0 {
        assert(x + y =~= x);
        assert(names_in(x) + names_in(y) =~= names_in(x));
    } else {
        assert((x + y).drop_last() =~= x + y.drop_last());
        assert((x + y).last() == y.last());
        lemma_names_in_concat(x, y.drop_last());
        let t = trim(y.last());
        if names_a_secret(t) {
            assert((names_in(x) + names_in(y.drop_last())).push(t) =~= names_in(x) + names_in(
                y.drop_last(),
            ).push(t));
        }
    }
}

/// The config text is read line by line: the names of two pieces of text
/// joined by a newline are the names of the first followed by those of the
/// second, whatever the text.
pub proof fn lemma_parse_names_by_line(a: Seq<char>, b: Seq<char>)
    ensures
        spec_parse_names(a + seq!['\n'] + b) == spec_parse_names(a) + spec_parse_names(b),
{
    lemma_split_lines_join(a, b);
    lemma_names_in_concat(split_lines(a), split_lines(b));
}

/// A single line names the secret it holds, trimmed of white space, unless
/// it is blank or a `#` comment.
pub proof fn lemma_parse_names_one_line(line: Seq<char>)
    requires
        !line.contains('\n'),
    ensures
        spec_parse_names(line) == (if trim(line).len() > 0 && trim(line)[0] != '#' {
            seq![trim(line)]
        } else {
            Seq::<Seq<char>>::empty()
        }),
{
    lemma_split_lines_one(line);
    let one = seq![line];
    assert(one.drop_last() =~= Seq::<Seq<char>>::empty());
    assert(names_in(Seq::<Seq<char>>::empty()) =~= Seq::<Seq<char>>::empty());
    assert(Seq::<Seq<char>>::empty().push(trim(line)) =~= seq![trim(line)]);
}

/// `cs[from..to]` with white space trimmed from both ends.
fn trimmed(cs: &Vec<char>, from: usize, to: usize) -> (s: String)
    requires
        from <= to <= cs@.len(),
    ensures
        s@ == trim(cs@.subrange(from as int, to as int)),
{
    let ghost whole = cs@.subrange(from as int, to as int);
    let mut a = from;
    while a < to && whitespace(cs[a])
        invariant
            from <= a <= to,
            to <= cs@.len(),
            trim_start(whole) == trim_start(cs@.subrange(a as int, to as int)),
        decreases to - a,
    {
        assert(cs@.subrange(a as int, to as int).drop_first() =~= cs@.subrange(a + 1, to as int));
        a = a + 1;
    }
    assert(trim_start(whole) == cs@.subrange(a as int, to as int));
    let mut b = to;
    while b > a && whitespace(cs[b - 1])
        invariant
            a <= b <= to,
            to <= cs@.len(),
            trim(whole) == trim_end(cs@.subrange(a as int, b as int)),
        decreases b,
    {
        assert(cs@.subrange(a as int, b as int).drop_last() =~= cs@.subrange(a as int, b - 1));
        b = b - 1;
    }
    assert(trim(whole) == cs@.subrange(a as int, b as int));
    string_from(cs, a, b)
}

/// The secret names in a config text, trimmed, in order.
pub fn parse_names(text: &str) -> (names: Vec<String>)
    ensures
        names@.len() == spec_parse_names(text@).len(),
        forall|i: int| 0 <= i < names@.len() ==> #[trigger] names@[i]@ == spec_parse_names(text@)[i],
{
    let cs = chars_of(text);
    let mut names: Vec<String> = Vec::new();
    let mut start: usize = 0;
    let mut i: usize = 0;
    let ghost mut found: Seq<Seq<char>> = seq![];
    assert(cs@.take(0) =~= Seq::<char>::empty());
    while i < cs.len()
        invariant
            cs@ == text@,
            start <= i <= cs@.len(),
            split_lines(cs@.take(i as int)).len() >= 1,
            names_in(split_lines(cs@.take(i as int)).drop_last()) == found,
            split_lines(cs@.take(i as int)).last() == cs@.subrange(start as int, i as int),
            names@.len() == found.len(),
            forall|k: int| 0 <= k < names@.len() ==> #[trigger] names@[k]@ == found[k],
        decreases cs@.len() - i,
    {
        let ghost p = split_lines(cs@.take(i as int));
        assert(cs@.take(i + 1).drop_last() =~= cs@.take(i as int));
        assert(cs@.take(i + 1).last() == cs@[i as int]);
        if cs[i] == '\n' {
            let t = trimmed(&cs, start, i);
            proof {
                let q = split_lines(cs@.take(i + 1));
                assert(q == p.push(Seq::<char>::empty()));
                assert(q.drop_last() =~= p);
                assert(p =~= p.drop_last().push(p.last()));
            }
            let keep = names_start(&t);
            proof {
                assert(names_in(p) == if names_a_secret(trim(p.last())) {
                    names_in(p.drop_last()).push(trim(p.last()))
                } else {
                    names_in(p.drop_last())
                });
            }
            if keep {
                names.push(t);
                proof {
                    found = found.push(trim(p.last()));
                }
            }
            start = i + 1;
            assert(cs@.subrange(start as int, (i + 1) as int) =~= Seq::<char>::empty());
        } else {
            proof {
                let q = split_lines(cs@.take(i + 1));
                assert(q.drop_last() =~= p.drop_last());
                assert(cs@.subrange(start as int, i + 1) =~= cs@.subrange(start as int, i as int).push(cs@[i as int]));
            }
        }
        proof {
            lemma_split_lines_nonempty(cs@.take(i + 1));
        }
        i = i + 1;
    }
    let t = trimmed(&cs, start, i);
    proof {
        let p = split_lines(cs@.take(i as int));
        assert(cs@.take(i as int) =~= text@);
        assert(names_in(p) == if names_a_secret(trim(p.last())) {
            names_in(p.drop_last()).push(trim(p.last()))
        } else {
            names_in(p.drop_last())
        });
    }
    if names_start(&t) {
        names.push(t);
        proof {
            found = found.push(trim(split_lines(text@).last()));
        }
    }
    names
}

/// Whether a non-empty line begins with anything but `#`.
fn names_start(t: &String) -> (b: bool)
    ensures
        b == (t@.len() > 0 && t@[0] != '#'),
{
    let cs = chars_of(t.as_str());
    cs.len() > 0 && cs[0] != '#'
}

/// The first line of every config file this tool writes.
pub const HEADER: &'static str = "# reliquary \u{2014} one secret name per line, managed by `reliquary add`/`reliquary remove`\n";

/// Each name followed by a newline.
pub open spec fn lines_text(names: Seq<Seq<char>>) -> Seq<char>
    decreases names.len(),
{
    if names.len() == 0 {
        seq![]
    } else {
        lines_text(names.drop_last()) + names.last() + seq!['\n']
    }
}

/// The views of a list of strings.
pub open spec fn views(v: Seq<String>) -> Seq<Seq<char>> {
    v.map_values(|s: String| s@)
}

/// The config text for `names`: the header, then one name per line.
pub fn format_names(names: &Vec<String>) -> (text: String)
    ensures
        text@ == HEADER@ + lines_text(views(names@)),
{
    let mut out = String::new();
    out.append(HEADER);
    let mut i: usize = 0;
    while i < names.len()
        invariant
            i <= names@.len(),
            out@ == HEADER@ + lines_text(views(names@).take(i as int)),
        decreases names@.len() - i,
    {
        out.append(names[i].as_str());
        push_char(&mut out, '\n');
        proof {
            let t = views(names@).take(i + 1);
            assert(t.drop_last() =~= views(names@).take(i as int));
            assert(t.last() == names@[i as int]@);
        }
        i = i + 1;
    }
    assert(views(names@).take(i as int) =~= views(names@));
    out
}

/// A name that reads back from its own line: not empty, no newline, no white
/// space at either end, and not a `#` comment.
pub open spec fn is_config_clean(n: Seq<char>) -> bool {
    &&& n.len() > 0
    &&& !n.contains('\n')
    &&& !is_whitespace(n[0])
    &&& !is_whitespace(n.last())
    &&& n[0] != '#'
}

/// Every valid secret name reads back from its own line.
pub proof fn lemma_valid_name_is_clean(n: Seq<char>)
    requires
        is_valid_name(n),
    ensures
        is_config_clean(n),
{
    assert forall|k: int| 0 <= k < n.len() implies #[trigger] n[k] != '\n' && !is_whitespace(n[k]) by {
        if k > 0 {
            assert(is_ascii_letter(n[k]) || is_ascii_digit(n[k]) || n[k] == '_');
        }
    }
    assert(n.last() == n[n.len() - 1]);
}

proof fn lemma_split_push_newline(x: Seq<char>)
    ensures
        split_lines(x.push('\n')) == split_lines(x).push(Seq::<char>::empty()),
{
    assert(x.push('\n').drop_last() =~= x);
}

proof fn lemma_split_append_line(x: Seq<char>, y: Seq<char>)
    requires
        !y.contains('\n'),
    ensures
        split_lines(x).len() >= 1,
        split_lines(x + y) == split_lines(x).update(
            split_lines(x).len() - 1,
            split_lines(x).last() + y,
        ),
    decreases y.len(),
{
    lemma_split_lines_nonempty(x);
    if y.len() == 0 {
        assert(x + y =~= x);
        assert(split_lines(x).last() + y =~= split_lines(x).last());
        assert(split_lines(x).update(split_lines(x).len() - 1, split_lines(x).last()) =~= split_lines(x));
    } else {
        let y0 = y.drop_last();
        assert(!y0.contains('\n')) by {
            if y0.contains('\n') {
                let k = choose|k: int| 0 <= k < y0.len() && y0[k] == '\n';
                assert(y[k] == '\n');
            }
        }
        lemma_split_append_line(x, y0);
        assert((x + y).drop_last() =~= x + y0);
        assert((x + y).last() == y.last());
        assert(y.last() != '\n') by {
            assert(y[y.len() - 1] == y.last());
        }
        let p = split_lines(x + y0);
        assert(p.len() == split_lines(x).len());
        assert(split_lines(x + y) =~= split_lines(x).update(
            split_lines(x).len() - 1,
            split_lines(x).last() + y,
        )) by {
            assert(split_lines(x).last() + y0 + seq![y.last()] =~= split_lines(x).last() + y);
            assert(p.last() == split_lines(x).last() + y0);
            assert(p.last().push(y.last()) =~= split_lines(x).last() + y);
        }
    }
}

proof fn lemma_trim_clean(n: Seq<char>)
    requires
        n.len() > 0,
        !is_whitespace(n[0]),
        !is_whitespace(n.last()),
    ensures
        trim(n) == n,
{
}

proof fn lemma_trim_keeps_first(s: Seq<char>)
    requires
        s.len() > 0,
        !is_whitespace(s[0]),
    ensures
        trim(s).len() > 0,
        trim(s)[0] == s[0],
    decreases s.len(),
{
    if s.len() > 1 && is_whitespace(s.last()) {
        lemma_trim_keeps_first(s.drop_last());
        assert(trim_start(s.drop_last()) == s.drop_last());
    }
}

proof fn lemma_lines_of_text(hl: Seq<char>, names: Seq<Seq<char>>)
    requires
        !hl.contains('\n'),
        forall|i: int| 0 <= i < names.len() ==> !(#[trigger] names[i]).contains('\n'),
    ensures
        split_lines(hl.push('\n') + lines_text(names)) == seq![hl] + names + seq![Seq::<char>::empty()],
    decreases names.len(),
{
    if names.len() == 0 {
        assert(hl.push('\n') + lines_text(names) =~= hl.push('\n'));
        lemma_split_push_newline(hl);
        lemma_split_append_line(Seq::<char>::empty(), hl);
        assert(Seq::<char>::empty() + hl =~= hl);
        assert(Seq::<char>::empty() + hl =~= hl);
        assert(seq![Seq::<char>::empty()].update(0, Seq::<char>::empty() + hl) =~= seq![hl]);
        assert(seq![hl].push(Seq::<char>::empty()) =~= seq![hl] + names + seq![Seq::<char>::empty()]);
    } else {
        let n0 = names.drop_last();
        let last = names.last();
        assert forall|i: int| 0 <= i < n0.len() implies !(#[trigger] n0[i]).contains('\n') by {
            assert(n0[i] == names[i]);
        }
        lemma_lines_of_text(hl, n0);
        let x = hl.push('\n') + lines_text(n0);
        assert(hl.push('\n') + lines_text(names) =~= (x + last).push('\n'));
        assert(!last.contains('\n')) by {
            assert(last == names[names.len() - 1]);
        }
        lemma_split_append_line(x, last);
        lemma_split_push_newline(x + last);
        let p = seq![hl] + n0 + seq![Seq::<char>::empty()];
        assert(Seq::<char>::empty() + last =~= last);
        assert(p.update(p.len() - 1, p.last() + last).push(Seq::<char>::empty())
            =~= seq![hl] + names + seq![Seq::<char>::empty()]);
    }
}

proof fn lemma_names_in_clean(hl: Seq<char>, names: Seq<Seq<char>>)
    requires
        hl.len() > 0,
        hl[0] == '#',
        forall|i: int| 0 <= i < names.len() ==> is_config_clean(#[trigger] names[i]),
    ensures
        names_in(seq![hl] + names) == names,
    decreases names.len(),
{
    if names.len() == 0 {
        assert(seq![hl] + names =~= seq![hl]);
        assert(seq![hl].drop_last() =~= Seq::<Seq<char>>::empty());
        assert(('#' as u32) == 35);
        lemma_trim_keeps_first(hl);
        assert(!names_a_secret(trim(hl)));
        assert(names_in(seq![hl]) == names_in(Seq::<Seq<char>>::empty()));
        assert(names =~= Seq::<Seq<char>>::empty());
    } else {
        let n0 = names.drop_last();
        assert forall|i: int| 0 <= i < n0.len() implies is_config_clean(#[trigger] n0[i]) by {
            assert(n0[i] == names[i]);
        }
        lemma_names_in_clean(hl, n0);
        assert((seq![hl] + names).drop_last() =~= seq![hl] + n0);
        assert((seq![hl] + names).last() == names.last());
        assert(is_config_clean(names[names.len() - 1]));
        lemma_trim_clean(names.last());
        assert(names_a_secret(trim(names.last())));
        assert(names_in(seq![hl] + names) == names_in(seq![hl] + n0).push(names.last()));
        assert(n0.push(names.last()) =~= names);
    }
}

/// What `format_names` writes, `parse_names` reads back: the names, in
/// order, when each reads back from its own line (as every valid secret name
/// does).
pub proof fn lemma_parse_format(names: Seq<Seq<char>>)
    requires
        forall|i: int| 0 <= i < names.len() ==> is_config_clean(#[trigger] names[i]),
    ensures
        spec_parse_names(HEADER@ + lines_text(names)) == names,
{
    reveal_strlit("# reliquary \u{2014} one secret name per line, managed by `reliquary add`/`reliquary remove`\n");
    let h = HEADER@;
    let hl = h.drop_last();
    assert(h.last() == '\n');
    assert(h =~= hl.push('\n'));
    assert(!hl.contains('\n'));
    assert(hl[0] == '#');
    assert forall|i: int| 0 <= i < names.len() implies !(#[trigger] names[i]).contains('\n') by {
        assert(is_config_clean(names[i]));
    }
    lemma_lines_of_text(hl, names);
    let lines = seq![hl] + names + seq![Seq::<char>::empty()];
    assert(lines.drop_last() =~= seq![hl] + names);
    lemma_names_in_clean(hl, names);
    assert(trim(Seq::<char>::empty()) == Seq::<char>::empty());
}

/// A config file that `format_names` wrote for valid secret names reads
/// back, through `parse_names`, as the same names in the same order,
/// repeats included.
pub proof fn lemma_saved_names_load_back(names: Seq<Seq<char>>)
    requires
        forall|i: int| 0 <= i < names.len() ==> is_valid_name(#[trigger] names[i]),
    ensures
        spec_parse_names(HEADER@ + lines_text(names)) == names,
{
    assert forall|i: int| 0 <= i < names.len() implies is_config_clean(#[trigger] names[i]) by {
        lemma_valid_name_is_clean(names[i]);
    }
    lemma_parse_format(names);
}

/// The characters of `cs` with white space trimmed from both ends.
pub fn trim_chars(cs: &Vec<char>) -> (s: String)
    ensures
        s@ == trim(cs@),
{
    assert(cs@.subrange(0, cs@.len() as int) =~= cs@);
    trimmed(cs, 0, cs.len())
}

/// The byte `/`, the path separator on Unix.
pub open spec fn slash() -> u8 {
    47
}

/// `base` joined with `part` the way `PathBuf::join` does on Unix, where a
/// path is a string of bytes: an absolute `part` replaces `base`; otherwise a
/// `/` separates them unless `base` is empty or already ends in one.
pub open spec fn join_path(base: Seq<u8>, part: Seq<u8>) -> Seq<u8> {
    if part.len() > 0 && part[0] == slash() {
        part
    } else if base.len() == 0 || base.last() == slash() {
        base + part
    } else {
        base + seq![slash()] + part
    }
}

/// The bytes of a path component written as text.
pub open spec fn component(text: &str) -> Seq<u8> {
    encode_utf8(text@)
}

/// Appends the bytes `b` to `out`.
fn append_bytes(out: &mut Vec<u8>, b: &[u8])
    ensures
        final(out)@ == old(out)@ + b@,
{
    let ghost start = out@;
    let mut i: usize = 0;
    while i < b.len()
        invariant
            i <= b@.len(),
            out@ == start + b@.subrange(0, i as int),
        decreases b@.len() - i,
    {
        out.push(b[i]);
        assert(b@.subrange(0, i + 1) =~= b@.subrange(0, i as int).push(b@[i as int]));
        i = i + 1;
    }
    assert(b@.subrange(0, i as int) =~= b@);
}

/// `base` joined with `part`.
pub fn join_path_bytes(base: &[u8], part: &[u8]) -> (p: Vec<u8>)
    ensures
        p@ == join_path(base@, part@),
{
    let mut out: Vec<u8> = Vec::new();
    if part.len() > 0 && part[0] == 47 {
        append_bytes(&mut out, part);
        assert(out@ =~= part@);
        return out;
    }
    append_bytes(&mut out, base);
    if base.len() > 0 && base[base.len() - 1] != 47 {
        out.push(47);
    }
    append_bytes(&mut out, part);
    assert(out@ =~= join_path(base@, part@));
    out
}

/// Where the config file lives under the home directory `home`.
pub fn config_path_in(home: &[u8]) -> (p: Vec<u8>)
    ensures
        p@ == join_path(
            join_path(join_path(home@, component(".config")), component("reliquary")),
            component("config"),
        ),
{
    let dir = join_path_bytes(home, ".config".as_bytes());
    let dir = join_path_bytes(dir.as_slice(), "reliquary".as_bytes());
    join_path_bytes(dir.as_slice(), "config".as_bytes())
}

} // verus!
