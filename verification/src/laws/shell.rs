//! Commands of a shell.

use crate::laws;
use crate::shell;
use crate::text;
use vstd::prelude::*;

verus! {

/// Whether the text has no part of a separator in it.
pub open spec fn is_unbroken(s: Seq<char>) -> bool {
    forall|i: int|
        0 <= i < s.len() ==> #[trigger] s[i] != '\n' && s[i] != ';' && s[i] != '&' && s[i] != '|'
}

/// Whether the text separates two commands.
pub open spec fn separates(s: Seq<char>) -> bool {
    s == seq!['\n'] || s == seq![';'] || s == seq!['&', '&'] || s == seq!['|', '|']
}

proof fn lemma_first_separator_range(s: Seq<char>, from: int)
    requires
        0 <= from <= s.len(),
    ensures
        from <= shell::first_separator(s, from) <= s.len(),
    decreases s.len() - from,
{
    if from < s.len() && shell::separator_at(s, from) == 0 {
        lemma_first_separator_range(s, from + 1);
    }
}

proof fn lemma_shift_separator(p: Seq<char>, b: Seq<char>, from: int)
    requires
        0 <= from <= b.len(),
    ensures
        shell::first_separator(p + b, p.len() + from) == p.len() + shell::first_separator(b, from),
    decreases b.len() - from,
{
    let s = p + b;
    if from < b.len() {
        assert(s[p.len() + from] == b[from]);
        if from + 1 < b.len() {
            assert(s[p.len() + from + 1] == b[from + 1]);
        }
        assert(shell::separator_at(s, p.len() + from) == shell::separator_at(b, from));
        if shell::separator_at(b, from) == 0 {
            lemma_shift_separator(p, b, from + 1);
        }
    }
}

proof fn lemma_shift_segments(p: Seq<char>, b: Seq<char>, from: int)
    requires
        0 <= from <= b.len(),
    ensures
        shell::segments_from(p + b, p.len() + from) == shell::segments_from(b, from),
    decreases b.len() - from,
{
    let s = p + b;
    lemma_shift_separator(p, b, from);
    lemma_first_separator_range(b, from);
    let i = shell::first_separator(b, from);
    let k = p.len() as int;
    if i < b.len() {
        assert(s[k + i] == b[i]);
        if i + 1 < b.len() {
            assert(s[k + i + 1] == b[i + 1]);
        }
        assert(shell::separator_at(s, k + i) == shell::separator_at(b, i));
        assert(s.subrange(k + from, k + i) =~= b.subrange(from, i));
        if shell::separator_at(b, i) > 0 {
            lemma_shift_segments(p, b, i + shell::separator_at(b, i));
        }
    }
    assert(s.subrange(k + from, s.len() as int) =~= b.subrange(from, b.len() as int));
}

proof fn lemma_unbroken(s: Seq<char>, from: int, to: int)
    requires
        0 <= from <= to <= s.len(),
        forall|i: int|
            from <= i < to ==> #[trigger] s[i] != '\n' && s[i] != ';' && s[i] != '&' && s[i]
                != '|',
        to < s.len() ==> shell::separator_at(s, to) > 0,
    ensures
        shell::first_separator(s, from) == to,
    decreases to - from,
{
    if from < to {
        assert(s[from] != '\n');
        assert(shell::separator_at(s, from) == 0);
        lemma_unbroken(s, from + 1, to);
    }
}

/// A command is cut at a separator, and is whole where it has none.
pub proof fn lemma_segments(a: Seq<char>, sep: Seq<char>, b: Seq<char>)
    requires
        is_unbroken(a),
        separates(sep),
    ensures
        shell::segments_from(a, 0) == seq![a],
        shell::segments_from(a + sep + b, 0) == seq![a] + shell::segments_from(b, 0),
{
    lemma_unbroken(a, 0, a.len() as int);
    assert(a.subrange(0, a.len() as int) =~= a);
    let s = a + sep + b;
    let n = a.len() as int;
    assert(s[n] == sep[0]);
    if sep.len() == 2 {
        assert(s[n + 1] == sep[1]);
    }
    assert forall|i: int| 0 <= i < n implies #[trigger] s[i] != '\n' && s[i] != ';' && s[i] != '&'
        && s[i] != '|' by {
        assert(s[i] == a[i]);
    }
    lemma_unbroken(s, 0, n);
    assert(s.subrange(0, n) =~= a);
    assert(shell::separator_at(s, n) == sep.len());
    assert(s =~= (a + sep) + b);
    lemma_shift_segments(a + sep, b, 0);
}

/// Whether the text is one word without quotes.
pub open spec fn is_word(w: Seq<char>) -> bool {
    &&& w.len() > 0
    &&& w[0] != '"' && w[0] != '\''
    &&& forall|i: int| 0 <= i < w.len() ==> !text::is_space(#[trigger] w[i])
}

proof fn lemma_until(s: Seq<char>, p: spec_fn(char) -> bool, n: int)
    requires
        0 <= n <= s.len(),
        forall|k: int| 0 <= k < n ==> !p(#[trigger] s[k]),
        n < s.len() ==> p(s[n]),
    ensures
        shell::until(s, p) == n,
    decreases s.len(),
{
    if n > 0 {
        assert(!p(s[0]));
        let d = s.drop_first();
        assert forall|k: int| 0 <= k < n - 1 implies !p(#[trigger] d[k]) by {
            assert(d[k] == s[k + 1]);
        }
        if n < s.len() {
            assert(d[n - 1] == s[n]);
        }
        lemma_until(d, p, n - 1);
    }
}

/// A command is made of the words between its white space.
pub proof fn lemma_words(w: Seq<char>, space: char, b: Seq<char>)
    requires
        is_word(w),
        text::is_space(space),
    ensures
        shell::words(w) == seq![w],
        shell::words(w + seq![space] + b) == seq![w] + shell::words(b),
        shell::words(seq![space] + b) == shell::words(b),
{
    let p = |c: char| text::is_space(c);
    let n = w.len() as int;
    let s = w + seq![space] + b;
    assert(!text::is_space(w[0]));
    lemma_until(w, p, n);
    assert(w.take(n) =~= w);
    assert(w.skip(n) =~= Seq::<char>::empty());
    assert(shell::words(w.skip(n)) =~= Seq::<Seq<char>>::empty());
    assert(shell::words(w) =~= seq![w]);
    assert forall|k: int| 0 <= k < n implies !p(#[trigger] s[k]) by {
        assert(s[k] == w[k]);
    }
    assert(s[n] == space);
    lemma_until(s, p, n);
    assert(s[0] == w[0]);
    assert(s.take(n) =~= w);
    let t = seq![space] + b;
    assert(s.skip(n) =~= t);
    assert(t.skip(1) =~= b);
    assert(t[0] == space);
    assert(shell::words(t) == shell::words(b));
    assert(shell::words(s) == seq![s.take(n)] + shell::words(s.skip(n)));
}

/// Whether the word sets a variable.
pub open spec fn sets(w: Seq<char>, name: Seq<char>, value: Seq<char>) -> bool {
    &&& w == name + seq!['='] + value
    &&& name.len() > 0
    &&& !('0' <= name[0] && name[0] <= '9')
    &&& forall|i: int|
        0 <= i < name.len() ==> laws::ghosts::in_word(#[trigger] name[i])
}

/// Variables that are set ahead of a command make no difference.
pub proof fn lemma_assignments(w: Seq<char>, name: Seq<char>, value: Seq<char>, ws: Seq<Seq<char>>)
    requires
        sets(w, name, value),
    ensures
        shell::reads_file(seq![w] + ws) == shell::reads_file(ws),
{
    let all = seq![w] + ws;
    assert(all.drop_first() =~= ws);
    assert(all[0] == w);
    let p = |c: char| c == '=';
    let n = name.len() as int;
    assert forall|k: int| 0 <= k < n implies !p(#[trigger] w[k]) by {
        assert(w[k] == name[k]);
        assert(laws::ghosts::in_word(name[k]));
    }
    assert(w[n] == '=');
    lemma_until(w, p, n);
    assert(w[0] == name[0]);
    assert(laws::ghosts::in_word(name[0]));
    assert forall|k: int| 1 <= k < n implies shell::is_name_char(#[trigger] w[k]) by {
        assert(w[k] == name[k]);
        assert(laws::ghosts::in_word(name[k]));
    }
}

/// Whether the word is an option or the standard input.
pub open spec fn is_option(w: Seq<char>) -> bool {
    w.len() > 0 && w[0] == '-'
}

/// Whether the word can be nothing but a file.
pub open spec fn is_operand(w: Seq<char>) -> bool {
    &&& w.len() > 0
    &&& 'a' <= w[0] && w[0] <= 'z' || 'A' <= w[0] && w[0] <= 'Z' || w[0] == '/' || w[0] == '.'
        || w[0] == '_' || w[0] == '~'
}

proof fn lemma_operand(cmd: Seq<char>, ws: Seq<Seq<char>>)
    requires
        ws.len() > 0,
        is_operand(ws[0]),
    ensures
        shell::has_operand(cmd, ws, false),
{
    let w = ws[0];
    assert(shell::unquoted(w) == w);
    reveal_strlit("|");
    reveal_strlit("&&");
    reveal_strlit("||");
    reveal_strlit(";");
    reveal_strlit("-");
    reveal_strlit("-n");
    reveal_strlit("-c");
    reveal_strlit("--lines");
    reveal_strlit("--bytes");
    assert("|"@[0] == '|' && "&&"@[0] == '&' && "||"@[0] == '|' && ";"@[0] == ';' && "-"@[0]
        == '-');
    assert("-n"@[0] == '-' && "-c"@[0] == '-' && "--lines"@[0] == '-' && "--bytes"@[0] == '-');
    let p = |c: char| !shell::is_digit(c);
    assert(p(w[0]));
    assert(shell::until(w, p) == 0);
    assert(!shell::opens_redirect(w));
    assert(!shell::is_signed_integer(w));
}

proof fn lemma_option(cmd: Seq<char>, ws: Seq<Seq<char>>)
    requires
        ws.len() > 0,
        is_option(ws[0]),
    ensures
        cmd == "cat"@ ==> shell::has_operand(cmd, ws, false) == shell::has_operand(
            cmd,
            ws.drop_first(),
            false,
        ),
        (cmd == "head"@ || cmd == "tail"@) && (ws[0] == "-n"@ || ws[0] == "-c"@ || ws[0]
            == "--lines"@ || ws[0] == "--bytes"@) ==> shell::has_operand(cmd, ws, false)
            == shell::has_operand(cmd, ws.drop_first(), true),
{
    let w = ws[0];
    assert(shell::unquoted(w) == w);
    reveal_strlit("|");
    reveal_strlit("&&");
    reveal_strlit("||");
    reveal_strlit(";");
    reveal_strlit("-");
    reveal_strlit("cat");
    reveal_strlit("head");
    reveal_strlit("tail");
    reveal_strlit("-n");
    reveal_strlit("-c");
    reveal_strlit("--lines");
    reveal_strlit("--bytes");
    assert("|"@[0] == '|' && "&&"@[0] == '&' && "||"@[0] == '|' && ";"@[0] == ';');
    assert("cat"@[0] == 'c' && "head"@[0] == 'h' && "tail"@[0] == 't');
    assert("-"@.len() == 1 && "-n"@.len() == 2 && "-c"@.len() == 2 && "--lines"@.len() == 7
        && "--bytes"@.len() == 7);
    let p = |c: char| !shell::is_digit(c);
    assert(p(w[0]));
    assert(shell::until(w, p) == 0);
}

/// Whether the word calls the command, by its name or by a path to it.
pub open spec fn calls(w: Seq<char>, dir: Seq<char>, cmd: Seq<char>) -> bool {
    &&& w == dir + cmd
    &&& dir.len() > 0 ==> dir.last() == '/' && dir[0] != '"' && dir[0] != '\''
    &&& forall|i: int| 0 <= i < dir.len() ==> #[trigger] dir[i] != '='
}

proof fn lemma_after_last(dir: Seq<char>, cmd: Seq<char>)
    requires
        dir.len() > 0 ==> dir.last() == '/',
        forall|i: int| 0 <= i < cmd.len() ==> #[trigger] cmd[i] != '/',
    ensures
        shell::after_last(dir + cmd, '/') == cmd,
    decreases cmd.len(),
{
    let s = dir + cmd;
    if cmd.len() == 0 {
        assert(s =~= dir);
        assert(cmd =~= Seq::<char>::empty());
    } else {
        let d = cmd.drop_last();
        assert forall|i: int| 0 <= i < d.len() implies #[trigger] d[i] != '/' by {
            assert(d[i] == cmd[i]);
        }
        lemma_after_last(dir, d);
        assert(s.drop_last() =~= dir + d);
        assert(cmd[cmd.len() - 1] != '/');
        assert(d.push(cmd.last()) =~= cmd);
    }
}

proof fn lemma_command_word(w: Seq<char>, dir: Seq<char>, cmd: Seq<char>)
    requires
        calls(w, dir, cmd),
        cmd == "cat"@ || cmd == "head"@ || cmd == "tail"@,
    ensures
        !shell::is_assignment(w),
        shell::after_last(shell::unquoted(w), '/') == cmd,
        shell::is_reader(cmd),
{
    reveal_strlit("cat");
    reveal_strlit("head");
    reveal_strlit("tail");
    assert("cat"@.len() == 3 && "cat"@[0] == 'c' && "cat"@[1] == 'a' && "cat"@[2] == 't');
    assert("head"@.len() == 4 && "head"@[0] == 'h' && "head"@[1] == 'e' && "head"@[2] == 'a'
        && "head"@[3] == 'd');
    assert("tail"@.len() == 4 && "tail"@[0] == 't' && "tail"@[1] == 'a' && "tail"@[2] == 'i'
        && "tail"@[3] == 'l');
    lemma_after_last(dir, cmd);
    let p = |c: char| c == '=';
    assert forall|k: int| 0 <= k < w.len() implies !p(#[trigger] w[k]) by {
        if k < dir.len() {
            assert(w[k] == dir[k]);
        } else {
            assert(w[k] == cmd[k - dir.len()]);
        }
    }
    lemma_until(w, p, w.len() as int);
    if dir.len() > 0 {
        assert(w[0] == dir[0]);
    } else {
        assert(w =~= cmd);
    }
    assert(shell::unquoted(w) == w);
}

/// `cat` reads a file where one is named behind its options.
pub proof fn lemma_cat_reads(w: Seq<char>, dir: Seq<char>, options: Seq<Seq<char>>, rest: Seq<Seq<char>>)
    requires
        calls(w, dir, "cat"@),
        forall|i: int| 0 <= i < options.len() ==> is_option(#[trigger] options[i]),
        rest.len() > 0,
        is_operand(rest[0]),
    ensures
        shell::reads_file(seq![w] + options + rest),
{
    let all = seq![w] + options + rest;
    lemma_command_word(w, dir, "cat"@);
    assert(all[0] == w);
    assert(all.drop_first() =~= options + rest);
    lemma_options(options, rest);
}

proof fn lemma_options(options: Seq<Seq<char>>, rest: Seq<Seq<char>>)
    requires
        forall|i: int| 0 <= i < options.len() ==> is_option(#[trigger] options[i]),
        rest.len() > 0,
        is_operand(rest[0]),
    ensures
        shell::has_operand("cat"@, options + rest, false),
    decreases options.len(),
{
    let all = options + rest;
    if options.len() == 0 {
        assert(all =~= rest);
        lemma_operand("cat"@, rest);
    } else {
        let d = options.drop_first();
        assert(is_option(options[0]));
        assert(all[0] == options[0]);
        assert(all.drop_first() =~= d + rest);
        assert forall|i: int| 0 <= i < d.len() implies is_option(#[trigger] d[i]) by {
            assert(d[i] == options[i + 1]);
        }
        lemma_options(d, rest);
        lemma_option("cat"@, all);
    }
}

/// `head` and `tail` read a file where one is named, but for the count that
/// follows an option of theirs.
pub proof fn lemma_head_reads(
    w: Seq<char>,
    dir: Seq<char>,
    cmd: Seq<char>,
    option: Seq<char>,
    count: Seq<char>,
    rest: Seq<Seq<char>>,
)
    requires
        cmd == "head"@ || cmd == "tail"@,
        calls(w, dir, cmd),
        option == "-n"@ || option == "-c"@ || option == "--lines"@ || option == "--bytes"@,
    ensures
        !shell::reads_file(seq![w, option]),
        !shell::reads_file(seq![w, option, count]),
        rest.len() > 0 && is_operand(rest[0]) ==> shell::reads_file(seq![w, option, count] + rest),
        rest.len() > 0 && is_operand(rest[0]) ==> shell::reads_file(seq![w] + rest),
{
    lemma_command_word(w, dir, cmd);
    reveal_strlit("-n");
    reveal_strlit("-c");
    reveal_strlit("--lines");
    reveal_strlit("--bytes");
    assert(is_option(option));
    let a = seq![option];
    assert(seq![w, option].drop_first() =~= a);
    lemma_option(cmd, a);
    assert(a.drop_first() =~= Seq::<Seq<char>>::empty());
    let b = seq![option, count];
    assert(seq![w, option, count].drop_first() =~= b);
    lemma_option(cmd, b);
    assert(b.drop_first() =~= seq![count]);
    assert(seq![count].drop_first() =~= Seq::<Seq<char>>::empty());
    assert(!shell::has_operand(cmd, seq![count].drop_first(), false));
    let c = b + rest;
    assert((seq![w, option, count] + rest).drop_first() =~= c);
    lemma_option(cmd, c);
    assert(c.drop_first() =~= seq![count] + rest);
    assert(c.drop_first().drop_first() =~= rest);
    if rest.len() > 0 && is_operand(rest[0]) {
        lemma_operand(cmd, rest);
        assert((seq![w] + rest).drop_first() =~= rest);
        assert((seq![w, option, count] + rest)[0] == w);
        assert((seq![w] + rest)[0] == w);
    }
}

/// A command without an operand reads no file, and no other command does.
pub proof fn lemma_no_read(w: Seq<char>, ws: Seq<Seq<char>>)
    requires
        !shell::is_assignment(w),
        ({
            let cmd = shell::after_last(shell::unquoted(w), '/');
            ws.len() == 0 || (cmd != "cat"@ && cmd != "head"@ && cmd != "tail"@)
        }),
    ensures
        !shell::reads_file(seq![w] + ws),
{
    let all = seq![w] + ws;
    assert(all[0] == w);
    assert(all.drop_first() =~= ws);
}

} // verus!
