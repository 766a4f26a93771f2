//! Which shell commands read a file.
//!
//! A command is cut into segments, a segment into words, and a segment reads a
//! file where it calls `cat`, `head` or `tail` with a file among its operands.

use crate::text;
use vstd::prelude::*;

verus! {

/// How many characters at the start of `s` come before the first that
/// satisfies `p`.
pub open spec fn until(s: Seq<char>, p: spec_fn(char) -> bool) -> nat
    decreases s.len(),
{
    if s.len() == 0 || p(s[0]) {
        0
    } else {
        1 + until(s.drop_first(), p)
    }
}

proof fn lemma_until(s: Seq<char>, p: spec_fn(char) -> bool, n: int)
    requires
        0 <= n <= s.len(),
        forall|k: int| 0 <= k < n ==> !p(#[trigger] s[k]),
        n < s.len() ==> p(s[n]),
    ensures
        until(s, p) == n,
    decreases s.len(),
{
    if n > 0 {
        assert(!p(s[0]));
        let d = s.drop_first();
        assert forall|k: int| 0 <= k < n - 1 implies !p(#[trigger] d[k]) by {
            assert(d[k] == s[k + 1]);
        }
        lemma_until(d, p, n - 1);
    }
}

/// Length of the separator at position `i`: of a line feed, `;`, `&&` or `||`.
pub open spec fn separator_at(s: Seq<char>, i: int) -> int {
    if s[i] == '\n' || s[i] == ';' {
        1
    } else if i + 1 < s.len() && ((s[i] == '&' && s[i + 1] == '&') || (s[i] == '|' && s[i + 1]
        == '|')) {
        2
    } else {
        0
    }
}

/// The position of the first separator; the length if there is none.
pub open spec fn first_separator(s: Seq<char>, from: int) -> int
    decreases s.len() - from,
{
    if from >= s.len() {
        s.len() as int
    } else if separator_at(s, from) > 0 {
        from
    } else {
        first_separator(s, from + 1)
    }
}

/// The segments of `s` from position `from` on.
pub open spec fn segments_from(s: Seq<char>, from: int) -> Seq<Seq<char>>
    decreases s.len() - from,
    when 0 <= from <= s.len()
{
    let i = first_separator(s, from);
    if from <= i < s.len() && separator_at(s, i) > 0 {
        seq![s.subrange(from, i)] + segments_from(s, i + separator_at(s, i))
    } else {
        seq![s.subrange(from, s.len() as int)]
    }
}

proof fn lemma_first_separator(s: Seq<char>, from: int, to: int)
    requires
        0 <= from <= to <= s.len(),
        forall|k: int| from <= k < to ==> #[trigger] separator_at(s, k) == 0,
    ensures
        first_separator(s, from) == first_separator(s, to),
    decreases to - from,
{
    if from < to {
        assert(separator_at(s, from) == 0);
        lemma_first_separator(s, from + 1, to);
    }
}

fn split_shell_segments(s: &Vec<char>) -> (r: Vec<String>)
    ensures
        text::views(r@) == segments_from(s@, 0),
{
    let mut out: Vec<String> = Vec::new();
    let n: usize = s.len();
    let mut start: usize = 0;
    let mut i: usize = 0;
    assert(text::views(out@) + segments_from(s@, 0) =~= segments_from(s@, 0));
    while i < n
        invariant
            n == s@.len(),
            start <= i <= n,
            forall|k: int| start <= k < i ==> #[trigger] separator_at(s@, k) == 0,
            text::views(out@) + segments_from(s@, start as int) == segments_from(s@, 0),
        decreases n - i,
    {
        let c: char = s[i];
        let len: usize = if c == '\n' || c == ';' {
            1
        } else if i + 1 < n && ((c == '&' && s[i + 1] == '&') || (c == '|' && s[i + 1] == '|')) {
            2
        } else {
            0
        };
        assert(len == separator_at(s@, i as int));
        if len > 0 {
            proof {
                lemma_first_separator(s@, start as int, i as int);
            }
            let ghost before = text::views(out@);
            let piece = text::string_of(s, start, i);
            let ghost v = piece@;
            out.push(piece);
            assert(text::views(out@) =~= before.push(v));
            assert(before + segments_from(s@, start as int) =~= before.push(v) + segments_from(
                s@,
                i + len,
            ));
            start = i + len;
            i = i + len;
        } else {
            i = i + 1;
        }
    }
    proof {
        lemma_first_separator(s@, start as int, i as int);
    }
    let ghost before = text::views(out@);
    let piece = text::string_of(s, start, n);
    let ghost v = piece@;
    out.push(piece);
    assert(text::views(out@) =~= before.push(v));
    assert(before + segments_from(s@, start as int) =~= before.push(v));
    out
}

/// The characters that quote a word.
pub open spec fn is_quote(c: char) -> bool {
    c == '"' || c == '\''
}

/// The words of `s`: quoted ones with their quotes, others up to white space.
/// A quote that is not closed does not quote.
pub open spec fn words(s: Seq<char>) -> Seq<Seq<char>>
    decreases s.len(),
{
    if s.len() == 0 {
        Seq::empty()
    } else if text::is_space(s[0]) {
        words(s.skip(1))
    } else {
        let q = s[0];
        let close = 1 + until(s.skip(1), |c: char| c == q);
        let end = if is_quote(q) && close < s.len() {
            (close + 1) as int
        } else {
            until(s, |c: char| text::is_space(c)) as int
        };
        if 0 < end <= s.len() {
            seq![s.take(end)] + words(s.skip(end))
        } else {
            Seq::empty()
        }
    }
}

proof fn lemma_until_bound(s: Seq<char>, p: spec_fn(char) -> bool)
    ensures
        until(s, p) <= s.len(),
    decreases s.len(),
{
    if s.len() > 0 && !p(s[0]) {
        lemma_until_bound(s.drop_first(), p);
    }
}

fn shell_words(segment: &str) -> (r: Vec<Vec<char>>)
    ensures
        r@.map_values(|w: Vec<char>| w@) == words(segment@),
{
    let cs = text::chars_of(segment);
    let n: usize = cs.len();
    let mut out: Vec<Vec<char>> = Vec::new();
    let ghost view = |w: Vec<char>| w@;
    let mut i: usize = 0;
    assert(cs@.skip(0) =~= cs@);
    assert(out@.map_values(view) + words(cs@) =~= words(cs@));
    while i < n
        invariant
            n == cs@.len(),
            i <= n,
            cs@ == segment@,
            view == (|w: Vec<char>| w@),
            out@.map_values(view) + words(cs@.skip(i as int)) == words(cs@),
        decreases n - i,
    {
        let ghost s = cs@.skip(i as int);
        let c: char = cs[i];
        assert(s[0] == c);
        if text::is_whitespace(c) {
            assert(s.skip(1) =~= cs@.skip(i + 1));
            i = i + 1;
        } else {
            let mut end: usize = i;
            let mut quoted = false;
            if c == '"' || c == '\'' {
                let mut j: usize = i + 1;
                let ghost p = |d: char| d == c;
                while j < n && cs[j] != c
                    invariant
                        n == cs@.len(),
                        i + 1 <= j <= n,
                        forall|k: int| i + 1 <= k < j ==> #[trigger] cs@[k] != c,
                    ensures
                        i + 1 <= j <= n,
                        forall|k: int| i + 1 <= k < j ==> #[trigger] cs@[k] != c,
                        j < n ==> cs@[j as int] == c,
                    decreases n - j,
                {
                    j = j + 1;
                }
                proof {
                    let t = s.skip(1);
                    assert forall|k: int| 0 <= k < j - i - 1 implies !p(#[trigger] t[k]) by {
                        assert(t[k] == cs@[i + 1 + k]);
                    }
                    if j < n {
                        assert(t[j - i - 1] == cs@[j as int]);
                    }
                    lemma_until(t, p, j - i - 1);
                }
                if j < n {
                    quoted = true;
                    end = j + 1;
                }
            }
            if !quoted {
                let mut j: usize = i;
                let ghost p = |d: char| text::is_space(d);
                while j < n && !text::is_whitespace(cs[j])
                    invariant
                        n == cs@.len(),
                        i <= j <= n,
                        forall|k: int| i <= k < j ==> !text::is_space(#[trigger] cs@[k]),
                    ensures
                        i <= j <= n,
                        forall|k: int| i <= k < j ==> !text::is_space(#[trigger] cs@[k]),
                        j < n ==> text::is_space(cs@[j as int]),
                    decreases n - j,
                {
                    j = j + 1;
                }
                proof {
                    assert forall|k: int| 0 <= k < j - i implies !p(#[trigger] s[k]) by {
                        assert(s[k] == cs@[i + k]);
                    }
                    if j < n {
                        assert(s[j - i] == cs@[j as int]);
                    }
                    lemma_until(s, p, j - i);
                    if j == i {
                        assert(text::is_space(cs@[i as int]));
                    }
                }
                end = j;
            }
            assert(i < end <= n);
            let mut word: Vec<char> = Vec::new();
            let mut k: usize = i;
            while k < end
                invariant
                    n == cs@.len(),
                    i <= k <= end <= n,
                    word@ == cs@.subrange(i as int, k as int),
                decreases end - k,
            {
                word.push(cs[k]);
                assert(cs@.subrange(i as int, k + 1) =~= cs@.subrange(i as int, k as int).push(
                    cs@[k as int],
                ));
                k = k + 1;
            }
            assert(word@ =~= s.take(end - i));
            assert(s.skip(end - i) =~= cs@.skip(end as int));
            let ghost before = out@.map_values(view);
            let ghost v = word@;
            out.push(word);
            assert(out@.map_values(view) =~= before.push(v));
            assert(before + words(s) =~= before.push(v) + words(cs@.skip(end as int)));
            i = end;
        }
    }
    assert(cs@.skip(i as int) =~= Seq::<char>::empty());
    assert(out@.map_values(view) + words(cs@.skip(i as int)) =~= out@.map_values(view));
    out
}

/// ASCII letters and the underscore.
pub open spec fn is_name_start(c: char) -> bool {
    let n = c as int;
    65 <= n <= 90 || 97 <= n <= 122 || n == 95
}

/// ASCII digits.
pub open spec fn is_digit(c: char) -> bool {
    48 <= c as int <= 57
}

/// ASCII letters, digits and the underscore.
pub open spec fn is_name_char(c: char) -> bool {
    is_name_start(c) || is_digit(c)
}

fn name_start(c: char) -> (r: bool)
    ensures
        r == is_name_start(c),
{
    let n: u32 = c as u32;
    (65 <= n && n <= 90) || (97 <= n && n <= 122) || n == 95
}

fn digit(c: char) -> (r: bool)
    ensures
        r == is_digit(c),
{
    let n: u32 = c as u32;
    48 <= n && n <= 57
}

/// Whether the word sets a variable: a name, and `=` behind it.
pub open spec fn is_assignment(w: Seq<char>) -> bool {
    let e = until(w, |c: char| c == '=') as int;
    &&& 0 < e < w.len()
    &&& is_name_start(w[0])
    &&& forall|k: int| 1 <= k < e ==> is_name_char(#[trigger] w[k])
}

fn is_shell_env_assignment(w: &Vec<char>) -> (r: bool)
    ensures
        r == is_assignment(w@),
{
    let ghost p = |c: char| c == '=';
    proof {
        lemma_until_bound(w@, p);
    }
    let n: usize = w.len();
    if n == 0 {
        return false;
    }
    if !name_start(w[0]) {
        return false;
    }
    let mut i: usize = 1;
    while i < n
        invariant
            n == w@.len(),
            1 <= i <= n,
            p == (|c: char| c == '='),
            is_name_start(w@[0]),
            forall|k: int| 1 <= k < i ==> is_name_char(#[trigger] w@[k]),
        decreases n - i,
    {
        let c: char = w[i];
        if c == '=' {
            proof {
                assert forall|k: int| 0 <= k < i implies !p(#[trigger] w@[k]) by {
                    if k == 0 {
                        assert(is_name_start(w@[0]));
                    } else {
                        assert(is_name_char(w@[k]));
                    }
                }
                lemma_until(w@, p, i as int);
            }
            return true;
        }
        if !(name_start(c) || digit(c)) {
            proof {
                let e = until(w@, p) as int;
                if 0 < e < w@.len() && e <= i {
                    lemma_until_not(w@, p, e);
                    if e < i {
                        if e == 0 {
                        } else {
                            assert(is_name_char(w@[e]));
                        }
                    }
                }
                assert(!is_name_char(w@[i as int]));
                if e > i {
                    assert(1 <= i < e);
                }
            }
            return false;
        }
        i = i + 1;
    }
    proof {
        let e = until(w@, p) as int;
        if 0 < e < w@.len() {
            lemma_until_not(w@, p, e);
            assert(is_name_char(w@[e]));
        }
    }
    false
}

proof fn lemma_until_not(s: Seq<char>, p: spec_fn(char) -> bool, e: int)
    requires
        e == until(s, p),
        e < s.len(),
    ensures
        p(s[e]),
    decreases s.len(),
{
    if e > 0 {
        let d = s.drop_first();
        lemma_until_not(d, p, e - 1);
        assert(d[e - 1] == s[e]);
    }
}

/// The word without the quotes around it.
pub open spec fn unquoted(w: Seq<char>) -> Seq<char> {
    if w.len() >= 2 && is_quote(w[0]) && w.last() == w[0] {
        w.subrange(1, w.len() - 1)
    } else {
        w
    }
}

fn strip_shell_quotes(w: &Vec<char>) -> (r: String)
    ensures
        r@ == unquoted(w@),
{
    let n: usize = w.len();
    if n >= 2 && (w[0] == '"' || w[0] == '\'') && w[n - 1] == w[0] {
        text::string_of(w, 1, n - 1)
    } else {
        let r = text::string_of(w, 0, n);
        assert(w@.subrange(0, n as int) =~= w@);
        r
    }
}

/// What stands behind the last `c`, or all of `s` where there is none.
pub open spec fn after_last(s: Seq<char>, c: char) -> Seq<char>
    decreases s.len(),
{
    if s.len() == 0 {
        s
    } else if s.last() == c {
        Seq::empty()
    } else {
        after_last(s.drop_last(), c).push(s.last())
    }
}

/// What stands behind the last `c`, or the whole string where there is none.
pub fn tail_after(s: &str, c: char) -> (r: String)
    ensures
        r@ == after_last(s@, c),
{
    let cs = text::chars_of(s);
    let n: usize = cs.len();
    let mut i: usize = n;
    assert(cs@.take(n as int) =~= cs@);
    assert(after_last(cs@, c) =~= after_last(cs@.take(n as int), c) + cs@.skip(n as int));
    while i > 0 && cs[i - 1] != c
        invariant
            i <= n == cs@.len(),
            after_last(cs@, c) == after_last(cs@.take(i as int), c) + cs@.skip(i as int),
        ensures
            i <= n,
            after_last(cs@, c) == after_last(cs@.take(i as int), c) + cs@.skip(i as int),
            i == 0 || cs@[i - 1] == c,
        decreases i,
    {
        assert(cs@.take(i as int).drop_last() =~= cs@.take(i - 1));
        assert(after_last(cs@.take(i as int), c) + cs@.skip(i as int) =~= after_last(
            cs@.take(i - 1),
            c,
        ) + cs@.skip(i - 1));
        i = i - 1;
    }
    assert(after_last(cs@.take(i as int), c) =~= Seq::<char>::empty());
    assert(after_last(cs@, c) =~= cs@.subrange(i as int, n as int));
    text::string_of(&cs, i, n)
}

/// The commands that read files.
pub open spec fn is_reader(cmd: Seq<char>) -> bool {
    cmd == "cat"@ || cmd == "head"@ || cmd == "tail"@
}

/// Whether the word redirects output: digits, and `>` behind them.
pub open spec fn opens_redirect(w: Seq<char>) -> bool {
    let d = until(w, |c: char| !is_digit(c)) as int;
    d < w.len() && w[d] == '>'
}

/// Whether the word is nothing but a redirection, so that its file comes next.
pub open spec fn is_bare_redirect(w: Seq<char>) -> bool {
    let d = until(w, |c: char| !is_digit(c)) as int;
    d < w.len() && forall|k: int| d <= k < w.len() ==> #[trigger] w[k] == '>'
}

/// The word without a sign ahead of it.
pub open spec fn unsigned(w: Seq<char>) -> Seq<char> {
    if w.len() > 0 && (w[0] == '+' || w[0] == '-') {
        w.skip(1)
    } else {
        w
    }
}

/// Whether the word is a whole number, with or without a sign.
pub open spec fn is_signed_integer(w: Seq<char>) -> bool {
    unsigned(w).len() > 0 && forall|k: int|
        0 <= k < unsigned(w).len() ==> is_digit(#[trigger] unsigned(w)[k])
}

/// The words that end a command.
pub open spec fn ends_command(w: Seq<char>) -> bool {
    w == "|"@ || w == "&&"@ || w == "||"@ || w == ";"@
}

/// The options of `head` and `tail` that take a value.
pub open spec fn takes_count(w: Seq<char>) -> bool {
    w == "-n"@ || w == "-c"@ || w == "--lines"@ || w == "--bytes"@
}

/// Whether one of the words is a file operand of `cmd`. `skip` says that the
/// first word belongs to the one ahead of it.
pub open spec fn has_operand(cmd: Seq<char>, ws: Seq<Seq<char>>, skip: bool) -> bool
    decreases ws.len(),
{
    if ws.len() == 0 {
        false
    } else {
        let w = unquoted(ws[0]);
        let rest = ws.drop_first();
        let counts = cmd == "head"@ || cmd == "tail"@;
        if skip {
            has_operand(cmd, rest, false)
        } else if ends_command(w) {
            false
        } else if opens_redirect(w) {
            has_operand(cmd, rest, is_bare_redirect(w))
        } else if w.len() > 0 && w[0] == '<' {
            has_operand(cmd, rest, false)
        } else if w == "-"@ {
            has_operand(cmd, rest, false)
        } else if counts && takes_count(w) {
            has_operand(cmd, rest, true)
        } else if counts && is_signed_integer(w) {
            has_operand(cmd, rest, false)
        } else if w.len() > 0 && w[0] == '-' {
            has_operand(cmd, rest, false)
        } else {
            true
        }
    }
}

/// Whether the words are a command that reads a file, with assignments ahead
/// of it.
pub open spec fn reads_file(ws: Seq<Seq<char>>) -> bool
    decreases ws.len(),
{
    if ws.len() == 0 {
        false
    } else if is_assignment(ws[0]) {
        reads_file(ws.drop_first())
    } else {
        let cmd = after_last(unquoted(ws[0]), '/');
        is_reader(cmd) && has_operand(cmd, ws.drop_first(), false)
    }
}

/// Whether some segment of the command reads a file.
pub open spec fn command_reads_file(command: Seq<char>) -> bool {
    exists|i: int|
        0 <= i < segments_from(command, 0).len() && reads_file(
            words(#[trigger] segments_from(command, 0)[i]),
        )
}

fn count_digits(cs: &Vec<char>) -> (r: usize)
    ensures
        r == until(cs@, |c: char| !is_digit(c)),
        r <= cs@.len(),
{
    let ghost p = |c: char| !is_digit(c);
    let mut i: usize = 0;
    while i < cs.len() && digit(cs[i])
        invariant
            i <= cs@.len(),
            forall|k: int| 0 <= k < i ==> is_digit(#[trigger] cs@[k]),
        ensures
            i <= cs@.len(),
            forall|k: int| 0 <= k < i ==> is_digit(#[trigger] cs@[k]),
            i < cs@.len() ==> !is_digit(cs@[i as int]),
        decreases cs@.len() - i,
    {
        i = i + 1;
    }
    proof {
        lemma_until(cs@, p, i as int);
    }
    i
}

fn is_redirect_open(cs: &Vec<char>) -> (r: bool)
    ensures
        r == opens_redirect(cs@),
{
    let d: usize = count_digits(cs);
    d < cs.len() && cs[d] == '>'
}

fn is_pure_redirect(cs: &Vec<char>) -> (r: bool)
    ensures
        r == is_bare_redirect(cs@),
{
    let d: usize = count_digits(cs);
    if d >= cs.len() {
        return false;
    }
    let mut i: usize = d;
    while i < cs.len()
        invariant
            d <= i <= cs@.len(),
            d < cs@.len(),
            d == until(cs@, |c: char| !is_digit(c)),
            forall|k: int| d <= k < i ==> #[trigger] cs@[k] == '>',
        decreases cs@.len() - i,
    {
        if cs[i] != '>' {
            return false;
        }
        i = i + 1;
    }
    true
}

fn check_signed_integer(cs: &Vec<char>) -> (r: bool)
    ensures
        r == is_signed_integer(cs@),
{
    let lo: usize = if cs.len() > 0 && (cs[0] == '+' || cs[0] == '-') {
        1
    } else {
        0
    };
    let ghost u = unsigned(cs@);
    assert(u =~= cs@.skip(lo as int));
    if lo >= cs.len() {
        return false;
    }
    let mut i: usize = lo;
    while i < cs.len()
        invariant
            lo <= i <= cs@.len(),
            lo < cs@.len(),
            u == unsigned(cs@),
            u == cs@.skip(lo as int),
            forall|k: int| 0 <= k < i - lo ==> is_digit(#[trigger] u[k]),
        decreases cs@.len() - i,
    {
        assert(u[i - lo] == cs@[i as int]);
        if !digit(cs[i]) {
            return false;
        }
        i = i + 1;
    }
    true
}

fn has_shell_file_operand(cmd: &str, ws: &Vec<Vec<char>>, from: usize) -> (r: bool)
    requires
        from <= ws@.len(),
    ensures
        r == has_operand(
            cmd@,
            ws@.map_values(|w: Vec<char>| w@).skip(from as int),
            false,
        ),
{
    let ghost all = ws@.map_values(|w: Vec<char>| w@);
    let counts = text::same(cmd, "head") || text::same(cmd, "tail");
    let mut skip = false;
    let mut i: usize = from;
    while i < ws.len()
        invariant
            from <= i <= ws@.len(),
            all == ws@.map_values(|w: Vec<char>| w@),
            counts == (cmd@ == "head"@ || cmd@ == "tail"@),
            has_operand(cmd@, all.skip(from as int), false) == has_operand(
                cmd@,
                all.skip(i as int),
                skip,
            ),
        decreases ws@.len() - i,
    {
        let ghost here = all.skip(i as int);
        assert(here[0] == ws@[i as int]@);
        assert(here.drop_first() =~= all.skip(i + 1));
        let token = strip_shell_quotes(&ws[i]);
        let w = token.as_str();
        let cs = text::chars_of(w);
        if skip {
            skip = false;
        } else if text::same(w, "|") || text::same(w, "&&") || text::same(w, "||") || text::same(
            w,
            ";",
        ) {
            return false;
        } else if is_redirect_open(&cs) {
            skip = is_pure_redirect(&cs);
        } else if cs.len() > 0 && cs[0] == '<' {
        } else if text::same(w, "-") {
        } else if counts && (text::same(w, "-n") || text::same(w, "-c") || text::same(w, "--lines")
            || text::same(w, "--bytes")) {
            skip = true;
        } else if counts && check_signed_integer(&cs) {
        } else if cs.len() > 0 && cs[0] == '-' {
        } else {
            return true;
        }
        i = i + 1;
    }
    false
}

fn shell_segment_starts_with_file_read(segment: &str) -> (r: bool)
    ensures
        r == reads_file(words(segment@)),
{
    let ws = shell_words(segment);
    let ghost all = ws@.map_values(|w: Vec<char>| w@);
    let mut i: usize = 0;
    assert(all.skip(0) =~= all);
    while i < ws.len()
        invariant
            i <= ws@.len(),
            all == ws@.map_values(|w: Vec<char>| w@),
            all == words(segment@),
            reads_file(all) == reads_file(all.skip(i as int)),
        decreases ws@.len() - i,
    {
        assert(all.skip(i as int)[0] == ws@[i as int]@);
        assert(all.skip(i as int).drop_first() =~= all.skip(i + 1));
        if !is_shell_env_assignment(&ws[i]) {
            let name = strip_shell_quotes(&ws[i]);
            let cmd = tail_after(name.as_str(), '/');
            let c = cmd.as_str();
            let reader = text::same(c, "cat") || text::same(c, "head") || text::same(c, "tail");
            return reader && has_shell_file_operand(c, &ws, i + 1);
        }
        i = i + 1;
    }
    false
}

/// Whether some segment of the command reads a file.
pub fn shell_command_has_file_read(command: &str) -> (r: bool)
    ensures
        r == command_reads_file(command@),
{
    let cs = text::chars_of(command);
    let segments = split_shell_segments(&cs);
    let ghost all = text::views(segments@);
    let mut i: usize = 0;
    while i < segments.len()
        invariant
            i <= segments@.len(),
            all == text::views(segments@),
            all == segments_from(command@, 0),
            forall|k: int| 0 <= k < i ==> !reads_file(words(#[trigger] all[k])),
        decreases segments@.len() - i,
    {
        assert(all[i as int] == segments@[i as int]@);
        if shell_segment_starts_with_file_read(segments[i].as_str()) {
            return true;
        }
        i = i + 1;
    }
    false
}

} // verus!
