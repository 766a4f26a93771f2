//! Texts cut, trimmed and written out.

use crate::laws;
use crate::streaks;
use crate::text;
use crate::waste;
use vstd::prelude::*;

verus! {

/// Whether the text is white space throughout.
pub open spec fn blank(s: Seq<char>) -> bool {
    forall|i: int| 0 <= i < s.len() ==> text::is_space(#[trigger] s[i])
}

/// Blanks, tabs and line ends are white space; what can be seen of ASCII is
/// not.
pub proof fn lemma_spaces(c: char)
    ensures
        c == ' ' || c == '\t' || c == '\n' || c == '\r' ==> text::is_space(c),
        '!' <= c && c <= '~' ==> !text::is_space(c),
{
}

proof fn lemma_trim_end(s: Seq<char>, pad: Seq<char>)
    requires
        blank(pad),
        s.len() > 0 ==> !text::is_space(s.last()),
    ensures
        text::trim_end_of(s + pad) == s,
    decreases pad.len(),
{
    if pad.len() == 0 {
        assert(s + pad =~= s);
    } else {
        let d = pad.drop_last();
        assert((s + pad).drop_last() =~= s + d);
        assert(text::is_space(pad[pad.len() - 1]));
        lemma_trim_end(s, d);
    }
}

proof fn lemma_trim_start(pad: Seq<char>, s: Seq<char>)
    requires
        blank(pad),
        s.len() > 0 ==> !text::is_space(s[0]),
    ensures
        text::trim_start_of(pad + s) == s,
    decreases pad.len(),
{
    if pad.len() == 0 {
        assert(pad + s =~= s);
    } else {
        let d = pad.drop_first();
        assert((pad + s).drop_first() =~= d + s);
        assert(text::is_space(pad[0]));
        assert forall|i: int| 0 <= i < d.len() implies text::is_space(#[trigger] d[i]) by {
            assert(d[i] == pad[i + 1]);
        }
        lemma_trim_start(d, s);
    }
}

/// What is between the white space at the two ends of a text is left of it.
pub proof fn lemma_trim(before: Seq<char>, s: Seq<char>, behind: Seq<char>)
    requires
        blank(before),
        blank(behind),
        s.len() > 0 ==> !text::is_space(s[0]) && !text::is_space(s.last()),
    ensures
        text::trim_of(before + s + behind) == s,
{
    if s.len() > 0 {
        assert((before + s).last() == s.last());
        lemma_trim_end(before + s, behind);
        lemma_trim_start(before, s);
    } else {
        let all = before + s + behind;
        assert(all =~= Seq::<char>::empty() + all);
        lemma_trim_end(Seq::empty(), all);
    }
}

/// A text is cut at a separator into the pieces before it and those behind.
pub proof fn lemma_split(a: Seq<char>, sep: char, b: Seq<char>)
    ensures
        text::split_on(a + seq![sep] + b, sep) == text::split_on(a, sep) + text::split_on(b, sep),
        text::split_on(b, sep).len() > 0,
    decreases b.len(),
{
    let s = a + seq![sep] + b;
    if b.len() == 0 {
        assert(s.drop_last() =~= a);
        assert(text::split_on(s, sep) =~= text::split_on(a, sep) + seq![Seq::<char>::empty()]);
    } else {
        let d = b.drop_last();
        lemma_split(a, sep, d);
        assert(s.drop_last() =~= a + seq![sep] + d);
        assert(s.last() == b.last());
        let x = text::split_on(a, sep);
        let y = text::split_on(d, sep);
        assert((x + y).last() == y.last());
        assert((x + y).drop_last() =~= x + y.drop_last());
        assert(text::split_on(s, sep) =~= x + text::split_on(b, sep));
    }
}

/// A text without a separator is one piece.
pub proof fn lemma_no_split(s: Seq<char>, sep: char)
    requires
        forall|i: int| 0 <= i < s.len() ==> #[trigger] s[i] != sep,
    ensures
        text::split_on(s, sep) == seq![s],
    decreases s.len(),
{
    if s.len() == 0 {
        assert(s =~= Seq::<char>::empty());
    } else {
        let d = s.drop_last();
        assert forall|i: int| 0 <= i < d.len() implies #[trigger] d[i] != sep by {
            assert(d[i] == s[i]);
        }
        lemma_no_split(d, sep);
        assert(s[s.len() - 1] != sep);
        assert(d.push(s.last()) =~= s);
        assert(text::split_on(s, sep) =~= seq![s]);
    }
}

proof fn lemma_blank_pieces(s: Seq<char>, sep: char)
    requires
        blank(s),
    ensures
        forall|i: int|
            0 <= i < text::split_on(s, sep).len() ==> blank(#[trigger] text::split_on(s, sep)[i]),
        text::split_on(s, sep).len() > 0,
    decreases s.len(),
{
    if s.len() > 0 {
        let d = s.drop_last();
        assert forall|i: int| 0 <= i < d.len() implies text::is_space(#[trigger] d[i]) by {
            assert(d[i] == s[i]);
        }
        lemma_blank_pieces(d, sep);
        let r = text::split_on(d, sep);
        assert(blank(r[r.len() - 1]));
        assert(text::is_space(s[s.len() - 1]));
    }
}

proof fn lemma_first_line(blanks: Seq<Seq<char>>, line: Seq<char>, rest: Seq<Seq<char>>)
    requires
        forall|i: int| 0 <= i < blanks.len() ==> blank(#[trigger] blanks[i]),
        text::trim_of(line).len() > 0,
    ensures
        streaks::first_line(blanks + seq![line] + rest) == Some(text::trim_of(line)),
    decreases blanks.len(),
{
    let all = blanks + seq![line] + rest;
    if blanks.len() == 0 {
        assert(all[0] == line);
    } else {
        let b = blanks[0];
        assert(all[0] == b);
        assert(blank(b));
        let e = Seq::<char>::empty();
        assert(e + e + b =~= b);
        lemma_trim(e, e, b);
        let d = blanks.drop_first();
        assert(all.drop_first() =~= d + seq![line] + rest);
        assert forall|i: int| 0 <= i < d.len() implies blank(#[trigger] d[i]) by {
            assert(d[i] == blanks[i + 1]);
        }
        lemma_first_line(d, line, rest);
    }
}

/// The signature of an error is its first line that is not blank, without the
/// white space around it, and with an ellipsis for its end where it is longer
/// than 240 characters.
pub proof fn lemma_signature(
    before: Seq<char>,
    indent: Seq<char>,
    line: Seq<char>,
    trail: Seq<char>,
    behind: Seq<char>,
)
    requires
        blank(before),
        before.len() > 0 ==> before.last() == '\n',
        blank(indent),
        blank(trail),
        line.len() > 0,
        !text::is_space(line[0]),
        !text::is_space(line.last()),
        forall|i: int| 0 <= i < indent.len() ==> #[trigger] indent[i] != '\n',
        forall|i: int| 0 <= i < line.len() ==> #[trigger] line[i] != '\n',
        forall|i: int| 0 <= i < trail.len() ==> #[trigger] trail[i] != '\n',
        behind.len() > 0 ==> behind[0] == '\n',
    ensures
        streaks::signature_of(Some(before + (indent + line + trail) + behind)) == Some(
            if line.len() <= 240 {
                line
            } else {
                line.take(239).push('\u{2026}')
            },
        ),
{
    let whole = indent + line + trail;
    let s = before + whole + behind;
    lemma_trim(indent, line, trail);
    lemma_no_split(whole, '\n');
    let (heads, rest, mid) = if behind.len() > 0 {
        let tail = behind.drop_first();
        assert(behind =~= seq!['\n'] + tail);
        (before + whole, text::split_on(tail, '\n'), tail)
    } else {
        (before + whole, Seq::<Seq<char>>::empty(), behind)
    };
    if behind.len() > 0 {
        assert(s =~= heads + seq!['\n'] + mid);
        lemma_split(heads, '\n', mid);
    } else {
        assert(s =~= heads);
    }
    assert(text::split_on(s, '\n') =~= text::split_on(heads, '\n') + rest);
    if before.len() > 0 {
        let b = before.drop_last();
        assert forall|i: int| 0 <= i < b.len() implies text::is_space(#[trigger] b[i]) by {
            assert(b[i] == before[i]);
        }
        assert(heads =~= b + seq!['\n'] + whole);
        lemma_split(b, '\n', whole);
        lemma_blank_pieces(b, '\n');
        lemma_first_line(text::split_on(b, '\n'), whole, rest);
        assert(text::split_on(s, '\n') =~= text::split_on(b, '\n') + seq![whole] + rest);
    } else {
        assert(heads =~= whole);
        lemma_first_line(Seq::empty(), whole, rest);
        assert(text::split_on(s, '\n') =~= Seq::<Seq<char>>::empty() + seq![whole] + rest);
    }
}

/// A blank text has no signature.
pub proof fn lemma_no_signature(s: Seq<char>)
    requires
        blank(s),
    ensures
        streaks::signature_of(Some(s)) is None,
{
    lemma_blank_pieces(s, '\n');
    lemma_no_line(text::split_on(s, '\n'));
}

proof fn lemma_no_line(lines: Seq<Seq<char>>)
    requires
        forall|i: int| 0 <= i < lines.len() ==> blank(#[trigger] lines[i]),
    ensures
        streaks::first_line(lines) is None,
    decreases lines.len(),
{
    if lines.len() > 0 {
        let b = lines[0];
        let e = Seq::<char>::empty();
        assert(e + e + b =~= b);
        lemma_trim(e, e, b);
        let d = lines.drop_first();
        assert forall|i: int| 0 <= i < d.len() implies blank(#[trigger] d[i]) by {
            assert(d[i] == lines[i + 1]);
        }
        lemma_no_line(d);
    }
}

/// The number that a run of digits stands for.
pub open spec fn value_of(s: Seq<char>) -> int {
    s.fold_left(0int, |n: int, c: char| 10 * n + (c as int - '0' as int))
}

/// A number in decimal stands for itself, and begins with no zero but its own.
pub proof fn lemma_decimal(n: nat)
    ensures
        value_of(text::decimal(n)) == n,
        text::decimal(n).len() > 0,
        n > 0 ==> text::decimal(n)[0] != '0',
        n == 0 ==> text::decimal(n) == seq!['0'],
    decreases n,
{
    let f = |n: int, c: char| 10 * n + (c as int - '0' as int);
    let s = text::decimal(n);
    if n < 10 {
        assert(text::digit(n as int) as int == 48 + n);
        assert(s.drop_last() =~= Seq::<char>::empty());
        assert(s.drop_last().fold_left(0int, f) == 0);
        assert(s.last() as int - '0' as int == n);
        assert(s.fold_left(0int, f) == 10 * s.drop_last().fold_left(0int, f) + n);
    } else {
        lemma_decimal(n / 10);
        assert(s.drop_last() =~= text::decimal(n / 10));
        assert(text::digit((n % 10) as int) as int == 48 + n % 10);
        assert(s.fold_left(0int, f) == f(s.drop_last().fold_left(0int, f), s.last()));
    }
}

proof fn lemma_three_digits(s: Seq<char>, n: nat)
    requires
        n < 1000,
    ensures
        value_of(s + waste::three_digits(n)) == 1000 * value_of(s) + n,
{
    let f = |n: int, c: char| 10 * n + (c as int - '0' as int);
    let a = (n / 100 % 10) as int;
    let b = (n / 10 % 10) as int;
    let c = (n % 10) as int;
    let t = waste::three_digits(n);
    assert(text::digit(a) as int == 48 + a);
    assert(text::digit(b) as int == 48 + b);
    assert(text::digit(c) as int == 48 + c);
    let x = s.push(text::digit(a));
    let y = x.push(text::digit(b));
    let z = y.push(text::digit(c));
    assert(s + t =~= z);
    assert(z.drop_last() =~= y && y.drop_last() =~= x && x.drop_last() =~= s);
    assert(z.fold_left(0int, f) == f(y.fold_left(0int, f), z.last()));
    assert(y.fold_left(0int, f) == f(x.fold_left(0int, f), y.last()));
    assert(x.fold_left(0int, f) == f(s.fold_left(0int, f), x.last()));
    assert(n == 100 * a + 10 * b + c);
}

/// A number with commas is the number without them, and a comma stands before
/// every third digit from the end.
pub proof fn lemma_commas(n: nat)
    ensures
        value_of(waste::with_commas(n).filter(|c: char| c != ',')) == n,
        waste::with_commas(n).len() > 0,
        forall|i: int|
            0 <= i < waste::with_commas(n).len() ==> {
                &&& #[trigger] waste::with_commas(n)[i] == ',' <==> (waste::with_commas(n).len()
                    - i) % 4 == 0
                &&& waste::with_commas(n)[i] == ',' || '0' <= waste::with_commas(n)[i] <= '9'
            },
        waste::with_commas(n)[0] != ',',
    decreases n,
{
    let keep = |c: char| c != ',';
    let s = waste::with_commas(n);
    reveal_strlit(",");
    if n < 1000 {
        lemma_decimal(n);
        text::lemma_decimal_digits(n);
        assert forall|i: int| 0 <= i < s.len() implies keep(#[trigger] s[i]) by {}
        lemma_all_kept(s, keep);
        assert(s.len() <= 3) by {
            reveal_with_fuel(text::decimal, 4);
        }
    } else {
        let h = waste::with_commas(n / 1000);
        let t = waste::three_digits(n % 1000);
        lemma_commas(n / 1000);
        Seq::filter_distributes_over_add(h + ","@, t, keep);
        Seq::filter_distributes_over_add(h, ","@, keep);
        laws::compaction::lemma_none_kept(","@, keep);
        let a = (n % 1000 / 100 % 10) as int;
        let b = (n % 1000 / 10 % 10) as int;
        let c = (n % 1000 % 10) as int;
        assert(text::digit(a) as int == 48 + a);
        assert(text::digit(b) as int == 48 + b);
        assert(text::digit(c) as int == 48 + c);
        assert forall|i: int| 0 <= i < t.len() implies keep(#[trigger] t[i]) by {}
        lemma_all_kept(t, keep);
        assert(s.filter(keep) =~= h.filter(keep) + t);
        lemma_three_digits(h.filter(keep), n % 1000);
        assert(s.len() == h.len() + 4);
        assert forall|i: int| 0 <= i < s.len() implies {
            &&& #[trigger] s[i] == ',' <==> (s.len() - i) % 4 == 0
            &&& s[i] == ',' || '0' <= s[i] <= '9'
        } by {
            if i < h.len() {
                assert(s[i] == h[i]);
            } else if i == h.len() {
                assert(s[i] == ',');
            } else {
                assert(s[i] == t[i - h.len() - 1]);
            }
        }
        assert(s[0] == h[0]);
    }
}

proof fn lemma_all_kept(s: Seq<char>, keep: spec_fn(char) -> bool)
    requires
        forall|i: int| 0 <= i < s.len() ==> keep(#[trigger] s[i]),
    ensures
        s.filter(keep) == s,
    decreases s.len(),
{
    reveal(Seq::filter);
    if s.len() > 0 {
        let d = s.drop_last();
        assert forall|i: int| 0 <= i < d.len() implies keep(#[trigger] d[i]) by {
            assert(d[i] == s[i]);
        }
        lemma_all_kept(d, keep);
        assert(keep(s[s.len() - 1]));
        assert(d.push(s.last()) =~= s);
    }
}

/// A text comes before those that go on from it, and before those that have a
/// greater byte where they first part.
pub proof fn lemma_order(a: Seq<char>, b: Seq<char>, same: Seq<u8>, x: Seq<u8>, y: Seq<u8>)
    requires
        vstd::utf8::encode_utf8(a) == same + x,
        vstd::utf8::encode_utf8(b) == same + y,
        y.len() > 0,
        x.len() == 0 || x[0] < y[0],
    ensures
        text::str_lt(a, b),
        !text::str_lt(b, a),
{
    lemma_bytes_order(same, x, y);
}

proof fn lemma_bytes_order(same: Seq<u8>, x: Seq<u8>, y: Seq<u8>)
    requires
        y.len() > 0,
        x.len() == 0 || x[0] < y[0],
    ensures
        text::bytes_lt(same + x, same + y),
        !text::bytes_lt(same + y, same + x),
    decreases same.len(),
{
    if same.len() == 0 {
        assert(same + x =~= x);
        assert(same + y =~= y);
    } else {
        let d = same.drop_first();
        lemma_bytes_order(d, x, y);
        assert((same + x).drop_first() =~= d + x);
        assert((same + y).drop_first() =~= d + y);
    }
}

} // verus!
