//! What trimming, searching, quoting and joining do, said of the characters of
//! a text.
use crate::installer::{checkpoint_command, file_text, path_joined};
use crate::lines::{
    ended, joined, joined_lines, lemma_joined_concat, lemma_uses_crlf, line_end, returns_of,
    uses_crlf,
};
use crate::text::{
    contains, indent_width, is_blank, is_whitespace, lemma_trimmed_end_at, lemma_trimmed_start_at,
    occurs_at, quotes_doubled, spaces, starts_with, trimmed, trimmed_end, trimmed_start,
};
use vstd::prelude::*;
use vstd::utf8::{encode_utf8, is_ascii_chars, is_ascii_chars_encode_utf8};

verus! {

/// Whether a line has any character but whitespace.
pub open spec fn has_ink(line: Seq<char>) -> bool {
    exists|k: int| 0 <= k < line.len() && !is_whitespace(#[trigger] line[k])
}

/// Whether the first character of a line that is no whitespace stands at `k`.
pub open spec fn ink_at(line: Seq<char>, k: int) -> bool {
    &&& 0 <= k < line.len()
    &&& !is_whitespace(line[k])
    &&& forall|m: int| 0 <= m < k ==> is_whitespace(#[trigger] line[m])
}

/// Whether a text stands in another, at `k`.
pub open spec fn reads_at(line: Seq<char>, k: int, text: Seq<char>) -> bool {
    &&& 0 <= k
    &&& k + text.len() <= line.len()
    &&& forall|m: int| 0 <= m < text.len() ==> line[k + m] == #[trigger] text[m]
}

/// Whether a line begins with a text, behind whitespace.
pub open spec fn opens_with(line: Seq<char>, text: Seq<char>) -> bool {
    exists|k: int| #[trigger] ink_at(line, k) && reads_at(line, k, text)
}

/// Whether a line is a comment, or has no text at all.
pub open spec fn says_nothing(line: Seq<char>) -> bool {
    !has_ink(line) || exists|k: int| #[trigger] ink_at(line, k) && line[k] == '#'
}

/// Whether a text names both the program and its command.
pub open spec fn names_checkpoint(text: Seq<char>) -> bool {
    &&& exists|k: int| #[trigger] reads_at(text, k, "git-ai"@)
    &&& exists|k: int| #[trigger] reads_at(text, k, "checkpoint"@)
}

/// The characters that count as whitespace.
pub proof fn law_whitespace(c: char)
    ensures
        is_whitespace(c) == seq![
            ' ',
            '\t',
            '\n',
            '\r',
            '\u{b}',
            '\u{c}',
            '\u{85}',
            '\u{a0}',
            '\u{1680}',
            '\u{2000}',
            '\u{2001}',
            '\u{2002}',
            '\u{2003}',
            '\u{2004}',
            '\u{2005}',
            '\u{2006}',
            '\u{2007}',
            '\u{2008}',
            '\u{2009}',
            '\u{200a}',
            '\u{2028}',
            '\u{2029}',
            '\u{202f}',
            '\u{205f}',
            '\u{3000}',
        ].contains(c),
{
    let all = seq![
        ' ',
        '\t',
        '\n',
        '\r',
        '\u{b}',
        '\u{c}',
        '\u{85}',
        '\u{a0}',
        '\u{1680}',
        '\u{2000}',
        '\u{2001}',
        '\u{2002}',
        '\u{2003}',
        '\u{2004}',
        '\u{2005}',
        '\u{2006}',
        '\u{2007}',
        '\u{2008}',
        '\u{2009}',
        '\u{200a}',
        '\u{2028}',
        '\u{2029}',
        '\u{202f}',
        '\u{205f}',
        '\u{3000}',
    ];
    if all.contains(c) {
        let i = choose|i: int| 0 <= i < all.len() && all[i] == c;
        assert(is_whitespace(all[i]));
    }
    if is_whitespace(c) {
        let n: u32 = c as u32;
        let i: int = if c == ' ' {
            0
        } else if c == '\t' {
            1
        } else if c == '\n' {
            2
        } else if c == '\r' {
            3
        } else if c == '\u{b}' {
            4
        } else if c == '\u{c}' {
            5
        } else if c == '\u{85}' {
            6
        } else if c == '\u{a0}' {
            7
        } else if c == '\u{1680}' {
            8
        } else if '\u{2000}' <= c <= '\u{200a}' {
            9 + (n - 0x2000)
        } else if c == '\u{2028}' {
            20
        } else if c == '\u{2029}' {
            21
        } else if c == '\u{202f}' {
            22
        } else if c == '\u{205f}' {
            23
        } else {
            24
        };
        assert(all[i] == c);
    }
}

/// Trimming takes off the whitespace on both sides, and nothing else.
pub proof fn law_trimming(a: Seq<char>, s: Seq<char>, b: Seq<char>)
    requires
        !has_ink(a),
        !has_ink(b),
        s.len() > 0 ==> !is_whitespace(s[0]) && !is_whitespace(s.last()),
    ensures
        trimmed(a + s + b) == s,
        s.len() > 0 ==> trimmed_start(a + s + b) == s + b,
        s.len() > 0 ==> trimmed_end(a + s + b) == a + s,
        trimmed_start(a).len() == 0,
        trimmed_end(a).len() == 0,
        is_blank(a),
        s.len() > 0 ==> !is_blank(a + s + b),
{
    let all = a + s + b;
    lemma_trimmed_start_at(a, a.len() as int);
    lemma_trimmed_end_at(a, 0);
    if s.len() > 0 {
        assert(all[a.len() as int] == s[0]);
        assert forall|i: int| 0 <= i < a.len() implies is_whitespace(#[trigger] all[i]) by {
            assert(all[i] == a[i]);
        }
        lemma_trimmed_start_at(all, a.len() as int);
        let rest = all.skip(a.len() as int);
        assert(rest =~= s + b);
        assert forall|i: int| s.len() <= i < rest.len() implies is_whitespace(
            #[trigger] rest[i],
        ) by {
            assert(rest[i] == b[i - s.len()]);
        }
        assert(rest[s.len() - 1] == s.last());
        lemma_trimmed_end_at(rest, s.len() as int);
        assert(rest.take(s.len() as int) =~= s);
        assert forall|i: int| a.len() + s.len() <= i < all.len() implies is_whitespace(
            #[trigger] all[i],
        ) by {
            assert(all[i] == b[i - a.len() - s.len()]);
        }
        assert(all[a.len() + s.len() - 1] == s.last());
        lemma_trimmed_end_at(all, (a.len() + s.len()) as int);
        assert(all.take((a.len() + s.len()) as int) =~= a + s);
    } else {
        assert forall|i: int| 0 <= i < all.len() implies is_whitespace(#[trigger] all[i]) by {
            if i < a.len() {
                assert(all[i] == a[i]);
            } else {
                assert(all[i] == b[i - a.len()]);
            }
        }
        lemma_trimmed_start_at(all, all.len() as int);
        lemma_trimmed_end_at(all.skip(all.len() as int), 0);
        assert(trimmed(all) =~= s);
    }
}

/// A text begins with another exactly if it is the other with some text behind
/// it, and contains it exactly if it is the other with some text on both
/// sides.
pub proof fn law_searching(s: Seq<char>, pattern: Seq<char>)
    ensures
        starts_with(s, pattern) == reads_at(s, 0, pattern),
        contains(s, pattern) == exists|k: int| #[trigger] reads_at(s, k, pattern),
        starts_with(s, pattern) ==> s == pattern + s.skip(pattern.len() as int),
{
    assert forall|k: int| #[trigger] reads_at(s, k, pattern) == occurs_at(s, pattern, k) by {
        if reads_at(s, k, pattern) {
            let part = s.subrange(k, k + pattern.len());
            assert forall|m: int| 0 <= m < part.len() implies part[m] == pattern[m] by {
                assert(pattern[m] == s[k + m]);
            }
            assert(part =~= pattern);
        }
        if occurs_at(s, pattern, k) {
            let part = s.subrange(k, k + pattern.len());
            assert forall|m: int| 0 <= m < pattern.len() implies s[k + m]
                == #[trigger] pattern[m] by {
                assert(part[m] == s[k + m]);
            }
        }
    }
    if contains(s, pattern) {
        let k = choose|k: int| #[trigger] occurs_at(s, pattern, k);
        assert(reads_at(s, k, pattern));
    }
    if exists|k: int| #[trigger] reads_at(s, k, pattern) {
        let k = choose|k: int| #[trigger] reads_at(s, k, pattern);
        assert(occurs_at(s, pattern, k));
    }
    assert(reads_at(s, 0, pattern) == occurs_at(s, pattern, 0));
    if pattern.len() <= s.len() {
        assert(s.subrange(0, pattern.len() as int) =~= s.take(pattern.len() as int));
    }
    if starts_with(s, pattern) {
        assert(s =~= s.take(pattern.len() as int) + s.skip(pattern.len() as int));
    }
}

/// A command is that of a git-ai checkpoint exactly if it names both `git-ai`
/// and `checkpoint`, wherever in it.
pub proof fn law_checkpoint_command(cmd: Seq<char>)
    ensures
        checkpoint_command(cmd) == names_checkpoint(cmd),
{
    law_searching(cmd, "git-ai"@);
    law_searching(cmd, "checkpoint"@);
}

/// Doubling the quotes of a text works character by character: a quote becomes
/// two, and any other character stays.
pub proof fn law_quotes_doubled(a: Seq<char>, b: Seq<char>, c: char)
    ensures
        quotes_doubled(a + b) == quotes_doubled(a) + quotes_doubled(b),
        quotes_doubled(seq!['\'']) == seq!['\'', '\''],
        c != '\'' ==> quotes_doubled(seq![c]) == seq![c],
        quotes_doubled(Seq::empty()) == Seq::<char>::empty(),
    decreases b.len(),
{
    assert(seq!['\''].drop_last() =~= Seq::<char>::empty());
    assert(seq![c].drop_last() =~= Seq::<char>::empty());
    assert(quotes_doubled(Seq::<char>::empty()) =~= Seq::<char>::empty());
    assert(seq!['\''].last() == '\'');
    assert(quotes_doubled(seq!['\'']) =~= seq!['\'', '\'']);
    assert(c != '\'' ==> quotes_doubled(seq![c]) =~= seq![c]);
    if b.len() == 0 {
        assert(a + b =~= a);
        assert(quotes_doubled(a) + quotes_doubled(b) =~= quotes_doubled(a));
    } else {
        law_quotes_doubled(a, b.drop_last(), c);
        assert((a + b).drop_last() =~= a + b.drop_last());
        assert(quotes_doubled(a + b) =~= quotes_doubled(a) + quotes_doubled(b));
    }
}

/// A run of spaces is that many spaces, and the indent of a line that begins
/// with one is its length.
pub proof fn law_spaces(n: nat, text: Seq<char>)
    ensures
        spaces(n).len() == n,
        forall|i: int| 0 <= i < n ==> #[trigger] spaces(n)[i] == ' ',
        text.len() > 0 && !is_whitespace(text[0]) ==> indent_width(spaces(n) + text) == n,
{
    let line = spaces(n) + text;
    if text.len() > 0 && !is_whitespace(text[0]) {
        lemma_trimmed_start_at(line, n as int);
        assert(line.skip(n as int) =~= text);
        let space = line.take(line.len() - text.len());
        assert(space =~= spaces(n));
        assert(is_ascii_chars(space));
        is_ascii_chars_encode_utf8(space);
    }
}

/// The indent of a line is the number of bytes before its first text.
pub proof fn law_indent(line: Seq<char>, k: int)
    requires
        ink_at(line, k),
    ensures
        indent_width(line) == encode_utf8(line.take(k)).len(),
        trimmed_start(line) == line.skip(k),
{
    lemma_trimmed_start_at(line, k);
}

/// Lines that are joined have a line feed between each two of them, and before
/// it the carriage return that belongs to the line.
pub proof fn law_joining(
    a: Seq<Seq<char>>,
    a_ends: Seq<bool>,
    b: Seq<Seq<char>>,
    b_ends: Seq<bool>,
    line: Seq<char>,
)
    requires
        a.len() == a_ends.len() > 0,
        b.len() == b_ends.len() > 0,
    ensures
        joined_lines(a + b, a_ends + b_ends) == joined_lines(a, a_ends).push('\n') + joined_lines(
            b,
            b_ends,
        ),
        joined_lines(seq![line], seq![false]) == line,
        joined_lines(seq![line], seq![true]) == line.push('\r'),
        joined_lines(Seq::empty(), Seq::empty()) == Seq::<char>::empty(),
{
    let x = ended(a, a_ends);
    let y = ended(b, b_ends);
    assert(ended(a + b, a_ends + b_ends) =~= x + y);
    lemma_joined_concat(x, y, line_end(false));
    assert(joined(x, line_end(false)) + line_end(false) =~= joined(x, line_end(false)).push('\n'));
    assert(ended(seq![line], seq![false]) =~= seq![line]);
    assert(ended(seq![line], seq![true]) =~= seq![line.push('\r')]);
}

/// A file uses carriage returns exactly if one stands before a line feed.
pub proof fn law_carriage_returns(s: Seq<char>)
    ensures
        uses_crlf(returns_of(s)) == exists|i: int|
            0 <= i < s.len() - 1 && #[trigger] s[i] == '\r' && s[i + 1] == '\n',
{
    lemma_uses_crlf(s);
    if exists|i: int| 0 <= i < s.len() - 1 && #[trigger] s[i] == '\r' && s[i + 1] == '\n' {
        let i = choose|i: int|
            0 <= i < s.len() - 1 && #[trigger] s[i] == '\r' && s[i + 1] == '\n';
        assert(crate::lines::crlf_at(s, i));
    }
    if uses_crlf(returns_of(s)) {
        let i = choose|i: int| crate::lines::crlf_at(s, i);
        assert(s[i] == '\r');
    }
}

/// Appending a path to another gives the path itself if it starts at the root,
/// and otherwise the two with one `/` between them.
pub proof fn law_path_joining(base: Seq<char>, part: Seq<char>)
    ensures
        part.len() > 0 && part[0] == '/' ==> path_joined(base, part) == part,
        (part.len() == 0 || part[0] != '/') && base.len() > 0 && base.last() != '/'
            ==> path_joined(base, part) == base + seq!['/'] + part,
        (part.len() == 0 || part[0] != '/') ==> path_joined(base.push('/'), part) == base + seq![
            '/',
        ] + part,
        path_joined(Seq::empty(), part) == part,
{
    assert(base.push('/') =~= base + seq!['/']);
}

/// A file that is missing is read as one without any text, and any other as
/// what it holds.
pub proof fn law_file_text(text: &str)
    ensures
        file_text(Some(text)) == text@,
        file_text(None).len() == 0,
{
}

} // verus!
