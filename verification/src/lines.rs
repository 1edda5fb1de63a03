//! Files as lines: splitting at line feeds, with a carriage return before a
//! line feed counted as part of the line ending, and joining again. Each line
//! keeps its own ending.
use crate::text::texts;
use vstd::prelude::*;

verus! {

/// The stretches of text between the line feeds, in order. There is one more
/// stretch than there are line feeds.
pub open spec fn pieces(s: Seq<char>) -> Seq<Seq<char>>
    decreases s.len(),
{
    if s.len() == 0 {
        seq![Seq::<char>::empty()]
    } else {
        let before = pieces(s.drop_last());
        if s.last() == '\n' {
            before.push(Seq::empty())
        } else {
            before.drop_last().push(before.last().push(s.last()))
        }
    }
}

/// Whether a carriage return stands at the end of a text.
pub open spec fn ends_in_return(s: Seq<char>) -> bool {
    s.len() > 0 && s.last() == '\r'
}

/// A line without the carriage return at its end, if it has one there.
pub open spec fn without_return(line: Seq<char>) -> Seq<char> {
    if ends_in_return(line) {
        line.drop_last()
    } else {
        line
    }
}

/// The lines of a file: the stretches between its line feeds, each without
/// the carriage return at its end.
pub open spec fn split_text(s: Seq<char>) -> Seq<Seq<char>> {
    Seq::new(pieces(s).len(), |i: int| without_return(pieces(s)[i]))
}

/// For each line of a file, whether a carriage return stands at its end.
pub open spec fn returns_of(s: Seq<char>) -> Seq<bool> {
    Seq::new(pieces(s).len(), |i: int| ends_in_return(pieces(s)[i]))
}

/// Whether a carriage return and a line feed stand at `i` and `i + 1`.
pub open spec fn crlf_at(s: Seq<char>, i: int) -> bool {
    0 <= i && i + 1 < s.len() && s[i] == '\r' && s[i + 1] == '\n'
}

/// Whether a file uses carriage returns before line feeds.
pub open spec fn has_crlf(s: Seq<char>) -> bool {
    exists|i: int| crlf_at(s, i)
}

/// The line ending of a file.
pub open spec fn line_end(crlf: bool) -> Seq<char> {
    if crlf {
        seq!['\r', '\n']
    } else {
        seq!['\n']
    }
}

/// The lines with `separator` between each two of them.
pub open spec fn joined(lines: Seq<Seq<char>>, separator: Seq<char>) -> Seq<char>
    decreases lines.len(),
{
    if lines.len() == 0 {
        Seq::empty()
    } else if lines.len() == 1 {
        lines[0]
    } else {
        joined(lines.drop_last(), separator) + separator + lines.last()
    }
}

/// Lines, each with a carriage return behind it where `crlf` says so.
pub open spec fn ended(lines: Seq<Seq<char>>, crlf: Seq<bool>) -> Seq<Seq<char>> {
    Seq::new(
        lines.len(),
        |i: int|
            if i < crlf.len() && crlf[i] {
                lines[i].push('\r')
            } else {
                lines[i]
            },
    )
}

/// The file that has the given lines, each with its own ending.
pub open spec fn joined_lines(lines: Seq<Seq<char>>, crlf: Seq<bool>) -> Seq<char> {
    joined(ended(lines, crlf), line_end(false))
}

/// Whether a line that a line feed ends has a carriage return before it.
pub open spec fn uses_crlf(crlf: Seq<bool>) -> bool {
    exists|i: int| 0 <= i < crlf.len() - 1 && #[trigger] crlf[i]
}

/// Split file content into lines (trailing `\r` stripped) plus, for each of
/// them, whether a `\r` was stripped. The final empty element from a trailing
/// newline is preserved, so the content can be rebuilt byte-identically.
pub fn split_lines(content: &str) -> (split: (Vec<String>, Vec<bool>))
    ensures
        texts(split.0@) == split_text(content@),
        split.1@ == returns_of(content@),
{
    let mut lines: Vec<String> = Vec::new();
    let mut crlf: Vec<bool> = Vec::new();
    let mut current = String::new();
    let mut held: bool = false;
    for c in it: content.chars()
        invariant
            it.seq() == content@,
            lines@.len() + 1 == pieces(content@.take(it.index() as int)).len(),
            lines@.len() == crlf@.len(),
            forall|i: int|
                0 <= i < lines@.len() ==> (#[trigger] lines@[i])@ == without_return(
                    pieces(content@.take(it.index() as int))[i],
                ),
            forall|i: int|
                0 <= i < crlf@.len() ==> #[trigger] crlf@[i] == ends_in_return(
                    pieces(content@.take(it.index() as int))[i],
                ),
            pieces(content@.take(it.index() as int)).last() == (if held {
                current@.push('\r')
            } else {
                current@
            }),
            !held ==> !ends_in_return(current@),
    {
        let ghost before = content@.take(it.index() as int);
        let ghost after = content@.take(it.index() + 1);
        proof {
            assert(after.drop_last() =~= before);
            assert(after.last() == c);
            assert(current@.push('\r').drop_last() =~= current@);
        }
        if c == '\n' {
            lines.push(current);
            crlf.push(held);
            current = String::new();
            held = false;
        } else {
            if held {
                current.push('\r');
            }
            if c == '\r' {
                held = true;
            } else {
                current.push(c);
                held = false;
            }
        }
    }
    proof {
        assert(content@.take(content@.len() as int) =~= content@);
        assert(current@.push('\r').drop_last() =~= current@);
        assert(without_return(pieces(content@).last()) == current@);
    }
    lines.push(current);
    crlf.push(held);
    assert(texts(lines@) =~= split_text(content@));
    assert(crlf@ =~= returns_of(content@));
    (lines, crlf)
}

/// Joins lines, each with its own ending. A line without a flag has none.
pub fn join_lines(lines: &[String], crlf: &[bool]) -> (content: String)
    ensures
        content@ == joined_lines(texts(lines@), crlf@),
{
    let ghost all = ended(texts(lines@), crlf@);
    let mut content = String::new();
    let mut i: usize = 0;
    assert(all.take(0) =~= Seq::empty());
    while i < lines.len()
        invariant
            i <= lines@.len(),
            all == ended(texts(lines@), crlf@),
            content@ == joined(all.take(i as int), line_end(false)),
        decreases lines@.len() - i,
    {
        let ghost before = content@;
        proof {
            assert(all.take(i + 1).drop_last() =~= all.take(i as int));
            assert(all.take(i + 1).last() == all[i as int]);
        }
        if i > 0 {
            content.push('\n');
        }
        content.append(&lines[i]);
        if i < crlf.len() && crlf[i] {
            content.push('\r');
        }
        proof {
            if i == 0 {
                assert(content@ =~= all[0]);
            } else {
                assert(content@ =~= before + line_end(false) + all[i as int]);
            }
        }
        i += 1;
    }
    assert(all.take(i as int) =~= all);
    content
}

/// Whether the lines of a file use carriage returns before line feeds.
pub fn any_crlf(crlf: &[bool]) -> (used: bool)
    ensures
        used == uses_crlf(crlf@),
{
    let mut i: usize = 0;
    while i < crlf.len() && i < crlf.len() - 1
        invariant
            i <= crlf@.len(),
            forall|k: int| 0 <= k < i && k < crlf@.len() - 1 ==> !#[trigger] crlf@[k],
        decreases crlf@.len() - i,
    {
        if crlf[i] {
            return true;
        }
        i += 1;
    }
    false
}

/// Whether the text holds no line feed.
pub open spec fn one_line(s: Seq<char>) -> bool {
    forall|i: int| 0 <= i < s.len() ==> #[trigger] s[i] != '\n'
}

/// Every stretch between line feeds is free of them, and together they are
/// the text.
pub proof fn lemma_pieces(s: Seq<char>)
    ensures
        pieces(s).len() > 0,
        forall|i: int| 0 <= i < pieces(s).len() ==> one_line(#[trigger] pieces(s)[i]),
        joined(pieces(s), line_end(false)) == s,
        s.len() > 0 && s.last() != '\n' ==> pieces(s).last().len() > 0 && pieces(s).last().last()
            == s.last(),
        (s.len() == 0 || s.last() == '\n') ==> pieces(s).last().len() == 0,
    decreases s.len(),
{
    if s.len() > 0 {
        let t = s.drop_last();
        let before = pieces(t);
        lemma_pieces(t);
        if s.last() == '\n' {
            assert(pieces(s).drop_last() =~= before);
            assert(t + line_end(false) + Seq::<char>::empty() =~= s);
        } else {
            let c = s.last();
            let all = pieces(s);
            assert(all.drop_last() =~= before.drop_last());
            if before.len() == 1 {
                assert(joined(before, line_end(false)) == before[0]);
                assert(all[0] =~= s);
            } else {
                assert(joined(before.drop_last(), line_end(false)) + line_end(false)
                    + before.last().push(c) =~= t.push(c));
                assert(t.push(c) =~= s);
            }
            assert forall|i: int| 0 <= i < all.len() implies one_line(#[trigger] all[i]) by {
                if i < before.len() - 1 {
                    assert(all[i] == before[i]);
                } else {
                    assert(one_line(before.last()));
                }
            }
        }
    }
}

/// Text without a line feed goes to the last stretch; a line feed begins a
/// new one.
proof fn lemma_pieces_append(a: Seq<char>, b: Seq<char>)
    requires
        one_line(b),
    ensures
        pieces(a + b) == pieces(a).drop_last().push(pieces(a).last() + b),
        pieces(a.push('\n') + b) == pieces(a).push(b),
    decreases b.len(),
{
    lemma_pieces(a);
    if b.len() == 0 {
        assert(a + b =~= a);
        assert(pieces(a).last() + b =~= pieces(a).last());
        assert(pieces(a).drop_last().push(pieces(a).last()) =~= pieces(a));
        assert(a.push('\n') + b =~= a.push('\n'));
        assert(a.push('\n').drop_last() =~= a);
        assert(b =~= Seq::empty());
    } else {
        let t = b.drop_last();
        assert forall|i: int| 0 <= i < t.len() implies #[trigger] t[i] != '\n' by {
            assert(t[i] == b[i]);
        }
        lemma_pieces_append(a, t);
        assert((a + b).drop_last() =~= a + t);
        assert((a.push('\n') + b).drop_last() =~= a.push('\n') + t);
        assert((pieces(a).last() + t).push(b.last()) =~= pieces(a).last() + b);
        assert(t.push(b.last()) =~= b);
        assert(pieces(a + b) =~= pieces(a).drop_last().push(pieces(a).last() + b));
        assert(pieces(a.push('\n') + b) =~= pieces(a).push(b));
    }
}

/// The stretches of two texts with a line feed between them.
pub proof fn lemma_pieces_concat(a: Seq<char>, b: Seq<char>)
    ensures
        pieces(a.push('\n') + b) == pieces(a) + pieces(b),
    decreases b.len(),
{
    let all = a.push('\n') + b;
    lemma_pieces(b);
    if b.len() == 0 {
        assert(all =~= a.push('\n'));
        assert(all.drop_last() =~= a);
        assert(pieces(a) + pieces(b) =~= pieces(a).push(Seq::empty()));
    } else {
        let t = b.drop_last();
        lemma_pieces(t);
        assert(all.drop_last() =~= a.push('\n') + t);
        lemma_pieces_concat(a, t);
        assert(pieces(all) =~= pieces(a) + pieces(b));
    }
}

/// The lines of two texts with a line feed between them.
pub proof fn lemma_split_concat(a: Seq<char>, b: Seq<char>)
    ensures
        split_text(a.push('\n') + b) == split_text(a) + split_text(b),
{
    lemma_pieces_concat(a, b);
    assert(split_text(a.push('\n') + b) =~= split_text(a) + split_text(b));
}

/// A text uses carriage returns before line feeds only where a stretch that a
/// line feed ends has one at its end.
proof fn lemma_no_crlf(s: Seq<char>)
    requires
        forall|i: int| 0 <= i < pieces(s).len() - 1 ==> !ends_in_return(#[trigger] pieces(s)[i]),
    ensures
        !has_crlf(s),
    decreases s.len(),
{
    if s.len() > 0 {
        let t = s.drop_last();
        lemma_pieces(t);
        assert forall|i: int| 0 <= i < pieces(t).len() - 1 implies !ends_in_return(
            #[trigger] pieces(t)[i],
        ) by {
            assert(pieces(s)[i] == pieces(t)[i]);
        }
        lemma_no_crlf(t);
        if has_crlf(s) {
            let i = choose|i: int| crlf_at(s, i);
            if i + 1 < t.len() {
                assert(crlf_at(t, i));
            } else {
                assert(t.last() == '\r');
                assert(pieces(s)[pieces(t).len() - 1] == pieces(t).last());
            }
        }
    }
}

/// The stretches of joined lines are the lines, each but the last with the
/// carriage return of its line ending.
pub proof fn lemma_pieces_of_joined(lines: Seq<Seq<char>>, crlf: bool)
    requires
        lines.len() > 0,
        forall|i: int| 0 <= i < lines.len() ==> one_line(#[trigger] lines[i]),
    ensures
        pieces(joined(lines, line_end(crlf))) == Seq::new(
            lines.len(),
            |i: int|
                if crlf && i + 1 < lines.len() {
                    lines[i].push('\r')
                } else {
                    lines[i]
                },
        ),
    decreases lines.len(),
{
    let last = lines.last();
    if lines.len() == 1 {
        let none = Seq::<char>::empty();
        lemma_pieces_append(none, last);
        assert(none + last =~= last);
        assert(pieces(none) =~= seq![none]);
        assert(pieces(last) =~= seq![last]);
    } else {
        let before = lines.drop_last();
        let text = joined(before, line_end(crlf));
        lemma_pieces_of_joined(before, crlf);
        if crlf {
            let cr = seq!['\r'];
            lemma_pieces_append(text, cr);
            lemma_pieces_append(text + cr, last);
            assert((text + cr).push('\n') + last =~= text + line_end(crlf) + last);
            assert(before.last() + cr =~= before.last().push('\r'));
        } else {
            lemma_pieces_append(text, last);
            assert(text.push('\n') + last =~= text + line_end(crlf) + last);
        }
        assert(pieces(joined(lines, line_end(crlf))) =~= Seq::new(
            lines.len(),
            |i: int|
                if crlf && i + 1 < lines.len() {
                    lines[i].push('\r')
                } else {
                    lines[i]
                },
        ));
    }
}

/// Splitting undoes joining, for lines that hold no line feed, and of which
/// one that ends in a carriage return has another for its ending.
pub proof fn law_split_undoes_join(lines: Seq<Seq<char>>, crlf: Seq<bool>)
    requires
        lines.len() > 0,
        crlf.len() == lines.len(),
        forall|i: int|
            0 <= i < lines.len() ==> one_line(#[trigger] lines[i]) && (crlf[i]
                || !ends_in_return(lines[i])),
    ensures
        split_text(joined_lines(lines, crlf)) == lines,
        returns_of(joined_lines(lines, crlf)) == crlf,
        pieces(joined_lines(lines, crlf)) == ended(lines, crlf),
{
    let all = ended(lines, crlf);
    let s = joined_lines(lines, crlf);
    assert forall|i: int| 0 <= i < all.len() implies one_line(#[trigger] all[i]) by {
        assert(one_line(lines[i]));
    }
    lemma_pieces_of_joined(all, false);
    assert(pieces(s) =~= all);
    assert forall|i: int| 0 <= i < lines.len() implies without_return(#[trigger] all[i])
        == lines[i] && ends_in_return(all[i]) == crlf[i] by {
        assert(one_line(lines[i]));
        assert(lines[i].push('\r').drop_last() =~= lines[i]);
    }
    assert(split_text(s) =~= lines);
    assert(returns_of(s) =~= crlf);
}

/// A file is rebuilt byte for byte when its lines are joined again.
pub proof fn law_join_undoes_split(s: Seq<char>)
    ensures
        joined_lines(split_text(s), returns_of(s)) == s,
{
    lemma_pieces(s);
    assert forall|i: int| 0 <= i < pieces(s).len() implies #[trigger] ended(
        split_text(s),
        returns_of(s),
    )[i] == pieces(s)[i] by {
        if ends_in_return(pieces(s)[i]) {
            assert(pieces(s)[i].drop_last().push('\r') =~= pieces(s)[i]);
        }
    }
    assert(ended(split_text(s), returns_of(s)) =~= pieces(s));
}

/// Joining lines and more lines.
pub proof fn lemma_joined_concat(a: Seq<Seq<char>>, b: Seq<Seq<char>>, separator: Seq<char>)
    requires
        a.len() > 0,
        b.len() > 0,
    ensures
        joined(a + b, separator) == joined(a, separator) + separator + joined(b, separator),
    decreases b.len(),
{
    let all = a + b;
    if b.len() == 1 {
        assert(all.drop_last() =~= a);
        assert(all.last() == b[0]);
    } else {
        assert(all.drop_last() =~= a + b.drop_last());
        lemma_joined_concat(a, b.drop_last(), separator);
        assert(joined(all, separator) =~= joined(a, separator) + separator + joined(b, separator));
    }
}

/// Lines that all end alike, joined.
pub proof fn lemma_joined_alike(lines: Seq<Seq<char>>, crlf: bool)
    requires
        lines.len() > 0,
    ensures
        joined_lines(lines, Seq::new(lines.len(), |i: int| crlf)) + line_end(false) == joined(
            lines,
            line_end(crlf),
        ) + line_end(crlf),
    decreases lines.len(),
{
    let all = ended(lines, Seq::new(lines.len(), |i: int| crlf));
    if lines.len() == 1 {
        assert(joined(all, line_end(false)) + line_end(false) =~= lines[0] + line_end(crlf));
    } else {
        let before = lines.drop_last();
        lemma_joined_alike(before, crlf);
        assert(all.drop_last() =~= ended(before, Seq::new(before.len(), |i: int| crlf)));
        assert(all.last() + line_end(false) =~= lines.last() + line_end(crlf));
        assert(joined(all, line_end(false)) + line_end(false) =~= joined(before, line_end(crlf))
            + line_end(crlf) + (lines.last() + line_end(crlf)));
        assert(joined(lines, line_end(crlf)) + line_end(crlf) =~= joined(before, line_end(crlf))
            + line_end(crlf) + (lines.last() + line_end(crlf)));
    }
}

/// Where a text has no carriage return before a line feed, no stretch that a
/// line feed ends has one at its end.
proof fn lemma_piece_ends(s: Seq<char>)
    ensures
        !has_crlf(s) ==> forall|i: int|
            0 <= i < pieces(s).len() - 1 ==> !ends_in_return(#[trigger] pieces(s)[i]),
    decreases s.len(),
{
    if s.len() > 0 {
        let t = s.drop_last();
        let before = pieces(t);
        lemma_piece_ends(t);
        lemma_pieces(t);
        if !has_crlf(s) {
            if has_crlf(t) {
                let i = choose|i: int| crlf_at(t, i);
                assert(crlf_at(s, i));
            }
            assert forall|i: int| 0 <= i < pieces(s).len() - 1 implies !ends_in_return(
                #[trigger] pieces(s)[i],
            ) by {
                assert(pieces(s)[i] == before[i]);
                if i == before.len() - 1 {
                    if t.len() > 0 && t.last() == '\r' {
                        assert(crlf_at(s, t.len() - 1));
                    }
                }
            }
        }
    }
}

/// Whether a file uses carriage returns before line feeds shows in its lines.
pub proof fn lemma_uses_crlf(s: Seq<char>)
    ensures
        has_crlf(s) == uses_crlf(returns_of(s)),
{
    lemma_piece_ends(s);
    if !uses_crlf(returns_of(s)) {
        assert forall|i: int| 0 <= i < pieces(s).len() - 1 implies !ends_in_return(
            #[trigger] pieces(s)[i],
        ) by {
            assert(!returns_of(s)[i]);
        }
        lemma_no_crlf(s);
    } else {
        let i = choose|i: int| 0 <= i < returns_of(s).len() - 1 && #[trigger] returns_of(s)[i];
        assert(ends_in_return(pieces(s)[i]));
    }
}

/// The lines of a file hold no line feeds, there is at least one, and one that
/// ends in a carriage return has another for its ending.
pub proof fn lemma_split_text(s: Seq<char>)
    ensures
        split_text(s).len() > 0,
        returns_of(s).len() == split_text(s).len(),
        forall|i: int|
            0 <= i < split_text(s).len() ==> one_line(#[trigger] split_text(s)[i]) && (returns_of(
                s,
            )[i] || !ends_in_return(split_text(s)[i])),
{
    lemma_pieces(s);
    assert forall|i: int| 0 <= i < split_text(s).len() implies one_line(
        #[trigger] split_text(s)[i],
    ) && (returns_of(s)[i] || !ends_in_return(split_text(s)[i])) by {
        assert(one_line(pieces(s)[i]));
    }
}

} // verus!
