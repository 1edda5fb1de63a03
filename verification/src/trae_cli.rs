//! Hooks of the TRAE CLI: the entries of the `hooks:` block in
//! `~/.trae/trae_cli.yaml`.
use crate::error::GitAiError;
use crate::hooks_block::{
    block_fits, entries_end, entries_start, hooks_block, idle, is_idle, lemma_block_fits,
    parse_hooks_block, reports, BlockModel, HooksBlock, LayoutIssue, DEFAULT_ENTRY_INDENT,
};
use crate::installer::{
    checkpoint_command, file_text, is_git_ai_checkpoint_command, join_path, path_joined,
    text_or_empty, ConfigEdit, HookCheckResult,
};
use crate::lines::{
    any_crlf, ends_in_return, has_crlf, join_lines, joined, joined_lines,
    lemma_split_text, lemma_uses_crlf, line_end, returns_of, split_lines, split_text, uses_crlf,
};
use crate::text::{
    blank, double_quotes, is_blank, quotes_doubled, same_text, space_run, spaces, starts_with,
    strip_prefix, texts, trim, trim_start, trimmed, trimmed_start,
};
use vstd::prelude::*;

verus! {

/// Whether a line gives an entry's command.
pub open spec fn is_command_line(line: Seq<char>) -> bool {
    starts_with(trimmed_start(line), "command:"@)
}

/// What a line gives as the command, as it is written there.
pub open spec fn command_value(line: Seq<char>) -> Seq<char> {
    trimmed(trimmed_start(line).skip("command:"@.len() as int))
}

/// What the first line of an entry that gives a command gives.
pub open spec fn command_in(entry: Seq<Seq<char>>) -> Option<Seq<char>>
    decreases entry.len(),
{
    if entry.len() == 0 {
        None
    } else if is_command_line(entry[0]) {
        Some(command_value(entry[0]))
    } else {
        command_in(entry.drop_first())
    }
}

/// Whether an entry runs a git-ai checkpoint.
pub open spec fn is_ours(entry: Seq<Seq<char>>) -> bool {
    command_in(entry) matches Some(command) && checkpoint_command(command)
}

/// The lines of an entry, or what stands for them.
pub open spec fn entry_lines<T>(items: Seq<T>, entry: (int, int)) -> Seq<T> {
    items.subrange(entry.0, entry.1)
}

/// The end of an entry without the blank and comment lines at its end: those
/// separate it from what follows, and are no part of it.
pub open spec fn own_end(lines: Seq<Seq<char>>, entry: (int, int)) -> int
    decreases entry.1 - entry.0,
{
    if entry.1 > entry.0 && is_idle(lines[entry.1 - 1]) {
        own_end(lines, (entry.0, entry.1 - 1))
    } else {
        entry.1
    }
}

/// Which of the first `n` entries run a git-ai checkpoint, in file order.
pub open spec fn our_entries(lines: Seq<Seq<char>>, entries: Seq<(int, int)>, n: int) -> Seq<int>
    decreases n,
{
    if n <= 0 {
        Seq::empty()
    } else {
        let before = our_entries(lines, entries, n - 1);
        if is_ours(entry_lines(lines, entries[n - 1])) {
            before.push(n - 1)
        } else {
            before
        }
    }
}

/// A value without the quotes around it.
pub open spec fn unquoted(value: Seq<char>) -> Seq<char> {
    let inner = trimmed(value);
    if inner.len() >= 2 && ((inner[0] == '\'' && inner.last() == '\'') || (inner[0] == '"'
        && inner.last() == '"')) {
        inner.subrange(1, inner.len() - 1)
    } else {
        inner
    }
}

/// The hook entry that runs `cmd`, at the given indent.
pub open spec fn rendered_entry(cmd: Seq<char>, indent: nat) -> Seq<Seq<char>> {
    seq![
        spaces(indent) + "- type: command"@,
        spaces(indent + 2) + "command: '"@ + quotes_doubled(cmd) + "'"@,
        spaces(indent + 2) + "timeout: '30s'"@,
        spaces(indent + 2) + "matchers:"@,
        spaces(indent + 4) + "- event: pre_tool_use"@,
        spaces(indent + 4) + "- event: post_tool_use"@,
    ]
}

/// The items of several stretches, one after the other.
pub open spec fn flat<T>(parts: Seq<Seq<T>>) -> Seq<T>
    decreases parts.len(),
{
    if parts.len() == 0 {
        Seq::empty()
    } else {
        flat(parts.drop_last()) + parts.last()
    }
}

/// What is left of the first `n` entries: those in `remove` are dropped, the
/// one at `replace` becomes `replacement`, all others stay. The blank and
/// comment lines after an entry that is dropped or replaced stay too.
///
/// The items are the lines, or what is known of each line.
pub open spec fn kept_entries<T>(
    lines: Seq<Seq<char>>,
    items: Seq<T>,
    entries: Seq<(int, int)>,
    remove: Seq<int>,
    replace: Option<int>,
    replacement: Seq<T>,
    n: int,
) -> Seq<Seq<T>>
    decreases n,
{
    if n <= 0 {
        Seq::empty()
    } else {
        let before = kept_entries(lines, items, entries, remove, replace, replacement, n - 1);
        let entry = entries[n - 1];
        let after = items.subrange(own_end(lines, entry), entry.1);
        if remove.contains(n - 1) {
            before.push(after)
        } else if replace == Some(n - 1) {
            before.push(replacement + after)
        } else {
            before.push(entry_lines(items, entry))
        }
    }
}

/// The items of a file whose `hooks:` block is rewritten. What stands before
/// the first entry and after the last one stays as it is.
pub open spec fn rebuilt<T>(
    lines: Seq<Seq<char>>,
    items: Seq<T>,
    block: BlockModel,
    remove: Seq<int>,
    replace: Option<int>,
    replacement: Seq<T>,
    append: bool,
) -> Seq<T> {
    items.take(entries_start(block)) + flat(
        kept_entries(
            lines,
            items,
            block.entries,
            remove,
            replace,
            replacement,
            block.entries.len() as int,
        ),
    ) + (if append {
        replacement
    } else {
        Seq::empty()
    }) + items.skip(entries_end(block))
}

/// Whether a carriage return stands behind a line where a line feed follows,
/// and where the line is the last of the file.
#[derive(Clone, Copy)]
pub struct LineEnd {
    pub inside: bool,
    pub last: bool,
}

/// How the lines of a file end when lines are put in and taken out. A line
/// that stays where it was in this respect keeps its ending. The last line of
/// the file, which has no line feed, ends as the others do where more lines
/// follow. The ending of any other line goes with its line feed where it comes
/// to be the last, and a carriage return of the line's own stays.
pub open spec fn opened(lines: Seq<Seq<char>>, crlf: Seq<bool>) -> Seq<LineEnd> {
    Seq::new(
        lines.len(),
        |i: int|
            if i + 1 < lines.len() {
                LineEnd { inside: crlf[i], last: crlf[i] && ends_in_return(lines[i]) }
            } else {
                LineEnd { inside: crlf[i] || uses_crlf(crlf), last: crlf[i] }
            },
    )
}

/// The endings of the lines of a file, in order.
pub open spec fn closed(ends: Seq<LineEnd>) -> Seq<bool> {
    Seq::new(
        ends.len(),
        |i: int|
            if i + 1 < ends.len() {
                ends[i].inside
            } else {
                ends[i].last
            },
    )
}

/// The file that is made of the given lines.
pub open spec fn rewritten(lines: Seq<Seq<char>>, ends: Seq<LineEnd>) -> Seq<char> {
    joined_lines(lines, closed(ends))
}

/// How new lines end: as those of the file do.
pub open spec fn fresh_ends(n: nat, crlf: Seq<bool>) -> Seq<LineEnd> {
    Seq::new(n, |i: int| LineEnd { inside: uses_crlf(crlf), last: false })
}

/// Indices, as integers.
pub open spec fn indices(s: Seq<usize>) -> Seq<int> {
    Seq::new(s.len(), |i: int| s[i] as int)
}

/// An optional index, as an integer.
pub open spec fn chosen_index(chosen: Option<usize>) -> Option<int> {
    match chosen {
        Some(idx) => Some(idx as int),
        None => None,
    }
}

/// Appends the lines in `[from, to)` to others.
fn extend_lines(out: &mut Vec<String>, lines: &[String], from: usize, to: usize)
    requires
        from <= to <= lines@.len(),
    ensures
        texts(final(out)@) == texts(old(out)@) + texts(lines@).subrange(from as int, to as int),
{
    let ghost before = texts(out@);
    let mut i: usize = from;
    assert(before + texts(lines@).subrange(from as int, from as int) =~= before);
    while i < to
        invariant
            from <= i <= to <= lines@.len(),
            texts(out@) == before + texts(lines@).subrange(from as int, i as int),
        decreases to - i,
    {
        let ghost so_far = out@;
        out.push(lines[i].clone());
        i += 1;
        assert(texts(out@) =~= texts(so_far).push(lines@[i - 1]@));
        assert(texts(lines@).subrange(from as int, i as int) =~= texts(lines@).subrange(
            from as int,
            i - 1,
        ).push(lines@[i - 1]@));
        assert(texts(out@) =~= before + texts(lines@).subrange(from as int, i as int));
    }
}

/// The raw value text of an entry's `command:` line, if it has one.
pub fn entry_command_raw(lines: &[String], entry: &(usize, usize)) -> (raw: Option<String>)
    requires
        entry.0 <= entry.1 <= lines@.len(),
    ensures
        ({
            let command = command_in(
                entry_lines(texts(lines@), (entry.0 as int, entry.1 as int)),
            );
            match raw {
                Some(raw) => command == Some(raw@),
                None => command is None,
            }
        }),
{
    let (start, end) = *entry;
    let ghost all = texts(lines@);
    let mut i: usize = start;
    while i < end
        invariant
            start <= i <= end <= lines@.len(),
            *entry == (start, end),
            all == texts(lines@),
            command_in(all.subrange(start as int, end as int)) == command_in(
                all.subrange(i as int, end as int),
            ),
        decreases end - i,
    {
        let ghost rest = all.subrange(i as int, end as int);
        assert(rest[0] == lines@[i as int]@);
        assert(rest.drop_first() =~= all.subrange(i + 1, end as int));
        if let Some(value) = strip_prefix(trim_start(&lines[i]), "command:") {
            return Some(trim(value).to_owned());
        }
        i += 1;
    }
    None
}

/// Whether an entry is a git-ai checkpoint command hook.
pub fn entry_is_git_ai(lines: &[String], entry: &(usize, usize)) -> (ours: bool)
    requires
        entry.0 <= entry.1 <= lines@.len(),
    ensures
        ours == is_ours(entry_lines(texts(lines@), (entry.0 as int, entry.1 as int))),
{
    match entry_command_raw(lines, entry) {
        Some(cmd) => is_git_ai_checkpoint_command(&cmd),
        None => false,
    }
}

/// The `command:` value with surrounding YAML quotes stripped.
pub fn unquote_yaml_value(value: &str) -> (inner: &str)
    ensures
        inner@ == unquoted(value@),
{
    let value = trim(value);
    let len = value.unicode_len();
    if len >= 2 && ((value.get_char(0) == '\'' && value.get_char(len - 1) == '\'') || (
    value.get_char(0) == '"' && value.get_char(len - 1) == '"')) {
        value.substring_char(1, len - 1)
    } else {
        value
    }
}

/// A line: an indent, and the text after it.
fn indented_line(indent: &str, text: &str) -> (line: String)
    ensures
        line@ == indent@ + text@,
{
    let mut line = indent.to_owned();
    line.append(text);
    line
}

/// Renders our hook entry at the given indent.
pub fn render_entry(desired_cmd: &str, indent: usize) -> (lines: Vec<String>)
    ensures
        texts(lines@) == rendered_entry(desired_cmd@, indent as nat),
{
    let ind = space_run(indent);
    let mut ind_body = ind.clone();
    ind_body.push(' ');
    ind_body.push(' ');
    let mut ind_matcher = ind_body.clone();
    ind_matcher.push(' ');
    ind_matcher.push(' ');
    assert(ind_body@ =~= spaces(indent as nat + 2));
    assert(ind_matcher@ =~= spaces(indent as nat + 4));
    let mut command = indented_line(&ind_body, "command: '");
    command.append(&double_quotes(desired_cmd));
    command.append("'");
    let mut lines: Vec<String> = Vec::new();
    lines.push(indented_line(&ind, "- type: command"));
    lines.push(command);
    lines.push(indented_line(&ind_body, "timeout: '30s'"));
    lines.push(indented_line(&ind_body, "matchers:"));
    lines.push(indented_line(&ind_matcher, "- event: pre_tool_use"));
    lines.push(indented_line(&ind_matcher, "- event: post_tool_use"));
    assert(texts(lines@) =~= rendered_entry(desired_cmd@, indent as nat));
    lines
}

/// Appends the endings in `[from, to)` to others.
fn extend_ends(out: &mut Vec<LineEnd>, ends: &[LineEnd], from: usize, to: usize)
    requires
        from <= to <= ends@.len(),
    ensures
        final(out)@ == old(out)@ + ends@.subrange(from as int, to as int),
{
    let ghost before = out@;
    let mut i: usize = from;
    assert(before + ends@.subrange(from as int, from as int) =~= before);
    while i < to
        invariant
            from <= i <= to <= ends@.len(),
            out@ == before + ends@.subrange(from as int, i as int),
        decreases to - i,
    {
        out.push(ends[i]);
        i += 1;
        assert(out@ =~= before + ends@.subrange(from as int, i as int));
    }
}

/// How new lines end: as those of the file do.
fn new_line_ends(n: usize, crlf: &[bool]) -> (ends: Vec<LineEnd>)
    ensures
        ends@ == fresh_ends(n as nat, crlf@),
{
    let inside = any_crlf(crlf);
    let mut ends: Vec<LineEnd> = Vec::new();
    assert(ends@ =~= fresh_ends(0, crlf@));
    for i in 0..n
        invariant
            inside == uses_crlf(crlf@),
            ends@ == fresh_ends(i as nat, crlf@),
    {
        ends.push(LineEnd { inside, last: false });
        assert(ends@ =~= fresh_ends((i + 1) as nat, crlf@));
    }
    ends
}

/// Whether a carriage return stands at the end of a text.
fn has_return(s: &str) -> (yes: bool)
    ensures
        yes == ends_in_return(s@),
{
    let len = s.unicode_len();
    len > 0 && s.get_char(len - 1) == '\r'
}

/// How the lines of a file end when lines are put in and taken out.
fn open_ends(lines: &[String], crlf: &[bool]) -> (ends: Vec<LineEnd>)
    requires
        crlf@.len() == lines@.len(),
    ensures
        ends@ == opened(texts(lines@), crlf@),
{
    let any = any_crlf(crlf);
    let ghost expected = opened(texts(lines@), crlf@);
    let mut ends: Vec<LineEnd> = Vec::new();
    for i in 0..lines.len()
        invariant
            crlf@.len() == lines@.len(),
            any == uses_crlf(crlf@),
            expected == opened(texts(lines@), crlf@),
            ends@ == expected.take(i as int),
    {
        let end = if i + 1 < lines.len() {
            LineEnd { inside: crlf[i], last: crlf[i] && has_return(&lines[i]) }
        } else {
            LineEnd { inside: crlf[i] || any, last: crlf[i] }
        };
        ends.push(end);
        assert(texts(lines@)[i as int] == lines@[i as int]@);
        assert(ends@ =~= expected.take(i + 1));
    }
    assert(expected.take(lines@.len() as int) =~= expected);
    ends
}

/// The file that is made of the given lines.
fn rewrite(lines: &[String], ends: &[LineEnd]) -> (content: String)
    ensures
        content@ == rewritten(texts(lines@), ends@),
{
    let mut crlf: Vec<bool> = Vec::new();
    for i in 0..ends.len()
        invariant
            crlf@ == closed(ends@).take(i as int),
    {
        let end = if i + 1 < ends.len() {
            ends[i].inside
        } else {
            ends[i].last
        };
        crlf.push(end);
        assert(crlf@ =~= closed(ends@).take(i + 1));
    }
    assert(closed(ends@).take(ends@.len() as int) =~= closed(ends@));
    join_lines(lines, &crlf)
}

/// The end of an entry without the blank and comment lines at its end.
fn find_own_end(lines: &[String], entry: &(usize, usize)) -> (end: usize)
    requires
        entry.0 <= entry.1 <= lines@.len(),
    ensures
        entry.0 <= end <= entry.1,
        end == own_end(texts(lines@), (entry.0 as int, entry.1 as int)),
{
    let mut end: usize = entry.1;
    while end > entry.0 && idle(&lines[end - 1])
        invariant
            entry.0 <= end <= entry.1 <= lines@.len(),
            own_end(texts(lines@), (entry.0 as int, end as int)) == own_end(
                texts(lines@),
                (entry.0 as int, entry.1 as int),
            ),
        decreases end,
    {
        end -= 1;
    }
    end
}

/// Rebuilds the file with the `hooks:` block rewritten:
/// - the `replace_idx` entry is replaced by `replacement`,
/// - entries in `remove` are dropped,
/// - `replacement` is appended at the end of the block when `append` is set.
///
/// Preamble lines (comments before the first entry), blank separator lines,
/// comments between entries, and all lines outside the block are preserved,
/// each with its own ending. New lines end as the file's do, and so does a line
/// that was the last and is followed by another.
pub fn rebuild_file(
    lines: &[String],
    crlf: &[bool],
    block: &HooksBlock,
    remove: &[usize],
    replace_idx: Option<usize>,
    replacement: &[String],
    append: bool,
) -> (content: String)
    requires
        block_fits(block@, lines@.len()),
        crlf@.len() == lines@.len(),
    ensures
        content@ == rewritten(
            rebuilt(
                texts(lines@),
                texts(lines@),
                block@,
                indices(remove@),
                chosen_index(replace_idx),
                texts(replacement@),
                append,
            ),
            rebuilt(
                texts(lines@),
                opened(texts(lines@), crlf@),
                block@,
                indices(remove@),
                chosen_index(replace_idx),
                fresh_ends(replacement@.len(), crlf@),
                append,
            ),
        ),
{
    let n = block.entries.len();
    let first_entry_start = if n > 0 {
        assert(block@.entries[0].0 == block.entries@[0].0);
        block.entries[0].0
    } else {
        block.end_idx
    };
    let last_entry_end = if n > 0 {
        assert(block@.entries[n - 1].1 == block.entries@[n - 1].1);
        block.entries[n - 1].1
    } else {
        block.end_idx
    };
    let ends = open_ends(lines, crlf);
    let new_ends = new_line_ends(replacement.len(), crlf);
    let ghost all = texts(lines@);
    let ghost replace = chosen_index(replace_idx);
    let ghost entries = block@.entries;
    let ghost gone = indices(remove@);
    let ghost fresh = texts(replacement@);
    let mut out: Vec<String> = Vec::new();
    let mut out_ends: Vec<LineEnd> = Vec::new();
    extend_lines(&mut out, lines, 0, first_entry_start);
    extend_ends(&mut out_ends, &ends, 0, first_entry_start);
    let ghost head = all.take(first_entry_start as int);
    let ghost head_ends = ends@.take(first_entry_start as int);
    assert(texts(out@) =~= head + flat(Seq::<Seq<Seq<char>>>::empty()));
    assert(out_ends@ =~= head_ends + flat(Seq::<Seq<LineEnd>>::empty()));
    let mut idx: usize = 0;
    while idx < n
        invariant
            idx <= n == block.entries@.len(),
            block_fits(block@, lines@.len()),
            entries == block@.entries,
            all == texts(lines@),
            replace == chosen_index(replace_idx),
            gone == indices(remove@),
            fresh == texts(replacement@),
            ends@.len() == lines@.len(),
            new_ends@.len() == replacement@.len(),
            texts(out@) == head + flat(
                kept_entries(all, all, entries, gone, replace, fresh, idx as int),
            ),
            out_ends@ == head_ends + flat(
                kept_entries(all, ends@, entries, gone, replace, new_ends@, idx as int),
            ),
        decreases n - idx,
    {
        let ghost before = kept_entries(all, all, entries, gone, replace, fresh, idx as int);
        let ghost before_ends = kept_entries(
            all,
            ends@,
            entries,
            gone,
            replace,
            new_ends@,
            idx as int,
        );
        let (start, end) = block.entries[idx];
        assert(entries[idx as int] == (start as int, end as int));
        let own = find_own_end(lines, &block.entries[idx]);
        let removed = has_index(remove, idx);
        let replaced = is_index(replace_idx, idx);
        let from: usize = if removed || replaced {
            own
        } else {
            start
        };
        let ghost mut piece: Seq<Seq<char>> = all.subrange(from as int, end as int);
        let ghost mut piece_ends: Seq<LineEnd> = ends@.subrange(from as int, end as int);
        if !removed && replaced {
            extend_lines(&mut out, replacement, 0, replacement.len());
            extend_ends(&mut out_ends, &new_ends, 0, new_ends.len());
            proof {
                assert(fresh.subrange(0, fresh.len() as int) =~= fresh);
                assert(new_ends@.subrange(0, new_ends@.len() as int) =~= new_ends@);
                piece = fresh + piece;
                piece_ends = new_ends@ + piece_ends;
            }
        }
        extend_lines(&mut out, lines, from, end);
        extend_ends(&mut out_ends, &ends, from, end);
        proof {
            assert(before.push(piece).drop_last() =~= before);
            assert(before_ends.push(piece_ends).drop_last() =~= before_ends);
            assert(texts(out@) =~= head + (flat(before) + piece));
            assert(out_ends@ =~= head_ends + (flat(before_ends) + piece_ends));
        }
        idx += 1;
    }
    let ghost kept = flat(kept_entries(all, all, entries, gone, replace, fresh, n as int));
    let ghost kept_ends = flat(
        kept_entries(all, ends@, entries, gone, replace, new_ends@, n as int),
    );
    if append {
        extend_lines(&mut out, replacement, 0, replacement.len());
        extend_ends(&mut out_ends, &new_ends, 0, new_ends.len());
        assert(fresh.subrange(0, fresh.len() as int) =~= fresh);
        assert(new_ends@.subrange(0, new_ends@.len() as int) =~= new_ends@);
    }
    let ghost added = if append {
        fresh
    } else {
        Seq::empty()
    };
    let ghost added_ends = if append {
        new_ends@
    } else {
        Seq::empty()
    };
    assert(texts(out@) =~= head + kept + added);
    assert(out_ends@ =~= head_ends + kept_ends + added_ends);
    extend_lines(&mut out, lines, last_entry_end, lines.len());
    extend_ends(&mut out_ends, &ends, last_entry_end, lines.len());
    assert(texts(out@) =~= head + kept + added + all.skip(last_entry_end as int));
    assert(out_ends@ =~= head_ends + kept_ends + added_ends + ends@.skip(last_entry_end as int));
    rewrite(&out, &out_ends)
}

/// The blank and comment lines at the end of an entry are those left out.
pub proof fn lemma_own_end(lines: Seq<Seq<char>>, entry: (int, int))
    requires
        0 <= entry.0 <= entry.1 <= lines.len(),
    ensures
        entry.0 <= own_end(lines, entry) <= entry.1,
        forall|i: int| own_end(lines, entry) <= i < entry.1 ==> is_idle(#[trigger] lines[i]),
        own_end(lines, entry) > entry.0 ==> !is_idle(lines[own_end(lines, entry) - 1]),
    decreases entry.1 - entry.0,
{
    if entry.1 > entry.0 && is_idle(lines[entry.1 - 1]) {
        lemma_own_end(lines, (entry.0, entry.1 - 1));
    }
}

/// Whether an index is among others.
fn has_index(list: &[usize], idx: usize) -> (found: bool)
    ensures
        found == indices(list@).contains(idx as int),
{
    let mut i: usize = 0;
    while i < list.len()
        invariant
            i <= list@.len(),
            forall|k: int| 0 <= k < i ==> list@[k] != idx,
        decreases list@.len() - i,
    {
        if list[i] == idx {
            assert(indices(list@)[i as int] == idx);
            return true;
        }
        i += 1;
    }
    false
}

/// Whether an optional index is a given one.
fn is_index(chosen: Option<usize>, idx: usize) -> (same: bool)
    ensures
        same == (chosen_index(chosen) == Some(idx as int)),
{
    match chosen {
        Some(chosen) => chosen == idx,
        None => false,
    }
}

/// Whether the lines in `[start, end)` are those given.
fn same_lines(lines: &[String], start: usize, end: usize, other: &[String]) -> (same: bool)
    requires
        start <= end <= lines@.len(),
    ensures
        same == (texts(lines@).subrange(start as int, end as int) == texts(other@)),
{
    let ghost mine = texts(lines@).subrange(start as int, end as int);
    if end - start != other.len() {
        assert(mine.len() != texts(other@).len());
        return false;
    }
    let mut i: usize = 0;
    while i < other.len()
        invariant
            i <= other@.len() == end - start,
            end <= lines@.len(),
            mine == texts(lines@).subrange(start as int, end as int),
            forall|k: int| 0 <= k < i ==> #[trigger] mine[k] == texts(other@)[k],
        decreases other@.len() - i,
    {
        if !same_text(&lines[start + i], &other[i]) {
            assert(mine[i as int] != texts(other@)[i as int]);
            return false;
        }
        i += 1;
    }
    assert(mine =~= texts(other@));
    true
}

/// The entries of a block that run a git-ai checkpoint.
fn find_ours(lines: &[String], block: &HooksBlock) -> (ours: Vec<usize>)
    requires
        block_fits(block@, lines@.len()),
    ensures
        indices(ours@) == our_entries(
            texts(lines@),
            block@.entries,
            block@.entries.len() as int,
        ),
{
    let mut ours: Vec<usize> = Vec::new();
    let mut idx: usize = 0;
    assert(indices(ours@) =~= Seq::empty());
    while idx < block.entries.len()
        invariant
            idx <= block.entries@.len(),
            block_fits(block@, lines@.len()),
            indices(ours@) == our_entries(texts(lines@), block@.entries, idx as int),
        decreases block.entries@.len() - idx,
    {
        assert(block@.entries[idx as int] == (
            block.entries@[idx as int].0 as int,
            block.entries@[idx as int].1 as int,
        ));
        if entry_is_git_ai(lines, &block.entries[idx]) {
            let ghost before = ours@;
            ours.push(idx);
            assert(indices(ours@) =~= indices(before).push(idx as int));
        }
        idx += 1;
    }
    ours
}

/// The entries of a block that run a git-ai checkpoint, in file order.
pub open spec fn ours_in(lines: Seq<Seq<char>>, block: BlockModel) -> Seq<int> {
    our_entries(lines, block.entries, block.entries.len() as int)
}

/// A file with a fresh block of one entry after its content.
pub open spec fn with_fresh_block(existing: Seq<char>, cmd: Seq<char>) -> Seq<char> {
    let end = line_end(has_crlf(existing));
    existing + (if existing.len() > 0 && existing.last() != '\n' {
        seq!['\n']
    } else {
        Seq::empty()
    }) + joined(
        seq!["hooks:"@] + rendered_entry(cmd, DEFAULT_ENTRY_INDENT as nat),
        end,
    ) + end
}

/// The items of a file whose block has one git-ai entry: the first such entry
/// is replaced and the others dropped, or the entry is appended if there was
/// none.
pub open spec fn merged<T>(
    lines: Seq<Seq<char>>,
    items: Seq<T>,
    block: BlockModel,
    entry: Seq<T>,
) -> Seq<T> {
    let ours = ours_in(lines, block);
    if ours.len() == 0 {
        rebuilt(lines, items, block, Seq::empty(), None, entry, true)
    } else {
        rebuilt(lines, items, block, ours.skip(1), Some(ours[0]), entry, false)
    }
}

/// The lines of a file whose block has `cmd` as its only git-ai entry.
pub open spec fn merged_lines(lines: Seq<Seq<char>>, block: BlockModel, cmd: Seq<char>) -> Seq<
    Seq<char>,
> {
    merged(lines, lines, block, rendered_entry(cmd, block.indent))
}

/// Whether a block's only git-ai entry is the one that runs `cmd`, in
/// canonical form.
pub open spec fn is_canonical(lines: Seq<Seq<char>>, block: BlockModel, cmd: Seq<char>) -> bool {
    let ours = ours_in(lines, block);
    let entry = block.entries[ours[0]];
    ours.len() == 1 && lines.subrange(entry.0, own_end(lines, entry)) == rendered_entry(
        cmd,
        block.indent,
    )
}

/// What a file becomes when the hook that runs `cmd` is installed in it, or
/// `None` if it is there in canonical form.
pub open spec fn merged_text(existing: Seq<char>, cmd: Seq<char>) -> Result<
    Option<Seq<char>>,
    LayoutIssue,
> {
    let lines = split_text(existing);
    let crlf = returns_of(existing);
    match hooks_block(lines) {
        Err(issue) => Err(issue),
        Ok(None) => Ok(Some(with_fresh_block(existing, cmd))),
        Ok(Some(block)) => if is_canonical(lines, block, cmd) {
            Ok(None)
        } else {
            Ok(
                Some(
                    rewritten(
                        merged_lines(lines, block, cmd),
                        merged(
                            lines,
                            opened(lines, crlf),
                            block,
                            fresh_ends(rendered_entry(cmd, block.indent).len(), crlf),
                        ),
                    ),
                ),
            )
        },
    }
}

/// How an edit's outcome relates to what it should be.
pub open spec fn edit_done(
    outcome: Result<Option<String>, GitAiError>,
    expected: Result<Option<Seq<char>>, LayoutIssue>,
) -> bool {
    match expected {
        Ok(Some(text)) => outcome matches Ok(Some(content)) && content@ == text,
        Ok(None) => outcome matches Ok(None),
        Err(issue) => outcome matches Err(error) && reports(error, issue),
    }
}

/// Appends lines to a text, each with the given ending.
fn append_lines(out: &mut String, lines: &[String], crlf: bool)
    requires
        lines@.len() > 0,
    ensures
        final(out)@ == old(out)@ + joined(texts(lines@), line_end(crlf)) + line_end(crlf),
{
    let ghost start = out@;
    let ghost all = texts(lines@);
    let mut i: usize = 0;
    while i < lines.len()
        invariant
            i <= lines@.len(),
            all == texts(lines@),
            i == 0 ==> out@ == start,
            i > 0 ==> out@ == start + joined(all.take(i as int), line_end(crlf)) + line_end(crlf),
        decreases lines@.len() - i,
    {
        let ghost before = out@;
        out.append(&lines[i]);
        if crlf {
            out.push('\r');
        }
        out.push('\n');
        i += 1;
        proof {
            assert(all.take(i as int).drop_last() =~= all.take(i - 1));
            assert(all.take(i as int).last() == lines@[i - 1]@);
            assert(out@ =~= before + lines@[i - 1]@ + line_end(crlf));
            assert(out@ =~= start + joined(all.take(i as int), line_end(crlf)) + line_end(crlf));
        }
    }
    assert(all.take(i as int) =~= all);
}

/// Adds or updates our hook entry in trae_cli.yaml content.
///
/// Returns `Ok(None)` when the file already contains our entry in the
/// canonical form. All other content is preserved byte-for-byte.
pub fn merge_hooks_entry(existing: &str, desired_cmd: &str) -> (merged: Result<
    Option<String>,
    GitAiError,
>)
    ensures
        edit_done(merged, merged_text(existing@, desired_cmd@)),
{
    let (lines, ends) = split_lines(existing);
    let crlf = any_crlf(&ends);
    proof {
        lemma_uses_crlf(existing@);
        lemma_split_text(existing@);
        assert(texts(lines@).len() == lines@.len());
    }
    let block = match parse_hooks_block(&lines) {
        Err(error) => return Err(error),
        Ok(None) => {
            // No `hooks:` key yet: append a fresh block after the existing
            // content (preserving it and its trailing newline, if any).
            let mut new_content = existing.to_owned();
            let len = existing.unicode_len();
            if len > 0 && existing.get_char(len - 1) != '\n' {
                new_content.push('\n');
            }
            let ghost start = new_content@;
            let mut block_lines: Vec<String> = Vec::new();
            block_lines.push("hooks:".to_owned());
            let rendered = render_entry(desired_cmd, DEFAULT_ENTRY_INDENT);
            extend_lines(&mut block_lines, &rendered, 0, rendered.len());
            assert(texts(block_lines@) =~= seq!["hooks:"@] + rendered_entry(
                desired_cmd@,
                DEFAULT_ENTRY_INDENT as nat,
            ));
            append_lines(&mut new_content, &block_lines, crlf);
            assert(start =~= existing@ + (if existing@.len() > 0 && existing@.last() != '\n' {
                seq!['\n']
            } else {
                Seq::empty()
            }));
            return Ok(Some(new_content));
        },
        Ok(Some(block)) => block,
    };
    let ghost all = texts(lines@);
    proof {
        lemma_block_fits(all);
    }
    let desired_lines = render_entry(desired_cmd, block.entry_indent);
    let ours = find_ours(&lines, &block);
    proof {
        lemma_our_entries(all, block@.entries, block@.entries.len() as int);
    }
    // Already installed in canonical form: nothing to do.
    if ours.len() == 1 {
        assert(indices(ours@)[0] == ours@[0]);
        let (start, end) = block.entries[ours[0]];
        assert(block@.entries[ours@[0] as int] == (start as int, end as int));
        let own = find_own_end(&lines, &block.entries[ours[0]]);
        if same_lines(&lines, start, own, &desired_lines) {
            return Ok(None);
        }
    }
    // Replace the first git-ai entry with the canonical form and drop any
    // duplicates; append when the file has none yet.
    let mut remove: Vec<usize> = Vec::new();
    let mut i: usize = 1;
    while i < ours.len()
        invariant
            1 <= i,
            ours@.len() > 0 ==> i <= ours@.len() && remove@ == ours@.subrange(1, i as int),
            ours@.len() == 0 ==> remove@.len() == 0,
        decreases ours@.len() - i,
    {
        remove.push(ours[i]);
        i += 1;
    }
    let replace_idx = if ours.len() > 0 {
        assert(indices(ours@)[0] == ours@[0]);
        Some(ours[0])
    } else {
        None
    };
    proof {
        if ours@.len() > 0 {
            assert(indices(remove@) =~= indices(ours@).skip(1));
        } else {
            assert(indices(remove@) =~= Seq::empty());
        }
    }
    Ok(
        Some(
            rebuild_file(
                &lines,
                &ends,
                &block,
                &remove,
                replace_idx,
                &desired_lines,
                ours.len() == 0,
            ),
        ),
    )
}

/// The git-ai entries are found in ascending order, and all of them are.
pub proof fn lemma_our_entries(lines: Seq<Seq<char>>, entries: Seq<(int, int)>, n: int)
    requires
        0 <= n <= entries.len(),
    ensures
        ({
            let ours = our_entries(lines, entries, n);
            &&& forall|i: int|
                0 <= i < ours.len() ==> 0 <= #[trigger] ours[i] < n && is_ours(
                    entry_lines(lines, entries[ours[i]]),
                )
            &&& forall|i: int, j: int|
                0 <= i < j < ours.len() ==> #[trigger] ours[i] < #[trigger] ours[j]
            &&& forall|j: int|
                0 <= j < n && is_ours(entry_lines(lines, #[trigger] entries[j])) ==> ours.contains(
                    j,
                )
        }),
    decreases n,
{
    if n > 0 {
        let before = our_entries(lines, entries, n - 1);
        let ours = our_entries(lines, entries, n);
        lemma_our_entries(lines, entries, n - 1);
        assert forall|j: int| 0 <= j < n && is_ours(
            entry_lines(lines, #[trigger] entries[j]),
        ) implies ours.contains(j) by {
            if j < n - 1 {
                let i = choose|i: int| 0 <= i < before.len() && before[i] == j;
                assert(ours[i] == j);
            } else {
                assert(ours.last() == j);
            }
        }
    }
}

/// Whether a line belongs to one of the given entries.
pub open spec fn in_entries(
    lines: Seq<Seq<char>>,
    entries: Seq<(int, int)>,
    chosen: Seq<int>,
    i: int,
) -> bool {
    exists|k: int|
        0 <= k < chosen.len() && entries[#[trigger] chosen[k]].0 <= i < own_end(
            lines,
            entries[chosen[k]],
        )
}

/// Whether a block holds anything but the given entries and blank lines.
pub open spec fn has_remaining_content(
    lines: Seq<Seq<char>>,
    block: BlockModel,
    chosen: Seq<int>,
) -> bool {
    exists|i: int|
        block.key < i < block.end && !is_blank(#[trigger] lines[i]) && !in_entries(
            lines,
            block.entries,
            chosen,
            i,
        )
}

/// The items of a file without the git-ai entries of its block, and without
/// the block if nothing else is in it.
pub open spec fn stripped<T>(lines: Seq<Seq<char>>, items: Seq<T>, block: BlockModel) -> Seq<T> {
    let ours = ours_in(lines, block);
    if has_remaining_content(lines, block, ours) {
        rebuilt(lines, items, block, ours, None, Seq::empty(), false)
    } else {
        items.take(block.key) + items.skip(entries_end(block))
    }
}

/// What a file becomes when the git-ai hooks are removed from it, or `None`
/// if it has none.
pub open spec fn stripped_text(existing: Seq<char>) -> Result<Option<Seq<char>>, LayoutIssue> {
    let lines = split_text(existing);
    let crlf = returns_of(existing);
    match hooks_block(lines) {
        Err(issue) => Err(issue),
        Ok(None) => Ok(None),
        Ok(Some(block)) => if ours_in(lines, block).len() == 0 {
            Ok(None)
        } else {
            Ok(
                Some(
                    rewritten(
                        stripped(lines, lines, block),
                        stripped(lines, opened(lines, crlf), block),
                    ),
                ),
            )
        },
    }
}

/// Whether a line belongs to one of the given entries.
fn inside_entries(lines: &[String], block: &HooksBlock, chosen: &[usize], i: usize) -> (inside:
    bool)
    requires
        block_fits(block@, lines@.len()),
        forall|k: int| 0 <= k < chosen@.len() ==> #[trigger] chosen@[k] < block.entries@.len(),
    ensures
        inside == in_entries(texts(lines@), block@.entries, indices(chosen@), i as int),
{
    let ghost all = texts(lines@);
    let ghost entries = block@.entries;
    let ghost picked = indices(chosen@);
    let mut k: usize = 0;
    while k < chosen.len()
        invariant
            k <= chosen@.len(),
            all == texts(lines@),
            entries == block@.entries,
            picked == indices(chosen@),
            block_fits(block@, lines@.len()),
            forall|k: int| 0 <= k < chosen@.len() ==> #[trigger] chosen@[k] < block.entries@.len(),
            forall|m: int|
                0 <= m < k ==> !(entries[#[trigger] picked[m]].0 <= i < own_end(
                    all,
                    entries[picked[m]],
                )),
        decreases chosen@.len() - k,
    {
        let entry = block.entries[chosen[k]];
        assert(picked[k as int] == chosen@[k as int]);
        assert(entries[picked[k as int]] == (entry.0 as int, entry.1 as int));
        if entry.0 <= i && i < find_own_end(lines, &entry) {
            return true;
        }
        k += 1;
    }
    false
}

/// Whether a block holds anything but the given entries and blank lines.
fn content_remains(lines: &[String], block: &HooksBlock, chosen: &[usize]) -> (remains: bool)
    requires
        block_fits(block@, lines@.len()),
        forall|k: int| 0 <= k < chosen@.len() ==> #[trigger] chosen@[k] < block.entries@.len(),
    ensures
        remains == has_remaining_content(texts(lines@), block@, indices(chosen@)),
{
    let ghost all = texts(lines@);
    if block.key_idx >= block.end_idx {
        return false;
    }
    let mut i: usize = block.key_idx + 1;
    while i < block.end_idx
        invariant
            block.key_idx < i <= block.end_idx <= lines@.len(),
            all == texts(lines@),
            block_fits(block@, lines@.len()),
            forall|k: int| 0 <= k < chosen@.len() ==> #[trigger] chosen@[k] < block.entries@.len(),
            forall|j: int|
                block.key_idx < j < i ==> is_blank(#[trigger] all[j]) || in_entries(
                    all,
                    block@.entries,
                    indices(chosen@),
                    j,
                ),
        decreases block.end_idx - i,
    {
        assert(all[i as int] == lines@[i as int]@);
        if !blank(&lines[i]) && !inside_entries(lines, block, chosen, i) {
            return true;
        }
        i += 1;
    }
    false
}

/// Removes our hook entries from trae_cli.yaml content.
///
/// Returns `Ok(None)` when nothing needs removing. When the block holds
/// no other content afterwards, the `hooks:` key is removed too.
pub fn remove_hooks_entries(existing: &str) -> (stripped: Result<Option<String>, GitAiError>)
    ensures
        edit_done(stripped, stripped_text(existing@)),
{
    let (lines, crlf) = split_lines(existing);
    proof {
        lemma_split_text(existing@);
        assert(texts(lines@).len() == lines@.len());
    }
    let block = match parse_hooks_block(&lines) {
        Err(error) => return Err(error),
        Ok(None) => return Ok(None),
        Ok(Some(block)) => block,
    };
    let ghost all = texts(lines@);
    proof {
        lemma_block_fits(all);
    }
    let ours = find_ours(&lines, &block);
    if ours.len() == 0 {
        return Ok(None);
    }
    proof {
        lemma_our_entries(all, block@.entries, block@.entries.len() as int);
        assert forall|k: int| 0 <= k < ours@.len() implies #[trigger] ours@[k]
            < block.entries@.len() by {
            assert(indices(ours@)[k] == ours@[k]);
        }
        assert(ours@[0] < block.entries@.len());
    }
    if !content_remains(&lines, &block, &ours) {
        // Drop the `hooks:` key along with the emptied block, but keep the
        // blank lines that separated it from the following content.
        let last = block.entries.len() - 1;
        assert(block@.entries[last as int].1 == block.entries@[last as int].1);
        let last_entry_end = block.entries[last].1;
        let ends = open_ends(&lines, &crlf);
        let mut out: Vec<String> = Vec::new();
        let mut out_ends: Vec<LineEnd> = Vec::new();
        extend_lines(&mut out, &lines, 0, block.key_idx);
        extend_lines(&mut out, &lines, last_entry_end, lines.len());
        extend_ends(&mut out_ends, &ends, 0, block.key_idx);
        extend_ends(&mut out_ends, &ends, last_entry_end, lines.len());
        assert(texts(out@) =~= all.take(block.key_idx as int) + all.skip(last_entry_end as int));
        assert(out_ends@ =~= ends@.take(block.key_idx as int) + ends@.skip(last_entry_end as int));
        return Ok(Some(rewrite(&out, &out_ends)));
    }
    let none: Vec<String> = Vec::new();
    assert(texts(none@) =~= Seq::empty());
    assert(fresh_ends(0, crlf@) =~= Seq::empty());
    Ok(Some(rebuild_file(&lines, &crlf, &block, &ours, None, &none, false)))
}

/// Hook installer for TRAE CLI (`trae-cli`).
///
/// TraeCLI reads hooks from a YAML config: a top-level `hooks:` list in
/// `~/.trae/trae_cli.yaml` whose entries are maps with
/// `type`/`command`/`timeout`/`matchers` keys. The stdin payloads are handled
/// by the shared `trae` preset, so the installed command reuses
/// `checkpoint trae`.
///
/// The config is edited line-by-line rather than through a YAML serializer:
/// real trae_cli.yaml files are small flat maps, and surgical line editing
/// preserves user formatting and comments. Unsupported layouts (flow-style
/// `hooks: []`, a nested `hooks:` key) fail closed with an error instead of
/// risking file corruption.
pub struct TraeCliInstaller;

/// What an installer is to do with a configuration file: nothing, a change,
/// or an error to report.
pub open spec fn edit_planned(
    plan: Result<Option<ConfigEdit>, GitAiError>,
    before: Seq<char>,
    expected: Result<Option<Seq<char>>, LayoutIssue>,
    dry_run: bool,
) -> bool {
    match expected {
        Ok(Some(text)) => plan matches Ok(Some(edit)) && edit.before@ == before && edit.after@
            == text && edit.write == !dry_run,
        Ok(None) => plan matches Ok(None),
        Err(issue) => plan matches Err(error) && reports(error, issue),
    }
}

/// The command that a hook of the TRAE CLI runs.
pub open spec fn trae_cli_command(binary_path: Seq<char>) -> Seq<char> {
    binary_path + " "@ + "checkpoint trae --hook-input stdin"@
}

/// Whether a git-ai entry of a block runs `cmd`.
pub open spec fn is_up_to_date(lines: Seq<Seq<char>>, block: BlockModel, cmd: Seq<char>) -> bool {
    exists|j: int|
        0 <= j < block.entries.len() && is_ours(entry_lines(lines, #[trigger] block.entries[j]))
            && unquoted(command_in(entry_lines(lines, block.entries[j]))->0) == cmd
}

/// Whether a block has a git-ai entry.
pub open spec fn is_installed(lines: Seq<Seq<char>>, block: BlockModel) -> bool {
    exists|j: int|
        0 <= j < block.entries.len() && is_ours(entry_lines(lines, #[trigger] block.entries[j]))
}

/// What a check tells of the hooks that run `cmd`, for a machine on which the
/// program is installed or not, and a configuration file that holds `text`.
pub open spec fn checked_as(
    checked: Result<HookCheckResult, GitAiError>,
    tool_installed: bool,
    text: Seq<char>,
    cmd: Seq<char>,
) -> bool {
    let lines = split_text(text);
    if !tool_installed {
        checked == Ok::<HookCheckResult, GitAiError>(
            HookCheckResult {
                tool_installed: false,
                hooks_installed: false,
                hooks_up_to_date: false,
            },
        )
    } else {
        match hooks_block(lines) {
            Err(issue) => checked matches Err(error) && reports(error, issue),
            Ok(None) => checked == Ok::<HookCheckResult, GitAiError>(
                HookCheckResult {
                    tool_installed: true,
                    hooks_installed: false,
                    hooks_up_to_date: false,
                },
            ),
            Ok(Some(block)) => checked == Ok::<HookCheckResult, GitAiError>(
                HookCheckResult {
                    tool_installed: true,
                    hooks_installed: is_installed(lines, block),
                    hooks_up_to_date: is_up_to_date(lines, block, cmd),
                },
            ),
        }
    }
}

impl TraeCliInstaller {
    /// TraeCLI reads user-level hooks from `~/.trae/trae_cli.yaml`
    /// (project-level `.trae/trae_cli.yaml` overrides it, but machine-wide
    /// installs target the user config).
    pub fn config_path(home_dir: &str) -> (path: String)
        ensures
            path@ == path_joined(path_joined(home_dir@, ".trae"@), "trae_cli.yaml"@),
    {
        join_path(&join_path(home_dir, ".trae"), "trae_cli.yaml")
    }

    /// The command of the hook, for a git-ai program at `binary_path`, which
    /// is written as the shell expects it.
    pub fn desired_command(binary_path: &str) -> (cmd: String)
        ensures
            cmd@ == trae_cli_command(binary_path@),
    {
        let mut cmd = binary_path.to_owned();
        cmd.append(" ");
        cmd.append("checkpoint trae --hook-input stdin");
        cmd
    }

    /// Installs hooks into a trae_cli.yaml file: the change to make, if any.
    pub fn install_hooks_at(existing: Option<&str>, desired_cmd: &str, dry_run: bool) -> (plan:
        Result<Option<ConfigEdit>, GitAiError>)
        ensures
            edit_planned(
                plan,
                file_text(existing),
                merged_text(file_text(existing), desired_cmd@),
                dry_run,
            ),
    {
        let before = text_or_empty(existing);
        match merge_hooks_entry(&before, desired_cmd) {
            Err(error) => Err(error),
            Ok(None) => Ok(None),
            Ok(Some(after)) => Ok(Some(ConfigEdit { before, after, write: !dry_run })),
        }
    }

    /// Removes hooks from a trae_cli.yaml file: the change to make, if any.
    /// There is nothing to remove from a file that is missing.
    pub fn uninstall_hooks_at(existing: Option<&str>, dry_run: bool) -> (plan: Result<
        Option<ConfigEdit>,
        GitAiError,
    >)
        ensures
            existing is None ==> plan matches Ok(None),
            existing matches Some(text) ==> edit_planned(
                plan,
                text@,
                stripped_text(text@),
                dry_run,
            ),
    {
        let before = match existing {
            Some(text) => text.to_owned(),
            None => return Ok(None),
        };
        match remove_hooks_entries(&before) {
            Err(error) => Err(error),
            Ok(None) => Ok(None),
            Ok(Some(after)) => Ok(Some(ConfigEdit { before, after, write: !dry_run })),
        }
    }

    pub fn name(&self) -> (name: &'static str)
        ensures
            name@ == "TRAE CLI"@,
    {
        "TRAE CLI"
    }

    pub fn id(&self) -> (id: &'static str)
        ensures
            id@ == "trae-cli"@,
    {
        "trae-cli"
    }

    pub fn process_names(&self) -> (names: Vec<&'static str>)
        ensures
            names@ == seq!["trae-cli"],
    {
        vec!["trae-cli"]
    }

    /// Tells whether the hooks are installed, for a machine on which the
    /// program is installed or not, and a configuration file that is there or
    /// not.
    pub fn check_hooks(
        &self,
        tool_installed: bool,
        existing: Option<&str>,
        binary_path: &str,
    ) -> (checked: Result<HookCheckResult, GitAiError>)
        ensures
            checked_as(
                checked,
                tool_installed,
                file_text(existing),
                trae_cli_command(binary_path@),
            ),
    {
        if !tool_installed {
            return Ok(
                HookCheckResult {
                    tool_installed: false,
                    hooks_installed: false,
                    hooks_up_to_date: false,
                },
            );
        }
        let content = text_or_empty(existing);
        let (lines, _) = split_lines(&content);
        let block = match parse_hooks_block(&lines) {
            Err(error) => return Err(error),
            Ok(None) => return Ok(
                HookCheckResult {
                    tool_installed: true,
                    hooks_installed: false,
                    hooks_up_to_date: false,
                },
            ),
            Ok(Some(block)) => block,
        };
        let ghost all = texts(lines@);
        proof {
            lemma_block_fits(all);
        }
        let ghost entries = block@.entries;
        let desired_cmd = Self::desired_command(binary_path);
        let mut any_installed: bool = false;
        let mut up_to_date: bool = false;
        let mut j: usize = 0;
        while j < block.entries.len()
            invariant
                j <= block.entries@.len() == entries.len(),
                block_fits(block@, lines@.len()),
                all == texts(lines@),
                entries == block@.entries,
                any_installed == exists|i: int|
                    0 <= i < j && is_ours(entry_lines(all, #[trigger] entries[i])),
                up_to_date == exists|i: int|
                    0 <= i < j && is_ours(entry_lines(all, #[trigger] entries[i])) && unquoted(
                        command_in(entry_lines(all, entries[i]))->0,
                    ) == desired_cmd@,
            decreases block.entries@.len() - j,
        {
            let entry = block.entries[j];
            assert(entries[j as int] == (entry.0 as int, entry.1 as int));
            if let Some(raw) = entry_command_raw(&lines, &entry) {
                if is_git_ai_checkpoint_command(&raw) {
                    any_installed = true;
                    if same_text(unquote_yaml_value(&raw), &desired_cmd) {
                        up_to_date = true;
                    }
                }
            }
            j += 1;
        }
        Ok(
            HookCheckResult {
                tool_installed: true,
                hooks_installed: any_installed,
                hooks_up_to_date: up_to_date,
            },
        )
    }

    /// Installs the hooks for a git-ai program at `binary_path`: the change
    /// to make, if any.
    pub fn install_hooks(&self, existing: Option<&str>, binary_path: &str, dry_run: bool) -> (plan:
        Result<Option<ConfigEdit>, GitAiError>)
        ensures
            edit_planned(
                plan,
                file_text(existing),
                merged_text(file_text(existing), trae_cli_command(binary_path@)),
                dry_run,
            ),
    {
        let desired_cmd = Self::desired_command(binary_path);
        Self::install_hooks_at(existing, &desired_cmd, dry_run)
    }

    /// Removes the hooks: the change to make, if any.
    pub fn uninstall_hooks(&self, existing: Option<&str>, dry_run: bool) -> (plan: Result<
        Option<ConfigEdit>,
        GitAiError,
    >)
        ensures
            existing is None ==> plan matches Ok(None),
            existing matches Some(text) ==> edit_planned(
                plan,
                text@,
                stripped_text(text@),
                dry_run,
            ),
    {
        Self::uninstall_hooks_at(existing, dry_run)
    }
}

} // verus!
