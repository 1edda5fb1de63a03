//! What installing and removing the TRAE CLI hooks promises as a whole.
use crate::block_shape::{
    lemma_compose, lemma_flat_push, lemma_no_key, lemma_quiet_lines, quiet, FileParts,
};
use crate::entry_edits::{
    is_recognised, lemma_emptied_block, lemma_entries, lemma_merged_block, lemma_quotes_kept,
    lemma_rendered, lemma_single_ours, lemma_stripped_block, lemma_unquoted,
};
use crate::error::GitAiError;
use crate::hooks_block::{
    block_fits, entries_end, entries_start, hooks_block, lemma_blank_line, lemma_block_fits,
    BlockModel, LayoutIssue, DEFAULT_ENTRY_INDENT,
};
use crate::installer::{ConfigEdit, HookCheckResult};
use crate::lines::{
    ended, ends_in_return, has_crlf, joined, law_split_undoes_join, lemma_pieces_of_joined,
    lemma_split_concat, lemma_split_text, line_end, one_line, returns_of, split_text,
    without_return,
};
use crate::text::{lemma_trimmed_start, trimmed_start};
use crate::trae_cli::{
    checked_as, closed, edit_planned, entry_lines, flat, fresh_ends, has_remaining_content,
    is_canonical, is_installed, is_ours, is_up_to_date, kept_entries, lemma_our_entries,
    lemma_own_end, merged, merged_lines, merged_text, opened, ours_in, own_end, rebuilt,
    rendered_entry, rewritten, stripped, stripped_text, with_fresh_block,
    LineEnd,
};
use vstd::prelude::*;

verus! {

/// Whether a line with a given ending is read again as it is written.
pub open spec fn is_readable(line: Seq<char>, end: LineEnd) -> bool {
    one_line(line) && (ends_in_return(line) ==> end.inside && end.last)
}

/// Whether lines with given endings are read again as they are written.
pub open spec fn are_readable(lines: Seq<Seq<char>>, ends: Seq<LineEnd>) -> bool {
    &&& lines.len() == ends.len()
    &&& forall|i: int| 0 <= i < lines.len() ==> is_readable(#[trigger] lines[i], ends[i])
}

/// Readable lines one after the other are readable.
proof fn lemma_readable_concat(
    a: Seq<Seq<char>>,
    a_ends: Seq<LineEnd>,
    b: Seq<Seq<char>>,
    b_ends: Seq<LineEnd>,
)
    requires
        are_readable(a, a_ends),
        are_readable(b, b_ends),
    ensures
        are_readable(a + b, a_ends + b_ends),
{
    let all = a + b;
    let ends = a_ends + b_ends;
    assert forall|i: int| 0 <= i < all.len() implies is_readable(#[trigger] all[i], ends[i]) by {
        if i < a.len() {
            assert(all[i] == a[i]);
        } else {
            assert(all[i] == b[i - a.len()]);
        }
    }
}

/// A stretch of readable lines is readable.
proof fn lemma_readable_part(lines: Seq<Seq<char>>, crlf: Seq<LineEnd>, from: int, to: int)
    requires
        are_readable(lines, crlf),
        0 <= from <= to <= lines.len(),
    ensures
        are_readable(lines.subrange(from, to), crlf.subrange(from, to)),
{
    let part = lines.subrange(from, to);
    assert forall|i: int| 0 <= i < part.len() implies is_readable(
        #[trigger] part[i],
        crlf.subrange(from, to)[i],
    ) by {
        assert(part[i] == lines[from + i]);
    }
}

/// What is left of readable entries is readable.
proof fn lemma_readable_kept(
    lines: Seq<Seq<char>>,
    crlf: Seq<LineEnd>,
    entries: Seq<(int, int)>,
    remove: Seq<int>,
    replace: Option<int>,
    fresh: Seq<Seq<char>>,
    ends: Seq<LineEnd>,
    n: int,
)
    requires
        are_readable(lines, crlf),
        are_readable(fresh, ends),
        0 <= n <= entries.len(),
        forall|j: int|
            0 <= j < entries.len() ==> 0 <= (#[trigger] entries[j]).0 <= entries[j].1
                <= lines.len(),
    ensures
        are_readable(
            flat(kept_entries(lines, lines, entries, remove, replace, fresh, n)),
            flat(kept_entries(lines, crlf, entries, remove, replace, ends, n)),
        ),
    decreases n,
{
    if n > 0 {
        lemma_readable_kept(lines, crlf, entries, remove, replace, fresh, ends, n - 1);
        let a = kept_entries(lines, lines, entries, remove, replace, fresh, n - 1);
        let b = kept_entries(lines, crlf, entries, remove, replace, ends, n - 1);
        let range = entries[n - 1];
        let own = own_end(lines, range);
        assert(0 <= range.0 <= range.1 <= lines.len());
        lemma_own_end(lines, range);
        lemma_readable_part(lines, crlf, own, range.1);
        lemma_readable_part(lines, crlf, range.0, range.1);
        let after = lines.subrange(own, range.1);
        let after_ends = crlf.subrange(own, range.1);
        lemma_readable_concat(fresh, ends, after, after_ends);
        let (x, y) = if remove.contains(n - 1) {
            (after, after_ends)
        } else if replace == Some(n - 1) {
            (fresh + after, ends + after_ends)
        } else {
            (entry_lines(lines, range), entry_lines(crlf, range))
        };
        lemma_flat_push(a, x);
        lemma_flat_push(b, y);
        lemma_readable_concat(flat(a), flat(b), x, y);
    }
}

/// A file whose block is rewritten is readable if it was, and what is put into
/// it is.
proof fn lemma_readable_rebuilt(
    lines: Seq<Seq<char>>,
    crlf: Seq<LineEnd>,
    block: BlockModel,
    remove: Seq<int>,
    replace: Option<int>,
    fresh: Seq<Seq<char>>,
    ends: Seq<LineEnd>,
    append: bool,
)
    requires
        are_readable(lines, crlf),
        are_readable(fresh, ends),
        block_fits(block, lines.len()),
    ensures
        are_readable(
            rebuilt(lines, lines, block, remove, replace, fresh, append),
            rebuilt(lines, crlf, block, remove, replace, ends, append),
        ),
{
    let n = block.entries.len() as int;
    let s = entries_start(block);
    let e = entries_end(block);
    let kept = flat(kept_entries(lines, lines, block.entries, remove, replace, fresh, n));
    let kept_ends = flat(kept_entries(lines, crlf, block.entries, remove, replace, ends, n));
    let (added, added_ends) = if append {
        (fresh, ends)
    } else {
        (Seq::empty(), Seq::empty())
    };
    lemma_readable_kept(lines, crlf, block.entries, remove, replace, fresh, ends, n);
    lemma_readable_part(lines, crlf, 0, s);
    lemma_readable_part(lines, crlf, e, lines.len() as int);
    assert(lines.subrange(0, s) =~= lines.take(s));
    assert(crlf.subrange(0, s) =~= crlf.take(s));
    assert(lines.subrange(e, lines.len() as int) =~= lines.skip(e));
    assert(crlf.subrange(e, lines.len() as int) =~= crlf.skip(e));
    lemma_readable_concat(lines.take(s), crlf.take(s), kept, kept_ends);
    lemma_readable_concat(lines.take(s) + kept, crlf.take(s) + kept_ends, added, added_ends);
    lemma_readable_concat(
        lines.take(s) + kept + added,
        crlf.take(s) + kept_ends + added_ends,
        lines.skip(e),
        crlf.skip(e),
    );
}

/// The lines of a file are readable wherever they come to stand.
proof fn lemma_readable_file(existing: Seq<char>)
    ensures
        are_readable(split_text(existing), opened(split_text(existing), returns_of(existing))),
{
    let lines = split_text(existing);
    let crlf = returns_of(existing);
    lemma_split_text(existing);
    assert forall|i: int| 0 <= i < lines.len() implies is_readable(
        #[trigger] lines[i],
        opened(lines, crlf)[i],
    ) by {
        assert(one_line(lines[i]));
    }
}

/// Readable lines are read again as they were written.
proof fn lemma_rewritten(lines: Seq<Seq<char>>, ends: Seq<LineEnd>)
    requires
        are_readable(lines, ends),
        lines.len() > 0,
    ensures
        split_text(rewritten(lines, ends)) == lines,
        returns_of(rewritten(lines, ends)) == closed(ends),
{
    let crlf = closed(ends);
    assert forall|i: int| 0 <= i < lines.len() implies one_line(#[trigger] lines[i]) && (crlf[i]
        || !ends_in_return(lines[i])) by {
        assert(is_readable(lines[i], ends[i]));
    }
    law_split_undoes_join(lines, crlf);
}

/// The endings that an installation gives to the lines of a file.
pub open spec fn merged_ends(existing: Seq<char>, block: BlockModel, cmd: Seq<char>) -> Seq<
    LineEnd,
> {
    let crlf = returns_of(existing);
    merged(
        split_text(existing),
        opened(split_text(existing), crlf),
        block,
        fresh_ends(rendered_entry(cmd, block.indent).len(), crlf),
    )
}

/// What a file reads as after an installation: its lines are those that were
/// written.
pub proof fn lemma_merged_read(existing: Seq<char>, block: BlockModel, cmd: Seq<char>)
    requires
        hooks_block(split_text(existing)) == Ok::<Option<BlockModel>, LayoutIssue>(Some(block)),
        one_line(cmd),
    ensures
        ({
            let now = merged_lines(split_text(existing), block, cmd);
            let ends = merged_ends(existing, block, cmd);
            let text = rewritten(now, ends);
            &&& now.len() == ends.len() > 0
            &&& split_text(text) == now
            &&& returns_of(text) == closed(ends)
        }),
{
    let lines = split_text(existing);
    let crlf = returns_of(existing);
    let ours = ours_in(lines, block);
    let entry = rendered_entry(cmd, block.indent);
    let ends = fresh_ends(entry.len(), crlf);
    lemma_split_text(existing);
    lemma_entries(lines, block);
    lemma_rendered(cmd, block.indent);
    lemma_readable_file(existing);
    assert forall|i: int| 0 <= i < entry.len() implies is_readable(#[trigger] entry[i], ends[i]) by {
        assert(one_line(entry[i]));
    }
    if ours.len() == 0 {
        lemma_readable_rebuilt(
            lines,
            opened(lines, crlf),
            block,
            Seq::empty(),
            None,
            entry,
            ends,
            true,
        );
    } else {
        lemma_readable_rebuilt(
            lines,
            opened(lines, crlf),
            block,
            ours.skip(1),
            Some(ours[0]),
            entry,
            ends,
            false,
        );
    }
    lemma_rewritten(merged_lines(lines, block, cmd), merged_ends(existing, block, cmd));
}

/// What a file reads as after a removal: its lines are those that were
/// written, or one empty line if there were none.
pub proof fn lemma_stripped_read(existing: Seq<char>, block: BlockModel)
    requires
        hooks_block(split_text(existing)) == Ok::<Option<BlockModel>, LayoutIssue>(Some(block)),
    ensures
        ({
            let lines = split_text(existing);
            let crlf = returns_of(existing);
            let left = stripped(lines, lines, block);
            let ends = stripped(lines, opened(lines, crlf), block);
            let text = rewritten(left, ends);
            &&& left.len() == ends.len()
            &&& left.len() > 0 ==> split_text(text) == left && returns_of(text) == closed(ends)
            &&& left.len() == 0 ==> text == Seq::<char>::empty()
        }),
{
    let lines = split_text(existing);
    let crlf = returns_of(existing);
    let open = opened(lines, crlf);
    let ours = ours_in(lines, block);
    let left = stripped(lines, lines, block);
    let ends = stripped(lines, open, block);
    lemma_split_text(existing);
    lemma_entries(lines, block);
    lemma_readable_file(existing);
    if has_remaining_content(lines, block, ours) {
        lemma_readable_rebuilt(
            lines,
            open,
            block,
            ours,
            None,
            Seq::empty(),
            Seq::empty(),
            false,
        );
    } else {
        let e = entries_end(block);
        lemma_readable_part(lines, open, 0, block.key);
        lemma_readable_part(lines, open, e, lines.len() as int);
        assert(lines.subrange(0, block.key) =~= lines.take(block.key));
        assert(open.subrange(0, block.key) =~= open.take(block.key));
        assert(lines.subrange(e, lines.len() as int) =~= lines.skip(e));
        assert(open.subrange(e, lines.len() as int) =~= open.skip(e));
        lemma_readable_concat(
            lines.take(block.key),
            open.take(block.key),
            lines.skip(e),
            open.skip(e),
        );
    }
    if left.len() > 0 {
        lemma_rewritten(left, ends);
    } else {
        assert(ended(left, closed(ends)) =~= Seq::empty());
    }
}

/// The lines of a file before a fresh block that is put at its end.
pub open spec fn lines_before(existing: Seq<char>) -> Seq<Seq<char>> {
    if existing.len() == 0 {
        Seq::empty()
    } else if existing.last() == '\n' {
        split_text(existing).drop_last()
    } else {
        split_text(existing)
    }
}

/// The parts of a file with a fresh block at its end.
pub open spec fn fresh_parts(existing: Seq<char>, cmd: Seq<char>) -> FileParts {
    FileParts {
        head: lines_before(existing).push("hooks:"@),
        preamble: Seq::empty(),
        entries: seq![rendered_entry(cmd, DEFAULT_ENTRY_INDENT as nat)],
        tail: seq![Seq::empty()],
        rest: Seq::empty(),
    }
}

/// The lines of a fresh block, and an empty one.
pub open spec fn fresh_block_lines(cmd: Seq<char>) -> Seq<Seq<char>> {
    (seq!["hooks:"@] + rendered_entry(cmd, DEFAULT_ENTRY_INDENT as nat)).push(Seq::empty())
}

/// The lines of a fresh block are read as they were written.
pub proof fn lemma_fresh_lines(cmd: Seq<char>, crlf: bool)
    requires
        one_line(cmd),
    ensures
        ({
            let lines = fresh_block_lines(cmd);
            &&& lines.len() == 8
            &&& joined(lines, line_end(crlf)) == joined(
                seq!["hooks:"@] + rendered_entry(cmd, DEFAULT_ENTRY_INDENT as nat),
                line_end(crlf),
            ) + line_end(crlf)
            &&& split_text(joined(lines, line_end(crlf))) == lines
            &&& !returns_of(joined(lines, line_end(crlf))).last()
        }),
{
    let lines = fresh_block_lines(cmd);
    let entry = rendered_entry(cmd, DEFAULT_ENTRY_INDENT as nat);
    let block = seq!["hooks:"@] + entry;
    let text = joined(lines, line_end(crlf));
    reveal_strlit("hooks:");
    lemma_rendered(cmd, DEFAULT_ENTRY_INDENT as nat);
    assert(lines.drop_last() =~= block);
    assert forall|i: int| 0 <= i < lines.len() implies one_line(#[trigger] lines[i])
        && !ends_in_return(lines[i]) by {
        if 1 <= i < 7 {
            assert(lines[i] == entry[i - 1]);
        }
    }
    assert(text =~= joined(block, line_end(crlf)) + line_end(crlf));
    lemma_pieces_of_joined(lines, crlf);
    assert forall|i: int| 0 <= i < lines.len() implies without_return(
        #[trigger] lines[i].push('\r'),
    ) == lines[i] by {
        assert(lines[i].push('\r').drop_last() =~= lines[i]);
    }
    assert(split_text(text) =~= lines);
}

/// The lines of a file with a fresh block at its end.
pub proof fn lemma_fresh_split(existing: Seq<char>, cmd: Seq<char>)
    requires
        one_line(cmd),
    ensures
        split_text(with_fresh_block(existing, cmd)) == lines_before(existing) + fresh_block_lines(
            cmd,
        ),
{
    let crlf = has_crlf(existing);
    let text = joined(fresh_block_lines(cmd), line_end(crlf));
    lemma_fresh_lines(cmd, crlf);
    let all = with_fresh_block(existing, cmd);
    if existing.len() == 0 {
        assert(all =~= text);
        assert(lines_before(existing) + fresh_block_lines(cmd) =~= fresh_block_lines(cmd));
    } else if existing.last() == '\n' {
        let a = existing.drop_last();
        assert(existing =~= a.push('\n'));
        assert(all =~= a.push('\n') + text);
        lemma_split_concat(a, text);
        assert(split_text(existing).drop_last() =~= split_text(a));
    } else {
        assert(all =~= existing.push('\n') + text);
        lemma_split_concat(existing, text);
    }
}

/// A fresh block is found again, with the entry in canonical form.
pub proof fn lemma_fresh_block(existing: Seq<char>, cmd: Seq<char>)
    requires
        hooks_block(split_text(existing)) == Ok::<Option<BlockModel>, LayoutIssue>(None),
        is_recognised(cmd),
        one_line(cmd),
    ensures
        ({
            let lines = split_text(with_fresh_block(existing, cmd));
            let parts = fresh_parts(existing, cmd);
            let block = parts.block(DEFAULT_ENTRY_INDENT as nat);
            &&& parts.whole() == lines
            &&& parts.is_shaped(DEFAULT_ENTRY_INDENT as nat)
            &&& hooks_block(lines) == Ok::<Option<BlockModel>, LayoutIssue>(Some(block))
            &&& ours_in(lines, block) == seq![0int]
            &&& own_end(lines, block.entries[0]) == block.entries[0].1
            &&& is_canonical(lines, block, cmd)
        }),
{
    let indent = DEFAULT_ENTRY_INDENT as nat;
    let entry = rendered_entry(cmd, indent);
    let parts = fresh_parts(existing, cmd);
    let lines = split_text(with_fresh_block(existing, cmd));
    let before = split_text(existing);
    lemma_fresh_split(existing, cmd);
    lemma_rendered(cmd, indent);
    lemma_quiet_lines(before);
    assert forall|i: int| 0 <= i < parts.head.len() - 1 implies quiet(#[trigger] parts.head[i]) by {
        assert(parts.head[i] == before[i]);
    }
    reveal_strlit("hooks:");
    assert("hooks:"@.take(6) =~= "hooks:"@);
    let value = "hooks:"@.skip(6);
    assert(value.len() == 0);
    lemma_trimmed_start(value);
    assert(trimmed_start(value).len() == 0);
    assert(parts.head.last() == "hooks:"@);
    let none = Seq::<Seq<Seq<char>>>::empty();
    assert(flat(none) =~= Seq::empty());
    assert(seq![entry] =~= none.push(entry));
    lemma_flat_push(none, entry);
    assert(flat(seq![entry]) =~= entry);
    assert(parts.whole() =~= lines);
    assert(parts.is_loose(indent));
    lemma_compose(parts, indent);
    let block = parts.block(indent);
    let range = block.entries[0];
    assert(entry_lines(lines, range) == entry);
    lemma_single_ours(lines, block.entries, 1, 0);
    lemma_block_fits(lines);
    assert(0 <= range.0 <= range.1 <= lines.len());
    assert(entry_lines(lines, range)[entry.len() - 1] == lines[range.1 - 1]);
    assert(own_end(lines, range) == range.1);
}

/// Installing twice is the same as installing once: where a hook was
/// installed, there is nothing left to do for the same command.
pub proof fn law_installed_file_is_settled(existing: Seq<char>, cmd: Seq<char>)
    requires
        is_recognised(cmd),
        one_line(cmd),
    ensures
        merged_text(existing, cmd) matches Ok(Some(text)) ==> merged_text(text, cmd) == Ok::<
            Option<Seq<char>>,
            LayoutIssue,
        >(None),
{
    let lines = split_text(existing);
    match hooks_block(lines) {
        Ok(None) => {
            lemma_fresh_block(existing, cmd);
        },
        Ok(Some(block)) => {
            lemma_merged_block(lines, block, cmd);
            lemma_merged_read(existing, block, cmd);
        },
        Err(_) => {},
    }
}

/// An installation leaves one git-ai entry, the one that was installed, with
/// nothing but blank lines and comments after it.
pub proof fn law_install_leaves_one_entry(existing: Seq<char>, cmd: Seq<char>)
    requires
        is_recognised(cmd),
        one_line(cmd),
    ensures
        merged_text(existing, cmd) matches Ok(Some(text)) ==> (hooks_block(split_text(text))
            matches Ok(Some(block)) && ours_in(split_text(text), block).len() == 1 && ({
            let entry = block.entries[ours_in(split_text(text), block)[0]];
            split_text(text).subrange(entry.0, own_end(split_text(text), entry)) == rendered_entry(
                cmd,
                block.indent,
            )
        })),
{
    law_installed_file_is_settled(existing, cmd);
}

/// Whether a command has no quote in it.
pub open spec fn is_unquoted(cmd: Seq<char>) -> bool {
    forall|i: int| 0 <= i < cmd.len() ==> #[trigger] cmd[i] != '\''
}

/// Where there is nothing left to do for a command, the hook is found to be
/// installed, and to be up to date if the command has no quote in it.
pub proof fn law_settled_file_is_up_to_date(existing: Seq<char>, cmd: Seq<char>)
    requires
        merged_text(existing, cmd) == Ok::<Option<Seq<char>>, LayoutIssue>(None),
    ensures
        ({
            let lines = split_text(existing);
            hooks_block(lines) matches Ok(Some(block)) && is_installed(lines, block) && (
            is_unquoted(cmd) ==> is_up_to_date(lines, block, cmd))
        }),
{
    let lines = split_text(existing);
    let block = hooks_block(lines)->Ok_0->0;
    let n = block.entries.len() as int;
    let mine = ours_in(lines, block)[0];
    lemma_our_entries(lines, block.entries, n);
    assert(is_ours(entry_lines(lines, block.entries[mine])));
    lemma_entries(lines, block);
    lemma_rendered(cmd, block.indent);
    if is_unquoted(cmd) {
        lemma_quotes_kept(lines, block.entries[mine], cmd, block.indent);
        lemma_unquoted(cmd);
    }
}

/// Once the hooks are installed in a file, a check says that they are, and
/// that they are up to date.
pub proof fn law_check_follows_install(
    before: Seq<char>,
    cmd: Seq<char>,
    plan: Result<Option<ConfigEdit>, GitAiError>,
    checked: Result<HookCheckResult, GitAiError>,
)
    requires
        is_recognised(cmd),
        one_line(cmd),
        is_unquoted(cmd),
        edit_planned(plan, before, merged_text(before, cmd), false),
        plan matches Ok(change) && checked_as(
            checked,
            true,
            (match change {
                Some(edit) => edit.after@,
                None => before,
            }),
            cmd,
        ),
    ensures
        checked == Ok::<HookCheckResult, GitAiError>(
            HookCheckResult {
                tool_installed: true,
                hooks_installed: true,
                hooks_up_to_date: true,
            },
        ),
{
    law_installed_file_is_settled(before, cmd);
    match plan->Ok_0 {
        Some(edit) => law_settled_file_is_up_to_date(edit.after@, cmd),
        None => law_settled_file_is_up_to_date(before, cmd),
    }
}

/// An empty file has one empty line, and no block.
pub proof fn lemma_empty_text()
    ensures
        hooks_block(split_text(Seq::empty())) == Ok::<Option<BlockModel>, LayoutIssue>(None),
{
    let lines = split_text(Seq::empty());
    assert forall|i: int| 0 <= i < lines.len() implies quiet(#[trigger] lines[i]) by {
        lemma_blank_line(lines[i]);
    }
    lemma_no_key(lines);
}

/// Removing the hooks leaves none: there is nothing left to remove.
pub proof fn law_uninstalled_file_is_settled(existing: Seq<char>)
    ensures
        stripped_text(existing) matches Ok(Some(text)) ==> stripped_text(text) == Ok::<
            Option<Seq<char>>,
            LayoutIssue,
        >(None),
{
    let lines = split_text(existing);
    if let Ok(Some(block)) = hooks_block(lines) {
        if ours_in(lines, block).len() > 0 {
            lemma_stripped_read(existing, block);
            lemma_empty_text();
            if has_remaining_content(lines, block, ours_in(lines, block)) {
                lemma_stripped_block(lines, block);
                lemma_entries(lines, block);
                assert(stripped(lines, lines, block).len() > 0);
            } else {
                lemma_emptied_block(lines, block);
            }
        }
    }
}

/// Where there is nothing to remove, no hook is found to be installed.
pub proof fn law_stripped_file_is_not_installed(existing: Seq<char>)
    requires
        stripped_text(existing) == Ok::<Option<Seq<char>>, LayoutIssue>(None),
    ensures
        ({
            let lines = split_text(existing);
            hooks_block(lines) matches Ok(found) && (found matches Some(block) ==> !is_installed(
                lines,
                block,
            ))
        }),
{
    let lines = split_text(existing);
    if let Ok(Some(block)) = hooks_block(lines) {
        lemma_our_entries(lines, block.entries, block.entries.len() as int);
        if is_installed(lines, block) {
            let j = choose|j: int|
                0 <= j < block.entries.len() && is_ours(
                    entry_lines(lines, #[trigger] block.entries[j]),
                );
            assert(ours_in(lines, block).contains(j));
        }
    }
}

/// Once the hooks are removed from a file, a check says that they are not
/// installed.
pub proof fn law_check_follows_uninstall(
    before: Seq<char>,
    cmd: Seq<char>,
    plan: Result<Option<ConfigEdit>, GitAiError>,
    checked: Result<HookCheckResult, GitAiError>,
)
    requires
        edit_planned(plan, before, stripped_text(before), false),
        plan matches Ok(change) && checked_as(
            checked,
            true,
            (match change {
                Some(edit) => edit.after@,
                None => before,
            }),
            cmd,
        ),
    ensures
        checked == Ok::<HookCheckResult, GitAiError>(
            HookCheckResult {
                tool_installed: true,
                hooks_installed: false,
                hooks_up_to_date: false,
            },
        ),
{
    law_uninstalled_file_is_settled(before);
    match plan->Ok_0 {
        Some(edit) => law_stripped_file_is_not_installed(edit.after@),
        None => law_stripped_file_is_not_installed(before),
    }
}

} // verus!
