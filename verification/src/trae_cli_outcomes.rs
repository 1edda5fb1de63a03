//! What installing, removing and checking the TRAE CLI hook is for, said of
//! the lines of the configuration file.
use crate::block_shape::lemma_flat_push;
use crate::entry_edits::{
    all_places, insert_at, is_laid_out, law_checkpoint_command_is_recognised, lemma_ascending,
    lemma_entries, lemma_merged_split, lemma_rendered, lemma_user_picked, picked, user_places,
};
use crate::error::GitAiError;
use crate::hooks_block::{entries_end, entries_start, hooks_block, BlockModel, LayoutIssue};
use crate::hooks_block_laws::{
    law_refusals_are_told, lemma_blank_ink, lemma_idle_says, lemma_ink, lemma_opens,
};
use crate::installer::{ConfigEdit, HookCheckResult};
use crate::lines::{
    has_crlf, joined, joined_lines, line_end, one_line, returns_of, split_text, uses_crlf,
};
use crate::text::{is_blank, is_whitespace, quotes_doubled, spaces, trimmed};
use crate::text_laws::{
    has_ink, ink_at, law_carriage_returns, law_checkpoint_command, law_trimming,
    names_checkpoint, opens_with, reads_at, says_nothing,
};
use crate::trae_cli::{
    checked_as, closed, command_in, command_value, edit_planned, entry_lines, flat, fresh_ends,
    has_remaining_content, in_entries, is_canonical, is_command_line, is_installed, is_ours,
    is_up_to_date, kept_entries, lemma_our_entries, lemma_own_end, merged_lines, merged_text,
    opened, ours_in, own_end, rebuilt, rendered_entry, stripped_text, trae_cli_command, unquoted,
    with_fresh_block,
};
use crate::trae_cli_kept::kept_end;
use crate::trae_cli_laws::{
    law_installed_file_is_settled, lemma_merged_read, lemma_stripped_read, merged_ends,
};
use vstd::prelude::*;

verus! {

/// Whether a line is a text behind `n` spaces, and nothing else.
pub open spec fn is_spaced(line: Seq<char>, n: nat, text: Seq<char>) -> bool {
    &&& line.len() == n + text.len()
    &&& forall|m: int| 0 <= m < n ==> #[trigger] line[m] == ' '
    &&& reads_at(line, n as int, text)
}

/// Whether lines are those of the hook that runs `cmd`: its type, its command
/// in quotes, its timeout, and both of its events.
pub open spec fn is_hook_entry(lines: Seq<Seq<char>>, cmd: Seq<char>, indent: nat) -> bool {
    &&& lines.len() == 6
    &&& is_spaced(lines[0], indent, "- type: command"@)
    &&& is_spaced(lines[1], indent + 2, "command: '"@ + quotes_doubled(cmd) + "'"@)
    &&& is_spaced(lines[2], indent + 2, "timeout: '30s'"@)
    &&& is_spaced(lines[3], indent + 2, "matchers:"@)
    &&& is_spaced(lines[4], indent + 4, "- event: pre_tool_use"@)
    &&& is_spaced(lines[5], indent + 4, "- event: post_tool_use"@)
}

/// Whether the first line of an entry that begins with `command:` gives a
/// value.
pub open spec fn gives_command(
    lines: Seq<Seq<char>>,
    entry: (int, int),
    value: Seq<char>,
) -> bool {
    exists|i: int, k: int|
        {
            &&& entry.0 <= i < entry.1
            &&& #[trigger] ink_at(lines[i], k)
            &&& reads_at(lines[i], k, "command:"@)
            &&& forall|m: int|
                entry.0 <= m < i ==> !opens_with(#[trigger] lines[m], "command:"@)
            &&& value == trimmed(lines[i].skip(k + 8))
        }
}

/// Whether an entry runs a git-ai checkpoint.
pub open spec fn is_git_ai(lines: Seq<Seq<char>>, entry: (int, int)) -> bool {
    exists|value: Seq<char>| #[trigger]
        gives_command(lines, entry, value) && names_checkpoint(value)
}

/// Whether a line is one of an entry, and not one of the blank lines and
/// comments at the entry's end.
pub open spec fn is_own_line(lines: Seq<Seq<char>>, entry: (int, int), i: int) -> bool {
    entry.0 <= i < entry.1 && exists|m: int|
        i <= m < entry.1 && !says_nothing(#[trigger] lines[m])
}

/// Whether a line is one of a git-ai entry of a block.
pub open spec fn is_git_ai_line(lines: Seq<Seq<char>>, block: BlockModel, i: int) -> bool {
    exists|j: int|
        0 <= j < block.entries.len() && is_git_ai(lines, #[trigger] block.entries[j])
            && is_own_line(lines, block.entries[j], i)
}

/// Whether a block has one git-ai entry, whose own lines are those of the hook
/// that runs `cmd`.
pub open spec fn has_hook_once(lines: Seq<Seq<char>>, block: BlockModel, cmd: Seq<char>) -> bool {
    exists|j: int|
        {
            let entry = block.entries[j];
            &&& 0 <= j < block.entries.len()
            &&& #[trigger] is_git_ai(lines, block.entries[j])
            &&& forall|i: int|
                0 <= i < block.entries.len() && i != j ==> !is_git_ai(
                    lines,
                    #[trigger] block.entries[i],
                )
            &&& entry.0 + 6 <= entry.1
            &&& is_hook_entry(lines.subrange(entry.0, entry.0 + 6), cmd, block.indent)
            &&& forall|i: int|
                entry.0 + 6 <= i < entry.1 ==> says_nothing(#[trigger] lines[i])
        }
}

/// The first line of an entry that gives a command.
proof fn lemma_command_found(entry: Seq<Seq<char>>) -> (i: int)
    ensures
        0 <= i <= entry.len(),
        forall|m: int| 0 <= m < i ==> !is_command_line(#[trigger] entry[m]),
        i < entry.len() ==> is_command_line(entry[i]),
        command_in(entry) == (if i < entry.len() {
            Some(command_value(entry[i]))
        } else {
            None
        }),
    decreases entry.len(),
{
    if entry.len() == 0 || is_command_line(entry[0]) {
        0
    } else {
        let i = lemma_command_found(entry.drop_first());
        assert forall|m: int| 0 <= m < i + 1 implies !is_command_line(#[trigger] entry[m]) by {
            if m > 0 {
                assert(entry.drop_first()[m - 1] == entry[m]);
            }
        }
        i + 1
    }
}

/// A line that gives a command.
proof fn lemma_command_line(line: Seq<char>) -> (k: int)
    ensures
        is_command_line(line) == opens_with(line, "command:"@),
        is_command_line(line) ==> ink_at(line, k) && reads_at(line, k, "command:"@)
            && command_value(line) == trimmed(line.skip(k + 8)),
        forall|j: int| #[trigger] ink_at(line, j) ==> j == k,
{
    let k = lemma_ink(line);
    reveal_strlit("command:");
    lemma_opens(line, "command:"@);
    if is_command_line(line) {
        let j = choose|j: int| #[trigger] ink_at(line, j) && reads_at(line, j, "command:"@);
        assert(j == k);
        assert(line.skip(k).skip(8) =~= line.skip(k + 8));
    }
    k
}

/// The command that an entry gives is the text behind the first `command:` that
/// a line of it begins with.
pub proof fn law_command_of_entry(lines: Seq<Seq<char>>, entry: (int, int), value: Seq<char>)
    requires
        0 <= entry.0 <= entry.1 <= lines.len(),
    ensures
        (command_in(entry_lines(lines, entry)) == Some(value)) == gives_command(
            lines,
            entry,
            value,
        ),
{
    let part = entry_lines(lines, entry);
    let at = lemma_command_found(part);
    assert forall|m: int| entry.0 <= m < entry.1 implies opens_with(
        #[trigger] lines[m],
        "command:"@,
    ) == is_command_line(part[m - entry.0]) by {
        assert(part[m - entry.0] == lines[m]);
        lemma_command_line(lines[m]);
    }
    if command_in(part) == Some(value) {
        let i = entry.0 + at;
        assert(part[at] == lines[i]);
        let k = lemma_command_line(lines[i]);
        assert(ink_at(lines[i], k));
        assert forall|m: int| entry.0 <= m < i implies !opens_with(
            #[trigger] lines[m],
            "command:"@,
        ) by {
            assert(!is_command_line(part[m - entry.0]));
        }
    }
    if gives_command(lines, entry, value) {
        let (i, k) = choose|i: int, k: int|
            {
                &&& entry.0 <= i < entry.1
                &&& #[trigger] ink_at(lines[i], k)
                &&& reads_at(lines[i], k, "command:"@)
                &&& forall|m: int|
                    entry.0 <= m < i ==> !opens_with(#[trigger] lines[m], "command:"@)
                &&& value == trimmed(lines[i].skip(k + 8))
            };
        assert(opens_with(lines[i], "command:"@));
        let j = lemma_command_line(lines[i]);
        assert(part[i - entry.0] == lines[i]);
        if at < i - entry.0 {
            assert(part[at] == lines[entry.0 + at]);
            assert(!opens_with(lines[entry.0 + at], "command:"@));
        }
        if at > i - entry.0 {
            assert(!is_command_line(part[i - entry.0]));
        }
    }
}

/// An entry is a git-ai one exactly if the command that it gives names both the
/// program and its `checkpoint` command.
pub proof fn law_git_ai_entry(lines: Seq<Seq<char>>, entry: (int, int))
    requires
        0 <= entry.0 <= entry.1 <= lines.len(),
    ensures
        is_ours(entry_lines(lines, entry)) == is_git_ai(lines, entry),
{
    let part = entry_lines(lines, entry);
    if is_ours(part) {
        let value = command_in(part)->0;
        law_command_of_entry(lines, entry, value);
        law_checkpoint_command(value);
        assert(gives_command(lines, entry, value));
    }
    if is_git_ai(lines, entry) {
        let value = choose|value: Seq<char>| #[trigger]
            gives_command(lines, entry, value) && names_checkpoint(value);
        law_command_of_entry(lines, entry, value);
        law_checkpoint_command(value);
    }
}

/// The git-ai entries of a block are found, all of them and no others, in the
/// order of the file.
pub proof fn law_git_ai_entries(lines: Seq<Seq<char>>, block: BlockModel)
    requires
        is_laid_out(block, lines.len()),
    ensures
        forall|j: int| #[trigger]
            ours_in(lines, block).contains(j) == (0 <= j < block.entries.len() && is_git_ai(
                lines,
                block.entries[j],
            )),
        forall|i: int, j: int|
            0 <= i < j < ours_in(lines, block).len() ==> #[trigger] ours_in(lines, block)[i]
                < #[trigger] ours_in(lines, block)[j],
{
    let n = block.entries.len() as int;
    let ours = ours_in(lines, block);
    lemma_our_entries(lines, block.entries, n);
    assert forall|j: int| #[trigger] ours.contains(j) == (0 <= j < n && is_git_ai(
        lines,
        block.entries[j],
    )) by {
        if ours.contains(j) {
            let i = choose|i: int| 0 <= i < ours.len() && ours[i] == j;
            assert(0 <= ours[i] < n);
        }
        if 0 <= j < n {
            assert(0 <= block.entries[j].0 <= block.entries[j].1 <= lines.len());
            law_git_ai_entry(lines, block.entries[j]);
        }
    }
}

/// The own lines of an entry are those up to the last that is neither blank nor
/// a comment.
pub proof fn law_own_lines(lines: Seq<Seq<char>>, entry: (int, int), i: int)
    requires
        0 <= entry.0 <= entry.1 <= lines.len(),
    ensures
        is_own_line(lines, entry, i) == (entry.0 <= i < own_end(lines, entry)),
        entry.0 <= own_end(lines, entry) <= entry.1,
{
    let end = own_end(lines, entry);
    lemma_own_end(lines, entry);
    if entry.0 <= i < end {
        lemma_idle_says(lines[end - 1]);
        assert(!says_nothing(lines[end - 1]));
    }
    if is_own_line(lines, entry, i) {
        let m = choose|m: int| i <= m < entry.1 && !says_nothing(#[trigger] lines[m]);
        lemma_idle_says(lines[m]);
    }
}

/// The entry that is installed has the six lines of the hook.
pub proof fn law_entry_to_install(cmd: Seq<char>, indent: nat)
    ensures
        is_hook_entry(rendered_entry(cmd, indent), cmd, indent),
{
    let entry = rendered_entry(cmd, indent);
    lemma_spaced(indent, "- type: command"@);
    lemma_spaced(indent + 2, "command: '"@ + quotes_doubled(cmd) + "'"@);
    lemma_spaced(indent + 2, "timeout: '30s'"@);
    lemma_spaced(indent + 2, "matchers:"@);
    lemma_spaced(indent + 4, "- event: pre_tool_use"@);
    lemma_spaced(indent + 4, "- event: post_tool_use"@);
    assert(entry[1] =~= spaces(indent + 2) + ("command: '"@ + quotes_doubled(cmd) + "'"@));
}

/// A text behind spaces.
proof fn lemma_spaced(n: nat, text: Seq<char>)
    ensures
        is_spaced(spaces(n) + text, n, text),
{
}

/// Lines that are those of the hook are those that are installed.
proof fn lemma_hook_entry(lines: Seq<Seq<char>>, cmd: Seq<char>, indent: nat)
    requires
        is_hook_entry(lines, cmd, indent),
    ensures
        lines == rendered_entry(cmd, indent),
{
    let entry = rendered_entry(cmd, indent);
    law_entry_to_install(cmd, indent);
    lemma_spaced_same(lines[0], entry[0], indent, "- type: command"@);
    lemma_spaced_same(
        lines[1],
        entry[1],
        indent + 2,
        "command: '"@ + quotes_doubled(cmd) + "'"@,
    );
    lemma_spaced_same(lines[2], entry[2], indent + 2, "timeout: '30s'"@);
    lemma_spaced_same(lines[3], entry[3], indent + 2, "matchers:"@);
    lemma_spaced_same(lines[4], entry[4], indent + 4, "- event: pre_tool_use"@);
    lemma_spaced_same(lines[5], entry[5], indent + 4, "- event: post_tool_use"@);
    assert(lines =~= entry);
}

/// A line that is a text behind spaces is one line.
proof fn lemma_spaced_same(a: Seq<char>, b: Seq<char>, n: nat, text: Seq<char>)
    requires
        is_spaced(a, n, text),
        is_spaced(b, n, text),
    ensures
        a == b,
{
    assert forall|m: int| 0 <= m < a.len() implies a[m] == b[m] by {
        if m >= n {
            assert(a[n + (m - n)] == text[m - n]);
            assert(b[n + (m - n)] == text[m - n]);
        }
    }
    assert(a =~= b);
}

/// A block has the hook once exactly if its one git-ai entry is canonical.
proof fn lemma_canonical(lines: Seq<Seq<char>>, block: BlockModel, cmd: Seq<char>)
    requires
        is_laid_out(block, lines.len()),
        block.indent > 0,
    ensures
        is_canonical(lines, block, cmd) == has_hook_once(lines, block, cmd),
{
    let n = block.entries.len() as int;
    let ours = ours_in(lines, block);
    law_git_ai_entries(lines, block);
    lemma_rendered(cmd, block.indent);
    if is_canonical(lines, block, cmd) {
        let j = ours[0];
        assert(ours.contains(j));
        let entry = block.entries[j];
        assert(0 <= entry.0 <= entry.1 <= lines.len());
        lemma_own_end(lines, entry);
        assert forall|i: int| 0 <= i < n && i != j implies !is_git_ai(
            lines,
            #[trigger] block.entries[i],
        ) by {
            if is_git_ai(lines, block.entries[i]) {
                assert(ours.contains(i));
            }
        }
        law_entry_to_install(cmd, block.indent);
        assert forall|i: int| entry.0 + 6 <= i < entry.1 implies says_nothing(
            #[trigger] lines[i],
        ) by {
            lemma_idle_says(lines[i]);
        }
        assert(is_git_ai(lines, block.entries[j]));
    }
    if has_hook_once(lines, block, cmd) {
        let j = choose|j: int|
            {
                let entry = block.entries[j];
                &&& 0 <= j < block.entries.len()
                &&& #[trigger] is_git_ai(lines, block.entries[j])
                &&& forall|i: int|
                    0 <= i < block.entries.len() && i != j ==> !is_git_ai(
                        lines,
                        #[trigger] block.entries[i],
                    )
                &&& entry.0 + 6 <= entry.1
                &&& is_hook_entry(lines.subrange(entry.0, entry.0 + 6), cmd, block.indent)
                &&& forall|i: int|
                    entry.0 + 6 <= i < entry.1 ==> says_nothing(#[trigger] lines[i])
            };
        let entry = block.entries[j];
        assert(ours.contains(j));
        assert(ours.len() == 1 && ours[0] == j) by {
            let k = choose|k: int| 0 <= k < ours.len() && ours[k] == j;
            if ours.len() > 1 {
                let other = if k == 0 {
                    1int
                } else {
                    0int
                };
                assert(ours.contains(ours[other]));
                assert(ours[0] < ours[1]);
            }
        }
        let own = lines.subrange(entry.0, entry.0 + 6);
        lemma_hook_entry(own, cmd, block.indent);
        assert(0 <= entry.0 <= entry.1 <= lines.len());
        lemma_own_end(lines, entry);
        assert(own[5] == lines[entry.0 + 5]);
        lemma_idle_says(lines[entry.0 + 5]);
        law_own_lines(lines, entry, entry.0 + 5);
        assert(own_end(lines, entry) == entry.0 + 6) by {
            if own_end(lines, entry) > entry.0 + 6 {
                lemma_idle_says(lines[own_end(lines, entry) - 1]);
            }
        }
    }
}

/// What a file holds after an edit that is planned is made.
pub open spec fn text_after(before: Seq<char>, change: Option<ConfigEdit>) -> Seq<char> {
    match change {
        Some(edit) => edit.after@,
        None => before,
    }
}

/// Installing leaves a file whose block has one git-ai entry, with the six
/// lines of the hook, also where it answers that there is nothing to do, and it
/// answers so exactly if the file was such a one.
#[verifier::rlimit(30)]
pub proof fn law_install_outcome(
    before: Seq<char>,
    cmd: Seq<char>,
    plan: Result<Option<ConfigEdit>, GitAiError>,
    dry_run: bool,
)
    requires
        edit_planned(plan, before, merged_text(before, cmd), dry_run),
    ensures
        plan matches Ok(None) ==> (hooks_block(split_text(before)) matches Ok(Some(block))
            && has_hook_once(split_text(before), block, cmd)),
        (hooks_block(split_text(before)) matches Ok(Some(block)) && has_hook_once(
            split_text(before),
            block,
            cmd,
        )) ==> plan matches Ok(None),
        names_checkpoint(cmd) && (forall|i: int| 0 <= i < cmd.len() ==> #[trigger] cmd[i] != '\n')
            ==> (plan matches Ok(change) ==> (hooks_block(
            split_text(text_after(before, change)),
        ) matches Ok(Some(block)) && has_hook_once(
            split_text(text_after(before, change)),
            block,
            cmd,
        ))),
        plan matches Ok(Some(edit)) ==> edit.before@ == before && edit.write == !dry_run,
        plan is Err == hooks_block(split_text(before)) is Err,
{
    let lines = split_text(before);
    if let Ok(Some(block)) = hooks_block(lines) {
        lemma_entries(lines, block);
        lemma_canonical(lines, block, cmd);
    }
    if names_checkpoint(cmd) && (forall|i: int| 0 <= i < cmd.len() ==> #[trigger] cmd[i] != '\n') {
        law_checkpoint_command(cmd);
        law_checkpoint_command_is_recognised(cmd);
        assert(one_line(cmd));
        if let Ok(Some(edit)) = plan {
            law_installed_file_is_settled(before, cmd);
            let now = split_text(edit.after@);
            let block = hooks_block(now)->Ok_0->0;
            lemma_entries(now, block);
            lemma_canonical(now, block, cmd);
        }
    }
}

/// What cannot be edited is refused, with what is wrong with it, by every
/// operation.
pub proof fn law_refused_file_is_left_alone(
    before: Seq<char>,
    cmd: Seq<char>,
    issue: LayoutIssue,
    installed: Result<Option<ConfigEdit>, GitAiError>,
    removed: Result<Option<ConfigEdit>, GitAiError>,
    checked: Result<HookCheckResult, GitAiError>,
    dry_run: bool,
)
    requires
        hooks_block(split_text(before)) == Err::<Option<BlockModel>, LayoutIssue>(issue),
        edit_planned(installed, before, merged_text(before, cmd), dry_run),
        edit_planned(removed, before, stripped_text(before), dry_run),
        checked_as(checked, true, before, cmd),
    ensures
        installed is Err,
        removed is Err,
        checked is Err,
        installed->Err_0 matches GitAiError::Generic(a) && removed->Err_0 matches GitAiError::Generic(
            b,
        ) && checked->Err_0 matches GitAiError::Generic(c) && a@ == b@ && b@ == c@ && (issue
            == LayoutIssue::FlowStyle ==> a@
            == "trae_cli.yaml uses a flow-style `hooks:` value; refusing to edit it automatically"@)
            && (issue == LayoutIssue::DuplicateKeys ==> a@
            == "trae_cli.yaml has duplicate top-level `hooks:` keys"@) && (issue
            == LayoutIssue::NestedKey ==> a@
            == "trae_cli.yaml has a nested `hooks:` key; refusing to edit it automatically"@),
{
    law_refusals_are_told(installed->Err_0, issue);
    law_refusals_are_told(removed->Err_0, issue);
    law_refusals_are_told(checked->Err_0, issue);
}

/// The lines outside the git-ai entries are all lines but those of such an
/// entry, in the order of the file. The blank lines and comments at the end of
/// an entry are outside of it.
#[verifier::rlimit(30)]
pub proof fn law_user_places(lines: Seq<Seq<char>>, block: BlockModel)
    requires
        is_laid_out(block, lines.len()),
    ensures
        user_places(lines, block) == all_places(lines.len()).filter(
            |i: int| !is_git_ai_line(lines, block, i),
        ),
{
    let n = block.entries.len() as int;
    let ours = ours_in(lines, block);
    let all = all_places(lines.len());
    let s = entries_start(block);
    let e = entries_end(block);
    let none = Seq::<int>::empty();
    let stays = |i: int| !is_git_ai_line(lines, block, i);
    let kept = flat(kept_entries(lines, all, block.entries, ours, None, none, n));
    lemma_kept_places(lines, block, n);
    assert forall|i: int| 0 <= i < s || e <= i < lines.len() implies !is_git_ai_line(
        lines,
        block,
        i,
    ) by {
        lemma_outside_entries(lines, block, i);
    }
    lemma_filter_all(all.take(s), stays);
    lemma_filter_all(all.skip(e), stays);
    let middle = all.subrange(s, e);
    Seq::filter_distributes_over_add(all.take(s), middle, stays);
    Seq::filter_distributes_over_add(all.take(s) + middle, all.skip(e), stays);
    assert(all.take(s) + middle + all.skip(e) =~= all);
    assert(kept == middle.filter(stays)) by {
        if n == 0 {
            reveal(Seq::filter);
            assert(middle =~= none);
        } else {
            assert(middle =~= all.subrange(block.entries[0].0, block.entries[n - 1].1));
        }
    }
    assert(user_places(lines, block) =~= all.take(s) + kept + all.skip(e));
}

/// A line that is before all entries or after them is in none.
proof fn lemma_outside_entries(lines: Seq<Seq<char>>, block: BlockModel, i: int)
    requires
        is_laid_out(block, lines.len()),
        i < entries_start(block) || entries_end(block) <= i,
    ensures
        !is_git_ai_line(lines, block, i),
{
    let n = block.entries.len() as int;
    assert forall|j: int| 0 <= j < n implies !is_own_line(lines, #[trigger] block.entries[j], i) by {
        lemma_ascending(lines, block.entries, 0, j);
        lemma_ascending(lines, block.entries, j, n - 1);
    }
}

/// Where all items stay, they are what is left.
proof fn lemma_filter_all(items: Seq<int>, stays: spec_fn(int) -> bool)
    requires
        forall|i: int| 0 <= i < items.len() ==> stays(#[trigger] items[i]),
    ensures
        items.filter(stays) == items,
    decreases items.len(),
{
    reveal(Seq::filter);
    if items.len() > 0 {
        let before = items.drop_last();
        assert forall|i: int| 0 <= i < before.len() implies stays(#[trigger] before[i]) by {
            assert(before[i] == items[i]);
        }
        lemma_filter_all(before, stays);
        assert(stays(items[items.len() - 1]));
        assert(before.push(items.last()) =~= items);
    }
}

/// Where no item stays, nothing is left.
proof fn lemma_filter_none(items: Seq<int>, stays: spec_fn(int) -> bool)
    requires
        forall|i: int| 0 <= i < items.len() ==> !stays(#[trigger] items[i]),
    ensures
        items.filter(stays).len() == 0,
    decreases items.len(),
{
    reveal(Seq::filter);
    if items.len() > 0 {
        let before = items.drop_last();
        assert forall|i: int| 0 <= i < before.len() implies !stays(#[trigger] before[i]) by {
            assert(before[i] == items[i]);
        }
        lemma_filter_none(before, stays);
        assert(!stays(items[items.len() - 1]));
    }
}

/// What is left of the first entries.
proof fn lemma_kept_places(lines: Seq<Seq<char>>, block: BlockModel, n: int)
    requires
        is_laid_out(block, lines.len()),
        0 <= n <= block.entries.len(),
    ensures
        n > 0 ==> flat(
            kept_entries(
                lines,
                all_places(lines.len()),
                block.entries,
                ours_in(lines, block),
                None,
                Seq::<int>::empty(),
                n,
            ),
        ) == all_places(lines.len()).subrange(block.entries[0].0, block.entries[n - 1].1).filter(
            |i: int| !is_git_ai_line(lines, block, i),
        ),
        n == 0 ==> flat(
            kept_entries(
                lines,
                all_places(lines.len()),
                block.entries,
                ours_in(lines, block),
                None,
                Seq::<int>::empty(),
                n,
            ),
        ) == Seq::<int>::empty(),
    decreases n,
{
    let all = all_places(lines.len());
    let ours = ours_in(lines, block);
    let none = Seq::<int>::empty();
    let stays = |i: int| !is_git_ai_line(lines, block, i);
    if n > 0 {
        lemma_kept_places(lines, block, n - 1);
        let before = kept_entries(lines, all, block.entries, ours, None, none, n - 1);
        let now = kept_entries(lines, all, block.entries, ours, None, none, n);
        let range = block.entries[n - 1];
        assert(0 <= range.0 <= range.1 <= lines.len());
        lemma_ascending(lines, block.entries, 0, n - 1);
        assert(now.drop_last() =~= before);
        lemma_flat_push(before, now.last());
        lemma_entry_places(lines, block, n - 1);
        let first = block.entries[0].0;
        let part = all.subrange(range.0, range.1);
        if n > 1 {
            assert(block.entries[n - 2].1 == block.entries[n - 2 + 1].0);
            lemma_ascending(lines, block.entries, 0, n - 2);
            let head = all.subrange(first, range.0);
            Seq::filter_distributes_over_add(head, part, stays);
            assert(head + part =~= all.subrange(first, range.1));
        } else {
            assert(flat(before) =~= none);
            assert(flat(now) =~= part.filter(stays));
        }
    }
}

/// A line of an entry is a git-ai one exactly if the entry is, and the line is
/// none of the blank lines and comments at its end.
proof fn lemma_line_of_entry(lines: Seq<Seq<char>>, block: BlockModel, j: int, at: int)
    requires
        is_laid_out(block, lines.len()),
        0 <= j < block.entries.len(),
        block.entries[j].0 <= at < block.entries[j].1,
    ensures
        is_git_ai_line(lines, block, at) == (ours_in(lines, block).contains(j) && at < own_end(
            lines,
            block.entries[j],
        )),
{
    let range = block.entries[j];
    assert(0 <= range.0 <= range.1 <= lines.len());
    law_git_ai_entries(lines, block);
    law_own_lines(lines, range, at);
    assert(ours_in(lines, block).contains(j) == is_git_ai(lines, block.entries[j]));
    assert forall|m: int|
        0 <= m < block.entries.len() && m != j implies !is_own_line(
        lines,
        #[trigger] block.entries[m],
        at,
    ) by {
        if m < j {
            lemma_ascending(lines, block.entries, m, j - 1);
            assert(block.entries[j - 1].1 == block.entries[j - 1 + 1].0);
        } else {
            lemma_ascending(lines, block.entries, j + 1, m);
            assert(block.entries[j].1 == block.entries[j + 1].0);
        }
    }
}

/// What is left of one entry.
#[verifier::rlimit(30)]
proof fn lemma_entry_places(lines: Seq<Seq<char>>, block: BlockModel, j: int)
    requires
        is_laid_out(block, lines.len()),
        0 <= j < block.entries.len(),
    ensures
        ({
            let all = all_places(lines.len());
            let range = block.entries[j];
            let from = if ours_in(lines, block).contains(j) {
                own_end(lines, range)
            } else {
                range.0
            };
            all.subrange(from, range.1) == all.subrange(range.0, range.1).filter(
                |i: int| !is_git_ai_line(lines, block, i),
            )
        }),
{
    let all = all_places(lines.len());
    let range = block.entries[j];
    let ours = ours_in(lines, block);
    let stays = |i: int| !is_git_ai_line(lines, block, i);
    assert(0 <= range.0 <= range.1 <= lines.len());
    lemma_own_end(lines, range);
    let from = if ours.contains(j) {
        own_end(lines, range)
    } else {
        range.0
    };
    let gone = all.subrange(range.0, from);
    let left = all.subrange(from, range.1);
    assert forall|i: int| 0 <= i < gone.len() implies !stays(#[trigger] gone[i]) by {
        lemma_line_of_entry(lines, block, j, gone[i]);
    }
    assert forall|i: int| 0 <= i < left.len() implies stays(#[trigger] left[i]) by {
        lemma_line_of_entry(lines, block, j, left[i]);
    }
    lemma_filter_none(gone, stays);
    lemma_filter_all(left, stays);
    Seq::filter_distributes_over_add(gone, left, stays);
    assert(gone + left =~= all.subrange(range.0, range.1));
    assert(gone.filter(stays) + left.filter(stays) =~= left);
}

/// Where the entry is put: in the place of the first git-ai entry, or behind
/// the last entry of the block where there is none.
pub open spec fn is_entry_place(lines: Seq<Seq<char>>, block: BlockModel, at: int) -> bool {
    let n = block.entries.len() as int;
    if exists|j: int| 0 <= j < n && is_git_ai(lines, #[trigger] block.entries[j]) {
        exists|j: int|
            {
                &&& 0 <= j < n
                &&& #[trigger] is_git_ai(lines, block.entries[j])
                &&& block.entries[j].0 == at
                &&& forall|i: int|
                    0 <= i < j ==> !is_git_ai(lines, #[trigger] block.entries[i])
            }
    } else if n > 0 {
        at == block.entries[n - 1].1
    } else {
        at == block.end
    }
}

/// The place of the entry.
proof fn lemma_entry_place(lines: Seq<Seq<char>>, block: BlockModel)
    requires
        is_laid_out(block, lines.len()),
    ensures
        is_entry_place(lines, block, insert_at(lines, block)),
{
    let n = block.entries.len() as int;
    let ours = ours_in(lines, block);
    law_git_ai_entries(lines, block);
    if ours.len() == 0 {
        if exists|j: int| 0 <= j < n && is_git_ai(lines, #[trigger] block.entries[j]) {
            let j = choose|j: int| 0 <= j < n && is_git_ai(lines, #[trigger] block.entries[j]);
            assert(ours.contains(j));
        }
    } else {
        let j = ours[0];
        assert(ours.contains(j));
        assert(is_git_ai(lines, block.entries[j]));
        assert forall|i: int| 0 <= i < j implies !is_git_ai(lines, #[trigger] block.entries[i]) by {
            if is_git_ai(lines, block.entries[i]) {
                assert(ours.contains(i));
                let k = choose|k: int| 0 <= k < ours.len() && ours[k] == i;
                if k > 0 {
                    assert(ours[0] < ours[k]);
                }
            }
        }
    }
}

/// What installing makes of the lines of a file with a block: the lines up to
/// the place of the entry, the six lines of the hook, and all lines behind that
/// are in no git-ai entry. The new lines end as those of the file do.
#[verifier::rlimit(30)]
pub proof fn law_installed_lines(
    before: Seq<char>,
    cmd: Seq<char>,
    block: BlockModel,
    plan: Result<Option<ConfigEdit>, GitAiError>,
    dry_run: bool,
) -> (at: int)
    requires
        hooks_block(split_text(before)) == Ok::<Option<BlockModel>, LayoutIssue>(Some(block)),
        forall|i: int| 0 <= i < cmd.len() ==> #[trigger] cmd[i] != '\n',
        edit_planned(plan, before, merged_text(before, cmd), dry_run),
    ensures
        plan matches Ok(Some(edit)) ==> {
            let lines = split_text(before);
            let now = split_text(edit.after@);
            let users = all_places(lines.len()).filter(|i: int| !is_git_ai_line(lines, block, i));
            &&& 0 <= at <= lines.len()
            &&& is_entry_place(lines, block, at)
            &&& at + 6 <= now.len()
            &&& now.take(at) == lines.take(at)
            &&& is_hook_entry(now.subrange(at, at + 6), cmd, block.indent)
            &&& now.take(at) + now.skip(at + 6) == picked(lines, users)
            &&& forall|k: int|
                at <= k < at + 6 ==> #[trigger] returns_of(edit.after@)[k] == (k + 1 < now.len()
                    && exists|i: int|
                    0 <= i < before.len() - 1 && #[trigger] before[i] == '\r' && before[i + 1]
                        == '\n')
        },
{
    let lines = split_text(before);
    let crlf = returns_of(before);
    let at = insert_at(lines, block);
    let entry = rendered_entry(cmd, block.indent);
    lemma_entries(lines, block);
    assert(one_line(cmd));
    lemma_merged_read(before, block, cmd);
    lemma_entry_place(lines, block);
    law_entry_to_install(cmd, block.indent);
    law_user_places(lines, block);
    lemma_user_picked(lines, lines, block);
    law_carriage_returns(before);
    let now = merged_lines(lines, block, cmd);
    let rest = lemma_merged_split(lines, lines, block, entry);
    let fresh = fresh_ends(entry.len(), crlf);
    let open_rest = lemma_merged_split(lines, opened(lines, crlf), block, fresh);
    let ends = merged_ends(before, block, cmd);
    assert(entry.len() == 6);
    assert(now.take(at) =~= lines.take(at));
    assert(now.subrange(at, at + 6) =~= entry);
    assert(now.skip(at + 6) =~= rest);
    assert forall|k: int| at <= k < at + 6 implies #[trigger] closed(ends)[k] == (k + 1 < now.len()
        && uses_crlf(crlf)) by {
        assert(ends[k] == fresh[k - at]);
    }
    at
}

/// Where the line at `i` stands when six lines are put in at `at`.
pub open spec fn moved(i: int, at: int) -> int {
    if i < at {
        i
    } else {
        i + 6
    }
}

/// Every line outside the git-ai entries keeps its ending when the hook is
/// installed, whatever the command is, but where the line was the last of the
/// file and is not any more, or the other way round.
pub proof fn law_installed_endings(
    before: Seq<char>,
    cmd: Seq<char>,
    block: BlockModel,
    plan: Result<Option<ConfigEdit>, GitAiError>,
    dry_run: bool,
    at: int,
)
    requires
        hooks_block(split_text(before)) == Ok::<Option<BlockModel>, LayoutIssue>(Some(block)),
        forall|i: int| 0 <= i < cmd.len() ==> #[trigger] cmd[i] != '\n',
        edit_planned(plan, before, merged_text(before, cmd), dry_run),
        is_entry_place(split_text(before), block, at),
    ensures
        plan matches Ok(Some(edit)) ==> {
            let lines = split_text(before);
            let now = split_text(edit.after@);
            let users = all_places(lines.len()).filter(|i: int| !is_git_ai_line(lines, block, i));
            forall|i: int|
                0 <= i < users.len() ==> returns_of(edit.after@)[moved(i, at)] == kept_end(
                    lines,
                    returns_of(before),
                    #[trigger] users[i],
                    moved(i, at) + 1 == now.len(),
                )
        },
{
    let lines = split_text(before);
    if plan matches Ok(Some(_)) {
        lemma_entries(lines, block);
        assert(one_line(cmd));
        lemma_merged_read(before, block, cmd);
        law_user_places(lines, block);
        lemma_entry_place(lines, block);
        lemma_one_place(lines, block, at, insert_at(lines, block));
        lemma_installed_ends(before, cmd, block);
    }
}

/// There is one place for the entry.
proof fn lemma_one_place(lines: Seq<Seq<char>>, block: BlockModel, a: int, b: int)
    requires
        is_entry_place(lines, block, a),
        is_entry_place(lines, block, b),
    ensures
        a == b,
{
    let n = block.entries.len() as int;
    if exists|j: int| 0 <= j < n && is_git_ai(lines, #[trigger] block.entries[j]) {
        let i = choose|j: int|
            {
                &&& 0 <= j < n
                &&& #[trigger] is_git_ai(lines, block.entries[j])
                &&& block.entries[j].0 == a
                &&& forall|i: int| 0 <= i < j ==> !is_git_ai(lines, #[trigger] block.entries[i])
            };
        let j = choose|j: int|
            {
                &&& 0 <= j < n
                &&& #[trigger] is_git_ai(lines, block.entries[j])
                &&& block.entries[j].0 == b
                &&& forall|i: int| 0 <= i < j ==> !is_git_ai(lines, #[trigger] block.entries[i])
            };
        assert(is_git_ai(lines, block.entries[i]) && is_git_ai(lines, block.entries[j]));
        assert(i == j);
    }
}

/// The endings of the lines that stay.
proof fn lemma_installed_ends(before: Seq<char>, cmd: Seq<char>, block: BlockModel)
    requires
        is_laid_out(block, split_text(before).len()),
    ensures
        ({
            let lines = split_text(before);
            let crlf = returns_of(before);
            let at = insert_at(lines, block);
            let users = user_places(lines, block);
            let ends = merged_ends(before, block, cmd);
            forall|i: int|
                0 <= i < users.len() ==> closed(ends)[moved(i, at)] == kept_end(
                    lines,
                    crlf,
                    #[trigger] users[i],
                    moved(i, at) + 1 == ends.len(),
                )
        }),
{
    let lines = split_text(before);
    let crlf = returns_of(before);
    let at = insert_at(lines, block);
    let users = user_places(lines, block);
    let open = opened(lines, crlf);
    let entry = rendered_entry(cmd, block.indent);
    let fresh = fresh_ends(entry.len(), crlf);
    let rest = lemma_merged_split(lines, open, block, fresh);
    let ends = merged_ends(before, block, cmd);
    lemma_user_picked(lines, open, block);
    let kept = open.take(at) + rest;
    assert(kept == picked(open, users));
    assert forall|i: int| 0 <= i < users.len() implies closed(ends)[moved(i, at)] == kept_end(
        lines,
        crlf,
        #[trigger] users[i],
        moved(i, at) + 1 == ends.len(),
    ) by {
        assert(kept[i] == open[users[i]]);
        assert(ends[moved(i, at)] == kept[i]);
    }
}

/// The lines that stay and those that are new, and how the new ones end.
proof fn lemma_installed_new(before: Seq<char>, cmd: Seq<char>, block: BlockModel)
    requires
        is_laid_out(block, split_text(before).len()),
    ensures
        ({
            let lines = split_text(before);
            let at = insert_at(lines, block);
            let users = user_places(lines, block);
            let now = merged_lines(lines, block, cmd);
            let ends = closed(merged_ends(before, block, cmd));
            &&& now.len() == ends.len() == users.len() + 6
            &&& 0 <= at <= users.len()
            &&& now.subrange(at, at + 6) == rendered_entry(cmd, block.indent)
            &&& forall|k: int|
                at <= k < at + 6 ==> #[trigger] ends[k] == (k + 1 < now.len() && uses_crlf(
                    returns_of(before),
                ))
            &&& forall|i: int|
                0 <= i < users.len() ==> now[moved(i, at)] == lines[#[trigger] users[i]]
        }),
{
    let lines = split_text(before);
    let crlf = returns_of(before);
    let at = insert_at(lines, block);
    let users = user_places(lines, block);
    let entry = rendered_entry(cmd, block.indent);
    let now = merged_lines(lines, block, cmd);
    let open = opened(lines, crlf);
    let open_ends = merged_ends(before, block, cmd);
    let rest = lemma_merged_split(lines, lines, block, entry);
    let fresh = fresh_ends(entry.len(), crlf);
    let open_rest = lemma_merged_split(lines, open, block, fresh);
    lemma_user_picked(lines, lines, block);
    lemma_user_picked(lines, open, block);
    let kept = lines.take(at) + rest;
    assert(kept == picked(lines, users));
    assert(open.take(at) + open_rest == picked(open, users));
    assert(entry.len() == 6 && fresh.len() == 6);
    assert(kept.len() == users.len());
    assert(now.len() == users.len() + 6);
    assert((open.take(at) + open_rest).len() == users.len());
    assert(open_ends == open.take(at) + fresh + open_rest);
    assert(closed(open_ends).len() == users.len() + 6);
    assert(now.subrange(at, at + 6) =~= entry);
    assert forall|k: int| at <= k < at + 6 implies #[trigger] closed(open_ends)[k] == (k + 1
        < now.len() && uses_crlf(crlf)) by {
        assert(open_ends[k] == fresh[k - at]);
    }
    assert forall|i: int| 0 <= i < users.len() implies now[moved(i, at)] == lines[#[trigger]
    users[i]] by {
        assert(kept[i] == lines[users[i]]);
        assert(now[moved(i, at)] == kept[i]);
    }
}

/// Whatever the command is, what installing writes is made of the lines of the
/// file that are in no git-ai entry, with their endings, and the six lines of
/// the hook in their place, which end as those of the file do.
#[verifier::rlimit(30)]
pub proof fn law_installed_text(
    before: Seq<char>,
    cmd: Seq<char>,
    block: BlockModel,
    plan: Result<Option<ConfigEdit>, GitAiError>,
    dry_run: bool,
    at: int,
) -> (written: (Seq<Seq<char>>, Seq<bool>))
    requires
        hooks_block(split_text(before)) == Ok::<Option<BlockModel>, LayoutIssue>(Some(block)),
        edit_planned(plan, before, merged_text(before, cmd), dry_run),
        is_entry_place(split_text(before), block, at),
    ensures
        plan matches Ok(Some(edit)) ==> {
            let lines = split_text(before);
            let (now, ends) = written;
            let users = all_places(lines.len()).filter(|i: int| !is_git_ai_line(lines, block, i));
            &&& edit.after@ == joined_lines(now, ends)
            &&& now.len() == ends.len() == users.len() + 6
            &&& 0 <= at <= users.len()
            &&& is_hook_entry(now.subrange(at, at + 6), cmd, block.indent)
            &&& forall|k: int|
                at <= k < at + 6 ==> #[trigger] ends[k] == (k + 1 < now.len() && exists|i: int|
                    0 <= i < before.len() - 1 && #[trigger] before[i] == '\r' && before[i + 1]
                        == '\n')
            &&& forall|i: int|
                0 <= i < users.len() ==> now[moved(i, at)] == lines[#[trigger] users[i]]
                    && ends[moved(i, at)] == kept_end(
                    lines,
                    returns_of(before),
                    users[i],
                    moved(i, at) + 1 == now.len(),
                )
        },
{
    let lines = split_text(before);
    let now = merged_lines(lines, block, cmd);
    let ends = closed(merged_ends(before, block, cmd));
    lemma_entries(lines, block);
    lemma_entry_place(lines, block);
    lemma_one_place(lines, block, at, insert_at(lines, block));
    law_user_places(lines, block);
    law_carriage_returns(before);
    lemma_installed_ends(before, cmd, block);
    lemma_installed_new(before, cmd, block);
    law_entry_to_install(cmd, block.indent);
    (now, ends)
}

/// What installing makes of a file without a block: the file, a line feed where
/// it ends without one, and a block with the hook, each line of which ends as
/// the file's do.
#[verifier::rlimit(30)]
pub proof fn law_fresh_install_outcome(
    before: Seq<char>,
    cmd: Seq<char>,
    plan: Result<Option<ConfigEdit>, GitAiError>,
    dry_run: bool,
) -> (entry: Seq<Seq<char>>)
    requires
        hooks_block(split_text(before)) == Ok::<Option<BlockModel>, LayoutIssue>(None),
        edit_planned(plan, before, merged_text(before, cmd), dry_run),
    ensures
        is_hook_entry(entry, cmd, 2),
        plan matches Ok(Some(edit)) && ({
            let feed = if before.len() > 0 && before.last() != '\n' {
                seq!['\n']
            } else {
                Seq::empty()
            };
            let end = if exists|i: int|
                0 <= i < before.len() - 1 && #[trigger] before[i] == '\r' && before[i + 1]
                    == '\n' {
                seq!['\r', '\n']
            } else {
                seq!['\n']
            };
            edit.after@ == before + feed + ("hooks:"@ + end) + (entry[0] + end) + (entry[1] + end)
                + (entry[2] + end) + (entry[3] + end) + (entry[4] + end) + (entry[5] + end)
        }),
{
    let entry = rendered_entry(cmd, 2);
    law_entry_to_install(cmd, 2);
    law_carriage_returns(before);
    crate::lines::lemma_uses_crlf(before);
    let end = line_end(has_crlf(before));
    let all = seq!["hooks:"@] + entry;
    lemma_joined_seven(all, end);
    let feed = if before.len() > 0 && before.last() != '\n' {
        seq!['\n']
    } else {
        Seq::empty()
    };
    assert(all[0] == "hooks:"@ && all[1] == entry[0] && all[2] == entry[1] && all[3] == entry[2]
        && all[4] == entry[3] && all[5] == entry[4] && all[6] == entry[5]);
    let start = before + feed;
    assert(with_fresh_block(before, cmd) =~= start + (joined(all, end) + end));
    lemma_seven_behind(
        start,
        all[0] + end,
        all[1] + end,
        all[2] + end,
        all[3] + end,
        all[4] + end,
        all[5] + end,
        all[6] + end,
    );
    entry
}

/// Seven lines, joined.
proof fn lemma_joined_seven(all: Seq<Seq<char>>, end: Seq<char>)
    requires
        all.len() == 7,
    ensures
        joined(all, end) + end == (all[0] + end) + (all[1] + end) + (all[2] + end) + (all[3] + end)
            + (all[4] + end) + (all[5] + end) + (all[6] + end),
{
    lemma_joined_push(all, end);
    let a = all.drop_last();
    lemma_joined_push(a, end);
    let b = a.drop_last();
    lemma_joined_push(b, end);
    let c = b.drop_last();
    lemma_joined_push(c, end);
    let d = c.drop_last();
    lemma_joined_push(d, end);
    let e = d.drop_last();
    lemma_joined_push(e, end);
    let f = e.drop_last();
    assert(joined(f, end) == f[0]);
    assert(f[0] == all[0] && e.last() == all[1] && d.last() == all[2] && c.last() == all[3]
        && b.last() == all[4] && a.last() == all[5]);
}

/// Seven texts behind another.
proof fn lemma_seven_behind(
    start: Seq<char>,
    a: Seq<char>,
    b: Seq<char>,
    c: Seq<char>,
    d: Seq<char>,
    e: Seq<char>,
    f: Seq<char>,
    g: Seq<char>,
)
    ensures
        start + (a + b + c + d + e + f + g) == start + a + b + c + d + e + f + g,
{
    assert(start + (a + b) =~= start + a + b);
    assert(start + (a + b + c) =~= start + (a + b) + c);
    assert(start + (a + b + c + d) =~= start + (a + b + c) + d);
    assert(start + (a + b + c + d + e) =~= start + (a + b + c + d) + e);
    assert(start + (a + b + c + d + e + f) =~= start + (a + b + c + d + e) + f);
    assert(start + (a + b + c + d + e + f + g) =~= start + (a + b + c + d + e + f) + g);
}

/// Two lines or more, joined.
proof fn lemma_joined_push(all: Seq<Seq<char>>, end: Seq<char>)
    requires
        all.len() > 1,
    ensures
        joined(all, end) + end == joined(all.drop_last(), end) + end + (all.last() + end),
{
    assert(joined(all, end) + end =~= joined(all.drop_last(), end) + end + (all.last() + end));
}

/// Whether lines are what is left of a file without the git-ai entries of its
/// block: all lines in none of them, if one in the block has text; or else the
/// lines before the key and behind the last entry.
pub open spec fn is_left_of(
    lines: Seq<Seq<char>>,
    block: BlockModel,
    now: Seq<Seq<char>>,
) -> bool {
    let users = all_places(lines.len()).filter(|i: int| !is_git_ai_line(lines, block, i));
    let n = block.entries.len() as int;
    let left = lines.take(block.key) + lines.skip(block.entries[n - 1].1);
    if exists|i: int|
        block.key < i < block.end && has_ink(#[trigger] lines[i]) && !is_git_ai_line(
            lines,
            block,
            i,
        ) {
        now == picked(lines, users)
    } else if left.len() > 0 {
        now == left
    } else {
        now == seq![Seq::<char>::empty()]
    }
}

/// Removing takes out the git-ai entries, and nothing else, where the block has
/// anything else with text in it. Where it has not, the block goes with its
/// key, from the key to the end of the last entry. There is nothing to do
/// exactly if no entry is a git-ai one.
#[verifier::rlimit(30)]
pub proof fn law_uninstall_outcome(
    before: Seq<char>,
    plan: Result<Option<ConfigEdit>, GitAiError>,
    dry_run: bool,
)
    requires
        edit_planned(plan, before, stripped_text(before), dry_run),
    ensures
        hooks_block(split_text(before)) matches Ok(None) ==> plan matches Ok(None),
        hooks_block(split_text(before)) matches Ok(Some(block)) ==> {
            let lines = split_text(before);
            let n = block.entries.len() as int;
            let found = exists|j: int| 0 <= j < n && is_git_ai(lines, #[trigger] block.entries[j]);
            if found {
                plan matches Ok(Some(edit)) && is_left_of(lines, block, split_text(edit.after@))
            } else {
                plan matches Ok(None)
            }
        },
        plan matches Ok(Some(edit)) ==> edit.before@ == before && edit.write == !dry_run,
        plan is Err == hooks_block(split_text(before)) is Err,
{
    let lines = split_text(before);
    if let Ok(Some(block)) = hooks_block(lines) {
        let n = block.entries.len() as int;
        let ours = ours_in(lines, block);
        lemma_entries(lines, block);
        law_git_ai_entries(lines, block);
        law_user_places(lines, block);
        lemma_user_picked(lines, lines, block);
        if exists|j: int| 0 <= j < n && is_git_ai(lines, #[trigger] block.entries[j]) {
            let j = choose|j: int| 0 <= j < n && is_git_ai(lines, #[trigger] block.entries[j]);
            assert(ours.contains(j));
            assert(ours.len() > 0);
            lemma_stripped_read(before, block);
            lemma_empty_split();
            lemma_content_left(lines, block);
        } else if ours.len() > 0 {
            assert(ours.contains(ours[0]));
        }
    }
}

/// The lines of an empty file.
proof fn lemma_empty_split()
    ensures
        split_text(Seq::empty()) == seq![Seq::<char>::empty()],
{
    assert(crate::lines::pieces(Seq::empty()) =~= seq![Seq::<char>::empty()]);
    assert(split_text(Seq::empty()) =~= seq![Seq::<char>::empty()]);
}

/// Whether a block has content beside the git-ai entries.
proof fn lemma_content_left(lines: Seq<Seq<char>>, block: BlockModel)
    requires
        is_laid_out(block, lines.len()),
    ensures
        has_remaining_content(lines, block, ours_in(lines, block)) == exists|i: int|
            block.key < i < block.end && has_ink(#[trigger] lines[i]) && !is_git_ai_line(
                lines,
                block,
                i,
            ),
{
    let ours = ours_in(lines, block);
    assert forall|i: int| block.key < i < block.end implies is_blank(#[trigger] lines[i])
        == !has_ink(lines[i]) && in_entries(lines, block.entries, ours, i) == is_git_ai_line(
        lines,
        block,
        i,
    ) by {
        lemma_blank_ink(lines[i]);
        lemma_in_entries(lines, block, i);
    }
    if has_remaining_content(lines, block, ours) {
        let i = choose|i: int|
            block.key < i < block.end && !is_blank(#[trigger] lines[i]) && !in_entries(
                lines,
                block.entries,
                ours,
                i,
            );
        assert(has_ink(lines[i]));
    }
    if exists|i: int|
        block.key < i < block.end && has_ink(#[trigger] lines[i]) && !is_git_ai_line(
            lines,
            block,
            i,
        ) {
        let i = choose|i: int|
            block.key < i < block.end && has_ink(#[trigger] lines[i]) && !is_git_ai_line(
                lines,
                block,
                i,
            );
        assert(!is_blank(lines[i]));
    }
}

/// Whether a line is in a git-ai entry.
proof fn lemma_in_entries(lines: Seq<Seq<char>>, block: BlockModel, i: int)
    requires
        is_laid_out(block, lines.len()),
    ensures
        in_entries(lines, block.entries, ours_in(lines, block), i) == is_git_ai_line(
            lines,
            block,
            i,
        ),
{
    let ours = ours_in(lines, block);
    law_git_ai_entries(lines, block);
    if in_entries(lines, block.entries, ours, i) {
        let k = choose|k: int|
            0 <= k < ours.len() && block.entries[#[trigger] ours[k]].0 <= i < own_end(
                lines,
                block.entries[ours[k]],
            );
        assert(ours.contains(ours[k]));
        assert(0 <= block.entries[ours[k]].0 <= block.entries[ours[k]].1 <= lines.len());
        law_own_lines(lines, block.entries[ours[k]], i);
        assert(is_git_ai(lines, block.entries[ours[k]]));
    }
    if is_git_ai_line(lines, block, i) {
        let j = choose|j: int|
            0 <= j < block.entries.len() && is_git_ai(lines, #[trigger] block.entries[j])
                && is_own_line(lines, block.entries[j], i);
        assert(ours.contains(j));
        let k = choose|k: int| 0 <= k < ours.len() && ours[k] == j;
        assert(0 <= block.entries[j].0 <= block.entries[j].1 <= lines.len());
        law_own_lines(lines, block.entries[j], i);
        assert(block.entries[ours[k]].0 <= i < own_end(lines, block.entries[ours[k]]));
    }
}

/// What rebuilding makes of the entries of a block: those to remove go, the one
/// to replace becomes the new lines, and all others stay, each in its place.
/// The blank lines and comments at the end of an entry stay in any case. New
/// lines that are appended come behind the last entry.
pub proof fn law_rebuilt_entries(
    lines: Seq<Seq<char>>,
    block: BlockModel,
    remove: Seq<int>,
    replace: Option<int>,
    replacement: Seq<Seq<char>>,
    append: bool,
) -> (parts: Seq<Seq<Seq<char>>>)
    requires
        is_laid_out(block, lines.len()),
    ensures
        parts.len() == block.entries.len(),
        rebuilt(lines, lines, block, remove, replace, replacement, append) == lines.take(
            entries_start(block),
        ) + flat(parts) + (if append {
            replacement
        } else {
            Seq::empty()
        }) + lines.skip(entries_end(block)),
        forall|j: int|
            0 <= j < parts.len() ==> {
                let entry = block.entries[j];
                let after = lines.subrange(own_end(lines, entry), entry.1);
                #[trigger] parts[j] == if remove.contains(j) {
                    after
                } else if replace == Some(j) {
                    replacement + after
                } else {
                    lines.subrange(entry.0, entry.1)
                }
            },
{
    let n = block.entries.len() as int;
    lemma_kept_parts(lines, block.entries, remove, replace, replacement, n);
    kept_entries(lines, lines, block.entries, remove, replace, replacement, n)
}

/// What is kept of each entry.
proof fn lemma_kept_parts(
    lines: Seq<Seq<char>>,
    entries: Seq<(int, int)>,
    remove: Seq<int>,
    replace: Option<int>,
    replacement: Seq<Seq<char>>,
    n: int,
)
    requires
        0 <= n <= entries.len(),
    ensures
        ({
            let parts = kept_entries(lines, lines, entries, remove, replace, replacement, n);
            &&& parts.len() == n
            &&& forall|j: int|
                0 <= j < n ==> {
                    let entry = entries[j];
                    let after = lines.subrange(own_end(lines, entry), entry.1);
                    #[trigger] parts[j] == if remove.contains(j) {
                        after
                    } else if replace == Some(j) {
                        replacement + after
                    } else {
                        lines.subrange(entry.0, entry.1)
                    }
                }
        }),
    decreases n,
{
    if n > 0 {
        lemma_kept_parts(lines, entries, remove, replace, replacement, n - 1);
        let before = kept_entries(lines, lines, entries, remove, replace, replacement, n - 1);
        let parts = kept_entries(lines, lines, entries, remove, replace, replacement, n);
        assert forall|j: int| 0 <= j < n - 1 implies #[trigger] parts[j] == before[j] by {}
    }
}

/// A value is read without the whitespace around it, and then without the
/// quotes, if both are of one kind. Any other is read as it is.
pub proof fn law_unquoting(a: Seq<char>, inner: Seq<char>, value: Seq<char>, b: Seq<char>)
    requires
        !has_ink(a),
        !has_ink(b),
    ensures
        unquoted(a + (seq!['\''] + inner + seq!['\'']) + b) == inner,
        unquoted(a + (seq!['"'] + inner + seq!['"']) + b) == inner,
        (value.len() > 0 ==> !is_whitespace(value[0]) && !is_whitespace(value.last())) && !(
        value.len() >= 2 && value[0] == value.last() && (value[0] == '\'' || value[0] == '"'))
            ==> unquoted(a + value + b) == value,
{
    let single = seq!['\''] + inner + seq!['\''];
    law_trimming(a, single, b);
    assert(single.subrange(1, single.len() - 1) =~= inner);
    let double = seq!['"'] + inner + seq!['"'];
    law_trimming(a, double, b);
    assert(double.subrange(1, double.len() - 1) =~= inner);
    if value.len() > 0 ==> !is_whitespace(value[0]) && !is_whitespace(value.last()) {
        law_trimming(a, value, b);
    }
}

/// A check finds the hooks exactly if the block has a git-ai entry, and finds
/// them up to date exactly if one of these gives the command, in quotes or not.
/// Without the program, it finds nothing.
pub proof fn law_check_outcome(
    text: Seq<char>,
    cmd: Seq<char>,
    checked: Result<HookCheckResult, GitAiError>,
    tool_installed: bool,
)
    requires
        checked_as(checked, tool_installed, text, cmd),
    ensures
        !tool_installed ==> (checked matches Ok(result) && !result.tool_installed
            && !result.hooks_installed && !result.hooks_up_to_date),
        tool_installed ==> (checked is Err == hooks_block(split_text(text)) is Err),
        tool_installed ==> (checked matches Ok(result) ==> {
            let lines = split_text(text);
            &&& result.tool_installed
            &&& hooks_block(lines) matches Ok(None) ==> !result.hooks_installed
                && !result.hooks_up_to_date
            &&& hooks_block(lines) matches Ok(Some(block)) ==> {
                &&& result.hooks_installed == exists|j: int|
                    0 <= j < block.entries.len() && is_git_ai(lines, #[trigger] block.entries[j])
                &&& result.hooks_up_to_date == exists|j: int, value: Seq<char>|
                    {
                        &&& 0 <= j < block.entries.len()
                        &&& #[trigger] gives_command(lines, block.entries[j], value)
                        &&& names_checkpoint(value)
                        &&& unquoted(value) == cmd
                    }
            }
        }),
{
    let lines = split_text(text);
    if let Ok(Some(block)) = hooks_block(lines) {
        lemma_entries(lines, block);
        lemma_found(lines, block, cmd);
    }
}

/// What a check finds in a block.
proof fn lemma_found(lines: Seq<Seq<char>>, block: BlockModel, cmd: Seq<char>)
    requires
        is_laid_out(block, lines.len()),
    ensures
        is_installed(lines, block) == exists|j: int|
            0 <= j < block.entries.len() && is_git_ai(lines, #[trigger] block.entries[j]),
        is_up_to_date(lines, block, cmd) == exists|j: int, value: Seq<char>|
            {
                &&& 0 <= j < block.entries.len()
                &&& #[trigger] gives_command(lines, block.entries[j], value)
                &&& names_checkpoint(value)
                &&& unquoted(value) == cmd
            },
{
    let n = block.entries.len() as int;
    assert forall|j: int| 0 <= j < n implies is_ours(entry_lines(lines, #[trigger] block.entries[j]))
        == is_git_ai(lines, block.entries[j]) by {
        assert(0 <= block.entries[j].0 <= block.entries[j].1 <= lines.len());
        law_git_ai_entry(lines, block.entries[j]);
    }
    if is_installed(lines, block) {
        let j = choose|j: int|
            0 <= j < n && is_ours(entry_lines(lines, #[trigger] block.entries[j]));
        assert(is_git_ai(lines, block.entries[j]));
    }
    if is_up_to_date(lines, block, cmd) {
        let j = choose|j: int|
            0 <= j < n && is_ours(entry_lines(lines, #[trigger] block.entries[j])) && unquoted(
                command_in(entry_lines(lines, block.entries[j]))->0,
            ) == cmd;
        let value = command_in(entry_lines(lines, block.entries[j]))->0;
        assert(0 <= block.entries[j].0 <= block.entries[j].1 <= lines.len());
        law_command_of_entry(lines, block.entries[j], value);
        law_checkpoint_command(value);
        assert(gives_command(lines, block.entries[j], value));
    }
    if exists|j: int, value: Seq<char>|
        {
            &&& 0 <= j < block.entries.len()
            &&& #[trigger] gives_command(lines, block.entries[j], value)
            &&& names_checkpoint(value)
            &&& unquoted(value) == cmd
        } {
        let (j, value) = choose|j: int, value: Seq<char>|
            {
                &&& 0 <= j < block.entries.len()
                &&& #[trigger] gives_command(lines, block.entries[j], value)
                &&& names_checkpoint(value)
                &&& unquoted(value) == cmd
            };
        assert(0 <= block.entries[j].0 <= block.entries[j].1 <= lines.len());
        law_command_of_entry(lines, block.entries[j], value);
        law_checkpoint_command(value);
        assert(is_ours(entry_lines(lines, block.entries[j])));
    }
}

/// The command that a hook runs is the program and what it is asked to do.
pub proof fn law_trae_cli_command(binary_path: Seq<char>)
    ensures
        trae_cli_command(binary_path) == binary_path
            + " checkpoint trae --hook-input stdin"@,
{
    reveal_strlit(" ");
    reveal_strlit("checkpoint trae --hook-input stdin");
    reveal_strlit(" checkpoint trae --hook-input stdin");
    assert(trae_cli_command(binary_path) =~= binary_path
        + " checkpoint trae --hook-input stdin"@);
}

} // verus!
