//! What the `hooks:` block of a file is, said of the characters of its lines.
use crate::error::GitAiError;
use crate::hooks_block::{
    block_end, block_indent, content_end, ends_block, entry_starts, first_dash, first_issue,
    has_inline_value, hooks_block, is_dash, is_hooks_key, is_idle, is_nested_key, is_uneven,
    issue_at, key_at, lemma_block_end_range, lemma_content_end, lemma_key_line, lemma_key_range,
    lemma_starts, reports, starts_entry, BlockModel, LayoutIssue,
};
use crate::text::{
    indent_width, is_blank, is_whitespace, lemma_trimmed_end, lemma_trimmed_start, starts_with,
    trimmed, trimmed_start,
};
use crate::text_laws::{has_ink, ink_at, law_searching, opens_with, reads_at, says_nothing};
use vstd::prelude::*;

verus! {

/// Whether a line begins with a dash, behind whitespace, that is followed by a
/// space or by nothing.
pub open spec fn dash_line(line: Seq<char>) -> bool {
    exists|k: int| #[trigger]
        ink_at(line, k) && line[k] == '-' && (k + 1 == line.len() || line[k + 1] == ' ')
}

/// Whether a line has nothing in its first column but whitespace that indents
/// it, or no text at all.
pub open spec fn is_inside(line: Seq<char>) -> bool {
    !has_ink(line) || line[0] == ' ' || line[0] == '\t'
}

/// A line is blank exactly if it has no text.
pub proof fn lemma_blank_ink(line: Seq<char>)
    ensures
        is_blank(line) == !has_ink(line),
{
}

/// Where the first text of a line stands.
pub proof fn lemma_ink(line: Seq<char>) -> (k: int)
    ensures
        k == line.len() - trimmed_start(line).len(),
        has_ink(line) == ink_at(line, k),
        trimmed_start(line) == line.skip(k),
        0 <= k <= line.len(),
        forall|j: int| #[trigger] ink_at(line, j) ==> j == k,
{
    lemma_trimmed_start(line);
    let k = line.len() - trimmed_start(line).len();
    let space = line.take(k);
    assert forall|m: int| 0 <= m < k implies is_whitespace(#[trigger] line[m]) by {
        assert(space[m] == line[m]);
    }
    if k < line.len() {
        assert(trimmed_start(line)[0] == line[k]);
    }
    if has_ink(line) {
        let m = choose|m: int| 0 <= m < line.len() && !is_whitespace(#[trigger] line[m]);
        assert(k <= m);
    }
    assert forall|j: int| #[trigger] ink_at(line, j) implies j == k by {
        if j < k {
            assert(is_whitespace(line[j]));
        }
        if j > k {
            assert(is_whitespace(line[k]));
        }
    }
    k
}

/// What a line begins with, behind whitespace.
pub proof fn lemma_opens(line: Seq<char>, text: Seq<char>)
    requires
        text.len() > 0,
        !is_whitespace(text[0]),
    ensures
        starts_with(trimmed_start(line), text) == opens_with(line, text),
        reads_at(line, 0, text) ==> opens_with(line, text),
{
    let k = lemma_ink(line);
    let rest = line.skip(k);
    law_searching(rest, text);
    if starts_with(rest, text) {
        assert(rest[0] == text[0]);
        assert(ink_at(line, k));
        assert(reads_at(line, k, text)) by {
            assert forall|m: int| 0 <= m < text.len() implies line[k + m] == #[trigger] text[m] by {
                assert(rest[m] == text[m]);
            }
        }
    }
    if opens_with(line, text) {
        let j = choose|j: int| #[trigger] ink_at(line, j) && reads_at(line, j, text);
        assert(j == k);
        assert forall|m: int| 0 <= m < text.len() implies rest[0 + m] == #[trigger] text[m] by {
            assert(line[k + m] == text[m]);
        }
        assert(reads_at(rest, 0, text));
    }
    if reads_at(line, 0, text) {
        assert(line[0int + 0] == text[0]);
        assert(ink_at(line, 0));
    }
}

/// Blank lines and comments.
pub proof fn lemma_idle_says(line: Seq<char>)
    ensures
        is_idle(line) == says_nothing(line),
{
    let k = lemma_ink(line);
    lemma_blank_ink(line);
    if has_ink(line) {
        assert(ink_at(line, k));
        assert(trimmed_start(line)[0] == line[k]);
    }
}

/// Lines that begin with a dash.
pub proof fn lemma_dash_line(line: Seq<char>)
    ensures
        is_dash(line) == dash_line(line),
{
    let k = lemma_ink(line);
    let rest = line.skip(k);
    reveal_strlit("-");
    reveal_strlit("- ");
    law_searching(rest, "- "@);
    if is_dash(line) {
        if rest == "-"@ {
            assert(rest.len() == 1);
        } else {
            assert(rest[0int + 0] == "- "@[0]);
            assert(rest[0int + 1] == "- "@[1]);
        }
        assert(rest[0] == '-');
        assert(line[k] == '-');
        assert(ink_at(line, k));
        if k + 1 < line.len() {
            assert(rest[1] == line[k + 1]);
        }
    }
    if dash_line(line) {
        assert(ink_at(line, k));
        assert(rest[0] == line[k]);
        if k + 1 == line.len() {
            assert(rest =~= "-"@);
        } else {
            assert(rest[1] == line[k + 1]);
            assert forall|m: int| 0 <= m < "- "@.len() implies rest[0 + m] == #[trigger] "- "@[m] by {
            }
            assert(reads_at(rest, 0, "- "@));
        }
    }
}

/// Lines with a `hooks:` key.
pub proof fn lemma_key_says(line: Seq<char>)
    ensures
        is_hooks_key(line) == reads_at(line, 0, "hooks:"@),
        (is_hooks_key(line) || is_nested_key(line)) == opens_with(line, "hooks:"@),
        is_hooks_key(line) ==> has_inline_value(line) == !says_nothing(line.skip(6)),
        opens_with(line, "hooks:"@) ==> !says_nothing(line),
{
    reveal_strlit("hooks:");
    law_searching(line, "hooks:"@);
    lemma_opens(line, "hooks:"@);
    if is_hooks_key(line) {
        let rest = line.skip(6);
        let k = lemma_ink(rest);
        lemma_trimmed_end(trimmed_start(rest));
        lemma_trimmed_start(rest);
        lemma_blank_ink(rest);
        lemma_blank_ink(trimmed_start(rest));
        if has_ink(rest) {
            assert(ink_at(rest, k));
            assert(trimmed_start(rest)[0] == rest[k]);
            assert(has_ink(trimmed_start(rest)));
            assert(trimmed(rest)[0] == rest[k]);
        } else {
            assert(trimmed_start(rest).len() == 0);
            assert(trimmed(rest).len() == 0);
        }
    }
    if opens_with(line, "hooks:"@) {
        let k = choose|k: int| #[trigger] ink_at(line, k) && reads_at(line, k, "hooks:"@);
        assert(line[k + 0] == "hooks:"@[0]);
        let j = lemma_ink(line);
        assert(j == k);
    }
}

/// What makes a line of a file one that cannot be edited around: a key with a
/// value on its line, a second key, or a key that is indented.
pub open spec fn offends(lines: Seq<Seq<char>>, i: int, issue: LayoutIssue) -> bool {
    let line = lines[i];
    match issue {
        LayoutIssue::FlowStyle => reads_at(line, 0, "hooks:"@) && !says_nothing(line.skip(6)),
        LayoutIssue::DuplicateKeys => {
            &&& reads_at(line, 0, "hooks:"@)
            &&& says_nothing(line.skip(6))
            &&& exists|j: int| 0 <= j < i && reads_at(#[trigger] lines[j], 0, "hooks:"@)
        },
        LayoutIssue::NestedKey => opens_with(line, "hooks:"@) && !reads_at(line, 0, "hooks:"@),
        LayoutIssue::UnevenIndent => false,
    }
}

/// The issue of a line.
proof fn lemma_offends(lines: Seq<Seq<char>>, i: int)
    requires
        0 <= i < lines.len(),
    ensures
        forall|issue: LayoutIssue| #[trigger]
            offends(lines, i, issue) == (issue_at(lines, i) == Some(issue)),
{
    let line = lines[i];
    lemma_key_says(line);
    lemma_idle_says(line);
    if is_hooks_key(line) {
        lemma_key_line(line);
    }
    if exists|j: int| 0 <= j < i && is_hooks_key(#[trigger] lines[j]) {
        let j = choose|j: int| 0 <= j < i && is_hooks_key(#[trigger] lines[j]);
        lemma_key_says(lines[j]);
        assert(reads_at(lines[j], 0, "hooks:"@));
    }
    if exists|j: int| 0 <= j < i && reads_at(#[trigger] lines[j], 0, "hooks:"@) {
        let j = choose|j: int| 0 <= j < i && reads_at(#[trigger] lines[j], 0, "hooks:"@);
        lemma_key_says(lines[j]);
        assert(is_hooks_key(lines[j]));
    }
}

/// The first issue is that of some line, and the lines before have none.
proof fn lemma_issue_found(lines: Seq<Seq<char>>, from: int) -> (i: int)
    requires
        0 <= from <= lines.len(),
    ensures
        from <= i <= lines.len(),
        first_issue(lines, from) == (if i < lines.len() {
            issue_at(lines, i)
        } else {
            None
        }),
        i < lines.len() ==> issue_at(lines, i) is Some,
        forall|j: int| from <= j < i ==> #[trigger] issue_at(lines, j) is None,
    decreases lines.len() - from,
{
    if from < lines.len() && issue_at(lines, from) is None {
        lemma_issue_found(lines, from + 1)
    } else {
        from
    }
}

/// Whether a file has a line that cannot be edited around.
pub open spec fn has_offence(lines: Seq<Seq<char>>) -> bool {
    exists|i: int, issue: LayoutIssue|
        0 <= i < lines.len() && #[trigger] offends(lines, i, issue)
}

/// A file is refused, for the first line that offends, if it has a `hooks:`
/// key with a value on its line, a second `hooks:` key, or an indented one.
pub proof fn law_offending_file_is_refused(lines: Seq<Seq<char>>)
    ensures
        has_offence(lines) ==> (hooks_block(lines) matches Err(issue) && exists|i: int|
            0 <= i < lines.len() && #[trigger] offends(lines, i, issue) && forall|
                j: int,
                other: LayoutIssue,
            |
                0 <= j < i ==> !#[trigger] offends(lines, j, other)),
        !has_offence(lines) ==> (hooks_block(lines) matches Err(issue) ==> issue
            == LayoutIssue::UnevenIndent),
{
    let i = lemma_issue_found(lines, 0);
    assert forall|j: int, other: LayoutIssue| 0 <= j < i implies !#[trigger] offends(
        lines,
        j,
        other,
    ) by {
        lemma_offends(lines, j);
    }
    if i < lines.len() {
        lemma_offends(lines, i);
        let issue = issue_at(lines, i)->0;
        assert(offends(lines, i, issue));
    } else if has_offence(lines) {
        let (j, issue) = choose|j: int, issue: LayoutIssue|
            0 <= j < lines.len() && #[trigger] offends(lines, j, issue);
        assert(!offends(lines, j, issue));
    }
}

/// A file without a line that begins with `hooks:`, indented or not, has no
/// block, and any other that is not refused has one.
pub proof fn law_file_without_key_has_no_block(lines: Seq<Seq<char>>)
    ensures
        (hooks_block(lines) == Ok::<Option<BlockModel>, LayoutIssue>(None)) == forall|i: int|
            0 <= i < lines.len() ==> !opens_with(#[trigger] lines[i], "hooks:"@),
{
    let i = lemma_issue_found(lines, 0);
    lemma_key_range(lines, 0);
    let key = key_at(lines, 0);
    if hooks_block(lines) == Ok::<Option<BlockModel>, LayoutIssue>(None) {
        assert forall|j: int| 0 <= j < lines.len() implies !opens_with(
            #[trigger] lines[j],
            "hooks:"@,
        ) by {
            assert(issue_at(lines, j) is None);
            lemma_offends(lines, j);
            lemma_key_says(lines[j]);
            assert(!offends(lines, j, LayoutIssue::NestedKey));
        }
    }
    if forall|j: int| 0 <= j < lines.len() ==> !opens_with(#[trigger] lines[j], "hooks:"@) {
        assert forall|j: int| 0 <= j < lines.len() implies #[trigger] issue_at(
            lines,
            j,
        ) is None by {
            lemma_key_says(lines[j]);
            assert(!opens_with(lines[j], "hooks:"@));
        }
        if key < lines.len() {
            lemma_key_says(lines[key]);
        }
    }
}

/// The key of a block is the only line of the file that begins with `hooks:`,
/// indented or not. It is not indented, and has nothing behind it but a
/// comment.
pub proof fn law_key_of_block(lines: Seq<Seq<char>>)
    ensures
        hooks_block(lines) matches Ok(Some(block)) ==> {
            &&& 0 <= block.key < lines.len()
            &&& reads_at(lines[block.key], 0, "hooks:"@)
            &&& says_nothing(lines[block.key].skip(6))
            &&& forall|i: int|
                0 <= i < lines.len() && i != block.key ==> !opens_with(
                    #[trigger] lines[i],
                    "hooks:"@,
                )
        },
{
    if let Ok(Some(block)) = hooks_block(lines) {
        let i = lemma_issue_found(lines, 0);
        lemma_key_range(lines, 0);
        lemma_key_says(lines[block.key]);
        assert(issue_at(lines, block.key) is None);
        lemma_offends(lines, block.key);
        assert(!offends(lines, block.key, LayoutIssue::FlowStyle));
        assert forall|j: int| 0 <= j < lines.len() && j != block.key implies !opens_with(
            #[trigger] lines[j],
            "hooks:"@,
        ) by {
            assert(issue_at(lines, j) is None);
            lemma_offends(lines, j);
            lemma_key_says(lines[j]);
            assert(!offends(lines, j, LayoutIssue::NestedKey));
            assert(!offends(lines, j, LayoutIssue::FlowStyle));
            assert(!offends(lines, j, LayoutIssue::DuplicateKeys));
            if j > block.key && is_hooks_key(lines[j]) {
                assert(reads_at(lines[block.key], 0, "hooks:"@));
            }
        }
    }
}

/// The body of a block ends at the first line after the key that has text in
/// its first column, whatever the text is: every line of the body is blank or
/// begins with a space or a tab, and the line after the body does not.
pub proof fn law_body_of_block(lines: Seq<Seq<char>>)
    ensures
        hooks_block(lines) matches Ok(Some(block)) ==> {
            &&& block.key < block.end <= lines.len()
            &&& forall|i: int| block.key < i < block.end ==> is_inside(#[trigger] lines[i])
            &&& block.end < lines.len() ==> !is_inside(lines[block.end])
        },
{
    if let Ok(Some(block)) = hooks_block(lines) {
        lemma_key_range(lines, 0);
        lemma_block_end_range(lines, block.key + 1);
        assert forall|i: int| block.key < i < block.end implies is_inside(#[trigger] lines[i]) by {
            assert(!ends_block(lines[i]));
            lemma_blank_ink(lines[i]);
        }
        if block.end < lines.len() {
            lemma_blank_ink(lines[block.end]);
        }
    }
}

/// The first dash of a stretch of lines.
proof fn lemma_first_dash_is(lines: Seq<Seq<char>>, from: int, end: int)
    requires
        0 <= from <= end <= lines.len(),
    ensures
        from <= first_dash(lines, from, end) <= end,
        first_dash(lines, from, end) < end ==> is_dash(lines[first_dash(lines, from, end)]),
        forall|i: int| from <= i < first_dash(lines, from, end) ==> !is_dash(#[trigger] lines[i]),
    decreases end - from,
{
    if from < end && !is_dash(lines[from]) {
        lemma_first_dash_is(lines, from + 1, end);
    }
}

/// The indent of a block is that of its first dash, or two where it has none,
/// and no dash of its body is indented less.
pub proof fn law_indent_of_block(lines: Seq<Seq<char>>)
    ensures
        hooks_block(lines) matches Ok(Some(block)) ==> {
            &&& forall|i: int|
                block.key < i < block.end && dash_line(#[trigger] lines[i]) ==> indent_width(
                    lines[i],
                ) >= block.indent
            &&& forall|i: int|
                block.key < i < block.end && dash_line(#[trigger] lines[i]) && (forall|m: int|
                    block.key < m < i ==> !dash_line(#[trigger] lines[m])) ==> indent_width(
                    lines[i],
                ) == block.indent
            &&& (forall|i: int| block.key < i < block.end ==> !dash_line(#[trigger] lines[i]))
                ==> block.indent == 2
        },
{
    if let Ok(Some(block)) = hooks_block(lines) {
        let from = block.key + 1;
        lemma_key_range(lines, 0);
        lemma_block_end_range(lines, from);
        lemma_first_dash_is(lines, from, block.end);
        let first = first_dash(lines, from, block.end);
        assert forall|i: int| block.key < i < block.end implies dash_line(#[trigger] lines[i])
            == is_dash(lines[i]) by {
            lemma_dash_line(lines[i]);
        }
        if first < block.end {
            assert(dash_line(lines[first]));
        }
    }
}

/// Where a dash of a body is indented less than the first one, the file is
/// refused, and a file without lines that offend is refused for nothing else.
pub proof fn law_uneven_file_is_refused(lines: Seq<Seq<char>>, key: int, first: int, i: int)
    requires
        0 <= key < first < i < lines.len(),
        reads_at(lines[key], 0, "hooks:"@),
        forall|m: int| key < m <= i ==> is_inside(#[trigger] lines[m]),
        forall|m: int| key < m < first ==> !dash_line(#[trigger] lines[m]),
        dash_line(lines[first]),
        dash_line(lines[i]),
        indent_width(lines[i]) < indent_width(lines[first]),
    ensures
        hooks_block(lines) is Err,
{
    if let Ok(found) = hooks_block(lines) {
        law_file_without_key_has_no_block(lines);
        lemma_key_says(lines[key]);
        assert(opens_with(lines[key], "hooks:"@));
        let block = found->0;
        law_key_of_block(lines);
        assert(block.key == key);
        law_body_of_block(lines);
        if block.end <= i {
            assert(is_inside(lines[block.end]));
        }
        law_indent_of_block(lines);
        assert(dash_line(lines[first]));
        assert(dash_line(lines[i]));
    }
}

/// What is refused for uneven dashes has such dashes.
pub proof fn law_refused_file_is_uneven(lines: Seq<Seq<char>>)
    ensures
        hooks_block(lines) == Err::<Option<BlockModel>, LayoutIssue>(LayoutIssue::UnevenIndent)
            ==> exists|key: int, first: int, i: int|
            {
                &&& 0 <= key < first < i < lines.len()
                &&& reads_at(lines[key], 0, "hooks:"@)
                &&& forall|m: int| key < m <= i ==> is_inside(#[trigger] lines[m])
                &&& forall|m: int| key < m < first ==> !dash_line(#[trigger] lines[m])
                &&& #[trigger] dash_line(lines[first])
                &&& #[trigger] dash_line(lines[i])
                &&& indent_width(lines[i]) < indent_width(lines[first])
                &&& #[trigger] reads_at(lines[key], 0, "hooks:"@)
            },
{
    if hooks_block(lines) == Err::<Option<BlockModel>, LayoutIssue>(LayoutIssue::UnevenIndent) {
        let at = lemma_issue_found(lines, 0);
        if at < lines.len() {
            lemma_offends(lines, at);
            assert(offends(lines, at, issue_at(lines, at)->0));
        }
        let key = key_at(lines, 0);
        let end = block_end(lines, key + 1);
        let indent = block_indent(lines, key + 1, end);
        lemma_key_range(lines, 0);
        lemma_key_says(lines[key]);
        lemma_block_end_range(lines, key + 1);
        lemma_first_dash_is(lines, key + 1, end);
        let first = first_dash(lines, key + 1, end);
        assert(is_uneven(lines, key + 1, end, indent));
        let i = choose|i: int|
            key + 1 <= i < end && is_dash(#[trigger] lines[i]) && indent_width(lines[i]) < indent;
        lemma_dash_line(lines[i]);
        assert(first <= i);
        lemma_dash_line(lines[first]);
        assert forall|m: int| key < m <= i implies is_inside(#[trigger] lines[m]) by {
            assert(!ends_block(lines[m]));
            lemma_blank_ink(lines[m]);
        }
        assert forall|m: int| key < m < first implies !dash_line(#[trigger] lines[m]) by {
            lemma_dash_line(lines[m]);
        }
        assert(dash_line(lines[first]) && dash_line(lines[i]) && reads_at(
            lines[key],
            0,
            "hooks:"@,
        ));
    }
}

/// The entries of a block: each starts at a dash of the block's indent, and
/// each such dash of the body starts one. An entry reaches to the next, and the
/// last one to the last line of the body that has text.
pub proof fn law_entries_of_block(lines: Seq<Seq<char>>)
    ensures
        hooks_block(lines) matches Ok(Some(block)) ==> {
            let n = block.entries.len() as int;
            &&& forall|j: int|
                0 <= j < n ==> {
                    let entry = #[trigger] block.entries[j];
                    &&& block.key < entry.0 < entry.1 <= block.end
                    &&& dash_line(lines[entry.0])
                    &&& indent_width(lines[entry.0]) == block.indent
                }
            &&& forall|i: int|
                block.key < i < block.end && dash_line(#[trigger] lines[i]) && indent_width(
                    lines[i],
                ) == block.indent ==> exists|j: int| 0 <= j < n && #[trigger] block.entries[j].0 == i
            &&& forall|j: int|
                0 <= j < n - 1 ==> (#[trigger] block.entries[j]).1 == block.entries[j + 1].0
            &&& n > 0 ==> {
                &&& has_ink(lines[block.entries[n - 1].1 - 1])
                &&& forall|i: int|
                    block.entries[n - 1].1 <= i < block.end ==> !has_ink(#[trigger] lines[i])
            }
        },
{
    if let Ok(Some(block)) = hooks_block(lines) {
        let n = block.entries.len() as int;
        let starts = entry_starts(lines, block.key + 1, block.end, block.indent);
        lemma_key_range(lines, 0);
        lemma_block_end_range(lines, block.key + 1);
        lemma_starts(lines, block.key + 1, block.end, block.indent);
        assert forall|j: int| 0 <= j < n implies ({
            let entry = #[trigger] block.entries[j];
            &&& block.key < entry.0 < entry.1 <= block.end
            &&& dash_line(lines[entry.0])
            &&& indent_width(lines[entry.0]) == block.indent
        }) by {
            let start = starts[j];
            lemma_dash_line(lines[start]);
            if j + 1 < n {
                assert(starts[j] < starts[j + 1]);
            } else {
                lemma_content_end(lines, start, block.end);
                lemma_dash_ink(lines[start]);
            }
        }
        assert forall|i: int|
            block.key < i < block.end && dash_line(#[trigger] lines[i]) && indent_width(lines[i])
                == block.indent implies exists|j: int|
            0 <= j < n && #[trigger] block.entries[j].0 == i by {
            lemma_dash_line(lines[i]);
            assert(starts_entry(lines[i], block.indent));
            let j = choose|j: int| 0 <= j < starts.len() && starts[j] == i;
            assert(block.entries[j].0 == i);
        }
        if n > 0 {
            let start = starts[n - 1];
            let end = content_end(lines, start, block.end);
            lemma_content_end(lines, start, block.end);
            lemma_dash_line(lines[start]);
            lemma_dash_ink(lines[start]);
            lemma_blank_ink(lines[end - 1]);
            assert forall|i: int| end <= i < block.end implies !has_ink(#[trigger] lines[i]) by {
                lemma_blank_ink(lines[i]);
            }
        }
    }
}

/// A line with a dash is not blank.
proof fn lemma_dash_ink(line: Seq<char>)
    requires
        dash_line(line),
    ensures
        has_ink(line),
        !is_blank(line),
{
    let k = choose|k: int| #[trigger]
        ink_at(line, k) && line[k] == '-' && (k + 1 == line.len() || line[k + 1] == ' ');
    assert(!is_whitespace(line[k]));
}

/// What is said of each layout that is refused.
pub proof fn law_refusals_are_told(error: GitAiError, issue: LayoutIssue)
    requires
        reports(error, issue),
    ensures
        error matches GitAiError::Generic(message) && match issue {
            LayoutIssue::FlowStyle => message@
                == "trae_cli.yaml uses a flow-style `hooks:` value; refusing to edit it automatically"@,
            LayoutIssue::DuplicateKeys => message@
                == "trae_cli.yaml has duplicate top-level `hooks:` keys"@,
            LayoutIssue::NestedKey => message@
                == "trae_cli.yaml has a nested `hooks:` key; refusing to edit it automatically"@,
            LayoutIssue::UnevenIndent => message@
                == "trae_cli.yaml `hooks:` entries have inconsistent indentation; refusing to edit it automatically"@,
        },
{
}

} // verus!
