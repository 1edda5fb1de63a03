//! The top-level `hooks:` block of a TraeCLI configuration file, found in the
//! file's lines.
//!
//! The file is read line by line rather than through a YAML parser: it is a
//! small flat map, and what is read this way can be edited without touching
//! the user's formatting and comments. Layouts that cannot be edited safely
//! (a flow-style value, a nested or a second `hooks:` key, entries that are
//! indented unevenly) are reported as errors.
use crate::error::GitAiError;
use crate::text::{
    blank, indent_of, indent_width, is_blank, same_text, starts_with, strip_prefix, texts, trim,
    trim_start, trimmed, trimmed_start,
};
use vstd::prelude::*;

verus! {

/// The indent of entries in a block that has none yet.
pub const DEFAULT_ENTRY_INDENT: usize = 2;

/// A layout that cannot be edited safely.
#[derive(Debug, Clone, Copy, PartialEq, Eq, Structural)]
pub enum LayoutIssue {
    /// The `hooks:` key has its value on the same line.
    FlowStyle,
    /// There is a second top-level `hooks:` key.
    DuplicateKeys,
    /// There is a `hooks:` key below another key.
    NestedKey,
    /// An entry is indented less than the first.
    UnevenIndent,
}

/// What is said of a layout that cannot be edited.
pub open spec fn issue_text(issue: LayoutIssue) -> Seq<char> {
    match issue {
        LayoutIssue::FlowStyle =>
            "trae_cli.yaml uses a flow-style `hooks:` value; refusing to edit it automatically"@,
        LayoutIssue::DuplicateKeys => "trae_cli.yaml has duplicate top-level `hooks:` keys"@,
        LayoutIssue::NestedKey =>
            "trae_cli.yaml has a nested `hooks:` key; refusing to edit it automatically"@,
        LayoutIssue::UnevenIndent =>
            "trae_cli.yaml `hooks:` entries have inconsistent indentation; refusing to edit it automatically"@,
    }
}

/// Whether an error reports a layout issue.
pub open spec fn reports(error: GitAiError, issue: LayoutIssue) -> bool {
    error matches GitAiError::Generic(message) && message@ == issue_text(issue)
}

/// The error that reports a layout issue.
fn layout_error(issue: LayoutIssue) -> (error: GitAiError)
    ensures
        reports(error, issue),
{
    let message = match issue {
        LayoutIssue::FlowStyle =>
            "trae_cli.yaml uses a flow-style `hooks:` value; refusing to edit it automatically",
        LayoutIssue::DuplicateKeys => "trae_cli.yaml has duplicate top-level `hooks:` keys",
        LayoutIssue::NestedKey =>
            "trae_cli.yaml has a nested `hooks:` key; refusing to edit it automatically",
        LayoutIssue::UnevenIndent =>
            "trae_cli.yaml `hooks:` entries have inconsistent indentation; refusing to edit it automatically",
    };
    GitAiError::Generic(message.to_owned())
}

/// Whether a text begins with a character.
pub open spec fn begins(s: Seq<char>, c: char) -> bool {
    s.len() > 0 && s[0] == c
}

fn begins_with(s: &str, c: char) -> (yes: bool)
    ensures
        yes == begins(s@, c),
{
    s.unicode_len() > 0 && s.get_char(0) == c
}

/// A line that is empty, or holds a comment alone.
pub open spec fn is_idle(line: Seq<char>) -> bool {
    is_blank(line) || begins(trimmed_start(line), '#')
}

/// Whether a line is empty, or holds a comment alone.
pub fn idle(line: &str) -> (yes: bool)
    ensures
        yes == is_idle(line@),
{
    blank(line) || begins_with(trim_start(line), '#')
}

/// A line that starts with the `hooks:` key.
pub open spec fn is_hooks_key(line: Seq<char>) -> bool {
    starts_with(line, "hooks:"@)
}

/// A `hooks:` key whose value starts on its own line.
pub open spec fn has_inline_value(line: Seq<char>) -> bool {
    let rest = trimmed(line.skip("hooks:"@.len() as int));
    rest.len() > 0 && rest[0] != '#'
}

/// Whether an indented line holds a `hooks:` key.
pub open spec fn is_nested_key(line: Seq<char>) -> bool {
    !is_hooks_key(line) && starts_with(trimmed_start(line), "hooks:"@)
}

/// Whether a line starts with a space or a tab.
pub open spec fn is_indented(line: Seq<char>) -> bool {
    begins(line, ' ') || begins(line, '\t')
}

/// Whether a line starts a sequence entry.
pub open spec fn is_dash(line: Seq<char>) -> bool {
    trimmed_start(line) == "-"@ || starts_with(trimmed_start(line), "- "@)
}

/// What makes the line at `i` one that cannot be edited around.
pub open spec fn issue_at(lines: Seq<Seq<char>>, i: int) -> Option<LayoutIssue> {
    if is_idle(lines[i]) {
        None
    } else if is_hooks_key(lines[i]) {
        if has_inline_value(lines[i]) {
            Some(LayoutIssue::FlowStyle)
        } else if exists|j: int| 0 <= j < i && is_hooks_key(#[trigger] lines[j]) {
            Some(LayoutIssue::DuplicateKeys)
        } else {
            None
        }
    } else if is_nested_key(lines[i]) {
        Some(LayoutIssue::NestedKey)
    } else {
        None
    }
}

/// The first issue at or after the line at `from`.
pub open spec fn first_issue(lines: Seq<Seq<char>>, from: int) -> Option<LayoutIssue>
    decreases lines.len() - from,
{
    if from >= lines.len() {
        None
    } else if issue_at(lines, from) is Some {
        issue_at(lines, from)
    } else {
        first_issue(lines, from + 1)
    }
}

/// The first line at or after `from` with the `hooks:` key, or the number of
/// lines if there is none.
pub open spec fn key_at(lines: Seq<Seq<char>>, from: int) -> int
    decreases lines.len() - from,
{
    if from >= lines.len() {
        lines.len() as int
    } else if is_hooks_key(lines[from]) {
        from
    } else {
        key_at(lines, from + 1)
    }
}

/// A line that ends the block before it: one with text in its first column.
pub open spec fn ends_block(line: Seq<char>) -> bool {
    !is_blank(line) && !is_indented(line)
}

/// The first line at or after `from` that ends the block, or the number of
/// lines if there is none.
pub open spec fn block_end(lines: Seq<Seq<char>>, from: int) -> int
    decreases lines.len() - from,
{
    if from >= lines.len() {
        lines.len() as int
    } else if ends_block(lines[from]) {
        from
    } else {
        block_end(lines, from + 1)
    }
}

/// The first line in `[from, end)` that starts a sequence entry, or `end` if
/// there is none.
pub open spec fn first_dash(lines: Seq<Seq<char>>, from: int, end: int) -> int
    decreases end - from,
{
    if from >= end {
        end
    } else if is_dash(lines[from]) {
        from
    } else {
        first_dash(lines, from + 1, end)
    }
}

/// Whether a line starts an entry of a block whose entries have this indent.
/// Dashes that are indented further belong to the entry around them.
pub open spec fn starts_entry(line: Seq<char>, indent: nat) -> bool {
    is_dash(line) && indent_width(line) == indent
}

/// The lines in `[from, end)` that start an entry, in file order.
pub open spec fn entry_starts(lines: Seq<Seq<char>>, from: int, end: int, indent: nat) -> Seq<int>
    decreases end - from,
{
    if from >= end {
        Seq::empty()
    } else {
        let before = entry_starts(lines, from, end - 1, indent);
        if starts_entry(lines[end - 1], indent) {
            before.push(end - 1)
        } else {
            before
        }
    }
}

/// The end of `[start, end)` without the blank lines at its end.
pub open spec fn content_end(lines: Seq<Seq<char>>, start: int, end: int) -> int
    decreases end - start,
{
    if end > start && is_blank(lines[end - 1]) {
        content_end(lines, start, end - 1)
    } else {
        end
    }
}

/// The entries that start at `starts`: each reaches to the next, and the last
/// to the end of the block, but for the blank lines there.
pub open spec fn entry_ranges(lines: Seq<Seq<char>>, starts: Seq<int>, end: int) -> Seq<
    (int, int),
> {
    Seq::new(
        starts.len(),
        |j: int|
            (
                starts[j],
                if j + 1 < starts.len() {
                    starts[j + 1]
                } else {
                    content_end(lines, starts[j], end)
                },
            ),
    )
}

/// A `hooks:` block, as positions in a file's lines.
pub struct BlockModel {
    /// The line of the `hooks:` key.
    pub key: int,
    /// The line after the block.
    pub end: int,
    /// The indent of the block's entries.
    pub indent: nat,
    /// The `[start, end)` lines of each entry, in file order.
    pub entries: Seq<(int, int)>,
}

/// The indent of the entries in `[from, end)`.
pub open spec fn block_indent(lines: Seq<Seq<char>>, from: int, end: int) -> nat {
    let first = first_dash(lines, from, end);
    if first < end {
        indent_width(lines[first])
    } else {
        DEFAULT_ENTRY_INDENT as nat
    }
}

/// Whether a dash in `[from, end)` is indented less than the entries.
pub open spec fn is_uneven(lines: Seq<Seq<char>>, from: int, end: int, indent: nat) -> bool {
    exists|i: int|
        from <= i < end && is_dash(#[trigger] lines[i]) && indent_width(lines[i]) < indent
}

/// The top-level `hooks:` block of a file, if it has one and the file can be
/// edited.
pub open spec fn hooks_block(lines: Seq<Seq<char>>) -> Result<Option<BlockModel>, LayoutIssue> {
    let key = key_at(lines, 0);
    let end = block_end(lines, key + 1);
    let indent = block_indent(lines, key + 1, end);
    if first_issue(lines, 0) is Some {
        Err(first_issue(lines, 0)->0)
    } else if key >= lines.len() {
        Ok(None)
    } else if is_uneven(lines, key + 1, end, indent) {
        Err(LayoutIssue::UnevenIndent)
    } else {
        Ok(
            Some(
                BlockModel {
                    key,
                    end,
                    indent,
                    entries: entry_ranges(
                        lines,
                        entry_starts(lines, key + 1, end, indent),
                        end,
                    ),
                },
            ),
        )
    }
}

/// A parsed top-level `hooks:` block in a trae_cli.yaml file.
#[derive(Debug, PartialEq, Eq)]
pub struct HooksBlock {
    /// Line index of the `hooks:` key.
    pub key_idx: usize,
    /// Index one past the last line of the block's body.
    pub end_idx: usize,
    /// Indent width shared by the block's sequence entries.
    pub entry_indent: usize,
    /// `[start, end)` line ranges of each hook entry, in file order.
    pub entries: Vec<(usize, usize)>,
}

impl View for HooksBlock {
    type V = BlockModel;

    open spec fn view(&self) -> BlockModel {
        BlockModel {
            key: self.key_idx as int,
            end: self.end_idx as int,
            indent: self.entry_indent as nat,
            entries: Seq::new(
                self.entries@.len(),
                |j: int| (self.entries@[j].0 as int, self.entries@[j].1 as int),
            ),
        }
    }
}

pub proof fn lemma_first_issue(lines: Seq<Seq<char>>, from: int, i: int)
    requires
        0 <= from <= i <= lines.len(),
        forall|j: int| from <= j < i ==> #[trigger] issue_at(lines, j) is None,
    ensures
        first_issue(lines, from) == first_issue(lines, i),
    decreases i - from,
{
    if from < i {
        assert(issue_at(lines, from) is None);
        lemma_first_issue(lines, from + 1, i);
    }
}

pub proof fn lemma_key_at(lines: Seq<Seq<char>>, from: int, i: int)
    requires
        0 <= from <= i <= lines.len(),
        forall|j: int| from <= j < i ==> !is_hooks_key(#[trigger] lines[j]),
    ensures
        key_at(lines, from) == key_at(lines, i),
    decreases i - from,
{
    if from < i {
        assert(!is_hooks_key(lines[from]));
        lemma_key_at(lines, from + 1, i);
    }
}

pub proof fn lemma_block_end(lines: Seq<Seq<char>>, from: int, i: int)
    requires
        0 <= from <= i <= lines.len(),
        forall|j: int| from <= j < i ==> !ends_block(#[trigger] lines[j]),
    ensures
        block_end(lines, from) == block_end(lines, i),
    decreases i - from,
{
    if from < i {
        assert(!ends_block(lines[from]));
        lemma_block_end(lines, from + 1, i);
    }
}

pub proof fn lemma_first_dash(lines: Seq<Seq<char>>, from: int, i: int, end: int)
    requires
        0 <= from <= i <= end <= lines.len(),
        forall|j: int| from <= j < i ==> !is_dash(#[trigger] lines[j]),
    ensures
        first_dash(lines, from, end) == first_dash(lines, i, end),
    decreases i - from,
{
    if from < i {
        assert(!is_dash(lines[from]));
        lemma_first_dash(lines, from + 1, i, end);
    }
}

/// Where no line is a dash, no entry starts.
pub proof fn lemma_no_starts(lines: Seq<Seq<char>>, from: int, end: int, indent: nat)
    requires
        0 <= from <= end <= lines.len(),
        forall|j: int| from <= j < end ==> !is_dash(#[trigger] lines[j]),
    ensures
        entry_starts(lines, from, end, indent) == Seq::<int>::empty(),
    decreases end - from,
{
    if from < end {
        assert(!is_dash(lines[end - 1]));
        lemma_no_starts(lines, from, end - 1, indent);
    }
}

/// A blank line starts no entry, has no key and ends no block.
pub proof fn lemma_blank_line(line: Seq<char>)
    requires
        is_blank(line),
    ensures
        !is_dash(line),
        !is_hooks_key(line),
        !is_nested_key(line),
        !ends_block(line),
{
    crate::text::lemma_trimmed_start(line);
    reveal_strlit("-");
    reveal_strlit("- ");
    reveal_strlit("hooks:");
    if starts_with(line, "hooks:"@) {
        assert(line[0] == line.take(6)[0]);
    }
}

/// A line with a key is neither blank nor a comment.
pub proof fn lemma_key_line(line: Seq<char>)
    requires
        is_hooks_key(line),
    ensures
        !is_idle(line),
        !is_nested_key(line),
{
    crate::text::lemma_trimmed_start(line);
    reveal_strlit("hooks:");
    assert(line[0] == line.take(6)[0]);
}

/// The line of the top-level `hooks:` key, if there is one.
fn find_key(lines: &[String]) -> (found: Result<Option<usize>, LayoutIssue>)
    ensures
        match found {
            Err(issue) => first_issue(texts(lines@), 0) == Some(issue),
            Ok(key) => {
                &&& first_issue(texts(lines@), 0) is None
                &&& match key {
                    Some(key) => key < lines.len() && key_at(texts(lines@), 0) == key,
                    None => key_at(texts(lines@), 0) == lines@.len(),
                }
            },
        },
{
    let ghost all = texts(lines@);
    let mut key: Option<usize> = None;
    let mut idx: usize = 0;
    while idx < lines.len()
        invariant
            idx <= lines@.len(),
            all == texts(lines@),
            forall|j: int| 0 <= j < idx ==> #[trigger] issue_at(all, j) is None,
            match key {
                Some(key) => {
                    &&& key < idx
                    &&& is_hooks_key(all[key as int])
                    &&& forall|j: int| 0 <= j < key ==> !is_hooks_key(#[trigger] all[j])
                },
                None => forall|j: int| 0 <= j < idx ==> !is_hooks_key(#[trigger] all[j]),
            },
        decreases lines@.len() - idx,
    {
        let line: &str = &lines[idx];
        proof {
            assert(all[idx as int] == line@);
            lemma_first_issue(all, 0, idx as int);
            if is_hooks_key(line@) {
                lemma_key_line(line@);
            }
        }
        let start = trim_start(line);
        if idle(line) {
        } else if let Some(rest) = strip_prefix(line, "hooks:") {
            let rest = trim(rest);
            if !rest.is_empty() && !begins_with(rest, '#') {
                return Err(LayoutIssue::FlowStyle);
            }
            if key.is_some() {
                return Err(LayoutIssue::DuplicateKeys);
            }
            key = Some(idx);
        } else if strip_prefix(start, "hooks:").is_some() {
            return Err(LayoutIssue::NestedKey);
        }
        idx += 1;
    }
    proof {
        lemma_first_issue(all, 0, idx as int);
        match key {
            Some(key) => lemma_key_at(all, 0, key as int),
            None => lemma_key_at(all, 0, idx as int),
        }
    }
    Ok(key)
}

/// The line after the block whose body starts at `from`.
fn find_block_end(lines: &[String], from: usize) -> (end: usize)
    requires
        from <= lines@.len(),
    ensures
        from <= end <= lines@.len(),
        end == block_end(texts(lines@), from as int),
{
    let ghost all = texts(lines@);
    let mut end: usize = from;
    while end < lines.len()
        invariant
            from <= end <= lines@.len(),
            all == texts(lines@),
            forall|j: int| from <= j < end ==> !ends_block(#[trigger] all[j]),
        decreases lines@.len() - end,
    {
        let line: &str = &lines[end];
        proof {
            assert(all[end as int] == line@);
            lemma_block_end(all, from as int, end as int);
        }
        if !blank(line) && !begins_with(line, ' ') && !begins_with(line, '\t') {
            return end;
        }
        end += 1;
    }
    proof {
        lemma_block_end(all, from as int, end as int);
    }
    end
}

/// The end of `[start, end)` without the blank lines at its end.
fn find_content_end(lines: &[String], start: usize, end: usize) -> (content: usize)
    requires
        start <= end <= lines@.len(),
    ensures
        start <= content <= end,
        content == content_end(texts(lines@), start as int, end as int),
{
    let mut content: usize = end;
    while content > start && blank(&lines[content - 1])
        invariant
            start <= content <= end <= lines@.len(),
            content_end(texts(lines@), start as int, content as int) == content_end(
                texts(lines@),
                start as int,
                end as int,
            ),
        decreases content,
    {
        content -= 1;
    }
    content
}

/// Where the entries in `[from, end)` start, and their indent, if there are
/// any.
fn find_entries(lines: &[String], from: usize, end: usize) -> (found: Result<
    (Vec<usize>, usize),
    LayoutIssue,
>)
    requires
        from <= end <= lines@.len(),
    ensures
        ({
            let all = texts(lines@);
            let indent = block_indent(all, from as int, end as int);
            match found {
                Err(issue) => issue == LayoutIssue::UnevenIndent && is_uneven(
                    all,
                    from as int,
                    end as int,
                    indent,
                ),
                Ok((starts, width)) => {
                    &&& !is_uneven(all, from as int, end as int, indent)
                    &&& width == indent
                    &&& starts@.map_values(|start: usize| start as int) == entry_starts(
                        all,
                        from as int,
                        end as int,
                        indent,
                    )
                },
            }
        }),
{
    let ghost all = texts(lines@);
    let mut indent: Option<usize> = None;
    let mut starts: Vec<usize> = Vec::new();
    let mut idx: usize = from;
    while idx < end
        invariant
            from <= idx <= end <= lines@.len(),
            all == texts(lines@),
            indent is None ==> starts@.len() == 0 && forall|j: int|
                from <= j < idx ==> !is_dash(#[trigger] all[j]),
            indent matches Some(width) ==> {
                &&& first_dash(all, from as int, end as int) < end
                &&& width == indent_width(all[first_dash(all, from as int, end as int)])
                &&& !is_uneven(all, from as int, idx as int, width as nat)
                &&& starts@.map_values(|start: usize| start as int) == entry_starts(
                    all,
                    from as int,
                    idx as int,
                    width as nat,
                )
            },
        decreases end - idx,
    {
        let line: &str = &lines[idx];
        let ghost before = starts@;
        proof {
            assert(all[idx as int] == line@);
            if is_blank(line@) {
                lemma_blank_line(line@);
            }
        }
        let start = trim_start(line);
        let is_entry_start = !blank(line) && (same_text(start, "-") || strip_prefix(
            start,
            "- ",
        ).is_some());
        if is_entry_start {
            let width = indent_of(line);
            match indent {
                None => {
                    proof {
                        lemma_first_dash(all, from as int, idx as int, end as int);
                        lemma_no_starts(all, from as int, idx as int, width as nat);
                    }
                    indent = Some(width);
                    starts.push(idx);
                },
                Some(shared) => {
                    if width == shared {
                        starts.push(idx);
                    } else if width < shared {
                        assert(is_dash(all[idx as int]));
                        return Err(LayoutIssue::UnevenIndent);
                    }
                },
            }
            proof {
                if starts@.len() > before.len() {
                    assert(starts@.map_values(|start: usize| start as int) =~= before.map_values(
                        |start: usize| start as int,
                    ).push(idx as int));
                }
            }
        }
        idx += 1;
    }
    match indent {
        Some(width) => Ok((starts, width)),
        None => {
            proof {
                lemma_first_dash(all, from as int, end as int, end as int);
                lemma_no_starts(all, from as int, end as int, DEFAULT_ENTRY_INDENT as nat);
                assert(starts@.map_values(|start: usize| start as int) =~= Seq::empty());
            }
            Ok((starts, DEFAULT_ENTRY_INDENT))
        },
    }
}

/// Where entries start, they start in ascending order within the range.
pub proof fn lemma_starts(lines: Seq<Seq<char>>, from: int, end: int, indent: nat)
    requires
        0 <= from <= end <= lines.len(),
    ensures
        ({
            let starts = entry_starts(lines, from, end, indent);
            &&& forall|j: int|
                0 <= j < starts.len() ==> from <= #[trigger] starts[j] < end && starts_entry(
                    lines[starts[j]],
                    indent,
                )
            &&& forall|j: int, k: int|
                0 <= j < k < starts.len() ==> #[trigger] starts[j] < #[trigger] starts[k]
            &&& forall|i: int|
                from <= i < end && starts_entry(#[trigger] lines[i], indent) ==> starts.contains(i)
        }),
    decreases end - from,
{
    if from < end {
        let before = entry_starts(lines, from, end - 1, indent);
        let starts = entry_starts(lines, from, end, indent);
        lemma_starts(lines, from, end - 1, indent);
        assert forall|i: int| from <= i < end && starts_entry(
            #[trigger] lines[i],
            indent,
        ) implies starts.contains(i) by {
            if i < end - 1 {
                let j = choose|j: int| 0 <= j < before.len() && before[j] == i;
                assert(starts[j] == i);
            } else {
                assert(starts.last() == i);
            }
        }
    }
}

/// Finds the top-level `hooks:` block in a trae_cli.yaml file.
///
/// Returns `Ok(None)` when the file has no `hooks:` key. Returns an error
/// for layouts that cannot be edited safely (flow-style values, nested or
/// duplicate `hooks:` keys, entries that are indented unevenly).
pub fn parse_hooks_block(lines: &[String]) -> (parsed: Result<Option<HooksBlock>, GitAiError>)
    ensures
        match hooks_block(texts(lines@)) {
            Ok(Some(block)) => parsed matches Ok(Some(found)) && found@ == block,
            Ok(None) => parsed matches Ok(None),
            Err(issue) => parsed matches Err(error) && reports(error, issue),
        },
{
    let ghost all = texts(lines@);
    let key_idx = match find_key(lines) {
        Err(issue) => return Err(layout_error(issue)),
        Ok(None) => return Ok(None),
        Ok(Some(key)) => key,
    };
    let end_idx = find_block_end(lines, key_idx + 1);
    let (starts, entry_indent) = match find_entries(lines, key_idx + 1, end_idx) {
        Err(issue) => return Err(layout_error(issue)),
        Ok(found) => found,
    };
    let ghost begun = entry_starts(all, key_idx + 1, end_idx as int, entry_indent as nat);
    proof {
        lemma_starts(all, key_idx + 1, end_idx as int, entry_indent as nat);
        assert(forall|j: int| 0 <= j < starts@.len() ==> #[trigger] begun[j] == starts@[j]);
    }
    let mut entries: Vec<(usize, usize)> = Vec::new();
    let mut j: usize = 0;
    while j < starts.len()
        invariant
            j <= starts@.len(),
            begun.len() == starts@.len(),
            forall|i: int| 0 <= i < starts@.len() ==> #[trigger] begun[i] == starts@[i],
            forall|i: int| 0 <= i < begun.len() ==> key_idx < #[trigger] begun[i] < end_idx,
            end_idx <= lines@.len(),
            all == texts(lines@),
            entries@.len() == j,
            forall|i: int|
                0 <= i < j ==> ((#[trigger] entries@[i]).0 as int, entries@[i].1 as int)
                    == entry_ranges(all, begun, end_idx as int)[i],
        decreases starts@.len() - j,
    {
        let start = starts[j];
        assert(begun[j as int] == start);
        let end = if j + 1 < starts.len() {
            assert(begun[j + 1] == starts@[j + 1]);
            starts[j + 1]
        } else {
            find_content_end(lines, start, end_idx)
        };
        entries.push((start, end));
        j += 1;
    }
    let block = HooksBlock { key_idx, end_idx, entry_indent, entries };
    assert(block@.entries =~= entry_ranges(all, begun, end_idx as int));
    Ok(Some(block))
}

/// The line at which the first entry of a block starts, or at which the block
/// ends if it has no entry.
pub open spec fn entries_start(block: BlockModel) -> int {
    if block.entries.len() > 0 {
        block.entries[0].0
    } else {
        block.end
    }
}

/// The line after the last entry of a block.
pub open spec fn entries_end(block: BlockModel) -> int {
    if block.entries.len() > 0 {
        block.entries.last().1
    } else {
        block.end
    }
}

/// Whether the positions of a block lie in a file of `n` lines, in order.
pub open spec fn block_fits(block: BlockModel, n: nat) -> bool {
    &&& 0 <= block.key < entries_start(block)
    &&& 0 <= entries_end(block) <= block.end <= n
    &&& entries_start(block) <= n
    &&& forall|j: int|
        0 <= j < block.entries.len() ==> 0 <= (#[trigger] block.entries[j]).0
            <= block.entries[j].1 <= n
}

/// Blank lines alone are left out at the end of an entry.
pub proof fn lemma_content_end(lines: Seq<Seq<char>>, start: int, end: int)
    requires
        0 <= start <= end <= lines.len(),
    ensures
        start <= content_end(lines, start, end) <= end,
        forall|i: int| content_end(lines, start, end) <= i < end ==> is_blank(#[trigger] lines[i]),
        content_end(lines, start, end) > start ==> !is_blank(
            lines[content_end(lines, start, end) - 1],
        ),
        start < end && !is_blank(lines[start]) ==> start < content_end(lines, start, end),
    decreases end - start,
{
    if end > start && is_blank(lines[end - 1]) {
        lemma_content_end(lines, start, end - 1);
    }
}

/// The positions of the block that is found in a file lie in that file.
pub proof fn lemma_block_fits(lines: Seq<Seq<char>>)
    ensures
        hooks_block(lines) matches Ok(Some(block)) ==> block_fits(block, lines.len()),
{
    if let Ok(Some(block)) = hooks_block(lines) {
        let starts = entry_starts(lines, block.key + 1, block.end, block.indent);
        lemma_key_range(lines, 0);
        lemma_block_end_range(lines, block.key + 1);
        lemma_starts(lines, block.key + 1, block.end, block.indent);
        assert forall|j: int| 0 <= j < block.entries.len() implies 0 <= (
        #[trigger] block.entries[j]).0 <= block.entries[j].1 <= lines.len() by {
            assert(starts[j] < block.end);
            if j + 1 < starts.len() {
                assert(starts[j] < starts[j + 1]);
            } else {
                lemma_content_end(lines, starts[j], block.end);
            }
        }
        if starts.len() > 0 {
            assert(block.key < starts[0]);
            lemma_content_end(lines, starts.last(), block.end);
        }
    }
}

pub proof fn lemma_key_range(lines: Seq<Seq<char>>, from: int)
    requires
        0 <= from <= lines.len(),
    ensures
        from <= key_at(lines, from) <= lines.len(),
        key_at(lines, from) < lines.len() ==> is_hooks_key(lines[key_at(lines, from)]),
        forall|j: int| from <= j < key_at(lines, from) ==> !is_hooks_key(#[trigger] lines[j]),
    decreases lines.len() - from,
{
    if from < lines.len() && !is_hooks_key(lines[from]) {
        lemma_key_range(lines, from + 1);
    }
}

pub proof fn lemma_block_end_range(lines: Seq<Seq<char>>, from: int)
    requires
        0 <= from <= lines.len(),
    ensures
        from <= block_end(lines, from) <= lines.len(),
        block_end(lines, from) < lines.len() ==> ends_block(lines[block_end(lines, from)]),
        forall|j: int| from <= j < block_end(lines, from) ==> !ends_block(#[trigger] lines[j]),
    decreases lines.len() - from,
{
    if from < lines.len() && !ends_block(lines[from]) {
        lemma_block_end_range(lines, from + 1);
    }
}

} // verus!
