//! The entry that the TRAE CLI installer writes, and what is left of a
//! `hooks:` block when entries are replaced and removed.
use crate::block_shape::{
    block_line, entry_shape, lemma_compose, lemma_decompose, lemma_flat_push, lemma_no_key,
    lemma_quiet_lines, lemma_settled, parts_of, quiet, settled, without_tail, FileParts,
};
use crate::hooks_block::{
    block_fits, ends_block, entries_end, entries_start, hooks_block, is_dash, is_hooks_key,
    is_idle, is_nested_key, lemma_blank_line, lemma_block_fits, lemma_content_end, starts_entry,
    BlockModel, LayoutIssue, DEFAULT_ENTRY_INDENT,
};
use crate::installer::checkpoint_command;
use crate::lines::{ends_in_return, one_line};
use crate::text::{
    contains, indent_width, is_blank, is_whitespace, lemma_trimmed_end_at, lemma_trimmed_start,
    lemma_trimmed_start_at, occurs_at, quotes_doubled, spaces, starts_with, trimmed,
    trimmed_start,
};
use crate::trae_cli::{
    command_in, command_value, entry_lines, flat, is_canonical, is_command_line, is_ours,
    kept_entries, lemma_our_entries, lemma_own_end, merged, merged_lines, our_entries, ours_in,
    own_end, rebuilt, rendered_entry, unquoted,
};
use vstd::prelude::*;
use vstd::utf8::{encode_utf8, is_ascii_chars, is_ascii_chars_encode_utf8};

verus! {

/// What is known of a line that is made of an indent and a text.
proof fn lemma_indented(indent: nat, text: Seq<char>)
    requires
        indent > 0,
        text.len() > 0,
        !is_whitespace(text[0]),
    ensures
        ({
            let line = spaces(indent) + text;
            &&& trimmed_start(line) == text
            &&& indent_width(line) == indent
            &&& !is_blank(line)
            &&& !ends_block(line)
            &&& !is_hooks_key(line)
        }),
{
    let line = spaces(indent) + text;
    lemma_trimmed_start_at(line, indent as int);
    assert(line.skip(indent as int) =~= text);
    lemma_trimmed_start(line);
    let space = line.take(line.len() - text.len());
    assert(space =~= spaces(indent));
    assert(is_ascii_chars(space));
    is_ascii_chars_encode_utf8(space);
    assert(line[0] == ' ');
    reveal_strlit("hooks:");
    if is_hooks_key(line) {
        assert(line.take(6)[0] == 'h');
    }
}

/// The doubling of quotes works piece by piece.
proof fn lemma_doubled_concat(a: Seq<char>, b: Seq<char>)
    ensures
        quotes_doubled(a + b) == quotes_doubled(a) + quotes_doubled(b),
    decreases b.len(),
{
    if b.len() == 0 {
        assert(a + b =~= a);
        assert(quotes_doubled(a) + quotes_doubled(b) =~= quotes_doubled(a));
    } else {
        assert((a + b).drop_last() =~= a + b.drop_last());
        lemma_doubled_concat(a, b.drop_last());
        assert(quotes_doubled(a + b) =~= quotes_doubled(a) + quotes_doubled(b));
    }
}

/// Text without quotes stays as it is.
proof fn lemma_doubled_same(s: Seq<char>)
    requires
        forall|i: int| 0 <= i < s.len() ==> #[trigger] s[i] != '\'',
    ensures
        quotes_doubled(s) == s,
    decreases s.len(),
{
    if s.len() > 0 {
        let t = s.drop_last();
        assert forall|i: int| 0 <= i < t.len() implies #[trigger] t[i] != '\'' by {
            assert(t[i] == s[i]);
        }
        lemma_doubled_same(t);
        assert(s[s.len() - 1] != '\'');
        assert(t.push(s.last()) =~= s);
    } else {
        assert(s =~= Seq::empty());
    }
}

/// The doubling of quotes brings in no line feed.
proof fn lemma_doubled_one_line(s: Seq<char>)
    requires
        one_line(s),
    ensures
        one_line(quotes_doubled(s)),
    decreases s.len(),
{
    if s.len() > 0 {
        let t = s.drop_last();
        assert forall|i: int| 0 <= i < t.len() implies #[trigger] t[i] != '\n' by {
            assert(t[i] == s[i]);
        }
        lemma_doubled_one_line(t);
        assert(s[s.len() - 1] != '\n');
    }
}

/// What occurs in a text, and has no quote in it, occurs in it with quotes
/// doubled and quotes around it.
proof fn lemma_contains_quoted(s: Seq<char>, pattern: Seq<char>)
    requires
        contains(s, pattern),
        forall|i: int| 0 <= i < pattern.len() ==> #[trigger] pattern[i] != '\'',
    ensures
        contains(seq!['\''] + quotes_doubled(s) + seq!['\''], pattern),
{
    let at = choose|at: int| #[trigger] occurs_at(s, pattern, at);
    let a = s.take(at);
    let b = s.skip(at + pattern.len());
    assert(s =~= a + pattern + b);
    lemma_doubled_concat(a + pattern, b);
    lemma_doubled_concat(a, pattern);
    lemma_doubled_same(pattern);
    let quoted = seq!['\''] + quotes_doubled(s) + seq!['\''];
    let there = (1 + quotes_doubled(a).len()) as int;
    assert(quoted.subrange(there, there + pattern.len()) =~= pattern);
    assert(occurs_at(quoted, pattern, there));
}

/// A command that runs a git-ai checkpoint is recognised in the entry that is
/// written for it.
pub proof fn law_checkpoint_command_is_recognised(cmd: Seq<char>)
    requires
        checkpoint_command(cmd),
    ensures
        is_recognised(cmd),
{
    reveal_strlit("git-ai");
    reveal_strlit("checkpoint");
    lemma_contains_quoted(cmd, "git-ai"@);
    lemma_contains_quoted(cmd, "checkpoint"@);
}

/// A text between characters that are no whitespace has nothing to trim.
proof fn lemma_trimmed_same(s: Seq<char>)
    requires
        s.len() > 0,
        !is_whitespace(s[0]),
        !is_whitespace(s.last()),
    ensures
        trimmed(s) == s,
{
    lemma_trimmed_start_at(s, 0);
    assert(s.skip(0) =~= s);
    lemma_trimmed_end_at(s, s.len() as int);
    assert(s.take(s.len() as int) =~= s);
}

/// The value that the rendered entry gives as its command.
pub open spec fn quoted_command(cmd: Seq<char>) -> Seq<char> {
    seq!['\''] + quotes_doubled(cmd) + seq!['\'']
}

/// Whether a command is known for a git-ai checkpoint as its entry gives it,
/// in quotes.
pub open spec fn is_recognised(cmd: Seq<char>) -> bool {
    checkpoint_command(quoted_command(cmd))
}

/// An entry without the blank and comment lines at its end.
pub open spec fn own(entry: Seq<Seq<char>>) -> Seq<Seq<char>> {
    entry.take(own_end(entry, (0, entry.len() as int)))
}

/// The lines of the entry that is installed.
proof fn lemma_rendered_line(cmd: Seq<char>, indent: nat, k: int)
    requires
        indent > 0,
        0 <= k < 6,
    ensures
        ({
            let line = rendered_entry(cmd, indent)[k];
            &&& block_line(line, indent)
            &&& starts_entry(line, indent) == (k == 0)
            &&& !is_blank(line)
            &&& !ends_in_return(line)
            &&& !is_idle(line)
            &&& one_line(cmd) ==> one_line(line)
            &&& is_command_line(line) == (k == 1)
            &&& k == 1 ==> command_value(line) == quoted_command(cmd)
        }),
{
    reveal_strlit("- type: command");
    reveal_strlit("command: '");
    reveal_strlit("'");
    reveal_strlit("timeout: '30s'");
    reveal_strlit("matchers:");
    reveal_strlit("- event: pre_tool_use");
    reveal_strlit("- event: post_tool_use");
    reveal_strlit("-");
    reveal_strlit("- ");
    reveal_strlit("hooks:");
    reveal_strlit("command:");
    let line = rendered_entry(cmd, indent)[k];
    let text = if k == 0 {
        "- type: command"@
    } else if k == 1 {
        "command: '"@ + quotes_doubled(cmd) + "'"@
    } else if k == 2 {
        "timeout: '30s'"@
    } else if k == 3 {
        "matchers:"@
    } else if k == 4 {
        "- event: pre_tool_use"@
    } else {
        "- event: post_tool_use"@
    };
    let width = if k == 0 {
        indent
    } else if k <= 3 {
        indent + 2
    } else {
        indent + 4
    };
    assert(line =~= spaces(width) + text);
    lemma_indented(width, text);
    assert(text.len() > 2);
    // What the text starts with.
    assert(is_nested_key(line) ==> text.take(6)[0] == 'h');
    assert(text.take(6)[0] == text[0]);
    assert(is_command_line(line) ==> text.take(8)[0] == 'c');
    assert(text.take(8)[0] == text[0]);
    if k == 0 || k >= 4 {
        assert(text.take(2) =~= "- "@);
    } else {
        assert(is_dash(line) ==> text.take(2)[0] == '-');
        assert(text.take(2)[0] == text[0]);
    }
    if k == 1 {
        assert(text.take(8) =~= "command:"@);
        let value = text.skip(8);
        assert(value =~= seq![' '] + quoted_command(cmd));
        lemma_trimmed_start_at(value, 1);
        assert(value.skip(1) =~= quoted_command(cmd));
        lemma_trimmed_same(quoted_command(cmd));
        lemma_trimmed_start_at(quoted_command(cmd), 0);
        assert(quoted_command(cmd).skip(0) =~= quoted_command(cmd));
        assert(command_value(line) == quoted_command(cmd));
        if one_line(cmd) {
            lemma_doubled_one_line(cmd);
        }
    }
    assert(line.last() == text.last());
    assert(line.last() != '\r');
}

/// The entry that is installed has the shape of one, and runs its command.
pub proof fn lemma_rendered(cmd: Seq<char>, indent: nat)
    requires
        indent > 0,
    ensures
        ({
            let entry = rendered_entry(cmd, indent);
            &&& entry.len() == 6
            &&& entry_shape(entry, indent)
            &&& command_in(entry) == Some(quoted_command(cmd))
            &&& is_recognised(cmd) ==> is_ours(entry)
            &&& !is_idle(entry.last())
            &&& own(entry) == entry
            &&& forall|k: int| 0 <= k < entry.len() ==> !ends_in_return(#[trigger] entry[k])
            &&& one_line(cmd) ==> forall|k: int|
                0 <= k < entry.len() ==> one_line(#[trigger] entry[k])
        }),
{
    let entry = rendered_entry(cmd, indent);
    assert forall|k: int| 0 <= k < entry.len() implies block_line(#[trigger] entry[k], indent)
        && !ends_in_return(entry[k]) by {
        lemma_rendered_line(cmd, indent, k);
    }
    assert forall|k: int| 1 <= k < entry.len() implies !starts_entry(#[trigger] entry[k], indent) by {
        lemma_rendered_line(cmd, indent, k);
    }
    if one_line(cmd) {
        assert forall|k: int| 0 <= k < entry.len() implies one_line(#[trigger] entry[k]) by {
            lemma_rendered_line(cmd, indent, k);
        }
    }
    lemma_rendered_line(cmd, indent, 0);
    lemma_rendered_line(cmd, indent, 1);
    lemma_rendered_line(cmd, indent, 5);
    assert(own_end(entry, (0, 6)) == 6);
    assert(entry.take(6) =~= entry);
    let rest = entry.drop_first();
    assert(rest[0] == entry[1]);
    assert(command_in(rest) == Some(command_value(entry[1])));
    assert(command_in(entry) == command_in(rest));
}

/// The command of an entry is found in its first part, or else in its second.
proof fn lemma_command_concat(a: Seq<Seq<char>>, b: Seq<Seq<char>>)
    ensures
        command_in(a + b) == (if command_in(a) is Some {
            command_in(a)
        } else {
            command_in(b)
        }),
    decreases a.len(),
{
    if a.len() == 0 {
        assert(a + b =~= b);
    } else {
        assert((a + b)[0] == a[0]);
        assert((a + b).drop_first() =~= a.drop_first() + b);
        lemma_command_concat(a.drop_first(), b);
    }
}

/// A blank or comment line starts no entry, and gives no command.
proof fn lemma_idle_line(line: Seq<char>)
    requires
        is_idle(line),
    ensures
        !is_dash(line),
        !is_command_line(line),
{
    let start = trimmed_start(line);
    lemma_trimmed_start(line);
    reveal_strlit("-");
    reveal_strlit("- ");
    reveal_strlit("command:");
    if is_blank(line) {
        lemma_blank_line(line);
    } else {
        assert(start[0] == '#');
        if starts_with(start, "- "@) {
            assert(start.take(2)[0] == '-');
        }
        if starts_with(start, "command:"@) {
            assert(start.take(8)[0] == 'c');
        }
        if start == "-"@ {
            assert(start[0] == '-');
        }
    }
}

/// Whether all lines are blank or comments.
spec fn all_idle(lines: Seq<Seq<char>>) -> bool {
    forall|i: int| 0 <= i < lines.len() ==> is_idle(#[trigger] lines[i])
}

/// Blank and comment lines give no command.
proof fn lemma_idle_command(lines: Seq<Seq<char>>)
    requires
        all_idle(lines),
    ensures
        command_in(lines) is None,
    decreases lines.len(),
{
    if lines.len() > 0 {
        assert(is_idle(lines[0]));
        lemma_idle_line(lines[0]);
        let rest = lines.drop_first();
        assert forall|i: int| 0 <= i < rest.len() implies is_idle(#[trigger] rest[i]) by {
            assert(rest[i] == lines[i + 1]);
        }
        lemma_idle_command(rest);
    }
}

/// Where the own part of an entry ends does not depend on the lines around it.
proof fn lemma_own_shift(lines: Seq<Seq<char>>, start: int, end: int, stop: int)
    requires
        0 <= start <= end <= stop <= lines.len(),
    ensures
        own_end(lines, (start, end)) == start + own_end(
            lines.subrange(start, stop),
            (0, end - start),
        ),
    decreases end - start,
{
    if start < end {
        assert(lines.subrange(start, stop)[end - start - 1] == lines[end - 1]);
        lemma_own_shift(lines, start, end - 1, stop);
    }
}

/// Blank and comment lines after an entry do not matter to its own part.
proof fn lemma_own_append(entry: Seq<Seq<char>>, more: Seq<Seq<char>>)
    requires
        all_idle(more),
    ensures
        own_end(entry + more, (0, (entry + more).len() as int)) == own_end(
            entry,
            (0, entry.len() as int),
        ),
        own(entry + more) == own(entry),
        is_ours(entry + more) == is_ours(entry),
    decreases more.len(),
{
    let all = entry + more;
    lemma_idle_command(more);
    lemma_command_concat(entry, more);
    lemma_own_end(entry, (0, entry.len() as int));
    if more.len() == 0 {
        assert(all =~= entry);
    } else {
        let less = more.drop_last();
        assert forall|i: int| 0 <= i < less.len() implies is_idle(#[trigger] less[i]) by {
            assert(less[i] == more[i]);
        }
        lemma_own_append(entry, less);
        assert(is_idle(more[more.len() - 1]));
        assert(all[all.len() - 1] == more[more.len() - 1]);
        lemma_own_shorter(all, entry + less, (all.len() - 1) as int);
        let k = own_end(entry, (0, entry.len() as int));
        assert(all.take(k) =~= entry.take(k));
    }
}

/// Where the own part of an entry ends is seen in its first lines alone.
proof fn lemma_own_shorter(a: Seq<Seq<char>>, b: Seq<Seq<char>>, n: int)
    requires
        0 <= n <= a.len(),
        n <= b.len(),
        forall|i: int| 0 <= i < n ==> #[trigger] a[i] == b[i],
    ensures
        own_end(a, (0, n)) == own_end(b, (0, n)),
    decreases n,
{
    if n > 0 {
        assert(a[n - 1] == b[n - 1]);
        lemma_own_shorter(a, b, n - 1);
    }
}

/// Blank lines at the end of an entry do not matter to whose it is, nor to its
/// own part.
proof fn lemma_own_without_tail(entry: Seq<Seq<char>>)
    ensures
        is_ours(without_tail(entry)) == is_ours(entry),
        own(without_tail(entry)) == own(entry),
{
    let kept = without_tail(entry);
    lemma_content_end(entry, 0, entry.len() as int);
    let tail = entry.skip(kept.len() as int);
    assert forall|i: int| 0 <= i < tail.len() implies is_idle(#[trigger] tail[i]) by {
        assert(tail[i] == entry[kept.len() + i]);
    }
    lemma_own_append(kept, tail);
    assert(kept + tail =~= entry);
}

/// An entry with more lines of its block after it, none of which starts one,
/// has the shape of an entry.
proof fn lemma_shape_append(entry: Seq<Seq<char>>, more: Seq<Seq<char>>, indent: nat)
    requires
        entry_shape(entry, indent),
        all_idle(more),
        forall|i: int| 0 <= i < more.len() ==> block_line(#[trigger] more[i], indent),
    ensures
        entry_shape(entry + more, indent),
{
    let all = entry + more;
    assert(all[0] == entry[0]);
    assert forall|k: int| 0 <= k < all.len() implies block_line(#[trigger] all[k], indent) by {
        if k < entry.len() {
            assert(all[k] == entry[k]);
        } else {
            assert(all[k] == more[k - entry.len()]);
        }
    }
    assert forall|k: int| 1 <= k < all.len() implies !starts_entry(#[trigger] all[k], indent) by {
        if k < entry.len() {
            assert(all[k] == entry[k]);
        } else {
            assert(all[k] == more[k - entry.len()]);
            lemma_idle_line(all[k]);
        }
    }
}

/// The blank and comment lines after the own part of an entry.
spec fn after_own(lines: Seq<Seq<char>>, entry: (int, int)) -> Seq<Seq<char>> {
    lines.subrange(own_end(lines, entry), entry.1)
}

/// What is left of the first `n` entries as entries: lines after an entry that
/// was dropped belong to the one before it, or stand before all entries.
spec fn grouped(
    lines: Seq<Seq<char>>,
    entries: Seq<(int, int)>,
    remove: Seq<int>,
    replace: Option<int>,
    replacement: Seq<Seq<char>>,
    n: int,
) -> (Seq<Seq<char>>, Seq<Seq<Seq<char>>>)
    decreases n,
{
    if n <= 0 {
        (Seq::empty(), Seq::empty())
    } else {
        let (lead, before) = grouped(lines, entries, remove, replace, replacement, n - 1);
        let entry = entries[n - 1];
        let after = after_own(lines, entry);
        if remove.contains(n - 1) {
            if before.len() == 0 {
                (lead + after, before)
            } else {
                (lead, before.drop_last().push(before.last() + after))
            }
        } else if replace == Some(n - 1) {
            (lead, before.push(replacement + after))
        } else {
            (lead, before.push(entry_lines(lines, entry)))
        }
    }
}

/// Whether the entries of a block have the shape of entries.
pub open spec fn shaped_entries(lines: Seq<Seq<char>>, entries: Seq<(int, int)>, indent: nat) -> bool {
    forall|j: int|
        0 <= j < entries.len() ==> 0 <= (#[trigger] entries[j]).0 <= entries[j].1 <= lines.len()
            && entry_shape(entry_lines(lines, entries[j]), indent)
}

/// What is known of the lines after the own part of an entry.
proof fn lemma_after_own(lines: Seq<Seq<char>>, entry: (int, int), indent: nat)
    requires
        0 <= entry.0 <= entry.1 <= lines.len(),
        entry_shape(entry_lines(lines, entry), indent),
    ensures
        all_idle(after_own(lines, entry)),
        forall|i: int|
            0 <= i < after_own(lines, entry).len() ==> block_line(
                #[trigger] after_own(lines, entry)[i],
                indent,
            ),
{
    let after = after_own(lines, entry);
    let all = entry_lines(lines, entry);
    lemma_own_end(lines, entry);
    assert forall|i: int| 0 <= i < after.len() implies is_idle(#[trigger] after[i]) by {
        assert(after[i] == lines[own_end(lines, entry) + i]);
    }
    assert forall|i: int| 0 <= i < after.len() implies block_line(#[trigger] after[i], indent) by {
        assert(after[i] == all[own_end(lines, entry) - entry.0 + i]);
    }
}

/// What is left of entries as entries has the shape of entries, and is made
/// of the same lines.
proof fn lemma_grouped(
    lines: Seq<Seq<char>>,
    entries: Seq<(int, int)>,
    remove: Seq<int>,
    replace: Option<int>,
    replacement: Seq<Seq<char>>,
    n: int,
    indent: nat,
)
    requires
        0 <= n <= entries.len(),
        shaped_entries(lines, entries, indent),
        replace is Some ==> entry_shape(replacement, indent),
    ensures
        ({
            let (lead, left) = grouped(lines, entries, remove, replace, replacement, n);
            &&& lead + flat(left) == flat(
                kept_entries(lines, lines, entries, remove, replace, replacement, n),
            )
            &&& all_idle(lead)
            &&& forall|i: int| 0 <= i < lead.len() ==> block_line(#[trigger] lead[i], indent)
            &&& forall|j: int| 0 <= j < left.len() ==> entry_shape(#[trigger] left[j], indent)
        }),
    decreases n,
{
    if n > 0 {
        lemma_grouped(lines, entries, remove, replace, replacement, n - 1, indent);
        let (lead, before) = grouped(lines, entries, remove, replace, replacement, n - 1);
        let (new_lead, left) = grouped(lines, entries, remove, replace, replacement, n);
        let kept = kept_entries(lines, lines, entries, remove, replace, replacement, n - 1);
        let now = kept_entries(lines, lines, entries, remove, replace, replacement, n);
        let entry = entries[n - 1];
        let after = after_own(lines, entry);
        assert(0 <= entry.0 <= entry.1 <= lines.len());
        assert(entry_shape(entry_lines(lines, entry), indent));
        lemma_after_own(lines, entry, indent);
        if remove.contains(n - 1) {
            lemma_flat_push(kept, after);
            if before.len() == 0 {
                assert(flat(before) =~= Seq::empty());
                assert(new_lead + flat(left) =~= flat(kept) + after);
                assert forall|i: int| 0 <= i < new_lead.len() implies is_idle(
                    #[trigger] new_lead[i],
                ) && block_line(new_lead[i], indent) by {
                    if i < lead.len() {
                        assert(new_lead[i] == lead[i]);
                    } else {
                        assert(new_lead[i] == after[i - lead.len()]);
                    }
                }
            } else {
                let last = before.last();
                let front = before.drop_last();
                assert(entry_shape(before[before.len() - 1], indent));
                lemma_shape_append(last, after, indent);
                lemma_flat_push(front, last + after);
                assert(new_lead + flat(left) =~= lead + (flat(front) + last) + after);
                assert forall|j: int| 0 <= j < left.len() implies entry_shape(
                    #[trigger] left[j],
                    indent,
                ) by {
                    if j < front.len() {
                        assert(left[j] == before[j]);
                    }
                }
            }
        } else {
            let piece = if replace == Some(n - 1) {
                replacement + after
            } else {
                entry_lines(lines, entry)
            };
            if replace == Some(n - 1) {
                lemma_shape_append(replacement, after, indent);
            }
            lemma_flat_push(kept, piece);
            lemma_flat_push(before, piece);
            assert(new_lead + flat(left) =~= (lead + flat(before)) + piece);
            assert forall|j: int| 0 <= j < left.len() implies entry_shape(
                #[trigger] left[j],
                indent,
            ) by {
                if j < before.len() {
                    assert(left[j] == before[j]);
                }
            }
        }
    } else {
        assert(flat(Seq::<Seq<Seq<char>>>::empty()) =~= Seq::empty());
    }
}

/// The entries of a block as stretches of lines.
pub open spec fn entry_parts(lines: Seq<Seq<char>>, entries: Seq<(int, int)>, n: int) -> Seq<
    Seq<Seq<char>>,
> {
    Seq::new(n as nat, |j: int| entry_lines(lines, entries[j]))
}

/// After an installation one of the entries that are left is ours, and its
/// own part is the entry that was installed.
proof fn lemma_grouped_merged(
    lines: Seq<Seq<char>>,
    entries: Seq<(int, int)>,
    replacement: Seq<Seq<char>>,
    n: int,
)
    requires
        0 <= n <= entries.len(),
        forall|j: int|
            0 <= j < entries.len() ==> 0 <= (#[trigger] entries[j]).0 <= entries[j].1
                <= lines.len(),
        our_entries(lines, entries, entries.len() as int).len() > 0,
        is_ours(replacement),
        own(replacement) == replacement,
    ensures
        ({
            let ours = our_entries(lines, entries, entries.len() as int);
            let (lead, left) = grouped(
                lines,
                entries,
                ours.skip(1),
                Some(ours[0]),
                replacement,
                n,
            );
            &&& 0 <= ours[0] < entries.len()
            &&& lead.len() == 0
            &&& n <= ours[0] ==> left == entry_parts(lines, entries, n)
            &&& n > ours[0] ==> {
                &&& left.len() > ours[0]
                &&& left.take(ours[0]) == entry_parts(lines, entries, ours[0])
                &&& is_ours(left[ours[0]])
                &&& own(left[ours[0]]) == replacement
            }
            &&& forall|j: int|
                0 <= j < left.len() && j != ours[0] ==> !is_ours(#[trigger] left[j])
        }),
    decreases n,
{
    let all = entries.len() as int;
    let ours = our_entries(lines, entries, all);
    let first = ours[0];
    lemma_our_entries(lines, entries, all);
    assert(0 <= ours[0] < all);
    if n > 0 {
        lemma_grouped_merged(lines, entries, replacement, n - 1);
        let (lead, before) = grouped(lines, entries, ours.skip(1), Some(first), replacement, n - 1);
        let (_, left) = grouped(lines, entries, ours.skip(1), Some(first), replacement, n);
        let entry = entries[n - 1];
        let after = after_own(lines, entry);
        assert(0 <= entry.0 <= entry.1 <= lines.len());
        lemma_own_end(lines, entry);
        assert forall|i: int| 0 <= i < after.len() implies is_idle(#[trigger] after[i]) by {
            assert(after[i] == lines[own_end(lines, entry) + i]);
        }
        if ours.skip(1).contains(n - 1) {
            let k = choose|k: int| 0 <= k < ours.skip(1).len() && ours.skip(1)[k] == n - 1;
            assert(ours[k + 1] == n - 1);
            assert(ours[0] < ours[k + 1]);
            let last = before.len() - 1;
            lemma_own_append(before[last], after);
            assert(left.take(first) =~= before.take(first));
            assert forall|j: int| 0 <= j < left.len() && j != first implies !is_ours(
                #[trigger] left[j],
            ) by {
                assert(!is_ours(before[j]));
            }
        } else if first == n - 1 {
            lemma_own_append(replacement, after);
            assert(left.take(first) =~= before);
            assert forall|j: int| 0 <= j < left.len() && j != first implies !is_ours(
                #[trigger] left[j],
            ) by {
                assert(left[j] == before[j]);
            }
        } else {
            if is_ours(entry_lines(lines, entries[n - 1])) {
                let k = choose|k: int| 0 <= k < ours.len() && ours[k] == n - 1;
                assert(k > 0);
                assert(ours.skip(1)[k - 1] == n - 1);
            }
            if n <= first {
                assert(left =~= entry_parts(lines, entries, n));
            } else {
                assert(left.take(first) =~= before.take(first));
            }
            assert forall|j: int| 0 <= j < left.len() && j != first implies !is_ours(
                #[trigger] left[j],
            ) by {
                if j < before.len() {
                    assert(left[j] == before[j]);
                }
            }
        }
    } else {
        assert(entry_parts(lines, entries, 0) =~= Seq::empty());
    }
}

/// After a removal none of the entries that are left is ours.
proof fn lemma_grouped_stripped(lines: Seq<Seq<char>>, entries: Seq<(int, int)>, n: int)
    requires
        0 <= n <= entries.len(),
        forall|j: int|
            0 <= j < entries.len() ==> 0 <= (#[trigger] entries[j]).0 <= entries[j].1
                <= lines.len(),
    ensures
        ({
            let ours = our_entries(lines, entries, entries.len() as int);
            let (_, left) = grouped(lines, entries, ours, None, Seq::empty(), n);
            forall|j: int| 0 <= j < left.len() ==> !is_ours(#[trigger] left[j])
        }),
    decreases n,
{
    let all = entries.len() as int;
    let ours = our_entries(lines, entries, all);
    lemma_our_entries(lines, entries, all);
    if n > 0 {
        lemma_grouped_stripped(lines, entries, n - 1);
        let (_, before) = grouped(lines, entries, ours, None, Seq::empty(), n - 1);
        let (_, left) = grouped(lines, entries, ours, None, Seq::empty(), n);
        let entry = entries[n - 1];
        let after = after_own(lines, entry);
        assert(0 <= entry.0 <= entry.1 <= lines.len());
        lemma_own_end(lines, entry);
        assert forall|i: int| 0 <= i < after.len() implies is_idle(#[trigger] after[i]) by {
            assert(after[i] == lines[own_end(lines, entry) + i]);
        }
        if ours.contains(n - 1) && before.len() > 0 {
            lemma_own_append(before[before.len() - 1], after);
        }
        assert forall|j: int| 0 <= j < left.len() implies !is_ours(#[trigger] left[j]) by {
            if j < before.len() {
                assert(!is_ours(before[j]));
            }
        }
    }
}

/// Where one entry alone is ours, it is the one that is found.
pub proof fn lemma_single_ours(
    lines: Seq<Seq<char>>,
    entries: Seq<(int, int)>,
    n: int,
    mine: int,
)
    requires
        0 <= n <= entries.len(),
        0 <= mine,
        mine < n ==> is_ours(entry_lines(lines, entries[mine])),
        forall|j: int|
            0 <= j < n && j != mine ==> !is_ours(entry_lines(lines, #[trigger] entries[j])),
    ensures
        our_entries(lines, entries, n) == (if mine < n {
            seq![mine]
        } else {
            Seq::empty()
        }),
    decreases n,
{
    if n > 0 {
        lemma_single_ours(lines, entries, n - 1, mine);
        if n - 1 != mine {
            assert(!is_ours(entry_lines(lines, entries[n - 1])));
        }
    }
}

/// The indent of the entries of a block is not zero.
pub proof fn lemma_indent_positive(parts: FileParts, indent: nat)
    requires
        parts.is_shaped(indent),
    ensures
        indent > 0,
{
    if parts.entries.len() > 0 {
        let line = parts.entries[0][0];
        assert(entry_shape(parts.entries[0], indent));
        assert(block_line(parts.entries[0][0], indent));
        if is_blank(line) {
            lemma_blank_line(line);
        }
        lemma_trimmed_start(line);
        let k = line.len() - trimmed_start(line).len();
        if k == 0 {
            assert(trimmed_start(line) =~= line);
            assert(is_whitespace(line[0]));
        }
        let space = line.take(k);
        assert(space.len() > 0);
        assert(encode_utf8(space).len() > 0);
    }
}

/// The parts of a file after an installation, before the blank lines at the
/// end of the last entry are put in their place.
spec fn merged_parts(lines: Seq<Seq<char>>, block: BlockModel, cmd: Seq<char>) -> FileParts {
    let ours = ours_in(lines, block);
    let entry = rendered_entry(cmd, block.indent);
    let parts = parts_of(lines, block);
    FileParts {
        entries: if ours.len() == 0 {
            parts.entries.push(entry)
        } else {
            grouped(
                lines,
                block.entries,
                ours.skip(1),
                Some(ours[0]),
                entry,
                block.entries.len() as int,
            ).1
        },
        ..parts
    }
}

/// Whether the positions of a block lie in a file of `n` lines, and its
/// entries follow each other without a gap.
pub open spec fn is_laid_out(block: BlockModel, n: nat) -> bool {
    &&& block_fits(block, n)
    &&& entries_start(block) <= entries_end(block)
    &&& forall|j: int|
        0 <= j < block.entries.len() - 1 ==> (#[trigger] block.entries[j]).1 == block.entries[j
            + 1].0
}

/// The entries of a block that is found have the shape of entries, and follow
/// each other without a gap.
pub proof fn lemma_entries(lines: Seq<Seq<char>>, block: BlockModel)
    requires
        hooks_block(lines) == Ok::<Option<BlockModel>, LayoutIssue>(Some(block)),
    ensures
        shaped_entries(lines, block.entries, block.indent),
        is_laid_out(block, lines.len()),
        block.indent > 0,
{
    let parts = parts_of(lines, block);
    lemma_decompose(lines);
    lemma_block_fits(lines);
    lemma_indent_positive(parts, block.indent);
    assert forall|j: int| 0 <= j < block.entries.len() implies entry_shape(
        entry_lines(lines, #[trigger] block.entries[j]),
        block.indent,
    ) by {
        assert(entry_shape(parts.entries[j], block.indent));
    }
}

/// Entries that stay as they are, one after the other.
pub proof fn lemma_kept_before<T>(
    lines: Seq<Seq<char>>,
    items: Seq<T>,
    entries: Seq<(int, int)>,
    remove: Seq<int>,
    replace: Option<int>,
    replacement: Seq<T>,
    n: int,
)
    requires
        0 <= n <= entries.len(),
        items.len() == lines.len(),
        forall|j: int|
            0 <= j < entries.len() ==> 0 <= (#[trigger] entries[j]).0 <= entries[j].1
                <= lines.len(),
        forall|j: int| 0 <= j < entries.len() - 1 ==> (#[trigger] entries[j]).1 == entries[j + 1].0,
        forall|j: int| 0 <= j < n ==> !#[trigger] remove.contains(j),
        replace matches Some(at) ==> at >= n,
    ensures
        n > 0 ==> entries[0].0 <= entries[n - 1].1,
        flat(kept_entries(lines, items, entries, remove, replace, replacement, n)) == (if n == 0 {
            Seq::empty()
        } else {
            items.subrange(entries[0].0, entries[n - 1].1)
        }),
    decreases n,
{
    if n > 0 {
        lemma_kept_before(lines, items, entries, remove, replace, replacement, n - 1);
        let before = kept_entries(lines, items, entries, remove, replace, replacement, n - 1);
        let entry = entries[n - 1];
        assert(!remove.contains(n - 1));
        assert(0 <= entry.0 <= entry.1 <= lines.len());
        lemma_flat_push(before, entry_lines(items, entry));
        if n > 1 {
            assert(entries[n - 2].1 == entries[n - 2 + 1].0);
        }
        assert(flat(before) + entry_lines(items, entry) =~= items.subrange(
            entries[0].0,
            entry.1,
        ));
    }
}

/// Where the entry stands after an installation: where the first git-ai entry
/// was, or after the last entry if there was none.
pub open spec fn insert_at(lines: Seq<Seq<char>>, block: BlockModel) -> int {
    let ours = ours_in(lines, block);
    if ours.len() == 0 {
        entries_end(block)
    } else {
        block.entries[ours[0]].0
    }
}

/// What is known of the parts of a file after an installation.
spec fn is_merged(
    parts: FileParts,
    lines: Seq<Seq<char>>,
    block: BlockModel,
    cmd: Seq<char>,
    mine: int,
) -> bool {
    &&& forall|j: int|
        0 <= j < parts.entries.len() ==> entry_shape(#[trigger] parts.entries[j], block.indent)
    &&& 0 <= mine < parts.entries.len()
    &&& is_ours(parts.entries[mine])
    &&& own(parts.entries[mine]) == rendered_entry(cmd, block.indent)
    &&& forall|j: int|
        0 <= j < parts.entries.len() && j != mine ==> !is_ours(#[trigger] parts.entries[j])
    &&& flat(parts.entries.take(mine)).len() == insert_at(lines, block) - entries_start(block)
}

/// The entries after an installation into a block without a git-ai entry.
proof fn lemma_merged_fresh(lines: Seq<Seq<char>>, block: BlockModel, cmd: Seq<char>)
    requires
        is_laid_out(block, lines.len()),
        shaped_entries(lines, block.entries, block.indent),
        block.indent > 0,
        is_recognised(cmd),
        ours_in(lines, block).len() == 0,
    ensures
        ({
            let parts = merged_parts(lines, block, cmd);
            let n = block.entries.len() as int;
            &&& is_merged(parts, lines, block, cmd, n)
            &&& flat(parts.entries) == lines.subrange(entries_start(block), entries_end(block))
                + rendered_entry(cmd, block.indent)
        }),
{
    let n = block.entries.len() as int;
    let parts = merged_parts(lines, block, cmd);
    let entry = rendered_entry(cmd, block.indent);
    let ours = ours_in(lines, block);
    let before = entry_parts(lines, block.entries, n);
    let none = Seq::<Seq<char>>::empty();
    lemma_rendered(cmd, block.indent);
    lemma_our_entries(lines, block.entries, n);
    lemma_kept_before(lines, lines, block.entries, Seq::<int>::empty(), None, none, n);
    lemma_parts_flat(lines, block.entries, n);
    assert(parts.entries =~= before.push(entry));
    lemma_flat_push(before, entry);
    assert(flat(before) =~= lines.subrange(entries_start(block), entries_end(block)));
    assert forall|j: int| 0 <= j < parts.entries.len() && j != n implies !is_ours(
        #[trigger] parts.entries[j],
    ) by {
        assert(parts.entries[j] == entry_lines(lines, block.entries[j]));
        if is_ours(entry_lines(lines, block.entries[j])) {
            assert(ours.contains(j));
        }
    }
    assert forall|j: int| 0 <= j < parts.entries.len() implies entry_shape(
        #[trigger] parts.entries[j],
        block.indent,
    ) by {
        if j < n {
            assert(parts.entries[j] == entry_lines(lines, block.entries[j]));
        }
    }
    assert(parts.entries.take(n) =~= before);
}

/// The entries after an installation into a block with a git-ai entry.
proof fn lemma_merged_again(lines: Seq<Seq<char>>, block: BlockModel, cmd: Seq<char>)
    requires
        is_laid_out(block, lines.len()),
        shaped_entries(lines, block.entries, block.indent),
        block.indent > 0,
        is_recognised(cmd),
        ours_in(lines, block).len() > 0,
    ensures
        ({
            let ours = ours_in(lines, block);
            let n = block.entries.len() as int;
            let entry = rendered_entry(cmd, block.indent);
            let parts = merged_parts(lines, block, cmd);
            &&& is_merged(parts, lines, block, cmd, ours[0])
            &&& flat(parts.entries) == flat(
                kept_entries(
                    lines,
                    lines,
                    block.entries,
                    ours.skip(1),
                    Some(ours[0]),
                    entry,
                    n,
                ),
            )
        }),
{
    let n = block.entries.len() as int;
    let indent = block.indent;
    let parts = merged_parts(lines, block, cmd);
    let entry = rendered_entry(cmd, indent);
    let ours = ours_in(lines, block);
    let first = ours[0];
    let none = Seq::<Seq<char>>::empty();
    lemma_rendered(cmd, indent);
    lemma_our_entries(lines, block.entries, n);
    lemma_grouped(lines, block.entries, ours.skip(1), Some(first), entry, n, indent);
    lemma_grouped_merged(lines, block.entries, entry, n);
    let (lead, left) = grouped(lines, block.entries, ours.skip(1), Some(first), entry, n);
    assert(lead + flat(left) =~= flat(left));
    lemma_kept_before(lines, lines, block.entries, Seq::<int>::empty(), None, none, first);
    lemma_parts_flat(lines, block.entries, first);
    if first > 0 {
        assert(block.entries[first - 1].1 == block.entries[first - 1 + 1].0);
    }
    assert(parts.entries.take(first) == entry_parts(lines, block.entries, first));
}

/// The entries after an installation: one of them is ours, the one that is
/// installed, and it stands where it should.
#[verifier::rlimit(20)]
proof fn lemma_merged_parts(lines: Seq<Seq<char>>, block: BlockModel, cmd: Seq<char>) -> (mine:
    int)
    requires
        hooks_block(lines) == Ok::<Option<BlockModel>, LayoutIssue>(Some(block)),
        is_recognised(cmd),
    ensures
        ({
            let parts = merged_parts(lines, block, cmd);
            &&& parts.is_loose(block.indent)
            &&& parts.whole() == merged_lines(lines, block, cmd)
            &&& is_merged(parts, lines, block, cmd, mine)
            &&& parts.offset(mine) == insert_at(lines, block)
        }),
{
    let n = block.entries.len() as int;
    let before = parts_of(lines, block);
    let parts = merged_parts(lines, block, cmd);
    let entry = rendered_entry(cmd, block.indent);
    let ours = ours_in(lines, block);
    let s = entries_start(block);
    let e = entries_end(block);
    lemma_decompose(lines);
    lemma_entries(lines, block);
    assert(lines.take(s) =~= before.head + before.preamble);
    assert(lines.skip(e) =~= before.tail + before.rest);
    assert(before.head.len() + before.preamble.len() == s);
    if ours.len() == 0 {
        lemma_merged_fresh(lines, block, cmd);
        lemma_kept_before(lines, lines, block.entries, Seq::<int>::empty(), None, entry, n);
        let kept = flat(
            kept_entries(lines, lines, block.entries, Seq::<int>::empty(), None, entry, n),
        );
        assert(kept =~= lines.subrange(s, e));
        assert(parts.whole() =~= merged_lines(lines, block, cmd));
        n
    } else {
        lemma_merged_again(lines, block, cmd);
        assert(parts.whole() =~= merged_lines(lines, block, cmd));
        ours[0]
    }
}

/// The first entries one after the other.
proof fn lemma_parts_flat(lines: Seq<Seq<char>>, entries: Seq<(int, int)>, n: int)
    requires
        0 <= n <= entries.len(),
    ensures
        flat(entry_parts(lines, entries, n)) == flat(
            kept_entries(
                lines,
                lines,
                entries,
                Seq::<int>::empty(),
                None,
                Seq::<Seq<char>>::empty(),
                n,
            ),
        ),
    decreases n,
{
    if n > 0 {
        lemma_parts_flat(lines, entries, n - 1);
        let before = kept_entries(
            lines,
            lines,
            entries,
            Seq::<int>::empty(),
            None,
            Seq::<Seq<char>>::empty(),
            n - 1,
        );
        let entry = entry_lines(lines, entries[n - 1]);
        assert(entry_parts(lines, entries, n) =~= entry_parts(lines, entries, n - 1).push(entry));
        lemma_flat_push(entry_parts(lines, entries, n - 1), entry);
        lemma_flat_push(before, entry);
    } else {
        assert(entry_parts(lines, entries, 0) =~= Seq::empty());
    }
}

/// Which entries of a settled file are ours.
proof fn lemma_settled_ours(loose: FileParts, indent: nat, mine: int)
    requires
        loose.is_loose(indent),
        0 <= mine < loose.entries.len(),
        is_ours(loose.entries[mine]),
        forall|j: int|
            0 <= j < loose.entries.len() && j != mine ==> !is_ours(#[trigger] loose.entries[j]),
    ensures
        ({
            let lines = loose.whole();
            let block = settled(loose).block(indent);
            let at = loose.offset(mine);
            &&& hooks_block(lines) == Ok::<Option<BlockModel>, LayoutIssue>(Some(block))
            &&& ours_in(lines, block) == seq![mine]
            &&& 0 <= mine < block.entries.len()
            &&& block.entries[mine].0 == at
            &&& own_end(lines, block.entries[mine]) == at + own(loose.entries[mine]).len()
            &&& lines.subrange(at, own_end(lines, block.entries[mine])) == own(
                loose.entries[mine],
            )
        }),
{
    let parts = settled(loose);
    let after = parts.block(indent);
    let lines = loose.whole();
    let n = after.entries.len() as int;
    let last = loose.entries.last();
    lemma_settled(loose, indent);
    lemma_compose(parts, indent);
    lemma_own_without_tail(last);
    assert forall|j: int| 0 <= j < n implies entry_lines(lines, #[trigger] after.entries[j])
        == parts.entries[j] && is_ours(parts.entries[j]) == (j == mine) by {
        if j < n - 1 {
            assert(parts.entries[j] == loose.entries[j]);
        } else {
            assert(parts.entries[j] == without_tail(last));
            assert(last == loose.entries[j]);
        }
    }
    lemma_single_ours(lines, after.entries, n, mine);
    let entry = parts.entries[mine];
    assert(entry_lines(lines, after.entries[mine]) == entry);
    assert(own(entry) == own(loose.entries[mine])) by {
        if mine == n - 1 {
            assert(entry == without_tail(last));
        } else {
            assert(entry == loose.entries[mine]);
        }
    }
    assert(parts.entries.take(mine) =~= loose.entries.take(mine));
    let range = after.entries[mine];
    lemma_block_fits(lines);
    assert(0 <= range.0 <= range.1 <= lines.len());
    lemma_own_shift(lines, range.0, range.1, range.1);
    lemma_own_end(entry, (0, entry.len() as int));
    assert(lines.subrange(range.0, own_end(lines, range)) =~= own(entry));
}

/// After an installation the block is found again, with the entry in its place
/// and in canonical form as the only one that is ours.
pub proof fn lemma_merged_block(lines: Seq<Seq<char>>, block: BlockModel, cmd: Seq<char>) -> (mine:
    int)
    requires
        hooks_block(lines) == Ok::<Option<BlockModel>, LayoutIssue>(Some(block)),
        is_recognised(cmd),
    ensures
        ({
            let now = merged_lines(lines, block, cmd);
            &&& hooks_block(now) matches Ok(Some(after)) && {
                &&& is_canonical(now, after, cmd)
                &&& ours_in(now, after) == seq![mine]
                &&& 0 <= mine < after.entries.len()
                &&& after.indent == block.indent
                &&& after.key == block.key
                &&& after.entries[mine].0 == insert_at(lines, block)
                &&& own_end(now, after.entries[mine]) == insert_at(lines, block) + 6
            }
        }),
{
    let indent = block.indent;
    let loose = merged_parts(lines, block, cmd);
    let mine = lemma_merged_parts(lines, block, cmd);
    lemma_decompose(lines);
    lemma_entries(lines, block);
    lemma_rendered(cmd, indent);
    lemma_settled_ours(loose, indent, mine);
    mine
}

/// The items outside the git-ai entries of a block.
pub open spec fn user_part<T>(
    lines: Seq<Seq<char>>,
    items: Seq<T>,
    block: BlockModel,
) -> Seq<T> {
    rebuilt(lines, items, block, ours_in(lines, block), None, Seq::empty(), false)
}

/// Where no entry is taken out or put in, all items stay.
pub proof fn lemma_rebuilt_same<T>(
    lines: Seq<Seq<char>>,
    items: Seq<T>,
    block: BlockModel,
    replacement: Seq<T>,
)
    requires
        is_laid_out(block, lines.len()),
        items.len() == lines.len(),
    ensures
        rebuilt(lines, items, block, Seq::empty(), None, replacement, false) == items,
{
    let n = block.entries.len() as int;
    lemma_kept_before(lines, items, block.entries, Seq::<int>::empty(), None, replacement, n);
    assert(rebuilt(lines, items, block, Seq::empty(), None, replacement, false) =~= items);
}

/// Without git-ai entries, all items are outside of them.
pub proof fn lemma_user_none<T>(lines: Seq<Seq<char>>, items: Seq<T>, block: BlockModel)
    requires
        is_laid_out(block, lines.len()),
        items.len() == lines.len(),
        ours_in(lines, block).len() == 0,
    ensures
        user_part(lines, items, block) == items,
{
    assert(ours_in(lines, block) =~= Seq::empty());
    lemma_rebuilt_same(lines, items, block, Seq::empty());
}

/// The places of `n` lines.
pub open spec fn all_places(n: nat) -> Seq<int> {
    Seq::new(n, |i: int| i)
}

/// Where the lines outside the git-ai entries of a block stand, in order.
pub open spec fn user_places(lines: Seq<Seq<char>>, block: BlockModel) -> Seq<int> {
    user_part(lines, all_places(lines.len()), block)
}

/// The items at the given places.
pub open spec fn picked<T>(items: Seq<T>, places: Seq<int>) -> Seq<T> {
    Seq::new(places.len(), |i: int| items[places[i]])
}

/// What is left of the entries is what stands at the places that are left.
proof fn lemma_kept_picked<T>(
    lines: Seq<Seq<char>>,
    items: Seq<T>,
    entries: Seq<(int, int)>,
    remove: Seq<int>,
    n: int,
)
    requires
        0 <= n <= entries.len(),
        items.len() == lines.len(),
        forall|j: int|
            0 <= j < entries.len() ==> 0 <= (#[trigger] entries[j]).0 <= entries[j].1
                <= lines.len(),
    ensures
        ({
            let all = all_places(lines.len());
            let none = Seq::<int>::empty();
            let places = flat(kept_entries(lines, all, entries, remove, None, none, n));
            &&& flat(kept_entries(lines, items, entries, remove, None, Seq::<T>::empty(), n))
                == picked(items, places)
            &&& forall|i: int| 0 <= i < places.len() ==> 0 <= #[trigger] places[i] < lines.len()
        }),
    decreases n,
{
    let all = all_places(lines.len());
    let none = Seq::<int>::empty();
    if n > 0 {
        lemma_kept_picked(lines, items, entries, remove, n - 1);
        let a = kept_entries(lines, all, entries, remove, None, none, n - 1);
        let b = kept_entries(lines, items, entries, remove, None, Seq::<T>::empty(), n - 1);
        let range = entries[n - 1];
        assert(0 <= range.0 <= range.1 <= lines.len());
        lemma_own_end(lines, range);
        let from = if remove.contains(n - 1) {
            own_end(lines, range)
        } else {
            range.0
        };
        let x = all.subrange(from, range.1);
        let y = items.subrange(from, range.1);
        lemma_flat_push(a, x);
        lemma_flat_push(b, y);
        assert(y =~= picked(items, x));
        assert(picked(items, flat(a)) + picked(items, x) =~= picked(items, flat(a) + x));
    } else {
        assert(picked(items, none) =~= Seq::empty());
    }
}

/// The items outside the git-ai entries are those at the places outside.
pub proof fn lemma_user_picked<T>(lines: Seq<Seq<char>>, items: Seq<T>, block: BlockModel)
    requires
        is_laid_out(block, lines.len()),
        items.len() == lines.len(),
    ensures
        user_part(lines, items, block) == picked(items, user_places(lines, block)),
        forall|i: int|
            0 <= i < user_places(lines, block).len() ==> 0 <= #[trigger] user_places(
                lines,
                block,
            )[i] < lines.len(),
{
    let n = block.entries.len() as int;
    let ours = ours_in(lines, block);
    let all = all_places(lines.len());
    let none = Seq::<int>::empty();
    let s = entries_start(block);
    let e = entries_end(block);
    let places = flat(kept_entries(lines, all, block.entries, ours, None, none, n));
    lemma_kept_picked(lines, items, block.entries, ours, n);
    assert(user_places(lines, block) =~= all.take(s) + places + all.skip(e));
    assert(user_part(lines, items, block) =~= picked(items, user_places(lines, block)));
}

/// What an installation and a removal make of the first `n` entries, where the
/// first that is ours is among them: the same but for the new entry.
proof fn lemma_kept_split<T>(
    lines: Seq<Seq<char>>,
    items: Seq<T>,
    entries: Seq<(int, int)>,
    entry: Seq<T>,
    n: int,
) -> (rest: Seq<T>)
    requires
        items.len() == lines.len(),
        forall|j: int|
            0 <= j < entries.len() ==> 0 <= (#[trigger] entries[j]).0 <= entries[j].1
                <= lines.len(),
        forall|j: int| 0 <= j < entries.len() - 1 ==> (#[trigger] entries[j]).1 == entries[j + 1].0,
        our_entries(lines, entries, entries.len() as int).len() > 0,
        our_entries(lines, entries, entries.len() as int)[0] < n <= entries.len(),
    ensures
        ({
            let ours = our_entries(lines, entries, entries.len() as int);
            let front = items.subrange(entries[0].0, entries[ours[0]].0);
            &&& 0 <= entries[0].0 <= entries[ours[0]].0 <= lines.len()
            &&& flat(
                kept_entries(lines, items, entries, ours.skip(1), Some(ours[0]), entry, n),
            ) == front + entry + rest
            &&& flat(
                kept_entries(lines, items, entries, ours, None, Seq::<T>::empty(), n),
            ) == front + rest
        }),
    decreases n,
{
    let all = entries.len() as int;
    let ours = our_entries(lines, entries, all);
    let first = ours[0];
    let none = Seq::<T>::empty();
    lemma_our_entries(lines, entries, all);
    assert(0 <= ours[0] < all);
    let front = items.subrange(entries[0].0, entries[first].0);
    let a = kept_entries(lines, items, entries, ours.skip(1), Some(first), entry, n - 1);
    let b = kept_entries(lines, items, entries, ours, None, none, n - 1);
    let range = entries[n - 1];
    let after = items.subrange(own_end(lines, range), range.1);
    assert(ours.contains(n - 1) == (n - 1 == first || ours.skip(1).contains(n - 1))) by {
        if ours.contains(n - 1) {
            let k = choose|k: int| 0 <= k < ours.len() && ours[k] == n - 1;
            if k > 0 {
                assert(ours.skip(1)[k - 1] == n - 1);
            }
        }
        if ours.skip(1).contains(n - 1) {
            let k = choose|k: int| 0 <= k < ours.skip(1).len() && ours.skip(1)[k] == n - 1;
            assert(ours[k + 1] == n - 1);
        }
        if n - 1 == first {
            assert(ours[0] == n - 1);
        }
    }
    if n - 1 == first {
        assert(!ours.skip(1).contains(first)) by {
            if ours.skip(1).contains(first) {
                let k = choose|k: int| 0 <= k < ours.skip(1).len() && ours.skip(1)[k] == first;
                assert(ours[k + 1] == first);
            }
        }
        assert forall|j: int| 0 <= j < first implies !#[trigger] ours.contains(j) by {
            if ours.contains(j) {
                let k = choose|k: int| 0 <= k < ours.len() && ours[k] == j;
                assert(k == 0 || ours[0] < ours[k]);
            }
        }
        assert forall|j: int| 0 <= j < first implies !#[trigger] ours.skip(1).contains(j) by {
            if ours.skip(1).contains(j) {
                let k = choose|k: int| 0 <= k < ours.skip(1).len() && ours.skip(1)[k] == j;
                assert(ours[k + 1] == j);
                assert(ours[0] < ours[k + 1]);
            }
        }
        lemma_kept_before(lines, items, entries, ours.skip(1), Some(first), entry, first);
        lemma_kept_before(lines, items, entries, ours, None, none, first);
        assert(0 <= entries[first].0 <= entries[first].1 <= lines.len());
        assert(0 <= entries[0].0 <= lines.len());
        if first > 0 {
            assert(entries[first - 1].1 == entries[first - 1 + 1].0);
        }
        assert(flat(a) =~= front);
        assert(flat(b) =~= front);
        lemma_flat_push(a, entry + after);
        lemma_flat_push(b, after);
        assert(front + (entry + after) =~= front + entry + after);
        after
    } else {
        let rest = lemma_kept_split(lines, items, entries, entry, n - 1);
        let piece = if ours.contains(n - 1) {
            after
        } else {
            entry_lines(items, range)
        };
        lemma_flat_push(a, piece);
        lemma_flat_push(b, piece);
        assert(front + entry + rest + piece =~= front + entry + (rest + piece));
        assert(front + rest + piece =~= front + (rest + piece));
        rest + piece
    }
}

/// What an installation makes of the items of a file: the new entry stands in
/// its place among those that are outside the git-ai entries.
#[verifier::rlimit(20)]
pub proof fn lemma_merged_split<T>(
    lines: Seq<Seq<char>>,
    items: Seq<T>,
    block: BlockModel,
    entry: Seq<T>,
) -> (rest: Seq<T>)
    requires
        is_laid_out(block, lines.len()),
        items.len() == lines.len(),
    ensures
        ({
            let at = insert_at(lines, block);
            &&& 0 <= at <= lines.len()
            &&& merged(lines, items, block, entry) == items.take(at) + entry + rest
            &&& user_part(lines, items, block) == items.take(at) + rest
        }),
{
    let n = block.entries.len() as int;
    let ours = ours_in(lines, block);
    let at = insert_at(lines, block);
    lemma_our_entries(lines, block.entries, n);
    if ours.len() == 0 {
        lemma_user_none(lines, items, block);
        lemma_kept_before(lines, items, block.entries, Seq::<int>::empty(), None, entry, n);
        let rest = items.skip(at);
        assert(items.take(at) + rest =~= items);
        assert(merged(lines, items, block, entry) =~= items.take(at) + entry + rest);
        rest
    } else {
        assert(0 <= ours[0] < n);
        let y = lemma_kept_split(lines, items, block.entries, entry, n);
        let rest = y + items.skip(entries_end(block));
        let s = entries_start(block);
        assert(0 <= block.entries[ours[0]].0 <= block.entries[ours[0]].1 <= lines.len());
        assert(items.take(s) + items.subrange(s, at) =~= items.take(at));
        assert(merged(lines, items, block, entry) =~= items.take(at) + entry + rest);
        assert(user_part(lines, items, block) =~= items.take(at) + rest);
        rest
    }
}

/// The items outside the one git-ai entry of a block.
pub proof fn lemma_user_one<T>(
    lines: Seq<Seq<char>>,
    items: Seq<T>,
    block: BlockModel,
    mine: int,
)
    requires
        is_laid_out(block, lines.len()),
        items.len() == lines.len(),
        ours_in(lines, block) == seq![mine],
    ensures
        0 <= block.entries[mine].0 <= own_end(lines, block.entries[mine]) <= lines.len(),
        user_part(lines, items, block) == items.take(block.entries[mine].0) + items.skip(
            own_end(lines, block.entries[mine]),
        ),
{
    let n = block.entries.len() as int;
    let range = block.entries[mine];
    let own = own_end(lines, range);
    assert(0 <= mine < n) by {
        lemma_our_entries(lines, block.entries, n);
        assert(ours_in(lines, block)[0] == mine);
    }
    assert(0 <= range.0 <= range.1 <= lines.len());
    lemma_own_end(lines, range);
    let s = entries_start(block);
    let e = entries_end(block);
    assert(s <= range.0 && range.1 <= e) by {
        lemma_ascending(lines, block.entries, 0, mine);
        lemma_ascending(lines, block.entries, mine, n - 1);
    }
    let kept = flat(
        kept_entries(lines, items, block.entries, seq![mine], None, Seq::<T>::empty(), n),
    );
    assert(kept == items.subrange(s, range.0) + items.subrange(own, e)) by {
        lemma_user_kept(lines, items, block.entries, mine, n);
    }
    assert(user_part(lines, items, block) == items.take(s) + kept + Seq::<T>::empty() + items.skip(
        e,
    ));
    lemma_seam(items, s, range.0, own, e);
}

/// A sequence without one stretch of it.
proof fn lemma_seam<T>(items: Seq<T>, s: int, a: int, b: int, e: int)
    requires
        0 <= s <= a <= b <= e <= items.len(),
    ensures
        items.take(s) + (items.subrange(s, a) + items.subrange(b, e)) + Seq::<T>::empty()
            + items.skip(e) == items.take(a) + items.skip(b),
{
    assert(items.take(s) + (items.subrange(s, a) + items.subrange(b, e)) + Seq::<T>::empty()
        + items.skip(e) =~= items.take(a) + items.skip(b));
}

/// Entries that follow each other stand in order.
pub proof fn lemma_ascending(lines: Seq<Seq<char>>, entries: Seq<(int, int)>, i: int, j: int)
    requires
        0 <= i <= j < entries.len(),
        forall|j: int|
            0 <= j < entries.len() ==> 0 <= (#[trigger] entries[j]).0 <= entries[j].1
                <= lines.len(),
        forall|j: int| 0 <= j < entries.len() - 1 ==> (#[trigger] entries[j]).1 == entries[j + 1].0,
    ensures
        entries[i].0 <= entries[j].0,
        entries[i].1 <= entries[j].1,
    decreases j - i,
{
    if i < j {
        lemma_ascending(lines, entries, i, j - 1);
        assert(entries[j - 1].1 == entries[j - 1 + 1].0);
        assert(entries[j].0 <= entries[j].1);
        assert(entries[j - 1].0 <= entries[j - 1].1);
    }
}

/// What is left of the first `n` entries, of which one is dropped.
proof fn lemma_user_kept<T>(
    lines: Seq<Seq<char>>,
    items: Seq<T>,
    entries: Seq<(int, int)>,
    mine: int,
    n: int,
)
    requires
        0 <= mine < n <= entries.len(),
        items.len() == lines.len(),
        forall|j: int|
            0 <= j < entries.len() ==> 0 <= (#[trigger] entries[j]).0 <= entries[j].1
                <= lines.len(),
        forall|j: int| 0 <= j < entries.len() - 1 ==> (#[trigger] entries[j]).1 == entries[j + 1].0,
    ensures
        flat(
            kept_entries(lines, items, entries, seq![mine], None, Seq::<T>::empty(), n),
        ) == items.subrange(entries[0].0, entries[mine].0) + items.subrange(
            own_end(lines, entries[mine]),
            entries[n - 1].1,
        ),
    decreases n,
{
    let none = Seq::<T>::empty();
    let gone = seq![mine];
    let before = kept_entries(lines, items, entries, gone, None, none, n - 1);
    let range = entries[n - 1];
    let own = own_end(lines, entries[mine]);
    let front = items.subrange(entries[0].0, entries[mine].0);
    assert(0 <= range.0 <= range.1 <= lines.len());
    assert(0 <= entries[mine].0 <= entries[mine].1 <= lines.len());
    lemma_own_end(lines, entries[mine]);
    lemma_ascending(lines, entries, 0, mine);
    lemma_ascending(lines, entries, mine, n - 1);
    assert(gone[0] == mine);
    if n - 1 == mine {
        assert(gone.contains(mine));
        assert forall|j: int| 0 <= j < mine implies !#[trigger] gone.contains(j) by {}
        lemma_kept_before(lines, items, entries, gone, None, none, mine);
        if mine > 0 {
            assert(entries[mine - 1].1 == entries[mine - 1 + 1].0);
        }
        assert(flat(before) =~= front);
        lemma_flat_push(before, items.subrange(own, range.1));
    } else {
        lemma_user_kept(lines, items, entries, mine, n - 1);
        assert(!gone.contains(n - 1));
        assert(entries[n - 2].1 == entries[n - 2 + 1].0);
        lemma_ascending(lines, entries, mine, n - 2);
        lemma_flat_push(before, entry_lines(items, range));
        assert(front + items.subrange(own, entries[n - 2].1) + entry_lines(items, range)
            =~= front + items.subrange(own, range.1));
    }
}

/// What a removal leaves of a file, in parts.
spec fn stripped_parts(lines: Seq<Seq<char>>, block: BlockModel) -> FileParts {
    let before = parts_of(lines, block);
    let (lead, users) = grouped(
        lines,
        block.entries,
        ours_in(lines, block),
        None,
        Seq::empty(),
        block.entries.len() as int,
    );
    FileParts { preamble: before.preamble + lead, entries: users, ..before }
}

/// The indentation of what a removal leaves of a block.
spec fn stripped_indent(lines: Seq<Seq<char>>, block: BlockModel) -> nat {
    if stripped_parts(lines, block).entries.len() == 0 {
        DEFAULT_ENTRY_INDENT as nat
    } else {
        block.indent
    }
}

/// The parts that a removal leaves are the file.
proof fn lemma_stripped_whole(lines: Seq<Seq<char>>, block: BlockModel)
    requires
        is_laid_out(block, lines.len()),
        shaped_entries(lines, block.entries, block.indent),
    ensures
        stripped_parts(lines, block).whole() == user_part(lines, lines, block),
{
    let n = block.entries.len() as int;
    let before = parts_of(lines, block);
    let ours = ours_in(lines, block);
    let none = Seq::<Seq<char>>::empty();
    lemma_grouped(lines, block.entries, ours, None, none, n, block.indent);
    let s = entries_start(block);
    let e = entries_end(block);
    let kept = flat(kept_entries(lines, lines, block.entries, ours, None, none, n));
    assert(lines.take(s) =~= before.head + before.preamble);
    assert(lines.skip(e) =~= before.tail + before.rest);
    assert(user_part(lines, lines, block) =~= lines.take(s) + kept + lines.skip(e));
    assert(stripped_parts(lines, block).whole() =~= lines.take(s) + kept + lines.skip(e));
}

/// Blank lines and comments may stand before the first entry, at any indent.
proof fn lemma_longer_preamble(
    preamble: Seq<Seq<char>>,
    lead: Seq<Seq<char>>,
    indent: nat,
    other: nat,
)
    requires
        forall|i: int|
            0 <= i < preamble.len() ==> block_line(#[trigger] preamble[i], indent) && !is_dash(
                preamble[i],
            ),
        all_idle(lead),
        forall|i: int| 0 <= i < lead.len() ==> block_line(#[trigger] lead[i], indent),
    ensures
        forall|i: int|
            0 <= i < (preamble + lead).len() ==> block_line(
                #[trigger] (preamble + lead)[i],
                other,
            ) && !is_dash((preamble + lead)[i]),
{
    let all = preamble + lead;
    assert forall|i: int| 0 <= i < all.len() implies block_line(#[trigger] all[i], other)
        && !is_dash(all[i]) by {
        if i < preamble.len() {
            assert(all[i] == preamble[i]);
        } else {
            let k = i - preamble.len();
            assert(all[i] == lead[k]);
            assert(is_idle(lead[k]));
            lemma_idle_line(lead[k]);
        }
    }
}

/// The parts that a removal leaves make a file with a block.
proof fn lemma_stripped_parts(lines: Seq<Seq<char>>, block: BlockModel)
    requires
        parts_of(lines, block).is_loose(block.indent),
        is_laid_out(block, lines.len()),
        shaped_entries(lines, block.entries, block.indent),
    ensures
        ({
            let loose = stripped_parts(lines, block);
            &&& loose.is_loose(stripped_indent(lines, block))
            &&& forall|j: int|
                0 <= j < loose.entries.len() ==> !is_ours(#[trigger] loose.entries[j])
        }),
{
    let n = block.entries.len() as int;
    let before = parts_of(lines, block);
    let ours = ours_in(lines, block);
    let none = Seq::<Seq<char>>::empty();
    let indent = stripped_indent(lines, block);
    lemma_grouped(lines, block.entries, ours, None, none, n, block.indent);
    lemma_grouped_stripped(lines, block.entries, n);
    let (lead, users) = grouped(lines, block.entries, ours, None, none, n);
    lemma_longer_preamble(before.preamble, lead, block.indent, indent);
}

/// What a removal leaves of a file with other content in its block: the block
/// is found again, with no git-ai entry in it.
pub proof fn lemma_stripped_block(lines: Seq<Seq<char>>, block: BlockModel)
    requires
        hooks_block(lines) == Ok::<Option<BlockModel>, LayoutIssue>(Some(block)),
    ensures
        ({
            let left = user_part(lines, lines, block);
            hooks_block(left) matches Ok(Some(after)) && ours_in(left, after).len() == 0
        }),
{
    let left = user_part(lines, lines, block);
    let loose = stripped_parts(lines, block);
    let indent = stripped_indent(lines, block);
    lemma_decompose(lines);
    lemma_entries(lines, block);
    lemma_stripped_whole(lines, block);
    lemma_stripped_parts(lines, block);
    lemma_settled_users(loose, indent);
    assert(settled(loose).whole() == left);
}

/// A file whose parts hold no git-ai entry has a block without any.
proof fn lemma_settled_users(loose: FileParts, indent: nat)
    requires
        loose.is_loose(indent),
        loose.entries.len() == 0 ==> indent == DEFAULT_ENTRY_INDENT,
        forall|j: int| 0 <= j < loose.entries.len() ==> !is_ours(#[trigger] loose.entries[j]),
    ensures
        ({
            let after = settled(loose).block(indent);
            &&& settled(loose).whole() == loose.whole()
            &&& hooks_block(loose.whole()) == Ok::<Option<BlockModel>, LayoutIssue>(Some(after))
            &&& ours_in(loose.whole(), after).len() == 0
        }),
{
    let left = loose.whole();
    let users = loose.entries;
    lemma_settled(loose, indent);
    let parts = settled(loose);
    lemma_compose(parts, indent);
    let after = parts.block(indent);
    let m = after.entries.len() as int;
    assert forall|j: int| 0 <= j < m implies !is_ours(
        entry_lines(left, #[trigger] after.entries[j]),
    ) by {
        assert(entry_lines(left, after.entries[j]) == parts.entries[j]);
        if j < m - 1 {
            assert(parts.entries[j] == users[j]);
        } else {
            assert(parts.entries[j] == without_tail(users.last()));
            lemma_own_without_tail(users.last());
            assert(users.last() == users[users.len() - 1]);
        }
    }
    lemma_single_ours(left, after.entries, m, m);
}

/// What a removal leaves of a file with nothing else in its block: there is
/// no block any more.
pub proof fn lemma_emptied_block(lines: Seq<Seq<char>>, block: BlockModel)
    requires
        hooks_block(lines) == Ok::<Option<BlockModel>, LayoutIssue>(Some(block)),
    ensures
        hooks_block(lines.take(block.key) + lines.skip(entries_end(block))) == Ok::<
            Option<BlockModel>,
            LayoutIssue,
        >(None),
{
    let left = lines.take(block.key) + lines.skip(entries_end(block));
    lemma_quiet_lines(lines);
    lemma_decompose(lines);
    assert forall|i: int| 0 <= i < left.len() implies quiet(#[trigger] left[i]) by {
        if i < block.key {
            assert(left[i] == lines[i]);
        } else {
            assert(left[i] == lines[entries_end(block) + (i - block.key)]);
        }
    }
    lemma_no_key(left);
}

/// An entry whose own part is the one that is installed gives its command.
pub proof fn lemma_quotes_kept(
    lines: Seq<Seq<char>>,
    range: (int, int),
    cmd: Seq<char>,
    indent: nat,
)
    requires
        0 <= range.0 <= range.1 <= lines.len(),
        indent > 0,
        lines.subrange(range.0, own_end(lines, range)) == rendered_entry(cmd, indent),
    ensures
        command_in(entry_lines(lines, range)) == Some(quoted_command(cmd)),
{
    let entry = rendered_entry(cmd, indent);
    let more = lines.subrange(own_end(lines, range), range.1);
    lemma_rendered(cmd, indent);
    lemma_own_end(lines, range);
    assert(entry_lines(lines, range) =~= entry + more);
    lemma_command_concat(entry, more);
}

/// A command without quotes is what its entry gives, without those around it.
pub proof fn lemma_unquoted(cmd: Seq<char>)
    requires
        forall|i: int| 0 <= i < cmd.len() ==> #[trigger] cmd[i] != '\'',
    ensures
        unquoted(quoted_command(cmd)) == cmd,
{
    let value = quoted_command(cmd);
    lemma_doubled_same(cmd);
    lemma_trimmed_same(value);
    assert(value.subrange(1, value.len() - 1) =~= cmd);
}

} // verus!
