//! The shape of a file with a `hooks:` block: its parts in order, what is
//! found in a file that is put together from such parts, and how a file comes
//! apart into them.
use crate::hooks_block::{
    block_end, block_indent, content_end, ends_block, entries_end, entries_start, entry_ranges,
    entry_starts, first_dash, first_issue, has_inline_value, hooks_block, is_dash,
    is_hooks_key, is_idle, is_nested_key, is_uneven, issue_at, key_at, lemma_blank_line,
    lemma_block_end, lemma_block_end_range, lemma_content_end, lemma_first_dash,
    lemma_first_issue, lemma_key_at, lemma_key_line, lemma_key_range, lemma_starts, starts_entry,
    BlockModel, DEFAULT_ENTRY_INDENT,
};
use crate::text::{indent_width, is_blank};
use crate::trae_cli::{entry_lines, flat};
use vstd::prelude::*;

verus! {

/// A line that holds no `hooks:` key.
pub open spec fn quiet(line: Seq<char>) -> bool {
    !is_hooks_key(line) && (is_idle(line) || !is_nested_key(line))
}

/// A line of the body of a block whose entries have the given indent.
pub open spec fn block_line(line: Seq<char>, indent: nat) -> bool {
    quiet(line) && !ends_block(line) && (is_dash(line) ==> indent_width(line) >= indent)
}

/// The lines of an entry: the first starts it, and no other starts one.
pub open spec fn entry_shape(entry: Seq<Seq<char>>, indent: nat) -> bool {
    &&& entry.len() > 0
    &&& starts_entry(entry[0], indent)
    &&& forall|k: int| 0 <= k < entry.len() ==> block_line(#[trigger] entry[k], indent)
    &&& forall|k: int| 1 <= k < entry.len() ==> !starts_entry(#[trigger] entry[k], indent)
}

/// The parts of a file with a `hooks:` block.
pub struct FileParts {
    /// The lines up to the `hooks:` key, which is the last of them.
    pub head: Seq<Seq<char>>,
    /// The lines of the block before its first entry.
    pub preamble: Seq<Seq<char>>,
    /// The entries of the block.
    pub entries: Seq<Seq<Seq<char>>>,
    /// The blank lines after the last entry.
    pub tail: Seq<Seq<char>>,
    /// The lines after the block.
    pub rest: Seq<Seq<char>>,
}

impl FileParts {
    /// The lines of the file.
    pub open spec fn whole(self) -> Seq<Seq<char>> {
        self.head + self.preamble + flat(self.entries) + self.tail + self.rest
    }

    /// Whether the parts are what they should be, but for blank lines at the
    /// end of the last entry.
    pub open spec fn is_loose(self, indent: nat) -> bool {
        &&& self.head.len() > 0
        &&& is_hooks_key(self.head.last())
        &&& !has_inline_value(self.head.last())
        &&& forall|i: int| 0 <= i < self.head.len() - 1 ==> quiet(#[trigger] self.head[i])
        &&& forall|i: int|
            0 <= i < self.preamble.len() ==> block_line(#[trigger] self.preamble[i], indent)
                && !is_dash(self.preamble[i])
        &&& forall|j: int|
            0 <= j < self.entries.len() ==> entry_shape(#[trigger] self.entries[j], indent)
        &&& forall|i: int| 0 <= i < self.tail.len() ==> is_blank(#[trigger] self.tail[i])
        &&& forall|i: int| 0 <= i < self.rest.len() ==> quiet(#[trigger] self.rest[i])
        &&& self.rest.len() > 0 ==> ends_block(self.rest[0])
    }

    /// Whether the parts are what they should be.
    pub open spec fn is_shaped(self, indent: nat) -> bool {
        &&& self.is_loose(indent)
        &&& self.entries.len() > 0 ==> !is_blank(self.entries.last().last())
        &&& self.entries.len() == 0 ==> self.tail.len() == 0 && indent == DEFAULT_ENTRY_INDENT
    }

    /// The line at which the entry at `j` starts.
    pub open spec fn offset(self, j: int) -> int {
        (self.head.len() + self.preamble.len() + flat(self.entries.take(j)).len()) as int
    }

    /// The block of the file.
    pub open spec fn block(self, indent: nat) -> BlockModel {
        BlockModel {
            key: self.head.len() - 1,
            end: self.whole().len() - self.rest.len(),
            indent,
            entries: Seq::new(
                self.entries.len(),
                |j: int| (self.offset(j), self.offset(j) + self.entries[j].len()),
            ),
        }
    }
}

/// Stretches one after the other, and one more.
pub proof fn lemma_flat_push<T>(parts: Seq<Seq<T>>, last: Seq<T>)
    ensures
        flat(parts.push(last)) == flat(parts) + last,
{
    assert(parts.push(last).drop_last() =~= parts);
}

/// Stretches one after the other come piece by piece.
pub proof fn lemma_flat_concat<T>(a: Seq<Seq<T>>, b: Seq<Seq<T>>)
    ensures
        flat(a + b) == flat(a) + flat(b),
    decreases b.len(),
{
    if b.len() == 0 {
        assert(a + b =~= a);
        assert(flat(a) + flat(b) =~= flat(a));
    } else {
        assert((a + b).drop_last() =~= a + b.drop_last());
        lemma_flat_concat(a, b.drop_last());
        assert(flat(a + b) =~= flat(a) + flat(b));
    }
}

/// The lines of entries are lines of a block.
pub proof fn lemma_flat_lines(entries: Seq<Seq<Seq<char>>>, indent: nat)
    requires
        forall|j: int| 0 <= j < entries.len() ==> entry_shape(#[trigger] entries[j], indent),
    ensures
        forall|i: int| 0 <= i < flat(entries).len() ==> block_line(#[trigger] flat(entries)[i], indent),
    decreases entries.len(),
{
    if entries.len() > 0 {
        let before = entries.drop_last();
        assert forall|j: int| 0 <= j < before.len() implies entry_shape(#[trigger] before[j], indent) by {
            assert(before[j] == entries[j]);
        }
        lemma_flat_lines(before, indent);
        assert(entry_shape(entries[entries.len() - 1], indent));
        assert forall|i: int| 0 <= i < flat(entries).len() implies block_line(
            #[trigger] flat(entries)[i],
            indent,
        ) by {
            if i >= flat(before).len() {
                assert(flat(entries)[i] == entries.last()[i - flat(before).len()]);
            }
        }
    }
}

/// Where an entry stands among the others.
pub proof fn lemma_flat_at(entries: Seq<Seq<Seq<char>>>, j: int)
    requires
        0 <= j < entries.len(),
    ensures
        flat(entries.take(j + 1)) == flat(entries.take(j)) + entries[j],
        flat(entries.take(j)).len() + entries[j].len() <= flat(entries).len(),
        flat(entries).subrange(
            flat(entries.take(j)).len() as int,
            (flat(entries.take(j)).len() + entries[j].len()) as int,
        ) == entries[j],
{
    assert(entries.take(j + 1).drop_last() =~= entries.take(j));
    assert(entries.take(j + 1) + entries.skip(j + 1) =~= entries);
    lemma_flat_concat(entries.take(j + 1), entries.skip(j + 1));
    let a = flat(entries.take(j));
    let all = flat(entries);
    assert(all == (a + entries[j]) + flat(entries.skip(j + 1)));
    assert(all.subrange(a.len() as int, (a.len() + entries[j].len()) as int) =~= entries[j]);
}

/// Where the blank lines at the end of an entry begin.
proof fn lemma_content_end_is(lines: Seq<Seq<char>>, start: int, content: int, end: int)
    requires
        0 <= start < content <= end <= lines.len(),
        !is_blank(lines[content - 1]),
        forall|i: int| content <= i < end ==> is_blank(#[trigger] lines[i]),
    ensures
        content_end(lines, start, end) == content,
    decreases end - content,
{
    if content < end {
        assert(is_blank(lines[end - 1]));
        lemma_content_end_is(lines, start, content, end - 1);
    }
}

/// Where no entry starts, none is found.
proof fn lemma_starts_stay(lines: Seq<Seq<char>>, from: int, middle: int, end: int, indent: nat)
    requires
        from <= middle <= end,
        forall|i: int| middle <= i < end ==> !starts_entry(#[trigger] lines[i], indent),
    ensures
        entry_starts(lines, from, end, indent) == entry_starts(lines, from, middle, indent),
    decreases end - middle,
{
    if middle < end {
        assert(!starts_entry(lines[end - 1], indent));
        lemma_starts_stay(lines, from, middle, end - 1, indent);
    }
}

/// A file with one `hooks:` key has no issue outside its block.
proof fn lemma_one_key(lines: Seq<Seq<char>>, key: int)
    requires
        0 <= key < lines.len(),
        is_hooks_key(lines[key]),
        !has_inline_value(lines[key]),
        forall|i: int| 0 <= i < lines.len() && i != key ==> quiet(#[trigger] lines[i]),
    ensures
        first_issue(lines, 0) is None,
        key_at(lines, 0) == key,
{
    assert forall|j: int| 0 <= j < lines.len() implies #[trigger] issue_at(lines, j) is None by {
        if j != key {
            assert(quiet(lines[j]));
        } else {
            assert forall|i: int| 0 <= i < key implies !is_hooks_key(#[trigger] lines[i]) by {
                assert(quiet(lines[i]));
            }
        }
    }
    lemma_first_issue(lines, 0, lines.len() as int);
    assert forall|i: int| 0 <= i < key implies !is_hooks_key(#[trigger] lines[i]) by {
        assert(quiet(lines[i]));
    }
    lemma_key_at(lines, 0, key);
}

/// A file of quiet lines has no block, and no issue.
pub proof fn lemma_no_key(lines: Seq<Seq<char>>)
    requires
        forall|i: int| 0 <= i < lines.len() ==> quiet(#[trigger] lines[i]),
    ensures
        hooks_block(lines) == Ok::<Option<BlockModel>, crate::hooks_block::LayoutIssue>(None),
{
    assert forall|j: int| 0 <= j < lines.len() implies #[trigger] issue_at(lines, j) is None by {
        assert(quiet(lines[j]));
    }
    lemma_first_issue(lines, 0, lines.len() as int);
    assert forall|i: int| 0 <= i < lines.len() implies !is_hooks_key(#[trigger] lines[i]) by {
        assert(quiet(lines[i]));
    }
    lemma_key_at(lines, 0, lines.len() as int);
}

/// Where there is no issue from a line on, there is none at any line.
proof fn lemma_issue_free(lines: Seq<Seq<char>>, from: int)
    requires
        0 <= from <= lines.len(),
        first_issue(lines, from) is None,
    ensures
        forall|j: int| from <= j < lines.len() ==> #[trigger] issue_at(lines, j) is None,
    decreases lines.len() - from,
{
    if from < lines.len() {
        lemma_issue_free(lines, from + 1);
    }
}

/// In a file without issues all lines but that of the `hooks:` key are quiet.
pub proof fn lemma_quiet_lines(lines: Seq<Seq<char>>)
    requires
        first_issue(lines, 0) is None,
    ensures
        ({
            let key = key_at(lines, 0);
            &&& forall|i: int| 0 <= i < lines.len() && i != key ==> quiet(#[trigger] lines[i])
            &&& key < lines.len() ==> is_hooks_key(lines[key]) && !has_inline_value(lines[key])
        }),
{
    let key = key_at(lines, 0);
    lemma_issue_free(lines, 0);
    lemma_key_range(lines, 0);
    assert forall|i: int| 0 <= i < lines.len() && i != key implies quiet(#[trigger] lines[i]) by {
        assert(issue_at(lines, i) is None);
        if is_hooks_key(lines[i]) {
            lemma_key_line(lines[i]);
            assert(key < i);
            assert(is_hooks_key(lines[key]));
        }
    }
    if key < lines.len() {
        lemma_key_line(lines[key]);
        assert(issue_at(lines, key) is None);
    }
}

/// The entries that start in a file that is put together from parts.
proof fn lemma_starts_of_parts(parts: FileParts, indent: nat, n: int)
    requires
        parts.is_loose(indent),
        0 <= n <= parts.entries.len(),
    ensures
        entry_starts(parts.whole(), parts.head.len() as int, parts.offset(n), indent) == Seq::new(
            n as nat,
            |j: int| parts.offset(j),
        ),
    decreases n,
{
    let lines = parts.whole();
    let from = parts.head.len() as int;
    if n == 0 {
        assert(parts.entries.take(0) =~= Seq::empty());
        assert forall|i: int| from <= i < parts.offset(0) implies !starts_entry(
            #[trigger] lines[i],
            indent,
        ) by {
            assert(lines[i] == parts.preamble[i - from]);
        }
        lemma_starts_stay(lines, from, from, parts.offset(0), indent);
        assert(Seq::new(0, |j: int| parts.offset(j)) =~= Seq::<int>::empty());
    } else {
        let entry = parts.entries[n - 1];
        let start = parts.offset(n - 1);
        lemma_starts_of_parts(parts, indent, n - 1);
        lemma_flat_at(parts.entries, n - 1);
        assert(parts.offset(n) == start + entry.len());
        assert(entry_shape(entry, indent));
        lemma_entry_in_whole(parts, n - 1);
        assert(lines.subrange(start, start + entry.len())[0] == entry[0]);
        assert(lines[start] == entry[0]);
        assert forall|i: int| start + 1 <= i < start + entry.len() implies !starts_entry(
            #[trigger] lines[i],
            indent,
        ) by {
            assert(lines.subrange(start, start + entry.len())[i - start] == entry[i - start]);
        }
        lemma_starts_stay(lines, from, start + 1, start + entry.len(), indent);
        assert(Seq::new(n as nat, |j: int| parts.offset(j)) =~= Seq::new(
            (n - 1) as nat,
            |j: int| parts.offset(j),
        ).push(start));
    }
}

/// Where an entry stands in the file.
proof fn lemma_entry_in_whole(parts: FileParts, j: int)
    requires
        0 <= j < parts.entries.len(),
    ensures
        parts.head.len() + parts.preamble.len() <= parts.offset(j),
        parts.offset(j) + parts.entries[j].len() <= parts.head.len() + parts.preamble.len() + flat(
            parts.entries,
        ).len(),
        parts.whole().subrange(parts.offset(j), parts.offset(j) + parts.entries[j].len())
            == parts.entries[j],
        parts.offset(j + 1) == parts.offset(j) + parts.entries[j].len(),
{
    lemma_flat_at(parts.entries, j);
    let before = (parts.head.len() + parts.preamble.len()) as int;
    let at = flat(parts.entries.take(j)).len() as int;
    assert(parts.whole().subrange(
        before + at,
        before + at + parts.entries[j].len(),
    ) =~= flat(parts.entries).subrange(at, at + parts.entries[j].len()));
}

/// What is found in a file that is put together from parts: the block is
/// there, and its entries are those it was put together from.
pub proof fn lemma_compose(parts: FileParts, indent: nat)
    requires
        parts.is_shaped(indent),
    ensures
        hooks_block(parts.whole()) == Ok::<Option<BlockModel>, crate::hooks_block::LayoutIssue>(
            Some(parts.block(indent)),
        ),
        forall|j: int|
            0 <= j < parts.entries.len() ==> entry_lines(
                parts.whole(),
                #[trigger] parts.block(indent).entries[j],
            ) == parts.entries[j],
        entries_start(parts.block(indent)) == parts.head.len() + parts.preamble.len(),
        entries_end(parts.block(indent)) == parts.head.len() + parts.preamble.len() + flat(
            parts.entries,
        ).len(),
{
    let lines = parts.whole();
    let key = parts.head.len() - 1;
    let from = key + 1;
    let first = (from + parts.preamble.len()) as int;
    let last = (first + flat(parts.entries).len()) as int;
    let end = (last + parts.tail.len()) as int;
    let n = parts.entries.len() as int;
    lemma_flat_lines(parts.entries, indent);
    assert forall|i: int| from <= i < end implies block_line(#[trigger] lines[i], indent) by {
        if i < first {
            assert(lines[i] == parts.preamble[i - from]);
        } else if i < last {
            assert(lines[i] == flat(parts.entries)[i - first]);
        } else {
            assert(lines[i] == parts.tail[i - last]);
            lemma_blank_line(lines[i]);
        }
    }
    assert forall|i: int| 0 <= i < lines.len() && i != key implies quiet(#[trigger] lines[i]) by {
        if i < key {
            assert(lines[i] == parts.head[i]);
        } else if i < end {
            assert(block_line(lines[i], indent));
        } else {
            assert(lines[i] == parts.rest[i - end]);
        }
    }
    assert(lines[key] == parts.head.last());
    lemma_one_key(lines, key);
    // The end of the block.
    assert forall|i: int| from <= i < end implies !ends_block(#[trigger] lines[i]) by {
        assert(block_line(lines[i], indent));
    }
    lemma_block_end(lines, from, end);
    if parts.rest.len() > 0 {
        assert(lines[end] == parts.rest[0]);
    }
    assert(block_end(lines, from) == end);
    // The entries and their indent.
    assert(parts.entries.take(n) =~= parts.entries);
    assert(parts.offset(n) == last);
    lemma_starts_of_parts(parts, indent, n);
    assert forall|i: int| last <= i < end implies !starts_entry(#[trigger] lines[i], indent) by {
        assert(lines[i] == parts.tail[i - last]);
        lemma_blank_line(lines[i]);
    }
    lemma_starts_stay(lines, from, last, end, indent);
    let starts = entry_starts(lines, from, end, indent);
    assert(starts == Seq::new(n as nat, |j: int| parts.offset(j)));
    assert forall|i: int| from <= i < first implies !is_dash(#[trigger] lines[i]) by {
        assert(lines[i] == parts.preamble[i - from]);
    }
    lemma_first_dash(lines, from, first, end);
    assert(parts.entries.take(0) =~= Seq::empty());
    if n > 0 {
        lemma_entry_in_whole(parts, 0);
        assert(entry_shape(parts.entries[0], indent));
        assert(lines.subrange(first, first + parts.entries[0].len())[0] == parts.entries[0][0]);
        assert(lines[first] == parts.entries[0][0]);
        assert(first_dash(lines, from, end) == first);
    } else {
        assert(first == end);
    }
    assert(block_indent(lines, from, end) == indent);
    assert(!is_uneven(lines, from, end, indent)) by {
        if is_uneven(lines, from, end, indent) {
            let i = choose|i: int|
                from <= i < end && is_dash(#[trigger] lines[i]) && indent_width(lines[i]) < indent;
            assert(block_line(lines[i], indent));
        }
    }
    let ranges = entry_ranges(lines, starts, end);
    assert forall|j: int| 0 <= j < n implies #[trigger] ranges[j] == (
        parts.offset(j),
        parts.offset(j) + parts.entries[j].len(),
    ) by {
        lemma_entry_in_whole(parts, j);
        assert(entry_shape(parts.entries[j], indent));
        if j + 1 == n {
            let start = parts.offset(j);
            let entry = parts.entries[j];
            assert(start + entry.len() == last);
            assert(lines.subrange(start, start + entry.len())[entry.len() - 1] == entry.last());
            assert forall|i: int| last <= i < end implies is_blank(#[trigger] lines[i]) by {
                assert(lines[i] == parts.tail[i - last]);
            }
            lemma_content_end_is(lines, start, last, end);
        }
    }
    assert(ranges =~= parts.block(indent).entries);
    assert forall|j: int| 0 <= j < n implies entry_lines(
        lines,
        #[trigger] parts.block(indent).entries[j],
    ) == parts.entries[j] by {
        lemma_entry_in_whole(parts, j);
    }
    if n > 0 {
        lemma_entry_in_whole(parts, n - 1);
    }
}

/// The parts of a file, given its block.
pub open spec fn parts_of(lines: Seq<Seq<char>>, block: BlockModel) -> FileParts {
    FileParts {
        head: lines.take(block.key + 1),
        preamble: lines.subrange(block.key + 1, entries_start(block)),
        entries: Seq::new(
            block.entries.len(),
            |j: int| entry_lines(lines, block.entries[j]),
        ),
        tail: lines.subrange(entries_end(block), block.end),
        rest: lines.skip(block.end),
    }
}

/// Where the first dash stands.
proof fn lemma_first_dash_range(lines: Seq<Seq<char>>, from: int, end: int)
    requires
        0 <= from <= end <= lines.len(),
    ensures
        from <= first_dash(lines, from, end) <= end,
        first_dash(lines, from, end) < end ==> is_dash(lines[first_dash(lines, from, end)]),
        forall|i: int| from <= i < first_dash(lines, from, end) ==> !is_dash(#[trigger] lines[i]),
    decreases end - from,
{
    if from < end && !is_dash(lines[from]) {
        lemma_first_dash_range(lines, from + 1, end);
    }
}

/// Stretches that follow each other without a gap are one stretch.
proof fn lemma_flat_of_ranges(lines: Seq<Seq<char>>, entries: Seq<(int, int)>, n: int)
    requires
        0 < n <= entries.len(),
        forall|j: int|
            0 <= j < entries.len() ==> 0 <= (#[trigger] entries[j]).0 <= entries[j].1
                <= lines.len(),
        forall|j: int| 0 <= j < entries.len() - 1 ==> (#[trigger] entries[j]).1 == entries[j + 1].0,
    ensures
        entries[0].0 <= entries[n - 1].1,
        flat(Seq::new(n as nat, |j: int| entry_lines(lines, entries[j]))) == lines.subrange(
            entries[0].0,
            entries[n - 1].1,
        ),
    decreases n,
{
    let parts = Seq::new(n as nat, |j: int| entry_lines(lines, entries[j]));
    let before = Seq::new((n - 1) as nat, |j: int| entry_lines(lines, entries[j]));
    assert(parts.drop_last() =~= before);
    let last = entries[n - 1];
    assert(last.0 <= last.1);
    if n == 1 {
        assert(before =~= Seq::empty());
        assert(flat(before) =~= Seq::empty());
        assert(flat(parts) =~= lines.subrange(last.0, last.1));
    } else {
        lemma_flat_of_ranges(lines, entries, n - 1);
        assert(entries[n - 2].1 == entries[n - 2 + 1].0);
        assert(flat(parts) =~= lines.subrange(entries[0].0, last.1));
    }
}

/// How a file comes apart: the parts of a file whose block is found have the
/// right shape, and make up the file.
#[verifier::rlimit(20)]
pub proof fn lemma_decompose(lines: Seq<Seq<char>>)
    ensures
        hooks_block(lines) matches Ok(Some(block)) ==> {
            &&& parts_of(lines, block).is_shaped(block.indent)
            &&& parts_of(lines, block).whole() == lines
            &&& 0 <= block.key < entries_start(block) <= entries_end(block) <= block.end
                <= lines.len()
        },
{
    if let Ok(Some(block)) = hooks_block(lines) {
        let from = block.key + 1;
        let end = block.end;
        let indent = block.indent;
        let starts = entry_starts(lines, from, end, indent);
        let first = first_dash(lines, from, end);
        let parts = parts_of(lines, block);
        let n = block.entries.len() as int;
        lemma_key_range(lines, 0);
        lemma_block_end_range(lines, from);
        lemma_starts(lines, from, end, indent);
        lemma_first_dash_range(lines, from, end);
        lemma_quiet_lines(lines);
        assert forall|i: int| from <= i < end implies block_line(#[trigger] lines[i], indent) by {
            assert(quiet(lines[i]));
            assert(!ends_block(lines[i]));
        }
        // The first entry starts at the first dash.
        if first < end {
            assert(starts_entry(lines[first], indent));
            let j = choose|j: int| 0 <= j < starts.len() && starts[j] == first;
            assert(starts[0] <= starts[j]);
            assert(is_dash(lines[starts[0]]));
        }
        if n > 0 {
            assert(starts[0] < end && is_dash(lines[starts[0]]));
        }
        assert(entries_start(block) == first);
        assert forall|j: int| 0 <= j < n implies from <= (#[trigger] block.entries[j]).0
            < block.entries[j].1 <= end by {
            assert(starts[j] < end);
            assert(starts_entry(lines[starts[j]], indent));
            if j + 1 < n {
                assert(starts[j] < starts[j + 1]);
            } else {
                if is_blank(lines[starts[j]]) {
                    lemma_blank_line(lines[starts[j]]);
                }
                lemma_content_end(lines, starts[j], end);
            }
        }
        // Each entry has the shape of one.
        assert forall|j: int| 0 <= j < n implies entry_shape(#[trigger] parts.entries[j], indent) by {
            let entry = parts.entries[j];
            let start = block.entries[j].0;
            let stop = block.entries[j].1;
            assert(starts[j] == start);
            assert(entry == lines.subrange(start, stop));
            assert(entry[0] == lines[start]);
            assert forall|k: int| 0 <= k < entry.len() implies block_line(
                #[trigger] entry[k],
                indent,
            ) by {
                assert(entry[k] == lines[start + k]);
            }
            assert forall|k: int| 1 <= k < entry.len() implies !starts_entry(
                #[trigger] entry[k],
                indent,
            ) by {
                assert(entry[k] == lines[start + k]);
                if starts_entry(lines[start + k], indent) {
                    let i = choose|i: int| 0 <= i < starts.len() && starts[i] == start + k;
                    if i < j {
                        assert(starts[i] < starts[j]);
                    } else if i > j {
                        if i > j + 1 {
                            assert(starts[j + 1] < starts[i]);
                        }
                        assert(starts[j + 1] <= starts[i]);
                        assert(stop == starts[j + 1]);
                    }
                }
            }
        }
        // The lines around the entries.
        assert forall|i: int| 0 <= i < parts.preamble.len() implies block_line(
            #[trigger] parts.preamble[i],
            indent,
        ) && !is_dash(parts.preamble[i]) by {
            assert(parts.preamble[i] == lines[from + i]);
        }
        assert(parts.head.last() == lines[block.key]);
        assert forall|i: int| 0 <= i < parts.head.len() - 1 implies quiet(
            #[trigger] parts.head[i],
        ) by {
            assert(parts.head[i] == lines[i]);
        }
        assert forall|i: int| 0 <= i < parts.rest.len() implies quiet(#[trigger] parts.rest[i]) by {
            assert(parts.rest[i] == lines[end + i]);
        }
        if n > 0 {
            assert(block.entries[n - 1].0 < block.entries[n - 1].1 <= end);
            assert(starts_entry(lines[starts[n - 1]], indent));
            if is_blank(lines[starts[n - 1]]) {
                lemma_blank_line(lines[starts[n - 1]]);
            }
            lemma_content_end(lines, starts[n - 1], end);
            assert(parts.entries.last().last() == lines[block.entries[n - 1].1 - 1]);
        }
        assert forall|i: int| 0 <= i < parts.tail.len() implies is_blank(#[trigger] parts.tail[i]) by {
            assert(parts.tail[i] == lines[entries_end(block) + i]);
        }
        // Together they are the file.
        if n > 0 {
            assert forall|j: int| 0 <= j < n implies 0 <= (#[trigger] block.entries[j]).0
                <= block.entries[j].1 <= lines.len() by {
                assert(from <= block.entries[j].0 < block.entries[j].1 <= end);
            }
            lemma_flat_of_ranges(lines, block.entries, n);
        } else {
            assert(flat(parts.entries) =~= Seq::empty());
        }
        assert(parts.whole() =~= lines);
    }
}

/// An entry without the blank lines at its end.
pub open spec fn without_tail(entry: Seq<Seq<char>>) -> Seq<Seq<char>> {
    entry.take(content_end(entry, 0, entry.len() as int))
}

/// The parts of a file with the blank lines at the end of the last entry in
/// their place: after the entries, or before them if there are none.
pub open spec fn settled(parts: FileParts) -> FileParts {
    if parts.entries.len() == 0 {
        FileParts { preamble: parts.preamble + parts.tail, tail: Seq::empty(), ..parts }
    } else {
        let last = parts.entries.last();
        FileParts {
            entries: parts.entries.drop_last().push(without_tail(last)),
            tail: last.skip(without_tail(last).len() as int) + parts.tail,
            ..parts
        }
    }
}

/// Loose parts make up a file whose parts are the settled ones.
pub proof fn lemma_settled(parts: FileParts, indent: nat)
    requires
        parts.is_loose(indent),
        parts.entries.len() == 0 ==> indent == DEFAULT_ENTRY_INDENT,
    ensures
        settled(parts).is_shaped(indent),
        settled(parts).whole() == parts.whole(),
{
    let done = settled(parts);
    if parts.entries.len() == 0 {
        assert forall|i: int| 0 <= i < done.preamble.len() implies block_line(
            #[trigger] done.preamble[i],
            indent,
        ) && !is_dash(done.preamble[i]) by {
            if i < parts.preamble.len() {
                assert(done.preamble[i] == parts.preamble[i]);
            } else {
                assert(done.preamble[i] == parts.tail[i - parts.preamble.len()]);
                lemma_blank_line(done.preamble[i]);
            }
        }
        assert(flat(parts.entries) =~= Seq::empty());
        assert(done.whole() =~= parts.whole());
    } else {
        let last = parts.entries.last();
        let kept = without_tail(last);
        let before = parts.entries.drop_last();
        assert(entry_shape(parts.entries[parts.entries.len() - 1], indent));
        if is_blank(last[0]) {
            lemma_blank_line(last[0]);
        }
        lemma_content_end(last, 0, last.len() as int);
        assert(kept[0] == last[0]);
        assert forall|k: int| 0 <= k < kept.len() implies block_line(#[trigger] kept[k], indent) by {
            assert(kept[k] == last[k]);
        }
        assert forall|k: int| 1 <= k < kept.len() implies !starts_entry(
            #[trigger] kept[k],
            indent,
        ) by {
            assert(kept[k] == last[k]);
        }
        assert(entry_shape(kept, indent));
        assert forall|j: int| 0 <= j < done.entries.len() implies entry_shape(
            #[trigger] done.entries[j],
            indent,
        ) by {
            if j < before.len() {
                assert(done.entries[j] == parts.entries[j]);
            }
        }
        assert forall|i: int| 0 <= i < done.tail.len() implies is_blank(#[trigger] done.tail[i]) by {
            if i < last.len() - kept.len() {
                assert(done.tail[i] == last[kept.len() + i]);
            } else {
                assert(done.tail[i] == parts.tail[i - (last.len() - kept.len())]);
            }
        }
        assert(kept.last() == last[kept.len() - 1]);
        lemma_flat_push(before, kept);
        assert(kept + last.skip(kept.len() as int) =~= last);
        assert(done.whole() =~= parts.whole());
    }
}

} // verus!
