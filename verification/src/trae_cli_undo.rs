//! What removing the TRAE CLI hooks keeps, and what it undoes.
use crate::block_shape::{lemma_compose, lemma_decompose, lemma_flat_push, parts_of};
use crate::entry_edits::{
    all_places, insert_at, is_laid_out, is_recognised, lemma_ascending, lemma_emptied_block,
    lemma_entries, lemma_merged_block, lemma_merged_split, lemma_rendered, lemma_user_none,
    lemma_user_one, lemma_user_picked, picked, user_part, user_places,
};
use crate::hooks_block::{
    entries_end, entries_start, hooks_block, BlockModel, LayoutIssue, DEFAULT_ENTRY_INDENT,
};
use crate::lines::{
    ended, ends_in_return, has_crlf, joined, joined_lines, law_join_undoes_split, lemma_pieces,
    lemma_pieces_concat, lemma_split_text, line_end, one_line, pieces, returns_of, split_text,
};
use crate::text::is_blank;
use crate::trae_cli::{
    closed, flat, has_remaining_content, in_entries, merged_lines, merged_text, opened, ours_in,
    own_end, rendered_entry, rewritten, stripped, stripped_text, with_fresh_block,
};
use crate::trae_cli_kept::{kept_end, lemma_inserted, lemma_lines_kept, lemma_piece};
use crate::trae_cli_laws::{
    fresh_block_lines, fresh_parts, lemma_empty_text, lemma_fresh_block, lemma_fresh_lines,
    lemma_fresh_split, lemma_merged_read, lemma_stripped_read, lines_before, merged_ends,
};
use vstd::prelude::*;

verus! {

/// A file with a line feed after its last line, if it has any text.
pub open spec fn terminated(s: Seq<char>) -> Seq<char> {
    if s.len() == 0 || s.last() == '\n' {
        s
    } else {
        s.push('\n')
    }
}

/// The stretches of text before a fresh block are those of the file before.
proof fn lemma_fresh_pieces(existing: Seq<char>, cmd: Seq<char>)
    requires
        one_line(cmd),
    ensures
        ({
            let text = with_fresh_block(existing, cmd);
            let n = lines_before(existing).len() as int;
            &&& n <= pieces(existing).len()
            &&& pieces(text).len() == n + 8
            &&& pieces(text).take(n) == pieces(existing).take(n)
            &&& !ends_in_return(pieces(text).last())
        }),
{
    let text = with_fresh_block(existing, cmd);
    let crlf = has_crlf(existing);
    let block = joined(fresh_block_lines(cmd), line_end(crlf));
    let n = lines_before(existing).len() as int;
    lemma_fresh_lines(cmd, crlf);
    lemma_pieces(existing);
    assert(pieces(block).len() == 8);
    assert(!ends_in_return(pieces(block).last()));
    if existing.len() == 0 {
        assert(text =~= block);
    } else if existing.last() == '\n' {
        let a = existing.drop_last();
        assert(existing =~= a.push('\n'));
        assert(text =~= a.push('\n') + block);
        lemma_pieces_concat(a, block);
        assert(pieces(existing).drop_last() =~= pieces(a));
    } else {
        assert(text =~= existing.push('\n') + block);
        lemma_pieces_concat(existing, block);
    }
    assert(pieces(text).take(n) =~= pieces(existing).take(n));
}

/// There is nothing else in a fresh block.
proof fn lemma_fresh_content(existing: Seq<char>, cmd: Seq<char>)
    requires
        hooks_block(split_text(existing)) == Ok::<Option<BlockModel>, LayoutIssue>(None),
        is_recognised(cmd),
        one_line(cmd),
    ensures
        ({
            let lines = split_text(with_fresh_block(existing, cmd));
            let block = fresh_parts(existing, cmd).block(DEFAULT_ENTRY_INDENT as nat);
            &&& !has_remaining_content(lines, block, seq![0int])
            &&& block.key == lines_before(existing).len()
            &&& entries_end(block) == lines_before(existing).len() + 7
        }),
{
    let lines = split_text(with_fresh_block(existing, cmd));
    let indent = DEFAULT_ENTRY_INDENT as nat;
    let parts = fresh_parts(existing, cmd);
    let block = parts.block(indent);
    let before = lines_before(existing);
    let entry = rendered_entry(cmd, indent);
    let none = Seq::<Seq<Seq<char>>>::empty();
    lemma_fresh_block(existing, cmd);
    lemma_fresh_split(existing, cmd);
    lemma_compose(parts, indent);
    lemma_rendered(cmd, indent);
    assert(flat(none) =~= Seq::empty());
    assert(parts.entries =~= none.push(entry));
    lemma_flat_push(none, entry);
    assert(flat(parts.entries) =~= entry);
    assert(entries_start(block) == before.len() + 1);
    assert(block.end == before.len() + 8);
    assert forall|i: int| block.key < i < block.end implies is_blank(#[trigger] lines[i])
        || in_entries(lines, block.entries, seq![0int], i) by {
        if i < before.len() + 7 {
            assert(block.entries[seq![0int][0]].0 <= i < own_end(
                lines,
                block.entries[seq![0int][0]],
            ));
        } else {
            assert(lines[i] == fresh_block_lines(cmd)[7]);
        }
    }
}

/// Removing the hooks undoes their installation in a file that had no
/// `hooks:` block. Only a line feed that was missing at the end of the file is
/// there afterwards.
pub proof fn law_uninstall_undoes_fresh_install(existing: Seq<char>, cmd: Seq<char>)
    requires
        hooks_block(split_text(existing)) == Ok::<Option<BlockModel>, LayoutIssue>(None),
        is_recognised(cmd),
        one_line(cmd),
    ensures
        merged_text(existing, cmd) matches Ok(Some(text)) && stripped_text(text) == Ok::<
            Option<Seq<char>>,
            LayoutIssue,
        >(Some(terminated(existing))),
{
    let text = with_fresh_block(existing, cmd);
    let lines = split_text(text);
    let crlf = returns_of(text);
    let block = fresh_parts(existing, cmd).block(DEFAULT_ENTRY_INDENT as nat);
    let before = lines_before(existing);
    let n = before.len() as int;
    lemma_fresh_block(existing, cmd);
    lemma_fresh_split(existing, cmd);
    lemma_fresh_pieces(existing, cmd);
    lemma_fresh_content(existing, cmd);
    lemma_split_text(existing);
    lemma_pieces(existing);
    law_join_undoes_split(existing);
    let empty = Seq::<char>::empty();
    let left = stripped(lines, lines, block);
    let ends = stripped(lines, opened(lines, crlf), block);
    let flags = closed(ends);
    assert(left =~= before.push(empty));
    assert(!crlf.last());
    let all = pieces(existing).take(n).push(empty);
    assert forall|i: int| 0 <= i < left.len() implies #[trigger] ended(left, flags)[i]
        == all[i] by {
        if i < n {
            assert(crlf[i] == ends_in_return(pieces(text).take(n)[i]));
            assert(flags[i] == crlf[i]);
            assert(left[i] == split_text(existing)[i]);
            assert(ended(split_text(existing), returns_of(existing))[i] == pieces(existing)[i]) by {
                if ends_in_return(pieces(existing)[i]) {
                    assert(pieces(existing)[i].drop_last().push('\r') =~= pieces(existing)[i]);
                }
            }
        }
    }
    assert(ended(left, flags) =~= all);
    if existing.len() == 0 || existing.last() == '\n' {
        assert(pieces(existing).last() =~= empty);
        assert(all =~= pieces(existing));
    } else {
        assert(all.drop_last() =~= pieces(existing));
        assert(joined(all, line_end(false)) =~= existing.push('\n'));
    }
}

/// The content that a block had is still there beside the entry that was put
/// after it.
proof fn lemma_content_stays(
    lines: Seq<Seq<char>>,
    block: BlockModel,
    cmd: Seq<char>,
    after: BlockModel,
    mine: int,
)
    requires
        hooks_block(lines) == Ok::<Option<BlockModel>, LayoutIssue>(Some(block)),
        ours_in(lines, block).len() == 0,
        has_remaining_content(lines, block, Seq::empty()),
        is_laid_out(after, merged_lines(lines, block, cmd).len()),
        0 <= mine < after.entries.len(),
        after.key == block.key,
        after.entries[mine].0 == insert_at(lines, block),
        own_end(merged_lines(lines, block, cmd), after.entries[mine]) == insert_at(lines, block) + 6,
    ensures
        has_remaining_content(merged_lines(lines, block, cmd), after, seq![mine]),
{
    let now = merged_lines(lines, block, cmd);
    let e = entries_end(block);
    let chosen = seq![mine];
    let i = choose|i: int|
        block.key < i < block.end && !is_blank(#[trigger] lines[i]) && !in_entries(
            lines,
            block.entries,
            Seq::empty(),
            i,
        );
    lemma_decompose(lines);
    lemma_entries(lines, block);
    if i >= e {
        assert(parts_of(lines, block).tail[i - e] == lines[i]);
    }
    let rest = lemma_merged_split(lines, lines, block, rendered_entry(cmd, block.indent));
    assert(now[i] == lines[i]);
    lemma_ascending(now, after.entries, mine, after.entries.len() - 1);
    assert(after.entries[mine].0 <= after.entries[mine].1);
    assert(i < after.end);
    assert(!in_entries(now, after.entries, chosen, i));
}

/// Whether a file ends in a single carriage return.
pub open spec fn ends_in_single_return(s: Seq<char>) -> bool {
    ends_in_return(s) && !ends_in_return(split_text(s).last())
}

/// What is left of a file when an entry that was put into its block is taken
/// out again: the file, but for a single carriage return at its end, which is
/// a part of the line ending that came before the entry if it was put there.
pub open spec fn restored(existing: Seq<char>, block: BlockModel) -> Seq<char> {
    if entries_end(block) == split_text(existing).len() && ends_in_single_return(existing) {
        existing.drop_last()
    } else {
        existing
    }
}

/// Taking an entry out again restores the endings.
proof fn lemma_ends_restored(existing: Seq<char>, block: BlockModel, cmd: Seq<char>)
    requires
        block.indent > 0,
        is_laid_out(block, split_text(existing).len()),
        ours_in(split_text(existing), block).len() == 0,
    ensures
        ({
            let lines = split_text(existing);
            let at = insert_at(lines, block);
            let now = merged_lines(lines, block, cmd);
            let open = opened(now, closed(merged_ends(existing, block, cmd)));
            rewritten(lines, open.take(at) + open.skip(at + 6)) == restored(existing, block)
        }),
{
    let lines = split_text(existing);
    let crlf = returns_of(existing);
    let at = insert_at(lines, block);
    let n = lines.len() as int;
    let now = merged_lines(lines, block, cmd);
    let all = merged_ends(existing, block, cmd);
    let open = opened(now, closed(all));
    let left = open.take(at) + open.skip(at + 6);
    lemma_split_text(existing);
    lemma_rendered(cmd, block.indent);
    lemma_inserted(existing, block, cmd);
    law_join_undoes_split(existing);
    assert(left.len() == n);
    assert forall|i: int| 0 <= i < n - 1 implies #[trigger] closed(left)[i] == crlf[i] by {
        if i < at {
            assert(closed(left)[i] == all[i].inside);
        } else {
            assert(closed(left)[i] == all[i + 6].inside);
        }
    }
    if at < n {
        assert(closed(left)[n - 1] == all.last().last);
        assert(closed(left) =~= crlf);
    } else {
        assert(now[n - 1] == lines[n - 1]);
        assert(closed(left)[n - 1] == (all[n - 1].inside && ends_in_return(lines[n - 1])));
        assert(closed(left) =~= crlf.update(n - 1, ends_in_return(lines[n - 1])));
        lemma_dropped_return(existing);
        if crlf[n - 1] == ends_in_return(lines[n - 1]) {
            assert(closed(left) =~= crlf);
        }
    }
}

/// A file without the carriage return at its end.
proof fn lemma_dropped_return(s: Seq<char>)
    ensures
        ends_in_return(s) == returns_of(s).last(),
        ends_in_return(s) ==> joined_lines(
            split_text(s),
            returns_of(s).update(split_text(s).len() - 1, false),
        ) == s.drop_last(),
{
    let lines = split_text(s);
    let n = lines.len() as int;
    lemma_pieces(s);
    if ends_in_return(s) {
        let all = pieces(s);
        let now = ended(lines, returns_of(s).update(n - 1, false));
        assert forall|i: int| 0 <= i < n - 1 implies #[trigger] now[i] == all[i] by {
            lemma_piece(s, i);
        }
        assert(now.drop_last() =~= all.drop_last());
        assert(now.last() == all.last().drop_last());
        if n > 1 {
            assert(joined(now, line_end(false)) =~= s.drop_last());
        }
    }
}

/// Removing the hooks undoes their installation in a file that had a `hooks:`
/// block with other content and no git-ai entry: the file is what it was. Only
/// a single carriage return at its end goes, where the entry was put behind it.
#[verifier::rlimit(20)]
pub proof fn law_uninstall_undoes_install(existing: Seq<char>, block: BlockModel, cmd: Seq<char>)
    requires
        hooks_block(split_text(existing)) == Ok::<Option<BlockModel>, LayoutIssue>(Some(block)),
        ours_in(split_text(existing), block).len() == 0,
        has_remaining_content(split_text(existing), block, Seq::empty()),
        is_recognised(cmd),
        one_line(cmd),
    ensures
        merged_text(existing, cmd) matches Ok(Some(text)) && stripped_text(text) == Ok::<
            Option<Seq<char>>,
            LayoutIssue,
        >(Some(restored(existing, block))),
{
    let lines = split_text(existing);
    let now = merged_lines(lines, block, cmd);
    let crlf = closed(merged_ends(existing, block, cmd));
    lemma_entries(lines, block);
    lemma_merged_read(existing, block, cmd);
    let mine = lemma_merged_block(lines, block, cmd);
    let after = hooks_block(now)->Ok_0->0;
    lemma_entries(now, after);
    lemma_content_stays(lines, block, cmd, after, mine);
    lemma_lines_kept(lines, block, cmd, after, mine);
    lemma_user_none(lines, lines, block);
    lemma_user_one(now, opened(now, crlf), after, mine);
    lemma_ends_restored(existing, block, cmd);
    assert(stripped(now, now, after) == lines);
}

/// Removing the hooks from a file whose `hooks:` block has other content keeps
/// everything outside the git-ai entries byte for byte, and nothing else:
/// every line, in the same order, and its ending, but where the line comes to
/// be the last of the file.
pub proof fn law_uninstall_keeps_other_content(existing: Seq<char>, block: BlockModel)
    requires
        hooks_block(split_text(existing)) == Ok::<Option<BlockModel>, LayoutIssue>(Some(block)),
        has_remaining_content(
            split_text(existing),
            block,
            ours_in(split_text(existing), block),
        ),
    ensures
        stripped_text(existing) matches Ok(Some(text)) ==> {
            let lines = split_text(existing);
            let from = user_places(lines, block);
            let now = split_text(text);
            &&& now.len() == from.len()
            &&& forall|i: int|
                0 <= i < from.len() ==> now[i] == lines[#[trigger] from[i]] && returns_of(text)[i]
                    == kept_end(lines, returns_of(existing), from[i], i + 1 == now.len())
        },
{
    let lines = split_text(existing);
    let crlf = returns_of(existing);
    let open = opened(lines, crlf);
    let from = user_places(lines, block);
    lemma_split_text(existing);
    lemma_entries(lines, block);
    lemma_stripped_read(existing, block);
    lemma_user_picked(lines, lines, block);
    lemma_user_picked(lines, open, block);
    if ours_in(lines, block).len() > 0 {
        let left = user_part(lines, lines, block);
        let ends = user_part(lines, open, block);
        assert(left.len() > 0);
        assert forall|i: int| 0 <= i < from.len() implies left[i] == lines[#[trigger] from[i]]
            && closed(ends)[i] == kept_end(lines, crlf, from[i], i + 1 == left.len()) by {
            assert(left[i] == picked(lines, from)[i]);
            assert(ends[i] == picked(open, from)[i]);
        }
    }
}

/// Removing the hooks from a file whose `hooks:` block has no other content
/// drops the block. What stands before and after it stays, and the file has no
/// such block afterwards.
pub proof fn law_emptied_block_is_dropped(existing: Seq<char>, block: BlockModel)
    requires
        hooks_block(split_text(existing)) == Ok::<Option<BlockModel>, LayoutIssue>(Some(block)),
        !has_remaining_content(
            split_text(existing),
            block,
            ours_in(split_text(existing), block),
        ),
    ensures
        stripped_text(existing) matches Ok(Some(text)) ==> {
            let lines = split_text(existing);
            let places = all_places(lines.len());
            let from = places.take(block.key) + places.skip(entries_end(block));
            let now = split_text(text);
            &&& hooks_block(now) == Ok::<Option<BlockModel>, LayoutIssue>(None)
            &&& from.len() == 0 ==> text.len() == 0
            &&& from.len() > 0 ==> now.len() == from.len()
            &&& forall|i: int|
                0 <= i < from.len() ==> now[i] == lines[#[trigger] from[i]] && returns_of(text)[i]
                    == kept_end(lines, returns_of(existing), from[i], i + 1 == now.len())
        },
{
    let lines = split_text(existing);
    let crlf = returns_of(existing);
    let open = opened(lines, crlf);
    let places = all_places(lines.len());
    let e = entries_end(block);
    let from = places.take(block.key) + places.skip(e);
    lemma_split_text(existing);
    lemma_entries(lines, block);
    lemma_stripped_read(existing, block);
    lemma_emptied_block(lines, block);
    lemma_empty_text();
    if ours_in(lines, block).len() > 0 {
        let left = lines.take(block.key) + lines.skip(e);
        let ends = open.take(block.key) + open.skip(e);
        assert forall|i: int| 0 <= i < from.len() implies left[i] == lines[#[trigger] from[i]]
            && closed(ends)[i] == kept_end(lines, crlf, from[i], i + 1 == left.len()) by {
            assert(ends[i] == open[from[i]]);
        }
    }
}

} // verus!
