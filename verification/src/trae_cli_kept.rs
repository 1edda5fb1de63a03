//! What installing the TRAE CLI hooks keeps, byte for byte.
use crate::entry_edits::{
    all_places, insert_at, is_laid_out, is_recognised, lemma_entries, lemma_merged_block,
    lemma_merged_split, lemma_rebuilt_same, lemma_rendered, lemma_user_none, lemma_user_one,
    lemma_user_picked, picked, user_part, user_places,
};
use crate::hooks_block::{entries_end, hooks_block, BlockModel, LayoutIssue};
use crate::lines::{
    ended, ends_in_return, has_crlf, joined, joined_lines, lemma_joined_alike, lemma_joined_concat,
    lemma_pieces, lemma_split_text, lemma_uses_crlf, line_end, one_line, pieces, returns_of,
    split_text, uses_crlf,
};
use crate::trae_cli::{
    closed, fresh_ends, merged_lines, merged_text, opened, ours_in, own_end, rebuilt,
    rendered_entry, rewritten, with_fresh_block, LineEnd,
};
use crate::trae_cli_laws::{lemma_merged_read, merged_ends};
use vstd::prelude::*;

verus! {

/// Rebuilding a file with nothing to change gives the file: no line is lost,
/// doubled or moved, and every line keeps its ending.
pub proof fn law_rebuild_without_changes(
    lines: Seq<Seq<char>>,
    crlf: Seq<bool>,
    block: BlockModel,
    replacement: Seq<Seq<char>>,
    ends: Seq<LineEnd>,
)
    requires
        hooks_block(lines) == Ok::<Option<BlockModel>, LayoutIssue>(Some(block)),
        crlf.len() == lines.len(),
    ensures
        rewritten(
            rebuilt(lines, lines, block, Seq::empty(), None, replacement, false),
            rebuilt(lines, opened(lines, crlf), block, Seq::empty(), None, ends, false),
        ) == joined_lines(lines, crlf),
{
    lemma_entries(lines, block);
    lemma_rebuilt_same(lines, lines, block, replacement);
    lemma_rebuilt_same(lines, opened(lines, crlf), block, ends);
    assert(closed(opened(lines, crlf)) =~= crlf);
}

/// Whether a carriage return stands behind the line of a file at `i` when the
/// file is edited, and the line comes to be the last or not. It stays as it is
/// where the line was the last and is, or was not and is not. A line that was
/// the last, and had no line feed, ends as the others do where it is followed
/// by one. The ending of a line that comes to be the last goes with its line
/// feed.
pub open spec fn kept_end(
    lines: Seq<Seq<char>>,
    crlf: Seq<bool>,
    i: int,
    is_last: bool,
) -> bool {
    let was_last = i + 1 == lines.len();
    if was_last == is_last {
        crlf[i]
    } else if was_last {
        crlf[i] || uses_crlf(crlf)
    } else {
        crlf[i] && ends_in_return(lines[i])
    }
}

/// Installing a hook into a file that has a `hooks:` block keeps everything
/// outside the git-ai entries byte for byte: the comments, the user's own
/// entries, the blank lines, and what stands before and after the block. Every
/// line is the same, in the same order, and so is its ending, but where the
/// line was the last of the file and is not any more, or the other way round.
pub proof fn law_install_keeps_other_content(
    existing: Seq<char>,
    block: BlockModel,
    cmd: Seq<char>,
)
    requires
        hooks_block(split_text(existing)) == Ok::<Option<BlockModel>, LayoutIssue>(Some(block)),
        is_recognised(cmd),
        one_line(cmd),
    ensures
        merged_text(existing, cmd) matches Ok(Some(text)) ==> (hooks_block(split_text(text))
            matches Ok(Some(after)) && {
            let lines = split_text(existing);
            let now = split_text(text);
            let from = user_places(lines, block);
            let to = user_places(now, after);
            &&& from.len() == to.len()
            &&& forall|i: int|
                0 <= i < from.len() ==> now[#[trigger] to[i]] == lines[from[i]] && returns_of(
                    text,
                )[to[i]] == kept_end(
                    lines,
                    returns_of(existing),
                    from[i],
                    to[i] + 1 == now.len(),
                )
        }),
{
    let lines = split_text(existing);
    let now = merged_lines(lines, block, cmd);
    let crlf = closed(merged_ends(existing, block, cmd));
    lemma_merged_read(existing, block, cmd);
    let mine = lemma_merged_block(lines, block, cmd);
    let after = hooks_block(now)->Ok_0->0;
    lemma_entries(now, after);
    lemma_entries(lines, block);
    let from = user_places(lines, block);
    let to = user_places(now, after);
    lemma_lines_kept(lines, block, cmd, after, mine);
    lemma_user_picked(lines, lines, block);
    lemma_user_picked(now, now, after);
    lemma_ends_kept(existing, block, cmd, after, mine);
    assert forall|i: int| 0 <= i < from.len() implies now[#[trigger] to[i]] == lines[from[i]]
        && crlf[to[i]] == kept_end(
        lines,
        returns_of(existing),
        from[i],
        to[i] + 1 == now.len(),
    ) by {
        assert(picked(now, to)[i] == picked(lines, from)[i]);
    }
}

/// The lines outside the git-ai entries stay.
pub proof fn lemma_lines_kept(
    lines: Seq<Seq<char>>,
    block: BlockModel,
    cmd: Seq<char>,
    after: BlockModel,
    mine: int,
)
    requires
        block.indent > 0,
        is_laid_out(block, lines.len()),
        is_laid_out(after, merged_lines(lines, block, cmd).len()),
        ours_in(merged_lines(lines, block, cmd), after) == seq![mine],
        after.entries[mine].0 == insert_at(lines, block),
        own_end(merged_lines(lines, block, cmd), after.entries[mine]) == insert_at(lines, block) + 6,
    ensures
        ({
            let now = merged_lines(lines, block, cmd);
            user_part(now, now, after) == user_part(lines, lines, block)
        }),
{
    let now = merged_lines(lines, block, cmd);
    let at = insert_at(lines, block);
    let entry = rendered_entry(cmd, block.indent);
    assert(entry.len() == 6) by {
        lemma_rendered(cmd, block.indent);
    }
    let rest = lemma_merged_split(lines, lines, block, entry);
    lemma_user_one(now, now, after, mine);
    assert(now.take(at) =~= lines.take(at));
    assert(now.skip(at + 6) =~= rest);
}

/// The endings of the lines outside the git-ai entries stay.
proof fn lemma_ends_kept(
    existing: Seq<char>,
    block: BlockModel,
    cmd: Seq<char>,
    after: BlockModel,
    mine: int,
)
    requires
        block.indent > 0,
        is_laid_out(block, split_text(existing).len()),
        is_laid_out(after, merged_lines(split_text(existing), block, cmd).len()),
        ours_in(merged_lines(split_text(existing), block, cmd), after) == seq![mine],
        after.entries[mine].0 == insert_at(split_text(existing), block),
        own_end(merged_lines(split_text(existing), block, cmd), after.entries[mine]) == insert_at(
            split_text(existing),
            block,
        ) + 6,
        merged_ends(existing, block, cmd).len() == merged_lines(
            split_text(existing),
            block,
            cmd,
        ).len() > 0,
    ensures
        ({
            let lines = split_text(existing);
            let crlf = returns_of(existing);
            let now = merged_lines(lines, block, cmd);
            let ends = closed(merged_ends(existing, block, cmd));
            let from = user_places(lines, block);
            let to = user_places(now, after);
            &&& from.len() == to.len()
            &&& forall|i: int|
                0 <= i < from.len() ==> ends[#[trigger] to[i]] == kept_end(
                    lines,
                    crlf,
                    from[i],
                    to[i] + 1 == now.len(),
                )
        }),
{
    let lines = split_text(existing);
    let crlf = returns_of(existing);
    let open = opened(lines, crlf);
    let now = merged_lines(lines, block, cmd);
    let at = insert_at(lines, block);
    let all = merged_ends(existing, block, cmd);
    let fresh = fresh_ends(rendered_entry(cmd, block.indent).len(), crlf);
    let from = user_places(lines, block);
    let to = user_places(now, after);
    assert(fresh.len() == 6) by {
        lemma_rendered(cmd, block.indent);
    }
    let rest = lemma_merged_split(lines, open, block, fresh);
    lemma_user_picked(lines, open, block);
    let all_now = all_places(now.len());
    lemma_user_one(now, all_now, after, mine);
    assert(to == all_now.take(at) + all_now.skip(at + 6));
    assert(picked(open, from) == open.take(at) + rest);
    assert(open.take(at).len() == at);
    assert(picked(open, from).len() == at + rest.len());
    assert(from.len() == at + rest.len());
    assert(all.len() == at + 6 + rest.len());
    assert(to.len() == from.len());
    assert forall|i: int| 0 <= i < from.len() implies closed(all)[#[trigger] to[i]] == kept_end(
        lines,
        crlf,
        from[i],
        to[i] + 1 == now.len(),
    ) by {
        assert(picked(open, from)[i] == (open.take(at) + rest)[i]);
        assert(open[from[i]] == (open.take(at) + rest)[i]);
        if i < at {
            assert(to[i] == i);
            assert(all[i] == open[from[i]]);
        } else {
            assert(to[i] == i + 6);
            assert(all[i + 6] == open[from[i]]);
        }
    }
}

/// What is written where an entry is put into a block without git-ai entries.
pub proof fn lemma_inserted(existing: Seq<char>, block: BlockModel, cmd: Seq<char>)
    requires
        block.indent > 0,
        is_laid_out(block, split_text(existing).len()),
        ours_in(split_text(existing), block).len() == 0,
    ensures
        ({
            let lines = split_text(existing);
            let crlf = returns_of(existing);
            let at = entries_end(block);
            let entry = rendered_entry(cmd, block.indent);
            let fresh = fresh_ends(entry.len(), crlf);
            let open = opened(lines, crlf);
            &&& merged_lines(lines, block, cmd) == lines.take(at) + entry + lines.skip(at)
            &&& merged_ends(existing, block, cmd) == open.take(at) + fresh + open.skip(at)
        }),
{
    let lines = split_text(existing);
    let crlf = returns_of(existing);
    let open = opened(lines, crlf);
    let at = entries_end(block);
    let entry = rendered_entry(cmd, block.indent);
    let rest = lemma_merged_split(lines, lines, block, entry);
    let open_rest = lemma_merged_split(lines, open, block, fresh_ends(entry.len(), crlf));
    lemma_user_none(lines, lines, block);
    lemma_user_none(lines, open, block);
    assert((lines.take(at) + rest).skip(at) =~= rest);
    assert((open.take(at) + open_rest).skip(at) =~= open_rest);
}

/// A stretch between line feeds is a line with its ending.
pub proof fn lemma_piece(s: Seq<char>, i: int)
    requires
        0 <= i < pieces(s).len(),
    ensures
        pieces(s)[i] == (if returns_of(s)[i] {
            split_text(s)[i].push('\r')
        } else {
            split_text(s)[i]
        }),
{
    if ends_in_return(pieces(s)[i]) {
        assert(pieces(s)[i].drop_last().push('\r') =~= pieces(s)[i]);
    }
}

/// What is written where an entry is put inside a file.
proof fn lemma_inserted_inside(existing: Seq<char>, entry: Seq<Seq<char>>, at: int)
    requires
        0 < at < split_text(existing).len(),
        entry.len() == 6,
    ensures
        ({
            let lines = split_text(existing);
            let open = opened(lines, returns_of(existing));
            let fresh = fresh_ends(6, returns_of(existing));
            let crlf = closed(open.take(at) + fresh + open.skip(at));
            ended(lines.take(at) + entry + lines.skip(at), crlf) == pieces(existing).take(at)
                + ended(entry, Seq::new(6, |i: int| has_crlf(existing))) + pieces(existing).skip(at)
        }),
{
    let lines = split_text(existing);
    let open = opened(lines, returns_of(existing));
    let fresh = fresh_ends(6, returns_of(existing));
    let now = lines.take(at) + entry + lines.skip(at);
    let crlf = closed(open.take(at) + fresh + open.skip(at));
    let mine = ended(entry, Seq::new(6, |i: int| has_crlf(existing)));
    let bytes = pieces(existing).take(at) + mine + pieces(existing).skip(at);
    lemma_split_text(existing);
    lemma_uses_crlf(existing);
    assert forall|i: int| 0 <= i < now.len() implies #[trigger] ended(now, crlf)[i]
        == bytes[i] by {
        if i < at {
            assert(now[i] == lines[i] && crlf[i] == returns_of(existing)[i]);
            assert(bytes[i] == pieces(existing)[i]);
            lemma_piece(existing, i);
        } else if i < at + 6 {
            assert(now[i] == entry[i - at] && crlf[i] == has_crlf(existing));
            assert(bytes[i] == mine[i - at]);
        } else {
            assert(now[i] == lines[i - 6] && crlf[i] == returns_of(existing)[i - 6]);
            assert(bytes[i] == pieces(existing)[i - 6]);
            lemma_piece(existing, i - 6);
        }
    }
    assert(ended(now, crlf) =~= bytes);
}

/// What comes behind the last line of a file where another follows: the line
/// ending of the file, of which a carriage return may be there already.
pub open spec fn next_end(existing: Seq<char>) -> Seq<char> {
    if ends_in_return(existing) {
        line_end(false)
    } else {
        line_end(has_crlf(existing))
    }
}

/// Installing a hook into a `hooks:` block without a git-ai entry puts the
/// entry in one place of the file, and changes no byte of what stands before
/// and after it. At the end of a file, the line ending that was missing there
/// comes before the entry.
pub proof fn law_install_inserts_entry(existing: Seq<char>, block: BlockModel, cmd: Seq<char>)
    requires
        hooks_block(split_text(existing)) == Ok::<Option<BlockModel>, LayoutIssue>(Some(block)),
        ours_in(split_text(existing), block).len() == 0,
    ensures
        merged_text(existing, cmd) matches Ok(Some(text)) && ({
            let end = line_end(has_crlf(existing));
            let entry = joined(rendered_entry(cmd, block.indent), end);
            &&& entries_end(block) < split_text(existing).len() ==> exists|cut: int|
                0 <= cut <= existing.len() && text == #[trigger] existing.take(cut) + (entry + end)
                    + existing.skip(cut)
            &&& entries_end(block) == split_text(existing).len() ==> text == existing
                + next_end(existing) + entry
        }),
{
    let lines = split_text(existing);
    let crlf = returns_of(existing);
    let at = entries_end(block);
    let mine = rendered_entry(cmd, block.indent);
    assert(lines.len() == crlf.len() > 0) by {
        lemma_split_text(existing);
    }
    lemma_entries(lines, block);
    assert(mine.len() == 6) by {
        lemma_rendered(cmd, block.indent);
    }
    lemma_inserted(existing, block, cmd);
    if at < lines.len() {
        lemma_inserted_text(existing, mine, at);
    } else {
        let open = opened(lines, crlf);
        let fresh = fresh_ends(6, crlf);
        assert(lines.take(at) + mine + lines.skip(at) =~= lines + mine);
        assert(open.take(at) + fresh + open.skip(at) =~= open + fresh);
        lemma_inserted_at_end(existing, mine);
    }
}

/// The text of a file that an entry is put inside of.
proof fn lemma_inserted_text(existing: Seq<char>, entry: Seq<Seq<char>>, at: int)
    requires
        0 < at < split_text(existing).len(),
        entry.len() == 6,
    ensures
        ({
            let lines = split_text(existing);
            let open = opened(lines, returns_of(existing));
            let fresh = fresh_ends(6, returns_of(existing));
            let end = line_end(has_crlf(existing));
            exists|cut: int|
                0 <= cut <= existing.len() && rewritten(
                    lines.take(at) + entry + lines.skip(at),
                    open.take(at) + fresh + open.skip(at),
                ) == #[trigger] existing.take(cut) + (joined(entry, end) + end) + existing.skip(cut)
        }),
{
    let feed = line_end(false);
    let end = line_end(has_crlf(existing));
    let before = pieces(existing).take(at);
    let behind = pieces(existing).skip(at);
    let middle = ended(entry, Seq::new(6, |i: int| has_crlf(existing)));
    lemma_inserted_inside(existing, entry, at);
    assert(joined(middle, feed) + feed == joined(entry, end) + end) by {
        lemma_joined_alike(entry, has_crlf(existing));
    }
    assert(joined(before + behind, feed) == existing) by {
        lemma_pieces(existing);
        assert(before + behind =~= pieces(existing));
    }
    let cut = lemma_joined_between(before, middle, behind);
    assert(joined(before + middle + behind, feed) == existing.take(cut) + (joined(entry, end)
        + end) + existing.skip(cut));
}

/// Joining lines with others between them.
proof fn lemma_joined_between(
    before: Seq<Seq<char>>,
    middle: Seq<Seq<char>>,
    behind: Seq<Seq<char>>,
) -> (cut: int)
    requires
        before.len() > 0,
        middle.len() > 0,
        behind.len() > 0,
    ensures
        ({
            let feed = line_end(false);
            let s = joined(before + behind, feed);
            &&& 0 <= cut <= s.len()
            &&& joined(before + middle + behind, feed) == s.take(cut) + (joined(middle, feed)
                + feed) + s.skip(cut)
        }),
{
    let feed = line_end(false);
    let s = joined(before + behind, feed);
    let cut = (joined(before, feed).len() + 1) as int;
    lemma_joined_concat(before, behind, feed);
    lemma_joined_concat(before, middle, feed);
    lemma_joined_concat(before + middle, behind, feed);
    assert(s.take(cut) =~= joined(before, feed) + feed);
    assert(s.skip(cut) =~= joined(behind, feed));
    assert(joined(before + middle + behind, feed) =~= s.take(cut) + (joined(middle, feed) + feed)
        + s.skip(cut));
    cut
}

/// What is written where an entry is put at the end of a file.
proof fn lemma_inserted_at_end(existing: Seq<char>, entry: Seq<Seq<char>>)
    requires
        entry.len() == 6,
    ensures
        ({
            let lines = split_text(existing);
            let crlf = returns_of(existing);
            let end = line_end(has_crlf(existing));
            rewritten(lines + entry, opened(lines, crlf) + fresh_ends(6, crlf)) == existing
                + next_end(existing) + joined(entry, end)
        }),
{
    let lines = split_text(existing);
    let crlf = returns_of(existing);
    let feed = line_end(false);
    let end = line_end(has_crlf(existing));
    let n = lines.len() as int;
    let now = closed(opened(lines, crlf) + fresh_ends(6, crlf));
    let all = ended(lines + entry, now);
    let last = pieces(existing).last();
    let first = pieces(existing).drop_last();
    lemma_split_text(existing);
    lemma_pieces(existing);
    lemma_uses_crlf(existing);
    lemma_piece(existing, n - 1);
    // The lines of the file.
    let old = all.take(n);
    assert forall|i: int| 0 <= i < n - 1 implies #[trigger] old[i] == first[i] by {
        assert(now[i] == crlf[i]);
        lemma_piece(existing, i);
    }
    assert(old.drop_last() =~= first);
    assert(now[n - 1] == (crlf[n - 1] || has_crlf(existing)));
    assert(old.last() + feed =~= last + next_end(existing));
    assert(joined(old, feed) + feed =~= existing + next_end(existing)) by {
        if n > 1 {
            assert(joined(old, feed) + feed =~= joined(first, feed) + feed + (old.last() + feed));
            assert(existing + next_end(existing) =~= joined(first, feed) + feed + (last
                + next_end(existing)));
        }
    }
    // Those of the entry.
    let mine = all.skip(n);
    let before = entry.drop_last();
    assert(mine.drop_last() =~= ended(before, Seq::new(5, |i: int| has_crlf(existing))));
    assert(mine.last() == entry.last());
    lemma_joined_alike(before, has_crlf(existing));
    assert(joined(mine, feed) =~= joined(mine.drop_last(), feed) + feed + entry.last());
    assert(joined(entry, end) =~= joined(before, end) + end + entry.last());
    assert(old + mine =~= all);
    lemma_joined_concat(old, mine, feed);
}

/// Installing a hook into a file that has no `hooks:` block keeps the whole
/// file as it is, and puts the block after it.
pub proof fn law_fresh_install_keeps_file(existing: Seq<char>, cmd: Seq<char>)
    requires
        hooks_block(split_text(existing)) == Ok::<Option<BlockModel>, LayoutIssue>(None),
    ensures
        merged_text(existing, cmd) matches Ok(Some(text)) && existing.is_prefix_of(text),
{
    let text = with_fresh_block(existing, cmd);
    assert(text.take(existing.len() as int) =~= existing);
}

} // verus!
