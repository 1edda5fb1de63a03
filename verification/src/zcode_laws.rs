//! What installing and removing the ZCode hooks promises as a whole.
use crate::installer::checkpoint_command;
use crate::json::JsonModel;
use crate::zcode::{
    block_runs_checkpoint, blocks_run_checkpoint, event_blocks, event_runs_checkpoint,
    first_catch_all, first_ours, fresh_block, is_catch_all, is_emptied, lemma_event_names,
    lemma_first_catch_all, lemma_first_catch_all_is, lemma_first_ours, lemma_first_ours_is,
    lemma_fresh_block, lemma_our_hook, lemma_section_keys, lemma_without_ours, member_or_empty,
    merged_block, merged_blocks, merged_config, merged_event, merged_events, merged_hooks,
    merged_section, our_hook, refreshed, runs_checkpoint, stripped_block, stripped_blocks,
    stripped_config, stripped_event, stripped_events, without_ours,
};
use vstd::prelude::*;

verus! {

/// Whether a configuration has the form that the hooks can be installed in:
/// it is an object, and so are its `hooks` and its `events`, if it has them.
pub open spec fn is_installable(config: JsonModel) -> bool {
    &&& config is Object
    &&& member_or_empty(config, "hooks"@) is Object
    &&& member_or_empty(member_or_empty(config, "hooks"@), "events"@) is Object
}

/// The events that hooks are installed for.
pub open spec fn is_hook_event(event: Seq<char>) -> bool {
    event == "PreToolUse"@ || event == "PostToolUse"@
}

/// The keys of a matcher block differ.
pub proof fn lemma_block_keys()
    ensures
        "matcher"@ != "hooks"@,
{
    reveal_strlit("matcher");
    reveal_strlit("hooks");
    assert("matcher"@.len() != "hooks"@.len());
}

/// What the merged hooks of a matcher block are: one of them runs a git-ai
/// checkpoint, and it runs `cmd`; those that run none stay.
pub proof fn law_merged_hooks(hooks: Seq<JsonModel>, cmd: Seq<char>)
    requires
        checkpoint_command(cmd),
    ensures
        ({
            let merged = merged_hooks(hooks, cmd);
            let k = first_ours(merged, 0);
            &&& 0 <= k < merged.len()
            &&& runs_checkpoint(merged[k])
            &&& merged[k].text_at("command"@) == Some(cmd)
            &&& forall|j: int|
                0 <= j < merged.len() && j != k ==> !runs_checkpoint(#[trigger] merged[j])
            &&& without_ours(merged) == without_ours(hooks)
            &&& merged_hooks(merged, cmd) == merged
        }),
{
    let merged = merged_hooks(hooks, cmd);
    let i = first_ours(hooks, 0);
    lemma_first_ours(hooks, 0);
    lemma_our_hook(cmd);
    if i < hooks.len() {
        let head = hooks.take(i);
        let mine = refreshed(hooks[i], cmd);
        let tail = without_ours(hooks.skip(i + 1));
        lemma_without_ours(hooks.skip(i + 1));
        assert(merged[i] == mine);
        assert forall|j: int| 0 <= j < merged.len() && j != i implies !runs_checkpoint(
            #[trigger] merged[j],
        ) by {
            if j < i {
                assert(merged[j] == hooks[j]);
            } else {
                assert(merged[j] == tail[j - i - 1]);
            }
        }
        lemma_first_ours_is(merged, 0, i);
        assert(merged.take(i) =~= head);
        assert(merged.skip(i + 1) =~= tail);
        lemma_without_ours(tail);
        assert(merged_hooks(merged, cmd) =~= merged);
        lemma_without_ours_concat(head.push(mine), tail);
        lemma_without_ours_concat(head.push(hooks[i]), hooks.skip(i + 1));
        assert(head.push(mine) + tail =~= merged);
        assert(head.push(hooks[i]) + hooks.skip(i + 1) =~= hooks);
        assert(head.push(mine).drop_last() =~= head);
        assert(head.push(hooks[i]).drop_last() =~= head);
    } else {
        assert forall|j: int| 0 <= j < merged.len() && j != i implies !runs_checkpoint(
            #[trigger] merged[j],
        ) by {
            assert(merged[j] == hooks[j]);
        }
        assert(merged[i] == our_hook(cmd));
        lemma_first_ours_is(merged, 0, i);
        assert(merged.skip(i + 1) =~= Seq::empty());
        assert(merged_hooks(merged, cmd) =~= merged);
        assert(merged.drop_last() =~= hooks);
    }
}

/// Leaving out hooks works piece by piece.
proof fn lemma_without_ours_concat(a: Seq<JsonModel>, b: Seq<JsonModel>)
    ensures
        without_ours(a + b) == without_ours(a) + without_ours(b),
    decreases b.len(),
{
    if b.len() == 0 {
        assert(a + b =~= a);
        assert(without_ours(a) + without_ours(b) =~= without_ours(a));
    } else {
        assert((a + b).drop_last() =~= a + b.drop_last());
        lemma_without_ours_concat(a, b.drop_last());
        assert(without_ours(a + b) =~= without_ours(a) + without_ours(b));
    }
}

/// Installing in a matcher block that catches all tools leaves it one, keeps
/// its other members, and is idempotent.
proof fn lemma_merged_block(block: JsonModel, cmd: Seq<char>)
    requires
        checkpoint_command(cmd),
        is_catch_all(block),
    ensures
        is_catch_all(merged_block(block, cmd)),
        merged_block(block, cmd).items_at("hooks"@) == merged_hooks(block.items_at("hooks"@), cmd),
        merged_block(merged_block(block, cmd), cmd) == merged_block(block, cmd),
        block_runs_checkpoint(merged_block(block, cmd)),
{
    lemma_block_keys();
    let hooks = block.items_at("hooks"@);
    law_merged_hooks(hooks, cmd);
    let merged = merged_block(block, cmd);
    let k = first_ours(merged_hooks(hooks, cmd), 0);
    assert(runs_checkpoint(merged.items_at("hooks"@)[k]));
    assert(merged_block(merged, cmd)->Object_0 =~= merged->Object_0);
}

/// Installing for an event is idempotent.
proof fn lemma_merged_blocks(blocks: Seq<JsonModel>, cmd: Seq<char>)
    requires
        checkpoint_command(cmd),
    ensures
        ({
            let merged = merged_blocks(blocks, cmd);
            let i = first_catch_all(blocks, 0);
            &&& first_catch_all(merged, 0) == i < merged.len()
            &&& 0 <= i
            &&& merged[i] == merged_block(
                if i < blocks.len() {
                    blocks[i]
                } else {
                    fresh_block()
                },
                cmd,
            )
            &&& merged_blocks(merged, cmd) == merged
            &&& blocks_run_checkpoint(merged)
        }),
{
    let i = first_catch_all(blocks, 0);
    let merged = merged_blocks(blocks, cmd);
    lemma_first_catch_all(blocks, 0);
    lemma_fresh_block();
    if i < blocks.len() {
        lemma_merged_block(blocks[i], cmd);
    } else {
        lemma_merged_block(fresh_block(), cmd);
    }
    assert forall|j: int| 0 <= j < i implies !is_catch_all(#[trigger] merged[j]) by {
        assert(merged[j] == blocks[j]);
    }
    lemma_first_catch_all_is(merged, 0, i);
    assert(block_runs_checkpoint(merged[i]));
    assert(merged_blocks(merged, cmd) =~= merged);
}

/// Installing for both events: each has what installing for it alone gives,
/// and the others stay.
pub proof fn lemma_event_members(events: JsonModel, cmd: Seq<char>)
    requires
        events is Object,
    ensures
        merged_events(events, cmd) is Object,
        forall|event: Seq<char>|
            is_hook_event(event) ==> #[trigger] merged_events(events, cmd).items_at(event)
                == merged_blocks(events.items_at(event), cmd),
        forall|event: Seq<char>|
            !is_hook_event(event) ==> #[trigger] merged_events(events, cmd).get(event)
                == events.get(event),
{
    lemma_event_names();
    let between = merged_event(events->Object_0, "PreToolUse"@, cmd);
    assert(JsonModel::Object(between).items_at("PostToolUse"@) == events.items_at("PostToolUse"@));
}

/// Installing for both events is idempotent.
proof fn lemma_merged_events(events: JsonModel, cmd: Seq<char>)
    requires
        checkpoint_command(cmd),
        events is Object,
    ensures
        merged_events(merged_events(events, cmd), cmd) == merged_events(events, cmd),
{
    lemma_event_names();
    lemma_event_members(events, cmd);
    let before = events->Object_0;
    let between = merged_event(before, "PreToolUse"@, cmd);
    let after = merged_event(between, "PostToolUse"@, cmd);
    let merged = merged_events(events, cmd);
    assert(merged == JsonModel::Object(after));
    assert(JsonModel::Object(between).items_at("PostToolUse"@) == events.items_at("PostToolUse"@));
    assert(merged.items_at("PreToolUse"@) == merged_blocks(events.items_at("PreToolUse"@), cmd));
    assert(merged.items_at("PostToolUse"@) == merged_blocks(events.items_at("PostToolUse"@), cmd));
    lemma_merged_blocks(events.items_at("PreToolUse"@), cmd);
    lemma_merged_blocks(events.items_at("PostToolUse"@), cmd);
    let again = merged_event(after, "PreToolUse"@, cmd);
    assert(again =~= after);
    assert(merged_event(again, "PostToolUse"@, cmd) =~= after);
}

/// What installing makes of the value of `hooks`.
pub proof fn lemma_section_members(section: JsonModel, cmd: Seq<char>)
    requires
        section is Object,
    ensures
        merged_section(section, cmd).get("enabled"@) == Some(JsonModel::Bool(true)),
        merged_section(section, cmd).get("events"@) == Some(
            merged_events(member_or_empty(section, "events"@), cmd),
        ),
        forall|key: Seq<char>|
            key != "enabled"@ && key != "events"@ ==> #[trigger] merged_section(section, cmd).get(
                key,
            ) == section.get(key),
{
    lemma_section_keys();
}

/// Installing in the value of `hooks` is idempotent.
proof fn lemma_merged_section(section: JsonModel, cmd: Seq<char>)
    requires
        checkpoint_command(cmd),
    ensures
        merged_section(merged_section(section, cmd), cmd) == merged_section(section, cmd),
{
    if section is Object {
        let events = member_or_empty(section, "events"@);
        let merged = merged_section(section, cmd);
        lemma_section_members(section, cmd);
        if events is Object {
            lemma_merged_events(events, cmd);
        }
        assert(merged_section(merged, cmd)->Object_0 =~= merged->Object_0);
    }
}

/// Installing a second time changes nothing.
pub proof fn law_install_is_idempotent(config: JsonModel, cmd: Seq<char>)
    requires
        checkpoint_command(cmd),
    ensures
        merged_config(merged_config(config, cmd), cmd) == merged_config(config, cmd),
{
    if config is Object {
        let merged = merged_config(config, cmd);
        lemma_merged_section(member_or_empty(config, "hooks"@), cmd);
        assert(merged_config(merged, cmd)->Object_0 =~= merged->Object_0);
    }
}

/// What installing gives: the hooks are enabled, and for both events the
/// first matcher block that catches all tools has one hook that runs a git-ai
/// checkpoint, which runs `cmd`.
pub proof fn law_install_leaves_one_hook(config: JsonModel, cmd: Seq<char>, event: Seq<char>)
    requires
        checkpoint_command(cmd),
        is_installable(config),
        is_hook_event(event),
    ensures
        ({
            let merged = merged_config(config, cmd);
            let blocks = event_blocks(merged, event);
            let i = first_catch_all(blocks, 0);
            let hooks = blocks[i].items_at("hooks"@);
            let k = first_ours(hooks, 0);
            &&& merged.get("hooks"@) matches Some(section) && section.get("enabled"@) == Some(
                JsonModel::Bool(true),
            )
            &&& 0 <= i < blocks.len()
            &&& is_catch_all(blocks[i])
            &&& 0 <= k < hooks.len()
            &&& runs_checkpoint(hooks[k])
            &&& hooks[k].text_at("command"@) == Some(cmd)
            &&& forall|j: int|
                0 <= j < hooks.len() && j != k ==> !runs_checkpoint(#[trigger] hooks[j])
        }),
{
    lemma_installed_blocks(config, cmd, event);
    let before = event_blocks(config, event);
    let blocks = event_blocks(merged_config(config, cmd), event);
    lemma_merged_blocks(before, cmd);
    let i = first_catch_all(before, 0);
    lemma_first_catch_all(before, 0);
    lemma_fresh_block();
    lemma_section_members(member_or_empty(config, "hooks"@), cmd);
    let block = if i < before.len() {
        before[i]
    } else {
        fresh_block()
    };
    lemma_merged_block(block, cmd);
    law_merged_hooks(block.items_at("hooks"@), cmd);
}

/// What installing makes of the matcher blocks of an event.
pub proof fn lemma_installed_blocks(config: JsonModel, cmd: Seq<char>, event: Seq<char>)
    requires
        is_installable(config),
    ensures
        is_hook_event(event) ==> event_blocks(merged_config(config, cmd), event) == merged_blocks(
            event_blocks(config, event),
            cmd,
        ),
        !is_hook_event(event) ==> event_blocks(merged_config(config, cmd), event) == event_blocks(
            config,
            event,
        ),
{
    let section = member_or_empty(config, "hooks"@);
    let events = member_or_empty(section, "events"@);
    lemma_section_members(section, cmd);
    lemma_event_members(events, cmd);
    assert(event_blocks(config, event) =~= events.items_at(event));
    assert(event_blocks(merged_config(config, cmd), event) == merged_events(events, cmd).items_at(
        event,
    ));
}

/// After installing, the hooks are found for both events.
pub proof fn law_install_is_found(config: JsonModel, cmd: Seq<char>, event: Seq<char>)
    requires
        checkpoint_command(cmd),
        is_installable(config),
        is_hook_event(event),
    ensures
        event_runs_checkpoint(merged_config(config, cmd), event),
{
    lemma_installed_blocks(config, cmd, event);
    lemma_merged_blocks(event_blocks(config, event), cmd);
}

/// Installing keeps everything else: the other members of the configuration
/// and of its `hooks`, the other events, the other matcher blocks, the other
/// members of the block that is changed, and its other hooks.
pub proof fn law_install_keeps_the_rest(config: JsonModel, cmd: Seq<char>)
    requires
        is_installable(config),
    ensures
        ({
            let merged = merged_config(config, cmd);
            let old_section = member_or_empty(config, "hooks"@);
            let new_section = member_or_empty(merged, "hooks"@);
            let old_events = member_or_empty(old_section, "events"@);
            let new_events = member_or_empty(new_section, "events"@);
            &&& forall|key: Seq<char>|
                key != "hooks"@ ==> #[trigger] merged.get(key) == config.get(key)
            &&& forall|key: Seq<char>|
                key != "enabled"@ && key != "events"@ ==> #[trigger] new_section.get(key)
                    == old_section.get(key)
            &&& forall|event: Seq<char>|
                !is_hook_event(event) ==> #[trigger] new_events.get(event) == old_events.get(event)
            &&& forall|event: Seq<char>, j: int|
                is_hook_event(event) && 0 <= j < event_blocks(config, event).len() && j
                    != first_catch_all(event_blocks(config, event), 0)
                    ==> #[trigger] event_blocks(merged, event)[j] == event_blocks(config, event)[j]
            &&& forall|event: Seq<char>|
                is_hook_event(event) ==> #[trigger] kept_in_catch_all(
                    event_blocks(config, event),
                    event_blocks(merged, event),
                    cmd,
                )
        }),
{
    let merged = merged_config(config, cmd);
    let section = member_or_empty(config, "hooks"@);
    let events = member_or_empty(section, "events"@);
    lemma_section_members(section, cmd);
    lemma_event_members(events, cmd);
    assert forall|event: Seq<char>, j: int|
        is_hook_event(event) && 0 <= j < event_blocks(config, event).len() && j != first_catch_all(
            event_blocks(config, event),
            0,
        ) implies #[trigger] event_blocks(merged, event)[j] == event_blocks(config, event)[j] by {
        lemma_installed_blocks(config, cmd, event);
        lemma_first_catch_all(event_blocks(config, event), 0);
    }
    assert forall|event: Seq<char>| is_hook_event(event) implies #[trigger] kept_in_catch_all(
        event_blocks(config, event),
        event_blocks(merged, event),
        cmd,
    ) by {
        lemma_installed_blocks(config, cmd, event);
        let before = event_blocks(config, event);
        let i = first_catch_all(before, 0);
        lemma_first_catch_all(before, 0);
        if i < before.len() {
            lemma_block_keys();
            lemma_hooks_kept(before[i].items_at("hooks"@), cmd);
            assert(merged_block(before[i], cmd).items_at("hooks"@) == merged_hooks(
                before[i].items_at("hooks"@),
                cmd,
            ));
        }
    }
}

/// The hooks of a matcher block stay, but for those that run a git-ai
/// checkpoint, and one that runs `cmd` is among them.
pub proof fn lemma_hooks_kept(hooks: Seq<JsonModel>, cmd: Seq<char>)
    ensures
        ({
            let k = first_ours(hooks, 0);
            let merged = merged_hooks(hooks, cmd);
            &&& 0 <= k < merged.len()
            &&& merged[k].text_at("command"@) == Some(cmd)
            &&& merged.remove(k) == without_ours(hooks)
        }),
{
    let k = first_ours(hooks, 0);
    let merged = merged_hooks(hooks, cmd);
    lemma_first_ours(hooks, 0);
    lemma_our_hook(cmd);
    if k < hooks.len() {
        let head = hooks.take(k);
        let tail = hooks.skip(k + 1);
        lemma_without_ours(head);
        assert(without_ours(head) == head) by {
            assert forall|j: int| 0 <= j < head.len() implies !runs_checkpoint(
                #[trigger] head[j],
            ) by {
                assert(head[j] == hooks[j]);
            }
        }
        lemma_without_ours_concat(head.push(hooks[k]), tail);
        assert(head.push(hooks[k]) + tail =~= hooks);
        assert(head.push(hooks[k]).drop_last() =~= head);
        assert(merged.remove(k) =~= head + without_ours(tail));
    } else {
        lemma_without_ours(hooks);
        assert(merged.remove(k) =~= hooks);
    }
}

/// Whether the first matcher block that catches all tools keeps its members,
/// but for `hooks`, and of its hooks those that do not run a git-ai checkpoint,
/// in the same order, beside one that runs `cmd`.
pub open spec fn kept_in_catch_all(
    before: Seq<JsonModel>,
    after: Seq<JsonModel>,
    cmd: Seq<char>,
) -> bool {
    let i = first_catch_all(before, 0);
    i < before.len() ==> {
        let hooks = before[i].items_at("hooks"@);
        let k = first_ours(hooks, 0);
        let now = after[i].items_at("hooks"@);
        &&& i < after.len()
        &&& forall|key: Seq<char>|
            key != "hooks"@ ==> #[trigger] after[i].get(key) == before[i].get(key)
        &&& 0 <= k < now.len()
        &&& now[k].text_at("command"@) == Some(cmd)
        &&& now.remove(k) == without_ours(hooks)
    }
}

/// The hooks of matcher blocks that do not run a git-ai checkpoint, in order.
pub open spec fn user_hooks(blocks: Seq<JsonModel>) -> Seq<JsonModel>
    decreases blocks.len(),
{
    if blocks.len() == 0 {
        Seq::empty()
    } else {
        user_hooks(blocks.drop_last()) + without_ours(blocks.last().items_at("hooks"@))
    }
}

/// What removing makes of a matcher block.
proof fn lemma_stripped_block(block: JsonModel)
    ensures
        stripped_block(block).items_at("hooks"@) == without_ours(block.items_at("hooks"@)),
        !block_runs_checkpoint(stripped_block(block)),
        without_ours(without_ours(block.items_at("hooks"@))) == without_ours(
            block.items_at("hooks"@),
        ),
{
    let hooks = block.items_at("hooks"@);
    lemma_without_ours(hooks);
    lemma_without_ours(without_ours(hooks));
    assert(stripped_block(block).items_at("hooks"@) =~= without_ours(hooks));
}

/// What removing makes of the matcher blocks of an event.
proof fn lemma_stripped_blocks(blocks: Seq<JsonModel>)
    ensures
        !blocks_run_checkpoint(stripped_blocks(blocks)),
        user_hooks(stripped_blocks(blocks)) == user_hooks(blocks),
    decreases blocks.len(),
{
    if blocks.len() > 0 {
        let before = blocks.drop_last();
        let last = blocks.last();
        lemma_stripped_blocks(before);
        lemma_stripped_block(last);
        if is_emptied(last) {
            assert(user_hooks(blocks) =~= user_hooks(before));
        } else {
            let stripped = stripped_blocks(blocks);
            assert(stripped.drop_last() =~= stripped_blocks(before));
            assert forall|i: int| 0 <= i < stripped.len() implies !block_runs_checkpoint(
                #[trigger] stripped[i],
            ) by {
                if i < stripped.len() - 1 {
                    assert(stripped[i] == stripped_blocks(before)[i]);
                }
            }
        }
    }
}

/// What removing makes of the matcher blocks of an event in a configuration.
pub proof fn lemma_uninstalled_blocks(config: JsonModel, event: Seq<char>)
    ensures
        is_hook_event(event) ==> event_blocks(stripped_config(config), event) == stripped_blocks(
            event_blocks(config, event),
        ),
        !is_hook_event(event) ==> event_blocks(stripped_config(config), event) == event_blocks(
            config,
            event,
        ),
{
    lemma_event_names();
    let stripped = stripped_config(config);
    assert(stripped_blocks(Seq::empty()) =~= Seq::empty());
    if let Some(section) = config.get("hooks"@) {
        if let Some(events) = section.get("events"@) {
            assert(event_blocks(config, event) == events.items_at(event));
            assert(event_blocks(stripped, event) == stripped_events(events).items_at(event));
            if events is Object {
                let between = JsonModel::Object(
                    stripped_event(events->Object_0, "PreToolUse"@),
                );
                assert(between.get("PostToolUse"@) == events.get("PostToolUse"@));
                assert(stripped_events(events).get("PreToolUse"@) == between.get("PreToolUse"@));
            }
        }
    }
}

/// After removing, no hook of either event runs a git-ai checkpoint, so that
/// the hooks are not found, and removing a second time changes nothing.
pub proof fn law_uninstall_leaves_none(config: JsonModel, event: Seq<char>)
    requires
        is_hook_event(event),
    ensures
        !event_runs_checkpoint(stripped_config(config), event),
{
    lemma_uninstalled_blocks(config, event);
    lemma_stripped_blocks(event_blocks(config, event));
}

/// Removing keeps everything else: the other members of the configuration and
/// of its `hooks`, the other events, and all hooks that do not run a git-ai
/// checkpoint.
pub proof fn law_uninstall_keeps_the_rest(config: JsonModel)
    ensures
        ({
            let stripped = stripped_config(config);
            let old_section = member_or_empty(config, "hooks"@);
            let new_section = member_or_empty(stripped, "hooks"@);
            let old_events = member_or_empty(old_section, "events"@);
            let new_events = member_or_empty(new_section, "events"@);
            &&& forall|key: Seq<char>|
                key != "hooks"@ ==> #[trigger] stripped.get(key) == config.get(key)
            &&& forall|key: Seq<char>|
                key != "events"@ ==> #[trigger] new_section.get(key) == old_section.get(key)
            &&& forall|event: Seq<char>|
                !is_hook_event(event) ==> #[trigger] new_events.get(event) == old_events.get(event)
            &&& forall|event: Seq<char>|
                is_hook_event(event) ==> #[trigger] user_hooks(event_blocks(stripped, event))
                    == user_hooks(event_blocks(config, event))
        }),
{
    let stripped = stripped_config(config);
    assert forall|event: Seq<char>| is_hook_event(event) implies #[trigger] user_hooks(
        event_blocks(stripped, event),
    ) == user_hooks(event_blocks(config, event)) by {
        lemma_uninstalled_blocks(config, event);
        lemma_stripped_blocks(event_blocks(config, event));
    }
}

/// Installing keeps the hooks that do not run a git-ai checkpoint.
proof fn lemma_merged_user_hooks(blocks: Seq<JsonModel>, cmd: Seq<char>)
    requires
        checkpoint_command(cmd),
    ensures
        user_hooks(merged_blocks(blocks, cmd)) == user_hooks(blocks),
{
    let i = first_catch_all(blocks, 0);
    let merged = merged_blocks(blocks, cmd);
    lemma_first_catch_all(blocks, 0);
    if i < blocks.len() {
        lemma_merged_block(blocks[i], cmd);
        law_merged_hooks(blocks[i].items_at("hooks"@), cmd);
        lemma_same_user_hooks(blocks, merged);
    } else {
        lemma_fresh_block();
        lemma_merged_block(fresh_block(), cmd);
        law_merged_hooks(Seq::empty(), cmd);
        assert(merged.drop_last() =~= blocks);
        assert(user_hooks(merged) =~= user_hooks(blocks));
    }
}

/// Matcher blocks whose hooks are the same but for those that run a git-ai
/// checkpoint have the same user hooks.
proof fn lemma_same_user_hooks(a: Seq<JsonModel>, b: Seq<JsonModel>)
    requires
        a.len() == b.len(),
        forall|j: int|
            0 <= j < a.len() ==> without_ours((#[trigger] a[j]).items_at("hooks"@))
                == without_ours(b[j].items_at("hooks"@)),
    ensures
        user_hooks(a) == user_hooks(b),
    decreases a.len(),
{
    if a.len() > 0 {
        assert(without_ours(a[a.len() - 1].items_at("hooks"@)) == without_ours(
            b[a.len() - 1].items_at("hooks"@),
        ));
        assert forall|j: int| 0 <= j < a.len() - 1 implies without_ours(
            (#[trigger] a.drop_last()[j]).items_at("hooks"@),
        ) == without_ours(b.drop_last()[j].items_at("hooks"@)) by {
            assert(a.drop_last()[j] == a[j]);
        }
        lemma_same_user_hooks(a.drop_last(), b.drop_last());
    }
}

/// Installing and then removing leaves no hook that runs a git-ai checkpoint,
/// and all others as they were.
pub proof fn law_uninstall_undoes_install(config: JsonModel, cmd: Seq<char>, event: Seq<char>)
    requires
        checkpoint_command(cmd),
        is_installable(config),
        is_hook_event(event),
    ensures
        ({
            let blocks = event_blocks(stripped_config(merged_config(config, cmd)), event);
            &&& !blocks_run_checkpoint(blocks)
            &&& user_hooks(blocks) == user_hooks(event_blocks(config, event))
        }),
{
    let merged = merged_config(config, cmd);
    lemma_installed_blocks(config, cmd, event);
    lemma_uninstalled_blocks(merged, event);
    lemma_stripped_blocks(event_blocks(merged, event));
    lemma_merged_user_hooks(event_blocks(config, event), cmd);
}

/// Whether the hooks can be removed again from matcher blocks so that nothing
/// is left of them: none of the hooks runs a git-ai checkpoint, and the first
/// block that catches all tools has some, if there is such a block.
pub open spec fn is_restorable(blocks: Seq<JsonModel>) -> bool {
    let i = first_catch_all(blocks, 0);
    &&& !blocks_run_checkpoint(blocks)
    &&& i < blocks.len() ==> blocks[i].items_at("hooks"@).len() > 0
}

/// What removing makes of matcher blocks of which it drops none.
proof fn lemma_stripped_to(a: Seq<JsonModel>, b: Seq<JsonModel>)
    requires
        a.len() == b.len(),
        forall|j: int|
            0 <= j < a.len() ==> !is_emptied(#[trigger] a[j]) && stripped_block(a[j]) == b[j],
    ensures
        stripped_blocks(a) == b,
    decreases a.len(),
{
    if a.len() > 0 {
        assert forall|j: int| 0 <= j < a.len() - 1 implies !is_emptied(
            #[trigger] a.drop_last()[j],
        ) && stripped_block(a.drop_last()[j]) == b.drop_last()[j] by {
            assert(a.drop_last()[j] == a[j]);
        }
        lemma_stripped_to(a.drop_last(), b.drop_last());
        assert(a.last() == a[a.len() - 1]);
        assert(b.drop_last().push(b.last()) =~= b);
    } else {
        assert(b =~= Seq::empty());
    }
}

/// Removing keeps a matcher block without hooks that run a git-ai checkpoint.
proof fn lemma_user_block(block: JsonModel)
    requires
        !block_runs_checkpoint(block),
    ensures
        !is_emptied(block),
        stripped_block(block) == block,
{
    let hooks = block.items_at("hooks"@);
    lemma_without_ours(hooks);
    if let JsonModel::Object(members) = block {
        if let Some(JsonModel::Array(items)) = block.get("hooks"@) {
            assert(members.insert("hooks"@, JsonModel::Array(items)) =~= members);
        }
    }
}

/// Removing gives back a matcher block that the hook was put into.
proof fn lemma_restored_block(block: JsonModel, cmd: Seq<char>)
    requires
        checkpoint_command(cmd),
        is_catch_all(block),
        !block_runs_checkpoint(block),
        block.items_at("hooks"@).len() > 0,
    ensures
        !is_emptied(merged_block(block, cmd)),
        stripped_block(merged_block(block, cmd)) == block,
{
    let hooks = block.items_at("hooks"@);
    let merged = merged_block(block, cmd);
    let now = hooks.push(our_hook(cmd));
    lemma_our_hook(cmd);
    lemma_without_ours(hooks);
    lemma_first_ours_is(hooks, 0, hooks.len() as int);
    assert(now.drop_last() =~= hooks);
    assert(without_ours(now) == hooks);
    let members = block->Object_0;
    assert(merged.items_at("hooks"@) == now);
    assert(members.insert("hooks"@, JsonModel::Array(now)).insert(
        "hooks"@,
        JsonModel::Array(hooks),
    ) =~= members);
}

/// Removing gives back the matcher blocks that the hook was put into.
proof fn lemma_restored_blocks(blocks: Seq<JsonModel>, cmd: Seq<char>)
    requires
        checkpoint_command(cmd),
        is_restorable(blocks),
    ensures
        stripped_blocks(merged_blocks(blocks, cmd)) == blocks,
{
    let i = first_catch_all(blocks, 0);
    let merged = merged_blocks(blocks, cmd);
    lemma_first_catch_all(blocks, 0);
    assert forall|j: int| 0 <= j < blocks.len() implies !is_emptied(#[trigger] blocks[j])
        && stripped_block(blocks[j]) == blocks[j] by {
        lemma_user_block(blocks[j]);
    }
    if i < blocks.len() {
        assert(!block_runs_checkpoint(blocks[i]));
        lemma_restored_block(blocks[i], cmd);
        lemma_stripped_to(merged, blocks);
    } else {
        let hooks = seq![our_hook(cmd)];
        lemma_our_hook(cmd);
        lemma_fresh_block();
        lemma_first_ours_is(Seq::empty(), 0, 0);
        assert(Seq::<JsonModel>::empty().push(our_hook(cmd)) =~= hooks);
        assert(merged_block(fresh_block(), cmd).items_at("hooks"@) == hooks);
        assert(hooks.drop_last() =~= Seq::empty());
        assert(hooks.last() == our_hook(cmd));
        assert(without_ours(hooks.drop_last()).len() == 0);
        assert(without_ours(hooks).len() == 0);
        assert(merged.drop_last() =~= blocks);
        lemma_stripped_to(blocks, blocks);
    }
}

/// Whether the hooks can be removed again from a configuration so that nothing
/// is left of them: it is enabled, and has matcher blocks for both events that
/// they can be removed again from.
pub open spec fn is_restorable_config(config: JsonModel) -> bool {
    &&& config.get("hooks"@) matches Some(section)
    &&& section.get("enabled"@) == Some(JsonModel::Bool(true))
    &&& section.get("events"@) matches Some(events)
    &&& events.get("PreToolUse"@) matches Some(JsonModel::Array(before))
    &&& events.get("PostToolUse"@) matches Some(JsonModel::Array(behind))
    &&& is_restorable(before)
    &&& is_restorable(behind)
}

/// Removing gives back the configuration that the hooks were installed in,
/// where it was enabled and had both events, without hooks that run a git-ai
/// checkpoint, and where no catch-all block that the hook is put into was
/// empty.
pub proof fn law_uninstall_restores_config(config: JsonModel, cmd: Seq<char>)
    requires
        checkpoint_command(cmd),
        is_restorable_config(config),
    ensures
        stripped_config(merged_config(config, cmd)) == config,
{
    let members = config->Object_0;
    let section = config.get("hooks"@)->0;
    let inner = section->Object_0;
    let events = section.get("events"@)->0;
    let all = events->Object_0;
    let before = JsonModel::Object(all).items_at("PreToolUse"@);
    let behind = JsonModel::Object(all).items_at("PostToolUse"@);
    lemma_event_names();
    lemma_section_keys();
    lemma_restored_blocks(before, cmd);
    lemma_restored_blocks(behind, cmd);
    let now = merged_event(merged_event(all, "PreToolUse"@, cmd), "PostToolUse"@, cmd);
    let first = stripped_event(now, "PreToolUse"@);
    assert(now["PreToolUse"@] == JsonModel::Array(merged_blocks(before, cmd)));
    assert(now["PostToolUse"@] == JsonModel::Array(merged_blocks(behind, cmd)));
    assert(first["PostToolUse"@] == now["PostToolUse"@]);
    assert(stripped_event(first, "PostToolUse"@) =~= all);
    let merged = inner.insert("enabled"@, JsonModel::Bool(true)).insert(
        "events"@,
        JsonModel::Object(now),
    );
    assert(merged.insert("events"@, events) =~= inner);
    assert(members.insert("hooks"@, JsonModel::Object(merged)).insert("hooks"@, section)
        =~= members);
}

} // verus!
