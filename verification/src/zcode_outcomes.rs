//! What installing, removing and checking the ZCode hooks is for, said of the
//! values in the configuration.
use crate::error::GitAiError;
use crate::installer::ConfigEdit;
use crate::json::{json_outcome, json_pretty, JsonModel, NumberModel};
use crate::json_laws::{
    has_member, lacks_member, lemma_list_at, lemma_same_member, list_at, member_at, same_member,
};
use crate::text_laws::{has_ink, law_checkpoint_command, names_checkpoint};
use crate::zcode::{
    block_runs_checkpoint, event_blocks, event_runs_checkpoint, first_catch_all, first_ours,
    fresh_block, install_planned, is_catch_all, is_emptied, lemma_event_names,
    lemma_first_catch_all, lemma_first_ours, lemma_fresh_block, member_or_empty, merged_block, merged_blocks,
    merged_config, merged_events, merged_hooks, merged_section, our_hook, refreshed,
    runs_checkpoint, stripped_block, stripped_blocks, stripped_config, stripped_event,
    stripped_events, text_has_hooks,
    uninstall_planned, without_ours, zcode_command,
};
use crate::zcode_laws::{
    is_hook_event, is_installable, lemma_block_keys, lemma_event_members, lemma_hooks_kept,
    lemma_installed_blocks, lemma_section_members, lemma_uninstalled_blocks,
};
use vstd::prelude::*;

verus! {

/// Whether a hook runs a git-ai checkpoint.
pub open spec fn is_git_ai_hook(hook: JsonModel) -> bool {
    exists|cmd: Seq<char>| #[trigger]
        has_member(hook, "command"@, JsonModel::Str(cmd)) && names_checkpoint(cmd)
}

/// Whether a hook is the one that is installed for a command: it has a type, a
/// command and a timeout, and nothing else.
pub open spec fn is_installed_hook(hook: JsonModel, cmd: Seq<char>) -> bool {
    &&& has_member(hook, "type"@, JsonModel::Str("command"@))
    &&& has_member(hook, "command"@, JsonModel::Str(cmd))
    &&& has_member(hook, "timeoutMs"@, JsonModel::Number(NumberModel::Uint(30000)))
    &&& forall|key: Seq<char>|
        key != "type"@ && key != "command"@ && key != "timeoutMs"@ ==> #[trigger] lacks_member(
            hook,
            key,
        )
}

/// The matcher blocks that a configuration has for an event.
pub open spec fn blocks_for(config: JsonModel, event: Seq<char>) -> Seq<JsonModel> {
    list_at(member_at(member_at(config, "hooks"@), "events"@), event)
}

/// Whether the matcher of a block is a text.
pub open spec fn has_matcher(block: JsonModel, matcher: Seq<char>) -> bool {
    has_member(block, "matcher"@, JsonModel::Str(matcher))
}

/// A block is the one that catches all tools exactly if its matcher is `*`.
proof fn lemma_catch_all_says(block: JsonModel)
    ensures
        is_catch_all(block) == has_matcher(block, "*"@),
{
}

/// A hook that runs a git-ai checkpoint.
pub proof fn law_git_ai_hook(hook: JsonModel)
    ensures
        runs_checkpoint(hook) == is_git_ai_hook(hook),
{
    if runs_checkpoint(hook) {
        let cmd = hook.text_at("command"@)->0;
        law_checkpoint_command(cmd);
        assert(has_member(hook, "command"@, JsonModel::Str(cmd)));
    }
    if is_git_ai_hook(hook) {
        let cmd = choose|cmd: Seq<char>| #[trigger]
            has_member(hook, "command"@, JsonModel::Str(cmd)) && names_checkpoint(cmd);
        law_checkpoint_command(cmd);
    }
}

/// The matcher blocks of an event.
proof fn lemma_blocks_for(config: JsonModel, event: Seq<char>)
    ensures
        event_blocks(config, event) == blocks_for(config, event),
{
    lemma_list_at(config, "hooks"@);
    let section = member_at(config, "hooks"@);
    lemma_list_at(section, "events"@);
    lemma_list_at(member_at(section, "events"@), event);
}

/// The hooks that are left are all but those that run a git-ai checkpoint, in
/// the same order.
pub proof fn law_hooks_left(hooks: Seq<JsonModel>)
    ensures
        without_ours(hooks) == hooks.filter(|hook: JsonModel| !is_git_ai_hook(hook)),
    decreases hooks.len(),
{
    reveal(Seq::filter);
    if hooks.len() > 0 {
        law_hooks_left(hooks.drop_last());
        law_git_ai_hook(hooks.last());
    } else {
        assert(without_ours(hooks) =~= hooks);
    }
}

/// Whether the hooks of a block with the hook for a command at `k` are what
/// they should be.
pub open spec fn is_hook_place(
    hooks: Seq<JsonModel>,
    now: Seq<JsonModel>,
    cmd: Seq<char>,
    k: int,
) -> bool {
    &&& 0 <= k <= hooks.len()
    &&& k < now.len()
    &&& forall|j: int| 0 <= j < k ==> !is_git_ai_hook(#[trigger] hooks[j])
    &&& k < hooks.len() ==> is_git_ai_hook(hooks[k])
    &&& now.remove(k) == hooks.filter(|hook: JsonModel| !is_git_ai_hook(hook))
    &&& if k < hooks.len() && has_member(hooks[k], "command"@, JsonModel::Str(cmd)) {
        now[k] == hooks[k]
    } else {
        is_installed_hook(now[k], cmd)
    }
}

/// Whether the hooks of a block with the hook for a command are what they
/// should be: the hooks that run no git-ai checkpoint, in the same order, and
/// one for the command, in the place of the first that does, or at the end. A
/// hook that runs the command already stays as it is.
pub open spec fn has_hook_once(
    hooks: Seq<JsonModel>,
    now: Seq<JsonModel>,
    cmd: Seq<char>,
) -> bool {
    exists|k: int| #[trigger] is_hook_place(hooks, now, cmd, k)
}

/// The hook that is added.
proof fn lemma_installed_hook(cmd: Seq<char>)
    ensures
        is_installed_hook(our_hook(cmd), cmd),
{
    reveal_strlit("type");
    reveal_strlit("command");
    reveal_strlit("timeoutMs");
    assert("type"@.len() == 4 && "command"@.len() == 7 && "timeoutMs"@.len() == 9);
    let hook = our_hook(cmd);
    assert forall|key: Seq<char>|
        key != "type"@ && key != "command"@ && key != "timeoutMs"@ implies #[trigger] lacks_member(
        hook,
        key,
    ) by {}
}

/// What installing makes of the hooks of a block.
proof fn lemma_hook_once(hooks: Seq<JsonModel>, cmd: Seq<char>)
    ensures
        has_hook_once(hooks, merged_hooks(hooks, cmd), cmd),
{
    let k = first_ours(hooks, 0);
    let now = merged_hooks(hooks, cmd);
    lemma_first_ours(hooks, 0);
    lemma_hooks_kept(hooks, cmd);
    law_hooks_left(hooks);
    lemma_installed_hook(cmd);
    assert forall|j: int| 0 <= j < k implies !is_git_ai_hook(#[trigger] hooks[j]) by {
        law_git_ai_hook(hooks[j]);
    }
    if k < hooks.len() {
        law_git_ai_hook(hooks[k]);
        assert(now[k] == refreshed(hooks[k], cmd));
    } else {
        assert(now[k] == our_hook(cmd));
    }
    assert(is_hook_place(hooks, now, cmd, k));
}

/// Whether matcher blocks with the hook for a command in the block at `i` are
/// what they should be.
pub open spec fn is_block_place(
    blocks: Seq<JsonModel>,
    now: Seq<JsonModel>,
    cmd: Seq<char>,
    i: int,
) -> bool {
    &&& 0 <= i <= blocks.len()
    &&& now.len() == (if i < blocks.len() {
        blocks.len()
    } else {
        blocks.len() + 1
    })
    &&& forall|j: int| 0 <= j < i ==> !has_matcher(#[trigger] blocks[j], "*"@)
    &&& has_matcher(now[i], "*"@)
    &&& forall|j: int| 0 <= j < blocks.len() && j != i ==> #[trigger] now[j] == blocks[j]
    &&& if i < blocks.len() {
        &&& has_matcher(blocks[i], "*"@)
        &&& forall|key: Seq<char>|
            key != "hooks"@ ==> #[trigger] same_member(blocks[i], now[i], key)
        &&& has_hook_once(list_at(blocks[i], "hooks"@), list_at(now[i], "hooks"@), cmd)
    } else {
        &&& forall|key: Seq<char>|
            key != "matcher"@ && key != "hooks"@ ==> #[trigger] lacks_member(now[i], key)
        &&& has_hook_once(Seq::empty(), list_at(now[i], "hooks"@), cmd)
    }
}

/// Whether matcher blocks are what others become when the hook for a command
/// is installed: the first whose matcher is `*` has it, with its other members
/// as they were, or a new one at the end that has nothing else. All other
/// blocks are what they were.
pub open spec fn has_catch_all_hook(
    blocks: Seq<JsonModel>,
    now: Seq<JsonModel>,
    cmd: Seq<char>,
) -> bool {
    exists|i: int| #[trigger] is_block_place(blocks, now, cmd, i)
}

/// What installing makes of the matcher blocks of an event.
#[verifier::rlimit(30)]
proof fn lemma_catch_all_hook(blocks: Seq<JsonModel>, cmd: Seq<char>)
    ensures
        has_catch_all_hook(blocks, merged_blocks(blocks, cmd), cmd),
{
    let i = first_catch_all(blocks, 0);
    let now = merged_blocks(blocks, cmd);
    lemma_first_catch_all(blocks, 0);
    lemma_block_keys();
    lemma_fresh_block();
    assert forall|j: int| 0 <= j < i implies !has_matcher(#[trigger] blocks[j], "*"@) by {
        lemma_catch_all_says(blocks[j]);
    }
    let block = if i < blocks.len() {
        blocks[i]
    } else {
        fresh_block()
    };
    lemma_catch_all_says(block);
    assert(now[i] == merged_block(block, cmd));
    let hooks = block.items_at("hooks"@);
    lemma_list_at(block, "hooks"@);
    lemma_list_at(now[i], "hooks"@);
    lemma_hook_once(hooks, cmd);
    assert(list_at(now[i], "hooks"@) == merged_hooks(hooks, cmd));
    assert(has_matcher(now[i], "*"@));
    assert forall|key: Seq<char>| key != "hooks"@ implies #[trigger] same_member(
        block,
        now[i],
        key,
    ) by {
        assert(block.get(key) == now[i].get(key));
        lemma_same_member(block, now[i], key);
    }
    if i >= blocks.len() {
        assert forall|key: Seq<char>|
            key != "matcher"@ && key != "hooks"@ implies #[trigger] lacks_member(now[i], key) by {
            assert(lacks_member(block, key));
            assert(same_member(block, now[i], key));
        }
    }
    assert(is_block_place(blocks, now, cmd, i));
}

/// Whether a value is an object, or is not there.
pub open spec fn is_object_at(value: JsonModel, key: Seq<char>) -> bool {
    lacks_member(value, key) || member_at(value, key) is Object
}

/// Installing enables the hooks, and puts the hook for the command into the
/// matcher block of both events whose matcher is exactly `*`. Nothing else in
/// the configuration changes.
#[verifier::rlimit(30)]
pub proof fn law_installed_config(config: JsonModel, cmd: Seq<char>)
    requires
        config is Object,
        is_object_at(config, "hooks"@),
        is_object_at(member_at(config, "hooks"@), "events"@),
    ensures
        ({
            let now = merged_config(config, cmd);
            let old_section = member_at(config, "hooks"@);
            let new_section = member_at(now, "hooks"@);
            let old_events = member_at(old_section, "events"@);
            let new_events = member_at(new_section, "events"@);
            &&& now is Object
            &&& new_section is Object
            &&& new_events is Object
            &&& has_member(new_section, "enabled"@, JsonModel::Bool(true))
            &&& has_catch_all_hook(
                blocks_for(config, "PreToolUse"@),
                blocks_for(now, "PreToolUse"@),
                cmd,
            )
            &&& has_catch_all_hook(
                blocks_for(config, "PostToolUse"@),
                blocks_for(now, "PostToolUse"@),
                cmd,
            )
            &&& forall|key: Seq<char>|
                key != "hooks"@ ==> #[trigger] same_member(config, now, key)
            &&& forall|key: Seq<char>|
                key != "enabled"@ && key != "events"@ ==> #[trigger] same_member(
                    old_section,
                    new_section,
                    key,
                )
            &&& forall|event: Seq<char>|
                event != "PreToolUse"@ && event != "PostToolUse"@ ==> #[trigger] same_member(
                    old_events,
                    new_events,
                    event,
                )
        }),
{
    let now = merged_config(config, cmd);
    let section = member_or_empty(config, "hooks"@);
    let events = member_or_empty(section, "events"@);
    lemma_list_at(config, "hooks"@);
    lemma_list_at(member_at(config, "hooks"@), "events"@);
    lemma_list_at(section, "events"@);
    lemma_section_members(section, cmd);
    lemma_event_members(events, cmd);
    let old_section = member_at(config, "hooks"@);
    let new_section = merged_section(section, cmd);
    let old_events = member_at(old_section, "events"@);
    let new_events = merged_events(events, cmd);
    assert(member_at(now, "hooks"@) == new_section);
    lemma_list_at(new_section, "events"@);
    lemma_list_at(new_section, "enabled"@);
    assert(member_at(new_section, "events"@) == new_events);
    assert(is_installable(config));
    lemma_installed_blocks(config, cmd, "PreToolUse"@);
    lemma_installed_blocks(config, cmd, "PostToolUse"@);
    lemma_blocks_for(config, "PreToolUse"@);
    lemma_blocks_for(config, "PostToolUse"@);
    lemma_blocks_for(now, "PreToolUse"@);
    lemma_blocks_for(now, "PostToolUse"@);
    lemma_catch_all_hook(blocks_for(config, "PreToolUse"@), cmd);
    lemma_catch_all_hook(blocks_for(config, "PostToolUse"@), cmd);
    assert forall|key: Seq<char>| key != "hooks"@ implies #[trigger] same_member(
        config,
        now,
        key,
    ) by {
        lemma_same_member(config, now, key);
    }
    assert forall|key: Seq<char>|
        key != "enabled"@ && key != "events"@ implies #[trigger] same_member(
        old_section,
        new_section,
        key,
    ) by {
        assert(section.get(key) == old_section.get(key));
        lemma_same_member(old_section, new_section, key);
    }
    assert forall|event: Seq<char>|
        event != "PreToolUse"@ && event != "PostToolUse"@ implies #[trigger] same_member(
        old_events,
        new_events,
        event,
    ) by {
        assert(!is_hook_event(event));
        assert(events.get(event) == old_events.get(event));
        lemma_same_member(old_events, new_events, event);
    }
}

/// After an installation, each of the two events has a block whose matcher is
/// exactly `*`, with a hook that runs the command. A block with any other
/// matcher, or none, is what it was.
pub proof fn law_command_is_run(config: JsonModel, cmd: Seq<char>, event: Seq<char>)
    requires
        config is Object,
        is_object_at(config, "hooks"@),
        is_object_at(member_at(config, "hooks"@), "events"@),
        event == "PreToolUse"@ || event == "PostToolUse"@,
    ensures
        ({
            let blocks = blocks_for(config, event);
            let now = blocks_for(merged_config(config, cmd), event);
            &&& exists|i: int, k: int|
                {
                    &&& 0 <= i < now.len()
                    &&& has_matcher(now[i], "*"@)
                    &&& 0 <= k < list_at(now[i], "hooks"@).len()
                    &&& #[trigger] has_member(
                        list_at(now[i], "hooks"@)[k],
                        "command"@,
                        JsonModel::Str(cmd),
                    )
                }
            &&& blocks.len() <= now.len()
            &&& forall|j: int|
                0 <= j < blocks.len() && !has_matcher(#[trigger] blocks[j], "*"@) ==> now[j]
                    == blocks[j]
        }),
{
    law_installed_config(config, cmd);
    let blocks = blocks_for(config, event);
    let now = blocks_for(merged_config(config, cmd), event);
    assert(has_catch_all_hook(blocks, now, cmd));
    let i = choose|i: int| #[trigger] is_block_place(blocks, now, cmd, i);
    let hooks = if i < blocks.len() {
        list_at(blocks[i], "hooks"@)
    } else {
        Seq::empty()
    };
    let after = list_at(now[i], "hooks"@);
    let k = choose|k: int| #[trigger] is_hook_place(hooks, after, cmd, k);
    assert(is_hook_place(hooks, after, cmd, k));
    assert(has_member(list_at(now[i], "hooks"@)[k], "command"@, JsonModel::Str(cmd)));
}

/// A configuration of another form stays as it is, but that its hooks are
/// enabled where they are an object.
pub proof fn law_other_config(config: JsonModel, cmd: Seq<char>)
    ensures
        !(config is Object) ==> merged_config(config, cmd) == config,
        config is Object && !is_object_at(config, "hooks"@) ==> merged_config(config, cmd)
            == config,
        config is Object && member_at(config, "hooks"@) is Object && !is_object_at(
            member_at(config, "hooks"@),
            "events"@,
        ) ==> {
            let now = merged_config(config, cmd);
            &&& has_member(member_at(now, "hooks"@), "enabled"@, JsonModel::Bool(true))
            &&& forall|key: Seq<char>|
                key != "hooks"@ ==> #[trigger] same_member(config, now, key)
            &&& forall|key: Seq<char>|
                key != "enabled"@ ==> #[trigger] same_member(
                    member_at(config, "hooks"@),
                    member_at(now, "hooks"@),
                    key,
                )
        },
{
    let now = merged_config(config, cmd);
    lemma_list_at(config, "hooks"@);
    if config is Object && !is_object_at(config, "hooks"@) {
        assert(now->Object_0 =~= config->Object_0);
    }
    if config is Object && member_at(config, "hooks"@) is Object && !is_object_at(
        member_at(config, "hooks"@),
        "events"@,
    ) {
        let section = member_at(config, "hooks"@);
        lemma_list_at(section, "events"@);
        lemma_section_members(section, cmd);
        assert(member_at(now, "hooks"@) == merged_section(section, cmd));
        lemma_list_at(merged_section(section, cmd), "enabled"@);
        assert forall|key: Seq<char>| key != "hooks"@ implies #[trigger] same_member(
            config,
            now,
            key,
        ) by {
            lemma_same_member(config, now, key);
        }
        assert forall|key: Seq<char>| key != "enabled"@ implies #[trigger] same_member(
            section,
            member_at(now, "hooks"@),
            key,
        ) by {
            lemma_same_member(section, member_at(now, "hooks"@), key);
        }
    }
}

/// Whether a block has hooks, all of which run a git-ai checkpoint.
pub open spec fn has_git_ai_hooks_only(block: JsonModel) -> bool {
    let hooks = list_at(block, "hooks"@);
    hooks.len() > 0 && forall|j: int| 0 <= j < hooks.len() ==> is_git_ai_hook(#[trigger] hooks[j])
}

/// Whether a block is what another becomes without the hooks that run a git-ai
/// checkpoint: its other members, its matcher in particular, are what they
/// were, and its other hooks are in it, in the same order.
pub open spec fn is_block_left(block: JsonModel, now: JsonModel) -> bool {
    &&& forall|key: Seq<char>| key != "hooks"@ ==> #[trigger] same_member(block, now, key)
    &&& member_at(block, "hooks"@) is Array ==> has_member(
        now,
        "hooks"@,
        JsonModel::Array(
            list_at(block, "hooks"@).filter(|hook: JsonModel| !is_git_ai_hook(hook)),
        ),
    )
    &&& !(member_at(block, "hooks"@) is Array) ==> now == block
}

/// What removing makes of a block that stays.
proof fn lemma_block_left(block: JsonModel)
    ensures
        is_block_left(block, stripped_block(block)),
        is_emptied(block) == has_git_ai_hooks_only(block),
{
    let now = stripped_block(block);
    let hooks = block.items_at("hooks"@);
    lemma_list_at(block, "hooks"@);
    law_hooks_left(hooks);
    assert forall|key: Seq<char>| key != "hooks"@ implies #[trigger] same_member(
        block,
        now,
        key,
    ) by {
        assert(block.get(key) == now.get(key));
        lemma_same_member(block, now, key);
    }
    lemma_none_left(hooks);
}

/// Nothing is left of hooks that all run a git-ai checkpoint, and of no others.
proof fn lemma_none_left(hooks: Seq<JsonModel>)
    ensures
        (without_ours(hooks).len() == 0) == forall|j: int|
            0 <= j < hooks.len() ==> is_git_ai_hook(#[trigger] hooks[j]),
    decreases hooks.len(),
{
    if hooks.len() > 0 {
        let before = hooks.drop_last();
        lemma_none_left(before);
        law_git_ai_hook(hooks.last());
        assert(hooks[hooks.len() - 1] == hooks.last());
        if forall|j: int| 0 <= j < hooks.len() ==> is_git_ai_hook(#[trigger] hooks[j]) {
            assert forall|j: int| 0 <= j < before.len() implies is_git_ai_hook(
                #[trigger] before[j],
            ) by {
                assert(before[j] == hooks[j]);
            }
        }
        if without_ours(hooks).len() == 0 {
            assert forall|j: int| 0 <= j < hooks.len() implies is_git_ai_hook(
                #[trigger] hooks[j],
            ) by {
                if j < before.len() {
                    assert(before[j] == hooks[j]);
                }
            }
        }
    }
}

/// Whether matcher blocks are what others become without the hooks that run a
/// git-ai checkpoint: those that had such hooks alone go, and each other stays,
/// in its place among them.
pub open spec fn are_blocks_left(blocks: Seq<JsonModel>, now: Seq<JsonModel>) -> bool {
    let staying = blocks.filter(|block: JsonModel| !has_git_ai_hooks_only(block));
    &&& now.len() == staying.len()
    &&& forall|i: int| 0 <= i < now.len() ==> is_block_left(staying[i], #[trigger] now[i])
}

/// What removing makes of matcher blocks.
proof fn lemma_blocks_left(blocks: Seq<JsonModel>)
    ensures
        are_blocks_left(blocks, stripped_blocks(blocks)),
    decreases blocks.len(),
{
    reveal(Seq::filter);
    let stays = |block: JsonModel| !has_git_ai_hooks_only(block);
    if blocks.len() > 0 {
        let before = blocks.drop_last();
        lemma_blocks_left(before);
        lemma_block_left(blocks.last());
        let now = stripped_blocks(blocks);
        let staying = blocks.filter(stays);
        assert forall|i: int| 0 <= i < now.len() implies is_block_left(
            staying[i],
            #[trigger] now[i],
        ) by {
            if i < stripped_blocks(before).len() {
                assert(is_block_left(before.filter(stays)[i], stripped_blocks(before)[i]));
            }
        }
    }
}

/// Whether an event has a list of matcher blocks where it had one, though it
/// may be empty, and is what it was where it had none.
pub open spec fn is_event_left(events: JsonModel, now: JsonModel, event: Seq<char>) -> bool {
    if member_at(events, event) is Array {
        member_at(now, event) is Array
    } else {
        same_member(events, now, event)
    }
}

/// What removing makes of an event.
proof fn lemma_event_left(events: JsonModel, event: Seq<char>)
    requires
        is_hook_event(event),
    ensures
        is_event_left(events, stripped_events(events), event),
{
    lemma_event_names();
    lemma_list_at(events, event);
    let now = stripped_events(events);
    if events is Object {
        let first = stripped_event(events->Object_0, "PreToolUse"@);
        assert(now == JsonModel::Object(stripped_event(first, "PostToolUse"@)));
    }
    if !(member_at(events, event) is Array) {
        lemma_same_member(events, now, event);
    }
}

/// Removing takes out the hooks that run a git-ai checkpoint, of both events,
/// and the matcher blocks that had no others. Each other hook stays in its
/// block, each block keeps its matcher, and nothing else in the configuration
/// changes.
#[verifier::rlimit(30)]
pub proof fn law_uninstalled_config(config: JsonModel)
    ensures
        ({
            let now = stripped_config(config);
            let old_section = member_at(config, "hooks"@);
            let new_section = member_at(now, "hooks"@);
            &&& are_blocks_left(
                blocks_for(config, "PreToolUse"@),
                blocks_for(now, "PreToolUse"@),
            )
            &&& are_blocks_left(
                blocks_for(config, "PostToolUse"@),
                blocks_for(now, "PostToolUse"@),
            )
            &&& forall|key: Seq<char>|
                key != "hooks"@ ==> #[trigger] same_member(config, now, key)
            &&& forall|key: Seq<char>|
                key != "events"@ ==> #[trigger] same_member(old_section, new_section, key)
            &&& forall|event: Seq<char>|
                event != "PreToolUse"@ && event != "PostToolUse"@ ==> #[trigger] same_member(
                    member_at(old_section, "events"@),
                    member_at(new_section, "events"@),
                    event,
                )
            &&& member_at(old_section, "events"@) is Object ==> member_at(
                new_section,
                "events"@,
            ) is Object
            &&& !(member_at(old_section, "events"@) is Object) ==> now == config
            &&& is_event_left(
                member_at(old_section, "events"@),
                member_at(new_section, "events"@),
                "PreToolUse"@,
            )
            &&& is_event_left(
                member_at(old_section, "events"@),
                member_at(new_section, "events"@),
                "PostToolUse"@,
            )
        }),
{
    let now = stripped_config(config);
    lemma_uninstalled_blocks(config, "PreToolUse"@);
    lemma_uninstalled_blocks(config, "PostToolUse"@);
    lemma_blocks_for(config, "PreToolUse"@);
    lemma_blocks_for(config, "PostToolUse"@);
    lemma_blocks_for(now, "PreToolUse"@);
    lemma_blocks_for(now, "PostToolUse"@);
    lemma_blocks_left(blocks_for(config, "PreToolUse"@));
    lemma_blocks_left(blocks_for(config, "PostToolUse"@));
    lemma_list_at(config, "hooks"@);
    let old_section = member_at(config, "hooks"@);
    lemma_list_at(old_section, "events"@);
    let old_events = member_at(old_section, "events"@);
    let new_section = member_at(now, "hooks"@);
    let new_events = member_at(new_section, "events"@);
    lemma_event_left(old_events, "PreToolUse"@);
    lemma_event_left(old_events, "PostToolUse"@);
    if old_events is Object {
        assert(new_events == stripped_events(old_events));
    }
    if !(old_events is Object) {
        if config is Object && old_section is Object && old_section.get("events"@) is Some {
            let inner = old_section->Object_0;
            assert(inner.insert("events"@, old_events) =~= inner);
            assert(config->Object_0.insert("hooks"@, old_section) =~= config->Object_0);
        }
        assert(now == config);
    }
    assert forall|key: Seq<char>| key != "hooks"@ implies #[trigger] same_member(
        config,
        now,
        key,
    ) by {
        lemma_same_member(config, now, key);
    }
    assert forall|key: Seq<char>| key != "events"@ implies #[trigger] same_member(
        old_section,
        new_section,
        key,
    ) by {
        lemma_list_at(now, "hooks"@);
        lemma_same_member(old_section, new_section, key);
    }
    assert forall|event: Seq<char>|
        event != "PreToolUse"@ && event != "PostToolUse"@ implies #[trigger] same_member(
        old_events,
        new_events,
        event,
    ) by {
        lemma_list_at(now, "hooks"@);
        lemma_list_at(new_section, "events"@);
        assert(new_events.get(event) == old_events.get(event));
        lemma_same_member(old_events, new_events, event);
    }
}

/// Whether a hook of an event runs a git-ai checkpoint.
pub open spec fn has_git_ai_hook(config: JsonModel, event: Seq<char>) -> bool {
    exists|i: int, j: int|
        {
            &&& 0 <= i < blocks_for(config, event).len()
            &&& 0 <= j < list_at(blocks_for(config, event)[i], "hooks"@).len()
            &&& is_git_ai_hook(#[trigger] list_at(blocks_for(config, event)[i], "hooks"@)[j])
        }
}

/// An event is found to have a hook of git-ai exactly if some hook of some of
/// its matcher blocks runs a git-ai checkpoint.
pub proof fn law_event_found(config: JsonModel, event: Seq<char>)
    ensures
        event_runs_checkpoint(config, event) == has_git_ai_hook(config, event),
{
    lemma_blocks_for(config, event);
    let blocks = event_blocks(config, event);
    if event_runs_checkpoint(config, event) {
        let i = choose|i: int| 0 <= i < blocks.len() && block_runs_checkpoint(#[trigger] blocks[i]);
        lemma_list_at(blocks[i], "hooks"@);
        let j = choose|j: int|
            0 <= j < blocks[i].items_at("hooks"@).len() && runs_checkpoint(
                #[trigger] blocks[i].items_at("hooks"@)[j],
            );
        law_git_ai_hook(blocks[i].items_at("hooks"@)[j]);
        assert(is_git_ai_hook(list_at(blocks_for(config, event)[i], "hooks"@)[j]));
    }
    if has_git_ai_hook(config, event) {
        let (i, j) = choose|i: int, j: int|
            {
                &&& 0 <= i < blocks_for(config, event).len()
                &&& 0 <= j < list_at(blocks_for(config, event)[i], "hooks"@).len()
                &&& is_git_ai_hook(#[trigger] list_at(blocks_for(config, event)[i], "hooks"@)[j])
            };
        lemma_list_at(blocks[i], "hooks"@);
        law_git_ai_hook(blocks[i].items_at("hooks"@)[j]);
        assert(runs_checkpoint(blocks[i].items_at("hooks"@)[j]));
        assert(block_runs_checkpoint(blocks[i]));
    }
}

/// A check finds the hooks exactly if the file is read and both events have a
/// hook that runs a git-ai checkpoint.
pub proof fn law_hooks_found(text: Seq<char>)
    ensures
        text_has_hooks(text) == (json_outcome(text) matches Ok(config) && has_git_ai_hook(
            config,
            "PreToolUse"@,
        ) && has_git_ai_hook(config, "PostToolUse"@)),
{
    if let Ok(config) = json_outcome(text) {
        law_event_found(config, "PreToolUse"@);
        law_event_found(config, "PostToolUse"@);
    }
}

/// What installing answers: an error exactly if the file holds text that is not
/// JSON; nothing exactly if the configuration with the hooks is the one that is
/// there, which is an empty one if the file has no text; and otherwise a change
/// from what the file holds to that configuration.
pub proof fn law_install_answer(
    before: Seq<char>,
    cmd: Seq<char>,
    plan: Result<Option<ConfigEdit>, GitAiError>,
    dry_run: bool,
)
    requires
        install_planned(plan, before, cmd, dry_run),
    ensures
        ({
            let held = if has_ink(before) {
                json_outcome(before)
            } else {
                Ok::<JsonModel, Seq<char>>(JsonModel::Object(Map::empty()))
            };
            match held {
                Err(said) => plan matches Err(GitAiError::JsonError(message)) && message@ == said,
                Ok(config) => {
                    let now = merged_config(config, cmd);
                    if now == config {
                        plan matches Ok(None)
                    } else {
                        plan matches Ok(Some(edit)) && edit.before@ == before && edit.write
                            == !dry_run && edit.after@ == json_pretty(now)
                    }
                },
            }
        }),
{
    if crate::text::is_blank(before) {
        assert(!has_ink(before));
    } else {
        assert(has_ink(before));
    }
}

/// What removing answers: an error exactly if the file holds text that is not
/// JSON; nothing exactly if neither event has a hook that runs a git-ai
/// checkpoint; and otherwise a change from what the file holds to the
/// configuration without these.
pub proof fn law_uninstall_answer(
    before: Seq<char>,
    plan: Result<Option<ConfigEdit>, GitAiError>,
    dry_run: bool,
)
    requires
        uninstall_planned(plan, before, dry_run),
    ensures
        match json_outcome(before) {
            Err(said) => plan matches Err(GitAiError::JsonError(message)) && message@ == said,
            Ok(config) => if has_git_ai_hook(config, "PreToolUse"@) || has_git_ai_hook(
                config,
                "PostToolUse"@,
            ) {
                plan matches Ok(Some(edit)) && edit.before@ == before && edit.write == !dry_run
                    && edit.after@ == json_pretty(stripped_config(config))
            } else {
                plan matches Ok(None)
            },
        },
{
    if let Ok(config) = json_outcome(before) {
        law_event_found(config, "PreToolUse"@);
        law_event_found(config, "PostToolUse"@);
    }
}

/// The command that a hook runs is the program and what it is asked to do.
pub proof fn law_zcode_command(binary_path: Seq<char>)
    ensures
        zcode_command(binary_path) == binary_path + " checkpoint zcode --hook-input stdin"@,
{
    reveal_strlit(" ");
    reveal_strlit("checkpoint zcode --hook-input stdin");
    reveal_strlit(" checkpoint zcode --hook-input stdin");
    assert(zcode_command(binary_path) =~= binary_path + " checkpoint zcode --hook-input stdin"@);
}

} // verus!
