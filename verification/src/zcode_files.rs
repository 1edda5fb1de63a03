//! What installing and removing the ZCode hooks promises of the files that are
//! written and read again.
use crate::error::GitAiError;
use crate::installer::{checkpoint_command, ConfigEdit};
use crate::json::{
    alike, json_outcome, nested_within, numbers_fit, reads_again, reads_back, written_as, JsonModel,
    MAX_DEPTH,
};
use crate::zcode::{
    config_outcome, first_catch_all, first_ours, fresh_block, install_planned,
    lemma_first_catch_all, lemma_first_ours, member_or_empty, merged_block, merged_blocks,
    merged_config, merged_event, merged_events, merged_hooks, merged_section, our_hook,
    stripped_block, stripped_blocks, stripped_config, stripped_event, stripped_events,
    text_has_hooks, uninstall_planned, without_ours,
};
use crate::zcode_laws::{
    is_installable, is_restorable_config, law_install_is_found, law_install_is_idempotent,
    law_uninstall_leaves_none, law_uninstall_restores_config,
};
use crate::zcode_reread::{
    lemma_alike_config, lemma_alike_found, lemma_alike_stripped, lemma_alike_trans,
};
use vstd::prelude::*;

verus! {

/// Whether a value is nested at most `depth` levels deep and its numbers are
/// read again after they were written.
pub open spec fn plain(value: JsonModel, depth: nat, exact: bool) -> bool {
    nested_within(value, depth) && numbers_fit(value, depth, exact)
}

/// An array is plain if its items are.
proof fn lemma_plain_array(items: Seq<JsonModel>, depth: nat, exact: bool)
    requires
        depth > 0,
    ensures
        plain(JsonModel::Array(items), depth, exact) == forall|i: int|
            0 <= i < items.len() ==> plain(#[trigger] items[i], (depth - 1) as nat, exact),
{
    if plain(JsonModel::Array(items), depth, exact) {
        let value = JsonModel::Array(items);
        assert(nested_within(value, depth));
        assert(numbers_fit(value, depth, exact));
        assert(value->Array_0 == items);
        assert forall|i: int| 0 <= i < items.len() implies plain(
            #[trigger] items[i],
            (depth - 1) as nat,
            exact,
        ) by {
            assert(nested_within(items[i], (depth - 1) as nat));
            assert(numbers_fit(items[i], (depth - 1) as nat, exact));
        }
    }
}

/// An object is plain if its members are.
proof fn lemma_plain_object(members: Map<Seq<char>, JsonModel>, depth: nat, exact: bool)
    requires
        depth > 0,
    ensures
        plain(JsonModel::Object(members), depth, exact) == forall|key: Seq<char>|
            members.contains_key(key) ==> plain(#[trigger] members[key], (depth - 1) as nat, exact),
{
    if plain(JsonModel::Object(members), depth, exact) {
        let value = JsonModel::Object(members);
        assert(nested_within(value, depth));
        assert(numbers_fit(value, depth, exact));
        assert(value->Object_0 == members);
        assert forall|key: Seq<char>| members.contains_key(key) implies plain(
            #[trigger] members[key],
            (depth - 1) as nat,
            exact,
        ) by {
            assert(nested_within(members[key], (depth - 1) as nat));
            assert(numbers_fit(members[key], (depth - 1) as nat, exact));
        }
    }
}

/// A plain object with one more plain member is plain.
proof fn lemma_plain_insert(
    members: Map<Seq<char>, JsonModel>,
    key: Seq<char>,
    value: JsonModel,
    depth: nat,
    exact: bool,
)
    requires
        depth > 0,
        plain(JsonModel::Object(members), depth, exact),
        plain(value, (depth - 1) as nat, exact),
    ensures
        plain(JsonModel::Object(members.insert(key, value)), depth, exact),
{
    lemma_plain_object(members, depth, exact);
    lemma_plain_object(members.insert(key, value), depth, exact);
}

/// The items of an array in a plain object are plain.
proof fn lemma_plain_items(value: JsonModel, key: Seq<char>, depth: nat, exact: bool)
    requires
        depth > 1,
        plain(value, depth, exact),
    ensures
        forall|i: int|
            0 <= i < value.items_at(key).len() ==> plain(
                #[trigger] value.items_at(key)[i],
                (depth - 2) as nat,
                exact,
            ),
{
    if let JsonModel::Object(members) = value {
        lemma_plain_object(members, depth, exact);
        if let Some(JsonModel::Array(items)) = value.get(key) {
            assert(plain(members[key], (depth - 1) as nat, exact));
            lemma_plain_array(items, (depth - 1) as nat, exact);
        }
    }
}

/// A member of a plain object, or an empty object, is plain.
proof fn lemma_plain_member(value: JsonModel, key: Seq<char>, depth: nat, exact: bool)
    requires
        depth > 1,
        plain(value, depth, exact),
    ensures
        plain(member_or_empty(value, key), (depth - 1) as nat, exact),
{
    lemma_plain_object(Map::empty(), (depth - 1) as nat, exact);
    if let JsonModel::Object(members) = value {
        lemma_plain_object(members, depth, exact);
        if members.contains_key(key) {
            assert(plain(members[key], (depth - 1) as nat, exact));
        }
    }
}

/// The hook that is added is plain.
proof fn lemma_plain_hook(cmd: Seq<char>, depth: nat, exact: bool)
    requires
        depth > 0,
    ensures
        plain(our_hook(cmd), depth, exact),
{
    lemma_plain_object(our_hook(cmd)->Object_0, depth, exact);
}

/// Leaving out hooks leaves some of them.
proof fn lemma_without_ours_from(hooks: Seq<JsonModel>)
    ensures
        forall|j: int|
            0 <= j < without_ours(hooks).len() ==> hooks.contains(#[trigger] without_ours(hooks)[j]),
    decreases hooks.len(),
{
    if hooks.len() > 0 {
        let before = hooks.drop_last();
        lemma_without_ours_from(before);
        assert forall|j: int| 0 <= j < without_ours(hooks).len() implies hooks.contains(
            #[trigger] without_ours(hooks)[j],
        ) by {
            if j < without_ours(before).len() {
                let i = choose|i: int| 0 <= i < before.len() && before[i] == without_ours(before)[j];
                assert(hooks[i] == without_ours(hooks)[j]);
            } else {
                assert(hooks[hooks.len() - 1] == without_ours(hooks)[j]);
            }
        }
    }
}

proof fn lemma_plain_merged_hooks(hooks: Seq<JsonModel>, cmd: Seq<char>, depth: nat, exact: bool)
    requires
        depth > 0,
        forall|i: int| 0 <= i < hooks.len() ==> plain(#[trigger] hooks[i], depth, exact),
    ensures
        forall|i: int|
            0 <= i < merged_hooks(hooks, cmd).len() ==> plain(
                #[trigger] merged_hooks(hooks, cmd)[i],
                depth,
                exact,
            ),
{
    let i = first_ours(hooks, 0);
    let merged = merged_hooks(hooks, cmd);
    lemma_first_ours(hooks, 0);
    lemma_plain_hook(cmd, depth, exact);
    if i < hooks.len() {
        let rest = hooks.skip(i + 1);
        lemma_without_ours_from(rest);
        assert forall|j: int| 0 <= j < merged.len() implies plain(#[trigger] merged[j], depth, exact) by {
            if j < i {
                assert(merged[j] == hooks[j]);
            } else if j == i {
                assert(plain(hooks[i], depth, exact));
            } else {
                let kept = without_ours(rest)[j - i - 1];
                let k = choose|k: int| 0 <= k < rest.len() && rest[k] == kept;
                assert(hooks[i + 1 + k] == kept);
                assert(merged[j] == kept);
            }
        }
    }
}

proof fn lemma_plain_merged_block(block: JsonModel, cmd: Seq<char>, depth: nat, exact: bool)
    requires
        depth > 2,
        plain(block, depth, exact),
    ensures
        plain(merged_block(block, cmd), depth, exact),
{
    if let JsonModel::Object(members) = block {
        let hooks = block.items_at("hooks"@);
        lemma_plain_items(block, "hooks"@, depth, exact);
        lemma_plain_merged_hooks(hooks, cmd, (depth - 2) as nat, exact);
        lemma_plain_array(merged_hooks(hooks, cmd), (depth - 1) as nat, exact);
        lemma_plain_insert(
            members,
            "hooks"@,
            JsonModel::Array(merged_hooks(hooks, cmd)),
            depth,
            exact,
        );
    }
}

proof fn lemma_plain_merged_event(
    events: Map<Seq<char>, JsonModel>,
    event: Seq<char>,
    cmd: Seq<char>,
    depth: nat,
    exact: bool,
)
    requires
        depth > 4,
        plain(JsonModel::Object(events), depth, exact),
    ensures
        plain(JsonModel::Object(merged_event(events, event, cmd)), depth, exact),
{
    let blocks = JsonModel::Object(events).items_at(event);
    let merged = merged_blocks(blocks, cmd);
    let inner = (depth - 2) as nat;
    let i = first_catch_all(blocks, 0);
    lemma_first_catch_all(blocks, 0);
    lemma_plain_items(JsonModel::Object(events), event, depth, exact);
    if i < blocks.len() {
        assert(plain(blocks[i], inner, exact));
        lemma_plain_merged_block(blocks[i], cmd, inner, exact);
    } else {
        lemma_plain_array(Seq::empty(), (inner - 1) as nat, exact);
        lemma_plain_object(fresh_block()->Object_0, inner, exact);
        lemma_plain_merged_block(fresh_block(), cmd, inner, exact);
    }
    assert forall|j: int| 0 <= j < merged.len() implies plain(#[trigger] merged[j], inner, exact) by {
        if j != i {
            assert(merged[j] == blocks[j]);
        }
    }
    lemma_plain_array(merged, (depth - 1) as nat, exact);
    lemma_plain_insert(events, event, JsonModel::Array(merged), depth, exact);
}

/// What installing makes of a configuration that is read again after it was
/// written is read again, and as it was written if that was so.
pub proof fn law_install_reads_back(config: JsonModel, cmd: Seq<char>)
    ensures
        reads_back(config) ==> reads_back(merged_config(config, cmd)),
        reads_again(config) ==> reads_again(merged_config(config, cmd)),
{
    if reads_back(config) {
        lemma_plain_merged_config(config, cmd, true);
    }
    if reads_again(config) {
        lemma_plain_merged_config(config, cmd, false);
    }
}

proof fn lemma_plain_merged_config(config: JsonModel, cmd: Seq<char>, exact: bool)
    requires
        plain(config, MAX_DEPTH as nat, exact),
    ensures
        plain(merged_config(config, cmd), MAX_DEPTH as nat, exact),
{
    let depth = MAX_DEPTH as nat;
    if let JsonModel::Object(members) = config {
        let section = member_or_empty(config, "hooks"@);
        lemma_plain_member(config, "hooks"@, depth, exact);
        if let JsonModel::Object(inner) = section {
            let events = member_or_empty(section, "events"@);
            lemma_plain_member(section, "events"@, (depth - 1) as nat, exact);
            if let JsonModel::Object(all) = events {
                let between = merged_event(all, "PreToolUse"@, cmd);
                lemma_plain_merged_event(all, "PreToolUse"@, cmd, (depth - 2) as nat, exact);
                lemma_plain_merged_event(between, "PostToolUse"@, cmd, (depth - 2) as nat, exact);
            }
            lemma_plain_insert(inner, "enabled"@, JsonModel::Bool(true), (depth - 1) as nat, exact);
            lemma_plain_insert(
                inner.insert("enabled"@, JsonModel::Bool(true)),
                "events"@,
                merged_events(events, cmd),
                (depth - 1) as nat,
                exact,
            );
        }
        lemma_plain_insert(members, "hooks"@, merged_section(section, cmd), depth, exact);
    }
}

proof fn lemma_plain_stripped_blocks(blocks: Seq<JsonModel>, depth: nat, exact: bool)
    requires
        depth > 2,
        forall|i: int| 0 <= i < blocks.len() ==> plain(#[trigger] blocks[i], depth, exact),
    ensures
        forall|i: int|
            0 <= i < stripped_blocks(blocks).len() ==> plain(
                #[trigger] stripped_blocks(blocks)[i],
                depth,
                exact,
            ),
    decreases blocks.len(),
{
    if blocks.len() > 0 {
        let before = blocks.drop_last();
        let last = blocks.last();
        assert forall|i: int| 0 <= i < before.len() implies plain(#[trigger] before[i], depth, exact) by {
            assert(before[i] == blocks[i]);
        }
        lemma_plain_stripped_blocks(before, depth, exact);
        assert(plain(blocks[blocks.len() - 1], depth, exact));
        if let JsonModel::Object(members) = last {
            if let Some(JsonModel::Array(hooks)) = last.get("hooks"@) {
                let kept = without_ours(hooks);
                lemma_plain_items(last, "hooks"@, depth, exact);
                lemma_without_ours_from(hooks);
                assert forall|j: int| 0 <= j < kept.len() implies plain(
                    #[trigger] kept[j],
                    (depth - 2) as nat,
                    exact,
                ) by {
                    let k = choose|k: int| 0 <= k < hooks.len() && hooks[k] == kept[j];
                    assert(plain(last.items_at("hooks"@)[k], (depth - 2) as nat, exact));
                }
                lemma_plain_array(kept, (depth - 1) as nat, exact);
                lemma_plain_insert(members, "hooks"@, JsonModel::Array(kept), depth, exact);
            }
        }
        assert(plain(stripped_block(last), depth, exact));
        assert forall|i: int| 0 <= i < stripped_blocks(blocks).len() implies plain(
            #[trigger] stripped_blocks(blocks)[i],
            depth,
            exact,
        ) by {
            if i < stripped_blocks(before).len() {
                assert(stripped_blocks(blocks)[i] == stripped_blocks(before)[i]);
            }
        }
    }
}

proof fn lemma_plain_stripped_event(
    events: Map<Seq<char>, JsonModel>,
    event: Seq<char>,
    depth: nat,
    exact: bool,
)
    requires
        depth > 4,
        plain(JsonModel::Object(events), depth, exact),
    ensures
        plain(JsonModel::Object(stripped_event(events, event)), depth, exact),
{
    if let Some(JsonModel::Array(blocks)) = JsonModel::Object(events).get(event) {
        lemma_plain_items(JsonModel::Object(events), event, depth, exact);
        assert(blocks == JsonModel::Object(events).items_at(event));
        lemma_plain_stripped_blocks(blocks, (depth - 2) as nat, exact);
        lemma_plain_array(stripped_blocks(blocks), (depth - 1) as nat, exact);
        lemma_plain_insert(events, event, JsonModel::Array(stripped_blocks(blocks)), depth, exact);
    }
}

/// What removing makes of a configuration that is read again after it was
/// written is read again, and as it was written if that was so.
pub proof fn law_uninstall_reads_back(config: JsonModel)
    ensures
        reads_back(config) ==> reads_back(stripped_config(config)),
        reads_again(config) ==> reads_again(stripped_config(config)),
{
    if reads_back(config) {
        lemma_plain_stripped_config(config, true);
    }
    if reads_again(config) {
        lemma_plain_stripped_config(config, false);
    }
}

proof fn lemma_plain_stripped_config(config: JsonModel, exact: bool)
    requires
        plain(config, MAX_DEPTH as nat, exact),
    ensures
        plain(stripped_config(config), MAX_DEPTH as nat, exact),
{
    let depth = MAX_DEPTH as nat;
    if let JsonModel::Object(members) = config {
        lemma_plain_member(config, "hooks"@, depth, exact);
        if let Some(JsonModel::Object(inner)) = config.get("hooks"@) {
            lemma_plain_member(JsonModel::Object(inner), "events"@, (depth - 1) as nat, exact);
            if let Some(events) = JsonModel::Object(inner).get("events"@) {
                if let JsonModel::Object(all) = events {
                    let between = stripped_event(all, "PreToolUse"@);
                    lemma_plain_stripped_event(all, "PreToolUse"@, (depth - 2) as nat, exact);
                    lemma_plain_stripped_event(between, "PostToolUse"@, (depth - 2) as nat, exact);
                }
                lemma_plain_insert(
                    inner,
                    "events"@,
                    stripped_events(events),
                    (depth - 1) as nat,
                    exact,
                );
                lemma_plain_insert(
                    members,
                    "hooks"@,
                    JsonModel::Object(inner.insert("events"@, stripped_events(events))),
                    depth,
                    exact,
                );
            }
        }
    }
}

/// What a file holds after a plan is carried out.
pub open spec fn text_after(before: Seq<char>, change: Option<ConfigEdit>) -> Seq<char> {
    match change {
        Some(edit) => edit.after@,
        None => before,
    }
}

/// Once the hooks are installed in a file, installing them again changes
/// nothing more, and there is nothing to do where the file is read again. That
/// is so where it has no floating point number that is too large.
pub proof fn law_installed_file_is_settled(
    before: Seq<char>,
    cmd: Seq<char>,
    first: Result<Option<ConfigEdit>, GitAiError>,
    second: Result<Option<ConfigEdit>, GitAiError>,
    dry_run: bool,
)
    requires
        checkpoint_command(cmd),
        install_planned(first, before, cmd, false),
        first matches Ok(change) && install_planned(
            second,
            text_after(before, change),
            cmd,
            dry_run,
        ),
    ensures
        !(second matches Ok(Some(_))),
        json_outcome(text_after(before, first->Ok_0)) is Ok ==> second matches Ok(None),
        config_outcome(before) matches Ok(config) && (numbers_fit(config, MAX_DEPTH as nat, false)
            ==> second matches Ok(None)),
{
    let config = config_outcome(before)->Ok_0;
    let merged = merged_config(config, cmd);
    law_install_is_idempotent(config, cmd);
    law_install_reads_back(config, cmd);
    if let Some(edit) = first->Ok_0 {
        if let Ok(again) = json_outcome(edit.after@) {
            lemma_alike_config(merged, again, cmd, MAX_DEPTH as nat);
        }
    }
}

/// Once the hooks are removed from a file, removing them again changes nothing
/// more, and there is nothing to do where the file is read again. That is so
/// where it has no floating point number that is too large.
pub proof fn law_uninstalled_file_is_settled(
    before: Seq<char>,
    first: Result<Option<ConfigEdit>, GitAiError>,
    second: Result<Option<ConfigEdit>, GitAiError>,
    dry_run: bool,
)
    requires
        uninstall_planned(first, before, false),
        first matches Ok(change) && uninstall_planned(second, text_after(before, change), dry_run),
    ensures
        !(second matches Ok(Some(_))),
        json_outcome(text_after(before, first->Ok_0)) is Ok ==> second matches Ok(None),
        json_outcome(before) matches Ok(config) && (numbers_fit(config, MAX_DEPTH as nat, false)
            ==> second matches Ok(None)),
{
    let config = json_outcome(before)->Ok_0;
    let stripped = stripped_config(config);
    law_uninstall_leaves_none(config, "PreToolUse"@);
    law_uninstall_leaves_none(config, "PostToolUse"@);
    law_uninstall_reads_back(config);
    if let Some(edit) = first->Ok_0 {
        if let Ok(again) = json_outcome(edit.after@) {
            lemma_alike_found(stripped, again, "PreToolUse"@, MAX_DEPTH as nat);
            lemma_alike_found(stripped, again, "PostToolUse"@, MAX_DEPTH as nat);
        }
    }
}

/// Once the hooks are installed in a file, they are found there, where the
/// file is read again. That is so where it has no floating point number that
/// is too large.
pub proof fn law_check_follows_install(
    before: Seq<char>,
    cmd: Seq<char>,
    installed: Result<Option<ConfigEdit>, GitAiError>,
)
    requires
        checkpoint_command(cmd),
        config_outcome(before) matches Ok(config) && is_installable(config),
        install_planned(installed, before, cmd, false),
    ensures
        installed matches Ok(change) && (json_outcome(text_after(before, change)) is Ok
            ==> text_has_hooks(text_after(before, change))),
        config_outcome(before) matches Ok(config) && (numbers_fit(config, MAX_DEPTH as nat, false)
            ==> text_has_hooks(text_after(before, installed->Ok_0))),
        installed matches Ok(None) ==> text_has_hooks(before),
{
    let config = config_outcome(before)->Ok_0;
    let merged = merged_config(config, cmd);
    law_install_is_found(config, cmd, "PreToolUse"@);
    law_install_is_found(config, cmd, "PostToolUse"@);
    law_install_reads_back(config, cmd);
    if let Ok(Some(edit)) = installed {
        if let Ok(again) = json_outcome(edit.after@) {
            lemma_alike_found(merged, again, "PreToolUse"@, MAX_DEPTH as nat);
            lemma_alike_found(merged, again, "PostToolUse"@, MAX_DEPTH as nat);
        }
    }
}

/// Once the hooks are removed from a file, they are not found there.
pub proof fn law_check_follows_uninstall(
    before: Seq<char>,
    removed: Result<Option<ConfigEdit>, GitAiError>,
)
    requires
        json_outcome(before) is Ok,
        uninstall_planned(removed, before, false),
    ensures
        removed matches Ok(change) && !text_has_hooks(text_after(before, change)),
{
    let config = json_outcome(before)->Ok_0;
    law_uninstall_leaves_none(config, "PreToolUse"@);
    if let Ok(Some(edit)) = removed {
        if let Ok(again) = json_outcome(edit.after@) {
            lemma_alike_found(stripped_config(config), again, "PreToolUse"@, MAX_DEPTH as nat);
        }
    }
}

/// Removing gives back what a file held before the hooks were installed in it,
/// where the configuration can be restored: the same value, if it has no
/// floating point number, and the same but for what these are, if none is too
/// large.
pub proof fn law_uninstall_restores_file(
    before: Seq<char>,
    cmd: Seq<char>,
    installed: Result<Option<ConfigEdit>, GitAiError>,
    removed: Result<Option<ConfigEdit>, GitAiError>,
)
    requires
        checkpoint_command(cmd),
        config_outcome(before) matches Ok(config) && is_restorable_config(config),
        install_planned(installed, before, cmd, false),
        installed matches Ok(Some(edit)) && uninstall_planned(removed, edit.after@, false),
    ensures
        config_outcome(before) matches Ok(config) && {
            &&& numbers_fit(config, MAX_DEPTH as nat, true) ==> (removed matches Ok(Some(edit))
                && json_outcome(edit.after@) == Ok::<JsonModel, Seq<char>>(config))
            &&& numbers_fit(config, MAX_DEPTH as nat, false) ==> (removed matches Ok(Some(edit))
                && json_outcome(installed->Ok_0->0.after@) matches Ok(again) && {
                &&& written_as(edit.after@, stripped_config(again))
                &&& alike(config, stripped_config(again), MAX_DEPTH as nat)
                &&& json_outcome(edit.after@) matches Ok(last) ==> alike(
                    config,
                    last,
                    MAX_DEPTH as nat,
                )
            })
        },
{
    let depth = MAX_DEPTH as nat;
    let config = config_outcome(before)->Ok_0;
    let merged = merged_config(config, cmd);
    let text = installed->Ok_0->0.after@;
    law_install_reads_back(config, cmd);
    law_uninstall_restores_config(config, cmd);
    lemma_restorable_is_installable(config);
    law_install_is_found(config, cmd, "PreToolUse"@);
    if let Ok(again) = json_outcome(text) {
        lemma_alike_found(merged, again, "PreToolUse"@, depth);
        lemma_alike_stripped(merged, again, depth);
        if let Ok(Some(edit)) = removed {
            if let Ok(last) = json_outcome(edit.after@) {
                lemma_alike_trans(config, stripped_config(again), last, depth);
            }
        }
    }
}

/// The hooks can be installed in a configuration that they can be removed
/// again from.
proof fn lemma_restorable_is_installable(config: JsonModel)
    requires
        is_restorable_config(config),
    ensures
        is_installable(config),
{
}

} // verus!
