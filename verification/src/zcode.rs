//! Hooks of ZCode: the hook entries in `~/.zcode/cli/config.json`.
//!
//! The file is a JSON object. Its member `hooks` has a member `events`, which
//! maps the name of an event to an array of matcher blocks. Each block has a
//! `matcher` and an array `hooks` of hook entries.
use crate::error::GitAiError;
use crate::installer::{
    checkpoint_command, file_text, is_git_ai_checkpoint_command, join_path, path_joined,
    text_or_empty, ConfigEdit, HookCheckResult,
};
use crate::json::{
    empty_object, items_model, json_outcome, json_uint, lemma_array_model, members_model,
    nested_within, read_json, set_member, take_member, write_json, written_as, Json, JsonModel,
    NumberModel, MAX_DEPTH,
};
use crate::text::{blank, is_blank, same_text};
use vstd::prelude::*;

verus! {

/// Whether a hook entry runs a git-ai checkpoint.
pub open spec fn runs_checkpoint(hook: JsonModel) -> bool {
    hook.text_at("command"@) matches Some(cmd) && checkpoint_command(cmd)
}

/// The hook entry that runs `cmd`.
pub open spec fn our_hook(cmd: Seq<char>) -> JsonModel {
    JsonModel::Object(
        map![
            "type"@ => JsonModel::Str("command"@),
            "command"@ => JsonModel::Str(cmd),
            "timeoutMs"@ => JsonModel::Number(NumberModel::Uint(30000)),
        ],
    )
}

/// The matcher block that catches all tools, without hooks.
pub open spec fn fresh_block() -> JsonModel {
    JsonModel::Object(
        map![
            "matcher"@ => JsonModel::Str("*"@),
            "hooks"@ => JsonModel::Array(Seq::empty()),
        ],
    )
}

/// Whether a matcher block catches all tools.
pub open spec fn is_catch_all(block: JsonModel) -> bool {
    block.text_at("matcher"@) == Some("*"@)
}

/// The first hook at or after `from` that runs a git-ai checkpoint, or the
/// number of hooks if there is none.
pub open spec fn first_ours(hooks: Seq<JsonModel>, from: int) -> int
    decreases hooks.len() - from,
{
    if from >= hooks.len() {
        hooks.len() as int
    } else if runs_checkpoint(hooks[from]) {
        from
    } else {
        first_ours(hooks, from + 1)
    }
}

/// The first block at or after `from` that catches all tools, or the number
/// of blocks if there is none.
pub open spec fn first_catch_all(blocks: Seq<JsonModel>, from: int) -> int
    decreases blocks.len() - from,
{
    if from >= blocks.len() {
        blocks.len() as int
    } else if is_catch_all(blocks[from]) {
        from
    } else {
        first_catch_all(blocks, from + 1)
    }
}

/// The hooks that do not run a git-ai checkpoint, in order.
pub open spec fn without_ours(hooks: Seq<JsonModel>) -> Seq<JsonModel>
    decreases hooks.len(),
{
    if hooks.len() == 0 {
        Seq::empty()
    } else if runs_checkpoint(hooks.last()) {
        without_ours(hooks.drop_last())
    } else {
        without_ours(hooks.drop_last()).push(hooks.last())
    }
}

/// A hook that runs a git-ai checkpoint, brought up to date: it stays as it
/// is if it runs `cmd`, and is replaced otherwise.
pub open spec fn refreshed(hook: JsonModel, cmd: Seq<char>) -> JsonModel {
    if hook.text_at("command"@) == Some(cmd) {
        hook
    } else {
        our_hook(cmd)
    }
}

/// Hooks with one that runs `cmd`: the first that runs a git-ai checkpoint is
/// brought up to date and the others are dropped, or one is added if there
/// was none.
pub open spec fn merged_hooks(hooks: Seq<JsonModel>, cmd: Seq<char>) -> Seq<JsonModel> {
    let i = first_ours(hooks, 0);
    if i < hooks.len() {
        hooks.take(i).push(refreshed(hooks[i], cmd)) + without_ours(hooks.skip(i + 1))
    } else {
        hooks.push(our_hook(cmd))
    }
}

/// A matcher block with the hook that runs `cmd`.
pub open spec fn merged_block(block: JsonModel, cmd: Seq<char>) -> JsonModel {
    match block {
        JsonModel::Object(members) => JsonModel::Object(
            members.insert(
                "hooks"@,
                JsonModel::Array(merged_hooks(block.items_at("hooks"@), cmd)),
            ),
        ),
        _ => block,
    }
}

/// The matcher blocks of an event, with the hook that runs `cmd` in the first
/// that catches all tools. One is added if there was none.
pub open spec fn merged_blocks(blocks: Seq<JsonModel>, cmd: Seq<char>) -> Seq<JsonModel> {
    let i = first_catch_all(blocks, 0);
    if i < blocks.len() {
        blocks.update(i, merged_block(blocks[i], cmd))
    } else {
        blocks.push(merged_block(fresh_block(), cmd))
    }
}

/// The events with the hook that runs `cmd` for one of them.
pub open spec fn merged_event(
    events: Map<Seq<char>, JsonModel>,
    event: Seq<char>,
    cmd: Seq<char>,
) -> Map<Seq<char>, JsonModel> {
    events.insert(
        event,
        JsonModel::Array(merged_blocks(JsonModel::Object(events).items_at(event), cmd)),
    )
}

/// The value of `events` with the hook that runs `cmd` for both events. A
/// value that is no object stays as it is.
pub open spec fn merged_events(events: JsonModel, cmd: Seq<char>) -> JsonModel {
    match events {
        JsonModel::Object(members) => JsonModel::Object(
            merged_event(merged_event(members, "PreToolUse"@, cmd), "PostToolUse"@, cmd),
        ),
        _ => events,
    }
}

/// A member of an object, or an empty object if there is none.
pub open spec fn member_or_empty(value: JsonModel, key: Seq<char>) -> JsonModel {
    match value.get(key) {
        Some(member) => member,
        None => empty_object(),
    }
}

/// The value of `hooks`, enabled and with the hook that runs `cmd`. A value
/// that is no object stays as it is.
pub open spec fn merged_section(section: JsonModel, cmd: Seq<char>) -> JsonModel {
    match section {
        JsonModel::Object(members) => JsonModel::Object(
            members.insert("enabled"@, JsonModel::Bool(true)).insert(
                "events"@,
                merged_events(member_or_empty(section, "events"@), cmd),
            ),
        ),
        _ => section,
    }
}

/// A configuration with the hook that runs `cmd`. A configuration that is no
/// object stays as it is.
pub open spec fn merged_config(config: JsonModel, cmd: Seq<char>) -> JsonModel {
    match config {
        JsonModel::Object(members) => JsonModel::Object(
            members.insert("hooks"@, merged_section(member_or_empty(config, "hooks"@), cmd)),
        ),
        _ => config,
    }
}

/// A matcher block without the hooks that run a git-ai checkpoint.
pub open spec fn stripped_block(block: JsonModel) -> JsonModel {
    match block {
        JsonModel::Object(members) => match block.get("hooks"@) {
            Some(JsonModel::Array(hooks)) => JsonModel::Object(
                members.insert("hooks"@, JsonModel::Array(without_ours(hooks))),
            ),
            _ => block,
        },
        _ => block,
    }
}

/// Whether all hooks of a matcher block, of which there are some, run a
/// git-ai checkpoint.
pub open spec fn is_emptied(block: JsonModel) -> bool {
    block.items_at("hooks"@).len() > 0 && without_ours(block.items_at("hooks"@)).len() == 0
}

/// The matcher blocks of an event without the hooks that run a git-ai
/// checkpoint. A block that has no other hooks is dropped.
pub open spec fn stripped_blocks(blocks: Seq<JsonModel>) -> Seq<JsonModel>
    decreases blocks.len(),
{
    if blocks.len() == 0 {
        Seq::empty()
    } else if is_emptied(blocks.last()) {
        stripped_blocks(blocks.drop_last())
    } else {
        stripped_blocks(blocks.drop_last()).push(stripped_block(blocks.last()))
    }
}

/// The events without the hooks that run a git-ai checkpoint for one of them.
pub open spec fn stripped_event(events: Map<Seq<char>, JsonModel>, event: Seq<char>) -> Map<
    Seq<char>,
    JsonModel,
> {
    match JsonModel::Object(events).get(event) {
        Some(JsonModel::Array(blocks)) => events.insert(
            event,
            JsonModel::Array(stripped_blocks(blocks)),
        ),
        _ => events,
    }
}

/// The value of `events` without the hooks that run a git-ai checkpoint.
pub open spec fn stripped_events(events: JsonModel) -> JsonModel {
    match events {
        JsonModel::Object(members) => JsonModel::Object(
            stripped_event(stripped_event(members, "PreToolUse"@), "PostToolUse"@),
        ),
        _ => events,
    }
}

/// A configuration without the hooks that run a git-ai checkpoint.
pub open spec fn stripped_config(config: JsonModel) -> JsonModel {
    match config {
        JsonModel::Object(members) => match config.get("hooks"@) {
            Some(JsonModel::Object(section)) => match JsonModel::Object(section).get("events"@) {
                Some(events) => JsonModel::Object(
                    members.insert(
                        "hooks"@,
                        JsonModel::Object(section.insert("events"@, stripped_events(events))),
                    ),
                ),
                None => config,
            },
            _ => config,
        },
        _ => config,
    }
}

/// Whether a hook of a matcher block runs a git-ai checkpoint.
pub open spec fn block_runs_checkpoint(block: JsonModel) -> bool {
    exists|j: int|
        0 <= j < block.items_at("hooks"@).len() && runs_checkpoint(
            #[trigger] block.items_at("hooks"@)[j],
        )
}

/// The matcher blocks of an event in a configuration.
pub open spec fn event_blocks(config: JsonModel, event: Seq<char>) -> Seq<JsonModel> {
    match config.get("hooks"@) {
        Some(section) => match section.get("events"@) {
            Some(events) => events.items_at(event),
            None => Seq::empty(),
        },
        None => Seq::empty(),
    }
}

/// Whether some matcher block has a hook that runs a git-ai checkpoint.
pub open spec fn blocks_run_checkpoint(blocks: Seq<JsonModel>) -> bool {
    exists|i: int| 0 <= i < blocks.len() && block_runs_checkpoint(#[trigger] blocks[i])
}

/// Whether an event has a hook that runs a git-ai checkpoint.
pub open spec fn event_runs_checkpoint(config: JsonModel, event: Seq<char>) -> bool {
    blocks_run_checkpoint(event_blocks(config, event))
}

/// What a configuration file holds. An empty file, or one that is missing,
/// holds an empty object.
pub open spec fn config_outcome(text: Seq<char>) -> Result<JsonModel, Seq<char>> {
    if is_blank(text) {
        Ok(empty_object())
    } else {
        json_outcome(text)
    }
}

/// Setting a member that was taken out is setting it in the object that it
/// was taken out of.
proof fn lemma_insert_after_take<V>(
    rest: Map<Seq<char>, V>,
    whole: Map<Seq<char>, V>,
    key: Seq<char>,
    value: V,
)
    requires
        rest.remove(key) == whole.remove(key),
    ensures
        rest.insert(key, value) == whole.insert(key, value),
{
    assert(rest.insert(key, value) =~= rest.remove(key).insert(key, value));
    assert(whole.insert(key, value) =~= whole.remove(key).insert(key, value));
}

/// Setting a member changes an object unless the member is there already.
pub proof fn lemma_insert_changes<V>(members: Map<Seq<char>, V>, key: Seq<char>, value: V)
    ensures
        (members.insert(key, value) == members) == (members.contains_key(key) && members[key]
            == value),
{
    if members.contains_key(key) && members[key] == value {
        assert(members.insert(key, value) =~= members);
    } else {
        assert(members.insert(key, value).contains_key(key));
        assert(members.insert(key, value)[key] == value);
    }
}

/// The hook that is added runs the command.
pub proof fn lemma_our_hook(cmd: Seq<char>)
    ensures
        our_hook(cmd).text_at("command"@) == Some(cmd),
{
    reveal_strlit("type");
    reveal_strlit("command");
    reveal_strlit("timeoutMs");
    assert("timeoutMs"@.len() != "command"@.len());
}

/// What the first hook that runs a git-ai checkpoint is.
pub proof fn lemma_first_ours(hooks: Seq<JsonModel>, from: int)
    requires
        0 <= from <= hooks.len(),
    ensures
        from <= first_ours(hooks, from) <= hooks.len(),
        forall|j: int| from <= j < first_ours(hooks, from) ==> !runs_checkpoint(
            #[trigger] hooks[j],
        ),
        first_ours(hooks, from) < hooks.len() ==> runs_checkpoint(hooks[first_ours(hooks, from)]),
    decreases hooks.len() - from,
{
    if from < hooks.len() && !runs_checkpoint(hooks[from]) {
        lemma_first_ours(hooks, from + 1);
    }
}

/// The first hook that runs a git-ai checkpoint, known by what it is.
pub proof fn lemma_first_ours_is(hooks: Seq<JsonModel>, from: int, i: int)
    requires
        0 <= from <= i <= hooks.len(),
        forall|j: int| from <= j < i ==> !runs_checkpoint(#[trigger] hooks[j]),
        i < hooks.len() ==> runs_checkpoint(hooks[i]),
    ensures
        first_ours(hooks, from) == i,
    decreases i - from,
{
    if from < i {
        assert(!runs_checkpoint(hooks[from]));
        lemma_first_ours_is(hooks, from + 1, i);
    }
}

/// What the first block that catches all tools is.
pub proof fn lemma_first_catch_all(blocks: Seq<JsonModel>, from: int)
    requires
        0 <= from <= blocks.len(),
    ensures
        from <= first_catch_all(blocks, from) <= blocks.len(),
        forall|j: int| from <= j < first_catch_all(blocks, from) ==> !is_catch_all(
            #[trigger] blocks[j],
        ),
        first_catch_all(blocks, from) < blocks.len() ==> is_catch_all(
            blocks[first_catch_all(blocks, from)],
        ),
    decreases blocks.len() - from,
{
    if from < blocks.len() && !is_catch_all(blocks[from]) {
        lemma_first_catch_all(blocks, from + 1);
    }
}

/// The first block that catches all tools, known by what it is.
pub proof fn lemma_first_catch_all_is(blocks: Seq<JsonModel>, from: int, i: int)
    requires
        0 <= from <= i <= blocks.len(),
        forall|j: int| from <= j < i ==> !is_catch_all(#[trigger] blocks[j]),
        i < blocks.len() ==> is_catch_all(blocks[i]),
    ensures
        first_catch_all(blocks, from) == i,
    decreases i - from,
{
    if from < i {
        assert(!is_catch_all(blocks[from]));
        lemma_first_catch_all_is(blocks, from + 1, i);
    }
}

/// Leaving out hooks leaves none of ours, keeps the length exactly when there
/// were none, and then keeps everything.
pub proof fn lemma_without_ours(hooks: Seq<JsonModel>)
    ensures
        without_ours(hooks).len() <= hooks.len(),
        forall|j: int| 0 <= j < without_ours(hooks).len() ==> !runs_checkpoint(
            #[trigger] without_ours(hooks)[j],
        ),
        (without_ours(hooks).len() == hooks.len()) == (without_ours(hooks) == hooks),
        (without_ours(hooks) == hooks) == (forall|j: int|
            0 <= j < hooks.len() ==> !runs_checkpoint(#[trigger] hooks[j])),
    decreases hooks.len(),
{
    if hooks.len() > 0 {
        let before = hooks.drop_last();
        lemma_without_ours(before);
        if runs_checkpoint(hooks.last()) {
            assert(runs_checkpoint(hooks[hooks.len() - 1]));
        } else {
            assert(before.push(hooks.last()) =~= hooks);
            if without_ours(before) == before {
                assert forall|j: int| 0 <= j < hooks.len() implies !runs_checkpoint(
                    #[trigger] hooks[j],
                ) by {
                    if j < before.len() {
                        assert(before[j] == hooks[j]);
                    }
                }
            } else {
                let j = choose|j: int| 0 <= j < before.len() && runs_checkpoint(
                    #[trigger] before[j],
                );
                assert(hooks[j] == before[j]);
            }
        }
    } else {
        assert(hooks =~= Seq::empty());
    }
}

/// Whether a hook entry runs a git-ai checkpoint.
fn hook_is_ours(hook: &Json) -> (ours: bool)
    ensures
        ours == runs_checkpoint(hook@),
{
    match hook.str_at("command") {
        Some(cmd) => is_git_ai_checkpoint_command(cmd),
        None => false,
    }
}

/// The hook entry that runs `cmd`.
fn make_hook(cmd: &str) -> (hook: Json)
    ensures
        hook@ == our_hook(cmd@),
{
    let mut members: Vec<(String, Json)> = Vec::new();
    set_member(&mut members, "type", Json::Str("command".to_owned()));
    set_member(&mut members, "command", Json::Str(cmd.to_owned()));
    set_member(&mut members, "timeoutMs", json_uint(30000));
    assert(members_model(members@) =~= our_hook(cmd@)->Object_0);
    Json::Object(members)
}

/// Drops the hooks at or after `from` that run a git-ai checkpoint, and tells
/// whether there were any.
fn drop_ours(hooks: &mut Vec<Json>, from: usize) -> (dropped: bool)
    requires
        from <= old(hooks)@.len(),
    ensures
        items_model(final(hooks)@) == items_model(old(hooks)@).take(from as int) + without_ours(
            items_model(old(hooks)@).skip(from as int),
        ),
        dropped == (final(hooks)@.len() != old(hooks)@.len()),
{
    let ghost all = items_model(hooks@);
    let ghost head = all.take(from as int);
    let ghost mut seen: int = from as int;
    let mut dropped: bool = false;
    let mut k: usize = from;
    proof {
        assert(all.subrange(from as int, from as int) =~= Seq::empty());
        assert(head + Seq::empty() + all.skip(from as int) =~= all);
    }
    while k < hooks.len()
        invariant
            from <= k <= hooks@.len(),
            from <= seen <= all.len(),
            head == all.take(from as int),
            k == from + without_ours(all.subrange(from as int, seen)).len(),
            items_model(hooks@) == head + without_ours(all.subrange(from as int, seen))
                + all.skip(seen),
            dropped == (hooks@.len() != all.len()),
            hooks@.len() <= all.len(),
        decreases all.len() - seen,
    {
        let ghost before = items_model(hooks@);
        let ghost kept = without_ours(all.subrange(from as int, seen));
        proof {
            assert(before.len() == head.len() + kept.len() + (all.len() - seen));
            assert(before[k as int] == all[seen]);
            assert(all.subrange(from as int, seen + 1).drop_last() =~= all.subrange(
                from as int,
                seen,
            ));
        }
        if hook_is_ours(&hooks[k]) {
            hooks.remove(k);
            dropped = true;
            assert(items_model(hooks@) =~= before.remove(k as int));
            assert(before.remove(k as int) =~= head + kept + all.skip(seen + 1));
        } else {
            k += 1;
            assert(before =~= head + kept.push(all[seen]) + all.skip(seen + 1));
        }
        proof {
            seen = seen + 1;
        }
    }
    proof {
        let kept = without_ours(all.subrange(from as int, seen));
        assert(items_model(hooks@).len() == head.len() + kept.len() + (all.len() - seen));
        assert(seen == all.len());
        assert(all.subrange(from as int, seen) =~= all.skip(from as int));
        assert(items_model(hooks@) =~= head + kept);
    }
    dropped
}

/// Makes a list of hooks have one that runs `cmd`, and tells whether that
/// changed it.
fn merge_hook_list(hooks: &mut Vec<Json>, cmd: &str) -> (changed: bool)
    ensures
        items_model(final(hooks)@) == merged_hooks(items_model(old(hooks)@), cmd@),
        changed == (items_model(final(hooks)@) != items_model(old(hooks)@)),
{
    let ghost all = items_model(hooks@);
    let mut i: usize = 0;
    while i < hooks.len() && !hook_is_ours(&hooks[i])
        invariant
            i <= hooks@.len(),
            all == items_model(hooks@),
            forall|j: int| 0 <= j < i ==> !runs_checkpoint(#[trigger] all[j]),
        decreases hooks@.len() - i,
    {
        i += 1;
    }
    proof {
        lemma_first_ours_is(all, 0, i as int);
        lemma_our_hook(cmd@);
    }
    if i == hooks.len() {
        hooks.push(make_hook(cmd));
        assert(items_model(hooks@) =~= all.push(our_hook(cmd@)));
        return true;
    }
    let stale = match hooks[i].str_at("command") {
        Some(found) => !same_text(found, cmd),
        None => true,
    };
    if stale {
        hooks.remove(i);
        hooks.insert(i, make_hook(cmd));
        assert(items_model(hooks@) =~= all.update(i as int, our_hook(cmd@)));
    }
    let ghost fresh = items_model(hooks@);
    assert(fresh =~= all.update(i as int, refreshed(all[i as int], cmd@)));
    let dropped = drop_ours(hooks, i + 1);
    proof {
        assert(fresh.take(i + 1) =~= all.take(i as int).push(refreshed(all[i as int], cmd@)));
        assert(fresh.skip(i + 1) =~= all.skip(i + 1));
        lemma_without_ours(all.skip(i + 1));
        let now = items_model(hooks@);
        assert(now == merged_hooks(all, cmd@));
        assert(now[i as int] == refreshed(all[i as int], cmd@));
        if !stale && !dropped {
            assert(now =~= all);
        }
    }
    stale || dropped
}

/// Makes a matcher block have the hook that runs `cmd`, and tells whether
/// that changed it.
fn merge_block(block: Json, cmd: &str) -> (merged: (Json, bool))
    ensures
        merged.0@ == merged_block(block@, cmd@),
        merged.1 == (merged.0@ != block@),
{
    match block {
        Json::Object(mut members) => {
            let ghost whole = members_model(members@);
            let taken = take_member(&mut members, "hooks");
            let ghost rest = members_model(members@);
            let mut had_list: bool = false;
            let mut hooks: Vec<Json> = Vec::new();
            if let Some(Json::Array(list)) = taken {
                proof {
                    lemma_array_model(list);
                }
                hooks = list;
                had_list = true;
            }
            let ghost listed = items_model(hooks@);
            assert(listed =~= block@.items_at("hooks"@));
            let changed = merge_hook_list(&mut hooks, cmd);
            proof {
                lemma_array_model(hooks);
                lemma_insert_after_take(rest, whole, "hooks"@, Json::Array(hooks).model());
                lemma_insert_changes(whole, "hooks"@, Json::Array(hooks).model());
            }
            set_member(&mut members, "hooks", Json::Array(hooks));
            (Json::Object(members), changed || !had_list)
        },
        other => (other, false),
    }
}

/// Setting two members changes an object unless both are there already.
pub proof fn lemma_two_inserts<V>(
    members: Map<Seq<char>, V>,
    first: Seq<char>,
    second: Seq<char>,
    x: V,
    y: V,
)
    requires
        first != second,
    ensures
        (members.insert(first, x).insert(second, y) == members) == (members.insert(first, x)
            == members && members.insert(first, x).insert(second, y) == members.insert(first, x)),
{
    let both = members.insert(first, x).insert(second, y);
    if both == members {
        assert(both.contains_key(first) && both[first] == x);
        assert(both.contains_key(second) && both[second] == y);
        assert(members.insert(first, x) =~= members);
    }
}

/// The names of the events differ.
pub proof fn lemma_event_names()
    ensures
        "PreToolUse"@ != "PostToolUse"@,
{
    reveal_strlit("PreToolUse");
    reveal_strlit("PostToolUse");
    assert("PreToolUse"@.len() != "PostToolUse"@.len());
}

/// The keys of the `hooks` object differ.
pub proof fn lemma_section_keys()
    ensures
        "enabled"@ != "events"@,
{
    reveal_strlit("enabled");
    reveal_strlit("events");
    assert("enabled"@.len() != "events"@.len());
}

/// The block that is added catches all tools and has no hooks.
pub proof fn lemma_fresh_block()
    ensures
        is_catch_all(fresh_block()),
        fresh_block().items_at("hooks"@) == Seq::<JsonModel>::empty(),
{
    reveal_strlit("matcher");
    reveal_strlit("hooks");
    assert("matcher"@.len() != "hooks"@.len());
}

/// The matcher block that catches all tools, without hooks.
fn make_block() -> (block: Json)
    ensures
        block@ == fresh_block(),
{
    let hooks: Vec<Json> = Vec::new();
    let mut members: Vec<(String, Json)> = Vec::new();
    proof {
        lemma_array_model(hooks);
        assert(items_model(hooks@) =~= Seq::empty());
    }
    set_member(&mut members, "matcher", Json::Str("*".to_owned()));
    set_member(&mut members, "hooks", Json::Array(hooks));
    assert(members_model(members@) =~= fresh_block()->Object_0);
    Json::Object(members)
}

/// Whether a matcher block catches all tools.
fn catches_all(block: &Json) -> (all: bool)
    ensures
        all == is_catch_all(block@),
{
    match block.str_at("matcher") {
        Some(matcher) => same_text(matcher, "*"),
        None => false,
    }
}

/// Makes the matcher blocks of an event have the hook that runs `cmd`, and
/// tells whether that changed them.
fn merge_block_list(blocks: &mut Vec<Json>, cmd: &str) -> (changed: bool)
    ensures
        items_model(final(blocks)@) == merged_blocks(items_model(old(blocks)@), cmd@),
        changed == (items_model(final(blocks)@) != items_model(old(blocks)@)),
{
    let ghost all = items_model(blocks@);
    let mut i: usize = 0;
    while i < blocks.len() && !catches_all(&blocks[i])
        invariant
            i <= blocks@.len(),
            all == items_model(blocks@),
            forall|j: int| 0 <= j < i ==> !is_catch_all(#[trigger] all[j]),
        decreases blocks@.len() - i,
    {
        i += 1;
    }
    proof {
        lemma_first_catch_all_is(all, 0, i as int);
    }
    if i == blocks.len() {
        let (block, _) = merge_block(make_block(), cmd);
        blocks.push(block);
        assert(items_model(blocks@) =~= all.push(merged_block(fresh_block(), cmd@)));
        return true;
    }
    let block = blocks.remove(i);
    assert(block@ == all[i as int]);
    let (block, changed) = merge_block(block, cmd);
    blocks.insert(i, block);
    let ghost now = items_model(blocks@);
    assert(now =~= all.update(i as int, block@));
    assert(now[i as int] == block@);
    proof {
        if !changed {
            assert(now =~= all);
        }
    }
    changed
}

/// Makes one of the events have the hook that runs `cmd`, and tells whether
/// that changed them.
fn merge_event(events: &mut Vec<(String, Json)>, event: &str, cmd: &str) -> (changed: bool)
    ensures
        members_model(final(events)@) == merged_event(
            members_model(old(events)@),
            event@,
            cmd@,
        ),
        changed == (members_model(final(events)@) != members_model(old(events)@)),
{
    let ghost whole = members_model(events@);
    let taken = take_member(events, event);
    let ghost rest = members_model(events@);
    let mut had_list: bool = false;
    let mut blocks: Vec<Json> = Vec::new();
    if let Some(Json::Array(list)) = taken {
        proof {
            lemma_array_model(list);
        }
        blocks = list;
        had_list = true;
    }
    let ghost listed = items_model(blocks@);
    assert(listed =~= JsonModel::Object(whole).items_at(event@));
    let changed = merge_block_list(&mut blocks, cmd);
    proof {
        lemma_array_model(blocks);
        lemma_insert_after_take(rest, whole, event@, Json::Array(blocks).model());
        lemma_insert_changes(whole, event@, Json::Array(blocks).model());
    }
    set_member(events, event, Json::Array(blocks));
    changed || !had_list
}

/// Makes the value of `events` have the hook that runs `cmd`, and tells
/// whether that changed it.
fn merge_events(events: Json, cmd: &str) -> (merged: (Json, bool))
    ensures
        merged.0@ == merged_events(events@, cmd@),
        merged.1 == (merged.0@ != events@),
{
    match events {
        Json::Object(mut members) => {
            let ghost before = members_model(members@);
            let pre = merge_event(&mut members, "PreToolUse", cmd);
            let ghost between = members_model(members@);
            let post = merge_event(&mut members, "PostToolUse", cmd);
            let ghost after = members_model(members@);
            proof {
                lemma_event_names();
                lemma_two_inserts(
                    before,
                    "PreToolUse"@,
                    "PostToolUse"@,
                    between["PreToolUse"@],
                    after["PostToolUse"@],
                );
            }
            (Json::Object(members), pre || post)
        },
        other => (other, false),
    }
}

/// An object without members.
fn make_object() -> (object: Json)
    ensures
        object@ == empty_object(),
{
    let members: Vec<(String, Json)> = Vec::new();
    assert(members_model(members@) =~= Map::empty());
    Json::Object(members)
}

/// Whether a member of an object is `true`.
fn is_true_at(json: &Json, key: &str) -> (yes: bool)
    ensures
        yes == (json@.get(key@) == Some(JsonModel::Bool(true))),
{
    match json.get(key) {
        Some(Json::Bool(b)) => *b,
        _ => false,
    }
}

/// Makes the value of `hooks` enabled and have the hook that runs `cmd`, and
/// tells whether that changed it.
fn merge_section(section: Json, cmd: &str) -> (merged: (Json, bool))
    ensures
        merged.0@ == merged_section(section@, cmd@),
        merged.1 == (merged.0@ != section@),
{
    let enabled = is_true_at(&section, "enabled");
    match section {
        Json::Object(mut members) => {
            let ghost whole = members_model(members@);
            set_member(&mut members, "enabled", Json::Bool(true));
            let ghost started = members_model(members@);
            let taken = take_member(&mut members, "events");
            let ghost rest = members_model(members@);
            proof {
                lemma_section_keys();
                assert(JsonModel::Object(started).get("events"@) == section@.get("events"@));
            }
            let (events, had_events) = match taken {
                Some(events) => (events, true),
                None => (make_object(), false),
            };
            let (events, changed) = merge_events(events, cmd);
            proof {
                lemma_insert_after_take(rest, started, "events"@, events@);
                lemma_insert_changes(whole, "enabled"@, JsonModel::Bool(true));
                lemma_insert_changes(started, "events"@, events@);
                lemma_two_inserts(
                    whole,
                    "enabled"@,
                    "events"@,
                    JsonModel::Bool(true),
                    events@,
                );
            }
            set_member(&mut members, "events", events);
            (Json::Object(members), !enabled || !had_events || changed)
        },
        other => (other, false),
    }
}

/// Makes a configuration have the hook that runs `cmd`, and tells whether
/// that changed it.
///
/// The hook stands in the first matcher block of each event that catches all
/// tools, once: others that run a git-ai checkpoint are dropped from that
/// block. All other content stays.
pub fn merge_config(config: Json, cmd: &str) -> (merged: (Json, bool))
    ensures
        merged.0@ == merged_config(config@, cmd@),
        merged.1 == (merged.0@ != config@),
{
    match config {
        Json::Object(mut members) => {
            let ghost whole = members_model(members@);
            let taken = take_member(&mut members, "hooks");
            let ghost rest = members_model(members@);
            let (section, had_section) = match taken {
                Some(section) => (section, true),
                None => (make_object(), false),
            };
            let (section, changed) = merge_section(section, cmd);
            proof {
                lemma_insert_after_take(rest, whole, "hooks"@, section@);
                lemma_insert_changes(whole, "hooks"@, section@);
            }
            set_member(&mut members, "hooks", section);
            (Json::Object(members), !had_section || changed)
        },
        other => (other, false),
    }
}

/// Leaving out hooks drops some exactly when one of them ran a git-ai
/// checkpoint.
proof fn lemma_block_stripped(block: JsonModel)
    ensures
        (without_ours(block.items_at("hooks"@)).len() != block.items_at("hooks"@).len())
            == block_runs_checkpoint(block),
        is_emptied(block) ==> block_runs_checkpoint(block),
        block.get("hooks"@) is None || block.get("hooks"@)->0 !is Array ==> stripped_block(block)
            == block,
{
    lemma_without_ours(block.items_at("hooks"@));
}

/// Drops the hooks of a matcher block that run a git-ai checkpoint. Tells
/// whether there were any, and whether there were no others.
fn strip_block(block: Json) -> (stripped: (Json, bool, bool))
    ensures
        stripped.0@ == stripped_block(block@),
        stripped.1 == block_runs_checkpoint(block@),
        stripped.2 == is_emptied(block@),
{
    proof {
        lemma_block_stripped(block@);
    }
    match block {
        Json::Object(mut members) => {
            let ghost whole = members_model(members@);
            let taken = take_member(&mut members, "hooks");
            let ghost rest = members_model(members@);
            match taken {
                Some(Json::Array(mut hooks)) => {
                    proof {
                        lemma_array_model(hooks);
                    }
                    let ghost listed = items_model(hooks@);
                    let dropped = drop_ours(&mut hooks, 0);
                    let emptied = dropped && hooks.len() == 0;
                    proof {
                        assert(listed.take(0) + without_ours(listed.skip(0)) =~= without_ours(
                            listed.skip(0),
                        ));
                        assert(listed.skip(0) =~= listed);
                        assert(items_model(hooks@).len() == hooks@.len());
                        lemma_array_model(hooks);
                        lemma_insert_after_take(rest, whole, "hooks"@, Json::Array(hooks).model());
                    }
                    set_member(&mut members, "hooks", Json::Array(hooks));
                    (Json::Object(members), dropped, emptied)
                },
                Some(other) => {
                    proof {
                        lemma_insert_after_take(rest, whole, "hooks"@, other@);
                        lemma_insert_changes(whole, "hooks"@, other@);
                    }
                    set_member(&mut members, "hooks", other);
                    (Json::Object(members), false, false)
                },
                None => (Json::Object(members), false, false),
            }
        },
        other => (other, false, false),
    }
}

/// Drops the hooks of matcher blocks that run a git-ai checkpoint, and the
/// blocks that have no others. Tells whether there were any.
fn strip_block_list(blocks: Vec<Json>) -> (stripped: (Vec<Json>, bool))
    ensures
        items_model(stripped.0@) == stripped_blocks(items_model(blocks@)),
        stripped.1 == blocks_run_checkpoint(items_model(blocks@)),
{
    let ghost all = items_model(blocks@);
    let ghost held = blocks@;
    let mut out: Vec<Json> = Vec::new();
    let mut changed: bool = false;
    assert(items_model(out@) =~= Seq::empty());
    assert(all.take(0) =~= Seq::empty());
    for block in it: blocks
        invariant
            it.seq() == held,
            all == items_model(held),
            items_model(out@) == stripped_blocks(all.take(it.index() as int)),
            changed == exists|i: int|
                0 <= i < it.index() && block_runs_checkpoint(#[trigger] all[i]),
    {
        let ghost i = it.index() as int;
        proof {
            assert(block@ == all[i]);
            assert(all.take(i + 1).drop_last() =~= all.take(i));
        }
        let (kept, dropped, emptied) = strip_block(block);
        if dropped {
            changed = true;
        }
        if !emptied {
            let ghost before = items_model(out@);
            out.push(kept);
            assert(items_model(out@) =~= before.push(kept@));
        }
    }
    assert(all.take(all.len() as int) =~= all);
    (out, changed)
}

/// Drops the hooks of one of the events that run a git-ai checkpoint, and
/// tells whether there were any.
fn strip_event(events: &mut Vec<(String, Json)>, event: &str) -> (changed: bool)
    ensures
        members_model(final(events)@) == stripped_event(members_model(old(events)@), event@),
        changed == blocks_run_checkpoint(
            JsonModel::Object(members_model(old(events)@)).items_at(event@),
        ),
{
    let ghost whole = members_model(events@);
    let taken = take_member(events, event);
    let ghost rest = members_model(events@);
    match taken {
        Some(Json::Array(blocks)) => {
            proof {
                lemma_array_model(blocks);
            }
            let (kept, changed) = strip_block_list(blocks);
            proof {
                lemma_array_model(kept);
                lemma_insert_after_take(rest, whole, event@, Json::Array(kept).model());
            }
            set_member(events, event, Json::Array(kept));
            changed
        },
        Some(other) => {
            proof {
                lemma_insert_after_take(rest, whole, event@, other@);
                lemma_insert_changes(whole, event@, other@);
            }
            set_member(events, event, other);
            false
        },
        None => false,
    }
}

/// Drops the hooks that run a git-ai checkpoint from the value of `events`,
/// and tells whether there were any.
fn strip_events(events: Json) -> (stripped: (Json, bool))
    ensures
        stripped.0@ == stripped_events(events@),
        stripped.1 == (blocks_run_checkpoint(events@.items_at("PreToolUse"@))
            || blocks_run_checkpoint(events@.items_at("PostToolUse"@))),
{
    match events {
        Json::Object(mut members) => {
            let pre = strip_event(&mut members, "PreToolUse");
            proof {
                lemma_event_names();
                assert(JsonModel::Object(members_model(members@)).get("PostToolUse"@)
                    == events@.get("PostToolUse"@));
            }
            let post = strip_event(&mut members, "PostToolUse");
            (Json::Object(members), pre || post)
        },
        other => (other, false),
    }
}

/// Drops the hooks that run a git-ai checkpoint from a configuration, and
/// tells whether there were any. Matcher blocks that have no other hooks are
/// dropped too. All other content stays.
pub fn strip_config(config: Json) -> (stripped: (Json, bool))
    ensures
        stripped.0@ == stripped_config(config@),
        stripped.1 == (event_runs_checkpoint(config@, "PreToolUse"@) || event_runs_checkpoint(
            config@,
            "PostToolUse"@,
        )),
{
    match config {
        Json::Object(mut members) => {
            let ghost whole = members_model(members@);
            let taken = take_member(&mut members, "hooks");
            let ghost rest = members_model(members@);
            match taken {
                Some(section) => {
                    let (section, changed) = strip_section(section);
                    proof {
                        lemma_insert_after_take(rest, whole, "hooks"@, section@);
                        lemma_insert_changes(whole, "hooks"@, section@);
                    }
                    set_member(&mut members, "hooks", section);
                    (Json::Object(members), changed)
                },
                None => (Json::Object(members), false),
            }
        },
        other => (other, false),
    }
}

/// Drops the hooks that run a git-ai checkpoint from the value of `hooks`,
/// and tells whether there were any.
fn strip_section(section: Json) -> (stripped: (Json, bool))
    ensures
        stripped.0@ == (match section@ {
            JsonModel::Object(members) => match section@.get("events"@) {
                Some(events) => JsonModel::Object(
                    members.insert("events"@, stripped_events(events)),
                ),
                None => section@,
            },
            _ => section@,
        }),
        stripped.1 == (section@.get("events"@) matches Some(events) && (blocks_run_checkpoint(
            events.items_at("PreToolUse"@),
        ) || blocks_run_checkpoint(events.items_at("PostToolUse"@)))),
{
    match section {
        Json::Object(mut members) => {
            let ghost whole = members_model(members@);
            let taken = take_member(&mut members, "events");
            let ghost rest = members_model(members@);
            match taken {
                Some(events) => {
                    let (events, changed) = strip_events(events);
                    proof {
                        lemma_insert_after_take(rest, whole, "events"@, events@);
                    }
                    set_member(&mut members, "events", events);
                    (Json::Object(members), changed)
                },
                None => (Json::Object(members), false),
            }
        },
        other => (other, false),
    }
}

/// Whether a list of hooks has one that runs a git-ai checkpoint.
fn any_ours(hooks: &Vec<Json>) -> (found: bool)
    ensures
        found == exists|j: int|
            0 <= j < items_model(hooks@).len() && runs_checkpoint(
                #[trigger] items_model(hooks@)[j],
            ),
{
    let mut j: usize = 0;
    while j < hooks.len()
        invariant
            j <= hooks@.len(),
            forall|i: int| 0 <= i < j ==> !runs_checkpoint(#[trigger] items_model(hooks@)[i]),
        decreases hooks@.len() - j,
    {
        if hook_is_ours(&hooks[j]) {
            assert(runs_checkpoint(items_model(hooks@)[j as int]));
            return true;
        }
        j += 1;
    }
    false
}

/// Whether an event of a configuration has a hook that runs a git-ai
/// checkpoint.
pub fn event_has_ours(config: &Json, event: &str) -> (found: bool)
    ensures
        found == event_runs_checkpoint(config@, event@),
{
    let blocks = match config.get("hooks") {
        Some(section) => match section.get("events") {
            Some(events) => match events.get(event) {
                Some(value) => match value.as_array() {
                    Some(blocks) => blocks,
                    None => return false,
                },
                None => return false,
            },
            None => return false,
        },
        None => return false,
    };
    let ghost all = items_model(blocks@);
    assert(all == event_blocks(config@, event@));
    let mut i: usize = 0;
    while i < blocks.len()
        invariant
            i <= blocks@.len(),
            all == items_model(blocks@),
            all == event_blocks(config@, event@),
            forall|k: int| 0 <= k < i ==> !block_runs_checkpoint(#[trigger] all[k]),
        decreases blocks@.len() - i,
    {
        let found = match blocks[i].get("hooks") {
            Some(value) => match value.as_array() {
                Some(hooks) => any_ours(hooks),
                None => false,
            },
            None => false,
        };
        assert(found == block_runs_checkpoint(all[i as int]));
        if found {
            return true;
        }
        i += 1;
    }
    false
}

/// Hook installer for ZCode.
///
/// ZCode reads hook configuration from `~/.zcode/cli/config.json`, a JSON
/// file with a nested `hooks.events.{EventName}` structure (see ZCode
/// "Hooks" doc). Each event maps to an array of matcher blocks, each
/// containing a `matcher` string and a `hooks` array of hook entries.
/// Hook entries use `type: "command"` with a shell command string.
///
/// The config must also set `hooks.enabled: true` for hooks to execute.
pub struct ZCodeInstaller;

/// The command that a hook of ZCode runs.
pub open spec fn zcode_command(binary_path: Seq<char>) -> Seq<char> {
    binary_path + " "@ + "checkpoint zcode --hook-input stdin"@
}

/// Whether an error says what is wrong with a JSON text.
pub open spec fn says(error: GitAiError, said: Seq<char>) -> bool {
    error matches GitAiError::JsonError(message) && message@ == said
}

/// Whether a plan is to write a configuration in place of what a file holds.
pub open spec fn writes_config(
    plan: Result<Option<ConfigEdit>, GitAiError>,
    before: Seq<char>,
    config: JsonModel,
    dry_run: bool,
) -> bool {
    plan matches Ok(Some(edit)) && edit.before@ == before && written_as(edit.after@, config)
        && edit.write == !dry_run
}

/// What is to be done to install the hook that runs `cmd` in a file. What is
/// read from one is not nested too deeply.
pub open spec fn install_planned(
    plan: Result<Option<ConfigEdit>, GitAiError>,
    before: Seq<char>,
    cmd: Seq<char>,
    dry_run: bool,
) -> bool {
    match config_outcome(before) {
        Err(said) => plan matches Err(error) && says(error, said),
        Ok(config) => nested_within(config, MAX_DEPTH as nat) && if merged_config(config, cmd)
            == config {
            plan matches Ok(None)
        } else {
            writes_config(plan, before, merged_config(config, cmd), dry_run)
        },
    }
}

/// What is to be done to remove the hooks from a file. What is read from one is
/// not nested too deeply.
pub open spec fn uninstall_planned(
    plan: Result<Option<ConfigEdit>, GitAiError>,
    before: Seq<char>,
    dry_run: bool,
) -> bool {
    match json_outcome(before) {
        Err(said) => plan matches Err(error) && says(error, said),
        Ok(config) => nested_within(config, MAX_DEPTH as nat) && if event_runs_checkpoint(
            config,
            "PreToolUse"@,
        ) || event_runs_checkpoint(config, "PostToolUse"@) {
            writes_config(plan, before, stripped_config(config), dry_run)
        } else {
            plan matches Ok(None)
        },
    }
}

/// Whether the text of a configuration file has our hooks for both events.
/// One that is not JSON has none.
pub open spec fn text_has_hooks(text: Seq<char>) -> bool {
    json_outcome(text) matches Ok(config) && event_runs_checkpoint(config, "PreToolUse"@)
        && event_runs_checkpoint(config, "PostToolUse"@)
}

impl ZCodeInstaller {
    pub fn config_path(home_dir: &str) -> (path: String)
        ensures
            path@ == path_joined(
                path_joined(path_joined(home_dir@, ".zcode"@), "cli"@),
                "config.json"@,
            ),
    {
        join_path(&join_path(&join_path(home_dir, ".zcode"), "cli"), "config.json")
    }

    /// The command of the hook, for a git-ai program at `binary_path`, which
    /// is written as the shell expects it.
    pub fn desired_command(binary_path: &str) -> (cmd: String)
        ensures
            cmd@ == zcode_command(binary_path@),
    {
        let mut cmd = binary_path.to_owned();
        cmd.append(" ");
        cmd.append("checkpoint zcode --hook-input stdin");
        cmd
    }

    /// Installs hooks into a config.json file: the change to make, if any.
    pub fn install_hooks_at(existing: Option<&str>, desired_cmd: &str, dry_run: bool) -> (plan:
        Result<Option<ConfigEdit>, GitAiError>)
        ensures
            install_planned(plan, file_text(existing), desired_cmd@, dry_run),
    {
        let before = text_or_empty(existing);
        let config = if blank(&before) {
            make_object()
        } else {
            match read_json(&before) {
                Ok(config) => config,
                Err(message) => return Err(GitAiError::JsonError(message)),
            }
        };
        let (merged, changed) = merge_config(config, desired_cmd);
        if !changed {
            return Ok(None);
        }
        let after = write_json(merged);
        Ok(Some(ConfigEdit { before, after, write: !dry_run }))
    }

    /// Removes hooks from a config.json file: the change to make, if any.
    /// There is nothing to remove from a file that is missing.
    pub fn uninstall_hooks_at(existing: Option<&str>, dry_run: bool) -> (plan: Result<
        Option<ConfigEdit>,
        GitAiError,
    >)
        ensures
            existing is None ==> plan matches Ok(None),
            existing matches Some(text) ==> uninstall_planned(plan, text@, dry_run),
    {
        let before = match existing {
            Some(text) => text.to_owned(),
            None => return Ok(None),
        };
        let config = match read_json(&before) {
            Ok(config) => config,
            Err(message) => return Err(GitAiError::JsonError(message)),
        };
        let (stripped, changed) = strip_config(config);
        if !changed {
            return Ok(None);
        }
        let after = write_json(stripped);
        Ok(Some(ConfigEdit { before, after, write: !dry_run }))
    }

    pub fn name(&self) -> (name: &'static str)
        ensures
            name@ == "ZCode"@,
    {
        "ZCode"
    }

    pub fn id(&self) -> (id: &'static str)
        ensures
            id@ == "zcode"@,
    {
        "zcode"
    }

    pub fn process_names(&self) -> (names: Vec<&'static str>)
        ensures
            names@ == seq!["zcode"],
    {
        vec!["zcode"]
    }

    /// Tells whether the hooks are installed, for a machine on which the
    /// program is found or not, and a configuration file that is there or
    /// not. Where the file is there, the program is taken to be installed.
    pub fn check_hooks(&self, tool_found: bool, existing: Option<&str>) -> (checked: Result<
        HookCheckResult,
        GitAiError,
    >)
        ensures
            checked == Ok::<HookCheckResult, GitAiError>(
                HookCheckResult {
                    tool_installed: existing is Some || tool_found,
                    hooks_installed: existing is Some && text_has_hooks(file_text(existing)),
                    hooks_up_to_date: existing is Some && text_has_hooks(file_text(existing)),
                },
            ),
    {
        let content = match existing {
            Some(text) => text,
            None => return Ok(
                HookCheckResult {
                    tool_installed: tool_found,
                    hooks_installed: false,
                    hooks_up_to_date: false,
                },
            ),
        };
        let has_hooks = match read_json(content) {
            Ok(config) => event_has_ours(&config, "PreToolUse") && event_has_ours(
                &config,
                "PostToolUse",
            ),
            Err(_) => false,
        };
        Ok(
            HookCheckResult {
                tool_installed: true,
                hooks_installed: has_hooks,
                hooks_up_to_date: has_hooks,
            },
        )
    }

    /// Installs the hooks for a git-ai program at `binary_path`: the change
    /// to make, if any.
    pub fn install_hooks(&self, existing: Option<&str>, binary_path: &str, dry_run: bool) -> (plan:
        Result<Option<ConfigEdit>, GitAiError>)
        ensures
            install_planned(plan, file_text(existing), zcode_command(binary_path@), dry_run),
    {
        let desired_cmd = Self::desired_command(binary_path);
        Self::install_hooks_at(existing, &desired_cmd, dry_run)
    }

    /// Removes the hooks: the change to make, if any.
    pub fn uninstall_hooks(&self, existing: Option<&str>, dry_run: bool) -> (plan: Result<
        Option<ConfigEdit>,
        GitAiError,
    >)
        ensures
            existing is None ==> plan matches Ok(None),
            existing matches Some(text) ==> uninstall_planned(plan, text@, dry_run),
    {
        Self::uninstall_hooks_at(existing, dry_run)
    }
}

} // verus!
