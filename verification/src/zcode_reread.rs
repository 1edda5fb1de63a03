//! What a ZCode configuration reads as after it was written and read again:
//! floating point numbers may have changed, and nothing that the hooks depend
//! on has.
use crate::json::{alike, JsonModel};
use crate::zcode::{
    block_runs_checkpoint, blocks_run_checkpoint, event_blocks, event_runs_checkpoint,
    first_catch_all, first_ours, is_catch_all, is_emptied, lemma_event_names, lemma_first_catch_all,
    lemma_first_catch_all_is, lemma_first_ours, lemma_first_ours_is, lemma_insert_changes,
    lemma_our_hook, lemma_section_keys, lemma_two_inserts, lemma_without_ours, member_or_empty,
    merged_block, merged_blocks, merged_config, merged_event, merged_events, merged_hooks,
    merged_section, refreshed, runs_checkpoint, stripped_block, stripped_blocks, stripped_config,
    stripped_event, stripped_events, without_ours,
};
use vstd::prelude::*;

verus! {

/// Whether the items of two lists are alike.
spec fn items_alike(a: Seq<JsonModel>, b: Seq<JsonModel>, depth: nat) -> bool {
    a.len() == b.len() && forall|i: int| 0 <= i < a.len() ==> alike(#[trigger] a[i], b[i], depth)
}

/// What is found at a key of two values that are alike.
proof fn lemma_alike_member(a: JsonModel, b: JsonModel, key: Seq<char>, depth: nat)
    requires
        alike(a, b, depth),
    ensures
        a is Object == b is Object,
        match (a.get(key), b.get(key)) {
            (Some(x), Some(y)) => depth > 0 && alike(x, y, (depth - 1) as nat) && (x is Array
                == y is Array) && (x is Object == y is Object),
            (None, None) => true,
            _ => false,
        },
        a.text_at(key) == b.text_at(key),
        a.get(key) == Some(JsonModel::Bool(true)) ==> b.get(key) == Some(JsonModel::Bool(true)),
{
    if let JsonModel::Object(x) = a {
        if let JsonModel::Object(y) = b {
            assert(x.contains_key(key) == y.contains_key(key));
            if x.contains_key(key) {
                assert(alike(x[key], y[key], (depth - 1) as nat));
            }
        }
    }
}

/// The items that are found at a key of two values that are alike.
proof fn lemma_alike_items(a: JsonModel, b: JsonModel, key: Seq<char>, depth: nat)
    requires
        alike(a, b, depth),
        depth > 1,
    ensures
        items_alike(a.items_at(key), b.items_at(key), (depth - 2) as nat),
        a.get(key) matches Some(JsonModel::Array(_)) ==> b.get(key) matches Some(
            JsonModel::Array(_),
        ),
{
    lemma_alike_member(a, b, key, depth);
}

/// Hooks that have one that runs `cmd` still do.
proof fn lemma_alike_hooks(
    a: Seq<JsonModel>,
    b: Seq<JsonModel>,
    cmd: Seq<char>,
    depth: nat,
)
    requires
        items_alike(a, b, depth),
        merged_hooks(a, cmd) == a,
    ensures
        merged_hooks(b, cmd) == b,
{
    let k = first_ours(a, 0);
    lemma_first_ours(a, 0);
    lemma_our_hook(cmd);
    assert forall|j: int| 0 <= j < a.len() implies (#[trigger] a[j]).text_at("command"@)
        == b[j].text_at("command"@) by {
        assert(alike(a[j], b[j], depth));
        lemma_alike_member(a[j], b[j], "command"@, depth);
    }
    let tail = a.skip(k + 1);
    lemma_without_ours(tail);
    assert(k < a.len());
    assert(merged_hooks(a, cmd)[k] == refreshed(a[k], cmd));
    assert(a[k].text_at("command"@) == Some(cmd));
    assert(merged_hooks(a, cmd).len() == k + 1 + without_ours(tail).len());
    assert forall|j: int| 0 <= j < k implies !runs_checkpoint(#[trigger] b[j]) by {
        assert(!runs_checkpoint(a[j]));
    }
    assert(runs_checkpoint(a[k]));
    lemma_first_ours_is(b, 0, k);
    let rest = b.skip(k + 1);
    assert forall|j: int| 0 <= j < rest.len() implies !runs_checkpoint(#[trigger] rest[j]) by {
        assert(!runs_checkpoint(tail[j]));
        assert(tail[j] == a[k + 1 + j]);
    }
    lemma_without_ours(rest);
    assert(merged_hooks(b, cmd) =~= b);
}

/// A matcher block that has the hook that runs `cmd` still does.
proof fn lemma_alike_block(a: JsonModel, b: JsonModel, cmd: Seq<char>, depth: nat)
    requires
        alike(a, b, depth),
        depth > 1,
        merged_block(a, cmd) == a,
    ensures
        merged_block(b, cmd) == b,
{
    if let JsonModel::Object(x) = a {
        lemma_alike_member(a, b, "hooks"@, depth);
        lemma_alike_items(a, b, "hooks"@, depth);
        let hooks = a.items_at("hooks"@);
        lemma_insert_changes(x, "hooks"@, JsonModel::Array(merged_hooks(hooks, cmd)));
        assert(a.get("hooks"@) == Some(JsonModel::Array(merged_hooks(hooks, cmd))));
        lemma_alike_hooks(hooks, b.items_at("hooks"@), cmd, (depth - 2) as nat);
        let y = b->Object_0;
        lemma_insert_changes(
            y,
            "hooks"@,
            JsonModel::Array(merged_hooks(b.items_at("hooks"@), cmd)),
        );
    }
}

/// Matcher blocks that have the hook that runs `cmd` still do.
proof fn lemma_alike_blocks(
    a: Seq<JsonModel>,
    b: Seq<JsonModel>,
    cmd: Seq<char>,
    depth: nat,
)
    requires
        items_alike(a, b, depth),
        depth > 1,
        merged_blocks(a, cmd) == a,
    ensures
        merged_blocks(b, cmd) == b,
{
    let i = first_catch_all(a, 0);
    lemma_first_catch_all(a, 0);
    assert(i < a.len());
    assert forall|j: int| 0 <= j < a.len() implies is_catch_all(#[trigger] a[j]) == is_catch_all(
        b[j],
    ) by {
        assert(alike(a[j], b[j], depth));
        lemma_alike_member(a[j], b[j], "matcher"@, depth);
    }
    assert forall|j: int| 0 <= j < i implies !is_catch_all(#[trigger] b[j]) by {
        assert(!is_catch_all(a[j]));
    }
    lemma_first_catch_all_is(b, 0, i);
    assert(merged_blocks(a, cmd)[i] == merged_block(a[i], cmd));
    assert(alike(a[i], b[i], depth));
    lemma_alike_block(a[i], b[i], cmd, depth);
    assert(merged_blocks(b, cmd) =~= b);
}

/// An event that has the hook that runs `cmd` still does.
proof fn lemma_alike_event(
    a: JsonModel,
    b: JsonModel,
    event: Seq<char>,
    cmd: Seq<char>,
    depth: nat,
)
    requires
        alike(a, b, depth),
        depth > 3,
        a is Object,
        b is Object,
        merged_event(a->Object_0, event, cmd) == a->Object_0,
    ensures
        merged_event(b->Object_0, event, cmd) == b->Object_0,
{
    let x = a->Object_0;
    let y = b->Object_0;
    let blocks = a.items_at(event);
    lemma_alike_member(a, b, event, depth);
    lemma_alike_items(a, b, event, depth);
    lemma_insert_changes(x, event, JsonModel::Array(merged_blocks(blocks, cmd)));
    assert(a.get(event) == Some(JsonModel::Array(merged_blocks(blocks, cmd))));
    lemma_alike_blocks(blocks, b.items_at(event), cmd, (depth - 2) as nat);
    lemma_insert_changes(y, event, JsonModel::Array(merged_blocks(b.items_at(event), cmd)));
}

/// The value of `events` that has the hook that runs `cmd` still does.
proof fn lemma_alike_events(a: JsonModel, b: JsonModel, cmd: Seq<char>, depth: nat)
    requires
        alike(a, b, depth),
        depth > 3,
        merged_events(a, cmd) == a,
    ensures
        merged_events(b, cmd) == b,
{
    lemma_alike_member(a, b, "PreToolUse"@, depth);
    if let JsonModel::Object(x) = a {
        lemma_event_names();
        let between = merged_event(x, "PreToolUse"@, cmd);
        let after = merged_event(between, "PostToolUse"@, cmd);
        lemma_two_inserts(
            x,
            "PreToolUse"@,
            "PostToolUse"@,
            between["PreToolUse"@],
            after["PostToolUse"@],
        );
        lemma_alike_event(a, b, "PreToolUse"@, cmd, depth);
        lemma_alike_event(a, b, "PostToolUse"@, cmd, depth);
    }
}

/// The value of `hooks` that has the hook that runs `cmd` still does.
proof fn lemma_alike_section(a: JsonModel, b: JsonModel, cmd: Seq<char>, depth: nat)
    requires
        alike(a, b, depth),
        depth > 4,
        merged_section(a, cmd) == a,
    ensures
        merged_section(b, cmd) == b,
{
    lemma_alike_member(a, b, "enabled"@, depth);
    lemma_alike_member(a, b, "events"@, depth);
    if let JsonModel::Object(x) = a {
        lemma_section_keys();
        let events = merged_events(member_or_empty(a, "events"@), cmd);
        let enabled = JsonModel::Bool(true);
        lemma_two_inserts(x, "enabled"@, "events"@, enabled, events);
        lemma_insert_changes(x, "enabled"@, enabled);
        lemma_insert_changes(x, "events"@, events);
        assert(a.get("events"@) == Some(events));
        assert(member_or_empty(a, "events"@) == events);
        let y = b->Object_0;
        let kept = b.get("events"@)->0;
        lemma_alike_events(events, kept, cmd, (depth - 1) as nat);
        lemma_insert_changes(y, "enabled"@, enabled);
        lemma_insert_changes(y, "events"@, kept);
    }
}

/// A configuration that has the hook that runs `cmd` still does when it is
/// read again: installing has nothing to do.
pub proof fn lemma_alike_config(a: JsonModel, b: JsonModel, cmd: Seq<char>, depth: nat)
    requires
        alike(a, b, depth),
        depth > 5,
        merged_config(a, cmd) == a,
    ensures
        merged_config(b, cmd) == b,
{
    lemma_alike_member(a, b, "hooks"@, depth);
    if let JsonModel::Object(x) = a {
        let section = merged_section(member_or_empty(a, "hooks"@), cmd);
        lemma_insert_changes(x, "hooks"@, section);
        assert(a.get("hooks"@) == Some(section));
        assert(member_or_empty(a, "hooks"@) == section);
        let kept = b.get("hooks"@)->0;
        lemma_alike_section(section, kept, cmd, (depth - 1) as nat);
        lemma_insert_changes(b->Object_0, "hooks"@, kept);
    }
}

/// Whether hooks are found does not change when a configuration is read
/// again.
pub proof fn lemma_alike_found(a: JsonModel, b: JsonModel, event: Seq<char>, depth: nat)
    requires
        alike(a, b, depth),
        depth > 5,
    ensures
        event_runs_checkpoint(b, event) == event_runs_checkpoint(a, event),
{
    lemma_alike_member(a, b, "hooks"@, depth);
    let x = event_blocks(a, event);
    let y = event_blocks(b, event);
    let inner = (depth - 4) as nat;
    assert(items_alike(x, y, inner)) by {
        if let Some(section) = a.get("hooks"@) {
            let kept = b.get("hooks"@)->0;
            lemma_alike_member(section, kept, "events"@, (depth - 1) as nat);
            if let Some(events) = section.get("events"@) {
                lemma_alike_items(
                    events,
                    kept.get("events"@)->0,
                    event,
                    (depth - 2) as nat,
                );
            }
        }
    }
    assert forall|i: int| 0 <= i < x.len() implies block_runs_checkpoint(#[trigger] x[i])
        == block_runs_checkpoint(y[i]) by {
        assert(alike(x[i], y[i], inner));
        lemma_alike_block_found(x[i], y[i], inner);
    }
    if blocks_run_checkpoint(x) {
        let i = choose|i: int| 0 <= i < x.len() && block_runs_checkpoint(#[trigger] x[i]);
        assert(block_runs_checkpoint(y[i]));
    }
    if blocks_run_checkpoint(y) {
        let i = choose|i: int| 0 <= i < y.len() && block_runs_checkpoint(#[trigger] y[i]);
        assert(block_runs_checkpoint(x[i]));
    }
}

/// Whether a matcher block has a hook that runs a git-ai checkpoint does not
/// change.
proof fn lemma_alike_block_found(a: JsonModel, b: JsonModel, depth: nat)
    requires
        alike(a, b, depth),
        depth > 1,
    ensures
        block_runs_checkpoint(b) == block_runs_checkpoint(a),
{
    let x = a.items_at("hooks"@);
    let y = b.items_at("hooks"@);
    lemma_alike_items(a, b, "hooks"@, depth);
    assert forall|j: int| 0 <= j < x.len() implies runs_checkpoint(#[trigger] x[j])
        == runs_checkpoint(y[j]) by {
        assert(alike(x[j], y[j], (depth - 2) as nat));
        lemma_alike_member(x[j], y[j], "command"@, (depth - 2) as nat);
    }
    if block_runs_checkpoint(a) {
        let j = choose|j: int|
            0 <= j < a.items_at("hooks"@).len() && runs_checkpoint(
                #[trigger] a.items_at("hooks"@)[j],
            );
        assert(runs_checkpoint(x[j]));
        assert(runs_checkpoint(b.items_at("hooks"@)[j]));
    }
    if block_runs_checkpoint(b) {
        let j = choose|j: int|
            0 <= j < b.items_at("hooks"@).len() && runs_checkpoint(
                #[trigger] b.items_at("hooks"@)[j],
            );
        assert(runs_checkpoint(y[j]));
        assert(runs_checkpoint(a.items_at("hooks"@)[j]));
        assert(runs_checkpoint(x[j]));
    }
}

/// Objects that are alike stay so with members that are.
proof fn lemma_alike_insert(
    x: Map<Seq<char>, JsonModel>,
    y: Map<Seq<char>, JsonModel>,
    key: Seq<char>,
    a: JsonModel,
    b: JsonModel,
    depth: nat,
)
    requires
        depth > 0,
        alike(JsonModel::Object(x), JsonModel::Object(y), depth),
        alike(a, b, (depth - 1) as nat),
    ensures
        alike(JsonModel::Object(x.insert(key, a)), JsonModel::Object(y.insert(key, b)), depth),
{
    let p = x.insert(key, a);
    let q = y.insert(key, b);
    assert(p.dom() =~= q.dom());
    assert forall|k: Seq<char>| p.contains_key(k) implies alike(
        #[trigger] p[k],
        q[k],
        (depth - 1) as nat,
    ) by {
        if k != key {
            assert(alike(x[k], y[k], (depth - 1) as nat));
        }
    }
}

/// The hooks that are left of hooks that are alike are alike.
proof fn lemma_alike_without_ours(a: Seq<JsonModel>, b: Seq<JsonModel>, depth: nat)
    requires
        items_alike(a, b, depth),
    ensures
        items_alike(without_ours(a), without_ours(b), depth),
    decreases a.len(),
{
    if a.len() > 0 {
        let n = a.len() - 1;
        assert(alike(a[n], b[n], depth));
        lemma_alike_member(a[n], b[n], "command"@, depth);
        assert forall|i: int| 0 <= i < n implies alike(
            #[trigger] a.drop_last()[i],
            b.drop_last()[i],
            depth,
        ) by {
            assert(alike(a[i], b[i], depth));
        }
        lemma_alike_without_ours(a.drop_last(), b.drop_last(), depth);
        let x = without_ours(a);
        let y = without_ours(b);
        assert forall|i: int| 0 <= i < x.len() implies alike(#[trigger] x[i], y[i], depth) by {
            if i < without_ours(a.drop_last()).len() {
                assert(alike(
                    without_ours(a.drop_last())[i],
                    without_ours(b.drop_last())[i],
                    depth,
                ));
            }
        }
    }
}

/// What is left of matcher blocks that are alike is alike.
proof fn lemma_alike_stripped_block(a: JsonModel, b: JsonModel, depth: nat)
    requires
        alike(a, b, depth),
        depth > 1,
    ensures
        is_emptied(a) == is_emptied(b),
        alike(stripped_block(a), stripped_block(b), depth),
{
    lemma_alike_member(a, b, "hooks"@, depth);
    lemma_alike_items(a, b, "hooks"@, depth);
    let x = a.items_at("hooks"@);
    let y = b.items_at("hooks"@);
    lemma_alike_without_ours(x, y, (depth - 2) as nat);
    if a is Object {
        if let Some(JsonModel::Array(_)) = a.get("hooks"@) {
            lemma_alike_insert(
                a->Object_0,
                b->Object_0,
                "hooks"@,
                JsonModel::Array(without_ours(x)),
                JsonModel::Array(without_ours(y)),
                depth,
            );
        }
    }
}

/// What is left of the matcher blocks of an event that are alike is alike.
proof fn lemma_alike_stripped_blocks(a: Seq<JsonModel>, b: Seq<JsonModel>, depth: nat)
    requires
        items_alike(a, b, depth),
        depth > 1,
    ensures
        items_alike(stripped_blocks(a), stripped_blocks(b), depth),
    decreases a.len(),
{
    if a.len() > 0 {
        let n = a.len() - 1;
        assert(alike(a[n], b[n], depth));
        lemma_alike_stripped_block(a[n], b[n], depth);
        assert forall|i: int| 0 <= i < n implies alike(
            #[trigger] a.drop_last()[i],
            b.drop_last()[i],
            depth,
        ) by {
            assert(alike(a[i], b[i], depth));
        }
        lemma_alike_stripped_blocks(a.drop_last(), b.drop_last(), depth);
        let x = stripped_blocks(a);
        let y = stripped_blocks(b);
        assert forall|i: int| 0 <= i < x.len() implies alike(#[trigger] x[i], y[i], depth) by {
            if i < stripped_blocks(a.drop_last()).len() {
                assert(alike(
                    stripped_blocks(a.drop_last())[i],
                    stripped_blocks(b.drop_last())[i],
                    depth,
                ));
            }
        }
    }
}

/// What is left of events that are alike is alike.
proof fn lemma_alike_stripped_event(
    x: Map<Seq<char>, JsonModel>,
    y: Map<Seq<char>, JsonModel>,
    event: Seq<char>,
    depth: nat,
)
    requires
        alike(JsonModel::Object(x), JsonModel::Object(y), depth),
        depth > 3,
    ensures
        alike(
            JsonModel::Object(stripped_event(x, event)),
            JsonModel::Object(stripped_event(y, event)),
            depth,
        ),
{
    let a = JsonModel::Object(x);
    let b = JsonModel::Object(y);
    lemma_alike_member(a, b, event, depth);
    lemma_alike_items(a, b, event, depth);
    if let Some(JsonModel::Array(_)) = a.get(event) {
        let p = a.items_at(event);
        let q = b.items_at(event);
        lemma_alike_stripped_blocks(p, q, (depth - 2) as nat);
        lemma_alike_insert(
            x,
            y,
            event,
            JsonModel::Array(stripped_blocks(p)),
            JsonModel::Array(stripped_blocks(q)),
            depth,
        );
    }
}

/// What removing leaves of configurations that are alike is alike.
pub proof fn lemma_alike_stripped(a: JsonModel, b: JsonModel, depth: nat)
    requires
        alike(a, b, depth),
        depth > 5,
    ensures
        alike(stripped_config(a), stripped_config(b), depth),
{
    lemma_alike_member(a, b, "hooks"@, depth);
    if a.get("hooks"@) matches Some(JsonModel::Object(_)) {
        let p = a.get("hooks"@)->0;
        let q = b.get("hooks"@)->0;
        lemma_alike_member(p, q, "events"@, (depth - 1) as nat);
        if let Some(events) = p.get("events"@) {
            let kept = q.get("events"@)->0;
            if events is Object {
                let x = events->Object_0;
                let y = kept->Object_0;
                lemma_alike_stripped_event(x, y, "PreToolUse"@, (depth - 2) as nat);
                lemma_alike_stripped_event(
                    stripped_event(x, "PreToolUse"@),
                    stripped_event(y, "PreToolUse"@),
                    "PostToolUse"@,
                    (depth - 2) as nat,
                );
            }
            lemma_alike_insert(
                p->Object_0,
                q->Object_0,
                "events"@,
                stripped_events(events),
                stripped_events(kept),
                (depth - 1) as nat,
            );
            lemma_alike_insert(
                a->Object_0,
                b->Object_0,
                "hooks"@,
                JsonModel::Object(p->Object_0.insert("events"@, stripped_events(events))),
                JsonModel::Object(q->Object_0.insert("events"@, stripped_events(kept))),
                depth,
            );
        }
    }
}

/// Two values that are alike a third are alike.
pub proof fn lemma_alike_trans(a: JsonModel, b: JsonModel, c: JsonModel, depth: nat)
    requires
        alike(a, b, depth),
        alike(b, c, depth),
    ensures
        alike(a, c, depth),
    decreases depth,
{
    match (a, b, c) {
        (JsonModel::Array(x), JsonModel::Array(y), JsonModel::Array(z)) => {
            assert forall|i: int| 0 <= i < x.len() implies alike(
                #[trigger] x[i],
                z[i],
                (depth - 1) as nat,
            ) by {
                assert(alike(y[i], z[i], (depth - 1) as nat));
                lemma_alike_trans(x[i], y[i], z[i], (depth - 1) as nat);
            }
        },
        (JsonModel::Object(x), JsonModel::Object(y), JsonModel::Object(z)) => {
            assert forall|key: Seq<char>| x.contains_key(key) implies alike(
                #[trigger] x[key],
                z[key],
                (depth - 1) as nat,
            ) by {
                assert(y.contains_key(key));
                assert(alike(y[key], z[key], (depth - 1) as nat));
                lemma_alike_trans(x[key], y[key], z[key], (depth - 1) as nat);
            }
        },
        _ => {},
    }
}

} // verus!
