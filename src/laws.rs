use crate::command::CommandView;
use crate::store::{apply_command, log_commands, replay, KvStoreCore};
use vstd::prelude::*;

verus! {

/// The value of the latest write of `k` among `cmds`: `Some` of its value when
/// that write is a `Put`, `None` when it is a removal or when there is none.
pub open spec fn latest_value(cmds: Seq<CommandView>, k: Seq<char>) -> Option<Seq<char>>
    decreases cmds.len(),
{
    if cmds.len() == 0 {
        None
    } else if cmds.last().key() == k {
        match cmds.last() {
            CommandView::Put { value, .. } => Some(value),
            CommandView::Remove { .. } => None,
        }
    } else {
        latest_value(cmds.drop_last(), k)
    }
}

/// After any sequence of writes, a key holds the value of its most recent `Put`
/// unless a removal came after it; otherwise it is absent.
pub proof fn lemma_latest_write_wins(cmds: Seq<CommandView>, k: Seq<char>)
    ensures
        replay(cmds).contains_key(k) == latest_value(cmds, k).is_some(),
        replay(cmds).contains_key(k) ==> replay(cmds)[k] == latest_value(cmds, k).unwrap(),
    decreases cmds.len(),
{
    if cmds.len() > 0 {
        lemma_latest_write_wins(cmds.drop_last(), k);
    }
}

/// A store answers each key with the value of the latest `Put` of its log
/// unless a removal of the key came after it.
pub proof fn lemma_store_latest_write_wins(store: &KvStoreCore, k: Seq<char>)
    requires
        store.wf(),
    ensures
        store.contents().contains_key(k) == latest_value(log_commands(store.log()), k).is_some(),
        store.contents().contains_key(k) ==> store.contents()[k] == latest_value(
            log_commands(store.log()),
            k,
        ).unwrap(),
{
    store.lemma_contents_are_replayed_log();
    lemma_latest_write_wins(log_commands(store.log()), k);
}

/// Reopening a store replays its log files: a store rebuilt from the same
/// records holds the same contents, so every `get` answers as before.
pub proof fn lemma_reopen_same_contents(before: &KvStoreCore, reopened: &KvStoreCore)
    requires
        before.wf(),
        reopened.wf(),
        log_commands(before.log()) == log_commands(reopened.log()),
    ensures
        before.contents() == reopened.contents(),
{
    before.lemma_contents_are_replayed_log();
    reopened.lemma_contents_are_replayed_log();
}

/// A `get` right after a `set` of the key returns the value set.
pub proof fn lemma_set_then_get(m: Map<Seq<char>, Seq<char>>, k: Seq<char>, v: Seq<char>)
    ensures
        apply_command(m, CommandView::Put { key: k, value: v }).contains_key(k),
        apply_command(m, CommandView::Put { key: k, value: v })[k] == v,
{
}

/// Of two `set`s of one key, the later one wins.
pub proof fn lemma_set_twice(m: Map<Seq<char>, Seq<char>>, k: Seq<char>, v1: Seq<char>, v2: Seq<char>)
    ensures
        apply_command(
            apply_command(m, CommandView::Put { key: k, value: v1 }),
            CommandView::Put { key: k, value: v2 },
        )[k] == v2,
{
}

/// After a `set` and then a `remove` of a key, the key is absent.
pub proof fn lemma_set_then_remove(m: Map<Seq<char>, Seq<char>>, k: Seq<char>, v: Seq<char>)
    ensures
        !apply_command(
            apply_command(m, CommandView::Put { key: k, value: v }),
            CommandView::Remove { key: k },
        ).contains_key(k),
{
}

} // verus!
