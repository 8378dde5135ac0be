use smsgate::persist::{keys, Store};
use smsgate::bridge::forwarder::{add_to_blocklist, is_blocked, load_blocklist, remove_from_blocklist};
use smsgate::commands::builtin::block::{BlockCommand, BlockListCommand, UnblockCommand};
use smsgate::commands::{Command, CommandContext};
use smsgate::log_ring::LogRing;
use smsgate::modem::ModemStatus;
use smsgate::persist::mem::MemStore;
use smsgate::sms::sender::SmsSender;

fn reply(cmd: &dyn Command, args: &str, store: &MemStore) -> String {
    let status = ModemStatus::default();
    let q = SmsSender::new();
    let ctx = CommandContext {
        store,
        modem_status: &status,
        send_queue: &q,
        uptime_ms: 0,
        free_heap_bytes: 0,
        min_free_heap_bytes: 0,
        wifi_info: "",
        build_commit: "",
    };
    let mut log = LogRing::new();
    cmd.handle(args, &ctx, &mut log)
}

#[test]
fn block_command_normalises_and_emits_sentinel() {
    let store = MemStore::new();
    assert_eq!(reply(&BlockCommand, " 0086 138-0013 ", &store), "__BLOCK__:+861380013\nBlocked: +861380013");
}

#[test]
fn block_command_without_number_gives_usage() {
    let store = MemStore::new();
    assert_eq!(reply(&BlockCommand, "", &store), "Usage: /block <number>");
    assert_eq!(reply(&BlockCommand, "abc", &store), "Usage: /block <number>");
}

#[test]
fn unblock_command_of_blocked_number() {
    let mut store = MemStore::new();
    add_to_blocklist("+8613800138000", &mut store).unwrap();
    assert_eq!(
        reply(&UnblockCommand, "+86 138 0013 8000", &store),
        "__UNBLOCK__:+8613800138000\nUnblocked: +8613800138000"
    );
}

#[test]
fn unblock_command_of_unknown_number() {
    let store = MemStore::new();
    assert_eq!(reply(&UnblockCommand, "+1555", &store), "+1555 is not in the block list.");
    assert_eq!(reply(&UnblockCommand, " ", &store), "Usage: /unblock <number>");
}

#[test]
fn blocklist_command_lists_numbers() {
    let mut store = MemStore::new();
    assert_eq!(reply(&BlockListCommand, "", &store), "Block list is empty.");
    add_to_blocklist("+1555", &mut store).unwrap();
    add_to_blocklist("+1666", &mut store).unwrap();
    assert_eq!(reply(&BlockListCommand, "", &store), "Blocked numbers (2):\n+1555\n+1666");
}

#[test]
fn block_then_unblock_round_trip() {
    let mut store = MemStore::new();
    add_to_blocklist("+1555", &mut store).unwrap();
    assert!(is_blocked("+1555", &store));
    assert!(remove_from_blocklist("+1555", &mut store));
    assert!(!is_blocked("+1555", &store));
    assert!(load_blocklist(&store).is_empty());
    assert!(!remove_from_blocklist("+1555", &mut store));
}

#[test]
fn block_command_names() {
    assert_eq!(BlockCommand.name(), "block");
    assert_eq!(BlockListCommand.name(), "blocklist");
    assert_eq!(UnblockCommand.name(), "unblock");
    assert_eq!(BlockCommand.description(), "Block SMS from a number");
    assert_eq!(BlockListCommand.description(), "Show blocked numbers");
    assert_eq!(UnblockCommand.description(), "Unblock SMS from a number");
}

#[test]
fn block_list_is_stored_as_compact_json() {
    let mut store = MemStore::new();
    add_to_blocklist("+1555", &mut store).unwrap();
    add_to_blocklist("+1666", &mut store).unwrap();
    assert_eq!(store.load(keys::BLOCK_LIST).unwrap(), b"[\"+1555\",\"+1666\"]".to_vec());
}
