use exportsnap::export::history::{merge, Record, RecordKind};
use exportsnap::export::model::{ChatHistory, ChatMessage, Conversation, ConversationId, MediaKind, Snap, SnapHistory, Timestamp};

fn at(text: &str) -> Timestamp {
    Timestamp::parse(text).expect("the synthesized timestamp parses")
}

fn chat_msg(created: Option<Timestamp>, created_epoch_ms: Option<i64>) -> ChatMessage {
    ChatMessage {
        from: None,
        media_type: MediaKind::Text,
        created,
        created_epoch_ms,
        content: None,
        conversation_title: None,
        is_sender: false,
        is_saved: false,
        media_ids: None,
    }
}

fn snap_msg(created: Option<Timestamp>, created_epoch_ms: Option<i64>) -> Snap {
    Snap { from: None, media_type: MediaKind::Media, created, created_epoch_ms, conversation_title: None, is_sender: false }
}

fn merge_one_thread(chat_records: Vec<ChatMessage>, snap_records: Vec<Snap>) -> Vec<Record> {
    let chat = ChatHistory { conversations: vec![Conversation { id: ConversationId::new("k"), records: chat_records }] };
    let snap = SnapHistory { conversations: vec![Conversation { id: ConversationId::new("k"), records: snap_records }] };
    let merged = merge(&chat, &snap);
    assert_eq!(merged.threads.len(), 1, "the single conversation becomes one thread");
    merged.threads.into_iter().next().expect("one thread").records
}

fn kinds(records: &[Record]) -> Vec<RecordKind> {
    records.iter().map(Record::kind).collect()
}

#[test]
fn records_interleave_by_resolved_created_across_both_sources() {
    let records = merge_one_thread(
        vec![chat_msg(Some(at("2021-03-04 09:00:00 UTC")), None), chat_msg(Some(at("2021-03-04 11:00:00 UTC")), None)],
        vec![snap_msg(Some(at("2021-03-04 08:00:00 UTC")), None), snap_msg(Some(at("2021-03-04 10:00:00 UTC")), None)],
    );
    assert_eq!(kinds(&records), vec![RecordKind::Snap, RecordKind::Chat, RecordKind::Snap, RecordKind::Chat]);
}

#[test]
fn an_epoch_only_record_resolving_to_the_same_second_sorts_after_the_created_only_one() {
    let records = merge_one_thread(
        vec![chat_msg(None, Some(1_614_848_400_000)), chat_msg(Some(at("2021-03-04 09:00:00 UTC")), None)],
        Vec::new(),
    );
    assert_eq!(records.len(), 2);
    assert_eq!(records[0].resolved_created(), records[1].resolved_created(), "both resolve to the same instant");
    assert!(records[0].created().is_some(), "the created-stated record sorts first");
    assert_eq!(records[1].created_epoch_ms(), Some(1_614_848_400_000));
    assert!(records[1].created().is_none());
}

#[test]
fn records_with_no_timestamp_at_all_sort_after_every_timestamped_one() {
    let records = merge_one_thread(
        vec![chat_msg(None, None), chat_msg(Some(at("2021-03-04 09:00:00 UTC")), None)],
        vec![snap_msg(None, None)],
    );
    assert_eq!(kinds(&records), vec![RecordKind::Chat, RecordKind::Chat, RecordKind::Snap]);
    assert!(records[0].resolved_created().is_some(), "the timestamped record sorts first");
    assert!(records[1].resolved_created().is_none(), "then the no-timestamp chat, before the no-timestamp snap (kind tiebreak)");
    assert!(records[2].resolved_created().is_none());
}

#[test]
fn threads_come_in_the_order_of_their_keys_and_keep_every_record() {
    let chat = ChatHistory {
        conversations: vec![
            Conversation { id: ConversationId::new("b"), records: vec![chat_msg(None, None)] },
            Conversation { id: ConversationId::new("a"), records: vec![chat_msg(None, None), chat_msg(None, Some(5))] },
        ],
    };
    let snap = SnapHistory { conversations: vec![Conversation { id: ConversationId::new("c"), records: vec![snap_msg(None, None)] }] };
    let merged = merge(&chat, &snap);
    let shape: Vec<(&str, usize)> = merged.threads.iter().map(|thread| (thread.id.as_str(), thread.records.len())).collect();
    assert_eq!(shape, vec![("a", 2), ("b", 1), ("c", 1)]);
}
