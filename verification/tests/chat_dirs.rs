use exportsnap::export::chat_dirs::{add_dir, dir_name, name_dir, Conversations, NO_CONVERSATION_DIR};
use exportsnap::export::chat_fix::RecordedDirs;
use exportsnap::export::model::ConversationId;
use exportsnap::paths::FilePath;

const CHAT_ROOT: &str = "/out/chat";

fn assigned(keys: &[&str]) -> Vec<FilePath> {
    assigned_with(&RecordedDirs::empty(), keys)
}

fn assigned_with(recorded: &RecordedDirs, keys: &[&str]) -> Vec<FilePath> {
    let mut conversations = Conversations::new(FilePath::new(CHAT_ROOT), &recorded.named, &recorded.occupied);
    keys.iter().map(|key| conversations.dir(&ConversationId::new(key))).collect()
}

fn recorded(named: &[(&str, &str)], absent: &[&str]) -> RecordedDirs {
    let mut dirs = RecordedDirs::empty();
    for (key, dir) in named {
        name_dir(&mut dirs.named, &ConversationId::new(key), FilePath::new(dir));
        add_dir(&mut dirs.occupied, FilePath::new(dir));
    }
    for dir in absent {
        add_dir(&mut dirs.occupied, FilePath::new(dir));
    }
    dirs
}

fn paths(texts: &[&str]) -> Vec<FilePath> {
    texts.iter().map(|text| FilePath::new(text)).collect()
}

#[test]
fn a_key_that_cleans_to_the_reserved_bucket_is_suffixed_away_from_it() {
    assert_eq!(dir_name(NO_CONVERSATION_DIR), NO_CONVERSATION_DIR, "cleaning alone does not move it");
    assert_eq!(assigned(&[NO_CONVERSATION_DIR]), paths(&["/out/chat/_no-conversation_2"]));
}

#[test]
fn a_key_spelling_a_minted_suffix_does_not_land_on_it() {
    assert_eq!(assigned(&["a", "a.", "a_2"]), paths(&["/out/chat/a", "/out/chat/a_2", "/out/chat/a_2_2"]));
}

#[test]
fn one_key_asked_for_twice_keeps_one_directory() {
    assert_eq!(assigned(&["friend", "friend"]), paths(&["/out/chat/friend", "/out/chat/friend"]));
}

#[test]
fn two_keys_differing_only_in_case_get_two_directories_everywhere() {
    let dirs = assigned(&["Friend", "friend", "FRIEND"]);
    let mut folded: Vec<String> = dirs.iter().filter_map(|dir| dir.file_name()).map(|name| name.to_ascii_lowercase()).collect();
    folded.sort();
    folded.dedup();
    assert_eq!(folded.len(), 3, "two of these share one directory once a filesystem folds case: {dirs:?}");
    assert_eq!(dirs[0].file_name().map(String::as_str), Some("Friend"));
    assert_eq!(dirs[2].file_name().map(String::as_str), Some("FRIEND_3"));
}

#[test]
fn a_directory_recorded_under_another_out_root_is_not_adopted() {
    assert_eq!(assigned_with(&recorded(&[("a?b", "/elsewhere/chat/a_b_2")], &[]), &["a?b"]), paths(&["/out/chat/a_b"]));
    assert_eq!(assigned_with(&recorded(&[("a?b", "/out/chat/a_b_2")], &[]), &["a?b"]), paths(&["/out/chat/a_b_2"]));
}

#[test]
fn an_unadoptable_record_falls_through_to_the_next_candidate() {
    let bucketed =
        recorded(&[("friend-handle", "/out/chat/_no-conversation/2021/03"), ("friend-handle", "/out/chat/friend-handle_7")], &[]);
    assert_eq!(assigned_with(&bucketed, &["friend-handle"]), paths(&["/out/chat/friend-handle_7"]));

    let stale = recorded(&[("friend-handle", "/a/chat/friend-handle_7"), ("friend-handle", "/out/chat/friend-handle_7")], &[]);
    assert_eq!(assigned_with(&stale, &["friend-handle"]), paths(&["/out/chat/friend-handle_7"]));
}

#[test]
fn a_departed_conversations_directory_is_not_handed_to_a_new_key() {
    let left_behind = recorded(&[("a?b", "/out/chat/a_b_2")], &["/out/chat/a_b"]);
    assert_eq!(assigned_with(&left_behind, &["a?b", "a:b"]), paths(&["/out/chat/a_b_2", "/out/chat/a_b_3"]));
}

#[test]
fn a_record_naming_the_reserved_bucket_cannot_hand_it_to_a_conversation() {
    let forged = recorded(&[("friend", "/out/chat/_no-conversation"), ("other", "/out/chat/other_4")], &[]);
    assert_eq!(
        assigned_with(&forged, &["friend", NO_CONVERSATION_DIR, "other"]),
        paths(&["/out/chat/friend", "/out/chat/_no-conversation_2", "/out/chat/other_4"])
    );
}

#[test]
fn a_key_spelling_an_adopted_name_does_not_land_on_it() {
    let kept = recorded(&[("a?b", "/out/chat/a_b_2")], &[]);
    assert_eq!(
        assigned_with(&kept, &["a?b", "a_b_2", "a/b"]),
        paths(&["/out/chat/a_b_2", "/out/chat/a_b_2_2", "/out/chat/a_b"])
    );
}

#[test]
fn an_adopted_name_is_claimed_through_the_case_fold() {
    let kept = recorded(&[("A", "/out/chat/Friend")], &[]);
    assert_eq!(assigned_with(&kept, &["A", "friend"]), paths(&["/out/chat/Friend", "/out/chat/friend_2"]));
}

#[test]
fn a_shouted_key_cannot_take_the_no_conversation_bucket_either() {
    let dirs = assigned(&["_NO-CONVERSATION"]);
    assert_eq!(dirs[0].file_name().map(String::as_str), Some("_NO-CONVERSATION_2"));
}
