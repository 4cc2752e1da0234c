use mls_chat::codec::{open, seal, CodecError};
use mls_chat::group::{AddOutcome, ChatError, ChatGroup, ChatMessage};
use mls_chat::identity::{IdentityKey, UserName};
use mls_chat::state::ChatState;

fn team() -> String {
    "team".to_string()
}

fn alice_with_team() -> ChatState {
    let mut s = ChatState::new();
    s.init_user(UserName::Alice);
    s.create_group(team()).unwrap();
    s
}

#[test]
fn scenario_create_add_send_list() {
    let mut s = ChatState::new();
    s.init_user(UserName::Alice);
    s.init_user(UserName::Bob);
    s.init_user(UserName::Alice);
    assert_eq!(s.create_group(team()), Ok(()));
    let info = s.show_group_info(&team()).unwrap();
    assert_eq!(info.epoch, 1);
    assert_eq!(info.members, vec![UserName::Alice]);
    assert_eq!(s.add_member(&team(), UserName::Bob), Ok(AddOutcome::Added));
    let info = s.show_group_info(&team()).unwrap();
    assert_eq!(info.epoch, 2);
    assert_eq!(info.members, vec![UserName::Alice, UserName::Bob]);
    assert_eq!(s.send_message(&team(), b"hi"), Ok(()));
    let msgs = s.list_messages(&team()).unwrap();
    assert_eq!(msgs.len(), 1);
    assert_eq!(msgs[0].sender, UserName::Alice);
    assert_eq!(msgs[0].epoch, 2);
    assert_eq!(msgs[0].plaintext, b"hi".to_vec());
    assert_eq!(s.show_group_info(&team()).unwrap().message_count, 1);
}

#[test]
fn send_before_init_is_not_initialized() {
    let mut s = ChatState::new();
    assert_eq!(s.send_message(&team(), b"hi"), Err(ChatError::NotInitialized));
}

#[test]
fn create_before_init_is_not_initialized() {
    let mut s = ChatState::new();
    assert_eq!(s.create_group(team()), Err(ChatError::NotInitialized));
    assert!(s.groups.is_empty());
}

#[test]
fn add_existing_member_is_a_notice() {
    let mut s = alice_with_team();
    let before = s.show_group_info(&team()).unwrap();
    let secret_before = s.groups[0].secrets.clone();
    assert_eq!(s.add_member(&team(), UserName::Alice), Ok(AddOutcome::AlreadyMember));
    let after = s.show_group_info(&team()).unwrap();
    assert_eq!(after.epoch, before.epoch);
    assert_eq!(after.tree_hash, before.tree_hash);
    assert_eq!(after.members, before.members);
    assert_eq!(s.groups[0].secrets, secret_before);
}

#[test]
fn add_twice_advances_once() {
    let mut s = alice_with_team();
    s.init_user(UserName::Bob);
    s.init_user(UserName::Alice);
    assert_eq!(s.add_member(&team(), UserName::Bob), Ok(AddOutcome::Added));
    let secret = s.groups[0].secrets.clone();
    assert_eq!(s.add_member(&team(), UserName::Bob), Ok(AddOutcome::AlreadyMember));
    assert_eq!(s.show_group_info(&team()).unwrap().epoch, 2);
    assert_eq!(s.groups[0].secrets, secret);
}

#[test]
fn add_member_without_identity() {
    let mut s = alice_with_team();
    assert_eq!(s.add_member(&team(), UserName::Bob), Err(ChatError::MemberNotInitialized));
    assert_eq!(s.show_group_info(&team()).unwrap().epoch, 1);
}

#[test]
fn add_member_to_unknown_group() {
    let mut s = alice_with_team();
    assert_eq!(s.add_member(&"other".to_string(), UserName::Alice), Err(ChatError::GroupNotFound));
}

#[test]
fn add_member_before_init() {
    let mut s = ChatState::new();
    assert_eq!(s.add_member(&team(), UserName::Bob), Err(ChatError::NotInitialized));
}

#[test]
fn send_by_non_member_is_refused() {
    let mut s = alice_with_team();
    s.init_user(UserName::Bob);
    assert_eq!(s.send_message(&team(), b"hello"), Err(ChatError::NotAMember));
    assert!(s.list_messages(&team()).unwrap().is_empty());
}

#[test]
fn send_to_unknown_group() {
    let mut s = alice_with_team();
    assert_eq!(s.send_message(&"other".to_string(), b"x"), Err(ChatError::GroupNotFound));
}

#[test]
fn list_and_info_of_unknown_group() {
    let s = alice_with_team();
    assert!(matches!(s.list_messages(&"other".to_string()), Err(ChatError::GroupNotFound)));
    assert!(matches!(s.show_group_info(&"other".to_string()), Err(ChatError::GroupNotFound)));
}

#[test]
fn epoch_counts_additions() {
    let mut s = alice_with_team();
    s.init_user(UserName::Bob);
    s.init_user(UserName::Alice);
    assert_eq!(s.show_group_info(&team()).unwrap().epoch, 1);
    s.add_member(&team(), UserName::Bob).unwrap();
    assert_eq!(s.show_group_info(&team()).unwrap().epoch, 2);
}

#[test]
fn secrets_differ_between_epochs() {
    let mut s = alice_with_team();
    s.init_user(UserName::Bob);
    s.init_user(UserName::Alice);
    let first = s.groups[0].secrets[0].clone();
    s.add_member(&team(), UserName::Bob).unwrap();
    assert_eq!(s.groups[0].secrets.len(), 2);
    assert_eq!(s.groups[0].secrets[0], first);
    assert_ne!(s.groups[0].secrets[1], first);
    assert_eq!(s.groups[0].secrets[1].len(), 16);
}

#[test]
fn reused_secret_is_extended() {
    let mut s = alice_with_team();
    s.init_user(UserName::Bob);
    s.init_user(UserName::Alice);
    let old = s.groups[0].secrets[0].clone();
    assert_eq!(s.add_member_with(&team(), UserName::Bob, old.clone()), Ok(AddOutcome::Added));
    let mut expected = old.clone();
    expected.push(0);
    assert_eq!(s.groups[0].secrets[1], expected);
    assert_eq!(s.show_group_info(&team()).unwrap().epoch, 2);
}

#[test]
fn empty_secret_is_extended() {
    let mut s = ChatState::new();
    s.init_user(UserName::Alice);
    s.init_user(UserName::Bob);
    s.init_user(UserName::Alice);
    assert_eq!(s.create_group_with(team(), vec![], vec![]), Ok(()));
    assert_eq!(s.groups[0].secrets[0], vec![0]);
    assert_eq!(s.groups[0].group_id, vec![0]);
    assert_eq!(s.add_member_with(&team(), UserName::Bob, vec![]), Ok(AddOutcome::Added));
    assert_eq!(s.groups[0].secrets[1], vec![0, 0]);
}

#[test]
fn tree_hash_follows_members_and_secret() {
    let mut s = ChatState::new();
    s.init_user(UserName::Bob);
    s.init_user(UserName::Alice);
    s.create_group_with(team(), vec![5], vec![1, 2, 3]).unwrap();
    assert_eq!(s.show_group_info(&team()).unwrap().tree_hash, vec![0, 0, 0, 1, 0, 0]);
    s.add_member_with(&team(), UserName::Bob, vec![9, 8]).unwrap();
    assert_eq!(s.show_group_info(&team()).unwrap().tree_hash, vec![0, 0, 0, 2, 0, 1, 1]);
}

#[test]
fn message_ids_stay_unique() {
    let mut s = alice_with_team();
    s.send_message_with(&team(), b"a", vec![4], 1).unwrap();
    s.send_message_with(&team(), b"b", vec![4], 2).unwrap();
    s.send_message_with(&team(), b"c", vec![4], 3).unwrap();
    let ids: Vec<Vec<u8>> = s.list_messages(&team()).unwrap().iter().map(|m| m.id.clone()).collect();
    assert_eq!(ids, vec![vec![4], vec![4, 0], vec![4, 0, 0]]);
}

#[test]
fn messages_read_back_across_epochs() {
    let mut s = alice_with_team();
    s.send_message(&team(), b"first").unwrap();
    s.init_user(UserName::Bob);
    s.init_user(UserName::Alice);
    s.add_member(&team(), UserName::Bob).unwrap();
    s.init_user(UserName::Bob);
    s.send_message(&team(), b"second").unwrap();
    let msgs = s.list_messages(&team()).unwrap();
    assert_eq!(msgs.len(), 2);
    assert_eq!((msgs[0].sender, msgs[0].epoch), (UserName::Alice, 1));
    assert_eq!(msgs[0].plaintext, b"first".to_vec());
    assert_eq!((msgs[1].sender, msgs[1].epoch), (UserName::Bob, 2));
    assert_eq!(msgs[1].plaintext, b"second".to_vec());
    assert!(msgs[0].timestamp <= msgs[1].timestamp);
    assert!(msgs[1].timestamp > 0);
    assert_ne!(s.groups[0].messages[0].ciphertext[4..].to_vec(), b"first".to_vec());
}

#[test]
fn timestamps_never_go_back() {
    let mut s = alice_with_team();
    s.send_message_with(&team(), b"a", vec![1], 500).unwrap();
    s.send_message_with(&team(), b"b", vec![2], 100).unwrap();
    s.send_message_with(&team(), b"c", vec![3], 900).unwrap();
    let stamps: Vec<i64> = s.list_messages(&team()).unwrap().iter().map(|m| m.timestamp).collect();
    assert_eq!(stamps, vec![500, 500, 900]);
}

#[test]
fn groups_get_distinct_ids() {
    let mut s = alice_with_team();
    s.create_group("other".to_string()).unwrap();
    let a = s.show_group_info(&team()).unwrap().group_id;
    let b = s.show_group_info(&"other".to_string()).unwrap().group_id;
    assert_eq!(a.len(), 16);
    assert_ne!(a, b);
}

#[test]
fn recreating_a_group_is_refused() {
    let mut s = alice_with_team();
    s.send_message(&team(), b"x").unwrap();
    let before = s.show_group_info(&team()).unwrap();
    assert_eq!(s.create_group(team()), Err(ChatError::GroupExists));
    assert_eq!(s.groups.len(), 1);
    let after = s.show_group_info(&team()).unwrap();
    assert_eq!(after.message_count, 1);
    assert_eq!(after.group_id, before.group_id);
}

#[test]
fn colliding_group_id_is_extended() {
    let mut s = alice_with_team();
    let id = s.groups[0].group_id.clone();
    assert_eq!(s.create_group_with("other".to_string(), id.clone(), vec![7]), Ok(()));
    let mut expected = id;
    expected.push(0);
    assert_eq!(s.groups[1].group_id, expected);
}

#[test]
fn init_replaces_key_material() {
    let mut s = ChatState::new();
    s.init_user_with(UserName::Alice, vec![1], vec![2], vec![3]);
    s.init_user_with(UserName::Bob, vec![4], vec![5], vec![6]);
    s.init_user_with(UserName::Alice, vec![7], vec![8], vec![9]);
    assert_eq!(s.keys.len(), 2);
    assert_eq!(s.keys[0].user, UserName::Alice);
    assert_eq!(s.keys[0].public_key, vec![8]);
    assert_eq!(s.keys[1].private_key, vec![6]);
    assert_eq!(s.current_user, Some(UserName::Alice));
}

#[test]
fn init_draws_fresh_keys() {
    let mut s = ChatState::new();
    s.init_user(UserName::Alice);
    assert_eq!(s.keys[0].public_key.len(), 16);
    assert_ne!(s.keys[0].public_key, s.keys[0].private_key);
}

fn parts_of(s: &ChatState) -> (Option<UserName>, Vec<ChatGroup>, Vec<IdentityKey>) {
    let groups = s
        .groups
        .iter()
        .map(|g| ChatGroup {
            name: g.name.clone(),
            group_id: g.group_id.clone(),
            epoch: g.epoch,
            secrets: g.secrets.clone(),
            tree_hash: g.tree_hash.clone(),
            members: g.members.clone(),
            messages: g
                .messages
                .iter()
                .map(|m| ChatMessage {
                    id: m.id.clone(),
                    sender: m.sender,
                    ciphertext: m.ciphertext.clone(),
                    timestamp: m.timestamp,
                    group_id: m.group_id.clone(),
                    epoch: m.epoch,
                })
                .collect(),
        })
        .collect();
    let keys = s
        .keys
        .iter()
        .map(|k| IdentityKey {
            user: k.user,
            id: k.id.clone(),
            public_key: k.public_key.clone(),
            private_key: k.private_key.clone(),
        })
        .collect();
    (s.current_user, groups, keys)
}

#[test]
fn save_then_load_reproduces_state() {
    let mut s = alice_with_team();
    s.init_user(UserName::Bob);
    s.init_user(UserName::Alice);
    s.add_member(&team(), UserName::Bob).unwrap();
    s.send_message(&team(), b"hi").unwrap();
    let (u, g, k) = parts_of(&s);
    let loaded = ChatState::restore(u, g, k).unwrap();
    let a = s.show_group_info(&team()).unwrap();
    let b = loaded.show_group_info(&team()).unwrap();
    assert_eq!(loaded.groups.len(), s.groups.len());
    assert_eq!((a.epoch, a.members, a.group_id), (b.epoch, b.members, b.group_id));
    assert_eq!(loaded.list_messages(&team()).unwrap()[0].plaintext, b"hi".to_vec());
    assert_eq!(loaded.current_user, Some(UserName::Alice));
    assert_eq!(loaded.keys.len(), 2);
}

#[test]
fn load_refuses_broken_state() {
    let s = alice_with_team();
    let (u, mut g, k) = parts_of(&s);
    g[0].epoch = 3;
    assert!(matches!(ChatState::restore(u, g, k), Err(ChatError::StorageFailure)));
    let (u, mut g, k) = parts_of(&s);
    let dup = ChatGroup { name: g[0].name.clone(), group_id: vec![9], ..parts_of(&s).1.remove(0) };
    g.push(dup);
    assert!(matches!(ChatState::restore(u, g, k), Err(ChatError::StorageFailure)));
    let (u, g, mut k) = parts_of(&s);
    k.push(IdentityKey { user: UserName::Alice, id: vec![], public_key: vec![], private_key: vec![] });
    assert!(matches!(ChatState::restore(u, g, k), Err(ChatError::StorageFailure)));
    assert!(ChatState::restore(None, vec![], vec![]).is_ok());
}

#[test]
fn seal_exact_bytes() {
    assert_eq!(seal(b"hi", &vec![1, 2], 2), vec![0, 0, 0, 2, 0x69, 0x6b]);
    assert_eq!(seal(b"abc", &vec![0xff], 0x01020304), vec![1, 2, 3, 4, 0x9e, 0x9d, 0x9c]);
    assert_eq!(seal(b"", &vec![5], 7), vec![0, 0, 0, 7]);
}

#[test]
fn open_round_trip_and_epoch_mismatch() {
    let k = vec![3, 141, 59, 26];
    let c = seal(b"hello world", &k, 5);
    assert_eq!(open(&c, &k, 5), Ok(b"hello world".to_vec()));
    assert_eq!(open(&c, &k, 6), Err(CodecError::EpochMismatch));
    assert_eq!(open(&[0, 0], &k, 0), Err(CodecError::EpochMismatch));
}

#[test]
fn user_names() {
    assert_eq!(UserName::Alice.as_str(), "Alice");
    assert_eq!(UserName::Bob.as_str(), "Bob");
}
