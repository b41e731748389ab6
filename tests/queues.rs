use waitlist::{rank, Entry, MemberInfo, QueueError, QueueStore, QUEUE_LIFETIME_MICROS};

const A: u128 = 0xA;
const B: u128 = 0xB;
const C: u128 = 0xC;
const Q: u128 = 0x51;

fn entry(user_id: u128, has_priority: bool, joined_at: i64) -> Entry {
    Entry { user_id, has_priority, is_held: false, joined_at }
}

fn ids(members: &[MemberInfo]) -> Vec<(u128, u64)> {
    members.iter().map(|m| (m.id, m.order)).collect()
}

#[test]
fn organizer_scenario() {
    let mut store = QueueStore::new();
    let created = store.create_queue_at(A, "Lunch".to_string(), "line".to_string(), true, Q, 1_000);
    assert_eq!(created, Ok(Q));
    assert_eq!(ids(&store.get_members(Q).unwrap()), vec![(A, 1)]);

    assert_eq!(store.add_entry(Q, entry(B, false, 2_000)), Ok(()));
    assert_eq!(ids(&store.get_members(Q).unwrap()), vec![(A, 1), (B, 2)]);

    assert_eq!(store.add_entry(Q, entry(C, true, 3_000)), Ok(()));
    assert_eq!(ids(&store.get_members(Q).unwrap()), vec![(C, 1), (A, 2), (B, 3)]);

    assert_eq!(store.leave_from_queue(B, Q), Ok(()));
    assert_eq!(ids(&store.get_members(Q).unwrap()), vec![(C, 1), (A, 2)]);

    assert_eq!(store.delete_queue(B, Q), Err(QueueError::Forbidden));
    assert_eq!(store.delete_queue(A, Q), Ok(()));
    assert_eq!(store.get_members(Q), Err(QueueError::QueueNotFound));
    assert_eq!(store.queue_by_id(Q).err(), Some(QueueError::QueueNotFound));
}

#[test]
fn creator_is_first_member() {
    let mut store = QueueStore::new();
    store.create_queue_at(A, "Q".to_string(), "".to_string(), false, Q, 50).unwrap();
    let members = store.get_members(Q).unwrap();
    assert_eq!(
        members,
        vec![MemberInfo { id: A, order: 1, has_priority: false, is_held: false, joined_at: 50 }]
    );
    let q = store.queue_by_id(Q).unwrap();
    assert_eq!(q.id, Q);
    assert_eq!(q.name, "Q");
    assert_eq!(q.organizer_id, None);
    assert_eq!(q.created_at, 50);
    assert_eq!(q.expires_at, 50 + QUEUE_LIFETIME_MICROS);
    assert_eq!(QUEUE_LIFETIME_MICROS, 730 * 24 * 60 * 60 * 1_000_000);
}

#[test]
fn organizer_claim_is_recorded() {
    let mut store = QueueStore::new();
    store.create_queue_at(A, "Q".to_string(), "d".to_string(), true, Q, 0).unwrap();
    assert_eq!(store.queue_by_id(Q).unwrap().organizer_id, Some(A));
    assert_eq!(store.queue_by_id(Q).unwrap().description, "d");
}

#[test]
fn queue_without_organizer_cannot_be_deleted() {
    let mut store = QueueStore::new();
    store.create_queue_at(A, "Q".to_string(), "".to_string(), false, Q, 0).unwrap();
    assert_eq!(store.delete_queue(A, Q), Err(QueueError::Forbidden));
    assert!(store.queue_by_id(Q).is_ok());
}

#[test]
fn delete_missing_queue() {
    let mut store = QueueStore::new();
    assert_eq!(store.delete_queue(A, Q), Err(QueueError::QueueNotFound));
}

#[test]
fn taken_id_or_late_clock_is_unavailable() {
    let mut store = QueueStore::new();
    store.create_queue_at(A, "Q".to_string(), "".to_string(), true, Q, 0).unwrap();
    let again = store.create_queue_at(B, "R".to_string(), "".to_string(), true, Q, 5);
    assert_eq!(again, Err(QueueError::Unavailable));
    assert_eq!(store.queue_by_id(Q).unwrap().name, "Q");
    let late = store.create_queue_at(B, "R".to_string(), "".to_string(), true, 2, i64::MAX - 1);
    assert_eq!(late, Err(QueueError::Unavailable));
    assert!(store.queue_by_id(2).is_err());
}

#[test]
fn second_join_is_rejected() {
    let mut store = QueueStore::new();
    store.create_queue_at(A, "Q".to_string(), "".to_string(), true, Q, 0).unwrap();
    assert_eq!(store.add_entry(Q, entry(B, false, 1)), Ok(()));
    assert_eq!(store.get_members(Q).unwrap().len(), 2);
    assert_eq!(store.add_entry(Q, entry(B, true, 2)), Err(QueueError::AlreadyMember));
    assert_eq!(store.join_to_queue(B, Q), Err(QueueError::AlreadyMember));
    assert_eq!(store.get_members(Q).unwrap().len(), 2);
}

#[test]
fn join_missing_queue() {
    let mut store = QueueStore::new();
    assert_eq!(store.add_entry(Q, entry(B, false, 1)), Err(QueueError::QueueNotFound));
    assert_eq!(store.join_to_queue(B, Q), Err(QueueError::QueueNotFound));
}

#[test]
fn leave_when_absent() {
    let mut store = QueueStore::new();
    assert_eq!(store.leave_from_queue(B, Q), Err(QueueError::NotMember));
    store.create_queue_at(A, "Q".to_string(), "".to_string(), true, Q, 0).unwrap();
    assert_eq!(store.leave_from_queue(B, Q), Err(QueueError::NotMember));
    assert_eq!(store.leave_from_queue(A, Q), Ok(()));
    assert_eq!(store.get_members(Q).unwrap(), vec![]);
    assert_eq!(store.leave_from_queue(A, Q), Err(QueueError::NotMember));
}

#[test]
fn join_now_goes_last() {
    let mut store = QueueStore::new();
    store.create_queue_at(A, "Q".to_string(), "".to_string(), true, Q, 0).unwrap();
    assert_eq!(store.join_to_queue(B, Q), Ok(()));
    let members = store.get_members(Q).unwrap();
    assert_eq!(ids(&members), vec![(A, 1), (B, 2)]);
    assert!(!members[1].has_priority);
    assert!(!members[1].is_held);
    assert!(members[1].joined_at > 0);
}

#[test]
fn create_queue_with_fresh_id() {
    let mut store = QueueStore::new();
    let id = store.create_queue(A, "Q".to_string(), "d".to_string(), true).unwrap();
    assert_eq!((id >> 76) & 0xF, 4);
    let q = store.queue_by_id(id).unwrap();
    assert_eq!(q.organizer_id, Some(A));
    assert_eq!(q.expires_at - q.created_at, QUEUE_LIFETIME_MICROS);
    assert_eq!(ids(&store.get_members(id).unwrap()), vec![(A, 1)]);
    let other = store.create_queue(B, "R".to_string(), "".to_string(), false).unwrap();
    assert_ne!(id, other);
}

#[test]
fn my_queues_lists_memberships() {
    let mut store = QueueStore::new();
    store.create_queue_at(A, "one".to_string(), "".to_string(), true, 1, 0).unwrap();
    store.create_queue_at(B, "two".to_string(), "".to_string(), true, 2, 0).unwrap();
    store.create_queue_at(A, "three".to_string(), "".to_string(), true, 3, 0).unwrap();
    store.add_entry(2, entry(C, false, 1)).unwrap();
    let mine: Vec<u128> = store.my_queues(A).iter().map(|q| q.id).collect();
    assert_eq!(mine, vec![1, 3]);
    let theirs: Vec<u128> = store.my_queues(C).iter().map(|q| q.id).collect();
    assert_eq!(theirs, vec![2]);
    assert!(store.my_queues(0x99).is_empty());
    store.delete_queue(A, 3).unwrap();
    let mine: Vec<u128> = store.my_queues(A).iter().map(|q| q.id).collect();
    assert_eq!(mine, vec![1]);
}

#[test]
fn deleting_one_queue_keeps_others() {
    let mut store = QueueStore::new();
    store.create_queue_at(A, "one".to_string(), "".to_string(), true, 1, 0).unwrap();
    store.create_queue_at(A, "two".to_string(), "".to_string(), true, 2, 0).unwrap();
    store.add_entry(1, entry(B, false, 4)).unwrap();
    store.delete_queue(A, 1).unwrap();
    assert!(store.queue_by_id(1).is_err());
    assert_eq!(store.leave_from_queue(B, 1), Err(QueueError::NotMember));
    assert_eq!(ids(&store.get_members(2).unwrap()), vec![(A, 1)]);
}

#[test]
fn rank_orders_priority_then_tenure_then_id() {
    let entries = vec![
        entry(5, false, 10),
        entry(4, true, 30),
        entry(3, false, 5),
        entry(2, true, 30),
        entry(1, false, 10),
    ];
    let ranked = rank(&entries);
    assert_eq!(ids(&ranked), vec![(2, 1), (4, 2), (3, 3), (1, 4), (5, 5)]);
}

#[test]
fn rank_keeps_held_members_in_place() {
    let entries = vec![
        Entry { user_id: 1, has_priority: false, is_held: true, joined_at: 1 },
        entry(2, false, 2),
    ];
    let ranked = rank(&entries);
    assert_eq!(ids(&ranked), vec![(1, 1), (2, 2)]);
    assert!(ranked[0].is_held);
    assert!(!ranked[1].is_held);
}

#[test]
fn rank_of_nothing() {
    assert!(rank(&vec![]).is_empty());
}

#[test]
fn rank_covers_one_to_n() {
    let entries: Vec<Entry> = (0..20).map(|i| entry(100 - i, i % 3 == 0, (i * 7 % 5) as i64)).collect();
    let ranked = rank(&entries);
    assert_eq!(ranked.len(), 20);
    let orders: Vec<u64> = ranked.iter().map(|m| m.order).collect();
    assert_eq!(orders, (1..=20).collect::<Vec<u64>>());
    let mut seen: Vec<u128> = ranked.iter().map(|m| m.id).collect();
    seen.sort();
    let mut expected: Vec<u128> = entries.iter().map(|e| e.user_id).collect();
    expected.sort();
    assert_eq!(seen, expected);
}

#[test]
fn priority_beats_earlier_join() {
    let ranked = rank(&vec![entry(1, false, 0), entry(2, true, 1_000_000)]);
    assert_eq!(ids(&ranked), vec![(2, 1), (1, 2)]);
}

#[test]
fn earlier_join_ranks_first_within_class() {
    let ranked = rank(&vec![entry(1, true, 9), entry(2, true, 3)]);
    assert_eq!(ids(&ranked), vec![(2, 1), (1, 2)]);
}

#[test]
fn members_twice_agree() {
    let mut store = QueueStore::new();
    store.create_queue_at(A, "Q".to_string(), "".to_string(), true, Q, 0).unwrap();
    store.add_entry(Q, entry(C, true, 7)).unwrap();
    store.add_entry(Q, entry(B, false, 7)).unwrap();
    assert_eq!(store.get_members(Q), store.get_members(Q));
    let reordered = rank(&vec![entry(B, false, 7), entry(C, true, 7), entry(A, false, 0)]);
    assert_eq!(store.get_members(Q).unwrap(), reordered);
}
