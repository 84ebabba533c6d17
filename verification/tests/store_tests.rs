use hl7_forge::config::StoreConfig;
use hl7_forge::hl7::parser::parse_with;
use hl7_forge::hl7::types::Hl7Message;
use hl7_forge::store::{MessageStore, StoreEvent, StoreInner};
use tokio::sync::broadcast::error::TryRecvError;

fn message(n: usize, size: usize) -> Hl7Message {
    let mut raw = format!("MSH|^~\\&|APP|FAC{}|||20240101||ADT^A01|CTL{}|P|2.5\rPID|||{}||Doe^Jane\rNTE|", n, n, n);
    while raw.len() < size {
        raw.push('x');
    }
    parse_with(&raw, "192.168.0.7:5000", format!("id-{}", n), n as i64).unwrap()
}

fn config(max_messages: usize, max_memory_mb: usize) -> StoreConfig {
    StoreConfig { max_messages, max_memory_mb }
}

#[test]
fn eviction_removes_the_oldest_tenth() {
    let mut store = StoreInner::new(100, 512 * 1024 * 1024);
    for n in 1..=100 {
        store.insert(message(n, 1024));
    }
    assert_eq!(store.count(), 100);
    assert_eq!(store.bytes(), 100 * 1024);
    store.insert(message(101, 1024));
    assert_eq!(store.count(), 91);
    assert_eq!(store.bytes(), 91 * 1024);
    let listed = store.list_summaries(0, 200);
    assert_eq!(listed.len(), 91);
    assert_eq!(listed[0].id, "id-101");
    assert_eq!(listed[90].id, "id-11");
    for n in 1..=10 {
        assert!(store.get_by_id(&format!("id-{}", n)).is_none());
    }
    assert!(store.get_by_id("id-11").is_some());
    for n in 102..=110 {
        store.insert(message(n, 1024));
    }
    assert_eq!(store.count(), 100);
    assert_eq!(store.bytes(), 100 * 1024);
}

#[test]
fn a_small_store_evicts_at_least_one() {
    let mut store = StoreInner::new(3, 1024 * 1024);
    for n in 1..=3 {
        store.insert(message(n, 100));
    }
    store.insert(message(4, 100));
    assert_eq!(store.count(), 3);
    let listed = store.list_summaries(0, 10);
    assert_eq!(listed[0].id, "id-4");
    assert_eq!(listed[2].id, "id-2");
}

#[test]
fn the_byte_limit_evicts_too() {
    let mut store = StoreInner::new(1000, 2048);
    store.insert(message(1, 1024));
    store.insert(message(2, 1024));
    assert_eq!(store.bytes(), 2048);
    assert_eq!(store.count(), 2);
    store.insert(message(3, 1024));
    assert_eq!(store.count(), 2);
    assert_eq!(store.bytes(), 2048);
    assert!(store.get_by_id("id-1").is_none());
}

#[test]
fn list_is_newest_first_with_offset_and_limit() {
    let mut store = StoreInner::new(100, 1024 * 1024);
    for n in 1..=5 {
        store.insert(message(n, 10));
    }
    let ids = |v: Vec<hl7_forge::hl7::types::Hl7MessageSummary>| -> Vec<String> {
        v.into_iter().map(|s| s.id).collect()
    };
    assert_eq!(
        ids(store.list_summaries(0, usize::MAX)),
        vec!["id-5", "id-4", "id-3", "id-2", "id-1"]
    );
    assert_eq!(ids(store.list_summaries(1, 2)), vec!["id-4", "id-3"]);
    assert_eq!(ids(store.list_summaries(4, 10)), vec!["id-1"]);
    assert_eq!(ids(store.list_summaries(5, 10)), Vec::<String>::new());
    assert_eq!(ids(store.list_summaries(9, 10)), Vec::<String>::new());
    assert_eq!(ids(store.list_summaries(0, 0)), Vec::<String>::new());
    let first = &store.list_summaries(0, 1)[0];
    assert_eq!(first.segment_count, 3);
    assert_eq!(first.message_type, "ADT^A01");
    assert_eq!(first.sending_facility, "FAC5");
}

#[test]
fn get_by_id_returns_the_whole_message() {
    let mut store = StoreInner::new(100, 1024 * 1024);
    store.insert(message(1, 10));
    store.insert(message(2, 10));
    let got = store.get_by_id("id-2").unwrap();
    assert_eq!(got.message_control_id, "CTL2");
    assert_eq!(got.segments.len(), 3);
    assert_eq!(got.raw, message(2, 10).raw);
    assert!(store.get_by_id("id-3").is_none());
    assert!(store.get_by_id("").is_none());
    assert!(store.get_by_id("id-").is_none());
}

#[test]
fn search_folds_case_but_not_for_the_address() {
    let mut store = StoreInner::new(100, 1024 * 1024);
    let mut a = message(1, 10);
    a.source_addr = "HostA:1".to_string();
    store.insert(a);
    store.insert(message(2, 10));
    let ids = |v: Vec<hl7_forge::hl7::types::Hl7MessageSummary>| -> Vec<String> {
        v.into_iter().map(|s| s.id).collect()
    };
    assert_eq!(ids(store.search("adt", 10)), vec!["id-2", "id-1"]);
    assert_eq!(ids(store.search("DT^a", 10)), vec!["id-2", "id-1"]);
    assert_eq!(ids(store.search("fac2", 10)), vec!["id-2"]);
    assert_eq!(ids(store.search("doe, j", 10)), vec!["id-2", "id-1"]);
    assert_eq!(ids(store.search("ctl1", 10)), vec!["id-1"]);
    assert_eq!(ids(store.search("HostA", 10)), vec!["id-1"]);
    assert_eq!(ids(store.search("hosta", 10)), Vec::<String>::new());
    assert_eq!(ids(store.search("168.0", 10)), vec!["id-2"]);
    assert_eq!(ids(store.search("nothing", 10)), Vec::<String>::new());
    assert_eq!(ids(store.search("", 10)), vec!["id-2", "id-1"]);
    assert_eq!(ids(store.search("adt", 1)), vec!["id-2"]);
    assert_eq!(ids(store.search("adt", 0)), Vec::<String>::new());
}

#[test]
fn search_reaches_the_patient_identifier() {
    let mut store = StoreInner::new(100, 1024 * 1024);
    let mut a = message(1, 10);
    a.patient_id = Some("MRN-77".to_string());
    a.patient_name = None;
    store.insert(a);
    assert_eq!(store.search("mrn-7", 5).len(), 1);
    assert_eq!(store.search("jane", 5).len(), 0);
}

#[test]
fn clear_empties_the_store() {
    let mut store = StoreInner::new(100, 1024 * 1024);
    store.insert(message(1, 10));
    assert!(matches!(store.clear(), StoreEvent::Cleared));
    assert_eq!(store.count(), 0);
    assert_eq!(store.bytes(), 0);
    assert!(store.list_summaries(0, 10).is_empty());
}

#[test]
fn insert_hands_back_the_summary_to_publish() {
    let mut store = StoreInner::new(100, 1024 * 1024);
    match store.insert(message(7, 10)) {
        StoreEvent::NewMessage(s) => {
            assert_eq!(s.id, "id-7");
            assert_eq!(s.message_control_id, "CTL7");
            assert_eq!(s.segment_count, 3);
        }
        StoreEvent::Cleared => panic!("an insertion is no clearing"),
    }
}

#[test]
fn subscribers_see_what_is_published_after_they_came() {
    let mut store = MessageStore::new(config(100, 1));
    store.insert(message(1, 10));
    let mut rx = store.subscribe();
    assert!(matches!(rx.try_recv(), Err(TryRecvError::Empty)));
    store.insert(message(2, 10));
    store.clear();
    match rx.try_recv() {
        Ok(StoreEvent::NewMessage(s)) => assert_eq!(s.id, "id-2"),
        _ => panic!("expected the new message"),
    }
    assert!(matches!(rx.try_recv(), Ok(StoreEvent::Cleared)));
    assert!(matches!(rx.try_recv(), Err(TryRecvError::Empty)));
    assert_eq!(store.count(), 0);
}

#[test]
fn a_slow_subscriber_lags() {
    let mut store = MessageStore::new(config(10, 1));
    let mut rx = store.subscribe();
    for n in 0..5000 {
        store.insert(message(n, 10));
    }
    match rx.try_recv() {
        Err(TryRecvError::Lagged(n)) => assert!(n >= 5000 - 4096),
        _ => panic!("expected a lag"),
    }
    match rx.try_recv() {
        Ok(StoreEvent::NewMessage(s)) => assert_eq!(s.id, "id-904"),
        _ => panic!("expected the oldest event still held"),
    }
}

#[test]
fn the_store_reads_through_its_state() {
    let mut store = MessageStore::new(config(100, 1));
    for n in 1..=3 {
        store.insert(message(n, 10));
    }
    assert_eq!(store.count(), 3);
    assert_eq!(store.list_summaries(0, 2).len(), 2);
    assert_eq!(store.list_summaries(0, 2)[0].id, "id-3");
    assert_eq!(store.search("ctl2", 10).len(), 1);
    assert_eq!(store.get_by_id("id-1").unwrap().message_control_id, "CTL1");
}

#[test]
fn the_byte_counter_is_the_sum_of_the_payload_sizes() {
    let mut store = StoreInner::new(7, 4000);
    let mut held: Vec<(String, usize)> = Vec::new();
    for n in 1..=40 {
        let msg = message(n, 100 + 37 * (n % 5));
        let id = msg.id.clone();
        let size = msg.raw.len();
        store.insert(msg);
        held.push((id, size));
        let listed = store.list_summaries(0, usize::MAX);
        held.retain(|(id, _)| listed.iter().any(|s| &s.id == id));
        let sum: usize = held.iter().map(|(_, size)| *size).sum();
        assert_eq!(store.bytes(), sum as u128);
        assert_eq!(store.count(), held.len());
        assert!(store.count() <= 7);
    }
}

#[test]
fn a_message_larger_than_the_byte_limit_is_still_taken() {
    let mut store = StoreInner::new(100, 10);
    store.insert(message(1, 100));
    assert_eq!(store.count(), 1);
    assert!(store.bytes() > 10);
    store.insert(message(2, 100));
    assert_eq!(store.count(), 1);
    assert_eq!(store.list_summaries(0, 10)[0].id, "id-2");
}

#[test]
fn a_store_without_room_still_takes_one_message() {
    let mut store = StoreInner::new(0, 1024);
    store.insert(message(1, 10));
    assert_eq!(store.count(), 1);
    store.insert(message(2, 10));
    assert_eq!(store.count(), 1);
    assert_eq!(store.list_summaries(0, 10)[0].id, "id-2");
}

#[test]
fn each_subscriber_starts_behind_what_was_published_before() {
    let mut store = MessageStore::new(config(100, 1));
    store.insert(message(1, 10));
    let mut early = store.subscribe();
    store.insert(message(2, 10));
    let mut late = store.subscribe();
    store.insert(message(3, 10));

    match early.try_recv() {
        Ok(StoreEvent::NewMessage(s)) => assert_eq!(s.id, "id-2"),
        _ => panic!("the early subscriber reads the second message first"),
    }
    match early.try_recv() {
        Ok(StoreEvent::NewMessage(s)) => assert_eq!(s.id, "id-3"),
        _ => panic!("the early subscriber reads the third message next"),
    }
    assert!(matches!(early.try_recv(), Err(TryRecvError::Empty)));

    match late.try_recv() {
        Ok(StoreEvent::NewMessage(s)) => assert_eq!(s.id, "id-3"),
        _ => panic!("the late subscriber reads the third message only"),
    }
    assert!(matches!(late.try_recv(), Err(TryRecvError::Empty)));
}
