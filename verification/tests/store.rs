use akv_btree::files::{close, open, File, FileState};
use akv_btree::log::Log;
use akv_btree::mailbox::{fetch_sat_ids, use_value, CubeSat, Demo, Mailbox, Message};

#[test]
fn test_log_append_and_read() {
    let mut log = Log::new();
    let off0 = log.append(b"k1".to_vec(), b"v1".to_vec());
    let off1 = log.append(b"k2".to_vec(), b"v2".to_vec());
    assert_eq!(off0, 0);
    assert_eq!(off1, 1);
    assert_eq!(log.end_offset(), 2);
    let rec = log.read_at(0).unwrap();
    assert_eq!(rec.key, b"k1".to_vec());
    assert_eq!(rec.value, b"v1".to_vec());
    assert!(log.read_at(2).is_err());
}

#[test]
fn test_log_find_latest() {
    let mut log = Log::new();
    log.append(b"a".to_vec(), b"first".to_vec());
    log.append(b"b".to_vec(), b"other".to_vec());
    log.append(b"a".to_vec(), b"second".to_vec());
    let (off, value) = log.find_latest(&b"a".to_vec()).unwrap();
    assert_eq!(off, 2);
    assert_eq!(value, b"second".to_vec());
    assert!(log.find_latest(&b"zzz".to_vec()).is_none());
}

#[test]
fn test_file_lifecycle() {
    let f = File::new("f1.txt");
    assert_eq!(f.name(), "f1.txt".to_string());
    assert_eq!(f.len(), 0);
    assert_eq!(f.state, FileState::Closed);
    let mut buffer: Vec<u8> = vec![];
    assert!(f.read(&mut buffer).is_err());
    let f = open(f).unwrap();
    assert_eq!(f.state, FileState::Open);
    let n = f.read(&mut buffer).unwrap();
    assert_eq!(n, 0);
    assert!(buffer.is_empty());
    let f = close(f).unwrap();
    assert_eq!(f.state, FileState::Closed);
}

#[test]
fn test_file_read_copies_data() {
    let mut f = File::new("data.bin");
    f.data = vec![10, 20, 30];
    let f = open(f).unwrap();
    let mut buffer: Vec<u8> = vec![1];
    let n = f.read(&mut buffer).unwrap();
    assert_eq!(n, 3);
    assert_eq!(buffer, vec![1, 10, 20, 30]);
}

#[test]
fn test_mailbox_deliver_earliest_match() {
    let mut mail = Mailbox { messages: vec![] };
    mail.post(Message { to: 1, content: "hello".to_string() });
    mail.post(Message { to: 2, content: "for two".to_string() });
    mail.post(Message { to: 1, content: "again".to_string() });
    let sat1 = CubeSat { id: 1 };
    let sat3 = CubeSat { id: 3 };
    let msg = sat1.recv(&mut mail).unwrap();
    assert_eq!(msg.to, 1);
    assert_eq!(msg.content, "hello".to_string());
    assert_eq!(mail.messages.len(), 2);
    assert!(sat3.recv(&mut mail).is_none());
    let msg = sat1.recv(&mut mail).unwrap();
    assert_eq!(msg.content, "again".to_string());
}

#[test]
fn test_fetch_sat_ids() {
    assert_eq!(fetch_sat_ids(), vec![1, 2, 3]);
}

#[test]
fn test_use_value_copies() {
    let demo = Demo { a: 123 };
    use_value(demo);
    assert_eq!(demo.a, 123);
}
