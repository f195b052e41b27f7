use std::collections::BTreeMap;

use kvs::generations::{log_generations, next_generation, stale_generations};
use kvs::record::{frame_record, record_payload, scan_records};
use kvs::store::value_of;
use kvs::engines::{get_response, get_result, unit_response, unit_result};
use kvs::{Command, KvStoreCore, KvsDecoder, KvsEncoder, KvsError, LogPointer, Request, Response};

/// A data directory held in memory: file name to contents.
type Dir = BTreeMap<String, Vec<u8>>;

fn file_name(generation: u64) -> String {
    format!("{}.log", generation)
}

fn put_bytes(out: &mut Vec<u8>, s: &str) {
    out.extend_from_slice(&(s.len() as u32).to_le_bytes());
    out.extend_from_slice(s.as_bytes());
}

fn take_str(bytes: &[u8], at: &mut usize) -> String {
    let mut n = [0u8; 4];
    n.copy_from_slice(&bytes[*at..*at + 4]);
    let n = u32::from_le_bytes(n) as usize;
    let s = String::from_utf8(bytes[*at + 4..*at + 4 + n].to_vec()).unwrap();
    *at += 4 + n;
    s
}

fn encode(command: &Command) -> Vec<u8> {
    let mut out = Vec::new();
    match command {
        Command::Put { key, value } => {
            out.push(0);
            put_bytes(&mut out, key);
            put_bytes(&mut out, value);
        }
        Command::Remove { key } => {
            out.push(1);
            put_bytes(&mut out, key);
        }
    }
    out
}

fn decode(bytes: &[u8]) -> Command {
    let mut at = 1;
    let key = take_str(bytes, &mut at);
    if bytes[0] == 0 {
        let value = take_str(bytes, &mut at);
        Command::Put { key, value }
    } else {
        Command::Remove { key }
    }
}

/// The engine driven over an in-memory directory, as the server drives it
/// over real files.
struct Store<'a> {
    core: KvStoreCore,
    dir: &'a mut Dir,
}

impl<'a> Store<'a> {
    fn open(dir: &'a mut Dir) -> Result<Store<'a>, KvsError> {
        let names: Vec<String> = dir.keys().cloned().collect();
        let generations = log_generations(&names);
        let mut core = KvStoreCore::new();
        for &generation in &generations {
            let data = dir[&file_name(generation)].clone();
            for (start, end) in scan_records(&data)? {
                let payload = record_payload(&data[start as usize..end as usize])?;
                let command = decode(&payload);
                core.load_record(LogPointer::from_range(generation, start, end), &command)?;
            }
        }
        let next = next_generation(&generations).unwrap();
        core.start_generation(next)?;
        dir.insert(file_name(next), Vec::new());
        Ok(Store { core, dir })
    }

    fn append(&mut self, command: &Command) -> Result<(), KvsError> {
        let record = frame_record(&encode(command));
        let at = self.core.check_write(command, record.len() as u64)?;
        let writer = self.core.writer();
        assert_eq!(at, LogPointer::new(writer.current_generation(), writer.current_position(), record.len() as u64));
        let file = self.dir.get_mut(&file_name(writer.current_generation())).unwrap();
        assert_eq!(file.len() as u64, writer.current_position());
        file.extend_from_slice(&record);
        if self.core.write_record(command, record.len() as u64)? {
            self.compact()?;
        }
        Ok(())
    }

    fn set(&mut self, key: String, value: String) -> Result<(), KvsError> {
        self.append(&Command::Put { key, value })
    }

    fn get(&self, key: String) -> Result<Option<String>, KvsError> {
        match self.core.lookup(&key) {
            None => Ok(None),
            Some(p) => {
                let file = &self.dir[&file_name(p.generation)];
                let payload =
                    record_payload(&file[p.offset as usize..(p.offset + p.length) as usize])?;
                value_of(decode(&payload)).map(Some)
            }
        }
    }

    fn remove(&mut self, key: String) -> Result<(), KvsError> {
        self.core.check_present(&key)?;
        self.append(&Command::Remove { key })
    }

    fn compact(&mut self) -> Result<(), KvsError> {
        let plan = self.core.begin_compaction()?;
        let mut fresh = Vec::new();
        for (from, to) in &plan.moves {
            assert_eq!(fresh.len() as u64, to.offset);
            let file = &self.dir[&file_name(from.generation)];
            fresh.extend_from_slice(&file[from.offset as usize..(from.offset + from.length) as usize]);
        }
        self.dir.insert(file_name(plan.generation), fresh);
        assert_eq!(self.core.finish_compaction(), Ok(plan.generation));
        let names: Vec<String> = self.dir.keys().cloned().collect();
        for stale in stale_generations(&log_generations(&names), plan.generation) {
            self.dir.remove(&file_name(stale));
        }
        self.dir.insert(file_name(plan.generation + 1), Vec::new());
        Ok(())
    }
}

fn dir_size(dir: &Dir) -> u64 {
    dir.values().map(|f| f.len() as u64).sum()
}

// Should get previously stored value
#[test]
fn get_stored_value() {
    let mut dir = Dir::new();
    let mut store = Store::open(&mut dir).unwrap();

    store.set("key1".to_owned(), "value1".to_owned()).unwrap();
    store.set("key2".to_owned(), "value2".to_owned()).unwrap();

    assert_eq!(store.get("key1".to_owned()).unwrap(), Some("value1".to_owned()));
    assert_eq!(store.get("key2".to_owned()).unwrap(), Some("value2".to_owned()));

    // Open from disk again and check persistent data
    drop(store);
    let store = Store::open(&mut dir).unwrap();
    assert_eq!(store.get("key1".to_owned()).unwrap(), Some("value1".to_owned()));
    assert_eq!(store.get("key2".to_owned()).unwrap(), Some("value2".to_owned()));
}

// Should overwrite existent value
#[test]
fn overwrite_value() {
    let mut dir = Dir::new();
    let mut store = Store::open(&mut dir).unwrap();

    store.set("key1".to_owned(), "value1".to_owned()).unwrap();
    assert_eq!(store.get("key1".to_owned()).unwrap(), Some("value1".to_owned()));
    store.set("key1".to_owned(), "value2".to_owned()).unwrap();
    assert_eq!(store.get("key1".to_owned()).unwrap(), Some("value2".to_owned()));

    // Open from disk again and check persistent data
    drop(store);
    let mut store = Store::open(&mut dir).unwrap();
    assert_eq!(store.get("key1".to_owned()).unwrap(), Some("value2".to_owned()));
    store.set("key1".to_owned(), "value3".to_owned()).unwrap();
    assert_eq!(store.get("key1".to_owned()).unwrap(), Some("value3".to_owned()));
}

// Should get `None` when getting a non-existent key
#[test]
fn get_non_existent_value() {
    let mut dir = Dir::new();
    let mut store = Store::open(&mut dir).unwrap();

    store.set("key1".to_owned(), "value1".to_owned()).unwrap();
    assert_eq!(store.get("key2".to_owned()).unwrap(), None);

    // Open from disk again and check persistent data
    drop(store);
    let store = Store::open(&mut dir).unwrap();
    assert_eq!(store.get("key2".to_owned()).unwrap(), None);
}

#[test]
fn remove_non_existent_key() {
    let mut dir = Dir::new();
    let mut store = Store::open(&mut dir).unwrap();
    assert!(store.remove("key1".to_owned()).is_err());
}

#[test]
fn remove_key() {
    let mut dir = Dir::new();
    let mut store = Store::open(&mut dir).unwrap();
    store.set("key1".to_owned(), "value1".to_owned()).unwrap();
    assert!(store.remove("key1".to_owned()).is_ok());
    assert_eq!(store.get("key1".to_owned()).unwrap(), None);
}

// Insert data until total size of the directory decreases.
// Test data correctness after compaction.
#[test]
fn compaction() {
    let mut dir = Dir::new();
    let mut store = Store::open(&mut dir).unwrap();

    let mut current_size = dir_size(store.dir);
    for iter in 0..1000 {
        for key_id in 0..1000 {
            let key = format!("key{}", key_id);
            let value = format!("{}", iter);
            store.set(key, value).unwrap();
        }

        let new_size = dir_size(store.dir);
        if new_size > current_size {
            current_size = new_size;
            continue;
        }
        // Compaction triggered

        drop(store);
        // reopen and check content
        let store = Store::open(&mut dir).unwrap();
        for key_id in 0..1000 {
            let key = format!("key{}", key_id);
            assert_eq!(store.get(key).unwrap(), Some(format!("{}", iter)));
        }
        return;
    }

    panic!("No compaction detected");
}

#[test]
fn remove_absent_key_is_key_not_found() {
    let mut dir = Dir::new();
    let mut store = Store::open(&mut dir).unwrap();
    assert_eq!(store.remove("absent".to_owned()), Err(KvsError::KeyNotFound));
}

#[test]
fn reopen_keeps_latest_value_and_accepts_new_writes() {
    let mut dir = Dir::new();
    let mut store = Store::open(&mut dir).unwrap();
    store.set("k".to_owned(), "v1".to_owned()).unwrap();
    store.set("k".to_owned(), "v2".to_owned()).unwrap();
    assert_eq!(store.get("k".to_owned()).unwrap(), Some("v2".to_owned()));
    drop(store);
    let mut store = Store::open(&mut dir).unwrap();
    assert_eq!(store.get("k".to_owned()).unwrap(), Some("v2".to_owned()));
    store.set("k".to_owned(), "v3".to_owned()).unwrap();
    assert_eq!(store.get("k".to_owned()).unwrap(), Some("v3".to_owned()));
}

#[test]
fn empty_key_and_empty_value() {
    let mut dir = Dir::new();
    let mut store = Store::open(&mut dir).unwrap();
    store.set(String::new(), String::new()).unwrap();
    store.set("k".to_owned(), String::new()).unwrap();
    assert_eq!(store.get(String::new()).unwrap(), Some(String::new()));
    assert_eq!(store.get("k".to_owned()).unwrap(), Some(String::new()));
    drop(store);
    let store = Store::open(&mut dir).unwrap();
    assert_eq!(store.get(String::new()).unwrap(), Some(String::new()));
}

#[test]
fn large_value_round_trips() {
    let mut dir = Dir::new();
    let mut store = Store::open(&mut dir).unwrap();
    let value = "x".repeat(4096);
    store.set("big".to_owned(), value.clone()).unwrap();
    assert_eq!(store.get("big".to_owned()).unwrap(), Some(value.clone()));
    drop(store);
    let store = Store::open(&mut dir).unwrap();
    assert_eq!(store.get("big".to_owned()).unwrap(), Some(value));
}

#[test]
fn restart_after_interleaved_writes_restores_live_set() {
    let mut dir = Dir::new();
    let mut store = Store::open(&mut dir).unwrap();
    for i in 0..50 {
        store.set(format!("k{}", i), format!("v{}", i)).unwrap();
        if i % 3 == 0 {
            store.remove(format!("k{}", i)).unwrap();
        }
        if i % 5 == 0 {
            store.set(format!("k{}", i), format!("w{}", i)).unwrap();
        }
    }
    drop(store);
    let store = Store::open(&mut dir).unwrap();
    for i in 0..50 {
        let expected = if i % 5 == 0 {
            Some(format!("w{}", i))
        } else if i % 3 == 0 {
            None
        } else {
            Some(format!("v{}", i))
        };
        assert_eq!(store.get(format!("k{}", i)).unwrap(), expected);
    }
}

#[test]
fn uncompacted_counts_overwritten_and_removal_records() {
    let mut dir = Dir::new();
    let mut store = Store::open(&mut dir).unwrap();
    assert_eq!(store.core.uncompacted(), 0);
    store.set("a".to_owned(), "1".to_owned()).unwrap();
    // 8 bytes of prefix, then 1 + (4 + 1) + (4 + 1) bytes of payload.
    let first = 8 + 11;
    assert_eq!(store.core.uncompacted(), 0);
    store.set("a".to_owned(), "22".to_owned()).unwrap();
    assert_eq!(store.core.uncompacted(), first);
    store.remove("a".to_owned()).unwrap();
    // The second record (20 bytes) and the removal record (8 + 1 + 5 bytes).
    assert_eq!(store.core.uncompacted(), first + 20 + 14);
    assert_eq!(dir_size(store.dir), first + 20 + 14);
    drop(store);
    let store = Store::open(&mut dir).unwrap();
    assert_eq!(store.core.uncompacted(), first + 20 + 14);
}

#[test]
fn compaction_plan_moves_live_records_to_a_new_generation() {
    let mut dir = Dir::new();
    let mut store = Store::open(&mut dir).unwrap();
    store.set("b".to_owned(), "1".to_owned()).unwrap();
    store.set("a".to_owned(), "1".to_owned()).unwrap();
    store.set("b".to_owned(), "2".to_owned()).unwrap();
    assert_eq!(store.core.writer().current_generation(), 1);
    store.compact().unwrap();
    assert_eq!(store.core.pitr(), 2);
    assert_eq!(store.core.uncompacted(), 0);
    assert_eq!(store.core.writer().current_generation(), 3);
    assert_eq!(store.core.writer().current_position(), 0);
    assert_eq!(store.dir.keys().cloned().collect::<Vec<_>>(), vec!["2.log".to_owned(), "3.log".to_owned()]);
    assert_eq!(store.core.lookup(&"a".to_owned()), Some(LogPointer::new(2, 0, 19)));
    assert_eq!(store.core.lookup(&"b".to_owned()), Some(LogPointer::new(2, 19, 19)));
    assert_eq!(store.get("b".to_owned()).unwrap(), Some("2".to_owned()));
    assert_eq!(dir_size(store.dir), 38);
}

#[test]
fn load_record_refuses_records_out_of_order() {
    let mut core = KvStoreCore::new();
    let c = Command::Put { key: "k".to_owned(), value: "v".to_owned() };
    assert!(core.load_record(LogPointer::new(1, 10, 5), &c).is_ok());
    assert!(matches!(core.load_record(LogPointer::new(1, 12, 5), &c), Err(KvsError::Serialization(_))));
    assert!(matches!(core.load_record(LogPointer::new(0, 0, 5), &c), Err(KvsError::Serialization(_))));
    assert!(matches!(core.load_record(LogPointer::new(2, 0, 0), &c), Err(KvsError::Serialization(_))));
    assert!(core.load_record(LogPointer::new(1, 15, 5), &c).is_ok());
    assert!(core.start_generation(1).is_err());
    assert!(core.start_generation(2).is_ok());
    assert_eq!(core.writer().current_position(), 0);
    assert_eq!(core.uncompacted(), 5);
}

#[test]
fn needs_compaction_only_above_the_threshold() {
    let mut core = KvStoreCore::new();
    core.start_generation(1).unwrap();
    let c = Command::Put { key: "k".to_owned(), value: "v".to_owned() };
    assert_eq!(core.write_record(&c, 1024 * 1024), Ok(false));
    assert_eq!(core.write_record(&c, 1), Ok(false));
    assert_eq!(core.uncompacted(), 1024 * 1024);
    assert!(!core.needs_compaction());
    assert_eq!(core.write_record(&c, 1), Ok(true));
    assert!(core.needs_compaction());
    assert_eq!(core.write_record(&c, 0), Err(KvsError::Io("log file offset overflows".to_owned())));
}

#[test]
fn value_of_returns_the_value_of_a_put() {
    assert_eq!(value_of(Command::Put { key: "k".to_owned(), value: "v".to_owned() }), Ok("v".to_owned()));
    assert_eq!(value_of(Command::Put { key: "other".to_owned(), value: "w".to_owned() }), Ok("w".to_owned()));
    assert_eq!(value_of(Command::Remove { key: "k".to_owned() }), Err(KvsError::UnexpectedCommandType));
}

#[test]
fn an_unfinished_compaction_changes_nothing() {
    let mut dir = Dir::new();
    let mut store = Store::open(&mut dir).unwrap();
    store.set("a".to_owned(), "1".to_owned()).unwrap();
    store.set("a".to_owned(), "2".to_owned()).unwrap();
    let plan = store.core.begin_compaction().unwrap();
    assert_eq!(plan.generation, 2);
    assert_eq!(plan.moves, vec![(LogPointer::new(1, 19, 19), LogPointer::new(2, 0, 19))]);
    // Nothing moved yet: the index and the counters are as before.
    assert_eq!(store.core.lookup(&"a".to_owned()), Some(LogPointer::new(1, 19, 19)));
    assert_eq!(store.core.uncompacted(), 19);
    assert_eq!(store.core.pitr(), 0);
    // A write drops the plan; finishing it then fails and changes nothing.
    store.set("b".to_owned(), "3".to_owned()).unwrap();
    assert!(matches!(store.core.finish_compaction(), Err(KvsError::Io(_))));
    assert_eq!(store.core.writer().current_generation(), 1);
    assert_eq!(store.get("a".to_owned()).unwrap(), Some("2".to_owned()));
    assert!(matches!(KvStoreCore::new().finish_compaction(), Err(KvsError::Io(_))));
}

#[test]
fn check_write_agrees_with_write_record() {
    let mut core = KvStoreCore::new();
    core.start_generation(3).unwrap();
    let c = Command::Put { key: "k".to_owned(), value: "v".to_owned() };
    assert_eq!(core.check_write(&c, 7), Ok(LogPointer::new(3, 0, 7)));
    assert!(matches!(core.check_write(&c, 0), Err(KvsError::Io(_))));
    core.write_record(&c, 7).unwrap();
    assert_eq!(core.check_write(&c, u64::MAX - 7), Ok(LogPointer::new(3, 7, u64::MAX - 7)));
    assert!(matches!(core.check_write(&c, u64::MAX - 6), Err(KvsError::Io(_))));
}

fn encode_request(r: &Request) -> Vec<u8> {
    let mut out = Vec::new();
    match r {
        Request::Get { key } => {
            out.push(0);
            put_bytes(&mut out, key);
        }
        Request::Put { key, value } => {
            out.push(1);
            put_bytes(&mut out, key);
            put_bytes(&mut out, value);
        }
        Request::Remove { key } => {
            out.push(2);
            put_bytes(&mut out, key);
        }
    }
    out
}

fn decode_request(bytes: &[u8]) -> Request {
    let mut at = 1;
    let key = take_str(bytes, &mut at);
    match bytes[0] {
        0 => Request::Get { key },
        1 => {
            let value = take_str(bytes, &mut at);
            Request::Put { key, value }
        }
        _ => Request::Remove { key },
    }
}

fn encode_response(r: &Response) -> Vec<u8> {
    let mut out = Vec::new();
    match r {
        Response::Success(None) => out.push(0),
        Response::Success(Some(v)) => {
            out.push(1);
            put_bytes(&mut out, v);
        }
        Response::Failure(m) => {
            out.push(2);
            put_bytes(&mut out, m);
        }
    }
    out
}

fn decode_response(bytes: &[u8]) -> Response {
    let mut at = 1;
    match bytes[0] {
        0 => Response::Success(None),
        1 => Response::Success(Some(take_str(bytes, &mut at))),
        _ => Response::Failure(take_str(bytes, &mut at)),
    }
}

fn message(e: &KvsError) -> String {
    match e {
        KvsError::KeyNotFound => "Key not found".to_owned(),
        other => format!("{:?}", other),
    }
}

/// One request through the codec to the engine and one answer back.
fn exchange(store: &mut Store, request: Request) -> Response {
    let mut client_encoder = KvsEncoder::new(64);
    let mut server_decoder = KvsDecoder::new(64);
    server_decoder.append(&client_encoder.encode(&encode_request(&request)).unwrap());
    let payload = server_decoder.decode().unwrap().unwrap();
    let response = match decode_request(&payload) {
        Request::Get { key } => get_response(store.get(key).map_err(|e| message(&e))),
        Request::Put { key, value } => unit_response(store.set(key, value).map_err(|e| message(&e))),
        Request::Remove { key } => unit_response(store.remove(key).map_err(|e| message(&e))),
    };
    let mut server_encoder = KvsEncoder::new(64);
    let mut client_decoder = KvsDecoder::new(64);
    client_decoder.append(&server_encoder.encode(&encode_response(&response)).unwrap());
    decode_response(&client_decoder.decode().unwrap().unwrap())
}

#[test]
fn protocol_session() {
    let mut dir = Dir::new();
    let mut store = Store::open(&mut dir).unwrap();
    let r = exchange(&mut store, Request::Put { key: "a".to_owned(), value: "b".to_owned() });
    assert_eq!(r, Response::Success(None));
    assert_eq!(unit_result(r), Ok(()));
    let r = exchange(&mut store, Request::Get { key: "a".to_owned() });
    assert_eq!(r, Response::Success(Some("b".to_owned())));
    assert_eq!(get_result(r), Ok(Some("b".to_owned())));
    let r = exchange(&mut store, Request::Remove { key: "a".to_owned() });
    assert_eq!(r, Response::Success(None));
    let r = exchange(&mut store, Request::Get { key: "a".to_owned() });
    assert_eq!(r, Response::Success(None));
    let r = exchange(&mut store, Request::Remove { key: "a".to_owned() });
    assert_eq!(r, Response::Failure("Key not found".to_owned()));
    assert_eq!(unit_result(r), Err(KvsError::StringError("Key not found".to_owned())));
}
