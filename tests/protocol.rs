use kvs::engines::{get_response, get_result, same_engine_as_last_time, unit_response, unit_result};
use kvs::protocol::{find_start_code, start_code_bytes, MAX_MESSAGE_SIZE};
use kvs::{KvsDecoder, KvsEncoder, KvsError, Response};

fn frame(payload: &[u8]) -> Vec<u8> {
    let mut encoder = KvsEncoder::new(64);
    encoder.encode(&payload.to_vec()).unwrap()
}

#[test]
fn encoder_frames_payloads() {
    let mut encoder = KvsEncoder::new(16);
    let m = encoder.encode(&vec![1, 2, 3]).unwrap();
    let mut expected = start_code_bytes();
    expected.extend_from_slice(&[3, 0, 0, 0, 0, 0, 0, 0, 1, 2, 3]);
    assert_eq!(m, expected);
    // The buffer is reused: a shorter second message carries nothing of the first.
    let m = encoder.encode(&vec![9]).unwrap();
    let mut expected = start_code_bytes();
    expected.extend_from_slice(&[1, 0, 0, 0, 0, 0, 0, 0, 9]);
    assert_eq!(m, expected);
}

#[test]
fn encoder_refuses_oversized_payloads() {
    let mut encoder = KvsEncoder::new(16);
    let big = vec![0u8; MAX_MESSAGE_SIZE as usize + 1];
    assert!(matches!(encoder.encode(&big), Err(KvsError::Serialization(_))));
    let largest = vec![5u8; MAX_MESSAGE_SIZE as usize];
    assert_eq!(encoder.encode(&largest).unwrap().len(), 12 + 4096);
}

#[test]
fn decoder_round_trip_and_pipelining() {
    let mut decoder = KvsDecoder::new(16);
    assert!(decoder.decode().is_none());
    let mut bytes = vec![0xaa, 0xbb];
    bytes.extend(frame(b"first"));
    bytes.extend(frame(b""));
    bytes.extend(frame(b"third"));
    decoder.append(&bytes);
    assert_eq!(decoder.decode().unwrap().unwrap(), b"first".to_vec());
    assert_eq!(decoder.decode().unwrap().unwrap(), Vec::<u8>::new());
    assert_eq!(decoder.decode().unwrap().unwrap(), b"third".to_vec());
    assert!(decoder.decode().is_none());
}

#[test]
fn decoder_waits_for_split_messages() {
    let m = frame(b"hello world");
    let mut decoder = KvsDecoder::new(16);
    decoder.append(&m[..3]);
    assert!(decoder.decode().is_none());
    decoder.append(&m[3..14]);
    assert!(decoder.decode().is_none());
    decoder.append(&m[14..]);
    assert_eq!(decoder.decode().unwrap().unwrap(), b"hello world".to_vec());
}

#[test]
fn decoder_rejects_oversized_messages() {
    let mut m = start_code_bytes();
    m.extend_from_slice(&(MAX_MESSAGE_SIZE + 1).to_le_bytes());
    m.extend(frame(b"next"));
    let mut decoder = KvsDecoder::new(16);
    decoder.append(&m);
    assert!(matches!(decoder.decode(), Some(Err(KvsError::Serialization(_)))));
    assert_eq!(decoder.decode().unwrap().unwrap(), b"next".to_vec());
}

#[test]
fn decoder_drops_garbage_without_start_code() {
    let mut decoder = KvsDecoder::new(16);
    decoder.append(&[1, 2, 3, 4, 5, 6]);
    assert!(decoder.decode().is_none());
    decoder.append(&frame(b"ok"));
    assert_eq!(decoder.decode().unwrap().unwrap(), b"ok".to_vec());
}

#[test]
fn start_code_search() {
    let code = start_code_bytes();
    let mut buf = vec![0, 1];
    buf.extend(code.clone());
    assert_eq!(find_start_code(&buf), Some(2));
    assert_eq!(find_start_code(&code[..3].to_vec()), None);
}

#[test]
fn responses_and_results() {
    assert_eq!(get_response(Ok(Some("b".to_owned()))), Response::Success(Some("b".to_owned())));
    assert_eq!(get_response(Err("Key not found".to_owned())), Response::Failure("Key not found".to_owned()));
    assert_eq!(unit_response(Ok(())), Response::Success(None));
    assert_eq!(get_result(Response::Success(None)), Ok(None));
    assert_eq!(get_result(Response::Failure("e".to_owned())), Err(KvsError::StringError("e".to_owned())));
    assert_eq!(unit_result(Response::Success(None)), Ok(()));
    assert_eq!(unit_result(Response::Failure("e".to_owned())), Err(KvsError::StringError("e".to_owned())));
}

#[test]
fn engine_marker() {
    assert_eq!(same_engine_as_last_time(None, "kvs"), Ok(()));
    assert_eq!(same_engine_as_last_time(Some("kvs".to_owned()), "kvs"), Ok(()));
    assert_eq!(
        same_engine_as_last_time(Some("sled".to_owned()), "kvs"),
        Err(KvsError::EngineMismatch { requested: "kvs".to_owned(), previous: "sled".to_owned() })
    );
}
