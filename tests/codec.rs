use kvs::{engine_name, select_engine, EngineKind};
use kvs::generation::{convert_command_generation_path, generation_file_name_string, parse_generation};
use kvs::record::{decode_command, encode_command, Command};
use kvs::req_resp::Response;
use kvs::sled_kvs_engine::{remove_outcome, stored_text};
use kvs::KvsError;
use std::path::PathBuf;

#[test]
fn set_record_bytes() {
    let c = Command::Put { key: "a".to_string(), value: "1".to_string() };
    let b = encode_command(&c).unwrap();
    assert_eq!(b, br#"{"Set":{"key":"a","value":"1"}}"#.to_vec());
}

#[test]
fn remove_record_bytes() {
    let c = Command::Remove { key: "k".to_string() };
    let b = encode_command(&c).unwrap();
    assert_eq!(b, br#"{"Remove":{"key":"k"}}"#.to_vec());
}

#[test]
fn escaped_strings_round_trip() {
    let c = Command::Put { key: "a\"b\\".to_string(), value: "\n\t".to_string() };
    let b = encode_command(&c).unwrap();
    assert_eq!(b, br#"{"Set":{"key":"a\"b\\","value":"\n\t"}}"#.to_vec());
    match decode_command(&b, 0).unwrap() {
        (Command::Put { key, value }, end) => {
            assert_eq!(key, "a\"b\\");
            assert_eq!(value, "\n\t");
            assert_eq!(end, b.len());
        }
        _ => panic!("expected a Set record"),
    }
}

#[test]
fn decode_stream_of_records() {
    let mut b = encode_command(&Command::Put { key: "x".to_string(), value: "y".to_string() }).unwrap();
    let first = b.len();
    b.extend(encode_command(&Command::Remove { key: "x".to_string() }).unwrap());
    let (c, end) = decode_command(&b, first).unwrap();
    assert!(matches!(c, Command::Remove { ref key } if key == "x"));
    assert_eq!(end, b.len());
}

#[test]
fn decode_rejects_truncated_and_garbage() {
    let b = br#"{"Set":{"key":"a","value":"1"}"#.to_vec();
    assert!(matches!(decode_command(&b, 0), Err(KvsError::CorruptLog)));
    let g = b"hello".to_vec();
    assert!(matches!(decode_command(&g, 0), Err(KvsError::CorruptLog)));
    let bad_escape = br#"{"Remove":{"key":"\q"}}"#.to_vec();
    assert!(matches!(decode_command(&bad_escape, 0), Err(KvsError::SerdeJson(_))));
}

#[test]
fn value_at_refuses_remove_record() {
    let b = encode_command(&Command::Remove { key: "k".to_string() }).unwrap();
    assert!(kvs::KvStoreReader::value_at(&b, 0).is_err());
}

#[test]
fn generation_names() {
    assert_eq!(parse_generation("0.json"), Some(0));
    assert_eq!(parse_generation("12.json"), Some(12));
    assert_eq!(parse_generation("18446744073709551615.json"), Some(u64::MAX));
    assert_eq!(parse_generation("18446744073709551616.json"), None);
    assert_eq!(parse_generation("012.json"), None);
    assert_eq!(parse_generation("12.txt"), None);
    assert_eq!(parse_generation("a.json"), None);
    assert_eq!(parse_generation(".json"), None);
    assert_eq!(generation_file_name_string(0), "0.json");
    assert_eq!(generation_file_name_string(1907), "1907.json");
    assert_eq!(generation_file_name_string(u64::MAX), "18446744073709551615.json");
    assert_eq!(parse_generation("engine"), None);
    let name = convert_command_generation_path(&PathBuf::from("d"), 7);
    assert_eq!(parse_generation(name.file_name().unwrap().to_str().unwrap()), Some(7));
}

#[test]
fn generation_path_in_directory() {
    let p = convert_command_generation_path(&PathBuf::from("/data"), 3);
    assert_eq!(p, PathBuf::from("/data/3.json"));
    let p = convert_command_generation_path(&PathBuf::from("/data"), 1024);
    assert_eq!(p, PathBuf::from("/data/1024.json"));
}

#[test]
fn responses() {
    let r = Response::of_get(Ok(Some("v".to_string())));
    assert_eq!(r.value, Some("v".to_string()));
    assert_eq!(r.error, None);
    let r = Response::of_get(Ok(None));
    assert_eq!(r.value, None);
    assert_eq!(r.error, None);
    let r = Response::of_write(Err(KvsError::KeyNotFound));
    assert_eq!(r.value, None);
    assert_eq!(r.error, Some("Key not found".to_string()));
    let r = Response::of_write(Ok(()));
    assert_eq!(r.error, None);
}

#[test]
fn sled_outcomes() {
    assert!(matches!(remove_outcome(false), Err(KvsError::KeyNotFound)));
    assert!(remove_outcome(true).is_ok());
    assert_eq!(stored_text(Some(b"abc".to_vec())).unwrap(), Some("abc".to_string()));
    assert!(matches!(stored_text(Some(vec![0xff, 0xfe])), Err(KvsError::FromUtf8(_))));
    assert_eq!(stored_text(None).unwrap(), None);
}

#[test]
fn error_messages() {
    assert_eq!(KvsError::KeyNotFound.message(), "Key not found");
    assert_eq!(KvsError::UnmatchedEngine.message(), "Unmatched engine");
}

#[test]
fn errors_convert_from_causes() {
    let e: KvsError = std::io::Error::new(std::io::ErrorKind::NotFound, "gone").into();
    assert!(matches!(e, KvsError::StdIo(_)));
    let j = serde_json::from_str::<String>("1").unwrap_err();
    let e: KvsError = j.into();
    assert!(matches!(e, KvsError::SerdeJson(_)));
}

#[test]
fn engine_selection() {
    assert_eq!(engine_name(EngineKind::Kvs), "kvs");
    assert_eq!(engine_name(EngineKind::Sled), "sled");
    assert_eq!(select_engine(None, EngineKind::Sled).unwrap(), EngineKind::Sled);
    assert_eq!(select_engine(Some("kvs"), EngineKind::Kvs).unwrap(), EngineKind::Kvs);
    assert!(matches!(select_engine(Some("kvs"), EngineKind::Sled), Err(KvsError::UnmatchedEngine)));
    assert!(matches!(select_engine(Some("sled"), EngineKind::Kvs), Err(KvsError::UnmatchedEngine)));
    assert!(matches!(select_engine(Some("kv"), EngineKind::Kvs), Err(KvsError::UnmatchedEngine)));
}
