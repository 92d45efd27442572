use kvs::command::{decode, decode_prefix, encode, Command, Decoded, TAG_PUT, TAG_REMOVE};
use kvs::error::KvsError;

fn put(key: &str, value: &str) -> Command {
    Command::Put { key: key.to_owned(), value: value.to_owned() }
}

fn remove(key: &str) -> Command {
    Command::Remove { key: key.to_owned() }
}

#[test]
fn put_record_has_the_documented_layout() {
    let bytes = encode(&put("a", "1"));
    assert_eq!(
        bytes,
        vec![1u8, 1, 0, 0, 0, 0, 0, 0, 0, 0x61, 1, 0, 0, 0, 0, 0, 0, 0, 0x31]
    );
    assert_eq!(bytes[0], TAG_PUT);
}

#[test]
fn remove_record_has_the_documented_layout() {
    let bytes = encode(&remove("ab"));
    assert_eq!(bytes, vec![2u8, 2, 0, 0, 0, 0, 0, 0, 0, 0x61, 0x62]);
    assert_eq!(bytes[0], TAG_REMOVE);
}

#[test]
fn length_prefix_counts_bytes_not_characters() {
    let bytes = encode(&remove("é"));
    assert_eq!(bytes, vec![2u8, 2, 0, 0, 0, 0, 0, 0, 0, 0xc3, 0xa9]);
}

#[test]
fn length_prefix_is_little_endian() {
    let key = "k".repeat(258);
    let bytes = encode(&remove(&key));
    assert_eq!(&bytes[1..9], &[2u8, 1, 0, 0, 0, 0, 0, 0]);
    assert_eq!(bytes.len(), 1 + 8 + 258);
}

#[test]
fn decode_inverts_encode() {
    let commands = vec![
        put("a", "1"),
        put("", ""),
        put("key with spaces", "line\nbreak"),
        put("héllo", "wörld ✓"),
        remove("a"),
        remove(""),
        remove("日本語"),
    ];
    for command in commands {
        let bytes = encode(&command);
        assert_eq!(decode(&bytes), Ok(command));
    }
}

#[test]
fn decode_rejects_every_cut_off_record() {
    let bytes = encode(&put("key", "value"));
    for cut in 0..bytes.len() {
        assert_eq!(decode(&bytes[..cut]), Err(KvsError::CorruptLog));
        assert_eq!(decode_prefix(&bytes[..cut]), Decoded::Incomplete);
    }
}

#[test]
fn decode_rejects_trailing_bytes() {
    let mut bytes = encode(&remove("key"));
    bytes.push(0);
    assert_eq!(decode(&bytes), Err(KvsError::CorruptLog));
}

#[test]
fn decode_rejects_an_unknown_tag() {
    let mut bytes = encode(&remove("key"));
    bytes[0] = 3;
    assert_eq!(decode(&bytes), Err(KvsError::CorruptLog));
    assert_eq!(decode_prefix(&bytes), Decoded::Corrupt);
    bytes[0] = 0;
    assert_eq!(decode_prefix(&bytes), Decoded::Corrupt);
}

#[test]
fn decode_rejects_text_that_is_not_utf8() {
    let bytes = vec![2u8, 2, 0, 0, 0, 0, 0, 0, 0, 0xc3, 0x28];
    assert_eq!(decode(&bytes), Err(KvsError::CorruptLog));
    assert_eq!(decode_prefix(&bytes), Decoded::Corrupt);
    let value = vec![1u8, 1, 0, 0, 0, 0, 0, 0, 0, 0x61, 1, 0, 0, 0, 0, 0, 0, 0, 0xff];
    assert_eq!(decode_prefix(&value), Decoded::Corrupt);
}

#[test]
fn decode_gives_the_text_that_the_bytes_spell() {
    let bytes = vec![1u8, 2, 0, 0, 0, 0, 0, 0, 0, 0xc3, 0xa9, 3, 0, 0, 0, 0, 0, 0, 0, 0xe2, 0x9c, 0x93];
    assert_eq!(decode(&bytes), Ok(put("é", "✓")));
}

#[test]
fn decode_prefix_reads_one_record_and_leaves_the_rest() {
    let first = encode(&put("a", "1"));
    let second = encode(&remove("a"));
    let mut bytes = first.clone();
    bytes.extend_from_slice(&second);
    assert_eq!(
        decode_prefix(&bytes),
        Decoded::Record { command: put("a", "1"), length: first.len() }
    );
    assert_eq!(
        decode_prefix(&bytes[first.len()..]),
        Decoded::Record { command: remove("a"), length: second.len() }
    );
    assert_eq!(decode_prefix(&bytes[bytes.len()..]), Decoded::Incomplete);
}

#[test]
fn a_length_that_runs_past_the_end_is_incomplete() {
    let bytes = vec![2u8, 0xff, 0xff, 0xff, 0xff, 0xff, 0xff, 0xff, 0xff, 0x61];
    assert_eq!(decode_prefix(&bytes), Decoded::Incomplete);
    assert_eq!(decode(&bytes), Err(KvsError::CorruptLog));
}

#[test]
fn error_messages() {
    assert_eq!(KvsError::CorruptLog.message(), "Corrupt log");
    assert_eq!(KvsError::KeyNotFound.message(), "Key not found");
    assert_eq!(KvsError::NotFound.message(), "Segment not found");
}
