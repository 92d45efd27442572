//! Commands and their on-disk record format.
//!
//! A record is self-delimiting:
//!
//! ```text
//! Put:     0x01 | key length (u64, little endian) | key (UTF-8)
//!               | value length (u64, little endian) | value (UTF-8)
//! Remove:  0x02 | key length (u64, little endian) | key (UTF-8)
//! ```
use crate::error::KvsError;
use vstd::bytes::*;
use vstd::prelude::*;
use vstd::slice::*;
use vstd::string::*;
use vstd::utf8::*;

verus! {

/// The tag byte that opens a `Put` record.
pub const TAG_PUT: u8 = 1;

/// The tag byte that opens a `Remove` record.
pub const TAG_REMOVE: u8 = 2;

/// The durable record of one mutation.
#[derive(Debug, Clone, PartialEq, Eq)]
pub enum Command {
    /// Bind `key` to `value`.
    Put { key: String, value: String },
    /// Delete the binding of `key`.
    Remove { key: String },
}

/// The mathematical value of a [`Command`].
pub enum CommandView {
    Put { key: Seq<char>, value: Seq<char> },
    Remove { key: Seq<char> },
}

impl View for Command {
    type V = CommandView;

    open spec fn view(&self) -> CommandView {
        match *self {
            Command::Put { key, value } => CommandView::Put { key: key@, value: value@ },
            Command::Remove { key } => CommandView::Remove { key: key@ },
        }
    }
}

impl CommandView {
    /// The key that the command affects.
    pub open spec fn key(self) -> Seq<char> {
        match self {
            CommandView::Put { key, value } => key,
            CommandView::Remove { key } => key,
        }
    }

    /// Every field's UTF-8 form has a length that fits the record's length
    /// prefix. This holds of every command that exists in memory.
    pub open spec fn representable(self) -> bool {
        match self {
            CommandView::Put { key, value } => encode_utf8(key).len() <= u64::MAX
                && encode_utf8(value).len() <= u64::MAX,
            CommandView::Remove { key } => encode_utf8(key).len() <= u64::MAX,
        }
    }
}

/// The bytes of one length-prefixed text field.
pub open spec fn encode_field(text: Seq<char>) -> Seq<u8> {
    spec_u64_to_le_bytes(encode_utf8(text).len() as u64) + encode_utf8(text)
}

/// The record that stands for a command.
pub open spec fn encode_command(command: CommandView) -> Seq<u8> {
    match command {
        CommandView::Put { key, value } => seq![TAG_PUT] + encode_field(key) + encode_field(value),
        CommandView::Remove { key } => seq![TAG_REMOVE] + encode_field(key),
    }
}

/// What the front of a byte sequence holds, read as a text field.
pub enum FieldParse {
    /// A whole field, `length` bytes long.
    Field { text: Seq<char>, length: nat },
    /// The bytes end before the field does.
    Incomplete,
    /// The field is whole but is not UTF-8.
    Corrupt,
}

/// What the front of a byte sequence holds, read as a record.
pub enum RecordParse {
    /// A whole record, `length` bytes long.
    Record { command: CommandView, length: nat },
    /// The bytes end before the record does.
    Incomplete,
    /// The bytes cannot be the start of any record.
    Corrupt,
}

/// Reads one text field from the front of `bytes`.
pub open spec fn parse_field(bytes: Seq<u8>) -> FieldParse {
    if bytes.len() < 8 {
        FieldParse::Incomplete
    } else {
        let n = spec_u64_from_le_bytes(bytes.subrange(0, 8)) as int;
        if bytes.len() < 8 + n {
            FieldParse::Incomplete
        } else if valid_utf8(bytes.subrange(8, 8 + n)) {
            FieldParse::Field { text: decode_utf8(bytes.subrange(8, 8 + n)), length: (8 + n) as nat }
        } else {
            FieldParse::Corrupt
        }
    }
}

/// Reads one record from the front of `bytes`.
pub open spec fn parse_record(bytes: Seq<u8>) -> RecordParse {
    if bytes.len() == 0 {
        RecordParse::Incomplete
    } else if bytes[0] == TAG_PUT {
        match parse_field(bytes.skip(1)) {
            FieldParse::Field { text: key, length: n1 } => match parse_field(bytes.skip((1 + n1) as int)) {
                FieldParse::Field { text: value, length: n2 } => RecordParse::Record {
                    command: CommandView::Put { key, value },
                    length: 1 + n1 + n2,
                },
                FieldParse::Incomplete => RecordParse::Incomplete,
                FieldParse::Corrupt => RecordParse::Corrupt,
            },
            FieldParse::Incomplete => RecordParse::Incomplete,
            FieldParse::Corrupt => RecordParse::Corrupt,
        }
    } else if bytes[0] == TAG_REMOVE {
        match parse_field(bytes.skip(1)) {
            FieldParse::Field { text: key, length: n1 } => RecordParse::Record {
                command: CommandView::Remove { key },
                length: 1 + n1,
            },
            FieldParse::Incomplete => RecordParse::Incomplete,
            FieldParse::Corrupt => RecordParse::Corrupt,
        }
    } else {
        RecordParse::Corrupt
    }
}

/// A field that is followed by anything parses as itself.
pub proof fn lemma_parse_encoded_field(text: Seq<char>, rest: Seq<u8>)
    requires
        encode_utf8(text).len() <= u64::MAX,
    ensures
        parse_field(encode_field(text) + rest) == (FieldParse::Field {
            text,
            length: encode_field(text).len(),
        }),
        encode_field(text).len() == 8 + encode_utf8(text).len(),
{
    broadcast use {encode_utf8_valid_utf8, encode_utf8_decode_utf8};

    lemma_auto_spec_u64_to_from_le_bytes();
    let raw = encode_utf8(text);
    let n = raw.len() as u64;
    let all = encode_field(text) + rest;
    assert(all.subrange(0, 8) =~= spec_u64_to_le_bytes(n));
    assert(all.subrange(8, 8 + n) =~= raw);
}

/// A parsed field is the encoding of its text.
pub proof fn lemma_parsed_field_is_encoded(bytes: Seq<u8>)
    requires
        parse_field(bytes) is Field,
    ensures
        parse_field(bytes)->length <= bytes.len(),
        parse_field(bytes)->length >= 8,
        encode_utf8(parse_field(bytes)->text).len() <= u64::MAX,
        bytes.subrange(0, parse_field(bytes)->length as int) == encode_field(
            parse_field(bytes)->text,
        ),
{
    broadcast use decode_utf8_encode_utf8;

    lemma_auto_spec_u64_to_from_le_bytes();
    let head = bytes.subrange(0, 8);
    let n = spec_u64_from_le_bytes(head);
    let raw = bytes.subrange(8, 8 + n);
    assert(encode_utf8(decode_utf8(raw)) == raw);
    assert(spec_u64_to_le_bytes(n) == head);
    assert(bytes.subrange(0, 8 + n) =~= head + raw);
}

/// A field cut short parses as incomplete.
pub proof fn lemma_parse_cut_field(text: Seq<char>, m: int)
    requires
        encode_utf8(text).len() <= u64::MAX,
        0 <= m < encode_field(text).len(),
    ensures
        parse_field(encode_field(text).take(m)) is Incomplete,
{
    lemma_auto_spec_u64_to_from_le_bytes();
    let raw = encode_utf8(text);
    let n = raw.len() as u64;
    let cut = encode_field(text).take(m);
    if m >= 8 {
        assert(cut.subrange(0, 8) =~= spec_u64_to_le_bytes(n));
    }
}

/// A record that is followed by anything parses as itself.
pub proof fn lemma_parse_encoded_record(command: CommandView, rest: Seq<u8>)
    requires
        command.representable(),
    ensures
        parse_record(encode_command(command) + rest) == (RecordParse::Record {
            command,
            length: encode_command(command).len(),
        }),
        encode_command(command).len() >= 9,
{
    let all = encode_command(command) + rest;
    match command {
        CommandView::Put { key, value } => {
            lemma_parse_encoded_field(key, encode_field(value) + rest);
            lemma_parse_encoded_field(value, rest);
            let n1 = encode_field(key).len() as int;
            assert(all.skip(1) =~= encode_field(key) + (encode_field(value) + rest));
            assert(all.skip(1 + n1) =~= encode_field(value) + rest);
        },
        CommandView::Remove { key } => {
            lemma_parse_encoded_field(key, rest);
            assert(all.skip(1) =~= encode_field(key) + rest);
        },
    }
}

/// A parsed record is the encoding of its command.
pub proof fn lemma_parsed_record_is_encoded(bytes: Seq<u8>)
    requires
        parse_record(bytes) is Record,
    ensures
        9 <= parse_record(bytes)->length <= bytes.len(),
        parse_record(bytes)->command.representable(),
        bytes.subrange(0, parse_record(bytes)->length as int) == encode_command(
            parse_record(bytes)->command,
        ),
{
    let n = parse_record(bytes)->length as int;
    if bytes[0] == TAG_PUT {
        let b1 = bytes.skip(1);
        lemma_parsed_field_is_encoded(b1);
        let n1 = parse_field(b1)->length as int;
        let b2 = bytes.skip(1 + n1);
        lemma_parsed_field_is_encoded(b2);
        let n2 = parse_field(b2)->length as int;
        assert(bytes.subrange(0, n) =~= seq![TAG_PUT] + b1.subrange(0, n1) + b2.subrange(0, n2));
    } else {
        let b1 = bytes.skip(1);
        lemma_parsed_field_is_encoded(b1);
        let n1 = parse_field(b1)->length as int;
        assert(bytes.subrange(0, n) =~= seq![TAG_REMOVE] + b1.subrange(0, n1));
    }
}

/// Bytes that follow a whole record do not change how it parses.
pub proof fn lemma_parse_ignores_rest(bytes: Seq<u8>, rest: Seq<u8>)
    requires
        parse_record(bytes) is Record,
    ensures
        parse_record(bytes + rest) == parse_record(bytes),
{
    lemma_parsed_record_is_encoded(bytes);
    let command = parse_record(bytes)->command;
    let n = parse_record(bytes)->length as int;
    lemma_parse_encoded_record(command, bytes.skip(n) + rest);
    assert(bytes + rest =~= bytes.subrange(0, n) + (bytes.skip(n) + rest));
}

/// A record cut short parses as incomplete.
pub proof fn lemma_parse_cut_record(command: CommandView, m: int)
    requires
        command.representable(),
        0 <= m < encode_command(command).len(),
    ensures
        parse_record(encode_command(command).take(m)) is Incomplete,
{
    let cut = encode_command(command).take(m);
    if m > 0 {
        match command {
            CommandView::Put { key, value } => {
                let n1 = encode_field(key).len() as int;
                lemma_parse_encoded_field(key, Seq::empty());
                if m - 1 < n1 {
                    lemma_parse_cut_field(key, m - 1);
                    assert(cut.skip(1) =~= encode_field(key).take(m - 1));
                } else {
                    let tail = encode_field(value).take(m - 1 - n1);
                    lemma_parse_encoded_field(key, tail);
                    lemma_parse_encoded_field(value, Seq::empty());
                    lemma_parse_cut_field(value, m - 1 - n1);
                    assert(cut.skip(1) =~= encode_field(key) + tail);
                    assert(cut.skip(1 + n1) =~= tail);
                }
            },
            CommandView::Remove { key } => {
                lemma_parse_encoded_field(key, Seq::empty());
                lemma_parse_cut_field(key, m - 1);
                assert(cut.skip(1) =~= encode_field(key).take(m - 1));
            },
        }
    }
}

/// The command whose record the bytes are, if they are the record of one.
pub open spec fn decode_command(bytes: Seq<u8>) -> Option<CommandView> {
    match parse_record(bytes) {
        RecordParse::Record { command, length } => if length == bytes.len() {
            Some(command)
        } else {
            None
        },
        _ => None,
    }
}

/// Bytes decode to a command exactly when they are its record.
pub proof fn lemma_decode_command(bytes: Seq<u8>, command: CommandView)
    ensures
        decode_command(bytes) == Some(command) <==> command.representable() && encode_command(
            command,
        ) == bytes,
{
    if decode_command(bytes) == Some(command) {
        lemma_parsed_record_is_encoded(bytes);
        assert(bytes.subrange(0, bytes.len() as int) =~= bytes);
    }
    if command.representable() && encode_command(command) == bytes {
        lemma_parse_encoded_record(command, Seq::empty());
        assert(encode_command(command) + Seq::<u8>::empty() =~= encode_command(command));
    }
}

/// Two commands with the same record are the same command.
pub proof fn lemma_encode_injective(first: CommandView, second: CommandView)
    requires
        first.representable(),
        second.representable(),
        encode_command(first) == encode_command(second),
    ensures
        first == second,
{
    lemma_parse_encoded_record(first, Seq::empty());
    lemma_parse_encoded_record(second, Seq::empty());
}

/// What stands at the front of a byte slice, read as a record.
#[derive(Debug, Clone, PartialEq, Eq)]
pub enum Decoded {
    /// A whole record, `length` bytes long.
    Record { command: Command, length: usize },
    /// The bytes end before the record does.
    Incomplete,
    /// The bytes cannot be the start of any record.
    Corrupt,
}

impl View for Decoded {
    type V = RecordParse;

    open spec fn view(&self) -> RecordParse {
        match *self {
            Decoded::Record { command, length } => RecordParse::Record {
                command: command@,
                length: length as nat,
            },
            Decoded::Incomplete => RecordParse::Incomplete,
            Decoded::Corrupt => RecordParse::Corrupt,
        }
    }
}

enum FieldRead {
    Field { text: String, length: usize },
    Incomplete,
    Corrupt,
}

impl View for FieldRead {
    type V = FieldParse;

    closed spec fn view(&self) -> FieldParse {
        match *self {
            FieldRead::Field { text, length } => FieldParse::Field {
                text: text@,
                length: length as nat,
            },
            FieldRead::Incomplete => FieldParse::Incomplete,
            FieldRead::Corrupt => FieldParse::Corrupt,
        }
    }
}

/// `String::from_utf8` of the standard library: the text that the bytes
/// spell when they are well-formed UTF-8, and nothing when they are not.
#[verifier::external_body]
fn string_from_utf8(bytes: Vec<u8>) -> (text: Option<String>)
    ensures
        text is Some <==> valid_utf8(bytes@),
        text is Some ==> text->0@ == decode_utf8(bytes@),
{
    String::from_utf8(bytes).ok()
}

/// Appends one length-prefixed text field to `out`.
fn write_field(out: &mut Vec<u8>, text: &str)
    ensures
        final(out)@ == old(out)@ + encode_field(text@),
        encode_utf8(text@).len() <= u64::MAX,
{
    let raw = text.as_bytes();
    let mut head = u64_to_le_bytes(raw.len() as u64);
    out.append(&mut head);
    out.extend_from_slice(raw);
    assert(out@ =~= old(out)@ + encode_field(text@));
}

/// Reads the length-prefixed text field that starts at `start`.
fn read_field(bytes: &[u8], start: usize) -> (field: FieldRead)
    requires
        start <= bytes@.len(),
    ensures
        field@ == parse_field(bytes@.skip(start as int)),
{
    let ghost tail = bytes@.skip(start as int);
    let room: usize = bytes.len() - start;
    if room < 8 {
        return FieldRead::Incomplete;
    }
    let n = u64_from_le_bytes(slice_subrange(bytes, start, start + 8));
    assert(tail.subrange(0, 8) =~= bytes@.subrange(start as int, start + 8));
    if n > (room - 8) as u64 {
        return FieldRead::Incomplete;
    }
    let len: usize = n as usize;
    let raw = slice_to_vec(slice_subrange(bytes, start + 8, start + 8 + len));
    assert(tail.subrange(8, 8 + len) =~= raw@);
    match string_from_utf8(raw) {
        Some(text) => FieldRead::Field { text, length: 8 + len },
        None => FieldRead::Corrupt,
    }
}

/// Reads the record that starts at `start`.
pub(crate) fn decode_at(bytes: &[u8], start: usize) -> (found: Decoded)
    requires
        start <= bytes@.len(),
    ensures
        found@ == parse_record(bytes@.skip(start as int)),
{
    let ghost tail = bytes@.skip(start as int);
    if start == bytes.len() {
        return Decoded::Incomplete;
    }
    let tag = bytes[start];
    if tag != TAG_PUT && tag != TAG_REMOVE {
        return Decoded::Corrupt;
    }
    assert(tail.skip(1) =~= bytes@.skip(start + 1));
    let (key, n1) = match read_field(bytes, start + 1) {
        FieldRead::Field { text, length } => (text, length),
        FieldRead::Incomplete => { return Decoded::Incomplete; },
        FieldRead::Corrupt => { return Decoded::Corrupt; },
    };
    proof {
        lemma_parsed_field_is_encoded(tail.skip(1));
    }
    if tag == TAG_REMOVE {
        return Decoded::Record { command: Command::Remove { key }, length: 1 + n1 };
    }
    assert(tail.skip(1 + n1) =~= bytes@.skip(start + 1 + n1));
    match read_field(bytes, start + 1 + n1) {
        FieldRead::Field { text, length } => {
            proof {
                lemma_parsed_field_is_encoded(tail.skip(1 + n1));
            }
            Decoded::Record { command: Command::Put { key, value: text }, length: 1 + n1 + length }
        },
        FieldRead::Incomplete => Decoded::Incomplete,
        FieldRead::Corrupt => Decoded::Corrupt,
    }
}

/// Serializes a command into its record.
pub fn encode(command: &Command) -> (bytes: Vec<u8>)
    ensures
        bytes@ == encode_command(command@),
        command@.representable(),
{
    let mut out: Vec<u8> = Vec::new();
    match command {
        Command::Put { key, value } => {
            out.push(TAG_PUT);
            write_field(&mut out, key.as_str());
            write_field(&mut out, value.as_str());
        },
        Command::Remove { key } => {
            out.push(TAG_REMOVE);
            write_field(&mut out, key.as_str());
        },
    }
    assert(out@ =~= encode_command(command@));
    out
}

/// Reads the record at the front of `bytes`, which may be followed by more.
pub fn decode_prefix(bytes: &[u8]) -> (found: Decoded)
    ensures
        found@ == parse_record(bytes@),
{
    assert(bytes@.skip(0) =~= bytes@);
    decode_at(bytes, 0)
}

/// Deserializes a record: the inverse of [`encode`].
///
/// Succeeds exactly on the bytes that are the record of some command, and
/// reports anything else, cut-off records included, as a corrupt log.
pub fn decode(bytes: &[u8]) -> (result: Result<Command, KvsError>)
    ensures
        (match result {
            Ok(command) => decode_command(bytes@) == Some(command@),
            Err(error) => error == KvsError::CorruptLog && decode_command(bytes@) is None,
        }),
{
    match decode_prefix(bytes) {
        Decoded::Record { command, length } => {
            if length == bytes.len() {
                Ok(command)
            } else {
                Err(KvsError::CorruptLog)
            }
        },
        _ => Err(KvsError::CorruptLog),
    }
}

} // verus!
