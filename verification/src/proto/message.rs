//! A RIP version 2 message: a four-byte header and a list of entries.
use vstd::prelude::*;
use crate::bytes::{read_u8, u16_be_bytes, write_u16, write_u8};
use crate::error::Error;
use crate::proto::command::{command_code, command_of_code, Command};
use crate::proto::entry::{
    entry_of, lemma_entry_roundtrip, parse_entry, spec_encode_entry, spec_parse_entry, Entry,
    ENTRY_LEN,
};

verus! {

/// The number of bytes of the header: command, version, two zero bytes.
pub const HEADER_LEN: usize = 4;

/// The most entries that one message carries.
pub const MAX_ENTRIES: usize = 25;

/// The largest message that is read: a header and 25 entries; a longer
/// datagram is cut to this length.
pub const MAX_MESSAGE_LEN: usize = HEADER_LEN + MAX_ENTRIES * ENTRY_LEN;

/// The protocol version that every message carries.
pub const RIP_VERSION: u8 = 2;

/// A RIP message.
#[derive(Debug, PartialEq, Eq)]
pub struct Message {
    pub command: Command,
    pub entries: Vec<Entry>,
}

/// The header of `s` is well formed: version 2 and two zero bytes after
/// the command byte (the command byte itself is not looked at).
pub open spec fn header_ok(s: Seq<u8>) -> bool {
    &&& s.len() >= HEADER_LEN
    &&& s[1] == RIP_VERSION
    &&& s[2] == 0
    &&& s[3] == 0
}

/// A well-formed header whose command byte names no command: reading
/// such a message is a fault of the caller.
pub open spec fn has_unknown_command(s: Seq<u8>) -> bool {
    header_ok(s) && command_of_code(s[0]) is None
}

/// The entries that `s` holds: one per whole twenty bytes, in order;
/// bytes that do not fill a last entry are left alone.
pub open spec fn spec_entries(s: Seq<u8>) -> Seq<Entry> {
    Seq::new(s.len() / ENTRY_LEN as nat, |i: int| entry_of(s.subrange(20 * i, 20 * i + 20)))
}

/// What reading a message from `s` gives: its command and entries where
/// the header is well formed and names a command, else nothing.
pub open spec fn spec_decode_message(s: Seq<u8>) -> Option<(Command, Seq<Entry>)> {
    if header_ok(s) && command_of_code(s[0]) is Some {
        Some((command_of_code(s[0]).unwrap(), spec_entries(s.skip(HEADER_LEN as int))))
    } else {
        None
    }
}

/// The bytes of a list of entries, one after another.
pub open spec fn encode_entries(es: Seq<Entry>) -> Seq<u8>
    decreases es.len(),
{
    if es.len() == 0 {
        Seq::empty()
    } else {
        encode_entries(es.drop_last()) + spec_encode_entry(es.last())
    }
}

/// The bytes of a message: header, then the entries.
pub open spec fn spec_encode_message(c: Command, es: Seq<Entry>) -> Seq<u8> {
    seq![command_code(c), RIP_VERSION, 0u8, 0u8] + encode_entries(es)
}

/// Reads a message. A message with a well-formed header that names a
/// command is read, with as many entries as whole twenty bytes follow
/// the header; any other input is refused.
pub fn parse_message(raw: &[u8]) -> (r: Option<Message>)
    requires
        !has_unknown_command(raw@),
    ensures
        match spec_decode_message(raw@) {
            Some((c, es)) => r matches Some(m) && m.command == c && m.entries@ == es,
            None => r is None,
        },
{
    let len = raw.len();
    let command = match read_u8(raw) {
        Some(c) => c,
        None => return None,
    };
    if len < 2 || raw[1] != RIP_VERSION {
        return None;
    }
    if len < HEADER_LEN || raw[2] != 0 || raw[3] != 0 {
        return None;
    }
    let ghost body = raw@.skip(HEADER_LEN as int);
    let mut entries: Vec<Entry> = Vec::new();
    let mut pos: usize = HEADER_LEN;
    loop
        invariant
            len == raw@.len(),
            body == raw@.skip(HEADER_LEN as int),
            HEADER_LEN <= pos <= len,
            pos == HEADER_LEN + ENTRY_LEN * entries@.len(),
            forall|i: int|
                0 <= i < entries@.len() ==> #[trigger] entries@[i] == entry_of(
                    body.subrange(20 * i, 20 * i + 20),
                ),
        ensures
            entries@ =~= spec_entries(body),
        decreases len - pos,
    {
        let rest = &raw[pos..len];
        match parse_entry(rest) {
            Some(entry) => {
                let ghost k = entries@.len() as int;
                assert(rest@.subrange(0, 20) =~= body.subrange(20 * k, 20 * k + 20));
                assert(entry_of(rest@) == entry_of(rest@.subrange(0, 20)));
                entries.push(entry);
                pos = pos + ENTRY_LEN;
            },
            None => {
                assert(body.len() / 20 == entries@.len());
                break;
            },
        }
    }
    Some(Message { command: Command::from(command).unwrap(), entries })
}

/// Whether `raw` has a well-formed header whose command byte names no
/// command; reading such a message is refused by `Message::decode`'s
/// contract, as the reader of the wire format would panic on it.
pub fn has_unknown_command_byte(raw: &[u8]) -> (r: bool)
    ensures
        r == has_unknown_command(raw@),
{
    raw.len() >= HEADER_LEN && raw[1] == RIP_VERSION && raw[2] == 0 && raw[3] == 0 && raw[0] != 1
        && raw[0] != 2
}

impl Message {
    /// Reads a message; input that does not hold one is refused.
    pub fn decode(raw: &[u8]) -> (r: Result<Message, Error>)
        requires
            !has_unknown_command(raw@),
        ensures
            match spec_decode_message(raw@) {
                Some((c, es)) => r matches Ok(m) && m.command == c && m.entries@ == es,
                None => r == Err::<Message, Error>(Error::MalformedMessage),
            },
    {
        match parse_message(raw) {
            Some(message) => Ok(message),
            None => Err(Error::MalformedMessage),
        }
    }

    /// The bytes of this message.
    pub fn encode(&self) -> (r: Result<Vec<u8>, Error>)
        requires
            HEADER_LEN + ENTRY_LEN * self.entries@.len() <= isize::MAX,
        ensures
            match r {
                Ok(bytes) => bytes@ == spec_encode_message(self.command, self.entries@),
                Err(_) => false,
            },
    {
        let mut output: Vec<u8> = Vec::new();
        write_u8(&mut output, self.command.as_code())?;
        write_u8(&mut output, RIP_VERSION)?;
        write_u16(&mut output, 0)?;
        assert(u16_be_bytes(0) =~= seq![0u8, 0u8]);
        assert(output@ =~= spec_encode_message(self.command, self.entries@.take(0)));
        let n = self.entries.len();
        for i in 0..n
            invariant
                n == self.entries@.len(),
                HEADER_LEN + ENTRY_LEN * n <= isize::MAX,
                output@ == spec_encode_message(self.command, self.entries@.take(i as int)),
                output@.len() == HEADER_LEN + ENTRY_LEN * i,
        {
            let mut encoded_entry = self.entries[i].encode()?;
            proof {
                lemma_encode_entries_len(self.entries@.take(i as int));
                lemma_entry_roundtrip(self.entries@[i as int]);
                assert(self.entries@.take(i + 1).drop_last() =~= self.entries@.take(i as int));
            }
            output.append(&mut encoded_entry);
            assert(output@ =~= spec_encode_message(self.command, self.entries@.take(i + 1)));
        }
        assert(self.entries@.take(n as int) =~= self.entries@);
        Ok(output)
    }
}

/// The bytes of `es` are twenty per entry.
pub proof fn lemma_encode_entries_len(es: Seq<Entry>)
    ensures
        encode_entries(es).len() == ENTRY_LEN * es.len(),
    decreases es.len(),
{
    if es.len() > 0 {
        lemma_encode_entries_len(es.drop_last());
        lemma_entry_roundtrip(es.last());
    }
}

/// The twenty bytes of `es` from `20 * i` on are those of its `i`-th entry.
pub proof fn lemma_encode_entries_index(es: Seq<Entry>, i: int)
    requires
        0 <= i < es.len(),
    ensures
        encode_entries(es).subrange(20 * i, 20 * i + 20) == spec_encode_entry(es[i]),
    decreases es.len(),
{
    let prefix = encode_entries(es.drop_last());
    lemma_encode_entries_len(es.drop_last());
    lemma_entry_roundtrip(es.last());
    if i < es.len() - 1 {
        lemma_encode_entries_index(es.drop_last(), i);
        assert(encode_entries(es).subrange(20 * i, 20 * i + 20) =~= prefix.subrange(
            20 * i,
            20 * i + 20,
        ));
    } else {
        assert(encode_entries(es).subrange(20 * i, 20 * i + 20) =~= spec_encode_entry(es[i]));
    }
}

/// Reading back the bytes of a message gives its command and entries.
pub proof fn lemma_message_roundtrip(c: Command, es: Seq<Entry>)
    ensures
        !has_unknown_command(spec_encode_message(c, es)),
        spec_decode_message(spec_encode_message(c, es)) == Some((c, es)),
{
    let s = spec_encode_message(c, es);
    let body = s.skip(HEADER_LEN as int);
    assert(body =~= encode_entries(es));
    lemma_encode_entries_len(es);
    assert forall|i: int| 0 <= i < es.len() implies entry_of(body.subrange(20 * i, 20 * i + 20))
        == es[i] by {
        lemma_encode_entries_index(es, i);
        lemma_entry_roundtrip(es[i]);
        assert(spec_parse_entry(spec_encode_entry(es[i])) == Some(es[i]));
    }
    assert(spec_entries(body) =~= es);
}

} // verus!
