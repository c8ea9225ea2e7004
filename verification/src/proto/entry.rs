//! A route entry of a RIP version 2 message: twenty bytes on the wire.
use vstd::prelude::*;
use crate::bytes::{
    lemma_u16_roundtrip, lemma_u32_roundtrip, read_u16, read_u32, u16_at, u16_be_bytes, u32_at,
    u32_be_bytes, write_u16, write_u32,
};
use crate::error::Error;

verus! {

/// The only subnet mask that a received entry may carry (a /24).
pub const ALLOWED_NETMASK: u32 = 0xffffff00;

/// The number of bytes of an entry on the wire.
pub const ENTRY_LEN: usize = 20;

/// The metric that means "unreachable".
pub const INFINITY: u32 = 16;

/// One route as a RIP message carries it. The address is an IPv4 address
/// as a big-endian `u32` (`129.21.60.79` is `0x81153c4f`).
#[derive(Debug, Clone, Copy, PartialEq, Eq, Structural)]
pub struct Entry {
    pub address_family_id: u16,
    pub route_tag: u16,
    pub ip_address: u32,
    pub subnet_mask: u32,
    pub metric: u32,
}

/// The entry that the first twenty bytes of `s` hold: family, tag,
/// address, mask, four bytes that are skipped, and metric.
pub open spec fn entry_of(s: Seq<u8>) -> Entry {
    Entry {
        address_family_id: u16_at(s, 0),
        route_tag: u16_at(s, 2),
        ip_address: u32_at(s, 4),
        subnet_mask: u32_at(s, 8),
        metric: u32_at(s, 16),
    }
}

/// What parsing finds at the start of `s`: an entry where twenty bytes
/// are there, else nothing. Bytes after the twentieth are left alone.
pub open spec fn spec_parse_entry(s: Seq<u8>) -> Option<Entry> {
    if s.len() >= ENTRY_LEN {
        Some(entry_of(s))
    } else {
        None
    }
}

/// The twenty bytes of an entry; the four bytes after the mask are zero.
pub open spec fn spec_encode_entry(e: Entry) -> Seq<u8> {
    u16_be_bytes(e.address_family_id) + u16_be_bytes(e.route_tag) + u32_be_bytes(e.ip_address)
        + u32_be_bytes(e.subnet_mask) + u32_be_bytes(0) + u32_be_bytes(e.metric)
}

/// A received entry is accepted when its mask is the allowed one and its
/// metric lies in 1..=16.
pub open spec fn entry_is_valid(e: Entry) -> bool {
    e.subnet_mask == ALLOWED_NETMASK && 1 <= e.metric <= INFINITY
}

/// Parses the twenty bytes of an entry at the start of `input`; what
/// follows them is not read.
pub fn parse_entry(input: &[u8]) -> (r: Option<Entry>)
    ensures
        r == spec_parse_entry(input@),
{
    let len = input.len();
    let address_family_id = match read_u16(input) {
        Some(v) => v,
        None => return None,
    };
    let route_tag = match read_u16(&input[2..len]) {
        Some(v) => v,
        None => return None,
    };
    let ip_address = match read_u32(&input[4..len]) {
        Some(v) => v,
        None => return None,
    };
    if len < 8 {
        return None;
    }
    let subnet_mask = match read_u32(&input[8..len]) {
        Some(v) => v,
        None => return None,
    };
    if len < 16 {
        return None;
    }
    let metric = match read_u32(&input[16..len]) {
        Some(v) => v,
        None => return None,
    };
    Some(Entry { address_family_id, route_tag, ip_address, subnet_mask, metric })
}

impl Entry {
    /// Reads an entry from the start of `raw`.
    pub fn decode(raw: &[u8]) -> (r: Result<Entry, Error>)
        ensures
            match spec_parse_entry(raw@) {
                Some(e) => r == Ok::<Entry, Error>(e),
                None => r == Err::<Entry, Error>(Error::MalformedEntry),
            },
    {
        match parse_entry(raw) {
            Some(entry) => Ok(entry),
            None => Err(Error::MalformedEntry),
        }
    }

    /// The twenty bytes of this entry.
    pub fn encode(&self) -> (r: Result<Vec<u8>, Error>)
        ensures
            match r {
                Ok(bytes) => bytes@ == spec_encode_entry(*self),
                Err(_) => false,
            },
    {
        let mut output: Vec<u8> = Vec::new();
        write_u16(&mut output, self.address_family_id)?;
        write_u16(&mut output, self.route_tag)?;
        write_u32(&mut output, self.ip_address)?;
        write_u32(&mut output, self.subnet_mask)?;
        write_u32(&mut output, 0)?;
        write_u32(&mut output, self.metric)?;
        assert(output@ =~= spec_encode_entry(*self));
        Ok(output)
    }

    /// Accepts an entry whose mask is `ALLOWED_NETMASK` and whose metric
    /// lies in 1..=16; the mask is checked first.
    pub fn validate(&self) -> (r: Result<(), Error>)
        ensures
            self.subnet_mask != ALLOWED_NETMASK ==> r == Err::<(), Error>(
                Error::InvalidNetmask(self.subnet_mask),
            ),
            self.subnet_mask == ALLOWED_NETMASK && !(1 <= self.metric <= INFINITY) ==> r
                == Err::<(), Error>(Error::MetricOutOfBounds(self.metric)),
            entry_is_valid(*self) ==> r is Ok,
    {
        if self.subnet_mask != ALLOWED_NETMASK {
            return Err(Error::InvalidNetmask(self.subnet_mask));
        };
        if !(self.metric >= 1 && self.metric <= INFINITY) {
            return Err(Error::MetricOutOfBounds(self.metric));
        };
        Ok(())
    }

    /// The network that this entry names: its address under its mask.
    pub fn network_prefix(&self) -> (r: u32)
        ensures
            r == self.ip_address & self.subnet_mask,
    {
        self.ip_address & self.subnet_mask
    }
}

/// Reading back the bytes of an entry gives the entry.
pub proof fn lemma_entry_roundtrip(e: Entry)
    ensures
        spec_encode_entry(e).len() == ENTRY_LEN,
        spec_parse_entry(spec_encode_entry(e)) == Some(e),
{
    let s = spec_encode_entry(e);
    lemma_u16_roundtrip(e.address_family_id);
    lemma_u16_roundtrip(e.route_tag);
    lemma_u32_roundtrip(e.ip_address);
    lemma_u32_roundtrip(e.subnet_mask);
    lemma_u32_roundtrip(e.metric);
    assert(u16_at(s, 0) == u16_at(u16_be_bytes(e.address_family_id), 0));
    assert(u16_at(s, 2) == u16_at(u16_be_bytes(e.route_tag), 0));
    assert(u32_at(s, 4) == u32_at(u32_be_bytes(e.ip_address), 0));
    assert(u32_at(s, 8) == u32_at(u32_be_bytes(e.subnet_mask), 0));
    assert(u32_at(s, 16) == u32_at(u32_be_bytes(e.metric), 0));
}

} // verus!
