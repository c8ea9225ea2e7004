use rip::error::Error;
use rip::proto::entry::ALLOWED_NETMASK;
use rip::proto::message::has_unknown_command_byte;
use rip::{ipv4, Command, Entry, Message};

fn sample_entry() -> Entry {
    Entry {
        address_family_id: 2,
        route_tag: 10,
        ip_address: ipv4(129, 21, 60, 79),
        subnet_mask: 24,
        metric: 10,
    }
}

#[test]
fn entry_test_encode_decode() {
    let entry = Entry {
        address_family_id: 2,
        route_tag: 10,
        ip_address: ipv4(129, 21, 60, 79),
        subnet_mask: 24,
        metric: 10,
    };

    let encoded = entry.encode().unwrap();
    let decoded = Entry::decode(&encoded).unwrap();

    assert_eq!(decoded, entry);
}

#[test]
fn message_test_encode_decode() {
    let message = Message {
        command: Command::Request,
        entries: vec![
            Entry {
                address_family_id: 0,
                route_tag: 10,
                ip_address: ipv4(129, 21, 60, 79),
                subnet_mask: 24,
                metric: 10,
            },
            Entry {
                address_family_id: 2,
                route_tag: 20,
                ip_address: ipv4(19, 23, 61, 89),
                subnet_mask: 10,
                metric: 2,
            },
        ],
    };

    let encoded = message.encode().unwrap();
    let decoded = Message::decode(&encoded).unwrap();

    assert_eq!(message, decoded);
}

#[test]
fn ipv4_is_big_endian() {
    assert_eq!(ipv4(129, 21, 60, 79), 0x81153c4f);
    assert_eq!(ipv4(255, 255, 255, 0), ALLOWED_NETMASK);
}

#[test]
fn entry_encodes_to_twenty_big_endian_bytes() {
    let encoded = sample_entry().encode().unwrap();
    assert_eq!(
        encoded,
        vec![0, 2, 0, 10, 129, 21, 60, 79, 0, 0, 0, 24, 0, 0, 0, 0, 0, 0, 0, 10]
    );
}

#[test]
fn entry_decode_reads_fields_and_ignores_trailing_bytes() {
    let raw = [
        0, 2, 1, 2, 10, 0, 0, 1, 255, 255, 255, 0, 9, 9, 9, 9, 0, 0, 1, 0, 7, 7,
    ];
    let entry = Entry::decode(&raw).unwrap();
    assert_eq!(
        entry,
        Entry {
            address_family_id: 2,
            route_tag: 0x0102,
            ip_address: ipv4(10, 0, 0, 1),
            subnet_mask: 0xffffff00,
            metric: 256,
        }
    );
}

#[test]
fn entry_decode_refuses_short_input() {
    let raw = [0u8; 19];
    assert_eq!(Entry::decode(&raw), Err(Error::MalformedEntry));
    assert_eq!(Entry::decode(&[]), Err(Error::MalformedEntry));
}

#[test]
fn entry_validate_checks_mask_then_metric() {
    let mut entry = sample_entry();
    assert_eq!(entry.validate(), Err(Error::InvalidNetmask(24)));
    entry.subnet_mask = ALLOWED_NETMASK;
    assert_eq!(entry.validate(), Ok(()));
    entry.metric = 0;
    assert_eq!(entry.validate(), Err(Error::MetricOutOfBounds(0)));
    entry.metric = 17;
    assert_eq!(entry.validate(), Err(Error::MetricOutOfBounds(17)));
    entry.metric = 16;
    assert_eq!(entry.validate(), Ok(()));
    entry.metric = 1;
    assert_eq!(entry.validate(), Ok(()));
    entry.subnet_mask = 0xffff0000;
    entry.metric = 99;
    assert_eq!(entry.validate(), Err(Error::InvalidNetmask(0xffff0000)));
}

#[test]
fn entry_network_prefix_masks_address() {
    let mut entry = sample_entry();
    entry.subnet_mask = ALLOWED_NETMASK;
    assert_eq!(entry.network_prefix(), ipv4(129, 21, 60, 0));
}

#[test]
fn command_codes() {
    assert_eq!(Command::from(1), Ok(Command::Request));
    assert_eq!(Command::from(2), Ok(Command::Response));
    assert_eq!(Command::from(0), Err(Error::UnknownCommand(0)));
    assert_eq!(Command::from(3), Err(Error::UnknownCommand(3)));
    assert_eq!(Command::Request.as_code(), 1);
    assert_eq!(Command::Response.as_code(), 2);
    assert_eq!(Command::from(Command::Response.as_code()), Ok(Command::Response));
}

#[test]
fn message_encodes_header_then_entries() {
    let message = Message {
        command: Command::Response,
        entries: vec![sample_entry()],
    };
    let encoded = message.encode().unwrap();
    assert_eq!(encoded.len(), 24);
    assert_eq!(&encoded[..4], &[2, 2, 0, 0]);
    assert_eq!(&encoded[4..], &sample_entry().encode().unwrap()[..]);

    let empty = Message {
        command: Command::Request,
        entries: vec![],
    };
    assert_eq!(empty.encode().unwrap(), vec![1, 2, 0, 0]);
}

#[test]
fn message_decode_refuses_bad_headers() {
    assert_eq!(Message::decode(&[]), Err(Error::MalformedMessage));
    assert_eq!(Message::decode(&[2]), Err(Error::MalformedMessage));
    assert_eq!(Message::decode(&[2, 2, 0]), Err(Error::MalformedMessage));
    assert_eq!(Message::decode(&[2, 1, 0, 0]), Err(Error::MalformedMessage));
    assert_eq!(Message::decode(&[2, 2, 0, 1]), Err(Error::MalformedMessage));
    assert_eq!(Message::decode(&[2, 2, 1, 0]), Err(Error::MalformedMessage));
}

#[test]
fn message_decode_ignores_partial_trailing_entry() {
    let mut raw = vec![2u8, 2, 0, 0];
    raw.extend(sample_entry().encode().unwrap());
    raw.extend(vec![1u8, 2, 3, 4, 5]);
    let decoded = Message::decode(&raw).unwrap();
    assert_eq!(decoded.command, Command::Response);
    assert_eq!(decoded.entries, vec![sample_entry()]);

    let header_only = Message::decode(&[1, 2, 0, 0, 9, 9]).unwrap();
    assert_eq!(header_only.command, Command::Request);
    assert!(header_only.entries.is_empty());
}

#[test]
fn unknown_command_byte_is_detected() {
    assert!(has_unknown_command_byte(&[3, 2, 0, 0]));
    assert!(has_unknown_command_byte(&[0, 2, 0, 0, 1]));
    assert!(!has_unknown_command_byte(&[1, 2, 0, 0]));
    assert!(!has_unknown_command_byte(&[3, 1, 0, 0]));
    assert!(!has_unknown_command_byte(&[3, 2, 0]));
}
