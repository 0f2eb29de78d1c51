use pumpkin::chat_command_signed::SChatCommandSigned;
use pumpkin::codec::ReadingError;

fn string(s: &str) -> Vec<u8> {
    let mut v = vec![s.len() as u8];
    v.extend_from_slice(s.as_bytes());
    v
}

fn packet(command: &str, signatures: &[(&str, u8)]) -> Vec<u8> {
    let mut v = string(command);
    v.extend_from_slice(&1_700_000_000_000i64.to_be_bytes());
    v.extend_from_slice(&(-42i64).to_be_bytes());
    v.push(signatures.len() as u8);
    for (name, fill) in signatures {
        v.extend(string(name));
        v.extend(std::iter::repeat(*fill).take(256));
    }
    v.extend_from_slice(&[0xac, 0x02]);
    v.extend_from_slice(&[0xff, 0x0f, 0x01]);
    v.push(0x5a);
    v
}

#[test]
fn reads_every_field() {
    let data = packet("msg Steve hi", &[("message", 7)]);
    let p = SChatCommandSigned::read(&data).unwrap().0;
    assert_eq!(p.command, "msg Steve hi");
    assert_eq!(p.timestamp, 1_700_000_000_000);
    assert_eq!(p.salt, -42);
    assert_eq!(p.argument_signatures.len(), 1);
    assert_eq!(p.argument_signatures[0].name, "message");
    assert_eq!(p.argument_signatures[0].signature, vec![7u8; 256]);
    assert_eq!(p.message_count.0, 300);
    assert_eq!(p.acknowledged, vec![0xff, 0x0f, 0x01]);
    assert_eq!(p.checksum, 0x5a);
}

#[test]
fn reads_without_signatures() {
    let data = packet("help", &[]);
    let p = SChatCommandSigned::read(&data).unwrap().0;
    assert_eq!(p.command, "help");
    assert!(p.argument_signatures.is_empty());
}

#[test]
fn trailing_bytes_are_ignored() {
    let mut data = packet("tp 1 2 3", &[("x", 1), ("y", 2)]);
    let plain = SChatCommandSigned::read(&data).unwrap().0;
    data.extend_from_slice(&[9, 9, 9]);
    let longer = SChatCommandSigned::read(&data).unwrap().0;
    assert_eq!(plain.command, longer.command);
    assert_eq!(plain.argument_signatures.len(), longer.argument_signatures.len());
    assert_eq!(plain.argument_signatures[1].signature, longer.argument_signatures[1].signature);
    assert_eq!(plain.checksum, longer.checksum);
}

#[test]
fn more_than_eight_signatures_are_refused() {
    let sigs: Vec<(&str, u8)> = (0..9).map(|_| ("a", 0u8)).collect();
    let data = packet("x", &sigs);
    assert_eq!(SChatCommandSigned::read(&data).err(), Some(ReadingError::TooLarge));
    let eight: Vec<(&str, u8)> = (0..8).map(|_| ("a", 0u8)).collect();
    assert!(SChatCommandSigned::read(&packet("x", &eight)).is_ok());
}

#[test]
fn long_argument_name_is_refused() {
    let data = packet("x", &[("abcdefghijklmnopq", 0)]);
    assert_eq!(SChatCommandSigned::read(&data).err(), Some(ReadingError::TooLarge));
    let data = packet("x", &[("abcdefghijklmnop", 0)]);
    assert!(SChatCommandSigned::read(&data).is_ok());
}

#[test]
fn truncated_packet_is_incomplete() {
    let data = packet("say hi", &[("a", 3)]);
    for cut in [0, 1, 7, 10, 30, data.len() - 1] {
        assert_eq!(SChatCommandSigned::read(&data[..cut]).err(), Some(ReadingError::Incomplete));
    }
}

#[test]
fn command_must_be_utf8() {
    let mut data = packet("ab", &[]);
    data[1] = 0xff;
    assert_eq!(SChatCommandSigned::read(&data).err(), Some(ReadingError::InvalidUtf8));
}

#[test]
fn command_longer_than_limit_is_refused() {
    let mut data = vec![0x80, 0x80, 0x02];
    data.extend(std::iter::repeat(b'a').take(32768));
    assert_eq!(SChatCommandSigned::read(&data).err(), Some(ReadingError::TooLarge));
}

#[test]
fn negative_signature_count_is_refused() {
    let mut data = string("x");
    data.extend_from_slice(&[0u8; 16]);
    data.extend_from_slice(&[0xff, 0xff, 0xff, 0xff, 0x0f]);
    assert_eq!(SChatCommandSigned::read(&data).err(), Some(ReadingError::TooLarge));
}

#[test]
fn reports_bytes_taken() {
    let data: [u8; 25] = [
        0x02, 0x74, 0x70, 0, 0, 0, 0, 0, 0, 0, 1, 0, 0, 0, 0, 0, 0, 0, 2, 0x00, 0x05, 0x01, 0x02, 0x03, 0x07,
    ];
    let (p, end) = SChatCommandSigned::read(&data).unwrap();
    assert_eq!(end, 25);
    assert_eq!(p.command, "tp");
    assert_eq!(p.timestamp, 1);
    assert_eq!(p.salt, 2);
    assert!(p.argument_signatures.is_empty());
    assert_eq!(p.message_count.0, 5);
    assert_eq!(p.acknowledged, vec![1, 2, 3]);
    assert_eq!(p.checksum, 7);
    let mut longer = data.to_vec();
    longer.push(0xaa);
    assert_eq!(SChatCommandSigned::read(&longer).unwrap().1, 25);
}

#[test]
fn written_packet_is_read_back() {
    let command = "say héllo ☃";
    let mut data = vec![command.len() as u8];
    data.extend_from_slice(command.as_bytes());
    data.extend_from_slice(&(-5i64).to_be_bytes());
    data.extend_from_slice(&i64::MAX.to_be_bytes());
    data.push(1);
    data.extend(string("arg"));
    data.extend((0..=255u8).collect::<Vec<u8>>());
    data.extend_from_slice(&[0xff, 0xff, 0xff, 0xff, 0x0f]);
    data.extend_from_slice(&[4, 5, 6]);
    data.push(0xee);
    let (p, end) = SChatCommandSigned::read(&data).unwrap();
    assert_eq!(end, data.len());
    assert_eq!(p.command, command);
    assert_eq!(p.timestamp, -5);
    assert_eq!(p.salt, i64::MAX);
    assert_eq!(p.argument_signatures[0].name, "arg");
    assert_eq!(p.argument_signatures[0].signature, (0..=255u8).collect::<Vec<u8>>());
    assert_eq!(p.message_count.0, -1);
    assert_eq!(p.acknowledged, vec![4, 5, 6]);
    assert_eq!(p.checksum, 0xee);
}

#[test]
fn every_strict_prefix_is_refused() {
    let data = packet("give @p diamond 64", &[("count", 9)]);
    assert_eq!(SChatCommandSigned::read(&data).unwrap().1, data.len());
    for cut in 0..data.len() {
        assert!(SChatCommandSigned::read(&data[..cut]).is_err());
    }
}
