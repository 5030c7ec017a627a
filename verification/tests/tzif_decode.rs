use tzif_util::stream::ByteStream;
use tzif_util::tzif::{Data, Error, Header, LocalTimeTypeRecord, TZIF};

fn header_bytes(
    version: u8,
    isutcnt: u32,
    isstdcnt: u32,
    leapcnt: u32,
    timecnt: u32,
    typecnt: u32,
    charcnt: u32,
) -> Vec<u8> {
    let mut v = Vec::new();
    v.extend_from_slice(b"TZif");
    v.push(version);
    v.extend_from_slice(&[0u8; 15]);
    for c in [isutcnt, isstdcnt, leapcnt, timecnt, typecnt, charcnt] {
        v.extend_from_slice(&c.to_be_bytes());
    }
    v
}

#[test]
fn rejects_bad_signature() {
    let mut s = ByteStream::new(b"notazifnotazifnotazifnotazifnotazifnotazifnotazif".to_vec());
    assert!(matches!(TZIF::read(&mut s), Err(Error::InvalidSignature)));
    // A mismatch is detected without reading past it, even on a short stream.
    let mut short = ByteStream::new(vec![88, 90]);
    assert!(matches!(TZIF::read(&mut short), Err(Error::InvalidSignature)));
    assert_eq!(short.remaining_len(), 1);
}

#[test]
fn short_header_is_io() {
    // A strict prefix of the signature can never show a mismatch.
    let mut s = ByteStream::new(b"TZ".to_vec());
    assert!(matches!(TZIF::read(&mut s), Err(Error::Io)));
    let mut t = ByteStream::new(b"TZif\x00".to_vec());
    assert!(matches!(TZIF::read(&mut t), Err(Error::Io)));
}

#[test]
fn single_block_then_eof() {
    let mut bytes = header_bytes(0, 0, 0, 0, 1, 0, 0);
    bytes.extend_from_slice(&1700000000i32.to_be_bytes());
    bytes.push(7);
    let mut s = ByteStream::new(bytes);
    let t = TZIF::read(&mut s).unwrap();
    assert_eq!(t.block_v1.data.transition_times, vec![1700000000i64]);
    assert_eq!(t.block_v1.data.transition_types, vec![7u8]);
    assert!(t.block_v2p.is_none());
    assert_eq!(s.remaining_len(), 0);
}

#[test]
fn trailing_garbage_tolerated() {
    let mut bytes = header_bytes(0, 0, 0, 0, 1, 0, 0);
    bytes.extend_from_slice(&1700000000i32.to_be_bytes());
    bytes.push(7);
    bytes.extend_from_slice(b"garbage");
    let mut s = ByteStream::new(bytes);
    let t = TZIF::read(&mut s).unwrap();
    assert_eq!(t.block_v1.data.transition_times, vec![1700000000i64]);
    assert!(t.block_v2p.is_none());
}

#[test]
fn first_block_width_is_pinned() {
    // The first header claims version 2, yet its body uses 32-bit times.
    let mut bytes = header_bytes(2, 0, 0, 0, 1, 0, 0);
    bytes.extend_from_slice(&1700000000i32.to_be_bytes());
    bytes.push(0);
    let mut s = ByteStream::new(bytes);
    let t = TZIF::read(&mut s).unwrap();
    assert_eq!(t.block_v1.header.version, 0);
    assert_eq!(t.block_v1.data.transition_times, vec![1700000000i64]);
}

#[test]
fn round_trip_minimal_record() {
    let mut bytes = header_bytes(0, 0, 0, 0, 0, 1, 1);
    bytes.extend_from_slice(&3600i32.to_be_bytes());
    bytes.push(0); // dst
    bytes.push(0); // designation index
    bytes.push(0); // one designation octet
    let mut s = ByteStream::new(bytes);
    let t = TZIF::read(&mut s).unwrap();
    assert_eq!(
        t.block_v1.data.local_time_type_records,
        vec![LocalTimeTypeRecord { utoff: 3600, dst: false, idx: 0 }]
    );
    assert!(t.block_v1.data.transition_times.is_empty());
    assert!(t.block_v2p.is_none());
}

#[test]
fn truncated_region_is_io() {
    // The same minimal block as in the round trip, one octet short.
    let mut bytes = header_bytes(0, 0, 0, 0, 0, 1, 1);
    bytes.extend_from_slice(&3600i32.to_be_bytes());
    bytes.push(0);
    bytes.push(0);
    let mut s = ByteStream::new(bytes);
    assert!(matches!(TZIF::read(&mut s), Err(Error::Io)));
    // A transition-time region cut by one octet fails the same way.
    let mut bytes2 = header_bytes(0, 0, 0, 0, 1, 0, 0);
    bytes2.extend_from_slice(&[0x65, 0x53, 0xCB]);
    let mut s2 = ByteStream::new(bytes2);
    assert!(matches!(TZIF::read(&mut s2), Err(Error::Io)));
}

#[test]
fn data_read_uses_declared_width() {
    let header = Header {
        version: 2,
        isutcnt: 0,
        isstdcnt: 0,
        leapcnt: 0,
        timecnt: 1,
        typecnt: 0,
        charcnt: 0,
    };
    let mut wide = Vec::new();
    wide.extend_from_slice(&1700000000i64.to_be_bytes());
    wide.push(3);
    let mut s = ByteStream::new(wide);
    let d = Data::read(&mut s, &header).unwrap();
    assert_eq!(d.transition_times, vec![1700000000i64]);
    assert_eq!(d.transition_types, vec![3u8]);
    // Four octets are not enough for an 8-octet time value.
    let mut narrow = ByteStream::new(1700000000i32.to_be_bytes().to_vec());
    assert!(matches!(Data::read(&mut narrow, &header), Err(Error::Io)));
}

#[test]
fn second_block_decoded_with_own_version() {
    let mut bytes = header_bytes(0, 0, 0, 0, 0, 0, 0);
    bytes.extend_from_slice(&header_bytes(2, 0, 0, 1, 1, 1, 1));
    bytes.extend_from_slice(&1700000000i64.to_be_bytes()); // transition time
    bytes.push(0); // transition type
    bytes.extend_from_slice(&(-18000i32).to_be_bytes()); // utoff
    bytes.push(1); // dst
    bytes.push(0); // designation index
    bytes.push(0); // one designation octet
    bytes.extend_from_slice(&78796800i64.to_be_bytes()); // leap occurrence
    bytes.extend_from_slice(&1i32.to_be_bytes()); // leap correction
    let mut s = ByteStream::new(bytes);
    let t = TZIF::read(&mut s).unwrap();
    let b2 = t.block_v2p.expect("second block should be present");
    assert_eq!(b2.header.version, 2);
    assert_eq!(b2.data.transition_times, vec![1700000000i64]);
    assert_eq!(b2.data.transition_types, vec![0u8]);
    assert_eq!(
        b2.data.local_time_type_records,
        vec![LocalTimeTypeRecord { utoff: -18000, dst: true, idx: 0 }]
    );
    assert_eq!(b2.data.leap_second_records.len(), 1);
    assert_eq!(b2.data.leap_second_records[0].occurrence, 78796800);
    assert_eq!(b2.data.leap_second_records[0].correction, 1);
}

#[test]
fn second_block_failure_swallowed() {
    // A second header that parses but whose body is cut short.
    let mut bytes = header_bytes(0, 0, 0, 0, 0, 0, 0);
    bytes.extend_from_slice(&header_bytes(2, 0, 0, 0, 1, 0, 0));
    bytes.extend_from_slice(&[1, 2, 3]); // 8 octets declared, 3 present
    let mut s = ByteStream::new(bytes);
    let t = TZIF::read(&mut s).unwrap();
    assert!(t.block_v2p.is_none());
}

#[test]
fn header_fields_at_fixed_offsets() {
    let mut s = ByteStream::new(header_bytes(1, 1, 2, 3, 4, 5, 6));
    let h = Header::read(&mut s).unwrap();
    assert_eq!(h.version, 1);
    assert_eq!(h.isutcnt, 1);
    assert_eq!(h.isstdcnt, 2);
    assert_eq!(h.leapcnt, 3);
    assert_eq!(h.timecnt, 4);
    assert_eq!(h.typecnt, 5);
    assert_eq!(h.charcnt, 6);
    assert_eq!(s.remaining_len(), 0);
}

#[test]
fn negative_and_wide_times() {
    // A 32-bit time with the sign bit set is sign-extended.
    let mut bytes = header_bytes(0, 0, 0, 0, 1, 0, 0);
    bytes.extend_from_slice(&(-1i32).to_be_bytes());
    bytes.push(0);
    let mut s = ByteStream::new(bytes);
    let t = TZIF::read(&mut s).unwrap();
    assert_eq!(t.block_v1.data.transition_times, vec![-1i64]);
}

#[test]
fn all_regions_in_legacy_width() {
    let mut bytes = header_bytes(0, 1, 1, 1, 2, 1, 2);
    bytes.extend_from_slice(&100i32.to_be_bytes()); // transition time 0
    bytes.extend_from_slice(&200i32.to_be_bytes()); // transition time 1
    bytes.extend_from_slice(&[0, 0]); // transition types
    bytes.extend_from_slice(&7200i32.to_be_bytes()); // utoff
    bytes.push(1); // dst
    bytes.push(1); // designation index
    bytes.extend_from_slice(b"Z\x00"); // two designation octets
    bytes.extend_from_slice(&78796800i32.to_be_bytes()); // leap occurrence, 4 octets
    bytes.extend_from_slice(&1i32.to_be_bytes()); // leap correction
    bytes.push(1); // standard/wall indicator
    bytes.push(1); // UT/local indicator
    let mut s = ByteStream::new(bytes);
    let t = TZIF::read(&mut s).unwrap();
    assert_eq!(t.block_v1.data.transition_times, vec![100i64, 200i64]);
    assert_eq!(t.block_v1.data.transition_types, vec![0u8, 0u8]);
    assert_eq!(
        t.block_v1.data.local_time_type_records,
        vec![LocalTimeTypeRecord { utoff: 7200, dst: true, idx: 1 }]
    );
    assert_eq!(t.block_v1.data.leap_second_records.len(), 1);
    assert_eq!(t.block_v1.data.leap_second_records[0].occurrence, 78796800);
    assert_eq!(t.block_v1.data.leap_second_records[0].correction, 1);
    // Every region was consumed exactly: nothing is left over.
    assert_eq!(s.remaining_len(), 0);
    assert!(t.block_v2p.is_none());
}

#[test]
fn stream_read_exact_or_untouched() {
    let mut s = ByteStream::new(vec![1, 2, 3]);
    assert_eq!(s.read_exact(2).unwrap(), vec![1, 2]);
    assert!(matches!(s.read_exact(2), Err(Error::Io)));
    // A failed read consumes nothing.
    assert_eq!(s.read_exact(1).unwrap(), vec![3]);
    assert_eq!(s.remaining_len(), 0);
}
