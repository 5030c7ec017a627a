//! A simple TZif reader module used to get UTC to local offset.
//!
//! The format is one mandatory block (header plus data body) optionally
//! followed by a second block; all multi-octet integers are big-endian.

use crate::stream::ByteStream;
use vstd::prelude::*;

verus! {

broadcast use vstd::std_specs::vec::axiom_spec_len;

/// Possible errors when parsing TZif.
#[derive(Clone, Copy, Debug, PartialEq, Eq, Structural)]
pub enum Error {
    /// The input ended before the requested number of octets could be read.
    Io,
    /// The signature of the file cannot be recognized.
    InvalidSignature,
}

/// A series of six-octet records specifying a local time type.
#[derive(Clone, Copy, Debug, PartialEq, Eq, Structural)]
pub struct LocalTimeTypeRecord {
    /// A four-octet signed integer specifying the number of seconds to be added to UT in order to determine local time.
    pub utoff: i32,
    /// A one-octet value indicating whether local time should be considered Daylight Saving Time (DST).
    pub dst: bool,
    /// A one-octet unsigned integer specifying a zero-based index into the series of time zone designation octets.
    pub idx: u8,
}

/// A series of eight- or twelve-octet records specifying the corrections that need to be applied to UTC in order to determine TAI.
#[derive(Clone, Copy, Debug, PartialEq, Eq, Structural)]
pub struct LeapSecondRecord {
    /// A four or eight-octet UNIX leap time value specifying the time at which a leap-second correction occurs.
    pub occurrence: i64,
    /// A four-octet signed integer specifying the value of LEAPCORR on or after the occurrence.
    pub correction: i32,
}

/// TZif header.
#[derive(Clone, Copy, Debug, PartialEq, Eq, Structural)]
pub struct Header {
    /// Block version.
    pub version: u8,
    /// Number of UT/local indicators contained in the data block.
    pub isutcnt: u32,
    /// Number of standard/wall indicators contained in the data block.
    pub isstdcnt: u32,
    /// Number of leap-second records contained in the data block.
    pub leapcnt: u32,
    /// Number of transition times contained in the data block.
    pub timecnt: u32,
    /// Number of local time type records contained in the data block.
    pub typecnt: u32,
    /// Total number of octets used by the set of time zone designations contained in the data block.
    pub charcnt: u32,
}

/// A data block.
pub struct Data {
    /// A series of four- or eight-octet UNIX leap-time values.
    pub transition_times: Vec<i64>,
    /// A series of one-octet unsigned integers specifying the type of local time of the corresponding transition time.
    pub transition_types: Vec<u8>,
    /// A series of six-octet records specifying a local time type.
    pub local_time_type_records: Vec<LocalTimeTypeRecord>,
    /// A series of eight- or twelve-octet records specifying the corrections that need to be applied to UTC in order to determine TAI.
    pub leap_second_records: Vec<LeapSecondRecord>,
}

/// Combined header and data block.
pub struct Block {
    /// The header block.
    pub header: Header,
    /// The associated data block.
    pub data: Data,
}

/// Simplified TZif decoded structure.
pub struct TZIF {
    /// The V1 combined header/data block.
    pub block_v1: Block,
    /// The V2+ combined header/data block.
    pub block_v2p: Option<Block>,
}

/// The octet the signature must carry at position `i` (ASCII "TZif").
pub open spec fn magic_byte(i: int) -> u8 {
    if i == 0 {
        84
    } else if i == 1 {
        90
    } else if i == 2 {
        105
    } else {
        102
    }
}

/// Four octets read as a big-endian unsigned 32-bit integer.
pub open spec fn spec_be_u32(s: Seq<u8>) -> u32
    recommends
        s.len() == 4,
{
    ((s[0] as u32) << 24) | ((s[1] as u32) << 16) | ((s[2] as u32) << 8) | (s[3] as u32)
}

/// Eight octets read as a big-endian unsigned 64-bit integer.
pub open spec fn spec_be_u64(s: Seq<u8>) -> u64
    recommends
        s.len() == 8,
{
    ((s[0] as u64) << 56) | ((s[1] as u64) << 48) | ((s[2] as u64) << 40) | ((s[3] as u64) << 32)
        | ((s[4] as u64) << 24) | ((s[5] as u64) << 16) | ((s[6] as u64) << 8) | (s[7] as u64)
}

/// Four octets read as a big-endian signed 32-bit integer.
pub open spec fn spec_be_i32(s: Seq<u8>) -> i32
    recommends
        s.len() == 4,
{
    spec_be_u32(s) as i32
}

/// Eight octets read as a big-endian signed 64-bit integer.
pub open spec fn spec_be_i64(s: Seq<u8>) -> i64
    recommends
        s.len() == 8,
{
    spec_be_u64(s) as i64
}

/// Reads a big-endian unsigned 32-bit integer at offset `off` of `b`.
fn be_u32_at(b: &Vec<u8>, off: usize) -> (r: u32)
    requires
        off + 4 <= b.len(),
    ensures
        r == spec_be_u32(b@.subrange(off as int, off + 4)),
{
    let r = ((b[off] as u32) << 24) | ((b[off + 1] as u32) << 16) | ((b[off + 2] as u32) << 8) | (
    b[off + 3] as u32);
    proof {
        let s = b@.subrange(off as int, off + 4);
        assert(s[0] == b@[off as int] && s[1] == b@[off + 1] && s[2] == b@[off + 2] && s[3] == b@[
        off + 3]);
    }
    r
}

/// Reads a big-endian signed 32-bit integer at offset `off` of `b`.
fn be_i32_at(b: &Vec<u8>, off: usize) -> (r: i32)
    requires
        off + 4 <= b.len(),
    ensures
        r == spec_be_i32(b@.subrange(off as int, off + 4)),
{
    be_u32_at(b, off) as i32
}

/// Reads a big-endian signed 64-bit integer at offset `off` of `b`.
fn be_i64_at(b: &Vec<u8>, off: usize) -> (r: i64)
    requires
        off + 8 <= b.len(),
    ensures
        r == spec_be_i64(b@.subrange(off as int, off + 8)),
{
    let r = ((b[off] as u64) << 56) | ((b[off + 1] as u64) << 48) | ((b[off + 2] as u64) << 40) | ((
    b[off + 3] as u64) << 32) | ((b[off + 4] as u64) << 24) | ((b[off + 5] as u64) << 16) | ((b[off
        + 6] as u64) << 8) | (b[off + 7] as u64);
    proof {
        let s = b@.subrange(off as int, off + 8);
        assert(forall|i: int| 0 <= i < 8 ==> s[i] == b@[off + i]);
    }
    r as i64
}

/// How far the signature octets match the input, up to four octets.
pub open spec fn sig_match_from(rem: Seq<u8>, i: int) -> int
    decreases 4 - i,
{
    if i < 0 || i >= 4 || i >= rem.len() || rem[i] != magic_byte(i) {
        i
    } else {
        sig_match_from(rem, i + 1)
    }
}

/// Length of the longest prefix of the input that agrees with the signature.
pub open spec fn sig_prefix_len(rem: Seq<u8>) -> int {
    sig_match_from(rem, 0)
}

/// True when the input carries an octet that contradicts the signature.
pub open spec fn sig_mismatch(rem: Seq<u8>) -> bool {
    sig_prefix_len(rem) < 4 && sig_prefix_len(rem) < rem.len()
}

/// The header encoded by the first 44 octets of `hdr`.
pub open spec fn spec_header(hdr: Seq<u8>) -> Header
    recommends
        hdr.len() >= 44,
{
    Header {
        version: hdr[4],
        isutcnt: spec_be_u32(hdr.subrange(20, 24)),
        isstdcnt: spec_be_u32(hdr.subrange(24, 28)),
        leapcnt: spec_be_u32(hdr.subrange(28, 32)),
        timecnt: spec_be_u32(hdr.subrange(32, 36)),
        typecnt: spec_be_u32(hdr.subrange(36, 40)),
        charcnt: spec_be_u32(hdr.subrange(40, 44)),
    }
}

/// What reading one header from the given input must produce.
pub open spec fn spec_header_result(rem: Seq<u8>) -> Result<Header, Error> {
    if sig_mismatch(rem) {
        Err(Error::InvalidSignature)
    } else if rem.len() < 44 {
        Err(Error::Io)
    } else {
        Ok(spec_header(rem.take(44)))
    }
}

/// How many octets reading one header consumes from the given input.
pub open spec fn spec_header_consumed(rem: Seq<u8>) -> int {
    if sig_mismatch(rem) {
        sig_prefix_len(rem) + 1
    } else if rem.len() < 4 {
        rem.len() as int
    } else if rem.len() < 44 {
        4
    } else {
        44
    }
}

impl Header {
    /// Octet width of a time value under this header's version.
    pub open spec fn spec_time_size(self) -> int {
        if self.version == 0 {
            4
        } else {
            8
        }
    }

    /// Octet width of a time value under this header's version.
    pub fn time_size(&self) -> (n: usize)
        ensures
            n == self.spec_time_size(),
    {
        match self.version {
            0x00 => 4,
            _ => 8,
        }
    }

    /// Reads and validates one 44-octet header: the four signature octets one
    /// by one, then the version, reserved and count fields.
    pub fn read(stream: &mut ByteStream) -> (r: Result<Header, Error>)
        ensures
            r == spec_header_result(old(stream).remaining()),
            final(stream).remaining() == old(stream).remaining().skip(
                spec_header_consumed(old(stream).remaining()),
            ),
    {
        let ghost rem = old(stream).remaining();
        let mut i: usize = 0;
        while i < 4
            invariant
                rem == old(stream).remaining(),
                0 <= i <= 4,
                sig_match_from(rem, 0) == sig_match_from(rem, i as int),
                i <= rem.len(),
                forall|j: int| 0 <= j < i ==> rem[j] == magic_byte(j),
                stream.remaining() == rem.skip(i as int),
            decreases 4 - i,
        {
            let b = match stream.read_exact(1) {
                Ok(b) => b,
                Err(_) => {
                    proof {
                        assert(rem.skip(i as int).len() == rem.len() - i);
                        assert(sig_prefix_len(rem) == i);
                        assert(!sig_mismatch(rem));
                        assert(rem.skip(rem.len() as int) =~= rem.skip(i as int));
                    }
                    return Err(Error::Io);
                },
            };
            let expected: u8 = if i == 0 {
                84
            } else if i == 1 {
                90
            } else if i == 2 {
                105
            } else {
                102
            };
            proof {
                assert(b@[0] == rem.skip(i as int).take(1)[0]);
                assert(b@[0] == rem[i as int]);
                assert(stream.remaining() =~= rem.skip(i + 1));
            }
            if b[0] != expected {
                proof {
                    assert(sig_match_from(rem, i as int) == i);
                    assert(sig_mismatch(rem));
                }
                return Err(Error::InvalidSignature);
            }
            i = i + 1;
        }
        proof {
            assert(sig_prefix_len(rem) == 4);
            assert(!sig_mismatch(rem));
        }
        let rest = match stream.read_exact(40) {
            Ok(rest) => rest,
            Err(_) => {
                proof {
                    assert(rem.skip(4).len() == rem.len() - 4);
                    assert(rem.skip(4) =~= rem.skip(spec_header_consumed(rem)));
                }
                return Err(Error::Io);
            },
        };
        proof {
            assert(rem.skip(4).len() == rem.len() - 4);
            assert(rest@ =~= rem.subrange(4, 44));
            assert(stream.remaining() =~= rem.skip(44));
            assert(forall|k: int| 0 <= k < 40 ==> rest@[k] == rem[4 + k]);
        }
        let header = Header {
            version: rest[0],
            isutcnt: be_u32_at(&rest, 16),
            isstdcnt: be_u32_at(&rest, 20),
            leapcnt: be_u32_at(&rest, 24),
            timecnt: be_u32_at(&rest, 28),
            typecnt: be_u32_at(&rest, 32),
            charcnt: be_u32_at(&rest, 36),
        };
        proof {
            let h = rem.take(44);
            assert(rest@.subrange(16, 20) =~= h.subrange(20, 24));
            assert(rest@.subrange(20, 24) =~= h.subrange(24, 28));
            assert(rest@.subrange(24, 28) =~= h.subrange(28, 32));
            assert(rest@.subrange(28, 32) =~= h.subrange(32, 36));
            assert(rest@.subrange(32, 36) =~= h.subrange(36, 40));
            assert(rest@.subrange(36, 40) =~= h.subrange(40, 44));
        }
        Ok(header)
    }
}

/// One transition time decoded from a chunk of `size` octets
/// (32-bit values are sign-extended to 64 bits).
pub open spec fn spec_transition_time(chunk: Seq<u8>, size: int) -> i64
    recommends
        chunk.len() == size,
        size == 4 || size == 8,
{
    if size == 4 {
        spec_be_i32(chunk) as i64
    } else {
        spec_be_i64(chunk)
    }
}

/// The first `n` transition times packed back-to-back at the start of `body`.
pub open spec fn spec_transition_times(body: Seq<u8>, size: int, n: int) -> Seq<i64>
    recommends
        size * n <= body.len(),
        0 <= n,
{
    Seq::new(n as nat, |j: int| spec_transition_time(body.subrange(size * j, size * j + size), size))
}

/// One local time type record decoded from a six-octet chunk.
pub open spec fn spec_local_record(chunk: Seq<u8>) -> LocalTimeTypeRecord
    recommends
        chunk.len() == 6,
{
    LocalTimeTypeRecord {
        utoff: spec_be_i32(chunk.subrange(0, 4)),
        dst: chunk[4] == 1,
        idx: chunk[5],
    }
}

/// The first `n` local time type records packed back-to-back at the start of `body`.
pub open spec fn spec_local_records(body: Seq<u8>, n: int) -> Seq<LocalTimeTypeRecord>
    recommends
        6 * n <= body.len(),
        0 <= n,
{
    Seq::new(n as nat, |j: int| spec_local_record(body.subrange(6 * j, 6 * j + 6)))
}

/// One leap-second record decoded from a chunk of `size + 4` octets.
pub open spec fn spec_leap_record(chunk: Seq<u8>, size: int) -> LeapSecondRecord
    recommends
        chunk.len() == size + 4,
        size == 4 || size == 8,
{
    LeapSecondRecord {
        occurrence: if size == 4 {
            spec_be_i32(chunk.subrange(0, 4)) as i64
        } else {
            spec_be_i64(chunk.subrange(0, 8))
        },
        correction: spec_be_i32(chunk.subrange(size, size + 4)),
    }
}

/// The first `n` leap-second records packed back-to-back at the start of `body`.
pub open spec fn spec_leap_records(body: Seq<u8>, size: int, n: int) -> Seq<LeapSecondRecord>
    recommends
        (size + 4) * n <= body.len(),
        0 <= n,
{
    Seq::new(
        n as nat,
        |j: int|
            spec_leap_record(body.subrange((size + 4) * j, (size + 4) * j + (size + 4)), size),
    )
}

impl Header {
    /// Total octet length of the data body this header declares.
    pub open spec fn spec_data_len(self) -> int {
        let size = self.spec_time_size();
        size * self.timecnt + self.timecnt + 6 * self.typecnt + self.charcnt + (size + 4)
            * self.leapcnt + self.isstdcnt + self.isutcnt
    }
}

/// True when `d` holds exactly what the data body at the start of `body`
/// declares under header `h`.
pub open spec fn data_matches(d: Data, body: Seq<u8>, h: Header) -> bool {
    let size = h.spec_time_size();
    let o1 = size * h.timecnt;
    let o2 = o1 + h.timecnt;
    let o3 = o2 + 6 * h.typecnt;
    let o4 = o3 + h.charcnt;
    &&& d.transition_times@ == spec_transition_times(body, size, h.timecnt as int)
    &&& d.transition_types@ == body.subrange(o1 as int, o2 as int)
    &&& d.local_time_type_records@ == spec_local_records(body.skip(o2 as int), h.typecnt as int)
    &&& d.leap_second_records@ == spec_leap_records(body.skip(o4 as int), size, h.leapcnt as int)
}

/// Arithmetic facts about the offsets of the regions a header declares.
proof fn lemma_region_offsets(h: Header)
    ensures
        0 <= h.spec_time_size() * h.timecnt,
        0 <= (h.spec_time_size() + 4) * h.leapcnt,
        h.spec_time_size() * h.timecnt + h.timecnt + 6 * h.typecnt + h.charcnt + (
        h.spec_time_size() + 4) * h.leapcnt + h.isstdcnt + h.isutcnt == h.spec_data_len(),
{
    let size = h.spec_time_size();
    assert(0 <= size * h.timecnt && 0 <= (size + 4) * h.leapcnt) by (nonlinear_arith)
        requires
            size == 4 || size == 8,
    ;
}

impl Data {
    /// Reads one data body whose layout `header` declares: the six
    /// variable-length regions in order, decoding transition times, local
    /// time type records and leap-second records, and consuming the
    /// designation and indicator octets.
    pub fn read(stream: &mut ByteStream, header: &Header) -> (r: Result<Data, Error>)
        ensures
            match r {
                Ok(d) => {
                    &&& header.spec_data_len() <= old(stream).remaining().len()
                    &&& data_matches(d, old(stream).remaining(), *header)
                    &&& final(stream).remaining() == old(stream).remaining().skip(
                        header.spec_data_len(),
                    )
                },
                Err(e) => {
                    &&& e == Error::Io
                    &&& old(stream).remaining().len() < header.spec_data_len()
                    &&& exists|c: int|
                        0 <= c <= header.spec_data_len() && c <= old(stream).remaining().len()
                            && final(stream).remaining() == old(stream).remaining().skip(c)
                },
            },
    {
        let ghost rem = old(stream).remaining();
        let ghost h = *header;
        let ghost size_g = h.spec_time_size();
        let ghost o1 = size_g * h.timecnt as int;
        let ghost o2 = o1 + h.timecnt as int;
        let ghost o3 = o2 + 6 * h.typecnt as int;
        let ghost o4 = o3 + h.charcnt as int;
        let ghost o5 = o4 + (size_g + 4) * h.leapcnt as int;
        let ghost total = h.spec_data_len();
        proof {
            lemma_region_offsets(h);
        }
        let size = header.time_size();
        let timecnt = header.timecnt as usize;

        // Region 1: transition times, `timecnt` chunks of `size` octets.
        let mut transition_times: Vec<i64> = Vec::new();
        let mut i: usize = 0;
        while i < timecnt
            invariant
                rem == old(stream).remaining(),
                h == *header,
                size_g == h.spec_time_size(),
                size == size_g,
                timecnt == h.timecnt,
                total == h.spec_data_len(),
                0 <= i <= timecnt,
                size_g * i <= size_g * timecnt as int <= total,
                size_g * i <= rem.len() || i == 0,
                stream.remaining() == rem.skip(size_g * i),
                transition_times@ == spec_transition_times(rem, size_g, i as int),
            decreases timecnt - i,
        {
            proof {
                assert(size_g * (i + 1) == size_g * i + size_g && size_g * (i + 1) <= size_g * (
                timecnt as int)) by (nonlinear_arith)
                    requires
                        i + 1 <= timecnt as int,
                        size_g == 4 || size_g == 8,
                ;
            }
            let chunk = match stream.read_exact(size) {
                Ok(c) => c,
                Err(_) => {
                    proof {
                        let c = size_g * i;
                        assert(rem.skip(c).len() == rem.len() - c);
                        assert(rem.len() < c + size_g);
                        assert(0 <= c <= total && c <= rem.len() && final(stream).remaining()
                            == rem.skip(c));
                    }
                    return Err(Error::Io);
                },
            };
            let t: i64 = if size == 4 {
                be_i32_at(&chunk, 0) as i64
            } else {
                be_i64_at(&chunk, 0)
            };
            transition_times.push(t);
            proof {
                let c = size_g * i;
                assert(rem.skip(c).len() == rem.len() - c);
                assert(chunk@ =~= rem.subrange(c, c + size_g));
                if size_g == 4 {
                    assert(chunk@.subrange(0, 4) =~= chunk@);
                } else {
                    assert(chunk@.subrange(0, 8) =~= chunk@);
                }
                assert(t == spec_transition_time(rem.subrange(c, c + size_g), size_g));
                assert(stream.remaining() =~= rem.skip(size_g * (i + 1)));
                assert(transition_times@ =~= spec_transition_times(rem, size_g, i + 1));
            }
            i = i + 1;
        }
        proof {
            assert(size_g * timecnt as int == o1);
            assert(stream.remaining() == rem.skip(o1));
            assert(o1 <= rem.len() && rem.skip(o1).len() == rem.len() - o1);
        }

        // Region 2: one type octet per transition.
        let transition_types = match stream.read_exact(timecnt) {
            Ok(v) => v,
            Err(_) => {
                proof {
                    assert(rem.len() < o1 + timecnt as int <= total);
                    assert(0 <= o1 <= total && o1 <= rem.len() && final(stream).remaining()
                        == rem.skip(o1));
                }
                return Err(Error::Io);
            },
        };
        proof {
            assert(transition_types@ =~= rem.subrange(o1, o2));
            assert(stream.remaining() =~= rem.skip(o2));
            assert(rem.skip(o2).len() == rem.len() - o2);
        }

        // Region 3: local time type records, `typecnt` chunks of 6 octets.
        let typecnt = header.typecnt as usize;
        let mut local_time_type_records: Vec<LocalTimeTypeRecord> = Vec::new();
        let mut i: usize = 0;
        while i < typecnt
            invariant
                rem == old(stream).remaining(),
                h == *header,
                typecnt == h.typecnt,
                total == h.spec_data_len(),
                o2 == h.spec_time_size() * h.timecnt as int + h.timecnt as int,
                0 <= o2 <= rem.len(),
                0 <= i <= typecnt,
                o2 + 6 * i <= o2 + 6 * typecnt as int <= total,
                o2 + 6 * i <= rem.len() || i == 0,
                stream.remaining() == rem.skip(o2 + 6 * i),
                local_time_type_records@ == spec_local_records(rem.skip(o2), i as int),
            decreases typecnt - i,
        {
            let chunk = match stream.read_exact(6) {
                Ok(c) => c,
                Err(_) => {
                    proof {
                        let c = o2 + 6 * i;
                        assert(rem.skip(c).len() == rem.len() - c);
                        assert(0 <= c <= total && c <= rem.len() && final(stream).remaining()
                            == rem.skip(c));
                    }
                    return Err(Error::Io);
                },
            };
            let record = LocalTimeTypeRecord {
                utoff: be_i32_at(&chunk, 0),
                dst: chunk[4] == 1,
                idx: chunk[5],
            };
            local_time_type_records.push(record);
            proof {
                let c = o2 + 6 * i;
                let body = rem.skip(o2);
                assert(rem.skip(c).len() == rem.len() - c);
                assert(chunk@ =~= body.subrange(6 * i, 6 * i + 6));
                assert(chunk@.subrange(0, 4) =~= body.subrange(6 * i, 6 * i + 6).subrange(0, 4));
                assert(record == spec_local_record(body.subrange(6 * i, 6 * i + 6)));
                assert(stream.remaining() =~= rem.skip(o2 + 6 * (i + 1)));
                assert(local_time_type_records@ =~= spec_local_records(body, i + 1));
            }
            i = i + 1;
        }
        proof {
            assert(stream.remaining() == rem.skip(o3));
            assert(o3 <= rem.len() && rem.skip(o3).len() == rem.len() - o3);
        }

        // Region 4: designation octets, consumed for alignment only.
        let charcnt = header.charcnt as usize;
        match stream.read_exact(charcnt) {
            Ok(_) => {},
            Err(_) => {
                proof {
                    assert(rem.len() < o3 + charcnt as int <= total);
                    assert(0 <= o3 <= total && o3 <= rem.len() && final(stream).remaining()
                        == rem.skip(o3));
                }
                return Err(Error::Io);
            },
        };
        proof {
            assert(stream.remaining() =~= rem.skip(o4));
            assert(rem.skip(o4).len() == rem.len() - o4);
        }

        // Region 5: leap-second records, `leapcnt` chunks of `size + 4` octets.
        let leapcnt = header.leapcnt as usize;
        let mut leap_second_records: Vec<LeapSecondRecord> = Vec::new();
        let mut i: usize = 0;
        while i < leapcnt
            invariant
                rem == old(stream).remaining(),
                h == *header,
                size_g == h.spec_time_size(),
                size == size_g,
                leapcnt == h.leapcnt,
                total == h.spec_data_len(),
                o4 == h.spec_time_size() * h.timecnt as int + h.timecnt as int + 6 * h.typecnt
                    as int + h.charcnt as int,
                0 <= o4 <= rem.len(),
                0 <= i <= leapcnt,
                o4 + (size_g + 4) * i <= o4 + (size_g + 4) * leapcnt as int <= total,
                o4 + (size_g + 4) * i <= rem.len() || i == 0,
                stream.remaining() == rem.skip(o4 + (size_g + 4) * i),
                leap_second_records@ == spec_leap_records(rem.skip(o4), size_g, i as int),
            decreases leapcnt - i,
        {
            proof {
                assert((size_g + 4) * (i + 1) == (size_g + 4) * i + (size_g + 4) && (size_g + 4) * (
                i + 1) <= (size_g + 4) * (leapcnt as int)) by (nonlinear_arith)
                    requires
                        i + 1 <= leapcnt as int,
                        size_g == 4 || size_g == 8,
                ;
            }
            let chunk = match stream.read_exact(size + 4) {
                Ok(c) => c,
                Err(_) => {
                    proof {
                        let c = o4 + (size_g + 4) * i;
                        assert(rem.skip(c).len() == rem.len() - c);
                        assert(0 <= c <= total && c <= rem.len() && final(stream).remaining()
                            == rem.skip(c));
                    }
                    return Err(Error::Io);
                },
            };
            let record = LeapSecondRecord {
                occurrence: if size == 4 {
                    be_i32_at(&chunk, 0) as i64
                } else {
                    be_i64_at(&chunk, 0)
                },
                correction: be_i32_at(&chunk, size),
            };
            leap_second_records.push(record);
            proof {
                let w = size_g + 4;
                let c = o4 + w * i;
                let body = rem.skip(o4);
                assert(rem.skip(c).len() == rem.len() - c);
                assert(chunk@ =~= body.subrange(w * i, w * i + w));
                let piece = body.subrange(w * i, w * i + w);
                assert(chunk@.subrange(0, 4) =~= piece.subrange(0, 4));
                if size_g == 8 {
                    assert(chunk@.subrange(0, 8) =~= piece.subrange(0, 8));
                }
                assert(chunk@.subrange(size_g, size_g + 4) =~= piece.subrange(size_g, size_g + 4));
                assert(record == spec_leap_record(piece, size_g));
                assert(stream.remaining() =~= rem.skip(o4 + w * (i + 1)));
                assert(leap_second_records@ =~= spec_leap_records(body, size_g, i + 1));
            }
            i = i + 1;
        }
        proof {
            assert(stream.remaining() == rem.skip(o5));
            assert(o5 <= rem.len() && rem.skip(o5).len() == rem.len() - o5);
        }

        // Region 6: standard/wall indicators, consumed for alignment only.
        let isstdcnt = header.isstdcnt as usize;
        match stream.read_exact(isstdcnt) {
            Ok(_) => {},
            Err(_) => {
                proof {
                    assert(rem.len() < o5 + isstdcnt as int <= total);
                    assert(0 <= o5 <= total && o5 <= rem.len() && final(stream).remaining()
                        == rem.skip(o5));
                }
                return Err(Error::Io);
            },
        };

        // Region 7: UT/local indicators, consumed for alignment only.
        let isutcnt = header.isutcnt as usize;
        match stream.read_exact(isutcnt) {
            Ok(_) => {},
            Err(_) => {
                proof {
                    let c = o5 + isstdcnt as int;
                    assert(rem.skip(c).len() == rem.len() - c);
                    assert(rem.len() < c + isutcnt as int <= total);
                    assert(0 <= c <= total && c <= rem.len() && final(stream).remaining()
                        == rem.skip(c));
                }
                return Err(Error::Io);
            },
        };
        proof {
            assert(stream.remaining() =~= rem.skip(total));
        }
        Ok(
            Data {
                transition_times,
                transition_types,
                local_time_type_records,
                leap_second_records,
            },
        )
    }
}

/// The signature match length stays between its start and four, and stops
/// only at the end of the input or at a mismatch.
proof fn lemma_sig_match_from_bounds(rem: Seq<u8>, i: int)
    requires
        0 <= i <= 4,
    ensures
        i <= sig_match_from(rem, i) <= 4,
        sig_match_from(rem, i) < 4 ==> (sig_match_from(rem, i) >= rem.len() || rem[sig_match_from(
            rem,
            i,
        )] != magic_byte(sig_match_from(rem, i))),
    decreases 4 - i,
{
    if !(i >= 4 || i >= rem.len() || rem[i] != magic_byte(i)) {
        lemma_sig_match_from_bounds(rem, i + 1);
    }
}

/// Every octet the signature match length covers agrees with the signature.
proof fn lemma_sig_match_covers(rem: Seq<u8>, i: int, j: int)
    requires
        0 <= i <= 4,
        i <= j < sig_match_from(rem, i),
    ensures
        j < rem.len(),
        rem[j] == magic_byte(j),
    decreases 4 - i,
{
    lemma_sig_match_from_bounds(rem, i);
    if i < j {
        lemma_sig_match_covers(rem, i + 1, j);
    }
}

/// Reading a header never consumes more than the input holds.
proof fn lemma_header_consumed_bounds(rem: Seq<u8>)
    ensures
        0 <= spec_header_consumed(rem) <= rem.len(),
        spec_header_consumed(rem) <= 44,
{
    lemma_sig_match_from_bounds(rem, 0);
}

/// A header with its version pinned to the legacy value, the width the first
/// block's data body is always read with.
pub open spec fn pin_legacy(h: Header) -> Header {
    Header { version: 0, ..h }
}

/// Octet length of the first block: its header plus the data body the pinned
/// header declares.
pub open spec fn spec_first_block_len(rem: Seq<u8>) -> int {
    44 + pin_legacy(spec_header(rem.take(44))).spec_data_len()
}

/// True when the input begins with a complete, well-formed first block.
pub open spec fn first_block_ok(rem: Seq<u8>) -> bool {
    &&& spec_header_result(rem) is Ok
    &&& spec_first_block_len(rem) <= rem.len()
}

/// The error the decode reports when the first block is not well formed.
pub open spec fn spec_first_error(rem: Seq<u8>) -> Error {
    if sig_mismatch(rem) {
        Error::InvalidSignature
    } else {
        Error::Io
    }
}

/// True when `rest` begins with a complete, well-formed second block, read
/// with the width its own header declares.
pub open spec fn second_block_ok(rest: Seq<u8>) -> bool {
    &&& spec_header_result(rest) is Ok
    &&& 44 + spec_header(rest.take(44)).spec_data_len() <= rest.len()
}

/// True when the input starts with the four signature octets.
pub open spec fn has_magic(rem: Seq<u8>) -> bool {
    rem.len() >= 4 && forall|i: int| 0 <= i < 4 ==> rem[i] == magic_byte(i)
}

/// An input that carries an octet contradicting the signature is rejected
/// with `InvalidSignature`, and reading its header consumes only the octets
/// up to and including the first mismatch — never more than four.
pub proof fn lemma_invalid_signature_rejected(input: Seq<u8>)
    requires
        sig_mismatch(input),
    ensures
        !first_block_ok(input),
        spec_first_error(input) == Error::InvalidSignature,
        spec_header_consumed(input) == sig_prefix_len(input) + 1,
        spec_header_consumed(input) <= 4,
{
    lemma_sig_match_from_bounds(input, 0);
}

/// A well-formed first block followed by nothing at all decodes on its own:
/// no second block is present at the end of the input.
pub proof fn lemma_exact_input_single_block(input: Seq<u8>)
    requires
        first_block_ok(input),
        input.len() == spec_first_block_len(input),
    ensures
        first_block_ok(input),
        !second_block_ok(input.skip(spec_first_block_len(input))),
{
    let rest = input.skip(spec_first_block_len(input));
    lemma_region_offsets(pin_legacy(spec_header(input.take(44))));
    assert(rest.len() == 0);
}

/// A well-formed first block followed by trailing octets that do not begin
/// with the signature still decodes: the second block is merely absent.
pub proof fn lemma_bad_trailer_single_block(input: Seq<u8>)
    requires
        first_block_ok(input),
        !has_magic(input.skip(spec_first_block_len(input))),
    ensures
        first_block_ok(input),
        !second_block_ok(input.skip(spec_first_block_len(input))),
{
    let rest = input.skip(spec_first_block_len(input));
    lemma_sig_match_from_bounds(rest, 0);
    if second_block_ok(rest) {
        assert(rest.len() >= 44);
        assert(sig_prefix_len(rest) == 4);
        assert forall|i: int| 0 <= i < 4 implies rest[i] == magic_byte(i) by {
            lemma_sig_match_covers(rest, 0, i);
        }
    }
}

/// An input that starts with the signature but holds fewer octets than the
/// first block it declares fails with `Io`, never a silently short result.
pub proof fn lemma_truncated_input_io(input: Seq<u8>)
    requires
        has_magic(input),
        input.len() < 44 || input.len() < spec_first_block_len(input),
    ensures
        !first_block_ok(input),
        spec_first_error(input) == Error::Io,
{
    lemma_sig_match_from_bounds(input, 0);
    assert(sig_prefix_len(input) == 4);
}

impl TZIF {
    /// Reads and decodes a TZif stream: one mandatory legacy block, read with
    /// the 32-bit time width whatever version its header carries, then one
    /// optional block read with its own declared width. Any failure while
    /// reading the optional block means that block is absent, never an error.
    pub fn read(stream: &mut ByteStream) -> (r: Result<TZIF, Error>)
        ensures
            ({
                let rem = old(stream).remaining();
                match r {
                    Ok(t) => {
                        let h1 = pin_legacy(spec_header(rem.take(44)));
                        let rest = rem.skip(spec_first_block_len(rem));
                        &&& first_block_ok(rem)
                        &&& t.block_v1.header == h1
                        &&& data_matches(t.block_v1.data, rem.skip(44), h1)
                        &&& match t.block_v2p {
                            Some(b) => {
                                &&& second_block_ok(rest)
                                &&& b.header == spec_header(rest.take(44))
                                &&& data_matches(b.data, rest.skip(44), b.header)
                                &&& final(stream).remaining() == rest.skip(
                                    44 + b.header.spec_data_len(),
                                )
                            },
                            None => {
                                &&& !second_block_ok(rest)
                                &&& exists|c: int|
                                    0 <= c <= rest.len() && final(stream).remaining() == rest.skip(
                                        c,
                                    )
                            },
                        }
                    },
                    Err(e) => {
                        &&& !first_block_ok(rem)
                        &&& e == spec_first_error(rem)
                        &&& if spec_header_result(rem) is Err {
                            final(stream).remaining() == rem.skip(spec_header_consumed(rem))
                        } else {
                            exists|c: int|
                                0 <= c <= rem.len() && final(stream).remaining() == rem.skip(c)
                        }
                    },
                }
            }),
    {
        let ghost rem = old(stream).remaining();
        let mut header_v1 = match Header::read(stream) {
            Ok(h) => h,
            Err(e) => {
                return Err(e);
            },
        };
        // The published description of the legacy block's width is
        // inconsistent with the files real-world tooling writes, so the first
        // data body is always read with the 32-bit width.
        header_v1.version = 0x00;
        proof {
            assert(header_v1 == pin_legacy(spec_header(rem.take(44))));
            assert(rem.skip(44).len() == rem.len() - 44);
        }
        let data_v1 = match Data::read(stream, &header_v1) {
            Ok(d) => d,
            Err(e) => {
                proof {
                    let c0 = choose|c: int|
                        0 <= c <= header_v1.spec_data_len() && c <= rem.skip(44).len()
                            && stream.remaining() == rem.skip(44).skip(c);
                    assert(stream.remaining() == rem.skip(44 + c0)) by {
                        assert(rem.skip(44).skip(c0) =~= rem.skip(44 + c0));
                    }
                }
                return Err(e);
            },
        };
        let block_v1 = Block { data: data_v1, header: header_v1 };
        let ghost flen = spec_first_block_len(rem);
        let ghost rest = rem.skip(flen);
        proof {
            assert(stream.remaining() =~= rest);
            assert(rest.len() == rem.len() - flen);
        }
        let block_v2p = match Header::read(stream) {
            Ok(header_v2) => {
                proof {
                    assert(header_v2 == spec_header(rest.take(44)));
                    assert(rest.skip(44).len() == rest.len() - 44);
                }
                match Data::read(stream, &header_v2) {
                    Ok(data_v2) => Some(Block { header: header_v2, data: data_v2 }),
                    Err(_) => {
                        // Any failure in the optional block means it is absent.
                        proof {
                            let c0 = choose|c: int|
                                0 <= c <= header_v2.spec_data_len() && c <= rest.skip(44).len()
                                    && stream.remaining() == rest.skip(44).skip(c);
                            assert(stream.remaining() == rest.skip(44 + c0)) by {
                                assert(rest.skip(44).skip(c0) =~= rest.skip(44 + c0));
                            }
                            assert(exists|c: int|
                                0 <= c <= rest.len() && stream.remaining() == rest.skip(c)) by {
                                assert(0 <= 44 + c0 <= rest.len() && stream.remaining()
                                    == rest.skip(44 + c0));
                            }
                        }
                        None
                    },
                }
            },
            Err(_) => {
                proof {
                    lemma_header_consumed_bounds(rest);
                    let c1 = spec_header_consumed(rest);
                    assert(exists|c: int|
                        0 <= c <= rest.len() && stream.remaining() == rest.skip(c)) by {
                        assert(0 <= c1 <= rest.len() && stream.remaining() == rest.skip(c1));
                    }
                }
                None
            },
        };
        proof {
            if block_v2p is Some {
                let b = block_v2p->0;
                assert(stream.remaining() =~= rest.skip(44).skip(b.header.spec_data_len()));
                assert(rest.skip(44).skip(b.header.spec_data_len()) =~= rest.skip(
                    44 + b.header.spec_data_len(),
                ));
            }
        }
        Ok(TZIF { block_v1, block_v2p })
    }
}

} // verus!
