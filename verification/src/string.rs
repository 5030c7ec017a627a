//! String utilities: substrings cut at the nearest UTF-8 character boundary
//! rather than panicking, and ASCII capitalisation over raw byte slices.

use vstd::prelude::*;
use vstd::string::StringSliceAdditionalSpecFns;
use vstd::utf8::encode_utf8_valid_utf8;
use vstd::utf8::is_char_boundary;
use vstd::utf8::is_char_boundary_start_end_of_seq;
use vstd::utf8::valid_utf8;
use vstd::utf8::valid_utf8_split;

verus! {

broadcast use vstd::slice::axiom_spec_len;

/// Relies on the layout of `core::ops::RangeTo`: a range bounded
/// exclusively above, with its public `end` field.
#[verifier::external_type_specification]
#[verifier::reject_recursive_types(Idx)]
pub struct ExRangeTo<Idx>(core::ops::RangeTo<Idx>);

/// Relies on the layout of `core::ops::RangeFrom`: a range bounded
/// inclusively below, with its public `start` field.
#[verifier::external_type_specification]
#[verifier::reject_recursive_types(Idx)]
pub struct ExRangeFrom<Idx>(core::ops::RangeFrom<Idx>);

/// The largest character boundary of `b` at or below `i`.
pub open spec fn boundary_below(b: Seq<u8>, i: int) -> int
    recommends
        valid_utf8(b),
        0 <= i <= b.len(),
    decreases i,
{
    if i <= 0 {
        0
    } else if is_char_boundary(b, i) {
        i
    } else {
        boundary_below(b, i - 1)
    }
}

/// The smallest character boundary of `b` at or above `i`.
pub open spec fn boundary_above(b: Seq<u8>, i: int) -> int
    recommends
        valid_utf8(b),
        0 <= i <= b.len(),
    decreases b.len() - i,
{
    if i >= b.len() {
        b.len() as int
    } else if is_char_boundary(b, i) {
        i
    } else {
        boundary_above(b, i + 1)
    }
}

/// The bytes that survive truncating `b` at the nearest boundary at or below
/// `hi`, then skipping to the nearest boundary of the truncation at or above
/// `lo`.
pub open spec fn spec_sub_nearest(b: Seq<u8>, lo: int, hi: int) -> Seq<u8>
    recommends
        valid_utf8(b),
        0 <= lo <= hi <= b.len(),
{
    let h = if hi >= b.len() {
        b.len() as int
    } else {
        boundary_below(b, hi)
    };
    if lo >= h {
        Seq::empty()
    } else {
        let t = b.take(h);
        t.skip(boundary_above(t, lo))
    }
}

/// The largest character boundary of `s` at or below `i`.
fn snap_down(s: &str, i: usize) -> (r: usize)
    requires
        i <= s.spec_bytes().len(),
    ensures
        r == boundary_below(s.spec_bytes(), i as int),
        r <= i,
        is_char_boundary(s.spec_bytes(), r as int),
{
    proof {
        encode_utf8_valid_utf8(s@);
        is_char_boundary_start_end_of_seq(s.spec_bytes());
    }
    let ghost b = s.spec_bytes();
    let mut i = i;
    let ghost i0 = i as int;
    while !s.is_char_boundary(i)
        invariant
            b == s.spec_bytes(),
            valid_utf8(b),
            is_char_boundary(b, 0),
            0 <= i,
            i as int <= i0 <= b.len(),
            boundary_below(b, i0) == boundary_below(b, i as int),
        decreases i,
    {
        i = i - 1;
    }
    i
}

/// The smallest character boundary of `s` at or above `i`.
fn snap_up(s: &str, i: usize) -> (r: usize)
    requires
        i <= s.spec_bytes().len(),
    ensures
        r == boundary_above(s.spec_bytes(), i as int),
        i <= r <= s.spec_bytes().len(),
        is_char_boundary(s.spec_bytes(), r as int),
{
    proof {
        encode_utf8_valid_utf8(s@);
        is_char_boundary_start_end_of_seq(s.spec_bytes());
    }
    let ghost b = s.spec_bytes();
    let n = s.as_bytes().len();
    let mut i = i;
    let ghost i0 = i as int;
    while !s.is_char_boundary(i)
        invariant
            b == s.spec_bytes(),
            valid_utf8(b),
            n == b.len(),
            is_char_boundary(b, b.len() as int),
            i0 <= i as int <= b.len(),
            boundary_above(b, i0) == boundary_above(b, i as int),
        decreases b.len() - i,
    {
        i = i + 1;
    }
    i
}

/// The range trait that represents all supported range types for the
/// `sub_nearest` functions.
pub trait Range {
    /// Start of the requested byte range.
    spec fn spec_lo(&self) -> int;

    /// End of the requested byte range, for a string of `len` bytes.
    spec fn spec_hi(&self, len: int) -> int;

    /// A substring method which truncates strings at the nearest UTF-8
    /// character boundary rather than panicking.
    fn sub_nearest<'a>(&self, obj: &'a str) -> (r: &'a str)
        requires
            0 <= self.spec_lo() <= self.spec_hi(obj.spec_bytes().len() as int)
                <= obj.spec_bytes().len(),
        ensures
            r.spec_bytes() == spec_sub_nearest(
                obj.spec_bytes(),
                self.spec_lo(),
                self.spec_hi(obj.spec_bytes().len() as int),
            ),
    ;
}

/// The shared body of the three range impls: truncate at the nearest boundary
/// at or below `hi`, then skip to the nearest boundary at or above `lo`.
fn sub_nearest_at<'a>(obj: &'a str, lo: usize, hi: usize) -> (r: &'a str)
    requires
        lo <= hi <= obj.spec_bytes().len(),
    ensures
        r.spec_bytes() == spec_sub_nearest(obj.spec_bytes(), lo as int, hi as int),
{
    let ghost b = obj.spec_bytes();
    proof {
        encode_utf8_valid_utf8(obj@);
        is_char_boundary_start_end_of_seq(b);
    }
    let h = snap_down(obj, hi);
    let (t, _) = obj.split_at(h);
    proof {
        assert(t.spec_bytes() =~= b.take(h as int));
        if hi as int >= b.len() {
            assert(boundary_below(b, hi as int) == b.len());
        }
    }
    if lo >= h {
        let empty = "";
        proof {
            reveal_strlit("");
            assert(empty.spec_bytes() =~= Seq::<u8>::empty());
        }
        empty
    } else {
        proof {
            valid_utf8_split(b, h as int);
        }
        let l = snap_up(t, lo);
        let (_, r) = t.split_at(l);
        proof {
            assert(r.spec_bytes() =~= t.spec_bytes().skip(l as int));
        }
        r
    }
}

impl Range for core::ops::Range<usize> {
    open spec fn spec_lo(&self) -> int {
        self.start as int
    }

    open spec fn spec_hi(&self, len: int) -> int {
        self.end as int
    }

    fn sub_nearest<'a>(&self, obj: &'a str) -> (r: &'a str) {
        sub_nearest_at(obj, self.start, self.end)
    }
}

impl Range for core::ops::RangeTo<usize> {
    open spec fn spec_lo(&self) -> int {
        0
    }

    open spec fn spec_hi(&self, len: int) -> int {
        self.end as int
    }

    fn sub_nearest<'a>(&self, obj: &'a str) -> (r: &'a str) {
        sub_nearest_at(obj, 0, self.end)
    }
}

impl Range for core::ops::RangeFrom<usize> {
    open spec fn spec_lo(&self) -> int {
        self.start as int
    }

    open spec fn spec_hi(&self, len: int) -> int {
        len
    }

    fn sub_nearest<'a>(&self, obj: &'a str) -> (r: &'a str) {
        sub_nearest_at(obj, self.start, obj.as_bytes().len())
    }
}

/// A substring function which truncates strings at the nearest UTF-8
/// character boundary rather than panicking on a position inside a character.
pub fn sub_nearest<'a, R: Range>(s: &'a str, range: R) -> (r: &'a str)
    requires
        0 <= range.spec_lo() <= range.spec_hi(s.spec_bytes().len() as int)
            <= s.spec_bytes().len(),
    ensures
        r.spec_bytes() == spec_sub_nearest(
            s.spec_bytes(),
            range.spec_lo(),
            range.spec_hi(s.spec_bytes().len() as int),
        ),
{
    range.sub_nearest(s)
}

/// How many leading octets of `s` fit in `max` octets without splitting a
/// UTF-8 character: all of them when the string fits, else the largest
/// character boundary at or below `max`.
pub fn utf8_max(s: &str, max: usize) -> (r: usize)
    ensures
        r == if s.spec_bytes().len() <= max {
            s.spec_bytes().len() as int
        } else {
            boundary_below(s.spec_bytes(), max as int)
        },
        r <= max,
        r <= s.spec_bytes().len(),
        is_char_boundary(s.spec_bytes(), r as int),
{
    proof {
        encode_utf8_valid_utf8(s@);
        is_char_boundary_start_end_of_seq(s.spec_bytes());
    }
    let n = s.as_bytes().len();
    if n <= max {
        n
    } else {
        snap_down(s, max)
    }
}

/// A byte sequence that either borrows its input or owns a changed copy.
pub enum CowBytes<'a> {
    /// The input unchanged.
    Borrowed(&'a [u8]),
    /// A changed copy of the input.
    Owned(Vec<u8>),
}

impl<'a> View for CowBytes<'a> {
    type V = Seq<u8>;

    open spec fn view(&self) -> Seq<u8> {
        match self {
            CowBytes::Borrowed(b) => b@,
            CowBytes::Owned(v) => v@,
        }
    }
}

impl<'a> CowBytes<'a> {
    /// The underlying bytes.
    pub fn as_slice(&self) -> (r: &[u8])
        ensures
            r@ == self@,
    {
        match self {
            CowBytes::Borrowed(b) => b,
            CowBytes::Owned(v) => v.as_slice(),
        }
    }
}

/// An octet with an ASCII lowercase letter mapped to its uppercase form.
pub open spec fn spec_ascii_upper(c: u8) -> u8 {
    if 97 <= c <= 122 {
        (c - 32) as u8
    } else {
        c
    }
}

/// An octet with an ASCII uppercase letter mapped to its lowercase form.
pub open spec fn spec_ascii_lower(c: u8) -> u8 {
    if 65 <= c <= 90 {
        (c + 32) as u8
    } else {
        c
    }
}

/// `b` with its first octet mapped to uppercase, unless it already starts
/// with an ASCII uppercase letter or is empty.
pub open spec fn spec_capitalise_ascii(b: Seq<u8>) -> Seq<u8> {
    if b.len() == 0 || (65 <= b[0] <= 90) {
        b
    } else {
        b.update(0, spec_ascii_upper(b[0]))
    }
}

/// `b` with its first octet mapped to lowercase when it starts with an ASCII
/// uppercase letter.
pub open spec fn spec_decapitalise_ascii(b: Seq<u8>) -> Seq<u8> {
    if b.len() == 0 || !(65 <= b[0] <= 90) {
        b
    } else {
        b.update(0, spec_ascii_lower(b[0]))
    }
}

/// Copies `buf` with the octet at position 0 replaced by `first`.
fn copy_with_first<'a>(buf: &'a [u8], first: u8) -> (v: Vec<u8>)
    requires
        buf@.len() > 0,
    ensures
        v@ == buf@.update(0, first),
{
    let mut v: Vec<u8> = Vec::new();
    v.push(first);
    let n = buf.len();
    let mut i: usize = 1;
    while i < n
        invariant
            1 <= i <= n,
            n == buf@.len(),
            v@.len() == i,
            v@[0] == first,
            forall|j: int| 1 <= j < i ==> v@[j] == buf@[j],
        decreases n - i,
    {
        v.push(buf[i]);
        i = i + 1;
    }
    proof {
        assert(v@ =~= buf@.update(0, first));
    }
    v
}

/// A string capitalise function which operates on ASCII-only strings: the
/// input is borrowed unchanged when it is empty or already starts with an
/// uppercase letter, else an owned copy with the first octet uppercased.
pub fn capitalise_ascii<'a>(buf: &'a [u8]) -> (r: CowBytes<'a>)
    ensures
        r@ == spec_capitalise_ascii(buf@),
        r is Borrowed <==> (buf@.len() == 0 || (65 <= buf@[0] <= 90)),
{
    if buf.len() == 0 {
        return CowBytes::Borrowed(buf);
    }
    let c = buf[0];
    if c >= 65 && c <= 90 {
        CowBytes::Borrowed(buf)
    } else {
        let first = if c >= 97 && c <= 122 {
            c - 32
        } else {
            c
        };
        CowBytes::Owned(copy_with_first(buf, first))
    }
}

/// The inverse of `capitalise_ascii`: the input is borrowed unchanged unless
/// it starts with an ASCII uppercase letter, which an owned copy lowercases.
pub fn decapitalise_ascii<'a>(buf: &'a [u8]) -> (r: CowBytes<'a>)
    ensures
        r@ == spec_decapitalise_ascii(buf@),
        r is Borrowed <==> (buf@.len() == 0 || !(65 <= buf@[0] <= 90)),
{
    if buf.len() == 0 {
        return CowBytes::Borrowed(buf);
    }
    let c = buf[0];
    if c >= 65 && c <= 90 {
        CowBytes::Owned(copy_with_first(buf, c + 32))
    } else {
        CowBytes::Borrowed(buf)
    }
}

} // verus!
