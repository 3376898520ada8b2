//! The btsf binary time series format: records of named series of points.

use vstd::prelude::*;
use vstd::bytes::{spec_u32_from_le_bytes, spec_u32_to_le_bytes, lemma_auto_spec_u32_to_from_le_bytes};
use vstd::utf8::{valid_utf8, decode_utf8, encode_utf8};
use vstd::slice::{slice_subrange, slice_to_vec};
use byteorder::{ByteOrder, LittleEndian};

verus! {

/// One data point: a unix time and a float32 value, held as its IEEE-754 bit pattern.
#[derive(Clone, Copy, PartialEq, Eq, Structural, Debug)]
pub struct Point {
    pub t: i32,
    pub val: u32,
}

/// A named time series.
#[derive(Debug)]
pub struct BinaryTimeSeries {
    pub name: String,
    pub data: Vec<Point>,
}

/// The mathematical content of a series: its name and its points.
pub ghost struct SeriesView {
    pub name: Seq<char>,
    pub data: Seq<Point>,
}

impl View for BinaryTimeSeries {
    type V = SeriesView;

    open spec fn view(&self) -> SeriesView {
        SeriesView { name: self.name@, data: self.data@ }
    }
}

/// `LittleEndian::read_u32` of byteorder, on the four bytes that start at `at`:
/// their little-endian value.
#[verifier::external_body]
fn read_u32_le(buf: &[u8], at: usize) -> (r: u32)
    requires
        at + 4 <= buf@.len(),
    ensures
        r == spec_u32_from_le_bytes(buf@.subrange(at as int, at + 4)),
{
    LittleEndian::read_u32(&buf[at..])
}

/// `LittleEndian::read_i32` of byteorder, on the four bytes that start at `at`:
/// their little-endian value, read as a two's complement `i32`.
#[verifier::external_body]
fn read_i32_le(buf: &[u8], at: usize) -> (r: i32)
    requires
        at + 4 <= buf@.len(),
    ensures
        r == spec_u32_from_le_bytes(buf@.subrange(at as int, at + 4)) as i32,
{
    LittleEndian::read_i32(&buf[at..])
}

/// `LittleEndian::write_u32` of byteorder into a four byte buffer: the little-endian
/// bytes of `n`.
#[verifier::external_body]
fn u32_le_bytes(n: u32) -> (r: Vec<u8>)
    ensures
        r@ == spec_u32_to_le_bytes(n),
{
    let mut b = [0u8; 4];
    LittleEndian::write_u32(&mut b, n);
    b.to_vec()
}

/// `LittleEndian::write_i32` of byteorder into a four byte buffer: the little-endian
/// bytes of the two's complement bit pattern of `n`.
#[verifier::external_body]
fn i32_le_bytes(n: i32) -> (r: Vec<u8>)
    ensures
        r@ == spec_u32_to_le_bytes(n as u32),
{
    let mut b = [0u8; 4];
    LittleEndian::write_i32(&mut b, n);
    b.to_vec()
}

/// `String::from_utf8` of std: a string exactly when the bytes are valid UTF-8,
/// and then the characters they encode.
#[verifier::external_body]
fn utf8_to_string(bytes: &[u8]) -> (r: Option<String>)
    ensures
        r is Some <==> valid_utf8(bytes@),
        r matches Some(s) ==> s@ == decode_utf8(bytes@),
{
    String::from_utf8(bytes.to_vec()).ok()
}

/// Why a byte string is not a btsf file that can be read.
#[derive(Clone, Copy, PartialEq, Eq, Structural, Debug)]
pub enum BtsfError {
    /// The input ends before a field that has to be read.
    Truncated,
    /// The record header is shorter than the two length fields it starts with.
    RecordHeaderTooShort,
    /// A record's name is not valid UTF-8.
    InvalidName,
}

/// The unsigned little-endian 32 bit integer at byte offset `at`.
pub open spec fn u32_at(s: Seq<u8>, at: int) -> u32 {
    spec_u32_from_le_bytes(s.subrange(at, at + 4))
}

/// The point stored at byte offset `at`: a signed time, then the value's bits.
pub open spec fn point_at(s: Seq<u8>, at: int) -> Point {
    Point { t: u32_at(s, at) as i32, val: u32_at(s, at + 4) }
}

/// The `n` points stored one after another from byte offset `at`.
pub open spec fn points_at(s: Seq<u8>, at: int, n: nat) -> Seq<Point> {
    Seq::new(n, |j: int| point_at(s, at + 8 * j))
}

/// The reader's name buffer: a name that the end of the input cuts short is read
/// only when it is at most this long.
pub const NAME_BUFFER_LEN: u32 = 1024;

/// The name bytes of a record: the `l` bytes from `at`; when the input ends before
/// them, the bytes it still holds from `at` on, then zero bytes up to `l` in all.
pub open spec fn name_bytes_at(s: Seq<u8>, at: int, l: int) -> Seq<u8> {
    if at + l <= s.len() {
        s.subrange(at, at + l)
    } else {
        let from = if at < s.len() {
            at
        } else {
            s.len() as int
        };
        s.subrange(from, s.len() as int) + Seq::new((l - (s.len() - from)) as nat, |i: int| 0u8)
    }
}

/// The record at byte offset `o` of a file whose record headers are `h` bytes long:
/// the series it holds and the offset where the next record starts, or why it
/// cannot be read. Fields are read in order, so the first one missing decides. A
/// name cut short by the end of the input is padded with zero bytes when it fits
/// the name buffer and its record has no points; the next record then cannot start
/// within the input.
pub open spec fn record_at(s: Seq<u8>, o: int, h: int) -> Result<(SeriesView, int), BtsfError> {
    if o + 8 > s.len() {
        Err(BtsfError::Truncated)
    } else {
        let n = u32_at(s, o) as int;
        let l = u32_at(s, o + 4) as int;
        let start = o + h;
        if h < 8 {
            Err(BtsfError::RecordHeaderTooShort)
        } else if l > 0 && start + l > s.len() && (l > NAME_BUFFER_LEN || n > 0) {
            Err(BtsfError::Truncated)
        } else if !valid_utf8(name_bytes_at(s, start, l)) {
            Err(BtsfError::InvalidName)
        } else if n > 0 && start + l + 8 * n > s.len() {
            Err(BtsfError::Truncated)
        } else {
            Ok(
                (
                    SeriesView {
                        name: decode_utf8(name_bytes_at(s, start, l)),
                        data: points_at(s, start + l, n as nat),
                    },
                    start + l + 8 * n,
                ),
            )
        }
    }
}

/// The `r` records that follow one another from byte offset `o`.
pub open spec fn records_from(s: Seq<u8>, o: int, h: int, r: nat) -> Result<
    Seq<SeriesView>,
    BtsfError,
>
    decreases r,
{
    if r == 0 {
        Ok(Seq::empty())
    } else {
        match record_at(s, o, h) {
            Err(e) => Err(e),
            Ok((v, next)) => match records_from(s, next, h, (r - 1) as nat) {
                Err(e) => Err(e),
                Ok(rest) => Ok(seq![v] + rest),
            },
        }
    }
}

/// What a btsf file holds. Its header gives, in order, the version, the offset of
/// the first record, the length of a record header and the number of records.
pub open spec fn btsf_contents(s: Seq<u8>) -> Result<Seq<SeriesView>, BtsfError> {
    if s.len() < 16 {
        Err(BtsfError::Truncated)
    } else {
        records_from(s, u32_at(s, 4) as int, u32_at(s, 8) as int, u32_at(s, 12) as nat)
    }
}

/// The views of a sequence of series.
pub open spec fn series_views(v: Seq<BinaryTimeSeries>) -> Seq<SeriesView> {
    v.map_values(|x: BinaryTimeSeries| x@)
}

/// `done` in front of the records of `rest`, or the error that stops `rest`.
pub open spec fn prepend_records(
    done: Seq<SeriesView>,
    rest: Result<Seq<SeriesView>, BtsfError>,
) -> Result<Seq<SeriesView>, BtsfError> {
    match rest {
        Ok(r) => Ok(done + r),
        Err(e) => Err(e),
    }
}

proof fn lemma_records_past_end(s: Seq<u8>, o1: int, o2: int, h: int, r: nat)
    requires
        o1 + 8 > s.len(),
        o2 + 8 > s.len(),
    ensures
        records_from(s, o1, h, r) == records_from(s, o2, h, r),
{
}

proof fn lemma_valid_utf8_empty()
    ensures
        valid_utf8(Seq::<u8>::empty()),
        decode_utf8(Seq::<u8>::empty()) == Seq::<char>::empty(),
{
    assert(valid_utf8(Seq::<u8>::empty()));
}

/// Reads the points stored one after another from byte offset `at`.
fn read_points(bytes: &[u8], at: usize, n: u32) -> (r: Vec<Point>)
    requires
        at + 8 * n <= bytes@.len(),
    ensures
        r@ == points_at(bytes@, at as int, n as nat),
{
    let len = bytes.len();
    let mut data: Vec<Point> = Vec::new();
    let mut j: u32 = 0;
    while j < n
        invariant
            j <= n,
            len == bytes@.len(),
            at + 8 * n <= len,
            data@ =~= points_at(bytes@, at as int, j as nat),
        decreases n - j,
    {
        let p = at + 8 * (j as usize);
        let t = read_i32_le(bytes, p);
        let v = read_u32_le(bytes, p + 4);
        data.push(Point { t, val: v });
        j = j + 1;
    }
    data
}

/// The name bytes of a record whose name the end of the input cuts short.
fn padded_name(bytes: &[u8], o: usize, h: u32, l: u32) -> (r: Vec<u8>)
    requires
        o <= bytes@.len(),
        o + h + l > bytes@.len(),
    ensures
        r@ == name_bytes_at(bytes@, o + h, l as int),
{
    let len = bytes.len();
    let ghost at = o + h;
    let ghost from = if at < len { at } else { len as int };
    let ghost present = bytes@.subrange(from, len as int);
    let mut out: Vec<u8> = if (h as usize) <= len - o {
        slice_to_vec(slice_subrange(bytes, o + h as usize, len))
    } else {
        Vec::new()
    };
    proof {
        assert(out@ =~= present + Seq::new(0, |i: int| 0u8));
    }
    while out.len() < l as usize
        invariant
            present.len() <= out@.len() <= l,
            out@ =~= present + Seq::new((out@.len() - present.len()) as nat, |i: int| 0u8),
        decreases l - out@.len(),
    {
        out.push(0);
    }
    out
}

/// Reads the record at byte offset `o`, with record headers `h` bytes long. The
/// offset of the next record is given as is where it lies within the input, and as
/// the input's length where it lies past it (no record can start there either).
fn read_record(bytes: &[u8], o: usize, h: u32) -> (r: Result<(BinaryTimeSeries, usize), BtsfError>)
    requires
        o <= bytes@.len(),
    ensures
        match r {
            Ok((x, next)) => record_at(bytes@, o as int, h as int) matches Ok((v, tn)) && x@ == v
                && next as int == (if tn <= bytes@.len() { tn } else { bytes@.len() as int }),
            Err(e) => record_at(bytes@, o as int, h as int) == Err::<(SeriesView, int), _>(e),
        },
{
    let len = bytes.len();
    if len - o < 8 {
        return Err(BtsfError::Truncated);
    }
    let n = read_u32_le(bytes, o);
    let l = read_u32_le(bytes, o + 4);
    if h < 8 {
        return Err(BtsfError::RecordHeaderTooShort);
    }
    let rem = len - o;
    let name_fits = (h as usize) <= rem && (l as usize) <= rem - (h as usize);
    if l > 0 && !name_fits && (l > NAME_BUFFER_LEN || n > 0) {
        return Err(BtsfError::Truncated);
    }
    let name = if l == 0 {
        proof {
            lemma_valid_utf8_empty();
            assert(name_bytes_at(bytes@, o + h, 0) =~= Seq::<u8>::empty());
        }
        String::new()
    } else {
        let nb: Vec<u8> = if name_fits {
            let start = o + h as usize;
            slice_to_vec(slice_subrange(bytes, start, start + l as usize))
        } else {
            padded_name(bytes, o, h, l)
        };
        match utf8_to_string(nb.as_slice()) {
            Some(s) => s,
            None => {
                return Err(BtsfError::InvalidName);
            },
        }
    };
    let points_fit = name_fits && (n as u64) * 8 <= (rem - (h as usize) - (l as usize)) as u64;
    if n > 0 && !points_fit {
        return Err(BtsfError::Truncated);
    }
    let (data, next) = if points_fit {
        let at = o + h as usize + l as usize;
        (read_points(bytes, at, n), at + 8 * (n as usize))
    } else {
        (Vec::new(), len)
    };
    proof {
        assert(data@ =~= points_at(bytes@, o + h + l, n as nat));
    }
    Ok((BinaryTimeSeries { name, data }, next))
}

/// Reads a btsf file held in memory: every record that its header announces, in
/// order, or the first reason why one of them cannot be read. Input that ends
/// before a field that must be read, or a name that is not valid UTF-8, is refused
/// with an error; the one exception is a name that the end of the input cuts short
/// in a record without points, which is padded with zero bytes (see `record_at`).
/// Names may have any length that the input holds.
pub fn read_btsf_file(bytes: &[u8]) -> (r: Result<Vec<BinaryTimeSeries>, BtsfError>)
    ensures
        btsf_contents(bytes@) == (match r {
            Ok(v) => Ok(series_views(v@)),
            Err(e) => Err(e),
        }),
{
    let len = bytes.len();
    if len < 16 {
        return Err(BtsfError::Truncated);
    }
    let first = read_u32_le(bytes, 4);
    let h = read_u32_le(bytes, 8);
    let count = read_u32_le(bytes, 12);
    let mut o: usize = if (first as usize) <= len { first as usize } else { len };
    proof {
        if (first as usize) > len {
            lemma_records_past_end(bytes@, first as int, o as int, h as int, count as nat);
        }
    }
    let mut series: Vec<BinaryTimeSeries> = Vec::new();
    let mut i: u32 = 0;
    while i < count
        invariant
            i <= count,
            o <= len,
            len == bytes@.len(),
            len >= 16,
            count == u32_at(bytes@, 12),
            h == u32_at(bytes@, 8),
            btsf_contents(bytes@) == prepend_records(
                series_views(series@),
                records_from(bytes@, o as int, h as int, (count - i) as nat),
            ),
        decreases count - i,
    {
        match read_record(bytes, o, h) {
            Err(e) => {
                return Err(e);
            },
            Ok((x, next)) => {
                proof {
                    let tn = record_at(bytes@, o as int, h as int)->Ok_0.1;
                    let r = (count - i - 1) as nat;
                    if tn > len {
                        lemma_records_past_end(bytes@, tn, next as int, h as int, r);
                    }
                    let done = series_views(series@);
                    assert(series_views(series@.push(x)) =~= done.push(x@));
                    match records_from(bytes@, tn, h as int, r) {
                        Ok(rest) => {
                            assert(done + (seq![x@] + rest) =~= done.push(x@) + rest);
                        },
                        Err(e) => {},
                    }
                }
                series.push(x);
                o = next;
                i = i + 1;
            },
        }
    }
    proof {
        assert(series_views(series@) + Seq::<SeriesView>::empty() =~= series_views(series@));
    }
    Ok(series)
}

/// A series together with its correlation to some query series, a float32 held as
/// its bit pattern.
pub struct CorrelatedTimeSeries<'a> {
    pub series: &'a BinaryTimeSeries,
    pub correlation: u32,
}

impl<'a> View for CorrelatedTimeSeries<'a> {
    type V = (SeriesView, u32);

    open spec fn view(&self) -> (SeriesView, u32) {
        (self.series@, self.correlation)
    }
}

/// The little-endian bytes of `n`.
pub open spec fn le32(n: u32) -> Seq<u8> {
    spec_u32_to_le_bytes(n)
}

/// The points written one after another: the time's bits, then the value's bits.
pub open spec fn points_bytes(ps: Seq<Point>) -> Seq<u8>
    decreases ps.len(),
{
    if ps.len() == 0 {
        Seq::empty()
    } else {
        points_bytes(ps.drop_last()) + le32(ps.last().t as u32) + le32(ps.last().val)
    }
}

/// One record as the correlated writer lays it out: point count, name length in
/// bytes, the correlation in the extension field, the UTF-8 name, the points.
pub open spec fn record_bytes(x: SeriesView, correlation: u32) -> Seq<u8> {
    laid_out_record(x, le32(correlation))
}

/// A record laid out with the extension bytes `ext` (the rest of its record header)
/// between its two length fields and its name.
pub open spec fn laid_out_record(x: SeriesView, ext: Seq<u8>) -> Seq<u8> {
    let nb = encode_utf8(x.name);
    le32(x.data.len() as u32) + le32(nb.len() as u32) + ext + nb + points_bytes(x.data)
}

/// Records laid out one after another, each with its own extension bytes.
pub open spec fn laid_out_records(rs: Seq<(SeriesView, Seq<u8>)>) -> Seq<u8>
    decreases rs.len(),
{
    if rs.len() == 0 {
        Seq::empty()
    } else {
        laid_out_records(rs.drop_last()) + laid_out_record(rs.last().0, rs.last().1)
    }
}

/// A btsf file of the given version whose file header is followed by the bytes
/// `file_pad`, and whose record headers carry `ext_len` extension bytes each.
pub open spec fn laid_out_file(
    version: u32,
    file_pad: Seq<u8>,
    ext_len: nat,
    rs: Seq<(SeriesView, Seq<u8>)>,
) -> Seq<u8> {
    le32(version) + le32((16 + file_pad.len()) as u32) + le32((8 + ext_len) as u32) + le32(
        rs.len() as u32,
    ) + file_pad + laid_out_records(rs)
}

/// The records written one after another.
pub open spec fn records_bytes(rs: Seq<(SeriesView, u32)>) -> Seq<u8>
    decreases rs.len(),
{
    if rs.len() == 0 {
        Seq::empty()
    } else {
        records_bytes(rs.drop_last()) + record_bytes(rs.last().0, rs.last().1)
    }
}

/// The file the correlated writer produces: version 2, a 16 byte file header,
/// 12 byte record headers, the record count, then the records.
pub open spec fn correlated_file_bytes(rs: Seq<(SeriesView, u32)>) -> Seq<u8> {
    le32(2) + le32(16) + le32(12) + le32(rs.len() as u32) + records_bytes(rs)
}

/// The views of a slice of correlated series.
pub open spec fn correlated_views(data: Seq<CorrelatedTimeSeries>) -> Seq<(SeriesView, u32)> {
    data.map_values(|c: CorrelatedTimeSeries| c@)
}

fn append_u32(out: &mut Vec<u8>, n: u32)
    ensures
        final(out)@ == old(out)@ + le32(n),
{
    let mut b = u32_le_bytes(n);
    out.append(&mut b);
}

pub(crate) fn append_points(out: &mut Vec<u8>, ps: &Vec<Point>)
    ensures
        final(out)@ == old(out)@ + points_bytes(ps@),
{
    let ghost start = out@;
    let mut j: usize = 0;
    while j < ps.len()
        invariant
            j <= ps@.len(),
            out@ == start + points_bytes(ps@.subrange(0, j as int)),
        decreases ps@.len() - j,
    {
        let ghost before = out@;
        let mut tb = i32_le_bytes(ps[j].t);
        out.append(&mut tb);
        append_u32(out, ps[j].val);
        proof {
            let pre = ps@.subrange(0, j + 1);
            assert(pre.drop_last() =~= ps@.subrange(0, j as int));
            assert(out@ =~= start + points_bytes(pre));
        }
        j = j + 1;
    }
    proof {
        assert(ps@.subrange(0, ps@.len() as int) =~= ps@);
    }
}

/// Writes the series with their correlations as a btsf file. Counts and lengths
/// that do not fit in 32 bits are cut to their low 32 bits, as the format's fields
/// are that wide.
pub fn write_correlated_btsf_file(data: &[CorrelatedTimeSeries]) -> (out: Vec<u8>)
    ensures
        out@ == correlated_file_bytes(correlated_views(data@)),
{
    let mut out: Vec<u8> = Vec::new();
    append_u32(&mut out, 2);
    append_u32(&mut out, 16);
    append_u32(&mut out, 12);
    append_u32(&mut out, data.len() as u32);
    let ghost header = out@;
    let ghost views = correlated_views(data@);
    let mut k: usize = 0;
    while k < data.len()
        invariant
            k <= data@.len(),
            views == correlated_views(data@),
            out@ == header + records_bytes(views.subrange(0, k as int)),
        decreases data@.len() - k,
    {
        let corr_record = &data[k];
        let record = corr_record.series;
        let nb = record.name.as_str().as_bytes();
        append_u32(&mut out, record.data.len() as u32);
        append_u32(&mut out, nb.len() as u32);
        append_u32(&mut out, corr_record.correlation);
        let mut name = slice_to_vec(nb);
        out.append(&mut name);
        append_points(&mut out, &record.data);
        proof {
            let pre = views.subrange(0, k + 1);
            assert(pre.drop_last() =~= views.subrange(0, k as int));
            assert(out@ =~= header + records_bytes(pre));
        }
        k = k + 1;
    }
    proof {
        assert(views.subrange(0, data@.len() as int) =~= views);
    }
    out
}

proof fn lemma_window(s: Seq<u8>, o: int, b: Seq<u8>, i: int, j: int)
    requires
        0 <= o,
        o + b.len() <= s.len(),
        s.subrange(o, o + b.len()) == b,
        0 <= i <= j <= b.len(),
    ensures
        s.subrange(o + i, o + j) == b.subrange(i, j),
{
    assert forall|k: int| 0 <= k < j - i implies s.subrange(o + i, o + j)[k] == b.subrange(i, j)[k] by {
        assert(s.subrange(o, o + b.len())[i + k] == s[o + i + k]);
    }
    assert(s.subrange(o + i, o + j) =~= b.subrange(i, j));
}

pub(crate) proof fn lemma_points_bytes(ps: Seq<Point>)
    ensures
        points_bytes(ps).len() == 8 * ps.len(),
        forall|j: int|
            #![trigger ps[j]]
            0 <= j < ps.len() ==> {
                &&& points_bytes(ps).subrange(8 * j, 8 * j + 4) == le32(ps[j].t as u32)
                &&& points_bytes(ps).subrange(8 * j + 4, 8 * j + 8) == le32(ps[j].val)
            },
    decreases ps.len(),
{
    lemma_auto_spec_u32_to_from_le_bytes();
    if ps.len() > 0 {
        let pre = ps.drop_last();
        lemma_points_bytes(pre);
        let pb = points_bytes(ps);
        let n = pre.len();
        assert(pb == points_bytes(pre) + le32(ps.last().t as u32) + le32(ps.last().val));
        assert forall|j: int| #![trigger ps[j]] 0 <= j < ps.len() implies {
            &&& pb.subrange(8 * j, 8 * j + 4) == le32(ps[j].t as u32)
            &&& pb.subrange(8 * j + 4, 8 * j + 8) == le32(ps[j].val)
        } by {
            if j < n {
                assert(pre[j] == ps[j]);
                assert(pb.subrange(8 * j, 8 * j + 4) =~= points_bytes(pre).subrange(8 * j, 8 * j + 4));
                assert(pb.subrange(8 * j + 4, 8 * j + 8) =~= points_bytes(pre).subrange(
                    8 * j + 4,
                    8 * j + 8,
                ));
            } else {
                assert(pb.subrange(8 * j, 8 * j + 4) =~= le32(ps[j].t as u32));
                assert(pb.subrange(8 * j + 4, 8 * j + 8) =~= le32(ps[j].val));
            }
        }
    }
}

proof fn lemma_laid_out_records_concat(
    a: Seq<(SeriesView, Seq<u8>)>,
    b: Seq<(SeriesView, Seq<u8>)>,
)
    ensures
        laid_out_records(a + b) == laid_out_records(a) + laid_out_records(b),
    decreases b.len(),
{
    if b.len() == 0 {
        assert(a + b =~= a);
        assert(laid_out_records(a) + laid_out_records(b) =~= laid_out_records(a));
    } else {
        lemma_laid_out_records_concat(a, b.drop_last());
        assert((a + b).drop_last() =~= a + b.drop_last());
        assert((a + b).last() == b.last());
        assert(laid_out_records(a + b) =~= laid_out_records(a) + laid_out_records(b));
    }
}

/// The correlations as extension bytes of the correlated writer's records.
pub open spec fn with_correlation_ext(rs: Seq<(SeriesView, u32)>) -> Seq<(SeriesView, Seq<u8>)> {
    rs.map_values(|r: (SeriesView, u32)| (r.0, le32(r.1)))
}

proof fn lemma_records_bytes_laid_out(rs: Seq<(SeriesView, u32)>)
    ensures
        records_bytes(rs) == laid_out_records(with_correlation_ext(rs)),
    decreases rs.len(),
{
    if rs.len() > 0 {
        lemma_records_bytes_laid_out(rs.drop_last());
        assert(with_correlation_ext(rs).drop_last() =~= with_correlation_ext(rs.drop_last()));
    } else {
        assert(with_correlation_ext(rs) =~= Seq::<(SeriesView, Seq<u8>)>::empty());
    }
}

/// The shape a record must have for the reader to give it back unchanged: fewer
/// than 2^32 points, and a UTF-8 name of fewer than 2^32 bytes.
pub open spec fn readable_record(x: SeriesView) -> bool {
    &&& x.data.len() <= u32::MAX
    &&& encode_utf8(x.name).len() <= u32::MAX
}

proof fn lemma_read_laid_out_record(s: Seq<u8>, o: int, x: SeriesView, ext: Seq<u8>)
    requires
        readable_record(x),
        ext.len() + 8 <= u32::MAX,
        0 <= o,
        o + laid_out_record(x, ext).len() <= s.len(),
        s.subrange(o, o + laid_out_record(x, ext).len()) == laid_out_record(x, ext),
    ensures
        record_at(s, o, 8 + ext.len() as int) == Ok::<_, BtsfError>(
            (x, o + laid_out_record(x, ext).len()),
        ),
{
    lemma_auto_spec_u32_to_from_le_bytes();
    vstd::utf8::encode_utf8_valid_utf8(x.name);
    vstd::utf8::encode_utf8_decode_utf8(x.name);
    lemma_points_bytes(x.data);
    let rb = laid_out_record(x, ext);
    let nb = encode_utf8(x.name);
    let pb = points_bytes(x.data);
    let n = x.data.len() as int;
    let l = nb.len() as int;
    let h = 8 + ext.len() as int;
    assert(rb.len() == h + l + 8 * n);
    lemma_window(s, o, rb, 0, 4);
    assert(rb.subrange(0, 4) =~= le32(n as u32));
    lemma_window(s, o, rb, 4, 8);
    assert(rb.subrange(4, 8) =~= le32(l as u32));
    assert(u32_at(s, o) == n);
    assert(u32_at(s, o + 4) == l);
    lemma_window(s, o, rb, h, h + l);
    assert(rb.subrange(h, h + l) =~= nb);
    if l == 0 {
        assert(nb =~= Seq::<u8>::empty());
    }
    assert(name_bytes_at(s, o + h, l as int) == nb);
    let p0 = o + h + l;
    assert(points_at(s, p0, n as nat) =~= x.data) by {
        assert forall|j: int| 0 <= j < n implies point_at(s, p0 + 8 * j) == x.data[j] by {
            let p = x.data[j];
            lemma_window(s, o, rb, h + l + 8 * j, h + l + 8 * j + 4);
            assert(rb.subrange(h + l + 8 * j, h + l + 8 * j + 4) =~= pb.subrange(8 * j, 8 * j + 4));
            lemma_window(s, o, rb, h + l + 8 * j + 4, h + l + 8 * j + 8);
            assert(rb.subrange(h + l + 8 * j + 4, h + l + 8 * j + 8) =~= pb.subrange(
                8 * j + 4,
                8 * j + 8,
            ));
            let t = p.t;
            assert(((t as u32) as i32) == t) by (bit_vector);
        }
    }
}

proof fn lemma_read_laid_out_records(s: Seq<u8>, o: int, ext_len: nat, rs: Seq<(SeriesView, Seq<u8>)>)
    requires
        forall|i: int|
            0 <= i < rs.len() ==> readable_record(#[trigger] rs[i].0) && rs[i].1.len() == ext_len,
        ext_len + 8 <= u32::MAX,
        0 <= o,
        o + laid_out_records(rs).len() <= s.len(),
        s.subrange(o, o + laid_out_records(rs).len()) == laid_out_records(rs),
    ensures
        records_from(s, o, 8 + ext_len as int, rs.len()) == Ok::<_, BtsfError>(
            rs.map_values(|r: (SeriesView, Seq<u8>)| r.0),
        ),
    decreases rs.len(),
{
    if rs.len() == 0 {
        assert(rs.map_values(|r: (SeriesView, Seq<u8>)| r.0) =~= Seq::<SeriesView>::empty());
    } else {
        let first = seq![rs[0]];
        let rest = rs.subrange(1, rs.len() as int);
        assert(rs =~= first + rest);
        lemma_laid_out_records_concat(first, rest);
        assert(first.drop_last() =~= Seq::<(SeriesView, Seq<u8>)>::empty());
        let rb = laid_out_record(rs[0].0, rs[0].1);
        assert(laid_out_records(first.drop_last()) == Seq::<u8>::empty());
        assert(first.last() == rs[0]);
        assert(laid_out_records(first) =~= rb);
        let all = laid_out_records(rs);
        assert(all == rb + laid_out_records(rest));
        lemma_window(s, o, all, 0, rb.len() as int);
        assert(all.subrange(0, rb.len() as int) =~= rb);
        assert(readable_record(rs[0].0) && rs[0].1.len() == ext_len);
        lemma_read_laid_out_record(s, o, rs[0].0, rs[0].1);
        lemma_window(s, o, all, rb.len() as int, all.len() as int);
        assert(all.subrange(rb.len() as int, all.len() as int) =~= laid_out_records(rest));
        assert forall|i: int| 0 <= i < rest.len() implies readable_record(#[trigger] rest[i].0)
            && rest[i].1.len() == ext_len by {
            assert(rest[i] == rs[i + 1]);
        }
        lemma_read_laid_out_records(s, o + rb.len(), ext_len, rest);
        assert(seq![rs[0].0] + rest.map_values(|r: (SeriesView, Seq<u8>)| r.0) =~= rs.map_values(
            |r: (SeriesView, Seq<u8>)| r.0,
        ));
    }
}

/// A file laid out by the format gives back its series, in order, whatever its
/// version field, whatever bytes lie between its file header and its first record,
/// and whatever its records carry in their extension bytes: the reader ignores all
/// of those. This holds for any list of series that the format can hold: fewer than
/// 2^32 of them, each with fewer than 2^32 points and a name of fewer than 2^32
/// UTF-8 bytes, with header lengths that fit in 32 bits.
pub proof fn lemma_read_laid_out_file(
    version: u32,
    file_pad: Seq<u8>,
    ext_len: nat,
    rs: Seq<(SeriesView, Seq<u8>)>,
)
    requires
        rs.len() <= u32::MAX,
        16 + file_pad.len() <= u32::MAX,
        8 + ext_len <= u32::MAX,
        forall|i: int|
            0 <= i < rs.len() ==> readable_record(#[trigger] rs[i].0) && rs[i].1.len() == ext_len,
    ensures
        btsf_contents(laid_out_file(version, file_pad, ext_len, rs)) == Ok::<_, BtsfError>(
            rs.map_values(|r: (SeriesView, Seq<u8>)| r.0),
        ),
{
    lemma_auto_spec_u32_to_from_le_bytes();
    let s = laid_out_file(version, file_pad, ext_len, rs);
    let body = laid_out_records(rs);
    let f = 16 + file_pad.len() as int;
    let head = le32(version) + le32(f as u32) + le32((8 + ext_len) as u32) + le32(rs.len() as u32);
    assert(s == head + file_pad + body);
    assert(s.subrange(4, 8) =~= le32(f as u32));
    assert(s.subrange(8, 12) =~= le32((8 + ext_len) as u32));
    assert(s.subrange(12, 16) =~= le32(rs.len() as u32));
    assert(s.subrange(f, f + body.len()) =~= body);
    lemma_read_laid_out_records(s, f, ext_len, rs);
}

/// Reading back what the correlated writer wrote gives the series that were written,
/// in order, for any list of series that the format can hold: fewer than 2^32 of
/// them, each with fewer than 2^32 points and a name of fewer than 2^32 UTF-8 bytes.
/// (The correlations go to the extension field, which the reader skips.)
pub proof fn lemma_read_after_write(rs: Seq<(SeriesView, u32)>)
    requires
        rs.len() <= u32::MAX,
        forall|i: int| 0 <= i < rs.len() ==> readable_record(#[trigger] rs[i].0),
    ensures
        btsf_contents(correlated_file_bytes(rs)) == Ok::<_, BtsfError>(
            rs.map_values(|r: (SeriesView, u32)| r.0),
        ),
{
    lemma_auto_spec_u32_to_from_le_bytes();
    let er = with_correlation_ext(rs);
    lemma_records_bytes_laid_out(rs);
    assert(correlated_file_bytes(rs) =~= laid_out_file(2, Seq::empty(), 4, er));
    assert forall|i: int| 0 <= i < er.len() implies readable_record(#[trigger] er[i].0)
        && er[i].1.len() == 4 by {
        assert(er[i] == (rs[i].0, le32(rs[i].1)));
        assert(readable_record(rs[i].0));
    }
    lemma_read_laid_out_file(2, Seq::empty(), 4, er);
    assert(er.map_values(|r: (SeriesView, Seq<u8>)| r.0) =~= rs.map_values(
        |r: (SeriesView, u32)| r.0,
    ));
}

/// Where record `k` begins in what the correlated writer gives for `data`: after the
/// 16 byte file header and, for each earlier record, its 12 byte record header, its
/// UTF-8 name and 8 bytes per point.
pub open spec fn written_offset(data: Seq<CorrelatedTimeSeries>, k: int) -> int
    decreases k,
{
    if k <= 0 {
        16
    } else {
        written_offset(data, k - 1) + 12 + encode_utf8(data[k - 1].series@.name).len() + 8
            * data[k - 1].series@.data.len()
    }
}

/// From byte `o` on, `out` holds a record of series `x` with the correlation bits
/// `correlation`: the point count and the name's length in bytes (each cut to 32
/// bits), the correlation, the UTF-8 name, then each point's time and value bits.
pub open spec fn holds_record_at(out: Seq<u8>, o: int, x: SeriesView, correlation: u32) -> bool {
    let nb = encode_utf8(x.name);
    let p0 = o + 12 + nb.len();
    &&& 0 <= o
    &&& p0 + 8 * x.data.len() <= out.len()
    &&& out.subrange(o, o + 4) == le32(x.data.len() as u32)
    &&& out.subrange(o + 4, o + 8) == le32(nb.len() as u32)
    &&& out.subrange(o + 8, o + 12) == le32(correlation)
    &&& out.subrange(o + 12, p0) == nb
    &&& forall|j: int|
        0 <= j < x.data.len() ==> out.subrange(p0 + 8 * j, p0 + 8 * j + 4) == le32(
            #[trigger] x.data[j].t as u32,
        ) && out.subrange(p0 + 8 * j + 4, p0 + 8 * j + 8) == le32(x.data[j].val)
}

proof fn lemma_mid_window(a: Seq<u8>, b: Seq<u8>, c: Seq<u8>, i: int, j: int)
    requires
        0 <= i <= j <= b.len(),
    ensures
        (a + b + c).subrange(a.len() + i, a.len() + j) == b.subrange(i, j),
{
    assert((a + b + c).subrange(a.len() + i, a.len() + j) =~= b.subrange(i, j));
}

proof fn lemma_holds_record_shift(a: Seq<u8>, b: Seq<u8>, c: Seq<u8>, o: int, x: SeriesView, corr: u32)
    requires
        holds_record_at(b, o, x, corr),
    ensures
        holds_record_at(a + b + c, a.len() + o, x, corr),
{
    let nb = encode_utf8(x.name);
    let p0 = o + 12 + nb.len();
    lemma_mid_window(a, b, c, o, o + 4);
    lemma_mid_window(a, b, c, o + 4, o + 8);
    lemma_mid_window(a, b, c, o + 8, o + 12);
    lemma_mid_window(a, b, c, o + 12, p0);
    assert forall|j: int| 0 <= j < x.data.len() implies (a + b + c).subrange(
        a.len() + p0 + 8 * j,
        a.len() + p0 + 8 * j + 4,
    ) == le32(#[trigger] x.data[j].t as u32) && (a + b + c).subrange(
        a.len() + p0 + 8 * j + 4,
        a.len() + p0 + 8 * j + 8,
    ) == le32(x.data[j].val) by {
        lemma_mid_window(a, b, c, p0 + 8 * j, p0 + 8 * j + 4);
        lemma_mid_window(a, b, c, p0 + 8 * j + 4, p0 + 8 * j + 8);
    }
}

proof fn lemma_record_bytes_holds(x: SeriesView, corr: u32)
    ensures
        holds_record_at(record_bytes(x, corr), 0, x, corr),
        record_bytes(x, corr).len() == 12 + encode_utf8(x.name).len() + 8 * x.data.len(),
{
    lemma_auto_spec_u32_to_from_le_bytes();
    lemma_points_bytes(x.data);
    let rb = record_bytes(x, corr);
    let nb = encode_utf8(x.name);
    let pb = points_bytes(x.data);
    let l = nb.len() as int;
    assert(rb.subrange(0, 4) =~= le32(x.data.len() as u32));
    assert(rb.subrange(4, 8) =~= le32(nb.len() as u32));
    assert(rb.subrange(8, 12) =~= le32(corr));
    assert(rb.subrange(12, 12 + l) =~= nb);
    assert forall|j: int| 0 <= j < x.data.len() implies rb.subrange(
        12 + l + 8 * j,
        12 + l + 8 * j + 4,
    ) == le32(#[trigger] x.data[j].t as u32) && rb.subrange(12 + l + 8 * j + 4, 12 + l + 8 * j + 8)
        == le32(x.data[j].val) by {
        assert(rb.subrange(12 + l + 8 * j, 12 + l + 8 * j + 4) =~= pb.subrange(8 * j, 8 * j + 4));
        assert(rb.subrange(12 + l + 8 * j + 4, 12 + l + 8 * j + 8) =~= pb.subrange(
            8 * j + 4,
            8 * j + 8,
        ));
    }
}

proof fn lemma_written_records(data: Seq<CorrelatedTimeSeries>, n: int)
    requires
        0 <= n <= data.len(),
    ensures
        records_bytes(correlated_views(data).subrange(0, n)).len() == written_offset(data, n) - 16,
        forall|k: int|
            0 <= k < n ==> holds_record_at(
                records_bytes(correlated_views(data).subrange(0, n)),
                written_offset(data, k) - 16,
                (#[trigger] data[k]).series@,
                data[k].correlation,
            ),
    decreases n,
{
    let views = correlated_views(data);
    if n == 0 {
        assert(views.subrange(0, 0) =~= Seq::<(SeriesView, u32)>::empty());
    } else {
        lemma_written_records(data, n - 1);
        let pre = views.subrange(0, n - 1);
        let cur = views.subrange(0, n);
        assert(cur.drop_last() =~= pre);
        assert(cur.last() == (data[n - 1].series@, data[n - 1].correlation));
        let x = data[n - 1].series@;
        let c = data[n - 1].correlation;
        lemma_record_bytes_holds(x, c);
        let rp = records_bytes(pre);
        let rb = record_bytes(x, c);
        assert(records_bytes(cur) == rp + rb);
        assert forall|k: int| 0 <= k < n implies holds_record_at(
            records_bytes(cur),
            written_offset(data, k) - 16,
            (#[trigger] data[k]).series@,
            data[k].correlation,
        ) by {
            if k < n - 1 {
                lemma_holds_record_shift(Seq::empty(), rp, rb, written_offset(data, k) - 16, data[k].series@, data[k].correlation);
                assert(Seq::<u8>::empty() + rp + rb =~= rp + rb);
            } else {
                lemma_holds_record_shift(rp, rb, Seq::empty(), 0, x, c);
                assert(rp + rb + Seq::<u8>::empty() =~= rp + rb);
            }
        }
    }
}

/// What the correlated writer gives for `data`, byte by byte: the file header
/// (version 2, 16 byte file header, 12 byte record headers, the record count), then
/// for each record `k`, at `written_offset(data, k)`, its point count, its name's
/// length, its own correlation bits as given, its UTF-8 name and its points; and
/// nothing more.
pub proof fn lemma_written_layout(data: Seq<CorrelatedTimeSeries>)
    ensures
        correlated_file_bytes(correlated_views(data)).len() == written_offset(data, data.len() as int),
        correlated_file_bytes(correlated_views(data)).subrange(0, 16) == le32(2) + le32(16) + le32(
            12,
        ) + le32(data.len() as u32),
        forall|k: int|
            0 <= k < data.len() ==> holds_record_at(
                correlated_file_bytes(correlated_views(data)),
                written_offset(data, k),
                (#[trigger] data[k]).series@,
                data[k].correlation,
            ),
{
    lemma_auto_spec_u32_to_from_le_bytes();
    let views = correlated_views(data);
    let n = data.len() as int;
    lemma_written_records(data, n);
    assert(views.subrange(0, n) =~= views);
    let head = le32(2) + le32(16) + le32(12) + le32(views.len() as u32);
    let body = records_bytes(views);
    let out = correlated_file_bytes(views);
    assert(out == head + body);
    assert(head.len() == 16);
    assert(out.subrange(0, 16) =~= head);
    assert forall|k: int| 0 <= k < n implies holds_record_at(
        out,
        written_offset(data, k),
        (#[trigger] data[k]).series@,
        data[k].correlation,
    ) by {
        lemma_holds_record_shift(head, body, Seq::empty(), written_offset(data, k) - 16, data[k].series@, data[k].correlation);
        assert(head + body + Seq::<u8>::empty() =~= out);
    }
}

} // verus!
