//! Decoding of the fixed 256-byte header: ten fields at fixed offsets,
//! each an ASCII block, validated and parsed in file order.

use vstd::prelude::*;
use crate::edf_file::{Date, Time, Header, valid_date, days_in_month};
use crate::error::{Error, ErrorKind, HeaderError};
use crate::source::ByteSource;
use crate::text::{
    ascii_seq, is_ascii_byte, is_digit, all_digits, digits_value, trim_end_spec, parse_uint,
    parse_int, first_dot, trim_end_range, parse_uint_range, parse_int_range, parse_digits_range,
    lemma_first_dot_at, lemma_first_dot_none,
};
use crate::rational::{pow10, lemma_pow10_vals, lemma_pow10_mono};

verus! {

/// The version field: ASCII `'0'` followed by seven spaces.
pub open spec fn version_ok(s: Seq<u8>) -> bool {
    s.len() == 8 && s[0] == 48 && (forall|i: int| 1 <= i < 8 ==> s[i] == 32)
}

/// `dd.mm.yy` with the 1985 pivot: two-digit years below 85 fall in
/// 2000-2084, the rest in 1985-1999. The date must exist in the calendar.
pub open spec fn spec_parse_date(s: Seq<u8>) -> Option<(int, int, int)> {
    if s.len() == 8 && is_digit(s[0]) && is_digit(s[1]) && s[2] == 46 && is_digit(s[3]) && is_digit(
        s[4],
    ) && s[5] == 46 && is_digit(s[6]) && is_digit(s[7]) {
        let d = (s[0] - 48) * 10 + (s[1] - 48);
        let m = (s[3] - 48) * 10 + (s[4] - 48);
        let yy = (s[6] - 48) * 10 + (s[7] - 48);
        let y: int = if yy < 85 {
            2000 + yy
        } else {
            1900 + yy
        };
        if valid_date(y, m, d) {
            Some((y, m, d))
        } else {
            None
        }
    } else {
        None
    }
}

/// `hh.mm.ss`, strict format and ranges.
pub open spec fn spec_parse_time(s: Seq<u8>) -> Option<(int, int, int)> {
    if s.len() == 8 && is_digit(s[0]) && is_digit(s[1]) && s[2] == 46 && is_digit(s[3]) && is_digit(
        s[4],
    ) && s[5] == 46 && is_digit(s[6]) && is_digit(s[7]) {
        let h = (s[0] - 48) * 10 + (s[1] - 48);
        let mi = (s[3] - 48) * 10 + (s[4] - 48);
        let sec = (s[6] - 48) * 10 + (s[7] - 48);
        if h <= 23 && mi <= 59 && sec <= 59 {
            Some((h, mi, sec))
        } else {
            None
        }
    } else {
        None
    }
}

/// The record-count field: `-1` is the distinct "unknown" state, a
/// positive count is known, and anything else is invalid.
pub open spec fn spec_records(s: Seq<u8>) -> Option<Option<int>> {
    match parse_int(trim_end_spec(s)) {
        Some(n) => if n == -1 {
            Some(None)
        } else if n > 0 {
            Some(Some(n))
        } else {
            None
        },
        None => None,
    }
}

/// The duration field after trimming and an optional leading `'+'`.
pub open spec fn duration_body(s: Seq<u8>) -> Seq<u8> {
    let t0 = trim_end_spec(s);
    if t0.len() > 0 && t0[0] == 43 {
        t0.skip(1)
    } else {
        t0
    }
}

/// Why the duration field is rejected, if it is: a malformed number is a
/// field error; a fractional part with a nonzero digit is unsupported.
pub open spec fn spec_duration_err(s: Seq<u8>) -> Option<ErrorKind> {
    let t = duration_body(s);
    let dp = first_dot(t);
    if dp == -1 {
        if t.len() > 0 && all_digits(t) {
            None
        } else {
            Some(ErrorKind::Header(HeaderError::Field))
        }
    } else {
        let fp = t.subrange(dp + 1, t.len() as int);
        let ip = t.subrange(0, dp);
        if !(fp.len() > 0 && all_digits(fp)) {
            Some(ErrorKind::Header(HeaderError::Field))
        } else if digits_value(fp) != 0 {
            Some(ErrorKind::UnsupportedValue)
        } else if !(ip.len() > 0 && all_digits(ip)) {
            Some(ErrorKind::Header(HeaderError::Field))
        } else {
            None
        }
    }
}

/// The whole seconds of an accepted duration field.
pub open spec fn spec_duration_val(s: Seq<u8>) -> int {
    let t = duration_body(s);
    let dp = first_dot(t);
    if dp == -1 {
        digits_value(t)
    } else {
        digits_value(t.subrange(0, dp))
    }
}

/// The first failure the header decoder meets on window `w`, reading the
/// ten fields in file order, or `None` when all parse.
pub open spec fn header_fail(w: Seq<u8>) -> Option<ErrorKind> {
    if w.len() < 8 {
        Some(ErrorKind::Io)
    } else if !version_ok(w.subrange(0, 8)) {
        Some(ErrorKind::Header(HeaderError::Version))
    } else if w.len() < 88 {
        Some(ErrorKind::Io)
    } else if !ascii_seq(w.subrange(8, 88)) {
        Some(ErrorKind::Encoding)
    } else if w.len() < 168 {
        Some(ErrorKind::Io)
    } else if !ascii_seq(w.subrange(88, 168)) {
        Some(ErrorKind::Encoding)
    } else if w.len() < 176 {
        Some(ErrorKind::Io)
    } else if !ascii_seq(w.subrange(168, 176)) {
        Some(ErrorKind::Encoding)
    } else if spec_parse_date(w.subrange(168, 176)) is None {
        Some(ErrorKind::Header(HeaderError::Field))
    } else if w.len() < 184 {
        Some(ErrorKind::Io)
    } else if !ascii_seq(w.subrange(176, 184)) {
        Some(ErrorKind::Encoding)
    } else if spec_parse_time(w.subrange(176, 184)) is None {
        Some(ErrorKind::Header(HeaderError::Field))
    } else if w.len() < 192 {
        Some(ErrorKind::Io)
    } else if !ascii_seq(w.subrange(184, 192)) {
        Some(ErrorKind::Encoding)
    } else if parse_uint(trim_end_spec(w.subrange(184, 192))) is None {
        Some(ErrorKind::Header(HeaderError::Field))
    } else if w.len() < 236 {
        Some(ErrorKind::Io)
    } else if !ascii_seq(w.subrange(192, 236)) {
        Some(ErrorKind::Encoding)
    } else if w.len() < 244 {
        Some(ErrorKind::Io)
    } else if !ascii_seq(w.subrange(236, 244)) {
        Some(ErrorKind::Encoding)
    } else if spec_records(w.subrange(236, 244)) is None {
        Some(ErrorKind::Header(HeaderError::Field))
    } else if w.len() < 252 {
        Some(ErrorKind::Io)
    } else if !ascii_seq(w.subrange(244, 252)) {
        Some(ErrorKind::Encoding)
    } else if spec_duration_err(w.subrange(244, 252)) is Some {
        spec_duration_err(w.subrange(244, 252))
    } else if w.len() < 256 {
        Some(ErrorKind::Io)
    } else if !ascii_seq(w.subrange(252, 256)) {
        Some(ErrorKind::Encoding)
    } else if parse_uint(trim_end_spec(w.subrange(252, 256))) is None {
        Some(ErrorKind::Header(HeaderError::Field))
    } else {
        None
    }
}

/// The returned header holds exactly the field values the window encodes.
pub open spec fn header_matches(h: Header, w: Seq<u8>) -> bool {
    &&& h.patient_info@ == w.subrange(8, 88)
    &&& h.recording_id@ == w.subrange(88, 168)
    &&& spec_parse_date(w.subrange(168, 176)) == Some(
        (
            h.start_datetime.date.year as int,
            h.start_datetime.date.month as int,
            h.start_datetime.date.day as int,
        ),
    )
    &&& spec_parse_time(w.subrange(176, 184)) == Some(
        (
            h.start_datetime.time.hour as int,
            h.start_datetime.time.minute as int,
            h.start_datetime.time.second as int,
        ),
    )
    &&& parse_uint(trim_end_spec(w.subrange(184, 192))) == Some(h.size as int)
    &&& h.reserved@ == w.subrange(192, 236)
    &&& (match h.records_len {
        None => spec_records(w.subrange(236, 244)) == Some(Option::<int>::None),
        Some(n) => spec_records(w.subrange(236, 244)) == Some(Some(n as int)),
    })
    &&& h.duration as int == spec_duration_val(w.subrange(244, 252))
    &&& parse_uint(trim_end_spec(w.subrange(252, 256))) == Some(h.signals_len as int)
}

/// Reads `n` bytes that must be ASCII text.
fn read_text(f: &mut ByteSource, n: usize) -> (r: Result<Vec<u8>, Error>)
    requires
        old(f).wf(),
    ensures
        final(f).wf(),
        final(f).data@ == old(f).data@,
        final(f).pos >= old(f).pos,
        match r {
            Ok(v) => old(f).remaining() >= n && v@ == old(f).data@.subrange(
                old(f).pos as int,
                old(f).pos + n,
            ) && ascii_seq(v@) && final(f).pos == old(f).pos + n,
            Err(e) => (old(f).remaining() < n && e.kind == ErrorKind::Io) || (old(f).remaining()
                >= n && e.kind == ErrorKind::Encoding && !ascii_seq(
                old(f).data@.subrange(old(f).pos as int, old(f).pos + n),
            )),
        },
{
    let buf = match f.read_exact(n) {
        Ok(b) => b,
        Err(e) => {
            return Err(e);
        },
    };
    let mut i: usize = 0;
    while i < buf.len()
        invariant
            i <= buf.len(),
            forall|k: int| 0 <= k < i ==> is_ascii_byte(buf@[k]),
            f.wf(),
            f.data@ == old(f).data@,
            f.pos == old(f).pos + n,
            old(f).remaining() >= n,
            buf@ == old(f).data@.subrange(old(f).pos as int, old(f).pos + n),
        decreases buf.len() - i,
    {
        if buf[i] > 127 {
            return Err(Error::new(ErrorKind::Encoding));
        }
        i = i + 1;
    }
    Ok(buf)
}

/// Reads and validates the version field.
pub fn read_version(f: &mut ByteSource) -> (r: Result<(), Error>)
    requires
        old(f).wf(),
    ensures
        final(f).wf(),
        final(f).data@ == old(f).data@,
        final(f).pos >= old(f).pos,
        match r {
            Ok(_) => old(f).remaining() >= 8 && version_ok(
                old(f).data@.subrange(old(f).pos as int, old(f).pos + 8),
            ) && final(f).pos == old(f).pos + 8,
            Err(e) => (old(f).remaining() < 8 && e.kind == ErrorKind::Io) || (old(f).remaining()
                >= 8 && e.kind == ErrorKind::Header(HeaderError::Version) && !version_ok(
                old(f).data@.subrange(old(f).pos as int, old(f).pos + 8),
            )),
        },
{
    let buf = match f.read_exact(8) {
        Ok(b) => b,
        Err(e) => {
            return Err(e);
        },
    };
    if buf[0] != 48 {
        return Err(Error::new(ErrorKind::Header(HeaderError::Version)));
    }
    let mut i: usize = 1;
    while i < 8
        invariant
            1 <= i <= 8,
            buf@.len() == 8,
            buf@[0] == 48,
            forall|k: int| 1 <= k < i ==> buf@[k] == 32,
            f.wf(),
            f.data@ == old(f).data@,
            f.pos == old(f).pos + 8,
            old(f).remaining() >= 8,
            buf@ == old(f).data@.subrange(old(f).pos as int, old(f).pos + 8),
        decreases 8 - i,
    {
        if buf[i] != 32 {
            return Err(Error::new(ErrorKind::Header(HeaderError::Version)));
        }
        i = i + 1;
    }
    Ok(())
}

/// Parses a `dd.mm.yy` start date, applying the 1985 pivot.
pub fn parse_start_date(s: &Vec<u8>) -> (r: Result<Date, Error>)
    ensures
        match r {
            Ok(dt) => spec_parse_date(s@) == Some((dt.year as int, dt.month as int, dt.day as int)),
            Err(e) => spec_parse_date(s@) is None && e.kind == ErrorKind::Header(HeaderError::Field),
        },
{
    if s.len() != 8 {
        return Err(Error::new(ErrorKind::Header(HeaderError::Field)));
    }
    let ok = s[0] >= 48 && s[0] <= 57 && s[1] >= 48 && s[1] <= 57 && s[2] == 46 && s[3] >= 48
        && s[3] <= 57 && s[4] >= 48 && s[4] <= 57 && s[5] == 46 && s[6] >= 48 && s[6] <= 57
        && s[7] >= 48 && s[7] <= 57;
    if !ok {
        return Err(Error::new(ErrorKind::Header(HeaderError::Field)));
    }
    let d: u32 = (s[0] - 48) as u32 * 10 + (s[1] - 48) as u32;
    let m: u32 = (s[3] - 48) as u32 * 10 + (s[4] - 48) as u32;
    let yy: u32 = (s[6] - 48) as u32 * 10 + (s[7] - 48) as u32;
    let y: u32 = if yy < 85 {
        2000 + yy
    } else {
        1900 + yy
    };
    if m < 1 || m > 12 {
        return Err(Error::new(ErrorKind::Header(HeaderError::Field)));
    }
    let dim: u32 = days_in_month_u32(y, m);
    if d < 1 || d > dim {
        return Err(Error::new(ErrorKind::Header(HeaderError::Field)));
    }
    Ok(Date::new(y, m, d))
}

/// Days in a month of the proleptic Gregorian calendar.
fn days_in_month_u32(y: u32, m: u32) -> (r: u32)
    requires
        1 <= m <= 12,
    ensures
        r == days_in_month(y as int, m as int),
{
    if m == 2 {
        if y % 4 == 0 && (y % 100 != 0 || y % 400 == 0) {
            29
        } else {
            28
        }
    } else if m == 4 || m == 6 || m == 9 || m == 11 {
        30
    } else {
        31
    }
}

/// Parses a `hh.mm.ss` start time.
pub fn parse_start_time(s: &Vec<u8>) -> (r: Result<Time, Error>)
    ensures
        match r {
            Ok(t) => spec_parse_time(s@) == Some(
                (t.hour as int, t.minute as int, t.second as int),
            ),
            Err(e) => spec_parse_time(s@) is None && e.kind == ErrorKind::Header(HeaderError::Field),
        },
{
    if s.len() != 8 {
        return Err(Error::new(ErrorKind::Header(HeaderError::Field)));
    }
    let ok = s[0] >= 48 && s[0] <= 57 && s[1] >= 48 && s[1] <= 57 && s[2] == 46 && s[3] >= 48
        && s[3] <= 57 && s[4] >= 48 && s[4] <= 57 && s[5] == 46 && s[6] >= 48 && s[6] <= 57
        && s[7] >= 48 && s[7] <= 57;
    if !ok {
        return Err(Error::new(ErrorKind::Header(HeaderError::Field)));
    }
    let h: u32 = (s[0] - 48) as u32 * 10 + (s[1] - 48) as u32;
    let mi: u32 = (s[3] - 48) as u32 * 10 + (s[4] - 48) as u32;
    let sec: u32 = (s[6] - 48) as u32 * 10 + (s[7] - 48) as u32;
    if h > 23 || mi > 59 || sec > 59 {
        return Err(Error::new(ErrorKind::Header(HeaderError::Field)));
    }
    Ok(Time::new(h, mi, sec))
}

/// Parses the record-count field of a buffer already read.
pub fn parse_records_len(s: &Vec<u8>) -> (r: Result<Option<usize>, Error>)
    requires
        s@.len() <= 8,
    ensures
        match r {
            Ok(v) => (match v {
                None => spec_records(s@) == Some(Option::<int>::None),
                Some(n) => spec_records(s@) == Some(Some(n as int)) && 1 <= n < 100_000_000,
            }),
            Err(e) => spec_records(s@) is None && e.kind == ErrorKind::Header(HeaderError::Field),
        },
{
    let hi = trim_end_range(s);
    proof {
        lemma_pow10_vals();
        lemma_pow10_mono((hi - 0) as nat, 8);
    }
    match parse_int_range(s, 0, hi) {
        Some(n) => {
            if n == -1 {
                Ok(None)
            } else if n > 0 {
                Ok(Some(n as usize))
            } else {
                Err(Error::new(ErrorKind::Header(HeaderError::Field)))
            }
        },
        None => Err(Error::new(ErrorKind::Header(HeaderError::Field))),
    }
}

/// Parses the duration field of a buffer already read: whole seconds,
/// with an all-zero fractional part tolerated.
pub fn parse_duration(s: &Vec<u8>) -> (r: Result<usize, Error>)
    requires
        s@.len() <= 8,
    ensures
        match r {
            Ok(n) => spec_duration_err(s@) is None && n as int == spec_duration_val(s@) && n
                < 100_000_000,
            Err(e) => spec_duration_err(s@) == Some(e.kind),
        },
{
    let hi = trim_end_range(s);
    let mut lo: usize = 0;
    if hi > 0 && s[0] == 43 {
        lo = 1;
    }
    let ghost t = duration_body(s@);
    proof {
        if hi > 0 {
            assert(trim_end_spec(s@)[0] == s@[0]);
        }
        assert(t =~= s@.subrange(lo as int, hi as int));
    }
    let mut i: usize = lo;
    while i < hi && s[i] != 46
        invariant
            lo <= i <= hi <= s@.len(),
            forall|j: int| lo <= j < i ==> s@[j] != 46,
        decreases hi - i,
    {
        i = i + 1;
    }
    proof {
        assert(forall|j: int| 0 <= j < t.len() ==> t[j] == s@[lo + j]);
        lemma_pow10_vals();
    }
    if i == hi {
        // no fractional part
        proof {
            lemma_first_dot_none(t);
            lemma_pow10_mono((hi - lo) as nat, 8);
        }
        if lo == hi {
            return Err(Error::new(ErrorKind::Header(HeaderError::Field)));
        }
        match parse_digits_range(s, lo, hi) {
            Some(n) => Ok(n as usize),
            None => Err(Error::new(ErrorKind::Header(HeaderError::Field))),
        }
    } else {
        proof {
            assert(t[i - lo] == s@[i as int]);
            lemma_first_dot_at(t, i - lo);
            assert(t.subrange(0, i - lo) =~= s@.subrange(lo as int, i as int));
            assert(t.subrange(i - lo + 1, t.len() as int) =~= s@.subrange(i + 1, hi as int));
            lemma_pow10_mono((i - lo) as nat, 8);
        }
        if i + 1 == hi {
            return Err(Error::new(ErrorKind::Header(HeaderError::Field)));
        }
        let fv = match parse_digits_range(s, i + 1, hi) {
            Some(v) => v,
            None => {
                return Err(Error::new(ErrorKind::Header(HeaderError::Field)));
            },
        };
        if fv != 0 {
            return Err(Error::new(ErrorKind::UnsupportedValue));
        }
        if i == lo {
            return Err(Error::new(ErrorKind::Header(HeaderError::Field)));
        }
        match parse_digits_range(s, lo, i) {
            Some(n) => Ok(n as usize),
            None => Err(Error::new(ErrorKind::Header(HeaderError::Field))),
        }
    }
}

/// Reads and validates the whole 256-byte header.
#[verifier::rlimit(60)]
pub fn read_header(f: &mut ByteSource) -> (r: Result<Header, Error>)
    requires
        old(f).wf(),
    ensures
        final(f).wf(),
        final(f).data@ == old(f).data@,
        final(f).pos >= old(f).pos,
        match r {
            Ok(h) => header_fail(old(f).data@.skip(old(f).pos as int)) is None && header_matches(
                h,
                old(f).data@.skip(old(f).pos as int),
            ) && final(f).pos == old(f).pos + 256 && h.wf(),
            Err(e) => Some(e.kind) == header_fail(old(f).data@.skip(old(f).pos as int)),
        },
{
    let ghost w = old(f).data@.skip(old(f).pos as int);
    let ghost p0 = old(f).pos as int;
    proof {
        if w.len() >= 8 {
            assert(w.subrange(0, 8) =~= old(f).data@.subrange(p0, p0 + 8));
        }
        if w.len() >= 88 {
            assert(w.subrange(8, 88) =~= old(f).data@.subrange(p0 + 8, p0 + 88));
        }
        if w.len() >= 168 {
            assert(w.subrange(88, 168) =~= old(f).data@.subrange(p0 + 88, p0 + 168));
        }
        if w.len() >= 176 {
            assert(w.subrange(168, 176) =~= old(f).data@.subrange(p0 + 168, p0 + 176));
        }
        if w.len() >= 184 {
            assert(w.subrange(176, 184) =~= old(f).data@.subrange(p0 + 176, p0 + 184));
        }
        if w.len() >= 192 {
            assert(w.subrange(184, 192) =~= old(f).data@.subrange(p0 + 184, p0 + 192));
        }
        if w.len() >= 236 {
            assert(w.subrange(192, 236) =~= old(f).data@.subrange(p0 + 192, p0 + 236));
        }
        if w.len() >= 244 {
            assert(w.subrange(236, 244) =~= old(f).data@.subrange(p0 + 236, p0 + 244));
        }
        if w.len() >= 252 {
            assert(w.subrange(244, 252) =~= old(f).data@.subrange(p0 + 244, p0 + 252));
        }
        if w.len() >= 256 {
            assert(w.subrange(252, 256) =~= old(f).data@.subrange(p0 + 252, p0 + 256));
        }
    }
    match read_version(f) {
        Ok(_) => (),
        Err(e) => {
            return Err(e);
        },
    }
    let patient_info = match read_text(f, 80) {
        Ok(v) => v,
        Err(e) => {
            return Err(e);
        },
    };
    let recording_id = match read_text(f, 80) {
        Ok(v) => v,
        Err(e) => {
            return Err(e);
        },
    };
    let date_buf = match read_text(f, 8) {
        Ok(v) => v,
        Err(e) => {
            return Err(e);
        },
    };
    let start_date = match parse_start_date(&date_buf) {
        Ok(d) => d,
        Err(e) => {
            return Err(e);
        },
    };
    let time_buf = match read_text(f, 8) {
        Ok(v) => v,
        Err(e) => {
            return Err(e);
        },
    };
    let start_time = match parse_start_time(&time_buf) {
        Ok(t) => t,
        Err(e) => {
            return Err(e);
        },
    };
    let size_buf = match read_text(f, 8) {
        Ok(v) => v,
        Err(e) => {
            return Err(e);
        },
    };
    let size_hi = trim_end_range(&size_buf);
    let size: usize = match parse_uint_range(&size_buf, 0, size_hi) {
        Some(n) => n as usize,
        None => {
            return Err(Error::new(ErrorKind::Header(HeaderError::Field)));
        },
    };
    let reserved = match read_text(f, 44) {
        Ok(v) => v,
        Err(e) => {
            return Err(e);
        },
    };
    let records_buf = match read_text(f, 8) {
        Ok(v) => v,
        Err(e) => {
            return Err(e);
        },
    };
    let records_len = match parse_records_len(&records_buf) {
        Ok(v) => v,
        Err(e) => {
            return Err(e);
        },
    };
    let duration_buf = match read_text(f, 8) {
        Ok(v) => v,
        Err(e) => {
            return Err(e);
        },
    };
    let duration = match parse_duration(&duration_buf) {
        Ok(v) => v,
        Err(e) => {
            return Err(e);
        },
    };
    let signals_buf = match read_text(f, 4) {
        Ok(v) => v,
        Err(e) => {
            return Err(e);
        },
    };
    let signals_hi = trim_end_range(&signals_buf);
    proof {
        lemma_pow10_vals();
        lemma_pow10_mono((signals_hi - 0) as nat, 4);
    }
    let signals_len: u32 = match parse_uint_range(&signals_buf, 0, signals_hi) {
        Some(n) => n as u32,
        None => {
            return Err(Error::new(ErrorKind::Header(HeaderError::Field)));
        },
    };
    Ok(
        Header::new(
            patient_info,
            recording_id,
            start_date,
            start_time,
            size,
            reserved,
            records_len,
            duration,
            signals_len,
        ),
    )
}

} // verus!
