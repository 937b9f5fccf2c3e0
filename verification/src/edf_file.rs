//! The decoded in-memory representation: header, per-signal metadata and
//! the physical-unit sample matrix. All of it is an immutable snapshot
//! built once during decode.

use vstd::prelude::*;
use crate::rational::{Dec, Ratio};

verus! {

/// A calendar date, kept as plain year/month/day numbers.
#[derive(Clone, Copy, Debug, PartialEq, Eq, Structural)]
pub struct Date {
    pub year: u32,
    pub month: u32,
    pub day: u32,
}

impl Date {
    pub fn new(year: u32, month: u32, day: u32) -> (r: Date)
        ensures
            r.year == year,
            r.month == month,
            r.day == day,
    {
        Date { year, month, day }
    }
}

/// A time of day, kept as plain hour/minute/second numbers.
#[derive(Clone, Copy, Debug, PartialEq, Eq, Structural)]
pub struct Time {
    pub hour: u32,
    pub minute: u32,
    pub second: u32,
}

impl Time {
    pub fn new(hour: u32, minute: u32, second: u32) -> (r: Time)
        ensures
            r.hour == hour,
            r.minute == minute,
            r.second == second,
    {
        Time { hour, minute, second }
    }
}

/// A calendar date with a time of day.
#[derive(Clone, Copy, Debug, PartialEq, Eq, Structural)]
pub struct DateTime {
    pub date: Date,
    pub time: Time,
}

impl DateTime {
    pub fn new(date: Date, time: Time) -> (r: DateTime)
        ensures
            r.date == date,
            r.time == time,
    {
        DateTime { date, time }
    }
}

pub open spec fn is_leap_year(y: int) -> bool {
    y % 4 == 0 && (y % 100 != 0 || y % 400 == 0)
}

pub open spec fn days_in_month(y: int, m: int) -> int {
    if m == 2 {
        if is_leap_year(y) {
            29
        } else {
            28
        }
    } else if m == 4 || m == 6 || m == 9 || m == 11 {
        30
    } else {
        31
    }
}

/// A real calendar date: month in range and day within the month.
pub open spec fn valid_date(y: int, m: int, d: int) -> bool {
    1 <= m <= 12 && 1 <= d <= days_in_month(y, m)
}

/// The fixed, whole-file metadata record.
#[derive(Debug)]
pub struct Header {
    pub patient_info: Vec<u8>,
    pub recording_id: Vec<u8>,
    /// The start date and time of the recording.
    pub start_datetime: DateTime,
    /// The number of bytes in the header, as declared by the file.
    pub size: usize,
    pub reserved: Vec<u8>,
    /// The number of records; `None` when the file declares it unknown.
    pub records_len: Option<usize>,
    /// The duration of a record in whole seconds.
    pub duration: usize,
    /// The number of signals in each record.
    pub signals_len: u32,
}

impl Header {
    /// Bounds forced by the fixed field widths: the signal count has four
    /// characters, a known record count eight.
    pub open spec fn wf(self) -> bool {
        &&& self.signals_len < 10000
        &&& match self.records_len {
            Some(n) => 1 <= n < 100_000_000,
            None => true,
        }
    }

    pub fn new(
        patient_info: Vec<u8>,
        recording_id: Vec<u8>,
        start_date: Date,
        start_time: Time,
        size: usize,
        reserved: Vec<u8>,
        records_len: Option<usize>,
        duration: usize,
        signals_len: u32,
    ) -> (r: Header)
        ensures
            r.patient_info@ == patient_info@,
            r.recording_id@ == recording_id@,
            r.start_datetime.date == start_date,
            r.start_datetime.time == start_time,
            r.size == size,
            r.reserved@ == reserved@,
            r.records_len == records_len,
            r.duration == duration,
            r.signals_len == signals_len,
    {
        let start_datetime = DateTime::new(start_date, start_time);
        Header {
            patient_info,
            recording_id,
            start_datetime,
            size,
            reserved,
            records_len,
            duration,
            signals_len,
        }
    }
}

/// Per-signal metadata: equal-length sequences indexed by signal position.
#[derive(Debug)]
pub struct SignalHeader {
    pub labels: Vec<Vec<u8>>,
    pub transducer_type: Vec<Vec<u8>>,
    pub physical_dimension: Vec<Vec<u8>>,
    pub physical_min: Vec<Dec>,
    pub physical_max: Vec<Dec>,
    pub digital_min: Vec<Dec>,
    pub digital_max: Vec<Dec>,
    pub prefiltering: Vec<Vec<u8>>,
    pub samples_in_record: Vec<u64>,
    pub reserved_field: Vec<Vec<u8>>,
}

impl SignalHeader {
    pub open spec fn sig_count(self) -> int {
        self.labels@.len() as int
    }

    /// Every sequence has the same length, and every numeric entry obeys
    /// the bounds its eight-character field forces.
    pub open spec fn wf(self) -> bool {
        &&& self.transducer_type@.len() == self.sig_count()
        &&& self.physical_dimension@.len() == self.sig_count()
        &&& self.physical_min@.len() == self.sig_count()
        &&& self.physical_max@.len() == self.sig_count()
        &&& self.digital_min@.len() == self.sig_count()
        &&& self.digital_max@.len() == self.sig_count()
        &&& self.prefiltering@.len() == self.sig_count()
        &&& self.samples_in_record@.len() == self.sig_count()
        &&& self.reserved_field@.len() == self.sig_count()
        &&& forall|i: int| 0 <= i < self.sig_count() ==> (#[trigger] self.physical_min@[i]).wf()
        &&& forall|i: int| 0 <= i < self.sig_count() ==> (#[trigger] self.physical_max@[i]).wf()
        &&& forall|i: int| 0 <= i < self.sig_count() ==> (#[trigger] self.digital_min@[i]).wf()
        &&& forall|i: int| 0 <= i < self.sig_count() ==> (#[trigger] self.digital_max@[i]).wf()
        &&& forall|i: int| 0 <= i < self.sig_count() ==> #[trigger] self.samples_in_record@[i]
            < 100_000_000
    }
}

/// The physical-unit sample matrix: one row per signal, one column per
/// global sample index, each cell an exact rational.
#[derive(Debug)]
pub struct SampleMatrix {
    pub rows: Vec<Vec<Ratio>>,
}

impl SampleMatrix {
    pub open spec fn n_rows(self) -> int {
        self.rows@.len() as int
    }

    /// Every row has the same given number of columns.
    pub open spec fn is_rect(self, cols: int) -> bool {
        forall|i: int| 0 <= i < self.n_rows() ==> (#[trigger] self.rows@[i])@.len() == cols
    }
}

/// The decoded file: header, signal metadata and sample matrix.
#[derive(Debug)]
pub struct EdfFile {
    pub header: Header,
    pub signal_header: SignalHeader,
    pub data: SampleMatrix,
}

impl EdfFile {
    pub fn new(header: Header, signal_header: SignalHeader, data: SampleMatrix) -> (r: EdfFile)
        ensures
            r.header == header,
            r.signal_header == signal_header,
            r.data == data,
    {
        EdfFile { header, signal_header, data }
    }
}

} // verus!
