//! Decoding of the sample stream: little-endian 16-bit digital codes,
//! de-interleaved record by record into one row per signal with a uniform
//! column stride, then rescaled to exact physical values.

use vstd::prelude::*;
use crate::edf_file::{Header, SignalHeader, SampleMatrix};
use crate::error::{Error, ErrorKind};
use crate::rational::{
    Dec, Ratio, dig_range_ok, phys_num, phys_den, scale_sample, pow10_i128, lemma_mul_bound,
};
use crate::source::ByteSource;

verus! {

/// The signed 16-bit value of a little-endian byte pair.
pub open spec fn i16_from_le(lo: u8, hi: u8) -> int {
    if hi < 128 {
        hi * 256 + lo
    } else {
        hi * 256 + lo - 65536
    }
}

/// Sum of the per-signal samples-per-record: samples in one data record.
pub open spec fn sum_spr(s: Seq<u64>) -> int
    decreases s.len(),
{
    if s.len() == 0 {
        0
    } else {
        sum_spr(s.drop_last()) + s.last()
    }
}

/// Largest samples-per-record across the signals: the column stride.
pub open spec fn max_spr(s: Seq<u64>) -> int
    decreases s.len(),
{
    if s.len() == 0 {
        0
    } else if s.last() > max_spr(s.drop_last()) {
        s.last() as int
    } else {
        max_spr(s.drop_last())
    }
}

/// Samples contributed by signals before `k` within one record.
pub open spec fn sum_pre(s: Seq<u64>, k: int) -> int {
    sum_spr(s.subrange(0, k))
}

pub proof fn lemma_sum_pre_step(s: Seq<u64>, k: int)
    requires
        0 <= k < s.len(),
    ensures
        sum_pre(s, k + 1) == sum_pre(s, k) + s[k],
{
    assert(s.subrange(0, k + 1).drop_last() =~= s.subrange(0, k));
    assert(s.subrange(0, k + 1).last() == s[k]);
}

pub proof fn lemma_sum_pre_le(s: Seq<u64>, k: int)
    requires
        0 <= k <= s.len(),
    ensures
        0 <= sum_pre(s, k) <= sum_spr(s),
    decreases s.len() - k,
{
    if k == s.len() {
        assert(s.subrange(0, k) =~= s);
        lemma_sum_nonneg(s);
    } else {
        lemma_sum_pre_step(s, k);
        lemma_sum_pre_le(s, k + 1);
        lemma_sum_nonneg(s.subrange(0, k));
    }
}

pub proof fn lemma_sum_nonneg(s: Seq<u64>)
    ensures
        sum_spr(s) >= 0,
    decreases s.len(),
{
    if s.len() > 0 {
        lemma_sum_nonneg(s.drop_last());
    }
}

/// The stride never exceeds the record total.
pub proof fn lemma_max_le_sum(s: Seq<u64>)
    ensures
        0 <= max_spr(s) <= sum_spr(s),
    decreases s.len(),
{
    if s.len() > 0 {
        lemma_max_le_sum(s.drop_last());
    }
}

pub proof fn lemma_elem_le_max(s: Seq<u64>, i: int)
    requires
        0 <= i < s.len(),
    ensures
        s[i] <= max_spr(s),
    decreases s.len(),
{
    if i == s.len() - 1 {
    } else {
        assert(s.drop_last()[i] == s[i]);
        lemma_elem_le_max(s.drop_last(), i);
    }
}

/// A (record, column) pair determines its flat position in a row.
proof fn lemma_rc_inj(stride: int, r1: int, j1: int, r2: int, j2: int)
    requires
        stride >= 1,
        0 <= j1 < stride,
        0 <= j2 < stride,
        0 <= r1,
        0 <= r2,
        r1 * stride + j1 == r2 * stride + j2,
    ensures
        r1 == r2 && j1 == j2,
{
    assert(r1 == r2 && j1 == j2) by (nonlinear_arith)
        requires
            stride >= 1,
            0 <= j1 < stride,
            0 <= j2 < stride,
            0 <= r1,
            0 <= r2,
            r1 * stride + j1 == r2 * stride + j2,
    ;
}

/// The digital code that belongs at row `i`, record `r`, in-record column
/// `j` of the de-interleaved matrix: the next unread code for columns the
/// signal fills, zero for the padding tail of a short signal.
pub open spec fn dig_cell(raw: Seq<i16>, samples: Seq<u64>, i: int, r: int, j: int) -> int {
    if j < samples[i] {
        raw[r * sum_spr(samples) + sum_pre(samples, i) + j] as int
    } else {
        0
    }
}

/// Reads `n` little-endian 16-bit signed codes.
pub fn read_raw_data(f: &mut ByteSource, n: usize) -> (r: Result<Vec<i16>, Error>)
    requires
        old(f).wf(),
        2 * n <= usize::MAX,
    ensures
        final(f).wf(),
        final(f).data@ == old(f).data@,
        final(f).pos >= old(f).pos,
        match r {
            Ok(v) => {
                let wb = old(f).data@.skip(old(f).pos as int);
                &&& old(f).remaining() >= 2 * n
                &&& v@.len() == n
                &&& forall|k: int|
                    0 <= k < n ==> (#[trigger] v@[k]) as int == i16_from_le(wb[2 * k], wb[2 * k + 1])
                &&& final(f).pos == old(f).pos + 2 * n
            },
            Err(e) => old(f).remaining() < 2 * n && e.kind == ErrorKind::Io,
        },
{
    let buf = match f.read_exact(2 * n) {
        Ok(b) => b,
        Err(e) => {
            return Err(e);
        },
    };
    let ghost wb = old(f).data@.skip(old(f).pos as int);
    proof {
        assert(forall|k: int| 0 <= k < 2 * n ==> buf@[k] == wb[k]);
    }
    let mut out: Vec<i16> = Vec::new();
    let mut i: usize = 0;
    while i < n
        invariant
            i <= n,
            2 * n <= usize::MAX,
            buf@.len() == 2 * n,
            forall|k: int| 0 <= k < 2 * n ==> buf@[k] == wb[k],
            out@.len() == i,
            forall|k: int|
                0 <= k < i ==> (#[trigger] out@[k]) as int == i16_from_le(wb[2 * k], wb[2 * k + 1]),
        decreases n - i,
    {
        let lo = buf[2 * i];
        let hi = buf[2 * i + 1];
        let u: u32 = lo as u32 + (hi as u32) * 256;
        let val: i16 = if u < 32768 {
            u as i16
        } else {
            (u as i32 - 65536) as i16
        };
        out.push(val);
        i = i + 1;
    }
    Ok(out)
}

/// De-interleaves the flat code sequence: row `i` gets, for each record
/// `r`, its own `samples[i]` codes at columns `r * stride ..`, where the
/// stride is the maximum samples-per-record; the tail stays zero.
pub fn convert_raw_data2data(raw: &Vec<i16>, header: &Header, s_header: &SignalHeader) -> (m: Vec<
    Vec<i16>,
>)
    requires
        header.wf(),
        s_header.wf(),
        s_header.sig_count() == header.signals_len as int,
        header.signals_len >= 1,
        header.records_len is Some,
        raw@.len() == sum_spr(s_header.samples_in_record@) * header.records_len.unwrap(),
    ensures
        m@.len() == header.signals_len as int,
        forall|i: int|
            0 <= i < m@.len() ==> (#[trigger] m@[i])@.len() == max_spr(s_header.samples_in_record@)
                * header.records_len.unwrap(),
        forall|i: int, r: int, j: int|
            0 <= i < m@.len() && 0 <= r < header.records_len.unwrap() && 0 <= j < max_spr(
                s_header.samples_in_record@,
            ) ==> m@[i]@[r * max_spr(s_header.samples_in_record@) + j] as int == dig_cell(
                raw@,
                s_header.samples_in_record@,
                i,
                r,
                j,
            ),
{
    let ghost samples = s_header.samples_in_record@;
    let ghost total = sum_spr(samples);
    let n_records: usize = match header.records_len {
        Some(v) => v,
        None => {
            proof {
                assert(false);
            }
            0
        },
    };
    let n_signals: usize = header.signals_len as usize;
    let total_u64 = sum_samples(&s_header.samples_in_record);
    let stride_u64 = max_samples(&s_header.samples_in_record);
    proof {
        lemma_max_le_sum(samples);
        lemma_sum_nonneg(samples);
        assert(total * n_records >= 0) by (nonlinear_arith)
            requires
                total >= 0,
                n_records >= 0,
        ;
        assert(total <= total * n_records) by (nonlinear_arith)
            requires
                total >= 0,
                n_records >= 1,
        ;
        assert(max_spr(samples) * n_records <= total * n_records) by (nonlinear_arith)
            requires
                0 <= max_spr(samples) <= total,
                n_records >= 0,
        ;
    }
    let rlen: usize = raw.len();
    proof {
        assert(stride_u64 <= rlen && total_u64 <= rlen);
    }
    let total_smp: usize = total_u64 as usize;
    let stride: usize = stride_u64 as usize;
    let cols: usize = stride * n_records;
    let mut m: Vec<Vec<i16>> = Vec::new();
    let mut pre: usize = 0;
    let mut i: usize = 0;
    proof {
        assert(sum_pre(samples, 0) == 0) by {
            assert(samples.subrange(0, 0) =~= Seq::<u64>::empty());
        }
    }
    while i < n_signals
        invariant
            i <= n_signals,
            s_header.wf(),
            s_header.sig_count() == n_signals as int,
            samples == s_header.samples_in_record@,
            total == sum_spr(samples),
            total_smp == total,
            stride == max_spr(samples),
            cols == stride * n_records,
            raw@.len() == total * n_records,
            raw@.len() <= usize::MAX,
            pre == sum_pre(samples, i as int),
            m@.len() == i,
            forall|i2: int| 0 <= i2 < i ==> (#[trigger] m@[i2])@.len() == cols,
            forall|i2: int, r2: int, j2: int|
                0 <= i2 < i && 0 <= r2 < n_records && 0 <= j2 < stride ==> m@[i2]@[r2 * stride + j2]
                    as int == dig_cell(raw@, samples, i2, r2, j2),
        decreases n_signals - i,
    {
        proof {
            lemma_sum_pre_le(samples, i as int);
            lemma_sum_pre_step(samples, i as int);
            lemma_sum_pre_le(samples, i + 1);
            lemma_elem_le_max(samples, i as int);
        }
        let k: usize = s_header.samples_in_record[i] as usize;
        let mut row: Vec<i16> = Vec::new();
        let mut r: usize = 0;
        while r < n_records
            invariant
                r <= n_records,
                i < n_signals,
                s_header.wf(),
                s_header.sig_count() == n_signals as int,
                samples == s_header.samples_in_record@,
                samples.len() == n_signals as int,
                total == sum_spr(samples),
                total == total_smp,
                stride == max_spr(samples),
                raw@.len() == total * n_records,
                raw@.len() <= usize::MAX,
                pre == sum_pre(samples, i as int),
                k == samples[i as int],
                k <= stride,
                pre + k <= total,
                row@.len() == r * stride,
                forall|r2: int, j2: int|
                    0 <= r2 && 0 <= j2 < stride && r2 * stride + j2 < row@.len()
                        ==> row@[r2 * stride + j2] as int == dig_cell(raw@, samples, i as int, r2, j2),
            decreases n_records - r,
        {
            let base: usize = {
                proof {
                    assert(r * total >= 0 && r * total <= (n_records - 1) * total)
                        by (nonlinear_arith)
                        requires
                            0 <= r <= n_records - 1,
                            total >= 0,
                    ;
                    assert((n_records - 1) * total + total == n_records * total) by (nonlinear_arith);
                    assert(n_records * total == total * n_records) by (nonlinear_arith);
                }
                r * total_smp + pre
            };
            let mut j: usize = 0;
            while j < stride
                invariant
                    j <= stride,
                    r < n_records,
                    i < n_signals,
                    s_header.sig_count() == n_signals as int,
                    samples == s_header.samples_in_record@,
                    samples.len() == n_signals as int,
                    total == sum_spr(samples),
                    stride == max_spr(samples),
                    raw@.len() == total * n_records,
                    raw@.len() <= usize::MAX,
                    pre == sum_pre(samples, i as int),
                    k == samples[i as int],
                    k <= stride,
                    pre + k <= total,
                    base == r * total + pre,
                    base + k <= raw@.len(),
                    row@.len() == r * stride + j,
                    forall|r2: int, j2: int|
                        0 <= r2 && 0 <= j2 < stride && r2 * stride + j2 < row@.len()
                            ==> row@[r2 * stride + j2] as int == dig_cell(
                            raw@,
                            samples,
                            i as int,
                            r2,
                            j2,
                        ),
                decreases stride - j,
            {
                let ghost oldrow = row@;
                if j < k {
                    row.push(raw[base + j]);
                } else {
                    row.push(0i16);
                }
                proof {
                    assert forall|r2: int, j2: int|
                        0 <= r2 && 0 <= j2 < stride && r2 * stride + j2 < row@.len()
                            implies row@[r2 * stride + j2] as int == dig_cell(
                        raw@,
                        samples,
                        i as int,
                        r2,
                        j2,
                    ) by {
                        if r2 * stride + j2 < oldrow.len() {
                            assert(row@[r2 * stride + j2] == oldrow[r2 * stride + j2]);
                        } else {
                            lemma_rc_inj(stride as int, r as int, j as int, r2, j2);
                        }
                    }
                }
                j = j + 1;
            }
            proof {
                assert(r * stride + stride == (r + 1) * stride) by (nonlinear_arith);
            }
            r = r + 1;
        }
        proof {
            assert(n_records * stride == stride * n_records) by (nonlinear_arith);
            assert forall|r2: int, j2: int|
                0 <= r2 < n_records && 0 <= j2 < stride implies row@[r2 * stride + j2] as int
                == dig_cell(raw@, samples, i as int, r2, j2) by {
                assert(0 <= r2 * stride && r2 * stride + j2 < n_records * stride)
                    by (nonlinear_arith)
                    requires
                        0 <= r2,
                        r2 <= n_records - 1,
                        0 <= j2 < stride,
                ;
            }
        }
        m.push(row);
        pre = pre + k;
        i = i + 1;
    }
    m
}

fn sum_samples(s: &Vec<u64>) -> (t: u64)
    requires
        s@.len() < 10000,
        forall|i: int| 0 <= i < s@.len() ==> #[trigger] s@[i] < 100_000_000,
    ensures
        t == sum_spr(s@),
        t < 1_000_000_000_000,
{
    let mut t: u64 = 0;
    let mut i: usize = 0;
    proof {
        assert(s@.subrange(0, 0) =~= Seq::<u64>::empty());
    }
    while i < s.len()
        invariant
            i <= s@.len() < 10000,
            forall|k: int| 0 <= k < s@.len() ==> #[trigger] s@[k] < 100_000_000,
            t == sum_pre(s@, i as int),
            t <= i * 100_000_000,
        decreases s@.len() - i,
    {
        proof {
            lemma_sum_pre_step(s@, i as int);
        }
        t = t + s[i];
        i = i + 1;
    }
    proof {
        assert(s@.subrange(0, s@.len() as int) =~= s@);
    }
    t
}

fn max_samples(s: &Vec<u64>) -> (m: u64)
    requires
        forall|i: int| 0 <= i < s@.len() ==> #[trigger] s@[i] < 100_000_000,
    ensures
        m == max_spr(s@),
        m < 100_000_000,
{
    let mut m: u64 = 0;
    let mut i: usize = 0;
    proof {
        assert(s@.subrange(0, 0) =~= Seq::<u64>::empty());
    }
    while i < s.len()
        invariant
            i <= s@.len(),
            forall|k: int| 0 <= k < s@.len() ==> #[trigger] s@[k] < 100_000_000,
            m == max_spr(s@.subrange(0, i as int)),
            m < 100_000_000,
        decreases s@.len() - i,
    {
        proof {
            assert(s@.subrange(0, i + 1).drop_last() =~= s@.subrange(0, i as int));
            assert(s@.subrange(0, i + 1).last() == s@[i as int]);
        }
        if s[i] > m {
            m = s[i];
        }
        i = i + 1;
    }
    proof {
        assert(s@.subrange(0, s@.len() as int) =~= s@);
    }
    m
}

/// True when every signal has distinct digital extremes.
fn check_digital_ranges(sh: &SignalHeader) -> (ok: bool)
    requires
        sh.wf(),
    ensures
        ok == forall|i: int|
            0 <= i < sh.sig_count() ==> dig_range_ok(
                #[trigger] sh.digital_min@[i],
                sh.digital_max@[i],
            ),
{
    let n = sh.digital_min.len();
    let mut i: usize = 0;
    while i < n
        invariant
            i <= n,
            sh.wf(),
            n == sh.sig_count(),
            forall|k: int|
                0 <= k < i ==> dig_range_ok(#[trigger] sh.digital_min@[k], sh.digital_max@[k]),
        decreases n - i,
    {
        let dm = sh.digital_min[i];
        let dx = sh.digital_max[i];
        proof {
            crate::rational::lemma_pow10_vals();
            crate::rational::lemma_pow10_mono(dm.e as nat, 7);
            crate::rational::lemma_pow10_mono(dx.e as nat, 7);
            crate::rational::lemma_pow10_pos(dm.e as nat);
            crate::rational::lemma_pow10_pos(dx.e as nat);
            lemma_mul_bound(dm.m as int, crate::rational::pow10(dx.e as nat), 100_000_000, 10_000_000);
            lemma_mul_bound(dx.m as int, crate::rational::pow10(dm.e as nat), 100_000_000, 10_000_000);
        }
        let lhs: i128 = dm.m as i128 * pow10_i128(dx.e);
        let rhs: i128 = dx.m as i128 * pow10_i128(dm.e);
        if lhs == rhs {
            return false;
        }
        i = i + 1;
    }
    true
}

/// Rescales every digital code to its exact physical value, per signal.
pub fn scale_data(data: &Vec<Vec<i16>>, signal_header: &SignalHeader) -> (m: Vec<Vec<Ratio>>)
    requires
        signal_header.wf(),
        data@.len() == signal_header.sig_count(),
        forall|i: int|
            0 <= i < signal_header.sig_count() ==> dig_range_ok(
                #[trigger] signal_header.digital_min@[i],
                signal_header.digital_max@[i],
            ),
    ensures
        m@.len() == data@.len(),
        forall|i: int| 0 <= i < m@.len() ==> (#[trigger] m@[i])@.len() == data@[i]@.len(),
        forall|i: int, j: int|
            0 <= i < m@.len() && 0 <= j < m@[i]@.len() ==> (#[trigger] m@[i]@[j]).num == phys_num(
                data@[i]@[j] as int,
                signal_header.physical_min@[i],
                signal_header.physical_max@[i],
                signal_header.digital_min@[i],
                signal_header.digital_max@[i],
            ) && m@[i]@[j].den == phys_den(
                signal_header.physical_min@[i],
                signal_header.physical_max@[i],
                signal_header.digital_min@[i],
                signal_header.digital_max@[i],
            ) && m@[i]@[j].den != 0,
{
    let sh = signal_header;
    let mut m: Vec<Vec<Ratio>> = Vec::new();
    let mut i: usize = 0;
    let n = data.len();
    while i < n
        invariant
            i <= n,
            n == data@.len(),
            sh == signal_header,
            sh.wf(),
            data@.len() == sh.sig_count(),
            forall|k: int|
                0 <= k < sh.sig_count() ==> dig_range_ok(
                    #[trigger] sh.digital_min@[k],
                    sh.digital_max@[k],
                ),
            m@.len() == i,
            forall|k: int| 0 <= k < i ==> (#[trigger] m@[k])@.len() == data@[k]@.len(),
            forall|k: int, j: int|
                0 <= k < i && 0 <= j < m@[k]@.len() ==> (#[trigger] m@[k]@[j]).num == phys_num(
                    data@[k]@[j] as int,
                    sh.physical_min@[k],
                    sh.physical_max@[k],
                    sh.digital_min@[k],
                    sh.digital_max@[k],
                ) && m@[k]@[j].den == phys_den(
                    sh.physical_min@[k],
                    sh.physical_max@[k],
                    sh.digital_min@[k],
                    sh.digital_max@[k],
                ) && m@[k]@[j].den != 0,
        decreases n - i,
    {
        let row = &data[i];
        let pm = sh.physical_min[i];
        let px = sh.physical_max[i];
        let dm = sh.digital_min[i];
        let dx = sh.digital_max[i];
        let mut out: Vec<Ratio> = Vec::new();
        let mut j: usize = 0;
        let rl = row.len();
        while j < rl
            invariant
                j <= rl,
                i < n,
                n == data@.len(),
                sh == signal_header,
                sh.wf(),
                data@.len() == sh.sig_count(),
                rl == data@[i as int]@.len(),
                row == data@[i as int],
                pm == sh.physical_min@[i as int],
                px == sh.physical_max@[i as int],
                dm == sh.digital_min@[i as int],
                dx == sh.digital_max@[i as int],
                dig_range_ok(dm, dx),
                out@.len() == j,
                forall|q: int|
                    0 <= q < j ==> (#[trigger] out@[q]).num == phys_num(
                        data@[i as int]@[q] as int,
                        pm,
                        px,
                        dm,
                        dx,
                    ) && out@[q].den == phys_den(pm, px, dm, dx) && out@[q].den != 0,
            decreases rl - j,
        {
            let cell = scale_sample(row[j], pm, px, dm, dx);
            out.push(cell);
            j = j + 1;
        }
        m.push(out);
        i = i + 1;
    }
    m
}

/// Why the data stage rejects, given the header, the signal metadata and
/// the bytes still available: an unknown record count, a zero signal
/// count and equal digital extremes are unsupported; missing bytes are an
/// I/O failure.
pub open spec fn data_fail(h: Header, sh: SignalHeader, avail: int) -> Option<ErrorKind> {
    if h.records_len is None {
        Some(ErrorKind::UnsupportedValue)
    } else if h.signals_len == 0 {
        Some(ErrorKind::UnsupportedValue)
    } else if exists|i: int|
        0 <= i < sh.sig_count() && !dig_range_ok(#[trigger] sh.digital_min@[i], sh.digital_max@[i]) {
        Some(ErrorKind::UnsupportedValue)
    } else if avail < 2 * sum_spr(sh.samples_in_record@) * h.records_len.unwrap() {
        Some(ErrorKind::Io)
    } else {
        None
    }
}

/// Reads, de-interleaves and rescales the whole sample stream.
#[verifier::rlimit(60)]
pub fn read_data(f: &mut ByteSource, s_header: &SignalHeader, header: &Header) -> (r: Result<
    SampleMatrix,
    Error,
>)
    requires
        old(f).wf(),
        header.wf(),
        s_header.wf(),
        s_header.sig_count() == header.signals_len as int,
    ensures
        final(f).wf(),
        final(f).data@ == old(f).data@,
        final(f).pos >= old(f).pos,
        match r {
            Ok(mx) => {
                let wb = old(f).data@.skip(old(f).pos as int);
                let samples = s_header.samples_in_record@;
                &&& data_fail(*header, *s_header, old(f).remaining()) is None
                &&& mx.rows@.len() == header.signals_len as int
                &&& mx.is_rect(max_spr(samples) * header.records_len.unwrap())
                &&& forall|i: int, r2: int, j: int|
                    0 <= i < mx.rows@.len() && 0 <= r2 < header.records_len.unwrap() && 0 <= j
                        < max_spr(samples) ==> {
                        let d = if j < samples[i] {
                            i16_from_le(
                                wb[2 * (r2 * sum_spr(samples) + sum_pre(samples, i) + j)],
                                wb[2 * (r2 * sum_spr(samples) + sum_pre(samples, i) + j) + 1],
                            )
                        } else {
                            0
                        };
                        (#[trigger] mx.rows@[i]@[r2 * max_spr(samples) + j]).num == phys_num(
                            d,
                            s_header.physical_min@[i],
                            s_header.physical_max@[i],
                            s_header.digital_min@[i],
                            s_header.digital_max@[i],
                        ) && mx.rows@[i]@[r2 * max_spr(samples) + j].den == phys_den(
                            s_header.physical_min@[i],
                            s_header.physical_max@[i],
                            s_header.digital_min@[i],
                            s_header.digital_max@[i],
                        ) && mx.rows@[i]@[r2 * max_spr(samples) + j].den != 0
                    }
            },
            Err(e) => Some(e.kind) == data_fail(*header, *s_header, old(f).remaining()),
        },
{
    let n_records: usize = match header.records_len {
        Some(v) => v,
        None => {
            return Err(Error::new(ErrorKind::UnsupportedValue));
        },
    };
    if header.signals_len == 0 {
        return Err(Error::new(ErrorKind::UnsupportedValue));
    }
    if !check_digital_ranges(s_header) {
        return Err(Error::new(ErrorKind::UnsupportedValue));
    }
    let ghost samples = s_header.samples_in_record@;
    let ghost total = sum_spr(samples);
    let total_u64 = sum_samples(&s_header.samples_in_record);
    proof {
        assert(0 <= total * (n_records as int) && total * (n_records as int) < 1_000_000_000_000
            * 100_000_000) by (nonlinear_arith)
            requires
                0 <= total < 1_000_000_000_000,
                0 <= (n_records as int) < 100_000_000,
        ;
    }
    let need: u128 = 2u128 * (total_u64 as u128 * n_records as u128);
    let avail: usize = f.data.len() - f.pos;
    if need > avail as u128 {
        proof {
            assert(2 * (total * n_records) == 2 * total * n_records) by (nonlinear_arith);
        }
        return Err(Error::new(ErrorKind::Io));
    }
    proof {
        lemma_sum_nonneg(samples);
        assert(total * n_records >= 0 && 2 * (total * n_records) == 2 * total * n_records)
            by (nonlinear_arith)
            requires
                total >= 0,
                n_records >= 0,
        ;
    }
    let n_smp: usize = (total_u64 as u128 * n_records as u128) as usize;
    let raw = match read_raw_data(f, n_smp) {
        Ok(v) => v,
        Err(e) => {
            proof {
                assert(false);
            }
            return Err(e);
        },
    };
    let dig = convert_raw_data2data(&raw, header, s_header);
    let scaled = scale_data(&dig, s_header);
    proof {
        let wb2 = old(f).data@.skip(old(f).pos as int);
        let stride = max_spr(samples);
        assert forall|i: int, r2: int, j: int|
            0 <= i < scaled@.len() && 0 <= r2 < n_records && 0 <= j < stride implies {
            let d = if j < samples[i] {
                i16_from_le(
                    wb2[2 * (r2 * sum_spr(samples) + sum_pre(samples, i) + j)],
                    wb2[2 * (r2 * sum_spr(samples) + sum_pre(samples, i) + j) + 1],
                )
            } else {
                0
            };
            (#[trigger] scaled@[i]@[r2 * stride + j]).num == phys_num(
                d,
                s_header.physical_min@[i],
                s_header.physical_max@[i],
                s_header.digital_min@[i],
                s_header.digital_max@[i],
            ) && scaled@[i]@[r2 * stride + j].den == phys_den(
                s_header.physical_min@[i],
                s_header.physical_max@[i],
                s_header.digital_min@[i],
                s_header.digital_max@[i],
            ) && scaled@[i]@[r2 * stride + j].den != 0
        } by {
            lemma_sum_pre_le(samples, i);
            lemma_sum_pre_step(samples, i);
            lemma_sum_pre_le(samples, i + 1);
            lemma_sum_nonneg(samples);
            assert(0 <= r2 * stride && r2 * stride + j < n_records * stride) by (nonlinear_arith)
                requires
                    0 <= r2,
                    r2 <= n_records - 1,
                    0 <= j < stride,
            ;
            assert(n_records * stride == stride * n_records) by (nonlinear_arith);
            let c = r2 * stride + j;
            assert(dig@[i]@[c] as int == dig_cell(raw@, samples, i, r2, j));
            if j < samples[i] {
                let kk = r2 * total + sum_pre(samples, i) + j;
                assert(0 <= r2 * total && r2 * total + total <= n_records * total)
                    by (nonlinear_arith)
                    requires
                        0 <= r2,
                        r2 + 1 <= n_records,
                        total >= 0,
                ;
                assert(n_records * total == total * n_records) by (nonlinear_arith);
                assert(raw@[kk] as int == i16_from_le(wb2[2 * kk], wb2[2 * kk + 1]));
            }
            assert(scaled@[i]@[c].den != 0);
        }
    }
    Ok(SampleMatrix { rows: scaled })
}

} // verus!
