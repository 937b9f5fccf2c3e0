//! Decoding of the field-major signal-metadata section: for each field in
//! turn, one contiguous block of `n` fixed-width entries, one per signal.

use vstd::prelude::*;
use crate::edf_file::SignalHeader;
use crate::error::{Error, ErrorKind};
use crate::rational::{Dec, lemma_pow10_vals, lemma_pow10_mono};
use crate::source::ByteSource;
use crate::text::{
    ascii_seq, is_ascii_byte, trim_end_spec, trim_spec, parse_uint, parse_dec, trim_end_range,
    trim_range, parse_uint_range, parse_dec_range,
};

verus! {

/// One entry of a block: `width` bytes starting at `i * width`.
pub open spec fn entry_win(w: Seq<u8>, width: int, i: int) -> Seq<u8> {
    w.subrange(i * width, (i + 1) * width)
}

/// First failure scanning a text block from entry `i` on: a short read is
/// an I/O failure, non-ASCII bytes an encoding failure.
pub open spec fn str_block_fail(w: Seq<u8>, width: int, n: int, i: int) -> Option<ErrorKind>
    decreases n - i,
{
    if i >= n {
        None
    } else if w.len() < (i + 1) * width {
        Some(ErrorKind::Io)
    } else if !ascii_seq(entry_win(w, width, i)) {
        Some(ErrorKind::Encoding)
    } else {
        str_block_fail(w, width, n, i + 1)
    }
}

/// First failure scanning a decimal-number block from entry `i` on.
pub open spec fn dec_block_fail(w: Seq<u8>, width: int, n: int, i: int) -> Option<ErrorKind>
    decreases n - i,
{
    if i >= n {
        None
    } else if w.len() < (i + 1) * width {
        Some(ErrorKind::Io)
    } else if !ascii_seq(entry_win(w, width, i)) {
        Some(ErrorKind::Encoding)
    } else if parse_dec(trim_spec(entry_win(w, width, i))) is None {
        Some(ErrorKind::ParseError)
    } else {
        dec_block_fail(w, width, n, i + 1)
    }
}

/// First failure scanning an unsigned-integer block from entry `i` on.
pub open spec fn uint_block_fail(w: Seq<u8>, width: int, n: int, i: int) -> Option<ErrorKind>
    decreases n - i,
{
    if i >= n {
        None
    } else if w.len() < (i + 1) * width {
        Some(ErrorKind::Io)
    } else if !ascii_seq(entry_win(w, width, i)) {
        Some(ErrorKind::Encoding)
    } else if parse_uint(trim_spec(entry_win(w, width, i))) is None {
        Some(ErrorKind::ParseError)
    } else {
        uint_block_fail(w, width, n, i + 1)
    }
}

/// Reads `n_reads` fixed-width text entries, each right-trimmed.
pub fn read_str_vec(f: &mut ByteSource, n_chars: usize, n_reads: usize) -> (r: Result<
    Vec<Vec<u8>>,
    Error,
>)
    requires
        old(f).wf(),
        n_chars >= 1,
        n_chars * n_reads <= usize::MAX,
    ensures
        final(f).wf(),
        final(f).data@ == old(f).data@,
        final(f).pos >= old(f).pos,
        match r {
            Ok(v) => {
                let wb = old(f).data@.skip(old(f).pos as int);
                &&& str_block_fail(wb, n_chars as int, n_reads as int, 0) is None
                &&& v@.len() == n_reads
                &&& forall|i: int|
                    0 <= i < n_reads ==> (#[trigger] v@[i])@ == trim_end_spec(
                        entry_win(wb, n_chars as int, i),
                    )
                &&& final(f).pos == old(f).pos + n_chars * n_reads
            },
            Err(e) => Some(e.kind) == str_block_fail(
                old(f).data@.skip(old(f).pos as int),
                n_chars as int,
                n_reads as int,
                0,
            ),
        },
{
    let ghost wb = old(f).data@.skip(old(f).pos as int);
    let mut out: Vec<Vec<u8>> = Vec::new();
    let mut idx: usize = 0;
    while idx < n_reads
        invariant
            old(f).wf(),
            f.wf(),
            f.data@ == old(f).data@,
            idx <= n_reads,
            n_chars >= 1,
            n_chars * n_reads <= usize::MAX,
            f.pos == old(f).pos + n_chars * idx,
            wb == old(f).data@.skip(old(f).pos as int),
            str_block_fail(wb, n_chars as int, n_reads as int, 0) == str_block_fail(
                wb,
                n_chars as int,
                n_reads as int,
                idx as int,
            ),
            out@.len() == idx,
            forall|i: int|
                0 <= i < idx ==> (#[trigger] out@[i])@ == trim_end_spec(
                    entry_win(wb, n_chars as int, i),
                ),
        decreases n_reads - idx,
    {
        proof {
            assert(idx * n_chars + n_chars == (idx + 1) * n_chars) by (nonlinear_arith);
            assert(0 <= idx * n_chars) by (nonlinear_arith)
                requires
                    idx >= 0,
                    n_chars >= 1,
            ;
            assert(idx * n_chars < (idx + 1) * n_chars);
            if old(f).remaining() >= (idx + 1) * n_chars {
                assert(entry_win(wb, n_chars as int, idx as int) =~= old(f).data@.subrange(
                    old(f).pos + n_chars * idx,
                    old(f).pos + n_chars * idx + n_chars,
                ));
            }
        }
        let mut buf = match f.read_exact(n_chars) {
            Ok(b) => b,
            Err(e) => {
                return Err(e);
            },
        };
        let mut k: usize = 0;
        while k < buf.len()
            invariant
                k <= buf.len(),
                forall|j: int| 0 <= j < k ==> is_ascii_byte(buf@[j]),
                buf@ == entry_win(wb, n_chars as int, idx as int),
                idx < n_reads,
                n_chars >= 1,
                old(f).wf(),
                wb == old(f).data@.skip(old(f).pos as int),
                old(f).remaining() >= (idx + 1) * n_chars,
                str_block_fail(wb, n_chars as int, n_reads as int, 0) == str_block_fail(
                    wb,
                    n_chars as int,
                    n_reads as int,
                    idx as int,
                ),
                f.wf(),
                f.data@ == old(f).data@,
                f.pos == old(f).pos + n_chars * idx + n_chars,
            decreases buf.len() - k,
        {
            if buf[k] > 127 {
                proof {
                    assert(!is_ascii_byte(entry_win(wb, n_chars as int, idx as int)[k as int]));
                }
                return Err(Error::new(ErrorKind::Encoding));
            }
            k = k + 1;
        }
        let hi = trim_end_range(&buf);
        buf.truncate(hi);
        proof {
            assert(buf@ =~= trim_end_spec(entry_win(wb, n_chars as int, idx as int)));
            assert(n_chars * idx + n_chars == n_chars * (idx + 1)) by (nonlinear_arith);
        }
        out.push(buf);
        idx = idx + 1;
    }
    Ok(out)
}

/// Reads `n_reads` fixed-width decimal-number entries.
pub fn read_dec_vec(f: &mut ByteSource, n_chars: usize, n_reads: usize) -> (r: Result<
    Vec<Dec>,
    Error,
>)
    requires
        old(f).wf(),
        1 <= n_chars <= 8,
        n_chars * n_reads <= usize::MAX,
    ensures
        final(f).wf(),
        final(f).data@ == old(f).data@,
        final(f).pos >= old(f).pos,
        match r {
            Ok(v) => {
                let wb = old(f).data@.skip(old(f).pos as int);
                &&& dec_block_fail(wb, n_chars as int, n_reads as int, 0) is None
                &&& v@.len() == n_reads
                &&& forall|i: int|
                    0 <= i < n_reads ==> parse_dec(
                        trim_spec(entry_win(wb, n_chars as int, i)),
                    ) == Some(((#[trigger] v@[i]).m as int, v@[i].e as int)) && v@[i].wf()
                &&& final(f).pos == old(f).pos + n_chars * n_reads
            },
            Err(e) => Some(e.kind) == dec_block_fail(
                old(f).data@.skip(old(f).pos as int),
                n_chars as int,
                n_reads as int,
                0,
            ),
        },
{
    let ghost wb = old(f).data@.skip(old(f).pos as int);
    let mut out: Vec<Dec> = Vec::new();
    let mut idx: usize = 0;
    while idx < n_reads
        invariant
            old(f).wf(),
            f.wf(),
            f.data@ == old(f).data@,
            idx <= n_reads,
            1 <= n_chars <= 8,
            n_chars * n_reads <= usize::MAX,
            f.pos == old(f).pos + n_chars * idx,
            wb == old(f).data@.skip(old(f).pos as int),
            dec_block_fail(wb, n_chars as int, n_reads as int, 0) == dec_block_fail(
                wb,
                n_chars as int,
                n_reads as int,
                idx as int,
            ),
            out@.len() == idx,
            forall|i: int|
                0 <= i < idx ==> parse_dec(trim_spec(entry_win(wb, n_chars as int, i))) == Some(
                    ((#[trigger] out@[i]).m as int, out@[i].e as int),
                ) && out@[i].wf(),
        decreases n_reads - idx,
    {
        proof {
            assert(idx * n_chars + n_chars == (idx + 1) * n_chars) by (nonlinear_arith);
            assert(0 <= idx * n_chars) by (nonlinear_arith)
                requires
                    idx >= 0,
                    n_chars >= 1,
            ;
            if old(f).remaining() >= (idx + 1) * n_chars {
                assert(entry_win(wb, n_chars as int, idx as int) =~= old(f).data@.subrange(
                    old(f).pos + n_chars * idx,
                    old(f).pos + n_chars * idx + n_chars,
                ));
            }
        }
        let buf = match f.read_exact(n_chars) {
            Ok(b) => b,
            Err(e) => {
                return Err(e);
            },
        };
        let mut k: usize = 0;
        while k < buf.len()
            invariant
                k <= buf.len(),
                forall|j: int| 0 <= j < k ==> is_ascii_byte(buf@[j]),
                buf@ == entry_win(wb, n_chars as int, idx as int),
                1 <= n_chars <= 8,
                idx < n_reads,
                old(f).wf(),
                wb == old(f).data@.skip(old(f).pos as int),
                old(f).remaining() >= (idx + 1) * n_chars,
                dec_block_fail(wb, n_chars as int, n_reads as int, 0) == dec_block_fail(
                    wb,
                    n_chars as int,
                    n_reads as int,
                    idx as int,
                ),
                f.wf(),
                f.data@ == old(f).data@,
                f.pos == old(f).pos + n_chars * idx + n_chars,
            decreases buf.len() - k,
        {
            if buf[k] > 127 {
                proof {
                    assert(!is_ascii_byte(entry_win(wb, n_chars as int, idx as int)[k as int]));
                }
                return Err(Error::new(ErrorKind::Encoding));
            }
            k = k + 1;
        }
        let (lo, hi) = trim_range(&buf);
        let dc = match parse_dec_range(&buf, lo, hi) {
            Some(d) => d,
            None => {
                return Err(Error::new(ErrorKind::ParseError));
            },
        };
        proof {
            assert(n_chars * idx + n_chars == n_chars * (idx + 1)) by (nonlinear_arith);
        }
        out.push(dc);
        idx = idx + 1;
    }
    Ok(out)
}

/// Reads `n_reads` fixed-width non-negative integer entries.
pub fn read_uint_vec(f: &mut ByteSource, n_chars: usize, n_reads: usize) -> (r: Result<
    Vec<u64>,
    Error,
>)
    requires
        old(f).wf(),
        1 <= n_chars <= 8,
        n_chars * n_reads <= usize::MAX,
    ensures
        final(f).wf(),
        final(f).data@ == old(f).data@,
        final(f).pos >= old(f).pos,
        match r {
            Ok(v) => {
                let wb = old(f).data@.skip(old(f).pos as int);
                &&& uint_block_fail(wb, n_chars as int, n_reads as int, 0) is None
                &&& v@.len() == n_reads
                &&& forall|i: int|
                    0 <= i < n_reads ==> parse_uint(
                        trim_spec(entry_win(wb, n_chars as int, i)),
                    ) == Some((#[trigger] v@[i]) as int) && v@[i] < 100_000_000
                &&& final(f).pos == old(f).pos + n_chars * n_reads
            },
            Err(e) => Some(e.kind) == uint_block_fail(
                old(f).data@.skip(old(f).pos as int),
                n_chars as int,
                n_reads as int,
                0,
            ),
        },
{
    let ghost wb = old(f).data@.skip(old(f).pos as int);
    let mut out: Vec<u64> = Vec::new();
    let mut idx: usize = 0;
    while idx < n_reads
        invariant
            old(f).wf(),
            f.wf(),
            f.data@ == old(f).data@,
            idx <= n_reads,
            1 <= n_chars <= 8,
            n_chars * n_reads <= usize::MAX,
            f.pos == old(f).pos + n_chars * idx,
            wb == old(f).data@.skip(old(f).pos as int),
            uint_block_fail(wb, n_chars as int, n_reads as int, 0) == uint_block_fail(
                wb,
                n_chars as int,
                n_reads as int,
                idx as int,
            ),
            out@.len() == idx,
            forall|i: int|
                0 <= i < idx ==> parse_uint(trim_spec(entry_win(wb, n_chars as int, i))) == Some(
                    (#[trigger] out@[i]) as int,
                ) && out@[i] < 100_000_000,
        decreases n_reads - idx,
    {
        proof {
            assert(idx * n_chars + n_chars == (idx + 1) * n_chars) by (nonlinear_arith);
            assert(0 <= idx * n_chars) by (nonlinear_arith)
                requires
                    idx >= 0,
                    n_chars >= 1,
            ;
            if old(f).remaining() >= (idx + 1) * n_chars {
                assert(entry_win(wb, n_chars as int, idx as int) =~= old(f).data@.subrange(
                    old(f).pos + n_chars * idx,
                    old(f).pos + n_chars * idx + n_chars,
                ));
            }
        }
        let buf = match f.read_exact(n_chars) {
            Ok(b) => b,
            Err(e) => {
                return Err(e);
            },
        };
        let mut k: usize = 0;
        while k < buf.len()
            invariant
                k <= buf.len(),
                forall|j: int| 0 <= j < k ==> is_ascii_byte(buf@[j]),
                buf@ == entry_win(wb, n_chars as int, idx as int),
                1 <= n_chars <= 8,
                idx < n_reads,
                old(f).wf(),
                wb == old(f).data@.skip(old(f).pos as int),
                old(f).remaining() >= (idx + 1) * n_chars,
                uint_block_fail(wb, n_chars as int, n_reads as int, 0) == uint_block_fail(
                    wb,
                    n_chars as int,
                    n_reads as int,
                    idx as int,
                ),
                f.wf(),
                f.data@ == old(f).data@,
                f.pos == old(f).pos + n_chars * idx + n_chars,
            decreases buf.len() - k,
        {
            if buf[k] > 127 {
                proof {
                    assert(!is_ascii_byte(entry_win(wb, n_chars as int, idx as int)[k as int]));
                }
                return Err(Error::new(ErrorKind::Encoding));
            }
            k = k + 1;
        }
        let (lo, hi) = trim_range(&buf);
        proof {
            lemma_pow10_vals();
            lemma_pow10_mono((hi - lo) as nat, 8);
        }
        let n = match parse_uint_range(&buf, lo, hi) {
            Some(v) => v,
            None => {
                return Err(Error::new(ErrorKind::ParseError));
            },
        };
        proof {
            assert(n_chars * idx + n_chars == n_chars * (idx + 1)) by (nonlinear_arith);
        }
        out.push(n);
        idx = idx + 1;
    }
    Ok(out)
}

/// The first failure the signal-metadata decoder meets on window `w`
/// with `n` signals, scanning the ten field blocks in file order.
pub open spec fn sig_fail(w: Seq<u8>, n: int) -> Option<ErrorKind> {
    if str_block_fail(w, 16, n, 0) is Some {
        str_block_fail(w, 16, n, 0)
    } else if str_block_fail(w.skip(16 * n), 80, n, 0) is Some {
        str_block_fail(w.skip(16 * n), 80, n, 0)
    } else if str_block_fail(w.skip(96 * n), 8, n, 0) is Some {
        str_block_fail(w.skip(96 * n), 8, n, 0)
    } else if dec_block_fail(w.skip(104 * n), 8, n, 0) is Some {
        dec_block_fail(w.skip(104 * n), 8, n, 0)
    } else if dec_block_fail(w.skip(112 * n), 8, n, 0) is Some {
        dec_block_fail(w.skip(112 * n), 8, n, 0)
    } else if dec_block_fail(w.skip(120 * n), 8, n, 0) is Some {
        dec_block_fail(w.skip(120 * n), 8, n, 0)
    } else if dec_block_fail(w.skip(128 * n), 8, n, 0) is Some {
        dec_block_fail(w.skip(128 * n), 8, n, 0)
    } else if str_block_fail(w.skip(136 * n), 80, n, 0) is Some {
        str_block_fail(w.skip(136 * n), 80, n, 0)
    } else if uint_block_fail(w.skip(216 * n), 8, n, 0) is Some {
        uint_block_fail(w.skip(216 * n), 8, n, 0)
    } else if str_block_fail(w.skip(224 * n), 32, n, 0) is Some {
        str_block_fail(w.skip(224 * n), 32, n, 0)
    } else {
        None
    }
}

/// The returned signal metadata holds exactly the per-signal values the
/// window encodes: text fields right-trimmed, numerics parsed exactly.
pub open spec fn sig_matches(sh: SignalHeader, w: Seq<u8>, n: int) -> bool {
    &&& sh.labels@.len() == n
    &&& forall|i: int|
        0 <= i < n ==> (#[trigger] sh.labels@[i])@ == trim_end_spec(entry_win(w, 16, i))
    &&& forall|i: int|
        0 <= i < n ==> (#[trigger] sh.transducer_type@[i])@ == trim_end_spec(
            entry_win(w.skip(16 * n), 80, i),
        )
    &&& forall|i: int|
        0 <= i < n ==> (#[trigger] sh.physical_dimension@[i])@ == trim_end_spec(
            entry_win(w.skip(96 * n), 8, i),
        )
    &&& forall|i: int|
        0 <= i < n ==> parse_dec(trim_spec(entry_win(w.skip(104 * n), 8, i))) == Some(
            ((#[trigger] sh.physical_min@[i]).m as int, sh.physical_min@[i].e as int),
        )
    &&& forall|i: int|
        0 <= i < n ==> parse_dec(trim_spec(entry_win(w.skip(112 * n), 8, i))) == Some(
            ((#[trigger] sh.physical_max@[i]).m as int, sh.physical_max@[i].e as int),
        )
    &&& forall|i: int|
        0 <= i < n ==> parse_dec(trim_spec(entry_win(w.skip(120 * n), 8, i))) == Some(
            ((#[trigger] sh.digital_min@[i]).m as int, sh.digital_min@[i].e as int),
        )
    &&& forall|i: int|
        0 <= i < n ==> parse_dec(trim_spec(entry_win(w.skip(128 * n), 8, i))) == Some(
            ((#[trigger] sh.digital_max@[i]).m as int, sh.digital_max@[i].e as int),
        )
    &&& forall|i: int|
        0 <= i < n ==> (#[trigger] sh.prefiltering@[i])@ == trim_end_spec(
            entry_win(w.skip(136 * n), 80, i),
        )
    &&& forall|i: int|
        0 <= i < n ==> parse_uint(trim_spec(entry_win(w.skip(216 * n), 8, i))) == Some(
            (#[trigger] sh.samples_in_record@[i]) as int,
        )
    &&& forall|i: int|
        0 <= i < n ==> (#[trigger] sh.reserved_field@[i])@ == trim_end_spec(
            entry_win(w.skip(224 * n), 32, i),
        )
}

/// Reads and validates the whole field-major signal-metadata section,
/// `256 * n_signals` bytes in ten blocks.
#[verifier::rlimit(60)]
pub fn read_signal_header(f: &mut ByteSource, n_signals: usize) -> (r: Result<SignalHeader, Error>)
    requires
        old(f).wf(),
        n_signals < 10000,
    ensures
        final(f).wf(),
        final(f).data@ == old(f).data@,
        final(f).pos >= old(f).pos,
        match r {
            Ok(sh) => {
                let wb = old(f).data@.skip(old(f).pos as int);
                &&& sig_fail(wb, n_signals as int) is None
                &&& sig_matches(sh, wb, n_signals as int)
                &&& sh.wf()
                &&& sh.sig_count() == n_signals as int
                &&& final(f).pos == old(f).pos + 256 * n_signals
            },
            Err(e) => Some(e.kind) == sig_fail(
                old(f).data@.skip(old(f).pos as int),
                n_signals as int,
            ),
        },
{
    let ghost wb = old(f).data@.skip(old(f).pos as int);
    let ghost p0 = old(f).pos as int;
    let n = n_signals;
    let labels = match read_str_vec(f, 16, n) {
        Ok(v) => v,
        Err(e) => {
            return Err(e);
        },
    };
    proof {
        assert(wb.skip(16 * n) =~= old(f).data@.skip(p0 + 16 * n));
    }
    let transducer_type = match read_str_vec(f, 80, n) {
        Ok(v) => v,
        Err(e) => {
            return Err(e);
        },
    };
    proof {
        assert(wb.skip(96 * n) =~= old(f).data@.skip(p0 + 96 * n));
    }
    let physical_dimension = match read_str_vec(f, 8, n) {
        Ok(v) => v,
        Err(e) => {
            return Err(e);
        },
    };
    proof {
        assert(wb.skip(104 * n) =~= old(f).data@.skip(p0 + 104 * n));
    }
    let physical_min = match read_dec_vec(f, 8, n) {
        Ok(v) => v,
        Err(e) => {
            return Err(e);
        },
    };
    proof {
        assert(wb.skip(112 * n) =~= old(f).data@.skip(p0 + 112 * n));
    }
    let physical_max = match read_dec_vec(f, 8, n) {
        Ok(v) => v,
        Err(e) => {
            return Err(e);
        },
    };
    proof {
        assert(wb.skip(120 * n) =~= old(f).data@.skip(p0 + 120 * n));
    }
    let digital_min = match read_dec_vec(f, 8, n) {
        Ok(v) => v,
        Err(e) => {
            return Err(e);
        },
    };
    proof {
        assert(wb.skip(128 * n) =~= old(f).data@.skip(p0 + 128 * n));
    }
    let digital_max = match read_dec_vec(f, 8, n) {
        Ok(v) => v,
        Err(e) => {
            return Err(e);
        },
    };
    proof {
        assert(wb.skip(136 * n) =~= old(f).data@.skip(p0 + 136 * n));
    }
    let prefiltering = match read_str_vec(f, 80, n) {
        Ok(v) => v,
        Err(e) => {
            return Err(e);
        },
    };
    proof {
        assert(wb.skip(216 * n) =~= old(f).data@.skip(p0 + 216 * n));
    }
    let samples_in_record = match read_uint_vec(f, 8, n) {
        Ok(v) => v,
        Err(e) => {
            return Err(e);
        },
    };
    proof {
        assert(wb.skip(224 * n) =~= old(f).data@.skip(p0 + 224 * n));
    }
    let reserved_field = match read_str_vec(f, 32, n) {
        Ok(v) => v,
        Err(e) => {
            return Err(e);
        },
    };
    Ok(
        SignalHeader {
            labels,
            transducer_type,
            physical_dimension,
            physical_min,
            physical_max,
            digital_min,
            digital_max,
            prefiltering,
            samples_in_record,
            reserved_field,
        },
    )
}

} // verus!
