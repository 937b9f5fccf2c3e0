//! The decode pipeline: header, then signal metadata, then sample data,
//! strictly in file order over one advancing byte source.

use vstd::prelude::*;

pub mod data;
pub mod header;
pub mod signal_header;

use crate::edf_file::EdfFile;
use crate::error::Error;
use crate::source::ByteSource;
use crate::reader::header::{read_header, header_fail, header_matches};
use crate::reader::signal_header::{read_signal_header, sig_fail, sig_matches};
use crate::reader::data::{read_data, data_fail, max_spr, sum_spr, sum_pre, i16_from_le};
use crate::rational::{phys_num, phys_den};
use crate::text::{parse_uint, trim_end_spec};

verus! {

/// The signal count a valid header window declares.
pub open spec fn spec_signals_len(w: Seq<u8>) -> int {
    parse_uint(trim_end_spec(w.subrange(252, 256))).unwrap()
}

pub struct Reader;

impl Reader {
    /// Decodes a whole recording from a byte source: the fixed header,
    /// the per-signal metadata and the rescaled sample matrix. Any
    /// failure of any stage short-circuits the decode; no partial result
    /// is ever returned.
    #[verifier::rlimit(60)]
    pub fn decode(source: ByteSource) -> (r: Result<EdfFile, Error>)
        requires
            source.wf(),
        ensures
            ({
                let w = source.data@.skip(source.pos as int);
                match r {
                    Ok(ef) => {
                        let n = ef.header.signals_len as int;
                        let samples = ef.signal_header.samples_in_record@;
                        &&& header_fail(w) is None
                        &&& header_matches(ef.header, w)
                        &&& ef.header.wf()
                        &&& sig_fail(w.skip(256), n) is None
                        &&& sig_matches(ef.signal_header, w.skip(256), n)
                        &&& ef.signal_header.wf()
                        &&& ef.signal_header.sig_count() == n
                        &&& data_fail(ef.header, ef.signal_header, w.len() - 256 - 256 * n)
                            is None
                        &&& ef.data.rows@.len() == n
                        &&& ef.data.is_rect(
                            max_spr(samples) * ef.header.records_len.unwrap(),
                        )
                        &&& forall|i: int, r2: int, j: int|
                            0 <= i < n && 0 <= r2 < ef.header.records_len.unwrap() && 0 <= j
                                < max_spr(samples) ==> {
                                let wd = w.skip(256 + 256 * n);
                                let d = if j < samples[i] {
                                    i16_from_le(
                                        wd[2 * (r2 * sum_spr(samples) + sum_pre(samples, i) + j)],
                                        wd[2 * (r2 * sum_spr(samples) + sum_pre(samples, i) + j)
                                            + 1],
                                    )
                                } else {
                                    0
                                };
                                (#[trigger] ef.data.rows@[i]@[r2 * max_spr(samples) + j]).num
                                    == phys_num(
                                    d,
                                    ef.signal_header.physical_min@[i],
                                    ef.signal_header.physical_max@[i],
                                    ef.signal_header.digital_min@[i],
                                    ef.signal_header.digital_max@[i],
                                ) && ef.data.rows@[i]@[r2 * max_spr(samples) + j].den == phys_den(
                                    ef.signal_header.physical_min@[i],
                                    ef.signal_header.physical_max@[i],
                                    ef.signal_header.digital_min@[i],
                                    ef.signal_header.digital_max@[i],
                                ) && ef.data.rows@[i]@[r2 * max_spr(samples) + j].den != 0
                            }
                    },
                    Err(e) => {
                        ||| Some(e.kind) == header_fail(w)
                        ||| (header_fail(w) is None && Some(e.kind) == sig_fail(
                            w.skip(256),
                            spec_signals_len(w),
                        ))
                        ||| (header_fail(w) is None && sig_fail(w.skip(256), spec_signals_len(w))
                            is None && exists|h: crate::edf_file::Header, sh: crate::edf_file::SignalHeader|
                            {
                                &&& #[trigger] header_matches(h, w)
                                &&& h.wf()
                                &&& #[trigger] sig_matches(sh, w.skip(256), spec_signals_len(w))
                                &&& sh.wf()
                                &&& sh.sig_count() == spec_signals_len(w)
                                &&& Some(e.kind) == data_fail(
                                    h,
                                    sh,
                                    w.len() - 256 - 256 * spec_signals_len(w),
                                )
                            })
                    },
                }
            }),
    {
        let mut f = source;
        let ghost w = f.data@.skip(f.pos as int);
        let ghost p0 = f.pos as int;
        let h = match read_header(&mut f) {
            Ok(h) => h,
            Err(e) => {
                return Err(e);
            },
        };
        proof {
            assert(w.skip(256) =~= f.data@.skip(f.pos as int));
        }
        let sh = match read_signal_header(&mut f, h.signals_len as usize) {
            Ok(sh) => sh,
            Err(e) => {
                return Err(e);
            },
        };
        proof {
            assert(w.skip(256 + 256 * (h.signals_len as int)) =~= f.data@.skip(f.pos as int));
        }
        let mx = match read_data(&mut f, &sh, &h) {
            Ok(m) => m,
            Err(e) => {
                proof {
                    assert(header_matches(h, w) && h.wf() && sig_matches(
                        sh,
                        w.skip(256),
                        spec_signals_len(w),
                    ) && sh.wf() && sh.sig_count() == spec_signals_len(w) && Some(e.kind)
                        == data_fail(h, sh, w.len() - 256 - 256 * spec_signals_len(w)));
                }
                return Err(e);
            },
        };
        Ok(EdfFile::new(h, sh, mx))
    }
}

} // verus!
