//! Decoder for single-unit FITS files: fixed 2880-byte blocks of 80-byte
//! header cards followed by one big-endian binary data unit.
//!
//! The pipeline is: byte buffer -> cards -> classified cards -> parsed and
//! merged keywords -> validated `Header` -> decoded flat data buffer.
//! Every element value in the data buffer is carried as the raw bit pattern
//! of a big-endian IEEE-754 double (a `u64`), so that the decoder itself
//! stays in integer arithmetic; consumers reinterpret the bits.

use vstd::prelude::*;

pub mod data;
pub mod header;
pub mod parsing;
pub mod text;
pub mod values;

verus! {

/// Every way a decode can fail, surfaced unmasked from the facade.
#[derive(Debug, Clone, PartialEq)]
pub enum Error {
    /// The buffer was exhausted before an End card was found.
    MalformedHeader,
    /// NAXIS, BITPIX or one of NAXIS1..NAXISn is missing or invalid; the
    /// payload names the offending key.
    InvalidMandatoryKeyword(String),
    /// The BITPIX code is syntactically valid but no codec is implemented
    /// for it; the payload is the code.
    UnsupportedBitpix(i64),
    /// Fewer data bytes are available than the header's shape and type require.
    TruncatedData,
    /// A value field holds a recognized but unsupported literal form
    /// (a parenthesized complex number).
    UnsupportedLiteral,
}

/// Mathematical image of `Error`, with text as character sequences.
pub enum ErrorModel {
    MalformedHeader,
    InvalidMandatoryKeyword(Seq<char>),
    UnsupportedBitpix(int),
    TruncatedData,
    UnsupportedLiteral,
}

impl View for Error {
    type V = ErrorModel;

    open spec fn view(&self) -> ErrorModel {
        match self {
            Error::MalformedHeader => ErrorModel::MalformedHeader,
            Error::InvalidMandatoryKeyword(k) => ErrorModel::InvalidMandatoryKeyword(k@),
            Error::UnsupportedBitpix(c) => ErrorModel::UnsupportedBitpix(*c as int),
            Error::TruncatedData => ErrorModel::TruncatedData,
            Error::UnsupportedLiteral => ErrorModel::UnsupportedLiteral,
        }
    }
}

/// The whole decode of one buffer: find the End card, assemble and
/// validate the header, then decode the data unit that starts at the
/// first block boundary after the End card.
pub open spec fn spec_decode(bytes: Seq<u8>) -> Result<
    (header::HeaderModel, Option<Seq<int>>),
    ErrorModel,
> {
    match parsing::spec_find_end(bytes, 0) {
        None => Err(ErrorModel::MalformedHeader),
        Some(e) => match parsing::spec_assemble(parsing::spec_cards(bytes, e)) {
            Err(_) => Err(ErrorModel::UnsupportedLiteral),
            Ok(kws) => match parsing::spec_extract(kws) {
                Err(em) => Err(em),
                Ok(t) => {
                    let hm = header::HeaderModel {
                        simple: t.0,
                        bitpix: header::bitpix_of_code(t.3),
                        naxis: t.1,
                        axes: t.2,
                        keywords: kws,
                    };
                    match data::spec_decode_data(
                        bytes,
                        parsing::spec_data_start(bytes, e),
                        hm.bitpix,
                        hm.axes,
                    ) {
                        Err(em) => Err(em),
                        Ok(d) => Ok((hm, d)),
                    }
                },
            },
        },
    }
}

/// Dropping the last byte of a file whose data section ends exactly at
/// the buffer's end turns a successful decode with data into a
/// truncated-data failure, never a silently short buffer.
pub proof fn lemma_truncation_detected(bytes: Seq<u8>)
    requires
        spec_decode(bytes) is Ok,
        spec_decode(bytes)->Ok_0.1 is Some,
        bytes.len() as int == parsing::spec_data_start(bytes, parsing::spec_find_end(bytes, 0)->0)
            + 8 * data::spec_product(spec_decode(bytes)->Ok_0.0.axes),
    ensures
        spec_decode(bytes.drop_last()) is Err,
        spec_decode(bytes.drop_last())->Err_0 == ErrorModel::TruncatedData,
{
    let e = parsing::spec_find_end(bytes, 0)->0;
    let kws = parsing::spec_assemble(parsing::spec_cards(bytes, e))->Ok_0;
    let t = parsing::spec_extract(kws)->Ok_0;
    let axes = spec_decode(bytes)->Ok_0.0.axes;
    let start = parsing::spec_data_start(bytes, e);
    let prod = data::spec_product(axes);
    let cut = bytes.drop_last();
    parsing::lemma_find_end_props(bytes, 0, e);
    assert(axes.len() > 0);
    assert forall|k: int| 0 <= k < axes.len() implies 1 <= #[trigger] axes[k] by {
        parsing::lemma_spec_axes_props(kws, t.1);
    };
    data::lemma_product_prefix(axes, 0);
    assert(prod >= 1);
    let boundary = (80 * e / 2880 + 1) * 2880;
    assert(80 * e + 80 <= boundary) by {
        let q = 80 * e / 2880;
        vstd::arithmetic::div_mod::lemma_fundamental_div_mod(80 * e, 2880);
        assert(80 * e == 2880 * q + 80 * e % 2880);
    };
    assert(boundary <= bytes.len()) by {
        if boundary > bytes.len() {
            assert(start == bytes.len());
            assert(bytes.len() as int == bytes.len() + 8 * prod);
        }
    };
    assert(start == boundary);
    assert(80 * e + 80 <= start);
    assert(bytes.len() as int == start + 8 * prod);
    assert(cut.len() == bytes.len() - 1);
    assert(80 * e + 80 <= cut.len());
    assert(cut == bytes.subrange(0, cut.len() as int)) by {
        assert(cut =~= bytes.subrange(0, cut.len() as int));
    };
    parsing::lemma_find_end_prefix(bytes, cut, 0, e);
    assert(parsing::spec_cards(cut, e) =~= parsing::spec_cards(bytes, e));
    assert(parsing::spec_data_start(cut, e) == boundary);
    assert(data::spec_decode_data(cut, boundary, spec_decode(bytes)->Ok_0.0.bitpix, axes)
        == Result::<Option<Seq<int>>, ErrorModel>::Err(ErrorModel::TruncatedData)) by {
        assert(spec_decode(bytes)->Ok_0.0.bitpix is Float64);
        assert(boundary + prod * 8 > cut.len());
    };
}

/// Decode one complete in-memory buffer into its validated header and,
/// when the header declares one, the flat decoded data buffer. Every
/// failure of the taxonomy surfaces here, distinct and unmasked; the
/// input is never mutated, and independent buffers decode independently.
pub fn decode(buffer: &Vec<u8>) -> (r: Result<(header::Header, Option<data::Data>), Error>)
    ensures
        (match spec_decode(buffer@) {
            Ok(hd) => r is Ok && r->Ok_0.0@ == hd.0 && (match hd.1 {
                None => r->Ok_0.1 is None,
                Some(s) => r->Ok_0.1 is Some && r->Ok_0.1->0@ == s,
            }),
            Err(em) => r is Err && r->Err_0@ == em,
        }),
        r is Ok ==> r->Ok_0.0@.wf(),
        (r is Ok && r->Ok_0.1 is Some) ==> r->Ok_0.1->0@.len() == data::spec_product(
            r->Ok_0.0@.axes,
        ),
        r is Ok ==> ((r->Ok_0.0@.axes.len() == 0) <==> r->Ok_0.1 is None),
{
    let (keywords, start) = match parsing::parse_header(buffer) {
        Ok(p) => p,
        Err(e) => {
            return Err(e);
        },
    };
    let hdr = match header::Header::from_keyword_list(keywords) {
        Ok(h) => h,
        Err(e) => {
            return Err(e);
        },
    };
    proof {
        assert forall|k: int| 0 <= k < hdr.axes@.len() implies 1 <= #[trigger] hdr.axes@[k] by {
            assert(hdr@.axes[k] == hdr.axes@[k] as int);
            assert(1 <= hdr@.axes[k]);
        };
    }
    let d = match data::decode_data(hdr.bitpix, &hdr.axes, buffer, start) {
        Ok(d) => d,
        Err(e) => {
            return Err(e);
        },
    };
    proof {
        data::lemma_product_prefix(hdr@.axes, 0);
    }
    Ok((hdr, d))
}

} // verus!
