//! The validated header: `Bitpix`, the bounded `Naxis` count, and `Header`
//! itself, assembled from a parsed keyword list.

use vstd::prelude::*;

use crate::Error;

verus! {

/// Per-element data type of the data unit. The variants map to the codes
/// 8, 16, 32, 64, -32 and -64 of the BITPIX keyword.
#[derive(Debug, Clone, Copy, PartialEq, Eq, Structural)]
pub enum Bitpix {
    Int8,
    Int16,
    Int32,
    Int64,
    Float32,
    Float64,
}

/// The integer codes that BITPIX may carry.
pub open spec fn valid_bitpix_code(n: int) -> bool {
    n == 8 || n == 16 || n == 32 || n == 64 || n == -32 || n == -64
}

impl Bitpix {
    /// The BITPIX code of this variant.
    pub open spec fn spec_code(self) -> int {
        match self {
            Bitpix::Int8 => 8,
            Bitpix::Int16 => 16,
            Bitpix::Int32 => 32,
            Bitpix::Int64 => 64,
            Bitpix::Float32 => -32,
            Bitpix::Float64 => -64,
        }
    }

    /// Bytes per element: the magnitude of the code divided by 8.
    pub open spec fn spec_width(self) -> int {
        match self {
            Bitpix::Int8 => 1,
            Bitpix::Int16 => 2,
            Bitpix::Int32 => 4,
            Bitpix::Int64 => 8,
            Bitpix::Float32 => 4,
            Bitpix::Float64 => 8,
        }
    }

    pub fn from_int(n: i64) -> (r: Option<Self>)
        ensures
            r is Some <==> valid_bitpix_code(n as int),
            r is Some ==> r->0.spec_code() == n as int,
    {
        match n {
            8 => Some(Self::Int8),
            16 => Some(Self::Int16),
            32 => Some(Self::Int32),
            64 => Some(Self::Int64),
            -32 => Some(Self::Float32),
            -64 => Some(Self::Float64),
            _ => None,
        }
    }

    pub fn to_int(&self) -> (r: i64)
        ensures
            r as int == self.spec_code(),
    {
        match self {
            Self::Int8 => 8,
            Self::Int16 => 16,
            Self::Int32 => 32,
            Self::Int64 => 64,
            Self::Float32 => -32,
            Self::Float64 => -64,
        }
    }
}

/// The variant carrying a valid BITPIX code.
pub open spec fn bitpix_of_code(c: int) -> Bitpix {
    if c == 8 {
        Bitpix::Int8
    } else if c == 16 {
        Bitpix::Int16
    } else if c == 32 {
        Bitpix::Int32
    } else if c == 64 {
        Bitpix::Int64
    } else if c == -32 {
        Bitpix::Float32
    } else {
        Bitpix::Float64
    }
}

/// The number of axes, validated to lie between 0 and 999.
#[derive(Debug, Clone, Copy)]
pub struct Naxis {
    value: usize,
}

impl Naxis {
    /// The bound every constructed value satisfies.
    #[verifier::type_invariant]
    pub closed spec fn inv(self) -> bool {
        self.value <= 999
    }

    /// The axis count this value carries.
    pub closed spec fn spec_value(self) -> int {
        self.value as int
    }

    /// Validated constructor: accepts exactly the counts from 0 to 999.
    pub fn new(n: usize) -> (r: Option<Naxis>)
        ensures
            r is Some <==> n <= 999,
            r is Some ==> r->0.spec_value() == n as int,
    {
        if n <= 999 {
            Some(Naxis { value: n })
        } else {
            None
        }
    }

    pub fn get(&self) -> (r: usize)
        ensures
            r as int == self.spec_value(),
            r <= 999,
    {
        proof {
            use_type_invariant(self);
        }
        self.value
    }
}

/// Mathematical image of a validated header.
pub struct HeaderModel {
    pub simple: bool,
    pub bitpix: Bitpix,
    pub naxis: int,
    pub axes: Seq<int>,
    pub keywords: Seq<crate::parsing::KeywordModel>,
}

impl HeaderModel {
    /// Well-formedness: the axis count matches the axes, stays in bounds,
    /// and every extent is positive and fits the machine's size type.
    pub open spec fn wf(self) -> bool {
        &&& self.naxis == self.axes.len()
        &&& 0 <= self.naxis <= 999
        &&& forall|k: int|
            0 <= k < self.axes.len() ==> 1 <= #[trigger] self.axes[k] <= usize::MAX as int
    }
}

/// The validated header: the full keyword sequence plus the mandatory
/// scalar fields extracted from it.
#[derive(Debug)]
pub struct Header {
    /// Whether the file declares conformance (`SIMPLE`), false by default.
    pub simple: bool,
    /// The per-element data type of the data unit.
    pub bitpix: Bitpix,
    /// The validated number of axes.
    pub naxis: Naxis,
    /// The extent of each axis, fastest-varying first.
    pub axes: Vec<usize>,
    /// Every assembled keyword, in card order.
    pub keywords: Vec<crate::parsing::Keyword>,
}

impl View for Header {
    type V = HeaderModel;

    open spec fn view(&self) -> HeaderModel {
        HeaderModel {
            simple: self.simple,
            bitpix: self.bitpix,
            naxis: self.naxis.spec_value(),
            axes: self.axes@.map_values(|x: usize| x as int),
            keywords: crate::parsing::deep_keywords(self.keywords@),
        }
    }
}

impl Header {
    /// Build the validated header from an assembled keyword list by
    /// extracting and checking the mandatory fields; failure names the
    /// offending key as `extract_values` says.
    pub fn from_keyword_list(keywords: Vec<crate::parsing::Keyword>) -> (r: Result<
        Header,
        Error,
    >)
        ensures
            match crate::parsing::spec_extract(crate::parsing::deep_keywords(keywords@)) {
                Ok(t) => r is Ok && r->Ok_0@ == (HeaderModel {
                    simple: t.0,
                    bitpix: bitpix_of_code(t.3),
                    naxis: t.1,
                    axes: t.2,
                    keywords: crate::parsing::deep_keywords(keywords@),
                }) && r->Ok_0@.wf(),
                Err(em) => r is Err && r->Err_0@ == em,
            },
    {
        let ghost dk = crate::parsing::deep_keywords(keywords@);
        let (simple, naxis_n, axes, bitpix_code) = match crate::parsing::extract_values(
            &keywords,
        ) {
            Ok(t) => t,
            Err(e) => {
                return Err(e);
            },
        };
        proof {
            crate::parsing::lemma_spec_axes_props(dk, naxis_n as int);
        }
        let naxis = match Naxis::new(naxis_n) {
            Some(nx) => nx,
            None => {
                proof {
                    assert(false);
                }
                return Err(Error::MalformedHeader);
            },
        };
        let bitpix = match Bitpix::from_int(bitpix_code) {
            Some(b) => b,
            None => {
                proof {
                    assert(false);
                }
                return Err(Error::MalformedHeader);
            },
        };
        Ok(Header { simple, bitpix, naxis, axes, keywords })
    }

    /// Print every keyword on standard output, one line each.
    pub fn print_keywords(&self) {
        let n = self.keywords.len();
        let mut i: usize = 0;
        while i < n
            invariant
                n == self.keywords@.len(),
                0 <= i <= n,
            decreases n - i,
        {
            self.keywords[i].print();
            i = i + 1;
        }
    }
}

} // verus!
