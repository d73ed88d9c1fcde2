//! The data decoder: reads the data unit that follows the header blocks as
//! big-endian 64-bit elements, checking the byte count that the header's
//! shape and type demand.

use vstd::prelude::*;

use crate::Error;
use crate::ErrorModel;
use crate::header::Bitpix;

verus! {

/// Fixed block size in bytes, shared by the header and data sections.
pub const BLOCK_SIZE: usize = 2880;

/// The flat decoded data unit, in file order. Each element carries the raw
/// bit pattern of one big-endian IEEE-754 double; consumers reinterpret
/// the bits. Reshaping by the header's axes, fastest-varying first, is a
/// pure view of this buffer.
#[derive(Debug, PartialEq, Clone)]
pub struct Data {
    pub values: Vec<u64>,
}

impl View for Data {
    type V = Seq<int>;

    open spec fn view(&self) -> Seq<int> {
        self.values@.map_values(|x: u64| x as int)
    }
}

/// The big-endian 64-bit value whose eight bytes start at `off`.
pub open spec fn spec_be64(s: Seq<u8>, off: int) -> int {
    s[off] as int * 0x100000000000000 + s[off + 1] as int * 0x1000000000000 + s[off + 2] as int
        * 0x10000000000 + s[off + 3] as int * 0x100000000 + s[off + 4] as int * 0x1000000 + s[off
        + 5] as int * 0x10000 + s[off + 6] as int * 0x100 + s[off + 7] as int
}

/// Read the big-endian 64-bit element at byte offset `off`.
fn be64_at(buffer: &Vec<u8>, off: usize) -> (r: u64)
    requires
        off + 8 <= buffer@.len(),
    ensures
        r as int == spec_be64(buffer@, off as int),
{
    let n = buffer.len();
    proof {
        assert(off + 8 <= n);
    }
    let b0 = buffer[off] as u64;
    let b1 = buffer[off + 1] as u64;
    let b2 = buffer[off + 2] as u64;
    let b3 = buffer[off + 3] as u64;
    let b4 = buffer[off + 4] as u64;
    let b5 = buffer[off + 5] as u64;
    let b6 = buffer[off + 6] as u64;
    let b7 = buffer[off + 7] as u64;
    b0 * 0x100000000000000 + b1 * 0x1000000000000 + b2 * 0x10000000000 + b3 * 0x100000000 + b4
        * 0x1000000 + b5 * 0x10000 + b6 * 0x100 + b7
}

/// The product of a sequence of extents.
pub open spec fn spec_product(s: Seq<int>) -> int
    decreases s.len(),
{
    if s.len() == 0 {
        1
    } else {
        spec_product(s.drop_last()) * s.last()
    }
}

/// With every extent positive, the product is positive and no prefix
/// product exceeds it.
pub proof fn lemma_product_prefix(s: Seq<int>, i: int)
    requires
        0 <= i <= s.len(),
        forall|k: int| 0 <= k < s.len() ==> 1 <= #[trigger] s[k],
    ensures
        spec_product(s) >= 1,
        spec_product(s.subrange(0, i)) <= spec_product(s),
        spec_product(s.subrange(0, i)) >= 1,
    decreases s.len() - i,
{
    if i == s.len() {
        assert(s.subrange(0, i) =~= s);
        lemma_product_pos(s);
    } else {
        let a = s.subrange(0, i);
        let b = s.subrange(0, i + 1);
        assert(b.drop_last() =~= a);
        assert(b.last() == s[i]);
        lemma_product_pos(a);
        assert(spec_product(b) == spec_product(a) * s[i]);
        assert(spec_product(a) * s[i] >= spec_product(a) * 1) by (nonlinear_arith)
            requires
                spec_product(a) >= 1,
                s[i] >= 1,
        ;
        lemma_product_prefix(s, i + 1);
    }
}

/// The product of positive extents is at least one.
proof fn lemma_product_pos(s: Seq<int>)
    requires
        forall|k: int| 0 <= k < s.len() ==> 1 <= #[trigger] s[k],
    ensures
        spec_product(s) >= 1,
    decreases s.len(),
{
    if s.len() > 0 {
        let a = s.drop_last();
        assert(forall|k: int| 0 <= k < a.len() ==> 1 <= #[trigger] a[k]);
        lemma_product_pos(a);
        assert(spec_product(a) * s.last() >= 1) by (nonlinear_arith)
            requires
                spec_product(a) >= 1,
                s.last() >= 1,
        ;
    }
}

/// The product taken from the front: first extent times the rest.
proof fn lemma_product_front(s: Seq<int>)
    requires
        s.len() > 0,
    ensures
        spec_product(s) == s[0] * spec_product(s.drop_first()),
    decreases s.len(),
{
    if s.len() == 1 {
        assert(s.drop_last() =~= Seq::<int>::empty());
        assert(s.drop_first() =~= Seq::<int>::empty());
    } else {
        let dl = s.drop_last();
        lemma_product_front(dl);
        assert(dl.drop_first() =~= s.drop_first().drop_last());
        let m = spec_product(s.drop_first().drop_last());
        assert(spec_product(s) == (s[0] * m) * s.last());
        assert((s[0] * m) * s.last() == s[0] * (m * s.last())) by (nonlinear_arith);
        assert(s.drop_first().last() == s.last());
        assert(spec_product(s.drop_first()) == m * s.last());
    }
}

/// The product splits at any cut: front part times back part.
proof fn lemma_product_split(s: Seq<int>, k: int)
    requires
        0 <= k <= s.len(),
    ensures
        spec_product(s) == spec_product(s.subrange(0, k)) * spec_product(
            s.subrange(k, s.len() as int),
        ),
    decreases k,
{
    if k == 0 {
        assert(s.subrange(0, 0) =~= Seq::<int>::empty());
        assert(s.subrange(0, s.len() as int) =~= s);
    } else {
        lemma_product_split(s, k - 1);
        let front = s.subrange(0, k - 1);
        let front1 = s.subrange(0, k);
        let back = s.subrange(k - 1, s.len() as int);
        let back1 = s.subrange(k, s.len() as int);
        assert(front1.drop_last() =~= front);
        assert(front1.last() == s[k - 1]);
        assert(spec_product(front1) == spec_product(front) * s[k - 1]);
        assert(back.len() > 0);
        lemma_product_front(back);
        assert(back.drop_first() =~= back1);
        assert(back[0] == s[k - 1]);
        assert(spec_product(back) == s[k - 1] * spec_product(back1));
        assert(spec_product(front) * (s[k - 1] * spec_product(back1)) == (spec_product(front)
            * s[k - 1]) * spec_product(back1)) by (nonlinear_arith);
    }
}

/// The flat offset of a coordinate in the dense view described by `axes`,
/// with the first axis varying fastest: the first coordinate counts
/// single elements, each later one counts whole blocks of the axes
/// before it.
pub open spec fn spec_offset(coords: Seq<int>, axes: Seq<int>) -> int
    decreases coords.len(),
{
    if coords.len() == 0 {
        0
    } else {
        coords[0] + axes[0] * spec_offset(coords.drop_first(), axes.drop_first())
    }
}

/// In-range coordinates give an offset inside the flat buffer.
pub proof fn lemma_offset_in_range(coords: Seq<int>, axes: Seq<int>)
    requires
        coords.len() == axes.len(),
        forall|k: int| 0 <= k < coords.len() ==> 0 <= #[trigger] coords[k] < axes[k],
    ensures
        0 <= spec_offset(coords, axes) < spec_product(axes),
    decreases coords.len(),
{
    if coords.len() == 0 {
    } else {
        let c0 = coords[0];
        let a0 = axes[0];
        let ct = coords.drop_first();
        let at = axes.drop_first();
        lemma_offset_in_range(ct, at);
        let rest = spec_offset(ct, at);
        let pt = spec_product(at);
        lemma_product_front(axes);
        assert(spec_product(axes) == a0 * pt);
        assert(0 <= c0 + a0 * rest < a0 * pt) by (nonlinear_arith)
            requires
                0 <= c0 < a0,
                0 <= rest < pt,
        ;
    }
}

/// The product of the extents, or nothing when it exceeds the machine's
/// size limit.
fn checked_product(axes: &Vec<usize>) -> (r: Option<usize>)
    requires
        forall|k: int| 0 <= k < axes@.len() ==> 1 <= #[trigger] axes@[k],
    ensures
        match r {
            Some(p) => p as int == spec_product(axes@.map_values(|x: usize| x as int)),
            None => spec_product(axes@.map_values(|x: usize| x as int)) > usize::MAX as int,
        },
{
    let ghost am = axes@.map_values(|x: usize| x as int);
    proof {
        assert(forall|k: int| 0 <= k < am.len() ==> 1 <= #[trigger] am[k]);
    }
    let n = axes.len();
    let mut p: usize = 1;
    let mut i: usize = 0;
    while i < n
        invariant
            0 <= i <= n,
            n == axes@.len(),
            am == axes@.map_values(|x: usize| x as int),
            forall|k: int| 0 <= k < am.len() ==> 1 <= #[trigger] am[k],
            p as int == spec_product(am.subrange(0, i as int)),
            p >= 1,
        decreases n - i,
    {
        let a = axes[i];
        proof {
            assert(a as int == am[i as int]);
            assert(a >= 1);
            assert(am.subrange(0, i + 1).drop_last() =~= am.subrange(0, i as int));
            assert(am.subrange(0, i + 1).last() == a as int);
        }
        proof {
            assert(p as int * a as int <= u64::MAX as int * u64::MAX as int) by (nonlinear_arith)
                requires
                    0 <= p as int <= u64::MAX as int,
                    0 <= a as int <= u64::MAX as int,
            ;
        }
        let prod: u128 = (p as u128) * (a as u128);
        proof {
            assert(prod == p as int * a as int);
            assert(p as int * a as int >= 1) by (nonlinear_arith)
                requires
                    p as int >= 1,
                    a as int >= 1,
            ;
        }
        if prod > (usize::MAX as u128) {
            proof {
                assert(spec_product(am.subrange(0, i + 1)) > usize::MAX as int);
                lemma_product_prefix(am, i + 1);
            }
            return None;
        }
        p = prod as usize;
        i = i + 1;
    }
    proof {
        assert(am.subrange(0, n as int) =~= am);
    }
    Some(p)
}

/// The flat index of a coordinate in the dense view described by `axes`,
/// with the first axis varying fastest; in-range coordinates always give
/// an index inside a buffer of `product(axes)` elements.
pub fn offset_of(coords: &Vec<usize>, axes: &Vec<usize>) -> (r: usize)
    requires
        coords@.len() == axes@.len(),
        forall|k: int| 0 <= k < coords@.len() ==> #[trigger] coords@[k] < axes@[k],
        spec_product(axes@.map_values(|x: usize| x as int)) <= usize::MAX as int,
    ensures
        r as int == spec_offset(
            coords@.map_values(|x: usize| x as int),
            axes@.map_values(|x: usize| x as int),
        ),
        (r as int) < spec_product(axes@.map_values(|x: usize| x as int)),
{
    let ghost cm = coords@.map_values(|x: usize| x as int);
    let ghost am = axes@.map_values(|x: usize| x as int);
    proof {
        assert forall|k: int| 0 <= k < cm.len() implies 0 <= #[trigger] cm[k] < am[k] by {
            assert(cm[k] == coords@[k] as int);
            assert(am[k] == axes@[k] as int);
        };
        assert forall|k: int| 0 <= k < am.len() implies 1 <= #[trigger] am[k] by {
            assert(0 <= cm[k] && cm[k] < am[k]);
        };
        assert(cm.skip(am.len() as int) =~= Seq::<int>::empty());
        assert(am.skip(am.len() as int) =~= Seq::<int>::empty());
    }
    let n = coords.len();
    let mut off: usize = 0;
    let mut k: usize = n;
    while k > 0
        invariant
            0 <= k <= n,
            n == coords@.len(),
            n == axes@.len(),
            cm == coords@.map_values(|x: usize| x as int),
            am == axes@.map_values(|x: usize| x as int),
            forall|j: int| 0 <= j < cm.len() ==> 0 <= #[trigger] cm[j] < am[j],
            forall|j: int| 0 <= j < am.len() ==> 1 <= #[trigger] am[j],
            spec_product(am) <= usize::MAX as int,
            off as int == spec_offset(cm.skip(k as int), am.skip(k as int)),
            (off as int) < spec_product(am.skip(k as int)),
        decreases k,
    {
        k = k - 1;
        let c = coords[k];
        let a = axes[k];
        proof {
            let ct = cm.skip(k as int);
            let at = am.skip(k as int);
            assert(ct[0] == c as int && at[0] == a as int);
            assert(ct.drop_first() =~= cm.skip(k + 1));
            assert(at.drop_first() =~= am.skip(k + 1));
            lemma_product_front(at);
            let pt = spec_product(am.skip(k + 1));
            assert(spec_product(at) == a as int * pt);
            lemma_product_split(am, k as int);
            assert forall|j: int| 0 <= j < at.len() implies 1 <= #[trigger] at[j] by {
                assert(at[j] == am[j + k]);
            };
            lemma_product_pos(at);
            assert forall|j: int|
                0 <= j < am.subrange(0, k as int).len() implies 1 <= #[trigger] am.subrange(
                0,
                k as int,
            )[j] by {
                assert(am.subrange(0, k as int)[j] == am[j]);
            };
            lemma_product_pos(am.subrange(0, k as int));
            assert(spec_product(at) <= spec_product(am)) by (nonlinear_arith)
                requires
                    spec_product(am) == spec_product(am.subrange(0, k as int)) * spec_product(
                        at,
                    ),
                    spec_product(am.subrange(0, k as int)) >= 1,
                    spec_product(at) >= 1,
            ;
            assert(c as int + a as int * (off as int) < a as int * pt) by (nonlinear_arith)
                requires
                    0 <= c as int,
                    (c as int) < a as int,
                    0 <= off as int,
                    (off as int) < pt,
            ;
        }
        off = c + a * off;
    }
    proof {
        assert(cm.skip(0) =~= cm);
        assert(am.skip(0) =~= am);
    }
    off
}

impl Data {
    /// The element at `coords` of the dense view shaped by `axes`, the
    /// first axis varying fastest. Given the decoder's length invariant,
    /// the lookup is a pure, infallible view of the flat buffer.
    pub fn at(&self, coords: &Vec<usize>, axes: &Vec<usize>) -> (r: u64)
        requires
            coords@.len() == axes@.len(),
            forall|k: int| 0 <= k < coords@.len() ==> #[trigger] coords@[k] < axes@[k],
            self@.len() == spec_product(axes@.map_values(|x: usize| x as int)),
        ensures
            r as int == self@[spec_offset(
                coords@.map_values(|x: usize| x as int),
                axes@.map_values(|x: usize| x as int),
            )],
    {
        let ghost am = axes@.map_values(|x: usize| x as int);
        let _total = self.values.len();
        proof {
            assert(self@.len() == self.values@.len());
            assert(spec_product(am) <= usize::MAX as int);
        }
        let i = offset_of(coords, axes);
        self.values[i]
    }
}

/// Decode `count` big-endian 64-bit elements starting at byte `start`,
/// block after block; the unconsumed tail of the final block is padding
/// and is never read as data.
pub fn chuncks_to_data_bits(buffer: &Vec<u8>, start: usize, count: usize) -> (r: Vec<u64>)
    requires
        start as int + count as int * 8 <= buffer@.len(),
    ensures
        r@.len() == count,
        forall|k: int|
            0 <= k < count ==> #[trigger] r@[k] as int == spec_be64(buffer@, start + 8 * k),
{
    let n = buffer.len();
    let mut r: Vec<u64> = Vec::new();
    let mut i: usize = 0;
    while i < count
        invariant
            0 <= i <= count,
            n == buffer@.len(),
            start as int + count as int * 8 <= n,
            r@.len() == i,
            forall|k: int|
                0 <= k < i ==> #[trigger] r@[k] as int == spec_be64(buffer@, start + 8 * k),
        decreases count - i,
    {
        let off = start + i * 8;
        r.push(be64_at(buffer, off));
        i = i + 1;
    }
    r
}

/// Decode of the data unit, given the validated type and shape and the
/// byte offset where data begins. No axes means no data unit; only the
/// 64-bit float codec is implemented, every other code is refused as
/// unsupported; and a buffer holding fewer than the expected
/// `product(axes) * 8` bytes is truncated.
pub open spec fn spec_decode_data(
    bytes: Seq<u8>,
    start: int,
    bitpix: Bitpix,
    axes: Seq<int>,
) -> Result<Option<Seq<int>>, ErrorModel> {
    if axes.len() == 0 {
        Ok(None)
    } else if !(bitpix is Float64) {
        Err(ErrorModel::UnsupportedBitpix(bitpix.spec_code()))
    } else {
        let count = spec_product(axes);
        if start + count * 8 > bytes.len() {
            Err(ErrorModel::TruncatedData)
        } else {
            Ok(Some(Seq::new(count as nat, |k: int| spec_be64(bytes, start + 8 * k))))
        }
    }
}

/// Decode the data unit from `buffer` at byte offset `start`, as
/// `spec_decode_data` says.
pub fn decode_data(bitpix: Bitpix, axes: &Vec<usize>, buffer: &Vec<u8>, start: usize) -> (r:
    Result<Option<Data>, Error>)
    requires
        start <= buffer@.len(),
        forall|k: int| 0 <= k < axes@.len() ==> 1 <= #[trigger] axes@[k],
    ensures
        match spec_decode_data(
            buffer@,
            start as int,
            bitpix,
            axes@.map_values(|x: usize| x as int),
        ) {
            Ok(d) => r is Ok && (match d {
                None => r->Ok_0 is None,
                Some(s) => r->Ok_0 is Some && r->Ok_0->0@ == s,
            }),
            Err(em) => r is Err && r->Err_0@ == em,
        },
{
    let ghost am = axes@.map_values(|x: usize| x as int);
    let n = buffer.len();
    if axes.len() == 0 {
        return Ok(None);
    }
    let is_f64 = matches!(bitpix, Bitpix::Float64);
    if !is_f64 {
        return Err(Error::UnsupportedBitpix(bitpix.to_int()));
    }
    let count = match checked_product(axes) {
        Some(p) => p,
        None => {
            proof {
                let cp = spec_product(am);
                assert(cp * 8 >= cp) by (nonlinear_arith)
                    requires
                        cp > 0,
                ;
                assert(n <= usize::MAX);
                assert(start as int + cp * 8 > n);
            }
            return Err(Error::TruncatedData);
        },
    };
    let need: u128 = (count as u128) * 8;
    let avail: u128 = (buffer.len() - start) as u128;
    if need > avail {
        return Err(Error::TruncatedData);
    }
    let values = chuncks_to_data_bits(buffer, start, count);
    let data = Data { values };
    proof {
        let cp = spec_product(am);
        assert(data@ =~= Seq::new(cp as nat, |k: int| spec_be64(buffer@, start + 8 * k)));
    }
    Ok(Some(data))
}

} // verus!
