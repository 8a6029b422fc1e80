//! Encodes with every codec and keeps the smallest block. Blocks are self-describing, so the
//! choice costs nothing at decode time and needs no tag of its own.
use vstd::prelude::*;

use crate::codec::chimp::{self, Chimp};
use crate::codec::chimp128::{self, Chimp128};
use crate::codec::decimal::{self, scaling_of, Decimal, Scaled};
use crate::codec::gorilla::{self, Gorilla};
use crate::codec::{
    decode_spec, framed_len, frames, lemma_chimp128_lossless, lemma_chimp_lossless,
    lemma_decimal_lossless, lemma_framed_len, lemma_gorilla_lossless, lemma_gorilla_truncated,
    lemma_chimp_truncated, lemma_chimp128_truncated, lemma_decimal_truncated, Content, TAG_CHIMP,
    TAG_CHIMP128, TAG_GORILLA,
};
use crate::error::Error;
use crate::Point;

verus! {

/// The blocks `Auto` chooses between, in the order it tries them: Gorilla, decimal scaling
/// (a Gorilla block again when there is no scale), Chimp and Chimp128.
pub open spec fn candidates(points: Seq<Point>, scaling: Option<(u8, Seq<i64>)>) -> Seq<
    (u8, Seq<bool>),
> {
    seq![
        (TAG_GORILLA, gorilla::block_bits(points)),
        decimal::encoded(points, scaling),
        (TAG_CHIMP, chimp::block_bits(points)),
        (TAG_CHIMP128, chimp128::block_bits(points)),
    ]
}

/// The first of candidates `0..=i` whose block is smallest: a later one replaces the best so
/// far only when strictly smaller.
pub open spec fn best_index(c: Seq<(u8, Seq<bool>)>, i: nat) -> nat
    decreases i,
{
    if i == 0 {
        0
    } else {
        let b = best_index(c, (i - 1) as nat);
        if framed_len(c[i as int].1) < framed_len(c[b as int].1) {
            i
        } else {
            b
        }
    }
}

/// The chosen block is no larger than any candidate's.
pub proof fn lemma_best_is_smallest(c: Seq<(u8, Seq<bool>)>, i: nat, j: nat)
    requires
        j <= i,
    ensures
        best_index(c, i) <= i,
        framed_len(c[best_index(c, i) as int].1) <= framed_len(c[j as int].1),
    decreases i,
{
    if i > 0 {
        lemma_best_is_smallest(c, (i - 1) as nat, if j < i { j } else { 0 });
    }
}

/// Whatever `Auto` keeps is no larger than the block any single codec would have written.
pub proof fn lemma_auto_never_loses(points: Seq<Point>, scaling: Option<(u8, Seq<i64>)>, j: nat)
    requires
        j < 4,
    ensures
        ({
            let c = candidates(points, scaling);
            framed_len(c[best_index(c, 3) as int].1) <= framed_len(c[j as int].1)
        }),
{
    lemma_best_is_smallest(candidates(points, scaling), 3, j);
}

/// Whatever `Auto` keeps decodes without being told which codec wrote it: to the points, or,
/// when decimal scaling won, to the scale and the scaled points.
pub proof fn lemma_auto_lossless(points: Seq<Point>, scaling: Option<(u8, Seq<i64>)>, block: Seq<u8>)
    requires
        points.len() <= u32::MAX,
        scaling matches Some((scale, values)) ==> scale <= decimal::MAX_SCALE && values.len()
            == points.len(),
        ({
            let c = candidates(points, scaling);
            let b = best_index(c, 3);
            frames(block, c[b as int].0, c[b as int].1)
        }),
    ensures
        decode_spec(block) == match scaling {
            Some((scale, values)) if best_index(candidates(points, scaling), 3) == 1 => Ok::<
                Content,
                Error,
            >(Content::Scaled(scale, decimal::scaled_points(points, values))),
            _ => Ok::<Content, Error>(Content::Points(points)),
        },
{
    let c = candidates(points, scaling);
    lemma_best_is_smallest(c, 3, 0);
    let b = best_index(c, 3);
    if b == 0 {
        lemma_gorilla_lossless(points, block);
    } else if b == 1 {
        match scaling {
            None => lemma_gorilla_lossless(points, block),
            Some((scale, values)) => lemma_decimal_lossless(
                scale,
                decimal::scaled_points(points, values),
                block,
            ),
        }
    } else if b == 2 {
        lemma_chimp_lossless(points, block);
    } else {
        lemma_chimp128_lossless(points, block);
    }
}

/// Whatever `Auto` keeps, cut anywhere before its last byte, does not decode: the stream
/// ends mid-value.
pub proof fn lemma_auto_truncated(
    points: Seq<Point>,
    scaling: Option<(u8, Seq<i64>)>,
    block: Seq<u8>,
    cut: int,
)
    requires
        points.len() <= u32::MAX,
        scaling matches Some((scale, values)) ==> scale <= decimal::MAX_SCALE && values.len()
            == points.len(),
        ({
            let c = candidates(points, scaling);
            let b = best_index(c, 3);
            frames(block, c[b as int].0, c[b as int].1)
        }),
        0 <= cut < block.len(),
    ensures
        decode_spec(block.take(cut)) == Err::<Content, Error>(Error::UnexpectedEnd),
{
    let c = candidates(points, scaling);
    lemma_best_is_smallest(c, 3, 0);
    let b = best_index(c, 3);
    if b == 0 {
        lemma_gorilla_truncated(points, block, cut);
    } else if b == 1 {
        match scaling {
            None => lemma_gorilla_truncated(points, block, cut),
            Some((scale, values)) => lemma_decimal_truncated(
                scale,
                decimal::scaled_points(points, values),
                block,
                cut,
            ),
        }
    } else if b == 2 {
        lemma_chimp_truncated(points, block, cut);
    } else {
        lemma_chimp128_truncated(points, block, cut);
    }
}

pub struct Auto;

impl Auto {
    pub fn name(&self) -> (n: &'static str)
        ensures
            n@ == "auto"@,
    {
        "auto"
    }

    /// Encodes with Gorilla, decimal scaling, Chimp and Chimp128 and keeps the smallest block,
    /// the earliest on a tie.
    pub fn encode(&self, points: &[Point], scaled: Option<&Scaled>) -> (res: Result<Vec<u8>, Error>)
        requires
            points@.len() <= usize::MAX / 256,
            scaled matches Some(sc) ==> sc.scale <= decimal::MAX_SCALE && sc.values@.len()
                == points@.len(),
        ensures
            points@.len() > u32::MAX ==> res == Err::<Vec<u8>, Error>(
                Error::TooManyPoints(points@.len() as usize),
            ),
            points@.len() <= u32::MAX ==> (res matches Ok(block) && {
                let c = candidates(points@, scaling_of(scaled));
                let b = best_index(c, 3);
                frames(block@, c[b as int].0, c[b as int].1)
            }),
    {
        let ghost c = candidates(points@, scaling_of(scaled));
        let mut best = Gorilla.encode(points)?;
        let ghost mut b: nat = 0;
        proof {
            lemma_framed_len(best@, c[0].0, c[0].1);
            assert(best_index(c, 0) == 0);
        }
        let candidate = Decimal.encode(points, scaled)?;
        proof {
            lemma_framed_len(candidate@, c[1].0, c[1].1);
        }
        if candidate.len() < best.len() {
            best = candidate;
            proof {
                b = 1;
            }
        }
        assert(b == best_index(c, 1));
        let candidate = Chimp.encode(points)?;
        proof {
            lemma_framed_len(candidate@, c[2].0, c[2].1);
        }
        if candidate.len() < best.len() {
            best = candidate;
            proof {
                b = 2;
            }
        }
        assert(b == best_index(c, 2));
        let candidate = Chimp128.encode(points)?;
        proof {
            lemma_framed_len(candidate@, c[3].0, c[3].1);
        }
        if candidate.len() < best.len() {
            best = candidate;
            proof {
                b = 3;
            }
        }
        assert(b == best_index(c, 3));
        Ok(best)
    }
}

} // verus!
