//! What the parameter sweep decides: whether the source image can be swept,
//! and what each candidate is and is called.

use vstd::prelude::*;
use vstd::string::StringExecFns;
use crate::catmap::{decoded, transform_eligible};
use crate::decode::arnold_decode;
use crate::image::Image;
use crate::params::TransformParams;
use crate::text::{decimal, push_decimal, push_signed_decimal, signed_decimal};

verus! {

/// Why a sweep cannot start.
#[derive(Clone, Copy, Debug, PartialEq, Eq, Structural)]
pub enum SweepError {
    /// The cat map is defined on square grids only.
    NotSquare { width: usize, height: usize },
}

/// One decoded image together with the name it is stored under.
#[derive(Debug, PartialEq, Eq)]
pub struct Candidate {
    pub name: String,
    pub image: Image,
}

/// The side of a square source image; an error that carries both
/// dimensions when they differ.
pub fn source_side(image: &Image) -> (side: Result<usize, SweepError>)
    ensures
        image@.is_square() ==> side == Ok::<usize, SweepError>(image@.width as usize),
        !image@.is_square() ==> side == Err::<usize, SweepError>(
            SweepError::NotSquare {
                width: image@.width as usize,
                height: image@.height as usize,
            },
        ),
        side matches Ok(n) ==> (n > 0 <==> transform_eligible(image@)),
{
    let width: usize = image.width();
    let height: usize = image.height();
    if width == height {
        Ok(width)
    } else {
        Err(SweepError::NotSquare { width, height })
    }
}

/// The name of the candidate for `params`: the three integers joined by
/// underscores, with the extension of the lossless raster format.
pub open spec fn candidate_name_text(params: TransformParams) -> Seq<char> {
    decimal(params.shuffle_times as nat) + seq!['_'] + signed_decimal(params.a as int) + seq![
        '_',
    ] + signed_decimal(params.b as int) + seq!['.', 'p', 'n', 'g']
}

/// The file name under which the candidate for `params` is stored.
pub fn candidate_name(params: &TransformParams) -> (name: String)
    ensures
        name@ == candidate_name_text(*params),
{
    proof {
        reveal_strlit("_");
        reveal_strlit(".png");
    }
    let mut name: String = String::new();
    push_decimal(&mut name, params.shuffle_times as u64);
    name.append("_");
    push_signed_decimal(&mut name, params.a);
    name.append("_");
    push_signed_decimal(&mut name, params.b);
    name.append(".png");
    proof {
        assert("_"@ =~= seq!['_']);
        assert(".png"@ =~= seq!['.', 'p', 'n', 'g']);
        assert(name@ =~= candidate_name_text(*params));
    }
    name
}

/// Decodes `image` for one triple and names the result.
pub fn decode_candidate(image: &Image, params: &TransformParams) -> (candidate: Candidate)
    requires
        params.shuffle_times > 0 ==> transform_eligible(image@),
    ensures
        candidate.name@ == candidate_name_text(*params),
        candidate.image@ == decoded(
            image@,
            params.shuffle_times as nat,
            params.a as int,
            params.b as int,
        ),
{
    Candidate {
        name: candidate_name(params),
        image: arnold_decode(image, params.shuffle_times, params.a, params.b),
    }
}

} // verus!
