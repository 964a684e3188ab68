//! Face embeddings.

use vstd::prelude::*;
use vstd::arithmetic::power2::{pow2, lemma2_to64, lemma_pow2_adds, lemma_pow2_pos, lemma_pow2_unfold};
use crate::arithmetic::{law_product_commutes, law_rounding_keeps_exact_values, lemma_rounded, rounded, signed_rounded};
use crate::binary32::{Binary32, NAN_BITS, NEG_ZERO_BITS, ONE_BITS, TINY_NORM_BITS, lemma_magnitude_order};
use crate::error::{FaceIdError, FaceIdErrorView, invalid_model};
use crate::preprocess::{all_square, centred_byte_table, centred_byte_value, first_misfit, holds_images, image_tensor, lemma_same_scale, misfit_error, square};
use crate::raster::RgbImage;
use crate::session::{input_name, usable_input};
use crate::tensor::{Matrix, ModelOutput, Tensor4, element_count, lemma_two_axes, matrix_columns};
use crate::text::{decimal, numbered_pair};

verus! {

/// The width and height of the images that the model takes.
pub const INPUT_SIZE: u32 = 112;

/// The number of values up to which the effect of rounding is known.
pub const MOST_VALUES: usize = 0x10_0000;

/// The numbers added up from first to last.
pub open spec fn total(terms: Seq<Binary32>) -> Binary32
    decreases terms.len(),
{
    if terms.len() == 0 {
        Binary32 { bits: NEG_ZERO_BITS }
    } else {
        total(terms.drop_last()).sum(terms.last())
    }
}

/// The products of the numbers at the same places.
pub open spec fn products(a: Seq<Binary32>, b: Seq<Binary32>) -> Seq<Binary32> {
    Seq::new(a.len(), |i: int| a[i].product(b[i]))
}

/// The length of a vector.
pub open spec fn norm(v: Seq<Binary32>) -> Binary32 {
    total(products(v, v)).root()
}

/// The vector scaled to length one; a vector of next to no length stays as it is.
pub open spec fn normalized(v: Seq<Binary32>) -> Seq<Binary32> {
    if (Binary32 { bits: TINY_NORM_BITS }).below(norm(v)) {
        let factor = (Binary32 { bits: ONE_BITS }).quotient(norm(v));
        Seq::new(v.len(), |i: int| v[i].product(factor))
    } else {
        v
    }
}

pub open spec fn all_finite(v: Seq<Binary32>) -> bool {
    forall|i: int| 0 <= i < v.len() ==> (#[trigger] v[i]).finite()
}

/// The similarity of two embeddings, or why they cannot be compared.
pub open spec fn similarity(a: Seq<Binary32>, b: Seq<Binary32>) -> Result<Binary32, FaceIdErrorView> {
    if a.len() == 0 || a.len() != b.len() {
        Err(
            FaceIdErrorView::InvalidModel(
                "Embedding lengths must be equal and non-zero, got "@ + decimal(a.len()) + " and "@ + decimal(b.len()),
            ),
        )
    } else if !all_finite(a) || !all_finite(b) {
        Err(FaceIdErrorView::InvalidModel("Embeddings must contain only finite values"@))
    } else {
        Ok(total(products(a, b)))
    }
}

/// By how many parts in 2^28 rounding can take the similarity of two normalized
/// vectors of `n` values beyond one.
pub open spec fn rounding_slack(n: nat) -> nat {
    41 * n + 260
}

/// One, or minus one, where rounding may have taken the sum for `n` values beyond
/// it; else the sum itself.
pub open spec fn kept_in_range(s: Binary32, n: nat) -> Binary32 {
    if n <= MOST_VALUES && pow2(149) < s.abs_units() && 0x1000_0000 * s.abs_units() <= (0x1000_0000 + rounding_slack(n))
        * pow2(149) {
        (Binary32 { bits: ONE_BITS }).signed(s.sign_bit())
    } else {
        s
    }
}

/// The similarity of two embeddings within the range of a cosine; NaN where they
/// cannot be compared.
pub open spec fn cosine(a: Seq<Binary32>, b: Seq<Binary32>) -> Binary32 {
    match similarity(a, b) {
        Ok(s) => kept_in_range(s, a.len()),
        Err(_) => Binary32 { bits: NAN_BITS },
    }
}

fn keep_in_range(s: Binary32, n: usize) -> (r: Binary32)
    ensures
        r == kept_in_range(s, n as nat),
{
    if n > MOST_VALUES {
        return s;
    }
    let m: u32 = s.bits % 0x8000_0000;
    let slack: u32 = (41 * n as u32 + 260) / 32;
    proof {
        lemma_above_one(s, rounding_slack(n as nat));
    }
    if m > ONE_BITS && m - ONE_BITS <= slack {
        if s.bits >= 0x8000_0000 {
            Binary32 { bits: ONE_BITS + 0x8000_0000 }
        } else {
            Binary32 { bits: ONE_BITS }
        }
    } else {
        s
    }
}

/// How far a number lies above one, from its bit pattern: the last bit of a
/// number between one and two counts 32 parts in 2^28.
proof fn lemma_above_one(s: Binary32, e: nat)
    requires
        e < 0x800_0000,
    ensures
        pow2(149) < s.abs_units() <==> s.magnitude() > ONE_BITS,
        s.magnitude() >= ONE_BITS ==> (0x1000_0000 * s.abs_units() <= (0x1000_0000 + e) * pow2(149)
            <==> s.magnitude() - ONE_BITS <= e / 32),
{
    let one = Binary32 { bits: ONE_BITS };
    let two = Binary32 { bits: 0x4000_0000 };
    let (m, q, p) = (s.magnitude(), pow2(126), pow2(149));
    lemma2_to64();
    lemma_pow2_pos(126);
    lemma_pow2_adds(23, 126);
    lemma_pow2_unfold(127);
    assert(one.exponent() == 127 && one.fraction() == 0);
    assert(two.exponent() == 128 && two.fraction() == 0);
    assert(p == 0x80_0000 * q);
    assert(one.abs_units() == p);
    assert((two.exponent() - 1) as nat == 127);
    assert(0x80_0000 + two.fraction() == 0x80_0000);
    assert(two.abs_units() == 0x80_0000 * pow2(127));
    if m < ONE_BITS {
        lemma_magnitude_order(s, one);
    } else if m > ONE_BITS {
        lemma_magnitude_order(one, s);
    }
    let ep = (0x1000_0000 + e) * p;
    assert(ep == 0x1000_0000 * p + e * p) by (nonlinear_arith)
        requires ep == (0x1000_0000 + e) * p;
    if m >= 0x4000_0000 {
        if m > 0x4000_0000 {
            lemma_magnitude_order(two, s);
        }
        assert(e * p <= 0x800_0000 * p) by (nonlinear_arith)
            requires e <= 0x800_0000, p >= 0;
    } else if m >= ONE_BITS {
        let j = m - ONE_BITS;
        assert(s.exponent() == 127 && s.fraction() == j);
        assert((s.exponent() - 1) as nat == 126);
        let sig = 0x80_0000 + j;
        assert(s.abs_units() == sig * q);
        assert(sig * q == p + j * q) by (nonlinear_arith)
            requires sig == 0x80_0000 + j, p == 0x80_0000 * q;
        let (jq, eq) = (j * q, e * q);
        assert(e * p == 0x80_0000 * eq) by (nonlinear_arith)
            requires p == 0x80_0000 * q, eq == e * q;
        assert(32 * jq <= eq <==> 32 * j <= e) by (nonlinear_arith)
            requires jq == j * q, eq == e * q, q > 0;
    }
}

/// Row `i` of elements that stand row by row.
pub open spec fn flat_row(data: Seq<Binary32>, columns: int, i: int) -> Seq<Binary32> {
    data.subrange(i * columns, (i + 1) * columns)
}

/// The embeddings of `n` faces in the first output of the model.
pub open spec fn decoded(output: Option<ModelOutput>, n: nat) -> Result<Seq<Seq<Binary32>>, FaceIdErrorView> {
    match output {
        None => Err(FaceIdErrorView::InvalidModel("Embedder produced no outputs"@)),
        Some(o) => {
            let shape = o.spec_shape();
            if shape.len() != 2 {
                Err(FaceIdErrorView::Shape("incompatible shapes"@))
            } else if shape[0] != n {
                Err(
                    FaceIdErrorView::Ort(
                        "Embedder batch size mismatch: expected "@ + decimal(n) + ", got "@ + decimal(shape[0] as nat),
                    ),
                )
            } else if shape[1] == 0 {
                Err(FaceIdErrorView::InvalidModel("Embedder produced empty embeddings"@))
            } else if !all_finite(o.spec_data()) {
                Err(FaceIdErrorView::InvalidModel("Embedder produced non-finite values"@))
            } else {
                Ok(Seq::new(n, |i: int| normalized(flat_row(o.spec_data(), shape[1] as int, i))))
            }
        },
    }
}

/// The value of a list of embeddings.
pub open spec fn viewed_embeddings(r: Result<Vec<Vec<Binary32>>, FaceIdError>) -> Result<
    Seq<Seq<Binary32>>,
    FaceIdErrorView,
> {
    match r {
        Ok(v) => Ok(v@.map_values(|e: Vec<Binary32>| e@)),
        Err(e) => Err(e@),
    }
}

/// What comes of handing a batch of images that fit to the model: for some
/// answer of the model to the tensor that holds them, the answer decoded.
pub open spec fn answered<F: FnOnce(Tensor4) -> Result<Option<ModelOutput>, FaceIdError>>(
    run: F,
    imgs: Seq<RgbImage>,
    result: Result<Seq<Seq<Binary32>>, FaceIdErrorView>,
) -> bool {
    exists|t: Tensor4, answer: Result<Option<ModelOutput>, FaceIdError>|
        #![trigger call_ensures(run, (t,), answer)]
        {
            &&& holds_images(t, imgs, INPUT_SIZE, centred_byte_value())
            &&& call_ensures(run, (t,), answer)
            &&& result == (match answer {
                Ok(output) => decoded(output, imgs.len()),
                Err(e) => Err(e@),
            })
        }
}

/// The products of two lists, added up.
fn dot(a: &[Binary32], b: &[Binary32]) -> (r: Binary32)
    requires
        a@.len() == b@.len(),
    ensures
        r == total(products(a@, b@)),
{
    let ghost all = products(a@, b@);
    let mut r = Binary32 { bits: NEG_ZERO_BITS };
    let mut i: usize = 0;
    while i < a.len()
        invariant
            i <= a.len(),
            a@.len() == b@.len(),
            all == products(a@, b@),
            r == total(all.take(i as int)),
        decreases a.len() - i,
    {
        r = r.plus(a[i].times(b[i]));
        proof {
            assert(all.take(i + 1).drop_last() =~= all.take(i as int));
            assert(all.take(i + 1).last() == all[i as int]);
        }
        i = i + 1;
    }
    assert(all.take(i as int) =~= all);
    r
}

fn is_all_finite(v: &[Binary32]) -> (r: bool)
    ensures
        r == all_finite(v@),
{
    let mut i: usize = 0;
    while i < v.len()
        invariant
            i <= v.len(),
            forall|k: int| 0 <= k < i ==> (#[trigger] v@[k]).finite(),
        decreases v.len() - i,
    {
        if !v[i].is_finite() {
            return false;
        }
        i = i + 1;
    }
    true
}

/// The embedding model.
pub struct ArcFaceEmbedder {
    pub session: ort::session::Session,
    pub input_name: String,
}

impl ArcFaceEmbedder {
    /// The embedder for a loaded model. The model has to have an input and an output.
    pub fn new(session: ort::session::Session) -> (r: Result<ArcFaceEmbedder, FaceIdError>)
        ensures
            match usable_input(session, "Embedder has no inputs"@, "Embedder has no outputs"@) {
                Ok(name) => r matches Ok(e) && e.session == session && e.input_name@ == name,
                Err(error) => r matches Err(e) && e@ == error,
            },
    {
        match input_name(&session, "Embedder has no inputs", "Embedder has no outputs") {
            Ok(input_name) => Ok(ArcFaceEmbedder { session, input_name }),
            Err(e) => Err(e),
        }
    }

    /// The model input for a batch of images, with the bytes moved into the
    /// range -1 to 1.
    pub fn create_input_tensor_batch(imgs: &[RgbImage]) -> (r: Result<Tensor4, FaceIdError>)
        requires
            imgs@.len() * 3 * 112 * 112 * 4 <= isize::MAX,
        ensures
            r is Ok <==> all_square(imgs@, INPUT_SIZE),
            r matches Ok(t) ==> holds_images(t, imgs@, INPUT_SIZE, centred_byte_value()),
            r matches Err(e) ==> exists|i: int| #[trigger] first_misfit(imgs@, INPUT_SIZE, i) && e@ == misfit_error(
                "ArcFace requires 112x112 input, got "@,
                imgs@[i],
            ),
    {
        let table = centred_byte_table();
        let no_slice = FaceIdError::Ort("Failed to get mutable slice".to_owned());
        let r = image_tensor(imgs, INPUT_SIZE, &table, "ArcFace requires 112x112 input, got ", no_slice);
        proof {
            if r is Ok {
                lemma_same_scale(r->Ok_0, imgs@, INPUT_SIZE, |b: u8| table@[b as int], centred_byte_value());
            }
        }
        r
    }

    /// The model input for one image.
    pub fn create_input_tensor(img: &RgbImage) -> (r: Result<Tensor4, FaceIdError>)
        ensures
            r is Ok <==> square(*img, INPUT_SIZE),
            r matches Ok(t) ==> holds_images(t, seq![*img], INPUT_SIZE, centred_byte_value()),
            r matches Err(e) ==> e@ == misfit_error("ArcFace requires 112x112 input, got "@, *img),
    {
        let imgs = std::slice::from_ref(img);
        let r = Self::create_input_tensor_batch(imgs);
        assert(imgs@[0] == *img);
        r
    }

    /// Reads the first output of the model for `batch_size` faces.
    pub fn decode(output: &Option<ModelOutput>, batch_size: usize) -> (r: Result<Vec<Vec<Binary32>>, FaceIdError>)
        ensures
            viewed_embeddings(r) == decoded(*output, batch_size as nat),
    {
        let first = match output {
            None => {
                return Err(invalid_model("Embedder produced no outputs"));
            },
            Some(o) => o,
        };
        let shape = first.shape();
        if shape.len() != 2 {
            return Err(FaceIdError::Shape("incompatible shapes".to_owned()));
        }
        let (rows, columns) = (shape[0], shape[1]);
        if rows != batch_size {
            return Err(
                FaceIdError::Ort(numbered_pair("Embedder batch size mismatch: expected ", batch_size, ", got ", rows)),
            );
        }
        if columns == 0 {
            return Err(invalid_model("Embedder produced empty embeddings"));
        }
        let data = first.data();
        if !is_all_finite(data) {
            return Err(invalid_model("Embedder produced non-finite values"));
        }
        proof {
            lemma_two_axes(shape@);
            assert(data@.len() == rows * columns);
        }
        let mut matrix = match Matrix::from_shape_vec(rows, columns, data) {
            Some(m) => m,
            None => {
                return Err(FaceIdError::Shape("incompatible shapes".to_owned()));
            },
        };
        let ghost raw = matrix;
        Self::l2_normalize_batch(&mut matrix);
        let mut results: Vec<Vec<Binary32>> = Vec::new();
        let mut i: usize = 0;
        while i < rows
            invariant
                i <= rows,
                rows == matrix.spec_nrows(),
                results@.len() == i,
                forall|k: int| 0 <= k < i ==> (#[trigger] results@[k])@ == matrix.row_at(k),
            decreases rows - i,
        {
            results.push(matrix.row_values(i));
            i = i + 1;
        }
        proof {
            assert forall|k: int| 0 <= k < rows implies (#[trigger] results@[k])@ == normalized(
                flat_row(first.spec_data(), columns as int, k),
            ) by {
                assert(matrix.row_at(k) == normalized(raw.row_at(k)));
            }
            assert(results@.map_values(|e: Vec<Binary32>| e@) =~= decoded(*output, batch_size as nat)->Ok_0);
        }
        Ok(results)
    }

    /// Computes the embeddings of aligned face images. `run` hands the tensor to
    /// the model and answers with its first output, if any. It is called only for
    /// images that fit, with a tensor that holds them.
    pub fn compute_embeddings_batch<F: FnOnce(Tensor4) -> Result<Option<ModelOutput>, FaceIdError>>(
        aligned_imgs: &[RgbImage],
        run: F,
    ) -> (r: Result<Vec<Vec<Binary32>>, FaceIdError>)
        requires
            aligned_imgs@.len() * 3 * 112 * 112 * 4 <= isize::MAX,
            aligned_imgs@.len() > 0 && all_square(aligned_imgs@, INPUT_SIZE) ==> (forall|t: Tensor4|
                holds_images(t, aligned_imgs@, INPUT_SIZE, centred_byte_value()) ==> #[trigger] call_requires(run, (t,))),
        ensures
            aligned_imgs@.len() == 0 ==> viewed_embeddings(r) == Ok::<Seq<Seq<Binary32>>, FaceIdErrorView>(Seq::empty()),
            aligned_imgs@.len() > 0 && all_square(aligned_imgs@, INPUT_SIZE) ==> answered(
                run,
                aligned_imgs@,
                viewed_embeddings(r),
            ),
            !all_square(aligned_imgs@, INPUT_SIZE) ==> (r matches Err(e) && exists|i: int| #[trigger]
                first_misfit(aligned_imgs@, INPUT_SIZE, i) && e@ == misfit_error(
                    "ArcFace requires 112x112 input, got "@,
                    aligned_imgs@[i],
                )),
    {
        if aligned_imgs.len() == 0 {
            let none: Vec<Vec<Binary32>> = Vec::new();
            assert(none@.map_values(|e: Vec<Binary32>| e@) =~= Seq::<Seq<Binary32>>::empty());
            return Ok(none);
        }
        let tensor = match Self::create_input_tensor_batch(aligned_imgs) {
            Ok(t) => t,
            Err(e) => {
                return Err(e);
            },
        };
        match run(tensor) {
            Ok(output) => Self::decode(&output, aligned_imgs.len()),
            Err(e) => Err(e),
        }
    }

    /// Computes the embedding of one aligned face image.
    pub fn compute_embedding<F: FnOnce(Tensor4) -> Result<Option<ModelOutput>, FaceIdError>>(
        aligned_img: &RgbImage,
        run: F,
    ) -> (r: Result<Vec<Binary32>, FaceIdError>)
        requires
            square(*aligned_img, INPUT_SIZE) ==> (forall|t: Tensor4|
                holds_images(t, seq![*aligned_img], INPUT_SIZE, centred_byte_value()) ==> #[trigger] call_requires(
                    run,
                    (t,),
                )),
        ensures
            !square(*aligned_img, INPUT_SIZE) ==> (r matches Err(e) && e@ == misfit_error(
                "ArcFace requires 112x112 input, got "@,
                *aligned_img,
            )),
            square(*aligned_img, INPUT_SIZE) ==> exists|result: Result<Seq<Seq<Binary32>>, FaceIdErrorView>|
                #[trigger] answered(run, seq![*aligned_img], result) && match result {
                    Ok(list) => list.len() == 1 && (r matches Ok(v) && v@ == list[0]),
                    Err(error) => r matches Err(e) && e@ == error,
                },
    {
        let imgs = std::slice::from_ref(aligned_img);
        assert(imgs@[0] == *aligned_img);
        let result = Self::compute_embeddings_batch(imgs, run);
        let ghost seen = viewed_embeddings(result);
        assert(square(*aligned_img, INPUT_SIZE) ==> answered(run, seq![*aligned_img], seen));
        match result {
            Ok(mut list) => {
                assert(seen->Ok_0.len() == list@.len());
                assert(seen->Ok_0[0] == list@[0]@);
                match list.pop() {
                    Some(v) => Ok(v),
                    None => Err(FaceIdError::Ort("Embedder failed to produce an embedding".to_owned())),
                }
            },
            Err(e) => Err(e),
        }
    }

    /// Scales every row of a matrix to length one.
    pub fn l2_normalize_batch(embeddings: &mut Matrix)
        ensures
            final(embeddings).spec_nrows() == old(embeddings).spec_nrows(),
            matrix_columns(*final(embeddings)) == matrix_columns(*old(embeddings)),
            forall|i: int|
                0 <= i < old(embeddings).spec_nrows() ==> #[trigger] final(embeddings).row_at(i) == normalized(
                    old(embeddings).row_at(i),
                ),
    {
        let rows: usize = embeddings.row_count();
        let mut i: usize = 0;
        while i < rows
            invariant
                i <= rows,
                rows == old(embeddings).spec_nrows(),
                embeddings.spec_nrows() == rows,
                matrix_columns(*embeddings) == matrix_columns(*old(embeddings)),
                forall|k: int| 0 <= k < i ==> #[trigger] embeddings.row_at(k) == normalized(old(embeddings).row_at(k)),
                forall|k: int| i <= k < rows ==> #[trigger] embeddings.row_at(k) == old(embeddings).row_at(k),
            decreases rows - i,
        {
            let mut row = embeddings.row_values(i);
            let ghost before = row@;
            Self::l2_normalize(row.as_mut_slice());
            embeddings.set_row(i, &row);
            i = i + 1;
        }
    }

    /// Scales a vector to length one.
    pub fn l2_normalize(vec: &mut [Binary32])
        ensures
            final(vec)@ == normalized(old(vec)@),
    {
        let length = dot(vec, vec).square_root();
        if (Binary32 { bits: TINY_NORM_BITS }).less_than(length) {
            let inv_norm = (Binary32 { bits: ONE_BITS }).over(length);
            let mut i: usize = 0;
            while i < vec.len()
                invariant
                    i <= vec@.len(),
                    vec@.len() == old(vec)@.len(),
                    forall|k: int| 0 <= k < i ==> #[trigger] vec@[k] == old(vec)@[k].product(inv_norm),
                    forall|k: int| i <= k < vec@.len() ==> #[trigger] vec@[k] == old(vec)@[k],
                decreases vec.len() - i,
            {
                vec[i] = vec[i].times(inv_norm);
                i = i + 1;
            }
            assert(vec@ =~= normalized(old(vec)@));
        }
    }

    /// The cosine similarity of two normalized embeddings, NaN where they cannot
    /// be compared.
    ///
    /// The range is -1 to 1; higher is more similar. What rounding adds beyond the
    /// range is taken off again; the sum for vectors that are not normalized stays
    /// as it is.
    #[must_use]
    pub fn compute_similarity(emb1: &[Binary32], emb2: &[Binary32]) -> (r: Binary32)
        ensures
            r == cosine(emb1@, emb2@),
    {
        match Self::try_compute_similarity(emb1, emb2) {
            Ok(s) => keep_in_range(s, emb1.len()),
            Err(_) => Binary32 { bits: NAN_BITS },
        }
    }

    /// The similarity of two normalized embeddings: of the same number of finite values.
    pub fn try_compute_similarity(emb1: &[Binary32], emb2: &[Binary32]) -> (r: Result<Binary32, FaceIdError>)
        ensures
            match similarity(emb1@, emb2@) {
                Ok(s) => r == Ok::<Binary32, FaceIdError>(s),
                Err(error) => r matches Err(e) && e@ == error,
            },
    {
        if emb1.len() == 0 || emb1.len() != emb2.len() {
            return Err(
                FaceIdError::InvalidModel(
                    numbered_pair(
                        "Embedding lengths must be equal and non-zero, got ",
                        emb1.len(),
                        " and ",
                        emb2.len(),
                    ),
                ),
            );
        }
        if !is_all_finite(emb1) || !is_all_finite(emb2) {
            return Err(invalid_model("Embeddings must contain only finite values"));
        }
        Ok(dot(emb1, emb2))
    }
}

/// There is one embedding for each face, and all have the same number of values.
pub proof fn law_one_embedding_per_face(output: Option<ModelOutput>, n: nat)
    requires
        output matches Some(o) ==> o.spec_data().len() == element_count(o.spec_shape()),
    ensures
        decoded(output, n) matches Ok(list) ==> {
            &&& list.len() == n
            &&& forall|i: int| 0 <= i < n ==> (#[trigger] list[i]).len() == output->0.spec_shape()[1]
            &&& output->0.spec_shape()[1] > 0
        },
{
    if decoded(output, n) is Ok {
        let (data, shape) = (output->0.spec_data(), output->0.spec_shape());
        let columns = shape[1] as int;
        lemma_two_axes(shape);
        assert forall|i: int| 0 <= i < n implies (#[trigger] decoded(output, n)->Ok_0[i]).len() == columns by {
            assert(0 <= i * columns <= (i + 1) * columns <= n * columns) by (nonlinear_arith)
                requires 0 <= i, i + 1 <= n, 0 <= columns;
            assert((i + 1) * columns == i * columns + columns) by (nonlinear_arith);
            law_normalizing_keeps_the_length(flat_row(data, columns, i));
        }
    }
}

/// Normalizing does not change how many values a vector has.
pub proof fn law_normalizing_keeps_the_length(v: Seq<Binary32>)
    ensures
        normalized(v).len() == v.len(),
{
}

/// A vector of zeros has no direction and stays as it is.
pub proof fn law_zeros_stay(v: Seq<Binary32>)
    requires
        forall|i: int| 0 <= i < v.len() ==> (#[trigger] v[i]).zero(),
    ensures
        normalized(v) == v,
{
    let squares = products(v, v);
    assert forall|i: int| 0 <= i < squares.len() implies (#[trigger] squares[i]).zero() by {
        assert(v[i].zero());
        lemma_square_of_zero(v[i]);
    }
    lemma_total_of_zeros(squares);
    reveal(Binary32::root);
    lemma_zero_units(norm(v));
}

proof fn lemma_zero_units(b: Binary32)
    requires
        b.zero(),
    ensures
        b.finite(),
        b.units() == 0,
{
    lemma2_to64();
}

proof fn lemma_square_of_zero(b: Binary32)
    requires
        b.zero(),
    ensures
        b.product(b).zero(),
{
    reveal(Binary32::product);
    lemma_zero_units(b);
    lemma_pow2_pos(149);
    law_rounding_keeps_exact_values(b, pow2(149));
    assert(0nat * pow2(149) == 0);
    assert(0nat * 0nat == 0) by (nonlinear_arith);
}

proof fn lemma_total_of_zeros(terms: Seq<Binary32>)
    requires
        forall|i: int| 0 <= i < terms.len() ==> (#[trigger] terms[i]).zero(),
    ensures
        total(terms).zero(),
    decreases terms.len(),
{
    if terms.len() > 0 {
        assert(terms.last() == terms[terms.len() - 1]);
        assert forall|i: int| 0 <= i < terms.len() - 1 implies (#[trigger] terms.drop_last()[i]).zero() by {
            assert(terms[i].zero());
        }
        lemma_total_of_zeros(terms.drop_last());
        lemma_zero_units(total(terms.drop_last()));
        lemma_zero_units(terms.last());
        reveal(Binary32::sum);
    }
}

/// It does not matter which of two embeddings comes first.
pub proof fn law_similarity_is_symmetric(a: Seq<Binary32>, b: Seq<Binary32>)
    ensures
        similarity(a, b) is Ok <==> similarity(b, a) is Ok,
        similarity(a, b) is Ok ==> similarity(a, b) == similarity(b, a),
{
    if a.len() == b.len() {
        assert forall|i: int| 0 <= i < a.len() implies #[trigger] products(a, b)[i] == products(b, a)[i] by {
            law_product_commutes(a[i], b[i]);
        }
        assert(products(a, b) =~= products(b, a));
    }
}

/// The vector that points the other way.
pub open spec fn negated(v: Seq<Binary32>) -> Seq<Binary32> {
    v.map_values(|b: Binary32| b.signed(!b.sign_bit()))
}

/// The two differ in nothing but the sign, or both are NaN. Zeros may have either sign.
spec fn opposite(a: Binary32, b: Binary32) -> bool {
    if a.nan() {
        b.nan()
    } else {
        a.magnitude() == b.magnitude() && (a.zero() || a.sign_bit() != b.sign_bit())
    }
}

proof fn lemma_opposite_product(a: Binary32, b: Binary32)
    requires
        a.finite(),
        b.finite(),
    ensures
        opposite(a.product(b), a.product(b.signed(!b.sign_bit()))),
{
    reveal(Binary32::product);
    let c = b.signed(!b.sign_bit());
    assert(c.magnitude() == b.magnitude());
    lemma_pow2_pos(149);
    let (n, d) = (a.abs_units() * b.abs_units(), pow2(149));
    lemma_rounded(n, d);
    let r = rounded(n, d);
    assert(r.signed(true).magnitude() == r.magnitude() && r.signed(false).magnitude() == r.magnitude());
}

proof fn lemma_opposite_units(a: Binary32, b: Binary32)
    requires
        opposite(a, b),
        !a.nan(),
    ensures
        b.units() == -a.units(),
        b.infinite() == a.infinite(),
        !b.nan(),
{
    if a.zero() {
        assert(a.abs_units() == 0 && b.abs_units() == 0);
    }
}

proof fn lemma_opposite_rounded(s: int, x: bool, y: bool)
    ensures
        opposite(signed_rounded(s, 1, x), signed_rounded(-s, 1, y)),
{
    let n: nat = if s < 0 {
        (-s) as nat
    } else {
        s as nat
    };
    lemma_rounded(n, 1);
    let r = rounded(n, 1);
    assert(r.signed(true).magnitude() == r.magnitude() && r.signed(false).magnitude() == r.magnitude());
}

proof fn lemma_opposite_sum(a: Binary32, b: Binary32, c: Binary32, d: Binary32)
    requires
        opposite(a, c),
        opposite(b, d),
    ensures
        opposite(a.sum(b), c.sum(d)),
{
    assert(a.nan() == c.nan() && b.nan() == d.nan());
    if a.nan() || b.nan() {
        assert(a.sum(b).nan() && c.sum(d).nan()) by {
            reveal(Binary32::sum);
        }
    } else {
        lemma_opposite_units(a, c);
        lemma_opposite_units(b, d);
        if a.infinite() || b.infinite() {
            reveal(Binary32::sum);
        } else {
            let s = a.units() + b.units();
            let (x, y) = (a.sign_bit() && b.sign_bit(), c.sign_bit() && d.sign_bit());
            assert(a.sum(b) == signed_rounded(s, 1, x) && c.sum(d) == signed_rounded(-s, 1, y)) by {
                reveal(Binary32::sum);
            }
            lemma_opposite_rounded(s, x, y);
        }
    }
}

proof fn lemma_opposite_total(a: Seq<Binary32>, b: Seq<Binary32>)
    requires
        all_finite(a),
        all_finite(b),
        a.len() == b.len(),
    ensures
        opposite(total(products(a, b)), total(products(a, negated(b)))),
    decreases a.len(),
{
    if a.len() > 0 {
        let n = a.len() - 1;
        let (p, q) = (products(a, b), products(a, negated(b)));
        let (front_a, front_b) = (a.drop_last(), b.drop_last());
        assert forall|i: int| 0 <= i < n implies (#[trigger] front_a[i]).finite() by {
            assert(a[i].finite());
        }
        assert forall|i: int| 0 <= i < n implies (#[trigger] front_b[i]).finite() by {
            assert(b[i].finite());
        }
        lemma_opposite_total(front_a, front_b);
        assert(p.drop_last() =~= products(front_a, front_b));
        assert(q.drop_last() =~= products(front_a, negated(front_b)));
        assert(a[n].finite() && b[n].finite());
        lemma_opposite_product(a[n], b[n]);
        lemma_opposite_sum(total(p.drop_last()), p.last(), total(q.drop_last()), q.last());
    }
}

/// Turning one of two embeddings round turns the sign of their similarity. A
/// similarity of zero stays zero, with either sign; one that is NaN stays NaN.
pub proof fn law_negating_flips_the_similarity(a: Seq<Binary32>, b: Seq<Binary32>)
    ensures
        similarity(a, negated(b)) is Ok <==> similarity(a, b) is Ok,
        similarity(a, b) is Ok ==> {
            let (s, t) = (similarity(a, b)->Ok_0, similarity(a, negated(b))->Ok_0);
            &&& s.nan() <==> t.nan()
            &&& !s.nan() ==> t.units() == -s.units()
            &&& !s.nan() && s.units() != 0 ==> t == s.signed(!s.sign_bit())
        },
{
    let c = negated(b);
    assert forall|i: int| 0 <= i < b.len() implies (#[trigger] b[i]).finite() == c[i].finite() by {
        assert(c[i].magnitude() == b[i].magnitude());
    }
    assert(all_finite(b) == all_finite(c)) by {
        if all_finite(c) {
            assert forall|i: int| 0 <= i < b.len() implies (#[trigger] b[i]).finite() by {
                assert(c[i].finite());
            }
        }
    }
    if similarity(a, b) is Ok {
        lemma_opposite_total(a, b);
        let (s, t) = (similarity(a, b)->Ok_0, similarity(a, c)->Ok_0);
        if s.zero() {
            assert(s.abs_units() == 0 && t.abs_units() == 0);
        }
    }
}

/// Why an answer of the model is refused, from the first reason to the last.
pub proof fn law_refused_embeddings(output: Option<ModelOutput>, n: nat)
    ensures
        output is None ==> decoded(output, n) == Err::<Seq<Seq<Binary32>>, FaceIdErrorView>(
            FaceIdErrorView::InvalidModel("Embedder produced no outputs"@),
        ),
        output matches Some(o) ==> {
            let (shape, r) = (o.spec_shape(), decoded(output, n));
            &&& shape.len() != 2 ==> r == Err::<Seq<Seq<Binary32>>, FaceIdErrorView>(
                FaceIdErrorView::Shape("incompatible shapes"@),
            )
            &&& shape.len() == 2 && shape[0] != n ==> r == Err::<Seq<Seq<Binary32>>, FaceIdErrorView>(
                FaceIdErrorView::Ort(
                    "Embedder batch size mismatch: expected "@ + decimal(n) + ", got "@ + decimal(shape[0] as nat),
                ),
            )
            &&& shape.len() == 2 && shape[0] == n && shape[1] == 0 ==> r == Err::<Seq<Seq<Binary32>>, FaceIdErrorView>(
                FaceIdErrorView::InvalidModel("Embedder produced empty embeddings"@),
            )
            &&& shape.len() == 2 && shape[0] == n && shape[1] > 0 && r is Err ==> r == Err::<
                Seq<Seq<Binary32>>,
                FaceIdErrorView,
            >(FaceIdErrorView::InvalidModel("Embedder produced non-finite values"@))
        },
{
}

/// Why two embeddings cannot be compared.
pub proof fn law_refused_comparisons(a: Seq<Binary32>, b: Seq<Binary32>)
    ensures
        a.len() == 0 || a.len() != b.len() ==> similarity(a, b) == Err::<Binary32, FaceIdErrorView>(
            FaceIdErrorView::InvalidModel(
                "Embedding lengths must be equal and non-zero, got "@ + decimal(a.len()) + " and "@ + decimal(b.len()),
            ),
        ),
        a.len() > 0 && a.len() == b.len() && similarity(a, b) is Err ==> similarity(a, b) == Err::<
            Binary32,
            FaceIdErrorView,
        >(FaceIdErrorView::InvalidModel("Embeddings must contain only finite values"@)),
{
}

/// The cosine is the similarity, but for what rounding adds beyond one: what is
/// within the range or clearly outside stays, and the sign always does. Where there
/// is no similarity the cosine is NaN.
pub proof fn law_cosine_is_the_similarity_in_range(a: Seq<Binary32>, b: Seq<Binary32>)
    ensures
        similarity(a, b) is Err ==> cosine(a, b).nan(),
        similarity(a, b) matches Ok(s) ==> {
            let (c, one, k) = (cosine(a, b), pow2(149), 0x1000_0000nat);
            &&& s.abs_units() <= one ==> c == s
            &&& c.sign_bit() == s.sign_bit()
            &&& c.abs_units() <= s.abs_units()
            &&& k * s.abs_units() <= k * c.abs_units() + rounding_slack(a.len()) * one
            &&& k * s.abs_units() > (k + rounding_slack(a.len())) * one ==> c == s
            &&& c != s ==> c.abs_units() == one
        },
{
    let one = Binary32 { bits: ONE_BITS };
    lemma2_to64();
    lemma_pow2_pos(149);
    assert(one.exponent() == 127 && one.fraction() == 0);
    lemma_pow2_adds(23, 126);
    assert(one.signed(true).magnitude() == one.magnitude() && one.signed(false).magnitude() == one.magnitude());
    assert(one.abs_units() == pow2(149));
    assert(one.signed(true).abs_units() == pow2(149) && one.signed(false).abs_units() == pow2(149));
    if let Ok(s) = similarity(a, b) {
        let (k, slack, unit) = (0x1000_0000nat, rounding_slack(a.len()), pow2(149));
        assert((k + slack) * unit == k * unit + slack * unit) by (nonlinear_arith);
        assert(slack * unit >= 0) by (nonlinear_arith)
            requires slack >= 0, unit >= 0;
    }
}

/// Normalizing divides a vector by the root of its similarity with itself, unless
/// that is next to nothing.
pub proof fn law_normalizing_divides_by_the_length(v: Seq<Binary32>, i: int)
    requires
        similarity(v, v) is Ok,
        0 <= i < v.len(),
    ensures
        ({
            let length = similarity(v, v)->Ok_0.root();
            &&& normalized(v).len() == v.len()
            &&& (Binary32 { bits: TINY_NORM_BITS }).below(length) ==> normalized(v)[i] == v[i].product(
                (Binary32 { bits: ONE_BITS }).quotient(length),
            )
            &&& !(Binary32 { bits: TINY_NORM_BITS }).below(length) ==> normalized(v)[i] == v[i]
        }),
{
}

/// The value of a list of embeddings has one for each, in order.
pub proof fn law_values_of_embeddings(r: Result<Vec<Vec<Binary32>>, FaceIdError>, i: int)
    ensures
        r matches Ok(v) ==> 0 <= i < v@.len() ==> {
            &&& viewed_embeddings(r) is Ok
            &&& viewed_embeddings(r)->Ok_0.len() == v@.len()
            &&& viewed_embeddings(r)->Ok_0[i] == v@[i]@
        },
        r matches Err(e) ==> viewed_embeddings(r) == Err::<Seq<Seq<Binary32>>, FaceIdErrorView>(e@),
{
}

} // verus!
