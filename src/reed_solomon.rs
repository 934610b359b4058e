//! A systematic Reed-Solomon erasure encoder over GF(2^8) with polynomial 0x1D.
use vstd::prelude::*;
use vstd::arithmetic::power2::lemma2_to64;
use crate::error::Error;
use crate::galois_field::{Gf2p, count_of, has_generator, lemma_add_inverse_identity};
use crate::matrix::{Matrix, field_dot, cauchy_x, cauchy_y, lemma_flatten_column};

verus! {

/// The polynomial of the erasure-code field, x^8 + x^4 + x^3 + x^2 + 1 (with x^8 implicit).
pub const ERASURE_CODE_POLYNOMIAL: u8 = 0x1D;

/// A field dot product with the `i`-th unit row picks out entry `i` of the other row, once
/// the prefix covers `i`.
pub proof fn lemma_dot_unit_row(gf: Gf2p, e: Seq<u8>, d: Seq<u8>, i: int, t: nat)
    requires
        gf.wf(),
        0 <= i,
        t <= e.len(),
        t <= d.len(),
        forall|j: int| 0 <= j < e.len() ==> #[trigger] e[j] == (if j == i { 1u8 } else { 0u8 }),
        forall|j: int| 0 <= j < d.len() ==> #[trigger] d[j] < gf.spec_count(),
    ensures
        field_dot(gf, e, d, t) == (if i < t { d[i] } else { 0u8 }),
    decreases t,
{
    if t > 0 {
        lemma_dot_unit_row(gf, e, d, i, (t - 1) as nat);
        let last = (t - 1) as int;
        lemma_add_inverse_identity(field_dot(gf, e, d, (t - 1) as nat));
        if last == i {
            gf.lemma_table_one_times(d[i]);
            lemma_add_inverse_identity(d[i]);
        }
    }
}

/// Reed-Solomon encoder: a generator matrix made of the identity over a Cauchy block.
pub struct ReedSolomon {
    gm: Matrix<u8>,
    gf: Gf2p,
}

impl ReedSolomon {
    /// The generator matrix.
    pub closed spec fn spec_generator(&self) -> Matrix<u8> {
        self.gm
    }

    /// The field the encoder computes in.
    pub closed spec fn spec_field(&self) -> Gf2p {
        self.gf
    }

    /// The number of data fragments.
    pub open spec fn data_num(&self) -> nat {
        self.spec_generator().spec_cols()
    }

    /// The number of parity fragments.
    pub open spec fn parity_num(&self) -> nat {
        (self.spec_generator().spec_rows() - self.spec_generator().spec_cols()) as nat
    }

    /// The field is GF(2^8) with the erasure-code polynomial; the generator has the identity
    /// on its first `data_num` rows and the Cauchy matrix of the field below them.
    pub open spec fn wf(&self) -> bool {
        let gm = self.spec_generator();
        let gf = self.spec_field();
        let k = self.data_num();
        &&& gf.wf()
        &&& gf.spec_w() == 8
        &&& gf.spec_poly() == ERASURE_CODE_POLYNOMIAL
        &&& gm.wf()
        &&& gm.spec_rows() >= k
        &&& gm.entries_below(gf.spec_count())
        &&& forall|i: int, j: int|
            0 <= i < k && 0 <= j < k ==> #[trigger] gm@[i][j] == (if i == j { 1u8 } else { 0u8 })
        &&& forall|i: int, j: int|
            0 <= i < self.parity_num() && 0 <= j < k ==> #[trigger] gm@[k + i][j] == gf.table_div(
                1,
                cauchy_x(i) ^ cauchy_y(self.parity_num() as int, j),
            )
    }

    /// The codeword of `data`: entry `i` is the field dot product of generator row `i` with
    /// the data.
    pub open spec fn codeword(&self, data: Seq<u8>) -> Seq<u8> {
        Seq::new(
            self.spec_generator().spec_rows(),
            |i: int| field_dot(self.spec_field(), self.spec_generator()@[i], data, self.data_num()),
        )
    }

    /// Builds the encoder for `data_num` data and `parity_num` parity fragments over
    /// GF(2^8, 0x1D). Fails with `ZeroSizeMatrix` when `data_num` is 0, and with
    /// `FieldCapacityExceeded` when the field has fewer than `data_num + parity_num` nonzero
    /// elements.
    pub fn new(data_num: u8, parity_num: u8) -> (r: Result<ReedSolomon, Error>)
        ensures
            !has_generator(8, ERASURE_CODE_POLYNOMIAL) ==> r == Err::<ReedSolomon, Error>(
                Error::NoGeneratorFound,
            ),
            has_generator(8, ERASURE_CODE_POLYNOMIAL) && data_num == 0 ==> r == Err::<
                ReedSolomon,
                Error,
            >(Error::ZeroSizeMatrix),
            has_generator(8, ERASURE_CODE_POLYNOMIAL) && data_num > 0 && data_num + parity_num >= 256
                ==> r == Err::<ReedSolomon, Error>(Error::FieldCapacityExceeded),
            has_generator(8, ERASURE_CODE_POLYNOMIAL) && data_num > 0 && data_num + parity_num < 256
                ==> r is Ok,
            r is Ok ==> {
                let rs = r->Ok_0;
                &&& rs.wf()
                &&& rs.data_num() == data_num
                &&& rs.parity_num() == parity_num
            },
    {
        proof {
            lemma2_to64();
            assert(count_of(8) == 256);
        }
        let gf = match Gf2p::new(8, ERASURE_CODE_POLYNOMIAL) {
            Ok(gf) => gf,
            Err(e) => return Err(e),
        };
        let im = match Matrix::new_identity_matrix(data_num as usize) {
            Ok(m) => m,
            Err(e) => return Err(e),
        };
        let cm = match Matrix::new_cauchy_matrix(&gf, parity_num as usize, data_num as usize) {
            Ok(m) => m,
            Err(e) => return Err(e),
        };
        let gm = match im.append_bottom(&cm) {
            Ok(m) => m,
            Err(e) => return Err(e),
        };
        let rs = ReedSolomon { gm, gf };
        assert(rs.spec_generator().entries_below(256)) by {
            assert forall|i: int, j: int|
                0 <= i < gm@.len() && 0 <= j < gm@[i].len() implies #[trigger] gm@[i][j] < 256 by {
                if i >= im@.len() {
                    assert(gm@[i] == cm@[i - im@.len()]);
                }
            }
        }
        assert forall|i: int, j: int|
            0 <= i < rs.parity_num() && 0 <= j < rs.data_num() implies #[trigger] gm@[rs.data_num() + i][j]
                == gf.table_div(1, cauchy_x(i) ^ cauchy_y(rs.parity_num() as int, j)) by {
            assert(gm@[rs.data_num() + i] == cm@[i]);
        }
        Ok(rs)
    }

    /// Encodes `data_num` bytes into `data_num + parity_num` bytes: the data itself followed
    /// by the parity. Fails with `SizeMismatch` when `data` has another length.
    pub fn encode(&self, data: Vec<u8>) -> (r: Result<Vec<u8>, Error>)
        requires
            self.wf(),
        ensures
            data@.len() != self.data_num() ==> r == Err::<Vec<u8>, Error>(Error::SizeMismatch),
            data@.len() == self.data_num() ==> r is Ok && {
                let out = r->Ok_0@;
                &&& out == self.codeword(data@)
                &&& out.len() == self.data_num() + self.parity_num()
                &&& out.take(self.data_num() as int) == data@
            },
    {
        if data.len() != self.gm.get_col_size() {
            return Err(Error::SizeMismatch);
        }
        let ghost d = data@;
        proof {
            lemma2_to64();
            assert(count_of(8) == 256);
        }
        // mul_gf contracts the column index of both operands, so the data column enters as
        // its transpose, a single row of `data_num` entries.
        let dm = Matrix::new_column_vector(data).transpose();
        assert(dm@[0] =~= d);
        let out = match self.gm.mul_gf(&dm, &self.gf) {
            Ok(m) => m,
            Err(e) => return Err(e),
        };
        let v = out.to_vector_u8();
        proof {
            let k = self.data_num();
            assert forall|i: int| 0 <= i < out@.len() implies #[trigger] out@[i].len() == 1 by {}
            lemma_flatten_column(out@);
            assert forall|i: int| 0 <= i < k implies #[trigger] v@[i] == d[i] by {
                assert(v@[i] == out@[i][0]);
                lemma_dot_unit_row(self.gf, self.gm@[i], d, i, k);
            }
            assert(v@ =~= self.codeword(d));
            assert(v@.take(k as int) =~= d);
        }
        Ok(v)
    }

    /// The generator matrix: the identity over the Cauchy block.
    pub fn generator_matrix(&self) -> (r: &Matrix<u8>)
        ensures
            *r == self.spec_generator(),
    {
        &self.gm
    }
}

/// Encoding is a function of the encoder and the data: two encodings of the same data by the
/// same encoder agree byte for byte.
pub proof fn lemma_encode_deterministic(rs: ReedSolomon, data: Seq<u8>, out1: Seq<u8>, out2: Seq<u8>)
    requires
        rs.wf(),
        data.len() == rs.data_num(),
        out1 == rs.codeword(data),
        out2 == rs.codeword(data),
    ensures
        out1 == out2,
{
}

} // verus!
