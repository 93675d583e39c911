//! The classifier model and its validity invariant.

use vstd::prelude::*;
use crate::num::finite_bits;
use crate::text::well_formed_token;

verus! {

/// The ways loading or using a model can fail.  Every operation of the
/// engine either returns a value meeting its contract or one of these;
/// nothing is silently substituted.
#[derive(Debug, Clone, Copy, PartialEq, Eq, Structural)]
pub enum ModelError {
    /// The persisted bytes cannot be parsed into the expected layout:
    /// wrong token count, a non-numeric token, truncated data, or an
    /// ill-formed or repeated class label.
    MalformedModel,
    /// The coefficient matrix, the intercept vector and the class labels
    /// disagree on the number of classes.
    ShapeMismatch,
    /// A loaded parameter is NaN or infinite.
    InvalidValue,
    /// A feature vector's length differs from the model's feature count.
    DimensionMismatch,
    /// A logit vector with no classes at all.
    DegenerateInput,
}

/// The immutable model: one weight row and one intercept per class, and an
/// ordered list of distinct class labels aligned with them.  All numbers
/// are bit patterns of finite IEEE doubles.
#[derive(Debug)]
pub struct Model {
    pub labels: Vec<Vec<u8>>,
    pub coefficients: Vec<Vec<u64>>,
    pub intercept: Vec<u64>,
}

/// At least one label, each a nonempty byte string free of blanks and
/// newlines, all pairwise distinct.
pub open spec fn labels_ok(ls: Seq<Vec<u8>>) -> bool {
    &&& ls.len() >= 1
    &&& forall|i: int| 0 <= i < ls.len() ==> well_formed_token((#[trigger] ls[i])@)
    &&& forall|i: int, j: int| 0 <= i < j < ls.len() ==> ls[i]@ != ls[j]@
}

/// Every entry of the row is the bit pattern of a finite double.
pub open spec fn finite_row(r: Seq<u64>) -> bool {
    forall|i: int| 0 <= i < r.len() ==> finite_bits(#[trigger] r[i])
}

/// A matrix with at least one column whose rows all share the width of the
/// first.
pub open spec fn rectangular(m: Seq<Vec<u64>>) -> bool {
    &&& m.len() >= 1
    &&& m[0]@.len() >= 1
    &&& forall|i: int| 0 <= i < m.len() ==> (#[trigger] m[i])@.len() == m[0]@.len()
}

/// Every entry of the matrix is finite.
pub open spec fn finite_matrix(m: Seq<Vec<u64>>) -> bool {
    forall|i: int| 0 <= i < m.len() ==> finite_row((#[trigger] m[i])@)
}

impl Model {
    /// The number of classes.
    pub open spec fn k(self) -> int {
        self.labels@.len() as int
    }

    /// The number of features.
    pub open spec fn d(self) -> int {
        if self.coefficients@.len() == 0 {
            0
        } else {
            self.coefficients@[0]@.len() as int
        }
    }

    /// The model invariant: at least one class and one feature, aligned
    /// shapes, distinct well-formed labels, and only finite parameters.
    pub open spec fn wf(self) -> bool {
        &&& labels_ok(self.labels@)
        &&& self.coefficients@.len() == self.k()
        &&& self.intercept@.len() == self.k()
        &&& rectangular(self.coefficients@)
        &&& finite_matrix(self.coefficients@)
        &&& finite_row(self.intercept@)
    }

    /// The number of classes, `K`.
    pub fn class_count(&self) -> (r: usize)
        ensures
            r == self.k(),
    {
        self.labels.len()
    }

    /// The number of features, `D`.
    pub fn feature_count(&self) -> (r: usize)
        requires
            self.wf(),
        ensures
            r == self.d(),
    {
        self.coefficients[0].len()
    }

    /// What a direct construction from parts must reject, in order of
    /// precedence: ill-formed or repeated labels, then disagreeing class
    /// counts, then a ragged or empty coefficient matrix, then non-finite
    /// entries.
    pub open spec fn construction_error(
        ls: Seq<Vec<u8>>,
        cs: Seq<Vec<u64>>,
        ic: Seq<u64>,
    ) -> Option<ModelError> {
        if !labels_ok(ls) {
            Some(ModelError::MalformedModel)
        } else if cs.len() != ls.len() || ic.len() != ls.len() {
            Some(ModelError::ShapeMismatch)
        } else if !rectangular(cs) {
            Some(ModelError::MalformedModel)
        } else if !finite_matrix(cs) || !finite_row(ic) {
            Some(ModelError::InvalidValue)
        } else {
            None
        }
    }

    /// Builds a model from its parts, establishing the invariant, or
    /// reports exactly why the parts are invalid.
    pub fn new(labels: Vec<Vec<u8>>, coefficients: Vec<Vec<u64>>, intercept: Vec<u64>) -> (r:
        Result<Model, ModelError>)
        ensures
            match r {
                Ok(m) => {
                    &&& Self::construction_error(labels@, coefficients@, intercept@) is None
                    &&& m.wf()
                    &&& m.labels == labels
                    &&& m.coefficients == coefficients
                    &&& m.intercept == intercept
                },
                Err(e) => Self::construction_error(labels@, coefficients@, intercept@)
                    == Some(e),
            },
    {
        if !labels_well_formed(&labels) {
            return Err(ModelError::MalformedModel);
        }
        if coefficients.len() != labels.len() || intercept.len() != labels.len() {
            return Err(ModelError::ShapeMismatch);
        }
        if !matrix_rectangular(&coefficients) {
            return Err(ModelError::MalformedModel);
        }
        if !matrix_finite(&coefficients) || !row_finite(&intercept) {
            return Err(ModelError::InvalidValue);
        }
        Ok(Model { labels, coefficients, intercept })
    }
}

/// Byte-string equality.
pub fn bytes_eq(a: &Vec<u8>, b: &Vec<u8>) -> (r: bool)
    ensures
        r == (a@ == b@),
{
    if a.len() != b.len() {
        proof {
            assert(a@.len() != b@.len());
        }
        return false;
    }
    let mut i: usize = 0;
    while i < a.len()
        invariant
            i <= a@.len() == b@.len(),
            forall|j: int| 0 <= j < i ==> a@[j] == b@[j],
        decreases a@.len() - i,
    {
        if a[i] != b[i] {
            return false;
        }
        i = i + 1;
    }
    proof {
        assert(a@ =~= b@);
    }
    true
}

/// Decides `labels_ok`: at least one label, each a nonempty whitespace-free
/// byte string, all pairwise distinct.
pub fn labels_well_formed(labels: &Vec<Vec<u8>>) -> (r: bool)
    ensures
        r == labels_ok(labels@),
{
    if labels.len() < 1 {
        return false;
    }
    let mut i: usize = 0;
    while i < labels.len()
        invariant
            i <= labels@.len(),
            forall|j: int| 0 <= j < i ==> well_formed_token((#[trigger] labels@[j])@),
        decreases labels@.len() - i,
    {
        if !token_shaped(&labels[i]) {
            return false;
        }
        i = i + 1;
    }
    let mut a: usize = 0;
    while a < labels.len()
        invariant
            a <= labels@.len(),
            forall|j: int| 0 <= j < labels@.len() ==> well_formed_token((#[trigger] labels@[j])@),
            forall|x: int, y: int| 0 <= x < y < labels@.len() && x < a ==> labels@[x]@
                != labels@[y]@,
        decreases labels@.len() - a,
    {
        let mut b: usize = a + 1;
        while b < labels.len()
            invariant
                a < b <= labels@.len() || b == a + 1,
                a < labels@.len(),
                forall|y: int| a < y < b ==> labels@[a as int]@ != labels@[y]@,
            decreases labels@.len() - b,
        {
            if bytes_eq(&labels[a], &labels[b]) {
                return false;
            }
            b = b + 1;
        }
        a = a + 1;
    }
    true
}

/// A nonempty byte string free of blanks and newlines.
pub fn token_shaped(t: &Vec<u8>) -> (r: bool)
    ensures
        r == well_formed_token(t@),
{
    if t.len() < 1 {
        return false;
    }
    let mut i: usize = 0;
    while i < t.len()
        invariant
            i <= t@.len(),
            forall|j: int| 0 <= j < i ==> crate::text::token_byte(t@[j]),
        decreases t@.len() - i,
    {
        if crate::text::is_blank_byte(t[i]) || t[i] == crate::text::NEWLINE {
            return false;
        }
        i = i + 1;
    }
    true
}

/// Decides `rectangular`.
pub fn matrix_rectangular(m: &Vec<Vec<u64>>) -> (r: bool)
    requires
        m@.len() >= 1,
    ensures
        r == rectangular(m@),
{
    let width = m[0].len();
    if width < 1 {
        return false;
    }
    let mut i: usize = 0;
    while i < m.len()
        invariant
            i <= m@.len(),
            0 < m@.len(),
            width == m@[0]@.len(),
            forall|j: int| 0 <= j < i ==> (#[trigger] m@[j])@.len() == width,
        decreases m@.len() - i,
    {
        if m[i].len() != width {
            return false;
        }
        i = i + 1;
    }
    true
}

/// Decides `finite_row`.
pub fn row_finite(r: &Vec<u64>) -> (ok: bool)
    ensures
        ok == finite_row(r@),
{
    let mut i: usize = 0;
    while i < r.len()
        invariant
            i <= r@.len(),
            forall|j: int| 0 <= j < i ==> finite_bits(#[trigger] r@[j]),
        decreases r@.len() - i,
    {
        if !crate::num::is_finite(r[i]) {
            return false;
        }
        i = i + 1;
    }
    true
}

/// Decides `finite_matrix`.
pub fn matrix_finite(m: &Vec<Vec<u64>>) -> (ok: bool)
    ensures
        ok == finite_matrix(m@),
{
    let mut i: usize = 0;
    while i < m.len()
        invariant
            i <= m@.len(),
            forall|j: int| 0 <= j < i ==> finite_row((#[trigger] m@[j])@),
        decreases m@.len() - i,
    {
        if !row_finite(&m[i]) {
            return false;
        }
        i = i + 1;
    }
    true
}

} // verus!
