use vstd::prelude::*;

verus! {

/// Errors of the skyline core.
#[derive(Clone, Copy, Debug, PartialEq, Eq, Structural)]
pub enum SkylineError {
    /// The collection is malformed: the dimensionality is below two, or some
    /// point's coordinate count differs from the declared dimensionality.
    InvalidPointCollection,
    /// A parallel worker terminated abnormally; the whole computation fails
    /// rather than returning a partial mask.
    WorkerFailure,
}

/// An immutable collection of `n` points, each an ordered vector of `d`
/// integer coordinates.
#[derive(Debug)]
pub struct Points {
    /// The points, outer index is the point, inner index the dimension.
    pub p: Vec<Vec<i64>>,
    /// Number of points.
    pub n: usize,
    /// Dimensionality of every point.
    pub d: usize,
}

impl View for Points {
    type V = Seq<Seq<i64>>;

    open spec fn view(&self) -> Seq<Seq<i64>> {
        Seq::new(self.p@.len(), |i: int| self.p@[i]@)
    }
}

impl Points {
    /// Well-formedness: at least two dimensions, the recorded count matches,
    /// and every point has exactly `d` coordinates.
    pub open spec fn wf(&self) -> bool {
        &&& self.d >= 2
        &&& self.n == self@.len()
        &&& forall|i: int| 0 <= i < self@.len() ==> (#[trigger] self@[i]).len() == self.d
    }

    /// Whether raw data is acceptable for a collection of dimensionality `d`.
    pub open spec fn valid_data(p: Seq<Seq<i64>>, d: int) -> bool {
        &&& d >= 2
        &&& forall|i: int| 0 <= i < p.len() ==> (#[trigger] p[i]).len() == d
    }

    /// Build a collection after checking the invariants, rejecting malformed
    /// data rather than truncating or padding it.
    pub fn new(p: Vec<Vec<i64>>, d: usize) -> (r: Result<Points, SkylineError>)
        ensures
            match r {
                Ok(pts) => {
                    &&& Self::valid_data(pts@, d as int)
                    &&& pts.wf()
                    &&& pts.d == d
                    &&& pts.n == p@.len()
                    &&& pts@ == Seq::new(p@.len(), |i: int| p@[i]@)
                },
                Err(e) => {
                    &&& e == SkylineError::InvalidPointCollection
                    &&& !Self::valid_data(Seq::new(p@.len(), |i: int| p@[i]@), d as int)
                },
            },
    {
        if d < 2 {
            return Err(SkylineError::InvalidPointCollection);
        }
        let mut i: usize = 0;
        while i < p.len()
            invariant
                i <= p@.len(),
                forall|t: int| 0 <= t < i ==> (#[trigger] p@[t]@).len() == d,
            decreases p@.len() - i,
        {
            if p[i].len() != d {
                proof {
                    assert(Seq::new(p@.len(), |t: int| p@[t]@)[i as int].len() != d);
                }
                return Err(SkylineError::InvalidPointCollection);
            }
            i += 1;
        }
        let n: usize = p.len();
        let pts = Points { p, n, d };
        Ok(pts)
    }
}

} // verus!
