//! Circles in a layout that suits vector instructions.
use crate::scalar::{Scalar, ZERO_BITS};
use vstd::prelude::*;

verus! {

/// Number of lanes that the buffers are padded to.
pub const SOA_LANES: usize = 8;

/// A circle.
#[derive(Debug, Clone, Copy, PartialEq, Eq, Structural)]
pub struct Circle {
    /// Horizontal coordinate of the center.
    pub x: Scalar,
    /// Vertical coordinate of the center.
    pub y: Scalar,
    /// Radius.
    pub r: Scalar,
}

/// Circles as a structure of arrays: one buffer for each coordinate and one for the radius.
///
/// The buffers are always padded to a multiple of [`SOA_LANES`] with null circles, which have the
/// radius `0` and lie at the origin. Whatever is weighed with the radius gets nothing from them, so
/// that a loop may run over the full length.
#[derive(Debug, Clone)]
pub struct CirclesSoA {
    /// Horizontal coordinates of the centers.
    pub x: Vec<Scalar>,
    /// Vertical coordinates of the centers.
    pub y: Vec<Scalar>,
    /// Radii.
    pub r: Vec<Scalar>,
    /// Number of circles without the padding.
    pub n: usize,
}

/// The next multiple of the number of lanes.
pub open spec fn padded(n: nat) -> nat {
    ((n + SOA_LANES - 1) / (SOA_LANES as int) * SOA_LANES) as nat
}

/// A circle that counts for nothing.
pub open spec fn null_circle() -> Circle {
    Circle { x: Scalar { bits: ZERO_BITS }, y: Scalar { bits: ZERO_BITS }, r: Scalar { bits: ZERO_BITS } }
}

/// The circles, and null circles up to a full chunk.
pub open spec fn padded_circles(circles: Seq<Circle>) -> Seq<Circle> {
    Seq::new(
        padded(circles.len()),
        |i: int|
            if i < circles.len() {
                circles[i]
            } else {
                null_circle()
            },
    )
}

impl View for CirclesSoA {
    type V = Seq<Circle>;

    /// The circles, with the padding.
    open spec fn view(&self) -> Seq<Circle> {
        Seq::new(self.x@.len(), |i: int| Circle { x: self.x@[i], y: self.y@[i], r: self.r@[i] })
    }
}

impl CirclesSoA {
    /// All buffers have the padded length, and the padding consists of null circles.
    pub open spec fn wf(&self) -> bool {
        &&& self.x@.len() == padded(self.n as nat)
        &&& self.y@.len() == self.x@.len()
        &&& self.r@.len() == self.x@.len()
        &&& forall|i: int| self.n <= i < self@.len() ==> #[trigger] self@[i] == null_circle()
    }

    /// No circles.
    pub fn new() -> (s: CirclesSoA)
        ensures
            s.wf(),
            s.n == 0,
            s@ == Seq::<Circle>::empty(),
    {
        CirclesSoA { x: Vec::new(), y: Vec::new(), r: Vec::new(), n: 0 }
    }

    /// The given circles.
    pub fn from_circles(circles: &[Circle]) -> (s: CirclesSoA)
        ensures
            s.wf(),
            s.n == circles@.len(),
            s@ == padded_circles(circles@),
            s@.take(s.n as int) == circles@,
    {
        let mut soa = CirclesSoA::new();
        soa.load(circles);
        soa
    }

    /// Loads the circles into the buffers, in place of what they held, and hands the buffers back.
    pub fn load(&mut self, circles: &[Circle]) -> (r: &mut CirclesSoA)
        ensures
            r.wf(),
            r.n == circles@.len(),
            r@ == padded_circles(circles@),
            r@.take(circles@.len() as int) == circles@,
            *final(self) == *final(r),
    {
        let n: usize = circles.len();
        self.x.clear();
        self.y.clear();
        self.r.clear();
        let mut i: usize = 0;
        while i < n
            invariant
                i <= n,
                n == circles@.len(),
                self.x@.len() == i,
                self.y@.len() == i,
                self.r@.len() == i,
                forall|k: int| 0 <= k < i ==> (#[trigger] self@[k]) == circles@[k],
            decreases n - i,
        {
            let ghost before = self@;
            let c = circles[i];
            self.x.push(c.x);
            self.y.push(c.y);
            self.r.push(c.r);
            assert(self@ =~= before.push(c));
            i = i + 1;
        }
        let zero = Scalar { bits: ZERO_BITS };
        while self.x.len() % SOA_LANES != 0
            invariant
                n == circles@.len(),
                zero == (Scalar { bits: ZERO_BITS }),
                n <= self.x@.len() <= padded(n as nat),
                self.y@.len() == self.x@.len(),
                self.r@.len() == self.x@.len(),
                forall|k: int| 0 <= k < n ==> (#[trigger] self@[k]) == circles@[k],
                forall|k: int|
                    n <= k < self@.len() ==> (#[trigger] self@[k]) == null_circle(),
            decreases padded(n as nat) - self.x@.len(),
        {
            let ghost before = self@;
            self.x.push(zero);
            self.y.push(zero);
            self.r.push(zero);
            assert(self@ =~= before.push(null_circle()));
        }
        let ghost filled = self@;
        self.n = n;
        assert(self@ =~= filled);
        assert(self@ =~= padded_circles(circles@));
        assert(self@.take(n as int) =~= circles@);
        self
    }

    /// Length of the buffers, with the padding.
    pub fn padded_len(&self) -> (r: usize)
        requires
            self.wf(),
        ensures
            r == padded(self.n as nat),
            r == self@.len(),
    {
        self.x.len()
    }
}

impl Default for CirclesSoA {
    fn default() -> (s: CirclesSoA)
        ensures
            s.wf(),
            s.n == 0,
            s@ == Seq::<Circle>::empty(),
    {
        CirclesSoA::new()
    }
}

/// **Loading is the same as building anew**: buffers that hold the same circles are the same, with
/// the padding. So [`CirclesSoA::load`] leaves what [`CirclesSoA::from_circles`] builds, whatever the
/// buffers held before, and loading the same circles again changes nothing.
pub proof fn lemma_loading_is_building(a: CirclesSoA, b: CirclesSoA, circles: Seq<Circle>)
    requires
        a.wf(),
        b.wf(),
        a.n == circles.len(),
        b.n == circles.len(),
        a@.take(a.n as int) == circles,
        b@.take(b.n as int) == circles,
    ensures
        a@ == b@,
        a.n == b.n,
        a.x@ == b.x@,
        a.y@ == b.y@,
        a.r@ == b.r@,
{
    assert forall|i: int| 0 <= i < a@.len() implies a@[i] == b@[i] by {
        if i < a.n {
            assert(a@.take(a.n as int)[i] == a@[i]);
            assert(b@.take(b.n as int)[i] == b@[i]);
        }
    }
    assert(a@ =~= b@);
    assert forall|i: int| 0 <= i < a.x@.len() implies {
        a.x@[i] == b.x@[i] && a.y@[i] == b.y@[i] && a.r@[i] == b.r@[i]
    } by {
        assert(a@[i] == b@[i]);
    }
    assert(a.x@ =~= b.x@);
    assert(a.y@ =~= b.y@);
    assert(a.r@ =~= b.r@);
}

/// **The buffers are whole chunks**: the padded length is the smallest multiple of the number of
/// lanes that holds all circles, so less than a chunk of it is padding.
pub proof fn lemma_padding_is_short(n: nat)
    ensures
        padded(n) % (SOA_LANES as nat) == 0,
        n <= padded(n) < n + SOA_LANES,
{
}

/// **The padding counts for nothing**: a circle that is padding has no radius and lies at the origin.
pub proof fn lemma_padding_counts_for_nothing(s: CirclesSoA, i: int)
    requires
        s.wf(),
        s.n <= i < s@.len(),
    ensures
        !s@[i].r.nan() && s@[i].r.value() == 0,
        s@[i].x.value() == 0 && s@[i].y.value() == 0,
{
    assert(s@[i] == null_circle());
}

} // verus!
