use vstd::prelude::*;

verus! {

/// Whether every adjacent pair of points is non-decreasing in both coordinates.
pub open spec fn monotone(s: Seq<(u32, u32)>) -> bool {
    forall|i: int| 0 <= i < s.len() - 1 ==> #[trigger] ordered_pair(s, i)
}

/// The pair at `i` and `i + 1` is non-decreasing in input and in output.
pub open spec fn ordered_pair(s: Seq<(u32, u32)>, i: int) -> bool {
    s[i].0 <= s[i + 1].0 && s[i].1 <= s[i + 1].1
}

/// A usable curve: at least two points, non-decreasing in both coordinates.
pub open spec fn valid_curve(s: Seq<(u32, u32)>) -> bool {
    s.len() >= 2 && monotone(s)
}

/// Scans the bands `(s[j], s[j + 1])` for `j >= i`, in order, and yields the upper
/// anchor's output of the first band that holds `t`; zero when none does.
pub open spec fn band_output(s: Seq<(u32, u32)>, t: u32, i: int) -> u32
    decreases s.len() - i,
{
    if i < 0 || i + 1 >= s.len() {
        0
    } else if s[i].0 <= t && t <= s[i + 1].0 {
        s[i + 1].1
    } else {
        band_output(s, t, i + 1)
    }
}

/// The output that the step curve `s` assigns to reading `t`: clamped to the first
/// point below the range and to the last point above it, and in between the upper
/// anchor of the first band that contains the reading.
pub open spec fn lookup_spec(s: Seq<(u32, u32)>, t: u32) -> u32
    recommends
        s.len() >= 1,
{
    if t <= s[0].0 {
        s[0].1
    } else if t >= s.last().0 {
        s.last().1
    } else {
        band_output(s, t, 0)
    }
}

/// Looks up the target output for `temp` on the step curve `curve`.
pub fn get_target_speed(temp: u32, curve: &[(u32, u32)]) -> (r: u32)
    requires
        curve@.len() >= 1,
    ensures
        r == lookup_spec(curve@, temp),
{
    let n = curve.len();
    if temp <= curve[0].0 {
        return curve[0].1;
    }
    if temp >= curve[n - 1].0 {
        return curve[n - 1].1;
    }
    let mut i: usize = 0;
    while i + 1 < n
        invariant
            n == curve@.len(),
            i + 1 <= n,
            curve@[0].0 < temp < curve@[n - 1].0,
            band_output(curve@, temp, 0) == band_output(curve@, temp, i as int),
        decreases n - i,
    {
        let (low_input, _low_output) = curve[i];
        let (high_input, high_output) = curve[i + 1];
        if temp >= low_input && temp <= high_input {
            assert(band_output(curve@, temp, i as int) == high_output);
            return high_output;
        }
        i = i + 1;
    }
    0
}

/// On a valid curve, inputs never decrease from one anchor to a later one.
pub proof fn lemma_inputs_ordered(s: Seq<(u32, u32)>, a: int, b: int)
    requires
        valid_curve(s),
        0 <= a <= b < s.len(),
    ensures
        s[a].0 <= s[b].0,
    decreases b - a,
{
    if a < b {
        assert(ordered_pair(s, a));
        lemma_inputs_ordered(s, a + 1, b);
    }
}

/// When no band before `k` reaches up to `t`, the scan passes over them.
proof fn lemma_scan_skips(s: Seq<(u32, u32)>, t: u32, k: int)
    requires
        0 <= k < s.len(),
        forall|j: int| 0 <= j < k ==> #[trigger] s[j + 1].0 < t,
    ensures
        band_output(s, t, 0) == band_output(s, t, k),
    decreases k,
{
    if k > 0 {
        assert(s[k - 1 + 1].0 < t);
        lemma_scan_skips(s, t, k - 1);
    }
}

/// On a valid curve, a reading inside the range that lies in the band `(s[k], s[k + 1])`
/// and above every earlier anchor's input gets the output of `s[k + 1]`.
proof fn lemma_first_band(s: Seq<(u32, u32)>, t: u32, k: int)
    requires
        valid_curve(s),
        0 <= k < s.len() - 1,
        s[k].0 < t <= s[k + 1].0,
    ensures
        band_output(s, t, 0) == s[k + 1].1,
{
    assert forall|j: int| 0 <= j < k implies #[trigger] s[j + 1].0 < t by {
        lemma_inputs_ordered(s, j + 1, k);
    }
    lemma_scan_skips(s, t, k);
}

/// Below the range, or at its first input, a lookup gives the first anchor's output.
pub proof fn lemma_lookup_below(s: Seq<(u32, u32)>, t: u32)
    requires
        valid_curve(s),
        t <= s[0].0,
    ensures
        lookup_spec(s, t) == s[0].1,
{
}

/// At or above the last anchor's input, a lookup gives the last anchor's output.
/// The one reading left out is one equal to the first input, when every anchor has
/// that input: there the first anchor's output wins.
pub proof fn lemma_lookup_above(s: Seq<(u32, u32)>, t: u32)
    requires
        valid_curve(s),
        t >= s.last().0,
        t > s[0].0 || s[0].1 == s.last().1,
    ensures
        lookup_spec(s, t) == s.last().1,
{
}

/// A reading equal to an interior anchor's input gets that anchor's output, where the
/// anchor is the first with that input and its input is below the last anchor's.
pub proof fn lemma_lookup_at_anchor(s: Seq<(u32, u32)>, t: u32, k: int)
    requires
        valid_curve(s),
        0 < k < s.len() - 1,
        t == s[k].0,
        s[k - 1].0 < s[k].0,
        s[k].0 < s.last().0,
    ensures
        lookup_spec(s, t) == s[k].1,
{
    lemma_inputs_ordered(s, 0, k - 1);
    lemma_first_band(s, t, k - 1);
}

/// A reading strictly between two adjacent anchors' inputs gets the higher anchor's
/// output.
pub proof fn lemma_lookup_between(s: Seq<(u32, u32)>, t: u32, k: int)
    requires
        valid_curve(s),
        0 <= k < s.len() - 1,
        s[k].0 < t < s[k + 1].0,
    ensures
        lookup_spec(s, t) == s[k + 1].1,
{
    lemma_inputs_ordered(s, 0, k);
    lemma_inputs_ordered(s, k + 1, s.len() - 1);
    lemma_first_band(s, t, k);
}

proof fn lemma_scan_finds_band(s: Seq<(u32, u32)>, t: u32, i: int)
    requires
        0 <= i < s.len() - 1,
        s[i].0 < t < s.last().0,
    ensures
        exists|k: int| i < k < s.len() && band_output(s, t, i) == #[trigger] s[k].1,
    decreases s.len() - i,
{
    if s[i].0 <= t && t <= s[i + 1].0 {
        assert(band_output(s, t, i) == s[i + 1].1);
    } else {
        lemma_scan_finds_band(s, t, i + 1);
    }
}

/// On any non-empty table, valid or not, a lookup yields one of the anchors' outputs:
/// the scan always finds a band, so its zero fallback is never taken.
pub proof fn lemma_lookup_is_anchor_output(s: Seq<(u32, u32)>, t: u32)
    requires
        s.len() >= 1,
    ensures
        exists|k: int| 0 <= k < s.len() && lookup_spec(s, t) == #[trigger] s[k].1,
{
    if t <= s[0].0 {
        assert(lookup_spec(s, t) == s[0].1);
    } else if t >= s.last().0 {
        assert(lookup_spec(s, t) == s[s.len() - 1].1);
    } else {
        lemma_scan_finds_band(s, t, 0);
    }
}

/// Why a sequence of points was refused as a curve.
#[derive(Debug, Clone, Copy, PartialEq, Eq, Structural)]
pub enum CurveError {
    /// Fewer than two points were given.
    TooFewPoints,
    /// The point at `index + 1` has a smaller input than the point at `index`.
    DecreasingInput { index: usize },
    /// The point at `index + 1` has a smaller output than the point at `index`.
    DecreasingOutput { index: usize },
}

/// Every band before `k` is non-decreasing in both coordinates.
pub open spec fn ordered_before(s: Seq<(u32, u32)>, k: int) -> bool {
    forall|j: int| 0 <= j < k ==> #[trigger] ordered_pair(s, j)
}

/// A validated step curve: an ordered table of (input, output) anchors.
pub struct Curve {
    points: Vec<(u32, u32)>,
}

impl View for Curve {
    type V = Seq<(u32, u32)>;

    closed spec fn view(&self) -> Seq<(u32, u32)> {
        self.points@
    }
}

impl Curve {
    #[verifier::type_invariant]
    spec fn well_formed(self) -> bool {
        valid_curve(self.points@)
    }

    /// Builds a curve from anchors given in ascending order of input. The points are
    /// kept as given; the first adjacent pair that decreases is reported, its input
    /// checked before its output.
    pub fn new(points: Vec<(u32, u32)>) -> (r: Result<Curve, CurveError>)
        ensures
            r is Ok <==> valid_curve(points@),
            r matches Ok(c) ==> c@ == points@,
            r == Err::<Curve, CurveError>(CurveError::TooFewPoints) <==> points@.len() < 2,
            r matches Err(CurveError::DecreasingInput { index }) ==> {
                &&& points@.len() >= 2
                &&& index + 1 < points@.len()
                &&& ordered_before(points@, index as int)
                &&& points@[index as int].0 > points@[index + 1].0
            },
            r matches Err(CurveError::DecreasingOutput { index }) ==> {
                &&& points@.len() >= 2
                &&& index + 1 < points@.len()
                &&& ordered_before(points@, index as int)
                &&& points@[index as int].0 <= points@[index + 1].0
                &&& points@[index as int].1 > points@[index + 1].1
            },
    {
        let n = points.len();
        if n < 2 {
            return Err(CurveError::TooFewPoints);
        }
        let mut i: usize = 0;
        while i + 1 < n
            invariant
                n == points@.len(),
                n >= 2,
                i + 1 <= n,
                ordered_before(points@, i as int),
            decreases n - i,
        {
            if points[i].0 > points[i + 1].0 {
                assert(!ordered_pair(points@, i as int));
                return Err(CurveError::DecreasingInput { index: i });
            }
            if points[i].1 > points[i + 1].1 {
                assert(!ordered_pair(points@, i as int));
                return Err(CurveError::DecreasingOutput { index: i });
            }
            i = i + 1;
        }
        Ok(Curve { points })
    }

    /// The target output for `reading`.
    pub fn lookup(&self, reading: u32) -> (r: u32)
        ensures
            r == lookup_spec(self@, reading),
    {
        proof {
            use_type_invariant(self);
        }
        get_target_speed(reading, self.points.as_slice())
    }

    /// The anchors of this curve, in order.
    pub fn points(&self) -> (r: &[(u32, u32)])
        ensures
            r@ == self@,
            valid_curve(r@),
    {
        proof {
            use_type_invariant(self);
        }
        self.points.as_slice()
    }

    /// The number of anchors.
    pub fn len(&self) -> (r: usize)
        ensures
            r == self@.len(),
            r >= 2,
    {
        proof {
            use_type_invariant(self);
        }
        self.points.len()
    }
}

} // verus!
