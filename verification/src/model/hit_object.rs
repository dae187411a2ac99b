use rosu_map::section::hit_objects::PathControlPoint;
use vstd::prelude::*;

verus! {

/// A control vertex of a slider path, as `rosu_map` defines it. Vertices are
/// handed on and never looked into.
#[verifier::external_type_specification]
#[verifier::external_body]
pub struct ExPathControlPoint(rosu_map::section::hit_objects::PathControlPoint);

/// Why a slider cannot be made.
#[derive(Copy, Clone, Debug, PartialEq, Eq, Structural)]
pub enum SliderError {
    /// The path has no control vertex.
    NoControlPoints,
}

/// A slider: a path given by its control vertices, run through `span_count`
/// times. Every slider has at least one control vertex.
pub struct Slider {
    control_points: Vec<PathControlPoint>,
    span_count: usize,
}

impl Slider {
    #[verifier::type_invariant]
    spec fn has_control_points(self) -> bool {
        self.control_points@.len() > 0
    }

    /// The control vertices, in the order of the path.
    pub closed spec fn spec_control_points(self) -> Seq<PathControlPoint> {
        self.control_points@
    }

    /// How often the path is run through.
    pub closed spec fn spec_span_count(self) -> usize {
        self.span_count
    }

    /// Makes a slider, unless `control_points` is empty.
    pub fn new(control_points: Vec<PathControlPoint>, span_count: usize) -> (res: Result<
        Self,
        SliderError,
    >)
        ensures
            control_points@.len() == 0 <==> res == Err::<Self, SliderError>(
                SliderError::NoControlPoints,
            ),
            control_points@.len() > 0 ==> res is Ok && res->Ok_0.spec_control_points()
                == control_points@ && res->Ok_0.spec_span_count() == span_count,
    {
        if control_points.len() == 0 {
            Err(SliderError::NoControlPoints)
        } else {
            Ok(Slider { control_points, span_count })
        }
    }

    /// The control vertices, in the order of the path; there is at least one.
    pub fn control_points(&self) -> (points: &[PathControlPoint])
        ensures
            points@ == self.spec_control_points(),
            points@.len() > 0,
    {
        proof {
            use_type_invariant(self);
        }
        self.control_points.as_slice()
    }

    /// How often the path is run through.
    pub fn span_count(&self) -> (count: usize)
        ensures
            count == self.spec_span_count(),
    {
        self.span_count
    }
}

} // verus!
