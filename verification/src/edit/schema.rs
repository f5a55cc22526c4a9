use vstd::prelude::*;

verus! {

/// The curve of a fade.
#[derive(Clone, Copy, Debug, PartialEq, Eq, Structural)]
pub enum FadeShape {
    Linear,
    SCurve,
    Exponential,
}

/// The code of a fade shape.
pub open spec fn fade_code(s: FadeShape) -> u8 {
    match s {
        FadeShape::Linear => 0,
        FadeShape::SCurve => 1,
        FadeShape::Exponential => 2,
    }
}

impl FadeShape {
    /// The shape coded `code`: 0 linear, 1 S-curve, 2 exponential; none for other codes.
    pub fn from_code(code: u8) -> (r: Option<Self>)
        ensures
            code <= 2 ==> r is Some && fade_code(r->Some_0) == code,
            code > 2 ==> r is None,
    {
        match code {
            0 => Some(FadeShape::Linear),
            1 => Some(FadeShape::SCurve),
            2 => Some(FadeShape::Exponential),
            _ => None,
        }
    }
}

/// Reading a shape's code gives the shape back.
pub proof fn lemma_fade_code_roundtrip(s: FadeShape)
    ensures
        fade_code(s) <= 2,
        forall|t: FadeShape| fade_code(t) == fade_code(s) ==> t == s,
{
}

/// A region of samples `start_sample .. end_sample` that is silenced.
#[derive(Clone, Copy, Debug, PartialEq, Eq, Structural)]
pub struct MuteRegion {
    pub start_sample: u64,
    pub end_sample: u64,
}

/// A fade in or out over samples `start_sample .. end_sample`.
#[derive(Clone, Copy, Debug, PartialEq, Eq, Structural)]
pub struct Fade {
    pub start_sample: u64,
    pub end_sample: u64,
    pub shape: FadeShape,
    pub is_fade_in: bool,
}

/// A gain multiplier that holds from `sample_offset` on, kept as the bits of the 32-bit
/// float it is.
#[derive(Clone, Copy, Debug, PartialEq, Eq, Structural)]
pub struct GainPoint {
    pub sample_offset: u64,
    pub gain_bits: u32,
}

/// The edits of one track: silenced regions, fades and gain points.
#[derive(Clone, Debug)]
pub struct TrackEdits {
    pub mutes: Vec<MuteRegion>,
    pub fades: Vec<Fade>,
    pub gain_points: Vec<GainPoint>,
}

/// A track's edits as plain values.
pub struct TrackEditsSpec {
    pub mutes: Seq<MuteRegion>,
    pub fades: Seq<Fade>,
    pub gain_points: Seq<GainPoint>,
}

impl View for TrackEdits {
    type V = TrackEditsSpec;

    open spec fn view(&self) -> TrackEditsSpec {
        TrackEditsSpec { mutes: self.mutes@, fades: self.fades@, gain_points: self.gain_points@ }
    }
}

impl TrackEdits {
    /// No edits.
    pub fn new() -> (r: Self)
        ensures
            r@.mutes.len() == 0,
            r@.fades.len() == 0,
            r@.gain_points.len() == 0,
    {
        TrackEdits { mutes: Vec::new(), fades: Vec::new(), gain_points: Vec::new() }
    }
}

} // verus!
