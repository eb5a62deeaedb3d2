use vstd::prelude::*;

verus! {

/// How the planet's surface is coloured.
#[derive(Debug, Clone, Copy, PartialEq, Eq, Hash, Structural)]
pub enum ColorMode {
    Real,
    Normal,
    Inclination,
    Altitude,
}

impl ColorMode {
    /// The mode that follows `self` in the cycle Real, Normal, Inclination,
    /// Altitude, Real.
    pub open spec fn next_spec(self) -> ColorMode {
        match self {
            ColorMode::Real => ColorMode::Normal,
            ColorMode::Normal => ColorMode::Inclination,
            ColorMode::Inclination => ColorMode::Altitude,
            ColorMode::Altitude => ColorMode::Real,
        }
    }

    pub open spec fn code_spec(self) -> u32 {
        match self {
            ColorMode::Real => 0,
            ColorMode::Normal => 1,
            ColorMode::Inclination => 2,
            ColorMode::Altitude => 3,
        }
    }

    /// Every mode but `Real` is drawn by the planet's own material.
    pub fn is_custom(&self) -> (r: bool)
        ensures
            r == (*self != ColorMode::Real),
    {
        match self {
            ColorMode::Real => false,
            _ => true,
        }
    }

    /// Moves to the next mode and returns it.
    pub fn cycle(&mut self) -> (r: ColorMode)
        ensures
            *final(self) == old(self).next_spec(),
            r == *final(self),
    {
        *self = match self {
            ColorMode::Real => ColorMode::Normal,
            ColorMode::Normal => ColorMode::Inclination,
            ColorMode::Inclination => ColorMode::Altitude,
            ColorMode::Altitude => ColorMode::Real,
        };
        *self
    }

    /// The number that the material's shader reads for this mode.
    pub fn code(&self) -> (r: u32)
        ensures
            r == self.code_spec(),
    {
        match self {
            ColorMode::Real => 0,
            ColorMode::Normal => 1,
            ColorMode::Inclination => 2,
            ColorMode::Altitude => 3,
        }
    }
}

} // verus!
