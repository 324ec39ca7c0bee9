use vstd::prelude::*;

verus! {

/// Device parameters persisted between runs and loaded into the corresponding
/// property cells at startup. Reading the file and parsing it live with the
/// configuration collaborator outside the library; this is the parsed result.
#[derive(Copy, Clone, PartialEq, Eq, Structural, Debug)]
pub struct Config {
    pub exposure_time_us: u32,
    pub exposure_gain_pct: u16,
    pub color_temperature_k: u32,
    pub tint: u32,
}

impl Config {
    pub fn new(exposure_time_us: u32, exposure_gain_pct: u16, color_temperature_k: u32, tint: u32) -> (r:
        Config)
        ensures
            r == (Config { exposure_time_us, exposure_gain_pct, color_temperature_k, tint }),
    {
        Config { exposure_time_us, exposure_gain_pct, color_temperature_k, tint }
    }

    pub fn exposure_time_us(&self) -> (r: u32)
        ensures
            r == self.exposure_time_us,
    {
        self.exposure_time_us
    }

    pub fn exposure_gain_pct(&self) -> (r: u16)
        ensures
            r == self.exposure_gain_pct,
    {
        self.exposure_gain_pct
    }

    pub fn color_temperature_k(&self) -> (r: u32)
        ensures
            r == self.color_temperature_k,
    {
        self.color_temperature_k
    }

    pub fn tint(&self) -> (r: u32)
        ensures
            r == self.tint,
    {
        self.tint
    }
}

impl Default for Config {
    /// A configuration with every parameter zero, used when no stored file
    /// exists; the worker's own startup values take over in that case.
    fn default() -> (r: Config)
        ensures
            r == (Config { exposure_time_us: 0, exposure_gain_pct: 0, color_temperature_k: 0, tint: 0 }),
    {
        Config { exposure_time_us: 0, exposure_gain_pct: 0, color_temperature_k: 0, tint: 0 }
    }
}

} // verus!
