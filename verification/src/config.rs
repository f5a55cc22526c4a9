use vstd::prelude::*;

verus! {

/// How hard the encoder searches for joint stereo.
#[derive(Debug, Clone, Copy, PartialEq, Eq, Structural)]
pub enum StereoSearch {
    Off,
    Loose,
    Full,
}

/// How the encoder picks Rice parameters when estimating costs.
#[derive(Debug, Clone, Copy, PartialEq, Eq, Structural)]
pub enum RiceSearch {
    Estimate,
    Limited(u32),
    Exhaustive,
}

/// The nine compression levels, 0 (fastest) to 8 (smallest).
#[derive(Debug, Clone, Copy, PartialEq, Eq, Structural)]
pub enum CompressionLevel {
    Fast,
    FastPlus,
    Balanced,
    BalancedPlus,
    High,
    HighPlus,
    Insane,
    InsanePlus,
    Maximum,
}

/// The number of a level.
pub open spec fn level_number(l: CompressionLevel) -> u8 {
    match l {
        CompressionLevel::Fast => 0,
        CompressionLevel::FastPlus => 1,
        CompressionLevel::Balanced => 2,
        CompressionLevel::BalancedPlus => 3,
        CompressionLevel::High => 4,
        CompressionLevel::HighPlus => 5,
        CompressionLevel::Insane => 6,
        CompressionLevel::InsanePlus => 7,
        CompressionLevel::Maximum => 8,
    }
}

/// The highest LPC order a level searches.
pub open spec fn max_lpc_spec(l: CompressionLevel) -> nat {
    if level_number(l) <= 1 {
        0
    } else if level_number(l) == 2 {
        6
    } else if level_number(l) == 3 {
        8
    } else if level_number(l) == 4 {
        12
    } else {
        32
    }
}

/// The highest Rice partition order a level searches.
pub open spec fn max_porder_spec(l: CompressionLevel) -> nat {
    if level_number(l) <= 1 {
        3
    } else if level_number(l) == 2 {
        4
    } else if level_number(l) == 3 {
        5
    } else {
        6
    }
}

/// How a level picks Rice parameters.
pub open spec fn rice_search_spec(l: CompressionLevel) -> RiceSearch {
    if level_number(l) <= 1 {
        RiceSearch::Estimate
    } else if level_number(l) <= 3 {
        RiceSearch::Limited(2)
    } else {
        RiceSearch::Exhaustive
    }
}

impl CompressionLevel {
    /// The level numbered `level`; numbers above 8 mean the maximum level.
    pub fn from_int(level: u8) -> (r: Self)
        ensures
            level_number(r) == (if level <= 8 {
                level
            } else {
                8
            }),
    {
        match level {
            0 => CompressionLevel::Fast,
            1 => CompressionLevel::FastPlus,
            2 => CompressionLevel::Balanced,
            3 => CompressionLevel::BalancedPlus,
            4 => CompressionLevel::High,
            5 => CompressionLevel::HighPlus,
            6 => CompressionLevel::Insane,
            7 => CompressionLevel::InsanePlus,
            _ => CompressionLevel::Maximum,
        }
    }

    pub fn to_int(&self) -> (r: u8)
        ensures
            r == level_number(*self),
    {
        match self {
            CompressionLevel::Fast => 0,
            CompressionLevel::FastPlus => 1,
            CompressionLevel::Balanced => 2,
            CompressionLevel::BalancedPlus => 3,
            CompressionLevel::High => 4,
            CompressionLevel::HighPlus => 5,
            CompressionLevel::Insane => 6,
            CompressionLevel::InsanePlus => 7,
            CompressionLevel::Maximum => 8,
        }
    }

    /// The highest LPC order searched: none below level 2, then 6, 8, 12, and 32 from level 5.
    pub fn max_lpc_order(&self) -> (r: usize)
        ensures
            r == (if level_number(*self) <= 1 {
                0usize
            } else if level_number(*self) == 2 {
                6
            } else if level_number(*self) == 3 {
                8
            } else if level_number(*self) == 4 {
                12
            } else {
                32
            }),
    {
        match self {
            CompressionLevel::Fast | CompressionLevel::FastPlus => 0,
            CompressionLevel::Balanced => 6,
            CompressionLevel::BalancedPlus => 8,
            CompressionLevel::High => 12,
            _ => 32,
        }
    }

    pub fn min_partition_order(&self) -> (r: u32)
        ensures
            r == 0,
    {
        0
    }

    /// The highest Rice partition order searched: 3 up to level 1, then 4, 5, and 6.
    pub fn max_partition_order(&self) -> (r: u32)
        ensures
            r == (if level_number(*self) <= 1 {
                3u32
            } else if level_number(*self) == 2 {
                4
            } else if level_number(*self) == 3 {
                5
            } else {
                6
            }),
    {
        match self {
            CompressionLevel::Fast => 3,
            CompressionLevel::FastPlus => 3,
            CompressionLevel::Balanced => 4,
            CompressionLevel::BalancedPlus => 5,
            CompressionLevel::High => 6,
            _ => 6,
        }
    }

    /// No stereo search at level 0, a loose one at levels 1 and 2, a full one above.
    pub fn stereo_search(&self) -> (r: StereoSearch)
        ensures
            r == (if level_number(*self) == 0 {
                StereoSearch::Off
            } else if level_number(*self) <= 2 {
                StereoSearch::Loose
            } else {
                StereoSearch::Full
            }),
    {
        match self {
            CompressionLevel::Fast => StereoSearch::Off,
            CompressionLevel::FastPlus | CompressionLevel::Balanced => StereoSearch::Loose,
            _ => StereoSearch::Full,
        }
    }

    /// Estimated Rice parameters up to level 1, a search of 2 either side at levels 2 and
    /// 3, an exhaustive search above.
    pub fn rice_search(&self) -> (r: RiceSearch)
        ensures
            r == (if level_number(*self) <= 1 {
                RiceSearch::Estimate
            } else if level_number(*self) <= 3 {
                RiceSearch::Limited(2)
            } else {
                RiceSearch::Exhaustive
            }),
    {
        match self {
            CompressionLevel::Fast | CompressionLevel::FastPlus => RiceSearch::Estimate,
            CompressionLevel::Balanced | CompressionLevel::BalancedPlus => RiceSearch::Limited(2),
            _ => RiceSearch::Exhaustive,
        }
    }

    /// Whether several coefficient precisions are tried: from level 5 on.
    pub fn qlp_precision_search(&self) -> (r: bool)
        ensures
            r == (level_number(*self) >= 5),
    {
        match self {
            CompressionLevel::HighPlus
            | CompressionLevel::Insane
            | CompressionLevel::InsanePlus
            | CompressionLevel::Maximum => true,
            _ => false,
        }
    }

    /// Whether partitions may be written raw: from level 4 on.
    pub fn escape_coding(&self) -> (r: bool)
        ensures
            r == (level_number(*self) >= 4),
    {
        match self {
            CompressionLevel::High
            | CompressionLevel::HighPlus
            | CompressionLevel::Insane
            | CompressionLevel::InsanePlus
            | CompressionLevel::Maximum => true,
            _ => false,
        }
    }

    /// Whether every model is tried: at level 8 only.
    pub fn exhaustive_model_search(&self) -> (r: bool)
        ensures
            r == (level_number(*self) == 8),
    {
        match self {
            CompressionLevel::Maximum => true,
            _ => false,
        }
    }

    /// Whether autocorrelation is done in double precision: from level 6 on.
    pub fn use_double_precision_autocorr(&self) -> (r: bool)
        ensures
            r == (level_number(*self) >= 6),
    {
        match self {
            CompressionLevel::Insane | CompressionLevel::InsanePlus | CompressionLevel::Maximum => {
                true
            },
            _ => false,
        }
    }

    /// Whether coefficients are refined by reweighted least squares: from level 6 on.
    pub fn use_irls(&self) -> (r: bool)
        ensures
            r == (level_number(*self) >= 6),
    {
        match self {
            CompressionLevel::Insane => true,
            CompressionLevel::InsanePlus | CompressionLevel::Maximum => true,
            _ => false,
        }
    }

    /// Refinement passes: 2, 3 and 5 at levels 6, 7 and 8, none below.
    pub fn irls_iterations(&self) -> (r: u32)
        ensures
            r == (if level_number(*self) == 6 {
                2u32
            } else if level_number(*self) == 7 {
                3
            } else if level_number(*self) == 8 {
                5
            } else {
                0
            }),
    {
        match self {
            CompressionLevel::Insane => 2,
            CompressionLevel::InsanePlus => 3,
            CompressionLevel::Maximum => 5,
            _ => 0,
        }
    }

    /// Whether block sizes vary: at levels 7 and 8.
    pub fn variable_block_size(&self) -> (r: bool)
        ensures
            r == (level_number(*self) >= 7),
    {
        match self {
            CompressionLevel::InsanePlus | CompressionLevel::Maximum => true,
            _ => false,
        }
    }
}

/// A level's number gives the level back, and the levels are numbered 0 to 8.
pub proof fn lemma_level_number_roundtrip(l: CompressionLevel, n: u8)
    ensures
        level_number(l) <= 8,
        n <= 8 ==> (level_number(l) == n <==> l == (match n {
            0 => CompressionLevel::Fast,
            1 => CompressionLevel::FastPlus,
            2 => CompressionLevel::Balanced,
            3 => CompressionLevel::BalancedPlus,
            4 => CompressionLevel::High,
            5 => CompressionLevel::HighPlus,
            6 => CompressionLevel::Insane,
            7 => CompressionLevel::InsanePlus,
            _ => CompressionLevel::Maximum,
        })),
{
}

/// The settings an encoder runs with.
#[derive(Debug, Clone)]
pub struct EncoderConfig {
    pub compression_level: CompressionLevel,
    pub block_size: usize,
    pub sample_rate: u32,
    pub bit_depth: u8,
}

impl EncoderConfig {
    pub fn new(compression_level: u8, block_size: usize, sample_rate: u32, bit_depth: u8) -> (r:
        Self)
        ensures
            level_number(r.compression_level) == (if compression_level <= 8 {
                compression_level
            } else {
                8
            }),
            r.block_size == block_size,
            r.sample_rate == sample_rate,
            r.bit_depth == bit_depth,
    {
        Self {
            compression_level: CompressionLevel::from_int(compression_level),
            block_size,
            sample_rate,
            bit_depth,
        }
    }

    /// The settings for `level`, with blocks of 1152 samples up to level 2 and 4096 above.
    pub fn default_with_level(level: u8, sample_rate: u32, bit_depth: u8) -> (r: Self)
        ensures
            level_number(r.compression_level) == (if level <= 8 {
                level
            } else {
                8
            }),
            r.block_size == (if level <= 2 {
                1152usize
            } else {
                4096
            }),
            r.sample_rate == sample_rate,
            r.bit_depth == bit_depth,
    {
        let block_size = if level <= 2 {
            1152
        } else {
            4096
        };
        Self { compression_level: CompressionLevel::from_int(level), block_size, sample_rate, bit_depth }
    }
}

} // verus!
