//! The settings of library learning.
use crate::au_filter::CiEncodingConfig;
use crate::number::Number;
use vstd::prelude::*;

verus! {

/// What a library function is judged by.
#[derive(Clone, Copy, Debug, PartialEq, Eq, Hash, Structural)]
pub enum LiblearnCost {
    Delay,
    Size,
    LatencyGainArea,
}

impl Default for LiblearnCost {
    fn default() -> (r: Self)
        ensures
            r == LiblearnCost::Delay,
    {
        LiblearnCost::Delay
    }
}

/// How candidates for library functions are merged.
#[derive(Clone, Copy, Debug, PartialEq, Eq, Structural)]
pub enum AUMergeMod {
    Random,
    Kd,
    Boundary,
    Cartesian,
}

/// Which pairs of classes are tried.
#[derive(Clone, Copy, Debug, PartialEq, Eq, Structural)]
pub enum EnumMode {
    All,
    PruningVanilla,
    PruningGold,
    ClusterTest,
}

/// Settings of the search for library functions.
#[derive(Clone, Copy, Debug)]
pub struct LiblearnConfig<N: Number> {
    pub cost: LiblearnCost,
    pub au_merge_mod: AUMergeMod,
    pub enum_mode: EnumMode,
    /// How many candidates are sampled.
    pub sample_num: usize,
    /// How far the hashes of similar classes may be apart.
    pub hamming_threshold: usize,
    /// How much similar classes must have in common.
    pub jaccard_threshold: N,
    /// How many library functions are learned at a time.
    pub max_libs: usize,
    /// The fewest nodes of a library function.
    pub min_lib_size: usize,
    /// The most nodes of a library function.
    pub max_lib_size: usize,
}

impl<N: Number> Default for LiblearnConfig<N> {
    fn default() -> (r: Self)
        ensures
            r == (LiblearnConfig {
                cost: LiblearnCost::Delay,
                au_merge_mod: AUMergeMod::Boundary,
                enum_mode: EnumMode::All,
                sample_num: 10,
                hamming_threshold: 36,
                jaccard_threshold: N::s_count(67).s_over(N::s_count(100)),
                max_libs: 500,
                min_lib_size: 4,
                max_lib_size: 500,
            }),
    {
        LiblearnConfig {
            cost: LiblearnCost::Delay,
            au_merge_mod: AUMergeMod::Boundary,
            enum_mode: EnumMode::All,
            sample_num: 10,
            hamming_threshold: 36,
            jaccard_threshold: N::count(67).over(N::count(100)),
            max_libs: 500,
            min_lib_size: 4,
            max_lib_size: 500,
        }
    }
}

impl<N: Number> LiblearnConfig<N> {
    pub fn new(
        cost: LiblearnCost,
        au_merge_mod: AUMergeMod,
        enum_mode: EnumMode,
        sample_num: usize,
        hamming_threshold: usize,
        jaccard_threshold: N,
        max_libs: usize,
        min_lib_size: usize,
        max_lib_size: usize,
    ) -> (r: Self)
        ensures
            r == (LiblearnConfig {
                cost,
                au_merge_mod,
                enum_mode,
                sample_num,
                hamming_threshold,
                jaccard_threshold,
                max_libs,
                min_lib_size,
                max_lib_size,
            }),
    {
        LiblearnConfig {
            cost,
            au_merge_mod,
            enum_mode,
            sample_num,
            hamming_threshold,
            jaccard_threshold,
            max_libs,
            min_lib_size,
            max_lib_size,
        }
    }
}

/// What is relaxed while packs of operations and vectors are searched for.
#[derive(Clone, Copy, Debug, PartialEq, Eq, Structural)]
pub struct FindPackConfig {
    /// Whether dissimilar pairs are left out.
    pub prune_similar: bool,
    /// Whether trivial expressions are learned.
    pub learn_trivial: bool,
}

impl Default for FindPackConfig {
    fn default() -> (r: Self)
        ensures
            r == (FindPackConfig { prune_similar: true, learn_trivial: true }),
    {
        FindPackConfig { prune_similar: true, learn_trivial: true }
    }
}

/// Settings of a run. `LA` estimates areas, `LD` delays; `V` are the settings
/// of vectorization and `M` those of packing operations.
#[derive(Debug)]
pub struct ParetoConfig<N: Number, LA, LD, V, M> {
    /// The number of selections that a class keeps.
    pub final_beams: usize,
    /// The number of selections that are kept while a node is analyzed.
    pub inter_beams: usize,
    /// How often library rewrites are applied.
    pub lib_iter_limit: usize,
    /// The number of library functions in a selection.
    pub lps: usize,
    /// Whether library functions without arguments are learned.
    pub learn_constants: bool,
    /// The most arguments of a library function.
    pub max_arity: Option<usize>,
    pub clock_period: usize,
    pub area_estimator: LA,
    pub delay_estimator: LD,
    /// Whether constants of different widths are merged.
    pub enable_widths_merge: bool,
    pub liblearn_config: LiblearnConfig<N>,
    pub vectorize_config: V,
    pub op_pack_config: M,
    pub ci_encoding_config: CiEncodingConfig,
    pub find_pack_config: FindPackConfig,
}

impl<N: Number, LA: Default, LD: Default, V: Default, M: Default> Default for ParetoConfig<
    N,
    LA,
    LD,
    V,
    M,
> {
    fn default() -> (r: Self)
        ensures
            r.final_beams == 10,
            r.inter_beams == 5,
            r.lib_iter_limit == 3,
            r.lps == 1,
            !r.learn_constants,
            r.max_arity is None,
            r.clock_period == 1000,
            call_ensures(LA::default, (), r.area_estimator),
            call_ensures(LD::default, (), r.delay_estimator),
            !r.enable_widths_merge,
            call_ensures(LiblearnConfig::<N>::default, (), r.liblearn_config),
            call_ensures(V::default, (), r.vectorize_config),
            call_ensures(M::default, (), r.op_pack_config),
            call_ensures(CiEncodingConfig::default, (), r.ci_encoding_config),
            call_ensures(FindPackConfig::default, (), r.find_pack_config),
    {
        ParetoConfig {
            final_beams: 10,
            inter_beams: 5,
            lib_iter_limit: 3,
            lps: 1,
            learn_constants: false,
            max_arity: None,
            clock_period: 1000,
            area_estimator: LA::default(),
            delay_estimator: LD::default(),
            enable_widths_merge: false,
            liblearn_config: LiblearnConfig::default(),
            vectorize_config: V::default(),
            op_pack_config: M::default(),
            ci_encoding_config: CiEncodingConfig::default(),
            find_pack_config: FindPackConfig::default(),
        }
    }
}

} // verus!
