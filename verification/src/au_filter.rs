//! Whether the inputs of a candidate instruction can be encoded.
use crate::id_map::{holds, increasing, keys, lemma_holds, lemma_put, put, value_of, IdMap};
use crate::number::Number;
use vstd::prelude::*;

verus! {

/// Packed access: several narrow values in one register.
#[derive(Debug)]
pub struct PackedAccessConfig {
    /// Whether this strategy is enabled.
    pub enabled: bool,
    /// The total width of the values in one register.
    pub max_packed_width: u32,
    /// The widths that may be packed.
    pub pack_sizes: Vec<u32>,
}

impl Default for PackedAccessConfig {
    fn default() -> (r: Self)
        ensures
            r.enabled,
            r.max_packed_width == 32,
            r.pack_sizes@ == seq![8u32, 16u32],
    {
        PackedAccessConfig { enabled: true, max_packed_width: 32, pack_sizes: vec![8, 16] }
    }
}

/// Register grouping: a register is named by a group and a place in it.
#[derive(Clone, Copy, Debug, PartialEq, Eq, Structural)]
pub struct RegisterGroupingConfig {
    pub enabled: bool,
    /// The bits of the group.
    pub hand_bits: u8,
    /// The bits of the place within the group.
    pub dis_bits: u8,
    /// The number of groups.
    pub max_hands: u32,
    /// Whether an input may name a group of its own.
    pub allow_override: bool,
    /// The bits of each such group.
    pub override_bits: u8,
}

impl Default for RegisterGroupingConfig {
    fn default() -> (r: Self)
        ensures
            r == (RegisterGroupingConfig {
                enabled: false,
                hand_bits: 2,
                dis_bits: 3,
                max_hands: 4,
                allow_override: false,
                override_bits: 2,
            }),
    {
        RegisterGroupingConfig {
            enabled: false,
            hand_bits: 2,
            dis_bits: 3,
            max_hands: 4,
            allow_override: false,
            override_bits: 2,
        }
    }
}

/// Register neighboring: naming one register brings in adjacent ones.
#[derive(Clone, Copy, Debug, PartialEq, Eq, Structural)]
pub struct RegisterNeighboringConfig {
    pub enabled: bool,
    /// The bits that neighboring takes.
    pub neighbor_extra_bits: u8,
    /// How many adjacent registers are brought in.
    pub max_neighbors: u8,
}

impl Default for RegisterNeighboringConfig {
    fn default() -> (r: Self)
        ensures
            r == (RegisterNeighboringConfig {
                enabled: false,
                neighbor_extra_bits: 1,
                max_neighbors: 1,
            }),
    {
        RegisterNeighboringConfig { enabled: false, neighbor_extra_bits: 1, max_neighbors: 1 }
    }
}

/// Weights of an encoding's cost.
#[derive(Clone, Copy, Debug)]
pub struct EncodingCostModelConfig<N: Number> {
    pub cost_per_header_bit: N,
    pub cost_per_dis_bit: N,
    /// Negative: packed access is rewarded.
    pub cost_per_packed: N,
    pub cost_per_neighbor: N,
    pub cost_per_override: N,
}

/// `n` tenths.
pub open spec fn tenths<N: Number>(n: usize) -> N {
    N::s_count(n).s_over(N::s_count(10))
}

impl<N: Number> Default for EncodingCostModelConfig<N> {
    fn default() -> (r: Self)
        ensures
            r.cost_per_header_bit == tenths::<N>(1),
            r.cost_per_dis_bit == tenths::<N>(2),
            r.cost_per_packed == N::s_zero().s_minus(tenths::<N>(5)),
            r.cost_per_neighbor == tenths::<N>(3),
            r.cost_per_override == tenths::<N>(4),
    {
        let ten: N = N::count(10);
        EncodingCostModelConfig {
            cost_per_header_bit: N::count(1).over(ten),
            cost_per_dis_bit: N::count(2).over(ten),
            cost_per_packed: N::zero().minus(N::count(5).over(ten)),
            cost_per_neighbor: N::count(3).over(ten),
            cost_per_override: N::count(4).over(ten),
        }
    }
}

/// How inputs may be encoded.
#[derive(Debug)]
pub struct CiEncodingConfig {
    /// The bits that the inputs may take.
    pub max_total_bits: u32,
    /// The bits that name a register.
    pub default_bits_per_register: u32,
    pub packed_access: PackedAccessConfig,
    pub register_grouping: RegisterGroupingConfig,
    pub register_neighboring: RegisterNeighboringConfig,
}

impl Default for CiEncodingConfig {
    fn default() -> (r: Self)
        ensures
            r.max_total_bits == 32,
            r.default_bits_per_register == 5,
            call_ensures(PackedAccessConfig::default, (), r.packed_access),
            call_ensures(RegisterGroupingConfig::default, (), r.register_grouping),
            call_ensures(RegisterNeighboringConfig::default, (), r.register_neighboring),
    {
        CiEncodingConfig {
            max_total_bits: 32,
            default_bits_per_register: 5,
            packed_access: PackedAccessConfig::default(),
            register_grouping: RegisterGroupingConfig::default(),
            register_neighboring: RegisterNeighboringConfig::default(),
        }
    }
}

/// Types that values in registers have.
pub trait TypeAnalysis {
    /// The width in bits, where it is known.
    fn width(&self) -> (r: Option<u32>)
        default_ensures
            r == None::<u32>,
    {
        None
    }

    /// The number of lanes.
    fn length(&self) -> (r: u32)
        default_ensures
            r == 1,
    {
        1
    }

    /// Whether the type is that of a state.
    fn is_state_type(&self) -> (r: bool)
        default_ensures
            !r,
    {
        false
    }

    /// The bits that a vector of this type takes beside its register.
    fn extra_vector_bits(&self) -> (r: u8)
        default_ensures
            r == 2,
    {
        2
    }
}

/// What the encoding of an input depends on.
#[derive(Clone, Copy, Debug)]
pub struct Shape {
    pub width: Option<u32>,
    pub length: u32,
    pub extra_vector_bits: u8,
}

/// Whether `shapes` are shapes that the types may report.
pub open spec fn describes<T: TypeAnalysis>(types: Seq<T>, shapes: Seq<Shape>) -> bool {
    &&& types.len() == shapes.len()
    &&& forall|i: int|
        0 <= i < types.len() ==> {
            &&& call_ensures(T::width, (&types[i],), (#[trigger] shapes[i]).width)
            &&& call_ensures(T::length, (&types[i],), shapes[i].length)
            &&& call_ensures(T::extra_vector_bits, (&types[i],), shapes[i].extra_vector_bits)
        }
}

// ---------------------------------------------------------------------------
// The number of inputs
// ---------------------------------------------------------------------------

/// The least of `sizes`, or 8 where there is none.
pub open spec fn smallest(sizes: Seq<u32>) -> u32
    decreases sizes.len(),
{
    if sizes.len() == 0 {
        8
    } else if sizes.len() == 1 {
        sizes[0]
    } else {
        let m = smallest(sizes.drop_last());
        if sizes.last() < m {
            sizes.last()
        } else {
            m
        }
    }
}

/// The inputs that can be named.
pub open spec fn named_inputs(config: CiEncodingConfig) -> int {
    if config.register_grouping.enabled {
        config.max_total_bits as int / config.register_grouping.dis_bits as int
    } else {
        config.max_total_bits as int / config.default_bits_per_register as int
    }
}

/// The inputs that come with each named one.
pub open spec fn neighbors(config: CiEncodingConfig) -> int {
    if config.register_neighboring.enabled {
        config.register_neighboring.max_neighbors + 1
    } else {
        1
    }
}

/// The inputs that share a register.
pub open spec fn packed_inputs(config: CiEncodingConfig) -> int {
    if config.packed_access.enabled {
        let n = config.packed_access.max_packed_width as int / smallest(
            config.packed_access.pack_sizes@,
        ) as int;
        if n < 1 {
            1
        } else {
            n
        }
    } else {
        1
    }
}

/// The most inputs that can be encoded.
pub open spec fn input_limit(config: CiEncodingConfig) -> int {
    named_inputs(config) * neighbors(config) * packed_inputs(config)
}

/// Whether [`input_limit`] can be computed: it divides by no zero and the
/// number fits.
pub open spec fn has_input_limit(config: CiEncodingConfig) -> bool {
    &&& if config.register_grouping.enabled {
        config.register_grouping.dis_bits > 0
    } else {
        config.default_bits_per_register > 0
    }
    &&& config.register_neighboring.enabled ==> config.register_neighboring.max_neighbors < 255
    &&& config.packed_access.enabled ==> smallest(config.packed_access.pack_sizes@) > 0
    &&& input_limit(config) <= u32::MAX
}

fn smallest_of(sizes: &Vec<u32>) -> (r: u32)
    ensures
        r == smallest(sizes@),
{
    if sizes.len() == 0 {
        return 8;
    }
    let mut m: u32 = sizes[0];
    let n: usize = sizes.len();
    assert(sizes@.take(1) =~= seq![sizes@[0]]);
    for i in 1..n
        invariant
            n == sizes@.len(),
            1 <= i,
            m == smallest(sizes@.take(i as int)),
    {
        assert(sizes@.take(i + 1).drop_last() =~= sizes@.take(i as int));
        if sizes[i] < m {
            m = sizes[i];
        }
    }
    assert(sizes@.take(n as int) =~= sizes@);
    m
}

/// The most inputs that can be encoded.
pub fn max_inputs(config: &CiEncodingConfig) -> (r: u32)
    requires
        has_input_limit(*config),
    ensures
        r == input_limit(*config),
{
    let ghost a = named_inputs(*config);
    let ghost b = neighbors(*config);
    let ghost c = packed_inputs(*config);
    proof {
        assert(a >= 0) by {
            if config.register_grouping.enabled {
                let d = config.register_grouping.dis_bits as int;
                assert(config.max_total_bits as int / d >= 0) by (nonlinear_arith)
                    requires
                        d > 0,
                ;
            } else {
                let d = config.default_bits_per_register as int;
                assert(config.max_total_bits as int / d >= 0) by (nonlinear_arith)
                    requires
                        d > 0,
                ;
            }
        }
        assert(0 <= a * b <= a * b * c) by (nonlinear_arith)
            requires
                a >= 0,
                b >= 1,
                c >= 1,
        ;
        assert(a * 1 == a);
    }
    let mut count: u32 = config.max_total_bits;
    if config.register_grouping.enabled {
        count = count / config.register_grouping.dis_bits as u32;
    } else {
        count = count / config.default_bits_per_register;
    }
    if config.register_neighboring.enabled {
        count = count * (config.register_neighboring.max_neighbors as u32 + 1);
    }
    if config.packed_access.enabled {
        let least: u32 = smallest_of(&config.packed_access.pack_sizes);
        let share: u32 = config.packed_access.max_packed_width / least;
        if share > 1 {
            count = count * share;
        } else {
            assert(c == 1);
            assert(a * b * 1 == a * b);
        }
    } else {
        assert(a * b * 1 == a * b);
    }
    count
}

// ---------------------------------------------------------------------------
// Packing
// ---------------------------------------------------------------------------

/// The number of values, each width with its count.
pub open spec fn values(counts: Seq<(usize, u32)>) -> int
    decreases counts.len(),
{
    if counts.len() == 0 {
        0
    } else {
        values(counts.drop_last()) + counts.last().1
    }
}

/// The total width of the values.
pub open spec fn value_bits(counts: Seq<(usize, u32)>) -> int
    decreases counts.len(),
{
    if counts.len() == 0 {
        0
    } else {
        value_bits(counts.drop_last()) + counts.last().0 * counts.last().1
    }
}

/// How many of `c` values of width `w` go into `space` bits.
pub open spec fn fitting(w: usize, c: u32, space: u32) -> u32 {
    if w == 0 || c * w <= space {
        c
    } else {
        (space as int / w as int) as u32
    }
}

/// What is left when one register of `space` bits is filled, the widest
/// values first, as many of each width as fit.
pub open spec fn after_filling(counts: Seq<(usize, u32)>, space: u32) -> Seq<(usize, u32)>
    decreases counts.len(),
{
    if counts.len() == 0 {
        counts
    } else {
        let (w, c) = counts.last();
        let k = fitting(w, c, space);
        after_filling(counts.drop_last(), (space - k * w) as u32).push((w, (c - k) as u32))
    }
}

/// The registers that are filled until no value is left.
pub open spec fn packed_registers(counts: Seq<(usize, u32)>, width: u32) -> int
    decreases values(counts),
{
    let rest = after_filling(counts, width);
    if 0 <= values(rest) < values(counts) {
        1 + packed_registers(rest, width)
    } else {
        0
    }
}

/// Whether each value fits into a register.
pub open spec fn each_fits(counts: Seq<(usize, u32)>, width: u32) -> bool {
    forall|i: int| 0 <= i < counts.len() ==> (#[trigger] counts[i]).0 <= width
}

proof fn lemma_values_nonnegative(counts: Seq<(usize, u32)>)
    ensures
        values(counts) >= 0,
        value_bits(counts) >= 0,
        values(counts) == 0 ==> value_bits(counts) == 0,
    decreases counts.len(),
{
    if counts.len() > 0 {
        lemma_values_nonnegative(counts.drop_last());
        let w = counts.last().0 as int;
        let c = counts.last().1 as int;
        assert(w * c >= 0 && (c == 0 ==> w * c == 0)) by (nonlinear_arith)
            requires
                w >= 0,
                c >= 0,
        ;
    }
}

pub(crate) proof fn lemma_fitting(w: usize, c: u32, space: u32)
    ensures
        fitting(w, c, space) <= c,
        fitting(w, c, space) * w <= space,
        c > 0 && w <= space ==> fitting(w, c, space) > 0,
        fitting(w, c, space) < c ==> w > 0 && (fitting(w, c, space) + 1) * w > space,
{
    let wi = w as int;
    let ci = c as int;
    let si = space as int;
    if w == 0 {
        assert(c * w == 0) by (nonlinear_arith)
            requires
                w == 0,
        ;
    } else if c * w > space {
        let q = si / wi;
        assert(q * wi <= si && (q + 1) * wi > si && q >= 0 && q <= si) by (nonlinear_arith)
            requires
                wi > 0,
                si >= 0,
                q == si / wi,
        ;
        assert(q < ci) by (nonlinear_arith)
            requires
                wi > 0,
                q * wi <= si,
                ci * wi > si,
                ci >= 0,
        ;
        assert(wi <= si ==> q > 0) by (nonlinear_arith)
            requires
                wi > 0,
                si >= 0,
                (q + 1) * wi > si,
        ;
    }
}

proof fn lemma_fitting_is(w: usize, c: u32, space: u32, k: u32)
    requires
        k <= c,
        k * w <= space,
        k < c ==> (k + 1) * w > space,
    ensures
        fitting(w, c, space) == k,
{
    lemma_fitting(w, c, space);
    let f = fitting(w, c, space) as int;
    let ki = k as int;
    let wi = w as int;
    let si = space as int;
    if f < ki {
        assert((f + 1) * wi <= ki * wi) by (nonlinear_arith)
            requires
                f + 1 <= ki,
                wi >= 0,
        ;
    }
    if ki < f {
        assert((ki + 1) * wi <= f * wi) by (nonlinear_arith)
            requires
                ki + 1 <= f,
                wi >= 0,
        ;
    }
}

pub(crate) proof fn lemma_after_filling(counts: Seq<(usize, u32)>, space: u32)
    ensures
        after_filling(counts, space).len() == counts.len(),
        forall|i: int|
            0 <= i < counts.len() ==> (#[trigger] after_filling(counts, space)[i]).0
                == counts[i].0,
        0 <= values(after_filling(counts, space)) <= values(counts),
        value_bits(counts) - value_bits(after_filling(counts, space)) <= space,
        each_fits(counts, space) && values(counts) > 0 ==> values(after_filling(counts, space))
            < values(counts),
    decreases counts.len(),
{
    if counts.len() > 0 {
        let (w, c) = counts.last();
        let k = fitting(w, c, space);
        lemma_fitting(w, c, space);
        assert(k * w >= 0) by (nonlinear_arith);
        let left = (space - k * w) as u32;
        let init = counts.drop_last();
        lemma_after_filling(init, left);
        let t = after_filling(counts, space);
        let u = after_filling(init, left);
        assert(t.drop_last() =~= u);
        assert forall|i: int| 0 <= i < counts.len() implies (#[trigger] t[i]).0 == counts[i].0 by {
            if i < init.len() {
                assert(t[i] == u[i]);
                assert(init[i] == counts[i]);
            }
        }
        assert(w * (c - k) == w * c - k * w) by (nonlinear_arith);
        if each_fits(counts, space) && values(counts) > 0 {
            assert(counts[counts.len() - 1].0 <= space);
            if c == 0 {
                assert(k * w == 0) by (nonlinear_arith)
                    requires
                        k == 0,
                ;
                assert(each_fits(init, left)) by {
                    assert forall|i: int| 0 <= i < init.len() implies (#[trigger] init[i]).0
                        <= left by {
                        assert(counts[i].0 <= space);
                    }
                }
            }
        }
    }
}

/// Packing uses no more registers than there are values, and the registers
/// have room for all the values.
pub proof fn law_packing_is_tight_and_sufficient(counts: Seq<(usize, u32)>, width: u32)
    requires
        each_fits(counts, width),
    ensures
        packed_registers(counts, width) <= values(counts),
        value_bits(counts) <= packed_registers(counts, width) * width,
    decreases values(counts),
{
    lemma_values_nonnegative(counts);
    lemma_after_filling(counts, width);
    let rest = after_filling(counts, width);
    if values(counts) > 0 {
        assert(each_fits(rest, width)) by {
            assert forall|i: int| 0 <= i < rest.len() implies (#[trigger] rest[i]).0 <= width by {
                assert(counts[i].0 <= width);
            }
        }
        law_packing_is_tight_and_sufficient(rest, width);
        let p = packed_registers(rest, width);
        assert((1 + p) * width == width + p * width) by (nonlinear_arith);
    } else {
        assert(packed_registers(counts, width) == 0);
    }
}

/// The registers that a greedy packing takes.
fn greedy_packed_access(counts: &Vec<(usize, u32)>, max_packed_width: u32) -> (r: u32)
    requires
        each_fits(counts@, max_packed_width),
        values(counts@) <= u32::MAX,
    ensures
        r == packed_registers(counts@, max_packed_width),
{
    let mut left: Vec<(usize, u32)> = Vec::new();
    let mut total: u32 = 0;
    let n: usize = counts.len();
    for i in 0..n
        invariant
            n == counts@.len(),
            values(counts@) <= u32::MAX,
            left@ == counts@.take(i as int),
            total == values(counts@.take(i as int)),
    {
        proof {
            assert(counts@.take(i + 1).drop_last() =~= counts@.take(i as int));
            lemma_values_prefix(counts@, i + 1);
        }
        total = total + counts[i].1;
        left.push((counts[i].0, counts[i].1));
        assert(left@ =~= counts@.take(i + 1));
    }
    assert(counts@.take(n as int) =~= counts@);
    let mut bins: u32 = 0;
    while total > 0
        invariant
            each_fits(left@, max_packed_width),
            total == values(left@),
            bins + values(left@) <= u32::MAX,
            packed_registers(counts@, max_packed_width) == bins + packed_registers(
                left@,
                max_packed_width,
            ),
            n == left@.len(),
        decreases total,
    {
        let ghost before = left@;
        let ghost rest = after_filling(before, max_packed_width);
        proof {
            lemma_after_filling(before, max_packed_width);
        }
        let mut space: u32 = max_packed_width;
        let mut i: usize = n;
        assert(before.take(n as int) =~= before);
        assert(before.skip(n as int) =~= Seq::<(usize, u32)>::empty());
        assert(rest =~= after_filling(before.take(n as int), space) + left@.skip(n as int));
        while i > 0
            invariant
                i <= n,
                n == left@.len() == before.len() == rest.len(),
                left@.take(i as int) == before.take(i as int),
                rest == after_filling(before.take(i as int), space) + left@.skip(i as int),
                total == values(left@),
            decreases i,
        {
            i = i - 1;
            let w: usize = left[i].0;
            let c: u32 = left[i].1;
            let ghost here = left@;
            let ghost mid = before.take(i + 1);
            assert(before[i as int] == here.take(i + 1)[i as int]);
            assert(mid.last() == (w, c));
            assert(mid.drop_last() =~= before.take(i as int));
            let ghost space0 = space;
            let mut k: u32 = 0;
            while k < c && w <= space as usize
                invariant
                    k <= c,
                    space + k * w == space0,
                decreases c - k,
            {
                assert((k + 1) * w == k * w + w) by (nonlinear_arith);
                space = space - w as u32;
                k = k + 1;
            }
            proof {
                assert((k + 1) * w == k * w + w) by (nonlinear_arith);
                lemma_fitting_is(w, c, space0, k);
                lemma_values_update(here, i as int, (w, (c - k) as u32));
                lemma_values_nonnegative(here.update(i as int, (w, (c - k) as u32)));
            }
            left.set(i, (w, c - k));
            total = total - k;
            proof {
                assert(left@ =~= here.update(i as int, (w, (c - k) as u32)));
                assert(left@.take(i as int) =~= before.take(i as int)) by {
                    assert forall|j: int| 0 <= j < i implies left@[j] == before[j] by {
                        assert(here.take(i + 1)[j] == before.take(i + 1)[j]);
                    }
                }
                assert(left@.skip(i as int) =~= seq![(w, (c - k) as u32)] + here.skip(i + 1));
                lemma_after_filling(mid.drop_last(), space);
                assert(after_filling(mid.drop_last(), space).push((w, (c - k) as u32))
                    + here.skip(i + 1) =~= after_filling(mid.drop_last(), space)
                    + left@.skip(i as int));
            }
        }
        proof {
            assert(before.take(0) =~= Seq::<(usize, u32)>::empty());
            assert(left@.skip(0) =~= left@);
            assert(left@ =~= rest);
            assert(each_fits(left@, max_packed_width)) by {
                assert forall|j: int| 0 <= j < left@.len() implies (#[trigger] left@[j]).0
                    <= max_packed_width by {
                    assert(before[j].0 <= max_packed_width);
                }
            }
            lemma_values_nonnegative(left@);
        }
        bins = bins + 1;
    }
    proof {
        lemma_after_filling(left@, max_packed_width);
    }
    bins
}

proof fn lemma_values_prefix(counts: Seq<(usize, u32)>, n: int)
    requires
        0 <= n <= counts.len(),
    ensures
        values(counts.take(n)) <= values(counts),
    decreases counts.len(),
{
    if n == counts.len() {
        assert(counts.take(n) =~= counts);
    } else {
        lemma_values_prefix(counts.drop_last(), n);
        assert(counts.drop_last().take(n) =~= counts.take(n));
    }
}

proof fn lemma_values_update(counts: Seq<(usize, u32)>, i: int, x: (usize, u32))
    requires
        0 <= i < counts.len(),
    ensures
        values(counts.update(i, x)) == values(counts) - counts[i].1 + x.1,
    decreases counts.len(),
{
    let t = counts.update(i, x);
    if i == counts.len() - 1 {
        assert(t.drop_last() =~= counts.drop_last());
    } else {
        lemma_values_update(counts.drop_last(), i, x);
        assert(t.drop_last() =~= counts.drop_last().update(i, x));
    }
}

// ---------------------------------------------------------------------------
// The filter
// ---------------------------------------------------------------------------

/// The width of an input; 32 bits where it is not known.
pub open spec fn bits(shape: Shape) -> u32 {
    match shape.width {
        Some(w) => w,
        None => 32,
    }
}

/// The total width of the first `n` inputs.
pub open spec fn total_bits(shapes: Seq<Shape>, n: nat) -> int
    decreases n,
{
    if n == 0 {
        0
    } else {
        total_bits(shapes, (n - 1) as nat) + bits(shapes[n - 1])
    }
}

/// The bits that the vectors among the first `n` inputs take beside their
/// registers.
pub open spec fn vector_bits(shapes: Seq<Shape>, n: nat) -> int
    decreases n,
{
    if n == 0 {
        0
    } else {
        vector_bits(shapes, (n - 1) as nat) + if shapes[n - 1].length > 1 {
            shapes[n - 1].extra_vector_bits as int
        } else {
            0
        }
    }
}

/// How many of the first `n` inputs have a width that is not packed.
pub open spec fn unpacked(shapes: Seq<Shape>, n: nat, sizes: Seq<u32>) -> int
    decreases n,
{
    if n == 0 {
        0
    } else {
        unpacked(shapes, (n - 1) as nat, sizes) + if sizes.contains(bits(shapes[n - 1])) {
            0int
        } else {
            1
        }
    }
}

/// The packed widths of the first `n` inputs, in ascending order, each with
/// its count.
pub open spec fn tallied(shapes: Seq<Shape>, n: nat, sizes: Seq<u32>) -> Seq<(usize, u32)>
    decreases n,
{
    if n == 0 {
        Seq::empty()
    } else {
        let t = tallied(shapes, (n - 1) as nat, sizes);
        let w = bits(shapes[n - 1]);
        if sizes.contains(w) {
            let c = if holds(t, w as usize) {
                value_of(t, w as usize)
            } else {
                0
            };
            put(t, w as usize, (c + 1) as u32)
        } else {
            t
        }
    }
}

/// The registers that the inputs take.
pub open spec fn registers(config: CiEncodingConfig, shapes: Seq<Shape>) -> int {
    if config.packed_access.enabled {
        let sizes = config.packed_access.pack_sizes@;
        unpacked(shapes, shapes.len(), sizes) + packed_registers(
            tallied(shapes, shapes.len(), sizes),
            config.packed_access.max_packed_width,
        )
    } else {
        shapes.len() as int
    }
}

/// The registers that are named, where naming one brings in its neighbors.
pub open spec fn named_registers(config: CiEncodingConfig, registers: int) -> int {
    if config.register_neighboring.enabled {
        (registers + config.register_neighboring.max_neighbors) / (
        config.register_neighboring.max_neighbors + 1)
    } else {
        registers
    }
}

/// The bits that are left for naming registers when neighboring has taken
/// its own.
pub open spec fn remaining_bits(config: CiEncodingConfig) -> int {
    if config.register_neighboring.enabled {
        config.max_total_bits - config.register_neighboring.neighbor_extra_bits
    } else {
        config.max_total_bits as int
    }
}

/// Whether inputs of these shapes can be encoded: there are not too many, and
/// their own bits, or the bits that name their registers, or those that name
/// the registers with neighbors, or those that name them within groups, do
/// not exceed the limit.
pub open spec fn accepted(config: CiEncodingConfig, shapes: Seq<Shape>) -> bool {
    let vector = vector_bits(shapes, shapes.len());
    let registers = registers(config, shapes);
    let named = named_registers(config, registers);
    &&& shapes.len() as u32 <= input_limit(config)
    &&& {
        ||| total_bits(shapes, shapes.len()) <= config.max_total_bits
        ||| registers * config.default_bits_per_register + vector <= config.max_total_bits
        ||| named * config.default_bits_per_register <= remaining_bits(config)
        ||| config.register_grouping.enabled && named * config.register_grouping.dis_bits + vector
            <= remaining_bits(config) - config.register_grouping.hand_bits
    }
}

/// Whether the bits can be counted: no division by zero, every packed width
/// fits into a register, the limit covers the bits that neighboring and
/// grouping take, and no count exceeds 32 bits.
pub open spec fn countable(config: CiEncodingConfig, shapes: Seq<Shape>) -> bool {
    let vector = vector_bits(shapes, shapes.len());
    let registers = registers(config, shapes);
    let named = named_registers(config, registers);
    let grouping = config.register_grouping;
    &&& has_input_limit(config)
    &&& shapes.len() as u32 <= input_limit(config) ==> {
        &&& shapes.len() <= u32::MAX
        &&& total_bits(shapes, shapes.len()) <= u32::MAX
        &&& total_bits(shapes, shapes.len()) > config.max_total_bits ==> {
            &&& config.packed_access.enabled ==> forall|i: int|
                0 <= i < shapes.len() && config.packed_access.pack_sizes@.contains(
                    bits(#[trigger] shapes[i]),
                ) ==> bits(shapes[i]) <= config.packed_access.max_packed_width
            &&& registers * config.default_bits_per_register + vector <= u32::MAX
            &&& registers * config.default_bits_per_register + vector > config.max_total_bits ==> {
                &&& config.register_neighboring.enabled ==> {
                    &&& registers + config.register_neighboring.max_neighbors <= u32::MAX
                    &&& config.register_neighboring.neighbor_extra_bits <= config.max_total_bits
                }
                &&& grouping.enabled && named * config.default_bits_per_register > remaining_bits(
                    config,
                ) ==> {
                    &&& grouping.hand_bits <= remaining_bits(config)
                    &&& named * grouping.dis_bits + vector <= u32::MAX
                }
            }
        }
    }
}

fn bits_of(shape: &Shape) -> (r: u32)
    ensures
        r == bits(*shape),
{
    match shape.width {
        Some(w) => w,
        None => 32,
    }
}

proof fn lemma_total_bits_prefix(shapes: Seq<Shape>, n: nat)
    requires
        n <= shapes.len(),
    ensures
        0 <= total_bits(shapes, n) <= total_bits(shapes, shapes.len()),
        0 <= vector_bits(shapes, n) <= vector_bits(shapes, shapes.len()),
    decreases shapes.len() - n,
{
    lemma_bits_nonnegative(shapes, n);
    if n < shapes.len() {
        lemma_total_bits_prefix(shapes, n + 1);
    }
}

proof fn lemma_bits_nonnegative(shapes: Seq<Shape>, n: nat)
    requires
        n <= shapes.len(),
    ensures
        0 <= total_bits(shapes, n),
        0 <= vector_bits(shapes, n),
    decreases n,
{
    if n > 0 {
        lemma_bits_nonnegative(shapes, (n - 1) as nat);
    }
}

proof fn lemma_values_put(t: Seq<(usize, u32)>, w: usize, c: u32)
    requires
        increasing(keys(t)),
    ensures
        values(put(t, w, c)) == values(t) + c - if holds(t, w) {
            value_of(t, w) as int
        } else {
            0
        },
{
    let p = crate::id_map::slot(keys(t), w);
    lemma_holds(t, w);
    crate::id_map::lemma_slot(keys(t), w);
    if holds(t, w) {
        lemma_values_update(t, p, (w, c));
    } else {
        lemma_values_insert(t, p, (w, c));
    }
}

proof fn lemma_values_insert(t: Seq<(usize, u32)>, p: int, x: (usize, u32))
    requires
        0 <= p <= t.len(),
    ensures
        values(t.insert(p, x)) == values(t) + x.1,
    decreases t.len(),
{
    let u = t.insert(p, x);
    if p == t.len() {
        assert(u.drop_last() =~= t);
    } else {
        lemma_values_insert(t.drop_last(), p, x);
        assert(u.drop_last() =~= t.drop_last().insert(p, x));
    }
}

proof fn lemma_tallied(shapes: Seq<Shape>, n: nat, sizes: Seq<u32>)
    requires
        n <= shapes.len() <= u32::MAX,
    ensures
        increasing(keys(tallied(shapes, n, sizes))),
        values(tallied(shapes, n, sizes)) + unpacked(shapes, n, sizes) == n,
        unpacked(shapes, n, sizes) >= 0,
        forall|i: int|
            0 <= i < tallied(shapes, n, sizes).len() ==> {
                &&& (#[trigger] tallied(shapes, n, sizes)[i]).1 <= n
                &&& exists|j: int|
                    0 <= j < n && sizes.contains(bits(#[trigger] shapes[j])) && bits(shapes[j])
                        == tallied(shapes, n, sizes)[i].0
            },
    decreases n,
{
    let r = tallied(shapes, n, sizes);
    if n == 0 {
        assert(keys(r) =~= Seq::<usize>::empty());
    } else {
        lemma_tallied(shapes, (n - 1) as nat, sizes);
        let t = tallied(shapes, (n - 1) as nat, sizes);
        let w = bits(shapes[n - 1]);
        if sizes.contains(w) {
            let c = if holds(t, w as usize) {
                value_of(t, w as usize)
            } else {
                0
            };
            lemma_holds(t, w as usize);
            let p = crate::id_map::slot(keys(t), w as usize);
            crate::id_map::lemma_slot(keys(t), w as usize);
            lemma_put(t, w as usize, (c + 1) as u32);
            if holds(t, w as usize) {
                assert(t[p].1 <= n - 1);
            }
            lemma_values_put(t, w as usize, (c + 1) as u32);
            assert forall|i: int| 0 <= i < r.len() implies {
                &&& (#[trigger] r[i]).1 <= n
                &&& exists|j: int|
                    0 <= j < n && sizes.contains(bits(#[trigger] shapes[j])) && bits(shapes[j])
                        == r[i].0
            } by {
                if i == p {
                    assert(sizes.contains(bits(shapes[n - 1])));
                } else {
                    let i0 = if r.len() == t.len() || i < p {
                        i
                    } else {
                        i - 1
                    };
                    assert(r[i] == t[i0]);
                    let j = choose|j: int|
                        0 <= j < n - 1 && sizes.contains(bits(#[trigger] shapes[j])) && bits(
                            shapes[j],
                        ) == t[i0].0;
                    assert(sizes.contains(bits(shapes[j])));
                }
            }
        }
    }
}

/// The packed widths are counted: the counts of the inputs that are packed,
/// and those of the inputs that are not, add up to all inputs, and packing
/// takes no more registers than there are inputs.
pub proof fn law_every_input_has_a_register(config: CiEncodingConfig, shapes: Seq<Shape>)
    requires
        shapes.len() <= u32::MAX,
        config.packed_access.enabled ==> forall|i: int|
            0 <= i < shapes.len() && config.packed_access.pack_sizes@.contains(
                bits(#[trigger] shapes[i]),
            ) ==> bits(shapes[i]) <= config.packed_access.max_packed_width,
    ensures
        registers(config, shapes) <= shapes.len(),
        config.packed_access.enabled ==> ({
            let sizes = config.packed_access.pack_sizes@;
            &&& values(tallied(shapes, shapes.len(), sizes)) + unpacked(
                shapes,
                shapes.len(),
                sizes,
            ) == shapes.len()
            &&& each_fits(
                tallied(shapes, shapes.len(), sizes),
                config.packed_access.max_packed_width,
            )
        }),
{
    if config.packed_access.enabled {
        let sizes = config.packed_access.pack_sizes@;
        let t = tallied(shapes, shapes.len(), sizes);
        lemma_tallied(shapes, shapes.len(), sizes);
        assert(each_fits(t, config.packed_access.max_packed_width)) by {
            assert forall|i: int| 0 <= i < t.len() implies (#[trigger] t[i]).0
                <= config.packed_access.max_packed_width by {
                let j = choose|j: int|
                    0 <= j < shapes.len() && sizes.contains(bits(#[trigger] shapes[j])) && bits(
                        shapes[j],
                    ) == t[i].0;
                assert(bits(shapes[j]) <= config.packed_access.max_packed_width);
            }
        }
        law_packing_is_tight_and_sufficient(t, config.packed_access.max_packed_width);
    }
}

fn contains_size(sizes: &Vec<u32>, w: u32) -> (r: bool)
    ensures
        r == sizes@.contains(w),
{
    let n: usize = sizes.len();
    for i in 0..n
        invariant
            n == sizes@.len(),
            forall|j: int| 0 <= j < i ==> sizes@[j] != w,
    {
        if sizes[i] == w {
            return true;
        }
    }
    false
}

/// The registers that the inputs take under packed access.
fn count_registers(config: &CiEncodingConfig, shapes: &Vec<Shape>) -> (r: u32)
    requires
        shapes@.len() <= u32::MAX,
        config.packed_access.enabled ==> forall|i: int|
            0 <= i < shapes@.len() && config.packed_access.pack_sizes@.contains(
                bits(#[trigger] shapes@[i]),
            ) ==> bits(shapes@[i]) <= config.packed_access.max_packed_width,
    ensures
        r == registers(*config, shapes@),
        r <= shapes@.len(),
{
    proof {
        law_every_input_has_a_register(*config, shapes@);
    }
    if !config.packed_access.enabled {
        return shapes.len() as u32;
    }
    let ghost sizes = config.packed_access.pack_sizes@;
    let mut tally: IdMap<u32> = IdMap::new();
    let mut single: u32 = 0;
    let n: usize = shapes.len();
    for i in 0..n
        invariant
            n == shapes@.len() <= u32::MAX,
            sizes == config.packed_access.pack_sizes@,
            tally.wf(),
            tally.entries@ == tallied(shapes@, i as nat, sizes),
            single == unpacked(shapes@, i as nat, sizes),
    {
        proof {
            lemma_tallied(shapes@, i as nat, sizes);
            lemma_tallied(shapes@, (i + 1) as nat, sizes);
            lemma_values_nonnegative(tally.entries@);
        }
        let w: u32 = bits_of(&shapes[i]);
        if contains_size(&config.packed_access.pack_sizes, w) {
            proof {
                lemma_holds(tally.entries@, w as usize);
                crate::id_map::lemma_slot(keys(tally.entries@), w as usize);
            }
            let c: u32 = match tally.get(w as usize) {
                Some(c) => *c,
                None => 0,
            };
            assert(c <= i) by {
                let t = tally.entries@;
                let p = crate::id_map::slot(keys(t), w as usize);
                if holds(t, w as usize) {
                    assert(t[p].1 <= i);
                }
            }
            tally.insert(w as usize, c + 1);
        } else {
            single = single + 1;
        }
    }
    proof {
        lemma_tallied(shapes@, n as nat, sizes);
        lemma_values_nonnegative(tally.entries@);
        law_packing_is_tight_and_sufficient(
            tally.entries@,
            config.packed_access.max_packed_width,
        );
    }
    let packed: u32 = greedy_packed_access(
        &tally.entries,
        config.packed_access.max_packed_width,
    );
    single + packed
}

/// Whether inputs of these shapes can be encoded.
pub fn shape_filter(config: &CiEncodingConfig, shapes: &Vec<Shape>) -> (r: bool)
    requires
        countable(*config, shapes@),
    ensures
        r == accepted(*config, shapes@),
{
    let n: usize = shapes.len();
    if n as u32 > max_inputs(config) {
        return false;
    }
    let mut total: u32 = 0;
    for i in 0..n
        invariant
            n == shapes@.len(),
            total == total_bits(shapes@, i as nat),
            total_bits(shapes@, shapes@.len()) <= u32::MAX,
    {
        proof {
            lemma_total_bits_prefix(shapes@, (i + 1) as nat);
        }
        total = total + bits_of(&shapes[i]);
    }
    if total <= config.max_total_bits {
        return true;
    }
    proof {
        lemma_bits_nonnegative(shapes@, shapes@.len());
        law_every_input_has_a_register(*config, shapes@);
        lemma_registers_nonnegative(*config, shapes@);
        lemma_product_at_most(
            0,
            registers(*config, shapes@),
            config.default_bits_per_register as int,
        );
    }
    let mut vec_extra_bits: u32 = 0;
    for i in 0..n
        invariant
            n == shapes@.len(),
            vec_extra_bits == vector_bits(shapes@, i as nat),
            vector_bits(shapes@, shapes@.len()) <= u32::MAX,
    {
        proof {
            lemma_total_bits_prefix(shapes@, (i + 1) as nat);
        }
        if shapes[i].length > 1 {
            vec_extra_bits = vec_extra_bits + shapes[i].extra_vector_bits as u32;
        }
    }
    let registers: u32 = count_registers(config, shapes);
    if registers * config.default_bits_per_register + vec_extra_bits <= config.max_total_bits {
        return true;
    }
    let mut extra_bits: u32 = config.max_total_bits;
    let mut named: u32 = registers;
    if config.register_neighboring.enabled {
        let max_neighbors: u32 = config.register_neighboring.max_neighbors as u32;
        extra_bits = extra_bits - config.register_neighboring.neighbor_extra_bits as u32;
        proof {
            let m = max_neighbors as int;
            let q = registers as int;
            assert(0 <= (q + m) / (m + 1) <= q) by (nonlinear_arith)
                requires
                    m >= 0,
                    q >= 0,
            ;
        }
        named = (registers + max_neighbors) / (max_neighbors + 1);
    }
    proof {
        lemma_product_at_most(
            named as int,
            registers as int,
            config.default_bits_per_register as int,
        );
        lemma_product_at_most(0, named as int, config.register_grouping.dis_bits as int);
    }
    if named * config.default_bits_per_register <= extra_bits {
        return true;
    }
    if config.register_grouping.enabled {
        let hand_bits: u32 = config.register_grouping.hand_bits as u32;
        let dis_bits: u32 = config.register_grouping.dis_bits as u32;
        extra_bits = extra_bits - hand_bits;
        if named * dis_bits + vec_extra_bits <= extra_bits {
            return true;
        }
    }
    false
}

proof fn lemma_packed_registers_nonnegative(counts: Seq<(usize, u32)>, width: u32)
    ensures
        packed_registers(counts, width) >= 0,
    decreases values(counts),
{
    let rest = after_filling(counts, width);
    if 0 <= values(rest) < values(counts) {
        lemma_packed_registers_nonnegative(rest, width);
    }
}

proof fn lemma_registers_nonnegative(config: CiEncodingConfig, shapes: Seq<Shape>)
    requires
        shapes.len() <= u32::MAX,
    ensures
        registers(config, shapes) >= 0,
{
    if config.packed_access.enabled {
        let sizes = config.packed_access.pack_sizes@;
        lemma_tallied(shapes, shapes.len(), sizes);
        lemma_packed_registers_nonnegative(
            tallied(shapes, shapes.len(), sizes),
            config.packed_access.max_packed_width,
        );
    }
}

proof fn lemma_product_at_most(a: int, b: int, c: int)
    requires
        0 <= a <= b,
        0 <= c,
    ensures
        0 <= a * c <= b * c,
{
    assert(0 <= a * c <= b * c) by (nonlinear_arith)
        requires
            0 <= a <= b,
            0 <= c,
    ;
}

/// Whether values of these types can be the inputs of one instruction: the
/// answer of [`shape_filter`] for the shapes that the types report.
pub fn io_filter<T: TypeAnalysis>(config: &CiEncodingConfig, reg_types: &[T]) -> (r: bool)
    requires
        forall|shapes: Seq<Shape>| #[trigger]
            describes(reg_types@, shapes) ==> countable(*config, shapes),
    ensures
        exists|shapes: Seq<Shape>| #[trigger]
            describes(reg_types@, shapes) && r == accepted(*config, shapes),
{
    let mut shapes: Vec<Shape> = Vec::new();
    let n: usize = reg_types.len();
    for i in 0..n
        invariant
            n == reg_types@.len(),
            shapes@.len() == i,
            forall|j: int|
                0 <= j < i ==> {
                    &&& call_ensures(T::width, (&reg_types@[j],), (#[trigger] shapes@[j]).width)
                    &&& call_ensures(T::length, (&reg_types@[j],), shapes@[j].length)
                    &&& call_ensures(
                        T::extra_vector_bits,
                        (&reg_types@[j],),
                        shapes@[j].extra_vector_bits,
                    )
                },
    {
        let t: &T = &reg_types[i];
        let width: Option<u32> = t.width();
        let length: u32 = t.length();
        let extra_vector_bits: u8 = t.extra_vector_bits();
        shapes.push(Shape { width, length, extra_vector_bits });
    }
    assert(describes(reg_types@, shapes@));
    shape_filter(config, &shapes)
}

} // verus!
