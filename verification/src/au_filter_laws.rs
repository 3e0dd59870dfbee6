//! What the filter of inputs lets through, and what it does not depend on:
//! their order, and whether a width of 32 bits is stated.
use crate::au_filter::{
    accepted, after_filling, bits, countable, each_fits, fitting, has_input_limit, input_limit,
    lemma_after_filling, lemma_fitting, max_inputs, named_inputs, neighbors, packed_inputs,
    packed_registers, registers, shape_filter, smallest, tallied, total_bits, unpacked, values,
    vector_bits, CiEncodingConfig, Shape,
};
use crate::id_map::{
    holds, increasing, keys, lemma_put, lemma_same_entries, lemma_slot_is, lookup, value_of,
};
use vstd::prelude::*;

verus! {

/// The shapes with every width stated.
pub open spec fn measured(shapes: Seq<Shape>) -> Seq<Shape> {
    Seq::new(shapes.len(), |i: int| Shape { width: Some(bits(shapes[i])), ..shapes[i] })
}

/// Whether two lists of shapes differ at most in their order, and in whether
/// a width of 32 bits is stated.
pub open spec fn same_inputs(a: Seq<Shape>, b: Seq<Shape>) -> bool {
    measured(a).to_multiset() == measured(b).to_multiset()
}

/// The sum of what `f` gives for the shapes.
spec fn sum_of(s: Seq<Shape>, f: spec_fn(Shape) -> int) -> int
    decreases s.len(),
{
    if s.len() == 0 {
        0
    } else {
        sum_of(s.drop_last(), f) + f(s.last())
    }
}

/// The width of a shape.
spec fn own_bits() -> spec_fn(Shape) -> int {
    |s: Shape| bits(s) as int
}

/// What a vector takes beside its register.
spec fn own_vector_bits() -> spec_fn(Shape) -> int {
    |s: Shape|
        if s.length > 1 {
            s.extra_vector_bits as int
        } else {
            0
        }
}

/// One for a shape whose width is not packed.
spec fn is_unpacked(sizes: Seq<u32>) -> spec_fn(Shape) -> int {
    |s: Shape|
        if sizes.contains(bits(s)) {
            0int
        } else {
            1
        }
}

/// One for a shape whose width is packed and is `w`.
spec fn is_packed(sizes: Seq<u32>, w: usize) -> spec_fn(Shape) -> int {
    |s: Shape|
        if sizes.contains(bits(s)) && bits(s) == w {
            1int
        } else {
            0
        }
}

proof fn lemma_sum_without(s: Seq<Shape>, i: int, f: spec_fn(Shape) -> int)
    requires
        0 <= i < s.len(),
    ensures
        sum_of(s, f) == sum_of(s.remove(i), f) + f(s[i]),
    decreases s.len(),
{
    if i == s.len() - 1 {
        assert(s.remove(i) =~= s.drop_last());
    } else {
        lemma_sum_without(s.drop_last(), i, f);
        assert(s.remove(i).drop_last() =~= s.drop_last().remove(i));
        assert(s.remove(i).last() == s.last());
    }
}

proof fn lemma_sum_in_any_order(a: Seq<Shape>, b: Seq<Shape>, f: spec_fn(Shape) -> int)
    requires
        a.to_multiset() == b.to_multiset(),
    ensures
        a.len() == b.len(),
        sum_of(a, f) == sum_of(b, f),
    decreases a.len(),
{
    broadcast use vstd::seq_lib::group_to_multiset_ensures;

    assert(a.len() == a.to_multiset().len());
    assert(b.len() == b.to_multiset().len());
    if a.len() > 0 {
        let x = a.last();
        assert(a.contains(x));
        assert(a.to_multiset().count(x) > 0);
        assert(b.to_multiset().count(x) > 0);
        assert(b.contains(x));
        let i = choose|i: int| 0 <= i < b.len() && b[i] == x;
        lemma_sum_without(b, i, f);
        assert(a.remove(a.len() - 1) =~= a.drop_last());
        assert(a.remove(a.len() - 1).to_multiset() == a.to_multiset().remove(x));
        assert(b.remove(i).to_multiset() == b.to_multiset().remove(x));
        lemma_sum_in_any_order(a.drop_last(), b.remove(i), f);
    }
}

proof fn lemma_sum_of_measured(s: Seq<Shape>, f: spec_fn(Shape) -> int)
    requires
        forall|x: Shape| #[trigger] f(x) == f(Shape { width: Some(bits(x)), ..x }),
    ensures
        sum_of(measured(s), f) == sum_of(s, f),
    decreases s.len(),
{
    if s.len() > 0 {
        lemma_sum_of_measured(s.drop_last(), f);
        assert(measured(s).drop_last() =~= measured(s.drop_last()));
        assert(f(s.last()) == f(measured(s).last()));
    }
}

proof fn lemma_same_sum(a: Seq<Shape>, b: Seq<Shape>, f: spec_fn(Shape) -> int)
    requires
        same_inputs(a, b),
        forall|x: Shape| #[trigger] f(x) == f(Shape { width: Some(bits(x)), ..x }),
    ensures
        a.len() == b.len(),
        sum_of(a, f) == sum_of(b, f),
{
    lemma_sum_in_any_order(measured(a), measured(b), f);
    lemma_sum_of_measured(a, f);
    lemma_sum_of_measured(b, f);
}

proof fn lemma_totals(s: Seq<Shape>, n: nat, sizes: Seq<u32>)
    requires
        n <= s.len(),
    ensures
        total_bits(s, n) == sum_of(s.take(n as int), own_bits()),
        vector_bits(s, n) == sum_of(s.take(n as int), own_vector_bits()),
        unpacked(s, n, sizes) == sum_of(s.take(n as int), is_unpacked(sizes)),
    decreases n,
{
    if n > 0 {
        lemma_totals(s, (n - 1) as nat, sizes);
        assert(s.take(n as int).drop_last() =~= s.take(n - 1));
    }
}

proof fn lemma_count_bound(s: Seq<Shape>, sizes: Seq<u32>, w: usize)
    ensures
        0 <= sum_of(s, is_packed(sizes, w)) <= s.len(),
    decreases s.len(),
{
    if s.len() > 0 {
        lemma_count_bound(s.drop_last(), sizes, w);
    }
}

proof fn lemma_tally_counts(s: Seq<Shape>, n: nat, sizes: Seq<u32>)
    requires
        n <= s.len() <= u32::MAX,
    ensures
        increasing(keys(tallied(s, n, sizes))),
        forall|w: usize| #[trigger]
            lookup(tallied(s, n, sizes), w) == if sum_of(s.take(n as int), is_packed(sizes, w))
                > 0 {
                Some(sum_of(s.take(n as int), is_packed(sizes, w)) as u32)
            } else {
                None
            },
    decreases n,
{
    let r = tallied(s, n, sizes);
    if n == 0 {
        assert(keys(r) =~= Seq::<usize>::empty());
    } else {
        lemma_tally_counts(s, (n - 1) as nat, sizes);
        let t = tallied(s, (n - 1) as nat, sizes);
        let here = bits(s[n - 1]);
        let before = s.take(n - 1);
        assert(s.take(n as int).drop_last() =~= before);
        if sizes.contains(here) {
            let c = if holds(t, here as usize) {
                value_of(t, here as usize)
            } else {
                0
            };
            lemma_put(t, here as usize, (c + 1) as u32);
        }
        assert forall|w: usize| #[trigger]
            lookup(r, w) == if sum_of(s.take(n as int), is_packed(sizes, w)) > 0 {
                Some(sum_of(s.take(n as int), is_packed(sizes, w)) as u32)
            } else {
                None
            } by {
            lemma_count_bound(before, sizes, w);
            assert(lookup(t, w) == if sum_of(before, is_packed(sizes, w)) > 0 {
                Some(sum_of(before, is_packed(sizes, w)) as u32)
            } else {
                None
            });
        }
    }
}

proof fn lemma_same_tally(a: Seq<Shape>, b: Seq<Shape>, sizes: Seq<u32>)
    requires
        same_inputs(a, b),
        a.len() == b.len() <= u32::MAX,
    ensures
        tallied(a, a.len(), sizes) == tallied(b, b.len(), sizes),
{
    let n = a.len();
    lemma_tally_counts(a, n, sizes);
    lemma_tally_counts(b, n, sizes);
    assert(a.take(n as int) =~= a);
    assert(b.take(n as int) =~= b);
    let (t, u) = (tallied(a, n, sizes), tallied(b, n, sizes));
    assert forall|w: usize| #[trigger] lookup(t, w) == lookup(u, w) by {
        lemma_same_sum(a, b, is_packed(sizes, w));
    }
    lemma_same_entries(t, u);
}

proof fn lemma_same_fits(a: Seq<Shape>, b: Seq<Shape>, i: int) -> (j: int)
    requires
        same_inputs(a, b),
        0 <= i < b.len(),
    ensures
        0 <= j < a.len(),
        bits(a[j]) == bits(b[i]),
{
    broadcast use vstd::seq_lib::group_to_multiset_ensures;

    let x = measured(b)[i];
    assert(measured(b).contains(x));
    assert(measured(b).to_multiset().count(x) > 0);
    assert(measured(a).contains(x));
    let j = choose|j: int| 0 <= j < measured(a).len() && measured(a)[j] == x;
    assert(measured(a)[j].width == Some(bits(a[j])));
    assert(measured(b)[i].width == Some(bits(b[i])));
    j
}

/// The order of the inputs, and whether a width of 32 bits is stated, make no
/// difference: where the bits of the ones can be counted, so can those of the
/// others, and both are accepted or neither.
pub proof fn law_order_makes_no_difference(
    config: CiEncodingConfig,
    a: Seq<Shape>,
    b: Seq<Shape>,
)
    requires
        countable(config, a),
        same_inputs(a, b),
    ensures
        countable(config, b),
        accepted(config, a) == accepted(config, b),
{
    let sizes = config.packed_access.pack_sizes@;
    lemma_same_sum(a, b, own_bits());
    lemma_same_sum(a, b, own_vector_bits());
    lemma_same_sum(a, b, is_unpacked(sizes));
    lemma_totals(a, a.len(), sizes);
    lemma_totals(b, b.len(), sizes);
    assert(a.take(a.len() as int) =~= a);
    assert(b.take(b.len() as int) =~= b);
    if a.len() as u32 <= input_limit(config) {
        lemma_same_tally(a, b, sizes);
        assert forall|i: int|
            0 <= i < b.len() && total_bits(a, a.len()) > config.max_total_bits
                && config.packed_access.enabled && sizes.contains(
                bits(#[trigger] b[i]),
            ) implies bits(b[i]) <= config.packed_access.max_packed_width by {
            let j = lemma_same_fits(a, b, i);
            assert(sizes.contains(bits(a[j])));
        }
    }
}

// ---------------------------------------------------------------------------
// The number of inputs
// ---------------------------------------------------------------------------

/// Whether `least` is the least of the sizes, or 8 where there is none.
pub open spec fn is_least(sizes: Seq<u32>, least: u32) -> bool {
    if sizes.len() == 0 {
        least == 8
    } else {
        sizes.contains(least) && forall|i: int| 0 <= i < sizes.len() ==> least
            <= #[trigger] sizes[i]
    }
}

proof fn lemma_smallest(sizes: Seq<u32>)
    ensures
        is_least(sizes, smallest(sizes)),
    decreases sizes.len(),
{
    if sizes.len() == 1 {
        assert(sizes[0] == smallest(sizes));
    } else if sizes.len() > 1 {
        let less = sizes.drop_last();
        lemma_smallest(less);
        let k = choose|k: int| 0 <= k < less.len() && less[k] == smallest(less);
        assert(sizes[k] == less[k]);
        assert(sizes[sizes.len() - 1] == sizes.last());
        assert forall|i: int| 0 <= i < sizes.len() implies smallest(sizes)
            <= #[trigger] sizes[i] by {
            if i < less.len() {
                assert(less[i] == sizes[i]);
            }
        }
    }
}

/// As many registers can be named as their names fit into the bits, each with
/// its neighbors, and each holds as many inputs of the least width as fit, but
/// at least one.
pub proof fn law_most_inputs(config: &CiEncodingConfig, least: u32, r: u32)
    requires
        has_input_limit(*config),
        is_least(config.packed_access.pack_sizes@, least),
        call_ensures(max_inputs, (config,), r),
    ensures
        ({
            let name = if config.register_grouping.enabled {
                config.register_grouping.dis_bits as int
            } else {
                config.default_bits_per_register as int
            };
            let together = if config.register_neighboring.enabled {
                1 + config.register_neighboring.max_neighbors
            } else {
                1
            };
            let shared = config.packed_access.max_packed_width as int / least as int;
            if config.packed_access.enabled && shared > 1 {
                r == (config.max_total_bits as int / name) * together * shared
            } else {
                r == (config.max_total_bits as int / name) * together
            }
        }),
{
    let sizes = config.packed_access.pack_sizes@;
    lemma_smallest(sizes);
    if sizes.len() > 0 {
        let m = smallest(sizes);
        let i = choose|i: int| 0 <= i < sizes.len() && sizes[i] == least;
        let j = choose|j: int| 0 <= j < sizes.len() && sizes[j] == m;
        assert(sizes[i] >= m && sizes[j] >= least);
    }
    let a = named_inputs(*config) * neighbors(*config);
    let b = packed_inputs(*config);
    assert(b == 1 ==> a * b == a) by (nonlinear_arith);
}

// ---------------------------------------------------------------------------
// Registers
// ---------------------------------------------------------------------------

/// The bits that are taken out of the counts from the `i`th on.
pub open spec fn bits_taken(
    counts: Seq<(usize, u32)>,
    rest: Seq<(usize, u32)>,
    i: int,
) -> int
    decreases counts.len() - i,
{
    if i >= counts.len() {
        0
    } else {
        counts[i].0 * (counts[i].1 - rest[i].1) + bits_taken(counts, rest, i + 1)
    }
}

/// Whether `rest` is what is left when one register is filled, the last widths
/// first: of each as many values as there are or as fit behind those before.
pub open spec fn is_left_over(
    counts: Seq<(usize, u32)>,
    rest: Seq<(usize, u32)>,
    width: u32,
) -> bool {
    &&& rest.len() == counts.len()
    &&& forall|i: int|
        0 <= i < counts.len() ==> (#[trigger] rest[i]).0 == counts[i].0 && rest[i].1 <= counts[i].1
    &&& forall|i: int|
        0 <= i < counts.len() ==> #[trigger] bits_taken(counts, rest, i) <= width && (rest[i].1 > 0
            ==> bits_taken(counts, rest, i) + counts[i].0 > width)
}

proof fn lemma_taken_before(
    counts: Seq<(usize, u32)>,
    rest: Seq<(usize, u32)>,
    x: (usize, u32),
    y: (usize, u32),
    i: int,
)
    requires
        0 <= i <= counts.len() == rest.len(),
    ensures
        bits_taken(counts.push(x), rest.push(y), i) == bits_taken(counts, rest, i) + x.0 * (x.1
            - y.1),
    decreases counts.len() - i,
{
    let (a, b) = (counts.push(x), rest.push(y));
    if i < counts.len() {
        lemma_taken_before(counts, rest, x, y, i + 1);
        assert(a[i] == counts[i] && b[i] == rest[i]);
    } else {
        assert(a[i] == x && b[i] == y);
        assert(bits_taken(a, b, i + 1) == 0);
    }
}

proof fn lemma_left_over(counts: Seq<(usize, u32)>, space: u32)
    ensures
        is_left_over(counts, after_filling(counts, space), space),
    decreases counts.len(),
{
    if counts.len() > 0 {
        let (w, c) = counts.last();
        let k = fitting(w, c, space);
        lemma_fitting(w, c, space);
        assert(k * w >= 0) by (nonlinear_arith);
        let left = (space - k * w) as u32;
        let init = counts.drop_last();
        lemma_left_over(init, left);
        let u = after_filling(init, left);
        let y = (w, (c - k) as u32);
        let t = u.push(y);
        assert(counts =~= init.push(counts.last()));
        assert(w * (c - y.1) == k * w) by (nonlinear_arith)
            requires
                c - y.1 == k,
        ;
        assert((k + 1) * w == k * w + w) by (nonlinear_arith);
        assert forall|i: int| 0 <= i < counts.len() implies #[trigger] bits_taken(counts, t, i)
            <= space && (t[i].1 > 0 ==> bits_taken(counts, t, i) + counts[i].0 > space) by {
            lemma_taken_before(init, u, counts.last(), y, i);
            if i < init.len() {
                assert(bits_taken(init, u, i) <= left);
                assert(t[i] == u[i] && counts[i] == init[i]);
            } else {
                assert(bits_taken(init, u, i) == 0);
            }
        }
        assert forall|i: int| 0 <= i < counts.len() implies (#[trigger] t[i]).0 == counts[i].0
            && t[i].1 <= counts[i].1 by {
            if i < init.len() {
                assert(t[i] == u[i] && counts[i] == init[i]);
            }
        }
    }
}

/// Where there are values, one register is filled, the widest values first,
/// and what is left is packed the same way. Where there are none, no register
/// is needed.
pub proof fn law_one_register_after_the_other(counts: Seq<(usize, u32)>, width: u32)
    requires
        each_fits(counts, width),
    ensures
        (forall|i: int| 0 <= i < counts.len() ==> (#[trigger] counts[i]).1 == 0)
            ==> packed_registers(counts, width) == 0,
        (exists|i: int| 0 <= i < counts.len() && (#[trigger] counts[i]).1 > 0) ==> exists|
            rest: Seq<(usize, u32)>,
        | #[trigger]
            is_left_over(counts, rest, width) && packed_registers(counts, width) == 1
                + packed_registers(rest, width),
{
    let rest = after_filling(counts, width);
    lemma_left_over(counts, width);
    lemma_after_filling(counts, width);
    lemma_some_values(counts);
    assert(is_left_over(counts, rest, width));
}

proof fn lemma_some_values(counts: Seq<(usize, u32)>)
    ensures
        values(counts) >= 0,
        values(counts) > 0 <==> exists|i: int| 0 <= i < counts.len() && (#[trigger] counts[i]).1
            > 0,
    decreases counts.len(),
{
    if counts.len() > 0 {
        let less = counts.drop_last();
        lemma_some_values(less);
        if exists|i: int| 0 <= i < less.len() && (#[trigger] less[i]).1 > 0 {
            let i = choose|i: int| 0 <= i < less.len() && (#[trigger] less[i]).1 > 0;
            assert(counts[i] == less[i]);
        }
        if exists|i: int| 0 <= i < counts.len() && (#[trigger] counts[i]).1 > 0 {
            let i = choose|i: int| 0 <= i < counts.len() && (#[trigger] counts[i]).1 > 0;
            if i < less.len() {
                assert(less[i] == counts[i]);
            }
        }
        assert(counts[counts.len() - 1] == counts.last());
    }
}

/// The width of an input, in bits.
pub open spec fn width_of(s: Shape) -> u32 {
    if s.width is Some {
        s.width->Some_0
    } else {
        32
    }
}

proof fn lemma_counted(s: Seq<Shape>, sizes: Seq<u32>, w: usize)
    ensures
        sum_of(s, is_packed(sizes, w)) == s.filter(
            |x: Shape| sizes.contains(width_of(x)) && width_of(x) == w,
        ).len(),
        sum_of(s, is_unpacked(sizes)) == s.filter(|x: Shape| !sizes.contains(width_of(x))).len(),
    decreases s.len(),
{
    reveal(Seq::filter);
    if s.len() > 0 {
        lemma_counted(s.drop_last(), sizes, w);
    }
}

/// Whether `counts` are the packed widths of the inputs, in ascending order,
/// each with the number of inputs that have it.
pub open spec fn are_counts(
    counts: Seq<(usize, u32)>,
    shapes: Seq<Shape>,
    sizes: Seq<u32>,
) -> bool {
    &&& forall|i: int, j: int|
        0 <= i < j < counts.len() ==> (#[trigger] counts[i]).0 < (#[trigger] counts[j]).0
    &&& forall|i: int|
        0 <= i < counts.len() ==> (#[trigger] counts[i]).1 > 0 && counts[i].1 == shapes.filter(
            |x: Shape| sizes.contains(width_of(x)) && width_of(x) == counts[i].0,
        ).len()
    &&& forall|k: int|
        0 <= k < shapes.len() && sizes.contains(width_of(#[trigger] shapes[k])) ==> exists|i: int|
            0 <= i < counts.len() && (#[trigger] counts[i]).0 == width_of(shapes[k])
}

/// Without packing each input takes a register. With packing those take one
/// each whose width is not packed, and the others take as many as packing them
/// takes.
pub proof fn law_registers(config: CiEncodingConfig, shapes: Seq<Shape>)
    requires
        shapes.len() <= u32::MAX,
    ensures
        !config.packed_access.enabled ==> registers(config, shapes) == shapes.len(),
        config.packed_access.enabled ==> exists|counts: Seq<(usize, u32)>| #[trigger]
            are_counts(counts, shapes, config.packed_access.pack_sizes@) && registers(
                config,
                shapes,
            ) == shapes.filter(
                |x: Shape| !config.packed_access.pack_sizes@.contains(width_of(x)),
            ).len() + packed_registers(counts, config.packed_access.max_packed_width),
{
    if config.packed_access.enabled {
        let sizes = config.packed_access.pack_sizes@;
        let n = shapes.len();
        let t = tallied(shapes, n, sizes);
        assert(shapes.take(n as int) =~= shapes);
        lemma_tally_counts(shapes, n, sizes);
        lemma_totals(shapes, n, sizes);
        lemma_counted(shapes, sizes, 0);
        assert forall|i: int, j: int| 0 <= i < j < t.len() implies (#[trigger] t[i]).0 < (
        #[trigger] t[j]).0 by {
            assert(keys(t)[i] < keys(t)[j]);
        }
        assert forall|i: int| 0 <= i < t.len() implies (#[trigger] t[i]).1 > 0 && t[i].1
            == shapes.filter(
            |x: Shape| sizes.contains(width_of(x)) && width_of(x) == t[i].0,
        ).len() by {
            let w = t[i].0;
            lemma_counted(shapes, sizes, w);
            lemma_count_bound(shapes, sizes, w);
            lemma_entry(t, i);
            assert(lookup(t, w) == Some(t[i].1));
        }
        assert forall|k: int|
            0 <= k < shapes.len() && sizes.contains(width_of(#[trigger] shapes[k])) implies exists|
            i: int,
        |
            0 <= i < t.len() && (#[trigger] t[i]).0 == width_of(shapes[k]) by {
            let w = width_of(shapes[k]) as usize;
            lemma_counts_one(shapes, sizes, w, k);
            assert(lookup(t, w) is Some);
        }
        assert(are_counts(t, shapes, sizes));
    }
}

proof fn lemma_entry(t: Seq<(usize, u32)>, i: int)
    requires
        increasing(keys(t)),
        0 <= i < t.len(),
    ensures
        lookup(t, t[i].0) == Some(t[i].1),
{
    assert(keys(t)[i] == t[i].0);
    lemma_slot_is(keys(t), t[i].0, i);
    assert(holds(t, t[i].0));
}

proof fn lemma_counts_one(s: Seq<Shape>, sizes: Seq<u32>, w: usize, k: int)
    requires
        0 <= k < s.len(),
        sizes.contains(width_of(s[k])),
        width_of(s[k]) == w,
    ensures
        sum_of(s, is_packed(sizes, w)) > 0,
    decreases s.len(),
{
    lemma_count_bound(s.drop_last(), sizes, w);
    if k < s.len() - 1 {
        lemma_counts_one(s.drop_last(), sizes, w, k);
    }
}

// ---------------------------------------------------------------------------
// The filter
// ---------------------------------------------------------------------------

/// The sum of the numbers.
pub open spec fn added_up(s: Seq<int>) -> int {
    s.fold_left(0int, |a: int, b: int| a + b)
}

proof fn lemma_added_up(s: Seq<Shape>, f: spec_fn(Shape) -> int)
    ensures
        sum_of(s, f) == added_up(Seq::new(s.len(), |i: int| f(s[i]))),
    decreases s.len(),
{
    let t = Seq::new(s.len(), |i: int| f(s[i]));
    if s.len() > 0 {
        lemma_added_up(s.drop_last(), f);
        assert(t.drop_last() =~= Seq::new(s.drop_last().len(), |i: int| f(s.drop_last()[i])));
    }
}

/// Inputs can be encoded where there are no more than the limit and their own
/// bits fit; or the bits that name their registers, and those of the vectors;
/// or the bits that name every so many-th register, where naming one brings in
/// its neighbors; or the bits that name those within groups, and those of the
/// vectors.
pub proof fn law_what_can_be_encoded(
    config: &CiEncodingConfig,
    shapes: &Vec<Shape>,
    limit: u32,
    r: bool,
)
    requires
        countable(*config, shapes@),
        shapes@.len() <= u32::MAX,
        call_ensures(max_inputs, (config,), limit),
        call_ensures(shape_filter, (config, shapes), r),
    ensures
        ({
            let s = shapes@;
            let (near, group) = (config.register_neighboring, config.register_grouping);
            let own = added_up(Seq::new(s.len(), |i: int| width_of(s[i]) as int));
            let vectors = added_up(
                Seq::new(
                    s.len(),
                    |i: int|
                        if s[i].length > 1 {
                            s[i].extra_vector_bits as int
                        } else {
                            0
                        },
                ),
            );
            let regs = registers(*config, s);
            let (named, room) = if near.enabled {
                (
                    (regs + near.max_neighbors) / (near.max_neighbors + 1),
                    config.max_total_bits - near.neighbor_extra_bits,
                )
            } else {
                (regs, config.max_total_bits as int)
            };
            r <==> s.len() <= limit && (own <= config.max_total_bits || regs
                * config.default_bits_per_register + vectors <= config.max_total_bits || named
                * config.default_bits_per_register <= room || (group.enabled && named
                * group.dis_bits + vectors <= room - group.hand_bits))
        }),
{
    let s = shapes@;
    let n = s.len();
    assert(s.take(n as int) =~= s);
    lemma_totals(s, n, Seq::empty());
    lemma_added_up(s, own_bits());
    lemma_added_up(s, own_vector_bits());
    assert(Seq::new(n, |i: int| own_bits()(s[i])) =~= Seq::new(
        n,
        |i: int| width_of(s[i]) as int,
    ));
    assert(Seq::new(n, |i: int| own_vector_bits()(s[i])) =~= Seq::new(
        n,
        |i: int|
            if s[i].length > 1 {
                s[i].extra_vector_bits as int
            } else {
                0
            },
    ));
}

} // verus!
