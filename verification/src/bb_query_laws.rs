//! What the measurements of a trace say of its records.
use crate::bb_query::{
    csv_rows, entries_of, entry_of, field_count, measured_cpo, most_executions,
    normalizing_factor, readable, record_views, rows_readable, BBQuery,
};
use crate::number::{clamped, Fixed, Number};
use vstd::prelude::*;

verus! {

/// Whether record `i` is the last one with its name.
pub open spec fn is_last(records: Seq<Seq<Seq<char>>>, i: int) -> bool {
    &&& 0 <= i < records.len()
    &&& forall|j: int| i < j < records.len() ==> #[trigger] records[j][0] != records[i][0]
}

proof fn lemma_entries<N: Number>(rs: Seq<Seq<Seq<char>>>, n: nat, factor: N, i: int)
    requires
        0 <= i < n <= rs.len(),
        forall|j: int| i < j < n ==> #[trigger] rs[j][0] != rs[i][0],
    ensures
        entries_of(rs, n, factor).dom().contains(rs[i][0]),
        entries_of(rs, n, factor)[rs[i][0]] == entry_of(rs[i], factor),
    decreases n,
{
    if i < n - 1 {
        assert(rs[n - 1][0] != rs[i][0]);
        lemma_entries(rs, (n - 1) as nat, factor, i);
    }
}

proof fn lemma_names<N: Number>(rs: Seq<Seq<Seq<char>>>, n: nat, factor: N, name: Seq<char>)
    requires
        n <= rs.len(),
    ensures
        entries_of(rs, n, factor).dom().contains(name) <==> exists|i: int|
            0 <= i < n && #[trigger] rs[i][0] == name,
    decreases n,
{
    if n > 0 {
        lemma_names(rs, (n - 1) as nat, factor, name);
        if exists|i: int| 0 <= i < n && #[trigger] rs[i][0] == name {
            let i = choose|i: int| 0 <= i < n && #[trigger] rs[i][0] == name;
            if i < n - 1 {
                assert(rs[i][0] == name);
            }
        }
        if rs[n - 1][0] == name {
            assert(0 <= n - 1 < n);
        }
    }
}

/// The blocks that were measured are those of the records.
pub proof fn law_every_record_has_its_block<N: Number>(
    records: &Vec<Vec<String>>,
    q: BBQuery<N>,
    name: Seq<char>,
)
    requires
        rows_readable::<N>(record_views(records@)),
        call_ensures(BBQuery::<N>::new, (records,), q),
    ensures
        q@.map.dom().contains(name) <==> exists|i: int|
            0 <= i < records@.len() && #[trigger] record_views(records@)[i][0] == name,
{
    let rs = record_views(records@);
    lemma_names(rs, rs.len(), q@.factor, name);
}

/// The measurements of a block are those of its last record: the counts and
/// the ticks as they are written, thousandths of cycles per instruction in
/// cycles, and the execution count times the factor.
pub proof fn law_blocks_have_their_record<N: Number>(
    records: &Vec<Vec<String>>,
    q: BBQuery<N>,
    i: int,
)
    requires
        rows_readable::<N>(record_views(records@)),
        call_ensures(BBQuery::<N>::new, (records,), q),
        is_last(record_views(records@), i),
    ensures
        ({
            let record = record_views(records@)[i];
            let entry = q@.map[record[0]];
            &&& q@.map.dom().contains(record[0])
            &&& entry.name == record[0]
            &&& field_count(record[1]) == Some(entry.execution_count)
            &&& N::s_read(record[2]) == Some(entry.total_ticks)
            &&& N::s_read(record[3]) == Some(entry.average_ticks)
            &&& field_count(record[4]) == Some(entry.instr_count)
            &&& field_count(record[5]) == Some(entry.operation_count)
            &&& entry.cpi == N::s_read(record[6])->Some_0.s_over(N::s_count(1000))
            &&& entry.execution_count_normalized == N::s_read(record[1])->Some_0.s_times(q@.factor)
        }),
{
    let rs = record_views(records@);
    lemma_entries(rs, rs.len(), q@.factor, i);
    assert(readable::<N>(rs[i]));
}

/// The execution counts of the records.
pub open spec fn executions(records: Seq<Seq<Seq<char>>>) -> Seq<Fixed> {
    Seq::new(records.len(), |j: int| Fixed::s_read(records[j][1])->Some_0)
}

/// The largest of the first `n` numbers, or zero.
spec fn largest(s: Seq<Fixed>, n: nat) -> Fixed
    decreases n,
{
    if n == 0 {
        Fixed::s_zero()
    } else {
        largest(s, (n - 1) as nat).s_larger(s[n - 1])
    }
}

proof fn lemma_largest(s: Seq<Fixed>, n: nat)
    requires
        n <= s.len(),
    ensures
        largest(s, n).raw >= 0,
        forall|j: int| 0 <= j < n ==> (#[trigger] s[j]).raw <= largest(s, n).raw,
        largest(s, n).raw > 0 ==> exists|j: int| 0 <= j < n && #[trigger] s[j] == largest(s, n),
    decreases n,
{
    if n > 0 {
        lemma_largest(s, (n - 1) as nat);
        let before = largest(s, (n - 1) as nat);
        if before.raw < s[n - 1].raw {
            assert(s[n - 1] == largest(s, n));
        } else if before.raw > 0 {
            let j = choose|j: int| 0 <= j < n - 1 && #[trigger] s[j] == before;
            assert(s[j] == largest(s, n));
        }
    }
}

proof fn lemma_most_executions(rs: Seq<Seq<Seq<char>>>, n: nat)
    requires
        n <= rs.len(),
    ensures
        most_executions::<Fixed>(rs, n) == largest(executions(rs), n),
    decreases n,
{
    if n > 0 {
        lemma_most_executions(rs, (n - 1) as nat);
        assert(executions(rs)[n - 1] == Fixed::s_read(rs[n - 1][1])->Some_0);
    }
}

proof fn lemma_at_most(s: Seq<Fixed>, i: int)
    requires
        0 <= i < s.len(),
        exists|j: int| 0 <= j < s.len() && (#[trigger] s[j]).raw > 0,
    ensures
        ({
            let r = s[i].s_times(normalizing_factor(largest(s, s.len())));
            &&& r.raw <= 10_000_000
            &&& (forall|j: int| 0 <= j < s.len() ==> (#[trigger] s[j]).raw <= s[i].raw)
                ==> r.raw * 1000 + s[i].raw + 1000 > 10_000_000_000
        }),
{
    let max = largest(s, s.len());
    lemma_largest(s, s.len());
    let k = choose|j: int| 0 <= j < s.len() && (#[trigger] s[j]).raw > 0;
    assert(s[k].raw <= max.raw);
    assert(s[i].raw <= max.raw);
    lemma_normalized(s[i], max);
    if forall|j: int| 0 <= j < s.len() ==> (#[trigger] s[j]).raw <= s[i].raw {
        let j = choose|j: int| 0 <= j < s.len() && #[trigger] s[j] == max;
        assert(s[j].raw <= s[i].raw);
        assert(s[i] == max);
    }
}

/// What becomes of `count` thousandths of an execution where there are at most
/// `max`.
proof fn lemma_normalized(count: Fixed, max: Fixed)
    requires
        count.raw <= max.raw,
        max.raw > 0,
    ensures
        ({
            let r = count.s_times(normalizing_factor(max));
            &&& r.raw <= 10_000_000
            &&& count == max ==> r.raw * 1000 + max.raw + 1000 > 10_000_000_000
        }),
{
    let m = max.raw as int;
    let c = count.raw as int;
    let f = 10_000_000_000int / m;
    assert(0 <= f && f * m <= 10_000_000_000 && f * m + m > 10_000_000_000) by (nonlinear_arith)
        requires
            m > 0,
            f == 10_000_000_000int / m,
    ;
    assert(f <= 10_000_000_000) by (nonlinear_arith)
        requires
            m > 0,
            f >= 0,
            f * m <= 10_000_000_000,
    ;
    assert(normalizing_factor(max).raw == f);
    if c >= 0 {
        assert(0 <= c * f <= 10_000_000_000) by (nonlinear_arith)
            requires
                0 <= c <= m,
                f >= 0,
                f * m <= 10_000_000_000,
        ;
        assert(c == m ==> c * f == f * m) by (nonlinear_arith);
    } else {
        assert(c * f <= 0) by (nonlinear_arith)
            requires
                c < 0,
                f >= 0,
        ;
    }
}

/// The block with the most executions has ten thousand of them when they are
/// normalized, up to rounding, and no block has more.
pub proof fn law_most_frequent_block_has_ten_thousand(
    records: &Vec<Vec<String>>,
    q: BBQuery<Fixed>,
    i: int,
)
    requires
        rows_readable::<Fixed>(record_views(records@)),
        call_ensures(BBQuery::<Fixed>::new, (records,), q),
        is_last(record_views(records@), i),
        ({
            let s = executions(record_views(records@));
            exists|j: int| 0 <= j < s.len() && (#[trigger] s[j]).raw > 0
        }),
    ensures
        ({
            let rs = record_views(records@);
            let s = executions(rs);
            let normalized = q@.map[rs[i][0]].execution_count_normalized;
            &&& normalized.raw <= 10_000_000
            &&& (forall|j: int| 0 <= j < s.len() ==> (#[trigger] s[j]).raw <= s[i].raw)
                ==> normalized.raw * 1000 + s[i].raw + 1000 > 10_000_000_000
        }),
{
    let rs = record_views(records@);
    lemma_entries(rs, rs.len(), q@.factor, i);
    lemma_most_executions(rs, rs.len());
    lemma_at_most(executions(rs), i);
    assert(q@.map[rs[i][0]].execution_count_normalized == executions(rs)[i].s_times(q@.factor));
}

/// Where nothing was executed, nothing is after normalizing.
pub proof fn law_without_executions_there_are_none(
    records: &Vec<Vec<String>>,
    q: BBQuery<Fixed>,
    i: int,
)
    requires
        rows_readable::<Fixed>(record_views(records@)),
        call_ensures(BBQuery::<Fixed>::new, (records,), q),
        is_last(record_views(records@), i),
        ({
            let s = executions(record_views(records@));
            forall|j: int| 0 <= j < s.len() ==> (#[trigger] s[j]).raw <= 0
        }),
    ensures
        q@.map[record_views(records@)[i][0]].execution_count_normalized.raw == 0,
{
    let rs = record_views(records@);
    let s = executions(rs);
    lemma_entries(rs, rs.len(), q@.factor, i);
    lemma_most_executions(rs, rs.len());
    lemma_largest(s, s.len());
    assert(q@.map[rs[i][0]].execution_count_normalized == s[i].s_times(q@.factor));
    assert(s[i].raw * 0 == 0);
}

/// A number that is not negative by a count, in thousandths.
proof fn lemma_share(x: Fixed, n: usize)
    requires
        x.raw >= 0,
        0 < n,
        n * 1000 <= i64::MAX,
    ensures
        x.s_over(Fixed::s_count(n)).raw == x.raw as int / (n as int),
        x.s_over(Fixed::s_count(n)).raw >= 0,
{
    let a = x.raw as int;
    let m = n as int;
    assert((a * 1000) / (m * 1000) == a / m) by (nonlinear_arith)
        requires
            a >= 0,
            m > 0,
    ;
    assert(0 <= a / m <= a) by (nonlinear_arith)
        requires
            a >= 0,
            m > 0,
    ;
}

/// The cycles per operation are the ticks of an execution, in thousands,
/// shared among the operations, up to rounding. Where that is more than twenty
/// times the cycles per instruction, they are twice those; where it is
/// nothing, or nothing was measured, they are one.
pub proof fn law_cycles_per_operation(records: &Vec<Vec<String>>, q: BBQuery<Fixed>, i: int)
    requires
        rows_readable::<Fixed>(record_views(records@)),
        call_ensures(BBQuery::<Fixed>::new, (records,), q),
        is_last(record_views(records@), i),
        ({
            let entry = q@.map[record_views(records@)[i][0]];
            &&& entry.total_ticks.raw >= 0
            &&& entry.cpi.raw > 0
            &&& entry.execution_count * 1000 <= i64::MAX
            &&& entry.operation_count * 1000 <= i64::MAX
        }),
    ensures
        ({
            let entry = q@.map[record_views(records@)[i][0]];
            let (runs, ops) = (entry.execution_count as int, entry.operation_count as int);
            if runs == 0 || ops == 0 {
                entry.cpo == Fixed::s_count(1)
            } else {
                exists|m: int| #[trigger]
                    is_share(m, entry.total_ticks.raw as int, runs * ops * 1000) && if m * 1000
                        / (entry.cpi.raw as int) > 20_000 {
                        entry.cpo == entry.cpi.s_times(Fixed::s_count(2))
                    } else if m == 0 {
                        entry.cpo == Fixed::s_count(1)
                    } else {
                        entry.cpo.raw == m
                    }
            }
        }),
{
    let rs = record_views(records@);
    lemma_entries(rs, rs.len(), q@.factor, i);
    let entry = q@.map[rs[i][0]];
    assert(entry == entry_of(rs[i], q@.factor));
    let (runs, ops) = (entry.execution_count as int, entry.operation_count as int);
    let measured = measured_cpo(entry.total_ticks, entry.execution_count, entry.operation_count);
    let cpi = entry.cpi.raw as int;
    if runs > 0 && ops > 0 {
        let a = entry.total_ticks;
        let b = a.s_over(Fixed::s_count(entry.execution_count));
        let c = b.s_over(Fixed::s_count(entry.operation_count));
        lemma_share(a, entry.execution_count);
        lemma_share(b, entry.operation_count);
        lemma_share(c, 1000);
        let m = measured.raw as int;
        let t = a.raw as int;
        assert(m == t / runs / ops / 1000);
        assert(runs * ops > 0) by (nonlinear_arith)
            requires
                runs > 0,
                ops > 0,
        ;
        vstd::arithmetic::div_mod::lemma_div_denominator(t, runs, ops);
        vstd::arithmetic::div_mod::lemma_div_denominator(t, runs * ops, 1000);
        let d = runs * ops * 1000;
        assert(m == t / d);
        assert(m * d <= t && t < m * d + d) by (nonlinear_arith)
            requires
                m == t / d,
                d > 0,
        ;
        assert(is_share(m, t, d));
        let x = m * 1000;
        assert(0 <= x / cpi <= x) by (nonlinear_arith)
            requires
                x >= 0,
                cpi > 0,
        ;
        assert(measured.s_over(entry.cpi).raw == clamped(x / cpi));
    } else {
        assert(measured.raw == 0);
        assert(0int / cpi == 0) by (nonlinear_arith)
            requires
                cpi > 0,
        ;
    }
}

/// Whether `m` is `total` divided by `parts`, rounded down.
pub open spec fn is_share(m: int, total: int, parts: int) -> bool {
    m * parts <= total && total < m * parts + parts
}

/// Reading the text of a trace is reading its records.
pub proof fn law_trace_is_its_records<N: Number>(
    text: &str,
    records: &Vec<Vec<String>>,
    r: Option<BBQuery<N>>,
    q: BBQuery<N>,
)
    requires
        csv_rows(text@) == Some(record_views(records@)),
        rows_readable::<N>(record_views(records@)),
        call_ensures(BBQuery::<N>::from_csv, (text,), r),
        call_ensures(BBQuery::<N>::new, (records,), q),
    ensures
        r is Some,
        r->Some_0@ == q@,
{
}

} // verus!
