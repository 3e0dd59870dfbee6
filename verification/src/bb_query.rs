//! Measurements of basic blocks: how often each ran and how many cycles an
//! operation of it takes.
use crate::number::Number;
use crate::text::{parse_usize, texts, unsigned_value};
use vstd::prelude::*;

verus! {

/// The measurements of one basic block.
#[derive(Debug)]
pub struct BBEntry<N: Number> {
    pub name: String,
    pub execution_count: usize,
    pub execution_count_normalized: N,
    pub total_ticks: N,
    pub average_ticks: N,
    pub instr_count: usize,
    pub operation_count: usize,
    /// Cycles per instruction.
    pub cpi: N,
    /// Cycles per operation.
    pub cpo: N,
}

/// The contents of a [`BBEntry`].
#[verifier::ext_equal]
pub struct EntryView<N> {
    pub name: Seq<char>,
    pub execution_count: usize,
    pub execution_count_normalized: N,
    pub total_ticks: N,
    pub average_ticks: N,
    pub instr_count: usize,
    pub operation_count: usize,
    pub cpi: N,
    pub cpo: N,
}

impl<N: Number> View for BBEntry<N> {
    type V = EntryView<N>;

    open spec fn view(&self) -> EntryView<N> {
        EntryView {
            name: self.name@,
            execution_count: self.execution_count,
            execution_count_normalized: self.execution_count_normalized,
            total_ticks: self.total_ticks,
            average_ticks: self.average_ticks,
            instr_count: self.instr_count,
            operation_count: self.operation_count,
            cpi: self.cpi,
            cpo: self.cpo,
        }
    }
}

impl<N: Number> BBEntry<N> {
    pub fn new(
        name: String,
        execution_count: usize,
        execution_count_normalized: N,
        total_ticks: N,
        average_ticks: N,
        instr_count: usize,
        operation_count: usize,
        cpi: N,
        cpo: N,
    ) -> (r: Self)
        ensures
            r@ == (EntryView {
                name: name@,
                execution_count,
                execution_count_normalized,
                total_ticks,
                average_ticks,
                instr_count,
                operation_count,
                cpi,
                cpo,
            }),
    {
        BBEntry {
            name,
            execution_count,
            execution_count_normalized,
            total_ticks,
            average_ticks,
            instr_count,
            operation_count,
            cpi,
            cpo,
        }
    }

    /// A second entry with the same contents.
    pub fn duplicate(&self) -> (r: Self)
        ensures
            r@ == self@,
    {
        BBEntry {
            name: self.name.clone(),
            execution_count: self.execution_count,
            execution_count_normalized: self.execution_count_normalized,
            total_ticks: self.total_ticks,
            average_ticks: self.average_ticks,
            instr_count: self.instr_count,
            operation_count: self.operation_count,
            cpi: self.cpi,
            cpo: self.cpo,
        }
    }
}

/// The measurements of all basic blocks, by name.
#[derive(Debug)]
pub struct BBQuery<N: Number> {
    pub entries: Vec<BBEntry<N>>,
    /// What a raw execution count is multiplied by to normalize it.
    pub factor: N,
}

/// The contents of each entry.
pub open spec fn entry_views<N: Number>(s: Seq<BBEntry<N>>) -> Seq<EntryView<N>> {
    Seq::new(s.len(), |i: int| s[i]@)
}

/// Whether no two entries have the same name.
pub open spec fn names_differ<N>(s: Seq<EntryView<N>>) -> bool {
    forall|i: int, j: int|
        0 <= i < j < s.len() ==> (#[trigger] s[i]).name != (#[trigger] s[j]).name
}

/// The entries by name.
pub open spec fn by_name<N>(s: Seq<EntryView<N>>) -> Map<Seq<char>, EntryView<N>> {
    Map::new(
        |name: Seq<char>| exists|i: int| 0 <= i < s.len() && (#[trigger] s[i]).name == name,
        |name: Seq<char>| s[choose|i: int| 0 <= i < s.len() && (#[trigger] s[i]).name == name],
    )
}

/// The contents of a [`BBQuery`].
#[verifier::ext_equal]
pub struct QueryView<N> {
    pub map: Map<Seq<char>, EntryView<N>>,
    pub factor: N,
}

impl<N: Number> View for BBQuery<N> {
    type V = QueryView<N>;

    open spec fn view(&self) -> QueryView<N> {
        QueryView { map: by_name(entry_views(self.entries@)), factor: self.factor }
    }
}

// ---------------------------------------------------------------------------
// Records
// ---------------------------------------------------------------------------

/// The fields of each record.
pub open spec fn record_views(records: Seq<Vec<String>>) -> Seq<Seq<Seq<char>>> {
    Seq::new(records.len(), |i: int| texts(records[i]@))
}

/// The count that a field spells.
pub open spec fn field_count(s: Seq<char>) -> Option<usize> {
    match unsigned_value(s) {
        Some(n) => if n <= usize::MAX {
            Some(n as usize)
        } else {
            None
        },
        None => None,
    }
}

/// Whether a record has its seven fields: a name, an execution count, total
/// and average ticks, counts of instructions and of operations, and
/// thousandths of cycles per instruction.
pub open spec fn readable<N: Number>(record: Seq<Seq<char>>) -> bool {
    &&& record.len() >= 7
    &&& field_count(record[1]) is Some
    &&& N::s_read(record[1]) is Some
    &&& N::s_read(record[2]) is Some
    &&& N::s_read(record[3]) is Some
    &&& field_count(record[4]) is Some
    &&& field_count(record[5]) is Some
    &&& N::s_read(record[6]) is Some
}

/// Whether every record has its fields.
pub open spec fn rows_readable<N: Number>(records: Seq<Seq<Seq<char>>>) -> bool {
    forall|i: int| 0 <= i < records.len() ==> readable::<N>(#[trigger] records[i])
}

/// The largest execution count of the first `n` records.
pub open spec fn most_executions<N: Number>(records: Seq<Seq<Seq<char>>>, n: nat) -> N
    decreases n,
{
    if n == 0 {
        N::s_zero()
    } else {
        most_executions::<N>(records, (n - 1) as nat).s_larger(
            N::s_read(records[n - 1][1])->Some_0,
        )
    }
}

/// The factor that brings the largest execution count to ten thousand.
pub open spec fn normalizing_factor<N: Number>(max: N) -> N {
    if N::s_zero().s_below(max) {
        N::s_count(10000).s_over(max)
    } else {
        N::s_zero()
    }
}

/// The measured cycles per operation: total ticks, divided by the executions,
/// by the operations and by a thousand.
pub open spec fn measured_cpo<N: Number>(
    total_ticks: N,
    execution_count: usize,
    operation_count: usize,
) -> N {
    if execution_count > 0 && operation_count > 0 {
        total_ticks.s_over(N::s_count(execution_count)).s_over(N::s_count(operation_count)).s_over(
            N::s_count(1000),
        )
    } else {
        N::s_zero()
    }
}

/// The cycles per operation that are used: twice `cpi` where the measurement
/// is more than twenty times `cpi`, one where nothing was measured.
pub open spec fn corrected_cpo<N: Number>(cpo: N, cpi: N) -> N {
    if N::s_count(20).s_below(cpo.s_over(cpi)) {
        cpi.s_times(N::s_count(2))
    } else if cpo.s_equals(N::s_zero()) {
        N::s_count(1)
    } else {
        cpo
    }
}

/// The entry that a record gives.
pub open spec fn entry_of<N: Number>(record: Seq<Seq<char>>, factor: N) -> EntryView<N> {
    let execution_count = field_count(record[1])->Some_0;
    let operation_count = field_count(record[5])->Some_0;
    let total_ticks = N::s_read(record[2])->Some_0;
    let cpi = N::s_read(record[6])->Some_0.s_over(N::s_count(1000));
    EntryView {
        name: record[0],
        execution_count,
        execution_count_normalized: N::s_read(record[1])->Some_0.s_times(factor),
        total_ticks,
        average_ticks: N::s_read(record[3])->Some_0,
        instr_count: field_count(record[4])->Some_0,
        operation_count,
        cpi,
        cpo: corrected_cpo(measured_cpo(total_ticks, execution_count, operation_count), cpi),
    }
}

/// The entries of the first `n` records by name; of records with the same
/// name the last one counts.
pub open spec fn entries_of<N: Number>(
    records: Seq<Seq<Seq<char>>>,
    n: nat,
    factor: N,
) -> Map<Seq<char>, EntryView<N>>
    decreases n,
{
    if n == 0 {
        Map::empty()
    } else {
        entries_of(records, (n - 1) as nat, factor).insert(
            records[n - 1][0],
            entry_of(records[n - 1], factor),
        )
    }
}

proof fn lemma_by_name_at<N>(s: Seq<EntryView<N>>, i: int)
    requires
        names_differ(s),
        0 <= i < s.len(),
    ensures
        by_name(s).dom().contains(s[i].name),
        by_name(s)[s[i].name] == s[i],
{
    let name = s[i].name;
    let k = choose|k: int| 0 <= k < s.len() && (#[trigger] s[k]).name == name;
    if k < i {
        assert(s[k].name != s[i].name);
    }
    if i < k {
        assert(s[i].name != s[k].name);
    }
}

proof fn lemma_by_name_put<N>(s: Seq<EntryView<N>>, e: EntryView<N>, t: Seq<EntryView<N>>, p: int)
    requires
        names_differ(s),
        0 <= p <= s.len(),
        p < s.len() ==> s[p].name == e.name && t == s.update(p, e),
        p == s.len() ==> t == s.push(e) && forall|i: int|
            0 <= i < s.len() ==> (#[trigger] s[i]).name != e.name,
    ensures
        names_differ(t),
        by_name(t) == by_name(s).insert(e.name, e),
{
    assert forall|i: int, j: int| 0 <= i < j < t.len() implies (#[trigger] t[i]).name != (
    #[trigger] t[j]).name by {
        if j < s.len() {
            assert(s[i].name != s[j].name);
        } else {
            assert(s[i].name != e.name);
        }
    }
    let a = by_name(t);
    let b = by_name(s).insert(e.name, e);
    lemma_by_name_at(t, p);
    assert forall|name: Seq<char>| a.dom().contains(name) <==> b.dom().contains(name) by {
        if a.dom().contains(name) {
            let k = choose|k: int| 0 <= k < t.len() && (#[trigger] t[k]).name == name;
            if k != p {
                assert(s[k].name == name);
            }
        }
        if b.dom().contains(name) && name != e.name {
            let k = choose|k: int| 0 <= k < s.len() && (#[trigger] s[k]).name == name;
            assert(t[k].name == name);
        }
    }
    assert forall|name: Seq<char>| a.dom().contains(name) implies a[name] == b[name] by {
        if name != e.name {
            let k = choose|k: int| 0 <= k < t.len() && (#[trigger] t[k]).name == name;
            assert(t[k] == s[k]);
            lemma_by_name_at(t, k);
            lemma_by_name_at(s, k);
        }
    }
    assert(a =~= b);
}

/// The records of a text of comma-separated values without its heading, as
/// `csv` reads them, or `None` where the text has none.
pub uninterp spec fn csv_rows(text: Seq<char>) -> Option<Seq<Seq<Seq<char>>>>;

/// The fields of each record, where there are any.
pub open spec fn rows_view(rows: Option<Vec<Vec<String>>>) -> Option<Seq<Seq<Seq<char>>>> {
    match rows {
        Some(rows) => Some(record_views(rows@)),
        None => None,
    }
}

/// `csv::Reader::from_reader` and `csv::Reader::records` on a text: the
/// records behind the heading, or `None` where one of them cannot be read.
#[verifier::external_body]
fn csv_records(text: &str) -> (r: Option<Vec<Vec<String>>>)
    ensures
        rows_view(r) == csv_rows(text@),
{
    let mut reader = csv::Reader::from_reader(text.as_bytes());
    let rows: Result<Vec<csv::StringRecord>, csv::Error> = reader.records().collect();
    let fields = |r: csv::StringRecord| r.iter().map(str::to_owned).collect();
    rows.ok().map(|rows| rows.into_iter().map(fields).collect())
}

fn read_count(s: &String) -> (r: Option<usize>)
    ensures
        r == field_count(s@),
{
    match parse_usize(s.as_str()) {
        Ok(n) => Some(n),
        Err(_) => None,
    }
}

/// Whether every record can be read.
pub fn all_readable<N: Number>(records: &Vec<Vec<String>>) -> (r: bool)
    ensures
        r == rows_readable::<N>(record_views(records@)),
{
    let n: usize = records.len();
    let ghost rs = record_views(records@);
    for i in 0..n
        invariant
            n == records@.len(),
            rs == record_views(records@),
            forall|j: int| 0 <= j < i ==> readable::<N>(#[trigger] rs[j]),
    {
        let record: &Vec<String> = &records[i];
        assert(rs[i as int] == texts(record@));
        let ok: bool = record.len() >= 7 && read_count(&record[1]).is_some() && N::read(
            record[1].as_str(),
        ).is_some() && N::read(record[2].as_str()).is_some() && N::read(
            record[3].as_str(),
        ).is_some() && read_count(&record[4]).is_some() && read_count(&record[5]).is_some()
            && N::read(record[6].as_str()).is_some();
        if !ok {
            assert(!readable::<N>(rs[i as int]));
            return false;
        }
    }
    true
}

impl<N: Number> BBQuery<N> {
    /// Whether no two entries have the same name.
    pub open spec fn wf(&self) -> bool {
        names_differ(entry_views(self.entries@))
    }

    /// Builds the measurements from the text of a trace, or gives `None` where
    /// it has no records or one of them cannot be read.
    pub fn from_csv(text: &str) -> (r: Option<Self>)
        ensures
            match csv_rows(text@) {
                None => r is None,
                Some(rs) => {
                    &&& r is Some <==> rows_readable::<N>(rs)
                    &&& match r {
                        Some(q) => q.wf() && q@ == ({
                            let factor = normalizing_factor(most_executions::<N>(rs, rs.len()));
                            QueryView { map: entries_of(rs, rs.len(), factor), factor }
                        }),
                        None => true,
                    }
                },
            },
    {
        match csv_records(text) {
            None => None,
            Some(records) => {
                if all_readable::<N>(&records) {
                    Some(BBQuery::new(&records))
                } else {
                    None
                }
            },
        }
    }

    /// Builds the measurements from the records of a trace, without its
    /// heading.
    pub fn new(records: &Vec<Vec<String>>) -> (r: Self)
        requires
            rows_readable::<N>(record_views(records@)),
        ensures
            r.wf(),
            r@ == ({
                let rs = record_views(records@);
                let factor = normalizing_factor(most_executions::<N>(rs, rs.len()));
                QueryView { map: entries_of(rs, rs.len(), factor), factor }
            }),
    {
        let n: usize = records.len();
        let ghost rs = record_views(records@);
        let mut max: N = N::zero();
        for i in 0..n
            invariant
                n == records@.len(),
                rs == record_views(records@),
                forall|j: int| 0 <= j < n ==> readable::<N>(#[trigger] rs[j]),
                max == most_executions::<N>(rs, i as nat),
        {
            assert(readable::<N>(rs[i as int]));
            assert(rs[i as int][1] == records@[i as int]@[1]@);
            max = max.larger(N::read(records[i][1].as_str()).unwrap());
        }
        let factor: N = if N::zero().below(max) {
            N::count(10000).over(max)
        } else {
            N::zero()
        };
        let mut q: BBQuery<N> = BBQuery { entries: Vec::new(), factor };
        assert(q@.map =~= entries_of(rs, 0, factor));
        for i in 0..n
            invariant
                n == records@.len(),
                rs == record_views(records@),
                forall|j: int| 0 <= j < n ==> readable::<N>(#[trigger] rs[j]),
                q.wf(),
                q@ == (QueryView { map: entries_of(rs, i as nat, factor), factor }),
        {
            assert(readable::<N>(rs[i as int]));
            let record: &Vec<String> = &records[i];
            assert(rs[i as int] == texts(record@));
            let execution_count: usize = read_count(&record[1]).unwrap();
            let runs: N = N::read(record[1].as_str()).unwrap();
            let total_ticks: N = N::read(record[2].as_str()).unwrap();
            let average_ticks: N = N::read(record[3].as_str()).unwrap();
            let instr_count: usize = read_count(&record[4]).unwrap();
            let operation_count: usize = read_count(&record[5]).unwrap();
            let cpi: N = N::read(record[6].as_str()).unwrap().over(N::count(1000));
            let measured: N = if execution_count > 0 && operation_count > 0 {
                total_ticks.over(N::count(execution_count)).over(N::count(operation_count)).over(
                    N::count(1000),
                )
            } else {
                N::zero()
            };
            let cpo: N = if N::count(20).below(measured.over(cpi)) {
                cpi.times(N::count(2))
            } else if measured.equals(N::zero()) {
                N::count(1)
            } else {
                measured
            };
            q.put(
                BBEntry::new(
                    record[0].clone(),
                    execution_count,
                    runs.times(factor),
                    total_ticks,
                    average_ticks,
                    instr_count,
                    operation_count,
                    cpi,
                    cpo,
                ),
            );
        }
        q
    }

    /// Records an entry, in place of the one with the same name if there is
    /// one.
    pub fn put(&mut self, entry: BBEntry<N>)
        requires
            old(self).wf(),
        ensures
            final(self).wf(),
            final(self)@ == (QueryView {
                map: old(self)@.map.insert(entry@.name, entry@),
                factor: old(self)@.factor,
            }),
    {
        let ghost s = entry_views(self.entries@);
        let ghost e = entry@;
        let mut p: usize = 0;
        while p < self.entries.len() && self.entries[p].name != entry.name
            invariant
                p <= self.entries@.len(),
                s == entry_views(self.entries@),
                e == entry@,
                forall|j: int| 0 <= j < p ==> (#[trigger] s[j]).name != e.name,
            decreases self.entries@.len() - p,
        {
            assert(s[p as int].name != e.name);
            p = p + 1;
        }
        if p < self.entries.len() {
            assert(s[p as int].name == e.name);
            self.entries.set(p, entry);
            assert(entry_views(self.entries@) =~= s.update(p as int, e));
        } else {
            self.entries.push(entry);
            assert(entry_views(self.entries@) =~= s.push(e));
        }
        proof {
            lemma_by_name_put(s, e, entry_views(self.entries@), p as int);
        }
    }

    /// The measurements of the block `name`.
    pub fn get(&self, name: &String) -> (r: Option<&BBEntry<N>>)
        requires
            self.wf(),
        ensures
            match r {
                Some(e) => self@.map.dom().contains(name@) && e@ == self@.map[name@],
                None => !self@.map.dom().contains(name@),
            },
    {
        let n: usize = self.entries.len();
        let ghost s = entry_views(self.entries@);
        for i in 0..n
            invariant
                n == self.entries@.len(),
                self.wf(),
                s == entry_views(self.entries@),
                forall|j: int| 0 <= j < i ==> (#[trigger] s[j]).name != name@,
        {
            assert(s[i as int] == self.entries@[i as int]@);
            if self.entries[i].name == *name {
                proof {
                    lemma_by_name_at(s, i as int);
                }
                return Some(&self.entries[i]);
            }
        }
        None
    }

    /// The factor that normalizes an execution count.
    pub fn get_factor(&self) -> (r: N)
        ensures
            r == self@.factor,
    {
        self.factor
    }

    /// A second set of the same measurements.
    pub fn duplicate(&self) -> (r: Self)
        ensures
            r@ == self@,
            self.wf() ==> r.wf(),
    {
        let mut entries: Vec<BBEntry<N>> = Vec::new();
        let n: usize = self.entries.len();
        let ghost s = entry_views(self.entries@);
        for i in 0..n
            invariant
                n == self.entries@.len(),
                s == entry_views(self.entries@),
                entries@.len() == i,
                forall|j: int| 0 <= j < i ==> (#[trigger] entries@[j])@ == s[j],
        {
            entries.push(self.entries[i].duplicate());
        }
        assert(entry_views(entries@) =~= s);
        BBQuery { entries, factor: self.factor }
    }
}

impl<N: Number> Default for BBQuery<N> {
    /// No measurements, and a factor of one.
    fn default() -> (r: Self)
        ensures
            r.wf(),
            r@ == (QueryView::<N> { map: Map::empty(), factor: N::s_count(1) }),
    {
        let r: BBQuery<N> = BBQuery { entries: Vec::new(), factor: N::count(1) };
        assert(r@.map =~= Map::empty());
        r
    }
}

/// Operations that know the basic blocks they come from.
pub trait BBInfo: Sized {
    /// The basic blocks.
    open spec fn s_bbs(&self) -> Seq<Seq<char>> {
        arbitrary()
    }

    /// Whether `after` differs from this operation in its basic blocks at
    /// most.
    open spec fn s_same_but_bbs(&self, after: Self) -> bool {
        arbitrary()
    }

    fn bbs_info(&self) -> (r: &Vec<String>)
        ensures
            texts(r@) == self.s_bbs(),
    ;

    fn get_mut_bbs_info(&mut self) -> (r: &mut Vec<String>)
        ensures
            texts(r@) == old(self).s_bbs(),
            texts(final(r)@) == final(self).s_bbs(),
            old(self).s_same_but_bbs(*final(self)),
    ;
}

/// An operation together with the basic blocks it comes from.
#[derive(Debug)]
pub struct Traced<Op> {
    pub operation: Op,
    pub bbs: Vec<String>,
}

impl<Op> BBInfo for Traced<Op> {
    open spec fn s_bbs(&self) -> Seq<Seq<char>> {
        texts(self.bbs@)
    }

    open spec fn s_same_but_bbs(&self, after: Self) -> bool {
        self.operation == after.operation
    }

    fn bbs_info(&self) -> (r: &Vec<String>) {
        &self.bbs
    }

    fn get_mut_bbs_info(&mut self) -> (r: &mut Vec<String>) {
        &mut self.bbs
    }
}

} // verus!
