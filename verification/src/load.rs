//! Loading rows from delimited text.

use vstd::prelude::*;

use crate::graph::{add_event, add_task, graph_events, graph_new, graph_tasks, TaskRec};
use crate::paths::{
    acyclic, has_incoming, has_outgoing, is_end_node, is_start_node, Edge,
};
use crate::pert::{arcs_of, network_wf, scheduled, Event, Pert, PertError, Task};

verus! {

broadcast use vstd::string::is_ascii_spec_bytes;

/// What csv's reader returns on the given bytes, with trimming of fields and
/// no header row: the ordered records, each a list of fields; `None` when the
/// reader reports an error (rows of unequal length, or bytes that are not
/// valid text).
pub uninterp spec fn csv_rows_of(data: Seq<u8>) -> Option<Seq<Seq<Seq<char>>>>;

/// The field texts of a list of records.
pub open spec fn records_view(rs: Seq<Vec<String>>) -> Seq<Seq<Seq<char>>> {
    rs.map_values(|r: Vec<String>| r@.map_values(|f: String| f@))
}

/// Relies on csv's `ReaderBuilder` and `Reader::records` (fields trimmed, no
/// header row): splits delimited text into records of string fields; `None`
/// exactly when the reader reports an error.
#[verifier::external_body]
fn csv_records(data: &[u8]) -> (r: Option<Vec<Vec<String>>>)
    ensures
        r is Some <==> csv_rows_of(data@) is Some,
        r is Some ==> records_view(r.unwrap()@) == csv_rows_of(data@).unwrap(),
{
    let mut rdr = csv::ReaderBuilder::new().trim(csv::Trim::Fields).has_headers(
        false,
    ).from_reader(data);
    let mut out: Vec<Vec<String>> = Vec::new();
    for rec in rdr.records() {
        match rec {
            Ok(r) => out.push(r.iter().map(|f| f.to_string()).collect()),
            Err(_) => return None,
        }
    }
    Some(out)
}

/// Every character is a decimal digit.
pub open spec fn all_digits(s: Seq<char>) -> bool {
    forall|i: int| 0 <= i < s.len() ==> '0' <= #[trigger] s[i] <= '9'
}

/// The numeric value of a text of decimal digits.
pub open spec fn digits_value(s: Seq<char>) -> int
    decreases s.len(),
{
    if s.len() == 0 {
        0
    } else {
        digits_value(s.drop_last()) * 10 + (s.last() as int - '0' as int)
    }
}

/// A field decodes as a `u32`: nonempty decimal digits whose value fits.
pub open spec fn parses_u32(s: Seq<char>) -> bool {
    s.len() > 0 && all_digits(s) && digits_value(s) <= 0xFFFF_FFFF
}

/// A digit text's value is nonnegative.
proof fn lemma_digits_nonneg(s: Seq<char>)
    requires
        all_digits(s),
    ensures
        digits_value(s) >= 0,
    decreases s.len(),
{
    if s.len() > 0 {
        assert(forall|i: int|
            0 <= i < s.drop_last().len() ==> #[trigger] s.drop_last()[i] == s[i]);
        lemma_digits_nonneg(s.drop_last());
    }
}

/// Extending a digit text never lowers its value.
proof fn lemma_digits_prefix(s: Seq<char>, k: int)
    requires
        all_digits(s),
        0 <= k <= s.len(),
    ensures
        digits_value(s.take(k)) <= digits_value(s),
    decreases s.len() - k,
{
    if k == s.len() {
        assert(s.take(k) =~= s);
    } else {
        assert(s.take(k + 1).drop_last() =~= s.take(k));
        assert(forall|i: int| 0 <= i < k ==> #[trigger] s.take(k)[i] == s[i]);
        lemma_digits_nonneg(s.take(k));
        assert(s.take(k + 1).last() == s[k]);
        assert(digits_value(s.take(k + 1)) == digits_value(s.take(k)) * 10 + (s[k] as int
            - '0' as int));
        lemma_digits_prefix(s, k + 1);
    }
}

/// Decodes a field as a nonnegative number: nonempty decimal digits whose
/// value fits in a `u32`; `None` on anything else.
pub fn parse_u32(s: &str) -> (r: Option<u32>)
    ensures
        r is Some <==> parses_u32(s@),
        r is Some ==> r.unwrap() as int == digits_value(s@),
{
    if !s.is_ascii() {
        proof {
            let i = choose|i: int| 0 <= i < s@.len() && !('\0' <= #[trigger] s@[i] <= '\u{7f}');
            assert(!('0' <= s@[i] <= '9'));
        }
        return None;
    }
    let bytes = s.as_bytes();
    let len = bytes.len();
    proof {
        assert(bytes@ =~= Seq::new(s@.len(), |i: int| s@[i] as u8));
    }
    if len == 0 {
        return None;
    }
    let mut acc: u64 = 0;
    let mut i: usize = 0;
    while i < len
        invariant
            i <= len,
            len == bytes@.len(),
            bytes@.len() == s@.len(),
            forall|k: int| 0 <= k < s@.len() ==> '\0' <= #[trigger] s@[k] <= '\u{7f}',
            forall|k: int| 0 <= k < bytes@.len() ==> #[trigger] bytes@[k] == s@[k] as u8,
            all_digits(s@.take(i as int)),
            acc as int == digits_value(s@.take(i as int)),
            acc <= 0xFFFF_FFFF,
        decreases len - i,
    {
        let b = bytes[i];
        if b < 48 || b > 57 {
            proof {
                assert(!('0' <= s@[i as int] <= '9'));
            }
            return None;
        }
        acc = acc * 10 + ((b - 48) as u64);
        proof {
            assert(s@.take(i as int + 1).drop_last() =~= s@.take(i as int));
            assert(s@.take(i as int + 1).last() == s@[i as int]);
            assert('0' <= s@[i as int] <= '9');
            assert(forall|k: int|
                0 <= k < i as int + 1 ==> #[trigger] s@.take(i as int + 1)[k] == s@[k]);
        }
        if acc > 0xFFFF_FFFF {
            proof {
                if all_digits(s@) {
                    lemma_digits_prefix(s@, i as int + 1);
                }
            }
            return None;
        }
        i += 1;
    }
    proof {
        assert(s@.take(len as int) =~= s@);
    }
    Some(acc as u32)
}

/// One loaded row: a task from one event to another.
#[derive(Debug)]
pub struct Row {
    pub from: u32,
    pub to: u32,
    pub weight: u32,
    pub name: String,
}

/// A record decodes into a row: exactly four fields, the first three numeric.
pub open spec fn record_ok(rec: Seq<Seq<char>>) -> bool {
    &&& rec.len() == 4
    &&& parses_u32(rec[0])
    &&& parses_u32(rec[1])
    &&& parses_u32(rec[2])
}

/// Every record decodes into a row.
pub open spec fn records_ok(recs: Seq<Seq<Seq<char>>>) -> bool {
    forall|i: int| 0 <= i < recs.len() ==> record_ok(#[trigger] recs[i])
}

/// `row` is what the record decodes to.
pub open spec fn row_matches(row: Row, rec: Seq<Seq<char>>) -> bool {
    &&& row.from as int == digits_value(rec[0])
    &&& row.to as int == digits_value(rec[1])
    &&& row.weight as int == digits_value(rec[2])
    &&& row.name@ == rec[3]
}

/// The ordered rows loaded from a delimited text stream.
#[derive(Debug)]
pub struct DataLoader {
    pub rows: Vec<Row>,
}

impl DataLoader {
    /// Loads rows from delimited text: one task per line, four fields
    /// `from,to,duration,name`, whitespace around fields trimmed, no header
    /// row. Fails with `MalformedRowError` exactly when the text does not
    /// split into records or some record does not decode into the four
    /// fields.
    pub fn from_bytes(data: &[u8]) -> (r: Result<DataLoader, PertError>)
        ensures
            ({
                let ro = csv_rows_of(data@);
                match r {
                    Ok(dl) => {
                        &&& ro is Some
                        &&& records_ok(ro.unwrap())
                        &&& dl.rows@.len() == ro.unwrap().len()
                        &&& forall|i: int|
                            0 <= i < ro.unwrap().len() ==> row_matches(
                                #[trigger] dl.rows@[i],
                                ro.unwrap()[i],
                            )
                    },
                    Err(e) => e == PertError::MalformedRowError && (ro is None || !records_ok(
                        ro.unwrap(),
                    )),
                }
            }),
    {
        let recs = match csv_records(data) {
            Some(v) => v,
            None => {
                return Err(PertError::MalformedRowError);
            },
        };
        let ghost rv = records_view(recs@);
        let mut rows: Vec<Row> = Vec::new();
        let mut i: usize = 0;
        while i < recs.len()
            invariant
                i <= recs@.len(),
                rv == records_view(recs@),
                csv_rows_of(data@) is Some,
                rv == csv_rows_of(data@).unwrap(),
                rv.len() == recs@.len(),
                rows@.len() == i,
                forall|k: int| 0 <= k < i ==> record_ok(#[trigger] rv[k]),
                forall|k: int| 0 <= k < i ==> row_matches(#[trigger] rows@[k], rv[k]),
            decreases recs@.len() - i,
        {
            let rec = &recs[i];
            proof {
                assert(rv[i as int] == rec@.map_values(|f: String| f@));
            }
            proof {
                assert(rv[i as int].len() == rec@.len());
                assert(rec@.len() == 4 ==> rv[i as int][0] == rec@[0]@ && rv[i as int][1]
                    == rec@[1]@ && rv[i as int][2] == rec@[2]@ && rv[i as int][3] == rec@[3]@);
            }
            if rec.len() != 4 {
                proof {
                    assert(!record_ok(rv[i as int]));
                    assert(csv_rows_of(data@).unwrap() == rv);
                    if records_ok(rv) {
                        assert(record_ok(rv[i as int]));
                    }
                }
                return Err(PertError::MalformedRowError);
            }
            let from = match parse_u32(rec[0].as_str()) {
                Some(x) => x,
                None => {
                    proof {
                        assert(!record_ok(rv[i as int]));
                        assert(csv_rows_of(data@).unwrap() == rv);
                        if records_ok(rv) {
                            assert(record_ok(rv[i as int]));
                        }
                    }
                    return Err(PertError::MalformedRowError);
                },
            };
            let to = match parse_u32(rec[1].as_str()) {
                Some(x) => x,
                None => {
                    proof {
                        assert(!record_ok(rv[i as int]));
                        assert(csv_rows_of(data@).unwrap() == rv);
                        if records_ok(rv) {
                            assert(record_ok(rv[i as int]));
                        }
                    }
                    return Err(PertError::MalformedRowError);
                },
            };
            let weight = match parse_u32(rec[2].as_str()) {
                Some(x) => x,
                None => {
                    proof {
                        assert(!record_ok(rv[i as int]));
                        assert(csv_rows_of(data@).unwrap() == rv);
                        if records_ok(rv) {
                            assert(record_ok(rv[i as int]));
                        }
                    }
                    return Err(PertError::MalformedRowError);
                },
            };
            let name = rec[3].clone();
            rows.push(Row { from, to, weight, name });
            i += 1;
        }
        Ok(DataLoader { rows })
    }
}

/// The event labels the rows refer to, in order: each row's `from`, then its
/// `to`.
pub open spec fn row_labels(rows: Seq<Row>) -> Seq<u32> {
    Seq::new(
        2 * rows.len(),
        |i: int| if i % 2 == 0 {
            rows[i / 2].from
        } else {
            rows[i / 2].to
        },
    )
}

/// The distinct values of `s`, each at its first occurrence, in order.
pub open spec fn dedup(s: Seq<u32>) -> Seq<u32>
    decreases s.len(),
{
    if s.len() == 0 {
        Seq::empty()
    } else {
        let prefix = dedup(s.drop_last());
        if prefix.contains(s.last()) {
            prefix
        } else {
            prefix.push(s.last())
        }
    }
}

/// The position of the first occurrence of `x` in `s`.
pub open spec fn first_index(s: Seq<u32>, x: u32) -> int
    decreases s.len(),
{
    if s.len() == 0 {
        0
    } else if s[0] == x {
        0
    } else {
        1 + first_index(s.drop_first(), x)
    }
}

/// The arcs of the network built from the rows: one node per distinct label,
/// one arc per row, from the position of its `from` label to the position of
/// its `to` label.
pub open spec fn built_arcs(rows: Seq<Row>) -> Seq<Edge> {
    let labels = dedup(row_labels(rows));
    Seq::new(
        rows.len(),
        |j: int| Edge {
            from: first_index(labels, rows[j].from) as usize,
            to: first_index(labels, rows[j].to) as usize,
            duration: rows[j].weight,
        },
    )
}

/// Deduplication keeps exactly the values of the original.
proof fn lemma_dedup_contains(s: Seq<u32>, x: u32)
    ensures
        dedup(s).contains(x) <==> s.contains(x),
    decreases s.len(),
{
    broadcast use vstd::seq_lib::group_seq_properties;

    if s.len() == 0 {
    } else {
        let d = s.drop_last();
        lemma_dedup_contains(d, x);
        assert(s.contains(x) ==> d.contains(x) || s.last() == x) by {
            if s.contains(x) {
                let i = choose|i: int| 0 <= i < s.len() && s[i] == x;
                if i < s.len() - 1 {
                    assert(d[i] == x);
                }
            }
        };
        assert(d.contains(x) ==> s.contains(x)) by {
            if d.contains(x) {
                let i = choose|i: int| 0 <= i < d.len() && d[i] == x;
                assert(s[i] == x);
            }
        };
        assert(s.last() == x ==> s.contains(x));
        let prefix = dedup(d);
        if !prefix.contains(s.last()) {
            assert(dedup(s) == prefix.push(s.last()));
            assert(prefix.push(s.last()).contains(x) ==> prefix.contains(x) || s.last() == x)
                by {
                if prefix.push(s.last()).contains(x) {
                    let i = choose|i: int|
                        0 <= i < prefix.push(s.last()).len() && prefix.push(s.last())[i] == x;
                    if i < prefix.len() {
                        assert(prefix[i] == x);
                    }
                }
            };
        }
    }
}

/// Deduplication yields pairwise-distinct values.
proof fn lemma_dedup_distinct(s: Seq<u32>)
    ensures
        forall|i: int, j: int| 0 <= i < j < dedup(s).len() ==> dedup(s)[i] != dedup(s)[j],
    decreases s.len(),
{
    if s.len() > 0 {
        let d = s.drop_last();
        lemma_dedup_distinct(d);
        let prefix = dedup(d);
        if !prefix.contains(s.last()) {
            assert forall|i: int, j: int| 0 <= i < j < dedup(s).len() implies dedup(s)[i]
                != dedup(s)[j] by {
                if j == prefix.len() {
                    assert(!prefix.contains(prefix[i]) ==> false) by {
                        assert(prefix[i] == prefix[i]);
                    };
                    assert(prefix.contains(prefix[i]));
                }
            };
        }
    }
}

/// The first occurrence of a contained value: it is in range, hits the
/// value, and nothing earlier does.
proof fn lemma_first_index(s: Seq<u32>, x: u32)
    requires
        s.contains(x),
    ensures
        0 <= first_index(s, x) < s.len(),
        s[first_index(s, x)] == x,
        forall|k: int| 0 <= k < first_index(s, x) ==> s[k] != x,
    decreases s.len(),
{
    if s.len() > 0 && s[0] != x {
        let i = choose|i: int| 0 <= i < s.len() && s[i] == x;
        assert(s.drop_first()[i - 1] == x);
        assert(s.drop_first().contains(x));
        lemma_first_index(s.drop_first(), x);
        assert forall|k: int| 0 <= k < first_index(s, x) implies s[k] != x by {
            if k > 0 {
                assert(s.drop_first()[k - 1] == s[k]);
            }
        };
    }
}

/// The position of a label among those already allocated.
fn find_label(labels: &Vec<u32>, x: u32) -> (i: usize)
    requires
        labels@.contains(x),
    ensures
        i as int == first_index(labels@, x),
        i < labels@.len(),
        labels@[i as int] == x,
{
    let mut i: usize = 0;
    while i < labels.len()
        invariant
            i <= labels@.len(),
            labels@.contains(x),
            forall|k: int| 0 <= k < i ==> labels@[k] != x,
        decreases labels@.len() - i,
    {
        if labels[i] == x {
            proof {
                lemma_first_index(labels@, x);
            }
            return i;
        }
        i += 1;
    }
    proof {
        lemma_first_index(labels@, x);
    }
    0
}

impl DataLoader {
    /// Builds and schedules the network: one node per distinct event label
    /// (at its first occurrence), one task per row; then locates the start
    /// and end nodes, rejects cycles, and computes every occurrence time and
    /// float value.
    #[verifier::rlimit(100)]
    #[verifier::spinoff_prover]
    pub fn to_graph(&self) -> (r: Result<Pert, PertError>)
        ensures
            ({
                let rows = self.rows@;
                let labels = dedup(row_labels(rows));
                let es = built_arcs(rows);
                let n = labels.len() as int;
                match r {
                    Ok(p) => {
                        &&& graph_events(p.0).len() == n
                        &&& forall|v: int|
                            0 <= v < n ==> (#[trigger] graph_events(p.0)[v]).0 == labels[v]
                        &&& graph_tasks(p.0).len() == rows.len()
                        &&& arcs_of(graph_tasks(p.0)) == es
                        &&& forall|j: int|
                            0 <= j < rows.len()
                                ==> (#[trigger] graph_tasks(p.0)[j]).2 == rows[j].name@
                                    && graph_tasks(p.0)[j].3 == rows[j].weight
                        &&& forall|j: int|
                            0 <= j < rows.len() ==> graph_events(p.0)[(#[trigger] graph_tasks(
                                p.0,
                            )[j]).0].0 == rows[j].from && graph_events(p.0)[graph_tasks(
                                p.0,
                            )[j].1].0 == rows[j].to
                        &&& forall|s: int, e: int|
                            is_start_node(es, n, s) && is_end_node(es, n, e)
                                ==> #[trigger] scheduled(p.0, s, e)
                        &&& exists|s: int, e: int| #[trigger] scheduled(p.0, s, e)
                    },
                    Err(err) => {
                        ||| (err == PertError::NoStartNodeError && (forall|v: int|
                            0 <= v < n ==> has_incoming(es, v)))
                        ||| (err == PertError::DuplicateStartNodeError && (exists|v: int, w: int|
                            0 <= v < w < n && !has_incoming(es, v) && !has_incoming(es, w)))
                        ||| (err == PertError::NoEndNodeError && (exists|s: int|
                            is_start_node(es, n, s)) && (forall|v: int|
                            0 <= v < n ==> has_outgoing(es, v)))
                        ||| (err == PertError::DuplicateEndNodeError && (exists|s: int|
                            is_start_node(es, n, s)) && (exists|v: int, w: int|
                            0 <= v < w < n && !has_outgoing(es, v) && !has_outgoing(es, w)))
                        ||| (err == PertError::CyclicNetworkError && (exists|s: int|
                            is_start_node(es, n, s)) && (exists|e: int|
                            is_end_node(es, n, e)) && !acyclic(es, n))
                    },
                }
            }),
    {
        let nrows = self.rows.len();
        let ghost rows = self.rows@;
        let mut flat: Vec<u32> = Vec::new();
        let mut j: usize = 0;
        while j < nrows
            invariant
                j <= nrows,
                nrows == rows.len(),
                rows == self.rows@,
                flat@.len() == 2 * j,
                forall|i: int| 0 <= i < 2 * j ==> flat@[i] == row_labels(rows)[i],
            decreases nrows - j,
        {
            flat.push(self.rows[j].from);
            flat.push(self.rows[j].to);
            j += 1;
        }
        proof {
            assert(flat@ =~= row_labels(rows));
        }
        let flat_len = flat.len();
        let mut g = graph_new();
        let mut labels: Vec<u32> = Vec::new();
        let mut t: usize = 0;
        while t < flat_len
            invariant
                t <= flat_len,
                flat_len == flat@.len(),
                flat@ == row_labels(rows),
                labels@ == dedup(flat@.take(t as int)),
                graph_events(g).len() == labels@.len(),
                forall|v: int|
                    0 <= v < labels@.len() ==> (#[trigger] graph_events(g)[v]) == (
                        labels@[v],
                        0u64,
                        0u64,
                    ),
                graph_tasks(g) == Seq::<TaskRec>::empty(),
            decreases flat_len - t,
        {
            let x = flat[t];
            let mut found = false;
            let mut i: usize = 0;
            while i < labels.len()
                invariant
                    i <= labels@.len(),
                    found ==> labels@.contains(x),
                    !found ==> forall|k: int| 0 <= k < i ==> labels@[k] != x,
                decreases labels@.len() - i,
            {
                if labels[i] == x {
                    found = true;
                }
                i += 1;
            }
            proof {
                assert(flat@.take(t as int + 1).drop_last() =~= flat@.take(t as int));
                assert(flat@.take(t as int + 1).last() == x);
            }
            if !found {
                proof {
                    assert(!labels@.contains(x));
                }
                let ev = Event::new(&x);
                add_event(&mut g, ev);
                labels.push(x);
            }
            t += 1;
        }
        proof {
            assert(flat@.take(flat_len as int) =~= flat@);
        }
        let ghost lbls = dedup(row_labels(rows));
        let mut j2: usize = 0;
        while j2 < nrows
            invariant
                j2 <= nrows,
                nrows == rows.len(),
                rows == self.rows@,
                labels@ == lbls,
                lbls == dedup(row_labels(rows)),
                graph_events(g).len() == labels@.len(),
                forall|v: int|
                    0 <= v < labels@.len() ==> (#[trigger] graph_events(g)[v]) == (
                        labels@[v],
                        0u64,
                        0u64,
                    ),
                graph_tasks(g).len() == j2,
                forall|i: int|
                    0 <= i < j2 ==> (#[trigger] graph_tasks(g)[i]) == (
                        first_index(lbls, rows[i].from),
                        first_index(lbls, rows[i].to),
                        rows[i].name@,
                        rows[i].weight,
                        0u64,
                        0u64,
                    ),
            decreases nrows - j2,
        {
            let row = &self.rows[j2];
            proof {
                assert(row_labels(rows)[2 * (j2 as int)] == row.from);
                assert(row_labels(rows)[2 * (j2 as int) + 1] == row.to);
                assert(row_labels(rows).contains(row.from));
                assert(row_labels(rows).contains(row.to));
                lemma_dedup_contains(row_labels(rows), row.from);
                lemma_dedup_contains(row_labels(rows), row.to);
            }
            let fi = find_label(&labels, row.from);
            let ti = find_label(&labels, row.to);
            let task = Task::new(row.name.as_str(), row.weight);
            add_task(&mut g, fi, ti, task);
            j2 += 1;
        }
        proof {
            lemma_dedup_distinct(row_labels(rows));
            assert forall|j3: int| 0 <= j3 < graph_tasks(g).len() implies ({
                let tr = #[trigger] graph_tasks(g)[j3];
                0 <= tr.0 < graph_events(g).len() && 0 <= tr.1 < graph_events(g).len()
            }) by {
                assert(row_labels(rows)[2 * j3] == rows[j3].from);
                assert(row_labels(rows)[2 * j3 + 1] == rows[j3].to);
                assert(row_labels(rows).contains(rows[j3].from));
                assert(row_labels(rows).contains(rows[j3].to));
                lemma_dedup_contains(row_labels(rows), rows[j3].from);
                lemma_dedup_contains(row_labels(rows), rows[j3].to);
                lemma_first_index(lbls, rows[j3].from);
                lemma_first_index(lbls, rows[j3].to);
            };
            assert(network_wf(g));
            assert(arcs_of(graph_tasks(g)) =~= built_arcs(rows));
        }
        let ghost ts1 = graph_tasks(g);
        let ghost ev1 = graph_events(g);
        let res = Pert::new(g);
        proof {
            if res is Ok {
                let p = res.unwrap();
                assert forall|j3: int| 0 <= j3 < rows.len() implies graph_events(p.0)[(
                #[trigger] graph_tasks(p.0)[j3]).0].0 == rows[j3].from
                    && graph_events(p.0)[graph_tasks(p.0)[j3].1].0 == rows[j3].to by {
                    assert(graph_tasks(p.0)[j3].0 == ts1[j3].0);
                    assert(graph_tasks(p.0)[j3].1 == ts1[j3].1);
                    assert(ts1[j3].0 == first_index(lbls, rows[j3].from));
                    assert(ts1[j3].1 == first_index(lbls, rows[j3].to));
                    assert(row_labels(rows)[2 * j3] == rows[j3].from);
                    assert(row_labels(rows)[2 * j3 + 1] == rows[j3].to);
                    assert(row_labels(rows).contains(rows[j3].from));
                    assert(row_labels(rows).contains(rows[j3].to));
                    lemma_dedup_contains(row_labels(rows), rows[j3].from);
                    lemma_dedup_contains(row_labels(rows), rows[j3].to);
                    lemma_first_index(lbls, rows[j3].from);
                    lemma_first_index(lbls, rows[j3].to);
                    assert(ev1[ts1[j3].0] == (lbls[first_index(lbls, rows[j3].from)], 0u64, 0u64));
                    assert(graph_events(p.0)[ts1[j3].0].0 == ev1[ts1[j3].0].0);
                    assert(graph_events(p.0)[ts1[j3].1].0 == ev1[ts1[j3].1].0);
                };
                assert forall|j3: int| 0 <= j3 < rows.len() implies arcs_of(graph_tasks(p.0))[j3]
                    == built_arcs(rows)[j3] by {
                    assert(graph_tasks(p.0)[j3].0 == ts1[j3].0);
                    assert(graph_tasks(p.0)[j3].1 == ts1[j3].1);
                    assert(graph_tasks(p.0)[j3].3 == ts1[j3].3);
                };
                assert(arcs_of(graph_tasks(p.0)) =~= built_arcs(rows));
            }
        }
        res
    }
}

} // verus!
