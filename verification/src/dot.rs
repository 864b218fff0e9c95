//! Rendering the finished network as a Graphviz-style text description.

use vstd::prelude::*;

use crate::graph::{
    event_count, get_event, get_task, graph_events, graph_tasks, task_count, task_endpoints,
    EventRec, PertGraph, TaskRec,
};

verus! {

/// One character's escaped form: a quote or backslash gains a leading
/// backslash, a line break becomes the left-justified break mark `\l`.
pub open spec fn escape_char(c: char) -> Seq<char> {
    if c == '"' {
        seq!['\\', '"']
    } else if c == '\\' {
        seq!['\\', '\\']
    } else if c == '\n' {
        seq!['\\', 'l']
    } else {
        seq![c]
    }
}

/// A label text's escaped form.
pub open spec fn escape(s: Seq<char>) -> Seq<char>
    decreases s.len(),
{
    if s.len() == 0 {
        Seq::empty()
    } else {
        escape_char(s[0]) + escape(s.drop_first())
    }
}

/// Reads an escaped label text back; `None` when the text is not a valid
/// escaping (a stray quote, raw line break, or dangling backslash).
pub open spec fn unescape(s: Seq<char>) -> Option<Seq<char>>
    decreases s.len(),
{
    if s.len() == 0 {
        Some(Seq::empty())
    } else if s[0] == '\\' {
        if s.len() >= 2 && (s[1] == 'l' || s[1] == '"' || s[1] == '\\') {
            let c = if s[1] == 'l' {
                '\n'
            } else {
                s[1]
            };
            match unescape(s.skip(2)) {
                Some(r) => Some(seq![c] + r),
                None => None,
            }
        } else {
            None
        }
    } else if s[0] == '"' || s[0] == '\n' {
        None
    } else {
        match unescape(s.drop_first()) {
            Some(r) => Some(seq![s[0]] + r),
            None => None,
        }
    }
}

/// Escaping distributes over concatenation.
pub proof fn lemma_escape_append(a: Seq<char>, b: Seq<char>)
    ensures
        escape(a + b) == escape(a) + escape(b),
    decreases a.len(),
{
    if a.len() == 0 {
        assert(a + b =~= b);
        assert(escape(a) + escape(b) =~= escape(b));
    } else {
        lemma_escape_append(a.drop_first(), b);
        assert((a + b).drop_first() =~= a.drop_first() + b);
        assert((a + b)[0] == a[0]);
        assert(escape_char(a[0]) + (escape(a.drop_first()) + escape(b)) =~= (escape_char(a[0])
            + escape(a.drop_first())) + escape(b));
    }
}

/// An escaped label never holds a raw line break.
pub proof fn lemma_escape_no_newline(s: Seq<char>)
    ensures
        forall|i: int| 0 <= i < escape(s).len() ==> (#[trigger] escape(s)[i]) != '\n',
    decreases s.len(),
{
    if s.len() > 0 {
        lemma_escape_no_newline(s.drop_first());
        let head = escape_char(s[0]);
        let rest = escape(s.drop_first());
        assert forall|i: int| 0 <= i < escape(s).len() implies (#[trigger] escape(s)[i])
            != '\n' by {
            if i >= head.len() {
                assert(rest[i - head.len()] != '\n');
            }
        };
    }
}

/// Every quote in an escaped label stands right after a backslash.
pub proof fn lemma_escape_quotes_escaped(s: Seq<char>)
    ensures
        forall|i: int|
            0 <= i < escape(s).len() && (#[trigger] escape(s)[i]) == '"' ==> i > 0 && escape(
                s,
            )[i - 1] == '\\',
    decreases s.len(),
{
    if s.len() > 0 {
        lemma_escape_quotes_escaped(s.drop_first());
        let head = escape_char(s[0]);
        let rest = escape(s.drop_first());
        assert forall|i: int|
            0 <= i < escape(s).len() && (#[trigger] escape(s)[i]) == '"' implies i > 0 && escape(
            s,
        )[i - 1] == '\\' by {
            if i >= head.len() {
                assert(rest[i - head.len()] == '"');
                assert(i - head.len() > 0 && rest[i - head.len() - 1] == '\\');
            }
        };
    }
}

/// Round trip: escaping loses nothing — reading the escaped text back gives
/// the original label.
pub proof fn lemma_escape_round_trip(s: Seq<char>)
    ensures
        unescape(escape(s)) == Some(s),
    decreases s.len(),
{
    if s.len() == 0 {
    } else {
        lemma_escape_round_trip(s.drop_first());
        let head = escape_char(s[0]);
        let rest = escape(s.drop_first());
        let whole = escape(s);
        assert(whole == head + rest);
        if s[0] == '"' || s[0] == '\\' || s[0] == '\n' {
            assert(whole[0] == '\\');
            assert(whole.len() >= 2 && whole[1] == head[1]);
            assert(whole.skip(2) =~= rest);
            assert(seq![s[0]] + s.drop_first() =~= s);
        } else {
            assert(whole[0] == s[0]);
            assert(whole.drop_first() =~= rest);
            assert(seq![s[0]] + s.drop_first() =~= s);
        }
    }
}

/// The decimal numeral of `n`.
pub open spec fn dec_str(n: nat) -> Seq<char>
    decreases n,
{
    if n < 10 {
        seq![digit_char(n)]
    } else {
        dec_str(n / 10) + seq![digit_char(n % 10)]
    }
}

/// The digit character for a value below ten.
pub open spec fn digit_char(d: nat) -> char {
    ((48 + d) as u8) as char
}

/// The decimal digit character of `d`.
fn digit(d: u64) -> (c: char)
    requires
        d < 10,
    ensures
        c == digit_char(d as nat),
{
    (48 + d as u8) as char
}

/// The decimal numeral of `n`, as characters.
fn dec_chars(n: u64) -> (r: Vec<char>)
    ensures
        r@ == dec_str(n as nat),
    decreases n,
{
    if n < 10 {
        let mut v: Vec<char> = Vec::new();
        v.push(digit(n));
        proof {
            assert(v@ =~= dec_str(n as nat));
        }
        v
    } else {
        let mut v = dec_chars(n / 10);
        v.push(digit(n % 10));
        proof {
            assert(v@ =~= dec_str(n as nat));
        }
        v
    }
}

/// Relies on std's `str::chars`: the characters of the text, in order (the
/// view of a text is exactly its character sequence).
#[verifier::external_body]
fn str_chars(s: &str) -> (v: Vec<char>)
    ensures
        v@ == s@,
{
    s.chars().collect()
}

/// Relies on std's `String` collecting characters (`FromIterator<char>`):
/// the text holding exactly the given characters.
#[verifier::external_body]
fn chars_to_string(v: &Vec<char>) -> (s: String)
    ensures
        s@ == v@,
{
    v.iter().collect()
}

/// Appends a literal text to the output.
fn append_str(out: &mut Vec<char>, s: &str)
    ensures
        final(out)@ == old(out)@ + s@,
{
    let mut cs = str_chars(s);
    out.append(&mut cs);
}

/// Appends a decimal numeral to the output.
fn append_dec(out: &mut Vec<char>, n: u64)
    ensures
        final(out)@ == old(out)@ + dec_str(n as nat),
{
    let mut cs = dec_chars(n);
    out.append(&mut cs);
}

/// Escapes a label text.
fn escape_chars(s: &Vec<char>) -> (r: Vec<char>)
    ensures
        r@ == escape(s@),
{
    let mut r: Vec<char> = Vec::new();
    let mut i: usize = 0;
    while i < s.len()
        invariant
            i <= s@.len(),
            r@ == escape(s@.take(i as int)),
        decreases s@.len() - i,
    {
        let c = s[i];
        if c == '"' {
            r.push('\\');
            r.push('"');
        } else if c == '\\' {
            r.push('\\');
            r.push('\\');
        } else if c == '\n' {
            r.push('\\');
            r.push('l');
        } else {
            r.push(c);
        }
        proof {
            assert(s@.take(i as int + 1) =~= s@.take(i as int) + seq![s@[i as int]]);
            lemma_escape_append(s@.take(i as int), seq![s@[i as int]]);
            let single = seq![s@[i as int]];
            assert(single.len() == 1 && single[0] == s@[i as int]);
            assert(single.drop_first() =~= Seq::<char>::empty());
            assert(escape(single.drop_first()) == Seq::<char>::empty());
            assert(escape(single) =~= escape_char(s@[i as int]));
            assert(r@ =~= escape(s@.take(i as int)) + escape_char(s@[i as int]));
        }
        i += 1;
    }
    proof {
        assert(s@.take(s@.len() as int) =~= s@);
    }
    r
}

/// The label text of one event: its identifier, then its earliest and latest
/// occurrence times.
pub open spec fn event_label(ev: EventRec) -> Seq<char> {
    dec_str(ev.0 as nat) + "\n"@ + dec_str(ev.1 as nat) + ".."@ + dec_str(ev.2 as nat)
}

/// The label text of one task: its name, duration, total float and free
/// float.
pub open spec fn task_label(t: TaskRec) -> Seq<char> {
    t.2 + "("@ + dec_str(t.3 as nat) + ")\nT: "@ + dec_str(t.4 as nat) + " / F: "@ + dec_str(
        t.5 as nat,
    )
}

/// The style suffix of one task's edge statement: dashed for a dummy task,
/// bold for a critical one.
pub open spec fn edge_style(t: TaskRec) -> Seq<char> {
    if t.3 == 0 {
        ", style=dashed"@
    } else if t.4 == 0 {
        ", style=bold"@
    } else {
        Seq::empty()
    }
}

/// The node statement of the event at index `i`.
pub open spec fn node_line(i: int, ev: EventRec) -> Seq<char> {
    "    "@ + dec_str(i as nat) + " [label=\""@ + escape(event_label(ev)) + "\"]\n"@
}

/// The edge statement of one task.
pub open spec fn edge_line(t: TaskRec) -> Seq<char> {
    "    "@ + dec_str(t.0 as nat) + " -> "@ + dec_str(t.1 as nat) + " [label=\""@ + escape(
        task_label(t),
    ) + "\""@ + edge_style(t) + "]\n"@
}

/// The node statements of the first `i` events.
pub open spec fn nodes_upto(evs: Seq<EventRec>, i: int) -> Seq<char>
    decreases i,
{
    if i <= 0 {
        Seq::empty()
    } else {
        nodes_upto(evs, i - 1) + node_line(i - 1, evs[i - 1])
    }
}

/// The edge statements of the first `j` tasks.
pub open spec fn edges_upto(ts: Seq<TaskRec>, j: int) -> Seq<char>
    decreases j,
{
    if j <= 0 {
        Seq::empty()
    } else {
        edges_upto(ts, j - 1) + edge_line(ts[j - 1])
    }
}

/// The whole graph description: the header with the left-to-right layout
/// hint, one labeled node statement per event, one labeled edge statement per
/// task, and the closing brace.
pub open spec fn dot_render(evs: Seq<EventRec>, ts: Seq<TaskRec>) -> Seq<char> {
    "digraph PERT {\n    graph [rankdir = \"LR\"];\n"@ + nodes_upto(evs, evs.len() as int)
        + edges_upto(ts, ts.len() as int) + "}\n"@
}

/// A rendering wrapper around a finished network.
pub struct PertDot<'a> {
    pub graph: &'a PertGraph,
}

impl<'a> PertDot<'a> {
    /// Create a rendering wrapper with default configuration.
    pub fn new(graph: &'a PertGraph) -> (d: Self)
        ensures
            d.graph == graph,
    {
        PertDot { graph }
    }

    /// The graph description of the wrapped network.
    pub fn render(&self) -> (out: String)
        ensures
            out@ == dot_render(graph_events(*self.graph), graph_tasks(*self.graph)),
    {
        let g = self.graph;
        let ghost evs = graph_events(*g);
        let ghost ts = graph_tasks(*g);
        let n = event_count(g);
        let m = task_count(g);
        let mut out: Vec<char> = Vec::new();
        append_str(&mut out, "digraph PERT {\n    graph [rankdir = \"LR\"];\n");
        let ghost header = "digraph PERT {\n    graph [rankdir = \"LR\"];\n"@;
        let mut i: usize = 0;
        while i < n
            invariant
                i <= n,
                n as int == evs.len(),
                evs == graph_events(*g),
                out@ == header + nodes_upto(evs, i as int),
                header == "digraph PERT {\n    graph [rankdir = \"LR\"];\n"@,
            decreases n - i,
        {
            let ev = get_event(g, i);
            append_str(&mut out, "    ");
            append_dec(&mut out, i as u64);
            append_str(&mut out, " [label=\"");
            let mut label: Vec<char> = Vec::new();
            append_dec(&mut label, ev.label as u64);
            append_str(&mut label, "\n");
            append_dec(&mut label, ev.fastest_begin);
            append_str(&mut label, "..");
            append_dec(&mut label, ev.latest_finish);
            proof {
                assert(label@ =~= event_label(evs[i as int]));
            }
            let mut esc = escape_chars(&label);
            out.append(&mut esc);
            append_str(&mut out, "\"]\n");
            proof {
                assert(out@ =~= header + nodes_upto(evs, i as int) + node_line(
                    i as int,
                    evs[i as int],
                ));
                assert(out@ =~= header + nodes_upto(evs, i as int + 1));
            }
            i += 1;
        }
        let ghost nodes_part = nodes_upto(evs, n as int);
        let mut j: usize = 0;
        while j < m
            invariant
                j <= m,
                m as int == ts.len(),
                ts == graph_tasks(*g),
                out@ == header + nodes_part + edges_upto(ts, j as int),
                header == "digraph PERT {\n    graph [rankdir = \"LR\"];\n"@,
            decreases m - j,
        {
            let t = get_task(g, j);
            let p = task_endpoints(g, j);
            append_str(&mut out, "    ");
            append_dec(&mut out, p.0 as u64);
            append_str(&mut out, " -> ");
            append_dec(&mut out, p.1 as u64);
            append_str(&mut out, " [label=\"");
            let mut label = str_chars(t.name.as_str());
            append_str(&mut label, "(");
            append_dec(&mut label, t.duration as u64);
            append_str(&mut label, ")\nT: ");
            append_dec(&mut label, t.total_float);
            append_str(&mut label, " / F: ");
            append_dec(&mut label, t.free_float);
            proof {
                assert(label@ =~= task_label(ts[j as int]));
            }
            let mut esc = escape_chars(&label);
            out.append(&mut esc);
            append_str(&mut out, "\"");
            if t.is_dummy_path() {
                append_str(&mut out, ", style=dashed");
            } else if t.is_critical_path() {
                append_str(&mut out, ", style=bold");
            }
            append_str(&mut out, "]\n");
            proof {
                assert(out@ =~= header + nodes_part + edges_upto(ts, j as int) + edge_line(
                    ts[j as int],
                ));
                assert(out@ =~= header + nodes_part + edges_upto(ts, j as int + 1));
            }
            j += 1;
        }
        append_str(&mut out, "}\n");
        proof {
            assert(out@ =~= dot_render(evs, ts));
        }
        chars_to_string(&out)
    }
}

} // verus!
