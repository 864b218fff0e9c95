//! The network-wide laws of a finished schedule.

use vstd::prelude::*;

use crate::graph::{graph_events, graph_tasks, PertGraph};
use crate::paths::{
    is_longest, is_path, lemma_critical_edge, lemma_longest_from_latest,
    lemma_longest_compose, lemma_longest_self, lemma_longest_unique, on_critical_path,
    path_duration, valid_topo,
};
use crate::pert::{arcs_of, scheduled};

verus! {

/// In every finished schedule the start event's earliest-occurrence time is
/// zero.
pub proof fn lemma_start_begins_at_zero(g: PertGraph, s: int, e: int)
    requires
        scheduled(g, s, e),
    ensures
        graph_events(g)[s].1 == 0,
{
    let es = arcs_of(graph_tasks(g));
    let n = graph_events(g).len() as int;
    let pos = choose|pos: Seq<usize>| valid_topo(es, n, pos);
    lemma_longest_self(es, n, pos, s);
    lemma_longest_unique(es, s, s, 0, graph_events(g)[s].1 as int);
}

/// In every finished schedule the end event's latest-occurrence time equals
/// its earliest one: the project duration.
pub proof fn lemma_end_finish_is_project_duration(g: PertGraph, s: int, e: int)
    requires
        scheduled(g, s, e),
    ensures
        graph_events(g)[e].2 == graph_events(g)[e].1,
{
    let es = arcs_of(graph_tasks(g));
    let n = graph_events(g).len() as int;
    let total = graph_events(g)[e].1 as int;
    let pos = choose|pos: Seq<usize>| valid_topo(es, n, pos);
    lemma_longest_self(es, n, pos, e);
    lemma_longest_from_latest(es, e, e, total, graph_events(g)[e].2 as int);
    lemma_longest_unique(es, e, e, 0, total - graph_events(g)[e].2 as int);
}

/// In every finished schedule, every task's free float is at most its total
/// float.
pub proof fn lemma_free_float_le_total_float(g: PertGraph, s: int, e: int, j: int)
    requires
        scheduled(g, s, e),
        0 <= j < graph_tasks(g).len(),
    ensures
        graph_tasks(g)[j].5 <= graph_tasks(g)[j].4,
{
    let es = arcs_of(graph_tasks(g));
    let n = graph_events(g).len() as int;
    let total = graph_events(g)[e].1 as int;
    let t = graph_tasks(g)[j];
    let v = t.1;
    let fb_v = graph_events(g)[v].1 as int;
    let lf_v = graph_events(g)[v].2 as int;
    lemma_longest_from_latest(es, v, e, total, lf_v);
    assert forall|p: Seq<int>| #[trigger] is_path(es, p, s, e) implies path_duration(es, p)
        <= total by {
        assert(is_longest(es, s, e, total));
    };
    lemma_longest_compose(es, s, v, e, fb_v, total - lf_v, total);
}

/// In every finished schedule, a task's total float is zero exactly when the
/// task lies on at least one longest (critical) start-to-end path.
#[verifier::rlimit(30)]
pub proof fn lemma_critical_iff_zero_total_float(g: PertGraph, s: int, e: int, j: int)
    requires
        scheduled(g, s, e),
        0 <= j < graph_tasks(g).len(),
    ensures
        graph_tasks(g)[j].4 == 0 <==> on_critical_path(
            arcs_of(graph_tasks(g)),
            s,
            e,
            graph_events(g)[e].1 as int,
            j,
        ),
{
    let es = arcs_of(graph_tasks(g));
    let n = graph_events(g).len() as int;
    let total = graph_events(g)[e].1 as int;
    let t = graph_tasks(g)[j];
    let u = t.0;
    let v = t.1;
    let d = t.3 as int;
    let fb_u = graph_events(g)[u].1 as int;
    let lf_v = graph_events(g)[v].2 as int;
    let ms_v = total - lf_v;
    assert(es[j].from as int == u && es[j].to as int == v && es[j].duration == t.3);
    lemma_longest_from_latest(es, v, e, total, lf_v);
    assert(is_longest(es, s, u, fb_u));
    assert(is_longest(es, s, e, total));
    lemma_critical_edge(es, s, e, j, fb_u, ms_v, total);
    // The task's total float is zero exactly when the longest path through it
    // meets the project duration.
    assert(t.4 as int == total - ms_v - (fb_u + d));
}

/// In every finished schedule, a task entering the end event that lies on a
/// longest (critical) path has zero total float and zero free float.
pub proof fn lemma_critical_task_into_end(g: PertGraph, s: int, e: int, j: int)
    requires
        scheduled(g, s, e),
        0 <= j < graph_tasks(g).len(),
        graph_tasks(g)[j].1 == e,
        on_critical_path(arcs_of(graph_tasks(g)), s, e, graph_events(g)[e].1 as int, j),
    ensures
        graph_tasks(g)[j].4 == 0,
        graph_tasks(g)[j].5 == 0,
{
    lemma_critical_iff_zero_total_float(g, s, e, j);
    lemma_end_finish_is_project_duration(g, s, e);
}

} // verus!
