//! A dump of the graph for debugging tools, as three tab-separated tables: the
//! records with their keys, the dependency edges, and the evaluations that are
//! running. The dump is
//! no part of the hot path and is allowed to be slow.

use vstd::prelude::*;
use crate::key::{Key, KeyId, KeyView};
use crate::key_index::DiceKeyIndex;
use crate::model::Flight;
use crate::node::{graph_view, history_view, Entry, EntryView, Outcome, OutcomeView};
use crate::state::CoreState;
use crate::text::{decimal, hex_bytes, push_decimal, push_hex_bytes, NEWLINE, TAB};

verus! {

/// The word for the kind of an outcome: `value`, `failed` or `cycle`.
pub open spec fn kind_word(o: OutcomeView) -> Seq<u8> {
    match o {
        OutcomeView::Value(_) => seq![118u8, 97u8, 108u8, 117u8, 101u8],
        OutcomeView::Failed(_) => seq![102u8, 97u8, 105u8, 108u8, 101u8, 100u8],
        OutcomeView::Cycle(_) => seq![99u8, 121u8, 99u8, 108u8, 101u8],
    }
}

/// The fields that name a key: its identifier, its family, and its payload in
/// hexadecimal.
pub open spec fn key_fields(k: nat, key: KeyView) -> Seq<u8> {
    decimal(k) + seq![TAB] + decimal(key.family) + seq![TAB] + hex_bytes(
        key.payload,
        key.payload.len() as int,
    )
}

/// The row of one record: the key, the first and the last version at which the
/// record holds, and the kind of its outcome.
pub open spec fn node_row(k: nat, key: KeyView, e: EntryView) -> Seq<u8> {
    key_fields(k, key) + seq![TAB] + decimal(e.since) + seq![TAB] + decimal(e.through) + seq![TAB]
        + kind_word(e.outcome) + seq![NEWLINE]
}

/// The rows of the first `n` records of a key, in order.
pub open spec fn node_rows(k: nat, key: KeyView, h: Seq<EntryView>, n: int) -> Seq<u8>
    decreases n,
{
    if n <= 0 {
        Seq::empty()
    } else {
        node_rows(k, key, h, n - 1) + node_row(k, key, h[n - 1])
    }
}

/// The table of the records of the first `n` keys, key by key.
pub open spec fn nodes_table(keys: Seq<KeyView>, nodes: Seq<Seq<EntryView>>, n: int) -> Seq<u8>
    decreases n,
{
    if n <= 0 {
        Seq::empty()
    } else {
        nodes_table(keys, nodes, n - 1) + node_rows(
            (n - 1) as nat,
            keys[n - 1],
            nodes[n - 1],
            nodes[n - 1].len() as int,
        )
    }
}

/// The row of one dependency edge: the key's identifier, the first version of the
/// record that has the edge, and the identifier of the key that it leads to.
pub open spec fn edge_row(k: nat, since: nat, dep: KeyId) -> Seq<u8> {
    decimal(k) + seq![TAB] + decimal(since) + seq![TAB] + decimal(dep@) + seq![NEWLINE]
}

/// The rows of the first `n` edges of one record.
pub open spec fn record_edges(k: nat, e: EntryView, n: int) -> Seq<u8>
    decreases n,
{
    if n <= 0 {
        Seq::empty()
    } else {
        record_edges(k, e, n - 1) + edge_row(k, e.since, e.deps[n - 1])
    }
}

/// The edge rows of the first `n` records of a key.
pub open spec fn edge_rows(k: nat, h: Seq<EntryView>, n: int) -> Seq<u8>
    decreases n,
{
    if n <= 0 {
        Seq::empty()
    } else {
        edge_rows(k, h, n - 1) + record_edges(k, h[n - 1], h[n - 1].deps.len() as int)
    }
}

/// The table of the dependency edges of the first `n` keys.
pub open spec fn edges_table(nodes: Seq<Seq<EntryView>>, n: int) -> Seq<u8>
    decreases n,
{
    if n <= 0 {
        Seq::empty()
    } else {
        edges_table(nodes, n - 1) + edge_rows(
            (n - 1) as nat,
            nodes[n - 1],
            nodes[n - 1].len() as int,
        )
    }
}

/// The row of one running evaluation: the key's identifier, the version, and the
/// number of callers that share the evaluation.
pub open spec fn flight_row(f: Flight) -> Seq<u8> {
    decimal(f.key@) + seq![TAB] + decimal(f.version as nat) + seq![TAB] + decimal(
        f.waiters as nat,
    ) + seq![NEWLINE]
}

/// The table of the first `n` running evaluations.
pub open spec fn running_table(flights: Seq<Flight>, n: int) -> Seq<u8>
    decreases n,
{
    if n <= 0 {
        Seq::empty()
    } else {
        running_table(flights, n - 1) + flight_row(flights[n - 1])
    }
}

/// The three tables of a dump.
#[derive(Debug, PartialEq, Eq)]
pub struct GraphDump {
    pub nodes: Vec<u8>,
    pub edges: Vec<u8>,
    pub nodes_currently_running: Vec<u8>,
}

/// Appends the word for the kind of `o`.
fn push_kind(out: &mut Vec<u8>, o: &Outcome)
    ensures
        final(out)@ == old(out)@ + kind_word(o@),
{
    let ghost before = out@;
    match o {
        Outcome::Value(_) => {
            out.push(118);
            out.push(97);
            out.push(108);
            out.push(117);
            out.push(101);
        },
        Outcome::Failed(_) => {
            out.push(102);
            out.push(97);
            out.push(105);
            out.push(108);
            out.push(101);
            out.push(100);
        },
        Outcome::Cycle(_) => {
            out.push(99);
            out.push(121);
            out.push(99);
            out.push(108);
            out.push(101);
        },
    }
    assert(out@ =~= before + kind_word(o@));
}

/// Appends the row of one record.
fn push_node_row(out: &mut Vec<u8>, k: usize, key: &Key, e: &Entry)
    ensures
        final(out)@ == old(out)@ + node_row(k as nat, key@, e@),
{
    let ghost before = out@;
    push_decimal(out, k as u64);
    out.push(TAB);
    push_decimal(out, key.family());
    out.push(TAB);
    push_hex_bytes(out, key.payload());
    out.push(TAB);
    push_decimal(out, e.since);
    out.push(TAB);
    push_decimal(out, e.through);
    out.push(TAB);
    push_kind(out, &e.outcome);
    out.push(NEWLINE);
    assert(out@ =~= before + node_row(k as nat, key@, e@));
}

/// Appends the rows of the edges of one record.
fn push_record_edges(out: &mut Vec<u8>, k: usize, e: &Entry)
    ensures
        final(out)@ == old(out)@ + record_edges(k as nat, e@, e@.deps.len() as int),
{
    let ghost before = out@;
    let n: usize = e.deps.len();
    let mut d: usize = 0;
    assert(out@ =~= before + record_edges(k as nat, e@, 0));
    while d < n
        invariant
            d <= n,
            n == e@.deps.len(),
            out@ == before + record_edges(k as nat, e@, d as int),
        decreases n - d,
    {
        let ghost mid = out@;
        push_decimal(out, k as u64);
        out.push(TAB);
        push_decimal(out, e.since);
        out.push(TAB);
        push_decimal(out, e.deps[d].0 as u64);
        out.push(NEWLINE);
        assert(out@ =~= mid + edge_row(k as nat, e@.since, e@.deps[d as int]));
        assert(out@ =~= before + record_edges(k as nat, e@, d as int + 1));
        d = d + 1;
    }
}

/// The three tables of the graph: one row per record, one per dependency edge, one
/// per running evaluation; keys in the order of their identifiers, records and
/// edges in the order in which they were recorded, evaluations in the order in
/// which they were claimed.
pub fn dump_graph(index: &DiceKeyIndex, state: &CoreState) -> (dump: GraphDump)
    requires
        index@.len() == state@.nodes.len(),
    ensures
        dump.nodes@ == nodes_table(index@, state@.nodes, state@.nodes.len() as int),
        dump.edges@ == edges_table(state@.nodes, state@.nodes.len() as int),
        dump.nodes_currently_running@ == running_table(
            state@.flights,
            state@.flights.len() as int,
        ),
{
    let graph = state.histories();
    let ghost nodes = state@.nodes;
    let mut rows: Vec<u8> = Vec::new();
    let mut edges: Vec<u8> = Vec::new();
    let n: usize = graph.len();
    let mut k: usize = 0;
    assert(rows@ =~= nodes_table(index@, nodes, 0));
    assert(edges@ =~= edges_table(nodes, 0));
    while k < n
        invariant
            k <= n,
            n == graph@.len(),
            n == index@.len(),
            nodes == graph_view(graph@),
            rows@ == nodes_table(index@, nodes, k as int),
            edges@ == edges_table(nodes, k as int),
        decreases n - k,
    {
        let key: &Key = index.key_at(k);
        let h = &graph[k];
        let ghost hv = nodes[k as int];
        assert(hv == history_view(h@));
        let ghost rows0 = rows@;
        let ghost edges0 = edges@;
        let m: usize = h.len();
        let mut i: usize = 0;
        assert(rows@ =~= rows0 + node_rows(k as nat, key@, hv, 0));
        assert(edges@ =~= edges0 + edge_rows(k as nat, hv, 0));
        while i < m
            invariant
                i <= m,
                m == h@.len(),
                hv == history_view(h@),
                rows@ == rows0 + node_rows(k as nat, key@, hv, i as int),
                edges@ == edges0 + edge_rows(k as nat, hv, i as int),
            decreases m - i,
        {
            assert(hv[i as int] == h@[i as int]@);
            let ghost r1 = rows@;
            let ghost e1 = edges@;
            push_node_row(&mut rows, k, key, &h[i]);
            push_record_edges(&mut edges, k, &h[i]);
            assert(rows@ =~= rows0 + node_rows(k as nat, key@, hv, i as int + 1));
            assert(edges@ =~= edges0 + edge_rows(k as nat, hv, i as int + 1));
            i = i + 1;
        }
        k = k + 1;
    }
    let flights = state.flights();
    let mut running: Vec<u8> = Vec::new();
    let f: usize = flights.len();
    let mut j: usize = 0;
    assert(running@ =~= running_table(flights@, 0));
    while j < f
        invariant
            j <= f,
            f == flights@.len(),
            running@ == running_table(flights@, j as int),
        decreases f - j,
    {
        let ghost mid = running@;
        push_decimal(&mut running, flights[j].key.0 as u64);
        running.push(TAB);
        push_decimal(&mut running, flights[j].version);
        running.push(TAB);
        push_decimal(&mut running, flights[j].waiters);
        running.push(NEWLINE);
        assert(running@ =~= mid + flight_row(flights@[j as int]));
        j = j + 1;
    }
    GraphDump { nodes: rows, edges, nodes_currently_running: running }
}

} // verus!
