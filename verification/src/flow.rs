//! Flow settings and the kinds of flows.

use vstd::prelude::*;

use crate::EdgelinkError;
use crate::text::str_eq;
use crate::eid::ElementId;

verus! {

/// Settings of a flow.
#[derive(Debug, Clone)]
pub struct FlowArgs {
    pub node_msg_queue_capacity: usize,
}

impl Default for FlowArgs {
    fn default() -> (r: FlowArgs)
        ensures
            r.node_msg_queue_capacity == 16,
    {
        FlowArgs { node_msg_queue_capacity: 16 }
    }
}

/// A flow is a tab of the editor or a subflow.
#[derive(Debug, Clone, Copy, PartialEq, Eq, Structural)]
pub enum FlowKind {
    GlobalFlow,
    Subflow,
}

impl FlowKind {
    /// The kind of a flow by its type in the flows file: `tab` or `subflow`;
    /// any other type is refused with `BadFlowsJson`.
    pub fn from_type_name(flow_type: &str) -> (r: Result<FlowKind, EdgelinkError>)
        ensures
            flow_type@ == "tab"@ ==> r == Ok::<FlowKind, EdgelinkError>(FlowKind::GlobalFlow),
            flow_type@ == "subflow"@ ==> r == Ok::<FlowKind, EdgelinkError>(FlowKind::Subflow),
            flow_type@ != "tab"@ && flow_type@ != "subflow"@ ==> (r matches Err(EdgelinkError::BadFlowsJson(m))
                && m@ == "Unsupported flow type"@),
    {
        proof {
            reveal_strlit("tab");
            reveal_strlit("subflow");
            assert("tab"@.len() != "subflow"@.len());
        }
        if str_eq(flow_type, "tab") {
            Ok(FlowKind::GlobalFlow)
        } else if str_eq(flow_type, "subflow") {
            Ok(FlowKind::Subflow)
        } else {
            Err(EdgelinkError::BadFlowsJson("Unsupported flow type".to_owned()))
        }
    }
}

} // verus!

verus! {

// ---------------------------------------------------------------------------
// Choosing the node type of a flows node
// ---------------------------------------------------------------------------

/// Which registered node type builds a flows node.
#[derive(Debug, Clone, Copy, PartialEq, Eq, Structural)]
pub enum NodeTypeChoice {
    /// The registered type at this position, whose name is the node's type.
    Registered(usize),
    /// The `subflow` type, for a type `subflow:<id>` that is not registered.
    Subflow,
    /// The `unknown.flow` type, for any other type that is not registered.
    Unknown,
}

/// The first position of `x` in `s`, if it is there.
pub open spec fn first_position(s: Seq<Seq<char>>, x: Seq<char>) -> Option<int>
    decreases s.len(),
{
    if s.len() == 0 {
        None
    } else {
        match first_position(s.drop_last(), x) {
            Some(i) => Some(i),
            None => if s.last() == x {
                Some(s.len() - 1)
            } else {
                None
            },
        }
    }
}

/// The type that builds a node of type `name`: the registered type of that name
/// (the first, if several), else `subflow` for a name that starts with
/// `subflow:`, else `unknown.flow`.
pub open spec fn node_type_choice(name: Seq<char>, registered: Seq<Seq<char>>) -> NodeTypeChoice {
    match first_position(registered, name) {
        Some(i) => NodeTypeChoice::Registered(i as usize),
        None => if name.len() >= 8 && name.subrange(0, 8) == "subflow:"@ {
            NodeTypeChoice::Subflow
        } else {
            NodeTypeChoice::Unknown
        },
    }
}

/// The views of a sequence of strings.
pub open spec fn names_view(s: Seq<String>) -> Seq<Seq<char>> {
    Seq::new(s.len(), |i: int| s[i]@)
}

/// See `node_type_choice`.
pub fn resolve_node_type(node_type: &str, registered: &Vec<String>) -> (r: NodeTypeChoice)
    ensures
        r == node_type_choice(node_type@, names_view(registered@)),
{
    let ghost rs = names_view(registered@);
    let mut i: usize = 0;
    while i < registered.len()
        invariant
            rs == names_view(registered@),
            i <= registered@.len(),
            first_position(rs.take(i as int), node_type@) is None,
        decreases registered.len() - i,
    {
        proof {
            assert(rs.take(i + 1).drop_last() =~= rs.take(i as int));
        }
        if str_eq(registered[i].as_str(), node_type) {
            proof {
                lemma_first_position_prefix(rs, node_type@, i + 1);
            }
            return NodeTypeChoice::Registered(i);
        }
        i = i + 1;
    }
    proof {
        assert(rs.take(i as int) =~= rs);
        reveal_strlit("subflow:");
    }
    let chars = crate::text::chars_of(node_type);
    if chars.len() >= 8 && str_eq(node_type.substring_char(0, 8), "subflow:") {
        NodeTypeChoice::Subflow
    } else {
        NodeTypeChoice::Unknown
    }
}

/// Where `x` is found in the first `k` items, it is found at the same place in all.
proof fn lemma_first_position_prefix(s: Seq<Seq<char>>, x: Seq<char>, k: int)
    requires
        0 <= k <= s.len(),
        first_position(s.take(k), x) is Some,
    ensures
        first_position(s, x) == first_position(s.take(k), x),
    decreases s.len() - k,
{
    if k < s.len() {
        assert(s.drop_last().take(k) =~= s.take(k));
        lemma_first_position_prefix(s.drop_last(), x, k);
    } else {
        assert(s.take(k) =~= s);
    }
}

} // verus!

verus! {

// ---------------------------------------------------------------------------
// Output ports of a subflow
// ---------------------------------------------------------------------------

/// For the wires `ws` of the subflow output port `pi`, the links `(node port,
/// pi)` of those wires that come from the node `id`, in order.
pub open spec fn port_links(ws: Seq<(ElementId, usize)>, id: ElementId, pi: int) -> Seq<(usize, usize)>
    decreases ws.len(),
{
    if ws.len() == 0 {
        Seq::empty()
    } else {
        port_links(ws.drop_last(), id, pi) + if ws.last().0 == id {
            seq![(ws.last().1, pi as usize)]
        } else {
            Seq::empty()
        }
    }
}

/// The links of the node `id` to the first `k` output ports of a subflow.
pub open spec fn subflow_links(ps: Seq<Seq<(ElementId, usize)>>, id: ElementId, k: int) -> Seq<(usize, usize)>
    decreases k,
{
    if k <= 0 {
        Seq::empty()
    } else {
        subflow_links(ps, id, k - 1) + port_links(ps[k - 1], id, k - 1)
    }
}

/// The first node port among the links that is not below `n`.
pub open spec fn first_bad_port(s: Seq<(usize, usize)>, n: usize) -> Option<usize>
    decreases s.len(),
{
    if s.len() == 0 {
        None
    } else if s[0].0 >= n {
        Some(s[0].0)
    } else {
        first_bad_port(s.drop_first(), n)
    }
}

/// The error for a wire to the missing node port `port`.
pub open spec fn bad_port_message(port: usize) -> Seq<char> {
    "Bad port for subflow: "@ + crate::propex::decimal_text(port as nat)
}

proof fn lemma_first_bad_concat(a: Seq<(usize, usize)>, b: Seq<(usize, usize)>, n: usize)
    ensures
        first_bad_port(a + b, n) == (if first_bad_port(a, n) is Some {
            first_bad_port(a, n)
        } else {
            first_bad_port(b, n)
        }),
    decreases a.len(),
{
    if a.len() == 0 {
        assert(a + b =~= b);
    } else {
        assert((a + b).drop_first() =~= a.drop_first() + b);
        lemma_first_bad_concat(a.drop_first(), b, n);
    }
}

proof fn lemma_port_links_prefix(ws: Seq<(ElementId, usize)>, id: ElementId, pi: int, k: int) -> (rest: Seq<(usize, usize)>)
    requires
        0 <= k <= ws.len(),
    ensures
        port_links(ws, id, pi) == port_links(ws.take(k), id, pi) + rest,
    decreases ws.len() - k,
{
    if k < ws.len() {
        assert(ws.drop_last().take(k) =~= ws.take(k));
        let rest = lemma_port_links_prefix(ws.drop_last(), id, pi, k);
        let tail = if ws.last().0 == id {
            seq![(ws.last().1, pi as usize)]
        } else {
            Seq::empty()
        };
        assert(port_links(ws, id, pi) =~= port_links(ws.take(k), id, pi) + (rest + tail));
        rest + tail
    } else {
        assert(ws.take(k) =~= ws);
        assert(port_links(ws, id, pi) =~= port_links(ws.take(k), id, pi) + Seq::<(usize, usize)>::empty());
        Seq::empty()
    }
}

proof fn lemma_subflow_links_prefix(ps: Seq<Seq<(ElementId, usize)>>, id: ElementId, k: int, m: int) -> (rest: Seq<(usize, usize)>)
    requires
        0 <= k <= m,
    ensures
        subflow_links(ps, id, m) == subflow_links(ps, id, k) + rest,
    decreases m - k,
{
    if k < m {
        let rest = lemma_subflow_links_prefix(ps, id, k, m - 1);
        assert(subflow_links(ps, id, m) =~= subflow_links(ps, id, k) + (rest + port_links(ps[m - 1], id, m - 1)));
        rest + port_links(ps[m - 1], id, m - 1)
    } else {
        assert(subflow_links(ps, id, m) =~= subflow_links(ps, id, k) + Seq::<(usize, usize)>::empty());
        Seq::empty()
    }
}

/// Where the output ports of a subflow take the wires of the node `id`: the
/// links `(node port, subflow port)` of its wires, in order, when each names
/// one of the node's `n_ports` ports; `BadFlowsJson` for the first wire that
/// names another port.
pub fn subflow_port_targets(out_ports: &Vec<Vec<(ElementId, usize)>>, node_id: ElementId, n_ports: usize) -> (r: Result<Vec<(usize, usize)>, EdgelinkError>)
    ensures
        match first_bad_port(subflow_links(out_ports@.map_values(|p: Vec<(ElementId, usize)>| p@), node_id, out_ports@.len() as int), n_ports) {
            None => r matches Ok(v) && v@ == subflow_links(out_ports@.map_values(|p: Vec<(ElementId, usize)>| p@), node_id, out_ports@.len() as int),
            Some(p) => r matches Err(EdgelinkError::BadFlowsJson(m)) && m@ == bad_port_message(p),
        },
{
    let ghost ps = out_ports@.map_values(|p: Vec<(ElementId, usize)>| p@);
    let ghost total = subflow_links(ps, node_id, ps.len() as int);
    let mut out: Vec<(usize, usize)> = Vec::new();
    let mut pi: usize = 0;
    while pi < out_ports.len()
        invariant
            ps == out_ports@.map_values(|p: Vec<(ElementId, usize)>| p@),
            total == subflow_links(ps, node_id, ps.len() as int),
            pi <= out_ports@.len(),
            out@ == subflow_links(ps, node_id, pi as int),
            first_bad_port(out@, n_ports) is None,
        decreases out_ports.len() - pi,
    {
        let ws = &out_ports[pi];
        let ghost w = ps[pi as int];
        let ghost base = out@;
        assert(w == ws@);
        let mut wj: usize = 0;
        while wj < ws.len()
            invariant
                ps == out_ports@.map_values(|p: Vec<(ElementId, usize)>| p@),
                total == subflow_links(ps, node_id, ps.len() as int),
                pi < out_ports@.len(),
                w == ps[pi as int],
                w == ws@,
                base == subflow_links(ps, node_id, pi as int),
                wj <= ws@.len(),
                out@ == base + port_links(w.take(wj as int), node_id, pi as int),
                first_bad_port(out@, n_ports) is None,
            decreases ws.len() - wj,
        {
            let (id, port) = ws[wj];
            proof {
                assert(w.take(wj + 1).drop_last() =~= w.take(wj as int));
                assert(w.take(wj + 1).last() == (id, port));
            }
            if id == node_id {
                if port >= n_ports {
                    proof {
                        let pre = base + port_links(w.take(wj + 1), node_id, pi as int);
                        assert(pre =~= out@ + seq![(port, pi)]);
                        lemma_first_bad_concat(out@, seq![(port, pi)], n_ports);
                        assert(first_bad_port(seq![(port, pi)], n_ports) == Some(port)) by {
                            assert(seq![(port, pi)].drop_first().len() == 0);
                        }
                        let r1 = lemma_port_links_prefix(w, node_id, pi as int, wj + 1);
                        let r2 = lemma_subflow_links_prefix(ps, node_id, pi + 1, ps.len() as int);
                        assert(subflow_links(ps, node_id, pi + 1) == base + port_links(w, node_id, pi as int));
                        assert(total =~= pre + (r1 + r2));
                        lemma_first_bad_concat(pre, r1 + r2, n_ports);
                    }
                    let mut msg = "Bad port for subflow: ".to_owned();
                    crate::propex::push_decimal(&mut msg, port);
                    proof {
                        reveal_strlit("Bad port for subflow: ");
                    }
                    return Err(EdgelinkError::BadFlowsJson(msg));
                }
                proof {
                    lemma_first_bad_concat(out@, seq![(port, pi)], n_ports);
                    assert(first_bad_port(seq![(port, pi)], n_ports) is None) by {
                        assert(seq![(port, pi)].drop_first().len() == 0);
                        assert(first_bad_port(seq![(port, pi)].drop_first(), n_ports) is None);
                    }
                }
                let ghost before = out@;
                out.push((port, pi));
                proof {
                    assert(out@ =~= before + seq![(port, pi)]);
                    assert(out@ =~= base + port_links(w.take(wj + 1), node_id, pi as int));
                }
            } else {
                proof {
                    assert(out@ =~= base + port_links(w.take(wj + 1), node_id, pi as int));
                }
            }
            wj = wj + 1;
        }
        proof {
            assert(w.take(wj as int) =~= w);
            assert(out@ =~= subflow_links(ps, node_id, pi + 1));
        }
        pi = pi + 1;
    }
    Ok(out)
}

} // verus!

verus! {

// ---------------------------------------------------------------------------
// Wires and group of a flows node
// ---------------------------------------------------------------------------

/// Where a wire of a node leads.
#[derive(Debug, Clone, Copy, PartialEq, Eq, Structural)]
pub enum WireTarget {
    /// The node at this position among the nodes of the node's own flow.
    InFlow(usize),
    /// The node at this position among the nodes of the whole engine.
    InEngine(usize),
}

/// The first position at or after `k` where `s` holds `x`.
pub open spec fn index_from(s: Seq<ElementId>, x: ElementId, k: int) -> Option<int>
    decreases s.len() - k,
{
    if k < 0 || k >= s.len() {
        None
    } else if s[k] == x {
        Some(k)
    } else {
        index_from(s, x, k + 1)
    }
}

/// Where the wire to `id` leads: the node of the flow if the flow has it, else
/// the node of the engine, else nowhere.
pub open spec fn wire_target(id: ElementId, in_flow: Seq<ElementId>, in_engine: Seq<ElementId>) -> Option<WireTarget> {
    match index_from(in_flow, id, 0) {
        Some(i) => Some(WireTarget::InFlow(i as usize)),
        None => match index_from(in_engine, id, 0) {
            Some(j) => Some(WireTarget::InEngine(j as usize)),
            None => None,
        },
    }
}

/// The first id of a port, in order, that leads nowhere.
pub open spec fn first_missing_in(row: Seq<ElementId>, in_flow: Seq<ElementId>, in_engine: Seq<ElementId>) -> Option<ElementId>
    decreases row.len(),
{
    if row.len() == 0 {
        None
    } else if wire_target(row[0], in_flow, in_engine) is None {
        Some(row[0])
    } else {
        first_missing_in(row.drop_first(), in_flow, in_engine)
    }
}

/// The first id of all the ports, port after port, that leads nowhere.
pub open spec fn first_missing(rows: Seq<Seq<ElementId>>, in_flow: Seq<ElementId>, in_engine: Seq<ElementId>) -> Option<ElementId>
    decreases rows.len(),
{
    if rows.len() == 0 {
        None
    } else {
        match first_missing_in(rows[0], in_flow, in_engine) {
            Some(x) => Some(x),
            None => first_missing(rows.drop_first(), in_flow, in_engine),
        }
    }
}

/// The error for a wire of the node `id` named `name` to the missing node `target`.
pub open spec fn missing_node_message(id: ElementId, name: Seq<char>, target: ElementId) -> Seq<char> {
    "Referenced node not found [this_node.id='"@ + crate::eid::hex16(id.value()) + "' this_node.name='"@ + name
        + "', referenced_node.id='"@ + crate::eid::hex16(target.value()) + "']"@
}

/// The error for a group that is not among the groups of the flow.
pub open spec fn missing_group_message(g: ElementId) -> Seq<char> {
    "Can not found the group id in groups: id='"@ + crate::eid::hex16(g.value()) + "'"@
}

/// The position of `x` in `s`, if it is there (the first).
fn find_id(s: &Vec<ElementId>, x: ElementId) -> (r: Option<usize>)
    ensures
        match index_from(s@, x, 0) {
            Some(i) => r == Some(i as usize),
            None => r is None,
        },
{
    let mut i: usize = 0;
    while i < s.len()
        invariant
            i <= s@.len(),
            index_from(s@, x, i as int) == index_from(s@, x, 0),
        decreases s.len() - i,
    {
        if s[i] == x {
            return Some(i);
        }
        i = i + 1;
    }
    None
}

/// See `wire_target`.
fn target_of(id: ElementId, in_flow: &Vec<ElementId>, in_engine: &Vec<ElementId>) -> (r: Option<WireTarget>)
    ensures
        r == wire_target(id, in_flow@, in_engine@),
{
    match find_id(in_flow, id) {
        Some(i) => Some(WireTarget::InFlow(i)),
        None => match find_id(in_engine, id) {
            Some(j) => Some(WireTarget::InEngine(j)),
            None => None,
        },
    }
}

/// The views of the ports of a node.
pub open spec fn rows_view(rows: Seq<Vec<ElementId>>) -> Seq<Seq<ElementId>> {
    rows.map_values(|r: Vec<ElementId>| r@)
}

/// The views of the resolved ports.
pub open spec fn targets_view(rows: Seq<Vec<WireTarget>>) -> Seq<Seq<WireTarget>> {
    rows.map_values(|r: Vec<WireTarget>| r@)
}

/// Resolves the wires of the node `node_id` (named `node_name`) and its group:
/// each wire leads to the node of the flow, or else of the engine, with that id
/// (see `wire_target`), and the group is found among the flow's groups. The
/// first wire, port after port, that leads nowhere is an `InvalidData` error;
/// so is, after that, a group that is not there.
pub fn resolve_node_wires(
    node_id: ElementId,
    node_name: &str,
    wires: &Vec<Vec<ElementId>>,
    in_flow: &Vec<ElementId>,
    in_engine: &Vec<ElementId>,
    group: Option<ElementId>,
    groups: &Vec<ElementId>,
) -> (r: Result<(Vec<Vec<WireTarget>>, Option<usize>), EdgelinkError>)
    ensures
        match first_missing(rows_view(wires@), in_flow@, in_engine@) {
            Some(t) => r matches Err(EdgelinkError::InvalidData(m)) && m@ == missing_node_message(node_id, node_name@, t),
            None => match group {
                Some(g) => match index_from(groups@, g, 0) {
                    None => r matches Err(EdgelinkError::InvalidData(m)) && m@ == missing_group_message(g),
                    Some(gi) => r matches Ok((t, gr)) && gr == Some(gi as usize) && targets_view(t@).len() == wires@.len()
                        && forall|p: int, w: int| 0 <= p < wires@.len() && 0 <= w < wires@[p]@.len() ==> targets_view(t@)[p].len()
                            == wires@[p]@.len() && Some(#[trigger] targets_view(t@)[p][w]) == wire_target(wires@[p]@[w], in_flow@, in_engine@),
                },
                None => r matches Ok((t, gr)) && gr is None && targets_view(t@).len() == wires@.len()
                    && forall|p: int, w: int| 0 <= p < wires@.len() && 0 <= w < wires@[p]@.len() ==> targets_view(t@)[p].len()
                        == wires@[p]@.len() && Some(#[trigger] targets_view(t@)[p][w]) == wire_target(wires@[p]@[w], in_flow@, in_engine@),
            },
        },
{
    let ghost rows = rows_view(wires@);
    let mut out: Vec<Vec<WireTarget>> = Vec::new();
    let mut pi: usize = 0;
    proof {
        assert(rows.skip(0) =~= rows);
    }
    while pi < wires.len()
        invariant
            rows == rows_view(wires@),
            pi <= wires@.len(),
            first_missing(rows, in_flow@, in_engine@) == first_missing(rows.skip(pi as int), in_flow@, in_engine@),
            out@.len() == pi,
            forall|p: int| 0 <= p < pi ==> (#[trigger] out@[p])@.len() == wires@[p]@.len(),
            forall|p: int, w: int| 0 <= p < pi && 0 <= w < wires@[p]@.len() ==> Some(#[trigger] out@[p]@[w]) == wire_target(
                wires@[p]@[w],
                in_flow@,
                in_engine@,
            ),
        decreases wires.len() - pi,
    {
        let row = &wires[pi];
        let ghost rv = row@;
        proof {
            assert(rows[pi as int] == rv);
            assert(rows.skip(pi as int)[0] == rv);
            assert(rows.skip(pi as int).drop_first() =~= rows.skip(pi + 1));
            assert(rv.skip(0) =~= rv);
        }
        let mut targets: Vec<WireTarget> = Vec::new();
        let mut wj: usize = 0;
        while wj < row.len()
            invariant
                rows == rows_view(wires@),
                pi < wires@.len(),
                rv == row@,
                rv == rows[pi as int],
                rows.skip(pi as int)[0] == rv,
                first_missing(rows, in_flow@, in_engine@) == first_missing(rows.skip(pi as int), in_flow@, in_engine@),
                wj <= rv.len(),
                first_missing_in(rv, in_flow@, in_engine@) == first_missing_in(rv.skip(wj as int), in_flow@, in_engine@),
                targets@.len() == wj,
                forall|w: int| 0 <= w < wj ==> Some(#[trigger] targets@[w]) == wire_target(rv[w], in_flow@, in_engine@),
            decreases row.len() - wj,
        {
            let id = row[wj];
            proof {
                assert(rv.skip(wj as int)[0] == id);
                assert(rv.skip(wj as int).drop_first() =~= rv.skip(wj + 1));
            }
            match target_of(id, in_flow, in_engine) {
                Some(t) => {
                    targets.push(t);
                },
                None => {
                    let mut msg = "Referenced node not found [this_node.id='".to_owned();
                    let a = node_id.to_string();
                    crate::propex::push_text(&mut msg, a.as_str());
                    crate::propex::push_text(&mut msg, "' this_node.name='");
                    crate::propex::push_text(&mut msg, node_name);
                    crate::propex::push_text(&mut msg, "', referenced_node.id='");
                    let b = id.to_string();
                    crate::propex::push_text(&mut msg, b.as_str());
                    crate::propex::push_text(&mut msg, "']");
                    return Err(EdgelinkError::InvalidData(msg));
                },
            }
            wj = wj + 1;
        }
        proof {
            assert(rv.skip(wj as int).len() == 0);
        }
        out.push(targets);
        pi = pi + 1;
    }
    proof {
        assert(rows.skip(pi as int).len() == 0);
    }
    let g = match group {
        Some(gid) => match find_id(groups, gid) {
            Some(gi) => Some(gi),
            None => {
                let mut msg = "Can not found the group id in groups: id='".to_owned();
                let a = gid.to_string();
                crate::propex::push_text(&mut msg, a.as_str());
                crate::propex::push_text(&mut msg, "'");
                return Err(EdgelinkError::InvalidData(msg));
            },
        },
        None => None,
    };
    Ok((out, g))
}

} // verus!
