//! Loading the input graph.
//!
//! The GML text is parsed by an outside crate; this module checks that
//! the parsed node identifiers are exactly the positions `0..N`, as the
//! sampler requires, and hands back a plain edge list.

use vstd::prelude::*;

verus! {

/// What the GML parser extracts from a text: the node identifiers and
/// the edge endpoint pairs, or nothing when the text does not parse.
pub uninterp spec fn gml_graph_of(text: Seq<char>) -> Option<(Seq<i64>, Seq<(i64, i64)>)>;

/// Relies on gml_parser's `GMLObject::from_str` and `Graph::from_gml`:
/// parses GML text into node ids and edge endpoint pairs; the result
/// depends on the text alone.
#[verifier::external_body]
fn parse_gml(text: &str) -> (r: Result<(Vec<i64>, Vec<(i64, i64)>), String>)
    ensures
        match r {
            Ok(p) => gml_graph_of(text@) == Some((p.0@, p.1@)),
            Err(_) => gml_graph_of(text@) is None,
        },
{
    match gml_parser::GMLObject::from_str(text) {
        Ok(obj) => match gml_parser::Graph::from_gml(obj) {
            Ok(g) => Ok(
                (
                    g.nodes.iter().map(|n| n.id).collect(),
                    g.edges.iter().map(|e| (e.source, e.target)).collect(),
                ),
            ),
            Err(e) => Err(e.to_string()),
        },
        Err(e) => Err(e.to_string()),
    }
}

/// The node list is exactly the positions `0..N` (each once, in some
/// order) and every edge endpoint is such a position.
pub open spec fn graph_ids_ok(nodes: Seq<i64>, edges: Seq<(i64, i64)>) -> bool {
    &&& forall|i: int| 0 <= i < nodes.len() ==> 0 <= #[trigger] nodes[i] < nodes.len()
    &&& forall|i: int, j: int| 0 <= i < j < nodes.len() ==> nodes[i] != nodes[j]
    &&& forall|k: int|
        0 <= k < edges.len() ==> 0 <= (#[trigger] edges[k]).0 < nodes.len() && 0 <= edges[k].1
            < nodes.len()
}

/// Parse a GML text and check that its node identifiers coincide with
/// the positions `0..N`.  Returns the node count and the edge list.
pub fn load_graph(text: &str) -> (r: Result<(usize, Vec<(usize, usize)>), String>)
    ensures
        r is Ok <==> (match gml_graph_of(text@) {
            Some(g) => graph_ids_ok(g.0, g.1) && g.0.len() <= 0xffff,
            None => false,
        }),
        r matches Ok(p) ==> (match gml_graph_of(text@) {
            Some(g) => {
                &&& p.0 == g.0.len()
                &&& p.1@.len() == g.1.len()
                &&& (forall|k: int|
                    0 <= k < g.1.len() ==> (#[trigger] p.1@[k]).0 == g.1[k].0 && p.1@[k].1
                        == g.1[k].1)
            },
            None => false,
        }),
{
    let parsed = parse_gml(text);
    let (nodes, raw_edges) = match parsed {
        Ok(p) => p,
        Err(e) => {
            return Err(e);
        },
    };
    let n = nodes.len();
    if n > 0xffff {
        return Err("too many nodes".to_owned());
    }
    let mut seen: Vec<bool> = vec![false; n];
    let mut i: usize = 0;
    while i < n
        invariant
            gml_graph_of(text@) == Some((nodes@, raw_edges@)),
            i <= n,
            n == nodes@.len(),
            n <= 0xffff,
            seen@.len() == n,
            forall|t: int| 0 <= t < i ==> 0 <= #[trigger] nodes@[t] < n,
            forall|t: int, j: int| 0 <= t < j < i ==> nodes@[t] != nodes@[j],
            forall|x: int| 0 <= x < n ==> (#[trigger] seen@[x] <==> (exists|t: int|
                0 <= t < i && nodes@[t] == x)),
        decreases n - i,
    {
        let id = nodes[i];
        if id < 0 || id >= n as i64 {
            proof {
                assert(!(0 <= nodes@[i as int] < nodes@.len()));
            }
            return Err("node identifiers must be the positions 0..N".to_owned());
        }
        let idx = id as usize;
        if seen[idx] {
            proof {
                let t = choose|t: int| 0 <= t < i && nodes@[t] == idx as int;
                assert(nodes@[t] == nodes@[i as int] && 0 <= t < i);
            }
            return Err("duplicate node identifier".to_owned());
        }
        let ghost prev_seen = seen@;
        seen.set(idx, true);
        proof {
            assert forall|x: int| 0 <= x < n implies (#[trigger] seen@[x] <==> (exists|t: int|
                0 <= t < i + 1 && nodes@[t] == x)) by {
                if x == idx as int {
                    assert(nodes@[i as int] == x);
                } else {
                    if seen@[x] {
                        let t = choose|t: int| 0 <= t < i && nodes@[t] == x;
                        assert(0 <= t < i + 1 && nodes@[t] == x);
                    } else {
                        if exists|t: int| 0 <= t < i + 1 && nodes@[t] == x {
                            let t = choose|t: int| 0 <= t < i + 1 && nodes@[t] == x;
                            assert(t < i);
                            assert(prev_seen[x]);
                        }
                    }
                }
            }
            assert forall|t: int, j: int| 0 <= t < j < i + 1 implies nodes@[t] != nodes@[j] by {
                if j == i as int && nodes@[t] == nodes@[j] {
                    assert(prev_seen[idx as int]);
                }
            }
        }
        i = i + 1;
    }
    let mut edges: Vec<(usize, usize)> = Vec::new();
    let mut k: usize = 0;
    while k < raw_edges.len()
        invariant
            gml_graph_of(text@) == Some((nodes@, raw_edges@)),
            forall|t: int, j: int| 0 <= t < j < n ==> nodes@[t] != nodes@[j],
            forall|t: int| 0 <= t < n ==> 0 <= #[trigger] nodes@[t] < n,
            k <= raw_edges@.len(),
            n == nodes@.len(),
            n <= 0xffff,
            edges@.len() == k,
            forall|t: int|
                0 <= t < k ==> 0 <= (#[trigger] raw_edges@[t]).0 < n && 0 <= raw_edges@[t].1 < n,
            forall|t: int|
                0 <= t < k ==> (#[trigger] edges@[t]).0 == raw_edges@[t].0 && edges@[t].1
                    == raw_edges@[t].1,
        decreases raw_edges@.len() - k,
    {
        let (s, t) = raw_edges[k];
        if s < 0 || s >= n as i64 || t < 0 || t >= n as i64 {
            proof {
                assert(!(0 <= raw_edges@[k as int].0 < nodes@.len() && 0 <= raw_edges@[k as int].1
                    < nodes@.len()));
            }
            return Err("edge endpoint is not a node".to_owned());
        }
        edges.push((s as usize, t as usize));
        k = k + 1;
    }
    Ok((n, edges))
}

} // verus!
