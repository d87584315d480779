//! The records of a search: for each visited vertex its predecessor, its
//! step and its cumulative weight; and the path that the records describe.
use vstd::prelude::*;
use crate::types::{GraphError, GraphPath, Heuristic, PathWeight, VertexId};

verus! {

/// What a search records of a visited vertex.
#[derive(Debug, Clone, Copy, PartialEq, Eq, Structural)]
pub struct VisitedRecord {
    /// The vertex from which this one was reached; `None` for a start vertex.
    pub predecessor: Option<VertexId>,
    /// The number of edges from the start vertex along the predecessors.
    pub step: u64,
    /// The cumulative weight from the start vertex along the predecessors.
    pub weight: PathWeight,
    /// The estimate made when the vertex was first reached.
    pub estimate: Heuristic,
}

/// The hash map behind the records: the hash map of bevy's utilities, which
/// is hashbrown's. Nothing of it is visible to the verifier; what it holds is
/// `table_contents`, and the functions below say what its methods do to that.
#[verifier::external_body]
pub struct RecordTable {
    inner: bevy::utils::HashMap<VertexId, VisitedRecord>,
}

/// The records that a table holds, by vertex.
pub uninterp spec fn table_contents(t: RecordTable) -> Map<VertexId, VisitedRecord>;

/// `HashMap::default`: the new table holds nothing.
#[verifier::external_body]
pub(crate) fn table_new() -> (t: RecordTable)
    ensures
        table_contents(t).dom() == Set::<VertexId>::empty(),
{
    RecordTable { inner: bevy::utils::HashMap::default() }
}

/// `HashMap::insert`: afterwards the table holds `record` under `key`, in
/// place of what it held there; nothing else changes.
#[verifier::external_body]
pub(crate) fn table_insert(t: &mut RecordTable, key: VertexId, record: VisitedRecord)
    ensures
        table_contents(*final(t)) == table_contents(*old(t)).insert(key, record),
{
    t.inner.insert(key, record);
}

/// `HashMap::get`: the record under `key`, if the table holds one.
#[verifier::external_body]
pub(crate) fn table_get(t: &RecordTable, key: VertexId) -> (r: Option<VisitedRecord>)
    ensures
        r is Some == table_contents(*t).contains_key(key),
        r is Some ==> r.unwrap() == table_contents(*t)[key],
{
    t.inner.get(&key).copied()
}

/// `HashMap::contains_key`: whether the table holds a record under `key`.
#[verifier::external_body]
pub(crate) fn table_contains(t: &RecordTable, key: VertexId) -> (r: bool)
    ensures
        r == table_contents(*t).contains_key(key),
{
    t.inner.contains_key(&key)
}

/// `HashMap::len`: the number of records.
#[verifier::external_body]
pub(crate) fn table_len(t: &RecordTable) -> (r: usize)
    ensures
        r == table_contents(*t).dom().len(),
{
    t.inner.len()
}

/// The record of a start vertex.
pub open spec fn start_record() -> VisitedRecord {
    VisitedRecord {
        predecessor: None,
        step: 0,
        weight: PathWeight::spec_zero(),
        estimate: Heuristic::spec_none(),
    }
}

/// `rest` with `prefix` before it, where there is a `rest`.
pub open spec fn prepend(prefix: Seq<VertexId>, rest: Option<Seq<VertexId>>) -> Option<
    Seq<VertexId>,
> {
    match rest {
        Some(s) => Some(prefix + s),
        None => None,
    }
}

/// The vertices from `v` back along the predecessors to a vertex without
/// one, `v` first. `None` where a predecessor has no record, or where more
/// than `fuel` predecessors would have to be followed.
pub open spec fn chain_from(m: Map<VertexId, VisitedRecord>, v: VertexId, fuel: nat) -> Option<
    Seq<VertexId>,
>
    decreases fuel,
{
    if !m.contains_key(v) {
        None
    } else {
        match m[v].predecessor {
            None => Some(seq![v]),
            Some(p) => if fuel == 0 {
                None
            } else {
                prepend(seq![v], chain_from(m, p, (fuel - 1) as nat))
            },
        }
    }
}

/// The path that the records describe for `v`: the chain of `v`, as long as
/// it holds no more vertices than there are records.
pub open spec fn recorded_chain(m: Map<VertexId, VisitedRecord>, v: VertexId) -> Option<
    Seq<VertexId>,
> {
    if m.contains_key(v) {
        chain_from(m, v, (m.dom().len() - 1) as nat)
    } else {
        None
    }
}

/// The `n`-th predecessor of `v`; `v` itself for `n == 0`. `None` where the
/// records end before.
pub open spec fn nth_predecessor(m: Map<VertexId, VisitedRecord>, v: VertexId, n: nat) -> Option<
    VertexId,
>
    decreases n,
{
    if n == 0 {
        if m.contains_key(v) {
            Some(v)
        } else {
            None
        }
    } else {
        match nth_predecessor(m, v, (n - 1) as nat) {
            Some(u) => match m[u].predecessor {
                Some(p) => if m.contains_key(p) {
                    Some(p)
                } else {
                    None
                },
                None => None,
            },
            None => None,
        }
    }
}

/// Following the predecessors from `v` leads into a cycle.
pub open spec fn leads_to_cycle(m: Map<VertexId, VisitedRecord>, v: VertexId) -> bool {
    exists|n: nat, k: nat, u: VertexId|
        k >= 1 && #[trigger] nth_predecessor(m, v, n) == Some(u) && #[trigger] nth_predecessor(
            m,
            u,
            k,
        ) == Some(u)
}

/// The records of one search.
pub struct VisitedNodes {
    nodes: RecordTable,
}

impl View for VisitedNodes {
    type V = Map<VertexId, VisitedRecord>;

    closed spec fn view(&self) -> Map<VertexId, VisitedRecord> {
        table_contents(self.nodes)
    }
}

impl VisitedNodes {
    /// The records are well formed: there are finitely many.
    pub open spec fn wf(&self) -> bool {
        self@.dom().finite()
    }

    /// The records of a search that starts at `start_ent`.
    pub fn new_from_start(start_ent: VertexId) -> (r: Self)
        ensures
            r@ == Map::<VertexId, VisitedRecord>::empty().insert(start_ent, start_record()),
            r.wf(),
    {
        let mut nodes = table_new();
        assert(table_contents(nodes) =~= Map::<VertexId, VisitedRecord>::empty());
        table_insert(
            &mut nodes,
            start_ent,
            VisitedRecord {
                predecessor: None,
                step: 0,
                weight: PathWeight::zero(),
                estimate: Heuristic::none(),
            },
        );
        Self { nodes }
    }

    /// Whether `ent` has a record.
    pub fn is_visited(&self, ent: &VertexId) -> (r: bool)
        ensures
            r == self@.contains_key(*ent),
    {
        table_contains(&self.nodes, *ent)
    }

    /// The record of `ent`, if it was visited.
    pub fn get(&self, ent: VertexId) -> (r: Option<VisitedRecord>)
        ensures
            r is Some == self@.contains_key(ent),
            r is Some ==> r.unwrap() == self@[ent],
    {
        table_get(&self.nodes, ent)
    }

    /// The number of records.
    pub fn len(&self) -> (r: usize)
        ensures
            r == self@.dom().len(),
    {
        table_len(&self.nodes)
    }

    /// Records `ent` as reached from `previous`, in place of an earlier
    /// record of `ent`.
    pub fn insert(&mut self, ent: VertexId, previous: VertexId, step: u64, dist: PathWeight)
        requires
            old(self).wf(),
        ensures
            final(self)@ == old(self)@.insert(
                ent,
                (VisitedRecord {
                    predecessor: Some(previous),
                    step,
                    weight: dist,
                    estimate: Heuristic::spec_none(),
                }),
            ),
            final(self).wf(),
    {
        self.insert_record(
            ent,
            VisitedRecord {
                predecessor: Some(previous),
                step,
                weight: dist,
                estimate: Heuristic::none(),
            },
        );
    }

    /// Puts `record` in place of what was recorded of `ent`.
    pub fn insert_record(&mut self, ent: VertexId, record: VisitedRecord)
        requires
            old(self).wf(),
        ensures
            final(self)@ == old(self)@.insert(ent, record),
            final(self).wf(),
    {
        table_insert(&mut self.nodes, ent, record);
    }

    /// Follows the predecessors from `final_vert`. Gives the vertices
    /// passed, `final_vert` first, or `InvalidPath` where the records have no
    /// chain for it.
    fn trace(&self, final_vert: VertexId) -> (r: Result<Vec<VertexId>, GraphError>)
        requires
            self.wf(),
        ensures
            match r {
                Ok(chain) => recorded_chain(self@, final_vert) == Some(chain@),
                Err(e) => recorded_chain(self@, final_vert) is None && e == GraphError::InvalidPath,
            },
    {
        let first = match self.get(final_vert) {
            Some(record) => record,
            None => {
                return Err(GraphError::InvalidPath);
            },
        };
        let mut path: Vec<VertexId> = Vec::new();
        path.push(final_vert);
        let max_length = self.len();
        assert(max_length >= 1) by {
            if self@.dom().len() == 0 {
                assert(!self@.dom().contains(final_vert));
            }
        }
        let mut to_follow = first.predecessor;
        let ghost fuel = (max_length - 1) as nat;
        let ghost mut cur = final_vert;
        while to_follow.is_some()
            invariant
                max_length == self@.dom().len(),
                fuel == max_length - 1,
                self@.contains_key(cur),
                to_follow == self@[cur].predecessor,
                1 <= path.len() <= max_length,
                path@.last() == cur,
                chain_from(self@, final_vert, fuel) == prepend(
                    path@.drop_last(),
                    chain_from(self@, cur, (max_length - path.len()) as nat),
                ),
            decreases max_length - path.len(),
        {
            let previous = to_follow.unwrap();
            let ghost before = path@;
            path.push(previous);
            match self.get(previous) {
                Some(record) => {
                    to_follow = record.predecessor;
                },
                None => {
                    return Err(GraphError::InvalidPath);
                },
            }
            if path.len() > max_length {
                return Err(GraphError::InvalidPath);
            }
            proof {
                assert(path@.drop_last() =~= before);
                assert(before =~= before.drop_last() + seq![cur]);
                let rest = chain_from(self@, previous, (max_length - path.len()) as nat);
                match rest {
                    Some(s) => {
                        assert((before.drop_last() + (seq![cur] + s)) =~= (before + s));
                    },
                    None => {},
                }
                cur = previous;
            }
        }
        proof {
            assert(path@ =~= path@.drop_last() + seq![cur]);
        }
        Ok(path)
    }

    /// The path from `final_vert` back to its start vertex, as the records
    /// give it, or `InvalidPath`: where `final_vert` or a predecessor on the
    /// way has no record, and where the predecessors are followed through as
    /// many vertices as there are records without reaching a start vertex.
    pub fn determine_path(&self, final_vert: VertexId) -> (r: Result<GraphPath<()>, GraphError>)
        requires
            self.wf(),
        ensures
            match r {
                Ok(path) => recorded_chain(self@, final_vert) == Some(path.vertices()),
                Err(e) => recorded_chain(self@, final_vert) is None && e == GraphError::InvalidPath,
            },
    {
        let chain = self.trace(final_vert)?;
        let mut nodes: Vec<(VertexId, ())> = Vec::new();
        let mut i: usize = 0;
        while i < chain.len()
            invariant
                i <= chain.len(),
                nodes.len() == i,
                forall|j: int| 0 <= j < i ==> (#[trigger] nodes@[j]).0 == chain@[j],
            decreases chain.len() - i,
        {
            nodes.push((chain[i], ()));
            i += 1;
        }
        let path = GraphPath::new(nodes);
        assert(path.vertices() =~= chain@);
        Ok(path)
    }

    /// As `determine_path`, with each vertex's recorded cumulative weight.
    pub fn determine_path_weighted(&self, final_vert: VertexId) -> (r: Result<
        GraphPath<PathWeight>,
        GraphError,
    >)
        requires
            self.wf(),
        ensures
            match r {
                Ok(path) => recorded_chain(self@, final_vert) == Some(path.vertices())
                    && forall|j: int|
                    0 <= j < path@.len() ==> self@.contains_key((#[trigger] path@[j]).0)
                        && path@[j].1 == self@[path@[j].0].weight,
                Err(e) => recorded_chain(self@, final_vert) is None && e == GraphError::InvalidPath,
            },
    {
        let chain = self.trace(final_vert)?;
        proof {
            lemma_chain_links(self@, final_vert, (self@.dom().len() - 1) as nat);
        }
        let mut nodes: Vec<(VertexId, PathWeight)> = Vec::new();
        let mut i: usize = 0;
        while i < chain.len()
            invariant
                i <= chain.len(),
                nodes.len() == i,
                forall|j: int| 0 <= j < chain.len() ==> self@.contains_key(#[trigger] chain@[j]),
                forall|j: int|
                    0 <= j < i ==> (#[trigger] nodes@[j]).0 == chain@[j] && nodes@[j].1
                        == self@[chain@[j]].weight,
            decreases chain.len() - i,
        {
            let weight = match self.get(chain[i]) {
                Some(record) => record.weight,
                None => PathWeight::zero(),
            };
            nodes.push((chain[i], weight));
            i += 1;
        }
        let path = GraphPath::new(nodes);
        assert(path.vertices() =~= chain@);
        Ok(path)
    }
}

/// What a chain is made of: it starts at `v`, each vertex has a record whose
/// predecessor is the next vertex, the last vertex has no predecessor, and
/// there are at most `fuel + 1` vertices.
pub proof fn lemma_chain_links(m: Map<VertexId, VisitedRecord>, v: VertexId, fuel: nat)
    requires
        chain_from(m, v, fuel) is Some,
    ensures
        ({
            let c = chain_from(m, v, fuel).unwrap();
            &&& 1 <= c.len() <= fuel + 1
            &&& c[0] == v
            &&& forall|j: int| 0 <= j < c.len() ==> m.contains_key(#[trigger] c[j])
            &&& forall|j: int|
                0 <= j < c.len() - 1 ==> (#[trigger] m[c[j]]).predecessor == Some(c[j + 1])
            &&& m[c.last()].predecessor is None
        }),
    decreases fuel,
{
    match m[v].predecessor {
        None => {},
        Some(p) => {
            lemma_chain_links(m, p, (fuel - 1) as nat);
            let rest = chain_from(m, p, (fuel - 1) as nat).unwrap();
            let c = chain_from(m, v, fuel).unwrap();
            assert(c =~= seq![v] + rest);
            assert forall|j: int| 0 <= j < c.len() implies m.contains_key(#[trigger] c[j]) by {
                if j > 0 {
                    assert(c[j] == rest[j - 1]);
                }
            }
            assert forall|j: int| 0 <= j < c.len() - 1 implies (#[trigger] m[c[j]]).predecessor
                == Some(c[j + 1]) by {
                if j > 0 {
                    assert(c[j] == rest[j - 1]);
                    assert(c[j + 1] == rest[j]);
                }
            }
        },
    }
}

/// The vertices of a chain are the predecessors of its first vertex in
/// turn, and beyond the chain there are no predecessors.
proof fn lemma_chain_is_predecessors(m: Map<VertexId, VisitedRecord>, v: VertexId, fuel: nat, j: nat)
    requires
        chain_from(m, v, fuel) is Some,
    ensures
        j < chain_from(m, v, fuel).unwrap().len() ==> nth_predecessor(m, v, j) == Some(
            chain_from(m, v, fuel).unwrap()[j as int],
        ),
        j >= chain_from(m, v, fuel).unwrap().len() ==> nth_predecessor(m, v, j) is None,
    decreases j,
{
    lemma_chain_links(m, v, fuel);
    let c = chain_from(m, v, fuel).unwrap();
    if j > 0 {
        lemma_chain_is_predecessors(m, v, fuel, (j - 1) as nat);
        if j <= c.len() {
            assert(m.contains_key(c[j - 1]));
        }
    }
}

/// The predecessors of a predecessor are predecessors.
proof fn lemma_predecessors_compose(
    m: Map<VertexId, VisitedRecord>,
    v: VertexId,
    n: nat,
    u: VertexId,
    j: nat,
)
    requires
        nth_predecessor(m, v, n) == Some(u),
    ensures
        m.contains_key(u),
        nth_predecessor(m, v, n + j) == nth_predecessor(m, u, j),
    decreases j,
{
    if j > 0 {
        lemma_predecessors_compose(m, v, n, u, (j - 1) as nat);
        assert(n + j - 1 == n + (j - 1) as nat);
    }
}

/// On a cycle a vertex is its own predecessor arbitrarily far along.
proof fn lemma_cycle_goes_on(m: Map<VertexId, VisitedRecord>, u: VertexId, k: nat, i: nat) -> (t: nat)
    requires
        k >= 1,
        nth_predecessor(m, u, k) == Some(u),
    ensures
        t >= i,
        nth_predecessor(m, u, t) == Some(u),
    decreases i,
{
    lemma_predecessors_compose(m, u, k, u, 0);
    if i == 0 {
        0
    } else {
        let t = lemma_cycle_goes_on(m, u, k, (i - 1) as nat);
        lemma_predecessors_compose(m, u, t, u, k);
        t + k
    }
}

/// Where following the predecessors from `v` leads into a cycle, the
/// records have no chain for `v`, whatever the fuel: `determine_path` and
/// `determine_path_weighted` then give `InvalidPath`.
pub proof fn lemma_cycle_has_no_chain(m: Map<VertexId, VisitedRecord>, v: VertexId, fuel: nat)
    requires
        leads_to_cycle(m, v),
    ensures
        chain_from(m, v, fuel) is None,
        recorded_chain(m, v) is None,
{
    let (n, k, u) = choose|n: nat, k: nat, u: VertexId|
        k >= 1 && #[trigger] nth_predecessor(m, v, n) == Some(u) && #[trigger] nth_predecessor(
            m,
            u,
            k,
        ) == Some(u);
    assert forall|f: nat| chain_from(m, v, f) is None by {
        if chain_from(m, v, f) is Some {
            let c = chain_from(m, v, f).unwrap();
            let t = lemma_cycle_goes_on(m, u, k, c.len());
            lemma_predecessors_compose(m, v, n, u, t);
            lemma_chain_is_predecessors(m, v, f, n + t);
        }
    }
}

} // verus!
