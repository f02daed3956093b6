//! The in-memory model of one ancestry record: append-only tables of
//! populations, individuals, nodes, edges, sites and mutations.  Row
//! identifiers are assigned monotonically in insertion order and never
//! reused; genomic coordinates are integer tick positions.

use vstd::prelude::*;

verus! {

broadcast use vstd::string::group_string_axioms;

/// Row of the individual table: a diploid entity referencing the two parent
/// individuals it descends from, or none for a founder.
#[derive(Clone, Copy, PartialEq, Eq, Debug)]
pub struct IndividualTableRow {
    pub id: usize,
    pub flags: u32,
    pub parents: Option<(usize, usize)>,
}

/// Row of the node table: one haploid genome copy of one individual.
#[derive(Clone, Copy, PartialEq, Eq, Debug)]
pub struct NodeRow {
    pub is_sample: bool,
    pub time: usize,
    pub population: usize,
    pub individual: usize,
}

/// Row of the edge table: the child node inherited `[left, right)` from the
/// parent node.
#[derive(Clone, Copy, PartialEq, Eq, Debug)]
pub struct EdgeRow {
    pub left: usize,
    pub right: usize,
    pub parent: usize,
    pub child: usize,
}

/// Row of the site table: a genomic position at which a mutation has ever
/// occurred, with its ancestral allelic state.
#[derive(Clone, Copy, PartialEq, Eq, Debug)]
pub struct SiteRow {
    pub position: usize,
    pub ancestral_state: u8,
}

/// Row of the mutation table: a new allelic state arising on a node at a
/// site, chained to the previous mutation at that site if any.
#[derive(Clone, Copy, PartialEq, Eq, Debug)]
pub struct MutationRow {
    pub site: usize,
    pub node: usize,
    pub parent: Option<usize>,
    pub time: usize,
    pub derived_state: u8,
}

/// The site table of one record.
#[derive(Clone, PartialEq, Eq, Debug)]
pub struct SiteTable {
    rows: Vec<SiteRow>,
}

impl View for SiteTable {
    type V = Seq<SiteRow>;

    closed spec fn view(&self) -> Seq<SiteRow> {
        self.rows@
    }
}

impl SiteTable {
    /// An empty site table.
    pub fn new() -> (t: SiteTable)
        ensures
            t@ =~= Seq::<SiteRow>::empty(),
    {
        SiteTable { rows: Vec::new() }
    }

    /// Borrow the rows.
    pub fn as_ref(&self) -> (r: &Vec<SiteRow>)
        ensures
            r@ == self@,
    {
        &self.rows
    }

    /// Borrow the rows mutably.
    pub fn as_mut(&mut self) -> (r: &mut Vec<SiteRow>)
        ensures
            r@ == old(self)@,
            final(self)@ == final(r)@,
    {
        &mut self.rows
    }

    /// The number of rows.
    pub fn num_rows(&self) -> (n: usize)
        ensures
            n == self@.len(),
    {
        self.rows.len()
    }

    /// Append a row and return its identifier.
    pub fn add_row(&mut self, position: usize, ancestral_state: u8) -> (id: usize)
        ensures
            id == old(self)@.len(),
            final(self)@ == old(self)@.push((SiteRow { position, ancestral_state })),
    {
        let id = self.rows.len();
        self.rows.push(SiteRow { position, ancestral_state });
        id
    }
}

/// One ancestry record under construction.
#[derive(Clone, PartialEq, Eq, Debug)]
pub struct Tables {
    pub populations: Vec<String>,
    pub individuals: Vec<IndividualTableRow>,
    pub nodes: Vec<NodeRow>,
    pub edges: Vec<EdgeRow>,
    pub sites: SiteTable,
    pub mutations: Vec<MutationRow>,
}

/// The identifiers of the sample-flagged nodes, in ascending order.
pub open spec fn sample_ids(nodes: Seq<NodeRow>) -> Seq<usize>
    decreases nodes.len(),
{
    if nodes.len() == 0 {
        Seq::empty()
    } else {
        sample_ids(nodes.drop_last()) + if nodes.last().is_sample {
            seq![(nodes.len() - 1) as usize]
        } else {
            Seq::empty()
        }
    }
}

impl Tables {
    /// An empty record.
    pub fn new() -> (t: Tables)
        ensures
            t.populations@ =~= Seq::<String>::empty(),
            t.individuals@ =~= Seq::<IndividualTableRow>::empty(),
            t.nodes@ =~= Seq::<NodeRow>::empty(),
            t.edges@ =~= Seq::<EdgeRow>::empty(),
            t.sites@ =~= Seq::<SiteRow>::empty(),
            t.mutations@ =~= Seq::<MutationRow>::empty(),
    {
        Tables {
            populations: Vec::new(),
            individuals: Vec::new(),
            nodes: Vec::new(),
            edges: Vec::new(),
            sites: SiteTable::new(),
            mutations: Vec::new(),
        }
    }

    /// Append an individual and return its identifier.
    pub fn add_individual(&mut self, flags: u32, parents: Option<(usize, usize)>) -> (id: usize)
        ensures
            id == old(self).individuals@.len(),
            final(self).individuals@ == old(self).individuals@.push(
                (IndividualTableRow { id: old(self).individuals@.len() as usize, flags, parents }),
            ),
            final(self).populations == old(self).populations,
            final(self).nodes == old(self).nodes,
            final(self).edges == old(self).edges,
            final(self).sites == old(self).sites,
            final(self).mutations == old(self).mutations,
    {
        let id = self.individuals.len();
        self.individuals.push(IndividualTableRow { id, flags, parents });
        id
    }

    /// Append a site and return its identifier.
    pub fn add_site(&mut self, position: usize, ancestral_state: u8) -> (id: usize)
        ensures
            id == old(self).sites@.len(),
            final(self).sites@ == old(self).sites@.push((SiteRow { position, ancestral_state })),
            final(self).populations == old(self).populations,
            final(self).individuals == old(self).individuals,
            final(self).nodes == old(self).nodes,
            final(self).edges == old(self).edges,
            final(self).mutations == old(self).mutations,
    {
        self.sites.add_row(position, ancestral_state)
    }

    /// Append a mutation and return its identifier.
    pub fn add_mutation(
        &mut self,
        site: usize,
        node: usize,
        parent: Option<usize>,
        time: usize,
        derived_state: u8,
    ) -> (id: usize)
        requires
            site < old(self).sites@.len(),
            node < old(self).nodes@.len(),
        ensures
            id == old(self).mutations@.len(),
            final(self).mutations@ == old(self).mutations@.push(
                (MutationRow { site, node, parent, time, derived_state }),
            ),
            final(self).populations == old(self).populations,
            final(self).individuals == old(self).individuals,
            final(self).nodes == old(self).nodes,
            final(self).edges == old(self).edges,
            final(self).sites == old(self).sites,
    {
        let id = self.mutations.len();
        self.mutations.push(MutationRow { site, node, parent, time, derived_state });
        id
    }

    /// The identifiers of the sample-flagged nodes, in ascending order: the
    /// node list to reduce the record to after the last generation.
    pub fn sample_nodes(&self) -> (v: Vec<usize>)
        ensures
            v@ == sample_ids(self.nodes@),
    {
        let mut v: Vec<usize> = Vec::new();
        let n = self.nodes.len();
        let mut idx: usize = 0;
        while idx < n
            invariant
                idx <= n,
                n == self.nodes@.len(),
                v@ == sample_ids(self.nodes@.take(idx as int)),
            decreases n - idx,
        {
            if self.nodes[idx].is_sample {
                v.push(idx);
            }
            proof {
                let pre = self.nodes@.take(idx as int);
                let post = self.nodes@.take(idx + 1);
                assert(post.drop_last() =~= pre);
                assert(post.last() == self.nodes@[idx as int]);
            }
            idx = idx + 1;
        }
        proof {
            assert(self.nodes@.take(n as int) =~= self.nodes@);
        }
        v
    }
}

/// Append a population with the given name to a record and return its
/// identifier.
pub fn add_pop(tables: &mut Tables, name: &str) -> (id: usize)
    ensures
        id == old(tables).populations@.len(),
        final(tables).populations@.len() == old(tables).populations@.len() + 1,
        forall|i: int|
            0 <= i < old(tables).populations@.len() ==> final(tables).populations@[i] == old(
                tables,
            ).populations@[i],
        final(tables).populations@[old(tables).populations@.len() as int]@ == name@,
        final(tables).individuals == old(tables).individuals,
        final(tables).nodes == old(tables).nodes,
        final(tables).edges == old(tables).edges,
        final(tables).sites == old(tables).sites,
        final(tables).mutations == old(tables).mutations,
{
    let id = tables.populations.len();
    tables.populations.push(name.to_string());
    id
}

/// Append the offspring individual of two parent chromosome pairs, linking it
/// to the individuals that own the parent nodes.
pub fn add_ind(tables: &mut Tables, parent1: (usize, usize), parent2: (usize, usize)) -> (id: usize)
    requires
        parent1.0 < old(tables).nodes@.len(),
        parent2.0 < old(tables).nodes@.len(),
    ensures
        id == old(tables).individuals@.len(),
        final(tables).individuals@ == old(tables).individuals@.push(
            (IndividualTableRow {
                id: old(tables).individuals@.len() as usize,
                flags: 0,
                parents: Some(
                    (
                        old(tables).nodes@[parent1.0 as int].individual,
                        old(tables).nodes@[parent2.0 as int].individual,
                    ),
                ),
            }),
        ),
        final(tables).populations == old(tables).populations,
        final(tables).nodes == old(tables).nodes,
        final(tables).edges == old(tables).edges,
        final(tables).sites == old(tables).sites,
        final(tables).mutations == old(tables).mutations,
{
    let parent1_ind = tables.nodes[parent1.0].individual;
    let parent2_ind = tables.nodes[parent2.0].individual;
    tables.add_individual(0, Some((parent1_ind, parent2_ind)))
}

/// Append a node and return its identifier.
pub fn add_node(tables: &mut Tables, is_sample: bool, time: usize, pop: usize, ind: usize) -> (id: usize)
    requires
        pop < old(tables).populations@.len(),
        ind < old(tables).individuals@.len(),
    ensures
        id == old(tables).nodes@.len(),
        final(tables).nodes@ == old(tables).nodes@.push(
            (NodeRow { is_sample, time, population: pop, individual: ind }),
        ),
        final(tables).populations == old(tables).populations,
        final(tables).individuals == old(tables).individuals,
        final(tables).edges == old(tables).edges,
        final(tables).sites == old(tables).sites,
        final(tables).mutations == old(tables).mutations,
{
    let id = tables.nodes.len();
    tables.nodes.push(NodeRow { is_sample, time, population: pop, individual: ind });
    id
}

/// Append an edge recording that `child_node` inherited `[start, end)` from
/// `parent_node`, and return its identifier.
pub fn add_edge(
    tables: &mut Tables,
    start: usize,
    end: usize,
    parent_node: usize,
    child_node: usize,
) -> (id: usize)
    requires
        parent_node < old(tables).nodes@.len(),
        child_node < old(tables).nodes@.len(),
    ensures
        id == old(tables).edges@.len(),
        final(tables).edges@ == old(tables).edges@.push(
            (EdgeRow { left: start, right: end, parent: parent_node, child: child_node }),
        ),
        final(tables).populations == old(tables).populations,
        final(tables).individuals == old(tables).individuals,
        final(tables).nodes == old(tables).nodes,
        final(tables).sites == old(tables).sites,
        final(tables).mutations == old(tables).mutations,
{
    let id = tables.edges.len();
    tables.edges.push(EdgeRow { left: start, right: end, parent: parent_node, child: child_node });
    id
}

} // verus!
