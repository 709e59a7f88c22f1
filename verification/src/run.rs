//! What a run was started with, published beside its records.
//!
//! A publisher that runs tests says it; a node writes none, and a reader
//! that finds no table shows nothing for it.

use vstd::prelude::*;

verus! {

/// The choices behind a run.
#[derive(Clone, Debug, Default, PartialEq, Eq)]
pub struct Run {
    /// The cluster's name.
    pub cluster: String,
    /// The tests that run, by the names a person asks for them.
    pub tests: Vec<String>,
    /// The nodes spawned, one process each; empty when there are none.
    pub nodes: Vec<String>,
    /// What each node was started with: `R1=receive+send`, or the bare name
    /// of a node that declared no stage.
    pub capabilities: Vec<String>,
    /// The nodes among them that may assume the internet.
    pub online: Vec<String>,
    /// The stress level's name.
    pub stress: String,
}

/// The four lists of a run, as the header numbers them for a reader that
/// asks for one at a time.
#[derive(Clone, Copy, Debug, PartialEq, Eq, Structural)]
pub enum RunList {
    Tests,
    Nodes,
    Capabilities,
    Online,
}

impl RunList {
    /// Every list, in the header's order.
    pub const ALL: [RunList; 4] = [RunList::Tests, RunList::Nodes, RunList::Capabilities, RunList::Online];
}

/// The list of a run that `which` names.
pub open spec fn run_list(run: Run, which: RunList) -> Seq<String> {
    match which {
        RunList::Tests => run.tests@,
        RunList::Nodes => run.nodes@,
        RunList::Capabilities => run.capabilities@,
        RunList::Online => run.online@,
    }
}

/// Whether two runs say the same: each name and each list alike.
pub open spec fn same_run(a: Run, b: Run) -> bool {
    &&& a.cluster == b.cluster
    &&& a.tests@ == b.tests@
    &&& a.nodes@ == b.nodes@
    &&& a.capabilities@ == b.capabilities@
    &&& a.online@ == b.online@
    &&& a.stress == b.stress
}

/// Whether two optional runs say the same: both none, or both runs alike.
pub open spec fn same_optional_run(a: Option<Run>, b: Option<Run>) -> bool {
    match (a, b) {
        (None, None) => true,
        (Some(x), Some(y)) => same_run(x, y),
        _ => false,
    }
}

/// The same texts, one for one.
fn copy_texts(v: &Vec<String>) -> (r: Vec<String>)
    ensures
        r@ == v@,
{
    let mut r: Vec<String> = Vec::new();
    let mut i: usize = 0;
    while i < v.len()
        invariant
            i <= v@.len(),
            r@ == v@.take(i as int),
        decreases v@.len() - i,
    {
        r.push(v[i].clone());
        assert(r@ =~= v@.take(i + 1));
        i = i + 1;
    }
    assert(v@.take(i as int) =~= v@);
    r
}

impl Run {
    /// The same run, field for field.
    pub(crate) fn duplicate(&self) -> (r: Run)
        ensures
            same_run(r, *self),
    {
        let r = Run {
            cluster: self.cluster.clone(),
            tests: copy_texts(&self.tests),
            nodes: copy_texts(&self.nodes),
            capabilities: copy_texts(&self.capabilities),
            online: copy_texts(&self.online),
            stress: self.stress.clone(),
        };
        r
    }

    /// One of the run's lists.
    pub fn list(&self, which: RunList) -> (r: &[String])
        ensures
            r@ == run_list(*self, which),
    {
        match which {
            RunList::Tests => self.tests.as_slice(),
            RunList::Nodes => self.nodes.as_slice(),
            RunList::Capabilities => self.capabilities.as_slice(),
            RunList::Online => self.online.as_slice(),
        }
    }
}

} // verus!
