use vstd::prelude::*;
use crate::scan::graph_wf;

verus! {

/// Where the turtle stands and where it looks: the point it is on, which
/// fixes its position and the length of its next step, and the heading it
/// has, each by its number in the tree's tables.
#[derive(Clone, Copy, PartialEq, Eq, Structural, Debug)]
pub struct TurtleState {
    pub point: usize,
    pub heading: usize,
}

/// How a point came to be: the turtle stood on point `from`, looked along
/// `heading`, and drew one step forward, as long as the steps from `from`
/// are. The length of the steps from the new point is that length changed
/// by the scale delta, and not below the scale floor; the steps from the
/// origin have the start scale.
#[derive(Clone, Copy, PartialEq, Eq, Structural, Debug)]
pub struct Step {
    pub from: usize,
    pub heading: usize,
}

/// How a heading came to be: heading `from`, turned by the rotation angle to
/// the left or to the right.
#[derive(Clone, Copy, PartialEq, Eq, Structural, Debug)]
pub struct Turn {
    pub from: usize,
    pub left: bool,
}

/// A dot of a branch: the point it lies on, and the branches that begin at it.
#[derive(Debug)]
pub struct BranchDot {
    pub pos: usize,
    pub connected_branches_id: Vec<usize>,
}

/// A dot as contracts see it.
pub struct DotModel {
    pub pos: usize,
    pub links: Seq<usize>,
}

impl View for BranchDot {
    type V = DotModel;

    open spec fn view(&self) -> DotModel {
        DotModel { pos: self.pos, links: self.connected_branches_id@ }
    }
}

/// The dots of one branch as contracts see them.
pub open spec fn branch_model(dots: Seq<BranchDot>) -> Seq<DotModel> {
    dots.map_values(|d: BranchDot| d@)
}

/// All branches as contracts see them, the branch with identifier `i` at
/// index `i`.
pub open spec fn graph_model(branches: Seq<Vec<BranchDot>>) -> Seq<Seq<DotModel>> {
    branches.map_values(|b: Vec<BranchDot>| branch_model(b@))
}

/// Replacing one branch replaces its model.
pub proof fn lemma_graph_update(branches: Seq<Vec<BranchDot>>, i: int, v: Vec<BranchDot>)
    requires
        0 <= i < branches.len(),
    ensures
        graph_model(branches.update(i, v)) == graph_model(branches).update(i, branch_model(v@)),
{
    assert(graph_model(branches.update(i, v)) =~= graph_model(branches).update(
        i,
        branch_model(v@),
    ));
}

/// A new branch at the end is a new model at the end.
pub proof fn lemma_graph_push(branches: Seq<Vec<BranchDot>>, v: Vec<BranchDot>)
    ensures
        graph_model(branches.push(v)) == graph_model(branches).push(branch_model(v@)),
{
    assert(graph_model(branches.push(v)) =~= graph_model(branches).push(branch_model(v@)));
}

/// A new dot at the end of a branch is a new model at the end.
pub proof fn lemma_branch_push(dots: Seq<BranchDot>, d: BranchDot)
    ensures
        branch_model(dots.push(d)) == branch_model(dots).push(d@),
{
    assert(branch_model(dots.push(d)) =~= branch_model(dots).push(d@));
}

/// Replacing one dot replaces its model.
pub proof fn lemma_branch_update(dots: Seq<BranchDot>, j: int, d: BranchDot)
    requires
        0 <= j < dots.len(),
    ensures
        branch_model(dots.update(j, d)) == branch_model(dots).update(j, d@),
{
    assert(branch_model(dots.update(j, d)) =~= branch_model(dots).update(j, d@));
}

/// A tree as contracts see it.
pub struct TreeModel {
    pub branches: Seq<Seq<DotModel>>,
    pub steps: Seq<Step>,
    pub turns: Seq<Turn>,
}

/// The graph of branches that a scan produced, with the tables that say how
/// each point and each heading arose. Point 0 is the origin, point `k + 1`
/// is made by `steps[k]`; heading 0 is the start direction, heading `k + 1`
/// is made by `turns[k]`. The branch with identifier `i` is `branches[i]`.
#[derive(Debug)]
pub struct LsystemTree {
    pub branches: Vec<Vec<BranchDot>>,
    pub steps: Vec<Step>,
    pub turns: Vec<Turn>,
}

impl View for LsystemTree {
    type V = TreeModel;

    open spec fn view(&self) -> TreeModel {
        TreeModel {
            branches: graph_model(self.branches@),
            steps: self.steps@,
            turns: self.turns@,
        }
    }
}

impl LsystemTree {
    /// There is a root, no branch is empty, every dot lies on a point of the
    /// table and links only to later branches, and every step and turn
    /// departs from a point or heading made before it.
    pub open spec fn wf(&self) -> bool {
        graph_wf(self@.branches, self@.steps, self@.turns)
    }

    /// The dots of the branch `id`, if the tree has such a branch.
    pub fn branch(&self, id: usize) -> (dots: Option<&Vec<BranchDot>>)
        ensures
            dots is Some <==> id < self@.branches.len(),
            dots is Some ==> branch_model(dots.unwrap()@) == self@.branches[id as int],
    {
        if id < self.branches.len() {
            Some(&self.branches[id])
        } else {
            None
        }
    }

    /// Every point of the tree in the order in which the turtle reached it:
    /// the origin, then the point that each step made.
    pub fn dots(&self) -> (all: Vec<usize>)
        ensures
            all@ == Seq::new(self@.steps.len() + 1, |i: int| i as usize),
    {
        let mut all: Vec<usize> = Vec::new();
        all.push(0);
        let mut k: usize = 0;
        while k < self.steps.len()
            invariant
                k <= self.steps.len(),
                all@ == Seq::new(k as nat + 1, |i: int| i as usize),
            decreases self.steps.len() - k,
        {
            k += 1;
            all.push(k);
            proof {
                assert(all@ =~= Seq::new(k as nat + 1, |i: int| i as usize));
            }
        }
        all
    }

    /// How many branches the tree has.
    pub fn branch_count(&self) -> (n: usize)
        ensures
            n == self@.branches.len(),
    {
        self.branches.len()
    }
}

} // verus!
