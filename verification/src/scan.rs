use vstd::prelude::*;
use crate::behaviour::Behaviour;
use crate::error::LsystemError;
use crate::tree::{DotModel, Step, TreeModel, TurtleState, Turn};

verus! {

/// What the scan keeps for a fork that is still open: the branch that was
/// being built when the fork opened, and the turtle as it was then.
#[derive(Clone, Copy, PartialEq, Eq, Structural, Debug)]
pub struct Frame {
    pub branch: usize,
    pub turtle: TurtleState,
}

/// The scan between two symbols.
pub struct Scan {
    /// Every branch begun so far, by identifier.
    pub branches: Seq<Seq<DotModel>>,
    /// One frame for each fork that is still open, the innermost last.
    pub stack: Seq<Frame>,
    /// The branch being built.
    pub current: usize,
    pub turtle: TurtleState,
    pub steps: Seq<Step>,
    pub turns: Seq<Turn>,
}

/// The scan before the first symbol: the root branch with the origin as its
/// only dot.
pub open spec fn initial() -> Scan {
    Scan {
        branches: seq![seq![DotModel { pos: 0, links: Seq::empty() }]],
        stack: Seq::empty(),
        current: 0,
        turtle: TurtleState { point: 0, heading: 0 },
        steps: Seq::empty(),
        turns: Seq::empty(),
    }
}

/// Whether the branch `id` can take the link of a new fork: the root always
/// can, another branch once a step has been drawn on it.
pub open spec fn has_drawn(branches: Seq<Seq<DotModel>>, id: usize) -> bool {
    id == 0 || (id < branches.len() && branches[id as int].len() > 1)
}

/// The branch on whose last dot a fork opened now is recorded: the branch
/// being built if it can take the link, else the nearest branch below it on
/// the stack that can.
pub open spec fn host_of(branches: Seq<Seq<DotModel>>, stack: Seq<Frame>, current: usize) -> usize
    decreases stack.len(),
{
    if has_drawn(branches, current) || stack.len() == 0 {
        current
    } else {
        host_of(branches, stack.drop_last(), stack.last().branch)
    }
}

/// `branches` with `child` added to the links of the last dot of `host`.
pub open spec fn with_link(branches: Seq<Seq<DotModel>>, host: usize, child: usize) -> Seq<
    Seq<DotModel>,
> {
    let dots = branches[host as int];
    let last = dots.last();
    branches.update(
        host as int,
        dots.update(dots.len() - 1, DotModel { pos: last.pos, links: last.links.push(child) }),
    )
}

/// The scan after one more symbol with behaviour `action`.
pub open spec fn step(s: Scan, action: Behaviour) -> Result<Scan, LsystemError> {
    match action {
        Behaviour::DrawForward => {
            let point = (s.steps.len() + 1) as usize;
            Ok(
                Scan {
                    branches: s.branches.update(
                        s.current as int,
                        s.branches[s.current as int].push(
                            DotModel { pos: point, links: Seq::empty() },
                        ),
                    ),
                    turtle: TurtleState { point, heading: s.turtle.heading },
                    steps: s.steps.push(Step { from: s.turtle.point, heading: s.turtle.heading }),
                    ..s
                },
            )
        },
        Behaviour::RotateLeft => Ok(
            Scan {
                turtle: TurtleState {
                    point: s.turtle.point,
                    heading: (s.turns.len() + 1) as usize,
                },
                turns: s.turns.push(Turn { from: s.turtle.heading, left: true }),
                ..s
            },
        ),
        Behaviour::RotateRight => Ok(
            Scan {
                turtle: TurtleState {
                    point: s.turtle.point,
                    heading: (s.turns.len() + 1) as usize,
                },
                turns: s.turns.push(Turn { from: s.turtle.heading, left: false }),
                ..s
            },
        ),
        Behaviour::Branch => {
            let child = s.branches.len() as usize;
            let host = host_of(s.branches, s.stack, s.current);
            Ok(
                Scan {
                    branches: with_link(s.branches, host, child).push(
                        seq![DotModel { pos: s.turtle.point, links: Seq::empty() }],
                    ),
                    stack: s.stack.push(Frame { branch: s.current, turtle: s.turtle }),
                    current: child,
                    ..s
                },
            )
        },
        Behaviour::BranchStop => {
            if s.stack.len() == 0 {
                Err(LsystemError::UnbalancedBranch)
            } else {
                Ok(
                    Scan {
                        stack: s.stack.drop_last(),
                        current: s.stack.last().branch,
                        turtle: s.stack.last().turtle,
                        ..s
                    },
                )
            }
        },
    }
}

/// The scan after the symbols of `seq`, read from left to right, or the
/// error of the first symbol that cannot be taken: one without a rule, or a
/// branch end with no fork open.
pub open spec fn scan(table: Map<char, (Seq<char>, Behaviour)>, seq: Seq<char>) -> Result<
    Scan,
    LsystemError,
>
    decreases seq.len(),
{
    if seq.len() == 0 {
        Ok(initial())
    } else {
        match scan(table, seq.drop_last()) {
            Err(e) => Err(e),
            Ok(s) => if table.contains_key(seq.last()) {
                step(s, table[seq.last()].1)
            } else {
                Err(LsystemError::UndefinedSymbol)
            },
        }
    }
}

/// The tree that a finished scan leaves.
pub open spec fn tree_of(s: Scan) -> TreeModel {
    TreeModel { branches: s.branches, steps: s.steps, turns: s.turns }
}

/// A dot of branch `b` lies on a point that exists, and each branch that
/// begins at it exists and was begun after `b`.
pub open spec fn dot_ok(d: DotModel, b: int, branches: nat, points: nat) -> bool {
    &&& d.pos < points
    &&& forall|k: int| 0 <= k < d.links.len() ==> b < #[trigger] d.links[k] < branches
}

/// The branch `c` begins at dot `j` of branch `b`.
pub open spec fn is_link(branches: Seq<Seq<DotModel>>, b: int, j: int, c: usize) -> bool {
    0 <= b < branches.len() && 0 <= j < branches[b].len() && branches[b][j].links.contains(c)
}

/// The branch `c` begins at some dot.
pub open spec fn is_linked(branches: Seq<Seq<DotModel>>, c: usize) -> bool {
    exists|b: int, j: int| #[trigger] is_link(branches, b, j, c)
}

/// Every branch but the root begins at exactly one dot, and is linked there
/// once.
pub open spec fn links_once(branches: Seq<Seq<DotModel>>) -> bool {
    &&& forall|b: int, j: int|
        0 <= b < branches.len() && 0 <= j < branches[b].len() ==> (
        #[trigger] branches[b][j]).links.no_duplicates()
    &&& forall|b1: int, j1: int, b2: int, j2: int, c: usize|
        #[trigger] is_link(branches, b1, j1, c) && #[trigger] is_link(branches, b2, j2, c) ==> b1
            == b2 && j1 == j2
    &&& forall|c: usize| 0 < c < branches.len() ==> #[trigger] is_linked(branches, c)
}

/// What holds of the branches and tables of a scan, and of the tree it
/// leaves: there is a root, no branch is empty, every dot lies on a point
/// of the table and links only to later branches, every branch but the
/// root begins at exactly one dot, and every step and turn departs from a
/// point or heading made before it.
pub open spec fn graph_wf(branches: Seq<Seq<DotModel>>, steps: Seq<Step>, turns: Seq<Turn>) -> bool {
    &&& 1 <= branches.len() <= usize::MAX
    &&& links_once(branches)
    &&& steps.len() <= usize::MAX
    &&& turns.len() <= usize::MAX
    &&& forall|b: int| 0 <= b < branches.len() ==> (#[trigger] branches[b]).len() >= 1
    &&& forall|b: int, j: int|
        0 <= b < branches.len() && 0 <= j < branches[b].len() ==> dot_ok(
            #[trigger] branches[b][j],
            b,
            branches.len(),
            steps.len() + 1,
        )
    &&& forall|k: int|
        0 <= k < steps.len() ==> (#[trigger] steps[k]).from <= k && steps[k].heading <= turns.len()
    &&& forall|k: int| 0 <= k < turns.len() ==> (#[trigger] turns[k]).from <= k
}

/// What holds of the scan between any two symbols.
pub open spec fn scan_wf(s: Scan) -> bool {
    &&& graph_wf(s.branches, s.steps, s.turns)
    &&& s.current < s.branches.len()
    &&& s.turtle.point <= s.steps.len()
    &&& s.turtle.heading <= s.turns.len()
    &&& forall|i: int|
        0 <= i < s.stack.len() ==> {
            &&& (#[trigger] s.stack[i]).branch < s.branches.len()
            &&& s.stack[i].turtle.point <= s.steps.len()
            &&& s.stack[i].turtle.heading <= s.turns.len()
        }
}

/// Once a prefix of the sequence has failed, the whole sequence fails with
/// the same error.
pub proof fn lemma_error_stays(
    table: Map<char, (Seq<char>, Behaviour)>,
    seq: Seq<char>,
    n: int,
)
    requires
        0 <= n <= seq.len(),
        scan(table, seq.take(n)) is Err,
    ensures
        scan(table, seq) == scan(table, seq.take(n)),
    decreases seq.len() - n,
{
    if n == seq.len() {
        assert(seq.take(n) =~= seq);
    } else {
        assert(seq.drop_last().take(n) =~= seq.take(n));
        lemma_error_stays(table, seq.drop_last(), n);
    }
}

/// The host of a new fork is a branch that exists.
pub proof fn lemma_host_in_range(branches: Seq<Seq<DotModel>>, stack: Seq<Frame>, current: usize)
    requires
        current < branches.len(),
        forall|i: int| 0 <= i < stack.len() ==> (#[trigger] stack[i]).branch < branches.len(),
    ensures
        host_of(branches, stack, current) < branches.len(),
    decreases stack.len(),
{
    if has_drawn(branches, current) || stack.len() == 0 {
    } else {
        lemma_host_in_range(branches, stack.drop_last(), stack.last().branch);
    }
}

/// A step keeps what holds between symbols.
pub proof fn lemma_step_wf(s: Scan, action: Behaviour)
    requires
        scan_wf(s),
        step(s, action) is Ok,
        step(s, action).unwrap().branches.len() <= usize::MAX,
        step(s, action).unwrap().steps.len() <= usize::MAX,
        step(s, action).unwrap().turns.len() <= usize::MAX,
    ensures
        scan_wf(step(s, action).unwrap()),
{
    let t = step(s, action).unwrap();
    if action == Behaviour::Branch {
        lemma_host_in_range(s.branches, s.stack, s.current);
    }
    assert forall|i: int| 0 <= i < t.stack.len() implies {
        &&& (#[trigger] t.stack[i]).branch < t.branches.len()
        &&& t.stack[i].turtle.point <= t.steps.len()
        &&& t.stack[i].turtle.heading <= t.turns.len()
    } by {
        if action == Behaviour::Branch {
            assert(t.stack == s.stack.push(Frame { branch: s.current, turtle: s.turtle }));
        } else if action == Behaviour::BranchStop {
            assert(t.stack == s.stack.drop_last());
        } else {
            assert(t.stack == s.stack);
        }
        if i < s.stack.len() {
            assert(t.stack[i] == s.stack[i]);
        }
    }
    assert forall|k: int| 0 <= k < t.steps.len() implies (#[trigger] t.steps[k]).from <= k
        && t.steps[k].heading <= t.turns.len() by {
        if k < s.steps.len() {
            assert(t.steps[k] == s.steps[k]);
        }
    }
    assert forall|k: int| 0 <= k < t.turns.len() implies (#[trigger] t.turns[k]).from <= k by {
        if k < s.turns.len() {
            assert(t.turns[k] == s.turns[k]);
        }
    }
    assert forall|b: int| 0 <= b < t.branches.len() implies (#[trigger] t.branches[b]).len()
        >= 1 by {
        if b < s.branches.len() {
            assert(s.branches[b].len() >= 1);
        }
    }
    assert forall|b: int, j: int| 0 <= b < t.branches.len() && 0 <= j < t.branches[b].len() implies dot_ok(
        #[trigger] t.branches[b][j],
        b,
        t.branches.len(),
        t.steps.len() + 1,
    ) by {
        if b < s.branches.len() {
            assert(s.branches[b].len() >= 1);
            if j < s.branches[b].len() {
                assert(dot_ok(s.branches[b][j], b, s.branches.len(), s.steps.len() + 1));
            }
        }
    }
    lemma_step_links(s, action);
}

/// A step leaves every link where it was, and adds at most the link to the
/// branch that a fork begins.
proof fn lemma_step_links(s: Scan, action: Behaviour)
    requires
        scan_wf(s),
        step(s, action) is Ok,
    ensures
        links_once(step(s, action).unwrap().branches),
{
    let t = step(s, action).unwrap();
    let child = s.branches.len() as usize;
    lemma_host_in_range(s.branches, s.stack, s.current);
    let host = host_of(s.branches, s.stack, s.current) as int;
    let last = s.branches[host].len() - 1;
    let forks = action == Behaviour::Branch;
    assert(s.branches[host].len() >= 1);
    // what a link of the new graph is
    assert forall|b: int, j: int, c: usize| #[trigger] is_link(t.branches, b, j, c) implies (
    is_link(s.branches, b, j, c) && c != child) || (forks && b == host && j == last && c == child) by {
        if b < s.branches.len() {
            assert(s.branches[b].len() >= 1);
            if j < s.branches[b].len() {
                assert(dot_ok(s.branches[b][j], b, s.branches.len(), s.steps.len() + 1));
                if forks && b == host && j == last {
                    vstd::seq_lib::lemma_seq_contains_after_push(s.branches[b][j].links, child, c);
                }
                if s.branches[b][j].links.contains(c) {
                    let k = choose|k: int|
                        0 <= k < s.branches[b][j].links.len() && s.branches[b][j].links[k] == c;
                    assert(s.branches[b][j].links[k] < s.branches.len());
                }
            }
        }
    }
    // what stays a link
    assert forall|b: int, j: int, c: usize| is_link(s.branches, b, j, c) implies #[trigger] is_link(
        t.branches,
        b,
        j,
        c,
    ) by {
        if forks && b == host && j == last {
            vstd::seq_lib::lemma_seq_contains_after_push(s.branches[b][j].links, child, c);
        }
    }
    assert forall|b: int, j: int|
        0 <= b < t.branches.len() && 0 <= j < t.branches[b].len() implies (
    #[trigger] t.branches[b][j]).links.no_duplicates() by {
        if b < s.branches.len() {
            assert(s.branches[b].len() >= 1);
            if j < s.branches[b].len() {
                assert(s.branches[b][j].links.no_duplicates());
                assert(dot_ok(s.branches[b][j], b, s.branches.len(), s.steps.len() + 1));
            }
        }
    }
    assert forall|b1: int, j1: int, b2: int, j2: int, c: usize| #[trigger]
        is_link(t.branches, b1, j1, c) && #[trigger] is_link(t.branches, b2, j2, c) implies b1
        == b2 && j1 == j2 by {
        if c != child {
            assert(is_link(s.branches, b1, j1, c));
            assert(is_link(s.branches, b2, j2, c));
        }
    }
    assert forall|c: usize| 0 < c < t.branches.len() implies #[trigger] is_linked(
        t.branches,
        c,
    ) by {
        if c < s.branches.len() {
            assert(is_linked(s.branches, c));
            let (b, j) = choose|b: int, j: int| #[trigger] is_link(s.branches, b, j, c);
            assert(is_link(t.branches, b, j, c));
        } else {
            vstd::seq_lib::lemma_seq_contains_after_push(s.branches[host][last].links, child, c);
            assert(is_link(t.branches, host, last, c));
        }
    }
}

/// How many symbols of `seq` have the behaviour `action`.
pub open spec fn count_of(
    table: Map<char, (Seq<char>, Behaviour)>,
    seq: Seq<char>,
    action: Behaviour,
) -> nat
    decreases seq.len(),
{
    if seq.len() == 0 {
        0
    } else {
        let rest = count_of(table, seq.drop_last(), action);
        if table.contains_key(seq.last()) && table[seq.last()].1 == action {
            rest + 1
        } else {
            rest
        }
    }
}

/// A sequence is well formed when its scan succeeds and leaves no fork open.
pub open spec fn well_formed(table: Map<char, (Seq<char>, Behaviour)>, seq: Seq<char>) -> bool {
    scan(table, seq) is Ok && scan(table, seq).unwrap().stack.len() == 0
}

/// No symbol of `seq` opens or closes a branch.
pub open spec fn branch_free(table: Map<char, (Seq<char>, Behaviour)>, seq: Seq<char>) -> bool {
    forall|i: int|
        0 <= i < seq.len() ==> table.contains_key(#[trigger] seq[i]) && table[seq[i]].1
            != Behaviour::Branch && table[seq[i]].1 != Behaviour::BranchStop
}

/// The branch being built and the branches on the stack exist.
pub open spec fn indexes_ok(s: Scan) -> bool {
    &&& s.current < s.branches.len()
    &&& forall|i: int| 0 <= i < s.stack.len() ==> (#[trigger] s.stack[i]).branch < s.branches.len()
}

/// After a successful scan there is one branch for the root and one for
/// each fork, one open fork for each fork not closed, one point made for
/// each step drawn and one heading made for each turn.
pub proof fn lemma_scan_counts(table: Map<char, (Seq<char>, Behaviour)>, seq: Seq<char>)
    requires
        scan(table, seq) is Ok,
    ensures
        indexes_ok(scan(table, seq).unwrap()),
        scan(table, seq).unwrap().branches.len() == 1 + count_of(table, seq, Behaviour::Branch),
        scan(table, seq).unwrap().stack.len() + count_of(table, seq, Behaviour::BranchStop)
            == count_of(table, seq, Behaviour::Branch),
        scan(table, seq).unwrap().steps.len() == count_of(table, seq, Behaviour::DrawForward),
        scan(table, seq).unwrap().turns.len() == count_of(table, seq, Behaviour::RotateLeft)
            + count_of(table, seq, Behaviour::RotateRight),
    decreases seq.len(),
{
    if seq.len() > 0 {
        lemma_scan_counts(table, seq.drop_last());
        let s = scan(table, seq.drop_last()).unwrap();
        let t = scan(table, seq).unwrap();
        lemma_host_in_range(s.branches, s.stack, s.current);
        assert forall|i: int| 0 <= i < t.stack.len() implies (#[trigger] t.stack[i]).branch
            < t.branches.len() by {
            if i < s.stack.len() {
                assert(t.stack[i] == s.stack[i]);
            }
        }
    }
}

/// The successful scan of a sequence whose length fits the machine leaves
/// a state of which `scan_wf` holds.
pub proof fn lemma_scan_wf(table: Map<char, (Seq<char>, Behaviour)>, seq: Seq<char>)
    requires
        scan(table, seq) is Ok,
        seq.len() < usize::MAX,
    ensures
        scan_wf(scan(table, seq).unwrap()),
    decreases seq.len(),
{
    if seq.len() > 0 {
        lemma_scan_wf(table, seq.drop_last());
        lemma_scan_counts(table, seq);
        lemma_count_bound(table, seq, Behaviour::Branch);
        lemma_count_bound(table, seq, Behaviour::DrawForward);
        lemma_counts_apart(table, seq);
        lemma_step_wf(scan(table, seq.drop_last()).unwrap(), table[seq.last()].1);
    } else {
        let s = initial();
        assert(s.branches[0][0].links.len() == 0);
    }
}

/// No behaviour is counted more often than there are symbols.
pub proof fn lemma_count_bound(
    table: Map<char, (Seq<char>, Behaviour)>,
    seq: Seq<char>,
    action: Behaviour,
)
    ensures
        count_of(table, seq, action) <= seq.len(),
    decreases seq.len(),
{
    if seq.len() > 0 {
        lemma_count_bound(table, seq.drop_last(), action);
    }
}

/// Left and right turns together are counted no more often than there are
/// symbols.
proof fn lemma_counts_apart(table: Map<char, (Seq<char>, Behaviour)>, seq: Seq<char>)
    ensures
        count_of(table, seq, Behaviour::RotateLeft) + count_of(table, seq, Behaviour::RotateRight)
            <= seq.len(),
    decreases seq.len(),
{
    if seq.len() > 0 {
        lemma_counts_apart(table, seq.drop_last());
    }
}

/// A sequence in which every symbol has a rule and none opens or closes a
/// branch is scanned into a single branch, the root, with one dot for the
/// origin and one for each step drawn.
pub proof fn lemma_branch_free_scan(table: Map<char, (Seq<char>, Behaviour)>, seq: Seq<char>)
    requires
        branch_free(table, seq),
    ensures
        well_formed(table, seq),
        scan(table, seq).unwrap().current == 0,
        scan(table, seq).unwrap().branches.len() == 1,
        scan(table, seq).unwrap().branches[0].len() == 1 + count_of(
            table,
            seq,
            Behaviour::DrawForward,
        ),
    decreases seq.len(),
{
    if seq.len() > 0 {
        assert(table.contains_key(seq[seq.len() - 1]));
        assert forall|i: int| 0 <= i < seq.drop_last().len() implies table.contains_key(
            #[trigger] seq.drop_last()[i],
        ) && table[seq.drop_last()[i]].1 != Behaviour::Branch && table[seq.drop_last()[i]].1
            != Behaviour::BranchStop by {
            assert(seq.drop_last()[i] == seq[i]);
        }
        lemma_branch_free_scan(table, seq.drop_last());
    }
}

/// The tree of a well-formed sequence has one branch for the root and one
/// for each fork of the sequence, and the sequence closes as many branches
/// as it opens.
pub proof fn lemma_well_formed_counts(table: Map<char, (Seq<char>, Behaviour)>, seq: Seq<char>)
    requires
        well_formed(table, seq),
    ensures
        tree_of(scan(table, seq).unwrap()).branches.len() == 1 + count_of(
            table,
            seq,
            Behaviour::Branch,
        ),
        count_of(table, seq, Behaviour::Branch) == count_of(table, seq, Behaviour::BranchStop),
{
    lemma_scan_counts(table, seq);
}

} // verus!
