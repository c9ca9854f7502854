use vstd::prelude::*;
use crate::behaviour::Behaviour;
use crate::dots::LsystemDots;
use crate::error::LsystemError;
use crate::rewrite::{
    expand, expand_within, lemma_expand_none_stays, lemma_expand_within_stays, rewrite_once,
    rewrite_within,
};
use crate::rules::Rules;
use crate::scan::{
    host_of, initial, lemma_error_stays, lemma_host_in_range, lemma_step_wf, scan, scan_wf, step,
    tree_of, with_link, Frame, Scan,
};
use crate::tree::{
    branch_model, graph_model, lemma_branch_push, lemma_branch_update, lemma_graph_push,
    lemma_graph_update, BranchDot, DotModel, LsystemTree, Step, TreeModel, TurtleState,
    Turn,
};

verus! {

/// The grammar of a plant: the sequence it starts from and its rules.
pub struct LsystemConfig {
    pub start: String,
    pub rules: Rules,
}

/// Builds trees from a grammar.
pub struct LsystemBuilder {
    start: String,
    rules: Rules,
}

/// The scan that the builder's variables stand for.
pub open spec fn scan_model(
    branches: Seq<Vec<BranchDot>>,
    stack: Seq<Frame>,
    current: usize,
    turtle: TurtleState,
    steps: Seq<Step>,
    turns: Seq<Turn>,
) -> Scan {
    Scan { branches: graph_model(branches), stack, current, turtle, steps, turns }
}

/// The branch that takes the link of a fork opened now.
fn find_host(branches: &Vec<Vec<BranchDot>>, stack: &Vec<Frame>, current: usize) -> (host: usize)
    requires
        current < branches.len(),
        forall|i: int| 0 <= i < stack.len() ==> (#[trigger] stack[i]).branch < branches.len(),
    ensures
        host == host_of(graph_model(branches@), stack@, current),
        host < branches.len(),
{
    let ghost graph = graph_model(branches@);
    let mut host = current;
    let mut depth = stack.len();
    proof {
        assert(stack@.take(depth as int) =~= stack@);
        lemma_host_in_range(graph, stack@, current);
    }
    while !(host == 0 || branches[host].len() > 1) && depth > 0
        invariant
            graph == graph_model(branches@),
            depth <= stack.len(),
            host < branches.len(),
            forall|i: int| 0 <= i < stack.len() ==> (#[trigger] stack[i]).branch < branches.len(),
            host_of(graph, stack@, current) == host_of(graph, stack@.take(depth as int), host),
        decreases depth,
    {
        proof {
            assert(stack@.take(depth as int).drop_last() =~= stack@.take(depth - 1));
            assert(graph[host as int].len() == branches[host as int].len());
        }
        depth -= 1;
        host = stack[depth].branch;
    }
    proof {
        assert(graph[host as int].len() == branches[host as int].len());
    }
    host
}

/// Scans `sequence` from left to right and builds the tree it describes.
pub fn scan_sequence(rules: &Rules, sequence: &str) -> (out: Result<LsystemTree, LsystemError>)
    ensures
        match scan(rules@, sequence@) {
            Ok(s) => out is Ok && out.unwrap()@ == tree_of(s) && out.unwrap().wf(),
            Err(e) => out == Err::<LsystemTree, LsystemError>(e),
        },
{
    let mut root: Vec<BranchDot> = Vec::new();
    root.push(BranchDot { pos: 0, connected_branches_id: Vec::new() });
    let mut branches: Vec<Vec<BranchDot>> = Vec::new();
    branches.push(root);
    let mut stack: Vec<Frame> = Vec::new();
    let mut current: usize = 0;
    let mut turtle = TurtleState { point: 0, heading: 0 };
    let mut steps: Vec<Step> = Vec::new();
    let mut turns: Vec<Turn> = Vec::new();
    proof {
        assert(branch_model(branches@[0]@) =~= initial().branches[0]);
        assert(graph_model(branches@) =~= initial().branches);
        assert(scan_model(branches@, stack@, current, turtle, steps@, turns@) == initial());
        assert(sequence@.take(0) =~= Seq::<char>::empty());
    }
    for ch in it: sequence.chars()
        invariant
            it.seq() == sequence@,
            scan(rules@, sequence@.take(it.index())) == Ok::<Scan, LsystemError>(
                scan_model(branches@, stack@, current, turtle, steps@, turns@),
            ),
            scan_wf(scan_model(branches@, stack@, current, turtle, steps@, turns@)),
    {
        let ghost before = scan_model(branches@, stack@, current, turtle, steps@, turns@);
        let ghost grown = branches@;
        let ghost prefix = sequence@.take(it.index() + 1);
        proof {
            assert(prefix.drop_last() =~= sequence@.take(it.index()));
            assert(prefix.last() == ch);
        }
        match rules.get_behaviour(&ch) {
            None => {
                proof {
                    lemma_error_stays(rules@, sequence@, it.index() + 1);
                }
                return Err(LsystemError::UndefinedSymbol);
            },
            Some(action) => {
                match *action {
                    Behaviour::DrawForward => {
                        steps.push(Step { from: turtle.point, heading: turtle.heading });
                        turtle = TurtleState { point: steps.len(), heading: turtle.heading };
                        let dot = BranchDot { pos: turtle.point, connected_branches_id: Vec::new() };
                        branches[current].push(dot);
                        proof {
                            lemma_branch_push(grown[current as int]@, dot);
                            lemma_graph_update(grown, current as int, branches@[current as int]);
                            assert(branches@ =~= grown.update(
                                current as int,
                                branches@[current as int],
                            ));
                        }
                    },
                    Behaviour::RotateLeft => {
                        turns.push(Turn { from: turtle.heading, left: true });
                        turtle = TurtleState { point: turtle.point, heading: turns.len() };
                    },
                    Behaviour::RotateRight => {
                        turns.push(Turn { from: turtle.heading, left: false });
                        turtle = TurtleState { point: turtle.point, heading: turns.len() };
                    },
                    Behaviour::Branch => {
                        let host = find_host(&branches, &stack, current);
                        let child = branches.len();
                        let last = branches[host].len() - 1;
                        branches[host][last].connected_branches_id.push(child);
                        let ghost linked = branches@;
                        proof {
                            let dots = grown[host as int]@;
                            assert(graph_model(grown)[host as int] == branch_model(dots));
                            assert(linked =~= grown.update(host as int, linked[host as int]));
                            assert(linked[host as int]@ =~= dots.update(
                                last as int,
                                linked[host as int]@[last as int],
                            ));
                            lemma_branch_update(dots, last as int, linked[host as int]@[last as int]);
                            lemma_graph_update(grown, host as int, linked[host as int]);
                            assert(graph_model(linked) == with_link(
                                graph_model(grown),
                                host,
                                child,
                            ));
                        }
                        let mut dots: Vec<BranchDot> = Vec::new();
                        dots.push(BranchDot { pos: turtle.point, connected_branches_id: Vec::new() });
                        branches.push(dots);
                        proof {
                            lemma_graph_push(linked, dots);
                            assert(branch_model(dots@) =~= seq![
                                DotModel { pos: turtle.point, links: Seq::empty() },
                            ]);
                        }
                        stack.push(Frame { branch: current, turtle });
                        current = child;
                    },
                    Behaviour::BranchStop => {
                        match stack.pop() {
                            None => {
                                proof {
                                    lemma_error_stays(rules@, sequence@, it.index() + 1);
                                }
                                return Err(LsystemError::UnbalancedBranch);
                            },
                            Some(frame) => {
                                current = frame.branch;
                                turtle = frame.turtle;
                            },
                        }
                    },
                }
                proof {
                    let after = scan_model(branches@, stack@, current, turtle, steps@, turns@);
                    assert(branches.len() == branches@.len());
                    assert(steps.len() == steps@.len());
                    assert(turns.len() == turns@.len());
                    assert(step(before, *action) is Ok);
                    assert(after.stack =~= step(before, *action).unwrap().stack);
                    assert(after == step(before, *action).unwrap());
                    lemma_step_wf(before, *action);
                }
            },
        }
    }
    proof {
        assert(sequence@.take(sequence@.len() as int) =~= sequence@);
    }
    Ok(LsystemTree { branches, steps, turns })
}

impl LsystemBuilder {
    /// The sequence that rewriting starts from.
    pub closed spec fn start(&self) -> Seq<char> {
        self.start@
    }

    /// The rule table.
    pub closed spec fn table(&self) -> Map<char, (Seq<char>, Behaviour)> {
        self.rules@
    }

    /// The tree of the start sequence rewritten `depth` times, or the error
    /// on the way to it.
    pub open spec fn tree_at(&self, depth: nat) -> Result<TreeModel, LsystemError> {
        match expand(self.table(), self.start(), depth) {
            None => Err(LsystemError::UndefinedSymbol),
            Some(s) => match scan(self.table(), s) {
                Ok(done) => Ok(tree_of(done)),
                Err(e) => Err(e),
            },
        }
    }

    pub fn new(config: &LsystemConfig) -> (builder: LsystemBuilder)
        ensures
            builder.start() == config.start@,
            builder.table() == config.rules@,
    {
        LsystemBuilder { start: config.start.clone(), rules: config.rules.clone() }
    }

    /// Rewrites the start sequence `lvl` times and scans the result.
    pub fn build_tree(&self, lvl: &usize) -> (out: Result<LsystemTree, LsystemError>)
        ensures
            match self.tree_at(*lvl as nat) {
                Ok(tree) => out is Ok && out.unwrap()@ == tree && out.unwrap().wf(),
                Err(e) => out == Err::<LsystemTree, LsystemError>(e),
            },
    {
        match self.generate_sequence(lvl) {
            Ok(lsystem) => self.lsystem_to_tree(&lsystem),
            Err(e) => Err(e),
        }
    }

    /// The start sequence after `lvl` rewriting passes.
    pub fn generate_sequence(&self, lvl: &usize) -> (out: Result<String, LsystemError>)
        ensures
            match expand(self.table(), self.start(), *lvl as nat) {
                Some(s) => out is Ok && out.unwrap()@ == s,
                None => out == Err::<String, LsystemError>(LsystemError::UndefinedSymbol),
            },
    {
        let mut lvl_sequence = self.start.clone();
        let mut pass: usize = 0;
        while pass < *lvl
            invariant
                pass <= *lvl,
                expand(self.table(), self.start(), pass as nat) == Some(lvl_sequence@),
            decreases *lvl - pass,
        {
            match rewrite_once(&self.rules, lvl_sequence.as_str()) {
                Ok(temp) => {
                    lvl_sequence = temp;
                },
                Err(e) => {
                    proof {
                        lemma_expand_none_stays(
                            self.table(),
                            self.start(),
                            (pass + 1) as nat,
                            *lvl as nat,
                        );
                    }
                    return Err(e);
                },
            }
            pass += 1;
        }
        Ok(lvl_sequence)
    }

    /// The tree of the start sequence rewritten `depth` times where no pass
    /// gives more than `limit` symbols, or the error on the way to it.
    pub open spec fn tree_within(&self, depth: nat, limit: usize) -> Result<
        TreeModel,
        LsystemError,
    > {
        match expand_within(self.table(), self.start(), depth, limit) {
            Err(e) => Err(e),
            Ok(s) => match scan(self.table(), s) {
                Ok(done) => Ok(tree_of(done)),
                Err(e) => Err(e),
            },
        }
    }

    /// As `build_tree`, but gives up with `SequenceTooLong` before it
    /// builds a sequence of more than `limit` symbols.
    pub fn build_tree_within(&self, lvl: &usize, limit: usize) -> (out: Result<
        LsystemTree,
        LsystemError,
    >)
        ensures
            match self.tree_within(*lvl as nat, limit) {
                Ok(tree) => out is Ok && out.unwrap()@ == tree && out.unwrap().wf(),
                Err(e) => out == Err::<LsystemTree, LsystemError>(e),
            },
    {
        match self.generate_sequence_within(lvl, limit) {
            Ok(lsystem) => self.lsystem_to_tree(&lsystem),
            Err(e) => Err(e),
        }
    }

    /// As `generate_sequence`, but gives up with `SequenceTooLong` before
    /// it builds a sequence of more than `limit` symbols.
    pub fn generate_sequence_within(&self, lvl: &usize, limit: usize) -> (out: Result<
        String,
        LsystemError,
    >)
        ensures
            match expand_within(self.table(), self.start(), *lvl as nat, limit) {
                Ok(s) => out is Ok && out.unwrap()@ == s,
                Err(e) => out == Err::<String, LsystemError>(e),
            },
    {
        let mut lvl_sequence = self.start.clone();
        let mut pass: usize = 0;
        while pass < *lvl
            invariant
                pass <= *lvl,
                expand_within(self.table(), self.start(), pass as nat, limit) == Ok::<
                    Seq<char>,
                    LsystemError,
                >(lvl_sequence@),
            decreases *lvl - pass,
        {
            match rewrite_within(&self.rules, lvl_sequence.as_str(), limit) {
                Ok(temp) => {
                    lvl_sequence = temp;
                },
                Err(e) => {
                    proof {
                        lemma_expand_within_stays(
                            self.table(),
                            self.start(),
                            (pass + 1) as nat,
                            *lvl as nat,
                            limit,
                        );
                    }
                    return Err(e);
                },
            }
            pass += 1;
        }
        Ok(lvl_sequence)
    }

    /// Scans `lsystem` with the builder's rules.
    pub fn lsystem_to_tree(&self, lsystem: &String) -> (out: Result<LsystemTree, LsystemError>)
        ensures
            match scan(self.table(), lsystem@) {
                Ok(s) => out is Ok && out.unwrap()@ == tree_of(s) && out.unwrap().wf(),
                Err(e) => out == Err::<LsystemTree, LsystemError>(e),
            },
    {
        scan_sequence(&self.rules, lsystem.as_str())
    }
}

/// The points of the trees of `lsystems`, tree by tree, or the error of the
/// first sequence that cannot be scanned.
pub open spec fn dots_of_all(table: Map<char, (Seq<char>, Behaviour)>, lsystems: Seq<String>) -> Result<
    Seq<Seq<usize>>,
    LsystemError,
>
    decreases lsystems.len(),
{
    if lsystems.len() == 0 {
        Ok(Seq::empty())
    } else {
        match dots_of_all(table, lsystems.drop_last()) {
            Err(e) => Err(e),
            Ok(done) => match scan(table, lsystems.last()@) {
                Err(e) => Err(e),
                Ok(s) => Ok(done.push(points_of(s.steps.len()))),
            },
        }
    }
}

/// The points that `steps` steps make, the origin first.
pub open spec fn points_of(steps: nat) -> Seq<usize> {
    Seq::new(steps + 1, |i: int| i as usize)
}

/// For each sequence the points of its tree in the order in which the
/// turtle reaches them, the polyline of a plant drawn in one stroke, each
/// behind a cursor that has handed out nothing yet.
pub fn lsystems_to_dots(lsystems: &Vec<String>, rules: &Rules) -> (out: Result<
    Vec<LsystemDots>,
    LsystemError,
>)
    ensures
        match dots_of_all(rules@, lsystems@) {
            Ok(all) => out is Ok && out.unwrap()@.len() == all.len() && forall|i: int|
                0 <= i < all.len() ==> (#[trigger] out.unwrap()@[i]).dots() == all[i]
                    && out.unwrap()@[i].handed_out() == 0,
            Err(e) => out is Err && out.unwrap_err() == e,
        },
{
    let mut res: Vec<LsystemDots> = Vec::new();
    let mut i: usize = 0;
    proof {
        assert(lsystems@.take(0) =~= Seq::<String>::empty());
    }
    while i < lsystems.len()
        invariant
            i <= lsystems.len(),
            dots_of_all(rules@, lsystems@.take(i as int)) is Ok,
            res@.len() == dots_of_all(rules@, lsystems@.take(i as int)).unwrap().len(),
            forall|k: int|
                0 <= k < res@.len() ==> (#[trigger] res@[k]).dots() == dots_of_all(
                    rules@,
                    lsystems@.take(i as int),
                ).unwrap()[k] && res@[k].handed_out() == 0,
        decreases lsystems.len() - i,
    {
        proof {
            assert(lsystems@.take(i + 1).drop_last() =~= lsystems@.take(i as int));
        }
        match scan_sequence(rules, lsystems[i].as_str()) {
            Err(e) => {
                proof {
                    lemma_dots_error_stays(rules@, lsystems@, i + 1);
                }
                return Err(e);
            },
            Ok(tree) => {
                res.push(LsystemDots::new(tree.dots()));
            },
        }
        i += 1;
    }
    proof {
        assert(lsystems@.take(lsystems.len() as int) =~= lsystems@);
    }
    Ok(res)
}

/// Once one of the sequences has failed, the whole list fails with its
/// error.
proof fn lemma_dots_error_stays(
    table: Map<char, (Seq<char>, Behaviour)>,
    lsystems: Seq<String>,
    n: int,
)
    requires
        0 <= n <= lsystems.len(),
        dots_of_all(table, lsystems.take(n)) is Err,
    ensures
        dots_of_all(table, lsystems) == dots_of_all(table, lsystems.take(n)),
    decreases lsystems.len() - n,
{
    if n == lsystems.len() {
        assert(lsystems.take(n) =~= lsystems);
    } else {
        assert(lsystems.drop_last().take(n) =~= lsystems.take(n));
        lemma_dots_error_stays(table, lsystems.drop_last(), n);
    }
}

} // verus!
