use vstd::prelude::*;
use std::collections::VecDeque;
use crate::tree::{branch_model, BranchDot, DotModel, LsystemTree};

verus! {

/// A branch that grows or waits to grow: its identifier, and the progress
/// at which its growth began, or at which it was found while it waits.
#[derive(Clone, Copy, PartialEq, Eq, Structural, Debug, Hash)]
pub struct BranchInfo {
    pub id: usize,
    pub tick_started: usize,
}

impl BranchInfo {
    pub fn new(id: usize, tick_started: usize) -> (info: BranchInfo)
        ensures
            info == (BranchInfo { id, tick_started }),
    {
        BranchInfo { id, tick_started }
    }

    /// The root branch, growing from the very start.
    pub fn main_branch() -> (info: BranchInfo)
        ensures
            info == (BranchInfo { id: 0, tick_started: 0 }),
    {
        BranchInfo { id: 0, tick_started: 0 }
    }
}

/// How many dots of a branch of `len` dots are to be seen at progress `now`
/// when its growth began at `started`.
pub open spec fn revealed(now: usize, started: usize, len: nat) -> nat {
    if now <= started {
        0
    } else if now - started < len {
        (now - started) as nat
    } else {
        len
    }
}

/// The links of the dots `from..to` of a branch, in the order of the dots.
pub open spec fn links_between(dots: Seq<DotModel>, from: int, to: int) -> Seq<usize>
    decreases to - from,
{
    if from >= to {
        Seq::empty()
    } else {
        links_between(dots, from, to - 1) + dots[to - 1].links
    }
}

/// Whether a growing branch leaves the growing ones at progress `now`: its
/// last dot is to be seen, or the graph has no such branch.
pub open spec fn retires(graph: Seq<Seq<DotModel>>, info: BranchInfo, now: usize) -> bool {
    info.id >= graph.len() || revealed(now, info.tick_started, graph[info.id as int].len())
        == graph[info.id as int].len()
}

/// The branches that one growing branch lets find between the progress
/// `before` and the progress `now`: the links of its dots that come to be
/// seen.
pub open spec fn found_by(
    graph: Seq<Seq<DotModel>>,
    info: BranchInfo,
    before: usize,
    now: usize,
) -> Seq<usize> {
    if info.id >= graph.len() {
        Seq::empty()
    } else {
        let dots = graph[info.id as int];
        links_between(
            dots,
            revealed(before, info.tick_started, dots.len()) as int,
            revealed(now, info.tick_started, dots.len()) as int,
        )
    }
}

/// The growing branches that go on growing at progress `now`, in order.
pub open spec fn kept_of(graph: Seq<Seq<DotModel>>, active: Seq<BranchInfo>, now: usize) -> Seq<
    BranchInfo,
>
    decreases active.len(),
{
    if active.len() == 0 {
        Seq::empty()
    } else if retires(graph, active.last(), now) {
        kept_of(graph, active.drop_last(), now)
    } else {
        kept_of(graph, active.drop_last(), now).push(active.last())
    }
}

/// The branches found between `before` and `now`, in the order of the
/// growing branches and, for each, of its dots.
pub open spec fn found_of(
    graph: Seq<Seq<DotModel>>,
    active: Seq<BranchInfo>,
    before: usize,
    now: usize,
) -> Seq<usize>
    decreases active.len(),
{
    if active.len() == 0 {
        Seq::empty()
    } else {
        found_of(graph, active.drop_last(), before, now) + found_by(
            graph,
            active.last(),
            before,
            now,
        )
    }
}

/// The entries with which found branches join the queue.
pub open spec fn entries_of(found: Seq<usize>, now: usize) -> Seq<BranchInfo> {
    found.map_values(|id: usize| BranchInfo { id, tick_started: now })
}

/// The entries as they start to grow at progress `now`.
pub open spec fn started_at(entries: Seq<BranchInfo>, now: usize) -> Seq<BranchInfo> {
    entries.map_values(|e: BranchInfo| BranchInfo { id: e.id, tick_started: now })
}

/// The state of an animation as contracts see it.
pub struct AnimationModel {
    pub previous: usize,
    pub progress: usize,
    pub growth_rate: usize,
    pub cap: usize,
    pub active: Seq<BranchInfo>,
    pub queue: Seq<BranchInfo>,
}

/// How many waiting branches start to grow when `kept` branches go on
/// growing and `waiting` wait: as many as the cap leaves room for.
pub open spec fn promoted(cap: usize, kept: nat, waiting: nat) -> nat {
    if cap <= kept {
        0
    } else if cap - kept < waiting {
        (cap - kept) as nat
    } else {
        waiting
    }
}

/// The state after one tick on `graph`.
pub open spec fn tick_model(s: AnimationModel, graph: Seq<Seq<DotModel>>) -> AnimationModel {
    let now = (s.progress + s.growth_rate) as usize;
    let kept = kept_of(graph, s.active, now);
    let waiting = s.queue + entries_of(found_of(graph, s.active, s.progress, now), now);
    let k = promoted(s.cap, kept.len(), waiting.len()) as int;
    AnimationModel {
        previous: s.progress,
        progress: now,
        growth_rate: s.growth_rate,
        cap: s.cap,
        active: kept + started_at(waiting.take(k), now),
        queue: waiting.skip(k),
    }
}

/// The state after `n` ticks on `graph`.
pub open spec fn run_model(s: AnimationModel, graph: Seq<Seq<DotModel>>, n: nat) -> AnimationModel
    decreases n,
{
    if n == 0 {
        s
    } else {
        tick_model(run_model(s, graph, (n - 1) as nat), graph)
    }
}

/// The state before the first tick: the root grows if the cap lets any
/// branch grow, and waits if not.
pub open spec fn initial_model(growth_rate: usize, cap: usize) -> AnimationModel {
    let root = BranchInfo { id: 0, tick_started: 0 };
    AnimationModel {
        previous: 0,
        progress: 0,
        growth_rate,
        cap,
        active: if cap > 0 {
            seq![root]
        } else {
            Seq::empty()
        },
        queue: if cap > 0 {
            Seq::empty()
        } else {
            seq![root]
        },
    }
}

/// The growth of one tree over time: the progress counter, the dots that
/// each tick reveals of every growing branch, the branches that grow, and
/// those that wait for room under the cap, the one found first at the front.
pub struct AnimationState {
    pub previous: usize,
    pub progress: usize,
    pub growth_rate: usize,
    pub cap: usize,
    pub active: Vec<BranchInfo>,
    pub queue: VecDeque<BranchInfo>,
}

impl View for AnimationState {
    type V = AnimationModel;

    open spec fn view(&self) -> AnimationModel {
        AnimationModel {
            previous: self.previous,
            progress: self.progress,
            growth_rate: self.growth_rate,
            cap: self.cap,
            active: self.active@,
            queue: self.queue@,
        }
    }
}

/// No more branches grow than the cap allows.
pub open spec fn within_cap(s: AnimationModel) -> bool {
    s.active.len() <= s.cap
}

/// How many dots of a branch of `len` dots are to be seen at progress `now`
/// when its growth began at `started`.
pub fn revealed_count(now: usize, started: usize, len: usize) -> (n: usize)
    ensures
        n == revealed(now, started, len as nat),
{
    if now <= started {
        0
    } else if now - started < len {
        now - started
    } else {
        len
    }
}

/// Appends to `found` the links of the dots `from..to` of `dots`.
fn collect_links(dots: &Vec<BranchDot>, from: usize, to: usize, found: &mut Vec<usize>)
    requires
        from <= to <= dots.len(),
    ensures
        final(found)@ == old(found)@ + links_between(branch_model(dots@), from as int, to as int),
{
    let ghost model = branch_model(dots@);
    let mut j: usize = from;
    while j < to
        invariant
            from <= j <= to <= dots.len(),
            model == branch_model(dots@),
            found@ == old(found)@ + links_between(model, from as int, j as int),
        decreases to - j,
    {
        let links = &dots[j].connected_branches_id;
        let ghost base = found@;
        let mut k: usize = 0;
        while k < links.len()
            invariant
                k <= links.len(),
                found@ == base + links@.take(k as int),
            decreases links.len() - k,
        {
            found.push(links[k]);
            proof {
                assert(links@.take(k + 1) =~= links@.take(k as int).push(links@[k as int]));
            }
            k += 1;
        }
        proof {
            assert(links@.take(links.len() as int) =~= links@);
            assert(model[j as int].links == links@);
            assert(found@ =~= old(found)@ + links_between(model, from as int, j + 1));
        }
        j += 1;
    }
}

/// The branches that begin at the dots `from..to` of a branch, in the order
/// in which the growth front passes them.
pub fn discovered_children(dots: &Vec<BranchDot>, from: usize, to: usize) -> (found: Vec<usize>)
    requires
        from <= to <= dots.len(),
    ensures
        found@ == links_between(branch_model(dots@), from as int, to as int),
{
    let mut found: Vec<usize> = Vec::new();
    collect_links(dots, from, to, &mut found);
    found
}

impl AnimationState {
    pub fn new(growth_rate: usize, cap: usize) -> (state: AnimationState)
        ensures
            state@ == initial_model(growth_rate, cap),
            within_cap(state@),
    {
        let mut active: Vec<BranchInfo> = Vec::new();
        let mut queue: VecDeque<BranchInfo> = VecDeque::new();
        if cap > 0 {
            active.push(BranchInfo::main_branch());
        } else {
            queue.push_back(BranchInfo::main_branch());
        }
        let state = AnimationState { previous: 0, progress: 0, growth_rate, cap, active, queue };
        proof {
            assert(state@.active =~= initial_model(growth_rate, cap).active);
            assert(state@.queue =~= initial_model(growth_rate, cap).queue);
        }
        state
    }

    /// One step of the animation: the progress advances by the growth rate,
    /// every growing branch reveals its next dots, the branches that begin
    /// at those dots join the queue behind the ones that wait already,
    /// branches whose last dot is revealed stop growing, and waiting
    /// branches start to grow, the oldest first, as far as the cap allows.
    pub fn tick(&mut self, tree: &LsystemTree)
        requires
            old(self).progress + old(self).growth_rate <= usize::MAX,
        ensures
            final(self)@ == tick_model(old(self)@, tree@.branches),
            within_cap(old(self)@) ==> within_cap(final(self)@),
    {
        let before = self.progress;
        let now = self.progress + self.growth_rate;
        let ghost graph = tree@.branches;
        let ghost active = self.active@;
        let ghost queue = self.queue@;
        let mut kept: Vec<BranchInfo> = Vec::new();
        let mut found: Vec<usize> = Vec::new();
        let mut i: usize = 0;
        proof {
            assert(active.take(0) =~= Seq::<BranchInfo>::empty());
        }
        while i < self.active.len()
            invariant
                i <= self.active.len(),
                *self == *old(self),
                self.active@ == active,
                graph == tree@.branches,
                before <= now,
                kept@ == kept_of(graph, active.take(i as int), now),
                found@ == found_of(graph, active.take(i as int), before, now),
                kept.len() <= i,
            decreases self.active.len() - i,
        {
            let info = self.active[i];
            proof {
                assert(active.take(i + 1).drop_last() =~= active.take(i as int));
                assert(active.take(i + 1).last() == info);
            }
            match tree.branch(info.id) {
                None => {},
                Some(dots) => {
                    let to = revealed_count(now, info.tick_started, dots.len());
                    let from = revealed_count(before, info.tick_started, dots.len());
                    collect_links(dots, from, to, &mut found);
                    if to != dots.len() {
                        kept.push(info);
                    }
                },
            }
            proof {
                if info.id >= graph.len() {
                    assert(found_by(graph, info, before, now) =~= Seq::<usize>::empty());
                    assert(found@ =~= found_of(graph, active.take(i + 1), before, now));
                }
            }
            i += 1;
        }
        proof {
            assert(active.take(active.len() as int) =~= active);
        }
        let ghost fresh = entries_of(found@, now);
        let mut j: usize = 0;
        while j < found.len()
            invariant
                j <= found.len(),
                self.cap == old(self).cap,
                self.growth_rate == old(self).growth_rate,
                fresh == entries_of(found@, now),
                self.queue@ == queue + fresh.take(j as int),
            decreases found.len() - j,
        {
            self.queue.push_back(BranchInfo::new(found[j], now));
            proof {
                assert(fresh.take(j + 1) =~= fresh.take(j as int).push(fresh[j as int]));
                assert(self.queue@ =~= queue + fresh.take(j + 1));
            }
            j += 1;
        }
        proof {
            assert(fresh.take(found.len() as int) =~= fresh);
        }
        let ghost waiting = queue + fresh;
        let ghost still = kept@;
        let ghost k = promoted(self.cap, still.len(), waiting.len());
        let mut moved: usize = 0;
        proof {
            assert(waiting.take(0) =~= Seq::<BranchInfo>::empty());
            assert(started_at(waiting.take(0), now) =~= Seq::<BranchInfo>::empty());
            assert(kept@ =~= still + started_at(waiting.take(0), now));
            assert(waiting.skip(0) =~= waiting);
        }
        while kept.len() < self.cap && self.queue.len() > 0
            invariant
                moved <= k,
                moved <= waiting.len(),
                kept@ == still + started_at(waiting.take(moved as int), now),
                self.queue@ == waiting.skip(moved as int),
                k == promoted(self.cap, still.len(), waiting.len()),
                kept.len() == still.len() + moved,
                (kept.len() >= self.cap || self.queue@.len() == 0) ==> moved == k,
                self.cap == old(self).cap,
                self.growth_rate == old(self).growth_rate,
            decreases self.queue@.len(),
        {
            let next = self.queue.pop_front();
            match next {
                Some(entry) => {
                    kept.push(BranchInfo::new(entry.id, now));
                    proof {
                        assert(entry == waiting[moved as int]);
                        assert(waiting.take(moved + 1) =~= waiting.take(moved as int).push(
                            entry,
                        ));
                        assert(kept@ =~= still + started_at(waiting.take(moved + 1), now));
                        assert(self.queue@ =~= waiting.skip(moved + 1));
                    }
                    moved += 1;
                },
                None => {},
            }
        }
        self.previous = before;
        self.progress = now;
        self.active = kept;
        proof {
            lemma_kept_len(graph, active, now);
            let next = tick_model(old(self)@, graph);
            assert(self@.active =~= next.active);
            assert(self@.queue =~= next.queue);
        }
    }
}

impl AnimationState {
    /// What a renderer strokes at this moment: for each growing branch that
    /// the graph has and of which a dot is to be seen, its identifier and
    /// how many of its dots are to be seen, in the order of the growing
    /// branches.
    pub fn visible_prefixes(&self, tree: &LsystemTree) -> (shown: Vec<(usize, usize)>)
        ensures
            shown@ == visible_of(tree@.branches, self@.active, self.progress),
    {
        let mut shown: Vec<(usize, usize)> = Vec::new();
        let mut i: usize = 0;
        proof {
            assert(self.active@.take(0) =~= Seq::<BranchInfo>::empty());
        }
        while i < self.active.len()
            invariant
                i <= self.active.len(),
                shown@ == visible_of(tree@.branches, self.active@.take(i as int), self.progress),
            decreases self.active.len() - i,
        {
            let info = self.active[i];
            proof {
                assert(self.active@.take(i + 1).drop_last() =~= self.active@.take(i as int));
                assert(self.active@.take(i + 1).last() == info);
            }
            match tree.branch(info.id) {
                None => {},
                Some(dots) => {
                    let to = revealed_count(self.progress, info.tick_started, dots.len());
                    if to > 0 {
                        shown.push((info.id, to));
                    }
                },
            }
            i += 1;
        }
        proof {
            assert(self.active@.take(self.active.len() as int) =~= self.active@);
        }
        shown
    }
}

/// For each growing branch that the graph has and of which a dot is to be
/// seen at progress `now`: its identifier and how many of its dots are to
/// be seen.
pub open spec fn visible_of(graph: Seq<Seq<DotModel>>, active: Seq<BranchInfo>, now: usize) -> Seq<
    (usize, usize),
>
    decreases active.len(),
{
    if active.len() == 0 {
        Seq::empty()
    } else {
        let rest = visible_of(graph, active.drop_last(), now);
        let info = active.last();
        if info.id < graph.len() && revealed(
            now,
            info.tick_started,
            graph[info.id as int].len(),
        ) > 0 {
            rest.push(
                (
                    info.id,
                    revealed(now, info.tick_started, graph[info.id as int].len()) as usize,
                ),
            )
        } else {
            rest
        }
    }
}

/// A tick never lets more branches grow than the cap allows.
pub proof fn lemma_tick_within_cap(s: AnimationModel, graph: Seq<Seq<DotModel>>)
    requires
        within_cap(s),
    ensures
        within_cap(tick_model(s, graph)),
{
    let now = (s.progress + s.growth_rate) as usize;
    lemma_kept_len(graph, s.active, now);
}

/// However many ticks are made, never more branches grow than the cap
/// allows.
pub proof fn lemma_run_within_cap(s: AnimationModel, graph: Seq<Seq<DotModel>>, n: nat)
    requires
        within_cap(s),
    ensures
        within_cap(run_model(s, graph, n)),
    decreases n,
{
    if n > 0 {
        lemma_run_within_cap(s, graph, (n - 1) as nat);
        lemma_tick_within_cap(run_model(s, graph, (n - 1) as nat), graph);
    }
}

/// The same ticks on the same graph, from two states that hold the same
/// values, end in states that hold the same values: the growing branches
/// and the waiting ones are the same, in the same order.
pub proof fn lemma_replay_is_same(
    a: AnimationModel,
    b: AnimationModel,
    graph: Seq<Seq<DotModel>>,
    n: nat,
)
    requires
        a.previous == b.previous,
        a.progress == b.progress,
        a.growth_rate == b.growth_rate,
        a.cap == b.cap,
        a.active == b.active,
        a.queue == b.queue,
    ensures
        run_model(a, graph, n).active == run_model(b, graph, n).active,
        run_model(a, graph, n).queue == run_model(b, graph, n).queue,
        run_model(a, graph, n) == run_model(b, graph, n),
{
}

/// No more branches go on growing than grew.
pub proof fn lemma_kept_len(graph: Seq<Seq<DotModel>>, active: Seq<BranchInfo>, now: usize)
    ensures
        kept_of(graph, active, now).len() <= active.len(),
    decreases active.len(),
{
    if active.len() > 0 {
        lemma_kept_len(graph, active.drop_last(), now);
    }
}

} // verus!
