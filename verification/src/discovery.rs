use vstd::prelude::*;
use vstd::seq_lib::{lemma_no_dup_in_concat, lemma_seq_concat_contains_all_elements};
use crate::growth::{
    entries_of, found_by, found_of, initial_model, kept_of, links_between, promoted, retires,
    revealed, run_model, started_at, tick_model, AnimationModel, BranchInfo,
};
use crate::growth::{lemma_run_within_cap, within_cap};
use crate::scan::{dot_ok, graph_wf, is_link, links_once};
use crate::tree::TreeModel;
use crate::tree::DotModel;

verus! {

/// The identifiers of the entries, in order.
pub open spec fn ids_of(entries: Seq<BranchInfo>) -> Seq<usize> {
    entries.map_values(|e: BranchInfo| e.id)
}

/// A link is among those of the dots `from..to` exactly if one of these
/// dots has it.
pub proof fn lemma_links_between_has(dots: Seq<DotModel>, from: int, to: int, c: usize)
    requires
        0 <= from,
        to <= dots.len(),
    ensures
        links_between(dots, from, to).contains(c) <==> exists|j: int|
            from <= j < to && (#[trigger] dots[j]).links.contains(c),
    decreases to - from,
{
    if from < to {
        let head = links_between(dots, from, to - 1);
        lemma_links_between_has(dots, from, to - 1, c);
        lemma_seq_concat_contains_all_elements(head, dots[to - 1].links, c);
        if exists|j: int| from <= j < to && (#[trigger] dots[j]).links.contains(c) {
            let j = choose|j: int| from <= j < to && (#[trigger] dots[j]).links.contains(c);
            if j < to - 1 {
                assert(head.contains(c));
            }
        }
    }
}

/// What one growing branch lets find are links of its own dots.
pub proof fn lemma_found_by_has(
    graph: Seq<Seq<DotModel>>,
    info: BranchInfo,
    before: usize,
    now: usize,
    c: usize,
)
    ensures
        found_by(graph, info, before, now).contains(c) <==> info.id < graph.len() && exists|j: int|
            revealed(before, info.tick_started, graph[info.id as int].len()) <= j < revealed(
                now,
                info.tick_started,
                graph[info.id as int].len(),
            ) && #[trigger] is_link(graph, info.id as int, j, c),
{
    if info.id < graph.len() {
        let dots = graph[info.id as int];
        let from = revealed(before, info.tick_started, dots.len()) as int;
        let to = revealed(now, info.tick_started, dots.len()) as int;
        lemma_links_between_has(dots, from, to, c);
        if found_by(graph, info, before, now).contains(c) {
            let j = choose|j: int| from <= j < to && (#[trigger] dots[j]).links.contains(c);
            assert(is_link(graph, info.id as int, j, c));
        }
        if exists|j: int| from <= j < to && #[trigger] is_link(graph, info.id as int, j, c) {
            let j = choose|j: int| from <= j < to && #[trigger] is_link(graph, info.id as int, j, c);
            assert(dots[j].links.contains(c));
        }
    }
}

/// What a tick finds is what one of the growing branches lets find.
pub proof fn lemma_found_of_has(
    graph: Seq<Seq<DotModel>>,
    active: Seq<BranchInfo>,
    before: usize,
    now: usize,
    c: usize,
)
    ensures
        found_of(graph, active, before, now).contains(c) <==> exists|i: int|
            0 <= i < active.len() && found_by(graph, #[trigger] active[i], before, now).contains(c),
    decreases active.len(),
{
    if active.len() > 0 {
        let head = found_of(graph, active.drop_last(), before, now);
        let tail = found_by(graph, active.last(), before, now);
        lemma_found_of_has(graph, active.drop_last(), before, now, c);
        lemma_seq_concat_contains_all_elements(head, tail, c);
        if head.contains(c) {
            let i = choose|i: int|
                0 <= i < active.drop_last().len() && found_by(
                    graph,
                    #[trigger] active.drop_last()[i],
                    before,
                    now,
                ).contains(c);
            assert(active[i] == active.drop_last()[i]);
        }
        if tail.contains(c) {
            assert(active[active.len() - 1] == active.last());
        }
        if exists|i: int|
            0 <= i < active.len() && found_by(graph, #[trigger] active[i], before, now).contains(
                c,
            ) {
            let i = choose|i: int|
                0 <= i < active.len() && found_by(
                    graph,
                    #[trigger] active[i],
                    before,
                    now,
                ).contains(c);
            if i < active.len() - 1 {
                assert(active.drop_last()[i] == active[i]);
            }
        }
    }
}

/// The links of a run of dots of one branch hold no branch twice.
pub proof fn lemma_links_between_once(graph: Seq<Seq<DotModel>>, b: int, from: int, to: int)
    requires
        links_once(graph),
        0 <= b < graph.len(),
        0 <= from,
        to <= graph[b].len(),
    ensures
        links_between(graph[b], from, to).no_duplicates(),
    decreases to - from,
{
    if from < to {
        let head = links_between(graph[b], from, to - 1);
        let tail = graph[b][to - 1].links;
        lemma_links_between_once(graph, b, from, to - 1);
        assert forall|i: int, j: int| 0 <= i < head.len() && 0 <= j < tail.len() implies head[i]
            != tail[j] by {
            if head[i] == tail[j] {
                let c = head[i];
                assert(head.contains(c));
                lemma_links_between_has(graph[b], from, to - 1, c);
                let d = choose|d: int| from <= d < to - 1 && (#[trigger] graph[b][d]).links.contains(c);
                assert(tail.contains(c));
                assert(is_link(graph, b, d, c));
                assert(is_link(graph, b, to - 1, c));
            }
        }
        lemma_no_dup_in_concat(head, tail);
    }
}

/// How many dots are to be seen never shrinks as progress grows, and never
/// passes the length of the branch.
pub proof fn lemma_revealed_grows(before: usize, now: usize, started: usize, len: nat)
    requires
        before <= now,
    ensures
        revealed(before, started, len) <= revealed(now, started, len) <= len,
{
}

/// Where no two growing branches are the same branch, a tick finds no
/// branch twice.
pub proof fn lemma_found_once(
    graph: Seq<Seq<DotModel>>,
    active: Seq<BranchInfo>,
    before: usize,
    now: usize,
)
    requires
        links_once(graph),
        ids_of(active).no_duplicates(),
    ensures
        found_of(graph, active, before, now).no_duplicates(),
    decreases active.len(),
{
    if active.len() > 0 {
        let rest = active.drop_last();
        let last = active.last();
        let head = found_of(graph, rest, before, now);
        let tail = found_by(graph, last, before, now);
        assert forall|i: int, j: int| 0 <= i < rest.len() && 0 <= j < rest.len() && i
            != j implies ids_of(rest)[i] != ids_of(rest)[j] by {
            assert(ids_of(active)[i] == ids_of(rest)[i]);
            assert(ids_of(active)[j] == ids_of(rest)[j]);
        }
        lemma_found_once(graph, rest, before, now);
        if last.id < graph.len() {
            let len = graph[last.id as int].len();
            lemma_links_between_once(
                graph,
                last.id as int,
                revealed(before, last.tick_started, len) as int,
                revealed(now, last.tick_started, len) as int,
            );
        }
        assert forall|i: int, j: int| 0 <= i < head.len() && 0 <= j < tail.len() implies head[i]
            != tail[j] by {
            if head[i] == tail[j] {
                let c = head[i];
                assert(head.contains(c));
                assert(tail.contains(c));
                lemma_found_of_has(graph, rest, before, now, c);
                let m = choose|m: int|
                    0 <= m < rest.len() && found_by(graph, #[trigger] rest[m], before, now).contains(
                        c,
                    );
                lemma_found_by_has(graph, rest[m], before, now, c);
                lemma_found_by_has(graph, last, before, now, c);
                assert(rest[m].id == last.id);
                assert(ids_of(active)[m] == rest[m].id);
                assert(ids_of(active)[active.len() - 1] == last.id);
            }
        }
        lemma_no_dup_in_concat(head, tail);
    }
}

/// The branches that go on growing are growing branches that do not
/// retire, each once if each grew once.
pub proof fn lemma_kept_has(graph: Seq<Seq<DotModel>>, active: Seq<BranchInfo>, now: usize)
    ensures
        forall|e: BranchInfo| #[trigger]
            kept_of(graph, active, now).contains(e) <==> active.contains(e) && !retires(
                graph,
                e,
                now,
            ),
        ids_of(active).no_duplicates() ==> ids_of(kept_of(graph, active, now)).no_duplicates(),
    decreases active.len(),
{
    let kept = kept_of(graph, active, now);
    if active.len() > 0 {
        let rest = active.drop_last();
        let last = active.last();
        let head = kept_of(graph, rest, now);
        lemma_kept_has(graph, rest, now);
        assert forall|e: BranchInfo| #[trigger]
            kept.contains(e) <==> active.contains(e) && !retires(graph, e, now) by {
            assert(active =~= rest.push(last));
            vstd::seq_lib::lemma_seq_contains_after_push(rest, last, e);
            vstd::seq_lib::lemma_seq_contains_after_push(head, last, e);
        }
        if ids_of(active).no_duplicates() {
            assert forall|i: int, j: int| 0 <= i < rest.len() && 0 <= j < rest.len() && i
                != j implies ids_of(rest)[i] != ids_of(rest)[j] by {
                assert(ids_of(active)[i] == ids_of(rest)[i]);
                assert(ids_of(active)[j] == ids_of(rest)[j]);
            }
            if !retires(graph, last, now) {
                assert forall|i: int, j: int|
                    0 <= i < kept.len() && 0 <= j < kept.len() && i != j implies ids_of(kept)[i]
                    != ids_of(kept)[j] by {
                    if i < head.len() && j < head.len() {
                        assert(ids_of(head)[i] == ids_of(kept)[i]);
                        assert(ids_of(head)[j] == ids_of(kept)[j]);
                    } else {
                        let m = if i < head.len() {
                            i
                        } else {
                            j
                        };
                        assert(head.contains(head[m]));
                        assert(rest.contains(head[m]));
                        let n = choose|n: int| 0 <= n < rest.len() && rest[n] == head[m];
                        assert(ids_of(active)[n] == head[m].id);
                        assert(ids_of(active)[active.len() - 1] == last.id);
                    }
                }
            }
        }
    } else {
        assert forall|e: BranchInfo| #[trigger]
            kept.contains(e) <==> active.contains(e) && !retires(graph, e, now) by {}
    }
}

/// The growth front of branch `b` is beyond its dot `j`: the branch has been
/// found, it does not wait, and where it grows its dot `j` is to be seen.
pub open spec fn passed(
    s: AnimationModel,
    graph: Seq<Seq<DotModel>>,
    seen: Set<usize>,
    b: int,
    j: int,
) -> bool {
    &&& seen.contains(b as usize)
    &&& !ids_of(s.queue).contains(b as usize)
    &&& forall|i: int|
        0 <= i < s.active.len() && (#[trigger] s.active[i]).id == b ==> revealed(
            s.progress,
            s.active[i].tick_started,
            graph[b].len(),
        ) > j
}

/// No branch is held twice among the growing and the waiting ones; in
/// particular none both grows and waits.
pub open spec fn held_once(s: AnimationModel) -> bool {
    ids_of(s.active + s.queue).no_duplicates()
}

/// The state fits the graph and the set `seen` of branches found so far:
/// no branch is held twice, every branch held has been found, and a branch
/// has been found exactly if the growth front is beyond the dot at which
/// it begins.
pub open spec fn coherent(s: AnimationModel, graph: Seq<Seq<DotModel>>, seen: Set<usize>) -> bool {
    &&& held_once(s)
    &&& forall|i: int| 0 <= i < s.active.len() ==> seen.contains((#[trigger] s.active[i]).id)
    &&& forall|i: int| 0 <= i < s.queue.len() ==> seen.contains((#[trigger] s.queue[i]).id)
    &&& forall|b: int, j: int, c: usize| #[trigger]
        is_link(graph, b, j, c) ==> (seen.contains(c) <==> passed(s, graph, seen, b, j))
}

/// The branches found once a tick is made.
pub open spec fn seen_after(s: AnimationModel, graph: Seq<Seq<DotModel>>, seen: Set<usize>) -> Set<
    usize,
> {
    seen.union(
        found_of(
            graph,
            s.active,
            s.progress,
            (s.progress + s.growth_rate) as usize,
        ).to_set(),
    )
}

/// How the state after a tick is put together.
proof fn lemma_tick_shape(s: AnimationModel, graph: Seq<Seq<DotModel>>)
    ensures
        ({
            let now = (s.progress + s.growth_rate) as usize;
            let kept = kept_of(graph, s.active, now);
            let found = found_of(graph, s.active, s.progress, now);
            let waiting = s.queue + entries_of(found, now);
            let k = promoted(s.cap, kept.len(), waiting.len()) as int;
            let t = tick_model(s, graph);
            &&& 0 <= k <= waiting.len()
            &&& t.progress == now
            &&& t.active.len() == kept.len() + k
            &&& t.queue.len() == waiting.len() - k
            &&& forall|i: int| 0 <= i < kept.len() ==> #[trigger] t.active[i] == kept[i]
            &&& forall|i: int|
                kept.len() <= i < t.active.len() ==> #[trigger] t.active[i] == (BranchInfo {
                    id: waiting[i - kept.len()].id,
                    tick_started: now,
                })
            &&& forall|m: int| 0 <= m < t.queue.len() ==> #[trigger] t.queue[m] == waiting[k + m]
            &&& waiting.len() == s.queue.len() + found.len()
            &&& forall|m: int| 0 <= m < s.queue.len() ==> #[trigger] waiting[m] == s.queue[m]
            &&& forall|m: int|
                s.queue.len() <= m < waiting.len() ==> #[trigger] waiting[m] == (BranchInfo {
                    id: found[m - s.queue.len()],
                    tick_started: now,
                })
        }),
{
}

/// A branch that waits before the promotion grows from now on or waits on.
proof fn lemma_waiting_lands(s: AnimationModel, graph: Seq<Seq<DotModel>>, w: int)
    requires
        0 <= w < s.queue.len() + found_of(
            graph,
            s.active,
            s.progress,
            (s.progress + s.growth_rate) as usize,
        ).len(),
    ensures
        ({
            let now = (s.progress + s.growth_rate) as usize;
            let waiting = s.queue + entries_of(found_of(graph, s.active, s.progress, now), now);
            let t = tick_model(s, graph);
            ids_of(t.queue).contains(waiting[w].id) || exists|i: int|
                0 <= i < t.active.len() && #[trigger] t.active[i] == (BranchInfo {
                    id: waiting[w].id,
                    tick_started: now,
                })
        }),
{
    let now = (s.progress + s.growth_rate) as usize;
    let kept = kept_of(graph, s.active, now);
    let waiting = s.queue + entries_of(found_of(graph, s.active, s.progress, now), now);
    let k = promoted(s.cap, kept.len(), waiting.len()) as int;
    let t = tick_model(s, graph);
    lemma_tick_shape(s, graph);
    if w < k {
        assert(t.active[kept.len() + w] == (BranchInfo { id: waiting[w].id, tick_started: now }));
    } else {
        assert(t.queue[w - k] == waiting[w]);
        assert(ids_of(t.queue)[w - k] == waiting[w].id);
    }
}

/// A branch that a tick finds had not been found before, and begins at a
/// dot of a growing branch that the tick reveals.
proof fn lemma_found_is_new(
    s: AnimationModel,
    graph: Seq<Seq<DotModel>>,
    seen: Set<usize>,
    c: usize,
) -> (at: (int, int))
    requires
        coherent(s, graph, seen),
        s.progress + s.growth_rate <= usize::MAX,
        found_of(graph, s.active, s.progress, (s.progress + s.growth_rate) as usize).contains(c),
    ensures
        !seen.contains(c),
        0 <= at.0 < s.active.len(),
        is_link(graph, s.active[at.0].id as int, at.1, c),
        revealed(
            s.progress,
            s.active[at.0].tick_started,
            graph[s.active[at.0].id as int].len(),
        ) <= at.1 < revealed(
            (s.progress + s.growth_rate) as usize,
            s.active[at.0].tick_started,
            graph[s.active[at.0].id as int].len(),
        ),
{
    let now = (s.progress + s.growth_rate) as usize;
    lemma_found_of_has(graph, s.active, s.progress, now, c);
    let i = choose|i: int|
        0 <= i < s.active.len() && found_by(graph, #[trigger] s.active[i], s.progress, now).contains(
            c,
        );
    let e = s.active[i];
    lemma_found_by_has(graph, e, s.progress, now, c);
    let len = graph[e.id as int].len();
    let j = choose|j: int|
        revealed(s.progress, e.tick_started, len) <= j < revealed(now, e.tick_started, len)
            && #[trigger] is_link(graph, e.id as int, j, c);
    assert(!passed(s, graph, seen, e.id as int, j));
    (i, j)
}

/// After a tick no branch is held twice.
proof fn lemma_tick_held_once(s: AnimationModel, graph: Seq<Seq<DotModel>>, seen: Set<usize>)
    requires
        coherent(s, graph, seen),
        links_once(graph),
        s.progress + s.growth_rate <= usize::MAX,
    ensures
        held_once(tick_model(s, graph)),
{
    let now = (s.progress + s.growth_rate) as usize;
    let kept = kept_of(graph, s.active, now);
    let found = found_of(graph, s.active, s.progress, now);
    let waiting = s.queue + entries_of(found, now);
    let k = promoted(s.cap, kept.len(), waiting.len()) as int;
    let t = tick_model(s, graph);
    let held = ids_of(s.active + s.queue);
    lemma_tick_shape(s, graph);
    assert forall|i: int, j: int|
        0 <= i < s.active.len() && 0 <= j < s.active.len() && i != j implies ids_of(s.active)[i]
        != ids_of(s.active)[j] by {
        assert(held[i] == s.active[i].id && held[j] == s.active[j].id);
    }
    assert forall|i: int, j: int|
        0 <= i < s.queue.len() && 0 <= j < s.queue.len() && i != j implies ids_of(s.queue)[i]
        != ids_of(s.queue)[j] by {
        assert(held[s.active.len() + i] == s.queue[i].id);
        assert(held[s.active.len() + j] == s.queue[j].id);
    }
    lemma_kept_has(graph, s.active, now);
    lemma_found_once(graph, s.active, s.progress, now);
    let tail = ids_of(s.queue) + found;
    assert forall|i: int, j: int| 0 <= i < s.queue.len() && 0 <= j < found.len() implies ids_of(
        s.queue,
    )[i] != found[j] by {
        assert(found.contains(found[j]));
        lemma_found_is_new(s, graph, seen, found[j]);
        assert(seen.contains(s.queue[i].id));
    }
    lemma_no_dup_in_concat(ids_of(s.queue), found);
    assert forall|i: int, j: int| 0 <= i < kept.len() && 0 <= j < tail.len() implies ids_of(
        kept,
    )[i] != tail[j] by {
        assert(kept.contains(kept[i]));
        assert(s.active.contains(kept[i]));
        let n = choose|n: int| 0 <= n < s.active.len() && s.active[n] == kept[i];
        assert(held[n] == kept[i].id);
        assert(seen.contains(s.active[n].id));
        if j < s.queue.len() {
            assert(held[s.active.len() + j] == s.queue[j].id);
        } else {
            let c = found[j - s.queue.len()];
            assert(found.contains(c));
            lemma_found_is_new(s, graph, seen, c);
        }
    }
    lemma_no_dup_in_concat(ids_of(kept), tail);
    assert(ids_of(t.active + t.queue) =~= ids_of(kept) + tail);
}

/// A branch that waits after gathering what a tick found waited before or
/// was found by the tick.
proof fn lemma_waiting_from(s: AnimationModel, graph: Seq<Seq<DotModel>>, w: int)
    requires
        0 <= w < s.queue.len() + found_of(
            graph,
            s.active,
            s.progress,
            (s.progress + s.growth_rate) as usize,
        ).len(),
    ensures
        ({
            let now = (s.progress + s.growth_rate) as usize;
            let found = found_of(graph, s.active, s.progress, now);
            let waiting = s.queue + entries_of(found, now);
            ids_of(s.queue).contains(waiting[w].id) || found.contains(waiting[w].id)
        }),
{
    let now = (s.progress + s.growth_rate) as usize;
    let found = found_of(graph, s.active, s.progress, now);
    lemma_tick_shape(s, graph);
    if w < s.queue.len() {
        assert(ids_of(s.queue)[w] == s.queue[w].id);
    } else {
        assert(found[w - s.queue.len()] == (s.queue + entries_of(found, now))[w].id);
    }
}

/// After a tick, a branch that had been found and did not wait does not
/// wait, and grows only where it grew before.
proof fn lemma_old_branch_stays(
    s: AnimationModel,
    graph: Seq<Seq<DotModel>>,
    seen: Set<usize>,
    b: usize,
)
    requires
        coherent(s, graph, seen),
        s.progress + s.growth_rate <= usize::MAX,
        seen.contains(b),
        !ids_of(s.queue).contains(b),
    ensures
        !ids_of(tick_model(s, graph).queue).contains(b),
        forall|i: int|
            0 <= i < tick_model(s, graph).active.len() && (#[trigger] tick_model(
                s,
                graph,
            ).active[i]).id == b ==> s.active.contains(tick_model(s, graph).active[i]),
{
    let now = (s.progress + s.growth_rate) as usize;
    let kept = kept_of(graph, s.active, now);
    let found = found_of(graph, s.active, s.progress, now);
    let waiting = s.queue + entries_of(found, now);
    let k = promoted(s.cap, kept.len(), waiting.len()) as int;
    let t = tick_model(s, graph);
    lemma_tick_shape(s, graph);
    lemma_kept_has(graph, s.active, now);
    assert forall|w: int| 0 <= w < waiting.len() implies (#[trigger] waiting[w]).id != b by {
        lemma_waiting_from(s, graph, w);
        if found.contains(waiting[w].id) {
            lemma_found_is_new(s, graph, seen, waiting[w].id);
        }
    }
    if ids_of(t.queue).contains(b) {
        let m = choose|m: int| 0 <= m < ids_of(t.queue).len() && ids_of(t.queue)[m] == b;
        assert(t.queue[m] == waiting[k + m]);
    }
    assert forall|i: int| 0 <= i < t.active.len() && (#[trigger] t.active[i]).id
        == b implies s.active.contains(t.active[i]) by {
        if i < kept.len() {
            assert(kept.contains(kept[i]));
        } else {
            assert(waiting[i - kept.len()].id == b);
        }
    }
}

/// After a tick the growth front is beyond every dot at which a branch
/// found so far begins.
proof fn lemma_found_is_passed(
    s: AnimationModel,
    graph: Seq<Seq<DotModel>>,
    seen: Set<usize>,
    b: int,
    j: int,
    c: usize,
)
    requires
        coherent(s, graph, seen),
        links_once(graph),
        graph.len() <= usize::MAX,
        s.progress + s.growth_rate <= usize::MAX,
        is_link(graph, b, j, c),
        seen_after(s, graph, seen).contains(c),
    ensures
        passed(tick_model(s, graph), graph, seen_after(s, graph, seen), b, j),
{
    let now = (s.progress + s.growth_rate) as usize;
    let found = found_of(graph, s.active, s.progress, now);
    let t = tick_model(s, graph);
    let len = graph[b].len();
    lemma_tick_shape(s, graph);
    if seen.contains(c) {
        assert(passed(s, graph, seen, b, j));
        lemma_old_branch_stays(s, graph, seen, b as usize);
        assert forall|i: int| 0 <= i < t.active.len() && (#[trigger] t.active[i]).id
            == b implies revealed(t.progress, t.active[i].tick_started, len) > j by {
            let e = t.active[i];
            let n = choose|n: int| 0 <= n < s.active.len() && s.active[n] == e;
            assert(revealed(s.progress, s.active[n].tick_started, len) > j);
            lemma_revealed_grows(s.progress, now, e.tick_started, len);
        }
    } else {
        assert(found.contains(c));
        let at = lemma_found_is_new(s, graph, seen, c);
        let e = s.active[at.0];
        assert(b == e.id && j == at.1);
        assert(seen.contains(e.id));
        let held = ids_of(s.active + s.queue);
        if ids_of(s.queue).contains(e.id) {
            let m = choose|m: int| 0 <= m < ids_of(s.queue).len() && ids_of(s.queue)[m] == e.id;
            assert(held[at.0] == e.id);
            assert(held[s.active.len() + m] == s.queue[m].id);
        }
        lemma_old_branch_stays(s, graph, seen, e.id);
        assert forall|i: int| 0 <= i < t.active.len() && (#[trigger] t.active[i]).id
            == b implies revealed(t.progress, t.active[i].tick_started, len) > j by {
            let n = choose|n: int| 0 <= n < s.active.len() && s.active[n] == t.active[i];
            assert(held[n] == s.active[n].id);
            assert(held[at.0] == e.id);
            assert(n == at.0);
        }
    }
}

/// After a tick the growth front is not beyond any dot at which a branch
/// begins that has not been found.
proof fn lemma_unfound_is_not_passed(
    s: AnimationModel,
    graph: Seq<Seq<DotModel>>,
    seen: Set<usize>,
    b: int,
    j: int,
    c: usize,
)
    requires
        coherent(s, graph, seen),
        links_once(graph),
        graph.len() <= usize::MAX,
        s.progress + s.growth_rate <= usize::MAX,
        is_link(graph, b, j, c),
        !seen_after(s, graph, seen).contains(c),
    ensures
        !passed(tick_model(s, graph), graph, seen_after(s, graph, seen), b, j),
{
    let now = (s.progress + s.growth_rate) as usize;
    let kept = kept_of(graph, s.active, now);
    let found = found_of(graph, s.active, s.progress, now);
    let waiting = s.queue + entries_of(found, now);
    let t = tick_model(s, graph);
    let len = graph[b].len();
    let id = b as usize;
    lemma_tick_shape(s, graph);
    assert(!seen.contains(c));
    assert(!found.contains(c));
    assert(!passed(s, graph, seen, b, j));
    if ids_of(s.queue).contains(id) || found.contains(id) {
        // the branch waits once the tick has gathered what it found
        let w = if ids_of(s.queue).contains(id) {
            choose|m: int| 0 <= m < ids_of(s.queue).len() && ids_of(s.queue)[m] == id
        } else {
            s.queue.len() + choose|m: int| 0 <= m < found.len() && found[m] == id
        };
        assert(waiting[w].id == id);
        lemma_waiting_lands(s, graph, w);
        if !ids_of(t.queue).contains(id) {
            let i = choose|i: int|
                0 <= i < t.active.len() && #[trigger] t.active[i] == (BranchInfo {
                    id,
                    tick_started: now,
                });
            assert(revealed(t.progress, t.active[i].tick_started, len) == 0);
        }
    } else if seen.contains(id) {
        let i = choose|i: int|
            0 <= i < s.active.len() && (#[trigger] s.active[i]).id == b && !(revealed(
                s.progress,
                s.active[i].tick_started,
                len,
            ) > j);
        let e = s.active[i];
        lemma_found_of_has(graph, s.active, s.progress, now, c);
        lemma_found_by_has(graph, e, s.progress, now, c);
        assert(!found_by(graph, e, s.progress, now).contains(c));
        assert(revealed(now, e.tick_started, len) <= j);
        assert(!retires(graph, e, now));
        lemma_kept_has(graph, s.active, now);
        assert(s.active.contains(e));
        assert(kept.contains(e));
        let n = choose|n: int| 0 <= n < kept.len() && kept[n] == e;
        assert(t.active[n] == e);
    } else {
        assert(!seen_after(s, graph, seen).contains(id));
    }
}

/// A tick keeps the state fitting the graph, with what it found added to
/// the branches found so far.
pub proof fn lemma_tick_coherent(s: AnimationModel, graph: Seq<Seq<DotModel>>, seen: Set<usize>)
    requires
        coherent(s, graph, seen),
        links_once(graph),
        graph.len() <= usize::MAX,
        s.progress + s.growth_rate <= usize::MAX,
    ensures
        coherent(tick_model(s, graph), graph, seen_after(s, graph, seen)),
{
    let now = (s.progress + s.growth_rate) as usize;
    let kept = kept_of(graph, s.active, now);
    let found = found_of(graph, s.active, s.progress, now);
    let waiting = s.queue + entries_of(found, now);
    let t = tick_model(s, graph);
    let seen2 = seen_after(s, graph, seen);
    lemma_tick_shape(s, graph);
    lemma_tick_held_once(s, graph, seen);
    lemma_kept_has(graph, s.active, now);
    assert forall|w: int| 0 <= w < waiting.len() implies seen2.contains(
        (#[trigger] waiting[w]).id,
    ) by {
        lemma_waiting_from(s, graph, w);
        if ids_of(s.queue).contains(waiting[w].id) {
            let m = choose|m: int|
                0 <= m < ids_of(s.queue).len() && ids_of(s.queue)[m] == waiting[w].id;
            assert(seen.contains(s.queue[m].id));
        }
    }
    assert forall|i: int| 0 <= i < t.active.len() implies seen2.contains(
        (#[trigger] t.active[i]).id,
    ) by {
        if i < kept.len() {
            assert(kept.contains(kept[i]));
            let n = choose|n: int| 0 <= n < s.active.len() && s.active[n] == kept[i];
            assert(seen.contains(s.active[n].id));
        } else {
            assert(seen2.contains(waiting[i - kept.len()].id));
        }
    }
    assert forall|i: int| 0 <= i < t.queue.len() implies seen2.contains(
        (#[trigger] t.queue[i]).id,
    ) by {
        assert(seen2.contains(waiting[i + (waiting.len() - t.queue.len())].id));
    }
    assert forall|b: int, j: int, c: usize| #[trigger] is_link(graph, b, j, c) implies (
    seen2.contains(c) <==> passed(t, graph, seen2, b, j)) by {
        if seen2.contains(c) {
            lemma_found_is_passed(s, graph, seen, b, j, c);
        } else {
            lemma_unfound_is_not_passed(s, graph, seen, b, j, c);
        }
    }
}

/// No branch begins the root anew: no link of a well-formed graph leads to
/// the root.
pub proof fn lemma_root_is_no_child(tree: TreeModel, b: int, j: int, c: usize)
    requires
        graph_wf(tree.branches, tree.steps, tree.turns),
        is_link(tree.branches, b, j, c),
    ensures
        b < c < tree.branches.len(),
{
    let dot = tree.branches[b][j];
    assert(dot_ok(dot, b, tree.branches.len(), tree.steps.len() + 1));
    let k = choose|k: int| 0 <= k < dot.links.len() && dot.links[k] == c;
    assert(b < dot.links[k] < tree.branches.len());
}

/// The state before the first tick fits every well-formed graph, with the
/// root as the only branch found.
pub proof fn lemma_initial_coherent(tree: TreeModel, growth_rate: usize, cap: usize)
    requires
        graph_wf(tree.branches, tree.steps, tree.turns),
    ensures
        coherent(initial_model(growth_rate, cap), tree.branches, set![0usize]),
{
    let s = initial_model(growth_rate, cap);
    let seen = set![0usize];
    assert forall|b: int, j: int, c: usize| #[trigger]
        is_link(tree.branches, b, j, c) implies (seen.contains(c) <==> passed(
        s,
        tree.branches,
        seen,
        b,
        j,
    )) by {
        lemma_root_is_no_child(tree, b, j, c);
        if b == 0 {
            if cap > 0 {
                assert(s.active[0].id == 0);
            } else {
                assert(ids_of(s.queue)[0] == 0);
            }
        }
    }
}

/// After any number of ticks from the first state on a well-formed graph,
/// the state fits the graph and the branches found until then.
pub proof fn lemma_run_coherent(tree: TreeModel, growth_rate: usize, cap: usize, n: nat) -> (seen:
    Set<usize>)
    requires
        graph_wf(tree.branches, tree.steps, tree.turns),
        n * growth_rate <= usize::MAX,
    ensures
        coherent(run_model(initial_model(growth_rate, cap), tree.branches, n), tree.branches, seen),
        run_model(initial_model(growth_rate, cap), tree.branches, n).progress == n * growth_rate,
        run_model(initial_model(growth_rate, cap), tree.branches, n).growth_rate == growth_rate,
    decreases n,
{
    if n == 0 {
        lemma_initial_coherent(tree, growth_rate, cap);
        assert(n * growth_rate == 0) by (nonlinear_arith)
            requires
                n == 0,
        ;
        set![0usize]
    } else {
        assert((n - 1) * growth_rate + growth_rate == n * growth_rate) by (nonlinear_arith);
        assert(0 <= (n - 1) * growth_rate) by (nonlinear_arith)
            requires
                n >= 1,
                growth_rate >= 0,
        ;
        let before = lemma_run_coherent(tree, growth_rate, cap, (n - 1) as nat);
        let s = run_model(initial_model(growth_rate, cap), tree.branches, (n - 1) as nat);
        lemma_tick_coherent(s, tree.branches, before);
        seen_after(s, tree.branches, before)
    }
}

/// However many ticks are made on a well-formed graph from the state before
/// the first tick, never more branches grow than the cap allows, no branch
/// is held twice among the growing and the waiting ones, and no branch both
/// grows and waits.
pub proof fn lemma_growth_invariant(tree: TreeModel, growth_rate: usize, cap: usize, n: nat)
    requires
        graph_wf(tree.branches, tree.steps, tree.turns),
        n * growth_rate <= usize::MAX,
    ensures
        within_cap(run_model(initial_model(growth_rate, cap), tree.branches, n)),
        held_once(run_model(initial_model(growth_rate, cap), tree.branches, n)),
        forall|i: int, j: int|
            0 <= i < run_model(initial_model(growth_rate, cap), tree.branches, n).active.len() && 0
                <= j < run_model(initial_model(growth_rate, cap), tree.branches, n).queue.len()
                ==> (#[trigger] run_model(
                initial_model(growth_rate, cap),
                tree.branches,
                n,
            ).active[i]).id != (#[trigger] run_model(
                initial_model(growth_rate, cap),
                tree.branches,
                n,
            ).queue[j]).id,
{
    let s = run_model(initial_model(growth_rate, cap), tree.branches, n);
    lemma_run_within_cap(initial_model(growth_rate, cap), tree.branches, n);
    let seen = lemma_run_coherent(tree, growth_rate, cap, n);
    let held = ids_of(s.active + s.queue);
    assert forall|i: int, j: int| 0 <= i < s.active.len() && 0 <= j < s.queue.len() implies (
    #[trigger] s.active[i]).id != (#[trigger] s.queue[j]).id by {
        assert(held[i] == s.active[i].id);
        assert(held[s.active.len() + j] == s.queue[j].id);
    }
}

} // verus!
