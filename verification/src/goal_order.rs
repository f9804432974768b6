//! The order in which goals are turned into activities: every goal after
//! the goals below it.

use crate::budgeting::{is_child, is_first_with_id, position_of_goal};
use crate::goal::Goal;
use vstd::prelude::*;

verus! {

/// No two goals have the same id.
pub open spec fn ids_are_unique(goals: Seq<Goal>) -> bool {
    forall|i: int, j: int| 0 <= i < j < goals.len() ==> (#[trigger] goals[i]).id@ != (
    #[trigger] goals[j]).id@
}

/// Some goal has the id `id`.
pub open spec fn is_goal_id(goals: Seq<Goal>, id: Seq<char>) -> bool {
    exists|c: int| 0 <= c < goals.len() && (#[trigger] goals[c]).id@ == id
}

/// Every id that a goal names as a child is the id of a goal.
pub open spec fn children_exist(goals: Seq<Goal>) -> bool {
    forall|g: int, k: int|
        0 <= g < goals.len() && goals[g].children is Some && 0 <= k < goals[g].children->0@.len()
            ==> is_goal_id(goals, #[trigger] goals[g].children->0@[k]@)
}

/// Every goal of `path` but the first is a child of the one before it.
pub open spec fn is_chain(goals: Seq<Goal>, path: Seq<int>) -> bool {
    &&& path.len() > 0
    &&& 0 <= path[0] < goals.len()
    &&& forall|i: int| 0 <= i < path.len() - 1 ==> #[trigger] is_link(goals, path, i)
}

/// Goal `i + 1` of `path` is a child of goal `i` of `path`.
pub open spec fn is_link(goals: Seq<Goal>, path: Seq<int>, i: int) -> bool {
    is_child(goals, path[i], path[i + 1])
}

/// Goal `x` is listed in `order`.
pub open spec fn is_listed(order: Seq<usize>, x: int) -> bool {
    exists|j: int| 0 <= j < order.len() && #[trigger] order[j] == x
}

/// Goal `x` is listed in `order` before place `i`.
pub open spec fn is_listed_before(order: Seq<usize>, x: int, i: int) -> bool {
    exists|j: int| 0 <= j < i && j < order.len() && #[trigger] order[j] == x
}

/// There is a chain of more goals than there are goals: some goal lies
/// below itself.
pub open spec fn has_cycle(goals: Seq<Goal>) -> bool {
    exists|path: Seq<int>| path.len() == goals.len() + 1 && #[trigger] is_chain(goals, path)
}

/// How many of the first `n` marks are set.
pub open spec fn marks_set(marks: Seq<bool>, n: int) -> int
    decreases n,
{
    if n <= 0 {
        0
    } else {
        marks_set(marks, n - 1) + if marks[n - 1] {
            1int
        } else {
            0int
        }
    }
}

/// `order` lists goals, each once and after the goals below it; `done`
/// marks the goals that are listed.
pub open spec fn is_partial_order(goals: Seq<Goal>, done: Seq<bool>, order: Seq<usize>) -> bool {
    &&& done.len() == goals.len()
    &&& order.len() == marks_set(done, done.len() as int)
    &&& forall|i: int| 0 <= i < order.len() ==> (#[trigger] order[i]) < goals.len()
    &&& forall|i: int, j: int| 0 <= i < j < order.len() ==> order[i] != order[j]
    &&& forall|i: int| 0 <= i < order.len() ==> done[(#[trigger] order[i]) as int]
    &&& forall|x: int| 0 <= x < done.len() && #[trigger] done[x] ==> is_listed(order, x)
    &&& forall|i: int, c: int|
        0 <= i < order.len() && #[trigger] is_child(goals, order[i] as int, c)
            ==> is_listed_before(order, c, i)
}

/// `order` lists every goal once, and every goal after the goals below
/// it.
pub open spec fn is_goal_order(goals: Seq<Goal>, order: Seq<usize>) -> bool {
    &&& order.len() == goals.len()
    &&& forall|i: int| 0 <= i < order.len() ==> (#[trigger] order[i]) < goals.len()
    &&& forall|i: int, j: int| 0 <= i < j < order.len() ==> order[i] != order[j]
    &&& forall|x: int| 0 <= x < goals.len() ==> #[trigger] is_listed(order, x)
    &&& forall|i: int, c: int|
        0 <= i < order.len() && #[trigger] is_child(goals, order[i] as int, c)
            ==> is_listed_before(order, c, i)
}

/// Setting a mark that was not set sets one more.
pub proof fn lemma_marks_set_update(marks: Seq<bool>, x: int, n: int)
    requires
        0 <= x < marks.len(),
        !marks[x],
        n <= marks.len(),
    ensures
        marks_set(marks.update(x, true), n) == marks_set(marks, n) + if x < n {
            1int
        } else {
            0int
        },
    decreases n,
{
    if n > 0 {
        lemma_marks_set_update(marks, x, n - 1);
    }
}

/// Where every mark is set, all of them are counted.
pub proof fn lemma_marks_all_set(marks: Seq<bool>, n: int)
    requires
        0 <= n <= marks.len(),
        forall|x: int| 0 <= x < n ==> marks[x],
    ensures
        marks_set(marks, n) == n,
    decreases n,
{
    if n > 0 {
        lemma_marks_all_set(marks, n - 1);
    }
}

/// The goal at place `i` of the list, which is goal `at` of the chain, has
/// as many goals before it in the list as follow it in the chain.
pub proof fn lemma_chain_ascends(goals: Seq<Goal>, order: Seq<usize>, path: Seq<int>, i: int, at: int)
    requires
        is_goal_order(goals, order),
        is_chain(goals, path),
        0 <= at < path.len(),
        0 <= i < order.len(),
        order[i] == path[at],
    ensures
        path.len() - 1 - at <= i,
    decreases path.len() - at,
{
    if at < path.len() - 1 {
        assert(is_link(goals, path, at));
        assert(is_child(goals, order[i] as int, path[at + 1]));
        assert(is_listed_before(order, path[at + 1], i));
        let j = choose|j: int| 0 <= j < i && j < order.len() && #[trigger] order[j] == path[at + 1];
        lemma_chain_ascends(goals, order, path, j, at + 1);
    }
}

/// Where the goals can be listed each after the goals below it, no goal
/// lies below itself.
pub proof fn lemma_order_excludes_cycle(goals: Seq<Goal>, order: Seq<usize>)
    requires
        is_goal_order(goals, order),
    ensures
        !has_cycle(goals),
{
    if has_cycle(goals) {
        let path = choose|path: Seq<int>|
            path.len() == goals.len() + 1 && #[trigger] is_chain(goals, path);
        assert(is_listed(order, path[0]));
        let i = choose|i: int| 0 <= i < order.len() && #[trigger] order[i] == path[0];
        lemma_chain_ascends(goals, order, path, i, 0);
    }
}

/// Whether no two goals have the same id.
pub fn has_unique_ids(goals: &Vec<Goal>) -> (r: bool)
    ensures
        r == ids_are_unique(goals@),
{
    let mut j: usize = 0;
    while j < goals.len()
        invariant
            j <= goals@.len(),
            forall|a: int, b: int|
                0 <= a < b < j ==> (#[trigger] goals@[a]).id@ != (#[trigger] goals@[b]).id@,
        decreases goals@.len() - j,
    {
        let mut i: usize = 0;
        while i < j
            invariant
                i <= j,
                j < goals@.len(),
                forall|a: int| 0 <= a < i ==> (#[trigger] goals@[a]).id@ != goals@[j as int].id@,
            decreases j - i,
        {
            if goals[i].id == goals[j].id {
                return false;
            }
            i += 1;
        }
        j += 1;
    }
    true
}

/// Whether every id that a goal names as a child is the id of a goal.
pub fn has_all_children(goals: &Vec<Goal>) -> (r: bool)
    ensures
        r == children_exist(goals@),
{
    let mut g: usize = 0;
    while g < goals.len()
        invariant
            g <= goals@.len(),
            forall|a: int, k: int|
                0 <= a < g && goals@[a].children is Some && 0 <= k < goals@[a].children->0@.len()
                    ==> is_goal_id(goals@, #[trigger] goals@[a].children->0@[k]@),
        decreases goals@.len() - g,
    {
        match &goals[g].children {
            None => {},
            Some(ids) => {
                let mut k: usize = 0;
                while k < ids.len()
                    invariant
                        k <= ids@.len(),
                        g < goals@.len(),
                        goals@[g as int].children == Some(*ids),
                        forall|i: int| 0 <= i < k ==> is_goal_id(goals@, #[trigger] ids@[i]@),
                    decreases ids@.len() - k,
                {
                    match position_of_goal(goals, &ids[k]) {
                        Some(c) => {
                            assert(goals@[c as int].id@ == ids@[k as int]@);
                        },
                        None => {
                            assert(!is_goal_id(goals@, ids@[k as int]@));
                            assert(goals@[g as int].children->0@[k as int]@ == ids@[k as int]@);
                            return false;
                        },
                    }
                    k += 1;
                }
            },
        }
        g += 1;
    }
    true
}

/// The list goes on with goal `g`, where every goal below `g` is listed
/// and `g` is not.
#[verifier::spinoff_prover]
proof fn lemma_list_push(goals: Seq<Goal>, done: Seq<bool>, order: Seq<usize>, g: usize)
    requires
        is_partial_order(goals, done, order),
        g < goals.len(),
        !done[g as int],
        forall|c: int| is_child(goals, g as int, c) ==> #[trigger] done[c],
    ensures
        is_partial_order(goals, done.update(g as int, true), order.push(g)),
{
    let after_done = done.update(g as int, true);
    let after = order.push(g);
    lemma_marks_set_update(done, g as int, done.len() as int);
    assert forall|i: int, j: int| 0 <= i < j < after.len() implies after[i] != after[j] by {
        if j == order.len() {
            assert(done[order[i] as int]);
        }
    }
    assert forall|x: int| 0 <= x < after_done.len() && #[trigger] after_done[x] implies is_listed(
        after,
        x,
    ) by {
        if x == g {
            assert(after[order.len() as int] == x);
        } else {
            assert(done[x]);
            assert(is_listed(order, x));
            let i = choose|i: int| 0 <= i < order.len() && #[trigger] order[i] == x;
            assert(after[i] == x);
        }
    }
    assert forall|i: int, c: int|
        0 <= i < after.len() && #[trigger] is_child(goals, after[i] as int, c) implies is_listed_before(
        after,
        c,
        i,
    ) by {
        if i < order.len() {
            assert(is_child(goals, order[i] as int, c));
            assert(is_listed_before(order, c, i));
            let j = choose|j: int| 0 <= j < i && j < order.len() && #[trigger] order[j] == c;
            assert(after[j] == c);
        } else {
            assert(done[c]);
            assert(is_listed(order, c));
            let j = choose|j: int| 0 <= j < order.len() && #[trigger] order[j] == c;
            assert(after[j] == c);
        }
    }
}

/// Every goal of a chain is one of the goals.
proof fn lemma_chain_in_range(goals: Seq<Goal>, path: Seq<int>, i: int)
    requires
        is_chain(goals, path),
        0 <= i < path.len(),
    ensures
        0 <= path[i] < goals.len(),
{
    if i > 0 {
        assert(is_link(goals, path, i - 1));
    }
}

/// A chain goes on with a child of its last goal.
proof fn lemma_chain_push(goals: Seq<Goal>, path: Seq<int>, c: int)
    requires
        is_chain(goals, path),
        is_child(goals, path.last(), c),
    ensures
        is_chain(goals, path.push(c)),
{
    let longer = path.push(c);
    assert forall|i: int| 0 <= i < longer.len() - 1 implies #[trigger] is_link(goals, longer, i) by {
        if i < path.len() - 1 {
            assert(is_link(goals, path, i));
        }
    }
}

/// The name at place `w` of `ids`, the children that a goal names, means
/// goal `c`, and the goals that the names before it mean are listed.
pub open spec fn is_turn_of_child(
    goals: Seq<Goal>,
    listed: Seq<usize>,
    ids: Seq<String>,
    w: int,
    c: int,
) -> bool {
    &&& 0 <= w < ids.len()
    &&& is_first_with_id(goals, ids[w]@, c)
    &&& forall|v: int, d: int|
        #![trigger is_first_with_id(goals, ids[v]@, d)]
        0 <= v < w && is_first_with_id(goals, ids[v]@, d) ==> is_listed(listed, d)
}

/// Goal `c` is a child of goal `g`, and the children that `g` names
/// before it are listed.
pub open spec fn is_next_child(goals: Seq<Goal>, listed: Seq<usize>, g: int, c: int) -> bool {
    &&& 0 <= g < goals.len()
    &&& goals[g].children matches Some(ids) && exists|w: int|
        is_turn_of_child(goals, listed, ids@, w, c)
}

/// Goal `i + 1` of `path` is a child of goal `i` of `path`, and the
/// children that goal `i` names before it are listed.
pub open spec fn is_step_down(goals: Seq<Goal>, listed: Seq<usize>, path: Seq<int>, i: int) -> bool {
    is_next_child(goals, listed, path[i], path[i + 1])
}

/// `path` is a way down from the first goal on: every goal before its
/// first goal is listed, and every goal on it but the first is a child of
/// the one before it, before which the children named earlier are listed.
pub open spec fn is_way_down(goals: Seq<Goal>, listed: Seq<usize>, path: Seq<int>) -> bool {
    &&& path.len() > 0
    &&& 0 <= path[0]
    &&& forall|x: int| 0 <= x < path[0] ==> #[trigger] is_listed(listed, x)
    &&& forall|i: int| 0 <= i < path.len() - 1 ==> #[trigger] is_step_down(goals, listed, path, i)
}

/// Goal `g` is the goal to list next, after the goals `listed`. It is
/// found on the way down from the first goal that is not listed, at every
/// goal to the first child that is not listed, where that way ends: at a
/// goal whose children are all listed.
pub open spec fn is_due(goals: Seq<Goal>, listed: Seq<usize>, g: int) -> bool {
    exists|path: Seq<int>|
        {
            &&& #[trigger] is_way_down(goals, listed, path)
            &&& path.last() == g
            &&& forall|i: int| 0 <= i < path.len() ==> !is_listed(listed, #[trigger] path[i])
            &&& forall|c: int| #[trigger] is_child(goals, g, c) ==> is_listed(listed, c)
        }
}

/// Every goal of `order` is listed when it is due: the goals are listed
/// as they are left on a walk through all goals from the first on, that
/// goes down to the children of a goal in the order in which the goal
/// names them before it leaves the goal.
pub open spec fn is_post_order(goals: Seq<Goal>, order: Seq<usize>) -> bool {
    forall|p: int|
        #![trigger order[p]]
        0 <= p < order.len() ==> is_due(goals, order.take(p), order[p] as int)
}

/// What is listed stays listed when the list grows.
pub proof fn lemma_listed_grows(short: Seq<usize>, long: Seq<usize>, x: int)
    requires
        short.len() <= long.len(),
        long.take(short.len() as int) == short,
        is_listed(short, x),
    ensures
        is_listed(long, x),
{
    let j = choose|j: int| 0 <= j < short.len() && #[trigger] short[j] == x;
    assert(long.take(short.len() as int)[j] == long[j]);
}

/// A way down stays one when the list grows.
pub proof fn lemma_way_down_grows(
    goals: Seq<Goal>,
    short: Seq<usize>,
    long: Seq<usize>,
    path: Seq<int>,
)
    requires
        short.len() <= long.len(),
        long.take(short.len() as int) == short,
        is_way_down(goals, short, path),
    ensures
        is_way_down(goals, long, path),
{
    assert forall|x: int| 0 <= x < path[0] implies #[trigger] is_listed(long, x) by {
        assert(is_listed(short, x));
        lemma_listed_grows(short, long, x);
    }
    assert forall|i: int| 0 <= i < path.len() - 1 implies #[trigger] is_step_down(
        goals,
        long,
        path,
        i,
    ) by {
        assert(is_step_down(goals, short, path, i));
        let ids = goals[path[i]].children->0@;
        let c = path[i + 1];
        let w = choose|w: int| is_turn_of_child(goals, short, ids, w, c);
        assert forall|v: int, d: int|
            #![trigger is_first_with_id(goals, ids[v]@, d)]
            0 <= v < w && is_first_with_id(goals, ids[v]@, d) implies is_listed(long, d) by {
            assert(is_listed(short, d));
            lemma_listed_grows(short, long, d);
        }
        assert(is_turn_of_child(goals, long, ids, w, c));
    }
}

/// A way down goes on with the child of its last goal whose turn it is.
pub proof fn lemma_way_down_push(
    goals: Seq<Goal>,
    listed: Seq<usize>,
    path: Seq<int>,
    ids: Seq<String>,
    w: int,
    c: int,
)
    requires
        is_way_down(goals, listed, path),
        0 <= path.last() < goals.len(),
        goals[path.last()].children matches Some(named) && named@ == ids,
        is_turn_of_child(goals, listed, ids, w, c),
    ensures
        is_way_down(goals, listed, path.push(c)),
{
    let longer = path.push(c);
    assert forall|i: int| 0 <= i < longer.len() - 1 implies #[trigger] is_step_down(
        goals,
        listed,
        longer,
        i,
    ) by {
        if i < path.len() - 1 {
            assert(is_step_down(goals, listed, path, i));
        }
    }
}

/// The list goes on in order with the goal that is due.
pub proof fn lemma_post_order_push(goals: Seq<Goal>, order: Seq<usize>, g: usize)
    requires
        is_post_order(goals, order),
        is_due(goals, order, g as int),
    ensures
        is_post_order(goals, order.push(g)),
{
    let after = order.push(g);
    assert forall|p: int| #![trigger after[p]] 0 <= p < after.len() implies is_due(
        goals,
        after.take(p),
        after[p] as int,
    ) by {
        if p < order.len() {
            assert(after.take(p) =~= order.take(p));
            assert(is_due(goals, order.take(p), order[p] as int));
        } else {
            assert(after.take(p) =~= order);
        }
    }
}

/// What listing the goals below goal `g` leaves in place, with `path` the
/// way down to `g`: the list is in order and has grown at its end, what
/// was marked is marked, and the goals on the way are marked as they were.
pub open spec fn listing_goes_on(
    goals: Seq<Goal>,
    path: Seq<int>,
    done0: Seq<bool>,
    order0: Seq<usize>,
    done: Seq<bool>,
    order: Seq<usize>,
    upto: int,
) -> bool {
    &&& is_partial_order(goals, done, order)
    &&& order0.len() <= order.len()
    &&& order.take(order0.len() as int) == order0
    &&& forall|x: int| 0 <= x < goals.len() && done0[x] ==> #[trigger] done[x]
    &&& forall|i: int|
        0 <= i < upto && 0 <= path[i] < goals.len() ==> done[#[trigger] path[i]] == done0[path[i]]
}

/// Listing goes on over two steps, the second with the way down grown by
/// one goal.
#[verifier::spinoff_prover]
proof fn lemma_listing_step(
    goals: Seq<Goal>,
    path: Seq<int>,
    c: int,
    done0: Seq<bool>,
    order0: Seq<usize>,
    done1: Seq<bool>,
    order1: Seq<usize>,
    done2: Seq<bool>,
    order2: Seq<usize>,
)
    requires
        listing_goes_on(goals, path, done0, order0, done1, order1, path.len() as int),
        listing_goes_on(goals, path.push(c), done1, order1, done2, order2, path.len() as int),
    ensures
        listing_goes_on(goals, path, done0, order0, done2, order2, path.len() as int),
{
    let longer = path.push(c);
    assert forall|i: int| 0 <= i < path.len() && 0 <= path[i] < goals.len() implies done2[#[trigger] path[i]]
        == done0[path[i]] by {
        assert(longer[i] == path[i]);
        assert(done2[longer[i]] == done1[longer[i]]);
    }
    assert(order2.take(order0.len() as int) =~= order1.take(order0.len() as int));
    assert forall|x: int| 0 <= x < goals.len() && done0[x] implies #[trigger] done2[x] by {
        assert(done1[x]);
    }
}

/// Lists goal `g` after the goals below it that are not listed yet.
/// Gives up where the way down from the first goal has become longer than
/// there are goals.
#[verifier::spinoff_prover]
#[verifier::rlimit(50)]
fn list_goal(
    goals: &Vec<Goal>,
    g: usize,
    done: &mut Vec<bool>,
    order: &mut Vec<usize>,
    fuel: usize,
    Ghost(path): Ghost<Seq<int>>,
) -> (ok: bool)
    requires
        fuel + path.len() == goals@.len() + 1,
        g < goals@.len(),
        children_exist(goals@),
        is_partial_order(goals@, old(done)@, old(order)@),
        is_chain(goals@, path),
        path.last() == g,
        forall|i: int| 0 <= i < path.len() - 1 ==> !old(done)@[#[trigger] path[i]],
        is_way_down(goals@, old(order)@, path),
        is_post_order(goals@, old(order)@),
    ensures
        is_post_order(goals@, final(order)@),
        listing_goes_on(
            goals@,
            path,
            old(done)@,
            old(order)@,
            final(done)@,
            final(order)@,
            path.len() - 1,
        ),
        ok ==> final(done)@[g as int],
        !ok ==> has_cycle(goals@),
    decreases fuel,
{
    proof {
        assert(order@.take(order@.len() as int) =~= order@);
    }
    if done[g] {
        return true;
    }
    if fuel == 0 {
        return false;
    }
    match &goals[g].children {
        None => {},
        Some(ids) => {
            let mut k: usize = 0;
            while k < ids.len()
                invariant
                    k <= ids@.len(),
                    g < goals@.len(),
                    goals@[g as int].children == Some(*ids),
                    children_exist(goals@),
                    is_chain(goals@, path),
                    forall|i: int| 0 <= i < path.len() - 1 ==> !old(done)@[#[trigger] path[i]],
                    !old(done)@[g as int],
                    fuel > 0,
                    fuel + path.len() == goals@.len() + 1,
                    path.last() == g,
                    listing_goes_on(
                        goals@,
                        path,
                        old(done)@,
                        old(order)@,
                        done@,
                        order@,
                        path.len() as int,
                    ),
                    forall|i: int, c: int|
                        0 <= i < k && is_first_with_id(goals@, #[trigger] ids@[i]@, c) ==> #[trigger] done@[c],
                    is_way_down(goals@, order@, path),
                    is_post_order(goals@, order@),
                decreases ids@.len() - k,
            {
                let ghost before_done = done@;
                let ghost before_order = order@;
                match position_of_goal(goals, &ids[k]) {
                    None => {
                        proof {
                            assert(is_goal_id(goals@, goals@[g as int].children->0@[k as int]@));
                            assert(false);
                        }
                    },
                    Some(c) => {
                        proof {
                            assert(is_first_with_id(goals@, ids@[k as int]@, c as int));
                            assert(goals@[g as int].children matches Some(named) && named@ == ids@);
                            assert(is_child(goals@, g as int, c as int));
                            lemma_chain_push(goals@, path, c as int);
                            let longer = path.push(c as int);
                            assert forall|i: int| 0 <= i < longer.len() - 1 implies !done@[#[trigger] longer[i]] by {
                                assert(longer[i] == path[i]);
                                lemma_chain_in_range(goals@, path, i);
                                assert(done@[path[i]] == old(done)@[path[i]]);
                            }
                            assert forall|v: int, d: int|
                                #![trigger is_first_with_id(goals@, ids@[v]@, d)]
                                0 <= v < k && is_first_with_id(goals@, ids@[v]@, d) implies is_listed(
                                order@,
                                d,
                            ) by {
                                assert(done@[d]);
                            }
                            assert(is_turn_of_child(goals@, order@, ids@, k as int, c as int));
                            lemma_way_down_push(goals@, order@, path, ids@, k as int, c as int);
                        }
                        let ok = list_goal(
                            goals,
                            c,
                            done,
                            order,
                            fuel - 1,
                            Ghost(path.push(c as int)),
                        );
                        proof {
                            lemma_listing_step(
                                goals@,
                                path,
                                c as int,
                                old(done)@,
                                old(order)@,
                                before_done,
                                before_order,
                                done@,
                                order@,
                            );
                            lemma_way_down_grows(goals@, before_order, order@, path);
                        }
                        if !ok {
                            return false;
                        }
                        proof {
                            assert forall|i: int, other: int|
                                0 <= i < k + 1 && is_first_with_id(
                                    goals@,
                                    #[trigger] ids@[i]@,
                                    other,
                                ) implies #[trigger] done@[other] by {
                                if i < k {
                                    assert(before_done[other]);
                                }
                            }
                        }
                    },
                }
                k += 1;
            }
        },
    }
    let ghost before_done = done@;
    let ghost before_order = order@;
    proof {
        assert(path[path.len() - 1] == g);
        assert(!before_done[g as int]);
        assert forall|c: int| is_child(goals@, g as int, c) implies #[trigger] before_done[c] by {
            let ids = goals@[g as int].children->0;
            let w = choose|w: int|
                0 <= w < ids@.len() && is_first_with_id(goals@, #[trigger] ids@[w]@, c);
            assert(is_first_with_id(goals@, ids@[w]@, c));
        }
        lemma_list_push(goals@, before_done, before_order, g);
        assert forall|i: int| 0 <= i < path.len() implies !is_listed(
            before_order,
            #[trigger] path[i],
        ) by {
            lemma_chain_in_range(goals@, path, i);
            assert(!before_done[path[i]]);
            if is_listed(before_order, path[i]) {
                let j = choose|j: int| 0 <= j < before_order.len() && #[trigger] before_order[j]
                    == path[i];
                assert(before_done[before_order[j] as int]);
            }
        }
        assert forall|c: int| #[trigger] is_child(goals@, g as int, c) implies is_listed(
            before_order,
            c,
        ) by {
            assert(before_done[c]);
        }
        assert(is_way_down(goals@, before_order, path));
        assert(is_due(goals@, before_order, g as int));
        lemma_post_order_push(goals@, before_order, g);
    }
    done[g] = true;
    order.push(g);
    proof {
        assert(done@ =~= before_done.update(g as int, true));
        assert(order@.take(old(order)@.len() as int) =~= before_order.take(
            old(order)@.len() as int,
        ));
        assert forall|i: int|
            0 <= i < path.len() - 1 && 0 <= path[i] < goals@.len() implies done@[#[trigger] path[i]]
            == old(done)@[path[i]] by {
            assert(before_done[path[i]] == old(done)@[path[i]]);
            if path[i] == g {
                // a goal that lies below itself can never be listed: the next
                // goal on the way is one of its children, and was not marked
                assert(is_link(goals@, path, i));
                let next = path[i + 1];
                assert(is_child(goals@, g as int, next));
                assert(before_done[next]);
                lemma_chain_in_range(goals@, path, i + 1);
                assert(before_done[path[i + 1]] == old(done)@[path[i + 1]]);
                assert(false);
            }
        }
    }
    true
}

/// The goals in the order in which they are turned into activities:
/// every goal once, and after the goals below it. `None` where some goal
/// lies below itself.
pub fn goal_order(goals: &Vec<Goal>) -> (r: Option<Vec<usize>>)
    requires
        children_exist(goals@),
    ensures
        r is None <==> has_cycle(goals@),
        r matches Some(order) ==> is_goal_order(goals@, order@) && is_post_order(goals@, order@),
{
    let n: usize = goals.len();
    let mut done: Vec<bool> = Vec::new();
    let mut i: usize = 0;
    while i < n
        invariant
            i <= n,
            done@.len() == i,
            forall|x: int| 0 <= x < i ==> !#[trigger] done@[x],
            marks_set(done@, i as int) == 0,
        decreases n - i,
    {
        let ghost before = done@;
        done.push(false);
        proof {
            lemma_marks_same_prefix(before, done@, i as int);
        }
        i += 1;
    }
    let mut order: Vec<usize> = Vec::new();
    let mut g: usize = 0;
    while g < n
        invariant
            g <= n,
            n == goals@.len(),
            children_exist(goals@),
            is_partial_order(goals@, done@, order@),
            is_post_order(goals@, order@),
            forall|x: int| 0 <= x < g ==> #[trigger] done@[x],
        decreases n - g,
    {
        let ghost path = seq![g as int];
        let ghost before = done@;
        proof {
            assert forall|x: int| 0 <= x < path[0] implies #[trigger] is_listed(order@, x) by {
                assert(done@[x]);
            }
            assert(is_way_down(goals@, order@, path));
        }
        if !list_goal(goals, g, &mut done, &mut order, n, Ghost(path)) {
            return None;
        }
        proof {
            assert forall|x: int| 0 <= x < g + 1 implies #[trigger] done@[x] by {
                if x < g {
                    assert(before[x]);
                }
            }
        }
        g += 1;
    }
    proof {
        lemma_marks_all_set(done@, n as int);
        assert forall|x: int| 0 <= x < goals@.len() implies #[trigger] is_listed(order@, x) by {
            assert(done@[x]);
        }
        assert(is_goal_order(goals@, order@));
        lemma_order_excludes_cycle(goals@, order@);
    }
    Some(order)
}

/// How many of the first marks are set does not depend on the marks after
/// them.
pub proof fn lemma_marks_same_prefix(short: Seq<bool>, long: Seq<bool>, n: int)
    requires
        n <= short.len() <= long.len(),
        forall|x: int| 0 <= x < short.len() ==> long[x] == short[x],
    ensures
        marks_set(long, n) == marks_set(short, n),
    decreases n,
{
    if n > 0 {
        lemma_marks_same_prefix(short, long, n - 1);
    }
}

/// Two ways down on which no goal is listed go the same way as far as
/// both go.
pub proof fn lemma_ways_agree(
    goals: Seq<Goal>,
    listed: Seq<usize>,
    one: Seq<int>,
    other: Seq<int>,
    i: int,
)
    requires
        is_way_down(goals, listed, one),
        is_way_down(goals, listed, other),
        forall|j: int| 0 <= j < one.len() ==> !is_listed(listed, #[trigger] one[j]),
        forall|j: int| 0 <= j < other.len() ==> !is_listed(listed, #[trigger] other[j]),
        0 <= i < one.len(),
        i < other.len(),
    ensures
        one[i] == other[i],
    decreases i,
{
    if i == 0 {
        assert(!is_listed(listed, one[0]));
        assert(!is_listed(listed, other[0]));
    } else {
        lemma_ways_agree(goals, listed, one, other, i - 1);
        let g = one[i - 1];
        let c = one[i];
        let d = other[i];
        assert(is_step_down(goals, listed, one, i - 1));
        assert(is_step_down(goals, listed, other, i - 1));
        let ids = goals[g].children->0@;
        let w = choose|w: int| is_turn_of_child(goals, listed, ids, w, c);
        let v = choose|v: int| is_turn_of_child(goals, listed, ids, v, d);
        assert(!is_listed(listed, c));
        assert(!is_listed(listed, d));
        if w < v {
            assert(is_first_with_id(goals, ids[w]@, c));
        }
        if v < w {
            assert(is_first_with_id(goals, ids[v]@, d));
        }
    }
}

/// One goal is due, or none.
pub proof fn lemma_due_is_unique(goals: Seq<Goal>, listed: Seq<usize>, g: int, h: int)
    requires
        is_due(goals, listed, g),
        is_due(goals, listed, h),
    ensures
        g == h,
{
    let one = choose|path: Seq<int>|
        {
            &&& #[trigger] is_way_down(goals, listed, path)
            &&& path.last() == g
            &&& forall|i: int| 0 <= i < path.len() ==> !is_listed(listed, #[trigger] path[i])
            &&& forall|c: int| #[trigger] is_child(goals, g, c) ==> is_listed(listed, c)
        };
    let other = choose|path: Seq<int>|
        {
            &&& #[trigger] is_way_down(goals, listed, path)
            &&& path.last() == h
            &&& forall|i: int| 0 <= i < path.len() ==> !is_listed(listed, #[trigger] path[i])
            &&& forall|c: int| #[trigger] is_child(goals, h, c) ==> is_listed(listed, c)
        };
    if one.len() < other.len() {
        let last = one.len() - 1;
        lemma_ways_agree(goals, listed, one, other, last);
        lemma_step_is_child(goals, listed, other, last);
        assert(!is_listed(listed, other[last + 1]));
    } else if other.len() < one.len() {
        let last = other.len() - 1;
        lemma_ways_agree(goals, listed, one, other, last);
        lemma_step_is_child(goals, listed, one, last);
        assert(!is_listed(listed, one[last + 1]));
    } else {
        lemma_ways_agree(goals, listed, one, other, one.len() - 1);
    }
}

/// A step down goes to a child.
pub proof fn lemma_step_is_child(goals: Seq<Goal>, listed: Seq<usize>, path: Seq<int>, i: int)
    requires
        is_step_down(goals, listed, path, i),
    ensures
        is_child(goals, path[i], path[i + 1]),
{
    let ids = goals[path[i]].children->0@;
    let c = path[i + 1];
    let w = choose|w: int| is_turn_of_child(goals, listed, ids, w, c);
    assert(is_first_with_id(goals, ids[w]@, c));
}

/// Two lists of as many goals, each goal listed when it is due, are the
/// same up to every place.
pub proof fn lemma_orders_agree(goals: Seq<Goal>, one: Seq<usize>, other: Seq<usize>, p: int)
    requires
        is_post_order(goals, one),
        is_post_order(goals, other),
        0 <= p <= one.len(),
        p <= other.len(),
    ensures
        one.take(p) == other.take(p),
    decreases p,
{
    if p > 0 {
        lemma_orders_agree(goals, one, other, p - 1);
        let q = p - 1;
        assert(is_due(goals, one.take(q), one[q] as int));
        assert(is_due(goals, other.take(q), other[q] as int));
        lemma_due_is_unique(goals, one.take(q), one[q] as int, other[q] as int);
        assert(one.take(p) =~= one.take(q).push(one[q]));
        assert(other.take(p) =~= other.take(q).push(other[q]));
    } else {
        assert(one.take(0) =~= other.take(0));
    }
}

/// There is one order in which the goals are turned into activities.
pub proof fn lemma_goal_order_is_unique(goals: Seq<Goal>, one: Seq<usize>, other: Seq<usize>)
    requires
        is_goal_order(goals, one),
        is_post_order(goals, one),
        is_goal_order(goals, other),
        is_post_order(goals, other),
    ensures
        one == other,
{
    lemma_orders_agree(goals, one, other, one.len() as int);
    assert(one.take(one.len() as int) =~= one);
    assert(other.take(other.len() as int) =~= other);
}

} // verus!
