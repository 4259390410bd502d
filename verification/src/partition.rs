//! The mathematics of the exact-partition search: what the depth-first search
//! finds, which teams a run of searches plans, and what a queue looks like once
//! the planned lobbies have left it.

use crate::partition_lemmas::lemma_path_sum_push;
use vstd::prelude::*;

verus! {

/// How a path of sizes stands against the size asked for.
#[derive(Debug, Copy, Clone, PartialEq, Eq, Structural)]
pub enum PathResolution {
    /// The sizes add up to exactly the size asked for.
    Complete,
    /// The sizes add up to less.
    Incomplete,
    /// The sizes add up to more.
    Nil,
}

/// The sum of `sizes`.
pub open spec fn total(sizes: Seq<nat>) -> nat
    decreases sizes.len(),
{
    if sizes.len() == 0 {
        0
    } else {
        total(sizes.drop_last()) + sizes.last()
    }
}

/// The sum of a path of machine numbers.
pub open spec fn path_sum(path: Seq<u32>) -> nat {
    total(path.map_values(|size: u32| size as nat))
}

/// Over, exact or under: `sum` against `target`.
pub open spec fn resolution(target: nat, sum: nat) -> PathResolution {
    if sum > target {
        PathResolution::Nil
    } else if sum < target {
        PathResolution::Incomplete
    } else {
        PathResolution::Complete
    }
}

/// What the depth-first search finds from position `start` on, when the path so
/// far adds up to `so_far`: positions are tried in rising order and reserved ones
/// skipped; a position that overshoots is passed over, one that hits `target`
/// ends the search, and one that stays under is taken on trial, the search going
/// on behind it and coming back to the next position if that fails.
pub open spec fn search_from(
    sizes: Seq<nat>,
    reserved: Seq<bool>,
    start: int,
    target: nat,
    so_far: nat,
) -> Option<Seq<int>>
    decreases sizes.len() - start,
{
    if start < 0 || start >= sizes.len() {
        None
    } else if reserved[start] {
        search_from(sizes, reserved, start + 1, target, so_far)
    } else {
        match resolution(target, so_far + sizes[start]) {
            PathResolution::Nil => search_from(sizes, reserved, start + 1, target, so_far),
            PathResolution::Complete => Some(seq![start]),
            PathResolution::Incomplete => match search_from(
                sizes,
                reserved,
                start + 1,
                target,
                so_far + sizes[start],
            ) {
                Some(rest) => Some(seq![start] + rest),
                None => search_from(sizes, reserved, start + 1, target, so_far),
            },
        }
    }
}

/// The search for one team of size `target` over the whole queue.
pub open spec fn search(sizes: Seq<nat>, reserved: Seq<bool>, target: nat) -> Option<Seq<int>> {
    search_from(sizes, reserved, 0, target, 0)
}

/// The flags once the positions of `team` are reserved too.
pub open spec fn reserve(reserved: Seq<bool>, team: Seq<int>) -> Seq<bool>
    decreases team.len(),
{
    if team.len() == 0 {
        reserved
    } else {
        reserve(reserved, team.drop_last()).update(team.last(), true)
    }
}

/// The flags of a queue of `len` lobbies in which exactly the positions of
/// `teams` are reserved.
pub open spec fn reserved_by(len: nat, teams: Seq<Seq<int>>) -> Seq<bool>
    decreases teams.len(),
{
    if teams.len() == 0 {
        Seq::new(len, |i: int| false)
    } else {
        reserve(reserved_by(len, teams.drop_last()), teams.last())
    }
}

/// The teams that the searches find when the sizes asked for are served one
/// after the other, each search skipping what the earlier ones took; `None` as
/// soon as one search fails.
pub open spec fn plan(sizes: Seq<nat>, team_sizes: Seq<u32>) -> Option<Seq<Seq<int>>>
    decreases team_sizes.len(),
{
    if team_sizes.len() == 0 {
        Some(Seq::empty())
    } else {
        match plan(sizes, team_sizes.drop_last()) {
            None => None,
            Some(teams) => match search(
                sizes,
                reserved_by(sizes.len(), teams),
                team_sizes.last() as nat,
            ) {
                None => None,
                Some(team) => Some(teams.push(team)),
            },
        }
    }
}

/// The teams that a queue of lobbies of these sizes gives for `team_sizes`:
/// none when it holds fewer players than are asked for, else what the searches
/// plan.
pub open spec fn selection(sizes: Seq<nat>, team_sizes: Seq<u32>) -> Option<Seq<Seq<int>>> {
    if total(sizes) < path_sum(team_sizes) {
        None
    } else {
        plan(sizes, team_sizes)
    }
}

/// The number of positions below `n` that are not flagged.
pub open spec fn kept_before(gone: Seq<bool>, n: int) -> nat
    decreases n,
{
    if n <= 0 {
        0
    } else {
        kept_before(gone, n - 1) + if gone[n - 1] {
            0nat
        } else {
            1nat
        }
    }
}

/// The items that are not flagged, in their order.
pub open spec fn remaining<T>(items: Seq<T>, gone: Seq<bool>) -> Seq<T>
    decreases items.len(),
{
    if items.len() == 0 {
        Seq::empty()
    } else {
        let front = remaining(items.drop_last(), gone.drop_last());
        if gone.last() {
            front
        } else {
            front.push(items.last())
        }
    }
}

/// The items at the positions of `team`, in the team's order.
pub open spec fn picked<T>(items: Seq<T>, team: Seq<int>) -> Seq<T> {
    team.map_values(|i: int| items[i])
}

/// A combination that a search from `start` on may return: positions from
/// `start` on that rise, are not reserved, and whose sizes add up to what is
/// still missing.
pub open spec fn fits(
    sizes: Seq<nat>,
    reserved: Seq<bool>,
    start: int,
    target: nat,
    so_far: nat,
    team: Seq<int>,
) -> bool {
    &&& team.len() >= 1
    &&& forall|j: int|
        0 <= j < team.len() ==> start <= #[trigger] team[j] < sizes.len() && !reserved[team[j]]
    &&& forall|j: int, k: int| 0 <= j < k < team.len() ==> team[j] < team[k]
    &&& so_far + total(picked(sizes, team)) == target
}

/// `found` comes no later than `other` when combinations are read position by
/// position from the head: at the first position where they differ `found`
/// holds the smaller one, or `found` ends where `other` goes on.
pub open spec fn leftmost(found: Seq<int>, other: Seq<int>) -> bool
    decreases found.len(),
{
    found.len() == 0 || (other.len() > 0 && (found[0] < other[0] || (found[0] == other[0]
        && leftmost(found.skip(1), other.skip(1)))))
}

/// What holds of a team that a search over the whole queue found: it fits the
/// size asked for, counted from the head of the queue and from nothing.
pub open spec fn sound_team(
    sizes: Seq<nat>,
    reserved: Seq<bool>,
    target: nat,
    team: Seq<int>,
) -> bool {
    fits(sizes, reserved, 0, target, 0, team)
}

/// Every team is sound for its size against what the teams before it reserved.
pub open spec fn sound_teams(sizes: Seq<nat>, team_sizes: Seq<u32>, teams: Seq<Seq<int>>) -> bool {
    &&& teams.len() == team_sizes.len()
    &&& forall|t: int|
        0 <= t < teams.len() ==> sound_team(
            sizes,
            reserved_by(sizes.len(), teams.take(t)),
            team_sizes[t] as nat,
            #[trigger] teams[t],
        )
}

/// No position stands twice in `teams`, neither in one team nor in two.
pub open spec fn apart(teams: Seq<Seq<int>>) -> bool {
    forall|t: int, j: int, u: int, k: int|
        0 <= t < teams.len() && 0 <= j < teams[t].len() && 0 <= u < teams.len() && 0 <= k
            < teams[u].len() && #[trigger] teams[t][j] == #[trigger] teams[u][k] ==> t == u && j
            == k
}

/// The number of positions in all of `teams`.
pub open spec fn position_count(teams: Seq<Seq<int>>) -> nat
    decreases teams.len(),
{
    if teams.len() == 0 {
        0
    } else {
        position_count(teams.drop_last()) + teams.last().len()
    }
}

/// The positions of all teams lie below `len`.
pub open spec fn within(len: nat, teams: Seq<Seq<int>>) -> bool {
    forall|t: int, j: int|
        0 <= t < teams.len() && 0 <= j < teams[t].len() ==> 0 <= #[trigger] teams[t][j] < len
}

/// Classifies a path that is not empty by its sum.
pub fn resolved_path(tree_nesting: u32, path: &[u32]) -> (resolution: PathResolution)
    requires
        path@.len() > 0,
    ensures
        resolution == self::resolution(tree_nesting as nat, path_sum(path@)),
{
    let mut sum: u128 = 0;
    let mut i: usize = 0;
    while i < path.len()
        invariant
            i <= path@.len(),
            sum == path_sum(path@.take(i as int)),
            sum <= i * 0xffff_ffff,
        decreases path@.len() - i,
    {
        proof {
            lemma_path_sum_push(path@.take(i as int), path@[i as int]);
            assert(path@.take(i + 1) == path@.take(i as int).push(path@[i as int]));
        }
        sum = sum + path[i] as u128;
        i = i + 1;
    }
    assert(path@.take(path@.len() as int) == path@);
    if sum > tree_nesting as u128 {
        PathResolution::Nil
    } else if sum < tree_nesting as u128 {
        PathResolution::Incomplete
    } else {
        PathResolution::Complete
    }
}

} // verus!
