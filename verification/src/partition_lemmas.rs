//! What holds of the searches, of the teams they plan and of the queue that
//! the teams leave behind, proved from the definitions.

use crate::partition::{
    apart, fits, kept_before, leftmost, path_sum, picked, plan, position_count, remaining,
    reserve, reserved_by, resolution, search_from, selection, sound_team, sound_teams, total,
    within, PathResolution,
};
use vstd::prelude::*;

verus! {

/// A size put behind the others adds to their sum.
pub proof fn lemma_total_push(sizes: Seq<nat>, last: nat)
    ensures
        total(sizes.push(last)) == total(sizes) + last,
{
    assert(sizes.push(last).drop_last() == sizes);
}

/// The sum of two runs of sizes is the sum of their sums.
pub proof fn lemma_total_concat(a: Seq<nat>, b: Seq<nat>)
    ensures
        total(a + b) == total(a) + total(b),
    decreases b.len(),
{
    if b.len() == 0 {
        assert(a + b == a);
    } else {
        lemma_total_concat(a, b.drop_last());
        assert((a + b).drop_last() == a + b.drop_last());
    }
}

/// A step put behind a path adds to the path's sum.
pub proof fn lemma_path_sum_push(path: Seq<u32>, last: u32)
    ensures
        path_sum(path.push(last)) == path_sum(path) + last,
{
    let as_nat = |size: u32| size as nat;
    assert(path.push(last).map_values(as_nat) == path.map_values(as_nat).push(last as nat));
    lemma_total_push(path.map_values(as_nat), last as nat);
}

/// A search that succeeds gives a combination that fits.
pub proof fn lemma_search_sound(
    sizes: Seq<nat>,
    reserved: Seq<bool>,
    start: int,
    target: nat,
    so_far: nat,
)
    requires
        reserved.len() == sizes.len(),
        0 <= start,
        search_from(sizes, reserved, start, target, so_far) is Some,
    ensures
        fits(
            sizes,
            reserved,
            start,
            target,
            so_far,
            search_from(sizes, reserved, start, target, so_far)->0,
        ),
    decreases sizes.len() - start,
{
    if start >= sizes.len() {
    } else if reserved[start] {
        lemma_search_sound(sizes, reserved, start + 1, target, so_far);
    } else {
        match resolution(target, so_far + sizes[start]) {
            PathResolution::Nil => {
                lemma_search_sound(sizes, reserved, start + 1, target, so_far);
            },
            PathResolution::Complete => {
                let team = seq![start];
                assert(picked(sizes, team) == Seq::<nat>::empty().push(sizes[start]));
                lemma_total_push(Seq::<nat>::empty(), sizes[start]);
            },
            PathResolution::Incomplete => {
                let deeper = search_from(sizes, reserved, start + 1, target, so_far + sizes[start]);
                match deeper {
                    Some(rest) => {
                        lemma_search_sound(
                            sizes,
                            reserved,
                            start + 1,
                            target,
                            so_far + sizes[start],
                        );
                        let team = seq![start] + rest;
                        let head = Seq::<nat>::empty().push(sizes[start]);
                        assert(picked(sizes, team) == head + picked(sizes, rest));
                        lemma_total_push(Seq::<nat>::empty(), sizes[start]);
                        lemma_total_concat(head, picked(sizes, rest));
                        assert forall|j: int, k: int| 0 <= j < k < team.len() implies team[j]
                            < team[k] by {
                            if j > 0 {
                                assert(team[j] == rest[j - 1] && team[k] == rest[k - 1]);
                            } else {
                                assert(team[k] == rest[k - 1]);
                            }
                        }
                    },
                    None => {
                        lemma_search_sound(sizes, reserved, start + 1, target, so_far);
                    },
                }
            },
        }
    }
}

/// Reserving a team flags its positions and no others.
pub proof fn lemma_reserve(reserved: Seq<bool>, team: Seq<int>)
    requires
        forall|j: int| 0 <= j < team.len() ==> 0 <= #[trigger] team[j] < reserved.len(),
    ensures
        reserve(reserved, team).len() == reserved.len(),
        forall|i: int|
            0 <= i < reserved.len() ==> #[trigger] reserve(reserved, team)[i] == (reserved[i]
                || team.contains(i)),
    decreases team.len(),
{
    if team.len() > 0 {
        let front = team.drop_last();
        lemma_reserve(reserved, front);
        assert forall|i: int| 0 <= i < reserved.len() implies #[trigger] reserve(
            reserved,
            team,
        )[i] == (reserved[i] || team.contains(i)) by {
            if front.contains(i) {
                let j = choose|j: int| 0 <= j < front.len() && front[j] == i;
                assert(team[j] == i);
            }
            if i == team.last() {
                assert(team[team.len() - 1] == i);
            }
            if team.contains(i) && i != team.last() {
                let j = choose|j: int| 0 <= j < team.len() && team[j] == i;
                assert(front[j] == i);
            }
        }
    }
}

/// The flags of `reserved_by` mark the positions that stand in some team, and
/// no others.
pub proof fn lemma_reserved_by(len: nat, teams: Seq<Seq<int>>)
    requires
        within(len, teams),
    ensures
        reserved_by(len, teams).len() == len,
        forall|i: int|
            0 <= i < len ==> #[trigger] reserved_by(len, teams)[i] == (exists|t: int|
                0 <= t < teams.len() && (#[trigger] teams[t]).contains(i)),
    decreases teams.len(),
{
    if teams.len() > 0 {
        let front = teams.drop_last();
        assert forall|t: int, j: int| 0 <= t < front.len() && 0 <= j < front[t].len() implies 0
            <= #[trigger] front[t][j] < len by {
            assert(front[t] == teams[t]);
        }
        lemma_reserved_by(len, front);
        assert forall|j: int| 0 <= j < teams.last().len() implies 0 <= #[trigger] teams.last()[j]
            < len by {
            assert(teams.last()[j] == teams[teams.len() - 1][j]);
        }
        lemma_reserve(reserved_by(len, front), teams.last());
        assert forall|i: int| 0 <= i < len implies #[trigger] reserved_by(len, teams)[i] == (
        exists|t: int| 0 <= t < teams.len() && (#[trigger] teams[t]).contains(i)) by {
            if reserved_by(len, front)[i] {
                let t = choose|t: int| 0 <= t < front.len() && (#[trigger] front[t]).contains(i);
                assert(teams[t].contains(i));
            }
            if teams.last().contains(i) {
                assert(teams[teams.len() - 1].contains(i));
            }
            if exists|t: int| 0 <= t < teams.len() && (#[trigger] teams[t]).contains(i) {
                let t = choose|t: int| 0 <= t < teams.len() && (#[trigger] teams[t]).contains(i);
                if t < front.len() {
                    assert(front[t].contains(i));
                }
            }
        }
    }
}

/// Once the searches fail on a prefix of the sizes asked for, they fail on all
/// of them.
pub proof fn lemma_plan_prefix_none(sizes: Seq<nat>, team_sizes: Seq<u32>, served: int)
    requires
        0 <= served <= team_sizes.len(),
        plan(sizes, team_sizes.take(served)) is None,
    ensures
        plan(sizes, team_sizes) is None,
    decreases team_sizes.len() - served,
{
    if served == team_sizes.len() {
        assert(team_sizes.take(served) == team_sizes);
    } else {
        assert(team_sizes.take(served + 1).drop_last() == team_sizes.take(served));
        lemma_plan_prefix_none(sizes, team_sizes, served + 1);
    }
}

/// Teams that are sound against what the earlier ones reserved lie within the
/// queue and share no position.
pub proof fn lemma_sound_teams_apart(sizes: Seq<nat>, team_sizes: Seq<u32>, teams: Seq<Seq<int>>)
    requires
        sound_teams(sizes, team_sizes, teams),
    ensures
        within(sizes.len(), teams),
        apart(teams),
{
    assert forall|t: int, j: int, u: int, k: int|
        0 <= t < teams.len() && 0 <= j < teams[t].len() && 0 <= u < teams.len() && 0 <= k
            < teams[u].len() && #[trigger] teams[t][j] == #[trigger] teams[u][k] implies t == u
        && j == k by {
        if t < u {
            lemma_earlier_reserved(sizes, team_sizes, teams, t, j, u);
        } else if u < t {
            lemma_earlier_reserved(sizes, team_sizes, teams, u, k, t);
        } else if j < k {
            assert(teams[t][j] < teams[t][k]);
        } else if k < j {
            assert(teams[t][k] < teams[t][j]);
        }
    }
}

/// A position of team `t` is reserved when a later team `u` is searched for.
proof fn lemma_earlier_reserved(
    sizes: Seq<nat>,
    team_sizes: Seq<u32>,
    teams: Seq<Seq<int>>,
    t: int,
    j: int,
    u: int,
)
    requires
        sound_teams(sizes, team_sizes, teams),
        0 <= t < u < teams.len(),
        0 <= j < teams[t].len(),
    ensures
        reserved_by(sizes.len(), teams.take(u))[teams[t][j]],
{
    let earlier = teams.take(u);
    assert forall|a: int, b: int| 0 <= a < earlier.len() && 0 <= b < earlier[a].len() implies 0
        <= #[trigger] earlier[a][b] < sizes.len() by {
        assert(earlier[a] == teams[a]);
        assert(sound_team(
            sizes,
            reserved_by(sizes.len(), teams.take(a)),
            team_sizes[a] as nat,
            teams[a],
        ));
    }
    lemma_reserved_by(sizes.len(), earlier);
    assert(sound_team(
        sizes,
        reserved_by(sizes.len(), teams.take(t)),
        team_sizes[t] as nat,
        teams[t],
    ));
    assert(earlier[t] == teams[t]);
    assert(earlier[t].contains(teams[t][j]));
}

/// The teams of a plan are sound: each adds up to its size, and each was found
/// among what the teams before it had left.
pub proof fn lemma_plan_sound(sizes: Seq<nat>, team_sizes: Seq<u32>)
    requires
        plan(sizes, team_sizes) is Some,
    ensures
        sound_teams(sizes, team_sizes, plan(sizes, team_sizes)->0),
        within(sizes.len(), plan(sizes, team_sizes)->0),
        apart(plan(sizes, team_sizes)->0),
    decreases team_sizes.len(),
{
    let teams = plan(sizes, team_sizes)->0;
    if team_sizes.len() > 0 {
        let front_sizes = team_sizes.drop_last();
        let front = plan(sizes, front_sizes)->0;
        lemma_plan_sound(sizes, front_sizes);
        lemma_reserved_by(sizes.len(), front);
        let reserved = reserved_by(sizes.len(), front);
        lemma_search_sound(sizes, reserved, 0, team_sizes.last() as nat, 0);
        assert(teams.drop_last() == front);
        assert forall|t: int| 0 <= t < teams.len() implies sound_team(
            sizes,
            reserved_by(sizes.len(), teams.take(t)),
            team_sizes[t] as nat,
            #[trigger] teams[t],
        ) by {
            if t < front.len() {
                assert(teams.take(t) == front.take(t));
                assert(teams[t] == front[t]);
                assert(team_sizes[t] == front_sizes[t]);
            } else {
                assert(teams.take(t) == front);
            }
        }
    }
    lemma_sound_teams_apart(sizes, team_sizes, teams);
}

/// The count of unflagged positions below `n` looks at the first `n` flags only.
pub proof fn lemma_kept_agree(a: Seq<bool>, b: Seq<bool>, n: int)
    requires
        forall|i: int| 0 <= i < n ==> a[i] == b[i],
    ensures
        kept_before(a, n) == kept_before(b, n),
    decreases n,
{
    if n > 0 {
        lemma_kept_agree(a, b, n - 1);
    }
}

/// Where no position is flagged, every item remains and every position counts.
pub proof fn lemma_nothing_gone<T>(items: Seq<T>, gone: Seq<bool>, n: int)
    requires
        gone.len() == items.len(),
        forall|i: int| 0 <= i < gone.len() ==> !gone[i],
        0 <= n <= items.len(),
    ensures
        remaining(items, gone) == items,
        kept_before(gone, n) == n,
    decreases items.len(), n,
{
    if items.len() > 0 {
        lemma_nothing_gone(items.drop_last(), gone.drop_last(), 0);
        assert(items.drop_last().push(items.last()) == items);
    }
    if n > 0 {
        lemma_nothing_gone(items, gone, n - 1);
    }
}

/// The count of unflagged positions grows with the bound, by at most one a step.
pub proof fn lemma_kept_grows(gone: Seq<bool>, low: int, high: int)
    requires
        0 <= low <= high,
    ensures
        kept_before(gone, low) <= kept_before(gone, high) <= kept_before(gone, low) + (high
            - low),
    decreases high - low,
{
    if low < high {
        lemma_kept_grows(gone, low, high - 1);
    }
}

/// As many items remain as positions are unflagged.
pub proof fn lemma_remaining_len<T>(items: Seq<T>, gone: Seq<bool>)
    requires
        gone.len() == items.len(),
    ensures
        remaining(items, gone).len() == kept_before(gone, items.len() as int),
    decreases items.len(),
{
    if items.len() > 0 {
        lemma_remaining_len(items.drop_last(), gone.drop_last());
        lemma_kept_agree(gone, gone.drop_last(), items.len() - 1);
    }
}

/// Flagging one more position takes one unflagged position away below every
/// bound above it.
pub proof fn lemma_kept_after_flag(gone: Seq<bool>, idx: int, n: int)
    requires
        0 <= idx < gone.len(),
        !gone[idx],
        0 <= n <= gone.len(),
    ensures
        kept_before(gone.update(idx, true), n) + (if idx < n {
            1nat
        } else {
            0nat
        }) == kept_before(gone, n),
    decreases n,
{
    if n > 0 {
        lemma_kept_after_flag(gone, idx, n - 1);
    }
}

/// Among the items that remain, the item of an unflagged position `idx` stands
/// at the count of unflagged positions below `idx`; flagging `idx` removes just
/// that item.
pub proof fn lemma_remove_one<T>(items: Seq<T>, gone: Seq<bool>, idx: int)
    requires
        gone.len() == items.len(),
        0 <= idx < items.len(),
        !gone[idx],
    ensures
        kept_before(gone, idx) < remaining(items, gone).len(),
        remaining(items, gone)[kept_before(gone, idx) as int] == items[idx],
        remaining(items, gone.update(idx, true)) == remaining(items, gone).remove(
            kept_before(gone, idx) as int,
        ),
    decreases items.len(),
{
    let last = items.len() - 1;
    let front = remaining(items.drop_last(), gone.drop_last());
    let flagged = gone.update(idx, true);
    lemma_remaining_len(items.drop_last(), gone.drop_last());
    lemma_kept_agree(gone, gone.drop_last(), last);
    if idx == last {
        assert(flagged.drop_last() == gone.drop_last());
        assert(front.push(items.last()).remove(front.len() as int) == front);
    } else {
        lemma_remove_one(items.drop_last(), gone.drop_last(), idx);
        lemma_kept_agree(gone, gone.drop_last(), idx);
        assert(flagged.drop_last() == gone.drop_last().update(idx, true));
        let pos = kept_before(gone, idx) as int;
        if !gone.last() {
            assert(front.remove(pos).push(items.last()) == front.push(items.last()).remove(pos));
        }
    }
}

/// Reserving a team whose positions rise and are not flagged yet takes as many
/// unflagged positions away as the team has members.
pub proof fn lemma_reserve_kept(gone: Seq<bool>, team: Seq<int>)
    requires
        forall|j: int|
            0 <= j < team.len() ==> 0 <= #[trigger] team[j] < gone.len() && !gone[team[j]],
        forall|j: int, k: int| 0 <= j < k < team.len() ==> team[j] < team[k],
    ensures
        kept_before(reserve(gone, team), gone.len() as int) + team.len() == kept_before(
            gone,
            gone.len() as int,
        ),
    decreases team.len(),
{
    if team.len() > 0 {
        let front = team.drop_last();
        lemma_reserve_kept(gone, front);
        lemma_reserve(gone, front);
        if front.contains(team.last()) {
            let j = choose|j: int| 0 <= j < front.len() && front[j] == team.last();
            assert(team[j] < team[team.len() - 1]);
        }
        lemma_kept_after_flag(reserve(gone, front), team.last(), gone.len() as int);
    }
}

/// Once sound teams have left a queue of `sizes.len()` lobbies, the lobbies that
/// stay and the positions of the teams make up the queue.
pub proof fn lemma_teams_kept(sizes: Seq<nat>, team_sizes: Seq<u32>, teams: Seq<Seq<int>>)
    requires
        sound_teams(sizes, team_sizes, teams),
    ensures
        kept_before(reserved_by(sizes.len(), teams), sizes.len() as int) + position_count(teams)
            == sizes.len(),
    decreases teams.len(),
{
    let len = sizes.len();
    if teams.len() == 0 {
        lemma_nothing_gone(sizes, reserved_by(len, teams), len as int);
    } else {
        let front = teams.drop_last();
        let front_sizes = team_sizes.drop_last();
        assert forall|t: int| 0 <= t < front.len() implies sound_team(
            sizes,
            reserved_by(len, front.take(t)),
            front_sizes[t] as nat,
            #[trigger] front[t],
        ) by {
            assert(front.take(t) == teams.take(t));
            assert(sound_team(
                sizes,
                reserved_by(len, teams.take(t)),
                team_sizes[t] as nat,
                teams[t],
            ));
        }
        lemma_teams_kept(sizes, front_sizes, front);
        lemma_sound_teams_apart(sizes, front_sizes, front);
        lemma_reserved_by(len, front);
        assert(teams.take(teams.len() - 1) == front);
        assert(sound_team(
            sizes,
            reserved_by(len, teams.take(teams.len() - 1)),
            team_sizes[teams.len() - 1] as nat,
            teams[teams.len() - 1],
        ));
        lemma_reserve_kept(reserved_by(len, front), teams.last());
    }
}

/// Taking one size out of a sequence takes it off the sum.
pub proof fn lemma_total_remove(sizes: Seq<nat>, pos: int)
    requires
        0 <= pos < sizes.len(),
    ensures
        total(sizes.remove(pos)) + sizes[pos] == total(sizes),
    decreases sizes.len(),
{
    if pos == sizes.len() - 1 {
        assert(sizes.remove(pos) == sizes.drop_last());
    } else {
        lemma_total_remove(sizes.drop_last(), pos);
        assert(sizes.remove(pos).drop_last() == sizes.drop_last().remove(pos));
    }
}

/// Reserving a team whose positions rise and are not flagged yet takes the
/// team's players off the players that remain.
pub proof fn lemma_reserve_total(sizes: Seq<nat>, gone: Seq<bool>, team: Seq<int>)
    requires
        gone.len() == sizes.len(),
        forall|j: int|
            0 <= j < team.len() ==> 0 <= #[trigger] team[j] < gone.len() && !gone[team[j]],
        forall|j: int, k: int| 0 <= j < k < team.len() ==> team[j] < team[k],
    ensures
        total(remaining(sizes, reserve(gone, team))) + total(picked(sizes, team)) == total(
            remaining(sizes, gone),
        ),
    decreases team.len(),
{
    if team.len() == 0 {
        assert(picked(sizes, team) == Seq::<nat>::empty());
    } else {
        let front = team.drop_last();
        let flagged = reserve(gone, front);
        lemma_reserve_total(sizes, gone, front);
        lemma_reserve(gone, front);
        if front.contains(team.last()) {
            let j = choose|j: int| 0 <= j < front.len() && front[j] == team.last();
            assert(team[j] < team[team.len() - 1]);
        }
        lemma_remove_one(sizes, flagged, team.last());
        lemma_total_remove(remaining(sizes, flagged), kept_before(flagged, team.last()) as int);
        assert(picked(sizes, team) == picked(sizes, front).push(sizes[team.last()]));
        lemma_total_push(picked(sizes, front), sizes[team.last()]);
    }
}

/// Once sound teams have left, the players that remain and the players asked
/// for make up the players that were queued.
pub proof fn lemma_teams_total(sizes: Seq<nat>, team_sizes: Seq<u32>, teams: Seq<Seq<int>>)
    requires
        sound_teams(sizes, team_sizes, teams),
    ensures
        total(remaining(sizes, reserved_by(sizes.len(), teams))) + path_sum(team_sizes) == total(
            sizes,
        ),
    decreases teams.len(),
{
    let len = sizes.len();
    if teams.len() == 0 {
        lemma_nothing_gone(sizes, reserved_by(len, teams), 0);
        assert(team_sizes.map_values(|size: u32| size as nat) == Seq::<nat>::empty());
    } else {
        let front = teams.drop_last();
        let front_sizes = team_sizes.drop_last();
        assert forall|t: int| 0 <= t < front.len() implies sound_team(
            sizes,
            reserved_by(len, front.take(t)),
            front_sizes[t] as nat,
            #[trigger] front[t],
        ) by {
            assert(front.take(t) == teams.take(t));
            assert(sound_team(
                sizes,
                reserved_by(len, teams.take(t)),
                team_sizes[t] as nat,
                teams[t],
            ));
        }
        lemma_teams_total(sizes, front_sizes, front);
        lemma_sound_teams_apart(sizes, front_sizes, front);
        lemma_reserved_by(len, front);
        assert(teams.take(teams.len() - 1) == front);
        assert(sound_team(
            sizes,
            reserved_by(len, teams.take(teams.len() - 1)),
            team_sizes[teams.len() - 1] as nat,
            teams[teams.len() - 1],
        ));
        lemma_reserve_total(sizes, reserved_by(len, front), teams.last());
        lemma_path_sum_push(front_sizes, team_sizes.last());
        assert(front_sizes.push(team_sizes.last()) == team_sizes);
    }
}

/// A plan never asks for more players than are queued, so the check of the
/// totals ahead of the searches turns no plan away.
pub proof fn lemma_selection_is_plan(sizes: Seq<nat>, team_sizes: Seq<u32>)
    ensures
        selection(sizes, team_sizes) == plan(sizes, team_sizes),
{
    if plan(sizes, team_sizes) is Some {
        lemma_plan_sound(sizes, team_sizes);
        lemma_teams_total(sizes, team_sizes, plan(sizes, team_sizes)->0);
    }
}

/// A search leaves no combination out and returns the leftmost: where some
/// combination fits, the search finds one, and the one it finds comes first in
/// the order of `leftmost`.
pub proof fn lemma_search_leftmost(
    sizes: Seq<nat>,
    reserved: Seq<bool>,
    start: int,
    target: nat,
    so_far: nat,
    team: Seq<int>,
)
    requires
        reserved.len() == sizes.len(),
        0 <= start,
        fits(sizes, reserved, start, target, so_far, team),
    ensures
        search_from(sizes, reserved, start, target, so_far) is Some,
        leftmost(search_from(sizes, reserved, start, target, so_far)->0, team),
    decreases sizes.len() - start,
{
    let first = team[0];
    let rest = team.skip(1);
    let head = Seq::<nat>::empty().push(sizes[first]);
    assert(picked(sizes, team) == head + picked(sizes, rest));
    lemma_total_push(Seq::<nat>::empty(), sizes[first]);
    lemma_total_concat(head, picked(sizes, rest));
    assert forall|j: int| 0 <= j < rest.len() implies first < #[trigger] rest[j] by {
        assert(team[0] < team[j + 1]);
    }
    let found = search_from(sizes, reserved, start, target, so_far);
    if first > start {
        lemma_search_leftmost(sizes, reserved, start + 1, target, so_far, team);
        if found != search_from(sizes, reserved, start + 1, target, so_far) {
            assert(found->0[0] == start);
        }
    } else {
        match resolution(target, so_far + sizes[start]) {
            PathResolution::Nil => {},
            PathResolution::Complete => {
                assert(leftmost(seq![start].skip(1), rest));
            },
            PathResolution::Incomplete => {
                assert(rest.len() >= 1) by {
                    if rest.len() == 0 {
                        assert(picked(sizes, rest) == Seq::<nat>::empty());
                    }
                }
                assert forall|j: int, k: int| 0 <= j < k < rest.len() implies rest[j]
                    < rest[k] by {
                    assert(team[j + 1] < team[k + 1]);
                }
                assert forall|j: int| 0 <= j < rest.len() implies start + 1 <= #[trigger] rest[j]
                    < sizes.len() && !reserved[rest[j]] by {
                    assert(rest[j] == team[j + 1]);
                }
                lemma_search_leftmost(
                    sizes,
                    reserved,
                    start + 1,
                    target,
                    so_far + sizes[start],
                    rest,
                );
                let deeper = search_from(
                    sizes,
                    reserved,
                    start + 1,
                    target,
                    so_far + sizes[start],
                )->0;
                assert((seq![start] + deeper).skip(1) == deeper);
                assert(leftmost((seq![start] + deeper).skip(1), rest));
            },
        }
    }
}

/// Taking the sizes of what remains is the same as keeping the sizes that
/// remain.
pub proof fn lemma_remaining_sizes<T>(items: Seq<T>, gone: Seq<bool>, size: spec_fn(T) -> nat)
    requires
        gone.len() == items.len(),
    ensures
        remaining(items, gone).map_values(size) == remaining(items.map_values(size), gone),
    decreases items.len(),
{
    if items.len() == 0 {
        assert(remaining(items, gone).map_values(size) == Seq::<nat>::empty());
    } else {
        lemma_remaining_sizes(items.drop_last(), gone.drop_last(), size);
        assert(items.map_values(size).drop_last() == items.drop_last().map_values(size));
        let front = remaining(items.drop_last(), gone.drop_last());
        if !gone.last() {
            assert(front.push(items.last()).map_values(size) == front.map_values(size).push(
                size(items.last()),
            ));
        }
    }
}

} // verus!
