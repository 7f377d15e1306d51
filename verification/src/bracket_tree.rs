//! The bracket tree of a match: the first set holds one bracket per team,
//! each later set pairs the brackets of the set before, and the last set
//! holds the final alone.

use vstd::prelude::*;
use crate::model::{Bracket, BracketView};
use crate::store::{first_with_id, is_first_with_id, stored_at};
use crate::text::{bracket_id, bracket_id_text, lemma_bracket_id_injective};

verus! {

/// The views of a sequence of brackets.
pub open spec fn bracket_views(s: Seq<Bracket>) -> Seq<BracketView> {
    s.map_values(|b: Bracket| b@)
}

/// The number of brackets in set `k` of the tree for `n` teams: `n` in the
/// first set, then half the set before, rounded up.
pub open spec fn set_size(n: nat, k: nat) -> nat
    decreases k,
{
    if k == 0 {
        n
    } else {
        (set_size(n, (k - 1) as nat) + 1) / 2
    }
}

/// How many sets follow a set of `s >= 1` brackets, up to and including the
/// first set of a single bracket.
pub open spec fn later_sets(s: nat) -> nat
    decreases s,
{
    if s <= 2 {
        1
    } else {
        1 + later_sets((s + 1) / 2)
    }
}

/// Whether bracket `j` of set `k >= 1` pairs two brackets of the set before
/// (otherwise it passes a single bracket on).
pub open spec fn is_pairing(n: nat, k: nat, j: nat) -> bool {
    k > 0 && 2 * j + 1 < set_size(n, (k - 1) as nat)
}

/// The generated winner of bracket `j` of set `k`: the team itself in the
/// first set, undecided (-1) for a pairing, and the winner carried over for a
/// bracket that passes a single bracket on.
pub open spec fn planned_winner(n: nat, k: nat, j: nat) -> int
    decreases k,
{
    if k == 0 {
        j as int
    } else if is_pairing(n, k, j) {
        -1
    } else {
        planned_winner(n, (k - 1) as nat, 2 * j)
    }
}

/// Bracket `j` of set `k` as generated for `n` teams of match `m`.
pub open spec fn planned_bracket(n: nat, k: nat, j: nat, m: Seq<char>) -> BracketView {
    BracketView {
        id: bracket_id_text(k, j, m),
        team1: if k == 0 { j as int } else { 2 * j as int },
        team2: if is_pairing(n, k, j) { 2 * j as int + 1 } else { -1 },
        winner: planned_winner(n, k, j),
        match_id: m,
    }
}

/// Set `k` as generated, in index order.
pub open spec fn planned_set(n: nat, k: nat, m: Seq<char>) -> Seq<BracketView> {
    Seq::new(set_size(n, k), |j: int| planned_bracket(n, k, j as nat, m))
}

/// The first `count` sets, one after the other.
pub open spec fn planned_sets(n: nat, m: Seq<char>, count: nat) -> Seq<BracketView>
    decreases count,
{
    if count == 0 {
        Seq::empty()
    } else {
        planned_sets(n, m, (count - 1) as nat) + planned_set(n, (count - 1) as nat, m)
    }
}

/// Every bracket of the tree for `n >= 1` teams of match `m`, set by set.
pub open spec fn base_brackets(n: nat, m: Seq<char>) -> Seq<BracketView> {
    planned_sets(n, m, later_sets(n) + 1)
}

/// No set of the tree is larger than the first.
pub proof fn lemma_set_size_at_most(n: nat, k: nat)
    ensures
        set_size(n, k) <= n,
    decreases k,
{
    if k > 0 {
        lemma_set_size_at_most(n, (k - 1) as nat);
    }
}

/// Every set of the tree for at least one team holds a bracket.
pub proof fn lemma_set_size_positive(n: nat, k: nat)
    requires
        n >= 1,
    ensures
        set_size(n, k) >= 1,
    decreases k,
{
    if k > 0 {
        lemma_set_size_positive(n, (k - 1) as nat);
    }
}

/// A first set of `s >= 1` brackets is followed by between one and `s` sets.
pub proof fn lemma_later_sets_bound(s: nat)
    requires
        s >= 1,
    ensures
        1 <= later_sets(s) <= s,
    decreases s,
{
    if s > 2 {
        lemma_later_sets_bound((s + 1) / 2);
    }
}

/// The brackets of the tree for `team_count` teams of match `match_id`, set by
/// set. The first set has one bracket per team, holding that team as its
/// winner; each later set pairs the brackets of the set before two by two, a
/// last odd bracket passing its winner on alone; the last set is the first one
/// with a single bracket. Each id is `"<set>:<index>:<match_id>"`.
pub fn generate_base_brackets(team_count: u8, match_id: String) -> (brackets: Vec<Bracket>)
    requires
        team_count >= 1,
    ensures
        bracket_views(brackets@) == base_brackets(team_count as nat, match_id@),
{
    let ghost n = team_count as nat;
    let ghost m = match_id@;
    let mut brackets: Vec<Bracket> = Vec::new();
    let mut prev_winners: Vec<i32> = Vec::new();
    let mut i: u8 = 0;
    while i < team_count
        invariant
            n == team_count as nat,
            m == match_id@,
            i <= team_count,
            bracket_views(brackets@) == planned_set(n, 0, m).take(i as int),
            prev_winners@ == Seq::new(i as nat, |x: int| planned_winner(n, 0, x as nat) as i32),
        decreases team_count - i,
    {
        let b = Bracket {
            _id: bracket_id(0, i as u64, match_id.as_str()),
            team1: i as i32,
            team2: -1,
            winner: i as i32,
            match_id: match_id.clone(),
        };
        brackets.push(b);
        prev_winners.push(i as i32);
        proof {
            assert(planned_set(n, 0, m).take(i + 1) =~= planned_set(n, 0, m).take(i as int).push(
                planned_bracket(n, 0, i as nat, m),
            ));
            assert(bracket_views(brackets@) =~= bracket_views(brackets@).drop_last().push(b@));
            assert(bracket_views(brackets@).drop_last() =~= bracket_views(brackets@.drop_last()));
            assert(prev_winners@ =~= Seq::new((i + 1) as nat, |x: int| planned_winner(n, 0, x as nat) as i32));
        }
        i = i + 1;
    }
    proof {
        assert(planned_set(n, 0, m).take(i as int) =~= planned_set(n, 0, m));
        assert(planned_sets(n, m, 0) =~= Seq::<BracketView>::empty());
        assert(planned_sets(n, m, 1) =~= planned_set(n, 0, m));
        lemma_later_sets_bound(n);
    }
    let mut set: u64 = 1;
    let mut prev_len: usize = team_count as usize;
    loop
        invariant
            n == team_count as nat,
            m == match_id@,
            n >= 1,
            1 <= set <= later_sets(n),
            later_sets(n) <= 255,
            1 <= prev_len <= 255,
            prev_len == set_size(n, (set - 1) as nat),
            prev_winners@.len() == prev_len,
            forall|x: int| 0 <= x < prev_len ==> #[trigger] prev_winners@[x] as int == planned_winner(n, (set - 1) as nat, x as nat),
            later_sets(n) == (set - 1) + later_sets(prev_len as nat),
            bracket_views(brackets@) == planned_sets(n, m, set as nat),
        decreases prev_len,
    {
        let ghost k = set as nat;
        let ghost before = bracket_views(brackets@);
        let count = (prev_len + 1) / 2;
        let mut cur_winners: Vec<i32> = Vec::new();
        let mut j: usize = 0;
        while j < count
            invariant
                n == team_count as nat,
                m == match_id@,
                k == set as nat,
                1 <= set <= later_sets(n),
                later_sets(n) <= 255,
                1 <= prev_len <= 255,
                prev_len == set_size(n, (k - 1) as nat),
                count == set_size(n, k),
                prev_winners@.len() == prev_len,
                forall|x: int| 0 <= x < prev_len ==> #[trigger] prev_winners@[x] as int == planned_winner(n, (k - 1) as nat, x as nat),
                j <= count,
                bracket_views(brackets@) == before + planned_set(n, k, m).take(j as int),
                cur_winners@.len() == j,
                forall|x: int| 0 <= x < j ==> #[trigger] cur_winners@[x] as int == planned_winner(n, k, x as nat),
            decreases count - j,
        {
            let pair = j * 2;
            let b = if pair + 1 > prev_len - 1 {
                Bracket {
                    _id: bracket_id(set, j as u64, match_id.as_str()),
                    team1: pair as i32,
                    team2: -1,
                    winner: prev_winners[pair],
                    match_id: match_id.clone(),
                }
            } else {
                Bracket {
                    _id: bracket_id(set, j as u64, match_id.as_str()),
                    team1: pair as i32,
                    team2: (pair + 1) as i32,
                    winner: -1,
                    match_id: match_id.clone(),
                }
            };
            let w = b.winner;
            let ghost old_views = bracket_views(brackets@);
            brackets.push(b);
            cur_winners.push(w);
            proof {
                assert(b@ == planned_bracket(n, k, j as nat, m));
                assert(planned_set(n, k, m).take(j + 1) =~= planned_set(n, k, m).take(j as int).push(
                    planned_bracket(n, k, j as nat, m),
                ));
                assert(bracket_views(brackets@) =~= old_views.push(b@));
                assert(old_views.push(b@) =~= before + planned_set(n, k, m).take(j + 1));
            }
            j = j + 1;
        }
        proof {
            assert(planned_set(n, k, m).take(count as int) =~= planned_set(n, k, m));
            assert(planned_sets(n, m, k + 1) == planned_sets(n, m, k) + planned_set(n, k, m));
        }
        if count == 1 {
            proof {
                assert(prev_len <= 2);
                assert(later_sets(prev_len as nat) == 1);
            }
            return brackets;
        }
        proof {
            assert(prev_len > 2);
            assert(later_sets(prev_len as nat) == 1 + later_sets(count as nat));
            lemma_later_sets_bound(count as nat);
        }
        prev_winners = cur_winners;
        prev_len = count;
        set = set + 1;
    }
}

proof fn lemma_last_set_from(n: nat, k0: nat)
    requires
        set_size(n, k0) >= 1,
    ensures
        set_size(n, k0 + later_sets(set_size(n, k0))) == 1,
        forall|d: nat| 1 <= d < later_sets(set_size(n, k0)) ==> #[trigger] set_size(n, k0 + d) >= 2,
    decreases set_size(n, k0),
{
    let s = set_size(n, k0);
    assert(set_size(n, k0 + 1) == (s + 1) / 2);
    if s > 2 {
        lemma_last_set_from(n, k0 + 1);
        assert forall|d: nat| 1 <= d < later_sets(s) implies #[trigger] set_size(n, k0 + d) >= 2 by {
            if d > 1 {
                let d1 = (d - 1) as nat;
                assert(k0 + d == (k0 + 1) + d1);
                assert(set_size(n, (k0 + 1) + d1) >= 2);
            }
        }
        assert(k0 + later_sets(s) == (k0 + 1) + later_sets((s + 1) / 2));
    }
}

/// The last set of the tree holds the final alone, and it is the first set
/// after the first one to hold a single bracket.
pub proof fn lemma_final_set(n: nat)
    requires
        n >= 1,
    ensures
        set_size(n, later_sets(n)) == 1,
        forall|k: nat| 1 <= k < later_sets(n) ==> #[trigger] set_size(n, k) >= 2,
{
    lemma_last_set_from(n, 0);
    assert forall|k: nat| 1 <= k < later_sets(n) implies #[trigger] set_size(n, k) >= 2 by {
        assert(set_size(n, 0 + k) >= 2);
    }
    assert(0 + later_sets(n) == later_sets(n));
}

/// Each bracket of a set feeds exactly one bracket of the next set: bracket
/// `i` of set `k - 1` is a side of bracket `i / 2` of set `k`, and of no other.
pub proof fn lemma_each_bracket_feeds_one(n: nat, k: nat, i: nat, j: nat, m: Seq<char>)
    requires
        k >= 1,
        i < set_size(n, (k - 1) as nat),
    ensures
        i / 2 < set_size(n, k),
        planned_bracket(n, k, i / 2, m).team1 == i || planned_bracket(n, k, i / 2, m).team2 == i,
        (planned_bracket(n, k, j, m).team1 == i || planned_bracket(n, k, j, m).team2 == i) ==> j == i / 2,
{
}

/// Every generated winner is undecided (-1) or one of the `n` teams.
pub proof fn lemma_winner_is_a_team(n: nat, k: nat, j: nat)
    requires
        j < set_size(n, k),
    ensures
        planned_winner(n, k, j) == -1 || 0 <= planned_winner(n, k, j) < n,
    decreases k,
{
    if k > 0 && !is_pairing(n, k, j) {
        lemma_winner_is_a_team(n, (k - 1) as nat, 2 * j);
    }
}

proof fn lemma_first_in_concat(a: Seq<BracketView>, b: Seq<BracketView>, id: Seq<char>)
    ensures
        first_with_id(a + b, id) == match first_with_id(a, id) {
            Some(i) => Some(i),
            None => match first_with_id(b, id) {
                Some(i) => Some(i + a.len()),
                None => None::<int>,
            },
        },
{
    let ab = a + b;
    match first_with_id(a, id) {
        Some(i) => {
            let c = choose|c: int| is_first_with_id(a, id, c);
            assert(is_first_with_id(a, id, c));
            assert(is_first_with_id(ab, id, c)) by {
                assert forall|j: int| 0 <= j < c implies #[trigger] ab[j].id != id by {
                    assert(ab[j] == a[j]);
                }
            }
            let c2 = choose|c2: int| is_first_with_id(ab, id, c2);
            crate::store::lemma_first_unique(ab, id, c, c2);
        },
        None => {
            assert forall|j: int| 0 <= j < a.len() implies #[trigger] a[j].id != id by {
                if a[j].id == id {
                    // the smallest such index would be a first one
                    lemma_some_first(a, id, j);
                }
            }
            match first_with_id(b, id) {
                Some(i) => {
                    let c = choose|c: int| is_first_with_id(b, id, c);
                    assert(is_first_with_id(ab, id, c + a.len())) by {
                        assert forall|j: int| 0 <= j < c + a.len() implies #[trigger] ab[j].id != id by {
                            if j < a.len() {
                                assert(ab[j] == a[j]);
                            } else {
                                assert(ab[j] == b[j - a.len()]);
                            }
                        }
                    }
                    let c2 = choose|c2: int| is_first_with_id(ab, id, c2);
                    crate::store::lemma_first_unique(ab, id, c + a.len(), c2);
                },
                None => {
                    assert forall|j: int| 0 <= j < b.len() implies #[trigger] b[j].id != id by {
                        if b[j].id == id {
                            lemma_some_first(b, id, j);
                        }
                    }
                    assert forall|c: int| !is_first_with_id(ab, id, c) by {
                        if 0 <= c < ab.len() {
                            if c < a.len() {
                                assert(ab[c] == a[c]);
                            } else {
                                assert(ab[c] == b[c - a.len()]);
                            }
                        }
                    }
                },
            }
        },
    }
}

/// An index holding `id` means some first index holds it.
proof fn lemma_some_first(s: Seq<BracketView>, id: Seq<char>, j: int)
    requires
        0 <= j < s.len(),
        s[j].id == id,
    ensures
        first_with_id(s, id) is Some,
    decreases j,
{
    if exists|i: int| 0 <= i < j && s[i].id == id {
        let i = choose|i: int| 0 <= i < j && s[i].id == id;
        lemma_some_first(s, id, i);
    } else {
        assert(is_first_with_id(s, id, j));
    }
}

proof fn lemma_first_in_planned_set(n: nat, k: nat, m: Seq<char>, set: nat, index: nat)
    ensures
        first_with_id(planned_set(n, k, m), bracket_id_text(set, index, m))
            == if set == k && index < set_size(n, k) { Some(index as int) } else { None::<int> },
{
    let ps = planned_set(n, k, m);
    let id = bracket_id_text(set, index, m);
    assert forall|j: int| 0 <= j < ps.len() && #[trigger] ps[j].id == id implies j == index && set == k by {
        lemma_bracket_id_injective(k, j as nat, m, set, index, m);
    }
    if set == k && index < set_size(n, k) {
        assert(is_first_with_id(ps, id, index as int));
        let c = choose|c: int| is_first_with_id(ps, id, c);
        crate::store::lemma_first_unique(ps, id, index as int, c);
    } else {
        assert forall|c: int| !is_first_with_id(ps, id, c) by {
            if 0 <= c < ps.len() && ps[c].id == id {
                assert(c == index && set == k);
            }
        }
    }
}

proof fn lemma_lookup_planned_sets(n: nat, m: Seq<char>, count: nat, set: u32, index: u32)
    ensures
        stored_at(planned_sets(n, m, count), set, index, m)
            == if set < count && index < set_size(n, set as nat) { Some(planned_bracket(n, set as nat, index as nat, m)) } else { None::<BracketView> },
    decreases count,
{
    let id = bracket_id_text(set as nat, index as nat, m);
    if count == 0 {
        assert forall|c: int| !is_first_with_id(planned_sets(n, m, 0), id, c) by {}
    } else {
        let c1 = (count - 1) as nat;
        let left = planned_sets(n, m, c1);
        let right = planned_set(n, c1, m);
        lemma_lookup_planned_sets(n, m, c1, set, index);
        lemma_first_in_concat(left, right, id);
        lemma_first_in_planned_set(n, c1, m, set as nat, index as nat);
        if set < c1 && index < set_size(n, set as nat) {
            let i = first_with_id(left, id).unwrap();
            assert((left + right)[i] == left[i]);
        } else {
            assert(first_with_id(left, id) is None);
            if set == c1 && index < set_size(n, set as nat) {
                assert((left + right)[index + left.len()] == right[index as int]);
            }
        }
    }
}

/// Looking a bracket up by its position in a freshly generated tree finds
/// the bracket generated there, and nothing outside the tree.
pub proof fn lemma_generated_lookup(n: nat, m: Seq<char>, set: u32, index: u32)
    requires
        n >= 1,
    ensures
        stored_at(base_brackets(n, m), set, index, m)
            == if set <= later_sets(n) && index < set_size(n, set as nat) {
                Some(planned_bracket(n, set as nat, index as nat, m))
            } else {
                None::<BracketView>
            },
{
    lemma_lookup_planned_sets(n, m, later_sets(n) + 1, set, index);
}

/// How many brackets the first `count` sets hold.
pub open spec fn sets_len(n: nat, count: nat) -> nat
    decreases count,
{
    if count == 0 {
        0
    } else {
        sets_len(n, (count - 1) as nat) + set_size(n, (count - 1) as nat)
    }
}

/// The set and index of the bracket at `i` among the first `count` sets.
pub open spec fn tree_position(n: nat, count: nat, i: int) -> (nat, nat)
    decreases count,
{
    if count == 0 {
        (0, 0)
    } else if i < sets_len(n, (count - 1) as nat) {
        tree_position(n, (count - 1) as nat, i)
    } else {
        ((count - 1) as nat, (i - sets_len(n, (count - 1) as nat)) as nat)
    }
}

/// The number of brackets of the whole tree.
pub open spec fn tree_len(n: nat) -> nat {
    sets_len(n, later_sets(n) + 1)
}

/// The set and index of the bracket at `i` of the whole tree.
pub open spec fn position_in_tree(n: nat, i: int) -> (nat, nat) {
    tree_position(n, later_sets(n) + 1, i)
}

/// The bracket at `i` of the first `count` sets is the one generated at its
/// position, which lies within those sets.
proof fn lemma_planned_sets_at(n: nat, m: Seq<char>, count: nat, i: int)
    requires
        0 <= i < sets_len(n, count),
    ensures
        planned_sets(n, m, count).len() == sets_len(n, count),
        tree_position(n, count, i).0 < count,
        tree_position(n, count, i).1 < set_size(n, tree_position(n, count, i).0),
        planned_sets(n, m, count)[i] == planned_bracket(n, tree_position(n, count, i).0, tree_position(n, count, i).1, m),
    decreases count,
{
    lemma_planned_sets_len(n, m, count);
    let c1 = (count - 1) as nat;
    let before = sets_len(n, c1);
    lemma_planned_sets_len(n, m, c1);
    if i < before {
        lemma_planned_sets_at(n, m, c1, i);
        assert(planned_sets(n, m, count)[i] == planned_sets(n, m, c1)[i]);
    } else {
        assert(planned_sets(n, m, count)[i] == planned_set(n, c1, m)[i - before]);
    }
}

proof fn lemma_planned_sets_len(n: nat, m: Seq<char>, count: nat)
    ensures
        planned_sets(n, m, count).len() == sets_len(n, count),
    decreases count,
{
    if count > 0 {
        lemma_planned_sets_len(n, m, (count - 1) as nat);
    }
}

/// The last bracket of the first `count >= 1` sets is the last of set `count - 1`.
proof fn lemma_last_position(n: nat, count: nat)
    requires
        n >= 1,
        count >= 1,
    ensures
        sets_len(n, count) >= 1,
        tree_position(n, count, sets_len(n, count) - 1) == ((count - 1) as nat, (set_size(n, (count - 1) as nat) - 1) as nat),
{
    lemma_set_size_positive(n, (count - 1) as nat);
}

/// Consecutive brackets of the first `count` sets stand at consecutive
/// positions: the next index of a set, or the first bracket of the next set.
proof fn lemma_position_successor(n: nat, count: nat, i: int)
    requires
        n >= 1,
        0 <= i,
        i + 1 < sets_len(n, count),
    ensures
        ({
            let (k, j) = tree_position(n, count, i);
            tree_position(n, count, i + 1) == if j + 1 < set_size(n, k) { (k, j + 1) } else { (k + 1, 0nat) }
        }),
    decreases count,
{
    let c1 = (count - 1) as nat;
    let before = sets_len(n, c1);
    lemma_set_size_positive(n, c1);
    if i + 1 < before {
        lemma_position_successor(n, c1, i);
    } else if i + 1 == before {
        lemma_last_position(n, c1);
        assert(tree_position(n, count, i) == tree_position(n, c1, i));
    }
}

/// Looking a bracket up by its id in a freshly generated tree finds the
/// bracket that has that id, and nothing when no bracket has it.
pub proof fn lemma_generated_lookup_by_id(n: nat, m: Seq<char>, set: u32, index: u32)
    requires
        n >= 1,
    ensures
        forall|i: int| 0 <= i < base_brackets(n, m).len() && #[trigger] base_brackets(n, m)[i].id == bracket_id_text(set as nat, index as nat, m)
            ==> stored_at(base_brackets(n, m), set, index, m) == Some(base_brackets(n, m)[i]),
        (forall|i: int| 0 <= i < base_brackets(n, m).len() ==> #[trigger] base_brackets(n, m)[i].id != bracket_id_text(set as nat, index as nat, m))
            ==> stored_at(base_brackets(n, m), set, index, m) is None,
{
    let g = base_brackets(n, m);
    let c = later_sets(n) + 1;
    let id = bracket_id_text(set as nat, index as nat, m);
    lemma_generated_lookup(n, m, set, index);
    lemma_planned_sets_len(n, m, c);
    assert forall|i: int| 0 <= i < g.len() && #[trigger] g[i].id == id implies stored_at(g, set, index, m) == Some(g[i]) by {
        lemma_planned_sets_at(n, m, c, i);
        let (k, j) = tree_position(n, c, i);
        lemma_bracket_id_injective(k, j, m, set as nat, index as nat, m);
    }
    if forall|i: int| 0 <= i < g.len() ==> #[trigger] g[i].id != id {
        assert forall|x: int| !is_first_with_id(g, id, x) by {
            if 0 <= x < g.len() {
                assert(g[x].id != id);
            }
        }
    }
}

/// The shape of the tree depends on the team count alone: for two matches
/// the trees are as long, hold the same teams and winners at each index,
/// and have ids that differ only in the match id at their end.
pub proof fn lemma_shape_depends_on_team_count(n: nat, m1: Seq<char>, m2: Seq<char>)
    requires
        n >= 1,
    ensures
        base_brackets(n, m1).len() == base_brackets(n, m2).len(),
        forall|i: int| 0 <= i < base_brackets(n, m1).len() ==> {
            let (b1, b2) = (#[trigger] base_brackets(n, m1)[i], base_brackets(n, m2)[i]);
            &&& b1.team1 == b2.team1
            &&& b1.team2 == b2.team2
            &&& b1.winner == b2.winner
            &&& b1.match_id == m1
            &&& b2.match_id == m2
            &&& b1.id.len() >= m1.len()
            &&& b2.id.len() >= m2.len()
            &&& b1.id.skip(b1.id.len() - m1.len()) == m1
            &&& b2.id.skip(b2.id.len() - m2.len()) == m2
            &&& b1.id.take(b1.id.len() - m1.len()) == b2.id.take(b2.id.len() - m2.len())
        },
{
    let c = later_sets(n) + 1;
    lemma_planned_sets_len(n, m1, c);
    lemma_planned_sets_len(n, m2, c);
    assert forall|i: int| 0 <= i < base_brackets(n, m1).len() implies {
        let (b1, b2) = (#[trigger] base_brackets(n, m1)[i], base_brackets(n, m2)[i]);
        &&& b1.team1 == b2.team1
        &&& b1.team2 == b2.team2
        &&& b1.winner == b2.winner
        &&& b1.match_id == m1
        &&& b2.match_id == m2
        &&& b1.id.len() >= m1.len()
        &&& b2.id.len() >= m2.len()
        &&& b1.id.skip(b1.id.len() - m1.len()) == m1
        &&& b2.id.skip(b2.id.len() - m2.len()) == m2
        &&& b1.id.take(b1.id.len() - m1.len()) == b2.id.take(b2.id.len() - m2.len())
    } by {
        lemma_planned_sets_at(n, m1, c, i);
        lemma_planned_sets_at(n, m2, c, i);
        let (k, j) = tree_position(n, c, i);
        let p = crate::text::decimal(k) + seq![':'] + crate::text::decimal(j) + seq![':'];
        let id1 = bracket_id_text(k, j, m1);
        let id2 = bracket_id_text(k, j, m2);
        assert(id1 =~= p + m1);
        assert(id2 =~= p + m2);
        assert((p + m1).skip(p.len() as int) =~= m1);
        assert((p + m2).skip(p.len() as int) =~= m2);
        assert((p + m1).take(p.len() as int) =~= p);
        assert((p + m2).take(p.len() as int) =~= p);
    }
}

/// Where the bracket at `i` of a generated tree stands: it is the bracket
/// generated at its position; the next bracket stands at the next index of
/// the set, or else at the first of the next set; and the last one is the
/// final, alone in the last set.
pub proof fn lemma_position_in_tree(n: nat, m: Seq<char>, i: int)
    requires
        n >= 1,
        0 <= i < base_brackets(n, m).len(),
    ensures
        base_brackets(n, m).len() == tree_len(n),
        position_in_tree(n, i).0 <= later_sets(n),
        position_in_tree(n, i).1 < set_size(n, position_in_tree(n, i).0),
        base_brackets(n, m)[i] == planned_bracket(n, position_in_tree(n, i).0, position_in_tree(n, i).1, m),
        i + 1 < base_brackets(n, m).len() ==> ({
            let (k, j) = position_in_tree(n, i);
            position_in_tree(n, i + 1) == if j + 1 < set_size(n, k) { (k, j + 1) } else { (k + 1, 0nat) }
        }),
        i + 1 == base_brackets(n, m).len() ==> position_in_tree(n, i) == (later_sets(n), 0nat),
{
    let c = later_sets(n) + 1;
    lemma_planned_sets_len(n, m, c);
    lemma_planned_sets_at(n, m, c, i);
    if i + 1 < base_brackets(n, m).len() {
        lemma_position_successor(n, c, i);
    } else {
        lemma_last_position(n, c);
        lemma_final_set(n);
    }
}

} // verus!
