//! The brackets of a match as loaded from the database, with the winner
//! writes that the logic makes on them, in order, for the caller to persist.

use vstd::prelude::*;
use crate::model::{Bracket, BracketView};
use crate::text::{bracket_id, bracket_id_text};

verus! {

/// A write of a bracket's `winner`: the bracket's id and the value written.
pub struct WinnerWrite {
    pub id: String,
    pub winner: i64,
}

pub struct WinnerWriteView {
    pub id: Seq<char>,
    pub winner: int,
}

impl View for WinnerWrite {
    type V = WinnerWriteView;

    open spec fn view(&self) -> WinnerWriteView {
        WinnerWriteView { id: self.id@, winner: self.winner as int }
    }
}

/// The brackets of a match, in the order the database lists them, and the
/// winner writes made since they were loaded.
pub struct BracketStore {
    pub brackets: Vec<Bracket>,
    pub writes: Vec<WinnerWrite>,
}

pub struct StoreView {
    pub brackets: Seq<BracketView>,
    pub writes: Seq<WinnerWriteView>,
}

impl View for BracketStore {
    type V = StoreView;

    open spec fn view(&self) -> StoreView {
        StoreView {
            brackets: self.brackets@.map_values(|b: Bracket| b@),
            writes: self.writes@.map_values(|w: WinnerWrite| w@),
        }
    }
}

/// `i` is the first index of `s` whose bracket has id `id`.
pub open spec fn is_first_with_id(s: Seq<BracketView>, id: Seq<char>, i: int) -> bool {
    &&& 0 <= i < s.len()
    &&& s[i].id == id
    &&& forall|j: int| 0 <= j < i ==> #[trigger] s[j].id != id
}

/// The first index of `s` whose bracket has id `id`, if any; a lookup by id
/// answers with that bracket.
pub open spec fn first_with_id(s: Seq<BracketView>, id: Seq<char>) -> Option<int> {
    if exists|i: int| is_first_with_id(s, id, i) {
        Some(choose|i: int| is_first_with_id(s, id, i))
    } else {
        None
    }
}

/// The bracket at `index` of set `set` of match `m`, as a lookup by id finds it.
pub open spec fn stored_at(s: Seq<BracketView>, set: u32, index: u32, m: Seq<char>) -> Option<BracketView> {
    match first_with_id(s, bracket_id_text(set as nat, index as nat, m)) {
        Some(i) => Some(s[i]),
        None => None,
    }
}

/// The store after writing `winner` (logged as `logged`) to the bracket with id `id`.
pub open spec fn write_winner(st: StoreView, id: Seq<char>, winner: int, logged: int) -> StoreView {
    StoreView {
        brackets: match first_with_id(st.brackets, id) {
            Some(i) => st.brackets.update(i, BracketView { winner, ..st.brackets[i] }),
            None => st.brackets,
        },
        writes: st.writes.push(WinnerWriteView { id, winner: logged }),
    }
}

/// The id names a bracket of the first set: it starts with `"0:"`.
pub open spec fn is_first_set_id(id: Seq<char>) -> bool {
    id.len() >= 2 && id[0] == '0' && id[1] == ':'
}

/// A bracket that `reset_all` clears: of match `m` and not of the first set.
pub open spec fn is_reset(b: BracketView, m: Seq<char>) -> bool {
    b.match_id == m && !is_first_set_id(b.id)
}

/// The brackets after clearing the winner of every bracket of match `m`
/// outside the first set.
pub open spec fn reset_brackets(s: Seq<BracketView>, m: Seq<char>) -> Seq<BracketView> {
    s.map_values(|b: BracketView| if is_reset(b, m) { BracketView { winner: -1, ..b } } else { b })
}

/// The writes that clearing makes, in order.
pub open spec fn reset_writes(s: Seq<BracketView>, m: Seq<char>) -> Seq<WinnerWriteView>
    decreases s.len(),
{
    if s.len() == 0 {
        Seq::empty()
    } else {
        reset_writes(s.drop_last(), m) + if is_reset(s.last(), m) {
            seq![WinnerWriteView { id: s.last().id, winner: -1 }]
        } else {
            Seq::empty()
        }
    }
}

pub proof fn lemma_first_unique(s: Seq<BracketView>, id: Seq<char>, i: int, j: int)
    requires
        is_first_with_id(s, id, i),
        is_first_with_id(s, id, j),
    ensures
        i == j,
{
    if i < j {
        assert(s[i].id != id);
    } else if j < i {
        assert(s[j].id != id);
    }
}

/// Whether `id` starts with `"0:"`.
pub fn is_first_set_id_exec(id: &String) -> (b: bool)
    ensures
        b == is_first_set_id(id@),
{
    let s = id.as_str();
    if s.unicode_len() < 2 {
        return false;
    }
    s.get_char(0) == '0' && s.get_char(1) == ':'
}

impl BracketStore {
    /// A store of freshly loaded brackets, with no writes yet.
    pub fn new(brackets: Vec<Bracket>) -> (st: BracketStore)
        ensures
            st.brackets == brackets,
            st@.writes.len() == 0,
    {
        BracketStore { brackets, writes: Vec::new() }
    }

    /// The position in the store of the first bracket with id `id`.
    pub fn position_of(&self, id: &String) -> (r: Option<usize>)
        ensures
            match r {
                Some(i) => first_with_id(self@.brackets, id@) == Some(i as int),
                None => first_with_id(self@.brackets, id@) is None,
            },
    {
        let ghost s = self@.brackets;
        let mut i: usize = 0;
        while i < self.brackets.len()
            invariant
                s == self@.brackets,
                i <= s.len(),
                forall|j: int| 0 <= j < i ==> #[trigger] s[j].id != id@,
            decreases self.brackets.len() - i,
        {
            if self.brackets[i]._id == *id {
                proof {
                    assert(is_first_with_id(s, id@, i as int));
                    let c = choose|c: int| is_first_with_id(s, id@, c);
                    lemma_first_unique(s, id@, i as int, c);
                }
                return Some(i);
            }
            i = i + 1;
        }
        proof {
            assert forall|c: int| !is_first_with_id(s, id@, c) by {
                if 0 <= c < s.len() {
                    assert(s[c].id != id@);
                }
            }
        }
        None
    }

    /// The bracket at `bracket` of set `bracket_set` of match `match_id`.
    pub fn get_bracket(&self, bracket_set: u32, bracket: u32, match_id: &String) -> (r: Option<Bracket>)
        ensures
            match r {
                Some(b) => stored_at(self@.brackets, bracket_set, bracket, match_id@) == Some(b@),
                None => stored_at(self@.brackets, bracket_set, bracket, match_id@) is None,
            },
    {
        let id = bracket_id(bracket_set as u64, bracket as u64, match_id.as_str());
        match self.position_of(&id) {
            Some(i) => Some(self.brackets[i].clone()),
            None => None,
        }
    }

    /// Writes `winner` to the bracket with id `id`, if there is one, and logs
    /// the write with the value `logged` that goes to the database.
    fn write(&mut self, id: String, winner: i32, logged: i64)
        ensures
            final(self)@ == write_winner(old(self)@, id@, winner as int, logged as int),
    {
        match self.position_of(&id) {
            Some(i) => {
                let mut b = self.brackets[i].clone();
                b.winner = winner;
                self.brackets.set(i, b);
            },
            None => {},
        }
        let ghost id_view = id@;
        self.writes.push(WinnerWrite { id, winner: logged });
        proof {
            let st = old(self)@;
            assert(self@.writes =~= st.writes.push(WinnerWriteView { id: id_view, winner: logged as int }));
            assert(self@.brackets =~= write_winner(st, id_view, winner as int, logged as int).brackets);
        }
    }

    /// Sets the winner of bracket `bracket` of set `bracket_set` of match
    /// `match_id`. The database receives the winner as an unsigned 32-bit
    /// number, so that is the value logged.
    pub fn set_winner(&mut self, bracket_set: u32, bracket: u32, match_id: &String, winner: i32)
        ensures
            final(self)@ == write_winner(
                old(self)@,
                bracket_id_text(bracket_set as nat, bracket as nat, match_id@),
                winner as int,
                (winner as u32) as int,
            ),
    {
        let id = bracket_id(bracket_set as u64, bracket as u64, match_id.as_str());
        self.write(id, winner, (winner as u32) as i64);
    }

    /// Clears the winner (to -1) of every bracket of match `match_id` that is
    /// not in the first set, logging one write per bracket in store order.
    pub fn reset_all(&mut self, match_id: &String)
        ensures
            final(self)@.brackets == reset_brackets(old(self)@.brackets, match_id@),
            final(self)@.writes == old(self)@.writes + reset_writes(old(self)@.brackets, match_id@),
    {
        let ghost s0 = self@.brackets;
        let ghost w0 = self@.writes;
        let n = self.brackets.len();
        let mut i: usize = 0;
        while i < n
            invariant
                n == s0.len(),
                i <= n,
                self@.brackets.len() == n,
                forall|j: int| 0 <= j < i ==> #[trigger] self@.brackets[j] == reset_brackets(s0, match_id@)[j],
                forall|j: int| i <= j < n ==> #[trigger] self@.brackets[j] == s0[j],
                self@.writes == w0 + reset_writes(s0.take(i as int), match_id@),
            decreases n - i,
        {
            let ghost before = self@;
            let mut b = self.brackets[i].clone();
            let clear = b.match_id == *match_id && !is_first_set_id_exec(&b._id);
            proof {
                assert(self@.brackets[i as int] == s0[i as int]);
                assert(self@.brackets[i as int] == self.brackets@[i as int]@);
                assert(b@ == s0[i as int]);
                assert(clear == is_reset(s0[i as int], match_id@));
            }
            let ghost wv = WinnerWriteView { id: b._id@, winner: -1 };
            if clear {
                let id = b._id.clone();
                b.winner = -1;
                self.brackets.set(i, b);
                self.writes.push(WinnerWrite { id, winner: -1 });
            }
            proof {
                let t = s0.take(i + 1);
                assert(t.drop_last() =~= s0.take(i as int));
                assert(t.last() == s0[i as int]);
                assert(reset_writes(t, match_id@) == reset_writes(t.drop_last(), match_id@) + if is_reset(t.last(), match_id@) {
                    seq![WinnerWriteView { id: t.last().id, winner: -1 }]
                } else {
                    Seq::empty()
                });
                assert(self@.brackets[i as int] == reset_brackets(s0, match_id@)[i as int]);
                assert forall|j: int| 0 <= j < i + 1 implies #[trigger] self@.brackets[j] == reset_brackets(s0, match_id@)[j] by {
                    if j < i {
                        assert(self@.brackets[j] == before.brackets[j]);
                    }
                }
                assert forall|j: int| i + 1 <= j < n implies #[trigger] self@.brackets[j] == s0[j] by {
                    assert(self@.brackets[j] == before.brackets[j]);
                }
                if clear {
                    assert(self@.writes =~= before.writes.push(wv));
                } else {
                    assert(self@.writes =~= before.writes);
                }
                assert(self@.writes =~= w0 + reset_writes(s0.take(i + 1), match_id@));
            }
            i = i + 1;
        }
        proof {
            assert(s0.take(n as int) =~= s0);
            assert(self@.brackets =~= reset_brackets(s0, match_id@));
        }
    }
}

/// Clearing twice is clearing once.
pub proof fn lemma_reset_idempotent(s: Seq<BracketView>, m: Seq<char>)
    ensures
        reset_brackets(reset_brackets(s, m), m) == reset_brackets(s, m),
{
    assert(reset_brackets(reset_brackets(s, m), m) =~= reset_brackets(s, m));
}

/// After clearing, no bracket of the match outside the first set has a
/// winner, and every other bracket is as it was.
pub proof fn lemma_reset_clears_later_sets(s: Seq<BracketView>, m: Seq<char>, k: int)
    requires
        0 <= k < s.len(),
    ensures
        reset_brackets(s, m).len() == s.len(),
        is_reset(s[k], m) ==> reset_brackets(s, m)[k] == (BracketView { winner: -1, ..s[k] }),
        !is_reset(s[k], m) ==> reset_brackets(s, m)[k] == s[k],
{
}

} // verus!
