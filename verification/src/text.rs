//! Text forms used by the stored records: decimal numbers, bracket ids.

use vstd::prelude::*;

verus! {

/// The character of one decimal digit.
pub open spec fn digit_char(d: nat) -> char {
    if d == 0 { '0' }
    else if d == 1 { '1' }
    else if d == 2 { '2' }
    else if d == 3 { '3' }
    else if d == 4 { '4' }
    else if d == 5 { '5' }
    else if d == 6 { '6' }
    else if d == 7 { '7' }
    else if d == 8 { '8' }
    else { '9' }
}

/// The decimal text of a natural number, without sign or leading zeros.
pub open spec fn decimal(n: nat) -> Seq<char>
    decreases n,
{
    if n < 10 {
        seq![digit_char(n)]
    } else {
        decimal(n / 10).push(digit_char(n % 10))
    }
}

/// The id of the bracket at `index` in set `set` of match `match_id`:
/// `"<set>:<index>:<match_id>"`.
pub open spec fn bracket_id_text(set: nat, index: nat, match_id: Seq<char>) -> Seq<char> {
    decimal(set) + seq![':'] + decimal(index) + seq![':'] + match_id
}

pub proof fn lemma_decimal_len(n: nat)
    ensures
        decimal(n).len() >= 1,
        forall|i: int| 0 <= i < decimal(n).len() ==> #[trigger] decimal(n)[i] != ':',
    decreases n,
{
    if n >= 10 {
        lemma_decimal_len(n / 10);
    }
}

pub proof fn lemma_digit_injective(a: nat, b: nat)
    requires
        a < 10,
        b < 10,
        digit_char(a) == digit_char(b),
    ensures
        a == b,
{
}

pub proof fn lemma_decimal_injective(a: nat, b: nat)
    requires
        decimal(a) == decimal(b),
    ensures
        a == b,
    decreases a,
{
    lemma_decimal_len(a);
    lemma_decimal_len(b);
    if a < 10 && b < 10 {
        assert(decimal(a) == seq![digit_char(a)]);
        assert(decimal(b) == seq![digit_char(b)]);
        assert(decimal(a)[0] == digit_char(a));
        assert(decimal(b)[0] == digit_char(b));
        lemma_digit_injective(a, b);
    } else if a < 10 {
        lemma_decimal_len(b / 10);
        assert(decimal(b).len() >= 2);
    } else if b < 10 {
        lemma_decimal_len(a / 10);
        assert(decimal(a).len() >= 2);
    } else {
        let da = decimal(a / 10);
        let db = decimal(b / 10);
        assert(decimal(a) == da.push(digit_char(a % 10)));
        assert(decimal(b) == db.push(digit_char(b % 10)));
        assert(decimal(a).last() == digit_char(a % 10));
        assert(decimal(b).last() == digit_char(b % 10));
        lemma_digit_injective(a % 10, b % 10);
        assert(decimal(a).drop_last() =~= da);
        assert(decimal(b).drop_last() =~= db);
        lemma_decimal_injective(a / 10, b / 10);
    }
}

/// Splitting `decimal(a) + ':' + rest` at its first colon recovers `a` and `rest`.
proof fn lemma_split_at_colon(a: nat, ra: Seq<char>, b: nat, rb: Seq<char>)
    requires
        decimal(a) + seq![':'] + ra == decimal(b) + seq![':'] + rb,
    ensures
        a == b,
        ra == rb,
{
    lemma_decimal_len(a);
    lemma_decimal_len(b);
    let la = decimal(a).len();
    let lb = decimal(b).len();
    let s = decimal(a) + seq![':'] + ra;
    let t = decimal(b) + seq![':'] + rb;
    if la < lb {
        assert(s[la as int] == ':');
        assert(t[la as int] == decimal(b)[la as int]);
    } else if lb < la {
        assert(t[lb as int] == ':');
        assert(s[lb as int] == decimal(a)[lb as int]);
    }
    assert(decimal(a) =~= s.subrange(0, la as int));
    assert(decimal(b) =~= t.subrange(0, lb as int));
    lemma_decimal_injective(a, b);
    assert(ra =~= s.subrange(la as int + 1, s.len() as int));
    assert(rb =~= t.subrange(lb as int + 1, t.len() as int));
}

/// Distinct positions, or distinct matches, give distinct bracket ids.
pub proof fn lemma_bracket_id_injective(s1: nat, i1: nat, m1: Seq<char>, s2: nat, i2: nat, m2: Seq<char>)
    requires
        bracket_id_text(s1, i1, m1) == bracket_id_text(s2, i2, m2),
    ensures
        s1 == s2,
        i1 == i2,
        m1 == m2,
{
    let r1 = decimal(i1) + seq![':'] + m1;
    let r2 = decimal(i2) + seq![':'] + m2;
    assert(bracket_id_text(s1, i1, m1) =~= decimal(s1) + seq![':'] + r1);
    assert(bracket_id_text(s2, i2, m2) =~= decimal(s2) + seq![':'] + r2);
    lemma_split_at_colon(s1, r1, s2, r2);
    lemma_split_at_colon(i1, m1, i2, m2);
}

/// The one-character text of digit `d`.
fn digit_str(d: u64) -> (s: &'static str)
    requires
        d < 10,
    ensures
        s@ == seq![digit_char(d as nat)],
{
    proof {
        reveal_strlit("0");
        reveal_strlit("1");
        reveal_strlit("2");
        reveal_strlit("3");
        reveal_strlit("4");
        reveal_strlit("5");
        reveal_strlit("6");
        reveal_strlit("7");
        reveal_strlit("8");
        reveal_strlit("9");
    }
    let s = if d == 0 {
        "0"
    } else if d == 1 {
        "1"
    } else if d == 2 {
        "2"
    } else if d == 3 {
        "3"
    } else if d == 4 {
        "4"
    } else if d == 5 {
        "5"
    } else if d == 6 {
        "6"
    } else if d == 7 {
        "7"
    } else if d == 8 {
        "8"
    } else {
        "9"
    };
    proof {
        assert(s@ =~= seq![digit_char(d as nat)]);
    }
    s
}

/// The decimal text of `n`.
pub fn decimal_string(n: u64) -> (s: String)
    ensures
        s@ == decimal(n as nat),
    decreases n,
{
    if n < 10 {
        String::from_str(digit_str(n))
    } else {
        let mut s = decimal_string(n / 10);
        let d = digit_str(n % 10);
        s.append(d);
        proof {
            assert(s@ =~= decimal((n / 10) as nat).push(digit_char((n % 10) as nat)));
        }
        s
    }
}

/// Builds the id `"<set>:<index>:<match_id>"` of a stored bracket.
pub fn bracket_id(set: u64, index: u64, match_id: &str) -> (id: String)
    ensures
        id@ == bracket_id_text(set as nat, index as nat, match_id@),
{
    proof {
        reveal_strlit(":");
    }
    let mut id = decimal_string(set);
    id.append(":");
    let index_text = decimal_string(index);
    id.append(index_text.as_str());
    id.append(":");
    id.append(match_id);
    proof {
        assert(id@ =~= bracket_id_text(set as nat, index as nat, match_id@));
    }
    id
}

} // verus!
