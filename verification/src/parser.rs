//! The textual front end: a board is written as digits `0`..`9` separated by
//! single spaces, `0` standing for an unassigned cell, exactly 81 tokens.

use vstd::prelude::*;

use crate::board::{
    b_at, lemma_idx_injective, lemma_new_map_distinct, new_map, Board, Position,
};

verus! {

/// The byte is an ASCII digit.
pub open spec fn is_digit(b: u8) -> bool {
    48 <= b <= 57
}

/// The maximal leading run of digits separated by single spaces, each taken
/// at its numeric value; the run ends at the first byte that does not
/// continue the space-digit pattern, and the rest of the input is ignored.
pub open spec fn digit_run(s: Seq<u8>) -> Seq<u8>
    decreases s.len(),
{
    if s.len() == 0 || !is_digit(s[0]) {
        Seq::empty()
    } else {
        seq![(s[0] - 48) as u8] + if s.len() >= 3 && s[1] == 32 && is_digit(s[2]) {
            digit_run(s.skip(2))
        } else {
            Seq::empty()
        }
    }
}

/// Every value in a digit run is a single digit.
pub proof fn lemma_digit_run_bounds(s: Seq<u8>)
    ensures
        forall|i: int| 0 <= i < digit_run(s).len() ==> #[trigger] digit_run(s)[i] <= 9,
        digit_run(s).len() <= s.len(),
    decreases s.len(),
{
    if s.len() == 0 || !is_digit(s[0]) {
    } else if s.len() >= 3 && s[1] == 32 && is_digit(s[2]) {
        lemma_digit_run_bounds(s.skip(2));
    }
}

/// The cell value a digit token stands for: `0` means unassigned, any other
/// digit is the assigned value.
pub open spec fn spec_to_value(n: u8) -> Option<u8> {
    if n == 0 {
        None
    } else {
        Some(n)
    }
}

fn to_value(n: u8) -> (r: Option<u8>)
    ensures
        r == spec_to_value(n),
{
    if n == 0 {
        None
    } else {
        Some(n)
    }
}

/// Why an input was rejected.
#[derive(Clone, Copy, PartialEq, Eq, Structural, Debug)]
pub enum ParseError {
    /// The input's leading run of space-separated digits does not hold
    /// exactly the 81 tokens a board needs; `got` is how many it holds.
    WrongCount { got: usize },
}

/// Parses a byte sequence of digits separated by single spaces (`0` meaning
/// unassigned) into a board: succeeds exactly when the input's leading digit
/// run holds 81 tokens, which then fill the 81 cells in canonical row-major
/// order.
pub fn parse(s: &[u8]) -> (r: Result<Board, ParseError>)
    ensures
        r is Ok <==> digit_run(s@).len() == 81,
        r matches Ok(b) ==> b.wf() && forall|p: Position|
            p.wf() ==> b.spec_at(p) == spec_to_value(digit_run(s@)[#[trigger] p.idx()]),
        r matches Err(e) ==> e == (ParseError::WrongCount { got: digit_run(s@).len() as usize }),
{
    proof {
        lemma_digit_run_bounds(s@);
    }
    let mut vals: Vec<u8> = Vec::new();
    if s.len() > 0 && 48 <= s[0] && s[0] <= 57 {
        vals.push(s[0] - 48);
        let mut i: usize = 0;
        proof {
            assert(s@.skip(0) =~= s@);
            assert(digit_run(s@) =~= vals@.drop_last() + digit_run(s@.skip(0)));
        }
        while s.len() - i > 2 && s[i + 1] == 32 && 48 <= s[i + 2] && s[i + 2] <= 57
            invariant
                vals@.len() >= 1,
                i < s@.len(),
                is_digit(s@[i as int]),
                vals@.last() == (s@[i as int] - 48) as u8,
                digit_run(s@) == vals@.drop_last() + digit_run(s@.skip(i as int)),
                forall|j: int| 0 <= j < vals@.len() ==> #[trigger] vals@[j] <= 9,
            decreases s@.len() - i,
        {
            proof {
                let t = s@.skip(i as int);
                assert(t.len() >= 3 && t[1] == 32 && is_digit(t[2]));
                assert(digit_run(t) == seq![(t[0] - 48) as u8] + digit_run(t.skip(2)));
                assert(t.skip(2) =~= s@.skip(i as int + 2));
                assert(vals@ =~= vals@.drop_last().push(vals@.last()));
                assert(vals@.drop_last() + seq![(t[0] - 48) as u8] =~= vals@);
            }
            vals.push(s[i + 2] - 48);
            i = i + 2;
            proof {
                assert(digit_run(s@) =~= vals@.drop_last() + digit_run(s@.skip(i as int)));
            }
        }
        proof {
            let t = s@.skip(i as int);
            assert(t[0] == s@[i as int]);
            assert(!(t.len() >= 3 && t[1] == 32 && is_digit(t[2])));
            assert(digit_run(t) =~= seq![(t[0] - 48) as u8]);
            assert(vals@ =~= vals@.drop_last().push(vals@.last()));
            assert(digit_run(s@) =~= vals@);
        }
    } else {
        proof {
            assert(digit_run(s@) =~= vals@);
        }
    }
    if vals.len() != 81 {
        return Err(ParseError::WrongCount { got: vals.len() });
    }
    let ps = Position::all();
    let mut pairs: Vec<(Position, Option<u8>)> = Vec::new();
    let mut k: usize = 0;
    while k < 81
        invariant
            ps@.len() == 81,
            forall|j: int| 0 <= j < 81 ==> (#[trigger] ps@[j]).wf() && ps@[j].idx() == j,
            vals@.len() == 81,
            forall|j: int| 0 <= j < vals@.len() ==> #[trigger] vals@[j] <= 9,
            k <= 81,
            pairs@.len() == k,
            forall|j: int|
                0 <= j < k ==> #[trigger] pairs@[j] == (ps@[j], spec_to_value(vals@[j])),
        decreases 81 - k,
    {
        pairs.push((ps[k], to_value(vals[k])));
        k = k + 1;
    }
    let b = Board::new(pairs);
    proof {
        assert forall|x: int, y: int| 0 <= x < y < pairs@.len() implies (#[trigger] pairs@[x]).0
            != (#[trigger] pairs@[y]).0 by {
            assert(pairs@[x].0.idx() == x && pairs@[y].0.idx() == y);
        }
        lemma_new_map_distinct(pairs@);
        assert forall|p: Position| p.wf() implies b.spec_at(p) == spec_to_value(
            digit_run(s@)[#[trigger] p.idx()],
        ) by {
            let j = p.idx();
            assert(pairs@[j].0 == ps@[j]);
            assert(ps@[p.idx()] == p) by {
                lemma_idx_injective(ps@[p.idx()], p);
            }
            assert(b_at(new_map(pairs@), pairs@[j].0) == pairs@[j].1);
        }
    }
    Ok(b)
}

} // verus!
