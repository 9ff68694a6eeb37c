//! The move-sequence validator: replays textual move tokens against a
//! starting state.

use vstd::prelude::*;
use crate::direction::Direction;
use crate::state::{is_goal, State, StateModel};

verus! {

/// The outcome of replaying a token sequence from state `m`: `None` as
/// soon as a token fails to parse as a direction or a move is illegal;
/// otherwise whether the final board is the goal arrangement.
pub open spec fn spec_check(m: StateModel, tokens: Seq<String>) -> Option<bool>
    decreases tokens.len(),
{
    if tokens.len() == 0 {
        Some(is_goal(m.board))
    } else {
        match Direction::spec_parse(tokens[0]@) {
            Option::None => None,
            Option::Some(d) => if m.can(d) {
                spec_check(m.step(d), tokens.skip(1))
            } else {
                None
            },
        }
    }
}

impl State {
    /// Replays a sequence of textual move tokens from this state.
    ///
    /// Returns `None` as soon as a token is not one of the four
    /// direction codes or a move is illegal from the current position;
    /// otherwise reports whether the final board is exactly the goal
    /// arrangement.
    pub fn check_solution(&self, move_list: &Vec<String>) -> (r: Option<bool>)
        requires
            self@.wf(),
        ensures
            r == spec_check(self@, move_list@),
    {
        let mut final_state = self.clone();
        proof {
            assert(move_list@.skip(0) =~= move_list@);
        }
        let n = move_list.len();
        let mut i: usize = 0;
        while i < n
            invariant
                n == move_list@.len(),
                0 <= i <= n,
                final_state@.wf(),
                spec_check(self@, move_list@) == spec_check(
                    final_state@,
                    move_list@.skip(i as int),
                ),
            decreases n - i,
        {
            proof {
                assert(move_list@.skip(i as int)[0] == move_list@[i as int]);
            }
            let direction = match Direction::parse(move_list[i].as_str()) {
                Option::None => {
                    return None;
                },
                Option::Some(d) => d,
            };
            let next = match self::State::make_move(&final_state, direction) {
                Option::None => {
                    return None;
                },
                Option::Some(s) => s,
            };
            proof {
                assert(move_list@.skip(i as int).skip(1) =~= move_list@.skip(i as int + 1));
            }
            final_state = next;
            i = i + 1;
        }
        proof {
            assert(move_list@.skip(n as int) =~= Seq::<String>::empty());
        }
        Some(final_state.is_final())
    }
}

} // verus!
