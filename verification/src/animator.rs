//! Which animation state of a shape is playing.
//!
//! A shape carries a list of named animation states. The animator plays
//! the first one from the start and cycles through them in order, wrapping
//! around; each switch asks for the animated parts to be put back in their
//! base pose before the next state plays. The playback clock and the
//! channel values are the caller's, in floating point; this type holds the
//! choice of state.

use vstd::prelude::*;
use vstd::arithmetic::div_mod::{lemma_add_mod_noop, lemma_mod_pos_bound, lemma_mod_self_0, lemma_small_mod};

verus! {

/// The state that plays after one switch among `n` states: the next one
/// in order, wrapping around, or the first when none was playing. With no
/// states nothing changes.
pub open spec fn next_active(a: Option<int>, n: int) -> Option<int> {
    if n <= 0 {
        a
    } else {
        match a {
            Some(i) => Some((i + 1) % n),
            None => Some(0),
        }
    }
}

/// The state that plays after `k` switches.
pub open spec fn cycled(a: Option<int>, n: int, k: nat) -> Option<int>
    decreases k,
{
    if k == 0 {
        a
    } else {
        next_active(cycled(a, n, (k - 1) as nat), n)
    }
}

/// Chooses the playing animation state of a shape.
pub struct ShapeAnimator {
    state_names: Vec<String>,
    active_state: Option<usize>,
    needs_reset: bool,
}

impl ShapeAnimator {
    /// The names of the states, in order.
    pub closed spec fn names(&self) -> Seq<Seq<char>> {
        self.state_names@.map_values(|s: String| s@)
    }

    /// The index of the playing state.
    pub closed spec fn active(&self) -> Option<int> {
        match self.active_state {
            Some(i) => Some(i as int),
            None => None,
        }
    }

    /// The parts must go back to their base pose before the next frame.
    pub closed spec fn reset_pending(&self) -> bool {
        self.needs_reset
    }

    #[verifier::type_invariant]
    spec fn active_in_range(&self) -> bool {
        match self.active_state {
            Some(i) => i < self.state_names@.len(),
            None => self.state_names@.len() == 0,
        }
    }

    /// An animator over the states named `state_names`, playing the first
    /// one if there is any.
    pub fn new(state_names: Vec<String>) -> (r: ShapeAnimator)
        ensures
            r.names() == state_names@.map_values(|s: String| s@),
            r.active() == if state_names@.len() == 0 {
                None
            } else {
                Some(0int)
            },
            !r.reset_pending(),
    {
        let active = if state_names.len() == 0 {
            None
        } else {
            Some(0usize)
        };
        ShapeAnimator { state_names, active_state: active, needs_reset: false }
    }

    /// The index of the playing state, if any.
    pub fn active_state(&self) -> (r: Option<usize>)
        ensures
            match r {
                Some(i) => self.active() == Some(i as int) && i < self.names().len(),
                None => self.active() is None && self.names().len() == 0,
            },
    {
        proof {
            use_type_invariant(self);
        }
        self.active_state
    }

    /// The name of the playing state, or `(none)` when there are no states.
    pub fn active_name(&self) -> (r: &str)
        ensures
            match self.active() {
                Some(i) => 0 <= i < self.names().len() && r@ == self.names()[i],
                None => r@ == "(none)"@,
            },
    {
        proof {
            use_type_invariant(self);
        }
        match self.active_state {
            Some(i) => self.state_names[i].as_str(),
            None => "(none)",
        }
    }

    /// Switch to the next state, wrapping around after the last one, and
    /// ask for the parts to be reset. Without states nothing changes.
    pub fn cycle_state(&mut self)
        ensures
            final(self).names() == old(self).names(),
            final(self).active() == next_active(old(self).active(), old(self).names().len() as int),
            final(self).reset_pending() == (old(self).reset_pending() || old(self).names().len() > 0),
    {
        proof {
            use_type_invariant(&*self);
        }
        let n = self.state_names.len();
        if n == 0 {
            return;
        }
        let next = match self.active_state {
            Some(i) => (i + 1) % n,
            None => 0,
        };
        self.active_state = Some(next);
        self.needs_reset = true;
    }

    /// Whether a reset was asked for; the request is taken.
    pub fn take_reset(&mut self) -> (r: bool)
        ensures
            r == old(self).reset_pending(),
            !final(self).reset_pending(),
            final(self).names() == old(self).names(),
            final(self).active() == old(self).active(),
    {
        proof {
            use_type_invariant(&*self);
        }
        let r = self.needs_reset;
        self.needs_reset = false;
        r
    }
}

/// Switching `k` times from state `i` of `n` plays state `(i + k) mod n`:
/// the switches walk through every state in order, wrapping around.
pub proof fn lemma_cycled_index(i: int, n: int, k: nat)
    requires
        0 <= i < n,
    ensures
        cycled(Some(i), n, k) == Some((i + k) % n),
    decreases k,
{
    if k == 0 {
        lemma_small_mod(i as nat, n as nat);
    } else {
        lemma_cycled_index(i, n, (k - 1) as nat);
        lemma_add_mod_noop(i + k - 1, 1, n);
        if n > 1 {
            lemma_small_mod(1, n as nat);
        } else {
            lemma_mod_pos_bound(i + k, n);
            lemma_mod_pos_bound((i + k - 1) % n + 1, n);
        }
    }
}

/// Switching as many times as there are states comes back to the state
/// that was playing.
pub proof fn lemma_cycle_all_returns(i: int, n: int)
    requires
        0 <= i < n,
    ensures
        cycled(Some(i), n, n as nat) == Some(i),
{
    lemma_cycled_index(i, n, n as nat);
    lemma_add_mod_noop(i, n, n);
    lemma_mod_self_0(n);
    lemma_small_mod(i as nat, n as nat);
}

} // verus!
