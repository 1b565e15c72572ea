//! The puzzle: a solved gradient, the shuffled row that the player sees, and
//! the cell, if any, that waits for a partner to change places with.

use vstd::prelude::*;
use vstd::seq_lib::to_multiset_update;
use crate::color::Color;
use crate::gradient::{
    all_opaque,
    generate_gradient,
    interior,
    is_arrangement,
    is_gradient,
    random_gradient,
    shuffled_gradient,
    GRADIENT_LEN,
};

verus! {

/// `s` with the colours at `i` and `j` in each other's place.
pub open spec fn swapped(s: Seq<Color>, i: int, j: int) -> Seq<Color>
    recommends
        0 <= i < s.len(),
        0 <= j < s.len(),
{
    s.update(i, s[j]).update(j, s[i])
}

/// What a puzzle is, as plain mathematics.
pub ghost struct PuzzleModel {
    /// The gradient in order: what the player has to arrive at.
    pub solved: Seq<Color>,
    /// The row as it stands now.
    pub current: Seq<Color>,
    /// The position that was chosen and waits for a partner.
    pub pending: Option<usize>,
}

impl PuzzleModel {
    /// Whether `index` is a position that the player may choose: any but
    /// the first and the last.
    pub open spec fn is_interior(self, index: usize) -> bool {
        1 <= index && index + 1 < self.solved.len()
    }

    /// What always holds of a puzzle: it has at least three colours, the row
    /// is the solved gradient with its interior in some order, and a waiting
    /// position is an interior one.
    pub open spec fn wf(self) -> bool {
        &&& self.solved.len() >= 3
        &&& is_arrangement(self.current, self.solved)
        &&& match self.pending {
            Some(index) => self.is_interior(index),
            None => true,
        }
    }

    /// Whether the row is in order.
    pub open spec fn is_solved(self) -> bool {
        self.current == self.solved
    }

    /// The puzzle after the player has chosen the cell at `index`. With no
    /// cell waiting, this one waits from now on. With a cell waiting, the
    /// two change places and none waits any more; where the player chose
    /// the waiting cell again, that changes nothing in the row.
    pub open spec fn select(self, index: usize) -> PuzzleModel {
        match self.pending {
            None => PuzzleModel { pending: Some(index), ..self },
            Some(other) => PuzzleModel {
                current: swapped(self.current, other as int, index as int),
                pending: None,
                ..self
            },
        }
    }

    /// Whether `after` can be the puzzle once the game has looked at `self`
    /// for a win. A row out of order is left as it is. A row in order gives
    /// way to a fresh puzzle of the same length: a gradient of opaque
    /// colours with its interior in some order, and no cell waiting.
    pub open spec fn ticks_to(self, after: PuzzleModel) -> bool {
        if self.is_solved() {
            &&& after.wf()
            &&& after.pending is None
            &&& after.solved.len() == self.solved.len()
            &&& is_gradient(after.solved)
            &&& all_opaque(after.solved)
        } else {
            after == self
        }
    }
}

/// Two colours of a row that change places leave the row with the colours
/// it had, each as often as before.
pub proof fn lemma_swapped_same_colors(s: Seq<Color>, i: int, j: int)
    requires
        0 <= i < s.len(),
        0 <= j < s.len(),
    ensures
        swapped(s, i, j).len() == s.len(),
        swapped(s, i, j).to_multiset() == s.to_multiset(),
{
    let t = s.update(i, s[j]);
    to_multiset_update(s, i, s[j]);
    to_multiset_update(t, j, s[i]);
    assert(t[j] == s[j]);
    assert(s.to_multiset().insert(s[j]).remove(s[i]).insert(s[i]).remove(s[j])
        =~= s.to_multiset()) by {
        s.to_multiset_ensures();
        assert(s.contains(s[i]));
        assert(s.contains(s[j]));
    }
}

/// A choice keeps a puzzle well formed: whatever the player chooses among
/// the interior cells, the row stays an arrangement of the solved gradient,
/// with its first and last colour in place.
pub proof fn lemma_select_keeps_wf(p: PuzzleModel, index: usize)
    requires
        p.wf(),
        p.is_interior(index),
    ensures
        p.select(index).wf(),
        p.select(index).solved == p.solved,
{
    match p.pending {
        None => {},
        Some(other) => {
            let i = other as int;
            let j = index as int;
            let after = swapped(p.current, i, j);
            lemma_swapped_same_colors(interior(p.current), i - 1, j - 1);
            assert(interior(after) =~= swapped(interior(p.current), i - 1, j - 1));
        },
    }
}

/// Choosing a cell and then the same cell again leaves the puzzle as it
/// was: the row unchanged, and no cell waiting.
pub proof fn lemma_select_same_twice(p: PuzzleModel, index: usize)
    requires
        p.wf(),
        p.pending is None,
        p.is_interior(index),
    ensures
        p.select(index).select(index) == p,
{
    assert(swapped(p.current, index as int, index as int) =~= p.current);
}

/// Choosing a cell and then another makes the two change places: each has
/// the colour that the other had, every other cell keeps its own, and no
/// cell waits any more.
pub proof fn lemma_select_two(p: PuzzleModel, i: usize, j: usize)
    requires
        p.wf(),
        p.pending is None,
        p.is_interior(i),
        p.is_interior(j),
        i != j,
    ensures
        p.select(i).select(j).pending is None,
        p.select(i).select(j).solved == p.solved,
        p.select(i).select(j).current.len() == p.current.len(),
        p.select(i).select(j).current[i as int] == p.current[j as int],
        p.select(i).select(j).current[j as int] == p.current[i as int],
        forall|k: int|
            0 <= k < p.current.len() && k != i && k != j ==> #[trigger] p.select(i).select(
                j,
            ).current[k] == p.current[k],
{
}

/// Looking for a win any number of times changes nothing while the row is
/// out of order: in a run of puzzles that each come from the one before by
/// such a look, all are the first one if that one is unsolved.
pub proof fn lemma_idle_ticks(run: Seq<PuzzleModel>)
    requires
        run.len() >= 1,
        !run[0].is_solved(),
        forall|k: int| 0 <= k < run.len() - 1 ==> (#[trigger] run[k]).ticks_to(run[k + 1]),
    ensures
        forall|k: int| 0 <= k < run.len() ==> #[trigger] run[k] == run[0],
    decreases run.len(),
{
    if run.len() >= 2 {
        let shorter = run.drop_last();
        assert forall|k: int| 0 <= k < shorter.len() - 1 implies (#[trigger] shorter[k]).ticks_to(
            shorter[k + 1],
        ) by {
            assert(run[k].ticks_to(run[k + 1]));
        }
        lemma_idle_ticks(shorter);
        let last = run.len() - 1;
        assert(shorter[last - 1] == run[0]);
        assert(run[last - 1].ticks_to(run[last]));
        assert forall|k: int| 0 <= k < run.len() implies #[trigger] run[k] == run[0] by {
            if k < last {
                assert(shorter[k] == run[0]);
            }
        }
    }
}

/// A look for a win leaves a well-formed puzzle well formed.
pub proof fn lemma_tick_keeps_wf(p: PuzzleModel, after: PuzzleModel)
    requires
        p.wf(),
        p.ticks_to(after),
    ensures
        after.wf(),
        after.solved.len() == p.solved.len(),
{
}

/// A puzzle in play.
pub struct PuzzleState {
    solved: Vec<Color>,
    current: Vec<Color>,
    pending_selection: Option<usize>,
}

impl View for PuzzleState {
    type V = PuzzleModel;

    closed spec fn view(&self) -> PuzzleModel {
        PuzzleModel {
            solved: self.solved@,
            current: self.current@,
            pending: self.pending_selection,
        }
    }
}

/// Whether two rows hold the same colours in the same places.
fn same_colors(a: &Vec<Color>, b: &Vec<Color>) -> (same: bool)
    ensures
        same == (a@ == b@),
{
    if a.len() != b.len() {
        return false;
    }
    let mut i: usize = 0;
    while i < a.len()
        invariant
            a@.len() == b@.len(),
            i <= a@.len(),
            forall|k: int| 0 <= k < i ==> a@[k] == b@[k],
        decreases a@.len() - i,
    {
        if a[i] != b[i] {
            return false;
        }
        i += 1;
    }
    assert(a@ =~= b@);
    true
}

impl PuzzleState {
    /// Whether the puzzle is well formed. Every puzzle that this library
    /// hands out is, and stays so under its methods.
    pub open spec fn wf(&self) -> bool {
        self@.wf()
    }

    /// The puzzle with the given solved gradient and the given row, and no
    /// cell waiting.
    pub fn from_gradients(solved: Vec<Color>, current: Vec<Color>) -> (state: PuzzleState)
        requires
            solved@.len() >= 3,
            is_arrangement(current@, solved@),
        ensures
            state.wf(),
            state@ == (PuzzleModel { solved: solved@, current: current@, pending: None }),
    {
        PuzzleState { solved, current, pending_selection: None }
    }

    /// A fresh puzzle of `n` colours: a gradient between two colours drawn
    /// at random, shown with its interior shuffled, and no cell waiting.
    /// Nothing keeps the shuffle from leaving the gradient in order.
    pub fn with_len(n: usize) -> (state: PuzzleState)
        requires
            n >= 3,
        ensures
            state.wf(),
            state@.pending is None,
            state@.solved.len() == n,
            is_gradient(state@.solved),
            all_opaque(state@.solved),
    {
        let solved = random_gradient(n);
        let current = shuffled_gradient(&solved);
        PuzzleState::from_gradients(solved, current)
    }

    /// A fresh puzzle of [`GRADIENT_LEN`] colours; see
    /// [`PuzzleState::with_len`].
    pub fn new() -> (state: PuzzleState)
        ensures
            state.wf(),
            state@.pending is None,
            state@.solved.len() == GRADIENT_LEN,
            is_gradient(state@.solved),
            all_opaque(state@.solved),
    {
        let solved = generate_gradient();
        let current = shuffled_gradient(&solved);
        PuzzleState::from_gradients(solved, current)
    }

    /// The row as it stands, first cell first.
    pub fn current(&self) -> (colors: &[Color])
        ensures
            colors@ == self@.current,
    {
        self.current.as_slice()
    }

    /// The gradient in order.
    pub fn solved(&self) -> (colors: &[Color])
        ensures
            colors@ == self@.solved,
    {
        self.solved.as_slice()
    }

    /// The position of the cell that waits for a partner, if one does.
    pub fn pending_selection(&self) -> (pending: Option<usize>)
        ensures
            pending == self@.pending,
    {
        self.pending_selection
    }

    /// Whether the row is in order.
    pub fn is_solved(&self) -> (done: bool)
        ensures
            done == self@.is_solved(),
    {
        same_colors(&self.current, &self.solved)
    }

    /// Takes the player's choice of the cell at `index`, which must be an
    /// interior one; see [`PuzzleModel::select`].
    pub fn select_or_swap(&mut self, index: usize)
        requires
            old(self).wf(),
            old(self)@.is_interior(index),
        ensures
            final(self)@ == old(self)@.select(index),
            final(self).wf(),
    {
        proof {
            lemma_select_keeps_wf(self@, index);
        }
        match self.pending_selection {
            None => {
                self.pending_selection = Some(index);
            },
            Some(other) => {
                let chosen = self.current[index];
                let waiting = self.current[other];
                self.current.set(other, chosen);
                self.current.set(index, waiting);
                self.pending_selection = None;
            },
        }
    }

    /// Looks whether the player has won, once per frame. While the row is
    /// out of order nothing happens. Once it is in order, the puzzle is
    /// replaced by a fresh one of the same length, with no cell waiting; see
    /// [`PuzzleModel::ticks_to`].
    pub fn tick(&mut self)
        requires
            old(self).wf(),
        ensures
            final(self).wf(),
            old(self)@.ticks_to(final(self)@),
    {
        if self.is_solved() {
            *self = PuzzleState::with_len(self.solved.len());
        }
    }
}

} // verus!
