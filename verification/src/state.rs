//! The turn state machine of a game: wall placement, spread, isolation and
//! the terminal conditions.

use vstd::prelude::*;
use crate::bfs::{
    CloneEvent, copy_cells, evaluate_sealed_enclosure_dieoff, expand_biomass_step_by_step,
    expansion_valid, history_view, lemma_dieoff_complete, starved, step_targets, targets_before,
};
use crate::grid::{CellType, Edge, EdgeState, Grid};
use crate::level::{Level, get_levels, level_catalogue};

verus! {

/// The phase of a turn.
#[derive(Debug, Clone, Copy, PartialEq, Eq, Structural)]
pub enum GamePhase {
    PlayerTurn,
    BiomassExpansion,
    IsolationCheck,
    Victory,
    Defeat,
}

/// A sound the game asks to be played.
#[derive(Debug, Clone, Copy, PartialEq, Eq, Structural)]
pub enum SoundTrigger {
    WallPlace,
    BiomassTick,
    IsolationPop,
    WinFanfare,
    GrandFanfare,
    LossAlert,
    ButtonClick,
    InvalidMove,
}

/// The state of a game in progress.
///
/// The spread is played back one step at a time; when the next step is due
/// is decided by the caller's clock (see [`GameState::update`]).
pub struct GameState {
    pub levels: Vec<Level>,
    pub current_level_idx: usize,
    pub level: Level,
    pub grid: Grid,
    pub turn_number: usize,
    pub walls_left: usize,
    pub phase: GamePhase,
    pub placed_walls_this_turn: Vec<Edge>,
    pub expansion_steps: Vec<Vec<CloneEvent>>,
    pub current_anim_step: usize,
    pub dying_biomass: Vec<(usize, usize)>,
    pub newly_cloned_this_step: Vec<CloneEvent>,
    pub newly_starved_this_step: Vec<(usize, usize)>,
    pub star_rating: usize,
}

/// The star rating for clearing a level in `turns` turns.
pub open spec fn stars_for(turns: int, thresholds: (usize, usize)) -> int {
    if turns <= thresholds.0 {
        3
    } else if turns <= thresholds.1 {
        2
    } else {
        1
    }
}

/// The clones of the first `s` steps of a spread, step after step.
pub open spec fn events_before(hist: Seq<Seq<CloneEvent>>, s: int) -> Seq<CloneEvent>
    decreases s,
{
    if s <= 0 {
        Seq::empty()
    } else {
        events_before(hist, s - 1) + hist[s - 1]
    }
}

impl GameState {
    /// The state is consistent: a valid current level, its grid, and the
    /// wall budget of the turn split between walls left and walls placed
    /// this turn, each placed wall standing on an interior edge.
    pub open spec fn wf(&self) -> bool {
        &&& self.levels@.len() > 0
        &&& forall|i: int| 0 <= i < self.levels@.len() ==> #[trigger] self.levels@[i].valid()
        &&& self.current_level_idx < self.levels@.len()
        &&& self.level == self.levels@[self.current_level_idx as int]
        &&& self.grid.wf()
        &&& self.grid.rows == self.level.rows
        &&& self.grid.cols == self.level.cols
        &&& self.walls_left + self.placed_walls_this_turn@.len() == self.level.walls_per_turn
        &&& self.placed_walls_this_turn@.no_duplicates()
        &&& forall|k: int|
            0 <= k < self.placed_walls_this_turn@.len() ==> {
                &&& self.grid.edge_in_range(#[trigger] self.placed_walls_this_turn@[k])
                &&& self.grid.edge_at(self.placed_walls_this_turn@[k]) == EdgeState::Wall
            }
        &&& self.current_anim_step <= self.expansion_steps@.len()
        &&& self.turn_number >= 1
    }

    /// The state is the start of its current level.
    pub open spec fn at_level_start(&self) -> bool {
        &&& self.grid.starts(self.level)
        &&& self.turn_number == 1
        &&& self.walls_left == self.level.walls_per_turn
        &&& self.phase == GamePhase::PlayerTurn
        &&& self.placed_walls_this_turn@.len() == 0
        &&& self.expansion_steps@.len() == 0
        &&& self.current_anim_step == 0
        &&& self.dying_biomass@.len() == 0
        &&& self.newly_cloned_this_step@.len() == 0
        &&& self.newly_starved_this_step@.len() == 0
        &&& self.star_rating == 3
    }

    /// The level, the turn counters and the record of the turn are those of `other`.
    pub open spec fn same_progress(&self, other: &GameState) -> bool {
        &&& self.levels@ == other.levels@
        &&& self.current_level_idx == other.current_level_idx
        &&& self.level == other.level
        &&& self.turn_number == other.turn_number
        &&& self.star_rating == other.star_rating
    }

    /// The spread of the turn is pending or under way: the recorded steps
    /// are a valid run of the spread on this grid at the level's limits.
    pub open spec fn spread_recorded(&self) -> bool {
        expansion_valid(
            &self.grid,
            history_view(self.expansion_steps@),
            self.level.spread_steps as int,
            self.level.walls_per_turn * 2,
        )
    }

    /// The die-off of the isolation phase is pending: the dying list holds,
    /// each once, the cells that starve on this grid, and the same cells are
    /// recorded as newly starved.
    pub open spec fn isolation_pending(&self) -> bool {
        &&& self.phase == GamePhase::IsolationCheck
        &&& self.dying_biomass@.no_duplicates()
        &&& forall|p: (usize, usize)|
            #[trigger] self.dying_biomass@.contains(p) <==> starved(&self.grid, p)
        &&& self.newly_starved_this_step@ == self.dying_biomass@
    }

    /// The state right after the player's turn ended: a run of the spread is
    /// recorded and playback starts at its first step; with no step to play,
    /// the isolation phase is entered at once.
    pub open spec fn turn_ended(&self) -> bool {
        &&& self.spread_recorded()
        &&& self.current_anim_step == 0
        &&& if self.expansion_steps@.len() == 0 {
            self.isolation_pending()
        } else {
            self.phase == GamePhase::BiomassExpansion
        }
    }

    /// Effect of placing a wall on `edge` in `pre`, as seen in `post`: the
    /// wall stands, it is recorded as placed this turn and costs one wall;
    /// cells are untouched. When walls are left the turn goes on, otherwise
    /// the turn ends.
    pub open spec fn wall_placed(pre: &GameState, edge: Edge, post: &GameState) -> bool {
        &&& post.same_progress(pre)
        &&& post.newly_cloned_this_step@ == pre.newly_cloned_this_step@
        &&& post.placed_walls_this_turn@ == pre.placed_walls_this_turn@.push(edge)
        &&& post.walls_left == pre.walls_left - 1
        &&& post.grid.rows == pre.grid.rows
        &&& post.grid.cols == pre.grid.cols
        &&& forall|e: Edge|
            #[trigger] post.grid.edge_at(e) == if e == edge {
                EdgeState::Wall
            } else {
                pre.grid.edge_at(e)
            }
        &&& forall|r: int, c: int| #[trigger] post.grid.cell_at(r, c) == pre.grid.cell_at(r, c)
        &&& if post.walls_left > 0 {
            &&& post.phase == GamePhase::PlayerTurn
            &&& post.expansion_steps@ == pre.expansion_steps@
            &&& post.current_anim_step == pre.current_anim_step
            &&& post.dying_biomass@ == pre.dying_biomass@
            &&& post.newly_starved_this_step@ == pre.newly_starved_this_step@
        } else {
            post.turn_ended()
        }
    }

    /// Effect of taking back the wall placed on `edge` this turn: the edge is
    /// passable again, the wall is refunded, and nothing else changes.
    pub open spec fn wall_removed(pre: &GameState, edge: Edge, post: &GameState) -> bool {
        &&& post.same_progress(pre)
        &&& post.phase == pre.phase
        &&& post.newly_cloned_this_step@ == pre.newly_cloned_this_step@
        &&& post.expansion_steps@ == pre.expansion_steps@
        &&& post.current_anim_step == pre.current_anim_step
        &&& post.dying_biomass@ == pre.dying_biomass@
        &&& post.newly_starved_this_step@ == pre.newly_starved_this_step@
        &&& exists|i: int|
            0 <= i < pre.placed_walls_this_turn@.len() && pre.placed_walls_this_turn@[i] == edge
                && post.placed_walls_this_turn@ == pre.placed_walls_this_turn@.remove(i)
        &&& post.walls_left == pre.walls_left + 1
        &&& post.grid.rows == pre.grid.rows
        &&& post.grid.cols == pre.grid.cols
        &&& forall|e: Edge|
            #[trigger] post.grid.edge_at(e) == if e == edge {
                EdgeState::Passable
            } else {
                pre.grid.edge_at(e)
            }
        &&& forall|r: int, c: int| #[trigger] post.grid.cell_at(r, c) == pre.grid.cell_at(r, c)
    }

    /// Effect of a due playback tick of the spread: the next recorded step,
    /// if any, turns its infected cells into biomass and is recorded as new;
    /// once every step has played, the isolation phase is entered.
    pub open spec fn spread_ticked(
        pre: &GameState,
        post: &GameState,
        sound: Option<SoundTrigger>,
    ) -> bool {
        let steps = pre.expansion_steps@;
        let cur = pre.current_anim_step;
        &&& post.same_progress(pre)
        &&& post.walls_left == pre.walls_left
        &&& post.placed_walls_this_turn@ == pre.placed_walls_this_turn@
        &&& post.expansion_steps@ == steps
        &&& post.grid.rows == pre.grid.rows
        &&& post.grid.cols == pre.grid.cols
        &&& forall|e: Edge| #[trigger] post.grid.edge_at(e) == pre.grid.edge_at(e)
        &&& if cur < steps.len() {
            &&& post.current_anim_step == cur + 1
            &&& sound == Some(SoundTrigger::BiomassTick)
            &&& post.newly_cloned_this_step@ == pre.newly_cloned_this_step@ + steps[cur as int]@
            &&& forall|r: int, c: int|
                #[trigger] post.grid.cell_at(r, c) == if pre.grid.in_bounds(r, c) && step_targets(
                    steps[cur as int]@,
                ).contains((r as usize, c as usize)) {
                    CellType::Biomass
                } else {
                    pre.grid.cell_at(r, c)
                }
        } else {
            &&& post.current_anim_step == cur
            &&& sound == None::<SoundTrigger>
            &&& post.newly_cloned_this_step@ == pre.newly_cloned_this_step@
            &&& post.grid == pre.grid
        }
        &&& if post.current_anim_step >= steps.len() {
            post.isolation_pending()
        } else {
            &&& post.phase == GamePhase::BiomassExpansion
            &&& post.dying_biomass@ == pre.dying_biomass@
            &&& post.newly_starved_this_step@ == pre.newly_starved_this_step@
        }
    }

    /// Effect of the isolation phase: the dying cells are emptied; then with
    /// no biomass left the level is won and rated, with biomass at the
    /// level's threshold or no legal wall left it is lost, and otherwise the
    /// next player turn starts with a fresh wall budget.
    pub open spec fn isolation_resolved(
        pre: &GameState,
        post: &GameState,
        sound: Option<SoundTrigger>,
    ) -> bool {
        let count = post.grid.biomass_cells().len();
        &&& post.levels@ == pre.levels@
        &&& post.current_level_idx == pre.current_level_idx
        &&& post.level == pre.level
        &&& post.dying_biomass@.len() == 0
        &&& post.newly_starved_this_step@ == pre.newly_starved_this_step@
        &&& post.newly_cloned_this_step@ == pre.newly_cloned_this_step@
        &&& post.expansion_steps@ == pre.expansion_steps@
        &&& post.current_anim_step == pre.current_anim_step
        &&& post.grid.rows == pre.grid.rows
        &&& post.grid.cols == pre.grid.cols
        &&& forall|e: Edge| #[trigger] post.grid.edge_at(e) == pre.grid.edge_at(e)
        &&& forall|r: int, c: int|
            #[trigger] post.grid.cell_at(r, c) == if pre.grid.in_bounds(r, c)
                && pre.dying_biomass@.contains((r as usize, c as usize)) {
                CellType::Empty
            } else {
                pre.grid.cell_at(r, c)
            }
        &&& if count == 0 {
            &&& post.phase == GamePhase::Victory
            &&& post.star_rating == stars_for(pre.turn_number as int, pre.level.star_thresholds)
            &&& sound == Some(
                if pre.current_level_idx + 1 >= pre.levels@.len() {
                    SoundTrigger::GrandFanfare
                } else {
                    SoundTrigger::WinFanfare
                },
            )
            &&& post.turn_number == pre.turn_number
            &&& post.walls_left == pre.walls_left
            &&& post.placed_walls_this_turn@ == pre.placed_walls_this_turn@
        } else if count >= pre.level.max_threshold || (!(exists|e: Edge|
            #[trigger] post.grid.wall_placeable(e)) && count > 0) {
            &&& post.phase == GamePhase::Defeat
            &&& sound == Some(SoundTrigger::LossAlert)
            &&& post.star_rating == pre.star_rating
            &&& post.turn_number == pre.turn_number
            &&& post.walls_left == pre.walls_left
            &&& post.placed_walls_this_turn@ == pre.placed_walls_this_turn@
        } else {
            &&& post.phase == GamePhase::PlayerTurn
            &&& post.turn_number == pre.turn_number + 1
            &&& post.walls_left == pre.level.walls_per_turn
            &&& post.placed_walls_this_turn@.len() == 0
            &&& post.star_rating == pre.star_rating
            &&& sound == if pre.dying_biomass@.len() > 0 {
                Some(SoundTrigger::IsolationPop)
            } else {
                None
            }
        }
    }

    /// A new game at the saved level, or at the last level when the saved
    /// index lies beyond it.
    pub fn new(saved_level: usize) -> (s: GameState)
        ensures
            s.wf(),
            s.levels@ == level_catalogue(),
            s.current_level_idx == if saved_level < s.levels@.len() {
                saved_level as int
            } else {
                s.levels@.len() - 1
            },
            s.at_level_start(),
    {
        let levels = get_levels();
        let last = levels.len() - 1;
        let level_idx = if saved_level < last {
            saved_level
        } else {
            last
        };
        let level = levels[level_idx];
        assert(levels@[level_idx as int].valid());
        let grid = level.create_initial_grid();
        let walls_left = level.walls_per_turn;
        GameState {
            levels,
            current_level_idx: level_idx,
            level,
            grid,
            turn_number: 1,
            walls_left,
            phase: GamePhase::PlayerTurn,
            placed_walls_this_turn: Vec::new(),
            expansion_steps: Vec::new(),
            current_anim_step: 0,
            dying_biomass: Vec::new(),
            newly_cloned_this_step: Vec::new(),
            newly_starved_this_step: Vec::new(),
            star_rating: 3,
        }
    }

    /// Moves to level `level_idx` and starts it over, when such a level
    /// exists; returns whether it did. A loaded level is the one to record as
    /// reached.
    pub fn load_level(&mut self, level_idx: usize) -> (loaded: bool)
        requires
            old(self).wf(),
        ensures
            final(self).wf(),
            loaded == (level_idx < old(self).levels@.len()),
            final(self).levels@ == old(self).levels@,
            loaded ==> final(self).current_level_idx == level_idx && final(self).at_level_start(),
            !loaded ==> *final(self) == *old(self),
    {
        if level_idx < self.levels.len() {
            self.init_level(level_idx);
            true
        } else {
            false
        }
    }

    /// Starts the current level over.
    pub fn reset_level(&mut self)
        requires
            old(self).wf(),
        ensures
            final(self).wf(),
            final(self).levels@ == old(self).levels@,
            final(self).current_level_idx == old(self).current_level_idx,
            final(self).at_level_start(),
    {
        let idx = self.current_level_idx;
        self.init_level(idx);
    }

    fn init_level(&mut self, level_idx: usize)
        requires
            old(self).wf(),
            level_idx < old(self).levels@.len(),
        ensures
            final(self).wf(),
            final(self).levels@ == old(self).levels@,
            final(self).current_level_idx == level_idx,
            final(self).at_level_start(),
    {
        self.current_level_idx = level_idx;
        self.level = self.levels[level_idx];
        assert(self.levels@[level_idx as int].valid());
        self.grid = self.level.create_initial_grid();
        self.turn_number = 1;
        self.walls_left = self.level.walls_per_turn;
        self.phase = GamePhase::PlayerTurn;
        self.placed_walls_this_turn.clear();
        self.expansion_steps.clear();
        self.current_anim_step = 0;
        self.dying_biomass.clear();
        self.newly_cloned_this_step.clear();
        self.newly_starved_this_step.clear();
        self.star_rating = 3;
    }

    /// Places a wall on `edge` during the player's turn, if walls are left
    /// and the edge takes one; returns whether it did. Placing the last wall
    /// of the turn ends the turn.
    pub fn try_place_wall(&mut self, edge: Edge) -> (placed: bool)
        requires
            old(self).wf(),
        ensures
            final(self).wf(),
            placed == (old(self).phase == GamePhase::PlayerTurn && old(self).walls_left > 0
                && old(self).grid.wall_placeable(edge)),
            placed ==> GameState::wall_placed(old(self), edge, final(self)),
            !placed ==> *final(self) == *old(self),
    {
        if self.phase != GamePhase::PlayerTurn || self.walls_left == 0 {
            return false;
        }
        if self.grid.can_place_wall(edge) {
            let ghost pre = *self;
            self.grid.set_edge(edge, EdgeState::Wall);
            self.placed_walls_this_turn.push(edge);
            self.walls_left = self.walls_left - 1;
            proof {
                assert forall|k: int| 0 <= k < self.placed_walls_this_turn@.len() implies {
                    &&& self.grid.edge_in_range(#[trigger] self.placed_walls_this_turn@[k])
                    &&& self.grid.edge_at(self.placed_walls_this_turn@[k]) == EdgeState::Wall
                } by {
                    if k < pre.placed_walls_this_turn@.len() {
                        assert(pre.grid.edge_at(pre.placed_walls_this_turn@[k]) == EdgeState::Wall);
                    }
                }
                assert(self.placed_walls_this_turn@.no_duplicates()) by {
                    let a = self.placed_walls_this_turn@;
                    let b = pre.placed_walls_this_turn@;
                    assert forall|i: int, j: int| 0 <= i < a.len() && 0 <= j < a.len() && i != j implies a[i] != a[j] by {
                        if i == b.len() {
                            assert(pre.grid.edge_at(b[j]) == EdgeState::Wall);
                        } else if j == b.len() {
                            assert(pre.grid.edge_at(b[i]) == EdgeState::Wall);
                        }
                    }
                }
            }
            if self.walls_left == 0 {
                self.end_turn();
            }
            true
        } else {
            false
        }
    }

    /// Takes back a wall placed on `edge` this turn and refunds it; returns
    /// whether it did.
    pub fn remove_placed_wall(&mut self, edge: Edge) -> (removed: bool)
        requires
            old(self).wf(),
        ensures
            final(self).wf(),
            removed == (old(self).phase == GamePhase::PlayerTurn
                && old(self).placed_walls_this_turn@.contains(edge)),
            removed ==> GameState::wall_removed(old(self), edge, final(self)),
            !removed ==> *final(self) == *old(self),
    {
        if self.phase != GamePhase::PlayerTurn {
            return false;
        }
        let pos = match position_of_edge(&self.placed_walls_this_turn, edge) {
            Some(pos) => pos,
            None => {
                return false;
            },
        };
        let ghost pre = *self;
        let ghost pre_placed = self.placed_walls_this_turn@;
        self.placed_walls_this_turn.remove(pos);
        self.grid.set_edge(edge, EdgeState::Passable);
        self.walls_left = self.walls_left + 1;
        proof {
            assert(pre_placed[pos as int] == edge);
            assert forall|k: int| 0 <= k < self.placed_walls_this_turn@.len() implies {
                &&& self.grid.edge_in_range(#[trigger] self.placed_walls_this_turn@[k])
                &&& self.grid.edge_at(self.placed_walls_this_turn@[k]) == EdgeState::Wall
            } by {
                let k2 = if k < pos {
                    k
                } else {
                    k + 1
                };
                assert(self.placed_walls_this_turn@[k] == pre_placed[k2]);
                assert(pre.grid.edge_at(pre_placed[k2]) == EdgeState::Wall);
            }
            assert(self.placed_walls_this_turn@.no_duplicates()) by {
                let a = self.placed_walls_this_turn@;
                assert forall|i: int, j: int| 0 <= i < a.len() && 0 <= j < a.len() && i != j implies a[i] != a[j] by {
                    let i2 = if i < pos {
                        i
                    } else {
                        i + 1
                    };
                    let j2 = if j < pos {
                        j
                    } else {
                        j + 1
                    };
                    assert(a[i] == pre_placed[i2] && a[j] == pre_placed[j2]);
                }
            }
        }
        true
    }

    /// Ends the player's turn: computes the spread of the turn, capped at
    /// twice the walls per turn; with no step to play, moves straight to the
    /// isolation phase. Outside the player's turn it does nothing.
    pub fn end_turn(&mut self)
        requires
            old(self).wf(),
        ensures
            final(self).wf(),
            old(self).phase != GamePhase::PlayerTurn ==> *final(self) == *old(self),
            old(self).phase == GamePhase::PlayerTurn ==> {
                &&& final(self).same_progress(old(self))
                &&& final(self).grid == old(self).grid
                &&& final(self).walls_left == old(self).walls_left
                &&& final(self).placed_walls_this_turn@ == old(self).placed_walls_this_turn@
                &&& final(self).newly_cloned_this_step@ == old(self).newly_cloned_this_step@
                &&& final(self).turn_ended()
                &&& expansion_valid(
                    &old(self).grid,
                    history_view(final(self).expansion_steps@),
                    old(self).level.spread_steps as int,
                    2 * old(self).level.walls_per_turn,
                )
            },
    {
        if self.phase != GamePhase::PlayerTurn {
            return;
        }
        assert(self.levels@[self.current_level_idx as int].valid());
        let max_clones = self.level.walls_per_turn * 2;
        self.expansion_steps = expand_biomass_step_by_step(
            &self.grid,
            self.level.spread_steps,
            max_clones,
        );
        self.current_anim_step = 0;
        if self.expansion_steps.len() == 0 {
            self.apply_all_expansion();
            self.start_isolation_phase();
        } else {
            self.phase = GamePhase::BiomassExpansion;
        }
    }

    /// Advances the game by one frame. `step_due` tells whether the caller's
    /// playback clock has reached the next spread step. In the spread phase a
    /// due tick plays the next step; in the isolation phase the die-off is
    /// applied and the terminal conditions are evaluated; other phases wait.
    /// Returns the sound to play, if any.
    pub fn update(&mut self, step_due: bool) -> (sound: Option<SoundTrigger>)
        requires
            old(self).wf(),
            old(self).turn_number < usize::MAX,
        ensures
            final(self).wf(),
            old(self).phase == GamePhase::BiomassExpansion && step_due ==> GameState::spread_ticked(
                old(self),
                final(self),
                sound,
            ),
            old(self).phase == GamePhase::IsolationCheck ==> GameState::isolation_resolved(
                old(self),
                final(self),
                sound,
            ),
            ((old(self).phase == GamePhase::BiomassExpansion && !step_due) || old(self).phase
                == GamePhase::PlayerTurn || old(self).phase == GamePhase::Victory || old(self).phase
                == GamePhase::Defeat) ==> *final(self) == *old(self) && sound == None::<SoundTrigger>,
            old(self).phase == GamePhase::IsolationCheck && final(self).phase == GamePhase::Victory
                ==> {
                &&& old(self).turn_number <= old(self).level.star_thresholds.0 ==> final(self).star_rating == 3
                &&& old(self).level.star_thresholds.0 < old(self).turn_number
                    <= old(self).level.star_thresholds.1 ==> final(self).star_rating == 2
                &&& old(self).level.star_thresholds.0 < old(self).turn_number
                    && old(self).level.star_thresholds.1 < old(self).turn_number ==> final(self).star_rating == 1
            },
    {
        let mut sound_trigger: Option<SoundTrigger> = None;
        match self.phase {
            GamePhase::BiomassExpansion => {
                if step_due {
                    if self.current_anim_step < self.expansion_steps.len() {
                        let cur = self.current_anim_step;
                        self.apply_step(cur);
                        sound_trigger = Some(SoundTrigger::BiomassTick);
                        self.current_anim_step = cur + 1;
                    }
                    if self.current_anim_step >= self.expansion_steps.len() {
                        self.start_isolation_phase();
                    }
                }
            },
            GamePhase::IsolationCheck => {
                let ghost pre = *self;
                let mut i: usize = 0;
                while i < self.dying_biomass.len()
                    invariant
                        self.wf(),
                        self.same_progress(&pre),
                        self.phase == pre.phase,
                        self.walls_left == pre.walls_left,
                        self.placed_walls_this_turn@ == pre.placed_walls_this_turn@,
                        self.expansion_steps@ == pre.expansion_steps@,
                        self.current_anim_step == pre.current_anim_step,
                        self.dying_biomass@ == pre.dying_biomass@,
                        self.newly_starved_this_step@ == pre.newly_starved_this_step@,
                        self.newly_cloned_this_step@ == pre.newly_cloned_this_step@,
                        i <= self.dying_biomass@.len(),
                        self.grid.rows == pre.grid.rows,
                        self.grid.cols == pre.grid.cols,
                        forall|e: Edge| #[trigger] self.grid.edge_at(e) == pre.grid.edge_at(e),
                        forall|r: int, c: int|
                            #[trigger] self.grid.cell_at(r, c) == if pre.grid.in_bounds(r, c)
                                && exists|j: int|
                                0 <= j < i && #[trigger] pre.dying_biomass@[j] == (
                                r as usize,
                                c as usize,
                            ) {
                                CellType::Empty
                            } else {
                                pre.grid.cell_at(r, c)
                            },
                    decreases self.dying_biomass@.len() - i,
                {
                    let (r, c) = self.dying_biomass[i];
                    self.grid.set_cell(r, c, CellType::Empty);
                    proof {
                        assert forall|r2: int, c2: int|
                            #[trigger] self.grid.cell_at(r2, c2) == if pre.grid.in_bounds(r2, c2)
                                && exists|j: int|
                                0 <= j < i + 1 && #[trigger] pre.dying_biomass@[j] == (
                                r2 as usize,
                                c2 as usize,
                            ) {
                                CellType::Empty
                            } else {
                                pre.grid.cell_at(r2, c2)
                            } by {
                            if pre.grid.in_bounds(r2, c2) {
                                if r2 == r && c2 == c {
                                    assert(pre.dying_biomass@[i as int] == (r2 as usize, c2 as usize));
                                } else if exists|j: int|
                                    0 <= j < i + 1 && #[trigger] pre.dying_biomass@[j] == (
                                    r2 as usize,
                                    c2 as usize,
                                ) {
                                    let j = choose|j: int|
                                        0 <= j < i + 1 && #[trigger] pre.dying_biomass@[j] == (
                                        r2 as usize,
                                        c2 as usize,
                                    );
                                    assert(j != i);
                                }
                            }
                        }
                        assert forall|q: int| 0 <= q < self.placed_walls_this_turn@.len() implies {
                            &&& self.grid.edge_in_range(#[trigger] self.placed_walls_this_turn@[q])
                            &&& self.grid.edge_at(self.placed_walls_this_turn@[q]) == EdgeState::Wall
                        } by {
                            assert(pre.grid.edge_at(pre.placed_walls_this_turn@[q]) == EdgeState::Wall);
                        }
                    }
                    i = i + 1;
                }
                proof {
                    assert forall|r: int, c: int|
                        #[trigger] self.grid.cell_at(r, c) == if pre.grid.in_bounds(r, c)
                            && pre.dying_biomass@.contains((r as usize, c as usize)) {
                            CellType::Empty
                        } else {
                            pre.grid.cell_at(r, c)
                        } by {
                        if pre.dying_biomass@.contains((r as usize, c as usize)) {
                            let j = choose|j: int|
                                0 <= j < pre.dying_biomass@.len() && pre.dying_biomass@[j] == (
                                r as usize,
                                c as usize,
                            );
                        }
                    }
                }
                if self.dying_biomass.len() > 0 {
                    sound_trigger = Some(SoundTrigger::IsolationPop);
                }
                self.dying_biomass.clear();
                let biomass_count = self.grid.count_biomass();
                if biomass_count == 0 {
                    self.phase = GamePhase::Victory;
                    let (three_star, two_star) = self.level.star_thresholds;
                    self.star_rating = if self.turn_number <= three_star {
                        3
                    } else if self.turn_number <= two_star {
                        2
                    } else {
                        1
                    };
                    let n_levels = self.levels.len();
                    let is_last_level = self.current_level_idx + 1 >= n_levels;
                    sound_trigger = if is_last_level {
                        Some(SoundTrigger::GrandFanfare)
                    } else {
                        Some(SoundTrigger::WinFanfare)
                    };
                } else if biomass_count >= self.level.max_threshold || (
                !self.grid.has_any_legal_wall_placement() && biomass_count > 0) {
                    self.phase = GamePhase::Defeat;
                    sound_trigger = Some(SoundTrigger::LossAlert);
                } else {
                    self.turn_number = self.turn_number + 1;
                    self.walls_left = self.level.walls_per_turn;
                    self.placed_walls_this_turn.clear();
                    self.phase = GamePhase::PlayerTurn;
                }
            },
            GamePhase::PlayerTurn | GamePhase::Victory | GamePhase::Defeat => {},
        }
        sound_trigger
    }

    /// Does the edge respond to the pointer? During the player's turn, a
    /// wall placed this turn can be taken back, and with walls left an edge
    /// that takes a wall can receive one.
    pub fn is_edge_selectable(&self, edge: Edge) -> (b: bool)
        requires
            self.wf(),
        ensures
            b == (self.phase == GamePhase::PlayerTurn && (self.placed_walls_this_turn@.contains(edge)
                || (self.walls_left > 0 && self.grid.wall_placeable(edge)))),
    {
        if self.phase != GamePhase::PlayerTurn {
            return false;
        }
        match position_of_edge(&self.placed_walls_this_turn, edge) {
            Some(i) => {
                assert(self.placed_walls_this_turn@[i as int] == edge);
                true
            },
            None => self.walls_left > 0 && self.grid.can_place_wall(edge),
        }
    }

    /// Handles a click on an edge: takes back a wall placed there this turn,
    /// or places a wall when walls are left; returns the sound of the
    /// outcome, the error sound when the click does nothing.
    pub fn handle_edge_click(&mut self, edge: Edge) -> (sound: Option<SoundTrigger>)
        requires
            old(self).wf(),
        ensures
            final(self).wf(),
            old(self).placed_walls_this_turn@.contains(edge) ==> if old(self).phase
                == GamePhase::PlayerTurn {
                GameState::wall_removed(old(self), edge, final(self)) && sound == Some(
                    SoundTrigger::WallPlace,
                )
            } else {
                *final(self) == *old(self) && sound == None::<SoundTrigger>
            },
            !old(self).placed_walls_this_turn@.contains(edge) ==> if old(self).phase
                == GamePhase::PlayerTurn && old(self).walls_left > 0
                && old(self).grid.wall_placeable(edge) {
                GameState::wall_placed(old(self), edge, final(self)) && sound == Some(
                    SoundTrigger::WallPlace,
                )
            } else {
                *final(self) == *old(self) && sound == Some(SoundTrigger::InvalidMove)
            },
    {
        let in_construction = match position_of_edge(&self.placed_walls_this_turn, edge) {
            Some(i) => {
                assert(self.placed_walls_this_turn@[i as int] == edge);
                true
            },
            None => false,
        };
        if in_construction {
            if self.remove_placed_wall(edge) {
                Some(SoundTrigger::WallPlace)
            } else {
                None
            }
        } else if self.walls_left > 0 && self.try_place_wall(edge) {
            Some(SoundTrigger::WallPlace)
        } else {
            Some(SoundTrigger::InvalidMove)
        }
    }

    /// The last level of the set has been won.
    pub open spec fn campaign_complete(&self) -> bool {
        self.phase == GamePhase::Victory && self.current_level_idx + 1 >= self.levels@.len()
    }

    /// Whether the last level of the set has been won.
    pub fn is_campaign_complete(&self) -> (b: bool)
        requires
            self.wf(),
        ensures
            b == self.campaign_complete(),
            b == (self.phase == GamePhase::Victory && self.current_level_idx == self.levels@.len()
                - 1),
    {
        let n = self.levels.len();
        self.phase == GamePhase::Victory && self.current_level_idx + 1 >= n
    }

    /// The forward choice once a level is over: after the last level is won,
    /// back to the first level; after another win, on to the next level;
    /// after a defeat, on to the next level, or the last level over again
    /// when there is none. Returns whether a level was loaded (and is to be
    /// recorded as reached).
    pub fn advance_from_outcome(&mut self) -> (loaded: bool)
        requires
            old(self).wf(),
            old(self).phase == GamePhase::Victory || old(self).phase == GamePhase::Defeat,
        ensures
            final(self).wf(),
            final(self).levels@ == old(self).levels@,
            final(self).at_level_start(),
            loaded == (old(self).campaign_complete() || old(self).current_level_idx + 1
                < old(self).levels@.len()),
            final(self).current_level_idx == if old(self).campaign_complete() {
                0
            } else if old(self).current_level_idx + 1 < old(self).levels@.len() {
                old(self).current_level_idx + 1
            } else {
                old(self).current_level_idx as int
            },
            old(self).current_level_idx + 1 < old(self).levels@.len() ==> loaded && final(self).current_level_idx == old(self).current_level_idx + 1,
            old(self).current_level_idx + 1 == old(self).levels@.len() && old(self).phase
                == GamePhase::Victory ==> loaded && final(self).current_level_idx == 0,
            old(self).current_level_idx + 1 == old(self).levels@.len() && old(self).phase
                == GamePhase::Defeat ==> !loaded && final(self).current_level_idx == old(self).current_level_idx,
    {
        let n = self.levels.len();
        if self.is_campaign_complete() {
            self.load_level(0)
        } else if self.current_level_idx + 1 < n {
            let next = self.current_level_idx + 1;
            self.load_level(next)
        } else {
            self.reset_level();
            false
        }
    }

    /// Plays every recorded step of the spread at once: every infected cell
    /// becomes biomass, and all clones, step after step, are recorded as new.
    fn apply_all_expansion(&mut self)
        requires
            old(self).wf(),
        ensures
            final(self).wf(),
            old(self).expansion_steps@.len() == 0 ==> *final(self) == *old(self),
            final(self).same_progress(old(self)),
            final(self).phase == old(self).phase,
            final(self).walls_left == old(self).walls_left,
            final(self).placed_walls_this_turn@ == old(self).placed_walls_this_turn@,
            final(self).expansion_steps@ == old(self).expansion_steps@,
            final(self).current_anim_step == old(self).current_anim_step,
            final(self).dying_biomass@ == old(self).dying_biomass@,
            final(self).newly_starved_this_step@ == old(self).newly_starved_this_step@,
            final(self).newly_cloned_this_step@ == old(self).newly_cloned_this_step@
                + events_before(
                history_view(old(self).expansion_steps@),
                old(self).expansion_steps@.len() as int,
            ),
            final(self).grid.rows == old(self).grid.rows,
            final(self).grid.cols == old(self).grid.cols,
            forall|e: Edge| #[trigger] final(self).grid.edge_at(e) == old(self).grid.edge_at(e),
            forall|r: int, c: int|
                #[trigger] final(self).grid.cell_at(r, c) == if old(self).grid.in_bounds(r, c)
                    && targets_before(
                    history_view(old(self).expansion_steps@),
                    old(self).expansion_steps@.len() as int,
                ).contains((r as usize, c as usize)) {
                    CellType::Biomass
                } else {
                    old(self).grid.cell_at(r, c)
                },
    {
        let ghost pre = *self;
        let ghost hist = history_view(self.expansion_steps@);
        let mut s: usize = 0;
        while s < self.expansion_steps.len()
            invariant
                self.wf(),
                s <= self.expansion_steps@.len(),
                self.expansion_steps@ == pre.expansion_steps@,
                hist == history_view(pre.expansion_steps@),
                s == 0 ==> *self == pre,
                self.same_progress(&pre),
                self.phase == pre.phase,
                self.walls_left == pre.walls_left,
                self.placed_walls_this_turn@ == pre.placed_walls_this_turn@,
                self.current_anim_step == pre.current_anim_step,
                self.dying_biomass@ == pre.dying_biomass@,
                self.newly_starved_this_step@ == pre.newly_starved_this_step@,
                self.newly_cloned_this_step@ == pre.newly_cloned_this_step@ + events_before(
                    hist,
                    s as int,
                ),
                self.grid.rows == pre.grid.rows,
                self.grid.cols == pre.grid.cols,
                forall|e: Edge| #[trigger] self.grid.edge_at(e) == pre.grid.edge_at(e),
                forall|r: int, c: int|
                    #[trigger] self.grid.cell_at(r, c) == if pre.grid.in_bounds(r, c)
                        && targets_before(hist, s as int).contains((r as usize, c as usize)) {
                        CellType::Biomass
                    } else {
                        pre.grid.cell_at(r, c)
                    },
            decreases self.expansion_steps@.len() - s,
        {
            let ghost mid = *self;
            self.apply_step(s);
            proof {
                assert(hist[s as int] == pre.expansion_steps@[s as int]@);
                assert(targets_before(hist, s + 1) == targets_before(hist, s as int).union(
                    step_targets(hist[s as int]),
                ));
                assert(events_before(hist, s + 1) == events_before(hist, s as int) + hist[s as int]);
                assert(self.newly_cloned_this_step@ =~= pre.newly_cloned_this_step@ + events_before(
                    hist,
                    s + 1,
                ));
                assert forall|r: int, c: int|
                    #[trigger] self.grid.cell_at(r, c) == if pre.grid.in_bounds(r, c)
                        && targets_before(hist, s + 1).contains((r as usize, c as usize)) {
                        CellType::Biomass
                    } else {
                        pre.grid.cell_at(r, c)
                    } by {
                    assert(self.grid.cell_at(r, c) == if mid.grid.in_bounds(r, c) && step_targets(
                        hist[s as int],
                    ).contains((r as usize, c as usize)) {
                        CellType::Biomass
                    } else {
                        mid.grid.cell_at(r, c)
                    });
                    assert(mid.grid.cell_at(r, c) == if pre.grid.in_bounds(r, c) && targets_before(
                        hist,
                        s as int,
                    ).contains((r as usize, c as usize)) {
                        CellType::Biomass
                    } else {
                        pre.grid.cell_at(r, c)
                    });
                }
            }
            s = s + 1;
        }
    }

    /// Plays step `s` of the recorded spread: each infected cell becomes
    /// biomass, and the step's clones are recorded as new.
    fn apply_step(&mut self, s: usize)
        requires
            old(self).wf(),
            s < old(self).expansion_steps@.len(),
        ensures
            final(self).wf(),
            final(self).same_progress(old(self)),
            final(self).phase == old(self).phase,
            final(self).walls_left == old(self).walls_left,
            final(self).placed_walls_this_turn@ == old(self).placed_walls_this_turn@,
            final(self).expansion_steps@ == old(self).expansion_steps@,
            final(self).current_anim_step == old(self).current_anim_step,
            final(self).dying_biomass@ == old(self).dying_biomass@,
            final(self).newly_starved_this_step@ == old(self).newly_starved_this_step@,
            final(self).newly_cloned_this_step@ == old(self).newly_cloned_this_step@ + old(self).expansion_steps@[s as int]@,
            final(self).grid.rows == old(self).grid.rows,
            final(self).grid.cols == old(self).grid.cols,
            forall|e: Edge| #[trigger] final(self).grid.edge_at(e) == old(self).grid.edge_at(e),
            forall|r: int, c: int|
                #[trigger] final(self).grid.cell_at(r, c) == if old(self).grid.in_bounds(r, c)
                    && step_targets(old(self).expansion_steps@[s as int]@).contains(
                    (r as usize, c as usize),
                ) {
                    CellType::Biomass
                } else {
                    old(self).grid.cell_at(r, c)
                },
    {
        let ghost pre = *self;
        let ghost ev = self.expansion_steps@[s as int]@;
        let n = self.expansion_steps[s].len();
        let mut k: usize = 0;
        while k < n
            invariant
                self.wf(),
                self.same_progress(&pre),
                self.phase == pre.phase,
                self.walls_left == pre.walls_left,
                self.placed_walls_this_turn@ == pre.placed_walls_this_turn@,
                self.expansion_steps@ == pre.expansion_steps@,
                self.current_anim_step == pre.current_anim_step,
                self.dying_biomass@ == pre.dying_biomass@,
                self.newly_starved_this_step@ == pre.newly_starved_this_step@,
                s < self.expansion_steps@.len(),
                ev == self.expansion_steps@[s as int]@,
                n == ev.len(),
                k <= n,
                self.newly_cloned_this_step@ == pre.newly_cloned_this_step@ + ev.subrange(0, k as int),
                self.grid.rows == pre.grid.rows,
                self.grid.cols == pre.grid.cols,
                forall|e: Edge| #[trigger] self.grid.edge_at(e) == pre.grid.edge_at(e),
                forall|r: int, c: int|
                    #[trigger] self.grid.cell_at(r, c) == if pre.grid.in_bounds(r, c) && exists|j: int|
                        0 <= j < k && #[trigger] ev[j].to == (r as usize, c as usize) {
                        CellType::Biomass
                    } else {
                        pre.grid.cell_at(r, c)
                    },
            decreases n - k,
        {
            let event = self.expansion_steps[s][k];
            assert(event == ev[k as int]);
            self.grid.set_cell(event.to.0, event.to.1, CellType::Biomass);
            self.newly_cloned_this_step.push(event);
            proof {
                assert(self.newly_cloned_this_step@ =~= pre.newly_cloned_this_step@ + ev.subrange(
                    0,
                    k + 1,
                ));
                assert forall|r: int, c: int|
                    #[trigger] self.grid.cell_at(r, c) == if pre.grid.in_bounds(r, c) && exists|j: int|
                        0 <= j < k + 1 && #[trigger] ev[j].to == (r as usize, c as usize) {
                        CellType::Biomass
                    } else {
                        pre.grid.cell_at(r, c)
                    } by {
                    if pre.grid.in_bounds(r, c) {
                        if r == event.to.0 && c == event.to.1 {
                            assert(ev[k as int].to == (r as usize, c as usize));
                        } else if exists|j: int|
                            0 <= j < k + 1 && #[trigger] ev[j].to == (r as usize, c as usize) {
                            let j = choose|j: int|
                                0 <= j < k + 1 && #[trigger] ev[j].to == (r as usize, c as usize);
                            assert(j != k);
                        }
                    }
                }
                assert forall|q: int| 0 <= q < self.placed_walls_this_turn@.len() implies {
                    &&& self.grid.edge_in_range(#[trigger] self.placed_walls_this_turn@[q])
                    &&& self.grid.edge_at(self.placed_walls_this_turn@[q]) == EdgeState::Wall
                } by {
                    assert(pre.grid.edge_at(pre.placed_walls_this_turn@[q]) == EdgeState::Wall);
                }
            }
            k = k + 1;
        }
        proof {
            assert(ev.subrange(0, n as int) =~= ev);
        }
    }

    /// Enters the isolation phase: the cells that starve on the current grid
    /// are marked as dying and recorded as newly starved.
    fn start_isolation_phase(&mut self)
        requires
            old(self).wf(),
        ensures
            final(self).wf(),
            final(self).same_progress(old(self)),
            final(self).grid == old(self).grid,
            final(self).walls_left == old(self).walls_left,
            final(self).placed_walls_this_turn@ == old(self).placed_walls_this_turn@,
            final(self).expansion_steps@ == old(self).expansion_steps@,
            final(self).current_anim_step == old(self).current_anim_step,
            final(self).newly_cloned_this_step@ == old(self).newly_cloned_this_step@,
            final(self).isolation_pending(),
    {
        self.phase = GamePhase::IsolationCheck;
        self.dying_biomass = evaluate_sealed_enclosure_dieoff(&self.grid);
        self.newly_starved_this_step = copy_cells(&self.dying_biomass);
    }
}

/// Placing a wall and taking it back in the same turn restores the walls,
/// the wall budget and the record of the turn.
pub proof fn lemma_place_then_remove(s0: &GameState, edge: Edge, s1: &GameState, s2: &GameState)
    requires
        s0.wf(),
        s0.phase == GamePhase::PlayerTurn,
        s0.grid.wall_placeable(edge),
        GameState::wall_placed(s0, edge, s1),
        s1.walls_left > 0,
        GameState::wall_removed(s1, edge, s2),
    ensures
        s2.phase == s0.phase,
        s2.same_progress(s0),
        s2.walls_left == s0.walls_left,
        s2.placed_walls_this_turn@ == s0.placed_walls_this_turn@,
        forall|e: Edge| #[trigger] s2.grid.edge_at(e) == s0.grid.edge_at(e),
        forall|r: int, c: int| #[trigger] s2.grid.cell_at(r, c) == s0.grid.cell_at(r, c),
{
    let p0 = s0.placed_walls_this_turn@;
    let p1 = s1.placed_walls_this_turn@;
    let i = choose|i: int| 0 <= i < p1.len() && p1[i] == edge && s2.placed_walls_this_turn@ == p1.remove(i);
    if i < p0.len() {
        assert(p1[i] == p0[i]);
        assert(s0.grid.edge_at(p0[i]) == EdgeState::Wall);
    }
    assert(p1.remove(i) =~= p0);
    assert forall|e: Edge| #[trigger] s2.grid.edge_at(e) == s0.grid.edge_at(e) by {
        if e == edge {
            assert(s1.grid.edge_at(e) == EdgeState::Wall);
        } else {
            assert(s2.grid.edge_at(e) == s1.grid.edge_at(e));
            assert(s1.grid.edge_at(e) == s0.grid.edge_at(e));
        }
    }
    assert forall|r: int, c: int| #[trigger] s2.grid.cell_at(r, c) == s0.grid.cell_at(r, c) by {
        assert(s2.grid.cell_at(r, c) == s1.grid.cell_at(r, c));
    }
}

/// A level cleared in more turns never earns more stars, and the rating
/// lies between one and three stars.
pub proof fn lemma_stars_monotone(t1: int, t2: int, thresholds: (usize, usize))
    requires
        t1 <= t2,
    ensures
        stars_for(t2, thresholds) <= stars_for(t1, thresholds),
        1 <= stars_for(t1, thresholds) <= 3,
{
}

/// The isolation check leaves no sealed biomass: when the pending die-off
/// is the set of starved cells, no biomass cell left after the check starves.
pub proof fn lemma_isolation_leaves_no_starved(
    pre: &GameState,
    post: &GameState,
    sound: Option<SoundTrigger>,
)
    requires
        pre.isolation_pending(),
        GameState::isolation_resolved(pre, post, sound),
    ensures
        forall|p: (usize, usize)| !#[trigger] starved(&post.grid, p),
{
    assert forall|r: int, c: int|
        #[trigger] post.grid.cell_at(r, c) == if pre.grid.in_bounds(r, c) && starved(
            &pre.grid,
            (r as usize, c as usize),
        ) {
            CellType::Empty
        } else {
            pre.grid.cell_at(r, c)
        } by {
        if pre.grid.in_bounds(r, c) {
            assert(pre.dying_biomass@.contains((r as usize, c as usize)) == starved(
                &pre.grid,
                (r as usize, c as usize),
            ));
        }
    }
    lemma_dieoff_complete(&pre.grid, &post.grid);
}

/// A won level is rated by its turn count against the level's two
/// thresholds: three stars up to the first, two up to the second, one
/// beyond both.
pub proof fn lemma_victory_rating(pre: &GameState, post: &GameState, sound: Option<SoundTrigger>)
    requires
        GameState::isolation_resolved(pre, post, sound),
        post.phase == GamePhase::Victory,
    ensures
        post.grid.biomass_cells().len() == 0,
        pre.turn_number <= pre.level.star_thresholds.0 ==> post.star_rating == 3,
        pre.level.star_thresholds.0 < pre.turn_number <= pre.level.star_thresholds.1
            ==> post.star_rating == 2,
        pre.level.star_thresholds.0 < pre.turn_number && pre.level.star_thresholds.1
            < pre.turn_number ==> post.star_rating == 1,
{
}

/// The spread recorded for a turn is a valid run at the level's limits: at
/// most `spread_steps` steps and a budget of twice the walls per turn in
/// clones.
pub proof fn lemma_spread_budget(s: &GameState)
    requires
        s.spread_recorded(),
    ensures
        expansion_valid(
            &s.grid,
            history_view(s.expansion_steps@),
            s.level.spread_steps as int,
            2 * s.level.walls_per_turn,
        ),
        s.expansion_steps@.len() <= s.level.spread_steps,
{
    assert(history_view(s.expansion_steps@).len() == s.expansion_steps@.len());
}

/// The set of levels is complete exactly when the last level, the one at
/// index `levels.len() - 1`, has been won.
pub proof fn lemma_campaign_complete_exact(s: &GameState)
    requires
        s.wf(),
    ensures
        s.campaign_complete() == (s.phase == GamePhase::Victory && s.current_level_idx
            == s.levels@.len() - 1),
{
}

/// Position of `e` in `v`, if it occurs.
fn position_of_edge(v: &Vec<Edge>, e: Edge) -> (res: Option<usize>)
    ensures
        match res {
            Some(i) => i < v@.len() && v@[i as int] == e,
            None => !v@.contains(e),
        },
{
    let mut i: usize = 0;
    while i < v.len()
        invariant
            i <= v@.len(),
            forall|j: int| 0 <= j < i ==> v@[j] != e,
        decreases v@.len() - i,
    {
        if v[i] == e {
            return Some(i);
        }
        i = i + 1;
    }
    None
}

} // verus!
