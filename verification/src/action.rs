//! Player actions and the history of a game.

use crate::text::{append_decimal, decimal};
use crate::tile::Tile;
use vstd::prelude::*;
use vstd::string::StringExecFns;

verus! {

/// An action taken by a player: a tile drawn from the boneyard, a tile played
/// on the layout, both, or neither.
#[derive(Debug, Clone, Copy, PartialEq)]
pub struct Action {
    /// The ID of the player who took this action
    pub player_id: u8,
    /// The tile drawn from the boneyard during this action, if any
    pub tile_drawn: Option<Tile>,
    /// The tile that was played on the layout during this action, if any,
    /// with the end on which it was played
    pub tile_played: Option<(Tile, Option<u8>)>,
}

impl Default for Action {
    fn default() -> (action: Action)
        ensures
            action == (Action { player_id: 0, tile_drawn: None, tile_played: None }),
    {
        Action { player_id: 0, tile_drawn: None, tile_played: None }
    }
}

impl Action {
    /// The end is one that the tile can be played on: one of the tile's
    /// values, or none for a double.
    pub open spec fn playable_end(tile: Tile, end: Option<u8>) -> bool {
        match end {
            Some(end) => tile.has(end as int),
            None => tile.is_double_spec(),
        }
    }

    /// The text of the action.
    pub open spec fn text(self) -> Seq<char> {
        "Player "@ + decimal(self.player_id as nat) + ": "@ + (match self.tile_drawn {
            Some(tile) => "draw "@ + tile.text(),
            None => Seq::empty(),
        }) + (match self.tile_played {
            Some((tile, Some(end))) => "play "@ + tile.text() + " on "@ + decimal(end as nat),
            Some((tile, None)) => "play "@ + tile.text(),
            None => Seq::empty(),
        }) + (if self.tile_drawn.is_none() && self.tile_played.is_none() {
            "pass"@
        } else {
            Seq::empty()
        })
    }

    /// Creates a new action with the specified components.
    pub fn new(player_id: u8, tile_drawn: Option<Tile>, tile_played: Option<(Tile, Option<u8>)>) -> (action:
        Action)
        ensures
            action == (Action { player_id, tile_drawn, tile_played }),
    {
        Action { player_id, tile_drawn, tile_played }
    }

    /// Creates an action representing drawing a single tile without playing.
    pub fn draw(player_id: u8, tile: Tile) -> (action: Action)
        ensures
            action == (Action { player_id, tile_drawn: Some(tile), tile_played: None }),
    {
        Action { player_id, tile_drawn: Some(tile), tile_played: None }
    }

    /// Creates an action representing playing a tile without drawing.
    pub fn play(player_id: u8, tile: Tile, end: Option<u8>) -> (action: Action)
        requires
            Self::playable_end(tile, end),
        ensures
            action == (Action { player_id, tile_drawn: None, tile_played: Some((tile, end)) }),
    {
        Action { player_id, tile_drawn: None, tile_played: Some((tile, end)) }
    }

    /// Creates an action representing passing the turn.
    pub fn pass(player_id: u8) -> (action: Action)
        ensures
            action == (Action { player_id, tile_drawn: None, tile_played: None }),
    {
        Action { player_id, tile_drawn: None, tile_played: None }
    }

    /// Checks if the action is a pass (no tiles drawn or played).
    pub fn is_pass(&self) -> (pass: bool)
        ensures
            pass == (self.tile_drawn.is_none() && self.tile_played.is_none()),
    {
        self.tile_drawn.is_none() && self.tile_played.is_none()
    }

    /// Checks if the action involves drawing a tile.
    pub fn is_draw(&self) -> (draw: bool)
        ensures
            draw == self.tile_drawn.is_some(),
    {
        self.tile_drawn.is_some()
    }

    /// Checks if the action involves playing a tile.
    pub fn is_play(&self) -> (play: bool)
        ensures
            play == self.tile_played.is_some(),
    {
        self.tile_played.is_some()
    }

    /// Returns the text of the action, such as `Player 1: play 3|4 on 3`.
    pub fn to_string(&self) -> (text: String)
        ensures
            text@ == self.text(),
    {
        let mut out = String::from_str("Player ");
        append_decimal(&mut out, self.player_id as usize);
        out.append(": ");
        let ghost head = out@;
        match self.tile_drawn {
            Some(tile) => {
                out.append("draw ");
                out.append(tile.to_string().as_str());
            },
            None => {},
        }
        let ghost drawn = out@;
        match self.tile_played {
            Some((tile, end)) => {
                out.append("play ");
                out.append(tile.to_string().as_str());
                match end {
                    Some(n) => {
                        out.append(" on ");
                        append_decimal(&mut out, n as usize);
                    },
                    None => {},
                }
            },
            None => {},
        }
        if self.tile_drawn.is_none() && self.tile_played.is_none() {
            out.append("pass");
        }
        proof {
            assert(out@ =~= self.text());
        }
        out
    }
}

/// The actions of a game in the order in which they were taken.
pub struct History {
    /// All actions in chronological order
    actions: Vec<Action>,
}

impl View for History {
    type V = Seq<Action>;

    closed spec fn view(&self) -> Seq<Action> {
        self.actions@
    }
}

/// The actions that a player took, in their order.
pub open spec fn actions_of(actions: Seq<Action>, player_id: u8) -> Seq<Action> {
    actions.filter(|action: Action| action.player_id == player_id)
}

/// The action at the position is the last that the player took.
pub open spec fn is_last_action_of(actions: Seq<Action>, player_id: u8, position: int) -> bool {
    &&& 0 <= position < actions.len()
    &&& actions[position].player_id == player_id
    &&& forall|j: int| position < j < actions.len() ==> actions[j].player_id != player_id
}

/// The actions that the references lead to.
pub open spec fn referred(actions: Seq<&Action>) -> Seq<Action> {
    actions.map_values(|action: &Action| *action)
}

impl History {
    /// Creates a new empty history.
    pub fn new() -> (history: History)
        ensures
            history@ == Seq::<Action>::empty(),
    {
        History { actions: Vec::new() }
    }

    /// Adds an action to the end of the history.
    pub fn add_action(&mut self, action: Action)
        ensures
            final(self)@ == old(self)@.push(action),
    {
        self.actions.push(action);
    }

    /// Gets all actions taken during the game, in chronological order.
    pub fn get_actions(&self) -> (actions: &Vec<Action>)
        ensures
            actions@ == self@,
    {
        &self.actions
    }

    /// Gets the last action taken, if any.
    pub fn get_last_action(&self) -> (action: Option<&Action>)
        ensures
            match action {
                Some(action) => self@.len() > 0 && *action == self@.last(),
                None => self@.len() == 0,
            },
    {
        if self.actions.len() > 0 {
            Some(&self.actions[self.actions.len() - 1])
        } else {
            None
        }
    }

    /// Gets all actions taken by a specific player, in chronological order.
    pub fn get_player_actions(&self, player_id: u8) -> (actions: Vec<&Action>)
        ensures
            referred(actions@) == actions_of(self@, player_id),
    {
        let mut found: Vec<&Action> = Vec::new();
        let mut i: usize = 0;
        assert(self.actions@.take(0) =~= Seq::<Action>::empty());
        assert(referred(found@) =~= actions_of(self.actions@.take(0), player_id));
        while i < self.actions.len()
            invariant
                i <= self.actions@.len(),
                referred(found@) == actions_of(self.actions@.take(i as int), player_id),
            decreases self.actions@.len() - i,
        {
            let ghost before = found@;
            let action = &self.actions[i];
            proof {
                reveal(Seq::filter);
                assert(self.actions@.take(i + 1).drop_last() =~= self.actions@.take(i as int));
            }
            if action.player_id == player_id {
                found.push(action);
                assert(referred(found@) =~= referred(before).push(*action));
            }
            i = i + 1;
        }
        assert(self.actions@.take(i as int) =~= self.actions@);
        found
    }

    /// Gets all actions that follow the last action by the specified player;
    /// none where the player has taken no action.
    pub fn get_actions_after_player(&self, player_id: u8) -> (actions: Vec<&Action>)
        ensures
            (forall|j: int| 0 <= j < self@.len() ==> self@[j].player_id != player_id)
                ==> actions@.len() == 0,
            forall|position: int|
                is_last_action_of(self@, player_id, position) ==> referred(actions@) == self@.skip(
                    position + 1,
                ),
    {
        let mut found: Vec<&Action> = Vec::new();
        // Find the index of the last action by the specified player
        let mut last: usize = self.actions.len();
        while last > 0 && self.actions[last - 1].player_id != player_id
            invariant
                last <= self.actions@.len(),
                forall|j: int| last <= j < self.actions@.len() ==> self.actions@[j].player_id != player_id,
            decreases last,
        {
            last = last - 1;
        }
        if last == 0 {
            // Player has no actions
            return found;
        }
        // Return all actions after that index
        let mut i: usize = last;
        assert(referred(found@) =~= self.actions@.subrange(last as int, i as int));
        while i < self.actions.len()
            invariant
                0 < last <= i <= self.actions@.len(),
                self.actions@[last - 1].player_id == player_id,
                forall|j: int| last <= j < self.actions@.len() ==> self.actions@[j].player_id != player_id,
                referred(found@) == self.actions@.subrange(last as int, i as int),
            decreases self.actions@.len() - i,
        {
            let ghost before = found@;
            found.push(&self.actions[i]);
            assert(referred(found@) =~= referred(before).push(self.actions@[i as int]));
            assert(self.actions@.subrange(last as int, i as int).push(self.actions@[i as int])
                =~= self.actions@.subrange(last as int, i + 1));
            i = i + 1;
        }
        assert(self.actions@.subrange(last as int, i as int) =~= self.actions@.skip(last as int));
        assert(self@[last - 1].player_id == player_id);
        found
    }
}

impl Default for History {
    fn default() -> (history: History)
        ensures
            history@ == Seq::<Action>::empty(),
    {
        History::new()
    }
}

} // verus!
