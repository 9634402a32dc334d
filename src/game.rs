//! The state of a game: the board, the menu's dimension fields, and the
//! decisions taken on the player's input.
use vstd::prelude::*;
use crate::board::{Board, BoardError, is_fresh_board, is_spawn_value};
use crate::grid::{Direction, slid_grid};
use crate::line::doubling_fits;

verus! {

/// The menu shown before a game starts: the dimension fields as typed, and
/// the dimensions in use.
pub struct Menu {
    pub width_input: String,
    pub height_input: String,
    pub width: usize,
    pub height: usize,
    pub start_pressed: bool,
}

/// A game: the menu, the board, and whether play has ended.
pub struct Game {
    pub menu: Menu,
    pub board: Board,
    pub has_ended: bool,
}

/// A page that the context drawer can show.
#[derive(Clone, Copy, Debug, PartialEq, Eq, Structural)]
pub enum ContextPage {
    About,
}

impl Default for ContextPage {
    fn default() -> (r: ContextPage)
        ensures
            r == ContextPage::About,
    {
        ContextPage::About
    }
}

impl ContextPage {
    /// The page's title.
    pub fn title(&self) -> (r: String)
        ensures
            r@ == "About"@,
    {
        match self {
            ContextPage::About => "About".to_string(),
        }
    }
}

/// An entry of the application's menu bar.
#[derive(Clone, Copy, Debug, PartialEq, Eq, Structural)]
pub enum MenuAction {
    About,
}

impl Game {
    /// The board holds one cell for each row and column of the menu's
    /// dimensions, each occupied one with a tile value.
    pub open spec fn wf(&self) -> bool {
        &&& self.board@.len() == self.menu.height * self.menu.width
        &&& self.board.wf()
    }

    /// A game on a fresh 4 by 4 board, with the menu showing.
    pub fn new() -> (r: Game)
        ensures
            r.wf(),
            r.menu.width == 4 && r.menu.height == 4,
            r.menu.width_input@ == "4"@ && r.menu.height_input@ == "4"@,
            !r.menu.start_pressed,
            !r.has_ended,
            is_fresh_board(r.board@, 4, 4),
    {
        let board = Board::new(4, 4).unwrap();
        Game {
            board,
            has_ended: false,
            menu: Menu {
                width_input: "4".to_string(),
                height_input: "4".to_string(),
                width: 4,
                height: 4,
                start_pressed: false,
            },
        }
    }

    /// Starts play on a fresh board of the given dimensions; on dimensions
    /// that cannot hold the two starting tiles, fails and changes nothing.
    pub fn start(&mut self, width: usize, height: usize) -> (r: Result<(), BoardError>)
        requires
            height * width <= usize::MAX,
        ensures
            r is Err <==> (height < 1 || width < 1 || height * width < 2),
            r matches Err(e) ==> e == BoardError::InvalidDimensions && *final(self) == *old(self),
            r is Ok ==> final(self).wf() && final(self).menu.width == width && final(self).menu.height
                == height && final(self).menu.start_pressed && is_fresh_board(
                final(self).board@,
                height as int,
                width as int,
            ) && final(self).has_ended == old(self).has_ended && final(self).menu.width_input
                == old(self).menu.width_input && final(self).menu.height_input
                == old(self).menu.height_input,
    {
        match Board::new(height, width) {
            Ok(board) => {
                self.menu.width = width;
                self.menu.height = height;
                self.board = board;
                self.menu.start_pressed = true;
                Ok(())
            },
            Err(e) => Err(e),
        }
    }

    /// A fresh board of the current dimensions; play has not ended.
    pub fn reset(&mut self) -> (r: Result<(), BoardError>)
        requires
            old(self).menu.height * old(self).menu.width <= usize::MAX,
        ensures
            r is Err <==> (old(self).menu.height < 1 || old(self).menu.width < 1 || old(
                self,
            ).menu.height * old(self).menu.width < 2),
            r matches Err(e) ==> e == BoardError::InvalidDimensions && *final(self) == *old(self),
            r is Ok ==> final(self).wf() && !final(self).has_ended && final(self).menu
                == old(self).menu && is_fresh_board(
                final(self).board@,
                old(self).menu.height as int,
                old(self).menu.width as int,
            ),
    {
        match Board::new(self.menu.height, self.menu.width) {
            Ok(board) => {
                self.board = board;
                self.has_ended = false;
                Ok(())
            },
            Err(e) => Err(e),
        }
    }

    /// Plays a move in `direction` on the board (see `Board::move_tile_content`).
    pub fn play(&mut self, direction: Direction)
        requires
            old(self).wf(),
            doubling_fits(old(self).board@),
        ensures
            final(self).wf(),
            final(self).menu == old(self).menu,
            final(self).has_ended == old(self).has_ended,
            slid_grid(
                old(self).board@,
                direction,
                old(self).menu.height as int,
                old(self).menu.width as int,
            ) == old(self).board@ ==> final(self).board@ == old(self).board@,
            slid_grid(
                old(self).board@,
                direction,
                old(self).menu.height as int,
                old(self).menu.width as int,
            ) != old(self).board@ ==> exists|i: int|
                0 <= i < old(self).board@.len() && slid_grid(
                    old(self).board@,
                    direction,
                    old(self).menu.height as int,
                    old(self).menu.width as int,
                )[i] is None && (#[trigger] final(self).board@[i] matches Some(v) && is_spawn_value(v))
                    && final(self).board@ == slid_grid(
                    old(self).board@,
                    direction,
                    old(self).menu.height as int,
                    old(self).menu.width as int,
                ).update(i, final(self).board@[i]),
    {
        let height = self.menu.height;
        let width = self.menu.width;
        let ghost before = self.board@;
        self.board.move_tile_content(direction, height, width);
        proof {
            let s = slid_grid(before, direction, height as int, width as int);
            if s != before {
                let i = choose|i: int|
                    0 <= i < before.len() && s[i] is None && (#[trigger] self.board@[i] matches Some(v)
                        && is_spawn_value(v)) && self.board@ == s.update(i, self.board@[i]);
                assert(self.board@[i] matches Some(v) && is_spawn_value(v));
            }
        }
    }
}

} // verus!
