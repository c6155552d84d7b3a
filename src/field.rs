use vstd::prelude::*;

verus! {

/// The state of a single cell: whether it holds a mine, whether the player has
/// revealed it, and whether the player has marked it with a flag.
#[derive(Clone, Copy, Debug)]
pub struct Field {
    mine: bool,
    visited: bool,
    flagged: bool,
}

/// Text shown for a cell: revealed cells show a fire on a mine and a blank
/// otherwise; hidden cells show their mine (or a blank) once the game is over,
/// and a flag or a square while it goes on.
pub open spec fn glyph(mine: bool, visited: bool, flagged: bool, game_over: bool) -> Seq<char> {
    if visited {
        if mine { "\u{1F525}"@ } else { " "@ }
    } else if game_over {
        if mine { "\u{1F4A3}"@ } else { " "@ }
    } else if flagged {
        "\u{1F6A9}"@
    } else {
        "\u{25A0}"@
    }
}

impl Field {
    pub closed spec fn spec_mine(&self) -> bool {
        self.mine
    }

    pub closed spec fn spec_visited(&self) -> bool {
        self.visited
    }

    pub closed spec fn spec_flagged(&self) -> bool {
        self.flagged
    }

    /// An empty cell: no mine, hidden, not flagged.
    pub fn new() -> (r: Self)
        ensures
            !r.spec_mine(),
            !r.spec_visited(),
            !r.spec_flagged(),
    {
        Self { mine: false, visited: false, flagged: false }
    }

    pub fn has_mine(&self) -> (r: bool)
        ensures
            r == self.spec_mine(),
    {
        self.mine
    }

    /// Puts a mine in the cell; the other two states are kept.
    pub fn set_mine(&mut self)
        ensures
            final(self).spec_mine(),
            final(self).spec_visited() == old(self).spec_visited(),
            final(self).spec_flagged() == old(self).spec_flagged(),
    {
        self.mine = true;
    }

    pub fn visited(&self) -> (r: bool)
        ensures
            r == self.spec_visited(),
    {
        self.visited
    }

    /// Reveals the cell unless it is flagged; returns whether it was revealed.
    pub fn visit(&mut self) -> (r: bool)
        ensures
            r == !old(self).spec_flagged(),
            final(self).spec_visited() == (old(self).spec_visited() || r),
            final(self).spec_mine() == old(self).spec_mine(),
            final(self).spec_flagged() == old(self).spec_flagged(),
    {
        if self.flagged {
            false
        } else {
            self.visited = true;
            true
        }
    }

    pub fn flagged(&self) -> (r: bool)
        ensures
            r == self.spec_flagged(),
    {
        self.flagged
    }

    /// Switches the flag unless the cell is revealed; returns whether it switched.
    pub fn toggle_flag(&mut self) -> (r: bool)
        ensures
            r == !old(self).spec_visited(),
            final(self).spec_flagged() == (old(self).spec_flagged() != r),
            final(self).spec_mine() == old(self).spec_mine(),
            final(self).spec_visited() == old(self).spec_visited(),
    {
        if self.visited {
            false
        } else {
            self.flagged = !self.flagged;
            true
        }
    }

    /// The text a renderer shows for this cell.
    pub fn to_string(&self, game_over: bool) -> (r: &'static str)
        ensures
            r@ == glyph(self.spec_mine(), self.spec_visited(), self.spec_flagged(), game_over),
    {
        proof {
            reveal_strlit("\u{1F525}");
            reveal_strlit(" ");
            reveal_strlit("\u{1F4A3}");
            reveal_strlit("\u{1F6A9}");
            reveal_strlit("\u{25A0}");
        }
        if self.visited {
            if self.mine { "\u{1F525}" } else { " " }
        } else if game_over {
            if self.mine { "\u{1F4A3}" } else { " " }
        } else if self.flagged {
            "\u{1F6A9}"
        } else {
            "\u{25A0}"
        }
    }
}

} // verus!
