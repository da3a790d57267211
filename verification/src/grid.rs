//! The tile records stored in and derived from the grid.

use vstd::prelude::*;

verus! {

/// Mathematical content of a stored tile: who owns it and how much damage it
/// has taken.
pub ghost struct SpecTile {
    pub owner: Seq<char>,
    pub damage: nat,
}

/// Mathematical content of a computed tile: who owns it and its public
/// strength.
pub ghost struct SpecComputed {
    pub owner: Seq<char>,
    pub strength: nat,
}

/// The persistent record of an owned tile.
#[derive(Debug)]
pub struct InnerTileData {
    pub user_id: String,
    pub damage: u8,
}

impl Clone for InnerTileData {
    fn clone(&self) -> (r: Self)
        ensures
            r == *self,
    {
        InnerTileData { user_id: self.user_id.clone(), damage: self.damage }
    }
}

impl View for InnerTileData {
    type V = SpecTile;

    open spec fn view(&self) -> SpecTile {
        SpecTile { owner: self.user_id@, damage: self.damage as nat }
    }
}

/// Data associated to a hexagon in the grid, as shown to clients.
#[derive(Debug)]
pub struct TileData {
    /// Owner of the tile.
    pub user_id: String,
    /// Number of clicks needed in order to take ownership.
    pub strength: u8,
}

impl View for TileData {
    type V = SpecComputed;

    open spec fn view(&self) -> SpecComputed {
        SpecComputed { owner: self.user_id@, strength: self.strength as nat }
    }
}

impl Clone for TileData {
    fn clone(&self) -> (r: Self)
        ensures
            r == *self,
    {
        TileData { user_id: self.user_id.clone(), strength: self.strength }
    }
}

#[derive(Copy, Clone, Debug)]
pub struct GridSettings {
    pub radius: u32,
}

} // verus!
