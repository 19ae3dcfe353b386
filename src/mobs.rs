//! Markers for the sprites that show creatures on the board.
use vstd::prelude::*;

verus! {

/// Marks the sprite that shows the player.
#[derive(Clone, Copy, Debug, Default, PartialEq, Eq)]
pub struct PlayerAvatar;

/// What a player sprite is spawned with.
#[derive(Clone, Copy, Debug, Default, PartialEq, Eq)]
pub struct PlayerAvatarBundle {
    pub avatar: PlayerAvatar,
}

} // verus!
