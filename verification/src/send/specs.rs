//! The data the server hands over to build outgoing packets, independent
//! of the protocol version they are sent in.

use vstd::prelude::*;

use crate::uuids::Uuid;

verus! {

/// What a join game packet says, in any version.
pub struct JoinGameSpec {
    pub entity_id: i32,
    pub game_mode: u8,
    pub dimension: i32,
    pub difficulty: u8,
    pub max_players: u8,
    pub level_type: String,
    pub hashed_seed: i64,
    pub view_distance: i32,
    pub reduced_debug: bool,
    pub enable_respawn_screen: bool,
}

impl JoinGameSpec {
    /// A join game description with the given fields.
    pub fn new(
        entity_id: i32,
        game_mode: u8,
        dimension: i32,
        difficulty: u8,
        max_players: u8,
        level_type: String,
        hashed_seed: i64,
        view_distance: i32,
        reduced_debug: bool,
        enable_respawn_screen: bool,
    ) -> (r: Self)
        ensures
            r.entity_id == entity_id,
            r.game_mode == game_mode,
            r.dimension == dimension,
            r.difficulty == difficulty,
            r.max_players == max_players,
            r.level_type@ == level_type@,
            r.hashed_seed == hashed_seed,
            r.view_distance == view_distance,
            r.reduced_debug == reduced_debug,
            r.enable_respawn_screen == enable_respawn_screen,
    {
        JoinGameSpec {
            entity_id,
            game_mode,
            dimension,
            difficulty,
            max_players,
            level_type,
            hashed_seed,
            view_distance,
            reduced_debug,
            enable_respawn_screen,
        }
    }
}

/// What a server difficulty packet says.
pub struct ServerDifficultySpec {
    pub difficulty: u8,
    pub locked: bool,
}

impl ServerDifficultySpec {
    /// A difficulty description with the given fields.
    pub fn new(difficulty: u8, locked: bool) -> (r: Self)
        ensures
            r.difficulty == difficulty,
            r.locked == locked,
    {
        ServerDifficultySpec { difficulty, locked }
    }
}

/// What a login success packet says.
pub struct LoginSuccessSpec {
    pub uuid: Uuid,
    pub username: String,
}

impl LoginSuccessSpec {
    /// A login success description with the given fields.
    pub fn new(uuid: Uuid, username: String) -> (r: Self)
        ensures
            r.uuid == uuid,
            r.username@ == username@,
    {
        LoginSuccessSpec { uuid, username }
    }
}

/// A block of a section's palette, with what the packets read of it.
#[derive(Debug, Clone, Copy, PartialEq, Eq)]
pub struct PaletteBlock {
    /// The block's global id in the protocol version being written, if the
    /// version has the block.
    pub global_id: Option<i32>,
    /// Whether the block stops the motion of entities.
    pub blocks_movement: bool,
    /// Whether the block is one of the kinds of air.
    pub is_air: bool,
}

/// One 16x16x16 section of a chunk, to be sent.
pub struct ChunkSectionDataSpec {
    /// The height of the section in the chunk, counted in sections.
    pub section_index: usize,
    pub protocol_version: i32,
    /// Whether the block at each position stops motion and exists in the
    /// protocol version, indexed by `y * 256 + z * 16 + x` with `y` counted
    /// from the bottom of the section.
    pub solid: Vec<bool>,
}

/// A chunk column, to be sent.
pub struct ChunkDataSpec {
    pub chunk_x: i32,
    pub chunk_z: i32,
    pub bitmask: i32,
    pub sections: Vec<ChunkSectionDataSpec>,
}

impl ChunkDataSpec {
    /// A chunk column at `x`, `z` with no sections.
    pub fn empty(x: i32, z: i32) -> (r: Self)
        ensures
            r.chunk_x == x,
            r.chunk_z == z,
            r.bitmask == 0,
            r.sections@.len() == 0,
    {
        ChunkDataSpec { chunk_x: x, chunk_z: z, bitmask: 0, sections: Vec::new() }
    }
}

} // verus!
