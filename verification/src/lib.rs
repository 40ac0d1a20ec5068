//! Helper logic for a Battleship-style guessing game: a board of per-cell
//! knowledge (`EMPTY`, `MISS`, `HIT`, `SUNK`), a toggle operation that cycles a
//! cell through those states and cascades `HIT <-> SUNK` reclassification over
//! 4-directionally connected regions, and a probability engine that counts,
//! for every cell, how many still-possible ship placements would cover it.

pub mod board;
pub mod chances;
pub mod labels;
