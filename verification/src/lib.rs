//! Two small verified text algorithms: a minesweeper-style grid
//! annotator that replaces blank cells with adjacent mine counts, and
//! an anagram matcher that selects the case-insensitive letter
//! permutations of a target word.

pub mod anagram;
pub mod anagram_v2;
pub mod board;
pub mod chars;

pub use anagram::anagrams_for as anagrams_for_v1;
pub use anagram_v2::anagrams_for as anagrams_for_v2;
pub use anagram_v2::anagrams_for;
pub use board::annotate;
pub use board::try_annotate;
pub use board::GridError;
