//! A generational slot arena.
//!
//! Values of one element type are stored in a growable backing sequence of
//! slots and addressed through stable handles: `(index, generation)` pairs.
//! A handle stays valid exactly until the value it was issued for is removed;
//! a stale handle is detected by its generation and rejected, never
//! dereferenced. Vacated slots are kept on a singly linked free list and
//! reused by later insertions under a bumped generation.

mod handle;
mod arena;
mod iter;

pub use handle::Generation;
pub use handle::ID;
pub use handle::dec_digits;
pub use handle::digit_char;
pub use handle::id_at;
pub use handle::id_display;
pub use handle::lemma_id_at;
pub use handle::lemma_id_parts;
pub use arena::Arena;
pub use arena::lemma_free_list_sound;
pub use arena::lemma_get_after_insert;
pub use arena::lemma_invalid_handle_absent;
pub use arena::lemma_iteration_exact;
pub use arena::lemma_len_counts_live;
pub use arena::lemma_mismatched_generation_invalid;
pub use iter::Indices;
pub use iter::lemma_consuming_iteration_matches;
pub use iter::IntoIter;
pub use iter::Iter;
pub use iter::IterMut;
