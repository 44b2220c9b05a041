//! A generic lexical scanner: caller-supplied state functions drive a cursor
//! over a text rune by rune and emit typed, positioned items.

mod laws;
mod lexer;
mod text;

pub use text::{byte_offset, col_at, lemma_encode_len, line_at, run_len, rune_width};
pub use lexer::{Item, Lexer, ScanState, StateFn, lex, items_placed, item_at, ran, MAX_STEPS};
pub use laws::{advance_width, lemma_backup_undoes_next, lemma_next_offsets, lemma_peek_idempotent};
