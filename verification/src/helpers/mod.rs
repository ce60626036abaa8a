//! Helpers for more complex string encodings.

mod fractional;
pub use fractional::{
    Fractional, Number, frac_parse, frac_rep, find_dot, is_pow10, lemma_frac_small_negative,
    lemma_frac_zero, lemma_fractional_round_trip, pow10_exp,
};

mod hex;
pub use hex::{Hex, hex_digit, hex_digit_of, hex_rep, lemma_hex_rep_ascii, lemma_hex_rep_text};

mod pad;
pub use pad::{
    Left, Pad, PadLeft, PadRight, Right, fill_rep, lemma_pad_left_exact, lemma_pad_right_exact,
};
