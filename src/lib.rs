//! Turns a text message into a digit string (a PIN) through a
//! character-to-digit table that is built, and checked, from a grouping of
//! characters by digit.
//!
//! `config` reads the grouping from YAML text, `table` builds and checks the
//! table, `build_facts` proves what building yields, and `translate` maps a
//! message through the table.

mod build_facts;
mod config;
mod error;
mod table;
mod translate;

pub use build_facts::{
    entry_map,
    lemma_digit_out_of_range_fails,
    lemma_repeated_char_fails,
    lemma_valid_mapping_builds,
    listed_twice,
};
pub use config::{parse_config, yaml_digit_groups};
pub use error::PinError;
pub use table::{
    assigned_chars,
    build_spec,
    default_code_table,
    default_table,
    default_translate_map,
    digits_in_range,
    insert_entry,
    is_valid_raw,
    key_map,
    ParaPin,
};
pub use translate::{
    all_known,
    digit_char,
    digits_of,
    first_unknown,
    is_white_space,
    lemma_known_message_pins,
    lemma_pin_deterministic,
    lemma_unknown_char_fails,
    pin_spec,
    string_outcome,
    trim_end_spec,
    trim_spec,
    trim_start_spec,
};
