//! Question generation for a flag quiz: a catalog of countries keyed by
//! two-letter code, the encoding of flag images, and the drawing of one
//! target country with distractors in a fixed presentation order.

mod asset;
mod catalog;
mod code;
mod error;
mod quiz;
mod validate;

pub use asset::{
    ascii_lower, ascii_lower_char, base64_no_pad, encoded_len, flag_file_name, get_flag_base64_encoded,
    lemma_encoding_is_stable,
};
pub use catalog::{
    catalog_of, filter_countries, get_countries, get_country_codes, json_string_map, raw_map,
    Countries,
};
pub use code::{code_lt, is_country_code, is_country_code_str, is_excluded_pair};
pub use error::QuizError;
pub use quiz::{
    codes_of, draw_selection, get_country_with_flag, get_options, get_question, is_question_for,
    lemma_question_options, lemma_small_catalog_shown_whole,
    sorted_by_code, texts, Country, Question, Selection, NUMBER_OF_OPTIONS,
};
pub use validate::{
    catalog_parses, digits_value, is_digit, is_valid_flag_dir, is_valid_port, is_valid_template_dir,
    not_valid_message, parsed_u16, port_too_large_message, u16_parse_error_text, unsigned_digits,
    MAX_PORT,
};
