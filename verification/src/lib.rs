//! Prompt autocompletion: a session index of words, filenames and URLs, ranked
//! prefix and fuzzy search over it with an English dictionary behind it, and the
//! popup that shows the results next to the cursor.
pub mod order;
pub mod utf8;
pub mod text;
pub mod top;
pub mod ascending;
pub mod select;
pub mod masks;
pub mod dictionary;
pub mod matcher;
pub mod ranking;
pub mod dictionary_ranking;
pub mod extract;
pub mod model;
pub mod asking;
pub mod index;
pub mod laws;
pub mod result_laws;
pub mod extract_laws;
pub mod order_laws;
pub mod sighting_laws;
pub mod match_laws;
pub mod dictionary_laws;
pub mod width;
pub mod scroll;
pub mod popup;
pub mod popup_laws;
pub mod keys;
pub mod autocomplete;
pub mod autocomplete_laws;
pub mod worker;
pub mod overlay;
