//! The logic of a home IPTV proxy: playlist parsing, aggregation, replay
//! templates, HLS rewriting, request signing and source administration.

pub mod admin;
pub mod admin_laws;
pub mod attribute_laws;
pub mod attributes;
pub mod encoding;
pub mod escape;
pub mod failure;
pub mod filling_laws;
pub mod hls;
pub mod hls_laws;
pub mod keyed;
pub mod listed_laws;
pub mod listing;
pub mod listing_laws;
pub mod model;
pub mod ordered;
pub mod page_laws;
pub mod playlist;
pub mod playlist_laws;
pub mod reading_laws;
pub mod refreshing_laws;
pub mod relay;
pub mod relay_laws;
pub mod replay;
pub mod replay_laws;
pub mod rewriting_laws;
pub mod runtime;
pub mod runtime_laws;
pub mod saving_laws;
pub mod searching;
pub mod serving_laws;
pub mod signing;
pub mod signing_laws;
pub mod startup;
pub mod text;
pub mod text_laws;
pub mod value_laws;
pub mod weburl;
pub mod zone;
