use vstd::prelude::*;

mod matches;
mod python;
mod scorer;
mod svg;
mod tiler;
mod token;
mod util;
mod winnow;

pub use matches::LineMatch;
pub use matches::exceeds_threshold;
pub use matches::find_matches;
pub use matches::merge_line_matches;
pub use matches::remove_template_spans;
pub use python::Leaf;
pub use python::Python;
pub use python::TokenizeError;
pub use python::kind_of;
pub use python::push_token;
pub use python::tokenize_str;
pub use scorer::Bucket;
pub use scorer::FingerprintIndex;
pub use scorer::IndexEntry;
pub use scorer::PairScore;
pub use scorer::build_index;
pub use scorer::remove_template_hashes;
pub use scorer::score_matrix;
pub use scorer::top_pairs;
pub use svg::gen_svg;
pub use svg::gen_svg_with_index;
pub use tiler::Match;
pub use tiler::run;
pub use token::Token;
pub use token::kinds;
pub use util::generate_uuid;
pub use winnow::Fingerprint;
pub use winnow::all_fingerprint;
pub use winnow::fingerprint;

verus! {

} // verus!
