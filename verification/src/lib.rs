//! Heshun: a Chinese input-method decoding core (shape codes, full pinyin and
//! double pinyin), with verified dictionaries, composition and session logic.
pub mod text;
pub mod seqs;
pub mod codec;
pub mod dict;
pub mod zrm;
pub mod pinyin;
pub mod algebra;
pub mod composer;
pub mod engine;
pub mod runtime;
pub mod user_dict;
pub mod history;
pub mod processor;
pub mod punctuator;
pub mod reverse_lookup;
pub mod schema;
pub mod translation;
pub mod projection;
pub mod segmentation;
pub mod word_graph;
pub mod source;

pub use algebra::Algebra;
pub use composer::compose;
pub use runtime::{CandidateKey, CandidatePage, CandidateSource, CandidateView, CommandResult, ContextSnapshot, CoreError,
    CoreRuntime, CoreState, EngineStore, EventDisposition, InputEvent, RuntimeStatus, Segment};
pub use dict::Dict;
pub use engine::{Candidate, Engine, FeedResult, SchemaKind, Session};
pub use pinyin::PinyinDict;
pub use schema::SchemaConfig;
pub use segmentation::{EdgeProperties, SpellingType, SyllableEdge, SyllableGraph};
pub use zrm::ZrmMap;
