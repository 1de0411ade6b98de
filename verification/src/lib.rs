//! Decoding of the line-oriented `key=value` catalogue format into typed
//! entries keyed by a numeric identifier.
//!
//! The crate owns three things: the normalisation of raw text before any
//! structural parsing, the assembly of the catalogue from the stream of
//! entries a tree decoder yields, and the scalar coercion rules the schema
//! obeys. Tokenising and path resolution belong to the tree decoder, which
//! lives outside this crate.
//!
//! A caller normalises the text with [`normalize`], hands the result to the
//! tree decoder, and feeds every answer of the decoder to a
//! [`PvDbVisitor`], which yields the [`PvDb`].

pub mod catalogue;
pub mod coerce;
pub mod ident;
pub mod line;
pub mod normal_form;
pub mod normalize;
pub mod order;
pub mod schema;
pub mod text;

pub use catalogue::{Advance, Pulled, PvDb, PvDbVisitor};
pub use coerce::diva_bool;
pub use ident::extract_identifier;
pub use normalize::normalize;
pub use schema::{
    AnotherSong, AuthReplaceByModule, Chara, ChrCam, ChrEff, ChrEffData, ChrEffType, ChrMot,
    Difficulties, Difficulty, DifficultyAttribute, Disp2D, Entry, ExAuth, ExInfo, ExSong,
    EyesAdjust, EyesRotRate, F32Bits, FrameTextureType, Level, Mdata, MovieList,
    MoviePvType, MovieSurface, Npr, OsageInit, Perfomer, PerformerSize, PerformerType,
    PvExpression, Sabi, SongInfo, StageParam, TitleImage,
};
