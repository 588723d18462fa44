//! Scene engine: agent-authored video, timed by words.
//!
//! A `.scene` document holds a script, tracks and anchored elements. Elements
//! store no seconds: they store anchors into the script
//! (`during="hook..payoff"`, `during="beat+2w"`), which become frame positions
//! once the voice is rendered and its words are aligned.
//!
//! From the document to the program:
//!
//! - [`parser`] reads markup to a [`raw`] tree, [`lower`] validates it into a
//!   [`scene`]; [`markup`] does both. Every finding is a [`diagnostic`] with a
//!   byte [`span`].
//! - [`anchor`] is the grammar of timing expressions, [`align`] makes
//!   [`timing`] out of markers or of an aligner's output.
//! - [`resolved`] scenes go to [`layout`] and [`anim`] for each frame, and to
//!   [`audio`] for the program mix.
//! - [`render`] takes a render through its stages, with [`paths`] for what may
//!   be written where, [`media`] and [`process`] for ffmpeg.
//! - [`adapt`] and [`shots`] draft a scene from footage with [`writer`];
//!   [`cap`] calls external services; [`engine`], [`project`] and [`ui`] are
//!   the commands and the test page.
//!
//! The functions here take plain values and give plain values back. Files,
//! processes and sockets are left to the program around the library, which
//! hands over what it read and does what it is told.
//!
//! What spans several functions is stated as a law: a public proof function,
//! beside the functions it speaks of or in a module of its own (`*_laws`).

pub mod adapt;
pub mod adapt_laws;
pub mod align;
pub mod align_laws;
pub mod anchor;
pub mod anchor_laws;
pub mod anim;
pub mod anim_laws;
pub mod audio;
pub mod audio_laws;
pub mod cap;
pub mod cap_laws;
pub mod compile_laws;
pub mod diagnostic;
pub mod engine;
pub mod engine_laws;
pub mod grammar_laws;
pub mod json;
pub mod layout;
pub mod layout_laws;
pub mod lower;
pub mod lower_laws;
pub mod markup;
pub mod media;
pub mod media_laws;
pub mod number;
pub mod parser;
pub mod parser_laws;
pub mod path_laws;
pub mod paths;
pub mod process;
pub mod project;
pub mod raw;
pub mod reading_laws;
pub mod render;
pub mod render_laws;
pub mod reply_laws;
pub mod resolved;
pub mod scene;
pub mod scene_laws;
pub mod select;
pub mod shots;
pub mod shots_laws;
pub mod span;
pub mod span_laws;
pub mod text;
pub mod text_laws;
pub mod timing;
pub mod ui;
pub mod ui_laws;
pub mod value_laws;
pub mod writer;
pub mod writer_laws;
