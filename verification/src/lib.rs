//! Einmo: directory-based, cryptographically signed snapshot testing with a
//! staged promotion pipeline (`output` -> `checked` -> `verified`, plus a
//! flagged sink nested in every stage).

pub mod text;
pub mod numtext;
pub mod codec;
pub mod hex;
pub mod crypto;
pub mod signature;
pub mod format;
pub mod verify;
pub mod compare;
pub mod case;
pub mod transitions;
pub mod config;
pub mod suite;
pub mod journal;
pub mod review;
pub mod review_cli;
pub mod review_server;
pub mod error;
pub mod stage;
pub mod cli;
pub mod collation;
pub mod corpus_signer;
pub mod directory;
pub mod storage;
pub mod suite_lock;

pub use collation::Collation;
pub use error::EinmoError;
pub use stage::{EinmoId, Stage};
pub use storage::{ArtifactLocation, EinmoDirectory, EinmoStorage, InMemoryStorage};
pub use text::Order;
