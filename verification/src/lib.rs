//! Scanning a directory tree of pictures and movies into an index keyed by
//! the time at which each was taken, and planning the upload of what the
//! remote store does not hold yet: names, batches, blocks and commits.

use vstd::prelude::*;

pub mod blocks;
pub mod calc;
pub mod controller;
pub mod digest;
pub mod dropbox;
pub mod extension;
pub mod finalizer;
pub mod index;
pub mod listing;
pub mod meta;
pub mod movie;
pub mod schedule;
pub mod session;
pub mod sorting;
pub mod sqlite;
pub mod text;
pub mod walker;
pub mod worker;
