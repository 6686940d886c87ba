//! The core of a photo manager: how a library on disk is read, searched and put in order.

use vstd::prelude::*;

pub mod browse;
pub mod cache;
pub mod changeset;
pub mod clock;
pub mod dates;
pub mod details;
pub mod filter;
pub mod fixtures;
pub mod geo;
pub mod history;
pub mod identity;
pub mod immich;
pub mod journal;
pub mod json;
pub mod layout;
pub mod metadata;
pub mod number;
pub mod order;
pub mod paths;
pub mod scan;
pub mod scope;
pub mod settings;
pub mod survey;
pub mod tags;
pub mod text;
pub mod thumbs;
pub mod tools;
pub mod write;

verus! {

pub const APP_ID: &'static str = "org.beijingcode.PhotoManager";

} // verus!
