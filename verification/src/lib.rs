//! Verified core of a filesystem-tree scanning engine.
//!
//! The crate holds the rules of a scan and proves them: which names pass
//! the filters, which children of a directory are visited and which are
//! descended into, how entries are made of probes, how statistics add up,
//! how results are handed out, and how a scan is started, stopped and
//! joined. It reads no directory, starts no thread and reads no clock:
//! whoever uses it lists the directories it asks for and hands in the
//! listings, and tells it the time.
//!
//! - [`pattern`] and [`filter`]: glob patterns on names, include and exclude
//!   rules.
//! - [`config`]: the configuration of a traversal.
//! - [`entry`]: probes, entries and their classification.
//! - [`traverse`]: the traversal, one directory at a time.
//! - [`tree`]: what a complete scan of a tree returns, whatever the order of
//!   its listings.
//! - [`buffer`]: the log of results with its mark for what is new.
//! - [`lifecycle`]: the life of a scan.
//! - [`scandir`], [`walk`], [`count`]: the three controllers.
//! - [`stats`]: statistics and their aggregation in batches.
//! - [`text`]: helpers on characters and names.

pub mod buffer;
pub mod config;
pub mod count;
pub mod entry;
pub mod filter;
pub mod lifecycle;
pub mod pattern;
pub mod scandir;
pub mod stats;
pub mod text;
pub mod traverse;
pub mod tree;
pub mod walk;
