//! Composable container toolchain descriptions: mixin resolution, build
//! specification synthesis, and content-addressed image identity.
//!
//! - [`mixin`]: toolchain fragments, the splitting of a source file into
//!   metadata and script, file-name conventions, and the recursive resolution
//!   of references into a flat, de-duplicated descendant list.
//! - [`convert`]: turning a resolved tree into a build specification, with
//!   base-image validation, package-manager dialect resolution, and
//!   first-writer-wins install merging.
//! - [`docker`]: the instruction sequence, its deterministic canonical text,
//!   the content hash behind the image tag, and the run-time argument list.
//! - [`config`]: published ports, bind-mounted volumes, and user-level
//!   runtime configuration.
//! - [`strutil`]: the string splitting, joining, and decimal machinery the
//!   other modules are specified with.

pub mod config;
pub mod convert;
pub mod docker;
pub mod mixin;
pub mod strutil;
