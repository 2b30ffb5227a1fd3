//! Trackers of a wellbore's stratigraphic depth.
//!
//! Given the gamma ray along a horizontal well and the gamma-ray log of a type well,
//! two estimators recover the depth, in the type well's terms, of every row of the
//! evaluation zone:
//!
//! * the likelihood-weighted **particle filter**: many independent seeds, each a cloud
//!   of particles, blended by their log-likelihoods into the `pf_scale_*` channels; and
//! * the **beam search**: a Viterbi-style tracker over the samples of the type-well log,
//!   run under an ensemble of configurations whose trajectories are averaged.
//!
//! Both come twice. [`reference`] and [`beam_reference`] run on one processor.
//! [`host`] and [`beam_host`] plan a run on a device: they validate the request, lay
//! the batch out in flat buffers, cut it into chunks that fit a budget and put the
//! replies in place; [`device`] and [`beam_device`] say what each kernel computes.
//! [`optimum`] proves what the search achieves as a whole, [`quadratic`] what the
//! quadratic smoother reproduces, [`interpolation`] what the logs and grids read between
//! their samples, [`averages`] what means and blends come to, [`tracking`] and
//! [`resampling`] where the particles go and what is made of them, [`recipe`] what a
//! synthetic well is made of, and [`presets`] what the standard configurations are. They
//! speak of the numbers that the patterns stand for ([`exact`]).
//!
//! Floating-point values are IEEE-754 bit patterns, `u32` for single and `u64` for
//! double precision. Comparisons and classifications are decided on the patterns
//! ([`ieee`]); rounding operations come from the caller, as an implementation of
//! [`arith::Arith`].
pub mod arith;
pub mod averages;
pub mod backend;
pub mod batch;
pub mod beam;
pub mod beam_device;
pub mod beam_host;
pub mod beam_reference;
pub mod bench;
pub mod blend;
pub mod bytes;
pub mod decimal;
pub mod device;
pub mod error;
pub mod exact;
pub mod filter;
pub mod grid;
pub mod host;
pub mod ieee;
pub mod interpolation;
pub mod kernel;
pub mod layout;
pub mod optimum;
pub mod output;
pub mod presets;
pub mod quadratic;
pub mod recipe;
pub mod reference;
pub mod resampling;
pub mod scan;
pub mod synthetic;
pub mod text;
pub mod tracking;

pub use arith::Arith;
pub use backend::{available_backends, Backend, Build};
pub use batch::{seed_weights, FlatBatch, PfConfig, WellInput};
pub use beam::{
    notebook_beam_configs, BeamConfig, BeamOptions, BeamOutput, BeamWellInput, FlatBeamBatch,
};
pub use beam_host::run_beam;
pub use error::{ConfigIssue, PfError};
pub use host::run_pf;
pub use output::PfOutput;
