//! The signal path of an audio player, with its behaviour stated and proved.
//!
//! Audio comes in as interleaved samples, runs through a [`chain`] of effects
//! and comes out to be played, while a [`timeline`] keeps track of where in the
//! source the output is. The effects are time stretch ([`stretch`]), pitch
//! shift ([`pitch`]), a linear-phase equaliser ([`fireq`], [`phase`]) and
//! convolution with an impulse response ([`convolution`]); [`rack`] puts them
//! into a chain. The last two run on the partitioned convolver of [`spectral`].
//! Beside them, [`analysis`] estimates a track's tempo and key, [`metadata`] says
//! what a file's tags and name tell about it, and [`events`] holds what the
//! transport tells its listeners.
//!
//! All of it is written over a number system ([`numeric`], [`transform`]), so
//! that a host can run it in floating point with fast transforms. The system
//! that comes with the library is one of fixed-point numbers, with curves
//! ([`curves`]), tones ([`tones`]) and a stretching engine ([`grains`]) of its
//! own.
pub mod analysis;
pub mod chain;
pub mod convolution;
pub mod curves;
pub mod events;
pub mod fireq;
pub mod frames;
pub mod grains;
pub mod laws;
pub mod metadata;
pub mod numeric;
pub mod phase;
pub mod pitch;
pub mod rack;
pub mod spectral;
pub mod stretch;
pub mod timeline;
pub mod tones;
pub mod transform;
