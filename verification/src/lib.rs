//! High-frequency stochastic seismogram synthesis: the decisions of the method, verified.
//!
//! A rupture is a set of fault segments, each diced into subfaults. A station's record is the sum
//! of what every subfault sends it along every requested ray: a spectrum of given amplitude and
//! random phase, placed in the record where it arrives. This library decides which layers a ray
//! crosses, which subfaults radiate, in which order they are walked, which random stream each
//! draws from, how long each transform is, where its samples land, and what is reported of those
//! that do not. It reads the parameter deck, too.
//!
//! Reals are carried as bit patterns ([`reals::Single`], [`reals::Double`]). The library compares,
//! selects, widens and cuts them. It does no floating-point arithmetic: sums, products and
//! elementary functions are the caller's, and come in as arguments.
//!
//! | module | what it holds |
//! | --- | --- |
//! | [`text`], [`number`], [`deck`], [`parameters`], [`deck_text`] | list-directed input and the parameter deck |
//! | [`reals`], [`fort`] | bit patterns of reals, conversions, one-based arrays |
//! | [`velocity`] | the layered model: truncation at the Moho, the air layer, lookup |
//! | [`ray`], [`bisection`] | ray topology, and the search for the ray parameter |
//! | [`slip_model`], [`geom`], [`source`] | segments, subfault grids, weights, the velocity taper |
//! | [`path_duration`], [`site`], [`radiation`] | duration tables, site brackets, the cone average |
//! | [`fft`], [`spectrum`] | transform lengths, plans and their cache |
//! | [`rng`] | generators, sub-stream seeds and draw counts |
//! | [`record`], [`sim`], [`pass`] | placement, reports, and the walk over a segment |
//! | [`driver`] | the decisions of a run over a parameter deck |

pub mod bisection;
pub mod deck;
pub mod deck_text;
pub mod driver;
pub mod fft;
pub mod fort;
pub mod geom;
pub mod number;
pub mod parameters;
pub mod pass;
pub mod path_duration;
pub mod radiation;
pub mod ray;
pub mod reals;
pub mod record;
pub mod rng;
pub mod sim;
pub mod site;
pub mod slip_model;
pub mod source;
pub mod spectrum;
pub mod text;
pub mod velocity;
