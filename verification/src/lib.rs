//! Register blocks for the peripherals of a device.
//!
//! A device description lists peripherals, their registers, and clusters of registers. This crate
//! writes the code that gives access to them: for each peripheral a struct that leads to its
//! register block, and a module with the block. The modules follow the way that a description
//! takes.
//!
//! * [`device`] holds the description, and [`derive`] completes peripherals and registers that
//!   are derived from others.
//! * [`convert`] and [`expand`] turn registers and clusters into the fields of a block, arrays
//!   included; [`order`] puts fields in order.
//! * [`regions`] finds the fields that overlap, which need a union.
//! * [`block`], [`cluster`] and [`render`] write a block, a cluster and a peripheral.
//! * [`fits`] tells whether a layout stays within 32 bits.
//! * [`names`], [`text`] and [`tokens`] hold the spelling of what is written.
//!
//! Each function is specified by a spec function over mathematical models of its arguments. What
//! holds of the library as a whole stands in functions whose names start with `law_`.

pub mod block;
pub mod block_laws;
pub mod cluster;
pub mod cluster_laws;
pub mod convert;
pub mod convert_laws;
pub mod derive;
pub mod device;
pub mod error;
pub mod expand;
pub mod expand_laws;
pub mod field;
pub mod fit_laws;
pub mod fits;
pub mod layout_laws;
pub mod model_laws;
pub mod name_laws;
pub mod names;
pub mod order;
pub mod region_laws;
pub mod regions;
pub mod render;
pub mod render_laws;
pub mod text;
pub mod text_laws;
pub mod token_laws;
pub mod tokens;
