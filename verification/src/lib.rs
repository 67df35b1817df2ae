//! Resolution of SunSpec model schemas into the flattened, named form that
//! the register-map code generator emits, and the Modbus exception codes the
//! generated register maps answer with.

pub mod case;
pub mod group;
pub mod modbus;
pub mod model;
pub mod naming;
pub mod point;
pub mod properties;
pub mod resolved;
pub mod schema;
pub mod text;
