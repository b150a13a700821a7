pub mod ascii;
pub mod buffer;
pub mod err_compat;
pub mod i2c_compat;
pub mod text;
pub mod util;

pub use err_compat::HalErrorExt;
pub use i2c_compat::I2cCompat;
pub mod devices;
