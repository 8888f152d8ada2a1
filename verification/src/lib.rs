pub mod scalar;
pub mod gradient;
pub mod network;
pub mod text;
pub mod topology;
pub mod utils;
pub mod value;
