pub mod email;
pub mod recipients;
pub mod replace;
pub mod vars;
