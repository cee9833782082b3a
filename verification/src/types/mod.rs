pub mod address;
pub mod any;
pub mod decimal;
pub mod environment;
pub mod error;
pub mod timestamp;
pub mod token;
pub mod tokens;
pub mod uint;

pub use address::Address;
pub use any::SerializableAny;
pub use decimal::Decimal;
pub use environment::Environment;
pub use error::InterLiquidSdkError;
pub use timestamp::Timestamp;
pub use token::Token;
pub use tokens::{Tokens, TokensI};
pub use uint::U256;
