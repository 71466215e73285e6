pub mod access;
pub mod bootstrap;
pub mod error;
pub mod permission;
pub mod policy;
pub mod principal;
pub mod token;

pub use bootstrap::default_policy;
pub use error::AuthError;
pub use permission::Permission;
pub use policy::PolicyStore;
pub use principal::{Principal, UserId};
pub use token::{Token, TokenStore};
