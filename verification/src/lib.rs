//! A verified workspace launcher core: a registry of named workspace
//! records kept one per file under a single root, the text codec for
//! those records, and the plan a workspace's activation follows.

pub mod activation;
pub mod codec;
pub mod record;
pub mod registry;
pub mod tilde;

pub use activation::ActivationEnv;
pub use activation::ConfigWarning;
pub use activation::Step;
pub use codec::decode;
pub use codec::encode;
pub use codec::DecodeError;
pub use record::Commands;
pub use record::Workspace;
pub use registry::Error;
pub use registry::ListingRow;
pub use registry::Lookup;
pub use registry::OpError;
pub use registry::RegEntry;
pub use registry::Registry;
pub use tilde::tilde_format_str;
pub use tilde::Tilde;
