//! Typed, statically addressed publish/subscribe between the endpoints of an owner.
//!
//! An owner's endpoints are declared as a `Schema`; for each payload type the schema
//! builds a table of bound endpoints, and an `EventSender` fans events out over such a
//! table to the endpoints that are active and addressed.

pub mod backend;
pub mod channel;
pub mod id;
pub mod receiver;
pub mod schema;
pub mod sender;
pub mod service;

pub use backend::{RecvError, SendError};
pub use channel::{Channel, Channels};
pub use id::{IdView, ID};
pub use receiver::{ActiveReceiver, InactiveReceiver};
pub use schema::{locate, Field, Member, Schema, SchemaError, Target, GLOBAL_ID};
pub use sender::{settle, EventSender};
pub use service::{Error, Service, State};
