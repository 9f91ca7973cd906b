//! A Kademlia-style distributed hash table: identifiers and the XOR metric,
//! the k-bucket routing table, the wire messages, the local value store and
//! the decisions a node takes on each datagram, and the iterative lookup.
pub mod key;
pub mod routing;
pub mod store;
pub mod message;
pub mod node;
pub mod lookup;

pub use key::{Key, Distance, dist};
pub use routing::{NodeInfo, RoutingTable};
pub use store::{ValueStore, StoreError};
pub use message::{Message, Payload, Request, Reply};
pub use node::DhtNode;
pub use lookup::Lookup;
