//! Selection of the backend node that should take the next unit of work.
//!
//! A registry holds nodes in insertion order, each with an identifier, a
//! weight and a down flag. Three strategies select over a registry: round
//! robin, random, and smooth weighted round robin. A fourth, consistent
//! hashing, maps keys to nodes over a ring of hash values. The library does
//! no networking: callers tell it which nodes exist and which are down, and
//! ask it which node comes next.
//!
//! Every function carries a contract over the abstract value of the data it
//! works on, and the laws that relate several functions are stated as proof
//! functions beside them.

pub mod balancer;
pub mod consistent_hash;
pub mod errors;
pub mod factory;
pub mod identity;
pub mod node;
pub mod nodes;
pub mod random;
pub mod ring;
pub mod round_robin;
pub mod weighted_round_robin;
pub mod window;

pub use crate::balancer::Balancer;
pub use crate::consistent_hash::ConsistentHashing;
pub use crate::errors::{DuplicatedKeyError, InvalidParameterError, NotFoundError};
pub use crate::factory::{
    consistent_hashing, new, random, round_robin, try_new, weighted_round_robin, AnyBalancer,
    BalancerEnum,
};
pub use crate::node::{Node, NodeView};
pub use crate::nodes::NodesContainer;
pub use crate::random::Random;
pub use crate::round_robin::RoundRobin;
pub use crate::weighted_round_robin::WeightedRoundRobin;
