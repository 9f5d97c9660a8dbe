pub mod adapter;
pub mod config;
pub mod error;
pub mod hashing;
pub mod node;
pub mod random;
pub mod strategy;
pub mod table;

pub use strategy::BalanceStrategy;
pub use strategy::BaseBalancer;
pub use strategy::ConsistentHash;
pub use strategy::LeastConnection;
pub use strategy::Picker;
pub use strategy::PowerOfTwoChoices;
pub use strategy::RequestMetadata;
pub use strategy::ResponseTimeWeighted;
pub use strategy::RoundRobin;
pub use strategy::WeightedRandom;
pub use strategy::WeightedRoundRobin;
