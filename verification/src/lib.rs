//! Content-addressed records, collections and trust for a peer-to-peer store.

pub mod text;
pub mod path;
pub mod lex;
pub mod hex;
pub mod store;
pub mod cbor;
pub mod canonical;
pub mod address;
pub mod identity;
pub mod trust;
pub mod fields;
pub mod record;
pub mod sorted;
pub mod collection;
pub mod refs;
pub mod modules;
pub mod envelope;
pub mod fetch;
pub mod gateway;
pub mod gossip;
pub mod mesh;
pub mod pair;
pub mod peers;
pub mod api;
pub mod lock;
pub mod ops;
pub mod node;
pub mod tables;
pub mod cli;
pub mod schema;
pub mod client;
pub mod transform;
pub mod assoc;
pub mod http;
pub mod builder;
pub mod routing;
pub mod device;
pub mod registry;
pub mod report;
pub mod render;
pub mod post;
pub mod index;
pub mod fold;
pub mod pipeline;
pub mod provider;
