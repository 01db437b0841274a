//! Control-state core of a software label-switch router: a route/peer
//! adjacency store, a longest-match forwarding table, and the MPLS
//! forwarding core (FTN, ILM, NHLFE and cross-connect tables) with
//! next-hop driven up/down propagation.
pub mod addr;
pub mod tree;
pub mod table;
pub mod id_map;
pub mod storage;
pub mod adjacency;
pub mod mpls;
pub mod forwarding;
pub mod request;
