//! An OSPFv2 protocol engine: wire codec, link-state database rules,
//! neighbor and interface state machines, and routing-table decisions.

pub mod wire;
pub mod lsa;
pub mod packet;
pub mod ospf;
pub mod interface;
pub mod neighbor;
pub mod lsdb;
pub mod flooding;
pub mod routing;
pub mod origination;
pub mod exchange;
pub mod spf;
pub mod demux;
