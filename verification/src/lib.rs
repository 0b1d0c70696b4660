//! A verified model of a confidential-compute runtime core: labeled message
//! channels between isolated nodes, per-node handle tables, information-flow
//! checks on every operation, a multi-channel wait protocol, node lifecycle
//! management and an introspection event stream.

pub mod label;
pub mod privilege;
pub mod vecmap;
pub mod types;
pub mod events;
pub mod channel;
pub mod config;
pub mod runtime;
pub mod wire;
pub mod debug_id;
pub mod laws;

pub use label::Label;
pub use label::Tag;
pub use privilege::NodePrivilege;
pub use types::ChannelHalf;
pub use types::ChannelHalfDirection;
pub use types::ChannelReadStatus;
pub use types::Downgrading;
pub use types::LabelReadStatus;
pub use types::Message;
pub use types::NodeId;
pub use types::NodeIsolation;
pub use types::NodeMessage;
pub use types::NodeReadStatus;
pub use types::OakStatus;
pub use types::ReadStatus;
pub use types::WaitDecision;
pub use runtime::NodeInfo;
pub use runtime::Runtime;
pub use debug_id::construct_debug_id;
pub use wire::serialize_label;
pub use wire::encode_config_map;
pub use config::Certificate;
pub use config::HttpConfiguration;
pub use config::TlsConfig;
