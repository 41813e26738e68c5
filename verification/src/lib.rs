//! An MQTT broker core: packet framing and coding, topic rules, and the
//! in-memory broker state, each with a machine-checked contract.

pub mod broker;
pub mod broker_laws;
pub mod clock;
pub mod connection;
pub mod connection_laws;
pub mod cursor;
pub mod decode;
pub mod encode;
pub mod format_laws;
pub mod frame;
pub mod handshake_laws;
pub mod integrity;
pub mod mistake_laws;
pub mod model;
pub mod packet;
pub mod packet_ids;
pub mod packet_laws;
pub mod persistence;
pub mod properties;
pub mod restore_laws;
pub mod routing;
pub mod routing_laws;
pub mod scan;
pub mod session;
pub mod session_laws;
pub mod session_steps;
pub mod settings;
pub mod settings_laws;
pub mod steps;
pub mod storage_laws;
pub mod string_map;
pub mod subscribe_laws;
pub mod text;
pub mod text_order;
pub mod topic;
pub mod topic_laws;
pub mod wire;

pub use broker::BrokerState;
pub use decode::decode_frame;
pub use encode::{
    encode_connack, encode_connack_with_assigned_client_id, encode_connack_with_options,
    encode_connack_with_retain_available, encode_disconnect, encode_frame, encode_pingresp,
    encode_puback, encode_puback_reason, encode_pubcomp, encode_publish, encode_pubrec,
    encode_pubrel, encode_suback, encode_unsuback,
};
pub use frame::read_frame;
pub use packet::{
    ConnackOptions, Frame, MqttPacket, ProtocolError, ProtocolVersion, Publication,
    SubscriptionRequest, Will,
};
pub use session::{
    ClientSession, ConnectResult, Delivery, PersistedSession, PublishResult, Qos2Outbound,
    Qos2OutboundState, Qos2ReceiveResult, SubscribeResult, Subscription,
};
