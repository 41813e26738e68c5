//! The values that travel in MQTT control packets, and their mathematical views.

use vstd::prelude::*;
use vstd::string::StringExecFns;

use crate::scan;
use crate::scan::write_decimal;

verus! {

/// First-byte command codes of the control packets, in the high nibble.
pub const CMD_CONNECT: u8 = 0x10;

pub const CMD_CONNACK: u8 = 0x20;

pub const CMD_PUBLISH: u8 = 0x30;

pub const CMD_PUBACK: u8 = 0x40;

pub const CMD_PUBREC: u8 = 0x50;

pub const CMD_PUBREL: u8 = 0x60;

pub const CMD_PUBCOMP: u8 = 0x70;

pub const CMD_SUBSCRIBE: u8 = 0x80;

pub const CMD_SUBACK: u8 = 0x90;

pub const CMD_UNSUBSCRIBE: u8 = 0xA0;

pub const CMD_UNSUBACK: u8 = 0xB0;

pub const CMD_PINGREQ: u8 = 0xC0;

pub const CMD_PINGRESP: u8 = 0xD0;

pub const CMD_DISCONNECT: u8 = 0xE0;

/// The protocol revisions that a client may speak.
#[derive(Debug, Clone, Copy, PartialEq, Eq, Structural)]
pub enum ProtocolVersion {
    V31,
    V311,
    V5,
}

impl ProtocolVersion {
    /// The level number that a CONNECT packet carries.
    pub open spec fn level_number(self) -> u8 {
        match self {
            ProtocolVersion::V31 => 3,
            ProtocolVersion::V311 => 4,
            ProtocolVersion::V5 => 5,
        }
    }

    /// The revision with the given level number, if there is one.
    pub open spec fn of_level(level: u8) -> Option<ProtocolVersion> {
        if level == 3 {
            Some(ProtocolVersion::V31)
        } else if level == 4 {
            Some(ProtocolVersion::V311)
        } else if level == 5 {
            Some(ProtocolVersion::V5)
        } else {
            None
        }
    }

    /// The number by which CONNECT names the revision.
    pub fn level(self) -> (level: u8)
        ensures
            level == self.level_number(),
            Self::of_level(level) == Some(self),
    {
        match self {
            ProtocolVersion::V31 => 3,
            ProtocolVersion::V311 => 4,
            ProtocolVersion::V5 => 5,
        }
    }

    /// The revision that a number names.
    pub fn from_level(level: u8) -> (version: Result<Self, ProtocolError>)
        ensures
            match Self::of_level(level) {
                Some(v) => version == Ok::<Self, ProtocolError>(v) && v.level_number() == level,
                None => version matches Err(e) && e@
                    == ErrorView::UnsupportedProtocolVersion(level),
            },
    {
        match level {
            3 => Ok(ProtocolVersion::V31),
            4 => Ok(ProtocolVersion::V311),
            5 => Ok(ProtocolVersion::V5),
            _ => Err(ProtocolError::UnsupportedProtocolVersion(level)),
        }
    }
}

/// A control packet as it is framed on the wire: the two nibbles of the first
/// byte, and the bytes that follow the remaining length.
#[derive(Debug, Clone, PartialEq, Eq)]
pub struct Frame {
    pub command: u8,
    pub flags: u8,
    pub body: Vec<u8>,
}

#[verifier::ext_equal]
pub struct FrameView {
    pub command: u8,
    pub flags: u8,
    pub body: Seq<u8>,
}

impl View for Frame {
    type V = FrameView;

    open spec fn view(&self) -> FrameView {
        FrameView { command: self.command, flags: self.flags, body: self.body@ }
    }
}

/// The message that the broker publishes when a client goes away without a
/// DISCONNECT.
#[derive(Debug, PartialEq, Eq)]
pub struct Will {
    pub topic: String,
    pub payload: Vec<u8>,
    pub qos: u8,
    pub retain: bool,
}

#[verifier::ext_equal]
pub struct WillView {
    pub topic: Seq<char>,
    pub payload: Seq<u8>,
    pub qos: u8,
    pub retain: bool,
}

impl View for Will {
    type V = WillView;

    open spec fn view(&self) -> WillView {
        WillView {
            topic: self.topic@,
            payload: self.payload@,
            qos: self.qos,
            retain: self.retain,
        }
    }
}

impl Clone for Will {
    fn clone(&self) -> (copy: Self)
        ensures
            copy@ == self@,
    {
        Will {
            topic: self.topic.clone(),
            payload: clone_bytes(&self.payload),
            qos: self.qos,
            retain: self.retain,
        }
    }
}

/// An application message, with the delivery state that PUBLISH carries.
#[derive(Debug, PartialEq, Eq)]
pub struct Publication {
    pub topic: String,
    pub payload: Vec<u8>,
    pub qos: u8,
    pub retain: bool,
    pub packet_id: Option<u16>,
    pub dup: bool,
    pub topic_alias: Option<u16>,
    pub payload_format_indicator: Option<u8>,
    pub response_topic: Option<String>,
    pub correlation_data: Option<Vec<u8>>,
    pub subscription_identifiers: Vec<u32>,
}

#[verifier::ext_equal]
pub struct PublicationView {
    pub topic: Seq<char>,
    pub payload: Seq<u8>,
    pub qos: u8,
    pub retain: bool,
    pub packet_id: Option<u16>,
    pub dup: bool,
    pub topic_alias: Option<u16>,
    pub payload_format_indicator: Option<u8>,
    pub response_topic: Option<Seq<char>>,
    pub correlation_data: Option<Seq<u8>>,
    pub subscription_identifiers: Seq<u32>,
}

/// The characters of an optional text.
pub open spec fn text_view(text: Option<String>) -> Option<Seq<char>> {
    match text {
        Some(t) => Some(t@),
        None => None,
    }
}

/// The bytes of an optional binary value.
pub open spec fn bytes_view(bytes: Option<Vec<u8>>) -> Option<Seq<u8>> {
    match bytes {
        Some(b) => Some(b@),
        None => None,
    }
}

/// The view of an optional will.
pub open spec fn will_view(will: Option<Will>) -> Option<WillView> {
    match will {
        Some(w) => Some(w@),
        None => None,
    }
}

impl View for Publication {
    type V = PublicationView;

    open spec fn view(&self) -> PublicationView {
        PublicationView {
            topic: self.topic@,
            payload: self.payload@,
            qos: self.qos,
            retain: self.retain,
            packet_id: self.packet_id,
            dup: self.dup,
            topic_alias: self.topic_alias,
            payload_format_indicator: self.payload_format_indicator,
            response_topic: text_view(self.response_topic),
            correlation_data: bytes_view(self.correlation_data),
            subscription_identifiers: self.subscription_identifiers@,
        }
    }
}

impl Clone for Publication {
    fn clone(&self) -> (copy: Self)
        ensures
            copy@ == self@,
    {
        Publication {
            topic: self.topic.clone(),
            payload: clone_bytes(&self.payload),
            qos: self.qos,
            retain: self.retain,
            packet_id: self.packet_id,
            dup: self.dup,
            topic_alias: self.topic_alias,
            payload_format_indicator: self.payload_format_indicator,
            response_topic: match &self.response_topic {
                Some(text) => Some(text.clone()),
                None => None,
            },
            correlation_data: match &self.correlation_data {
                Some(bytes) => Some(clone_bytes(bytes)),
                None => None,
            },
            subscription_identifiers: clone_numbers(&self.subscription_identifiers),
        }
    }
}

/// The views of a sequence of publications.
pub open spec fn publication_views(publications: Seq<Publication>) -> Seq<PublicationView> {
    publications.map_values(|p: Publication| p@)
}

/// One topic filter of a SUBSCRIBE packet, with its options.
#[derive(Debug, PartialEq, Eq)]
pub struct SubscriptionRequest {
    pub filter: String,
    pub qos: u8,
    pub no_local: bool,
    pub retain_as_published: bool,
    pub retain_handling: u8,
    pub identifier: Option<u32>,
}

#[verifier::ext_equal]
pub struct RequestView {
    pub filter: Seq<char>,
    pub qos: u8,
    pub no_local: bool,
    pub retain_as_published: bool,
    pub retain_handling: u8,
    pub identifier: Option<u32>,
}

impl View for SubscriptionRequest {
    type V = RequestView;

    open spec fn view(&self) -> RequestView {
        RequestView {
            filter: self.filter@,
            qos: self.qos,
            no_local: self.no_local,
            retain_as_published: self.retain_as_published,
            retain_handling: self.retain_handling,
            identifier: self.identifier,
        }
    }
}

impl Clone for SubscriptionRequest {
    fn clone(&self) -> (copy: Self)
        ensures
            copy@ == self@,
    {
        SubscriptionRequest {
            filter: self.filter.clone(),
            qos: self.qos,
            no_local: self.no_local,
            retain_as_published: self.retain_as_published,
            retain_handling: self.retain_handling,
            identifier: self.identifier,
        }
    }
}

/// The views of a sequence of subscription requests.
pub open spec fn request_views(requests: Seq<SubscriptionRequest>) -> Seq<RequestView> {
    requests.map_values(|r: SubscriptionRequest| r@)
}

/// The characters of each text of a sequence.
pub open spec fn text_views(texts: Seq<String>) -> Seq<Seq<char>> {
    texts.map_values(|t: String| t@)
}

/// The control packets that a client sends.
#[allow(inconsistent_fields)]
#[derive(Debug, Clone, PartialEq, Eq)]
pub enum MqttPacket {
    Connect {
        protocol: ProtocolVersion,
        clean_start: bool,
        keep_alive: u16,
        client_id: String,
        username: Option<String>,
        password: Option<Vec<u8>>,
        will: Option<Will>,
        session_expiry_interval: Option<u32>,
        maximum_packet_size: Option<u32>,
    },
    Publish(Publication),
    PubAck { packet_id: u16 },
    PubRec { packet_id: u16 },
    PubRel { packet_id: u16 },
    PubComp { packet_id: u16 },
    Subscribe { packet_id: u16, filters: Vec<SubscriptionRequest> },
    Unsubscribe { packet_id: u16, filters: Vec<String> },
    PingReq,
    Disconnect { reason_code: Option<u8>, session_expiry_interval: Option<u32> },
}

#[allow(inconsistent_fields)]
#[verifier::ext_equal]
pub enum PacketView {
    Connect {
        protocol: ProtocolVersion,
        clean_start: bool,
        keep_alive: u16,
        client_id: Seq<char>,
        username: Option<Seq<char>>,
        password: Option<Seq<u8>>,
        will: Option<WillView>,
        session_expiry_interval: Option<u32>,
        maximum_packet_size: Option<u32>,
    },
    Publish(PublicationView),
    PubAck { packet_id: u16 },
    PubRec { packet_id: u16 },
    PubRel { packet_id: u16 },
    PubComp { packet_id: u16 },
    Subscribe { packet_id: u16, filters: Seq<RequestView> },
    Unsubscribe { packet_id: u16, filters: Seq<Seq<char>> },
    PingReq,
    Disconnect { reason_code: Option<u8>, session_expiry_interval: Option<u32> },
}

impl View for MqttPacket {
    type V = PacketView;

    open spec fn view(&self) -> PacketView {
        match *self {
            MqttPacket::Connect {
                protocol,
                clean_start,
                keep_alive,
                client_id,
                username,
                password,
                will,
                session_expiry_interval,
                maximum_packet_size,
            } => PacketView::Connect {
                protocol,
                clean_start,
                keep_alive,
                client_id: client_id@,
                username: text_view(username),
                password: bytes_view(password),
                will: will_view(will),
                session_expiry_interval,
                maximum_packet_size,
            },
            MqttPacket::Publish(publication) => PacketView::Publish(publication@),
            MqttPacket::PubAck { packet_id } => PacketView::PubAck { packet_id },
            MqttPacket::PubRec { packet_id } => PacketView::PubRec { packet_id },
            MqttPacket::PubRel { packet_id } => PacketView::PubRel { packet_id },
            MqttPacket::PubComp { packet_id } => PacketView::PubComp { packet_id },
            MqttPacket::Subscribe { packet_id, filters } => PacketView::Subscribe {
                packet_id,
                filters: request_views(filters@),
            },
            MqttPacket::Unsubscribe { packet_id, filters } => PacketView::Unsubscribe {
                packet_id,
                filters: text_views(filters@),
            },
            MqttPacket::PingReq => PacketView::PingReq,
            MqttPacket::Disconnect { reason_code, session_expiry_interval } => {
                PacketView::Disconnect { reason_code, session_expiry_interval }
            },
        }
    }
}

/// Why a packet could not be read.
#[derive(Debug, Clone, PartialEq, Eq)]
pub enum ProtocolError {
    Io(String),
    MalformedPacket(&'static str),
    UnsupportedProtocolVersion(u8),
}

#[verifier::ext_equal]
pub enum ErrorView {
    Io(Seq<char>),
    MalformedPacket(Seq<char>),
    UnsupportedProtocolVersion(u8),
}

/// What an error says, in words.
pub open spec fn error_message(error: ErrorView) -> Seq<char> {
    match error {
        ErrorView::Io(message) => "I/O error: "@ + message,
        ErrorView::MalformedPacket(message) => "malformed MQTT packet: "@ + message,
        ErrorView::UnsupportedProtocolVersion(level) => "unsupported MQTT protocol level "@
            + scan::decimal(level as nat),
    }
}

impl ProtocolError {
    /// What the error says, in words.
    pub fn message(&self) -> (message: String)
        ensures
            message@ == error_message(self@),
    {
        match self {
            ProtocolError::Io(reason) => {
                let mut message = "I/O error: ".to_owned();
                message.append(reason.as_str());
                message
            },
            ProtocolError::MalformedPacket(reason) => {
                let mut message = "malformed MQTT packet: ".to_owned();
                message.append(reason);
                message
            },
            ProtocolError::UnsupportedProtocolVersion(level) => {
                let mut message = "unsupported MQTT protocol level ".to_owned();
                write_decimal(*level as u128, &mut message);
                message
            },
        }
    }
}

impl View for ProtocolError {
    type V = ErrorView;

    open spec fn view(&self) -> ErrorView {
        match *self {
            ProtocolError::Io(message) => ErrorView::Io(message@),
            ProtocolError::MalformedPacket(message) => ErrorView::MalformedPacket(message@),
            ProtocolError::UnsupportedProtocolVersion(level) => {
                ErrorView::UnsupportedProtocolVersion(level)
            },
        }
    }
}

/// The choices that a CONNACK packet reports to a client.
#[derive(Debug, Clone, Copy)]
pub struct ConnackOptions<'a> {
    pub retain_available: bool,
    pub assigned_client_id: Option<&'a str>,
    pub server_keep_alive: Option<u16>,
    pub maximum_packet_size: u32,
}

impl Default for ConnackOptions<'_> {
    fn default() -> (options: Self)
        ensures
            options.retain_available,
            options.assigned_client_id is None,
            options.server_keep_alive is None,
            options.maximum_packet_size == 2_000_000,
    {
        ConnackOptions {
            retain_available: true,
            assigned_client_id: None,
            server_keep_alive: None,
            maximum_packet_size: 2_000_000,
        }
    }
}

/// Copies a byte string.
pub fn clone_bytes(bytes: &Vec<u8>) -> (copy: Vec<u8>)
    ensures
        copy@ == bytes@,
{
    bytes.clone()
}

/// Copies a list of numbers.
pub fn clone_numbers(numbers: &Vec<u32>) -> (copy: Vec<u32>)
    ensures
        copy@ == numbers@,
{
    numbers.clone()
}

} // verus!
