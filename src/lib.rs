//! Decoder for the bit-packed replay records written by a hockey simulation
//! server: a bit cursor, the delta-coded object table, and the message backlog.

pub mod reader;
pub mod error;
pub mod objects;
pub mod messages;
pub mod packet;
pub mod replay;
pub mod roster;

pub use error::DecodeError;
pub use messages::{read_message, trim_nul_codes, HQMMessage, HQMTeam};
pub use objects::{read_objects, HQMObjectPacket, HQMPuckPacket, HQMSkaterPacket, PacketHistory};
pub use packet::{read_packet, HQMPacket, PACKET_ROOM};
pub use reader::HQMMessageReader;
pub use replay::decode_replay;
pub use roster::{apply_player_update, new_roster, player_name, HQMServerPlayer};
