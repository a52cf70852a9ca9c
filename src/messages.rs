//! The message backlog: player updates, goals and chat lines.

use vstd::prelude::*;
use crate::error::DecodeError;
use crate::reader::{bits_val, lemma_bits_val_bound, HQMMessageReader};
use vstd::arithmetic::power2::lemma2_to64;

verus! {

/// Player index that stands for "nobody" in message fields.
pub const NO_INDEX: u32 = 0x3F;

/// Number of 7-bit characters of a player name field.
pub const NAME_CHARS: u32 = 31;

#[derive(Clone, Copy, Debug, PartialEq, Eq, Hash, Structural)]
pub enum HQMTeam {
    Red,
    Blue,
}

/// A decoded message of the backlog.
#[derive(Clone, Debug, PartialEq, Eq)]
#[allow(inconsistent_fields)]
pub enum HQMMessage {
    PlayerUpdate {
        player_name: String,
        object: Option<(usize, HQMTeam)>,
        player_index: usize,
        in_server: bool,
    },
    Goal {
        team: HQMTeam,
        goal_player_index: Option<usize>,
        assist_player_index: Option<usize>,
    },
    Chat { player_index: Option<usize>, message: String },
}

/// The string of the given character codes, one character per code.
pub open spec fn text_of(codes: Seq<u8>) -> Seq<char> {
    codes.map_values(|b: u8| b as char)
}

/// Relies on `String::from_utf8`: a byte below 0x80 is valid UTF-8 and encodes
/// the character of that code.
#[verifier::external_body]
fn ascii_string(bytes: Vec<u8>) -> (r: Option<String>)
    ensures
        (forall|i: int| 0 <= i < bytes@.len() ==> bytes@[i] < 128) ==> (r is Some && r->0@
            == text_of(bytes@)),
{
    String::from_utf8(bytes).ok()
}

/// The codes with trailing NUL codes removed.
pub open spec fn trim_nul(b: Seq<u8>) -> Seq<u8>
    decreases b.len(),
{
    if b.len() > 0 && b.last() == 0 {
        trim_nul(b.drop_last())
    } else {
        b
    }
}

/// `n` codes of 7 bits each from bit `k`.
pub open spec fn codes_at(buf: Seq<u8>, k: nat, n: nat) -> Seq<u8> {
    Seq::new(n, |i: int| bits_val(buf, k + 7 * (i as nat), 7) as u8)
}

/// A player index field: 0x3F stands for none.
pub open spec fn opt_index(v: nat) -> Option<usize> {
    if v == NO_INDEX {
        None
    } else {
        Some(v as usize)
    }
}

/// A team code of a player update: 0 red, 1 blue, others no team.
pub open spec fn team_of_code(v: nat) -> Option<HQMTeam> {
    if v == 0 {
        Some(HQMTeam::Red)
    } else if v == 1 {
        Some(HQMTeam::Blue)
    } else {
        None
    }
}

/// The object slot and team of a player update, when both are given.
pub open spec fn zip_object(index: Option<usize>, team: Option<HQMTeam>) -> Option<(usize, HQMTeam)> {
    match (index, team) {
        (Some(i), Some(t)) => Some((i, t)),
        _ => None,
    }
}

/// The bit just past the message at bit `k`.
pub open spec fn message_end(buf: Seq<u8>, k: nat) -> nat {
    let tag = bits_val(buf, k, 6);
    if tag == 0 {
        k + 21 + 7 * (NAME_CHARS as nat)
    } else if tag == 1 {
        k + 20
    } else if tag == 2 {
        k + 18 + 7 * bits_val(buf, k + 12, 6)
    } else {
        k + 6
    }
}

/// `m` is the message that the bits at `k` encode.
pub open spec fn message_spec(buf: Seq<u8>, k: nat, m: HQMMessage) -> bool {
    let tag = bits_val(buf, k, 6);
    if tag == 0 {
        match m {
            HQMMessage::PlayerUpdate { player_name, object, player_index, in_server } => {
                &&& player_index == bits_val(buf, k + 6, 6)
                &&& in_server == (bits_val(buf, k + 12, 1) == 1)
                &&& object == zip_object(
                    opt_index(bits_val(buf, k + 15, 6)),
                    team_of_code(bits_val(buf, k + 13, 2)),
                )
                &&& player_name@ == text_of(trim_nul(codes_at(buf, k + 21, NAME_CHARS as nat)))
            },
            _ => false,
        }
    } else if tag == 1 {
        match m {
            HQMMessage::Goal { team, goal_player_index, assist_player_index } => {
                &&& team == (if bits_val(buf, k + 6, 2) == 0 {
                    HQMTeam::Red
                } else {
                    HQMTeam::Blue
                })
                &&& goal_player_index == opt_index(bits_val(buf, k + 8, 6))
                &&& assist_player_index == opt_index(bits_val(buf, k + 14, 6))
            },
            _ => false,
        }
    } else if tag == 2 {
        match m {
            HQMMessage::Chat { player_index, message } => {
                &&& player_index == opt_index(bits_val(buf, k + 6, 6))
                &&& message@ == text_of(trim_nul(codes_at(buf, k + 18, bits_val(buf, k + 12, 6))))
            },
            _ => false,
        }
    } else {
        false
    }
}

/// Drops trailing NUL codes.
pub fn trim_nul_codes(b: &Vec<u8>) -> (r: Vec<u8>)
    ensures
        r@ == trim_nul(b@),
        (forall|x: int| 0 <= x < b@.len() ==> b@[x] < 128) ==> (forall|x: int|
            0 <= x < r@.len() ==> r@[x] < 128),
{
    let mut j: usize = b.len();
    proof {
        assert(b@.subrange(0, b@.len() as int) =~= b@);
    }
    while j > 0 && b[j - 1] == 0
        invariant
            j <= b@.len(),
            trim_nul(b@) == trim_nul(b@.subrange(0, j as int)),
        decreases j,
    {
        proof {
            assert(b@.subrange(0, j as int).drop_last() =~= b@.subrange(0, j - 1));
        }
        j -= 1;
    }
    let mut r: Vec<u8> = Vec::new();
    let mut t: usize = 0;
    while t < j
        invariant
            t <= j <= b@.len(),
            r@ =~= b@.subrange(0, t as int),
        decreases j - t,
    {
        r.push(b[t]);
        t += 1;
    }
    r
}

/// Reads `n` characters of 7 bits each.
fn read_codes(reader: &mut HQMMessageReader, n: u32) -> (r: Vec<u8>)
    requires
        old(reader).wf(),
        n < 64,
        old(reader).has_room(64),
    ensures
        final(reader).wf(),
        final(reader).bytes() == old(reader).bytes(),
        r@ == codes_at(old(reader).bytes(), old(reader).offset(), n as nat),
        forall|i: int| 0 <= i < r@.len() ==> r@[i] < 128,
        final(reader).offset() == old(reader).offset() + 7 * n,
{
    let ghost buf = reader.bytes();
    let ghost k = reader.offset();
    let mut bytes: Vec<u8> = Vec::new();
    let mut i: u32 = 0;
    while i < n
        invariant
            reader.wf(),
            reader.bytes() == buf,
            buf == old(reader).bytes(),
            k == old(reader).offset(),
            old(reader).wf(),
            old(reader).has_room(64),
            n < 64,
            i <= n,
            reader.offset() == k + 7 * i,
            bytes@ =~= codes_at(buf, k, i as nat),
            forall|j: int| 0 <= j < bytes@.len() ==> bytes@[j] < 128,
        decreases n - i,
    {
        proof {
            reader.lemma_byte_pos();
            old(reader).lemma_byte_pos();
            assert(reader.byte_pos() <= old(reader).byte_pos() + 56);
            lemma_bits_val_bound(buf, reader.offset(), 7);
            lemma2_to64();
        }
        let c = reader.read_bits(7);
        bytes.push(c as u8);
        i += 1;
    }
    bytes
}

/// A 6-bit player index field, with 0x3F for none.
fn index_of_code(v: u32) -> (r: Option<usize>)
    requires
        v < 64,
    ensures
        r == opt_index(v as nat),
{
    if v == NO_INDEX {
        None
    } else {
        Some(v as usize)
    }
}

/// Reads one message of the backlog.
pub fn read_message(reader: &mut HQMMessageReader) -> (r: Result<HQMMessage, DecodeError>)
    requires
        old(reader).wf(),
        old(reader).has_room(128),
    ensures
        final(reader).wf(),
        final(reader).bytes() == old(reader).bytes(),
        final(reader).byte_pos() <= old(reader).byte_pos() + 64,
        final(reader).offset() >= old(reader).offset(),
        ({
            let buf = old(reader).bytes();
            let k = old(reader).offset();
            if bits_val(buf, k, 6) <= 2 {
                &&& r is Ok
                &&& message_spec(buf, k, r->Ok_0)
                &&& final(reader).offset() == message_end(buf, k)
            } else {
                r == Err::<HQMMessage, DecodeError>(DecodeError::UnknownMessageType)
            }
        }),
{
    let ghost buf = reader.bytes();
    let ghost k = reader.offset();
    proof {
        old(reader).lemma_byte_pos();
        lemma2_to64();
        lemma_bits_val_bound(buf, k, 6);
        lemma_bits_val_bound(buf, k + 6, 6);
        lemma_bits_val_bound(buf, k + 12, 6);
        lemma_bits_val_bound(buf, k + 13, 2);
        lemma_bits_val_bound(buf, k + 14, 6);
        lemma_bits_val_bound(buf, k + 15, 6);
        lemma_bits_val_bound(buf, k + 8, 6);
    }
    let message_type = reader.read_bits(6);
    if message_type == 0 {
        let player_index = reader.read_bits(6) as usize;
        let in_server = reader.read_bits(1) == 1;
        let team_code = reader.read_bits(2);
        let team = if team_code == 0 {
            Some(HQMTeam::Red)
        } else if team_code == 1 {
            Some(HQMTeam::Blue)
        } else {
            None
        };
        let object_code = reader.read_bits(6);
        let object_index = index_of_code(object_code);
        let object = match (object_index, team) {
            (Some(i), Some(t)) => Some((i, t)),
            _ => None,
        };
        proof {
            reader.lemma_byte_pos();
        }
        let codes = read_codes(reader, NAME_CHARS);
        proof {
            reader.lemma_byte_pos();
        }
        let name_codes = trim_nul_codes(&codes);
        match ascii_string(name_codes) {
            Some(player_name) => Ok(
                HQMMessage::PlayerUpdate { player_name, object, player_index, in_server },
            ),
            None => Err(DecodeError::InvalidText),
        }
    } else if message_type == 1 {
        let team = if reader.read_bits(2) == 0 {
            HQMTeam::Red
        } else {
            HQMTeam::Blue
        };
        let goal_player_index = index_of_code(reader.read_bits(6));
        let assist_player_index = index_of_code(reader.read_bits(6));
        proof {
            reader.lemma_byte_pos();
        }
        Ok(HQMMessage::Goal { team, goal_player_index, assist_player_index })
    } else if message_type == 2 {
        let player_index = index_of_code(reader.read_bits(6));
        let size = reader.read_bits(6);
        proof {
            reader.lemma_byte_pos();
        }
        let codes = read_codes(reader, size);
        proof {
            reader.lemma_byte_pos();
        }
        let text_codes = trim_nul_codes(&codes);
        match ascii_string(text_codes) {
            Some(message) => Ok(HQMMessage::Chat { player_index, message }),
            None => Err(DecodeError::InvalidText),
        }
    } else {
        proof {
            reader.lemma_byte_pos();
        }
        Err(DecodeError::UnknownMessageType)
    }
}

} // verus!
