//! One replay record: header, object table and message backlog.

use vstd::prelude::*;
use crate::error::DecodeError;
use crate::messages::{message_end, message_spec, read_message, HQMMessage};
use crate::objects::{history_table, read_objects, table_spec, HQMObjectPacket, PacketHistory};
use crate::reader::{aligned, bits_val, le32, lemma_bits_val_bound, HQMMessageReader};
use vstd::arithmetic::power2::lemma2_to64;

verus! {

/// Bytes past the cursor that one record may read, at most.
pub const PACKET_ROOM: usize = 0x0100_0000;

/// A decoded record, with the object table in raw wire values.
pub struct HQMPacket {
    pub game_over: bool,
    pub red_score: u32,
    pub blue_score: u32,
    pub time: u32,
    pub goal_message_timer: u32,
    pub period: u32,
    pub packet_number: u32,
    pub objects: Vec<HQMObjectPacket>,
    /// Stream position of the first message of the backlog.
    pub message_start: u32,
    /// Number of messages in the backlog.
    pub message_count: u32,
    /// The messages of the backlog that the consumer had not yet seen.
    pub messages: Vec<HQMMessage>,
}

/// The first bit of the header fields of a record whose marker byte starts at or after `k`.
pub open spec fn header_start(k: nat) -> nat {
    aligned(k) + 8
}

/// The first bit of the packet numbers of a record read from `k`.
pub open spec fn objects_start(k: nat) -> nat {
    aligned(header_start(k) + 57)
}

/// The bit where message `i` of a backlog that starts at bit `k` begins.
pub open spec fn msg_offset(buf: Seq<u8>, k: nat, i: nat) -> nat
    decreases i,
{
    if i == 0 {
        k
    } else {
        message_end(buf, msg_offset(buf, k, (i - 1) as nat))
    }
}

/// How many leading messages of a backlog that starts at stream position `start`
/// and holds `count` messages were already seen by a consumer at position `current`.
pub open spec fn seen_count(start: nat, count: nat, current: nat) -> nat {
    if current <= start {
        0
    } else if current - start >= count {
        count
    } else {
        (current - start) as nat
    }
}

/// A consumer at stream position `current` is handed each message of a backlog
/// exactly when its position is at or after `current`: message `i` stands at
/// position `start + i`, and the handed-over messages are those from index
/// `seen_count(start, count, current)` on.
pub proof fn lemma_backlog_delivery(start: nat, count: nat, current: nat, i: nat)
    requires
        i < count,
    ensures
        seen_count(start, count, current) <= count,
        i >= seen_count(start, count, current) <==> start + i >= current,
{
}

/// Every message tag of the backlog is known.
pub open spec fn backlog_ok(buf: Seq<u8>, k: nat, count: nat) -> bool {
    forall|i: nat| i < count ==> bits_val(buf, #[trigger] msg_offset(buf, k, i), 6) <= 2
}

/// The object table of the record read from bit `k`, decoded against the table
/// that `history` holds for the record's previous packet number.
pub open spec fn packet_table(buf: Seq<u8>, k: nat, history: Map<u32, Vec<HQMObjectPacket>>) -> Result<
    (Seq<HQMObjectPacket>, nat),
    DecodeError,
> {
    let o = objects_start(k);
    table_spec(buf, o + 64, history_table(history, le32(buf, (o / 8 + 4) as int) as u32), 32)
}

/// The packet number of the record read from bit `k`.
pub open spec fn packet_number_at(buf: Seq<u8>, k: nat) -> u32 {
    le32(buf, (objects_start(k) / 8) as int) as u32
}

/// `after` is `before` with table `t` stored under packet number `n`.
pub open spec fn stores_table(
    before: Map<u32, Vec<HQMObjectPacket>>,
    after: Map<u32, Vec<HQMObjectPacket>>,
    n: u32,
    t: Seq<HQMObjectPacket>,
) -> bool {
    &&& after.contains_key(n)
    &&& after[n]@ == t
    &&& after.remove(n) == before.remove(n)
}

/// Reading the record at bit `k` against history `h0` fails with `err`,
/// leaving the history `h1`.
#[verifier::opaque]
pub open spec fn packet_err(
    buf: Seq<u8>,
    k: nat,
    h0: Map<u32, Vec<HQMObjectPacket>>,
    h1: Map<u32, Vec<HQMObjectPacket>>,
    err: DecodeError,
) -> bool {
    match packet_table(buf, k, h0) {
        Err(x) => err == x && h1 == h0,
        Ok((t, e)) => {
            &&& !backlog_ok(buf, e + 32, bits_val(buf, e, 16))
            &&& err == DecodeError::UnknownMessageType
            &&& stores_table(h0, h1, packet_number_at(buf, k), t)
        },
    }
}

/// Reading the record at bit `k` against history `h0`, by a consumer at message
/// position `c0`, gives `p`, leaves the history `h1`, the consumer at `c1` and
/// the cursor at bit `k1`.
#[verifier::opaque]
pub open spec fn packet_ok(
    buf: Seq<u8>,
    k: nat,
    h0: Map<u32, Vec<HQMObjectPacket>>,
    c0: u32,
    p: HQMPacket,
    h1: Map<u32, Vec<HQMObjectPacket>>,
    c1: u32,
    k1: nat,
) -> bool {
    let h = header_start(k);
    match packet_table(buf, k, h0) {
        Err(_) => false,
        Ok((t, e)) => {
            let count = bits_val(buf, e, 16);
            let start = bits_val(buf, e + 16, 16);
            let m0 = e + 32;
            let seen = seen_count(start, count, c0 as nat);
            &&& backlog_ok(buf, m0, count)
            &&& stores_table(h0, h1, packet_number_at(buf, k), t)
            &&& p.game_over == (bits_val(buf, h, 1) == 1)
            &&& p.red_score == bits_val(buf, h + 1, 8)
            &&& p.blue_score == bits_val(buf, h + 9, 8)
            &&& p.time == bits_val(buf, h + 17, 16)
            &&& p.goal_message_timer == bits_val(buf, h + 33, 16)
            &&& p.period == bits_val(buf, h + 49, 8)
            &&& p.packet_number == packet_number_at(buf, k)
            &&& p.objects@ == t
            &&& p.message_count == count
            &&& p.message_start == start
            &&& p.messages@.len() == count - seen
            &&& forall|j: int|
                0 <= j < p.messages@.len() ==> message_spec(
                    buf,
                    #[trigger] msg_offset(buf, m0, (seen + j) as nat),
                    p.messages@[j],
                )
            &&& c1 == start + count
            &&& k1 == (msg_offset(buf, m0, count) / 8 + 1) * 8
        },
    }
}

/// Reads a backlog of `count` messages at stream positions `start`, `start + 1`,
/// ...; returns those at positions at or after `current`.
fn read_backlog(reader: &mut HQMMessageReader, count: u32, start: u32, current: u32) -> (r: Result<
    Vec<HQMMessage>,
    DecodeError,
>)
    requires
        old(reader).wf(),
        count < 0x1_0000,
        start < 0x1_0000,
        old(reader).has_room(0x0080_0000),
    ensures
        final(reader).wf(),
        final(reader).bytes() == old(reader).bytes(),
        final(reader).byte_pos() <= old(reader).byte_pos() + 0x0040_0000,
        final(reader).offset() >= old(reader).offset(),
        ({
            let buf = old(reader).bytes();
            let m0 = old(reader).offset();
            let seen = seen_count(start as nat, count as nat, current as nat);
            &&& (r is Ok <==> backlog_ok(buf, m0, count as nat))
            &&& r is Err ==> r == Err::<Vec<HQMMessage>, DecodeError>(
                DecodeError::UnknownMessageType,
            )
            &&& r is Ok ==> {
                &&& r->Ok_0@.len() == count - seen
                &&& forall|j: int|
                    0 <= j < r->Ok_0@.len() ==> message_spec(
                        buf,
                        #[trigger] msg_offset(buf, m0, (seen + j) as nat),
                        r->Ok_0@[j],
                    )
                &&& final(reader).offset() == msg_offset(buf, m0, count as nat)
            }
        }),
{
    let ghost buf = reader.bytes();
    let ghost m0 = reader.offset();
    let ghost seen = seen_count(start as nat, count as nat, current as nat);
    let mut messages: Vec<HQMMessage> = Vec::new();
    let mut i: u32 = 0;
    while i < count
        invariant
            reader.wf(),
            reader.bytes() == buf,
            buf == old(reader).bytes(),
            m0 == old(reader).offset(),
            old(reader).has_room(0x0080_0000),
            count < 0x1_0000,
            start < 0x1_0000,
            seen == seen_count(start as nat, count as nat, current as nat),
            i <= count,
            reader.byte_pos() <= old(reader).byte_pos() + 64 * i,
            reader.offset() >= m0,
            reader.offset() == msg_offset(buf, m0, i as nat),
            forall|j: nat| j < i ==> bits_val(buf, #[trigger] msg_offset(buf, m0, j), 6) <= 2,
            messages@.len() == (if i > seen {
                i - seen
            } else {
                0
            }),
            forall|j: int|
                0 <= j < messages@.len() ==> message_spec(
                    buf,
                    #[trigger] msg_offset(buf, m0, (seen + j) as nat),
                    messages@[j],
                ),
        decreases count - i,
    {
        let msg_pos_of_this_message = start + i;
        let ghost at = reader.offset();
        let msg = match read_message(reader) {
            Ok(m) => m,
            Err(x) => {
                proof {
                    assert(bits_val(buf, msg_offset(buf, m0, i as nat), 6) > 2);
                    assert(!backlog_ok(buf, m0, count as nat));
                }
                return Err(x);
            },
        };
        if msg_pos_of_this_message >= current {
            messages.push(msg);
        }
        i += 1;
        proof {
            assert(msg_offset(buf, m0, i as nat) == message_end(buf, at));
        }
    }
    Ok(messages)
}

/// Reads one record: the marker byte, the header fields, the object table (see
/// `read_objects`) and the message backlog, then skips to the next byte.
/// Of the backlog only the messages at stream positions at or after
/// `current_msg_pos` are returned; on success `current_msg_pos` moves past the
/// whole backlog.
pub fn read_packet(
    reader: &mut HQMMessageReader,
    history: &mut PacketHistory,
    current_msg_pos: &mut u32,
) -> (r: Result<HQMPacket, DecodeError>)
    requires
        old(reader).wf(),
        old(reader).has_room(PACKET_ROOM as nat),
    ensures
        final(reader).wf(),
        final(reader).bytes() == old(reader).bytes(),
        final(reader).byte_pos() <= old(reader).byte_pos() + PACKET_ROOM,
        r is Ok ==> final(reader).byte_pos() > old(reader).byte_pos(),
        r is Ok ==> packet_ok(
            old(reader).bytes(),
            old(reader).offset(),
            old(history)@,
            *old(current_msg_pos),
            r->Ok_0,
            final(history)@,
            *final(current_msg_pos),
            final(reader).offset(),
        ),
        r is Err ==> packet_err(
            old(reader).bytes(),
            old(reader).offset(),
            old(history)@,
            final(history)@,
            r->Err_0,
        ),
        r is Err ==> *final(current_msg_pos) == *old(current_msg_pos),
{
    let ghost buf = reader.bytes();
    proof {
        reveal(packet_ok);
        reveal(packet_err);
        old(reader).lemma_byte_pos();
        lemma2_to64();
    }
    let _marker = reader.read_byte_aligned();
    let game_over = reader.read_bits(1) == 1;
    let red_score = reader.read_bits(8);
    let blue_score = reader.read_bits(8);
    let time = reader.read_bits(16);
    let goal_message_timer = reader.read_bits(16);
    let period = reader.read_bits(8);
    let (objects, packet_number) = match read_objects(reader, history) {
        Ok(res) => res,
        Err(e) => {
            proof {
                reader.lemma_byte_pos();
            }
            return Err(e);
        },
    };
    let ghost e = reader.offset();
    proof {
        lemma_bits_val_bound(buf, e, 16);
        lemma_bits_val_bound(buf, e + 16, 16);
    }
    let message_num = reader.read_bits(16);
    let msg_pos = reader.read_bits(16);
    let ghost m0 = reader.offset();
    proof {
        reader.lemma_byte_pos();
    }
    let messages = match read_backlog(reader, message_num, msg_pos, *current_msg_pos) {
        Ok(ms) => ms,
        Err(x) => {
            return Err(x);
        },
    };
    *current_msg_pos = msg_pos + message_num;
    let ghost x = reader.offset();
    assert(x >= old(reader).offset());
    reader.next();
    proof {
        reader.lemma_byte_pos();
        assert(old(reader).offset() / 8 <= x / 8);
    }
    Ok(
        HQMPacket {
            game_over,
            red_score,
            blue_score,
            time,
            goal_message_timer,
            period,
            packet_number,
            objects,
            message_start: msg_pos,
            message_count: message_num,
            messages,
        },
    )
}

} // verus!
