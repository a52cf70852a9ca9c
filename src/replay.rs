//! A whole replay: a format word, a declared length, then records up to the
//! end of the buffer.

use vstd::prelude::*;
use crate::error::DecodeError;
use crate::objects::{HQMObjectPacket, PacketHistory};
use crate::packet::{packet_err, packet_ok, read_packet, HQMPacket, PACKET_ROOM};
use crate::reader::HQMMessageReader;
use std::collections::HashMap;

verus! {

/// Bit at which the first record starts: past the format word and the declared
/// length, neither of which is checked.
pub const FIRST_RECORD_BIT: u64 = 64;

/// `ps` are the first records of the replay in `buf`, read in turn: record `i`
/// starts at bit `ks[i]`, before the end of the buffer, against history `hs[i]`
/// and consumer position `cs[i]`, and leaves `ks[i + 1]`, `hs[i + 1]` and
/// `cs[i + 1]`. The first record starts at an empty history and position 0.
pub open spec fn replay_run(
    buf: Seq<u8>,
    ks: Seq<nat>,
    hs: Seq<Map<u32, Vec<HQMObjectPacket>>>,
    cs: Seq<u32>,
    ps: Seq<HQMPacket>,
) -> bool {
    &&& ks.len() == ps.len() + 1
    &&& hs.len() == ps.len() + 1
    &&& cs.len() == ps.len() + 1
    &&& ks[0] == FIRST_RECORD_BIT
    &&& hs[0] == Map::<u32, Vec<HQMObjectPacket>>::empty()
    &&& cs[0] == 0
    &&& forall|i: int|
        0 <= i < ps.len() ==> ks[i] / 8 < buf.len() && packet_ok(
            buf,
            ks[i],
            hs[i],
            cs[i],
            #[trigger] ps[i],
            hs[i + 1],
            cs[i + 1],
            ks[i + 1],
        )
}

/// Decodes every record of a replay, each against the tables of those before
/// it, handing each message of the backlogs over once. Stops at the first
/// record that fails, with its error.
pub fn decode_replay(data: &[u8]) -> (r: Result<Vec<HQMPacket>, DecodeError>)
    requires
        data@.len() + PACKET_ROOM <= usize::MAX,
    ensures
        r is Ok ==> exists|ks: Seq<nat>, hs: Seq<Map<u32, Vec<HQMObjectPacket>>>, cs: Seq<u32>|
            #[trigger] replay_run(data@, ks, hs, cs, r->Ok_0@) && ks.last() / 8 >= data@.len(),
        r is Err ==> exists|
            ks: Seq<nat>,
            hs: Seq<Map<u32, Vec<HQMObjectPacket>>>,
            cs: Seq<u32>,
            ps: Seq<HQMPacket>,
            h1: Map<u32, Vec<HQMObjectPacket>>,
        |
            #![trigger replay_run(data@, ks, hs, cs, ps), packet_err(data@, ks.last(), hs.last(), h1, r->Err_0)]
            replay_run(data@, ks, hs, cs, ps) && ks.last() / 8 < data@.len() && packet_err(
                data@,
                ks.last(),
                hs.last(),
                h1,
                r->Err_0,
            ),
{
    let mut reader = HQMMessageReader::new(data);
    proof {
        reader.lemma_byte_pos();
    }
    let _format = reader.read_u32_aligned();
    let _declared_len = reader.read_u32_aligned();
    let mut history: PacketHistory = HashMap::new();
    let mut current_msg_pos: u32 = 0;
    let mut packets: Vec<HQMPacket> = Vec::new();
    let ghost mut ks: Seq<nat> = seq![FIRST_RECORD_BIT as nat];
    let ghost mut hs: Seq<Map<u32, Vec<HQMObjectPacket>>> = seq![history@];
    let ghost mut cs: Seq<u32> = seq![0u32];
    proof {
        reader.lemma_byte_pos();
    }
    while reader.pos() < data.len()
        invariant
            reader.wf(),
            reader.bytes() == data@,
            data@.len() + PACKET_ROOM <= usize::MAX,
            replay_run(data@, ks, hs, cs, packets@),
            ks.last() == reader.offset(),
            hs.last() == history@,
            cs.last() == current_msg_pos,
        decreases data@.len() + PACKET_ROOM - reader.byte_pos(),
    {
        proof {
            reader.lemma_byte_pos();
        }
        let ghost k = reader.offset();
        let ghost h0 = history@;
        assert(k / 8 < data@.len());
        match read_packet(&mut reader, &mut history, &mut current_msg_pos) {
            Ok(p) => {
                proof {
                    let n = packets@.len() as int;
                    let ks2 = ks.push(reader.offset());
                    let hs2 = hs.push(history@);
                    let cs2 = cs.push(current_msg_pos);
                    let ps2 = packets@.push(p);
                    assert forall|i: int| 0 <= i < ps2.len() implies #[trigger] ks2[i] / 8
                        < data@.len() by {
                        if i < n {
                            assert(packets@[i] == ps2[i]);
                        }
                    }
                    assert forall|i: int| 0 <= i < ps2.len() implies packet_ok(
                        data@,
                        ks2[i],
                        hs2[i],
                        cs2[i],
                        #[trigger] ps2[i],
                        hs2[i + 1],
                        cs2[i + 1],
                        ks2[i + 1],
                    ) by {
                        if i < n {
                            assert(ps2[i] == packets@[i]);
                        }
                    }
                    assert(replay_run(data@, ks2, hs2, cs2, ps2));
                    ks = ks2;
                    hs = hs2;
                    cs = cs2;
                }
                packets.push(p);
                proof {
                    reader.lemma_byte_pos();
                }
            },
            Err(e) => {
                let r: Result<Vec<HQMPacket>, DecodeError> = Err(e);
                assert(packet_err(data@, ks.last(), hs.last(), history@, r->Err_0));
                return r;
            },
        }
    }
    proof {
        reader.lemma_byte_pos();
    }
    let ghost pv = packets@;
    let r: Result<Vec<HQMPacket>, DecodeError> = Ok(packets);
    assert(r->Ok_0@ == pv);
    assert(replay_run(data@, ks, hs, cs, r->Ok_0@));
    r
}

} // verus!
