//! The 32-slot object table of a packet, delta coded against an earlier packet.

use std::collections::HashMap;
use vstd::prelude::*;
use crate::error::DecodeError;
use crate::reader::{bits_val, delta_field, delta_field_end, le32, aligned, HQMMessageReader};

verus! {

broadcast use vstd::std_specs::hash::group_hash_axioms;

/// Number of object slots in every packet.
pub const OBJECT_SLOTS: usize = 32;

/// Raw wire values of a skater slot, before conversion to physical units.
#[derive(Clone, Copy, Debug, PartialEq, Eq)]
pub struct HQMSkaterPacket {
    pub pos: (u32, u32, u32),
    pub rot: (u32, u32),
    pub stick_pos: (u32, u32, u32),
    pub stick_rot: (u32, u32),
    pub head_rot: u32,
    pub body_rot: u32,
}

/// Raw wire values of a puck slot, before conversion to physical units.
#[derive(Clone, Copy, Debug, PartialEq, Eq)]
pub struct HQMPuckPacket {
    pub pos: (u32, u32, u32),
    pub rot: (u32, u32),
}

/// One slot of the object table.
#[derive(Clone, Copy, Debug, PartialEq, Eq)]
pub enum HQMObjectPacket {
    Empty,
    Puck(HQMPuckPacket),
    Skater(HQMSkaterPacket),
}

/// The decoded tables of earlier packets, by packet number.
pub type PacketHistory = HashMap<u32, Vec<HQMObjectPacket>>;

/// Field widths of a skater, in wire order: position, rotation, stick position,
/// stick rotation, head rotation, body rotation.
pub open spec fn skater_widths() -> Seq<u8> {
    seq![17u8, 17, 17, 31, 31, 13, 13, 13, 25, 25, 16, 16]
}

/// Field widths of a puck, in wire order: position, rotation.
pub open spec fn puck_widths() -> Seq<u8> {
    seq![17u8, 17, 17, 31, 31]
}

/// The delta references that a skater slot takes from the previous packet's slot.
pub open spec fn skater_refs(prev: Option<HQMObjectPacket>) -> Seq<Option<u32>> {
    match prev {
        Some(HQMObjectPacket::Skater(s)) => seq![
            Some(s.pos.0),
            Some(s.pos.1),
            Some(s.pos.2),
            Some(s.rot.0),
            Some(s.rot.1),
            Some(s.stick_pos.0),
            Some(s.stick_pos.1),
            Some(s.stick_pos.2),
            Some(s.stick_rot.0),
            Some(s.stick_rot.1),
            Some(s.head_rot),
            Some(s.body_rot),
        ],
        _ => Seq::new(12, |i: int| None),
    }
}

/// The delta references that a puck slot takes from the previous packet's slot.
pub open spec fn puck_refs(prev: Option<HQMObjectPacket>) -> Seq<Option<u32>> {
    match prev {
        Some(HQMObjectPacket::Puck(p)) => seq![
            Some(p.pos.0),
            Some(p.pos.1),
            Some(p.pos.2),
            Some(p.rot.0),
            Some(p.rot.1),
        ],
        _ => Seq::new(5, |i: int| None),
    }
}

pub open spec fn skater_of(v: Seq<u32>) -> HQMSkaterPacket {
    HQMSkaterPacket {
        pos: (v[0], v[1], v[2]),
        rot: (v[3], v[4]),
        stick_pos: (v[5], v[6], v[7]),
        stick_rot: (v[8], v[9]),
        head_rot: v[10],
        body_rot: v[11],
    }
}

pub open spec fn puck_of(v: Seq<u32>) -> HQMPuckPacket {
    HQMPuckPacket { pos: (v[0], v[1], v[2]), rot: (v[3], v[4]) }
}

/// A run of delta-coded fields from bit `k`: their values and the bit after them,
/// or `None` when one of them lacks its reference.
pub open spec fn fields_spec(buf: Seq<u8>, k: nat, widths: Seq<u8>, refs: Seq<Option<u32>>) -> Option<
    (Seq<u32>, nat),
>
    decreases widths.len(),
{
    if widths.len() == 0 {
        Some((Seq::empty(), k))
    } else {
        let n = (widths.len() - 1) as int;
        match fields_spec(buf, k, widths.take(n), refs.take(n)) {
            None => None,
            Some((vs, e)) => match delta_field(buf, e, widths[n] as nat, refs[n]) {
                None => None,
                Some(v) => Some((vs.push(v), delta_field_end(buf, e, widths[n] as nat))),
            },
        }
    }
}

/// One slot from bit `k`, given the same slot of the reference packet: the slot
/// and the bit after it.
pub open spec fn slot_spec(buf: Seq<u8>, k: nat, prev: Option<HQMObjectPacket>) -> Result<
    (HQMObjectPacket, nat),
    DecodeError,
> {
    if bits_val(buf, k, 1) != 1 {
        Ok((HQMObjectPacket::Empty, k + 1))
    } else {
        let tag = bits_val(buf, k + 1, 2);
        if tag == 0 {
            match fields_spec(buf, k + 3, skater_widths(), skater_refs(prev)) {
                Some((v, e)) => Ok((HQMObjectPacket::Skater(skater_of(v)), e)),
                None => Err(DecodeError::MissingReference),
            }
        } else if tag == 1 {
            match fields_spec(buf, k + 3, puck_widths(), puck_refs(prev)) {
                Some((v, e)) => Ok((HQMObjectPacket::Puck(puck_of(v)), e)),
                None => Err(DecodeError::MissingReference),
            }
        } else {
            Err(DecodeError::UnknownObjectType)
        }
    }
}

/// Slot `i` of the reference table, if there is one.
pub open spec fn prev_slot(prev: Option<Seq<HQMObjectPacket>>, i: int) -> Option<HQMObjectPacket> {
    match prev {
        Some(t) => if 0 <= i < t.len() {
            Some(t[i])
        } else {
            None
        },
        None => None,
    }
}

/// The first `n` slots from bit `k` against the reference table `prev`.
pub open spec fn table_spec(buf: Seq<u8>, k: nat, prev: Option<Seq<HQMObjectPacket>>, n: nat) -> Result<
    (Seq<HQMObjectPacket>, nat),
    DecodeError,
>
    decreases n,
{
    if n == 0 {
        Ok((Seq::empty(), k))
    } else {
        match table_spec(buf, k, prev, (n - 1) as nat) {
            Err(e) => Err(e),
            Ok((t, e)) => match slot_spec(buf, e, prev_slot(prev, n - 1)) {
                Err(x) => Err(x),
                Ok((o, e2)) => Ok((t.push(o), e2)),
            },
        }
    }
}

/// The reference table that `history` holds for packet `n`.
pub open spec fn history_table(history: Map<u32, Vec<HQMObjectPacket>>, n: u32) -> Option<
    Seq<HQMObjectPacket>,
> {
    if history.contains_key(n) {
        Some(history[n]@)
    } else {
        None
    }
}

/// Once a prefix of the fields fails, every longer prefix fails.
proof fn lemma_fields_fail(buf: Seq<u8>, k: nat, widths: Seq<u8>, refs: Seq<Option<u32>>, m: int, n: int)
    requires
        0 <= m <= n <= widths.len(),
        n <= refs.len(),
        fields_spec(buf, k, widths.take(m), refs.take(m)) is None,
    ensures
        fields_spec(buf, k, widths.take(n), refs.take(n)) is None,
    decreases n - m,
{
    if m < n {
        lemma_fields_fail(buf, k, widths, refs, m, n - 1);
        assert(widths.take(n).take(n - 1) =~= widths.take(n - 1));
        assert(refs.take(n).take(n - 1) =~= refs.take(n - 1));
    }
}

/// When the previous packet number is not in the history, no slot has a
/// reference: every field of every slot is decoded without one, so it decodes
/// exactly when its selector is 3, and then to its absolute value.
pub proof fn lemma_history_miss(
    history: Map<u32, Vec<HQMObjectPacket>>,
    prev: u32,
    buf: Seq<u8>,
    k: nat,
    b: nat,
)
    requires
        !history.contains_key(prev),
    ensures
        forall|i: int| #[trigger] prev_slot(history_table(history, prev), i) is None,
        forall|j: int| 0 <= j < 12 ==> (#[trigger] skater_refs(None)[j]) is None,
        forall|j: int| 0 <= j < 5 ==> (#[trigger] puck_refs(None)[j]) is None,
        delta_field(buf, k, b, None) == (if bits_val(buf, k, 2) == 3 {
            Some(bits_val(buf, k + 2, b) as u32)
        } else {
            None
        }),
{
}

/// The bit after a run of fields of the given widths from bit `k`, when every
/// one of them is absolute (selector 3); `None` otherwise.
pub open spec fn absolute_fields_end(buf: Seq<u8>, k: nat, widths: Seq<u8>) -> Option<nat>
    decreases widths.len(),
{
    if widths.len() == 0 {
        Some(k)
    } else {
        let n = (widths.len() - 1) as int;
        match absolute_fields_end(buf, k, widths.take(n)) {
            None => None,
            Some(e) => if bits_val(buf, e, 2) == 3 {
                Some(e + 2 + widths[n] as nat)
            } else {
                None
            },
        }
    }
}

/// A run of absolute fields decodes whatever the references, each field to its
/// own value; without references (as after a history miss) a run decodes only
/// when all its fields are absolute.
pub proof fn lemma_absolute_fields(
    buf: Seq<u8>,
    k: nat,
    widths: Seq<u8>,
    refs: Seq<Option<u32>>,
)
    requires
        widths.len() == refs.len(),
    ensures
        absolute_fields_end(buf, k, widths) is Some ==> match fields_spec(buf, k, widths, refs) {
            Some((_, e)) => absolute_fields_end(buf, k, widths) == Some(e),
            None => false,
        },
        (forall|i: int| 0 <= i < refs.len() ==> refs[i] is None) ==> (fields_spec(
            buf,
            k,
            widths,
            refs,
        ) is Some <==> absolute_fields_end(buf, k, widths) is Some),
    decreases widths.len(),
{
    if widths.len() > 0 {
        let n = (widths.len() - 1) as int;
        lemma_absolute_fields(buf, k, widths.take(n), refs.take(n));
        assert forall|i: int|
            0 <= i < refs.take(n).len() && (forall|j: int|
                0 <= j < refs.len() ==> refs[j] is None) implies refs.take(n)[i] is None by {
            assert(refs.take(n)[i] == refs[i]);
        }
    }
}

/// The bit after the slot at bit `k` when it is empty, or a skater or puck whose
/// fields are all absolute; `None` otherwise.
pub open spec fn absolute_slot_end(buf: Seq<u8>, k: nat) -> Option<nat> {
    if bits_val(buf, k, 1) != 1 {
        Some(k + 1)
    } else {
        let tag = bits_val(buf, k + 1, 2);
        if tag == 0 {
            absolute_fields_end(buf, k + 3, skater_widths())
        } else if tag == 1 {
            absolute_fields_end(buf, k + 3, puck_widths())
        } else {
            None
        }
    }
}

/// The bit after the first `n` slots from bit `k` when each of them is as in
/// `absolute_slot_end`; `None` otherwise.
pub open spec fn absolute_table_end(buf: Seq<u8>, k: nat, n: nat) -> Option<nat>
    decreases n,
{
    if n == 0 {
        Some(k)
    } else {
        match absolute_table_end(buf, k, (n - 1) as nat) {
            None => None,
            Some(e) => absolute_slot_end(buf, e),
        }
    }
}

/// When the previous packet number is missing from the history, a table whose
/// slots are empty or hold only absolute fields of a known object type decodes
/// without error.
pub proof fn lemma_history_miss_table(
    history: Map<u32, Vec<HQMObjectPacket>>,
    prev: u32,
    buf: Seq<u8>,
    k: nat,
    n: nat,
)
    requires
        !history.contains_key(prev),
        absolute_table_end(buf, k, n) is Some,
    ensures
        match table_spec(buf, k, history_table(history, prev), n) {
            Ok((t, e)) => absolute_table_end(buf, k, n) == Some(e) && t.len() == n,
            Err(_) => false,
        },
    decreases n,
{
    if n > 0 {
        lemma_history_miss_table(history, prev, buf, k, (n - 1) as nat);
        let e = absolute_table_end(buf, k, (n - 1) as nat)->0;
        let prevt = history_table(history, prev);
        assert(prev_slot(prevt, n - 1) is None);
        let sw = skater_widths();
        let pw = puck_widths();
        assert(sw.len() == 12 && pw.len() == 5);
        lemma_absolute_fields(buf, e + 3, sw, skater_refs(None));
        lemma_absolute_fields(buf, e + 3, pw, puck_refs(None));
    }
}

/// Reads a run of delta-coded fields of the given widths against `refs`.
fn read_fields(reader: &mut HQMMessageReader, widths: &[u8], refs: &Vec<Option<u32>>) -> (r: Option<
    Vec<u32>,
>)
    requires
        old(reader).wf(),
        widths@.len() == refs@.len(),
        widths@.len() <= 12,
        forall|i: int| 0 <= i < widths@.len() ==> widths@[i] <= 31,
        old(reader).has_room(80),
    ensures
        final(reader).wf(),
        final(reader).bytes() == old(reader).bytes(),
        match fields_spec(old(reader).bytes(), old(reader).offset(), widths@, refs@) {
            Some((vs, e)) => r is Some && r->0@ == vs && final(reader).offset() == e,
            None => r is None,
        },
        r is Some ==> r->0@.len() == widths@.len(),
        final(reader).offset() >= old(reader).offset(),
        final(reader).byte_pos() <= old(reader).byte_pos() + 60,
{
    let ghost buf = reader.bytes();
    let ghost k = reader.offset();
    let mut vals: Vec<u32> = Vec::new();
    let mut i: usize = 0;
    while i < widths.len()
        invariant
            reader.wf(),
            reader.bytes() == buf,
            buf == old(reader).bytes(),
            k == old(reader).offset(),
            widths@.len() == refs@.len(),
            widths@.len() <= 12,
            forall|j: int| 0 <= j < widths@.len() ==> widths@[j] <= 31,
            old(reader).has_room(80),
            i <= widths@.len(),
            vals@.len() == i,
            reader.offset() >= k,
            reader.byte_pos() <= old(reader).byte_pos() + 5 * i,
            fields_spec(buf, k, widths@.take(i as int), refs@.take(i as int)) == Some(
                (vals@, reader.offset()),
            ),
        decreases widths@.len() - i,
    {
        proof {
            let n = i as int;
            assert(widths@.take(n + 1).take(n) =~= widths@.take(n));
            assert(refs@.take(n + 1).take(n) =~= refs@.take(n));
            assert(widths@.take(n + 1)[n] == widths@[n]);
            assert(refs@.take(n + 1)[n] == refs@[n]);
        }
        match reader.read_pos(widths[i], refs[i]) {
            None => {
                proof {
                    lemma_fields_fail(buf, k, widths@, refs@, i + 1, widths@.len() as int);
                    assert(widths@.take(widths@.len() as int) =~= widths@);
                    assert(refs@.take(refs@.len() as int) =~= refs@);
                }
                return None;
            },
            Some(v) => {
                vals.push(v);
            },
        }
        i += 1;
    }
    proof {
        assert(widths@.take(widths@.len() as int) =~= widths@);
        assert(refs@.take(refs@.len() as int) =~= refs@);
    }
    Some(vals)
}

fn skater_refs_of(prev: Option<HQMObjectPacket>) -> (r: Vec<Option<u32>>)
    ensures
        r@ == skater_refs(prev),
{
    match prev {
        Some(HQMObjectPacket::Skater(s)) => {
            let r = vec![
                Some(s.pos.0),
                Some(s.pos.1),
                Some(s.pos.2),
                Some(s.rot.0),
                Some(s.rot.1),
                Some(s.stick_pos.0),
                Some(s.stick_pos.1),
                Some(s.stick_pos.2),
                Some(s.stick_rot.0),
                Some(s.stick_rot.1),
                Some(s.head_rot),
                Some(s.body_rot),
            ];
            proof {
                assert(r@ =~= skater_refs(prev));
            }
            r
        },
        _ => {
            let r = vec![None, None, None, None, None, None, None, None, None, None, None, None];
            proof {
                assert(r@ =~= skater_refs(prev));
            }
            r
        },
    }
}

fn puck_refs_of(prev: Option<HQMObjectPacket>) -> (r: Vec<Option<u32>>)
    ensures
        r@ == puck_refs(prev),
{
    match prev {
        Some(HQMObjectPacket::Puck(p)) => {
            let r = vec![Some(p.pos.0), Some(p.pos.1), Some(p.pos.2), Some(p.rot.0), Some(p.rot.1)];
            proof {
                assert(r@ =~= puck_refs(prev));
            }
            r
        },
        _ => {
            let r = vec![None, None, None, None, None];
            proof {
                assert(r@ =~= puck_refs(prev));
            }
            r
        },
    }
}

/// Reads one slot of the object table; `prev` is the same slot of the reference packet.
fn read_slot(reader: &mut HQMMessageReader, prev: Option<HQMObjectPacket>) -> (r: Result<
    HQMObjectPacket,
    DecodeError,
>)
    requires
        old(reader).wf(),
        old(reader).has_room(96),
    ensures
        final(reader).wf(),
        final(reader).bytes() == old(reader).bytes(),
        match slot_spec(old(reader).bytes(), old(reader).offset(), prev) {
            Ok((o, e)) => r == Ok::<HQMObjectPacket, DecodeError>(o) && final(reader).offset() == e,
            Err(x) => r == Err::<HQMObjectPacket, DecodeError>(x),
        },
        final(reader).offset() >= old(reader).offset(),
        final(reader).byte_pos() <= old(reader).byte_pos() + 68,
{
    let is_object = reader.read_bits(1) == 1;
    if !is_object {
        return Ok(HQMObjectPacket::Empty);
    }
    let object_type = reader.read_bits(2);
    if object_type == 0 {
        let widths: [u8; 12] = [17, 17, 17, 31, 31, 13, 13, 13, 25, 25, 16, 16];
        proof {
            assert(widths@ =~= skater_widths());
        }
        let refs = skater_refs_of(prev);
        match read_fields(reader, widths.as_slice(), &refs) {
            Some(v) => Ok(
                HQMObjectPacket::Skater(
                    HQMSkaterPacket {
                        pos: (v[0], v[1], v[2]),
                        rot: (v[3], v[4]),
                        stick_pos: (v[5], v[6], v[7]),
                        stick_rot: (v[8], v[9]),
                        head_rot: v[10],
                        body_rot: v[11],
                    },
                ),
            ),
            None => Err(DecodeError::MissingReference),
        }
    } else if object_type == 1 {
        let widths: [u8; 5] = [17, 17, 17, 31, 31];
        proof {
            assert(widths@ =~= puck_widths());
        }
        let refs = puck_refs_of(prev);
        match read_fields(reader, widths.as_slice(), &refs) {
            Some(v) => Ok(
                HQMObjectPacket::Puck(HQMPuckPacket { pos: (v[0], v[1], v[2]), rot: (v[3], v[4]) }),
            ),
            None => Err(DecodeError::MissingReference),
        }
    } else {
        Err(DecodeError::UnknownObjectType)
    }
}

/// Once the first `m` slots fail, the first `n` fail the same way.
proof fn lemma_table_fail(buf: Seq<u8>, k: nat, prev: Option<Seq<HQMObjectPacket>>, m: nat, n: nat)
    requires
        m <= n,
        table_spec(buf, k, prev, m) is Err,
    ensures
        table_spec(buf, k, prev, n) == table_spec(buf, k, prev, m),
    decreases n - m,
{
    if m < n {
        lemma_table_fail(buf, k, prev, m, (n - 1) as nat);
    }
}

/// Reads the packet numbers and the object table of a packet, decoding its
/// fields against the table that `history` holds for the previous packet
/// number. On success the new table is stored under the packet's own number,
/// and the table and that number are returned.
pub fn read_objects(reader: &mut HQMMessageReader, history: &mut PacketHistory) -> (r: Result<
    (Vec<HQMObjectPacket>, u32),
    DecodeError,
>)
    requires
        old(reader).wf(),
        old(reader).has_room(4096),
    ensures
        final(reader).wf(),
        final(reader).bytes() == old(reader).bytes(),
        final(reader).offset() >= old(reader).offset(),
        final(reader).byte_pos() <= old(reader).byte_pos() + 2400,
        ({
            let buf = old(reader).bytes();
            let a = aligned(old(reader).offset());
            let cur = le32(buf, (a / 8) as int);
            let prev = le32(buf, (a / 8 + 4) as int) as u32;
            match table_spec(buf, a + 64, history_table(old(history)@, prev), 32) {
                Ok((t, e)) => {
                    &&& r is Ok
                    &&& r->Ok_0.0@ == t
                    &&& r->Ok_0.1 as nat == cur
                    &&& final(reader).offset() == e
                    &&& final(history)@.contains_key(r->Ok_0.1)
                    &&& final(history)@[r->Ok_0.1]@ == t
                    &&& final(history)@.remove(r->Ok_0.1) == old(history)@.remove(r->Ok_0.1)
                },
                Err(x) => r == Err::<(Vec<HQMObjectPacket>, u32), DecodeError>(x) && final(history)@
                    == old(history)@,
            }
        }),
{
    let ghost buf = reader.bytes();
    let current_packet_num = reader.read_u32_aligned();
    let previous_packet_num = reader.read_u32_aligned();
    proof {
        old(reader).lemma_byte_pos();
        reader.lemma_byte_pos();
    }
    let ghost a = aligned(old(reader).offset());
    let ghost prevt = history_table(history@, previous_packet_num);
    assert(a % 8 == 0);
    assert(a / 8 + 4 == (a + 32) / 8);
    assert(aligned(a + 32) == a + 32);
    assert(le32(buf, (a / 8 + 4) as int) as u32 == previous_packet_num);
    assert(history_table(old(history)@, le32(buf, (a / 8 + 4) as int) as u32) == prevt);
    let find_old: Option<&Vec<HQMObjectPacket>> = history.get(&previous_packet_num);
    let mut packets: Vec<HQMObjectPacket> = Vec::new();
    let mut saved: Vec<HQMObjectPacket> = Vec::new();
    let mut i: usize = 0;
    while i < OBJECT_SLOTS
        invariant
            reader.wf(),
            reader.bytes() == buf,
            buf == old(reader).bytes(),
            old(reader).has_room(4096),
            reader.offset() >= old(reader).offset(),
            a == aligned(old(reader).offset()),
            history@ == old(history)@,
            prevt == history_table(old(history)@, le32(buf, (a / 8 + 4) as int) as u32),
            previous_packet_num == le32(buf, (a / 8 + 4) as int) as u32,
            current_packet_num as nat == le32(buf, (a / 8) as int),
            i <= OBJECT_SLOTS,
            reader.byte_pos() <= old(reader).byte_pos() + 10 + 68 * i,
            match find_old {
                Some(t) => prevt == Some(t@),
                None => prevt is None,
            },
            table_spec(buf, a + 64, prevt, i as nat) == Ok::<
                (Seq<HQMObjectPacket>, nat),
                DecodeError,
            >((packets@, reader.offset())),
            saved@ == packets@,
        decreases OBJECT_SLOTS - i,
    {
        let old_slot: Option<HQMObjectPacket> = match find_old {
            Some(t) => if i < t.len() {
                Some(t[i])
            } else {
                None
            },
            None => None,
        };
        assert(old_slot == prev_slot(prevt, i as int));
        match read_slot(reader, old_slot) {
            Ok(packet) => {
                packets.push(packet);
                saved.push(packet);
            },
            Err(e) => {
                proof {
                    assert(table_spec(buf, a + 64, prevt, (i + 1) as nat) == Err::<
                        (Seq<HQMObjectPacket>, nat),
                        DecodeError,
                    >(e));
                    lemma_table_fail(buf, a + 64, prevt, (i + 1) as nat, 32);
                    assert(table_spec(buf, a + 64, prevt, 32) == Err::<
                        (Seq<HQMObjectPacket>, nat),
                        DecodeError,
                    >(e));
                }
                return Err(e);
            },
        }
        i += 1;
    }
    history.insert(current_packet_num, saved);
    Ok((packets, current_packet_num))
}

} // verus!
