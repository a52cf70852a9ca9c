use hqm_replay::{
    apply_player_update, decode_replay, new_roster, player_name, read_message, read_objects, read_packet,
    trim_nul_codes, DecodeError, HQMMessage, HQMMessageReader, HQMObjectPacket, HQMPuckPacket,
    HQMTeam, PacketHistory,
};

struct BitWriter {
    bytes: Vec<u8>,
    bit: usize,
}

impl BitWriter {
    fn new() -> Self {
        BitWriter { bytes: Vec::new(), bit: 0 }
    }

    fn put(&mut self, v: u64, n: u32) {
        for i in 0..n {
            if self.bit % 8 == 0 {
                self.bytes.push(0);
            }
            if (v >> i) & 1 == 1 {
                let idx = self.bit / 8;
                self.bytes[idx] |= 1 << (self.bit % 8);
            }
            self.bit += 1;
        }
    }

    fn align(&mut self) {
        self.bit = (self.bit + 7) / 8 * 8;
    }

    fn put_u32_aligned(&mut self, v: u32) {
        self.align();
        self.put(v as u64, 32);
    }

    /// The byte skip that ends a record.
    fn end_record(&mut self) {
        if self.bit % 8 == 0 {
            self.put(0, 8);
        } else {
            self.align();
        }
    }

    fn absolute(&mut self, v: u32, width: u32) {
        self.put(3, 2);
        self.put(v as u64, width);
    }

    fn delta(&mut self, mode: u64, d: i64) {
        let width = [3u32, 6, 12][mode as usize];
        self.put(mode, 2);
        self.put((d as u64) & ((1u64 << width) - 1), width);
    }

    fn empty_slots(&mut self, n: usize) {
        for _ in 0..n {
            self.put(0, 1);
        }
    }

    fn header(&mut self, current: u32, previous: u32) {
        self.align();
        self.put(5, 8);
        self.put(0, 1);
        self.put(2, 8);
        self.put(1, 8);
        self.put(1500, 16);
        self.put(0, 16);
        self.put(3, 8);
        self.put_u32_aligned(current);
        self.put_u32_aligned(previous);
    }

    fn chat(&mut self, sender: u64, text: &str) {
        self.put(2, 6);
        self.put(sender, 6);
        self.put(text.len() as u64, 6);
        for b in text.bytes() {
            self.put(b as u64, 7);
        }
    }
}

fn puck_slot(w: &mut BitWriter, pos: (u32, u32, u32), rot: (u32, u32)) {
    w.put(1, 1);
    w.put(1, 2);
    w.absolute(pos.0, 17);
    w.absolute(pos.1, 17);
    w.absolute(pos.2, 17);
    w.absolute(rot.0, 31);
    w.absolute(rot.1, 31);
}

#[test]
fn cache_miss_decodes_absolute_fields() {
    let mut w = BitWriter::new();
    w.put_u32_aligned(7);
    w.put_u32_aligned(6);
    puck_slot(&mut w, (1000, 2000, 3000), (5, 6));
    w.put(1, 1);
    w.put(0, 2);
    let skater = [17u32, 17, 17, 31, 31, 13, 13, 13, 25, 25, 16, 16];
    for (i, width) in skater.iter().enumerate() {
        w.absolute(100 + i as u32, *width);
    }
    w.empty_slots(30);
    let mut history = PacketHistory::new();
    let mut r = HQMMessageReader::new(&w.bytes);
    let (table, number) = read_objects(&mut r, &mut history).unwrap();
    assert_eq!(number, 7);
    assert_eq!(table.len(), 32);
    assert_eq!(
        table[0],
        HQMObjectPacket::Puck(HQMPuckPacket { pos: (1000, 2000, 3000), rot: (5, 6) })
    );
    match table[1] {
        HQMObjectPacket::Skater(s) => {
            assert_eq!(s.pos, (100, 101, 102));
            assert_eq!(s.rot, (103, 104));
            assert_eq!(s.stick_pos, (105, 106, 107));
            assert_eq!(s.stick_rot, (108, 109));
            assert_eq!(s.head_rot, 110);
            assert_eq!(s.body_rot, 111);
        }
        other => panic!("expected a skater, got {:?}", other),
    }
    assert!(table[2..].iter().all(|o| *o == HQMObjectPacket::Empty));
    assert_eq!(history.get(&7), Some(&table));
    assert_eq!(history.len(), 1);
}

#[test]
fn delta_on_cache_miss_is_missing_reference() {
    let mut w = BitWriter::new();
    w.put_u32_aligned(2);
    w.put_u32_aligned(1);
    w.put(1, 1);
    w.put(1, 2);
    w.delta(0, 1);
    w.empty_slots(31);
    let mut history = PacketHistory::new();
    let mut r = HQMMessageReader::new(&w.bytes);
    assert_eq!(read_objects(&mut r, &mut history), Err(DecodeError::MissingReference));
    assert!(history.is_empty());
}

#[test]
fn object_type_change_drops_reference() {
    let mut w = BitWriter::new();
    w.put_u32_aligned(1);
    w.put_u32_aligned(0);
    puck_slot(&mut w, (10, 20, 30), (1, 2));
    w.empty_slots(31);
    w.put_u32_aligned(2);
    w.put_u32_aligned(1);
    w.put(1, 1);
    w.put(0, 2);
    w.delta(0, 1);
    let mut history = PacketHistory::new();
    let mut r = HQMMessageReader::new(&w.bytes);
    assert!(read_objects(&mut r, &mut history).is_ok());
    assert_eq!(read_objects(&mut r, &mut history), Err(DecodeError::MissingReference));
}

#[test]
fn unknown_object_type_is_refused() {
    let mut w = BitWriter::new();
    w.put_u32_aligned(1);
    w.put_u32_aligned(0);
    w.put(1, 1);
    w.put(2, 2);
    let mut history = PacketHistory::new();
    let mut r = HQMMessageReader::new(&w.bytes);
    assert_eq!(read_objects(&mut r, &mut history), Err(DecodeError::UnknownObjectType));
}

#[test]
fn player_update_message() {
    let mut w = BitWriter::new();
    w.put(0, 6);
    w.put(4, 6);
    w.put(1, 1);
    w.put(1, 2);
    w.put(9, 6);
    let name = b"\0\0Bob";
    for i in 0..31 {
        w.put(*name.get(i).unwrap_or(&0) as u64, 7);
    }
    w.chat(0x3f, "x");
    let mut r = HQMMessageReader::new(&w.bytes);
    let m = read_message(&mut r).unwrap();
    assert_eq!(
        m,
        HQMMessage::PlayerUpdate {
            player_name: "\0\0Bob".to_string(),
            object: Some((9, HQMTeam::Blue)),
            player_index: 4,
            in_server: true,
        }
    );
    let next = read_message(&mut r).unwrap();
    assert_eq!(next, HQMMessage::Chat { player_index: None, message: "x".to_string() });
}

#[test]
fn player_update_without_object() {
    let mut w = BitWriter::new();
    w.put(0, 6);
    w.put(4, 6);
    w.put(0, 1);
    w.put(0, 2);
    w.put(0x3f, 6);
    w.put(0, 217);
    let mut r = HQMMessageReader::new(&w.bytes);
    assert_eq!(
        read_message(&mut r).unwrap(),
        HQMMessage::PlayerUpdate {
            player_name: String::new(),
            object: None,
            player_index: 4,
            in_server: false,
        }
    );
    let mut w = BitWriter::new();
    w.put(0, 6);
    w.put(4, 6);
    w.put(1, 1);
    w.put(3, 2);
    w.put(2, 6);
    w.put(0, 217);
    let mut r = HQMMessageReader::new(&w.bytes);
    match read_message(&mut r).unwrap() {
        HQMMessage::PlayerUpdate { object, .. } => assert_eq!(object, None),
        other => panic!("unexpected {:?}", other),
    }
}

#[test]
fn goal_message() {
    let mut w = BitWriter::new();
    w.put(1, 6);
    w.put(0, 2);
    w.put(3, 6);
    w.put(0x3f, 6);
    w.put(1, 6);
    w.put(2, 2);
    w.put(0x3f, 6);
    w.put(7, 6);
    let mut r = HQMMessageReader::new(&w.bytes);
    assert_eq!(
        read_message(&mut r).unwrap(),
        HQMMessage::Goal { team: HQMTeam::Red, goal_player_index: Some(3), assist_player_index: None }
    );
    assert_eq!(
        read_message(&mut r).unwrap(),
        HQMMessage::Goal { team: HQMTeam::Blue, goal_player_index: None, assist_player_index: Some(7) }
    );
}

#[test]
fn chat_message_drops_trailing_nul() {
    let mut w = BitWriter::new();
    w.put(2, 6);
    w.put(5, 6);
    w.put(6, 6);
    for b in b"\0hi\0\0\0" {
        w.put(*b as u64, 7);
    }
    let mut r = HQMMessageReader::new(&w.bytes);
    assert_eq!(
        read_message(&mut r).unwrap(),
        HQMMessage::Chat { player_index: Some(5), message: "\0hi".to_string() }
    );
}

#[test]
fn unknown_message_type_is_refused() {
    let mut w = BitWriter::new();
    w.put(3, 6);
    let mut r = HQMMessageReader::new(&w.bytes);
    assert_eq!(read_message(&mut r), Err(DecodeError::UnknownMessageType));
}

#[test]
fn trim_removes_trailing_nul_only() {
    assert_eq!(trim_nul_codes(&vec![0, 0, 65, 0, 66, 0]), vec![0, 0, 65, 0, 66]);
    assert_eq!(trim_nul_codes(&vec![0, 0, 0]), Vec::<u8>::new());
    assert_eq!(trim_nul_codes(&vec![]), Vec::<u8>::new());
    assert_eq!(trim_nul_codes(&vec![67]), vec![67]);
}

#[test]
fn second_packet_applies_delta_to_first() {
    let mut w = BitWriter::new();
    w.header(1, 0);
    puck_slot(&mut w, (1000, 2000, 3000), (5, 6));
    w.empty_slots(31);
    w.put(0, 16);
    w.put(0, 16);
    w.end_record();
    w.header(2, 1);
    w.put(1, 1);
    w.put(1, 2);
    w.delta(0, -2);
    w.delta(1, 20);
    w.delta(2, -1000);
    w.delta(0, 0);
    w.absolute(77, 31);
    w.empty_slots(31);
    w.put(0, 16);
    w.put(0, 16);
    w.end_record();

    let mut history = PacketHistory::new();
    let mut seen = 0u32;
    let mut r = HQMMessageReader::new(&w.bytes);
    let first = read_packet(&mut r, &mut history, &mut seen).unwrap();
    assert_eq!(first.packet_number, 1);
    assert_eq!((first.red_score, first.blue_score, first.time, first.period), (2, 1, 1500, 3));
    assert!(!first.game_over);
    let second = read_packet(&mut r, &mut history, &mut seen).unwrap();
    assert_eq!(r.pos(), w.bytes.len());
    assert_eq!(second.packet_number, 2);
    assert_eq!(
        second.objects[0],
        HQMObjectPacket::Puck(HQMPuckPacket { pos: (998, 2020, 2000), rot: (5, 77) })
    );
    let x1 = match first.objects[0] {
        HQMObjectPacket::Puck(p) => p.pos.0 as f32 / 1024.0,
        _ => panic!(),
    };
    let x2 = match second.objects[0] {
        HQMObjectPacket::Puck(p) => p.pos.0 as f32 / 1024.0,
        _ => panic!(),
    };
    assert_eq!(x2, x1 - 2.0 / 1024.0);
}

#[test]
fn overlapping_backlog_is_delivered_once() {
    let mut w = BitWriter::new();
    w.header(1, 0);
    w.empty_slots(32);
    w.put(3, 16);
    w.put(10, 16);
    w.chat(1, "a");
    w.chat(1, "b");
    w.chat(1, "c");
    w.end_record();
    w.header(2, 1);
    w.empty_slots(32);
    w.put(3, 16);
    w.put(11, 16);
    w.chat(1, "b");
    w.chat(1, "c");
    w.chat(1, "d");
    w.end_record();

    let mut history = PacketHistory::new();
    let mut seen = 0u32;
    let mut r = HQMMessageReader::new(&w.bytes);
    let a = read_packet(&mut r, &mut history, &mut seen).unwrap();
    assert_eq!(seen, 13);
    let b = read_packet(&mut r, &mut history, &mut seen).unwrap();
    assert_eq!(seen, 14);
    let texts: Vec<String> = a
        .messages
        .iter()
        .chain(b.messages.iter())
        .map(|m| match m {
            HQMMessage::Chat { message, .. } => message.clone(),
            other => panic!("unexpected {:?}", other),
        })
        .collect();
    assert_eq!(texts, vec!["a", "b", "c", "d"]);
    assert_eq!(texts.iter().filter(|t| *t == "d").count(), 1);
    assert_eq!((b.message_start, b.message_count), (11, 3));
}

#[test]
fn bad_message_fails_the_packet() {
    let mut w = BitWriter::new();
    w.header(1, 0);
    w.empty_slots(32);
    w.put(1, 16);
    w.put(0, 16);
    w.put(9, 6);
    w.end_record();
    let mut history = PacketHistory::new();
    let mut seen = 5u32;
    let mut r = HQMMessageReader::new(&w.bytes);
    assert!(matches!(
        read_packet(&mut r, &mut history, &mut seen),
        Err(DecodeError::UnknownMessageType)
    ));
    assert_eq!(seen, 5);
}

#[test]
fn roster_follows_player_updates() {
    let mut players = new_roster();
    assert_eq!(players.len(), 63);
    let join = HQMMessage::PlayerUpdate {
        player_name: "Ann".to_string(),
        object: Some((2, HQMTeam::Red)),
        player_index: 3,
        in_server: true,
    };
    apply_player_update(&mut players, &join);
    assert_eq!(player_name(&players, Some(3)), Some("Ann".to_string()));
    assert_eq!(players[3].as_ref().unwrap().team_and_skater, Some((2, HQMTeam::Red)));
    assert_eq!(player_name(&players, Some(4)), None);
    assert_eq!(player_name(&players, None), None);
    assert_eq!(player_name(&players, Some(63)), None);
    let leave = HQMMessage::PlayerUpdate {
        player_name: "Ann".to_string(),
        object: None,
        player_index: 3,
        in_server: false,
    };
    apply_player_update(&mut players, &leave);
    assert_eq!(player_name(&players, Some(3)), None);
    let far = HQMMessage::PlayerUpdate {
        player_name: "Zed".to_string(),
        object: None,
        player_index: 63,
        in_server: true,
    };
    apply_player_update(&mut players, &far);
    assert!(players.iter().all(|p| p.is_none()));
}

#[test]
fn replay_without_records_is_empty() {
    assert_eq!(decode_replay(&[]).unwrap().len(), 0);
    assert_eq!(decode_replay(&[1, 2, 3, 4, 5, 6, 7, 8]).unwrap().len(), 0);
}

#[test]
fn replay_decodes_every_record() {
    let mut w = BitWriter::new();
    w.put_u32_aligned(0x1234);
    w.put_u32_aligned(0);
    w.header(1, 0);
    puck_slot(&mut w, (1000, 2000, 3000), (5, 6));
    w.empty_slots(31);
    w.put(2, 16);
    w.put(0, 16);
    w.chat(1, "a");
    w.chat(1, "b");
    w.end_record();
    w.header(2, 1);
    w.put(1, 1);
    w.put(1, 2);
    w.delta(0, 3);
    w.delta(0, 0);
    w.delta(0, 0);
    w.delta(0, 0);
    w.delta(0, 0);
    w.empty_slots(31);
    w.put(2, 16);
    w.put(1, 16);
    w.chat(1, "b");
    w.chat(1, "c");
    w.end_record();
    let packets = decode_replay(&w.bytes).unwrap();
    assert_eq!(packets.len(), 2);
    assert_eq!(packets[0].messages.len(), 2);
    assert_eq!(packets[1].messages.len(), 1);
    assert_eq!(
        packets[1].objects[0],
        HQMObjectPacket::Puck(HQMPuckPacket { pos: (1003, 2000, 3000), rot: (5, 6) })
    );
}

#[test]
fn replay_stops_at_a_bad_record() {
    let mut w = BitWriter::new();
    w.put_u32_aligned(0);
    w.put_u32_aligned(0);
    w.header(1, 0);
    w.empty_slots(32);
    w.put(0, 16);
    w.put(0, 16);
    w.end_record();
    w.header(2, 1);
    w.put(1, 1);
    w.put(3, 2);
    w.end_record();
    assert_eq!(decode_replay(&w.bytes).err(), Some(DecodeError::UnknownObjectType));
}
