//! What goes over the wire comes back as it was, and nothing short of it does.
use aurora::wire::{
    decode_booms, decode_fire, decode_fx, decode_hit, decode_input, decode_kill, decode_objects,
    decode_projectile, decode_shots, decode_snapshot, encode_booms, encode_fire, encode_fx,
    encode_hit, encode_input, encode_kill, encode_objects, encode_projectile, encode_shots,
    encode_snapshot, Boom, FireMsg, InputMsg, LaunchMsg, Player, ShotFx, INPUT_MAX, META_LEN,
    NAME_MAX, OBJ_WORDS, STATE_MAX, TAG_FIRE, TAG_SNAPSHOT,
};

fn player(k: u32) -> Player {
    let mut p = Player::spawn();
    for i in 0..STATE_MAX {
        p.s[i] = k * 100 + i as u32;
    }
    p.meta[META_LEN - 1] = k;
    p.name[0] = b'P';
    p
}

#[test]
fn an_input_comes_back_as_it_was() {
    let m = InputMsg {
        seq: 0x01020304,
        blob: [7; INPUT_MAX],
        meta: [9; META_LEN],
        name: [b'n'; NAME_MAX],
        state: [3; STATE_MAX],
    };
    let b = encode_input(&m, 2, 5);
    assert_eq!(b.len(), 5 + 2 * 4 + META_LEN * 4 + NAME_MAX + 5 * 4);
    assert_eq!(&b[1..5], &[1, 2, 3, 4]);
    let back = decode_input(&b, 2, 5).unwrap();
    assert_eq!((back.seq, back.meta, back.name), (m.seq, m.meta, m.name));
    assert_eq!(&back.blob[..3], &[7, 7, 0], "only what was sent");
    assert_eq!(&back.state[..6], &[3, 3, 3, 3, 3, 0]);
    for cut in 0..b.len() {
        assert!(decode_input(&b[..cut], 2, 5).is_none(), "cut at {cut}");
    }
}

#[test]
fn a_snapshot_comes_back_as_it_was() {
    let players = vec![(4, player(1)), (1000, player(2))];
    let b = encode_snapshot(4, 17, 0x3f80_0000, 99, 6, &players);
    assert_eq!(b[0], TAG_SNAPSHOT);
    let s = decode_snapshot(&b).unwrap();
    assert_eq!((s.your_id, s.acked, s.tick, s.stick), (4, 17, 0x3f80_0000, 99));
    assert_eq!(s.players.len(), 2);
    let (id, p) = s.players[1];
    assert_eq!(id, 1000);
    assert_eq!(&p.s[..7], &[200, 201, 202, 203, 204, 205, 0]);
    assert_eq!(p.meta[META_LEN - 1], 2);
    assert_eq!(p.name[0], b'P');
    for cut in 0..20 {
        assert!(decode_snapshot(&b[..cut]).is_none(), "cut at {cut}");
    }
    // Cut later, it holds the players that came whole.
    assert_eq!(decode_snapshot(&b[..b.len() - 1]).unwrap().players.len(), 1);
    assert!(decode_snapshot(&b[..20]).unwrap().players.is_empty());
}

#[test]
fn a_shot_and_its_answer_come_back_as_they_were() {
    let m = FireMsg { view_tick: 5, o: [1, 2, 3], d: [4, 5, 6], weapon: 200 };
    let b = encode_fire(&m);
    assert_eq!((b.len(), b[0]), (30, TAG_FIRE));
    let back = decode_fire(&b).unwrap();
    assert_eq!((back.view_tick, back.o, back.d, back.weapon), (5, [1, 2, 3], [4, 5, 6], 200));
    assert!(decode_fire(&b[..29]).is_none());
    assert!(decode_fire(&encode_hit(1, [0; 3])).is_none());
    for id in [-1, 0, 7, 2003] {
        assert_eq!(decode_hit(&encode_hit(id, [9, 8, 7])), Some((id, [9, 8, 7])));
    }
}

#[test]
fn launches_and_kills_come_back_as_they_were() {
    let m = LaunchMsg { kind: 1, origin: [1, 2, 3], vel: [4, 5, 6] };
    let b = encode_projectile(&m);
    let back = decode_projectile(&b).unwrap();
    assert_eq!((back.kind, back.origin, back.vel), (1, [1, 2, 3], [4, 5, 6]));
    assert!(decode_projectile(&b[..b.len() - 1]).is_none());
    assert_eq!(decode_kill(&encode_kill(3, 1001)), Some((3, 1001)));
    assert_eq!(decode_kill(&[]), None);
}

#[test]
fn lists_come_back_as_they_were() {
    let fx = vec![[1, 2, 3, 4], [5, 6, 7, 8]];
    assert_eq!(decode_fx(&encode_fx(&fx)), Some(fx));
    assert_eq!(decode_fx(&encode_fx(&vec![])), Some(vec![]));
    let objects = vec![[6u32; OBJ_WORDS], [8; OBJ_WORDS]];
    let b = encode_objects(&objects);
    assert_eq!(decode_objects(&b), Some(objects));
    assert_eq!(decode_objects(&b[..b.len() - 1]), Some(vec![[6; OBJ_WORDS]]), "those that came whole");
    let shots = vec![ShotFx { shooter: 1, o: [1, 2, 3], e: [4, 5, 6], weapon: 7 }];
    let back = decode_shots(&encode_shots(&shots)).unwrap();
    assert_eq!(back.len(), 1);
    assert_eq!((back[0].shooter, back[0].e, back[0].weapon), (1, [4, 5, 6], 7));
    let booms = vec![Boom { source: 9, p: [1, 2, 3], intensity: 4 }];
    let back = decode_booms(&encode_booms(&booms)).unwrap();
    assert_eq!((back[0].source, back[0].p, back[0].intensity), (9, [1, 2, 3], 4));
    assert!(decode_shots(&encode_booms(&booms)).is_none());
}
