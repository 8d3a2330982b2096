//! Sound requests, profiles, the debugger, sound loading and the message queue.
use aurora::debug::{dbg_reset, dbg_take_stops, DbgCmd, DbgVal, DebugState};
use aurora::decode::{frame_ranges, is_wav, Action, Event, Stream};
use aurora::inbox::{port, Inbox};
use aurora::prof::{prof_report, prof_reset, Profiler};
use aurora::sound::{volume_percent, Note, Play, SoundLog};
use std::collections::HashSet;

#[test]
fn the_record_is_kept_with_and_without_a_device() {
    for headless in [true, false] {
        let mut s = SoundLog::new(headless);
        assert_eq!(s.audio_last_sound(), -1);
        assert_eq!(s.music_now(), -1);
        let mixed = if headless { Play::Silent } else { Play::Mix(3) };
        assert_eq!(s.play_sound_handle(3), mixed);
        assert_eq!(s.play_sound_handle(-1), Play::Silent);
        assert_eq!(s.audio_plays(), 1, "a missing sound is not counted");
        assert_eq!(s.audio_last_sound(), 3);
        s.play_music(5);
        s.play_music(6);
        assert_eq!((s.music_now(), s.music_starts()), (6, 2));
        s.play_music(-1);
        assert_eq!((s.music_now(), s.music_starts()), (6, 2));
        s.music_stop();
        assert_eq!((s.music_now(), s.music_starts()), (-1, 2));
        s.play_ambience(9);
        assert_eq!(s.audio_plays(), 1, "the ambience is not part of the record");
    }
}

#[test]
fn notes_are_captured_where_there_is_no_device() {
    let at = 1.5f64.to_bits();
    let mut s = SoundLog::new(true);
    assert!(!s.play_note(-12, -5, at));
    assert!(!s.play_sound(7, 250, false, at));
    assert!(!s.play_sound(8, 250, true, at), "a loop is never captured");
    assert_eq!(
        s.notes,
        vec![Note { semitone: -12, dur_ms: 0, at }, Note { semitone: 7, dur_ms: 250, at }]
    );
    let mut s = SoundLog::new(false);
    assert!(s.play_note(0, 1, at));
    assert!(s.notes.is_empty());
}

#[test]
fn a_volume_is_held_to_its_range() {
    assert_eq!(volume_percent(-1), 0);
    assert_eq!(volume_percent(55), 55);
    assert_eq!(volume_percent(201), 200);
}

#[test]
fn a_profile_counts_each_return_once() {
    let mut p = Profiler::new();
    p.prof_enter("main".to_string(), 0);
    for i in 0..3u128 {
        p.prof_enter("step".to_string(), 10 * i);
        p.prof_exit(10 * i + 4);
    }
    p.prof_exit(100);
    p.prof_exit(200);
    let rows: Vec<(String, u64, u128)> =
        prof_report(&p).into_iter().map(|r| (r.func, r.calls, r.nanos)).collect();
    assert_eq!(rows, vec![("main".to_string(), 1, 100), ("step".to_string(), 3, 12)]);
    prof_reset(&mut p);
    assert!(prof_report(&p).is_empty());
}

#[test]
fn the_longest_row_comes_first() {
    let mut p = Profiler::new();
    for (name, ns) in [("a", 5), ("b", 50), ("c", 20)] {
        p.prof_enter(name.to_string(), 0);
        p.prof_exit(ns);
    }
    let order: Vec<String> = prof_report(&p).into_iter().map(|r| r.func).collect();
    assert_eq!(order, vec!["b", "c", "a"]);
}

#[test]
fn the_debugger_stops_where_it_was_told() {
    let mut d = DebugState::new();
    dbg_reset(&mut d, HashSet::from([7]), false);
    d.dbg_enter("main".to_string());
    d.dbg_enter("inner".to_string());
    d.dbg_var("x".to_string(), DbgVal::Int(1));
    d.dbg_var("y".to_string(), DbgVal::Float(2.5f64.to_bits()));
    d.dbg_var("x".to_string(), DbgVal::Int(3));
    assert!(d.dbg_stmt(6).is_none());
    let stop = d.dbg_stmt(7).expect("a breakpoint");
    assert_eq!(stop.line, 7);
    assert_eq!(stop.stack, vec!["main", "inner"]);
    assert_eq!(stop.vars.len(), 2, "a variable bound again is replaced");
    assert!(matches!(stop.vars[0], (ref n, DbgVal::Int(3)) if n == "x"));
    assert!(!d.resume(DbgCmd::Step));
    d.dbg_leave();
    let stop = d.dbg_stmt(8).expect("stepping");
    assert!(stop.vars.is_empty());
    assert_eq!(stop.stack, vec!["main"]);
    assert!(!d.resume(DbgCmd::Continue));
    assert!(d.dbg_stmt(9).is_none());
    assert!(d.resume(DbgCmd::Quit));
    let stops = dbg_take_stops(&mut d);
    assert_eq!(stops.iter().map(|s| s.line).collect::<Vec<u32>>(), vec![7, 8]);
    assert!(dbg_take_stops(&mut d).is_empty());
}

/// One sample per frame, the mean of the frame's.
fn fold(samples: &[f32], channels: usize) -> Vec<f32> {
    frame_ranges(samples.len(), channels)
        .into_iter()
        .map(|(a, b)| samples[a..b].iter().sum::<f32>() / (b - a) as f32)
        .collect()
}

#[test]
fn fold_averages_channels_and_keeps_mono_intact() {
    assert_eq!(fold(&[1.0, 0.0, 0.0, 1.0], 2), vec![0.5, 0.5]);

    // Mono passes through untouched.
    let mono = vec![0.25, -0.75];
    assert_eq!(fold(&mono, 1), mono);

    // A trailing partial frame is averaged over what is actually there, never
    // divided by the channel count (which would attenuate the last frame).
    assert_eq!(fold(&[1.0, 1.0, 1.0], 2), vec![1.0, 1.0]);
    assert_eq!(frame_ranges(7, 3), vec![(0, 3), (3, 6), (6, 7)]);
    assert_eq!(frame_ranges(2, 0), vec![(0, 1), (1, 2)]);
    assert!(frame_ranges(0, 2).is_empty());
}

#[test]
fn a_stream_is_decoded_packet_by_packet() {
    let mut s = Stream { track: 2, rate: 0 };
    assert_eq!(s.on(Event::End), Action::Fail, "without a rate there is no sound");
    assert_eq!(s.on(Event::Packet(1)), Action::Next, "another track");
    assert_eq!(s.on(Event::Packet(2)), Action::Decode);
    assert_eq!(s.on(Event::Corrupt), Action::Next, "a bad packet is skipped");
    assert_eq!(s.on(Event::Decoded(44100)), Action::Fold);
    assert_eq!(s.on(Event::Decoded(48000)), Action::Fold);
    assert_eq!(s.on(Event::End), Action::Finish(44100), "the first rate counts");
}

#[test]
fn the_extension_sends_a_file_to_the_wav_decoder() {
    for yes in ["wav", "WAV", "Wave"] {
        assert!(is_wav(Some(yes)), "{yes}");
    }
    for no in ["mp3", "wa", "wavs", ""] {
        assert!(!is_wav(Some(no)), "{no}");
    }
    assert!(!is_wav(None));
}

#[test]
fn messages_are_read_oldest_first() {
    let mut b = Inbox::new();
    assert!(b.net_recv(vec![]).is_empty());
    assert_eq!(b.net_recv(vec![vec![1], vec![2, 2]]), vec![1]);
    assert_eq!(b.net_recv(vec![vec![3]]), vec![2, 2]);
    assert_eq!(b.net_recv(vec![]), vec![3]);
    assert!(b.net_recv(vec![]).is_empty());
}

#[test]
fn a_port_is_held_to_what_a_port_can_be() {
    assert_eq!(port(-1), 0);
    assert_eq!(port(7777), 7777);
    assert_eq!(port(70000), 65535);
}

/// Only calls that have returned are in a report, and a function called by itself is
/// in it once.
#[test]
fn a_report_tells_the_calls_that_returned() {
    let mut p = Profiler::new();
    p.prof_exit(1);
    p.prof_enter("open".to_string(), 0);
    p.prof_enter("again".to_string(), 10);
    p.prof_enter("again".to_string(), 20);
    p.prof_exit(25);
    p.prof_exit(40);
    p.prof_enter("back".to_string(), 50);
    p.prof_exit(45);
    for _ in 0..2 {
        let rows: Vec<(String, u64, u128)> =
            prof_report(&p).into_iter().map(|r| (r.func, r.calls, r.nanos)).collect();
        assert_eq!(rows, vec![("again".to_string(), 2, 35), ("back".to_string(), 1, 0)]);
    }
}
