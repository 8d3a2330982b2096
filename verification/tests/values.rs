//! Random numbers, strings, program arguments and the standard prelude.
use aurora::bytes::get_i64;
use aurora::prelude::{with_std, PRELUDE};
use aurora::rng::Rng;
use aurora::span::SourceFile;
use aurora::text::{
    chars_of, int_to_str, is_i64, load_settings, parse_i64, set_program_args, str_char_at, str_concat, str_eq,
    str_starts_with, str_substr, ProgramArgs,
};

fn rand(r: &mut Rng) -> f64 {
    r.rand_bits() as f64 / (1u64 << 53) as f64
}

#[test]
fn rng_is_deterministic_and_reseedable() {
    let mut r = Rng::new();
    r.srand(42);
    let a: Vec<f64> = (0..5).map(|_| rand(&mut r)).collect();
    r.srand(42);
    let b: Vec<f64> = (0..5).map(|_| rand(&mut r)).collect();
    assert_eq!(a, b, "same seed must give the same sequence");
    assert!(a.iter().all(|x| (0.0..1.0).contains(x)));
    r.srand(43);
    let c: Vec<f64> = (0..5).map(|_| rand(&mut r)).collect();
    assert_ne!(a, c, "different seeds must diverge");
    for _ in 0..1000 {
        let v = r.rand_int(3, 7);
        assert!((3..=7).contains(&v));
    }
    assert_eq!(r.rand_int(5, 5), 5);
}

#[test]
fn the_first_draws_are_these() {
    let mut r = Rng::new();
    r.srand(0);
    assert_eq!(r.next_u64(), 0xE220_A839_7B1D_CDAF);
    assert_eq!(r.next_u64(), 0x6E78_9E6A_A1B9_65F4);
    r.srand(0);
    assert_eq!(r.rand_int(0, 9), (0xE220_A839_7B1D_CDAFu64 % 10) as i64);
    assert_eq!(r.rand_int(9, 0), 9, "an empty range is its first number");
    assert_eq!(r.next_u64(), 0x6E78_9E6A_A1B9_65F4, "and draws nothing");
}

#[test]
fn strings_join_and_come_apart() {
    let s = str_concat(b"ab", b"cde");
    assert_eq!(s, b"abcde");
    assert_eq!(str_substr(&s, 0, 2), b"ab");
    assert_eq!(str_substr(&s, 2, 3), b"cde");
    assert_eq!(str_substr(&s, 3, 99), b"de", "cut to what is there");
    assert_eq!(str_substr(&s, 9, 1), b"");
    assert_eq!(str_substr(&s, 1, -1), b"");
    assert_eq!(str_eq(&s, b"abcde"), 1);
    assert_eq!(str_eq(&s, b"abcd"), 0);
    assert_eq!(str_char_at(&s, 1), 98);
    assert_eq!(str_char_at(&s, 5), -1);
    assert_eq!(str_starts_with(&s, b"abc"), 1);
    assert_eq!(str_starts_with(&s, b""), 1);
    assert_eq!(str_starts_with(b"ab", b"abc"), 0);
    assert_eq!(chars_of("aé"), vec!['a', 'é']);
}

#[test]
fn numbers_are_written_and_read_back() {
    for n in [0, 7, -7, 10, 1_000_000, i64::MAX, i64::MIN] {
        let s = String::from_utf8(int_to_str(n)).unwrap();
        assert_eq!(s, n.to_string());
        assert_eq!(is_i64(&s), 1);
        assert_eq!(parse_i64(&s, 5), n);
    }
    for bad in ["", "-", "1.5", "x", "9223372036854775808", "1 2"] {
        assert_eq!(is_i64(bad), 0, "{bad}");
        assert_eq!(parse_i64(bad, 5), 5, "{bad}");
    }
    assert_eq!(parse_i64("+12", 0), 12);
    assert_eq!(parse_i64(" 12\n", 0), 12, "blanks around it do not count");
}

#[test]
fn arguments_are_installed_once() {
    let mut p = ProgramArgs::new();
    assert_eq!(p.sys_argc(), 1, "the program itself counts");
    assert_eq!(p.sys_arg(0), "");
    set_program_args(&mut p, vec!["--seed".to_string(), "7".to_string()]);
    assert_eq!(p.sys_argc(), 2);
    assert_eq!(p.sys_arg(1), "7");
    assert_eq!(p.sys_arg(2), "");
    set_program_args(&mut p, vec![]);
    assert_eq!(p.sys_argc(), 2, "a second installation is ignored");
}

/// The prelude comes behind the program, so a program's lines keep their numbers.
#[test]
fn a_programs_lines_keep_their_numbers() {
    let src = "fn main() {\n    print(1)\n}";
    let all = with_std(src);
    assert!(all.starts_with(src));
    assert_eq!(&all[src.len() + 1..], PRELUDE);
    for (i, line) in src.lines().enumerate() {
        assert_eq!(all.lines().nth(i), Some(line));
    }
    assert!(PRELUDE.contains("fn clamp01("));
}

#[test]
fn settings_pass_over_what_is_no_number() {
    let lines: Vec<Option<u64>> = "0.5\nwide\n 2 \n\n7\n"
        .lines()
        .map(|l| l.trim().parse::<f64>().ok().map(f64::to_bits))
        .collect();
    let read = |len: usize| -> Vec<f64> {
        load_settings(&lines, len).into_iter().map(f64::from_bits).collect()
    };
    assert_eq!(read(9), vec![0.5, 2.0, 7.0]);
    assert_eq!(read(2), vec![0.5, 2.0]);
    assert!(read(0).is_empty());
}

/// A program with an empty list of arguments still has its own place in it.
#[test]
fn there_is_always_an_argument() {
    let mut p = ProgramArgs::new();
    set_program_args(&mut p, vec![]);
    assert_eq!(p.sys_argc(), 1);
    assert_eq!(p.sys_arg(0), "");
    let mut q = ProgramArgs::new();
    set_program_args(&mut q, vec!["game".to_string()]);
    assert_eq!(q.sys_argc(), 1);
    assert_eq!(q.sys_arg(0), "game");
}

/// A range may be as wide as the integers are.
#[test]
fn a_range_may_hold_every_integer() {
    let mut r = Rng::new();
    r.srand(0);
    let z = 0xE220_A839_7B1D_CDAFu64 as i128;
    assert_eq!(r.rand_int(i64::MIN, i64::MAX) as i128, i64::MIN as i128 + z);
    r.srand(0);
    let span = i64::MAX as i128 + 2;
    assert_eq!(r.rand_int(-1, i64::MAX) as i128, -1 + z % span);
}

/// With the prelude behind it, a program's lines and positions are its own.
#[test]
fn the_prelude_moves_no_position() {
    for src in ["", "a", "let x = 1\r\n", "é\n\n  ü = 2", "one\ntwo\n"] {
        let alone = SourceFile::new("user", src);
        let whole = SourceFile::new("user", &with_std(src));
        for line in 1..=alone.line_count() {
            assert_eq!(whole.line_text(line), alone.line_text(line), "{src:?} {line}");
        }
        for p in (0..=src.len()).filter(|p| src.is_char_boundary(*p)) {
            let (w, a) = (whole.line_col(p as u32), alone.line_col(p as u32));
            assert_eq!((w.line, w.col), (a.line, a.col), "{src:?} {p}");
        }
    }
}

/// Reading past the end gives nothing, wherever the reading begins.
#[test]
fn an_integer_past_the_end_is_not_read() {
    let mut b = vec![0u8; 3];
    b.extend(7i64.to_le_bytes());
    for (start, want) in [(3, Some(7)), (4, None), (11, None), (12, None), (usize::MAX, None)] {
        let mut pos = start;
        assert_eq!(get_i64(&b, &mut pos), want);
        assert_eq!(pos, if want.is_some() { 11 } else { start });
    }
}
