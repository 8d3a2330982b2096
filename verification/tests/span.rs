use aurora::span::{LineCol, SourceFile, SourceMap, Span};

#[test]
fn span_join_and_len() {
    let a = Span::new(2, 5);
    let b = Span::new(10, 12);
    assert_eq!(a.to(b), Span::new(2, 12));
    assert_eq!(a.len(), 3);
    assert!(!a.is_empty());
    assert!(Span::dummy().is_empty());
}

#[test]
fn line_col_basic() {
    let f = SourceFile::new("t.aur", "let x = 1\nlet y = 2\n");
    assert_eq!(f.line_col(0), LineCol { line: 1, col: 1 });
    assert_eq!(f.line_col(4), LineCol { line: 1, col: 5 });
    // first byte of line 2 ("let y") is right after the '\n' at offset 9
    assert_eq!(f.line_col(10), LineCol { line: 2, col: 1 });
    assert_eq!(f.line_text(2), "let y = 2");
}

#[test]
fn line_col_counts_chars_not_bytes() {
    // 'é' is two bytes; the 'x' after it should be column 3, not 4.
    let f = SourceFile::new("t.aur", "éx");
    let x_off = "é".len() as u32;
    assert_eq!(f.line_col(x_off), LineCol { line: 1, col: 2 });
}

/// Joining covers both spans whichever comes first.
#[test]
fn joining_is_the_least_cover_either_way_round() {
    let a = Span::new(7, 9);
    let b = Span::new(3, 8);
    assert_eq!(a.to(b), Span::new(3, 9));
    assert_eq!(b.to(a), Span::new(3, 9));
    assert_eq!(a.to(a), a);
    assert_eq!(a.range(), 7..9);
    assert!(Span::new(4, 4).is_empty());
    assert_eq!(Span::new(4, 4).len(), 0);
}

#[test]
fn lines_are_counted_and_cut_at_their_ends() {
    let f = SourceFile::new("t.aur", "one\r\ntwo\n\nfour");
    assert_eq!(f.line_count(), 4);
    assert_eq!(f.line_text(1), "one");
    assert_eq!(f.line_text(2), "two");
    assert_eq!(f.line_text(3), "");
    assert_eq!(f.line_text(4), "four");
    assert_eq!(f.line_col(14), LineCol { line: 4, col: 5 });
    assert_eq!(f.slice(Span::new(5, 8)), "two");
    // A later offset is never on an earlier line.
    let mut last = 1;
    for o in 0..15 {
        let line = f.line_col(o).line;
        assert!(line >= last);
        last = line;
    }
}

#[test]
fn an_empty_file_is_one_empty_line() {
    let f = SourceFile::new("t.aur", "");
    assert_eq!(f.line_count(), 1);
    assert_eq!(f.line_text(1), "");
    assert_eq!(f.line_col(0), LineCol { line: 1, col: 1 });
}

#[test]
fn a_map_hands_back_what_was_added() {
    let mut m = SourceMap::new();
    let a = m.add(SourceFile::new("a.aur", "aa"));
    let b = m.add(SourceFile::new("b.aur", "bb\n"));
    assert_ne!(a, b);
    assert_eq!(m.get(a).line_text(1), "aa");
    assert_eq!(m.get(b).line_count(), 2);
}

/// The lines with a newline between each two are the text again.
#[test]
fn the_lines_give_the_text_back() {
    for src in ["", "\n", "one", "one\ntwo", "one\n\nthree\n", "\n\n\n", "é\nü"] {
        let f = SourceFile::new("t", src);
        let lines: Vec<&str> = (1..=f.line_count()).map(|i| f.line_text(i)).collect();
        assert_eq!(lines.len(), 1 + src.matches('\n').count());
        assert_eq!(lines.join("\n"), src);
    }
}
