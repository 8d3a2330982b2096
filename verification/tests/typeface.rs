//! Loading a font. The font here has one empty glyph and, where asked, a name.
use aurora::typeface::{name_can_be_read, Typeface};

fn table(head: Vec<u16>, len: usize) -> Vec<u8> {
    let mut t: Vec<u8> = head.iter().flat_map(|x| x.to_be_bytes()).collect();
    t.resize(len, 0);
    t
}

/// A naming table with one entry: what it names and its bytes.
fn names(id: u16, bytes: &[u8]) -> Vec<u8> {
    let mut t = table(vec![0, 1, 18, 3, 1, 0x409, id, bytes.len() as u16, 0], 18);
    t.extend(bytes);
    t
}

fn font(name: Option<Vec<u8>>) -> Vec<u8> {
    let mut head = table(vec![1, 0], 54);
    head[12..16].copy_from_slice(&[0x5f, 0x0f, 0x3c, 0xf5]);
    head[18..20].copy_from_slice(&[0x03, 0xe8]);
    let hhea = table(vec![1, 0, 800], 36);
    let maxp = table(vec![0, 0x5000, 1], 6);
    let mut tables: Vec<(&[u8; 4], Vec<u8>)> = vec![(b"head", head), (b"hhea", hhea), (b"maxp", maxp)];
    if let Some(n) = name {
        tables.push((b"name", n));
    }
    let mut file = table(vec![1, 0, tables.len() as u16], 12);
    let mut at = 12 + 16 * tables.len() as u32;
    for (tag, t) in &tables {
        file.extend(*tag);
        file.extend([0; 4]);
        file.extend(at.to_be_bytes());
        file.extend((t.len() as u32).to_be_bytes());
        at += t.len() as u32;
    }
    for (_, t) in tables {
        file.extend(t);
    }
    file
}

#[test]
fn a_font_is_loaded_and_what_is_none_is_not() {
    let mut t = Typeface::new();
    assert_eq!(t.load_font(None), 0);
    assert_eq!(t.load_font(Some(b"not a font".to_vec())), 0);
    assert!(t.loaded.is_none());
    assert_eq!(t.load_font(Some(font(None))), 1);
    assert_eq!(t.loaded.as_ref().unwrap().glyph_count(), 1);
    assert_eq!(t.load_font(Some(vec![])), 0);
    assert!(t.loaded.is_some(), "a failure keeps the font there was");
}

#[test]
fn a_font_keeps_its_name() {
    let mut t = Typeface::new();
    let name = names(4, &[0, b'O', 0, b'k', 0xd8, 0x3d, 0xde, 0]);
    assert_eq!(t.try_load_font(Some(font(Some(name)))), Some(1));
    assert_eq!(t.loaded.as_ref().unwrap().name(), Some("Ok😀"));
    assert_eq!(t.try_load_font(None), Some(0));
    assert_eq!(t.try_load_font(Some(b"not a font".to_vec())), Some(0));
}

/// A full name that is cut short is not read; any other entry may be.
#[test]
fn a_name_that_is_cut_short_is_refused() {
    for cut in [vec![0u8], vec![0, b'O', 0xd8, 0x3d], vec![0xd8, 0x3d, 0, b'k'], vec![0xde, 0, 0xde, 0]] {
        let mut t = Typeface::new();
        assert_eq!(t.try_load_font(Some(font(Some(names(4, &cut))))), None, "{cut:?}");
        assert!(t.loaded.is_none());
        assert_eq!(t.try_load_font(Some(font(Some(names(1, &cut))))), Some(1), "{cut:?}");
    }
}

#[test]
fn the_first_full_name_counts() {
    let short = vec![0u8];
    let good = vec![0, b'A'];
    assert!(name_can_be_read(&vec![]));
    assert!(name_can_be_read(&vec![(4, true, good.clone()), (4, true, short.clone())]));
    assert!(!name_can_be_read(&vec![(4, true, short.clone()), (4, true, good.clone())]));
    assert!(name_can_be_read(&vec![(4, false, short.clone()), (2, true, short), (4, true, good)]));
}

fn named(name: u8) -> Vec<u8> {
    font(Some(names(4, &[0, name])))
}

/// The font in use is that of the last file that held one.
#[test]
fn the_last_font_loaded_is_the_one_in_use() {
    let mut t = Typeface::new();
    let shown = |t: &Typeface| t.loaded.as_ref().map(|f| f.name().map(str::to_string));
    for (i, name) in [b'A', b'B', b'C'].iter().enumerate() {
        let r = if i == 1 { Some(t.load_font(Some(named(*name)))) } else { t.try_load_font(Some(named(*name))) };
        assert_eq!(r, Some(1));
        assert_eq!(shown(&t), Some(Some((*name as char).to_string())));
    }
    assert_eq!(t.load_font(Some(b"no font".to_vec())), 0);
    assert_eq!(shown(&t), Some(Some("C".to_string())));
}

/// What was made is what is used, and nothing made changes nothing.
#[test]
fn a_font_that_was_made_is_put_in_use() {
    let make = |bytes: Vec<u8>| fontdue::Font::from_bytes(bytes, fontdue::FontSettings::default()).ok();
    let mut t = Typeface::new();
    assert_eq!(t.install(make(vec![])), 0);
    assert!(t.loaded.is_none());
    for name in [b'A', b'B'] {
        let made = make(named(name));
        let hash = made.as_ref().map(|f| f.file_hash());
        assert_eq!(t.install(made), 1);
        assert_eq!(t.loaded.as_ref().map(|f| f.file_hash()), hash);
    }
    assert_eq!(t.install(None), 0);
    assert_eq!(t.loaded.as_ref().and_then(|f| f.name()), Some("B"));
}
