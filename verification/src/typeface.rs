//! The typeface text is drawn in. A program loads it from a file.
use vstd::prelude::*;

verus! {

#[verifier::external_type_specification]
#[verifier::external_body]
pub struct ExFont(fontdue::Font);

/// The font `fontdue` makes of the bytes of a file, where it can use them.
pub uninterp spec fn font_in(bytes: Seq<u8>) -> Option<fontdue::Font>;

/// The entries of a font file's naming table, in order: what each names, whether it
/// is held as UTF-16, and its bytes. A file that is no font has none.
pub uninterp spec fn font_names(bytes: Seq<u8>) -> Seq<(u16, bool, Seq<u8>)>;

/// What the naming table says of the face as a whole.
pub const FULL_NAME: u16 = 4;

/// The 16-bit unit at `at`, high byte first.
pub open spec fn unit(b: Seq<u8>, at: int) -> int {
    b[at] * 0x100 + b[at + 1]
}

/// Whether the bytes from `at` on can be read as 16-bit units: whole units, the first
/// half of a pair never without a second.
pub open spec fn readable(b: Seq<u8>, at: int) -> bool
    decreases b.len() - at,
{
    if at >= b.len() {
        true
    } else if at + 2 > b.len() {
        false
    } else if unit(b, at) < 0xD800 || unit(b, at) > 0xDFFF {
        readable(b, at + 2)
    } else {
        unit(b, at) < 0xDC00 && at + 4 <= b.len() && unit(b, at + 2) >= 0xDC00 && readable(
            b,
            at + 4,
        )
    }
}

/// Whether an entry holds the face's full name.
pub open spec fn is_full_name(n: (u16, bool, Seq<u8>)) -> bool {
    n.0 == FULL_NAME && n.1
}

/// Whether the full name can be read; the first one counts.
pub open spec fn name_reads(names: Seq<(u16, bool, Seq<u8>)>) -> bool {
    forall|i: int|
        0 <= i < names.len() && is_full_name(#[trigger] names[i]) && (forall|j: int|
            0 <= j < i ==> !is_full_name(#[trigger] names[j])) ==> readable(names[i].2, 0)
}

pub open spec fn entries(names: Seq<(u16, bool, Vec<u8>)>) -> Seq<(u16, bool, Seq<u8>)> {
    names.map_values(|n: (u16, bool, Vec<u8>)| (n.0, n.1, n.2@))
}

/// `ttf_parser::Face::parse` and `Face::names`: the naming table of the first face in
/// a file, one entry after the other; nothing where the file is no font. It depends
/// on the file's bytes alone.
#[verifier::external_body]
fn names_of(bytes: &Vec<u8>) -> (r: Vec<(u16, bool, Vec<u8>)>)
    ensures
        entries(r@) == font_names(bytes@),
{
    match ttf_parser::Face::parse(bytes, 0) {
        Ok(f) => f.names().into_iter().map(|n| (n.name_id, n.is_unicode(), n.name.to_vec())).collect(),
        Err(_) => Vec::new(),
    }
}

/// `fontdue::Font::from_bytes` with its default settings. Whether it makes a font, and
/// which one, depends on the bytes alone: its name, its characters and their outlines
/// are what the file holds. The order in which its table of characters is walked is no
/// part of that. It reads the full name without looking where it ends, so that one
/// which is cut short is left out. What rasterizing gives is not said.
#[verifier::external_body]
fn font_of(bytes: Vec<u8>) -> (r: Option<fontdue::Font>)
    requires
        name_reads(font_names(bytes@)),
    ensures
        r == font_in(bytes@),
{
    fontdue::Font::from_bytes(bytes, fontdue::FontSettings::default()).ok()
}

fn is_readable(b: &Vec<u8>) -> (r: bool)
    ensures
        r == readable(b@, 0),
{
    let n: usize = b.len();
    let mut at: usize = 0;
    while at < n
        invariant
            at <= n == b@.len(),
            readable(b@, 0) == readable(b@, at as int),
        decreases n - at,
    {
        if n - at < 2 {
            return false;
        }
        let u: u32 = b[at] as u32 * 0x100 + b[at + 1] as u32;
        if u < 0xD800 || u > 0xDFFF {
            at += 2;
        } else {
            if u >= 0xDC00 || n - at < 4 {
                return false;
            }
            let v: u32 = b[at + 2] as u32 * 0x100 + b[at + 3] as u32;
            if v < 0xDC00 {
                return false;
            }
            at += 4;
        }
    }
    true
}

/// Whether the face's full name can be read.
pub fn name_can_be_read(names: &Vec<(u16, bool, Vec<u8>)>) -> (r: bool)
    ensures
        r == name_reads(entries(names@)),
{
    let ghost all = entries(names@);
    let mut i: usize = 0;
    while i < names.len()
        invariant
            i <= names@.len(),
            all == entries(names@),
            forall|j: int| 0 <= j < i ==> !is_full_name(#[trigger] all[j]),
        decreases names@.len() - i,
    {
        assert(all[i as int] == (names@[i as int].0, names@[i as int].1, names@[i as int].2@));
        if names[i].0 == FULL_NAME && names[i].1 {
            return is_readable(&names[i].2);
        }
        i += 1;
    }
    true
}

/// The typeface in use: a loaded font, or none.
pub struct Typeface {
    pub loaded: Option<fontdue::Font>,
}

impl Typeface {
    pub fn new() -> (t: Typeface)
        ensures
            t.loaded is None,
    {
        Typeface { loaded: None }
    }

    /// Use a font from now on, in place of the one before it. Returns 1, or 0 where
    /// none was made, and then the typeface stays.
    pub fn install(&mut self, made: Option<fontdue::Font>) -> (r: i64)
        ensures
            r == (if made is Some {
                1int
            } else {
                0
            }),
            made is Some ==> final(self).loaded == made,
            made is None ==> *final(self) == *old(self),
    {
        match made {
            Some(f) => {
                self.loaded = Some(f);
                1
            },
            None => 0,
        }
    }

    /// Use the font in a file from now on; `file` is what was read, nothing where
    /// that failed. Returns 1, or 0 where there is no font in it, and then the
    /// typeface stays.
    pub fn load_font(&mut self, file: Option<Vec<u8>>) -> (r: i64)
        requires
            file matches Some(b) ==> name_reads(font_names(b@)),
        ensures
            r == (if file is Some && font_in(file->0@) is Some {
                1int
            } else {
                0
            }),
            r == 1 ==> final(self).loaded == font_in(file->0@),
            r == 0 ==> *final(self) == *old(self),
    {
        match file {
            Some(b) => {
                let made = font_of(b);
                self.install(made)
            },
            None => 0,
        }
    }

    /// `load_font` for any file. Nothing is loaded from one whose full name cannot be
    /// read, and the result is `None`.
    pub fn try_load_font(&mut self, file: Option<Vec<u8>>) -> (r: Option<i64>)
        ensures
            r is Some <==> (file matches Some(b) ==> name_reads(font_names(b@))),
            r matches Some(n) ==> n == (if file is Some && font_in(file->0@) is Some {
                1int
            } else {
                0
            }),
            r == Some(1i64) ==> final(self).loaded == font_in(file->0@),
            r != Some(1i64) ==> *final(self) == *old(self),
    {
        if let Some(b) = &file {
            let names = names_of(b);
            if !name_can_be_read(&names) {
                return None;
            }
        }
        Some(self.load_font(file))
    }
}

/// The 16-bit units of a character, high byte first: one, or a pair.
pub open spec fn units_of(c: char) -> Seq<u8> {
    let u = c as u32 as int;
    if u < 0x1_0000 {
        seq![(u / 0x100) as u8, (u % 0x100) as u8]
    } else {
        let (a, b) = (0xD800 + (u - 0x1_0000) / 0x400, 0xDC00 + (u - 0x1_0000) % 0x400);
        seq![(a / 0x100) as u8, (a % 0x100) as u8, (b / 0x100) as u8, (b % 0x100) as u8]
    }
}

/// The units of a text, one character behind the other.
pub open spec fn text_units(t: Seq<char>) -> Seq<u8>
    decreases t.len(),
{
    if t.len() == 0 {
        Seq::empty()
    } else {
        units_of(t[0]) + text_units(t.drop_first())
    }
}

/// Every text can be read from its units.
pub proof fn law_every_text_is_readable(t: Seq<char>)
    ensures
        readable(text_units(t), 0),
    decreases t.len(),
{
    if t.len() > 0 {
        law_every_text_is_readable(t.drop_first());
        lemma_first_character(t[0], text_units(t.drop_first()));
    }
}

/// What stands behind a character's units decides whether all can be read.
proof fn lemma_first_character(c: char, rest: Seq<u8>)
    ensures
        readable(units_of(c) + rest, 0) == readable(rest, 0),
{
    let u = units_of(c);
    let b = u + rest;
    let v = c as u32 as int;
    lemma_readable_behind(u, rest, 0);
    assert(b[0] == u[0] && b[1] == u[1]);
    if v < 0x1_0000 {
        assert(unit(b, 0) == v);
        assert(readable(b, 0) == readable(b, 2));
    } else {
        let (x, y) = (0xD800 + (v - 0x1_0000) / 0x400, 0xDC00 + (v - 0x1_0000) % 0x400);
        assert(0xD800 <= x < 0xDC00 && 0xDC00 <= y <= 0xDFFF);
        assert(b[2] == u[2] && b[3] == u[3]);
        assert(unit(b, 0) == x);
        assert(unit(b, 2) == y);
        assert(readable(b, 0) == readable(b, 4));
    }
}

/// What stands behind some bytes reads as it does alone.
proof fn lemma_readable_behind(a: Seq<u8>, b: Seq<u8>, at: int)
    requires
        0 <= at <= b.len() + 3,
    ensures
        readable(a + b, a.len() + at) == readable(b, at),
    decreases b.len() + 3 - at,
{
    let o = a.len() + at;
    if at < b.len() && at + 2 <= b.len() {
        lemma_readable_behind(a, b, at + 2);
        assert((a + b)[o] == b[at] && (a + b)[o + 1] == b[at + 1]);
        assert(unit(a + b, o) == unit(b, at));
        if at + 4 <= b.len() {
            lemma_readable_behind(a, b, at + 4);
            assert((a + b)[o + 2] == b[at + 2] && (a + b)[o + 3] == b[at + 3]);
            assert(unit(a + b, o + 2) == unit(b, at + 2));
        }
    }
}

/// Half a unit cannot be read, nor the second half of a pair without a first, nor a first
/// half without a second.
pub proof fn law_broken_units_are_not_readable(b: Seq<u8>)
    ensures
        b.len() % 2 == 1 ==> !readable(b, 0),
        b.len() >= 2 && 0xDC00 <= unit(b, 0) <= 0xDFFF ==> !readable(b, 0),
        b.len() >= 4 && 0xD800 <= unit(b, 0) <= 0xDFFF && unit(b, 2) < 0xDC00 ==> !readable(b, 0),
        b.len() == 2 && 0xD800 <= unit(b, 0) <= 0xDFFF ==> !readable(b, 0),
{
    if b.len() % 2 == 1 {
        lemma_odd(b, 0);
    }
}

proof fn lemma_odd(b: Seq<u8>, at: int)
    requires
        0 <= at < b.len(),
        at % 2 == 0,
        b.len() % 2 == 1,
    ensures
        !readable(b, at),
    decreases b.len() - at,
{
    if at + 2 < b.len() {
        lemma_odd(b, at + 2);
        if at + 4 < b.len() {
            lemma_odd(b, at + 4);
        }
    }
}

/// Of the entries that hold a full name the first counts, and a file without one has no
/// name that could not be read. A full name is the fourth of the names of a face, held as
/// UTF-16.
pub proof fn law_the_first_full_name_counts(names: Seq<(u16, bool, Seq<u8>)>, i: int)
    ensures
        0 <= i < names.len() && is_full_name(names[i]) && (forall|j: int|
            0 <= j < i ==> !is_full_name(#[trigger] names[j])) ==> (name_reads(names)
            <==> readable(names[i].2, 0)),
        (forall|j: int| 0 <= j < names.len() ==> !is_full_name(#[trigger] names[j])) ==> name_reads(
            names,
        ),
        forall|n: (u16, bool, Seq<u8>)| #[trigger] is_full_name(n) <==> n.0 == 4 && n.1,
{
    if 0 <= i < names.len() && is_full_name(names[i]) && (forall|j: int|
        0 <= j < i ==> !is_full_name(#[trigger] names[j])) {
        assert forall|k: int|
            0 <= k < names.len() && is_full_name(#[trigger] names[k]) && (forall|j: int|
                0 <= j < k ==> !is_full_name(#[trigger] names[j])) implies k == i by {
            if i < k {
                assert(is_full_name(names[i]));
            }
        }
    }
}

/// What is told of naming tables is everything their entries hold, in their order.
pub proof fn law_entries_are_told_whole(names: Seq<(u16, bool, Vec<u8>)>, i: int)
    requires
        0 <= i < names.len(),
    ensures
        entries(names).len() == names.len(),
        entries(names)[i].0 == names[i].0,
        entries(names)[i].1 == names[i].1,
        entries(names)[i].2 == names[i].2@,
{
}

} // verus!
