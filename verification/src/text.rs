//! Strings as programs hold them: bytes that are joined, compared, cut and read as
//! whole numbers.
use vstd::prelude::*;

verus! {

/// `a` followed by `b`.
pub fn str_concat(a: &[u8], b: &[u8]) -> (r: Vec<u8>)
    requires
        a@.len() + b@.len() <= usize::MAX,
    ensures
        r@ == a@ + b@,
{
    let mut r: Vec<u8> = Vec::new();
    let mut i: usize = 0;
    while i < a.len()
        invariant
            i <= a@.len(),
            r@ == a@.take(i as int),
        decreases a@.len() - i,
    {
        r.push(a[i]);
        i += 1;
        assert(r@ =~= a@.take(i as int));
    }
    let mut j: usize = 0;
    assert(r@ =~= a@ + b@.take(0));
    while j < b.len()
        invariant
            j <= b@.len(),
            r@ == a@ + b@.take(j as int),
        decreases b@.len() - j,
    {
        r.push(b[j]);
        j += 1;
        assert(r@ =~= a@ + b@.take(j as int));
    }
    assert(b@.take(j as int) =~= b@);
    r
}

/// 1 where the two are the same bytes, else 0.
pub fn str_eq(a: &[u8], b: &[u8]) -> (r: i64)
    ensures
        r == (if a@ == b@ {
            1int
        } else {
            0
        }),
{
    if a.len() != b.len() {
        return 0;
    }
    let mut i: usize = 0;
    while i < a.len()
        invariant
            i <= a@.len(),
            a@.len() == b@.len(),
            forall|k: int| 0 <= k < i ==> a@[k] == b@[k],
        decreases a@.len() - i,
    {
        if a[i] != b[i] {
            return 0;
        }
        i += 1;
    }
    assert(a@ =~= b@);
    1
}

/// The byte at `i`, or -1 where there is none.
pub fn str_char_at(s: &[u8], i: i64) -> (r: i64)
    ensures
        r == (if 0 <= i < s@.len() {
            s@[i as int] as int
        } else {
            -1
        }),
{
    if i < 0 || i as u64 >= s.len() as u64 {
        return -1;
    }
    s[i as usize] as i64
}

/// Where a cut starts: `start` held to the string.
pub open spec fn cut_start(len: int, start: int) -> int {
    if start < 0 {
        0
    } else if start > len {
        len
    } else {
        start
    }
}

/// Where it ends: at most `n` bytes on, and no further than the string.
pub open spec fn cut_end(len: int, start: int, n: int) -> int {
    let from = cut_start(len, start);
    if n <= 0 {
        from
    } else if from + n > len {
        len
    } else {
        from + n
    }
}

/// The `n` bytes from `start` on, as far as the string has them.
pub fn str_substr(s: &[u8], start: i64, n: i64) -> (r: Vec<u8>)
    ensures
        r@ == s@.subrange(
            cut_start(s@.len() as int, start as int),
            cut_end(s@.len() as int, start as int, n as int),
        ),
{
    let len: usize = s.len();
    let from: usize = if start < 0 {
        0
    } else if start as u64 > len as u64 {
        len
    } else {
        start as usize
    };
    let to: usize = if n <= 0 {
        from
    } else if n as u64 > (len - from) as u64 {
        len
    } else {
        from + n as usize
    };
    let mut r: Vec<u8> = Vec::new();
    let mut i: usize = from;
    while i < to
        invariant
            from <= i <= to <= s@.len(),
            r@ == s@.subrange(from as int, i as int),
        decreases to - i,
    {
        r.push(s[i]);
        i += 1;
        assert(r@ =~= s@.subrange(from as int, i as int));
    }
    r
}

/// 1 where `hay` begins with `needle`, else 0.
pub fn str_starts_with(hay: &[u8], needle: &[u8]) -> (r: i64)
    ensures
        r == (if needle@.is_prefix_of(hay@) {
            1int
        } else {
            0
        }),
{
    if needle.len() > hay.len() {
        return 0;
    }
    let mut i: usize = 0;
    while i < needle.len()
        invariant
            i <= needle@.len() <= hay@.len(),
            forall|k: int| 0 <= k < i ==> hay@[k] == needle@[k],
        decreases needle@.len() - i,
    {
        if hay[i] != needle[i] {
            assert(hay@.subrange(0, needle@.len() as int)[i as int] != needle@[i as int]);
            return 0;
        }
        i += 1;
    }
    assert(hay@.subrange(0, needle@.len() as int) =~= needle@);
    1
}

/// The decimal digits of a number, most significant first.
pub open spec fn digits(n: nat) -> Seq<u8>
    decreases n,
{
    if n < 10 {
        seq![(48 + n) as u8]
    } else {
        digits(n / 10).push((48 + n % 10) as u8)
    }
}

/// A whole number in decimal.
pub open spec fn decimal(n: int) -> Seq<u8> {
    if n < 0 {
        seq![45u8] + digits((-n) as nat)
    } else {
        digits(n as nat)
    }
}

/// `n` in decimal.
pub fn int_to_str(n: i64) -> (r: Vec<u8>)
    ensures
        r@ == decimal(n as int),
{
    let neg: bool = n < 0;
    let mut left: u64 = if n < 0 {
        (0 - (n as i128)) as u64
    } else {
        n as u64
    };
    let ghost all = digits(left as nat);
    let mut back: Vec<u8> = Vec::new();
    let mut more: bool = true;
    while more
        invariant
            more ==> all == digits(left as nat) + back@.reverse(),
            !more ==> all == back@.reverse(),
        decreases left, more as int,
    {
        let ghost b = back@;
        back.push(48 + (left % 10) as u8);
        assert(back@.reverse() =~= seq![(48 + left % 10) as u8] + b.reverse());
        if left < 10 {
            more = false;
            assert(all =~= back@.reverse());
        } else {
            assert(all =~= digits((left / 10) as nat) + back@.reverse());
            left = left / 10;
        }
    }
    let mut r: Vec<u8> = Vec::new();
    if neg {
        r.push(45);
    }
    let ghost head = r@;
    let mut i: usize = back.len();
    assert(r@ =~= head + back@.reverse().take(0));
    while i > 0
        invariant
            i <= back@.len(),
            r@ == head + back@.reverse().take(back@.len() - i),
        decreases i,
    {
        i -= 1;
        r.push(back[i]);
        assert(r@ =~= head + back@.reverse().take(back@.len() - i));
    }
    assert(back@.reverse().take(back@.len() as int) =~= back@.reverse());
    assert(neg ==> head =~= seq![45u8]);
    assert(r@ =~= decimal(n as int));
    r
}

/// Whether a character is white space.
pub open spec fn is_space(c: char) -> bool {
    let u = c as u32;
    ||| 9 <= u <= 13
    ||| u == 32
    ||| u == 0x85
    ||| u == 0xA0
    ||| u == 0x1680
    ||| 0x2000 <= u <= 0x200A
    ||| u == 0x2028
    ||| u == 0x2029
    ||| u == 0x202F
    ||| u == 0x205F
    ||| u == 0x3000
}

fn is_blank(c: char) -> (r: bool)
    ensures
        r == is_space(c),
{
    let u: u32 = c as u32;
    (9 <= u && u <= 13) || u == 32 || u == 0x85 || u == 0xA0 || u == 0x1680 || (0x2000 <= u && u
        <= 0x200A) || u == 0x2028 || u == 0x2029 || u == 0x202F || u == 0x205F || u == 0x3000
}

/// `s` without white space at either end: from the first character that is none
/// to the last.
pub open spec fn trimmed(s: Seq<char>) -> Seq<char>
    decreases s.len(),
{
    if s.len() > 0 && is_space(s[0]) {
        trimmed(s.drop_first())
    } else if s.len() > 0 && is_space(s.last()) {
        trimmed(s.drop_last())
    } else {
        s
    }
}

/// Whether a character is a decimal digit.
pub open spec fn is_digit(c: char) -> bool {
    48 <= c as u32 <= 57
}

/// The number some digits write.
pub open spec fn value(s: Seq<char>) -> int
    decreases s.len(),
{
    if s.len() == 0 {
        0
    } else {
        value(s.drop_last()) * 10 + (s.last() as u32 - 48)
    }
}

/// What follows an optional sign.
pub open spec fn unsigned_part(s: Seq<char>) -> Seq<char> {
    if s.len() > 0 && (s[0] == '-' || s[0] == '+') {
        s.drop_first()
    } else {
        s
    }
}

pub open spec fn all_digits(s: Seq<char>) -> bool {
    forall|i: int| 0 <= i < s.len() ==> is_digit(#[trigger] s[i])
}

/// `s` as an optional sign and digits.
pub open spec fn signed_value(s: Seq<char>) -> Option<int> {
    if unsigned_part(s).len() == 0 || !all_digits(unsigned_part(s)) {
        None
    } else if s[0] == '-' {
        Some(-value(unsigned_part(s)))
    } else {
        Some(value(unsigned_part(s)))
    }
}

/// The whole number a string holds, white space around it aside, where it holds
/// one that fits.
pub open spec fn whole_number(s: Seq<char>) -> Option<i64> {
    match signed_value(trimmed(s)) {
        Some(v) => if i64::MIN <= v <= i64::MAX {
            Some(v as i64)
        } else {
            None
        },
        None => None,
    }
}

/// The characters of a string.
pub fn chars_of(s: &str) -> (r: Vec<char>)
    ensures
        r@ == s@,
{
    let mut r: Vec<char> = Vec::new();
    for c in it: s.chars()
        invariant
            r@ == it.seq().take(it.index() as int),
            it.seq() == s@,
    {
        let ghost before = r@;
        r.push(c);
        assert(r@ =~= it.seq().take(it.index() + 1));
    }
    assert(r@ =~= s@);
    r
}

fn parse_trimmed(s: &Vec<char>, from: usize, to: usize) -> (r: Option<i64>)
    requires
        from <= to <= s@.len(),
    ensures
        r == (match signed_value(s@.subrange(from as int, to as int)) {
            Some(v) => if i64::MIN <= v <= i64::MAX {
                Some(v as i64)
            } else {
                None
            },
            None => None,
        }),
{
    let ghost t = s@.subrange(from as int, to as int);
    let mut at: usize = from;
    let mut neg: bool = false;
    if from < to {
        assert(t[0] == s@[from as int]);
        if s[from] == '-' {
            neg = true;
            at = from + 1;
        } else if s[from] == '+' {
            at = from + 1;
        }
    }
    let ghost body = s@.subrange(at as int, to as int);
    proof {
        if at > from {
            assert(body =~= t.drop_first());
        } else {
            assert(body =~= t);
        }
    }
    if at == to {
        return None;
    }
    let first: usize = at;
    let mut v: i128 = 0;
    let mut big: bool = false;
    while at < to
        invariant
            first <= at <= to <= s@.len(),
            t == s@.subrange(from as int, to as int),
            body == unsigned_part(t),
            body == s@.subrange(first as int, to as int),
            forall|i: int| 0 <= i < at - first ==> is_digit(#[trigger] body[i]),
            big ==> value(body.take(at - first)) > 0x8000_0000_0000_0000,
            !big ==> v == value(body.take(at - first)),
            !big ==> 0 <= v <= 0x8000_0000_0000_0000,
        decreases to - at,
    {
        let c: char = s[at];
        assert(c == body[at - first]);
        let u: u32 = c as u32;
        if u < 48 || u > 57 {
            assert(!is_digit(body[at - first]));
            return None;
        }
        proof {
            let next = body.take(at - first + 1);
            assert(next.drop_last() =~= body.take(at - first));
            assert(next.last() == c);
        }
        if !big {
            let w: i128 = v * 10 + (u - 48) as i128;
            if w > 0x8000_0000_0000_0000 {
                big = true;
            } else {
                v = w;
            }
        }
        at += 1;
    }
    assert(body.take(to - first) =~= body);
    if big {
        return None;
    }
    if neg {
        Some((0 - v) as i64)
    } else if v > 0x7fff_ffff_ffff_ffff {
        None
    } else {
        Some(v as i64)
    }
}

fn read_i64(s: &str) -> (r: Option<i64>)
    ensures
        r == whole_number(s@),
{
    let cs: Vec<char> = chars_of(s);
    let mut from: usize = 0;
    let mut to: usize = cs.len();
    assert(cs@.subrange(0, cs@.len() as int) =~= cs@);
    while from < to && is_blank(cs[from])
        invariant
            from <= to == cs@.len(),
            trimmed(cs@) == trimmed(cs@.subrange(from as int, to as int)),
        decreases to - from,
    {
        let ghost cur = cs@.subrange(from as int, to as int);
        assert(cur[0] == cs@[from as int]);
        assert(cur.drop_first() =~= cs@.subrange(from + 1, to as int));
        from += 1;
    }
    proof {
        if from < to {
            assert(cs@.subrange(from as int, to as int)[0] == cs@[from as int]);
        } else {
            assert(cs@.subrange(from as int, to as int).len() == 0);
        }
    }
    while from < to && is_blank(cs[to - 1])
        invariant
            from <= to <= cs@.len(),
            from < to ==> !is_space(cs@[from as int]),
            trimmed(cs@) == trimmed(cs@.subrange(from as int, to as int)),
        decreases to - from,
    {
        let ghost cur = cs@.subrange(from as int, to as int);
        assert(cur[0] == cs@[from as int]);
        assert(cur.last() == cs@[to - 1]);
        assert(cur.drop_last() =~= cs@.subrange(from as int, to - 1));
        to -= 1;
    }
    proof {
        let cur = cs@.subrange(from as int, to as int);
        if from < to {
            assert(cur[0] == cs@[from as int]);
            assert(cur.last() == cs@[to - 1]);
        }
        assert(trimmed(cur) == cur);
    }
    parse_trimmed(&cs, from, to)
}

/// Whether a string holds a whole number.
pub open spec fn is_whole(s: Seq<char>) -> bool {
    whole_number(s) is Some
}

/// The whole number a string holds, or the fallback.
pub open spec fn whole_or(s: Seq<char>, fallback: i64) -> i64 {
    match whole_number(s) {
        Some(v) => v,
        None => fallback,
    }
}

/// The test foretells the reading: a string that passes it is read without the
/// fallback, any other gives the fallback.
pub proof fn law_the_test_foretells_the_reading(s: Seq<char>, a: i64, b: i64)
    ensures
        is_whole(s) ==> whole_or(s, a) == whole_or(s, b),
        !is_whole(s) ==> whole_or(s, a) == a,
{
}

/// 1 where the string holds a whole number, else 0.
pub fn is_i64(s: &str) -> (r: i64)
    ensures
        r == (if is_whole(s@) {
            1int
        } else {
            0
        }),
{
    match read_i64(s) {
        Some(_) => 1,
        None => 0,
    }
}

/// The whole number the string holds, or `fallback`.
pub fn parse_i64(s: &str, fallback: i64) -> (r: i64)
    ensures
        r == whole_or(s@, fallback),
{
    match read_i64(s) {
        Some(v) => v,
        None => fallback,
    }
}

/// ASCII bytes as characters.
pub open spec fn chars(b: Seq<u8>) -> Seq<char> {
    Seq::new(b.len(), |i: int| b[i] as char)
}

proof fn lemma_digits(n: nat)
    ensures
        digits(n).len() > 0,
        forall|i: int| 0 <= i < digits(n).len() ==> 48 <= #[trigger] digits(n)[i] <= 57,
        value(chars(digits(n))) == n,
    decreases n,
{
    if n >= 10 {
        lemma_digits(n / 10);
        let d = digits(n);
        assert(chars(d).drop_last() =~= chars(digits(n / 10)));
        assert(chars(d).last() == (48 + n % 10) as u8 as char);
        assert(value(chars(d)) == value(chars(digits(n / 10))) * 10 + n % 10);
    } else {
        let d = digits(n);
        assert(chars(d).drop_last() =~= Seq::<char>::empty());
        reveal_with_fuel(value, 2);
    }
}

/// A number in decimal is made of digits and perhaps a sign.
pub proof fn lemma_decimal(n: int)
    ensures
        forall|i: int|
            0 <= i < decimal(n).len() ==> #[trigger] decimal(n)[i] == 45 || 48 <= decimal(n)[i]
                <= 57,
{
    if n < 0 {
        lemma_digits((-n) as nat);
        assert forall|i: int| 0 <= i < decimal(n).len() implies #[trigger] decimal(n)[i] == 45 || 48
            <= decimal(n)[i] <= 57 by {
            if i > 0 {
                assert(decimal(n)[i] == digits((-n) as nat)[i - 1]);
            }
        }
    } else {
        lemma_digits(n as nat);
    }
}

/// A number written in decimal reads back as itself.
pub proof fn law_decimal_reads_back(n: i64)
    ensures
        whole_number(chars(decimal(n as int))) == Some(n),
{
    let d = decimal(n as int);
    let s = chars(d);
    let m: nat = if n < 0 {
        (-n) as nat
    } else {
        n as nat
    };
    lemma_digits(m);
    let ds = digits(m);
    assert(ds.len() > 0);
    if n < 0 {
        assert(s[0] == '-');
        assert(s.drop_first() =~= chars(ds));
        assert(s.last() == chars(ds).last());
    } else {
        assert(s =~= chars(ds));
        assert(48 <= ds[0] <= 57);
    }
    assert(48 <= ds[ds.len() - 1] <= 57);
    assert(!is_space(s[0]));
    assert(!is_space(s.last()));
    assert(trimmed(s) == s);
    assert forall|i: int| 0 <= i < chars(ds).len() implies is_digit(#[trigger] chars(ds)[i]) by {
        assert(48 <= ds[i] <= 57);
    }
    assert(signed_value(s) == Some(n as int));
}

/// Cutting a joined string back apart gives its two parts.
pub proof fn law_substr_undoes_concat(a: Seq<u8>, b: Seq<u8>)
    ensures
        ({
            let s = a + b;
            let n = s.len() as int;
            &&& s.subrange(cut_start(n, 0), cut_end(n, 0, a.len() as int)) == a
            &&& s.subrange(
                cut_start(n, a.len() as int),
                cut_end(n, a.len() as int, b.len() as int),
            ) == b
        }),
{
    let s = a + b;
    assert(s.subrange(0, a.len() as int) =~= a);
    assert(s.subrange(a.len() as int, s.len() as int) =~= b);
}

/// The numbers among the first `n` lines, where a line that holds none is `None`.
pub open spec fn numbers_in(lines: Seq<Option<u64>>, n: int) -> Seq<u64>
    decreases n,
{
    if n <= 0 {
        Seq::empty()
    } else {
        match lines[n - 1] {
            Some(v) => numbers_in(lines, n - 1).push(v),
            None => numbers_in(lines, n - 1),
        }
    }
}

proof fn lemma_numbers_grow(lines: Seq<Option<u64>>, n: int, m: int)
    requires
        0 <= n <= m <= lines.len(),
    ensures
        numbers_in(lines, n).len() <= numbers_in(lines, m).len(),
        numbers_in(lines, m).take(numbers_in(lines, n).len() as int) == numbers_in(lines, n),
    decreases m,
{
    let a = numbers_in(lines, n);
    if n < m {
        lemma_numbers_grow(lines, n, m - 1);
        assert(numbers_in(lines, m).take(a.len() as int) =~= a);
    } else {
        assert(a.take(a.len() as int) =~= a);
    }
}

/// The settings a file's lines hold, as the bits of their numbers: lines without a
/// number are passed over, and no more than `len` are taken.
pub fn load_settings(lines: &Vec<Option<u64>>, len: usize) -> (r: Vec<u64>)
    ensures
        ({
            let all = numbers_in(lines@, lines@.len() as int);
            r@ == (if all.len() <= len {
                all
            } else {
                all.take(len as int)
            })
        }),
{
    let mut r: Vec<u64> = Vec::new();
    let mut i: usize = 0;
    while i < lines.len() && r.len() < len
        invariant
            i <= lines@.len(),
            r@ == numbers_in(lines@, i as int),
            r@.len() <= len,
        decreases lines@.len() - i,
    {
        if let Some(v) = lines[i] {
            r.push(v);
        }
        i += 1;
    }
    proof {
        lemma_numbers_grow(lines@, i as int, lines@.len() as int);
    }
    r
}

/// The arguments a program was invoked with. They are set once.
pub struct ProgramArgs {
    pub args: Option<Vec<String>>,
}

/// Install the arguments. A second installation is ignored.
pub fn set_program_args(p: &mut ProgramArgs, args: Vec<String>)
    ensures
        final(p).args == (if old(p).args is Some {
            old(p).args
        } else {
            Some(args)
        }),
{
    if p.args.is_none() {
        p.args = Some(args);
    }
}

impl ProgramArgs {
    pub fn new() -> (p: ProgramArgs)
        ensures
            p.args is None,
    {
        ProgramArgs { args: None }
    }

    pub open spec fn list(self) -> Seq<String> {
        match self.args {
            Some(v) => v@,
            None => Seq::empty(),
        }
    }

    /// How many arguments there are, the program itself counted: at least one, also
    /// where nothing was installed, and then its name is empty.
    pub fn sys_argc(&self) -> (r: usize)
        ensures
            r == (if self.list().len() > 1 {
                self.list().len()
            } else {
                1
            }),
    {
        match &self.args {
            Some(v) => if v.len() > 1 {
                v.len()
            } else {
                1
            },
            None => 1,
        }
    }

    /// Argument `i`, or the empty string where there is none.
    pub fn sys_arg(&self, i: i64) -> (r: String)
        ensures
            r@ == (if 0 <= i < self.list().len() {
                self.list()[i as int]@
            } else {
                Seq::empty()
            }),
    {
        match &self.args {
            Some(v) => {
                if i >= 0 && (i as u64) < v.len() as u64 {
                    v[i as usize].clone()
                } else {
                    String::new()
                }
            },
            None => String::new(),
        }
    }
}

/// A cut lies in the string, holds no more bytes than asked for, and holds just the bytes
/// from its start on where they are there. Two cuts of which one starts where the other
/// was to end follow each other without a gap.
pub proof fn law_cuts_stay_in_the_string(len: int, start: int, n: int)
    requires
        0 <= len,
    ensures
        0 <= cut_start(len, start) <= cut_end(len, start, n) <= len,
        n >= 0 ==> cut_end(len, start, n) - cut_start(len, start) <= n,
        n <= 0 ==> cut_end(len, start, n) == cut_start(len, start),
        0 <= start && 0 <= n && start + n <= len ==> cut_start(len, start) == start && cut_end(
            len,
            start,
            n,
        ) == start + n,
        0 <= start && 0 <= n ==> cut_start(len, start + n) == cut_end(len, start, n),
        start < 0 ==> cut_end(len, start, n) == cut_end(len, 0, n),
{
}

/// Trimming takes white space off both ends and nothing else: what is left has none at
/// its ends, and what was taken off on either side is white space alone.
pub proof fn law_trimming_takes_white_space_only(s: Seq<char>) -> (r: (int, int))
    ensures
        0 <= r.0 <= r.1 <= s.len(),
        trimmed(s) == s.subrange(r.0, r.1),
        forall|i: int| 0 <= i < r.0 ==> is_space(#[trigger] s[i]),
        forall|i: int| r.1 <= i < s.len() ==> is_space(#[trigger] s[i]),
        trimmed(s).len() > 0 ==> !is_space(trimmed(s)[0]) && !is_space(trimmed(s).last()),
        trimmed(trimmed(s)) == trimmed(s),
    decreases s.len(),
{
    if s.len() > 0 && is_space(s[0]) {
        let rest = s.drop_first();
        let q = law_trimming_takes_white_space_only(rest);
        assert(rest.subrange(q.0, q.1) =~= s.subrange(q.0 + 1, q.1 + 1));
        assert forall|i: int| 0 <= i < q.0 + 1 implies is_space(#[trigger] s[i]) by {
            if i > 0 {
                assert(rest[i - 1] == s[i]);
            }
        }
        assert forall|i: int| q.1 + 1 <= i < s.len() implies is_space(#[trigger] s[i]) by {
            assert(rest[i - 1] == s[i]);
        }
        (q.0 + 1, q.1 + 1)
    } else if s.len() > 0 && is_space(s.last()) {
        let rest = s.drop_last();
        let q = law_trimming_takes_white_space_only(rest);
        assert(rest.subrange(q.0, q.1) =~= s.subrange(q.0, q.1));
        assert forall|i: int| 0 <= i < q.0 implies is_space(#[trigger] s[i]) by {
            assert(rest[i] == s[i]);
        }
        assert forall|i: int| q.1 <= i < s.len() implies is_space(#[trigger] s[i]) by {
            if i < rest.len() {
                assert(rest[i] == s[i]);
            }
        }
        q
    } else {
        assert(s.subrange(0, s.len() as int) =~= s);
        (0, s.len() as int)
    }
}

/// Among the ASCII characters white space is the blank and the five controls from the tab
/// to the carriage return: no digit, sign or letter is.
pub proof fn law_ascii_white_space(c: char)
    requires
        (c as u32) < 128,
    ensures
        is_space(c) <==> c == ' ' || '\t' <= c <= '\r',
        is_digit(c) <==> '0' <= c <= '9',
        is_digit(c) ==> !is_space(c),
{
}

/// A digit behind digits makes their number ten times as large and adds its own; zeros
/// before them change nothing.
pub proof fn law_digits_count_by_tens(s: Seq<char>, c: char)
    requires
        is_digit(c),
    ensures
        value(s.push(c)) == 10 * value(s) + (c as u32 - '0' as u32),
        value(seq!['0'] + s) == value(s),
    decreases s.len(),
{
    assert(s.push(c).drop_last() =~= s);
    let z = seq!['0'] + s;
    if s.len() == 0 {
        assert(z.last() == '0');
        assert(value(z.drop_last()) == 0);
    } else {
        assert(z.drop_last() =~= seq!['0'] + s.drop_last());
        assert(z.last() == s.last());
        law_digits_count_by_tens(s.drop_last(), c);
    }
}

/// A minus sign turns a number over and a plus sign leaves it; a sign alone is no number,
/// nor is one behind another.
pub proof fn law_signs_count_once(s: Seq<char>)
    ensures
        s.len() > 0 && all_digits(s) ==> {
            &&& signed_value(s) == Some(value(s))
            &&& signed_value(seq!['+'] + s) == Some(value(s))
            &&& signed_value(seq!['-'] + s) == Some(-value(s))
            &&& signed_value(seq!['-', '-'] + s) is None
        },
        s.len() > 0 && !all_digits(s) ==> signed_value(seq!['+'] + s) is None && signed_value(
            seq!['-'] + s,
        ) is None,
        signed_value(seq!['-']) is None,
        signed_value(Seq::<char>::empty()) is None,
{
    assert((seq!['+'] + s).drop_first() =~= s);
    assert((seq!['-'] + s).drop_first() =~= s);
    assert(seq!['-'].drop_first() =~= Seq::<char>::empty());
    if s.len() > 0 && all_digits(s) {
        assert(is_digit(s[0]));
        let d = (seq!['-', '-'] + s).drop_first();
        assert(!is_digit(d[0]));
    }
}

/// A number is written without leading zeros, in digits alone behind the minus sign of a
/// negative one.
pub proof fn law_numbers_are_written_plainly(n: nat)
    ensures
        digits(n).len() > 0,
        n > 0 ==> digits(n)[0] != '0' as u8,
        n < 10 ==> digits(n) == seq![('0' as u8 + n) as u8],
        forall|i: int| 0 <= i < digits(n).len() ==> '0' as u8 <= #[trigger] digits(n)[i] <= '9' as u8,
        n > 0 ==> decimal(-(n as int)) == seq!['-' as u8] + decimal(n as int),
    decreases n,
{
    if n >= 10 {
        law_numbers_are_written_plainly(n / 10);
    }
}

/// The lines that hold a number yield it, each in its turn, and the others yield nothing.
pub proof fn law_every_number_is_read_in_order(lines: Seq<Option<u64>>, n: int)
    requires
        0 <= n < lines.len(),
    ensures
        numbers_in(lines, 0) == Seq::<u64>::empty(),
        lines[n] matches Some(v) ==> numbers_in(lines, n + 1) == numbers_in(lines, n) + seq![v],
        lines[n] is None ==> numbers_in(lines, n + 1) == numbers_in(lines, n),
{
}

/// Beyond ASCII white space is the next line, the no-break spaces, the spaces of the
/// typesetters from the en quad to the hair space, the two separators, and the wide ones of
/// other scripts. The zero-width space is none.
pub proof fn law_white_space_beyond_ascii(c: char)
    requires
        c as u32 >= 128,
    ensures
        is_space(c) <==> {
            ||| c == '\u{85}' || c == '\u{A0}' || c == '\u{202F}'
            ||| '\u{2000}' <= c && c <= '\u{200A}'
            ||| c == '\u{2028}' || c == '\u{2029}'
            ||| c == '\u{1680}' || c == '\u{205F}' || c == '\u{3000}'
        },
        c == '\u{200B}' ==> !is_space(c),
{
}

} // verus!
