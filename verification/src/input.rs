//! Reading puzzle and map descriptions out of loosely written JSON text.
//!
//! The readers work on the bytes of the text and look only for what they need: a key,
//! the bracketed array after it, the number after a colon. Positions are byte offsets.

use vstd::prelude::*;

verus! {

/// White space as `char::is_whitespace` counts it among ASCII bytes.
pub open spec fn is_space(b: u8) -> bool {
    b == 9 || b == 10 || b == 11 || b == 12 || b == 13 || b == 32
}

/// An ASCII decimal digit.
pub open spec fn is_digit(b: u8) -> bool {
    48 <= b <= 57
}

/// `needle` occurs in `hay` starting at `i`.
pub open spec fn occurs_at(hay: Seq<u8>, needle: Seq<u8>, i: int) -> bool {
    &&& 0 <= i
    &&& i + needle.len() <= hay.len()
    &&& hay.subrange(i, i + needle.len()) == needle
}

/// The first position at or after `i` where `needle` occurs in `hay`.
pub open spec fn find_from(hay: Seq<u8>, needle: Seq<u8>, i: int) -> Option<int>
    decreases hay.len() + 1 - i,
{
    if i < 0 || i + needle.len() > hay.len() {
        None
    } else if occurs_at(hay, needle, i) {
        Some(i)
    } else {
        find_from(hay, needle, i + 1)
    }
}

/// A position found by `find_from` lies at or after where the search began, and the
/// needle occurs there.
pub proof fn lemma_find_from(hay: Seq<u8>, needle: Seq<u8>, i: int)
    ensures
        find_from(hay, needle, i) matches Some(p) ==> i <= p && occurs_at(hay, needle, p),
    decreases hay.len() + 1 - i,
{
    if !(i < 0 || i + needle.len() > hay.len()) && !occurs_at(hay, needle, i) {
        lemma_find_from(hay, needle, i + 1);
    }
}

/// Whether `needle` occurs in `hay` at `i`.
fn occurs(hay: &[u8], needle: &[u8], i: usize) -> (b: bool)
    requires
        i + needle@.len() <= hay@.len(),
    ensures
        b == occurs_at(hay@, needle@, i as int),
{
    let hl = hay.len();
    let mut k: usize = 0;
    while k < needle.len()
        invariant
            hl == hay@.len(),
            i + needle@.len() <= hay@.len(),
            k <= needle@.len(),
            forall|j: int| 0 <= j < k ==> hay@[i + j] == needle@[j],
        decreases needle@.len() - k,
    {
        if hay[i + k] != needle[k] {
            assert(hay@.subrange(i as int, i + needle@.len())[k as int] != needle@[k as int]);
            return false;
        }
        k = k + 1;
    }
    assert(hay@.subrange(i as int, i + needle@.len()) =~= needle@);
    true
}

/// The first position at or after `from` where `needle` occurs in `hay`.
pub fn find(hay: &[u8], needle: &[u8], from: usize) -> (r: Option<usize>)
    ensures
        match r {
            Some(p) => find_from(hay@, needle@, from as int) == Some(p as int),
            None => find_from(hay@, needle@, from as int) is None,
        },
{
    let hl = hay.len();
    if needle.len() > hl || from > hl - needle.len() {
        return None;
    }
    let last = hl - needle.len();
    let mut i: usize = from;
    loop
        invariant
            hl == hay@.len(),
            last == hay@.len() - needle@.len(),
            from <= i <= last,
            find_from(hay@, needle@, i as int) == find_from(hay@, needle@, from as int),
        decreases last - i,
    {
        if occurs(hay, needle, i) {
            return Some(i);
        }
        if i == last {
            assert(find_from(hay@, needle@, i + 1) is None);
            return None;
        }
        i = i + 1;
    }
}

/// How much a byte changes the bracket nesting: `[` opens, `]` closes.
pub open spec fn bracket_step(b: u8) -> int {
    if b == 91 {
        1
    } else if b == 93 {
        -1
    } else {
        0
    }
}

/// Open brackets minus closed ones among the `n` bytes of `s` from `lo`.
pub open spec fn nesting(s: Seq<u8>, lo: int, n: int) -> int
    decreases n,
{
    if n <= 0 {
        0
    } else {
        nesting(s, lo, n - 1) + bracket_step(s[lo + n - 1])
    }
}

/// The `n` bytes of `s` from `lo` are an array: they begin with `[` and their brackets
/// balance after `n` bytes for the first time.
pub open spec fn closes_after(s: Seq<u8>, lo: int, n: int) -> bool {
    &&& 0 <= lo < s.len()
    &&& s[lo] == 91
    &&& 1 <= n <= s.len() - lo
    &&& nesting(s, lo, n) == 0
    &&& forall|j: int| 1 <= j < n ==> #[trigger] nesting(s, lo, j) > 0
}

/// Where the array that opens at `lo` ends (one past its closing bracket), if it is
/// closed at all.
pub open spec fn array_end(s: Seq<u8>, lo: int) -> Option<int> {
    if exists|n: int| closes_after(s, lo, n) {
        Some(lo + choose|n: int| closes_after(s, lo, n))
    } else {
        None
    }
}

/// The balanced array that starts at `lo` in `s`: the end of the shortest prefix
/// from `lo` that begins with `[` and closes all its brackets.
pub fn extract_balanced_array(s: &[u8], lo: usize) -> (r: Option<usize>)
    requires
        lo <= s@.len(),
    ensures
        match r {
            Some(e) => array_end(s@, lo as int) == Some(e as int),
            None => array_end(s@, lo as int) is None,
        },
{
    if lo >= s.len() || s[lo] != 91 {
        return None;
    }
    let mut depth: usize = 0;
    let mut idx: usize = lo;
    while idx < s.len()
        invariant
            lo < s@.len(),
            s@[lo as int] == 91,
            lo <= idx <= s@.len(),
            depth == nesting(s@, lo as int, idx - lo),
            depth <= idx - lo,
            forall|j: int| 1 <= j <= idx - lo ==> #[trigger] nesting(s@, lo as int, j) > 0,
        decreases s@.len() - idx,
    {
        let b = s[idx];
        assert(nesting(s@, lo as int, idx + 1 - lo) == nesting(s@, lo as int, idx - lo) + bracket_step(b));
        if b == 91 {
            depth = depth + 1;
        } else if b == 93 {
            assert(idx > lo);
            assert(nesting(s@, lo as int, idx - lo) > 0);
            depth = depth - 1;
            if depth == 0 {
                let n = idx + 1 - lo;
                proof {
                    assert(closes_after(s@, lo as int, n as int));
                    let m = choose|m: int| closes_after(s@, lo as int, m);
                    if m < n {
                        assert(nesting(s@, lo as int, m) > 0);
                    } else if m > n {
                        assert(nesting(s@, lo as int, n as int) > 0);
                    }
                }
                return Some(idx + 1);
            }
        }
        idx = idx + 1;
    }
    proof {
        assert forall|n: int| !closes_after(s@, lo as int, n) by {
            if 1 <= n <= s@.len() - lo {
                assert(nesting(s@, lo as int, n) > 0);
            }
        }
    }
    None
}

/// The length of the white-space character that starts at `i` within `lo..hi` of `s`,
/// or 0 where none does. White space is what `char::is_whitespace` accepts: the ASCII
/// white space and the UTF-8 encodings of U+0085, U+00A0, U+1680, U+2000 to U+200A,
/// U+2028, U+2029, U+202F, U+205F and U+3000.
pub open spec fn space_at(s: Seq<u8>, i: int, hi: int) -> int {
    if 0 <= i < hi && is_space(s[i]) {
        1
    } else if 0 <= i && i + 1 < hi && s[i] == 0xC2 && (s[i + 1] == 0x85 || s[i + 1] == 0xA0) {
        2
    } else if 0 <= i && i + 2 < hi && is_wide_space(s[i], s[i + 1], s[i + 2]) {
        3
    } else {
        0
    }
}

/// The three bytes encode a white-space character.
pub open spec fn is_wide_space(a: u8, b: u8, c: u8) -> bool {
    ||| a == 0xE1 && b == 0x9A && c == 0x80
    ||| a == 0xE2 && b == 0x80 && ((0x80 <= c && c <= 0x8A) || c == 0xA8 || c == 0xA9 || c == 0xAF)
    ||| a == 0xE2 && b == 0x81 && c == 0x9F
    ||| a == 0xE3 && b == 0x80 && c == 0x80
}

/// The length of the white-space character that ends just before `j` within `lo..j`
/// of `s`, or 0 where none does.
pub open spec fn space_before(s: Seq<u8>, lo: int, j: int) -> int {
    if lo < j && is_space(s[j - 1]) {
        1
    } else if lo <= j - 2 && s[j - 2] == 0xC2 && (s[j - 1] == 0x85 || s[j - 1] == 0xA0) {
        2
    } else if lo <= j - 3 && is_wide_space(s[j - 3], s[j - 2], s[j - 1]) {
        3
    } else {
        0
    }
}

/// Which bytes a scan passes over.
#[derive(PartialEq, Eq, Structural, Clone, Copy)]
pub enum ByteClass {
    Space,
    Quote,
    Digit,
}

/// How many bytes of class `c` start at `i` within `lo..hi`: one character's worth,
/// or 0.
pub open spec fn class_at(c: ByteClass, s: Seq<u8>, i: int, hi: int) -> int {
    match c {
        ByteClass::Space => space_at(s, i, hi),
        ByteClass::Quote => if 0 <= i < hi && s[i] == 34 { 1 } else { 0 },
        ByteClass::Digit => if 0 <= i < hi && is_digit(s[i]) { 1 } else { 0 },
    }
}

/// How many bytes of class `c` end just before `j` within `lo..j`: one character's
/// worth, or 0.
pub open spec fn class_before(c: ByteClass, s: Seq<u8>, lo: int, j: int) -> int {
    match c {
        ByteClass::Space => space_before(s, lo, j),
        ByteClass::Quote => if lo < j && s[j - 1] == 34 { 1 } else { 0 },
        ByteClass::Digit => if lo < j && is_digit(s[j - 1]) { 1 } else { 0 },
    }
}

/// The first position in `lo..hi` that the characters of class `c` leading it do not
/// cover.
pub open spec fn skip_class(c: ByteClass, s: Seq<u8>, lo: int, hi: int) -> int
    decreases hi - lo,
{
    if lo < hi && class_at(c, s, lo, hi) > 0 {
        skip_class(c, s, lo + class_at(c, s, lo, hi), hi)
    } else {
        lo
    }
}

/// The end of `lo..hi` once the characters of class `c` at its back are left out.
pub open spec fn drop_class(c: ByteClass, s: Seq<u8>, lo: int, hi: int) -> int
    decreases hi - lo,
{
    if lo < hi && class_before(c, s, lo, hi) > 0 {
        drop_class(c, s, lo, hi - class_before(c, s, lo, hi))
    } else {
        hi
    }
}

/// The first position in `lo..hi` that white space does not lead up to.
pub open spec fn skip_space(s: Seq<u8>, lo: int, hi: int) -> int {
    skip_class(ByteClass::Space, s, lo, hi)
}

/// The end of `lo..hi` once the white space at its back is left out.
pub open spec fn drop_space(s: Seq<u8>, lo: int, hi: int) -> int {
    drop_class(ByteClass::Space, s, lo, hi)
}

/// The first position in `lo..hi` that double quotes do not lead up to.
pub open spec fn skip_quotes(s: Seq<u8>, lo: int, hi: int) -> int {
    skip_class(ByteClass::Quote, s, lo, hi)
}

/// The end of `lo..hi` once the double quotes at its back are left out.
pub open spec fn drop_quotes(s: Seq<u8>, lo: int, hi: int) -> int {
    drop_class(ByteClass::Quote, s, lo, hi)
}

/// The end of the run of digits that starts at `lo`, within `lo..hi`.
pub open spec fn skip_digits(s: Seq<u8>, lo: int, hi: int) -> int {
    skip_class(ByteClass::Digit, s, lo, hi)
}

fn wide_space(a: u8, b: u8, c: u8) -> (r: bool)
    ensures
        r == is_wide_space(a, b, c),
{
    (a == 0xE1 && b == 0x9A && c == 0x80)
        || (a == 0xE2 && b == 0x80 && ((0x80 <= c && c <= 0x8A) || c == 0xA8 || c == 0xA9 || c == 0xAF))
        || (a == 0xE2 && b == 0x81 && c == 0x9F)
        || (a == 0xE3 && b == 0x80 && c == 0x80)
}

fn ascii_space(b: u8) -> (r: bool)
    ensures
        r == is_space(b),
{
    b == 9 || b == 10 || b == 11 || b == 12 || b == 13 || b == 32
}

/// How many bytes of class `c` start at `i`, within `i..hi`.
fn class_len_at(s: &[u8], c: ByteClass, i: usize, hi: usize) -> (k: usize)
    requires
        i < hi <= s@.len(),
    ensures
        k == class_at(c, s@, i as int, hi as int),
        k <= hi - i,
{
    match c {
        ByteClass::Space => {
            if ascii_space(s[i]) {
                1
            } else if hi - i > 1 && s[i] == 0xC2 && (s[i + 1] == 0x85 || s[i + 1] == 0xA0) {
                2
            } else if hi - i > 2 && wide_space(s[i], s[i + 1], s[i + 2]) {
                3
            } else {
                0
            }
        },
        ByteClass::Quote => if s[i] == 34 { 1 } else { 0 },
        ByteClass::Digit => if 48 <= s[i] && s[i] <= 57 { 1 } else { 0 },
    }
}

/// How many bytes of class `c` end just before `j`, within `lo..j`.
fn class_len_before(s: &[u8], c: ByteClass, lo: usize, j: usize) -> (k: usize)
    requires
        lo < j <= s@.len(),
    ensures
        k == class_before(c, s@, lo as int, j as int),
        k <= j - lo,
{
    match c {
        ByteClass::Space => {
            if ascii_space(s[j - 1]) {
                1
            } else if j - lo >= 2 && s[j - 2] == 0xC2 && (s[j - 1] == 0x85 || s[j - 1] == 0xA0) {
                2
            } else if j - lo >= 3 && wide_space(s[j - 3], s[j - 2], s[j - 1]) {
                3
            } else {
                0
            }
        },
        ByteClass::Quote => if s[j - 1] == 34 { 1 } else { 0 },
        ByteClass::Digit => if 48 <= s[j - 1] && s[j - 1] <= 57 { 1 } else { 0 },
    }
}

/// The first position in `lo..hi` past the characters of class `c` that lead it.
pub fn skip_front(s: &[u8], c: ByteClass, lo: usize, hi: usize) -> (r: usize)
    requires
        lo <= hi <= s@.len(),
    ensures
        r == skip_class(c, s@, lo as int, hi as int),
        lo <= r <= hi,
{
    let mut i = lo;
    while i < hi
        invariant
            lo <= i <= hi <= s@.len(),
            skip_class(c, s@, i as int, hi as int) == skip_class(c, s@, lo as int, hi as int),
        decreases hi - i,
    {
        let k = class_len_at(s, c, i, hi);
        if k == 0 {
            return i;
        }
        i = i + k;
    }
    i
}

/// The end of `lo..hi` once the characters of class `c` at its back are left out.
pub fn drop_back(s: &[u8], c: ByteClass, lo: usize, hi: usize) -> (r: usize)
    requires
        lo <= hi <= s@.len(),
    ensures
        r == drop_class(c, s@, lo as int, hi as int),
        lo <= r <= hi,
{
    let mut j = hi;
    while j > lo
        invariant
            lo <= j <= hi <= s@.len(),
            drop_class(c, s@, lo as int, j as int) == drop_class(c, s@, lo as int, hi as int),
        decreases j,
    {
        let k = class_len_before(s, c, lo, j);
        if k == 0 {
            return j;
        }
        j = j - k;
    }
    j
}

/// The value of the decimal digits `s[lo..hi]`.
pub open spec fn decimal(s: Seq<u8>, lo: int, hi: int) -> int
    decreases hi - lo,
{
    if hi <= lo {
        0
    } else {
        decimal(s, lo, hi - 1) * 10 + (s[hi - 1] - 48)
    }
}

/// Every byte of `s[lo..hi]` is a digit.
pub open spec fn all_digits(s: Seq<u8>, lo: int, hi: int) -> bool {
    forall|i: int| lo <= i < hi ==> is_digit(#[trigger] s[i])
}

/// The unsigned integer, at most `max`, that `s[lo..hi]` writes as `str::parse` reads
/// one: an optional `+`, then one digit or more and nothing else.
pub open spec fn unsigned_text(s: Seq<u8>, lo: int, hi: int, max: int) -> Option<int> {
    let start = if lo < hi && s[lo] == 43 { lo + 1 } else { lo };
    if start < hi && all_digits(s, start, hi) && decimal(s, start, hi) <= max {
        Some(decimal(s, start, hi))
    } else {
        None
    }
}

/// Read the unsigned integer that `s[lo..hi]` writes, if it is one and at most `max`.
pub fn parse_unsigned(s: &[u8], lo: usize, hi: usize, max: u64) -> (r: Option<u64>)
    requires
        lo <= hi <= s@.len(),
    ensures
        match r {
            Some(v) => unsigned_text(s@, lo as int, hi as int, max as int) == Some(v as int),
            None => unsigned_text(s@, lo as int, hi as int, max as int) is None,
        },
{
    let start = if lo < hi && s[lo] == 43 { lo + 1 } else { lo };
    if start >= hi {
        return None;
    }
    let mut v: u128 = 0;
    let mut big = false;
    let mut i = start;
    while i < hi
        invariant
            lo <= start < hi <= s@.len(),
            start == (if lo < hi && s@[lo as int] == 43 { lo + 1 } else { lo as int }),
            start <= i <= hi,
            all_digits(s@, start as int, i as int),
            big ==> decimal(s@, start as int, i as int) > max,
            !big ==> v == decimal(s@, start as int, i as int) && v <= max,
        decreases hi - i,
    {
        let b = s[i];
        if !(48 <= b && b <= 57) {
            assert(!all_digits(s@, start as int, hi as int));
            return None;
        }
        assert(decimal(s@, start as int, i + 1) == decimal(s@, start as int, i as int) * 10 + (b - 48));
        if !big {
            let next: u128 = v * 10 + (b - 48) as u128;
            if next > max as u128 {
                big = true;
            } else {
                v = next;
            }
        }
        i = i + 1;
    }
    if big {
        None
    } else {
        Some(v as u64)
    }
}

/// The pieces of `s[lo..hi]` between commas, as ranges, as `str::split(',')` cuts them.
pub open spec fn comma_pieces(s: Seq<u8>, lo: int, hi: int) -> Seq<(int, int)>
    decreases hi - lo,
{
    if hi <= lo {
        seq![(lo, lo)]
    } else if s[hi - 1] == 44 {
        comma_pieces(s, lo, hi - 1).push((hi, hi))
    } else {
        let p = comma_pieces(s, lo, hi - 1);
        p.update(p.len() - 1, (p.last().0, hi))
    }
}

/// What a cell of a puzzle written in `s[lo..hi]` holds: the number left once white
/// space and then double quotes are trimmed off both ends, or 0 where that is no
/// number from 0 to 255.
pub open spec fn cell_value(s: Seq<u8>, lo: int, hi: int) -> int {
    let a = skip_space(s, lo, hi);
    let b = drop_space(s, a, hi);
    let c = skip_quotes(s, a, b);
    let d = drop_quotes(s, c, b);
    match unsigned_text(s, c, d, 255) {
        Some(v) => v,
        None => 0,
    }
}

/// The value of one cell written in `s[lo..hi]`.
fn cell_at(s: &[u8], lo: usize, hi: usize) -> (v: u8)
    requires
        lo <= hi <= s@.len(),
    ensures
        v == cell_value(s@, lo as int, hi as int),
{
    let a = skip_front(s, ByteClass::Space, lo, hi);
    let b = drop_back(s, ByteClass::Space, a, hi);
    let c = skip_front(s, ByteClass::Quote, a, b);
    let d = drop_back(s, ByteClass::Quote, c, b);
    match parse_unsigned(s, c, d, 255) {
        Some(v) => v as u8,
        None => 0,
    }
}

/// The part of `s[lo..hi]` inside the array brackets: white space is trimmed, then a
/// leading `[` and a trailing `]` are each left out where present.
pub open spec fn array_inner(s: Seq<u8>, lo: int, hi: int) -> (int, int) {
    let a = skip_space(s, lo, hi);
    let b = drop_space(s, a, hi);
    let a2 = if a < b && s[a] == 91 { a + 1 } else { a };
    let b2 = if a2 < b && s[b - 1] == 93 { b - 1 } else { b };
    (a2, b2)
}

/// The cells of a puzzle array written in `s[lo..hi]`, one per comma-separated piece.
pub open spec fn puzzle_values(s: Seq<u8>, lo: int, hi: int) -> Seq<int> {
    let (a, b) = array_inner(s, lo, hi);
    comma_pieces(s, a, b).map_values(|p: (int, int)| cell_value(s, p.0, p.1))
}

/// The cells of the puzzle array written in `s[lo..hi]`.
pub fn parse_puzzle_array(s: &[u8], lo: usize, hi: usize) -> (cells: Vec<u8>)
    requires
        lo <= hi <= s@.len(),
    ensures
        cells@.map_values(|c: u8| c as int) == puzzle_values(s@, lo as int, hi as int),
{
    let a = skip_front(s, ByteClass::Space, lo, hi);
    let b = drop_back(s, ByteClass::Space, a, hi);
    let a2 = if a < b && s[a] == 91 { a + 1 } else { a };
    let b2 = if a2 < b && s[b - 1] == 93 { b - 1 } else { b };
    let ghost pieces = comma_pieces(s@, a2 as int, b2 as int);
    let mut cells: Vec<u8> = Vec::new();
    let mut start = a2;
    let mut i = a2;
    while i < b2
        invariant
            lo <= a2 <= start <= i <= b2 <= s@.len(),
            comma_pieces(s@, a2 as int, i as int).len() == cells@.len() + 1,
            comma_pieces(s@, a2 as int, i as int).last() == (start as int, i as int),
            forall|k: int| 0 <= k < cells@.len() ==> #[trigger] cells@[k] as int == cell_value(
                s@,
                comma_pieces(s@, a2 as int, i as int)[k].0,
                comma_pieces(s@, a2 as int, i as int)[k].1,
            ),
        decreases b2 - i,
    {
        let ghost before = comma_pieces(s@, a2 as int, i as int);
        if s[i] == 44 {
            let v = cell_at(s, start, i);
            cells.push(v);
            start = i + 1;
        }
        i = i + 1;
        proof {
            let after = comma_pieces(s@, a2 as int, i as int);
            assert forall|k: int| 0 <= k < cells@.len() implies #[trigger] cells@[k] as int == cell_value(
                s@, after[k].0, after[k].1) by {
                assert(after[k] == before[k]);
            }
        }
    }
    let v = cell_at(s, start, b2);
    cells.push(v);
    proof {
        assert(cells@.map_values(|c: u8| c as int) =~= pieces.map_values(|p: (int, int)| cell_value(s@, p.0, p.1)));
    }
    cells
}

/// The first position at or after `from` where the byte `b` stands in `hay`.
pub fn find_byte(hay: &[u8], b: u8, from: usize) -> (r: Option<usize>)
    requires
        from <= hay@.len(),
    ensures
        match r {
            Some(p) => find_from(hay@, seq![b], from as int) == Some(p as int) && from <= p < hay@.len() && hay@[p as int] == b,
            None => find_from(hay@, seq![b], from as int) is None,
        },
{
    let mut i = from;
    while i < hay.len()
        invariant
            from <= i <= hay@.len(),
            find_from(hay@, seq![b], i as int) == find_from(hay@, seq![b], from as int),
        decreases hay@.len() - i,
    {
        if hay[i] == b {
            assert(hay@.subrange(i as int, i + 1) =~= seq![b]);
            return Some(i);
        }
        assert(hay@.subrange(i as int, i + 1)[0] != seq![b][0]);
        i = i + 1;
    }
    None
}

/// The key `"puzzle"`, quotes included.
pub open spec fn puzzle_key() -> Seq<u8> {
    seq![34u8, 112u8, 117u8, 122u8, 122u8, 108u8, 101u8, 34u8]
}

/// The key `"seed"`, quotes included.
pub open spec fn seed_key() -> Seq<u8> {
    seq![34u8, 115u8, 101u8, 101u8, 100u8, 34u8]
}

/// The key `"nodes"`, quotes included.
pub open spec fn nodes_key() -> Seq<u8> {
    seq![34u8, 110u8, 111u8, 100u8, 101u8, 115u8, 34u8]
}

/// The key `"colors"`, quotes included.
pub open spec fn colors_key() -> Seq<u8> {
    seq![34u8, 99u8, 111u8, 108u8, 111u8, 114u8, 115u8, 34u8]
}

/// The key `"edges"`, quotes included.
pub open spec fn edges_key() -> Seq<u8> {
    seq![34u8, 101u8, 100u8, 103u8, 101u8, 115u8, 34u8]
}

/// The range of the array that opens at `q`, if it closes.
pub open spec fn array_at(s: Seq<u8>, q: int) -> Option<(int, int)> {
    match array_end(s, q) {
        Some(e) => Some((q, e)),
        None => None,
    }
}

/// The array that follows `key` in `s`: found from the first occurrence of the key,
/// it opens at the first `[` after the key.
pub open spec fn keyed_array(s: Seq<u8>, key: Seq<u8>) -> Option<(int, int)> {
    match find_from(s, key, 0) {
        None => None,
        Some(p) => match find_from(s, seq![91u8], p + key.len()) {
            None => None,
            Some(q) => array_at(s, q),
        },
    }
}

/// The array that opens at the first `[` of `s`.
pub open spec fn first_array(s: Seq<u8>) -> Option<(int, int)> {
    match find_from(s, seq![91u8], 0) {
        None => None,
        Some(q) => array_at(s, q),
    }
}

/// The range of the array that follows `key` in `json`.
pub fn extract_array_for_key(json: &[u8], key: &[u8]) -> (r: Option<(usize, usize)>)
    ensures
        match r {
            Some((a, b)) => keyed_array(json@, key@) == Some((a as int, b as int)),
            None => keyed_array(json@, key@) is None,
        },
{
    let n = json.len();
    match find(json, key, 0) {
        None => None,
        Some(p) => {
            proof {
                lemma_find_from(json@, key@, 0);
            }
            match find_byte(json, 91, p + key.len()) {
                None => None,
                Some(q) => match extract_balanced_array(json, q) {
                    Some(e) => Some((q, e)),
                    None => None,
                },
            }
        },
    }
}

/// The range of the first array in `json`.
pub fn extract_first_array(json: &[u8]) -> (r: Option<(usize, usize)>)
    ensures
        match r {
            Some((a, b)) => first_array(json@) == Some((a as int, b as int)),
            None => first_array(json@) is None,
        },
{
    match find_byte(json, 91, 0) {
        None => None,
        Some(q) => match extract_balanced_array(json, q) {
            Some(e) => Some((q, e)),
            None => None,
        },
    }
}

/// The cells of the puzzle in `json`: from the array after the key `"puzzle"`, or else
/// from the first array in the text; none where there is neither.
pub open spec fn puzzle_cells(json: Seq<u8>) -> Seq<int> {
    let found = match keyed_array(json, puzzle_key()) {
        Some(r) => Some(r),
        None => first_array(json),
    };
    match found {
        Some((a, b)) => puzzle_values(json, a, b),
        None => Seq::<int>::empty(),
    }
}

/// Read the cells of a puzzle from `json`, given either as a bare array or as an
/// object with the array (or a string holding it) under `"puzzle"`.
pub fn parse_puzzle(json: &[u8]) -> (cells: Vec<u8>)
    ensures
        cells@.map_values(|c: u8| c as int) == puzzle_cells(json@),
{
    let key: Vec<u8> = vec![34, 112, 117, 122, 122, 108, 101, 34];
    assert(key@ == puzzle_key());
    let found = match extract_array_for_key(json, key.as_slice()) {
        Some(r) => Some(r),
        None => extract_first_array(json),
    };
    match found {
        Some((a, b)) => {
            proof {
                let m = choose|m: int| closes_after(json@, a as int, m);
                assert(b == a + m);
            }
            parse_puzzle_array(json, a, b)
        },
        None => {
            let cells: Vec<u8> = Vec::new();
            assert(cells@.map_values(|c: u8| c as int) =~= Seq::<int>::empty());
            cells
        },
    }
}

/// The number written after `key` in `s`: past the first colon after the first
/// occurrence of the key and any white space, the digits that follow, read as an
/// integer of at most `max`.
pub open spec fn number_after_key(s: Seq<u8>, key: Seq<u8>, max: int) -> Option<int> {
    match find_from(s, key, 0) {
        None => None,
        Some(p) => match find_from(s, seq![58u8], p + key.len()) {
            None => None,
            Some(c) => {
                let a = skip_space(s, c + 1, s.len() as int);
                unsigned_text(s, a, skip_digits(s, a, s.len() as int), max)
            },
        },
    }
}

/// Read the number written after `key` in `json`, if any, as an integer of at most `max`.
fn number_after(json: &[u8], key: &[u8], max: u64) -> (r: Option<u64>)
    ensures
        match r {
            Some(v) => number_after_key(json@, key@, max as int) == Some(v as int),
            None => number_after_key(json@, key@, max as int) is None,
        },
{
    let n = json.len();
    match find(json, key, 0) {
        None => None,
        Some(p) => {
            proof {
                lemma_find_from(json@, key@, 0);
            }
            match find_byte(json, 58, p + key.len()) {
                None => None,
                Some(c) => {
                    let a = skip_front(json, ByteClass::Space, c + 1, json.len());
                    let b = skip_front(json, ByteClass::Digit, a, json.len());
                    parse_unsigned(json, a, b, max)
                },
            }
        },
    }
}

/// The seed written in `json` under `"seed"`, or 42 where there is none.
pub open spec fn seed_of(json: Seq<u8>) -> int {
    match number_after_key(json, seed_key(), u64::MAX as int) {
        Some(v) => v,
        None => 42,
    }
}

/// Read the seed of the random source from `json`; 42 where it gives none.
pub fn extract_seed(json: &[u8]) -> (seed: u64)
    ensures
        seed == seed_of(json@),
{
    let key: Vec<u8> = vec![34, 115, 101, 101, 100, 34];
    assert(key@ == seed_key());
    match number_after(json, key.as_slice(), u64::MAX) {
        Some(v) => v,
        None => 42,
    }
}

/// Read the number written under `key` in `json`, if there is one that fits a `usize`.
pub fn extract_number(json: &[u8], key: &[u8]) -> (r: Option<usize>)
    ensures
        match r {
            Some(v) => number_after_key(json@, key@, usize::MAX as int) == Some(v as int),
            None => number_after_key(json@, key@, usize::MAX as int) is None,
        },
{
    match number_after(json, key, usize::MAX as u64) {
        Some(v) => Some(v as usize),
        None => None,
    }
}

/// The number in a piece `s[lo..hi]` of an edge, trimmed of white space, if it is one
/// that fits a `usize`.
pub open spec fn piece_number(s: Seq<u8>, lo: int, hi: int) -> Option<int> {
    let a = skip_space(s, lo, hi);
    unsigned_text(s, a, drop_space(s, a, hi), usize::MAX as int)
}

/// The numbers among the given pieces of `s`, in order; pieces that are no number are
/// left out.
pub open spec fn numbers_in(s: Seq<u8>, pieces: Seq<(int, int)>) -> Seq<int>
    decreases pieces.len(),
{
    if pieces.len() == 0 {
        Seq::<int>::empty()
    } else {
        let rest = numbers_in(s, pieces.drop_last());
        match piece_number(s, pieces.last().0, pieces.last().1) {
            Some(v) => rest.push(v),
            None => rest,
        }
    }
}

/// The numbers among the comma-separated pieces of `s[lo..hi]`.
fn numbers_between(s: &[u8], lo: usize, hi: usize) -> (nums: Vec<usize>)
    requires
        lo <= hi <= s@.len(),
    ensures
        nums@.map_values(|v: usize| v as int) == numbers_in(s@, comma_pieces(s@, lo as int, hi as int)),
{
    let mut nums: Vec<usize> = Vec::new();
    let mut start = lo;
    let mut i = lo;
    while i < hi
        invariant
            lo <= start <= i <= hi <= s@.len(),
            comma_pieces(s@, lo as int, i as int).len() >= 1,
            comma_pieces(s@, lo as int, i as int).last() == (start as int, i as int),
            nums@.map_values(|v: usize| v as int) == numbers_in(s@, comma_pieces(s@, lo as int, i as int).drop_last()),
        decreases hi - i,
    {
        let ghost before = comma_pieces(s@, lo as int, i as int);
        if s[i] == 44 {
            let a = skip_front(s, ByteClass::Space, start, i);
            let b = drop_back(s, ByteClass::Space, a, i);
            let ghost old_nums = nums@;
            match parse_unsigned(s, a, b, usize::MAX as u64) {
                Some(v) => {
                    nums.push(v as usize);
                    assert(nums@.map_values(|v: usize| v as int) =~= old_nums.map_values(|v: usize| v as int).push(v as int));
                },
                None => {},
            }
            start = i + 1;
            i = i + 1;
            assert(comma_pieces(s@, lo as int, i as int).drop_last() =~= before);
        } else {
            i = i + 1;
            assert(comma_pieces(s@, lo as int, i as int).drop_last() =~= before.drop_last());
        }
    }
    let ghost before = comma_pieces(s@, lo as int, hi as int);
    let a = skip_front(s, ByteClass::Space, start, hi);
    let b = drop_back(s, ByteClass::Space, a, hi);
    let ghost old_nums = nums@;
    match parse_unsigned(s, a, b, usize::MAX as u64) {
        Some(v) => {
            nums.push(v as usize);
            assert(nums@.map_values(|v: usize| v as int) =~= old_nums.map_values(|v: usize| v as int).push(v as int));
        },
        None => {},
    }
    nums
}

/// The edges listed from position `i` of `s`: each `[` opens a pair that runs to the
/// next `]` and counts where exactly two numbers stand in it; a `]` that no comma
/// follows ends the list.
pub open spec fn edges_from(s: Seq<u8>, i: int) -> Seq<(int, int)>
    decreases s.len() + 1 - i,
{
    if i < 0 || i >= s.len() {
        Seq::<(int, int)>::empty()
    } else if s[i] == 91 {
        proof {
            lemma_find_from(s, seq![93u8], i);
        }
        let end = match find_from(s, seq![93u8], i) {
            Some(e) => e,
            None => s.len() as int,
        };
        let ns = numbers_in(s, comma_pieces(s, i + 1, end));
        let rest = edges_from(s, end + 1);
        if ns.len() == 2 {
            seq![(ns[0], ns[1])] + rest
        } else {
            rest
        }
    } else if s[i] == 93 && (i + 1 >= s.len() || s[i + 1] != 44) {
        Seq::<(int, int)>::empty()
    } else {
        edges_from(s, i + 1)
    }
}

/// The edges of the map described in `json`: listed in the array of pairs that opens at
/// the first `[[` after the key `"edges"`.
pub open spec fn map_edges(json: Seq<u8>) -> Seq<(int, int)> {
    match find_from(json, edges_key(), 0) {
        None => Seq::<(int, int)>::empty(),
        Some(p) => match find_from(json, seq![91u8, 91u8], p) {
            None => Seq::<(int, int)>::empty(),
            Some(a) => edges_from(json, a + 1),
        },
    }
}

/// Edges as pairs of integers.
pub open spec fn edge_ints(edges: Seq<(usize, usize)>) -> Seq<(int, int)> {
    edges.map_values(|e: (usize, usize)| (e.0 as int, e.1 as int))
}

/// The edges listed from position `from` of `s`.
fn scan_edges(s: &[u8], from: usize) -> (edges: Vec<(usize, usize)>)
    requires
        from <= s@.len(),
    ensures
        edge_ints(edges@) == edges_from(s@, from as int),
{
    let n = s.len();
    let mut edges: Vec<(usize, usize)> = Vec::new();
    let mut i = from;
    while i < n
        invariant
            n == s@.len(),
            from <= i <= n,
            edge_ints(edges@) + edges_from(s@, i as int) == edges_from(s@, from as int),
        decreases n - i,
    {
        if s[i] == 91 {
            let end = match find_byte(s, 93, i) {
                Some(e) => e,
                None => n,
            };
            proof {
                lemma_find_from(s@, seq![93u8], i as int);
            }
            let nums = numbers_between(s, i + 1, end);
            let ghost ns = numbers_in(s@, comma_pieces(s@, i + 1, end as int));
            let ghost old_edges = edge_ints(edges@);
            assert(nums@.len() == ns.len());
            if nums.len() == 2 {
                assert(nums@.map_values(|v: usize| v as int)[0] == nums@[0] as int);
                assert(nums@.map_values(|v: usize| v as int)[1] == nums@[1] as int);
                edges.push((nums[0], nums[1]));
                assert(edge_ints(edges@) =~= old_edges + seq![(ns[0], ns[1])]);
            }
            if end >= n {
                assert(edges_from(s@, end + 1) =~= Seq::<(int, int)>::empty());
                assert(edge_ints(edges@) =~= edges_from(s@, from as int));
                return edges;
            }
            i = end + 1;
            assert(edge_ints(edges@) + edges_from(s@, i as int) =~= edges_from(s@, from as int));
        } else if s[i] == 93 && (i + 1 >= n || s[i + 1] != 44) {
            assert(edge_ints(edges@) =~= edges_from(s@, from as int));
            return edges;
        } else {
            i = i + 1;
        }
    }
    assert(edge_ints(edges@) =~= edges_from(s@, from as int));
    edges
}

/// The number of nodes of the map described in `json`; 7 where it gives none.
pub open spec fn map_nodes(json: Seq<u8>) -> int {
    match number_after_key(json, nodes_key(), usize::MAX as int) {
        Some(v) => v,
        None => 7,
    }
}

/// The number of colors of the map described in `json`; 3 where it gives none.
pub open spec fn map_colors(json: Seq<u8>) -> int {
    match number_after_key(json, colors_key(), usize::MAX as int) {
        Some(v) => v,
        None => 3,
    }
}

/// The map described in `json`: its number of nodes (7 where it gives none), of colors
/// (3 where it gives none) and its edges.
pub fn parse_map_config(json: &[u8]) -> (r: (usize, usize, Vec<(usize, usize)>))
    ensures
        r.0 == map_nodes(json@),
        r.1 == map_colors(json@),
        edge_ints(r.2@) == map_edges(json@),
{
    let nodes_name: Vec<u8> = vec![34, 110, 111, 100, 101, 115, 34];
    let colors_name: Vec<u8> = vec![34, 99, 111, 108, 111, 114, 115, 34];
    let edges_name: Vec<u8> = vec![34, 101, 100, 103, 101, 115, 34];
    let open_pair: Vec<u8> = vec![91, 91];
    assert(nodes_name@ == nodes_key());
    assert(colors_name@ == colors_key());
    assert(edges_name@ == edges_key());
    assert(open_pair@ == seq![91u8, 91u8]);
    let nodes = match extract_number(json, nodes_name.as_slice()) {
        Some(v) => v,
        None => 7,
    };
    let colors = match extract_number(json, colors_name.as_slice()) {
        Some(v) => v,
        None => 3,
    };
    let n = json.len();
    let edges = match find(json, edges_name.as_slice(), 0) {
        None => Vec::new(),
        Some(p) => {
            proof {
                lemma_find_from(json@, edges_key(), 0);
            }
            match find(json, open_pair.as_slice(), p) {
                None => Vec::new(),
                Some(a) => {
                    proof {
                        lemma_find_from(json@, seq![91u8, 91u8], p as int);
                    }
                    scan_edges(json, a + 1)
                },
            }
        },
    };
    proof {
        if map_edges(json@).len() == 0 {
            assert(edge_ints(edges@) =~= map_edges(json@));
        }
    }
    (nodes, colors, edges)
}

} // verus!
