//! Text as sequences of characters: trimming, decimal numbers, words and lines,
//! and the file names that are built from numbers.
use vstd::prelude::*;

verus! {

/// Appends one character, as `String::push` documents.
pub assume_specification[ String::push ](s: &mut String, c: char)
    ensures
        final(s)@ == old(s)@.push(c),
;

/// The characters of a text.
pub fn chars_of(s: &str) -> (v: Vec<char>)
    ensures
        v@ == s@,
{
    broadcast use vstd::string::axiom_spec_iter;

    let mut v: Vec<char> = Vec::new();
    for c in it: s.chars()
        invariant
            it.seq() == s@,
            v@ == s@.take(it.index() as int),
    {
        proof {
            assert(s@.take(it.index() + 1) =~= s@.take(it.index() as int).push(s@[it.index() as int]));
        }
        v.push(c);
    }
    proof {
        assert(s@.take(s@.len() as int) =~= s@);
    }
    v
}

/// The text made of these characters.
pub fn text_of(v: &[char]) -> (s: String)
    ensures
        s@ == v@,
{
    let mut s: String = String::new();
    let mut i: usize = 0;
    while i < v.len()
        invariant
            i <= v.len(),
            s@ == v@.take(i as int),
        decreases v.len() - i,
    {
        proof {
            assert(v@.take(i + 1) =~= v@.take(i as int).push(v@[i as int]));
        }
        s.push(v[i]);
        i += 1;
    }
    proof {
        assert(v@.take(v.len() as int) =~= v@);
    }
    s
}

/// Whether two texts hold the same characters.
pub fn same_text(a: &str, b: &str) -> (r: bool)
    ensures
        r == (a@ == b@),
{
    let x: Vec<char> = chars_of(a);
    let y: Vec<char> = chars_of(b);
    if x.len() != y.len() {
        return false;
    }
    let mut i: usize = 0;
    while i < x.len()
        invariant
            i <= x.len(),
            x.len() == y.len(),
            forall|j: int| 0 <= j < i ==> x[j] == y[j],
            x@ == a@,
            y@ == b@,
        decreases x.len() - i,
    {
        if x[i] != y[i] {
            return false;
        }
        i += 1;
    }
    proof {
        assert(x@ =~= y@);
    }
    true
}

// ------------------------------------------------------------------ whitespace

/// Unicode's White_Space characters.
pub open spec fn is_space(c: char) -> bool {
    let n = c as u32;
    ||| 0x9 <= n <= 0xd
    ||| n == 0x20
    ||| n == 0x85
    ||| n == 0xa0
    ||| n == 0x1680
    ||| 0x2000 <= n <= 0x200a
    ||| n == 0x2028
    ||| n == 0x2029
    ||| n == 0x202f
    ||| n == 0x205f
    ||| n == 0x3000
}

pub fn space(c: char) -> (r: bool)
    ensures
        r == is_space(c),
{
    let n: u32 = c as u32;
    (0x9 <= n && n <= 0xd) || n == 0x20 || n == 0x85 || n == 0xa0 || n == 0x1680 || (0x2000 <= n
        && n <= 0x200a) || n == 0x2028 || n == 0x2029 || n == 0x202f || n == 0x205f || n == 0x3000
}

pub open spec fn trim_start(s: Seq<char>) -> Seq<char>
    decreases s.len(),
{
    if s.len() > 0 && is_space(s[0]) {
        trim_start(s.drop_first())
    } else {
        s
    }
}

pub open spec fn trim_end(s: Seq<char>) -> Seq<char>
    decreases s.len(),
{
    if s.len() > 0 && is_space(s.last()) {
        trim_end(s.drop_last())
    } else {
        s
    }
}

/// The text without the whitespace at its ends.
pub open spec fn trimmed(s: Seq<char>) -> Seq<char> {
    trim_end(trim_start(s))
}

pub fn trim(v: &[char]) -> (t: Vec<char>)
    ensures
        t@ == trimmed(v@),
{
    let mut lo: usize = 0;
    proof {
        assert(v@.skip(0) =~= v@);
    }
    while lo < v.len() && space(v[lo])
        invariant
            lo <= v.len(),
            trim_start(v@.skip(lo as int)) == trim_start(v@),
        decreases v.len() - lo,
    {
        proof {
            assert(v@.skip(lo as int).drop_first() =~= v@.skip(lo + 1));
        }
        lo += 1;
    }
    let ghost rest = v@.skip(lo as int);
    let mut hi: usize = v.len();
    proof {
        assert(rest == trim_start(v@));
        assert(v@.subrange(lo as int, hi as int) =~= rest);
    }
    while lo < hi && space(v[hi - 1])
        invariant
            lo <= hi <= v.len(),
            trim_end(v@.subrange(lo as int, hi as int)) == trim_end(rest),
        decreases hi - lo,
    {
        proof {
            let s = v@.subrange(lo as int, hi as int);
            assert(s.last() == v[hi - 1]);
            assert(s.drop_last() =~= v@.subrange(lo as int, hi - 1));
        }
        hi -= 1;
    }
    proof {
        let s = v@.subrange(lo as int, hi as int);
        if s.len() > 0 {
            assert(s.last() == v[hi - 1]);
        }
    }
    slice_of(v, lo, hi)
}

/// The characters `lo..hi`.
pub fn slice_of(v: &[char], lo: usize, hi: usize) -> (t: Vec<char>)
    requires
        lo <= hi <= v.len(),
    ensures
        t@ == v@.subrange(lo as int, hi as int),
{
    let mut t: Vec<char> = Vec::new();
    let mut i: usize = lo;
    while i < hi
        invariant
            lo <= i <= hi <= v.len(),
            t@ == v@.subrange(lo as int, i as int),
        decreases hi - i,
    {
        proof {
            assert(v@.subrange(lo as int, i + 1) =~= v@.subrange(lo as int, i as int).push(
                v@[i as int],
            ));
        }
        t.push(v[i]);
        i += 1;
    }
    t
}

// --------------------------------------------------------------------- numbers

pub open spec fn is_digit(c: char) -> bool {
    0x30 <= c as u32 <= 0x39
}

pub open spec fn digit_value(c: char) -> nat {
    (c as u32 - 0x30) as nat
}

pub open spec fn all_digits(s: Seq<char>) -> bool {
    forall|i: int| 0 <= i < s.len() ==> is_digit(#[trigger] s[i])
}

/// The number that a row of digits writes.
pub open spec fn digits_value(s: Seq<char>) -> nat
    decreases s.len(),
{
    if s.len() == 0 {
        0
    } else {
        digits_value(s.drop_last()) * 10 + digit_value(s.last())
    }
}

/// The digits of a number with its optional plus sign taken off.
pub open spec fn unsigned_body(s: Seq<char>) -> Seq<char> {
    if s.len() > 0 && s[0] == '+' {
        s.skip(1)
    } else {
        s
    }
}

/// The number that a text writes: an optional plus sign and at least one digit,
/// and nothing else.
pub open spec fn decimal(s: Seq<char>) -> Option<nat> {
    let body = unsigned_body(s);
    if body.len() > 0 && all_digits(body) {
        Some(digits_value(body))
    } else {
        None
    }
}

/// The number that a text writes, where it is at most `max`.
pub open spec fn decimal_within(s: Seq<char>, max: nat) -> Option<nat> {
    match decimal(s) {
        Some(n) if n <= max => Some(n),
        _ => None,
    }
}

proof fn lemma_digits_grow(s: Seq<char>, n: int)
    requires
        0 <= n <= s.len(),
    ensures
        digits_value(s.take(n)) <= digits_value(s),
    decreases s.len() - n,
{
    if n == s.len() {
        assert(s.take(n) =~= s);
    } else {
        assert(s.take(n + 1).drop_last() =~= s.take(n));
        lemma_digits_grow(s, n + 1);
    }
}

/// Reads a decimal number of at most `max`.
pub fn parse_within(v: &[char], max: u64) -> (r: Option<u64>)
    ensures
        match r {
            Some(n) => decimal_within(v@, max as nat) == Some(n as nat),
            None => decimal_within(v@, max as nat) is None,
        },
{
    let start: usize = if v.len() > 0 && v[0] == '+' {
        1
    } else {
        0
    };
    let ghost body = unsigned_body(v@);
    proof {
        assert(body =~= v@.skip(start as int));
        assert(body.take(0) =~= Seq::<char>::empty());
    }
    if start == v.len() {
        return None;
    }
    let mut n: u64 = 0;
    let mut i: usize = start;
    while i < v.len()
        invariant
            start <= i <= v.len(),
            body == v@.skip(start as int),
            body == unsigned_body(v@),
            body.len() > 0,
            n <= max,
            n == digits_value(body.take(i - start)),
            forall|j: int| 0 <= j < i - start ==> is_digit(#[trigger] body[j]),
        decreases v.len() - i,
    {
        let c: u32 = v[i] as u32;
        proof {
            assert(body[i - start] == v[i as int]);
            assert(body.take(i - start + 1).drop_last() =~= body.take(i - start));
            assert(body.take(i - start + 1).last() == v[i as int]);
        }
        if c < 0x30 || c > 0x39 {
            assert(!all_digits(body));
            return None;
        }
        let d: u64 = (c - 0x30) as u64;
        proof {
            lemma_digits_grow(body, i - start + 1);
        }
        let next: u128 = n as u128 * 10 + d as u128;
        if next > max as u128 {
            return None;
        }
        n = next as u64;
        i += 1;
    }
    proof {
        assert(body.take(body.len() as int) =~= body);
    }
    Some(n)
}

pub fn parse_usize(v: &[char]) -> (r: Option<usize>)
    ensures
        match r {
            Some(n) => decimal_within(v@, usize::MAX as nat) == Some(n as nat),
            None => decimal_within(v@, usize::MAX as nat) is None,
        },
{
    match parse_within(v, usize::MAX as u64) {
        Some(n) => Some(n as usize),
        None => None,
    }
}


pub open spec fn digit_char(d: nat) -> char
    recommends
        d < 10,
{
    (0x30 + d) as char
}

/// The decimal digits of a number, without leading zeros.
pub open spec fn decimal_text(n: nat) -> Seq<char>
    decreases n,
{
    if n < 10 {
        seq![digit_char(n)]
    } else {
        decimal_text(n / 10).push(digit_char(n % 10))
    }
}

/// Reading back the digits of a number gives the number.
pub proof fn law_decimal_text_reads_back(n: nat)
    ensures
        decimal(decimal_text(n)) == Some(n),
{
    lemma_decimal_text(n);
    assert(decimal_text(n)[0] != '+');
}

pub proof fn lemma_decimal_text(n: nat)
    ensures
        decimal_text(n).len() > 0,
        all_digits(decimal_text(n)),
        digits_value(decimal_text(n)) == n,
        is_digit(decimal_text(n)[0]),
    decreases n,
{
    if n < 10 {
        assert(decimal_text(n).drop_last() =~= Seq::<char>::empty());
        assert(decimal_text(n).last() == digit_char(n));
        assert(digits_value(Seq::<char>::empty()) == 0);
    } else {
        lemma_decimal_text(n / 10);
        assert(decimal_text(n).drop_last() =~= decimal_text(n / 10));
        assert(decimal_text(n).last() == digit_char(n % 10));
        assert forall|i: int| 0 <= i < decimal_text(n).len() implies is_digit(
            #[trigger] decimal_text(n)[i],
        ) by {
            if i < decimal_text(n / 10).len() {
                assert(decimal_text(n)[i] == decimal_text(n / 10)[i]);
            }
        }
        assert(decimal_text(n)[0] == decimal_text(n / 10)[0]);
    }
}

fn digit(d: u64) -> (c: char)
    requires
        d < 10,
    ensures
        c == digit_char(d as nat),
{
    if d == 0 {
        '0'
    } else if d == 1 {
        '1'
    } else if d == 2 {
        '2'
    } else if d == 3 {
        '3'
    } else if d == 4 {
        '4'
    } else if d == 5 {
        '5'
    } else if d == 6 {
        '6'
    } else if d == 7 {
        '7'
    } else if d == 8 {
        '8'
    } else {
        '9'
    }
}

/// Writes a number in decimal.
pub fn write_decimal(n: u64) -> (v: Vec<char>)
    ensures
        v@ == decimal_text(n as nat),
    decreases n,
{
    if n < 10 {
        let mut v: Vec<char> = Vec::new();
        v.push(digit(n));
        assert(v@ =~= seq![digit_char(n as nat)]);
        v
    } else {
        let mut v: Vec<char> = write_decimal(n / 10);
        v.push(digit(n % 10));
        v
    }
}

/// The digits of a number, padded with zeros to at least `width`.
pub open spec fn padded_text(n: nat, width: nat) -> Seq<char> {
    let d = decimal_text(n);
    if d.len() >= width {
        d
    } else {
        Seq::new((width - d.len()) as nat, |i: int| '0') + d
    }
}

/// Writes a number padded with zeros to at least `width` digits.
pub fn write_padded(n: u64, width: usize) -> (v: Vec<char>)
    ensures
        v@ == padded_text(n as nat, width as nat),
{
    let mut d: Vec<char> = write_decimal(n);
    if d.len() >= width {
        return d;
    }
    let fill: usize = width - d.len();
    let mut v: Vec<char> = Vec::new();
    let mut i: usize = 0;
    while i < fill
        invariant
            i <= fill,
            v@ == Seq::new(i as nat, |j: int| '0'),
        decreases fill - i,
    {
        v.push('0');
        i += 1;
        assert(v@ =~= Seq::new(i as nat, |j: int| '0'));
    }
    v.append(&mut d);
    v
}

/// `prefix`, a padded number, `suffix`.
pub open spec fn numbered_text(prefix: Seq<char>, n: nat, width: nat, suffix: Seq<char>) -> Seq<char> {
    prefix + padded_text(n, width) + suffix
}

/// Writes a name with a number in it.
pub fn numbered_name(prefix: &str, n: u64, width: usize, suffix: &str) -> (s: String)
    ensures
        s@ == numbered_text(prefix@, n as nat, width as nat, suffix@),
{
    let mut v: Vec<char> = chars_of(prefix);
    let mut d: Vec<char> = write_padded(n, width);
    let mut t: Vec<char> = chars_of(suffix);
    v.append(&mut d);
    v.append(&mut t);
    text_of(v.as_slice())
}

// -------------------------------------------------------------------- switches

/// An ASCII capital as its small letter, any other character as it is.
pub open spec fn lowered(c: char) -> char {
    if 'A' <= c && c <= 'Z' {
        ((c as u32 + 32) as u8) as char
    } else {
        c
    }
}

fn lower(c: char) -> (r: char)
    ensures
        r == lowered(c),
{
    if 'A' <= c && c <= 'Z' {
        ((c as u32 + 32) as u8) as char
    } else {
        c
    }
}

/// The text with its ASCII capitals as small letters.
pub open spec fn lower_text(s: Seq<char>) -> Seq<char> {
    Seq::new(s.len(), |i: int| lowered(s[i]))
}

/// Compares with a word, taking ASCII capitals and small letters for the same.
pub fn is_word(v: &[char], word: &str) -> (r: bool)
    ensures
        r == (lower_text(v@) =~= lower_text(word@)),
{
    let w: Vec<char> = chars_of(word);
    if v.len() != w.len() {
        return false;
    }
    let mut i: usize = 0;
    while i < v.len()
        invariant
            i <= v.len(),
            v.len() == w.len(),
            w@ == word@,
            forall|j: int| 0 <= j < i ==> lowered(#[trigger] v[j]) == lowered(w[j]),
        decreases v.len() - i,
    {
        if lower(v[i]) != lower(w[i]) {
            proof {
                assert(lower_text(v@)[i as int] != lower_text(word@)[i as int]);
            }
            return false;
        }
        i += 1;
    }
    true
}

/// The value of a switch that is off unless its text says otherwise: unset, empty,
/// `0`, `false`, `no` and `off` leave it off.
pub open spec fn switched_on(setting: Option<&str>) -> bool {
    setting matches Some(s) && s@ != Seq::<char>::empty() && s@ != "0"@ && s@ != "false"@ && s@
        != "no"@ && s@ != "off"@
}

/// Reads a switch that is off by default.
pub fn switch(setting: Option<&str>) -> (on: bool)
    ensures
        on == switched_on(setting),
{
    match setting {
        None => false,
        Some(s) => {
            let v: Vec<char> = chars_of(s);
            let empty: bool = v.len() == 0;
            proof {
                assert(empty == (s@ =~= Seq::<char>::empty()));
            }
            !(empty || same_text(s, "0") || same_text(s, "false") || same_text(s, "no")
                || same_text(s, "off"))
        },
    }
}

/// The value of a switch that is on unless its trimmed text is `0`, `false`, `no`
/// or `off` in any case.
pub open spec fn stays_on(setting: Option<&str>) -> bool {
    setting matches Some(s) ==> {
        let t = lower_text(trimmed(s@));
        t != lower_text("0"@) && t != lower_text("false"@) && t != lower_text("no"@) && t
            != lower_text("off"@)
    }
}

/// Reads a switch that is on by default.
pub fn switch_default_on(setting: Option<&str>) -> (on: bool)
    ensures
        on == stays_on(setting),
{
    match setting {
        None => true,
        Some(s) => {
            let v: Vec<char> = chars_of(s);
            let t: Vec<char> = trim(v.as_slice());
            let t: &[char] = t.as_slice();
            !(is_word(t, "0") || is_word(t, "false") || is_word(t, "no") || is_word(t, "off"))
        },
    }
}

// ---------------------------------------------------------------------- pieces

/// The pieces between separators: one more than there are separators.
pub open spec fn pieces(s: Seq<char>, sep: char) -> Seq<Seq<char>>
    decreases s.len(),
{
    if s.len() == 0 {
        seq![Seq::<char>::empty()]
    } else {
        let before = pieces(s.drop_last(), sep);
        if s.last() == sep {
            before.push(Seq::empty())
        } else {
            before.update(before.len() - 1, before.last().push(s.last()))
        }
    }
}

pub proof fn lemma_pieces_nonempty(s: Seq<char>, sep: char)
    ensures
        pieces(s, sep).len() > 0,
    decreases s.len(),
{
    if s.len() > 0 {
        lemma_pieces_nonempty(s.drop_last(), sep);
    }
}

/// Splits a text at each separator.
pub fn split_at_each(v: &[char], sep: char) -> (r: Vec<Vec<char>>)
    ensures
        r.len() == pieces(v@, sep).len(),
        r.len() > 0,
        forall|i: int| 0 <= i < r.len() ==> (#[trigger] r[i])@ == pieces(v@, sep)[i],
{
    let mut r: Vec<Vec<char>> = Vec::new();
    let mut current: Vec<char> = Vec::new();
    let mut i: usize = 0;
    proof {
        assert(v@.take(0) =~= Seq::<char>::empty());
    }
    while i < v.len()
        invariant
            i <= v.len(),
            r.len() + 1 == pieces(v@.take(i as int), sep).len(),
            forall|j: int|
                0 <= j < r.len() ==> (#[trigger] r[j])@ == pieces(v@.take(i as int), sep)[j],
            current@ == pieces(v@.take(i as int), sep).last(),
        decreases v.len() - i,
    {
        let c: char = v[i];
        proof {
            assert(v@.take(i + 1).drop_last() =~= v@.take(i as int));
        }
        if c == sep {
            r.push(current);
            current = Vec::new();
        } else {
            current.push(c);
        }
        i += 1;
    }
    r.push(current);
    proof {
        assert(v@.take(v.len() as int) =~= v@);
    }
    r
}

// ---------------------------------------------------------------------- search

/// `needle` stands in `s` at place `i`.
pub open spec fn stands_at(s: Seq<char>, needle: Seq<char>, i: int) -> bool {
    0 <= i && i + needle.len() <= s.len() && s.subrange(i, i + needle.len()) =~= needle
}

/// `needle` stands somewhere in `s`.
pub open spec fn holds_text(s: Seq<char>, needle: Seq<char>) -> bool {
    exists|i: int| #[trigger] stands_at(s, needle, i)
}

/// Whether a text holds another one.
pub fn contains_text(v: &[char], needle: &str) -> (r: bool)
    ensures
        r == holds_text(v@, needle@),
{
    let n: Vec<char> = chars_of(needle);
    if n.len() > v.len() {
        return false;
    }
    let mut i: usize = 0;
    while i <= v.len() - n.len()
        invariant
            n@ == needle@,
            n.len() <= v.len(),
            i <= v.len() - n.len() + 1,
            forall|x: int| 0 <= x < i ==> !#[trigger] stands_at(v@, needle@, x),
        decreases v.len() - n.len() + 1 - i,
    {
        let mut j: usize = 0;
        while j < n.len() && v[i + j] == n[j]
            invariant
                n@ == needle@,
                n.len() <= v.len(),
                i <= v.len() - n.len(),
                j <= n.len(),
                forall|x: int| 0 <= x < j ==> #[trigger] v[i + x] == n[x],
            decreases n.len() - j,
        {
            j += 1;
        }
        if j == n.len() {
            proof {
                let w = v@.subrange(i as int, i + n.len());
                assert forall|x: int| 0 <= x < n.len() implies w[x] == needle@[x] by {
                    assert(v[i + x] == n[x]);
                }
                assert(w =~= needle@);
                assert(stands_at(v@, needle@, i as int));
            }
            return true;
        }
        proof {
            if stands_at(v@, needle@, i as int) {
                assert(v@.subrange(i as int, i + n.len())[j as int] == needle@[j as int]);
            }
        }
        i += 1;
    }
    false
}

/// Whether a text holds a character.
pub fn contains_char(v: &[char], c: char) -> (r: bool)
    ensures
        r == v@.contains(c),
{
    let mut i: usize = 0;
    while i < v.len()
        invariant
            i <= v.len(),
            forall|x: int| 0 <= x < i ==> #[trigger] v[x] != c,
        decreases v.len() - i,
    {
        if v[i] == c {
            assert(v@[i as int] == c);
            return true;
        }
        i += 1;
    }
    false
}

// ----------------------------------------------------------------------- lines

/// A line without the carriage return that may end it.
pub open spec fn bare_line(s: Seq<char>) -> Seq<char> {
    if s.len() > 0 && s.last() == '\r' {
        s.drop_last()
    } else {
        s
    }
}

/// The pieces between line feeds, each that a line feed ends without a carriage return
/// before it. A text that ends in a line feed has an empty last piece.
pub open spec fn line_pieces(s: Seq<char>) -> Seq<Seq<char>> {
    let p = pieces(s, '\n');
    Seq::new(
        p.len(),
        |i: int|
            if i + 1 < p.len() {
                bare_line(p[i])
            } else {
                p[i]
            },
    )
}

/// Splits a text into its lines.
pub fn split_lines(v: &[char]) -> (r: Vec<Vec<char>>)
    ensures
        r.len() == line_pieces(v@).len(),
        forall|i: int| 0 <= i < r.len() ==> (#[trigger] r[i])@ == line_pieces(v@)[i],
{
    let raw: Vec<Vec<char>> = split_at_each(v, '\n');
    let mut r: Vec<Vec<char>> = Vec::new();
    let mut i: usize = 0;
    while i < raw.len()
        invariant
            i <= raw.len(),
            raw.len() == pieces(v@, '\n').len(),
            forall|x: int| 0 <= x < raw.len() ==> (#[trigger] raw[x])@ == pieces(v@, '\n')[x],
            r.len() == i,
            forall|x: int| 0 <= x < i ==> (#[trigger] r[x])@ == line_pieces(v@)[x],
        decreases raw.len() - i,
    {
        let n: usize = raw[i].len();
        let line: Vec<char> = if i + 1 < raw.len() && n > 0 && raw[i][n - 1] == '\r' {
            slice_of(raw[i].as_slice(), 0, n - 1)
        } else {
            slice_of(raw[i].as_slice(), 0, n)
        };
        proof {
            assert(line@ =~= line_pieces(v@)[i as int]);
        }
        r.push(line);
        i += 1;
    }
    r
}

// --------------------------------------------------------------- number lists

/// The numbers up to `max` among some pieces, each trimmed; other pieces are
/// passed over.
pub open spec fn numbers_among(p: Seq<Seq<char>>, max: nat) -> Seq<nat>
    decreases p.len(),
{
    if p.len() == 0 {
        Seq::empty()
    } else {
        let before = numbers_among(p.drop_last(), max);
        match decimal_within(trimmed(p.last()), max) {
            Some(n) => before.push(n),
            None => before,
        }
    }
}

/// The numbers in a comma-separated list.
pub fn numbers_listed(v: &[char], max: u64) -> (r: Vec<u64>)
    ensures
        r.len() == numbers_among(pieces(v@, ','), max as nat).len(),
        forall|i: int|
            0 <= i < r.len() ==> #[trigger] r[i] == numbers_among(pieces(v@, ','), max as nat)[i],
        forall|i: int| 0 <= i < r.len() ==> #[trigger] r[i] <= max,
{
    let p: Vec<Vec<char>> = split_at_each(v, ',');
    let ghost all = pieces(v@, ',');
    let mut r: Vec<u64> = Vec::new();
    let mut i: usize = 0;
    proof {
        assert(all.take(0) =~= Seq::<Seq<char>>::empty());
    }
    while i < p.len()
        invariant
            i <= p.len(),
            p.len() == all.len(),
            forall|x: int| 0 <= x < p.len() ==> (#[trigger] p[x])@ == all[x],
            r.len() == numbers_among(all.take(i as int), max as nat).len(),
            forall|x: int|
                0 <= x < r.len() ==> #[trigger] r[x] == numbers_among(
                    all.take(i as int),
                    max as nat,
                )[x],
            forall|x: int| 0 <= x < r.len() ==> #[trigger] r[x] <= max,
        decreases p.len() - i,
    {
        let t: Vec<char> = trim(p[i].as_slice());
        proof {
            assert(all.take(i + 1).drop_last() =~= all.take(i as int));
            assert(all.take(i + 1).last() == p[i as int]@);
        }
        match parse_within(t.as_slice(), max) {
            Some(n) => r.push(n),
            None => {},
        }
        i += 1;
    }
    proof {
        assert(all.take(all.len() as int) =~= all);
    }
    r
}

// ----------------------------------------------------------------------- words

/// The runs of characters between whitespace.
pub open spec fn words(s: Seq<char>) -> Seq<Seq<char>>
    decreases s.len(),
{
    if s.len() == 0 {
        Seq::empty()
    } else {
        let before = words(s.drop_last());
        if is_space(s.last()) {
            before
        } else if s.len() == 1 || is_space(s[s.len() - 2]) {
            before.push(seq![s.last()])
        } else {
            before.update(before.len() - 1, before.last().push(s.last()))
        }
    }
}

proof fn lemma_words_open(s: Seq<char>)
    requires
        s.len() > 0,
        !is_space(s.last()),
    ensures
        words(s).len() > 0,
    decreases s.len(),
{
    if s.len() > 1 && !is_space(s[s.len() - 2]) {
        let d = s.drop_last();
        assert(d.last() == s[s.len() - 2]);
        lemma_words_open(d);
    }
}

/// Splits a text at whitespace.
pub fn split_words(v: &[char]) -> (r: Vec<Vec<char>>)
    ensures
        r.len() == words(v@).len(),
        forall|i: int| 0 <= i < r.len() ==> (#[trigger] r[i])@ == words(v@)[i],
{
    let mut r: Vec<Vec<char>> = Vec::new();
    let mut current: Vec<char> = Vec::new();
    let mut i: usize = 0;
    proof {
        assert(v@.take(0) =~= Seq::<char>::empty());
    }
    while i < v.len()
        invariant
            i <= v.len(),
            current.len() > 0 <==> i > 0 && !is_space(v[i - 1]),
            current.len() == 0 ==> r.len() == words(v@.take(i as int)).len(),
            current.len() > 0 ==> r.len() + 1 == words(v@.take(i as int)).len() && current@ == words(
                v@.take(i as int),
            ).last(),
            forall|j: int|
                0 <= j < r.len() ==> (#[trigger] r[j])@ == words(v@.take(i as int))[j],
        decreases v.len() - i,
    {
        let c: char = v[i];
        let ghost head = v@.take(i as int);
        let ghost longer = v@.take(i + 1);
        proof {
            assert(longer.drop_last() =~= head);
            assert(longer.last() == c);
            if i > 0 {
                assert(longer[longer.len() - 2] == v[i - 1]);
            }
        }
        if space(c) {
            if current.len() > 0 {
                r.push(current);
                current = Vec::new();
            }
        } else {
            let ghost before = current@;
            current.push(c);
            proof {
                if before.len() == 0 {
                    assert(current@ =~= seq![c]);
                }
            }
        }
        i += 1;
    }
    if current.len() > 0 {
        r.push(current);
    }
    proof {
        assert(v@.take(v.len() as int) =~= v@);
    }
    r
}

/// No whitespace.
pub open spec fn unspaced(s: Seq<char>) -> bool {
    forall|i: int| 0 <= i < s.len() ==> !is_space(#[trigger] s[i])
}

/// A word behind whitespace, or at the start, is one more word.
pub proof fn lemma_words_append(s: Seq<char>, w: Seq<char>)
    requires
        w.len() > 0,
        unspaced(w),
        s.len() == 0 || is_space(s.last()),
    ensures
        words(s + w) =~= words(s).push(w),
    decreases w.len(),
{
    let all = s + w;
    let d = w.drop_last();
    assert(all.drop_last() =~= s + d);
    assert(all.last() == w.last());
    assert(!is_space(w[w.len() - 1]));
    if w.len() == 1 {
        assert(s + d =~= s);
        if s.len() > 0 {
            assert(all[all.len() - 2] == s.last());
        }
        assert(seq![w.last()] =~= w);
    } else {
        lemma_words_append(s, d);
        assert(all[all.len() - 2] == w[w.len() - 2]);
        assert(!is_space(w[w.len() - 2]));
        assert(d.push(w.last()) =~= w);
        assert(words(s).push(d).last() == d);
    }
}

/// Whitespace behind a text adds no word.
pub proof fn lemma_words_space(s: Seq<char>, c: char)
    requires
        is_space(c),
    ensures
        words(s.push(c)) =~= words(s),
{
    assert(s.push(c).drop_last() =~= s);
}

/// Pieces of a text with a part behind it that holds no separator: the last piece
/// grows.
pub proof fn lemma_pieces_append(s: Seq<char>, w: Seq<char>, sep: char)
    requires
        !w.contains(sep),
    ensures
        pieces(s + w, sep) =~= pieces(s, sep).update(
            pieces(s, sep).len() - 1,
            pieces(s, sep).last() + w,
        ),
        pieces(s, sep).len() > 0,
    decreases w.len(),
{
    lemma_pieces_nonempty(s, sep);
    if w.len() == 0 {
        assert(s + w =~= s);
        assert(pieces(s, sep).last() + w =~= pieces(s, sep).last());
    } else {
        let d = w.drop_last();
        assert((s + w).drop_last() =~= s + d);
        assert((s + w).last() == w.last());
        assert(w.contains(w.last()));
        assert forall|x: char| d.contains(x) implies w.contains(x) by {
            let i = choose|i: int| 0 <= i < d.len() && d[i] == x;
            assert(w[i] == x);
        }
        lemma_pieces_append(s, d, sep);
        let p = pieces(s, sep);
        assert((p.last() + d).push(w.last()) =~= p.last() + w);
    }
}

/// What is trimmed off is white space at both ends, and no white space is left there.
pub proof fn law_trimmed_is_what_lies_between(s: Seq<char>)
    ensures
        exists|i: int, j: int|
            0 <= i <= j <= s.len() && trimmed(s) == #[trigger] s.subrange(i, j) && (forall|x: int|
                0 <= x < i || j <= x < s.len() ==> is_space(#[trigger] s[x])),
        trimmed(s).len() > 0 ==> !is_space(trimmed(s)[0]) && !is_space(trimmed(s).last()),
{
    lemma_trim_start(s);
    let t = trim_start(s);
    lemma_trim_end(t);
    let i = s.len() - t.len();
    let j = i + trim_end(t).len();
    assert(trim_end(t) =~= s.subrange(i, j));
    assert forall|x: int| 0 <= x < i || j <= x < s.len() implies is_space(#[trigger] s[x]) by {
        if j <= x {
            assert(t[x - i] == s[x]);
        }
    }
    if trim_end(t).len() > 0 {
        assert(trim_end(t)[0] == t[0]);
    }
}

proof fn lemma_trim_start(s: Seq<char>)
    ensures
        trim_start(s).len() <= s.len(),
        trim_start(s) =~= s.skip(s.len() - trim_start(s).len()),
        forall|x: int| 0 <= x < s.len() - trim_start(s).len() ==> is_space(#[trigger] s[x]),
        trim_start(s).len() > 0 ==> !is_space(trim_start(s)[0]),
    decreases s.len(),
{
    if s.len() > 0 && is_space(s[0]) {
        let d = s.drop_first();
        lemma_trim_start(d);
        assert forall|x: int| 0 <= x < s.len() - trim_start(s).len() implies is_space(
            #[trigger] s[x],
        ) by {
            if x > 0 {
                assert(d[x - 1] == s[x]);
            }
        }
    }
}

proof fn lemma_trim_end(s: Seq<char>)
    ensures
        trim_end(s).len() <= s.len(),
        trim_end(s) =~= s.take(trim_end(s).len() as int),
        forall|x: int| trim_end(s).len() <= x < s.len() ==> is_space(#[trigger] s[x]),
        trim_end(s).len() > 0 ==> !is_space(trim_end(s).last()),
    decreases s.len(),
{
    if s.len() > 0 && is_space(s.last()) {
        let d = s.drop_last();
        lemma_trim_end(d);
        assert forall|x: int| trim_end(s).len() <= x < s.len() implies is_space(#[trigger] s[x]) by {
            if x < s.len() - 1 {
                assert(d[x] == s[x]);
            }
        }
    }
}

/// White space among the first 128 characters: tab to carriage return, and the blank.
pub proof fn law_ascii_white_space(c: char)
    requires
        c as u32 <= 0x7f,
    ensures
        is_space(c) <==> 9 <= c as u32 <= 13 || c == ' ',
{
}

/// A digit more multiplies by ten and adds its value.
pub proof fn law_digits_count_by_ten(s: Seq<char>, c: char)
    requires
        48 <= c as u32 <= 57,
    ensures
        is_digit(c),
        digits_value(Seq::empty()) == 0,
        digits_value(s.push(c)) == 10 * digits_value(s) + (c as u32 - 48),
{
    assert(s.push(c).drop_last() =~= s);
}

/// A number is read from one digit or more, which one plus sign may precede, and from
/// nothing else.
pub proof fn law_only_digits_are_a_number(s: Seq<char>)
    ensures
        s.len() > 0 && s[0] == '+' ==> (decimal(s) is Some <==> s.len() > 1 && forall|i: int|
            1 <= i < s.len() ==> 48 <= (#[trigger] s[i]) as u32 <= 57),
        s.len() == 0 || s[0] != '+' ==> (decimal(s) is Some <==> s.len() > 0 && forall|i: int|
            0 <= i < s.len() ==> 48 <= (#[trigger] s[i]) as u32 <= 57),
        s.len() > 0 && s[0] == '+' && decimal(s) is Some ==> decimal(s) == decimal(s.skip(1)),
{
    let body = unsigned_body(s);
    if s.len() > 0 && s[0] == '+' {
        assert(forall|i: int| 0 <= i < body.len() ==> #[trigger] body[i] == s[i + 1]);
        assert(forall|i: int| 1 <= i < s.len() ==> #[trigger] s[i] == body[i - 1]);
        if decimal(s) is Some {
            assert(is_digit(body[0]));
            assert forall|i: int| 1 <= i < s.len() implies 48 <= (#[trigger] s[i]) as u32 <= 57 by {
                assert(is_digit(body[i - 1]));
            }
        }
        if s.len() > 1 && forall|i: int| 1 <= i < s.len() ==> 48 <= (#[trigger] s[i]) as u32 <= 57 {
            assert forall|i: int| 0 <= i < body.len() implies is_digit(#[trigger] body[i]) by {
                assert(48 <= s[i + 1] as u32 <= 57);
            }
        }
    } else {
        if decimal(s) is Some {
            assert forall|i: int| 0 <= i < s.len() implies 48 <= (#[trigger] s[i]) as u32 <= 57 by {
                assert(is_digit(body[i]));
            }
        }
    }
}

/// A number is written with digits alone, without a leading zero unless it is zero.
pub proof fn law_no_leading_zero(n: nat)
    ensures
        decimal_text(n).len() > 0,
        forall|i: int|
            0 <= i < decimal_text(n).len() ==> 48 <= (#[trigger] decimal_text(n)[i]) as u32 <= 57,
        n > 0 ==> decimal_text(n)[0] != '0',
        n == 0 ==> decimal_text(n) =~= seq!['0'],
    decreases n,
{
    lemma_decimal_text(n);
    assert forall|i: int| 0 <= i < decimal_text(n).len() implies 48 <= (
    #[trigger] decimal_text(n)[i]) as u32 <= 57 by {
        assert(is_digit(decimal_text(n)[i]));
    }
    if n >= 10 {
        law_no_leading_zero(n / 10);
        assert(decimal_text(n)[0] == decimal_text(n / 10)[0]);
    }
}

/// Padding puts zeros before the digits until the width is reached, and none beyond.
pub proof fn law_padding_fills_the_width(n: nat, width: nat)
    ensures
        padded_text(n, width).len() == if decimal_text(n).len() < width {
            width
        } else {
            decimal_text(n).len()
        },
        decimal_text(n).is_suffix_of(padded_text(n, width)),
        forall|i: int|
            0 <= i < padded_text(n, width).len() - decimal_text(n).len() ==> (
            #[trigger] padded_text(n, width)[i]) == '0',
{
    let d = decimal_text(n);
    let p = padded_text(n, width);
    assert(p.subrange(p.len() - d.len(), p.len() as int) =~= d);
}

/// Capital letters become the small ones, 32 places further on; nothing else changes.
pub proof fn law_only_capitals_are_lowered(c: char)
    ensures
        65 <= c as u32 <= 90 ==> lowered(c) as u32 == c as u32 + 32,
        !(65 <= c as u32 <= 90) ==> lowered(c) == c,
{
}

/// These pieces with `sep` between them.
pub open spec fn joined(p: Seq<Seq<char>>, sep: char) -> Seq<char>
    decreases p.len(),
{
    if p.len() == 0 {
        Seq::empty()
    } else if p.len() == 1 {
        p[0]
    } else {
        joined(p.drop_last(), sep).push(sep) + p.last()
    }
}

/// A text is its pieces with the separator between them, and no piece holds it.
pub proof fn law_pieces_join_to_the_text(s: Seq<char>, sep: char)
    ensures
        pieces(s, sep).len() > 0,
        joined(pieces(s, sep), sep) =~= s,
        forall|i: int, x: int|
            0 <= i < pieces(s, sep).len() && 0 <= x < pieces(s, sep)[i].len() ==> (
            #[trigger] pieces(s, sep)[i][x]) != sep,
    decreases s.len(),
{
    if s.len() > 0 {
        let d = s.drop_last();
        let before = pieces(d, sep);
        law_pieces_join_to_the_text(d, sep);
        if s.last() == sep {
            let after = before.push(Seq::empty());
            assert(after.drop_last() =~= before);
            assert(joined(after, sep) =~= joined(before, sep).push(sep) + after.last());
            assert(after.last() =~= Seq::empty());
        } else {
            let n = before.len() as int;
            let after = before.update(n - 1, before.last().push(s.last()));
            if n > 1 {
                assert(after.drop_last() =~= before.drop_last());
            }
            assert(joined(after, sep) =~= joined(before, sep).push(s.last()));
        }
    }
}

/// A word ends where white space begins: it adds nothing to the words, and what
/// follows it without any is the next one.
pub proof fn law_words_are_split_by_white_space(s: Seq<char>, c: char, w: Seq<char>)
    requires
        is_space(c),
        w.len() > 0,
        forall|i: int| 0 <= i < w.len() ==> !is_space(#[trigger] w[i]),
    ensures
        words(Seq::empty()) =~= Seq::<Seq<char>>::empty(),
        words(s.push(c)) =~= words(s),
        words(w) =~= seq![w],
        words(s.push(c) + w) =~= words(s).push(w),
{
    lemma_words_space(s, c);
    lemma_words_append(s.push(c), w);
    lemma_words_append(Seq::empty(), w);
    assert(Seq::<char>::empty() + w =~= w);
}

/// A number is taken where it is one and does not exceed the largest allowed.
pub proof fn law_numbers_within_a_bound(s: Seq<char>, max: nat)
    ensures
        decimal_within(s, max) is Some <==> (decimal(s) matches Some(n) && n <= max),
        decimal_within(s, max) is Some ==> decimal_within(s, max) == decimal(s),
{
}

/// A numbered name is the text before, the padded number and the text behind.
pub proof fn law_numbered_names(prefix: Seq<char>, n: nat, width: nat, suffix: Seq<char>)
    ensures
        prefix.is_prefix_of(numbered_text(prefix, n, width, suffix)),
        suffix.is_suffix_of(numbered_text(prefix, n, width, suffix)),
        numbered_text(prefix, n, width, suffix).len() == prefix.len() + padded_text(n, width).len()
            + suffix.len(),
        numbered_text(prefix, n, width, suffix).subrange(
            prefix.len() as int,
            (prefix.len() + padded_text(n, width).len()) as int,
        ) =~= padded_text(n, width),
{
    let t = numbered_text(prefix, n, width, suffix);
    assert(t.subrange(0, prefix.len() as int) =~= prefix);
    assert(t.subrange(t.len() - suffix.len(), t.len() as int) =~= suffix);
}

/// A text holds another where it is a beginning, that other text and an end.
pub proof fn law_held_text_stands_inside(a: Seq<char>, needle: Seq<char>, b: Seq<char>)
    ensures
        holds_text(a + needle + b, needle),
        needle.len() > a.len() ==> !holds_text(a, needle),
{
    assert(stands_at(a + needle + b, needle, a.len() as int));
}

/// A setting switches on what it is for unless it is absent, empty or one of the words
/// for off.
pub proof fn law_words_that_switch_off(setting: Option<&str>)
    ensures
        setting is None ==> !switched_on(setting) && stays_on(setting),
        setting matches Some(s) && (s@.len() == 0 || s@ == "0"@ || s@ == "false"@ || s@ == "no"@
            || s@ == "off"@) ==> !switched_on(setting),
        setting matches Some(s) && s@.len() > 0 && s@ != "0"@ && s@ != "false"@ && s@ != "no"@
            && s@ != "off"@ ==> switched_on(setting),
        setting matches Some(s) && (trimmed(s@) == "0"@ || trimmed(s@) == "false"@ || trimmed(s@)
            == "no"@ || trimmed(s@) == "off"@) ==> !stays_on(setting),
{
    if setting is Some && setting->0@.len() == 0 {
        assert(setting->0@ =~= Seq::<char>::empty());
    }
}

/// Lines end at line feeds, and a carriage return right before one belongs to the ending.
pub proof fn law_line_endings(s: Seq<char>, i: int)
    requires
        0 <= i < pieces(s, '\n').len(),
    ensures
        line_pieces(s).len() == pieces(s, '\n').len(),
        ({
            let p = pieces(s, '\n')[i];
            let ended = i + 1 < pieces(s, '\n').len();
            &&& ended && p.len() > 0 && p.last() == '\r' ==> line_pieces(s)[i].push('\r') =~= p
            &&& !ended || p.len() == 0 || p.last() != '\r' ==> line_pieces(s)[i] == p
        }),
{
}

/// The numbers of a list are those of its pieces that are numbers, in their order.
pub proof fn law_numbers_of_a_list(p: Seq<Seq<char>>, x: Seq<char>, max: nat)
    ensures
        numbers_among(Seq::empty(), max) =~= Seq::<nat>::empty(),
        decimal(trimmed(x)) matches Some(n) && n <= max ==> numbers_among(p.push(x), max)
            =~= numbers_among(p, max).push(decimal(trimmed(x))->0),
        !(decimal(trimmed(x)) matches Some(n) && n <= max) ==> numbers_among(p.push(x), max)
            =~= numbers_among(p, max),
{
    assert(p.push(x).drop_last() =~= p);
}

/// A text is lowered character by character.
pub proof fn law_texts_are_lowered_by_character(s: Seq<char>, i: int)
    requires
        0 <= i < s.len(),
    ensures
        lower_text(s).len() == s.len(),
        65 <= s[i] as u32 <= 90 ==> lower_text(s)[i] as u32 == s[i] as u32 + 32,
        !(65 <= s[i] as u32 <= 90) ==> lower_text(s)[i] == s[i],
{
    law_only_capitals_are_lowered(s[i]);
}

/// White space beyond the first 128 characters: the next line, the blanks of the other
/// blocks, and the line and paragraph separators.
pub proof fn law_other_white_space(c: char)
    requires
        c as u32 > 0x7f,
    ensures
        is_space(c) ==> c as u32 == 0x85 || c as u32 == 0xa0 || c as u32 == 0x1680 || 0x2000
            <= c as u32 <= 0x200a || c as u32 == 0x2028 || c as u32 == 0x2029 || c as u32 == 0x202f
            || c as u32 == 0x205f || c as u32 == 0x3000,
        c as u32 == 0x85 || c as u32 == 0xa0 || c as u32 == 0x2028 || c as u32 == 0x2029
            || c as u32 == 0x3000 ==> is_space(c),
        0x2000 <= c as u32 <= 0x200a || c as u32 == 0x1680 || c as u32 == 0x202f || c as u32
            == 0x205f ==> is_space(c),
{
}

} // verus!
