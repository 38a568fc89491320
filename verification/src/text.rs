//! Text as sequences of characters: trimming, ASCII case, splitting, lines and
//! small numbers.
use vstd::prelude::*;
use vstd::slice::slice_subrange;

verus! {

/// `String::push`: appends one character to the end of the string.
pub assume_specification[ String::push ](s: &mut String, c: char)
    ensures
        final(s)@ == old(s)@.push(c),
;

/// The characters of `s`, in order.
pub fn chars_of(s: &str) -> (chars: Vec<char>)
    ensures
        chars@ == s@,
{
    let mut chars: Vec<char> = Vec::new();
    for c in it: s.chars()
        invariant
            chars@ == it.seq().take(it.index() as int),
            it.seq() == s@,
    {
        chars.push(c);
    }
    chars
}

/// Appends `chars` to `s`.
pub fn push_chars(s: &mut String, chars: &[char])
    ensures
        final(s)@ == old(s)@ + chars@,
{
    let ghost before = s@;
    for i in 0..chars.len()
        invariant
            s@ == before + chars@.take(i as int),
    {
        s.push(chars[i]);
    }
}

/// The string made of `chars`.
pub fn string_of(chars: &[char]) -> (s: String)
    ensures
        s@ == chars@,
{
    let mut s = String::new();
    push_chars(&mut s, chars);
    s
}

/// A copy of `chars`.
pub fn copy_chars(chars: &[char]) -> (copy: Vec<char>)
    ensures
        copy@ == chars@,
{
    let mut copy: Vec<char> = Vec::new();
    for i in 0..chars.len()
        invariant
            copy@ == chars@.take(i as int),
    {
        copy.push(chars[i]);
    }
    copy
}

/// Whether two texts are the same, character by character.
pub fn same_text(a: &[char], b: &[char]) -> (same: bool)
    ensures
        same == (a@ == b@),
{
    if a.len() != b.len() {
        return false;
    }
    for i in 0..a.len()
        invariant
            a.len() == b.len(),
            a@.take(i as int) == b@.take(i as int),
    {
        if a[i] != b[i] {
            assert(a@[i as int] != b@[i as int]);
            return false;
        }
        assert(a@.take(i + 1) == a@.take(i as int).push(a@[i as int]));
        assert(b@.take(i + 1) == b@.take(i as int).push(b@[i as int]));
    }
    assert(a@ == a@.take(a@.len() as int));
    assert(b@ == b@.take(b@.len() as int));
    true
}

/// Whether `chars` spells the literal `word`.
pub fn spells(chars: &[char], word: &str) -> (same: bool)
    ensures
        same == (chars@ == word@),
{
    let letters = chars_of(word);
    same_text(chars, letters.as_slice())
}

// --- ASCII case ---

/// `c` with an ASCII capital letter replaced by its small letter.
pub open spec fn lower_char(c: char) -> char {
    if 'A' <= c <= 'Z' {
        (c as u32 + 32) as char
    } else {
        c
    }
}

/// `s` with every ASCII capital letter replaced by its small letter.
pub open spec fn lower(s: Seq<char>) -> Seq<char> {
    s.map_values(|c: char| lower_char(c))
}

pub fn lower_char_of(c: char) -> (l: char)
    ensures
        l == lower_char(c),
{
    if 'A' <= c && c <= 'Z' {
        let b: u8 = c as u8;
        (b + 32) as char
    } else {
        c
    }
}

pub fn lower_chars(chars: &[char]) -> (out: Vec<char>)
    ensures
        out@ == lower(chars@),
{
    let mut out: Vec<char> = Vec::new();
    for i in 0..chars.len()
        invariant
            out@ == lower(chars@).take(i as int),
    {
        out.push(lower_char_of(chars[i]));
    }
    out
}

// --- Trimming ---

/// Whether `c` has the Unicode property `White_Space`.
pub open spec fn is_white_space(c: char) -> bool {
    let n = c as u32;
    ||| 0x09 <= n <= 0x0d
    ||| n == 0x20
    ||| n == 0x85
    ||| n == 0xa0
    ||| n == 0x1680
    ||| 0x2000 <= n <= 0x200a
    ||| n == 0x2028
    ||| n == 0x2029
    ||| n == 0x202f
    ||| n == 0x205f
    ||| n == 0x3000
}

pub fn white_space(c: char) -> (w: bool)
    ensures
        w == is_white_space(c),
{
    let n: u32 = c as u32;
    (0x09 <= n && n <= 0x0d) || n == 0x20 || n == 0x85 || n == 0xa0 || n == 0x1680 || (0x2000 <= n
        && n <= 0x200a) || n == 0x2028 || n == 0x2029 || n == 0x202f || n == 0x205f || n == 0x3000
}

/// `s` without the white space at its start.
pub open spec fn trim_start(s: Seq<char>) -> Seq<char>
    decreases s.len(),
{
    if s.len() > 0 && is_white_space(s[0]) {
        trim_start(s.skip(1))
    } else {
        s
    }
}

/// `s` without the white space at its end.
pub open spec fn trim_end(s: Seq<char>) -> Seq<char>
    decreases s.len(),
{
    if s.len() > 0 && is_white_space(s.last()) {
        trim_end(s.drop_last())
    } else {
        s
    }
}

/// `s` without the white space at both ends.
pub open spec fn trim(s: Seq<char>) -> Seq<char> {
    trim_end(trim_start(s))
}

/// `s` without the dots at its end.
pub open spec fn trim_end_dots(s: Seq<char>) -> Seq<char>
    decreases s.len(),
{
    if s.len() > 0 && s.last() == '.' {
        trim_end_dots(s.drop_last())
    } else {
        s
    }
}

/// `s` without the dots at its start.
pub open spec fn trim_start_dots(s: Seq<char>) -> Seq<char>
    decreases s.len(),
{
    if s.len() > 0 && s[0] == '.' {
        trim_start_dots(s.skip(1))
    } else {
        s
    }
}

pub fn trim_chars(chars: &[char]) -> (out: &[char])
    ensures
        out@ == trim(chars@),
{
    let mut rest = chars;
    while rest.len() > 0 && white_space(rest[0])
        invariant
            trim_start(rest@) == trim_start(chars@),
        decreases rest@.len(),
    {
        let ghost before = rest@;
        rest = slice_subrange(rest, 1, rest.len());
        assert(rest@ == before.skip(1));
    }
    let ghost started = rest@;
    while rest.len() > 0 && white_space(rest[rest.len() - 1])
        invariant
            trim_end(rest@) == trim_end(started),
        decreases rest@.len(),
    {
        let ghost before = rest@;
        rest = slice_subrange(rest, 0, rest.len() - 1);
        assert(rest@ == before.drop_last());
    }
    rest
}

pub fn trim_end_dots_chars(chars: &[char]) -> (out: &[char])
    ensures
        out@ == trim_end_dots(chars@),
{
    let mut rest = chars;
    while rest.len() > 0 && rest[rest.len() - 1] == '.'
        invariant
            trim_end_dots(rest@) == trim_end_dots(chars@),
        decreases rest@.len(),
    {
        let ghost before = rest@;
        rest = slice_subrange(rest, 0, rest.len() - 1);
        assert(rest@ == before.drop_last());
    }
    rest
}

pub fn trim_start_dots_chars(chars: &[char]) -> (out: &[char])
    ensures
        out@ == trim_start_dots(chars@),
{
    let mut rest = chars;
    while rest.len() > 0 && rest[0] == '.'
        invariant
            trim_start_dots(rest@) == trim_start_dots(chars@),
        decreases rest@.len(),
    {
        let ghost before = rest@;
        rest = slice_subrange(rest, 1, rest.len());
        assert(rest@ == before.skip(1));
    }
    rest
}

// --- Splitting ---

/// The index of the first `c` in `s`, or the length of `s` where there is none.
pub open spec fn find(s: Seq<char>, c: char) -> nat
    decreases s.len(),
{
    if s.len() == 0 || s[0] == c {
        0
    } else {
        1 + find(s.skip(1), c)
    }
}

/// What `find` finds: no `c` before it, and a `c` at it unless it is the end.
pub proof fn lemma_find(s: Seq<char>, c: char)
    ensures
        find(s, c) <= s.len(),
        find(s, c) < s.len() ==> s[find(s, c) as int] == c,
        forall|i: int| 0 <= i < find(s, c) ==> s[i] != c,
    decreases s.len(),
{
    if s.len() > 0 && s[0] != c {
        lemma_find(s.skip(1), c);
        assert forall|i: int| 0 <= i < find(s, c) implies s[i] != c by {
            if i > 0 {
                assert(s[i] == s.skip(1)[i - 1]);
            }
        }
    }
}

/// The only index with the two properties of `lemma_find`.
pub proof fn lemma_find_is(s: Seq<char>, c: char, n: nat)
    requires
        n <= s.len(),
        n < s.len() ==> s[n as int] == c,
        forall|i: int| 0 <= i < n ==> s[i] != c,
    ensures
        find(s, c) == n,
{
    lemma_find(s, c);
    let f = find(s, c);
    if f < n {
        assert(s[f as int] != c);
    } else if n < f {
        assert(s[n as int] != c);
    }
}

/// `s` cut at its first `c`: what stands before it and what stands after it.
pub open spec fn split_once(s: Seq<char>, c: char) -> Option<(Seq<char>, Seq<char>)> {
    let n = find(s, c) as int;
    if n < s.len() {
        Some((s.take(n), s.skip(n + 1)))
    } else {
        None
    }
}

/// The views of both halves of a cut.
pub open spec fn pair_view(pair: Option<(&[char], &[char])>) -> Option<(Seq<char>, Seq<char>)> {
    match pair {
        Some((a, b)) => Some((a@, b@)),
        None => None,
    }
}

pub fn find_char(chars: &[char], c: char) -> (n: usize)
    ensures
        n == find(chars@, c),
        n <= chars@.len(),
{
    let mut n: usize = 0;
    while n < chars.len() && chars[n] != c
        invariant
            n <= chars.len(),
            forall|i: int| 0 <= i < n ==> chars@[i] != c,
        decreases chars.len() - n,
    {
        n += 1;
    }
    proof {
        lemma_find_is(chars@, c, n as nat);
    }
    n
}

pub fn split_once_chars(chars: &[char], c: char) -> (pair: Option<(&[char], &[char])>)
    ensures
        pair_view(pair) == split_once(chars@, c),
{
    let n = find_char(chars, c);
    if n < chars.len() {
        Some((slice_subrange(chars, 0, n), slice_subrange(chars, n + 1, chars.len())))
    } else {
        None
    }
}

/// The lines of `s`: the texts between its line feeds.
pub open spec fn lines(s: Seq<char>) -> Seq<Seq<char>>
    decreases s.len(),
{
    let n = find(s, '\n') as int;
    if n < s.len() {
        seq![s.take(n)] + lines(s.skip(n + 1))
    } else {
        seq![s]
    }
}

/// The views of some texts.
pub open spec fn views(texts: Seq<&[char]>) -> Seq<Seq<char>> {
    texts.map_values(|t: &[char]| t@)
}

pub fn lines_of(chars: &[char]) -> (out: Vec<&[char]>)
    ensures
        views(out@) == lines(chars@),
{
    let mut out: Vec<&[char]> = Vec::new();
    let mut rest = chars;
    assert(views(out@) + lines(rest@) == lines(chars@));
    loop
        invariant
            views(out@) + lines(rest@) == lines(chars@),
        decreases rest@.len(),
    {
        let n = find_char(rest, '\n');
        let ghost before = rest@;
        let ghost done = out@;
        let line = slice_subrange(rest, 0, n);
        out.push(line);
        assert(line@ == before.take(n as int));
        assert(views(out@) == views(done).push(line@));
        if n >= rest.len() {
            assert(line@ == before);
            assert(views(done) + seq![before] == views(out@));
            return out;
        }
        rest = slice_subrange(rest, n + 1, rest.len());
        assert(rest@ == before.skip(n + 1));
        assert(views(done) + (seq![line@] + lines(rest@)) == views(out@) + lines(rest@));
    }
}

/// `line` without its comment, which a number sign starts, and the white space
/// around it.
pub open spec fn line_text(line: Seq<char>) -> Seq<char> {
    match split_once(line, '#') {
        Some((text, _)) => trim(text),
        None => trim(line),
    }
}

/// `line` without its comment and the white space around it.
pub fn line_chars(line: &[char]) -> (out: &[char])
    ensures
        out@ == line_text(line@),
{
    match split_once_chars(line, '#') {
        Some((text, _)) => trim_chars(text),
        None => trim_chars(line),
    }
}

/// What stands behind a number sign does not change what a line says.
pub proof fn law_comment_does_not_matter(line: Seq<char>, comment: Seq<char>)
    ensures
        line_text(line.push('#') + comment) == line_text(line),
{
    let whole = line.push('#') + comment;
    let n = find(line, '#');
    lemma_find(line, '#');
    assert forall|i: int| 0 <= i < n implies whole[i] != '#' by {
        assert(whole[i] == line[i]);
    }
    assert(whole[n as int] == '#');
    lemma_find_is(whole, '#', n);
    assert(whole.take(n as int) == line.take(n as int));
    if n == line.len() {
        assert(line.take(n as int) == line);
    }
}

/// Whether `needle` stands somewhere in `hay`.
pub open spec fn contains_text(hay: Seq<char>, needle: Seq<char>) -> bool {
    exists|i: int|
        0 <= i && i + needle.len() <= hay.len() && #[trigger] hay.subrange(i, i + needle.len())
            == needle
}

pub fn contains_chars(hay: &[char], needle: &[char]) -> (found: bool)
    ensures
        found == contains_text(hay@, needle@),
{
    if needle.len() > hay.len() {
        return false;
    }
    let last: usize = hay.len() - needle.len();
    let mut i: usize = 0;
    while i <= last
        invariant
            last == hay.len() - needle.len(),
            i <= last + 1,
            forall|j: int| 0 <= j < i ==> #[trigger] hay@.subrange(j, j + needle@.len()) != needle@,
        decreases last + 1 - i,
    {
        if same_text(slice_subrange(hay, i, i + needle.len()), needle) {
            return true;
        }
        if i == last {
            return false;
        }
        i += 1;
    }
    false
}

// --- Numbers ---

/// The decimal digit `d`.
pub open spec fn digit_char(d: nat) -> char {
    ('0' as u32 + d) as char
}

/// `n` in decimal, without leading zeros.
pub open spec fn decimal(n: nat) -> Seq<char>
    decreases n,
{
    if n < 10 {
        seq![digit_char(n)]
    } else {
        decimal(n / 10).push(digit_char(n % 10))
    }
}

/// Appends `n` in decimal to `s`.
pub fn push_decimal(s: &mut String, n: usize)
    ensures
        final(s)@ == old(s)@ + decimal(n as nat),
    decreases n,
{
    let ghost before = s@;
    if n >= 10 {
        push_decimal(s, n / 10);
    }
    let d: u8 = (n % 10) as u8;
    s.push((48 + d) as char);
    assert(s@ == before + decimal(n as nat));
}

/// The small hexadecimal digit `d`.
pub open spec fn hex_char(d: nat) -> char {
    if d < 10 {
        ('0' as u32 + d) as char
    } else {
        ('a' as u32 + d - 10) as char
    }
}

/// `b` as two small hexadecimal digits.
pub open spec fn hex_byte(b: u8) -> Seq<char> {
    seq![hex_char((b / 16) as nat), hex_char((b % 16) as nat)]
}

fn push_hex_digit(s: &mut String, d: u8)
    requires
        d < 16,
    ensures
        final(s)@ == old(s)@.push(hex_char(d as nat)),
{
    if d < 10 {
        s.push((48 + d) as char);
    } else {
        s.push((97 + (d - 10)) as char);
    }
}

/// Appends `b` as two hexadecimal digits to `s`.
pub fn push_hex_byte(s: &mut String, b: u8)
    ensures
        final(s)@ == old(s)@ + hex_byte(b),
{
    let ghost before = s@;
    push_hex_digit(s, b / 16);
    push_hex_digit(s, b % 16);
    assert(s@ == before + hex_byte(b));
}

/// Whether `s` holds decimal digits only.
pub open spec fn all_digits(s: Seq<char>) -> bool {
    forall|i: int| 0 <= i < s.len() ==> '0' <= #[trigger] s[i] <= '9'
}

/// The number that the digits `s` denote.
pub open spec fn digits_value(s: Seq<char>) -> int
    decreases s.len(),
{
    if s.len() == 0 {
        0
    } else {
        digits_value(s.drop_last()) * 10 + (s.last() as u32 - '0' as u32)
    }
}

/// The number that `s` denotes where it is decimal digits, after a plus sign
/// or none, and its value fits a `u8`.
pub open spec fn u8_text(s: Seq<char>) -> Option<u8> {
    let d = if s.len() > 0 && s[0] == '+' {
        s.skip(1)
    } else {
        s
    };
    if d.len() > 0 && all_digits(d) && digits_value(d) <= 255 {
        Some(digits_value(d) as u8)
    } else {
        None
    }
}

/// More digits never denote a smaller number.
proof fn lemma_digits_grow(s: Seq<char>, n: int)
    requires
        0 <= n <= s.len(),
        all_digits(s),
    ensures
        0 <= digits_value(s.take(n)) <= digits_value(s),
    decreases s.len(),
{
    if n == s.len() {
        assert(s.take(n) == s);
        if n > 0 {
            lemma_digits_grow(s.drop_last(), n - 1);
            assert('0' <= s[n - 1] <= '9');
        }
    } else {
        lemma_digits_grow(s.drop_last(), n);
        assert(s.drop_last().take(n) == s.take(n));
        assert('0' <= s[s.len() - 1] <= '9');
    }
}

pub fn parse_u8(chars: &[char]) -> (n: Option<u8>)
    ensures
        n == u8_text(chars@),
{
    let digits = if chars.len() > 0 && chars[0] == '+' {
        slice_subrange(chars, 1, chars.len())
    } else {
        chars
    };
    assert(digits@ == if chars@.len() > 0 && chars@[0] == '+' {
        chars@.skip(1)
    } else {
        chars@
    });
    if digits.len() == 0 {
        return None;
    }
    let mut value: u32 = 0;
    for i in 0..digits.len()
        invariant
            value <= 255,
            digits@.len() > 0,
            digits@ == if chars@.len() > 0 && chars@[0] == '+' {
                chars@.skip(1)
            } else {
                chars@
            },
            value == digits_value(digits@.take(i as int)),
            forall|j: int| 0 <= j < i ==> '0' <= #[trigger] digits@[j] <= '9',
    {
        let c: char = digits[i];
        if c < '0' || '9' < c {
            assert(!all_digits(digits@));
            return None;
        }
        assert(digits@.take(i + 1).drop_last() == digits@.take(i as int));
        value = value * 10 + (c as u32 - '0' as u32);
        if value > 255 {
            proof {
                if all_digits(digits@) {
                    lemma_digits_grow(digits@, i + 1);
                }
            }
            return None;
        }
    }
    assert(digits@.take(digits@.len() as int) == digits@);
    Some(value as u8)
}

// --- Laws ---

/// Capital letters become small, every other character stays, and none is lost.
pub proof fn law_capitals_become_small(s: Seq<char>)
    ensures
        lower(s).len() == s.len(),
        forall|i: int|
            #![trigger lower(s)[i]]
            0 <= i < s.len() ==> lower(s)[i] as int == if 65 <= s[i] as int <= 90 {
                s[i] as int + 32
            } else {
                s[i] as int
            },
{
}

/// Whether `s` is white space only.
pub open spec fn blank(s: Seq<char>) -> bool {
    forall|i: int| 0 <= i < s.len() ==> is_white_space(#[trigger] s[i])
}

/// Whether `s` is empty or has white space at neither end.
pub open spec fn tight(s: Seq<char>) -> bool {
    s.len() > 0 ==> !is_white_space(s[0]) && !is_white_space(s.last())
}

proof fn lemma_trim_start_blank(before: Seq<char>, rest: Seq<char>)
    requires
        blank(before),
    ensures
        trim_start(before + rest) == trim_start(rest),
    decreases before.len(),
{
    let whole = before + rest;
    if before.len() == 0 {
        assert(whole == rest);
    } else {
        assert(whole[0] == before[0]);
        assert(whole.skip(1) == before.skip(1) + rest);
        assert(blank(before.skip(1))) by {
            assert forall|i: int| 0 <= i < before.skip(1).len() implies is_white_space(
                #[trigger] before.skip(1)[i],
            ) by {
                assert(before.skip(1)[i] == before[i + 1]);
            }
        }
        lemma_trim_start_blank(before.skip(1), rest);
    }
}

proof fn lemma_trim_end_blank(rest: Seq<char>, after: Seq<char>)
    requires
        blank(after),
    ensures
        trim_end(rest + after) == trim_end(rest),
    decreases after.len(),
{
    let whole = rest + after;
    if after.len() == 0 {
        assert(whole == rest);
    } else {
        assert(whole.last() == after[after.len() - 1]);
        assert(whole.drop_last() == rest + after.drop_last());
        lemma_trim_end_blank(rest, after.drop_last());
    }
}

/// Trimming takes the white space at both ends away and nothing else.
pub proof fn law_trim(before: Seq<char>, core: Seq<char>, after: Seq<char>)
    requires
        blank(before),
        blank(after),
        tight(core),
    ensures
        trim(before + core + after) == core,
{
    assert(before + core + after == before + (core + after));
    lemma_trim_start_blank(before, core + after);
    if core.len() > 0 {
        assert((core + after)[0] == core[0]);
        lemma_trim_end_blank(core, after);
    } else {
        assert(core + after == after + core);
        lemma_trim_start_blank(after, core);
        assert(trim_start(core) == core);
    }
}

/// Whether `s` is dots only.
pub open spec fn dots_only(s: Seq<char>) -> bool {
    forall|i: int| 0 <= i < s.len() ==> #[trigger] s[i] == '.'
}

/// The dots at the end are taken away, and nothing else.
pub proof fn law_trim_end_dots(core: Seq<char>, dots: Seq<char>)
    requires
        dots_only(dots),
        core.len() > 0 ==> core.last() != '.',
    ensures
        trim_end_dots(core + dots) == core,
    decreases dots.len(),
{
    let whole = core + dots;
    if dots.len() == 0 {
        assert(whole == core);
    } else {
        assert(whole.last() == dots[dots.len() - 1]);
        assert(whole.drop_last() == core + dots.drop_last());
        law_trim_end_dots(core, dots.drop_last());
    }
}

/// The dots at the start are taken away, and nothing else.
pub proof fn law_trim_start_dots(dots: Seq<char>, core: Seq<char>)
    requires
        dots_only(dots),
        core.len() > 0 ==> core[0] != '.',
    ensures
        trim_start_dots(dots + core) == core,
    decreases dots.len(),
{
    let whole = dots + core;
    if dots.len() == 0 {
        assert(whole == core);
    } else {
        assert(whole[0] == dots[0]);
        assert(whole.skip(1) == dots.skip(1) + core);
        assert(dots_only(dots.skip(1))) by {
            assert forall|i: int| 0 <= i < dots.skip(1).len() implies #[trigger] dots.skip(1)[i]
                == '.' by {
                assert(dots.skip(1)[i] == dots[i + 1]);
            }
        }
        law_trim_start_dots(dots.skip(1), core);
    }
}

/// A text is cut at the first of the characters, which is lost, and nothing else
/// is; where there is none it is not cut.
pub proof fn law_split_once(before: Seq<char>, c: char, after: Seq<char>)
    requires
        !before.contains(c),
    ensures
        split_once(before.push(c) + after, c) == Some((before, after)),
        split_once(before, c) is None,
{
    let whole = before.push(c) + after;
    let n = before.len();
    assert forall|i: int| 0 <= i < n implies before[i] != c by {
        assert(before.contains(before[i]));
    }
    assert forall|i: int| 0 <= i < n implies whole[i] != c by {
        assert(whole[i] == before[i]);
    }
    assert(whole[n as int] == c);
    lemma_find_is(whole, c, n);
    lemma_find_is(before, c, n);
    assert(whole.take(n as int) == before);
    assert(whole.skip(n as int + 1) == after);
}

/// A line ends at the first line feed, and the next one begins behind it; the
/// last line ends with the text.
pub proof fn law_lines(first: Seq<char>, rest: Seq<char>)
    requires
        !first.contains('\n'),
    ensures
        lines(first.push('\n') + rest) == seq![first] + lines(rest),
        lines(first) == seq![first],
{
    law_split_once(first, '\n', rest);
    let whole = first.push('\n') + rest;
    lemma_find(whole, '\n');
    lemma_find(first, '\n');
}

/// What a line says is what stands between white space before the first number
/// sign, whatever stands behind that.
pub proof fn law_line_text(
    before: Seq<char>,
    core: Seq<char>,
    after: Seq<char>,
    comment: Seq<char>,
)
    requires
        blank(before),
        blank(after),
        tight(core),
        !core.contains('#'),
    ensures
        line_text(before + core + after) == core,
        line_text((before + core + after).push('#') + comment) == core,
{
    let line = before + core + after;
    assert(!line.contains('#')) by {
        if line.contains('#') {
            let i = choose|i: int| 0 <= i < line.len() && line[i] == '#';
            if i < before.len() {
                assert(is_white_space(before[i]));
            } else if i < before.len() + core.len() {
                assert(core[i - before.len()] == '#');
            } else {
                assert(is_white_space(after[i - before.len() - core.len()]));
            }
        }
    }
    law_split_once(line, '#', comment);
    law_trim(before, core, after);
}

/// A number below ten is written as its digit; any other number is written as
/// its tenth, then its last digit.
pub proof fn law_decimal(n: nat, d: nat)
    requires
        d < 10,
    ensures
        decimal(d).len() == 1,
        decimal(d)[0] as int == 48 + d,
        n > 0 ==> decimal(10 * n + d) == decimal(n) + decimal(d),
{
    if n > 0 {
        assert((10 * n + d) / 10 == n && (10 * n + d) % 10 == d);
        assert(decimal(n).push(digit_char(d)) == decimal(n) + decimal(d));
    }
}

/// A byte is written as two hexadecimal digits in small letters, the higher one
/// first.
pub proof fn law_hex_byte(b: u8)
    ensures
        ({
            let s = hex_byte(b);
            let value = |c: char|
                if 48 <= c as int <= 57 {
                    c as int - 48
                } else {
                    c as int - 87
                };
            &&& s.len() == 2
            &&& 48 <= s[0] as int <= 57 || 97 <= s[0] as int <= 102
            &&& 48 <= s[1] as int <= 57 || 97 <= s[1] as int <= 102
            &&& 16 * value(s[0]) + value(s[1]) == b
        }),
{
}

/// One more digit makes a number ten times as large and adds the digit, as long
/// as it fits; a number that does not fit never fits again.
pub proof fn law_u8_digits(s: Seq<char>, c: char)
    requires
        s.len() > 0,
        forall|i: int| 0 <= i < s.len() ==> 48 <= #[trigger] s[i] as int <= 57,
        48 <= c as int <= 57,
    ensures
        u8_text(seq![c]) == Some((c as int - 48) as u8),
        u8_text(s.push(c)) == match u8_text(s) {
            Some(n) => if 10 * n + (c as int - 48) <= 255 {
                Some((10 * n + (c as int - 48)) as u8)
            } else {
                None
            },
            None => None,
        },
{
    let one = seq![c];
    assert(all_digits(one));
    assert(one.drop_last().len() == 0);
    assert(digits_value(one.drop_last()) == 0);
    let more = s.push(c);
    assert(all_digits(s));
    assert(s[0] as int != 43);
    assert(more[0] == s[0]);
    assert(all_digits(more)) by {
        assert forall|i: int| 0 <= i < more.len() implies '0' <= #[trigger] more[i] <= '9' by {
            if i < s.len() {
                assert(more[i] == s[i]);
            }
        }
    }
    assert(more.drop_last() == s);
    lemma_digits_grow(s, 0);
}

/// A plus sign may stand before the digits.
pub proof fn law_u8_plus(s: Seq<char>)
    requires
        s.len() > 0 ==> s[0] != '+',
    ensures
        u8_text(seq!['+'] + s) == u8_text(s),
{
    assert((seq!['+'] + s).skip(1) == s);
}

/// A text without digits, or with anything else in it, is no number.
pub proof fn law_u8_digits_only(s: Seq<char>, i: int)
    requires
        0 < i < s.len() || (i == 0 && s.len() > 0 && s[0] != '+'),
        !(48 <= s[i] as int <= 57),
    ensures
        u8_text(s) is None,
        u8_text(Seq::empty()) is None,
{
    if s[0] == '+' {
        assert(s.skip(1)[i - 1] == s[i]);
        assert(!all_digits(s.skip(1)));
    } else {
        assert(!all_digits(s));
    }
}

proof fn lemma_u8_of_decimal_fits(n: nat)
    ensures
        decimal(n).len() > 0,
        all_digits(decimal(n)),
        digits_value(decimal(n)) == n,
    decreases n,
{
    let s = decimal(n);
    if n < 10 {
        assert(s.drop_last().len() == 0);
        assert(digits_value(s.drop_last()) == 0);
    } else {
        lemma_u8_of_decimal_fits(n / 10);
        assert(s.drop_last() == decimal(n / 10));
        assert forall|i: int| 0 <= i < s.len() implies '0' <= #[trigger] s[i] <= '9' by {
            if i < s.len() - 1 {
                assert(s[i] == decimal(n / 10)[i]);
            }
        }
    }
}

/// A number that was written is read as itself where it fits, and not at all
/// where it does not.
pub proof fn law_u8_of_decimal(n: nat)
    ensures
        u8_text(decimal(n)) == if n <= 255 {
            Some(n as u8)
        } else {
            None
        },
        forall|i: int|
            0 <= i < decimal(n).len() ==> 48 <= #[trigger] decimal(n)[i] as int <= 57,
        decimal(n).len() > 0,
{
    lemma_u8_of_decimal_fits(n);
    assert(decimal(n)[0] as int != 43);
}

} // verus!
