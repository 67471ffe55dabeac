//! Text: strings as sequences of characters, and byte strings.

use vstd::prelude::*;

verus! {

// ---------------------------------------------------------------------------
// Strings and characters
// ---------------------------------------------------------------------------

/// The characters of `s`, in order.
pub fn chars_of(s: &str) -> (out: Vec<char>)
    ensures
        out@ == s@,
{
    let mut out: Vec<char> = Vec::new();
    for c in it: s.chars()
        invariant
            out@ == it.seq().take(it.index()),
            it.seq() == s@,
    {
        out.push(c);
    }
    assert(s@.take(s@.len() as int) =~= s@);
    out
}

/// `String::push`: appends one character to the end of the string.
#[verifier::external_body]
pub(crate) fn push_char(s: &mut String, c: char)
    ensures
        final(s)@ == old(s)@.push(c),
{
    s.push(c)
}

/// An ASCII capital in lower case; any other character as it is.
pub open spec fn ascii_lower(c: char) -> char {
    if 'A' <= c && c <= 'Z' {
        ((c as u8 + 32) as u8) as char
    } else {
        c
    }
}

pub fn lower_char(c: char) -> (r: char)
    ensures
        r == ascii_lower(c),
{
    if 'A' <= c && c <= 'Z' {
        ((c as u8) + 32) as char
    } else {
        c
    }
}

/// A text with its ASCII capitals in lower case.
pub open spec fn lowered(s: Seq<char>) -> Seq<char> {
    s.map_values(|c: char| ascii_lower(c))
}

/// `s` with its ASCII capitals in lower case.
pub fn lower(s: &str) -> (out: String)
    ensures
        out@ == lowered(s@),
{
    let chars = chars_of(s);
    let mut out = String::new();
    let mut i: usize = 0;
    while i < chars.len()
        invariant
            i <= chars.len(),
            chars@ == s@,
            out@ == lowered(s@).take(i as int),
        decreases chars.len() - i,
    {
        push_char(&mut out, lower_char(chars[i]));
        i = i + 1;
        assert(lowered(s@).take(i as int) =~= lowered(s@).take(i - 1).push(lowered(s@)[i - 1]));
    }
    assert(lowered(s@).take(i as int) =~= lowered(s@));
    out
}

/// What `str::to_lowercase` makes of a text.
pub uninterp spec fn lowercased(s: Seq<char>) -> Seq<char>;

/// `str::to_lowercase`: the lower-case form of a text, by the text alone. Of a
/// text that is all ASCII it is the same text with its capitals lowered.
#[verifier::external_body]
pub(crate) fn to_lowercase(s: &str) -> (r: String)
    ensures
        r@ == lowercased(s@),
        (forall|i: int| 0 <= i < s@.len() ==> (#[trigger] s@[i]) as u32 <= 0x7f) ==> r@ == lowered(s@),
{
    s.to_lowercase()
}

/// What a text looks like as a literal.
pub uninterp spec fn quoted(s: Seq<char>) -> Seq<char>;

/// The `Debug` form of a `str`: the text between double quotes, with what
/// cannot be shown escaped, by the text alone.
#[verifier::external_body]
pub(crate) fn quote(s: &str) -> (r: String)
    ensures
        r@ == quoted(s@),
{
    format!("{:?}", s)
}

/// Unicode white space.
pub open spec fn is_space_char(c: char) -> bool {
    let n = c as u32;
    ||| 0x9 <= n <= 0xd
    ||| n == 0x20
    ||| n == 0x85
    ||| n == 0xa0
    ||| n == 0x1680
    ||| 0x2000 <= n <= 0x200a
    ||| n == 0x2028
    ||| n == 0x2029
    ||| n == 0x202f
    ||| n == 0x205f
    ||| n == 0x3000
}

pub fn space_char(c: char) -> (r: bool)
    ensures
        r == is_space_char(c),
{
    let n: u32 = c as u32;
    (0x9 <= n && n <= 0xd) || n == 0x20 || n == 0x85 || n == 0xa0 || n == 0x1680 || (0x2000 <= n
        && n <= 0x200a) || n == 0x2028 || n == 0x2029 || n == 0x202f || n == 0x205f || n == 0x3000
}

/// The pieces of `s` between the separators.
pub open spec fn split(s: Seq<char>, separator: char) -> Seq<Seq<char>>
    decreases s.len(),
{
    if s.len() == 0 {
        seq![Seq::empty()]
    } else {
        let rest = split(s.drop_last(), separator);
        if s.last() == separator {
            rest.push(Seq::empty())
        } else {
            rest.drop_last().push(rest.last().push(s.last()))
        }
    }
}

pub proof fn lemma_split_nonempty(s: Seq<char>, separator: char)
    ensures
        split(s, separator).len() > 0,
    decreases s.len(),
{
    if s.len() > 0 {
        lemma_split_nonempty(s.drop_last(), separator);
    }
}

/// The pieces of `s` between the separators.
pub fn split_at_each(s: &str, separator: char) -> (out: Vec<String>)
    ensures
        views(out@) == split(s@, separator),
{
    let chars = chars_of(s);
    let mut out: Vec<String> = Vec::new();
    let mut piece = String::new();
    let mut i: usize = 0;
    assert(views(out@).push(piece@) =~= split(s@.take(0), separator));
    while i < chars.len()
        invariant
            i <= chars.len(),
            chars@ == s@,
            views(out@).push(piece@) == split(s@.take(i as int), separator),
        decreases chars.len() - i,
    {
        let ghost done = views(out@);
        let ghost last = piece@;
        let c = chars[i];
        i = i + 1;
        assert(s@.take(i as int).drop_last() =~= s@.take(i - 1));
        assert(done.push(last).drop_last() =~= done);
        if c == separator {
            out.push(piece);
            piece = String::new();
            assert(views(out@) =~= done.push(last));
        } else {
            push_char(&mut piece, c);
        }
        assert(views(out@).push(piece@) =~= split(s@.take(i as int), separator));
    }
    let ghost done = views(out@);
    out.push(piece);
    assert(views(out@) =~= done.push(piece@));
    assert(s@.take(i as int) =~= s@);
    out
}

/// The words of `s`, which white space separates.
pub open spec fn words(s: Seq<char>) -> Seq<Seq<char>>
    decreases s.len(),
{
    if s.len() == 0 || is_space_char(s.last()) {
        if s.len() == 0 {
            Seq::empty()
        } else {
            words(s.drop_last())
        }
    } else if s.len() == 1 || is_space_char(s[s.len() - 2]) {
        words(s.drop_last()).push(seq![s.last()])
    } else {
        let rest = words(s.drop_last());
        rest.drop_last().push(rest.last().push(s.last()))
    }
}

/// The words of `s`, which white space separates.
pub fn split_words(s: &str) -> (out: Vec<String>)
    ensures
        views(out@) == words(s@),
{
    let chars = chars_of(s);
    let mut out: Vec<String> = Vec::new();
    let mut word = String::new();
    let mut inside = false;
    let mut i: usize = 0;
    assert(views(out@) =~= words(s@.take(0)));
    while i < chars.len()
        invariant
            i <= chars.len(),
            chars@ == s@,
            inside == (i > 0 && !is_space_char(s@[i - 1])),
            !inside ==> word@.len() == 0 && views(out@) == words(s@.take(i as int)),
            inside ==> views(out@).push(word@) == words(s@.take(i as int)),
        decreases chars.len() - i,
    {
        let ghost done = views(out@);
        let ghost last = word@;
        let ghost was_inside = inside;
        let c = chars[i];
        i = i + 1;
        let ghost now = s@.take(i as int);
        assert(now.drop_last() =~= s@.take(i - 1));
        assert(now.last() == c);
        assert(done.push(last).drop_last() =~= done);
        if i > 1 {
            assert(now[i - 2] == s@[i - 2]);
        }
        if space_char(c) {
            if inside {
                out.push(word);
                word = String::new();
                assert(views(out@) =~= done.push(last));
            }
            inside = false;
        } else {
            push_char(&mut word, c);
            assert(!was_inside ==> word@ =~= seq![c]);
            inside = true;
        }
    }
    if inside {
        let ghost done = views(out@);
        out.push(word);
        assert(views(out@) =~= done.push(word@));
    }
    assert(s@.take(i as int) =~= s@);
    out
}

/// Whether `s` starts with `prefix`.
pub fn starts_with(s: &str, prefix: &str) -> (r: bool)
    ensures
        r == prefix@.is_prefix_of(s@),
{
    let a = chars_of(s);
    let b = chars_of(prefix);
    if b.len() > a.len() {
        return false;
    }
    let mut i: usize = 0;
    while i < b.len()
        invariant
            i <= b.len() <= a.len(),
            a@ == s@,
            b@ == prefix@,
            forall|k: int| 0 <= k < i ==> a@[k] == b@[k],
        decreases b.len() - i,
    {
        if a[i] != b[i] {
            assert(s@.subrange(0, prefix@.len() as int)[i as int] != prefix@[i as int]);
            return false;
        }
        i = i + 1;
    }
    assert(s@.subrange(0, prefix@.len() as int) =~= prefix@);
    true
}

/// Whether `s` ends with `suffix`.
pub fn ends_with_text(s: &str, suffix: &str) -> (r: bool)
    ensures
        r == suffix@.is_suffix_of(s@),
{
    let a = chars_of(s);
    let b = chars_of(suffix);
    if b.len() > a.len() {
        return false;
    }
    let at: usize = a.len() - b.len();
    let mut i: usize = 0;
    while i < b.len()
        invariant
            i <= b.len(),
            at + b.len() == a.len(),
            a@ == s@,
            b@ == suffix@,
            forall|k: int| 0 <= k < i ==> a@[at + k] == b@[k],
        decreases b.len() - i,
    {
        if a[at + i] != b[i] {
            assert(s@.subrange(at as int, s@.len() as int)[i as int] != suffix@[i as int]);
            return false;
        }
        i = i + 1;
    }
    assert(s@.subrange(at as int, s@.len() as int) =~= suffix@);
    true
}

/// The part of a text from character `from` to before character `to`.
pub fn slice(s: &str, from: usize, to: usize) -> (out: String)
    requires
        from <= to <= s@.len(),
    ensures
        out@ == s@.subrange(from as int, to as int),
{
    let chars = chars_of(s);
    let mut out = String::new();
    let mut i: usize = from;
    while i < to
        invariant
            from <= i <= to <= s@.len(),
            chars@ == s@,
            out@ == s@.subrange(from as int, i as int),
        decreases to - i,
    {
        push_char(&mut out, chars[i]);
        i = i + 1;
        assert(s@.subrange(from as int, i as int) =~= s@.subrange(from as int, i - 1).push(
            s@[i - 1],
        ));
    }
    out
}

/// Some characters.
#[derive(Debug, Clone, Copy)]
pub enum CharClass {
    /// Every kind of white space.
    Space,
    /// One character.
    Only(char),
}

/// A character is one of the class.
pub open spec fn belongs(class: CharClass, c: char) -> bool {
    match class {
        CharClass::Space => is_space_char(c),
        CharClass::Only(only) => c == only,
    }
}

fn is_in(class: CharClass, c: char) -> (r: bool)
    ensures
        r == belongs(class, c),
{
    match class {
        CharClass::Space => space_char(c),
        CharClass::Only(only) => c == only,
    }
}

/// `s` without the characters of the class that it starts with.
pub open spec fn trimmed_start(s: Seq<char>, class: CharClass) -> Seq<char>
    decreases s.len(),
{
    if s.len() > 0 && belongs(class, s[0]) {
        trimmed_start(s.skip(1), class)
    } else {
        s
    }
}

/// `s` without the characters of the class that it ends with.
pub open spec fn trimmed_end(s: Seq<char>, class: CharClass) -> Seq<char>
    decreases s.len(),
{
    if s.len() > 0 && belongs(class, s.last()) {
        trimmed_end(s.drop_last(), class)
    } else {
        s
    }
}

/// `s` without the characters of the class at either end.
pub open spec fn trimmed_of(s: Seq<char>, class: CharClass) -> Seq<char> {
    trimmed_end(trimmed_start(s, class), class)
}

/// `s` without the characters of the class that it starts with.
pub fn trim_start_of(s: &str, class: CharClass) -> (r: String)
    ensures
        r@ == trimmed_start(s@, class),
{
    let chars = chars_of(s);
    let n = chars.len();
    let mut i: usize = 0;
    assert(s@.skip(0) =~= s@);
    while i < n && is_in(class, chars[i])
        invariant
            i <= n == chars.len(),
            chars@ == s@,
            trimmed_start(s@, class) == trimmed_start(s@.skip(i as int), class),
        ensures
            i <= n,
            trimmed_start(s@, class) == s@.skip(i as int),
        decreases n - i,
    {
        assert(s@.skip(i as int).skip(1) =~= s@.skip(i + 1));
        i = i + 1;
    }
    let out = slice(s, i, n);
    assert(out@ =~= s@.skip(i as int));
    out
}

/// `s` without the characters of the class that it ends with.
pub fn trim_end_of(s: &str, class: CharClass) -> (r: String)
    ensures
        r@ == trimmed_end(s@, class),
{
    let chars = chars_of(s);
    let n = chars.len();
    let mut i: usize = n;
    assert(s@.take(n as int) =~= s@);
    while i > 0 && is_in(class, chars[i - 1])
        invariant
            i <= n == chars.len(),
            chars@ == s@,
            trimmed_end(s@, class) == trimmed_end(s@.take(i as int), class),
        ensures
            i <= n,
            trimmed_end(s@, class) == s@.take(i as int),
        decreases i,
    {
        assert(s@.take(i as int).drop_last() =~= s@.take(i - 1));
        i = i - 1;
    }
    let out = slice(s, 0, i);
    assert(out@ =~= s@.take(i as int));
    out
}

/// `s` without the characters of the class at either end.
pub fn trim_of(s: &str, class: CharClass) -> (r: String)
    ensures
        r@ == trimmed_of(s@, class),
{
    let start = trim_start_of(s, class);
    trim_end_of(start.as_str(), class)
}

/// `s` with one character in the place of another.
pub open spec fn replaced(s: Seq<char>, from: char, to: char) -> Seq<char> {
    s.map_values(
        |c: char|
            if c == from {
                to
            } else {
                c
            },
    )
}

/// `s` with one character in the place of another.
pub fn replace(s: &str, from: char, to: char) -> (r: String)
    ensures
        r@ == replaced(s@, from, to),
{
    let chars = chars_of(s);
    let mut out = String::new();
    let mut i: usize = 0;
    while i < chars.len()
        invariant
            i <= chars.len(),
            chars@ == s@,
            out@ == replaced(s@, from, to).take(i as int),
        decreases chars.len() - i,
    {
        let c = if chars[i] == from {
            to
        } else {
            chars[i]
        };
        push_char(&mut out, c);
        i = i + 1;
        assert(out@ =~= replaced(s@, from, to).take(i as int));
    }
    assert(replaced(s@, from, to).take(i as int) =~= replaced(s@, from, to));
    out
}

/// Whether `s` has a character.
pub fn has_char(s: &str, c: char) -> (r: bool)
    ensures
        r == s@.contains(c),
{
    let chars = chars_of(s);
    let mut i: usize = 0;
    while i < chars.len()
        invariant
            i <= chars.len(),
            chars@ == s@,
            forall|k: int| 0 <= k < i ==> #[trigger] s@[k] != c,
        decreases chars.len() - i,
    {
        if chars[i] == c {
            assert(s@[i as int] == c);
            return true;
        }
        i = i + 1;
    }
    false
}

/// What precedes the first place where `needle` stands; all of `s` where it
/// stands nowhere.
pub open spec fn up_to(s: Seq<char>, needle: Seq<char>) -> Seq<char>
    decreases s.len(),
{
    if needle.is_prefix_of(s) || s.len() == 0 {
        Seq::empty()
    } else {
        seq![s[0]] + up_to(s.skip(1), needle)
    }
}

fn chars_stand_at(s: &Vec<char>, needle: &Vec<char>, at: usize) -> (r: bool)
    requires
        at <= s.len(),
    ensures
        r == needle@.is_prefix_of(s@.skip(at as int)),
{
    if needle.len() > s.len() - at {
        return false;
    }
    let mut k: usize = 0;
    while k < needle.len()
        invariant
            k <= needle.len() <= s.len() - at,
            forall|j: int| 0 <= j < k ==> #[trigger] needle@[j] == s@.skip(at as int)[j],
        decreases needle.len() - k,
    {
        if s[at + k] != needle[k] {
            assert(s@.skip(at as int)[k as int] != needle@[k as int]);
            return false;
        }
        k = k + 1;
    }
    assert(needle@ =~= s@.skip(at as int).subrange(0, needle@.len() as int));
    true
}

/// What precedes the first place where `needle` stands; all of `s` where it
/// stands nowhere.
pub fn cut_before(s: &str, needle: &str) -> (r: String)
    ensures
        r@ == up_to(s@, needle@),
{
    let chars = chars_of(s);
    let sought = chars_of(needle);
    let n = chars.len();
    let mut i: usize = 0;
    assert(s@.skip(0) =~= s@);
    assert(s@.take(0) + up_to(s@.skip(0), needle@) =~= up_to(s@, needle@));
    while i < n && !chars_stand_at(&chars, &sought, i)
        invariant
            i <= n == chars.len(),
            chars@ == s@,
            sought@ == needle@,
            up_to(s@, needle@) == s@.take(i as int) + up_to(s@.skip(i as int), needle@),
        ensures
            i <= n,
            up_to(s@, needle@) == s@.take(i as int),
        decreases n - i,
    {
        let ghost rest = s@.skip(i as int);
        assert(rest.skip(1) =~= s@.skip(i + 1));
        assert(s@.take(i as int) + (seq![rest[0]] + up_to(rest.skip(1), needle@)) =~= s@.take(i + 1)
            + up_to(s@.skip(i + 1), needle@));
        i = i + 1;
    }
    let out = slice(s, 0, i);
    assert(out@ =~= s@.take(i as int));
    out
}

// ---------------------------------------------------------------------------
// Byte strings
// ---------------------------------------------------------------------------

/// The UTF-8 bytes of a text.
pub open spec fn bytes_of(s: Seq<char>) -> Seq<u8> {
    vstd::utf8::encode_utf8(s)
}

/// `str::from_utf8`: the text that some bytes encode, if they are UTF-8.
#[verifier::external_body]
pub(crate) fn decode(bytes: &[u8]) -> (r: Option<&str>)
    ensures
        r is Some <==> vstd::utf8::valid_utf8(bytes@),
        r matches Some(s) ==> s@ == vstd::utf8::decode_utf8(bytes@),
{
    std::str::from_utf8(bytes).ok()
}

/// Different texts have different bytes.
pub proof fn lemma_bytes_differ(a: Seq<char>, b: Seq<char>)
    ensures
        bytes_of(a) == bytes_of(b) <==> a == b,
{
    vstd::utf8::encode_utf8_decode_utf8(a);
    vstd::utf8::encode_utf8_decode_utf8(b);
}

/// Each text as a sequence of characters.
pub open spec fn views(s: Seq<String>) -> Seq<Seq<char>> {
    s.map_values(|t: String| t@)
}

/// Both texts of each pair as sequences of characters.
pub open spec fn pair_views(s: Seq<(String, String)>) -> Seq<(Seq<char>, Seq<char>)> {
    s.map_values(|p: (String, String)| (p.0@, p.1@))
}

/// The UTF-8 bytes of each text.
pub open spec fn byte_strings(s: Seq<String>) -> Seq<Seq<u8>> {
    s.map_values(|t: String| bytes_of(t@))
}

/// The UTF-8 bytes of both texts of each pair.
pub open spec fn byte_pairs(s: Seq<(String, String)>) -> Seq<(Seq<u8>, Seq<u8>)> {
    s.map_values(|p: (String, String)| (bytes_of(p.0@), bytes_of(p.1@)))
}

/// ASCII white space: space, tab, line feed, form feed, carriage return.
pub open spec fn is_space(b: u8) -> bool {
    b == 0x20 || b == 0x09 || b == 0x0a || b == 0x0c || b == 0x0d
}

/// Nothing but white space.
pub open spec fn blank(s: Seq<u8>) -> bool {
    forall|i: int| 0 <= i < s.len() ==> is_space(#[trigger] s[i])
}

/// How many white-space bytes `s` starts with.
pub open spec fn leading(s: Seq<u8>) -> nat
    decreases s.len(),
{
    if s.len() == 0 || !is_space(s[0]) {
        0
    } else {
        1 + leading(s.skip(1))
    }
}

/// How many white-space bytes `s` ends with.
pub open spec fn trailing(s: Seq<u8>) -> nat
    decreases s.len(),
{
    if s.len() == 0 || !is_space(s.last()) {
        0
    } else {
        1 + trailing(s.drop_last())
    }
}

/// `s` without the white space it starts and ends with.
pub open spec fn trimmed(s: Seq<u8>) -> Seq<u8> {
    let rest = s.skip(leading(s) as int);
    rest.take(rest.len() - trailing(rest))
}

pub fn is_space_byte(b: u8) -> (r: bool)
    ensures
        r == is_space(b),
{
    b == 0x20 || b == 0x09 || b == 0x0a || b == 0x0c || b == 0x0d
}

/// Whether `line` holds `needle` at position `at`.
pub fn starts_at(line: &[u8], at: usize, needle: &[u8]) -> (r: bool)
    requires
        at <= line.len(),
    ensures
        r == needle@.is_prefix_of(line@.skip(at as int)),
{
    if needle.len() > line.len() - at {
        return false;
    }
    let mut i: usize = 0;
    while i < needle.len()
        invariant
            i <= needle.len(),
            at + needle.len() <= line.len(),
            forall|k: int| 0 <= k < i ==> needle@[k] == line@[at + k],
        decreases needle.len() - i,
    {
        if needle[i] != line[at + i] {
            assert(line@.skip(at as int)[i as int] != needle@[i as int]);
            return false;
        }
        i = i + 1;
    }
    assert(line@.skip(at as int).subrange(0, needle.len() as int) =~= needle@);
    true
}

/// Whether `line` ends with `needle`.
pub fn ends_with(line: &[u8], needle: &[u8]) -> (r: bool)
    ensures
        r == needle@.is_suffix_of(line@),
{
    if needle.len() > line.len() {
        return false;
    }
    let at: usize = line.len() - needle.len();
    let r = starts_at(line, at, needle);
    assert(line@.skip(at as int) =~= line@.subrange(at as int, line@.len() as int));
    proof {
        if r {
            assert(line@.skip(at as int).subrange(0, needle@.len() as int) =~= line@.skip(
                at as int,
            ));
        }
        if needle@.is_suffix_of(line@) {
            assert(line@.skip(at as int).subrange(0, needle@.len() as int) =~= needle@);
        }
    }
    r
}

/// Whether two texts are the same.
pub fn same(a: &str, b: &str) -> (r: bool)
    ensures
        r == (a@ == b@),
{
    let x = a.as_bytes();
    let y = b.as_bytes();
    proof {
        lemma_bytes_differ(a@, b@);
        assert(x@.skip(0) =~= x@);
        assert(y@.subrange(0, y@.len() as int) =~= y@);
        assert(x@.subrange(0, x@.len() as int) =~= x@);
    }
    x.len() == y.len() && starts_at(x, 0, y)
}

/// Whether nothing but white space is left of `line` from `at` on.
pub fn blank_from(line: &[u8], at: usize) -> (r: bool)
    requires
        at <= line.len(),
    ensures
        r == blank(line@.skip(at as int)),
{
    let mut i: usize = at;
    while i < line.len()
        invariant
            at <= i <= line.len(),
            forall|k: int| at <= k < i ==> is_space(#[trigger] line@[k]),
        decreases line.len() - i,
    {
        if !is_space_byte(line[i]) {
            assert(!is_space(line@.skip(at as int)[i - at]));
            return false;
        }
        i = i + 1;
    }
    assert forall|k: int| 0 <= k < line@.skip(at as int).len() implies is_space(
        #[trigger] line@.skip(at as int)[k],
    ) by {
        assert(is_space(line@[at + k]));
    }
    true
}

/// What [`leading`] is, given that the first `n` bytes are white space.
pub proof fn lemma_leading(s: Seq<u8>, n: int)
    requires
        0 <= n <= s.len(),
        forall|k: int| 0 <= k < n ==> is_space(#[trigger] s[k]),
        n == s.len() || !is_space(s[n]),
    ensures
        leading(s) == n,
    decreases s.len(),
{
    if n > 0 {
        assert forall|k: int| 0 <= k < n - 1 implies is_space(#[trigger] s.skip(1)[k]) by {
            assert(is_space(s[k + 1]));
        }
        lemma_leading(s.skip(1), n - 1);
        assert(is_space(s[0]));
    }
}

/// What [`trailing`] is, given that the last `n` bytes are white space.
pub proof fn lemma_trailing(s: Seq<u8>, n: int)
    requires
        0 <= n <= s.len(),
        forall|k: int| s.len() - n <= k < s.len() ==> is_space(#[trigger] s[k]),
        n == s.len() || !is_space(s[s.len() - n - 1]),
    ensures
        trailing(s) == n,
    decreases s.len(),
{
    if n > 0 {
        assert forall|k: int| s.len() - n <= k < s.len() - 1 implies is_space(
            #[trigger] s.drop_last()[k],
        ) by {
            assert(is_space(s[k]));
        }
        lemma_trailing(s.drop_last(), n - 1);
    }
}

pub proof fn lemma_leading_len(s: Seq<u8>)
    ensures
        leading(s) <= s.len(),
    decreases s.len(),
{
    if s.len() > 0 && is_space(s[0]) {
        lemma_leading_len(s.skip(1));
    }
}

pub proof fn lemma_trailing_len(s: Seq<u8>)
    ensures
        trailing(s) <= s.len(),
    decreases s.len(),
{
    if s.len() > 0 && is_space(s.last()) {
        lemma_trailing_len(s.drop_last());
    }
}

/// How many white-space bytes `line` starts with.
pub fn indent_of(line: &[u8]) -> (r: usize)
    ensures
        r == leading(line@),
        r <= line.len(),
{
    let mut i: usize = 0;
    while i < line.len() && is_space_byte(line[i])
        invariant
            i <= line.len(),
            forall|k: int| 0 <= k < i ==> is_space(#[trigger] line@[k]),
        decreases line.len() - i,
    {
        i = i + 1;
    }
    proof {
        lemma_leading(line@, i as int);
    }
    i
}

/// `line` without the white space it starts and ends with.
pub fn trim(line: &[u8]) -> (r: &[u8])
    ensures
        r@ == trimmed(line@),
        r.len() <= line.len(),
{
    let start = indent_of(line);
    let mut end: usize = line.len();
    while end > start && is_space_byte(line[end - 1])
        invariant
            start <= end <= line.len(),
            forall|k: int| end <= k < line.len() ==> is_space(#[trigger] line@[k]),
        decreases end,
    {
        end = end - 1;
    }
    proof {
        let rest = line@.skip(start as int);
        assert forall|k: int| end - start <= k < rest.len() implies is_space(
            #[trigger] rest[k],
        ) by {
            assert(is_space(line@[start + k]));
        }
        lemma_trailing(rest, line@.len() - end);
        assert(rest.take(rest.len() - (line@.len() - end)) =~= line@.subrange(
            start as int,
            end as int,
        ));
    }
    vstd::slice::slice_subrange(line, start, end)
}

// ---------------------------------------------------------------------------
// Laws
// ---------------------------------------------------------------------------

proof fn lemma_leading_white(s: Seq<u8>)
    ensures
        leading(s) <= s.len(),
        forall|i: int| 0 <= i < leading(s) ==> is_space(#[trigger] s[i]),
        leading(s) < s.len() ==> !is_space(s[leading(s) as int]),
    decreases s.len(),
{
    if s.len() > 0 && is_space(s[0]) {
        lemma_leading_white(s.skip(1));
        assert forall|i: int| 0 <= i < leading(s) implies is_space(#[trigger] s[i]) by {
            if i > 0 {
                assert(s.skip(1)[i - 1] == s[i]);
            }
        }
        if leading(s) < s.len() {
            assert(s.skip(1)[leading(s.skip(1)) as int] == s[leading(s) as int]);
        }
    }
}

proof fn lemma_trailing_white(s: Seq<u8>)
    ensures
        trailing(s) <= s.len(),
        forall|i: int| s.len() - trailing(s) <= i < s.len() ==> is_space(#[trigger] s[i]),
        trailing(s) < s.len() ==> !is_space(s[s.len() - trailing(s) - 1]),
    decreases s.len(),
{
    if s.len() > 0 && is_space(s.last()) {
        let rest = s.drop_last();
        lemma_trailing_white(rest);
        assert forall|i: int| s.len() - trailing(s) <= i < s.len() implies is_space(
            #[trigger] s[i],
        ) by {
            if i < rest.len() {
                assert(rest[i] == s[i]);
            }
        }
        if trailing(s) < s.len() {
            assert(rest[rest.len() - trailing(rest) - 1] == s[s.len() - trailing(s) - 1]);
        }
    }
}

/// The indentation of a line is the spaces, tabs, feeds and returns that it
/// starts with, up to the first byte that is none of them.
pub proof fn law_indentation_is_the_white_space_in_front(s: Seq<u8>)
    ensures
        leading(s) <= s.len(),
        forall|i: int|
            0 <= i < leading(s) ==> {
                let b = #[trigger] s[i];
                b == 0x20 || b == 0x09 || b == 0x0a || b == 0x0c || b == 0x0d
            },
        leading(s) < s.len() ==> {
            let b = s[leading(s) as int];
            b != 0x20 && b != 0x09 && b != 0x0a && b != 0x0c && b != 0x0d
        },
{
    lemma_leading_white(s);
}

/// Trimming takes off white space at either end and nothing else: what is left
/// stands in the line, only spaces, tabs, feeds and returns stand around it,
/// and neither end of it is one of those.
pub proof fn law_trimming_takes_off_white_space_only(s: Seq<u8>)
    ensures
        ({
            let kept = trimmed(s);
            let at = leading(s) as int;
            &&& at + kept.len() <= s.len()
            &&& kept == s.subrange(at, at + kept.len())
            &&& forall|i: int|
                (0 <= i < at || at + kept.len() <= i < s.len()) ==> {
                    let b = #[trigger] s[i];
                    b == 0x20 || b == 0x09 || b == 0x0a || b == 0x0c || b == 0x0d
                }
            &&& kept.len() > 0 ==> {
                let (a, b) = (kept[0], kept.last());
                &&& a != 0x20 && a != 0x09 && a != 0x0a && a != 0x0c && a != 0x0d
                &&& b != 0x20 && b != 0x09 && b != 0x0a && b != 0x0c && b != 0x0d
            }
        }),
{
    lemma_leading_white(s);
    let at = leading(s) as int;
    let rest = s.skip(at);
    lemma_trailing_white(rest);
    let kept = trimmed(s);
    assert(kept =~= s.subrange(at, at + kept.len()));
    assert forall|i: int| at + kept.len() <= i < s.len() implies is_space(#[trigger] s[i]) by {
        assert(rest[i - at] == s[i]);
    }
    if kept.len() > 0 {
        assert(kept[0] == rest[0]);
        assert(rest[0] == s[at]);
        assert(kept.last() == rest[rest.len() - trailing(rest) - 1]);
    }
}

/// What has been trimmed has nothing more to trim.
pub proof fn law_trimming_twice_is_trimming_once(s: Seq<u8>)
    ensures
        trimmed(trimmed(s)) == trimmed(s),
{
    law_trimming_takes_off_white_space_only(s);
    let kept = trimmed(s);
    if kept.len() > 0 {
        assert(leading(kept) == 0);
        assert(kept.skip(0) =~= kept);
        assert(trailing(kept) == 0);
        assert(kept.take(kept.len() as int) =~= kept);
    } else {
        assert(trimmed(kept) =~= kept);
    }
}

/// A line is blank exactly if it holds nothing but spaces, tabs, feeds and
/// returns; trimming then leaves nothing of it.
pub proof fn law_blank_lines_hold_white_space_only(s: Seq<u8>)
    ensures
        blank(s) <==> forall|i: int|
            0 <= i < s.len() ==> {
                let b = #[trigger] s[i];
                b == 0x20 || b == 0x09 || b == 0x0a || b == 0x0c || b == 0x0d
            },
        blank(s) <==> trimmed(s).len() == 0,
{
    law_trimming_takes_off_white_space_only(s);
    if trimmed(s).len() > 0 {
        assert(trimmed(s)[0] == s[leading(s) as int]);
    }
    if blank(s) {
        assert forall|i: int| 0 <= i < s.len() implies ({
            let b = #[trigger] s[i];
            b == 0x20 || b == 0x09 || b == 0x0a || b == 0x0c || b == 0x0d
        }) by {
            assert(is_space(s[i]));
        }
    }
}

proof fn lemma_trimmed_start(s: Seq<char>, class: CharClass)
    ensures
        ({
            let kept = trimmed_start(s, class);
            let n = s.len() - kept.len();
            &&& 0 <= n
            &&& kept == s.skip(n)
            &&& forall|i: int| 0 <= i < n ==> belongs(class, #[trigger] s[i])
            &&& kept.len() > 0 ==> !belongs(class, kept[0])
        }),
    decreases s.len(),
{
    if s.len() > 0 && belongs(class, s[0]) {
        let rest = s.skip(1);
        lemma_trimmed_start(rest, class);
        let n = s.len() - trimmed_start(s, class).len();
        assert(rest.skip(n - 1) =~= s.skip(n));
        assert forall|i: int| 0 <= i < n implies belongs(class, #[trigger] s[i]) by {
            if i > 0 {
                assert(rest[i - 1] == s[i]);
            }
        }
    } else {
        assert(s.skip(0) =~= s);
    }
}

proof fn lemma_trimmed_end(s: Seq<char>, class: CharClass)
    ensures
        ({
            let kept = trimmed_end(s, class);
            &&& kept.len() <= s.len()
            &&& kept == s.take(kept.len() as int)
            &&& forall|i: int| kept.len() <= i < s.len() ==> belongs(class, #[trigger] s[i])
            &&& kept.len() > 0 ==> !belongs(class, kept.last())
        }),
    decreases s.len(),
{
    if s.len() > 0 && belongs(class, s.last()) {
        let rest = s.drop_last();
        lemma_trimmed_end(rest, class);
        let kept = trimmed_end(s, class);
        assert(rest.take(kept.len() as int) =~= s.take(kept.len() as int));
        assert forall|i: int| kept.len() <= i < s.len() implies belongs(class, #[trigger] s[i]) by {
            if i < rest.len() {
                assert(rest[i] == s[i]);
            }
        }
    } else {
        assert(s.take(s.len() as int) =~= s);
    }
}

/// Unicode white space, character by character.
pub proof fn law_white_space_is_what_unicode_says(c: char)
    ensures
        belongs(CharClass::Space, c) <==> {
            ||| c == '\u{9}' || c == '\u{a}' || c == '\u{b}' || c == '\u{c}' || c == '\u{d}'
            ||| c == ' ' || c == '\u{85}' || c == '\u{a0}' || c == '\u{1680}'
            ||| '\u{2000}' <= c && c <= '\u{200a}'
            ||| c == '\u{2028}' || c == '\u{2029}' || c == '\u{202f}' || c == '\u{205f}' || c
                == '\u{3000}'
        },
        forall|only: char| #[trigger] belongs(CharClass::Only(only), c) <==> c == only,
{
}

/// Trimming a text takes characters of the class off either end and nothing
/// else.
pub proof fn law_trimming_a_text_takes_off_the_class_only(s: Seq<char>, class: CharClass)
    ensures
        ({
            let kept = trimmed_of(s, class);
            exists|at: int|
                {
                    &&& 0 <= at <= at + kept.len() <= s.len()
                    &&& kept == #[trigger] s.subrange(at, at + kept.len())
                    &&& forall|i: int|
                        (0 <= i < at || at + kept.len() <= i < s.len()) ==> belongs(
                            class,
                            #[trigger] s[i],
                        )
                }
        }),
        trimmed_of(s, class).len() > 0 ==> !belongs(class, trimmed_of(s, class)[0]) && !belongs(
            class,
            trimmed_of(s, class).last(),
        ),
{
    lemma_trimmed_start(s, class);
    let rest = trimmed_start(s, class);
    lemma_trimmed_end(rest, class);
    let kept = trimmed_of(s, class);
    let at = s.len() - rest.len();
    assert(kept =~= s.subrange(at, at + kept.len()));
    assert forall|i: int| (0 <= i < at || at + kept.len() <= i < s.len()) implies belongs(
        class,
        #[trigger] s[i],
    ) by {
        if i >= at {
            assert(rest[i - at] == s[i]);
        }
    }
    if kept.len() > 0 {
        assert(kept[0] == rest[0]);
    }
}

proof fn lemma_split_push(s: Seq<char>, c: char, separator: char)
    ensures
        split(s.push(c), separator) == if c == separator {
            split(s, separator).push(Seq::empty())
        } else {
            split(s, separator).drop_last().push(split(s, separator).last().push(c))
        },
{
    assert(s.push(c).drop_last() =~= s);
}

/// A text without the separator is one piece, and a separator parts the pieces
/// before it from those behind it.
pub proof fn law_a_separator_parts_the_pieces(a: Seq<char>, b: Seq<char>, separator: char)
    ensures
        !a.contains(separator) ==> split(a, separator) == seq![a],
        split(a.push(separator) + b, separator) == split(a, separator) + split(b, separator),
    decreases a.len() + b.len(),
{
    lemma_split_nonempty(a, separator);
    if !a.contains(separator) {
        if a.len() == 0 {
            assert(a =~= Seq::empty());
            assert(split(a, separator) =~= seq![a]);
        } else {
            let rest = a.drop_last();
            assert(!rest.contains(separator)) by {
                if rest.contains(separator) {
                    let i = choose|i: int| 0 <= i < rest.len() && rest[i] == separator;
                    assert(a[i] == separator);
                }
            }
            law_a_separator_parts_the_pieces(rest, Seq::empty(), separator);
            assert(a[a.len() - 1] != separator);
            assert(rest.push(a.last()) =~= a);
            assert(split(a, separator) =~= seq![a]);
        }
    }
    if b.len() == 0 {
        assert(a.push(separator) + b =~= a.push(separator));
        lemma_split_push(a, separator, separator);
        assert(split(b, separator) =~= seq![Seq::<char>::empty()]);
        assert(split(a.push(separator) + b, separator) =~= split(a, separator) + split(
            b,
            separator,
        ));
    } else {
        let shorter = b.drop_last();
        law_a_separator_parts_the_pieces(a, shorter, separator);
        lemma_split_nonempty(shorter, separator);
        assert(a.push(separator) + b =~= (a.push(separator) + shorter).push(b.last()));
        lemma_split_push(a.push(separator) + shorter, b.last(), separator);
        assert(split(a.push(separator) + b, separator) =~= split(a, separator) + split(
            b,
            separator,
        ));
    }
}

/// What precedes a needle is the longest start of the text in which the needle
/// begins nowhere.
pub proof fn law_up_to_the_first_needle(s: Seq<char>, needle: Seq<char>)
    ensures
        ({
            let n = up_to(s, needle).len() as int;
            &&& n <= s.len()
            &&& up_to(s, needle) == s.take(n)
            &&& forall|i: int| 0 <= i < n ==> !needle.is_prefix_of(#[trigger] s.skip(i))
            &&& n < s.len() ==> needle.is_prefix_of(s.skip(n))
        }),
    decreases s.len(),
{
    assert(s.skip(0) =~= s);
    if needle.is_prefix_of(s) || s.len() == 0 {
        assert(s.take(0) =~= Seq::empty());
    } else {
        let rest = s.skip(1);
        law_up_to_the_first_needle(rest, needle);
        let n = up_to(s, needle).len() as int;
        assert(up_to(s, needle) =~= s.take(n));
        assert forall|i: int| 0 <= i < n implies !needle.is_prefix_of(#[trigger] s.skip(i)) by {
            if i > 0 {
                assert(rest.skip(i - 1) =~= s.skip(i));
            }
        }
        if n < s.len() {
            assert(rest.skip(n - 1) =~= s.skip(n));
        }
    }
}

/// Lower case differs from the text only where that has a capital from `A` to
/// `Z`; two texts that differ in nothing else are the same in lower case.
pub proof fn law_lower_case_changes_capitals_only(s: Seq<char>)
    ensures
        lowered(s).len() == s.len(),
        forall|i: int|
            0 <= i < s.len() ==> {
                let (c, d) = (#[trigger] s[i], lowered(s)[i]);
                if 'A' <= c && c <= 'Z' {
                    d as u32 == c as u32 + 32
                } else {
                    d == c
                }
            },
{
}

proof fn lemma_words_end(s: Seq<char>)
    requires
        s.len() > 0,
        !is_space_char(s.last()),
    ensures
        words(s).len() > 0,
{
}

/// White space parts words: what stands on either side of it has its own words.
/// What has no white space in it is one word, unless it is empty.
pub proof fn law_white_space_parts_words(a: Seq<char>, c: char, b: Seq<char>)
    requires
        is_space_char(c),
    ensures
        words(a.push(c) + b) == words(a) + words(b),
        a.len() > 0 && (forall|i: int| 0 <= i < a.len() ==> !is_space_char(#[trigger] a[i]))
            ==> words(a) == seq![a],
        words(Seq::empty()).len() == 0,
    decreases a.len() + b.len(),
{
    let all = a.push(c) + b;
    if b.len() == 0 {
        assert(all.drop_last() =~= a);
        assert(words(a) + words(b) =~= words(a));
    } else {
        let fewer = b.drop_last();
        law_white_space_parts_words(a, c, fewer);
        assert(all.drop_last() =~= a.push(c) + fewer);
        assert(all.last() == b.last());
        if is_space_char(b.last()) {
        } else if b.len() == 1 {
            assert(all[all.len() - 2] == c);
            assert(words(all) =~= words(a) + words(b));
        } else {
            assert(all[all.len() - 2] == b[b.len() - 2]);
            if is_space_char(b[b.len() - 2]) {
                assert(words(all) =~= words(a) + words(b));
            } else {
                assert(fewer.last() == b[b.len() - 2]);
                lemma_words_end(fewer);
                let rest = words(a) + words(fewer);
                assert(rest.last() == words(fewer).last());
                assert(rest.drop_last() =~= words(a) + words(fewer).drop_last());
                assert(words(all) =~= words(a) + words(b));
            }
        }
    }
    if a.len() > 0 && (forall|i: int| 0 <= i < a.len() ==> !is_space_char(#[trigger] a[i])) {
        let rest = a.drop_last();
        assert(!is_space_char(a[a.len() - 1]));
        if a.len() == 1 {
            assert(words(rest) =~= Seq::empty());
            assert(seq![a.last()] =~= a);
            assert(words(a) =~= seq![a]);
        } else {
            assert forall|i: int| 0 <= i < rest.len() implies !is_space_char(#[trigger] rest[i]) by {
                assert(rest[i] == a[i]);
            }
            law_white_space_parts_words(rest, c, Seq::empty());
            assert(!is_space_char(a[a.len() - 2]));
            assert(rest.push(a.last()) =~= a);
            assert(words(a) =~= seq![a]);
        }
    }
}

/// The last piece is what follows the last separator.
pub proof fn law_the_last_piece_follows_the_last_separator(s: Seq<char>, separator: char)
    ensures
        ({
            let last = split(s, separator).last();
            let n = s.len() - last.len();
            &&& 0 <= n
            &&& last == s.skip(n)
            &&& forall|i: int| 0 <= i < last.len() ==> #[trigger] last[i] != separator
            &&& n == 0 || s[n - 1] == separator
        }),
    decreases s.len(),
{
    let last = split(s, separator).last();
    let n = s.len() - last.len();
    if s.len() == 0 {
        assert(last =~= s.skip(n));
    } else {
        let t = s.drop_last();
        law_the_last_piece_follows_the_last_separator(t, separator);
        if s.last() == separator {
            assert(last =~= s.skip(n));
        } else {
            let before = split(t, separator).last();
            assert(last == before.push(s.last()));
            assert(last =~= s.skip(n));
            assert forall|i: int| 0 <= i < last.len() implies #[trigger] last[i] != separator by {
                if i < before.len() {
                    assert(last[i] == before[i]);
                }
            }
            if n > 0 {
                assert(s[n - 1] == t[n - 1]);
            }
        }
    }
}

/// Replacing a character changes its own places and no others.
pub proof fn law_replacing_changes_one_character_only(s: Seq<char>, from: char, to: char)
    ensures
        replaced(s, from, to).len() == s.len(),
        forall|i: int|
            0 <= i < s.len() && s[i] == from ==> #[trigger] replaced(s, from, to)[i] == to,
        forall|i: int|
            0 <= i < s.len() && s[i] != from ==> #[trigger] replaced(s, from, to)[i] == s[i],
{
}

} // verus!
