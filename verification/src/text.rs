//! Text as sequences of characters: the views, splitting, trimming and
//! searching that the rest of the library is stated with.

use vstd::prelude::*;
use vstd::string::*;
use vstd::utf8::*;

verus! {

broadcast use {vstd::string::group_string_axioms, vstd::seq_lib::group_seq_properties};

/// `String::push`: appends one character.
pub assume_specification[ String::push ](s: &mut String, ch: char)
    ensures
        final(s)@ == old(s)@.push(ch),
;

/// `char::from_u32`: the character with the given code point, which exists for
/// every code point up to `0x10FFFF` that is not a surrogate.
pub assume_specification[ char::from_u32 ](i: u32) -> (r: Option<char>)
    ensures
        r is Some <==> is_scalar(i),
        r is Some ==> r->0 as u32 == i,
;

/// The characters of each string of a list.
pub open spec fn texts(list: Seq<String>) -> Seq<Seq<char>> {
    list.map_values(|s: String| s@)
}

/// The characters of an optional string.
pub open spec fn opt_text(value: Option<String>) -> Option<Seq<char>> {
    match value {
        Some(s) => Some(s@),
        None => None,
    }
}

/// The characters of an optional string slice.
pub open spec fn opt_str(value: Option<&str>) -> Option<Seq<char>> {
    match value {
        Some(s) => Some(s@),
        None => None,
    }
}

pub broadcast proof fn lemma_texts_push(list: Seq<String>, s: String)
    ensures
        #[trigger] texts(list.push(s)) == texts(list).push(s@),
{
    assert(texts(list.push(s)) =~= texts(list).push(s@));
}

/// Whether two strings hold the same characters.
pub fn same_text(a: &str, b: &str) -> (r: bool)
    ensures
        r == (a@ == b@),
{
    broadcast use vstd::utf8::group_utf8_lib;
    let x = a.as_bytes();
    let y = b.as_bytes();
    proof {
        encode_utf8_decode_utf8(a@);
        encode_utf8_decode_utf8(b@);
    }
    if x.len() != y.len() {
        return false;
    }
    let mut i: usize = 0;
    while i < x.len()
        invariant
            i <= x.len(),
            x.len() == y.len(),
            forall|k: int| 0 <= k < i ==> x@[k] == y@[k],
            x@ == encode_utf8(a@),
            y@ == encode_utf8(b@),
        decreases x.len() - i,
    {
        if x[i] != y[i] {
            return false;
        }
        i += 1;
    }
    assert(x@ =~= y@);
    true
}

/// The characters of a string, as a vector.
pub fn to_chars(s: &str) -> (r: Vec<char>)
    ensures
        r@ == s@,
{
    let mut out: Vec<char> = Vec::new();
    for c in it: s.chars()
        invariant
            it.seq() == s@,
            out@ == s@.take(it.index() as int),
    {
        out.push(c);
    }
    assert(out@ =~= s@);
    out
}

/// The string made of the characters from `start` up to `end`.
pub fn from_range(chars: &[char], start: usize, end: usize) -> (r: String)
    requires
        start <= end <= chars@.len(),
    ensures
        r@ == chars@.subrange(start as int, end as int),
{
    let mut out = String::new();
    let mut i: usize = start;
    while i < end
        invariant
            start <= i <= end <= chars@.len(),
            out@ == chars@.subrange(start as int, i as int),
        decreases end - i,
    {
        out.push(chars[i]);
        i += 1;
        assert(out@ =~= chars@.subrange(start as int, i as int));
    }
    out
}

// ---------------------------------------------------------------------------
// Character classes
// ---------------------------------------------------------------------------

pub open spec fn is_ascii_letter(c: char) -> bool {
    ('a' <= c && c <= 'z') || ('A' <= c && c <= 'Z')
}

pub open spec fn is_ascii_digit(c: char) -> bool {
    '0' <= c && c <= '9'
}

/// Whether a character outside ASCII has Unicode's Alphabetic property.
pub uninterp spec fn unicode_alphabetic(c: char) -> bool;

/// Whether a character outside ASCII is alphabetic or numeric in Unicode.
pub uninterp spec fn unicode_alphanumeric(c: char) -> bool;

/// Whether a character is alphabetic: in ASCII, the letters.
pub open spec fn alphabetic(c: char) -> bool {
    if (c as u32) < 128 {
        is_ascii_letter(c)
    } else {
        unicode_alphabetic(c)
    }
}

/// Whether a character is alphabetic or numeric: in ASCII, letters and digits.
pub open spec fn alphanumeric(c: char) -> bool {
    if (c as u32) < 128 {
        is_ascii_letter(c) || is_ascii_digit(c)
    } else {
        unicode_alphanumeric(c)
    }
}

/// `char::is_alphabetic`: whether the character has Unicode's Alphabetic
/// property, which in ASCII are the letters; beyond ASCII the property itself
/// is left unspoken.
pub assume_specification[ char::is_alphabetic ](c: char) -> (r: bool)
    ensures
        r == if (c as u32) < 128 { is_ascii_letter(c) } else { unicode_alphabetic(c) },
;

/// `char::is_alphanumeric`: whether the character is alphabetic or numeric in
/// Unicode, which in ASCII are the letters and digits; beyond ASCII the two
/// properties are left unspoken.
pub assume_specification[ char::is_alphanumeric ](c: char) -> (r: bool)
    ensures
        r == if (c as u32) < 128 {
            is_ascii_letter(c) || is_ascii_digit(c)
        } else {
            unicode_alphanumeric(c)
        },
;

/// Unicode's White_Space property.
pub open spec fn is_whitespace(c: char) -> bool {
    let u = c as u32;
    (0x9 <= u <= 0xD) || u == 0x20 || u == 0x85 || u == 0xA0 || u == 0x1680 || (0x2000 <= u
        <= 0x200A) || u == 0x2028 || u == 0x2029 || u == 0x202F || u == 0x205F || u == 0x3000
}

/// Whether a character is white space.
pub fn whitespace(c: char) -> (r: bool)
    ensures
        r == is_whitespace(c),
{
    let u: u32 = c as u32;
    (0x9 <= u && u <= 0xD) || u == 0x20 || u == 0x85 || u == 0xA0 || u == 0x1680 || (0x2000 <= u
        && u <= 0x200A) || u == 0x2028 || u == 0x2029 || u == 0x202F || u == 0x205F || u == 0x3000
}

// ---------------------------------------------------------------------------
// Searching
// ---------------------------------------------------------------------------

/// The index of the first `c`, or the length where there is none.
pub open spec fn first_index(s: Seq<char>, c: char) -> int
    decreases s.len(),
{
    if s.len() == 0 {
        0
    } else if s[0] == c {
        0
    } else {
        1 + first_index(s.skip(1), c)
    }
}

/// The index of the last `c`, or -1 where there is none.
pub open spec fn last_index(s: Seq<char>, c: char) -> int
    decreases s.len(),
{
    if s.len() == 0 {
        -1
    } else if s.last() == c {
        s.len() - 1
    } else {
        last_index(s.drop_last(), c)
    }
}

pub proof fn lemma_first_index(s: Seq<char>, c: char)
    ensures
        0 <= first_index(s, c) <= s.len(),
        first_index(s, c) < s.len() ==> s[first_index(s, c)] == c,
        forall|i: int| 0 <= i < first_index(s, c) ==> s[i] != c,
    decreases s.len(),
{
    if s.len() > 0 && s[0] != c {
        lemma_first_index(s.skip(1), c);
        assert forall|i: int| 0 <= i < first_index(s, c) implies s[i] != c by {
            if i > 0 {
                assert(s[i] == s.skip(1)[i - 1]);
            }
        }
    }
}

/// An index that no `c` stands before, and that holds `c` or is the end, is the
/// first.
pub proof fn lemma_is_first_index(s: Seq<char>, c: char, at: int)
    requires
        0 <= at <= s.len(),
        forall|i: int| 0 <= i < at ==> s[i] != c,
        at < s.len() ==> s[at] == c,
    ensures
        first_index(s, c) == at,
{
    lemma_first_index(s, c);
    let f = first_index(s, c);
    if f < at {
        assert(s[f] == c);
    } else if at < f {
        assert(s[at] == c);
    }
}

pub proof fn lemma_last_index(s: Seq<char>, c: char)
    ensures
        -1 <= last_index(s, c) < s.len(),
        last_index(s, c) >= 0 ==> s[last_index(s, c)] == c,
        forall|i: int| last_index(s, c) < i < s.len() ==> s[i] != c,
    decreases s.len(),
{
    if s.len() > 0 && s.last() != c {
        lemma_last_index(s.drop_last(), c);
        assert forall|i: int| last_index(s, c) < i < s.len() implies s[i] != c by {
            if i < s.len() - 1 {
                assert(s[i] == s.drop_last()[i]);
            }
        }
    }
}

pub proof fn lemma_is_last_index(s: Seq<char>, c: char, at: int)
    requires
        -1 <= at < s.len(),
        forall|i: int| at < i < s.len() ==> s[i] != c,
        at >= 0 ==> s[at] == c,
    ensures
        last_index(s, c) == at,
{
    lemma_last_index(s, c);
    let f = last_index(s, c);
    if f > at {
        assert(s[f] == c);
    } else if at > f {
        assert(s[at] == c);
    }
}

/// The index of the first `c` at or behind `from`, or the length.
pub fn find_from(chars: &[char], from: usize, c: char) -> (r: usize)
    requires
        from <= chars@.len(),
    ensures
        from <= r <= chars@.len(),
        r == from + first_index(chars@.skip(from as int), c),
        r < chars@.len() ==> chars@[r as int] == c,
        forall|k: int| from <= k < r ==> chars@[k] != c,
{
    let mut i: usize = from;
    while i < chars.len() && chars[i] != c
        invariant
            from <= i <= chars@.len(),
            forall|k: int| from <= k < i ==> chars@[k] != c,
        decreases chars@.len() - i,
    {
        i += 1;
    }
    proof {
        let tail = chars@.skip(from as int);
        assert forall|k: int| 0 <= k < i - from implies tail[k] != c by {
            assert(tail[k] == chars@[k + from]);
        }
        lemma_is_first_index(tail, c, i - from);
    }
    i
}

/// The index of the last `c`.
pub fn find_last(chars: &[char], c: char) -> (r: Option<usize>)
    ensures
        match r {
            Some(i) => last_index(chars@, c) == i && i < chars@.len() && chars@[i as int] == c,
            None => last_index(chars@, c) == -1,
        },
{
    let mut i: usize = chars.len();
    while i > 0
        invariant
            i <= chars@.len(),
            forall|k: int| i <= k < chars@.len() ==> chars@[k] != c,
        decreases i,
    {
        i -= 1;
        if chars[i] == c {
            proof {
                lemma_is_last_index(chars@, c, i as int);
            }
            return Some(i);
        }
    }
    proof {
        lemma_is_last_index(chars@, c, -1);
    }
    None
}

// ---------------------------------------------------------------------------
// Putting text together
// ---------------------------------------------------------------------------

/// Every `from` replaced by `to`.
pub open spec fn replaced(s: Seq<char>, from: char, to: char) -> Seq<char> {
    s.map_values(|c: char| if c == from { to } else { c })
}

/// The characters from `start` up to `end`, every `from` replaced by `to`.
pub fn replace_range(chars: &[char], start: usize, end: usize, from: char, to: char) -> (r: String)
    requires
        start <= end <= chars@.len(),
    ensures
        r@ == replaced(chars@.subrange(start as int, end as int), from, to),
{
    let mut out = String::new();
    let mut i: usize = start;
    assert(out@ =~= replaced(chars@.subrange(start as int, start as int), from, to));
    while i < end
        invariant
            start <= i <= end <= chars@.len(),
            out@ == replaced(chars@.subrange(start as int, i as int), from, to),
        decreases end - i,
    {
        let c = chars[i];
        if c == from {
            out.push(to);
        } else {
            out.push(c);
        }
        i += 1;
        assert(out@ =~= replaced(chars@.subrange(start as int, i as int), from, to));
    }
    out
}

/// The parts one after another with `separator` between two.
pub open spec fn joined(parts: Seq<Seq<char>>, separator: Seq<char>) -> Seq<char>
    decreases parts.len(),
{
    if parts.len() == 0 {
        Seq::empty()
    } else if parts.len() == 1 {
        parts[0]
    } else {
        joined(parts.drop_last(), separator) + separator + parts.last()
    }
}

/// Joins strings with a separator between two.
pub fn join(parts: &Vec<String>, separator: &str) -> (r: String)
    ensures
        r@ == joined(texts(parts@), separator@),
{
    let mut out = String::new();
    let mut i: usize = 0;
    assert(texts(parts@).take(0) =~= Seq::empty());
    while i < parts.len()
        invariant
            i <= parts.len(),
            out@ == joined(texts(parts@).take(i as int), separator@),
        decreases parts.len() - i,
    {
        let ghost before = texts(parts@).take(i as int);
        if i > 0 {
            out.append(separator);
        }
        out.append(parts[i].as_str());
        proof {
            let now = texts(parts@).take(i + 1);
            assert(now.drop_last() =~= before);
            assert(now.last() == parts@[i as int]@);
            if i == 0 {
                assert(out@ =~= now[0]);
            }
        }
        i += 1;
    }
    assert(texts(parts@).take(i as int) =~= texts(parts@));
    out
}

/// The decimal digit of a number below ten.
pub open spec fn digit_char(n: int) -> char {
    ('0' as u32 + n) as u32 as char
}

/// A number in decimal.
pub open spec fn decimal(n: nat) -> Seq<char>
    decreases n,
{
    if n < 10 {
        seq![digit_char(n as int)]
    } else {
        decimal(n / 10).push(digit_char((n % 10) as int))
    }
}

fn digit(n: u64) -> (r: char)
    requires
        n < 10,
    ensures
        r == digit_char(n as int),
{
    match n {
        0 => '0',
        1 => '1',
        2 => '2',
        3 => '3',
        4 => '4',
        5 => '5',
        6 => '6',
        7 => '7',
        8 => '8',
        _ => '9',
    }
}

/// A number in decimal.
pub fn to_decimal(n: u64) -> (r: String)
    ensures
        r@ == decimal(n as nat),
    decreases n,
{
    let mut out = if n < 10 {
        String::new()
    } else {
        to_decimal(n / 10)
    };
    out.push(digit(n % 10));
    proof {
        assert(Seq::<char>::empty().push(digit_char(n as int)) =~= seq![digit_char(n as int)]);
    }
    out
}

// ---------------------------------------------------------------------------
// Order
// ---------------------------------------------------------------------------

/// Whether one sequence of bytes comes before another lexicographically.
pub open spec fn bytes_lt(a: Seq<u8>, b: Seq<u8>) -> bool
    decreases a.len(),
{
    if b.len() == 0 {
        false
    } else if a.len() == 0 {
        true
    } else if a[0] == b[0] {
        bytes_lt(a.skip(1), b.skip(1))
    } else {
        a[0] < b[0]
    }
}

/// Whether one text comes before another: lexicographically by the bytes of
/// UTF-8, as strings are ordered.
pub open spec fn text_lt(a: Seq<char>, b: Seq<char>) -> bool {
    bytes_lt(encode_utf8(a), encode_utf8(b))
}

pub proof fn lemma_bytes_lt_total(a: Seq<u8>, b: Seq<u8>)
    ensures
        !(bytes_lt(a, b) && bytes_lt(b, a)),
        bytes_lt(a, b) || bytes_lt(b, a) || a == b,
        a == b ==> !bytes_lt(a, b),
    decreases a.len(),
{
    if a.len() > 0 && b.len() > 0 && a[0] == b[0] {
        lemma_bytes_lt_total(a.skip(1), b.skip(1));
        if a.skip(1) == b.skip(1) {
            assert(a =~= seq![a[0]] + a.skip(1));
            assert(b =~= seq![b[0]] + b.skip(1));
        }
    } else if a.len() == 0 && b.len() == 0 {
        assert(a =~= b);
    }
}

pub proof fn lemma_bytes_lt_trans(a: Seq<u8>, b: Seq<u8>, c: Seq<u8>)
    requires
        bytes_lt(a, b),
        bytes_lt(b, c),
    ensures
        bytes_lt(a, c),
    decreases a.len(),
{
    if a.len() > 0 && a[0] == b[0] && b[0] == c[0] {
        lemma_bytes_lt_trans(a.skip(1), b.skip(1), c.skip(1));
    }
}

/// The order of texts is total: exactly one of before, behind and the same.
pub proof fn lemma_text_lt_total(a: Seq<char>, b: Seq<char>)
    ensures
        !(text_lt(a, b) && text_lt(b, a)),
        text_lt(a, b) || text_lt(b, a) || a == b,
        a == b ==> !text_lt(a, b),
{
    lemma_bytes_lt_total(encode_utf8(a), encode_utf8(b));
    encode_utf8_decode_utf8(a);
    encode_utf8_decode_utf8(b);
}

pub proof fn lemma_text_lt_trans(a: Seq<char>, b: Seq<char>, c: Seq<char>)
    requires
        text_lt(a, b),
        text_lt(b, c),
    ensures
        text_lt(a, c),
{
    lemma_bytes_lt_trans(encode_utf8(a), encode_utf8(b), encode_utf8(c));
}

/// Whether `a` comes before `b`.
pub fn text_before(a: &str, b: &str) -> (r: bool)
    ensures
        r == text_lt(a@, b@),
{
    let x = a.as_bytes();
    let y = b.as_bytes();
    let mut i: usize = 0;
    assert(x@.skip(0) =~= x@);
    assert(y@.skip(0) =~= y@);
    while i < x.len() && i < y.len()
        invariant
            i <= x.len(),
            i <= y.len(),
            x@ == encode_utf8(a@),
            y@ == encode_utf8(b@),
            text_lt(a@, b@) == bytes_lt(x@.skip(i as int), y@.skip(i as int)),
        decreases x.len() - i,
    {
        assert(x@.skip(i as int)[0] == x@[i as int]);
        assert(y@.skip(i as int)[0] == y@[i as int]);
        if x[i] != y[i] {
            return x[i] < y[i];
        }
        assert(x@.skip(i as int).skip(1) =~= x@.skip(i + 1));
        assert(y@.skip(i as int).skip(1) =~= y@.skip(i + 1));
        i += 1;
    }
    i < y.len()
}

// ---------------------------------------------------------------------------
// Trimming
// ---------------------------------------------------------------------------

/// The text without the white space that it starts with.
pub open spec fn trim_start(s: Seq<char>) -> Seq<char>
    decreases s.len(),
{
    if s.len() > 0 && is_whitespace(s[0]) {
        trim_start(s.skip(1))
    } else {
        s
    }
}

/// The text without the white space that it ends with.
pub open spec fn trim_end(s: Seq<char>) -> Seq<char>
    decreases s.len(),
{
    if s.len() > 0 && is_whitespace(s.last()) {
        trim_end(s.drop_last())
    } else {
        s
    }
}

/// The text without the white space around it.
pub open spec fn trimmed(s: Seq<char>) -> Seq<char> {
    trim_end(trim_start(s))
}

/// Where the trimmed text lies between two indices: its start and its end.
pub fn trim_range(chars: &[char], start: usize, end: usize) -> (r: (usize, usize))
    requires
        start <= end <= chars@.len(),
    ensures
        start <= r.0 <= r.1 <= end,
        chars@.subrange(r.0 as int, r.1 as int) == trimmed(
            chars@.subrange(start as int, end as int),
        ),
{
    let ghost whole = chars@.subrange(start as int, end as int);
    let mut lo: usize = start;
    while lo < end && whitespace(chars[lo])
        invariant
            start <= lo <= end <= chars@.len(),
            trim_start(whole) == trim_start(chars@.subrange(lo as int, end as int)),
        decreases end - lo,
    {
        let ghost here = chars@.subrange(lo as int, end as int);
        assert(here[0] == chars@[lo as int]);
        assert(here.skip(1) =~= chars@.subrange(lo + 1, end as int));
        lo += 1;
    }
    let ghost rest = chars@.subrange(lo as int, end as int);
    proof {
        if lo < end {
            assert(rest[0] == chars@[lo as int]);
        }
        assert(trim_start(whole) == rest);
    }
    let mut hi: usize = end;
    while hi > lo && whitespace(chars[hi - 1])
        invariant
            lo <= hi <= end <= chars@.len(),
            trim_end(rest) == trim_end(chars@.subrange(lo as int, hi as int)),
        decreases hi,
    {
        let ghost here = chars@.subrange(lo as int, hi as int);
        assert(here.last() == chars@[hi - 1]);
        assert(here.drop_last() =~= chars@.subrange(lo as int, hi - 1));
        hi -= 1;
    }
    proof {
        let here = chars@.subrange(lo as int, hi as int);
        if hi > lo {
            assert(here.last() == chars@[hi - 1]);
        }
    }
    (lo, hi)
}

/// The text without the white space around it.
pub fn trim(s: &str) -> (r: String)
    ensures
        r@ == trimmed(s@),
{
    let chars = to_chars(s);
    let (lo, hi) = trim_range(&chars, 0, chars.len());
    assert(chars@.subrange(0, chars@.len() as int) =~= s@);
    from_range(&chars, lo, hi)
}

// ---------------------------------------------------------------------------
// Prefixes
// ---------------------------------------------------------------------------

pub proof fn lemma_encode_add(a: Seq<char>, b: Seq<char>)
    ensures
        encode_utf8(a + b) == encode_utf8(a) + encode_utf8(b),
    decreases a.len(),
{
    if a.len() == 0 {
        assert(a + b =~= b);
        assert(encode_utf8(a) =~= Seq::empty());
        assert(encode_utf8(a) + encode_utf8(b) =~= encode_utf8(b));
    } else {
        lemma_encode_add(a.drop_first(), b);
        assert((a + b).drop_first() =~= a.drop_first() + b);
        assert(encode_utf8(a + b) =~= encode_utf8(a) + encode_utf8(b));
    }
}

/// A text is a prefix of another exactly where its bytes are.
pub proof fn lemma_prefix_bytes(p: Seq<char>, s: Seq<char>)
    ensures
        p.is_prefix_of(s) <==> encode_utf8(p).is_prefix_of(encode_utf8(s)),
    decreases p.len(),
{
    let (a, b) = (encode_utf8(p), encode_utf8(s));
    if p.is_prefix_of(s) {
        let rest = s.skip(p.len() as int);
        assert(p + rest =~= s);
        lemma_encode_add(p, rest);
    }
    if a.is_prefix_of(b) && p.len() > 0 {
        encode_utf8_first_scalar(p);
        if s.len() == 0 {
            assert(b =~= Seq::empty());
        }
        encode_utf8_first_scalar(s);
        assert forall|i: int| 0 <= i < a.len() implies a[i] == b[i] by {}
        char_u32_cast(p[0], p[0] as u32);
        char_u32_cast(s[0], s[0] as u32);
        assert(p[0] == s[0]);
        let w = encode_scalar(p[0] as u32).len() as int;
        let (pr, sr) = (p.drop_first(), s.drop_first());
        assert(a.skip(w) =~= encode_utf8(pr));
        assert(b.skip(w) =~= encode_utf8(sr));
        assert(encode_utf8(pr).is_prefix_of(encode_utf8(sr)));
        lemma_prefix_bytes(pr, sr);
        assert forall|i: int| 0 <= i < p.len() implies p[i] == s[i] by {
            if i > 0 {
                assert(pr[i - 1] == sr[i - 1]);
            }
        }
    }
    if a.is_prefix_of(b) && p.len() == 0 {
        assert(p.is_prefix_of(s));
    }
}

proof fn lemma_bytes_prefix_order(p: Seq<u8>, a: Seq<u8>, b: Seq<u8>)
    ensures
        p.is_prefix_of(b) ==> !bytes_lt(b, p),
        !bytes_lt(a, p) && bytes_lt(a, b) && p.is_prefix_of(b) ==> p.is_prefix_of(a),
    decreases p.len(),
{
    if p.len() > 0 && p.is_prefix_of(b) {
        assert(p[0] == b[0]);
        assert(p.skip(1).is_prefix_of(b.skip(1)));
        lemma_bytes_prefix_order(p.skip(1), a.skip(1), b.skip(1));
        if !bytes_lt(a, p) && bytes_lt(a, b) {
            assert(a.len() > 0 && a[0] == p[0]);
            assert(p.skip(1).is_prefix_of(a.skip(1)));
            assert forall|i: int| 0 <= i < p.len() implies p[i] == a[i] by {
                if i > 0 {
                    assert(p.skip(1)[i - 1] == a.skip(1)[i - 1]);
                }
            }
        }
    }
}

/// The texts with a prefix stand together: none comes before the prefix, and
/// what lies between the prefix and such a text has the prefix too.
pub proof fn lemma_prefix_order(p: Seq<char>, a: Seq<char>, b: Seq<char>)
    ensures
        p.is_prefix_of(b) ==> !text_lt(b, p),
        !text_lt(a, p) && text_lt(a, b) && p.is_prefix_of(b) ==> p.is_prefix_of(a),
{
    lemma_prefix_bytes(p, a);
    lemma_prefix_bytes(p, b);
    lemma_bytes_prefix_order(encode_utf8(p), encode_utf8(a), encode_utf8(b));
}

/// Whether a text starts with another.
pub fn starts_with(s: &str, prefix: &str) -> (r: bool)
    ensures
        r == prefix@.is_prefix_of(s@),
{
    let x = s.as_bytes();
    let p = prefix.as_bytes();
    proof {
        lemma_prefix_bytes(prefix@, s@);
    }
    if p.len() > x.len() {
        return false;
    }
    let mut i: usize = 0;
    while i < p.len()
        invariant
            i <= p.len() <= x.len(),
            x@ == encode_utf8(s@),
            p@ == encode_utf8(prefix@),
            prefix@.is_prefix_of(s@) <==> p@.is_prefix_of(x@),
            forall|k: int| 0 <= k < i ==> p@[k] == x@[k],
        decreases p.len() - i,
    {
        if x[i] != p[i] {
            assert(p@[i as int] != x@[i as int]);
            return false;
        }
        i += 1;
    }
    assert(p@.is_prefix_of(x@));
    true
}

// ---------------------------------------------------------------------------
// Numbers
// ---------------------------------------------------------------------------

/// The value of a text of decimal digits.
pub open spec fn digits_value(s: Seq<char>) -> Option<nat>
    decreases s.len(),
{
    if s.len() == 0 {
        Some(0)
    } else if !is_ascii_digit(s.last()) {
        None
    } else {
        match digits_value(s.drop_last()) {
            Some(v) => Some(10 * v + (s.last() as u32 - '0' as u32) as nat),
            None => None,
        }
    }
}

/// The unsigned number that a text spells: digits, at least one, with a `+`
/// before them or not, and no more than `max`.
pub open spec fn unsigned_value(s: Seq<char>, max: nat) -> Option<nat> {
    let digits = if s.len() > 0 && s[0] == '+' {
        s.skip(1)
    } else {
        s
    };
    if digits.len() == 0 {
        None
    } else {
        match digits_value(digits) {
            Some(v) => if v <= max {
                Some(v)
            } else {
                None
            },
            None => None,
        }
    }
}

proof fn lemma_digits_prefix(s: Seq<char>, n: int)
    requires
        0 <= n <= s.len(),
    ensures
        digits_value(s) is Some ==> digits_value(s.take(n)) is Some && digits_value(s.take(n))->0
            <= digits_value(s)->0,
    decreases s.len(),
{
    if n == s.len() {
        assert(s.take(n) =~= s);
    } else {
        lemma_digits_prefix(s.drop_last(), n);
        assert(s.drop_last().take(n) =~= s.take(n));
    }
}

/// The unsigned number that a text spells, up to `max`.
pub fn parse_unsigned(s: &str, max: u64) -> (r: Option<u64>)
    ensures
        match r {
            Some(v) => unsigned_value(s@, max as nat) == Some(v as nat),
            None => unsigned_value(s@, max as nat) is None,
        },
{
    let chars = to_chars(s);
    let start: usize = if chars.len() > 0 && chars[0] == '+' {
        1
    } else {
        0
    };
    if start >= chars.len() {
        return None;
    }
    let ghost digits = s@.skip(start as int);
    assert(s@.skip(0) =~= s@);
    let mut value: u64 = 0;
    let mut i: usize = start;
    assert(digits.take(0) =~= Seq::empty());
    while i < chars.len()
        invariant
            start <= i <= chars@.len(),
            chars@ == s@,
            digits == s@.skip(start as int),
            digits_value(digits.take(i - start)) == Some(value as nat),
            value <= max,
            digits.len() > 0,
            digits == if s@.len() > 0 && s@[0] == '+' {
                s@.skip(1)
            } else {
                s@
            },
        decreases chars@.len() - i,
    {
        let c = chars[i];
        let ghost now = digits.take(i + 1 - start);
        proof {
            assert(now.drop_last() =~= digits.take(i - start));
            assert(now.last() == c);
            lemma_digits_prefix(digits, i + 1 - start);
        }
        if !('0' <= c && c <= '9') {
            return None;
        }
        let d: u64 = c as u64 - 48;
        if value > max / 10 {
            return None;
        }
        let next: u64 = value * 10;
        if d > max - next {
            return None;
        }
        value = next + d;
        i += 1;
    }
    assert(digits.take(i - start) =~= digits);
    Some(value)
}

/// A number's decimal digits spell it.
pub proof fn lemma_decimal_value(n: nat)
    ensures
        digits_value(decimal(n)) == Some(n),
        decimal(n).len() > 0,
        forall|i: int| 0 <= i < decimal(n).len() ==> is_ascii_digit(#[trigger] decimal(n)[i]),
    decreases n,
{
    let d = (n % 10) as int;
    assert(is_ascii_digit(digit_char(d)) && digit_char(d) as u32 - '0' as u32 == d);
    if n < 10 {
        let s = decimal(n);
        assert(s.drop_last() =~= Seq::empty());
        assert(digits_value(s.drop_last()) == Some(0nat));
        assert(s.last() == digit_char(d));
    } else {
        lemma_decimal_value(n / 10);
        let s = decimal(n);
        assert(s.drop_last() =~= decimal(n / 10));
        assert(s.last() == digit_char(d));
        assert forall|i: int| 0 <= i < s.len() implies is_ascii_digit(#[trigger] s[i]) by {
            if i < s.len() - 1 {
                assert(s[i] == decimal(n / 10)[i]);
            }
        }
    }
}

// ---------------------------------------------------------------------------
// Splitting
// ---------------------------------------------------------------------------

/// The pieces between the separators: one more than there are separators.
pub open spec fn split_at_char(s: Seq<char>, separator: char) -> Seq<Seq<char>>
    decreases s.len(),
{
    let i = first_index(s, separator);
    if 0 <= i < s.len() {
        seq![s.take(i)] + split_at_char(s.skip(i + 1), separator)
    } else {
        seq![s]
    }
}

/// A separator more splits a text there, and nowhere else.
pub proof fn lemma_split_add(a: Seq<char>, separator: char, b: Seq<char>)
    ensures
        split_at_char(a + seq![separator] + b, separator) == split_at_char(a, separator)
            + split_at_char(b, separator),
        split_at_char(a, separator).len() > 0,
    decreases a.len(),
{
    let whole = a + seq![separator] + b;
    let i = first_index(a, separator);
    lemma_first_index(a, separator);
    assert forall|k: int| 0 <= k < i implies whole[k] != separator by {
        assert(whole[k] == a[k]);
    }
    assert(whole[i] == separator);
    lemma_is_first_index(whole, separator, i);
    assert(whole.take(i) =~= a.take(i));
    if i < a.len() {
        let rest = a.skip(i + 1);
        lemma_split_add(rest, separator, b);
        assert(whole.skip(i + 1) =~= rest + seq![separator] + b);
        assert(seq![a.take(i)] + (split_at_char(rest, separator) + split_at_char(b, separator))
            =~= (seq![a.take(i)] + split_at_char(rest, separator)) + split_at_char(b, separator));
    } else {
        assert(a.take(i) =~= a);
        assert(whole.skip(i + 1) =~= b);
    }
}

/// A text without separators is one piece.
pub proof fn lemma_split_none(s: Seq<char>, separator: char)
    requires
        !s.contains(separator),
    ensures
        split_at_char(s, separator) == seq![s],
{
    lemma_first_index(s, separator);
}

/// The pieces between the separators.
pub fn split(s: &str, separator: char) -> (r: Vec<String>)
    ensures
        texts(r@) == split_at_char(s@, separator),
{
    let chars = to_chars(s);
    let len: usize = chars.len();
    let mut out: Vec<String> = Vec::new();
    let mut start: usize = 0;
    let ghost whole = split_at_char(s@, separator);
    assert(chars@.skip(0) =~= s@);
    assert(texts(out@) + whole =~= whole);
    loop
        invariant_except_break
            start <= len,
            len == chars@.len(),
            whole == texts(out@) + split_at_char(chars@.skip(start as int), separator),
        ensures
            whole == texts(out@),
        decreases len - start,
    {
        let ghost rest = chars@.skip(start as int);
        let ghost before = texts(out@);
        let i: usize = find_from(&chars, start, separator);
        let piece = from_range(&chars, start, i);
        proof {
            lemma_texts_push(out@, piece);
            assert(chars@.subrange(start as int, i as int) =~= rest.take(i - start));
        }
        if i < len {
            assert(rest.skip(i - start + 1) =~= chars@.skip(i + 1));
            out.push(piece);
            assert(before + (seq![piece@] + split_at_char(chars@.skip(i + 1), separator))
                =~= before.push(piece@) + split_at_char(chars@.skip(i + 1), separator));
            start = i + 1;
        } else {
            assert(rest.take(i - start) =~= rest);
            out.push(piece);
            assert(before + seq![piece@] =~= before.push(piece@));
            break;
        }
    }
    out
}

/// A text without one carriage return at its end.
pub open spec fn without_cr(s: Seq<char>) -> Seq<char> {
    if s.len() > 0 && s.last() == '\r' {
        s.drop_last()
    } else {
        s
    }
}

/// The lines of a text: each ends at a line feed, with or without a carriage
/// return before it, and the last one at the end of the text unless that is
/// empty.
pub open spec fn lines_of(s: Seq<char>) -> Seq<Seq<char>>
    decreases s.len(),
{
    let i = first_index(s, '\n');
    if 0 <= i < s.len() {
        seq![without_cr(s.take(i))] + lines_of(s.skip(i + 1))
    } else if s.len() == 0 {
        Seq::empty()
    } else {
        seq![s]
    }
}

/// The lines of a text.
pub fn lines(s: &str) -> (r: Vec<String>)
    ensures
        texts(r@) == lines_of(s@),
{
    let chars = to_chars(s);
    let len: usize = chars.len();
    let mut out: Vec<String> = Vec::new();
    let mut start: usize = 0;
    let ghost whole = lines_of(s@);
    assert(chars@.skip(0) =~= s@);
    assert(texts(out@) + whole =~= whole);
    while start < len
        invariant
            start <= len,
            len == chars@.len(),
            whole == texts(out@) + lines_of(chars@.skip(start as int)),
        decreases len - start,
    {
        let ghost rest = chars@.skip(start as int);
        let ghost before = texts(out@);
        let i: usize = find_from(&chars, start, '\n');
        if i < len {
            let end: usize = if i > start && chars[i - 1] == '\r' {
                i - 1
            } else {
                i
            };
            let line = from_range(&chars, start, end);
            proof {
                lemma_texts_push(out@, line);
                let piece = rest.take(i - start);
                if i > start {
                    assert(piece.last() == chars@[i - 1]);
                }
                assert(line@ =~= without_cr(piece));
                assert(rest.skip(i - start + 1) =~= chars@.skip(i + 1));
                assert(before + (seq![line@] + lines_of(chars@.skip(i + 1)))
                    =~= before.push(line@) + lines_of(chars@.skip(i + 1)));
            }
            out.push(line);
            start = i + 1;
        } else {
            let line = from_range(&chars, start, len);
            proof {
                lemma_texts_push(out@, line);
                assert(line@ =~= rest);
                assert(chars@.skip(len as int) =~= Seq::empty());
                assert(before + seq![line@] =~= before.push(line@) + lines_of(
                    chars@.skip(len as int),
                ));
            }
            out.push(line);
            start = len;
        }
    }
    assert(chars@.skip(start as int) =~= Seq::empty());
    assert(texts(out@) + Seq::empty() =~= texts(out@));
    out
}

/// What follows a prefix.
pub open spec fn after_prefix(s: Seq<char>, prefix: Seq<char>) -> Option<Seq<char>> {
    if prefix.is_prefix_of(s) {
        Some(s.skip(prefix.len() as int))
    } else {
        None
    }
}

/// What follows a prefix.
pub fn strip_prefix(s: &str, prefix: &str) -> (r: Option<String>)
    ensures
        opt_text(r) == after_prefix(s@, prefix@),
{
    if !starts_with(s, prefix) {
        return None;
    }
    let chars = to_chars(s);
    let from: usize = to_chars(prefix).len();
    let rest = from_range(&chars, from, chars.len());
    assert(rest@ =~= s@.skip(from as int));
    Some(rest)
}

/// Whether a text stands in another at an index.
pub open spec fn stands_at(s: Seq<char>, t: Seq<char>, at: int) -> bool {
    0 <= at && at + t.len() <= s.len() && s.subrange(at, at + t.len()) == t
}

/// The first index at or behind `from` at which a text stands in another, or
/// -1.
pub open spec fn find_text(s: Seq<char>, t: Seq<char>, from: int) -> int
    decreases s.len() + 1 - from,
{
    if from < 0 || from > s.len() {
        -1
    } else if stands_at(s, t, from) {
        from
    } else {
        find_text(s, t, from + 1)
    }
}

fn stands(chars: &[char], t: &[char], at: usize) -> (r: bool)
    requires
        at <= chars@.len(),
    ensures
        r == stands_at(chars@, t@, at as int),
{
    if t.len() > chars.len() - at {
        return false;
    }
    let ghost here = chars@.subrange(at as int, at + t@.len());
    let mut i: usize = 0;
    let total: usize = chars.len();
    while i < t.len()
        invariant
            i <= t.len(),
            at + t.len() <= total,
            total == chars@.len(),
            here == chars@.subrange(at as int, at + t@.len()),
            forall|k: int| 0 <= k < i ==> here[k] == t@[k],
        decreases t.len() - i,
    {
        if chars[at + i] != t[i] {
            assert(here[i as int] != t@[i as int]);
            return false;
        }
        i += 1;
    }
    assert(here =~= t@);
    true
}

/// The first index at or behind `from` at which a text stands in another.
pub fn find(chars: &[char], t: &[char], from: usize) -> (r: Option<usize>)
    requires
        from <= chars@.len(),
    ensures
        match r {
            Some(i) => find_text(chars@, t@, from as int) == i && from <= i && stands_at(
                chars@,
                t@,
                i as int,
            ),
            None => find_text(chars@, t@, from as int) == -1,
        },
{
    let mut i: usize = from;
    let total: usize = chars.len();
    loop
        invariant
            from <= i <= total,
            total == chars@.len(),
            find_text(chars@, t@, from as int) == find_text(chars@, t@, i as int),
        decreases total - i,
    {
        if stands(chars, t, i) {
            return Some(i);
        }
        if i == total {
            assert(find_text(chars@, t@, total + 1) == -1);
            return None;
        }
        i += 1;
    }
}

/// Whether a text holds another.
pub fn contains(s: &str, t: &str) -> (r: bool)
    ensures
        r == (find_text(s@, t@, 0) >= 0),
{
    let chars = to_chars(s);
    let wanted = to_chars(t);
    match find(&chars, &wanted, 0) {
        Some(_) => true,
        None => false,
    }
}

// ---------------------------------------------------------------------------
// Hexadecimal
// ---------------------------------------------------------------------------

/// The lower-case hexadecimal digit of a number below sixteen.
pub open spec fn hex_char(n: int) -> char {
    if n < 10 {
        digit_char(n)
    } else {
        ('a' as u32 + (n - 10)) as u32 as char
    }
}

/// The last `width` hexadecimal digits of a number.
pub open spec fn hex_text(n: nat, width: nat) -> Seq<char>
    decreases width,
{
    if width == 0 {
        Seq::empty()
    } else {
        hex_text(n / 16, (width - 1) as nat).push(hex_char((n % 16) as int))
    }
}

/// A number in sixteen hexadecimal digits.
pub open spec fn hex16_text(n: u64) -> Seq<char> {
    hex_text(n as nat, 16)
}

fn hex_digit(n: u64) -> (r: char)
    requires
        n < 16,
    ensures
        r == hex_char(n as int),
{
    if n < 10 {
        digit(n)
    } else {
        match n {
            10 => 'a',
            11 => 'b',
            12 => 'c',
            13 => 'd',
            14 => 'e',
            _ => 'f',
        }
    }
}

fn push_hex(n: u64, width: u8) -> (r: String)
    ensures
        r@ == hex_text(n as nat, width as nat),
    decreases width,
{
    if width == 0 {
        return String::new();
    }
    let mut out = push_hex(n / 16, width - 1);
    out.push(hex_digit(n % 16));
    out
}

/// A number in sixteen hexadecimal digits.
pub fn hex16(n: u64) -> (r: String)
    ensures
        r@ == hex16_text(n),
{
    push_hex(n, 16)
}

/// Whether a character is a lower-case hexadecimal digit.
pub open spec fn is_hex_char(c: char) -> bool {
    '0' <= c <= '9' || 'a' <= c <= 'f'
}

/// The number of texts of `width` hexadecimal digits.
pub open spec fn hex_count(width: nat) -> nat
    decreases width,
{
    if width == 0 {
        1
    } else {
        16 * hex_count((width - 1) as nat)
    }
}

proof fn lemma_hex_char(n: int, m: int)
    requires
        0 <= n < 16,
        0 <= m < 16,
    ensures
        is_hex_char(hex_char(n)),
        hex_char(n) == hex_char(m) ==> n == m,
{
}

/// Numbers in hexadecimal are as long as they are to be, and numbers that fit
/// are told apart.
pub proof fn lemma_hex_text(n: nat, m: nat, width: nat)
    ensures
        hex_text(n, width).len() == width,
        forall|i: int| 0 <= i < width ==> is_hex_char(#[trigger] hex_text(n, width)[i]),
        n < hex_count(width) && m < hex_count(width) && hex_text(n, width) == hex_text(m, width)
            ==> n == m,
    decreases width,
{
    if width > 0 {
        let w = (width - 1) as nat;
        lemma_hex_text(n / 16, m / 16, w);
        lemma_hex_text(m / 16, n / 16, w);
        lemma_hex_char((n % 16) as int, (m % 16) as int);
        let (x, y) = (hex_text(n, width), hex_text(m, width));
        if x == y {
            assert(x.last() == y.last());
            assert(x.drop_last() =~= hex_text(n / 16, w));
            assert(y.drop_last() =~= hex_text(m / 16, w));
        }
    }
}

/// Sixteen hexadecimal digits tell all numbers of 64 bits apart.
pub proof fn lemma_hex16_text(n: u64, m: u64)
    ensures
        hex16_text(n).len() == 16,
        forall|i: int| 0 <= i < 16 ==> is_hex_char(#[trigger] hex16_text(n)[i]),
        hex16_text(n) == hex16_text(m) ==> n == m,
{
    lemma_hex_text(n as nat, m as nat, 16);
    assert(hex_count(16) == 0x1_0000_0000_0000_0000) by {
        reveal_with_fuel(hex_count, 17);
    }
}

/// The lines of a text are what stands between its line breaks, whether these
/// have a carriage return or not; what follows the last break is a line unless
/// it is empty.
pub proof fn law_lines_stand_between_line_breaks(line: Seq<char>, rest: Seq<char>)
    requires
        !line.contains('\n'),
        line.len() > 0 ==> line.last() != '\r',
    ensures
        lines_of(line + seq!['\n'] + rest) == seq![line] + lines_of(rest),
        lines_of(line + seq!['\r', '\n'] + rest) == seq![line] + lines_of(rest),
        line.len() > 0 ==> lines_of(line) == seq![line],
        lines_of(Seq::empty()).len() == 0,
{
    let n = line.len() as int;
    assert forall|k: int| 0 <= k < n implies line[k] != '\n' by {
        assert(line.contains(line[k]));
    }
    let a = line + seq!['\n'] + rest;
    assert(a[n] == '\n');
    lemma_is_first_index(a, '\n', n);
    assert(a.take(n) =~= line);
    assert(a.skip(n + 1) =~= rest);
    let b = line + seq!['\r', '\n'] + rest;
    assert(b[n] == '\r' && b[n + 1] == '\n');
    lemma_is_first_index(b, '\n', n + 1);
    assert(b.take(n + 1) =~= line.push('\r'));
    assert(line.push('\r').drop_last() =~= line);
    assert(b.skip(n + 2) =~= rest);
    lemma_is_first_index(line, '\n', n);
}

/// A number is read as it is written, where it is not too large.
pub proof fn law_numbers_are_read_as_they_are_written(n: nat, max: nat)
    ensures
        unsigned_value(decimal(n), max) == if n <= max {
            Some(n)
        } else {
            None
        },
        unsigned_value(seq!['+'] + decimal(n), max) == unsigned_value(decimal(n), max),
{
    lemma_decimal_value(n);
    assert(is_ascii_digit(decimal(n)[0]));
    let signed = seq!['+'] + decimal(n);
    assert(signed.skip(1) =~= decimal(n));
}

/// Texts are in order by their first difference: what they have in common does
/// not matter, and a text comes before whatever it begins.
pub proof fn law_texts_are_ordered_by_their_first_difference(
    common: Seq<char>,
    a: Seq<char>,
    b: Seq<char>,
    c: char,
)
    ensures
        text_lt(common + a, common + b) == text_lt(a, b),
        text_lt(a, a.push(c)),
        !text_lt(a, a),
{
    lemma_encode_add(common, a);
    lemma_encode_add(common, b);
    lemma_bytes_lt_common(encode_utf8(common), encode_utf8(a), encode_utf8(b));
    lemma_text_lt_total(a, a);
    let one = seq![c];
    lemma_encode_add(a, one);
    assert(a.push(c) =~= a + one);
    lemma_encode_add(a, Seq::empty());
    assert(a + Seq::empty() =~= a);
    lemma_bytes_lt_common(encode_utf8(a), encode_utf8(Seq::empty()), encode_utf8(one));
    assert(encode_utf8(Seq::<char>::empty()) =~= Seq::empty());
    vstd::utf8::encode_utf8_decode_utf8(one);
    if encode_utf8(one).len() == 0 {
        assert(vstd::utf8::decode_utf8(encode_utf8(one)) =~= Seq::empty());
        assert(one.len() == 1);
    }
    assert(encode_utf8(a) + Seq::<u8>::empty() =~= encode_utf8(a));
}

proof fn lemma_bytes_lt_common(common: Seq<u8>, a: Seq<u8>, b: Seq<u8>)
    ensures
        bytes_lt(common + a, common + b) == bytes_lt(a, b),
    decreases common.len(),
{
    if common.len() == 0 {
        assert(common + a =~= a && common + b =~= b);
    } else {
        let rest = common.skip(1);
        assert((common + a)[0] == common[0] && (common + b)[0] == common[0]);
        assert((common + a).skip(1) =~= rest + a);
        assert((common + b).skip(1) =~= rest + b);
        lemma_bytes_lt_common(rest, a, b);
    }
}

} // verus!
