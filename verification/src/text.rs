//! Operations on text: trimming, searching, comparing, splitting and joining,
//! decimal numerals, and the bytes of a string.
use vstd::prelude::*;
use vstd::utf8::*;

verus! {

/// What `str::to_uppercase` of std returns on text that is not all ASCII: the
/// Unicode uppercase mapping.
pub uninterp spec fn unicode_uppercase(s: Seq<char>) -> Seq<char>;

/// What `str::to_lowercase` of std returns on text that is not all ASCII: the
/// Unicode lowercase mapping.
pub uninterp spec fn unicode_lowercase(s: Seq<char>) -> Seq<char>;

/// What `char::is_alphanumeric` of std returns on a character that is not
/// ASCII: the Unicode properties Alphabetic and Numeric.
pub uninterp spec fn unicode_alphanumeric(c: char) -> bool;

/// What `String::from_utf8_lossy` of std returns on bytes that are not UTF-8:
/// each ill-formed part is replaced by U+FFFD.
pub uninterp spec fn replaced_text(bytes: Seq<u8>) -> Seq<char>;

/// An ASCII letter in upper case, and every other character as it is.
pub open spec fn ascii_upper(c: char) -> char {
    if 'a' <= c && c <= 'z' {
        ((c as u32 - 32) as u32) as char
    } else {
        c
    }
}

/// An ASCII letter in lower case, and every other character as it is.
pub open spec fn ascii_lower(c: char) -> char {
    if 'A' <= c && c <= 'Z' {
        ((c as u32 + 32) as u32) as char
    } else {
        c
    }
}

/// An ASCII letter or digit.
pub open spec fn ascii_alphanumeric(c: char) -> bool {
    ('a' <= c && c <= 'z') || ('A' <= c && c <= 'Z') || ('0' <= c && c <= '9')
}

/// The text in upper case.
pub open spec fn uppercase(s: Seq<char>) -> Seq<char> {
    if is_ascii_chars(s) {
        s.map_values(|c: char| ascii_upper(c))
    } else {
        unicode_uppercase(s)
    }
}

/// The text in lower case.
pub open spec fn lowercase(s: Seq<char>) -> Seq<char> {
    if is_ascii_chars(s) {
        s.map_values(|c: char| ascii_lower(c))
    } else {
        unicode_lowercase(s)
    }
}

/// A letter or digit of any script.
pub open spec fn alphanumeric(c: char) -> bool {
    if (c as u32) < 128 {
        ascii_alphanumeric(c)
    } else {
        unicode_alphanumeric(c)
    }
}

/// The text that bytes encode, with ill-formed parts replaced.
pub open spec fn lossy_text(bytes: Seq<u8>) -> Seq<char> {
    if valid_utf8(bytes) {
        decode_utf8(bytes)
    } else {
        replaced_text(bytes)
    }
}

/// Calls `str::to_uppercase` of std. Of ASCII text the result is stated: the
/// letters `a` to `z` become `A` to `Z`. Of other text it is named.
#[verifier::external_body]
pub(crate) fn to_upper(s: &str) -> (r: String)
    ensures
        r@ == if is_ascii_chars(s@) {
            s@.map_values(|c: char| ascii_upper(c))
        } else {
            unicode_uppercase(s@)
        },
{
    s.to_uppercase()
}

/// Calls `str::to_lowercase` of std. Of ASCII text the result is stated: the
/// letters `A` to `Z` become `a` to `z`. Of other text it is named.
#[verifier::external_body]
pub(crate) fn to_lower(s: &str) -> (r: String)
    ensures
        r@ == if is_ascii_chars(s@) {
            s@.map_values(|c: char| ascii_lower(c))
        } else {
            unicode_lowercase(s@)
        },
{
    s.to_lowercase()
}

/// Calls `char::is_alphanumeric` of std. Of an ASCII character the result is
/// stated: the letters and the digits. Of another it is named.
#[verifier::external_body]
pub(crate) fn is_alphanumeric(c: char) -> (r: bool)
    ensures
        r == if (c as u32) < 128 {
            ascii_alphanumeric(c)
        } else {
            unicode_alphanumeric(c)
        },
{
    c.is_alphanumeric()
}

/// Calls `String::from_utf8_lossy` of std. Of well-formed UTF-8 the result is
/// stated: the text that the bytes encode. Of other bytes it is named.
#[verifier::external_body]
pub(crate) fn decode_lossy(bytes: &[u8]) -> (r: String)
    ensures
        r@ == if valid_utf8(bytes@) {
            decode_utf8(bytes@)
        } else {
            replaced_text(bytes@)
        },
{
    String::from_utf8_lossy(bytes).to_string()
}

/// `String::push` of std appends one character.
pub assume_specification[ std::string::String::push ](s: &mut std::string::String, c: char)
    ensures
        final(s)@ == old(s)@.push(c),
;

/// Unicode White_Space.
pub open spec fn white(c: char) -> bool {
    let u = c as u32;
    ||| 0x09 <= u <= 0x0D
    ||| u == 0x20
    ||| u == 0x85
    ||| u == 0xA0
    ||| u == 0x1680
    ||| 0x2000 <= u <= 0x200A
    ||| u == 0x2028
    ||| u == 0x2029
    ||| u == 0x202F
    ||| u == 0x205F
    ||| u == 0x3000
}

/// Whether a character is white space.
pub fn is_white(c: char) -> (r: bool)
    ensures
        r == white(c),
{
    let u = c as u32;
    (0x09 <= u && u <= 0x0D) || u == 0x20 || u == 0x85 || u == 0xA0 || u == 0x1680 || (0x2000 <= u
        && u <= 0x200A) || u == 0x2028 || u == 0x2029 || u == 0x202F || u == 0x205F || u == 0x3000
}

/// The characters of a string.
pub fn chars_of(s: &str) -> (r: Vec<char>)
    ensures
        r@ == s@,
{
    let mut v: Vec<char> = Vec::new();
    for c in it: s.chars()
        invariant
            v@ == s@.take(it.index() as int),
            it.seq() == s@,
    {
        v.push(c);
        assert(s@.take(it.index() + 1) =~= s@.take(it.index() as int).push(c));
    }
    assert(s@.take(s@.len() as int) =~= s@);
    v
}

/// The string made of the characters from `from` up to `to`.
pub fn string_from(v: &Vec<char>, from: usize, to: usize) -> (r: String)
    requires
        from <= to <= v@.len(),
    ensures
        r@ == v@.subrange(from as int, to as int),
{
    let mut s = String::new();
    let mut i: usize = from;
    while i < to
        invariant
            from <= i <= to <= v@.len(),
            s@ == v@.subrange(from as int, i as int),
        decreases to - i,
    {
        s.push(v[i]);
        proof {
            assert(v@.subrange(from as int, i + 1) =~= v@.subrange(from as int, i as int).push(v@[i as int]));
        }
        i = i + 1;
    }
    s
}

/// Whether two texts are the same.
pub fn same_text(a: &str, b: &str) -> (r: bool)
    ensures
        r == (a@ == b@),
{
    a.to_owned() == b.to_owned()
}

/// One text after another.
pub fn join_two(a: &str, b: &str) -> (r: String)
    ensures
        r@ == a@ + b@,
{
    let mut s = a.to_owned();
    s.append(b);
    s
}

/// `s` without the characters satisfying `p` at its start.
pub open spec fn drop_start(s: Seq<char>, p: spec_fn(char) -> bool) -> Seq<char>
    decreases s.len(),
{
    if s.len() > 0 && p(s[0]) {
        drop_start(s.skip(1), p)
    } else {
        s
    }
}

/// `s` without the characters satisfying `p` at its end.
pub open spec fn drop_end(s: Seq<char>, p: spec_fn(char) -> bool) -> Seq<char>
    decreases s.len(),
{
    if s.len() > 0 && p(s.last()) {
        drop_end(s.drop_last(), p)
    } else {
        s
    }
}

/// The one character `x`.
pub open spec fn same_as(x: char) -> spec_fn(char) -> bool {
    |c: char| c == x
}

/// `s` without white space at its start.
pub open spec fn trimmed_start(s: Seq<char>) -> Seq<char> {
    drop_start(s, |c: char| white(c))
}

/// `s` without white space at its end.
pub open spec fn trimmed_end(s: Seq<char>) -> Seq<char> {
    drop_end(s, |c: char| white(c))
}

/// `s` without white space at either end.
pub open spec fn trimmed(s: Seq<char>) -> Seq<char> {
    trimmed_end(trimmed_start(s))
}

/// Removes white space from the start, or the character `only` where one is given.
pub fn trim_start_of(s: &str, only: Option<char>) -> (r: String)
    ensures
        r@ == match only {
            Some(x) => drop_start(s@, same_as(x)),
            None => trimmed_start(s@),
        },
{
    let v = chars_of(s);
    let mut i: usize = 0;
    let ghost p = match only {
        Some(x) => same_as(x),
        None => |c: char| white(c),
    };
    proof {
        assert(v@.skip(0) =~= v@);
    }
    loop
        invariant
            i <= v@.len(),
            p == match only {
                Some(x) => same_as(x),
                None => |c: char| white(c),
            },
            drop_start(v@, p) == drop_start(v@.skip(i as int), p),
        ensures
            i <= v@.len(),
            drop_start(v@, p) == v@.skip(i as int),
        decreases v@.len() - i,
    {
        if i >= v.len() {
            break ;
        }
        let hit = match only {
            Some(x) => v[i] == x,
            None => is_white(v[i]),
        };
        if !hit {
            break ;
        }
        proof {
            assert(v@.skip(i as int).skip(1) =~= v@.skip(i + 1));
        }
        i = i + 1;
    }
    let n = v.len();
    proof {
        assert(v@.subrange(i as int, n as int) =~= v@.skip(i as int));
    }
    string_from(&v, i, n)
}

/// Removes white space from the end, or the character `only` where one is given.
pub fn trim_end_of(s: &str, only: Option<char>) -> (r: String)
    ensures
        r@ == match only {
            Some(x) => drop_end(s@, same_as(x)),
            None => trimmed_end(s@),
        },
{
    let v = chars_of(s);
    let mut n: usize = v.len();
    let ghost p = match only {
        Some(x) => same_as(x),
        None => |c: char| white(c),
    };
    proof {
        assert(v@.take(n as int) =~= v@);
    }
    loop
        invariant
            n <= v@.len(),
            p == match only {
                Some(x) => same_as(x),
                None => |c: char| white(c),
            },
            drop_end(v@, p) == drop_end(v@.take(n as int), p),
        ensures
            n <= v@.len(),
            drop_end(v@, p) == v@.take(n as int),
        decreases n,
    {
        if n == 0 {
            break ;
        }
        let hit = match only {
            Some(x) => v[n - 1] == x,
            None => is_white(v[n - 1]),
        };
        if !hit {
            break ;
        }
        proof {
            assert(v@.take(n as int).drop_last() =~= v@.take(n - 1));
        }
        n = n - 1;
    }
    proof {
        assert(v@.subrange(0, n as int) =~= v@.take(n as int));
    }
    string_from(&v, 0, n)
}

/// Removes white space from the end.
pub fn trim_end(s: &str) -> (r: String)
    ensures
        r@ == trimmed_end(s@),
{
    trim_end_of(s, None)
}

/// Removes white space from both ends.
pub fn trim(s: &str) -> (r: String)
    ensures
        r@ == trimmed(s@),
{
    let t = trim_start_of(s, None);
    trim_end_of(t.as_str(), None)
}

/// The digit `d` as a character.
pub open spec fn digit_char(d: nat) -> char {
    ((48 + d) as u32) as char
}

/// The decimal numeral of `n`.
pub open spec fn decimal(n: nat) -> Seq<char>
    decreases n,
{
    if n < 10 {
        seq![digit_char(n)]
    } else {
        decimal(n / 10).push(digit_char(n % 10))
    }
}

/// Decimal digits only.
pub open spec fn all_digits(s: Seq<char>) -> bool {
    forall|i: int| 0 <= i < s.len() ==> '0' <= #[trigger] s[i] && s[i] <= '9'
}

/// The number that decimal digits stand for.
pub open spec fn digits_value(s: Seq<char>) -> int
    decreases s.len(),
{
    if s.len() == 0 {
        0
    } else {
        10 * digits_value(s.drop_last()) + (s.last() as u32 - 48)
    }
}

/// The decimal numeral of an integer, with a sign where it is negative.
pub open spec fn decimal_int(n: int) -> Seq<char> {
    if n < 0 {
        seq!['-'] + decimal((-n) as nat)
    } else {
        decimal(n as nat)
    }
}

/// The decimal numeral of `n`, with zeros in front up to `width` characters.
pub open spec fn decimal_padded(n: nat, width: nat) -> Seq<char> {
    let d = decimal(n);
    if d.len() >= width {
        d
    } else {
        Seq::new((width - d.len()) as nat, |i: int| '0') + d
    }
}

fn digit_to_char(d: u64) -> (c: char)
    requires
        d < 10,
    ensures
        c == digit_char(d as nat),
{
    if d == 0 {
        '0'
    } else if d == 1 {
        '1'
    } else if d == 2 {
        '2'
    } else if d == 3 {
        '3'
    } else if d == 4 {
        '4'
    } else if d == 5 {
        '5'
    } else if d == 6 {
        '6'
    } else if d == 7 {
        '7'
    } else if d == 8 {
        '8'
    } else {
        '9'
    }
}

/// Writes `n` in decimal.
pub fn decimal_of(n: u64) -> (r: String)
    ensures
        r@ == decimal(n as nat),
    decreases n,
{
    if n < 10 {
        let mut s = String::new();
        s.push(digit_to_char(n));
        proof {
            assert(s@ =~= decimal(n as nat));
        }
        s
    } else {
        let mut s = decimal_of(n / 10);
        s.push(digit_to_char(n % 10));
        s
    }
}

/// Writes a signed integer in decimal.
pub fn decimal_of_int(n: i64) -> (r: String)
    ensures
        r@ == decimal_int(n as int),
{
    if n < 0 {
        let mut s = String::new();
        s.push('-');
        let m: u64 = (-(n as i128)) as u64;
        let d = decimal_of(m);
        s.append(d.as_str());
        proof {
            assert(s@ =~= decimal_int(n as int));
        }
        s
    } else {
        decimal_of(n as u64)
    }
}

/// Writes `n` in decimal with leading zeros up to `width` characters.
pub fn decimal_of_padded(n: u64, width: usize) -> (r: String)
    ensures
        r@ == decimal_padded(n as nat, width as nat),
{
    let d = decimal_of(n);
    let len = d.as_str().unicode_len();
    let mut s = String::new();
    let mut i: usize = len;
    proof {
        if len < width {
            assert(s@ =~= Seq::new(0, |i: int| '0'));
        }
    }
    while i < width
        invariant
            len <= i,
            len < width ==> i <= width,
            len >= width ==> i == len,
            len == d@.len(),
            s@ =~= Seq::new((i - len) as nat, |i: int| '0'),
        decreases width - i,
    {
        s.push('0');
        i = i + 1;
    }
    let ghost zeros = s@;
    s.append(d.as_str());
    proof {
        if len < width {
            assert(zeros =~= Seq::new((width - len) as nat, |i: int| '0'));
        } else {
            assert(zeros =~= Seq::empty());
            assert(s@ =~= d@);
        }
    }
    s
}

/// The texts `parts` with `sep` between each two.
pub open spec fn joined(parts: Seq<Seq<char>>, sep: Seq<char>) -> Seq<char>
    decreases parts.len(),
{
    if parts.len() == 0 {
        Seq::empty()
    } else if parts.len() == 1 {
        parts[0]
    } else {
        joined(parts.drop_last(), sep) + sep + parts.last()
    }
}

/// The views of the elements of a list.
pub open spec fn views<T: View>(s: Seq<T>) -> Seq<T::V> {
    Seq::new(s.len(), |i: int| s[i]@)
}

/// Appending an element appends its view.
pub broadcast proof fn lemma_views_push<T: View>(s: Seq<T>, t: T)
    ensures
        #[trigger] views(s.push(t)) == views(s).push(t@),
{
    assert(views(s.push(t)) =~= views(s).push(t@));
}

/// The contents of a list of strings.
pub open spec fn texts(v: Seq<String>) -> Seq<Seq<char>> {
    views(v)
}

/// Joins strings with a separator.
pub fn join(parts: &Vec<String>, sep: &str) -> (r: String)
    ensures
        r@ == joined(texts(parts@), sep@),
{
    let mut s = String::new();
    let mut i: usize = 0;
    let ghost all = texts(parts@);
    while i < parts.len()
        invariant
            i <= parts.len(),
            all == texts(parts@),
            s@ == joined(all.take(i as int), sep@),
        decreases parts.len() - i,
    {
        if i > 0 {
            s.append(sep);
        }
        s.append(parts[i].as_str());
        proof {
            assert(all.take(i + 1).drop_last() =~= all.take(i as int));
            assert(all.take(i + 1).last() == parts@[i as int]@);
            if i == 0 {
                assert(s@ =~= parts@[0]@);
            }
        }
        i = i + 1;
    }
    proof {
        assert(all.take(all.len() as int) =~= all);
    }
    s
}

/// The pieces of `s` between the occurrences of `c`.
pub open spec fn pieces(s: Seq<char>, c: char) -> Seq<Seq<char>>
    decreases s.len(),
{
    if s.len() == 0 {
        seq![Seq::empty()]
    } else if s.last() == c {
        pieces(s.drop_last(), c).push(Seq::empty())
    } else {
        let before = pieces(s.drop_last(), c);
        before.drop_last().push(before.last().push(s.last()))
    }
}

pub proof fn lemma_pieces_nonempty(s: Seq<char>, c: char)
    ensures
        pieces(s, c).len() > 0,
    decreases s.len(),
{
    if s.len() > 0 {
        lemma_pieces_nonempty(s.drop_last(), c);
    }
}

/// Splits text at each occurrence of `c`.
pub fn split(s: &str, c: char) -> (r: Vec<String>)
    ensures
        texts(r@) == pieces(s@, c),
{
    let v = chars_of(s);
    let mut done: Vec<String> = Vec::new();
    let mut open = String::new();
    let mut i: usize = 0;
    proof {
        assert(v@.take(0) =~= Seq::<char>::empty());
        assert(texts(done@).push(open@) =~= pieces(v@.take(0), c));
    }
    while i < v.len()
        invariant
            i <= v.len(),
            texts(done@).push(open@) =~= pieces(v@.take(i as int), c),
        decreases v.len() - i,
    {
        proof {
            assert(v@.take(i + 1).drop_last() =~= v@.take(i as int));
        }
        let ghost before = texts(done@);
        if v[i] == c {
            let ghost last = open@;
            done.push(open);
            open = String::new();
            proof {
                assert(texts(done@) =~= before.push(last));
            }
        } else {
            open.push(v[i]);
            proof {
                let p = pieces(v@.take(i as int), c);
                assert(p.drop_last() =~= before);
            }
        }
        i = i + 1;
    }
    let ghost before = texts(done@);
    let ghost last = open@;
    done.push(open);
    proof {
        assert(texts(done@) =~= before.push(last));
        assert(v@.take(v@.len() as int) =~= v@);
    }
    done
}

/// Code point order of texts.
pub open spec fn text_below(a: Seq<char>, b: Seq<char>) -> bool
    decreases a.len(),
{
    if b.len() == 0 {
        false
    } else if a.len() == 0 {
        true
    } else if a[0] != b[0] {
        (a[0] as u32) < (b[0] as u32)
    } else {
        text_below(a.skip(1), b.skip(1))
    }
}

/// Whether one text comes before another in code point order.
pub fn is_text_below(a: &str, b: &str) -> (r: bool)
    ensures
        r == text_below(a@, b@),
{
    let x = chars_of(a);
    let y = chars_of(b);
    let mut i: usize = 0;
    proof {
        assert(x@.skip(0) =~= x@);
        assert(y@.skip(0) =~= y@);
    }
    while i < x.len() && i < y.len()
        invariant
            i <= x.len(),
            i <= y.len(),
            x@ == a@,
            y@ == b@,
            text_below(x@, y@) == text_below(x@.skip(i as int), y@.skip(i as int)),
        decreases x.len() - i,
    {
        proof {
            assert(x@.skip(i as int)[0] == x@[i as int]);
            assert(y@.skip(i as int)[0] == y@[i as int]);
        }
        if x[i] != y[i] {
            proof {
                assert(x@.skip(i as int)[0] != y@.skip(i as int)[0]);
                assert(text_below(x@, y@) == ((x@[i as int] as u32) < (y@[i as int] as u32)));
            }
            return (x[i] as u32) < (y[i] as u32);
        }
        proof {
            assert(x@.skip(i as int).skip(1) =~= x@.skip(i + 1));
            assert(y@.skip(i as int).skip(1) =~= y@.skip(i + 1));
        }
        i = i + 1;
    }
    i < y.len()
}

/// `needle` stands in `s` at the character position `i`.
pub open spec fn stands_at(s: Seq<char>, needle: Seq<char>, i: int) -> bool {
    0 <= i && i + needle.len() <= s.len() && s.subrange(i, i + needle.len()) == needle
}

/// The first position of `needle` in `s` from `i` on.
pub open spec fn position_from(s: Seq<char>, needle: Seq<char>, i: int) -> Option<int>
    decreases s.len() + 1 - i,
{
    if i < 0 || i > s.len() {
        None
    } else if stands_at(s, needle, i) {
        Some(i)
    } else {
        position_from(s, needle, i + 1)
    }
}

/// The byte offset of the first occurrence of `needle` in `s`.
pub open spec fn offset_of(s: Seq<char>, needle: Seq<char>) -> Option<nat> {
    match position_from(s, needle, 0) {
        Some(i) => Some(encode_utf8(s.take(i)).len()),
        None => None,
    }
}

/// The first position found is where the text stands, and it stands nowhere
/// before; where none is found it stands nowhere.
pub proof fn law_position_is_first(s: Seq<char>, needle: Seq<char>, from: int)
    requires
        0 <= from,
    ensures
        match position_from(s, needle, from) {
            Some(i) => from <= i && stands_at(s, needle, i) && forall|j: int|
                from <= j < i ==> !stands_at(s, needle, j),
            None => forall|j: int| from <= j ==> !stands_at(s, needle, j),
        },
    decreases s.len() + 1 - from,
{
    if from <= s.len() && !stands_at(s, needle, from) {
        law_position_is_first(s, needle, from + 1);
    }
}

/// The number of bytes that a text takes.
pub open spec fn byte_len(s: Seq<char>) -> nat {
    encode_utf8(s).len()
}

/// The number of bytes of a string.
pub fn len_of(s: &str) -> (r: usize)
    ensures
        r == byte_len(s@),
{
    s.as_bytes().len()
}

/// Finds the byte offset of the first occurrence of a text.
pub fn find_text(s: &str, needle: &str) -> (r: Option<usize>)
    ensures
        match r {
            Some(k) => offset_of(s@, needle@) == Some(k as nat),
            None => offset_of(s@, needle@) is None,
        },
{
    let x = chars_of(s);
    let y = chars_of(needle);
    let mut i: usize = 0;
    loop
        invariant
            x@ == s@,
            y@ == needle@,
            i <= x.len(),
            position_from(s@, needle@, 0) == position_from(s@, needle@, i as int),
        decreases x.len() - i,
    {
        if y.len() > x.len() - i {
            proof {
                law_position_is_first(s@, needle@, i as int);
            }
            return None;
        }
        let mut j: usize = 0;
        while j < y.len() && x[i + j] == y[j]
            invariant
                j <= y.len(),
                i + y.len() <= x.len(),
                x@.subrange(i as int, i + j) =~= y@.take(j as int),
            decreases y.len() - j,
        {
            j = j + 1;
        }
        if j == y.len() {
            proof {
                assert(y@.take(j as int) =~= y@);
                assert(x@.subrange(0, i as int) =~= s@.take(i as int));
            }
            let head = string_from(&x, 0, i);
            return Some(len_of(head.as_str()));
        }
        proof {
            assert(s@.subrange(i as int, i + needle@.len())[j as int] != needle@[j as int]);
        }
        if i == x.len() {
            return None;
        }
        i = i + 1;
    }
}

} // verus!
