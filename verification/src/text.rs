//! Text utilities, specified over sequences of characters.

use vstd::prelude::*;

verus! {

/// [`String::push`] puts one character behind the others.
pub assume_specification[ String::push ](s: &mut String, c: char)
    ensures
        final(s)@ == old(s)@.push(c),
;

/// `==` on two string slices tells whether they hold the same characters.
pub assume_specification[ <str as PartialEq>::eq ](a: &str, b: &str) -> (r: bool)
    ensures
        r == (a@ == b@),
;

/// What [`str::to_lowercase`] makes of a text.
pub uninterp spec fn lowercase(s: Seq<char>) -> Seq<char>;

/// Calls [`str::to_lowercase`], which maps a text to lower case by the rules of
/// Unicode; the result is a function of the text alone.
#[verifier::external_body]
pub(crate) fn to_lowercase(s: &str) -> (r: String)
    ensures
        r@ == lowercase(s@),
{
    s.to_lowercase()
}

/// Calls [`String::from_utf8`], which accepts bytes that are valid UTF-8, and
/// gives the characters that they encode.
#[verifier::external_body]
pub(crate) fn decode(bytes: Vec<u8>) -> (r: Option<String>)
    ensures
        match r {
            Some(s) => vstd::utf8::valid_utf8(bytes@) && s@ == vstd::utf8::decode_utf8(bytes@),
            None => !vstd::utf8::valid_utf8(bytes@),
        },
{
    String::from_utf8(bytes).ok()
}

/// The characters of a text that may be missing.
pub open spec fn optional_text(s: Option<&str>) -> Option<Seq<char>> {
    match s {
        Some(t) => Some(t@),
        None => None,
    }
}

/// Tells whether two texts are the same.
pub fn same(a: &str, b: &str) -> (r: bool)
    ensures
        r == (a@ == b@),
{
    *a == *b
}

/// The characters of a text.
pub fn to_chars(s: &str) -> (r: Vec<char>)
    ensures
        r@ == s@,
{
    let mut out: Vec<char> = Vec::new();
    for c in it: s.chars()
        invariant
            out@ == it.seq().take(it.index() as int),
    {
        out.push(c);
    }
    out
}

/// The text that some characters make.
pub fn from_chars(v: &Vec<char>) -> (r: String)
    ensures
        r@ == v@,
{
    let mut out: String = String::new();
    let mut i: usize = 0;
    while i < v.len()
        invariant
            i <= v.len(),
            out@ == v@.take(i as int),
        decreases v.len() - i,
    {
        out.push(v[i]);
        i = i + 1;
    }
    assert(v@.take(i as int) == v@);
    out
}

/// The characters from `from` up to `to`.
pub fn slice(v: &Vec<char>, from: usize, to: usize) -> (r: Vec<char>)
    requires
        from <= to <= v.len(),
    ensures
        r@ == v@.subrange(from as int, to as int),
{
    let mut out: Vec<char> = Vec::new();
    let mut i: usize = from;
    while i < to
        invariant
            from <= i <= to <= v.len(),
            out@ == v@.subrange(from as int, i as int),
        decreases to - i,
    {
        out.push(v[i]);
        i = i + 1;
    }
    out
}

// ---- white space ----

/// The characters with the Unicode property `White_Space`.
pub open spec fn is_space(c: char) -> bool {
    let n = c as u32;
    ||| 0x09 <= n <= 0x0d
    ||| n == 0x20
    ||| n == 0x85
    ||| n == 0xa0
    ||| n == 0x1680
    ||| 0x2000 <= n <= 0x200a
    ||| n == 0x2028
    ||| n == 0x2029
    ||| n == 0x202f
    ||| n == 0x205f
    ||| n == 0x3000
}

/// Tells whether a character is white space.
pub fn space(c: char) -> (r: bool)
    ensures
        r == is_space(c),
{
    let n: u32 = c as u32;
    (0x09 <= n && n <= 0x0d) || n == 0x20 || n == 0x85 || n == 0xa0 || n == 0x1680 || (0x2000 <= n
        && n <= 0x200a) || n == 0x2028 || n == 0x2029 || n == 0x202f || n == 0x205f || n == 0x3000
}

/// A text without the white space in front of it.
pub open spec fn trimmed_start(s: Seq<char>) -> Seq<char>
    decreases s.len(),
{
    if s.len() > 0 && is_space(s[0]) {
        trimmed_start(s.skip(1))
    } else {
        s
    }
}

/// A text without the white space behind it.
pub open spec fn trimmed_end(s: Seq<char>) -> Seq<char>
    decreases s.len(),
{
    if s.len() > 0 && is_space(s.last()) {
        trimmed_end(s.drop_last())
    } else {
        s
    }
}

/// A text without the white space around it.
pub open spec fn trimmed(s: Seq<char>) -> Seq<char> {
    trimmed_end(trimmed_start(s))
}

/// Drops the white space around a text.
pub fn trim_chars(v: &Vec<char>) -> (r: Vec<char>)
    ensures
        r@ == trimmed(v@),
{
    let mut from: usize = 0;
    assert(v@.skip(0) == v@);
    while from < v.len() && space(v[from])
        invariant
            from <= v.len(),
            trimmed_start(v@) == trimmed_start(v@.skip(from as int)),
        decreases v.len() - from,
    {
        assert(v@.skip(from as int).skip(1) == v@.skip(from + 1));
        from = from + 1;
    }
    let ghost rest = v@.skip(from as int);
    let mut to: usize = v.len();
    assert(v@.subrange(from as int, to as int) == rest);
    while to > from && space(v[to - 1])
        invariant
            from <= to <= v.len(),
            trimmed_end(rest) == trimmed_end(v@.subrange(from as int, to as int)),
        decreases to,
    {
        assert(v@.subrange(from as int, to as int).drop_last() == v@.subrange(
            from as int,
            to - 1,
        ));
        to = to - 1;
    }
    slice(v, from, to)
}

/// Drops the white space around a text.
pub fn trim(s: &str) -> (r: String)
    ensures
        r@ == trimmed(s@),
{
    from_chars(&trim_chars(&to_chars(s)))
}

/// Tells whether nothing but white space is in a text.
pub fn is_blank(s: &str) -> (r: bool)
    ensures
        r == (trimmed(s@).len() == 0),
{
    trim_chars(&to_chars(s)).len() == 0
}

// ---- searching ----

/// `n` stands in `h` at position `i`.
pub open spec fn occurs_at(h: Seq<char>, n: Seq<char>, i: int) -> bool {
    0 <= i && i + n.len() <= h.len() && h.subrange(i, i + n.len()) == n
}

/// `n` stands somewhere in `h`.
pub open spec fn contains(h: Seq<char>, n: Seq<char>) -> bool {
    exists|i: int| #[trigger] occurs_at(h, n, i)
}

/// The first position, from `i` on, at which `n` stands in `h`.
pub open spec fn first_from(h: Seq<char>, n: Seq<char>, i: int) -> Option<int>
    decreases h.len() - i + 1,
{
    if i < 0 || i + n.len() > h.len() {
        None
    } else if occurs_at(h, n, i) {
        Some(i)
    } else {
        first_from(h, n, i + 1)
    }
}

/// The first position at which `n` stands in `h`.
pub open spec fn first_of(h: Seq<char>, n: Seq<char>) -> Option<int> {
    first_from(h, n, 0)
}

proof fn lemma_first_from(h: Seq<char>, n: Seq<char>, i: int)
    requires
        0 <= i,
    ensures
        match first_from(h, n, i) {
            Some(k) => i <= k && occurs_at(h, n, k) && (forall|j: int|
                i <= j < k ==> !#[trigger] occurs_at(h, n, j)),
            None => forall|j: int| i <= j ==> !#[trigger] occurs_at(h, n, j),
        },
    decreases h.len() - i + 1,
{
    if i + n.len() <= h.len() && !occurs_at(h, n, i) {
        lemma_first_from(h, n, i + 1);
    }
}

/// A first position is given exactly where the text is contained, it is a
/// position of the text, and there is none before it.
pub proof fn law_first_of(h: Seq<char>, n: Seq<char>)
    ensures
        contains(h, n) <==> first_of(h, n) is Some,
        first_of(h, n) matches Some(k) ==> occurs_at(h, n, k) && (forall|j: int|
            j < k ==> !#[trigger] occurs_at(h, n, j)),
{
    lemma_first_from(h, n, 0);
}

/// Tells whether `n` stands in `h` at position `i`.
fn stands_at(h: &Vec<char>, n: &Vec<char>, i: usize) -> (r: bool)
    requires
        i + n.len() <= h.len(),
    ensures
        r == occurs_at(h@, n@, i as int),
{
    let mut k: usize = 0;
    while k < n.len()
        invariant
            k <= n.len(),
            i + n.len() <= h.len(),
            h@.subrange(i as int, i + k) == n@.take(k as int),
        decreases n.len() - k,
    {
        if h[i + k] != n[k] {
            assert(h@.subrange(i as int, i + n.len())[k as int] != n@[k as int]);
            return false;
        }
        assert(h@.subrange(i as int, i + k + 1) == h@.subrange(i as int, i + k).push(h@[i + k]));
        assert(n@.take(k + 1) == n@.take(k as int).push(n@[k as int]));
        k = k + 1;
    }
    assert(n@.take(k as int) == n@);
    true
}

/// Finds the first position of one text in another.
pub fn find(h: &Vec<char>, n: &Vec<char>) -> (r: Option<usize>)
    ensures
        match r {
            Some(i) => first_of(h@, n@) == Some(i as int) && i + n.len() <= h.len(),
            None => first_of(h@, n@) is None,
        },
{
    if n.len() > h.len() {
        return None;
    }
    let last: usize = h.len() - n.len();
    let mut i: usize = 0;
    while i <= last
        invariant
            i <= last + 1,
            last == h.len() - n.len(),
            first_of(h@, n@) == first_from(h@, n@, i as int),
        decreases last + 1 - i,
    {
        if stands_at(h, n, i) {
            return Some(i);
        }
        if i == last {
            return None;
        }
        i = i + 1;
    }
    None
}

/// Tells whether one text stands in another.
pub fn holds(h: &Vec<char>, n: &Vec<char>) -> (r: bool)
    ensures
        r == contains(h@, n@),
{
    proof {
        law_first_of(h@, n@);
    }
    find(h, n).is_some()
}

/// `s` begins with `p`.
pub open spec fn begins_with(s: Seq<char>, p: Seq<char>) -> bool {
    p.len() <= s.len() && s.take(p.len() as int) == p
}

/// Tells whether a text begins with another.
pub fn starts_with(s: &Vec<char>, p: &Vec<char>) -> (r: bool)
    ensures
        r == begins_with(s@, p@),
{
    if p.len() > s.len() {
        return false;
    }
    assert(s@.subrange(0, p.len() as int) == s@.take(p.len() as int));
    stands_at(s, p, 0)
}

// ---- lists of texts ----

/// The views of a list of texts.
pub open spec fn views(v: Seq<String>) -> Seq<Seq<char>> {
    Seq::new(v.len(), |i: int| v[i]@)
}

/// The views of a list of lists of characters.
pub open spec fn char_views(v: Seq<Vec<char>>) -> Seq<Seq<char>> {
    Seq::new(v.len(), |i: int| v[i]@)
}

/// The parts of a text between the places where `sep` stands, found from the
/// left; the whole text where it stands nowhere.
pub open spec fn split(s: Seq<char>, sep: Seq<char>) -> Seq<Seq<char>>
    decreases s.len(),
{
    match first_of(s, sep) {
        Some(i) => if sep.len() > 0 && 0 <= i && i + sep.len() <= s.len() {
            seq![s.take(i)] + split(s.skip(i + sep.len()), sep)
        } else {
            seq![s]
        },
        None => seq![s],
    }
}

/// The first `n - 1` parts of [`split`], and what is left behind them.
pub open spec fn split_n(s: Seq<char>, sep: Seq<char>, n: nat) -> Seq<Seq<char>>
    decreases n,
{
    if n == 0 {
        Seq::empty()
    } else {
        match first_of(s, sep) {
            Some(i) => if n > 1 {
                seq![s.take(i)] + split_n(s.skip(i + sep.len()), sep, (n - 1) as nat)
            } else {
                seq![s]
            },
            None => seq![s],
        }
    }
}

/// Splits a text at each place where a separator stands.
pub fn split_at_each(s: &Vec<char>, sep: &Vec<char>) -> (r: Vec<Vec<char>>)
    requires
        sep.len() > 0,
    ensures
        char_views(r@) == split(s@, sep@),
{
    let mut out: Vec<Vec<char>> = Vec::new();
    let mut rest: Vec<char> = slice(s, 0, s.len());
    assert(rest@ == s@);
    assert(char_views(out@) + split(rest@, sep@) == split(rest@, sep@));
    loop
        invariant
            sep.len() > 0,
            char_views(out@) + split(rest@, sep@) == split(s@, sep@),
        decreases rest.len(),
    {
        match find(&rest, sep) {
            Some(i) => {
                let part = slice(&rest, 0, i);
                let next = slice(&rest, i + sep.len(), rest.len());
                proof {
                    assert(part@ == rest@.take(i as int));
                    assert(next@ == rest@.skip(i + sep.len()));
                    assert(char_views(out@.push(part)) == char_views(out@).push(part@));
                    assert(char_views(out@).push(part@) + split(next@, sep@) == char_views(out@) + (
                    seq![part@] + split(next@, sep@)));
                }
                out.push(part);
                rest = next;
            },
            None => {
                proof {
                    assert(char_views(out@.push(rest)) == char_views(out@) + seq![rest@]);
                }
                out.push(rest);
                return out;
            },
        }
    }
}

/// Splits a text at the first places where a separator stands.
pub fn split_into(s: &Vec<char>, sep: &Vec<char>, n: usize) -> (r: Vec<Vec<char>>)
    ensures
        char_views(r@) == split_n(s@, sep@, n as nat),
{
    let mut out: Vec<Vec<char>> = Vec::new();
    let mut rest: Vec<char> = slice(s, 0, s.len());
    let mut left: usize = n;
    assert(rest@ == s@);
    assert(char_views(out@) + split_n(rest@, sep@, n as nat) == split_n(s@, sep@, n as nat));
    while left > 0
        invariant
            char_views(out@) + split_n(rest@, sep@, left as nat) == split_n(s@, sep@, n as nat),
        decreases left,
    {
        let found = if left > 1 {
            find(&rest, sep)
        } else {
            None
        };
        match found {
            Some(i) => {
                let part = slice(&rest, 0, i);
                let next = slice(&rest, i + sep.len(), rest.len());
                proof {
                    assert(part@ == rest@.take(i as int));
                    assert(next@ == rest@.skip(i + sep.len()));
                    assert(char_views(out@.push(part)) == char_views(out@).push(part@));
                    assert(char_views(out@).push(part@) + split_n(next@, sep@, (left - 1) as nat)
                        == char_views(out@) + (seq![part@] + split_n(
                        next@,
                        sep@,
                        (left - 1) as nat,
                    )));
                }
                out.push(part);
                rest = next;
                left = left - 1;
            },
            None => {
                proof {
                    assert(char_views(out@.push(rest)) == char_views(out@) + seq![rest@]);
                }
                out.push(rest);
                return out;
            },
        }
    }
    out
}

/// A line without the carriage return at its end.
pub open spec fn without_return(s: Seq<char>) -> Seq<char> {
    if s.len() > 0 && s.last() == '\r' {
        s.drop_last()
    } else {
        s
    }
}

/// The lines of a text. A line ends with a line feed, or a carriage return and
/// a line feed, which are not part of it; the last one may end with the text.
pub open spec fn lines(s: Seq<char>) -> Seq<Seq<char>>
    decreases s.len(),
{
    if s.len() == 0 {
        Seq::empty()
    } else {
        match first_of(s, seq!['\n']) {
            Some(i) => if 0 <= i < s.len() {
                seq![without_return(s.take(i))] + lines(s.skip(i + 1))
            } else {
                seq![s]
            },
            None => seq![s],
        }
    }
}

/// Splits a text into lines.
pub fn to_lines(s: &Vec<char>) -> (r: Vec<Vec<char>>)
    ensures
        char_views(r@) == lines(s@),
{
    let mut feed: Vec<char> = Vec::new();
    feed.push('\n');
    assert(feed@ == seq!['\n']);
    let mut out: Vec<Vec<char>> = Vec::new();
    let mut rest: Vec<char> = slice(s, 0, s.len());
    assert(rest@ == s@);
    assert(char_views(out@) + lines(rest@) == lines(s@));
    while rest.len() > 0
        invariant
            feed@ == seq!['\n'],
            char_views(out@) + lines(rest@) == lines(s@),
        decreases rest.len(),
    {
        match find(&rest, &feed) {
            Some(i) => {
                let mut part = slice(&rest, 0, i);
                let next = slice(&rest, i + 1, rest.len());
                assert(part@ == rest@.take(i as int));
                assert(next@ == rest@.skip(i + 1));
                if part.len() > 0 && part[part.len() - 1] == '\r' {
                    part.truncate(part.len() - 1);
                    assert(part@ == rest@.take(i as int).drop_last());
                }
                proof {
                    assert(part@ == without_return(rest@.take(i as int)));
                    assert(char_views(out@.push(part)) == char_views(out@).push(part@));
                    assert(char_views(out@).push(part@) + lines(next@) == char_views(out@) + (
                    seq![part@] + lines(next@)));
                }
                out.push(part);
                rest = next;
            },
            None => {
                proof {
                    assert(char_views(out@.push(rest)) == char_views(out@) + seq![rest@]);
                }
                out.push(rest);
                return out;
            },
        }
    }
    assert(char_views(out@) + lines(rest@) == char_views(out@));
    out
}

/// The number of characters before the first white space.
pub open spec fn word_len(s: Seq<char>) -> nat
    decreases s.len(),
{
    if s.len() == 0 || is_space(s[0]) {
        0
    } else {
        1 + word_len(s.skip(1))
    }
}

/// The words of a text: what stands between white space.
pub open spec fn words(s: Seq<char>) -> Seq<Seq<char>>
    decreases s.len(),
{
    if s.len() == 0 {
        Seq::empty()
    } else if is_space(s[0]) {
        words(s.skip(1))
    } else {
        let n = word_len(s);
        if 0 < n <= s.len() {
            seq![s.take(n as int)] + words(s.skip(n as int))
        } else {
            Seq::empty()
        }
    }
}

proof fn lemma_word_len(s: Seq<char>, k: nat)
    requires
        k <= s.len(),
        forall|j: int| 0 <= j < k ==> !is_space(#[trigger] s[j]),
        k == s.len() || is_space(s[k as int]),
    ensures
        word_len(s) == k,
    decreases k,
{
    if k > 0 {
        assert forall|j: int| 0 <= j < k - 1 implies !is_space(#[trigger] s.skip(1)[j]) by {
            assert(s.skip(1)[j] == s[j + 1]);
        }
        lemma_word_len(s.skip(1), (k - 1) as nat);
    }
}

/// Splits a text into words.
pub fn to_words(s: &Vec<char>) -> (r: Vec<Vec<char>>)
    ensures
        char_views(r@) == words(s@),
{
    let mut out: Vec<Vec<char>> = Vec::new();
    let mut i: usize = 0;
    assert(s@.skip(0) == s@);
    assert(char_views(out@) + words(s@) == words(s@));
    while i < s.len()
        invariant
            i <= s.len(),
            char_views(out@) + words(s@.skip(i as int)) == words(s@),
        decreases s.len() - i,
    {
        let ghost rest = s@.skip(i as int);
        if space(s[i]) {
            assert(rest.skip(1) == s@.skip(i + 1));
            i = i + 1;
        } else {
            let mut k: usize = i;
            while k < s.len() && !space(s[k])
                invariant
                    i <= k <= s.len(),
                    forall|j: int| i <= j < k ==> !is_space(#[trigger] s@[j]),
                decreases s.len() - k,
            {
                k = k + 1;
            }
            let word = slice(s, i, k);
            proof {
                lemma_word_len(rest, (k - i) as nat);
                assert(k > i);
                assert(word@ == rest.take(k - i));
                assert(rest.skip(k - i) == s@.skip(k as int));
                assert(char_views(out@.push(word)) == char_views(out@).push(word@));
                assert(char_views(out@).push(word@) + words(s@.skip(k as int)) == char_views(out@)
                    + (seq![word@] + words(s@.skip(k as int))));
            }
            out.push(word);
            i = k;
        }
    }
    assert(char_views(out@) + words(s@.skip(i as int)) == char_views(out@));
    out
}

/// Some texts one behind the other, with `sep` between each two.
pub open spec fn joined(parts: Seq<Seq<char>>, sep: Seq<char>) -> Seq<char>
    decreases parts.len(),
{
    if parts.len() == 0 {
        Seq::empty()
    } else if parts.len() == 1 {
        parts[0]
    } else {
        joined(parts.drop_last(), sep) + sep + parts.last()
    }
}

/// Puts texts one behind the other.
pub fn join(parts: &Vec<String>, sep: &str) -> (r: String)
    ensures
        r@ == joined(views(parts@), sep@),
{
    let mut out: String = String::new();
    let mut i: usize = 0;
    while i < parts.len()
        invariant
            i <= parts.len(),
            out@ == joined(views(parts@).take(i as int), sep@),
        decreases parts.len() - i,
    {
        let ghost seen = views(parts@).take(i as int);
        proof {
            assert(views(parts@).take(i + 1).drop_last() == seen);
            assert(views(parts@).take(i + 1).last() == parts@[i as int]@);
            if i == 0 {
                assert(joined(views(parts@).take(1), sep@) == parts@[0]@);
            }
        }
        if i > 0 {
            out.append(sep);
        }
        out.append(parts[i].as_str());
        i = i + 1;
    }
    assert(views(parts@).take(i as int) == views(parts@));
    out
}

// ---- numbers ----

/// The decimal digit of a number below ten.
pub open spec fn digit(n: nat) -> char {
    ((n % 10) + '0' as nat) as char
}

/// A number in decimal digits.
pub open spec fn decimal(n: nat) -> Seq<char>
    decreases n,
{
    if n < 10 {
        seq![digit(n)]
    } else {
        decimal(n / 10).push(digit(n))
    }
}

/// A character stands for a decimal digit.
pub open spec fn is_digit(c: char) -> bool {
    '0' <= c <= '9'
}

/// All characters of a text stand for decimal digits.
pub open spec fn all_digits(s: Seq<char>) -> bool {
    forall|i: int| 0 <= i < s.len() ==> is_digit(#[trigger] s[i])
}

/// A text without the plus sign in front of it.
pub open spec fn unsigned(s: Seq<char>) -> Seq<char> {
    if s.len() > 0 && s[0] == '+' {
        s.skip(1)
    } else {
        s
    }
}

/// The number that decimal digits stand for.
pub open spec fn number(s: Seq<char>) -> nat
    decreases s.len(),
{
    if s.len() == 0 {
        0
    } else {
        10 * number(s.drop_last()) + (s.last() as nat - '0' as nat) as nat
    }
}

/// What a text stands for as a number: decimal digits, at least one of them,
/// with or without a plus sign in front, and no more than a `usize` can hold.
pub open spec fn parsed_usize(s: Seq<char>) -> Option<nat> {
    let digits = unsigned(s);
    if digits.len() > 0 && all_digits(digits) && number(digits) <= usize::MAX {
        Some(number(digits))
    } else {
        None
    }
}

proof fn lemma_number_grows(s: Seq<char>, i: int)
    requires
        0 <= i <= s.len(),
    ensures
        number(s.take(i)) <= number(s),
    decreases s.len(),
{
    if i < s.len() {
        lemma_number_grows(s.drop_last(), i);
        assert(s.drop_last().take(i) == s.take(i));
    } else {
        assert(s.take(i) == s);
    }
}

/// Reads a number.
pub fn parse_usize(s: &Vec<char>) -> (r: Option<usize>)
    ensures
        match r {
            Some(n) => parsed_usize(s@) == Some(n as nat),
            None => parsed_usize(s@) is None,
        },
{
    let from: usize = if s.len() > 0 && s[0] == '+' {
        1
    } else {
        0
    };
    let ghost digits = s@.skip(from as int);
    proof {
        assert(s@.skip(0) == s@);
    }
    if from == s.len() {
        return None;
    }
    let mut n: usize = 0;
    let mut i: usize = from;
    while i < s.len()
        invariant
            from <= i <= s.len(),
            digits == s@.skip(from as int),
            digits == unsigned(s@),
            n == number(digits.take(i - from)),
            forall|j: int| 0 <= j < i - from ==> is_digit(#[trigger] digits[j]),
        decreases s.len() - i,
    {
        let c: char = s[i];
        if c < '0' || c > '9' {
            assert(!is_digit(digits[i - from]));
            return None;
        }
        let d: usize = (c as u32 - '0' as u32) as usize;
        proof {
            assert(digits.take(i - from + 1).drop_last() == digits.take(i - from));
            assert(digits.take(i - from + 1).last() == c);
            assert(number(digits.take(i - from + 1)) == 10 * n + d);
            lemma_number_grows(digits, i - from + 1);
        }
        let wide: u128 = 10 * (n as u128) + d as u128;
        if wide > usize::MAX as u128 {
            return None;
        }
        n = wide as usize;
        i = i + 1;
    }
    assert(digits.take(i - from) == digits);
    Some(n)
}

/// Writes a number in decimal digits.
pub fn decimal_chars(n: u128) -> (r: Vec<char>)
    ensures
        r@ == decimal(n as nat),
    decreases n,
{
    let c: char = ((n % 10) as u8 + 48u8) as char;
    let mut out: Vec<char> = if n < 10 {
        Vec::new()
    } else {
        decimal_chars(n / 10)
    };
    out.push(c);
    out
}

/// Writes a number in decimal digits.
pub fn decimal_text(n: u64) -> (r: String)
    ensures
        r@ == decimal(n as nat),
{
    from_chars(&decimal_chars(n as u128))
}

/// Writes a large number in decimal digits.
pub fn decimal_wide(n: u128) -> (r: String)
    ensures
        r@ == decimal(n as nat),
{
    from_chars(&decimal_chars(n))
}

// ---- bytes ----

/// The number of bytes of a character in UTF-8.
pub open spec fn width(c: char) -> nat {
    let n = c as u32;
    if n < 0x80 {
        1
    } else if n < 0x800 {
        2
    } else if n < 0x1_0000 {
        3
    } else {
        4
    }
}

/// The number of bytes of a text in UTF-8.
pub open spec fn byte_len(s: Seq<char>) -> nat
    decreases s.len(),
{
    if s.len() == 0 {
        0
    } else {
        byte_len(s.drop_last()) + width(s.last())
    }
}

/// The longest beginning of a text that has at most `max` bytes.
pub open spec fn fitting(s: Seq<char>, max: nat) -> Seq<char>
    decreases s.len(),
{
    if byte_len(s) <= max || s.len() == 0 {
        s
    } else {
        fitting(s.drop_last(), max)
    }
}

/// The number of bytes of a character.
pub fn char_width(c: char) -> (r: u128)
    ensures
        r == width(c),
{
    let n: u32 = c as u32;
    if n < 0x80 {
        1
    } else if n < 0x800 {
        2
    } else if n < 0x1_0000 {
        3
    } else {
        4
    }
}

/// Counts the bytes of a text.
pub fn count_bytes(v: &Vec<char>) -> (r: u128)
    ensures
        r == byte_len(v@),
        r <= 4 * v.len(),
{
    let mut n: u128 = 0;
    let mut i: usize = 0;
    while i < v.len()
        invariant
            i <= v.len(),
            n == byte_len(v@.take(i as int)),
            n <= 4 * i,
        decreases v.len() - i,
    {
        assert(v@.take(i + 1).drop_last() == v@.take(i as int));
        n = n + char_width(v[i]);
        i = i + 1;
    }
    assert(v@.take(i as int) == v@);
    n
}

/// Cuts a text off behind the last character that fits in a number of bytes.
pub fn truncate(s: &str, max_len: usize) -> (r: String)
    ensures
        r@ == fitting(s@, max_len as nat),
{
    let v: Vec<char> = to_chars(s);
    let mut n: u128 = count_bytes(&v);
    let mut end: usize = v.len();
    assert(v@.take(end as int) == v@);
    while end > 0 && n > max_len as u128
        invariant
            end <= v.len(),
            n == byte_len(v@.take(end as int)),
            fitting(v@.take(end as int), max_len as nat) == fitting(v@, max_len as nat),
        decreases end,
    {
        assert(v@.take(end as int).drop_last() == v@.take(end - 1));
        n = n - char_width(v[end - 1]);
        end = end - 1;
    }
    assert(v@.subrange(0, end as int) == v@.take(end as int));
    from_chars(&slice(&v, 0, end))
}

/// The first characters of a text, up to a number of them.
pub open spec fn first_chars(s: Seq<char>, n: int) -> Seq<char> {
    if s.len() <= n {
        s
    } else {
        s.take(n)
    }
}

/// Cuts a text off behind a number of characters.
pub fn take_chars(s: &str, n: usize) -> (r: String)
    ensures
        r@ == first_chars(s@, n as int),
{
    let v: Vec<char> = to_chars(s);
    if v.len() <= n {
        return from_chars(&v);
    }
    assert(v@.subrange(0, n as int) == v@.take(n as int));
    from_chars(&slice(&v, 0, n))
}

// ---- laws ----

/// Among the ASCII characters, the blank and those from the tab to the carriage
/// return are white space, and no others.
pub proof fn law_ascii_space(c: char)
    requires
        (c as u32) < 0x80,
    ensures
        is_space(c) <==> c == ' ' || 9 <= c as u32 <= 13,
{
}

proof fn lemma_trimmed_start(s: Seq<char>) -> (k: int)
    ensures
        0 <= k <= s.len(),
        trimmed_start(s) == s.skip(k),
        forall|i: int| 0 <= i < k ==> is_space(#[trigger] s[i]),
        k < s.len() ==> !is_space(s[k]),
    decreases s.len(),
{
    if s.len() > 0 && is_space(s[0]) {
        let k = lemma_trimmed_start(s.skip(1));
        assert(s.skip(1).skip(k) == s.skip(k + 1));
        assert forall|i: int| 0 <= i < k + 1 implies is_space(#[trigger] s[i]) by {
            if i > 0 {
                assert(s.skip(1)[i - 1] == s[i]);
            }
        }
        k + 1
    } else {
        assert(s.skip(0) == s);
        0
    }
}

proof fn lemma_trimmed_end(s: Seq<char>) -> (k: int)
    ensures
        0 <= k <= s.len(),
        trimmed_end(s) == s.take(k),
        forall|i: int| k <= i < s.len() ==> is_space(#[trigger] s[i]),
        k > 0 ==> !is_space(s[k - 1]),
    decreases s.len(),
{
    if s.len() > 0 && is_space(s.last()) {
        let k = lemma_trimmed_end(s.drop_last());
        assert(s.drop_last().take(k) == s.take(k));
        assert forall|i: int| k <= i < s.len() implies is_space(#[trigger] s[i]) by {
            if i < s.len() - 1 {
                assert(s.drop_last()[i] == s[i]);
            }
        }
        k
    } else {
        assert(s.take(s.len() as int) == s);
        s.len() as int
    }
}

/// Trimming takes away white space in front of a text and behind it and nothing else,
/// and leaves none there.
pub proof fn law_trimmed(s: Seq<char>)
    ensures
        exists|from: int, to: int|
            {
                &&& 0 <= from <= to <= s.len()
                &&& trimmed(s) == #[trigger] s.subrange(from, to)
                &&& forall|i: int| 0 <= i < from ==> is_space(#[trigger] s[i])
                &&& forall|i: int| to <= i < s.len() ==> is_space(#[trigger] s[i])
            },
        trimmed(s).len() > 0 ==> !is_space(trimmed(s)[0]) && !is_space(trimmed(s).last()),
        trimmed(s).len() == 0 <==> forall|i: int| 0 <= i < s.len() ==> is_space(#[trigger] s[i]),
{
    let from = lemma_trimmed_start(s);
    let rest = s.skip(from);
    let n = lemma_trimmed_end(rest);
    let to = from + n;
    assert(trimmed(s) == s.subrange(from, to));
    assert forall|i: int| to <= i < s.len() implies is_space(#[trigger] s[i]) by {
        assert(rest[i - from] == s[i]);
    }
    if n > 0 {
        assert(trimmed(s)[0] == s[from]);
        assert(trimmed(s).last() == rest[n - 1]);
        assert(!is_space(s[from]));
    } else {
        assert forall|i: int| 0 <= i < s.len() implies is_space(#[trigger] s[i]) by {}
    }
}

/// A text stands in another one exactly where that is made of it, something before it
/// and something behind it.
pub proof fn law_contains(h: Seq<char>, n: Seq<char>)
    ensures
        contains(h, n) <==> exists|a: Seq<char>, b: Seq<char>| #[trigger] (a + n + b) == h,
{
    if contains(h, n) {
        let i = choose|i: int| #[trigger] occurs_at(h, n, i);
        assert(h.take(i) + n + h.skip(i + n.len()) == h);
    }
    if exists|a: Seq<char>, b: Seq<char>| #[trigger] (a + n + b) == h {
        let (a, b) = choose|a: Seq<char>, b: Seq<char>| #[trigger] (a + n + b) == h;
        assert(h.subrange(a.len() as int, (a.len() + n.len()) as int) == n);
        assert(occurs_at(h, n, a.len() as int));
    }
}

/// A text begins with another one exactly where that and something behind it make it.
pub proof fn law_begins_with(s: Seq<char>, p: Seq<char>)
    ensures
        begins_with(s, p) <==> exists|rest: Seq<char>| #[trigger] (p + rest) == s,
{
    if begins_with(s, p) {
        assert(p + s.skip(p.len() as int) == s);
    }
    if exists|rest: Seq<char>| #[trigger] (p + rest) == s {
        let rest = choose|rest: Seq<char>| #[trigger] (p + rest) == s;
        assert(s.take(p.len() as int) == p);
    }
}

/// Joining texts loses none of them: lists are joined by joining what they make, with
/// the separator between, and one text makes itself.
pub proof fn law_joined(a: Seq<Seq<char>>, b: Seq<Seq<char>>, one: Seq<char>, sep: Seq<char>)
    ensures
        joined(seq![one], sep) == one,
        joined(Seq::empty(), sep) == Seq::<char>::empty(),
        a.len() > 0 && b.len() > 0 ==> joined(a + b, sep) == joined(a, sep) + sep + joined(b, sep),
    decreases b.len(),
{
    if a.len() > 0 && b.len() > 0 {
        let all = a + b;
        assert(all.last() == b.last());
        if b.len() == 1 {
            assert(all.drop_last() == a);
        } else {
            law_joined(a, b.drop_last(), one, sep);
            assert(all.drop_last() == a + b.drop_last());
            assert(joined(a, sep) + sep + joined(b.drop_last(), sep) + sep + b.last() == joined(
                a,
                sep,
            ) + sep + (joined(b.drop_last(), sep) + sep + b.last()));
        }
    }
}

/// What was split is whole again when it is joined, and no part holds the separator.
pub proof fn law_split(s: Seq<char>, sep: Seq<char>)
    requires
        sep.len() > 0,
    ensures
        split(s, sep).len() > 0,
        joined(split(s, sep), sep) == s,
        forall|i: int| 0 <= i < split(s, sep).len() ==> !contains(#[trigger] split(s, sep)[i], sep),
    decreases s.len(),
{
    law_first_of(s, sep);
    match first_of(s, sep) {
        Some(k) => {
            let head = s.take(k);
            let rest = s.skip(k + sep.len());
            law_split(rest, sep);
            law_joined(seq![head], split(rest, sep), head, sep);
            assert(occurs_at(s, sep, k));
            assert(head + sep + rest == s);
            assert(!contains(head, sep)) by {
                if contains(head, sep) {
                    let j = choose|j: int| #[trigger] occurs_at(head, sep, j);
                    assert(s.subrange(j, j + sep.len()) == head.subrange(j, j + sep.len()));
                    assert(occurs_at(s, sep, j));
                }
            }
            assert forall|i: int| 0 <= i < split(s, sep).len() implies !contains(
                #[trigger] split(s, sep)[i],
                sep,
            ) by {
                if i > 0 {
                    assert(split(s, sep)[i] == split(rest, sep)[i - 1]);
                }
            }
        },
        None => {
            law_joined(seq![s], seq![s], s, sep);
        },
    }
}

/// What was split into a number of parts is whole again when it is joined. There are
/// no more parts than that, and only the last one may hold the separator, where there
/// are as many as that.
pub proof fn law_split_n(s: Seq<char>, sep: Seq<char>, n: nat)
    requires
        n > 0,
    ensures
        0 < split_n(s, sep, n).len() <= n,
        joined(split_n(s, sep, n), sep) == s,
        forall|i: int|
            0 <= i < split_n(s, sep, n).len() && i < n - 1 ==> !contains(
                #[trigger] split_n(s, sep, n)[i],
                sep,
            ) || sep.len() == 0,
    decreases n,
{
    law_first_of(s, sep);
    law_joined(seq![s], seq![s], s, sep);
    if let Some(k) = first_of(s, sep) {
        if n > 1 {
            let head = s.take(k);
            let rest = s.skip(k + sep.len());
            law_split_n(rest, sep, (n - 1) as nat);
            let parts = split_n(rest, sep, (n - 1) as nat);
            law_joined(seq![head], parts, head, sep);
            assert(occurs_at(s, sep, k));
            assert(head + sep + rest == s);
            assert(!contains(head, sep) || sep.len() == 0) by {
                if contains(head, sep) && sep.len() > 0 {
                    let j = choose|j: int| #[trigger] occurs_at(head, sep, j);
                    assert(s.subrange(j, j + sep.len()) == head.subrange(j, j + sep.len()));
                    assert(occurs_at(s, sep, j));
                }
            }
            assert forall|i: int|
                0 <= i < split_n(s, sep, n).len() && i < n - 1 implies !contains(
                #[trigger] split_n(s, sep, n)[i],
                sep,
            ) || sep.len() == 0 by {
                if i > 0 {
                    assert(split_n(s, sep, n)[i] == parts[i - 1]);
                }
            }
        }
    }
}

/// Lines end at line feeds: what stands before the first one is a line, without a
/// carriage return at its end, and the lines behind it follow. What has no line feed is
/// one line.
pub proof fn law_lines(a: Seq<char>, b: Seq<char>)
    requires
        !a.contains('\n'),
    ensures
        lines(a + seq!['\n'] + b) == seq![
            if a.len() > 0 && a.last() == '\r' {
                a.drop_last()
            } else {
                a
            },
        ] + lines(b),
        a.len() > 0 ==> lines(a) == seq![a],
        lines(Seq::empty()) == Seq::<Seq<char>>::empty(),
{
    let s = a + seq!['\n'] + b;
    let feed = seq!['\n'];
    law_first_of(s, feed);
    law_first_of(a, feed);
    assert(s.subrange(a.len() as int, (a.len() + 1) as int) == feed);
    assert(occurs_at(s, feed, a.len() as int));
    let k = first_of(s, feed)->0;
    assert(k == a.len()) by {
        if k < a.len() {
            assert(s.subrange(k, k + 1)[0] == '\n');
            assert(a[k] == '\n');
        }
    }
    assert(s.take(k) == a);
    assert(s.skip(k + 1) == b);
    if let Some(j) = first_of(a, feed) {
        assert(a.subrange(j, j + 1)[0] == '\n');
        assert(a[j] == '\n');
    }
}

proof fn lemma_word_and_rest(w: Seq<char>, rest: Seq<char>)
    requires
        w.len() > 0,
        forall|i: int| 0 <= i < w.len() ==> !is_space(#[trigger] w[i]),
        rest.len() == 0 || is_space(rest[0]),
    ensures
        words(w + rest) == seq![w] + words(rest),
{
    let s = w + rest;
    assert forall|j: int| 0 <= j < w.len() implies !is_space(#[trigger] s[j]) by {
        assert(s[j] == w[j]);
    }
    if rest.len() > 0 {
        assert(s[w.len() as int] == rest[0]);
    }
    lemma_word_len(s, w.len());
    assert(!is_space(s[0]));
    assert(s.take(w.len() as int) == w);
    assert(s.skip(w.len() as int) == rest);
}

/// Words are what stands between white space: the words of two texts with white space
/// between them are those of the one and then those of the other, and a text without
/// white space is one word.
pub proof fn law_words(a: Seq<char>, space: char, b: Seq<char>)
    requires
        is_space(space),
    ensures
        words(a + seq![space] + b) == words(a) + words(b),
        a.len() > 0 && (forall|i: int| 0 <= i < a.len() ==> !is_space(#[trigger] a[i])) ==> words(a)
            == seq![a],
        words(Seq::empty()) == Seq::<Seq<char>>::empty(),
    decreases a.len(),
{
    let s = a + seq![space] + b;
    if a.len() > 0 && (forall|i: int| 0 <= i < a.len() ==> !is_space(#[trigger] a[i])) {
        lemma_word_and_rest(a, Seq::empty());
        assert(a + Seq::<char>::empty() == a);
        assert(seq![a] + words(Seq::empty()) == seq![a]);
    }
    if a.len() == 0 {
        assert(s.skip(1) == b);
        assert(s[0] == space);
        assert(words(a) + words(b) == words(b));
    } else if is_space(a[0]) {
        law_words(a.skip(1), space, b);
        assert(s[0] == a[0]);
        assert(s.skip(1) == a.skip(1) + seq![space] + b);
    } else {
        let n = lemma_first_word(a);
        let w = a.take(n);
        let tail = a.skip(n);
        assert(w + tail == a);
        if tail.len() > 0 {
            assert(tail[0] == a[n]);
        }
        lemma_word_and_rest(w, tail);
        law_words(tail, space, b);
        let rest = tail + seq![space] + b;
        assert(w + rest == s);
        if tail.len() > 0 {
            assert(rest[0] == tail[0]);
        } else {
            assert(rest[0] == space);
        }
        lemma_word_and_rest(w, rest);
        assert(seq![w] + (words(tail) + words(b)) == (seq![w] + words(tail)) + words(b));
    }
}

/// Where the first word of a text ends.
proof fn lemma_first_word(s: Seq<char>) -> (n: int)
    requires
        s.len() > 0,
        !is_space(s[0]),
    ensures
        0 < n <= s.len(),
        forall|i: int| 0 <= i < n ==> !is_space(#[trigger] s.take(n)[i]),
        n < s.len() ==> is_space(s[n]),
    decreases s.len(),
{
    if s.len() == 1 || is_space(s[1]) {
        assert(s.take(1)[0] == s[0]);
        1
    } else {
        let m = lemma_first_word(s.skip(1));
        assert forall|i: int| 0 <= i < m + 1 implies !is_space(#[trigger] s.take(m + 1)[i]) by {
            if i > 0 {
                assert(s.skip(1).take(m)[i - 1] == s[i]);
            }
        }
        if m < s.skip(1).len() {
            assert(s.skip(1)[m] == s[m + 1]);
        }
        m + 1
    }
}

/// The digits of a number stand for that number, without a zero in front.
pub proof fn law_decimal(n: nat)
    ensures
        decimal(n).len() > 0,
        forall|i: int| 0 <= i < decimal(n).len() ==> '0' <= #[trigger] decimal(n)[i] <= '9',
        number(decimal(n)) == n,
        n > 0 ==> decimal(n)[0] != '0',
        n <= usize::MAX ==> parsed_usize(decimal(n)) == Some(n),
    decreases n,
{
    let d = decimal(n);
    if n < 10 {
        assert(d.drop_last() == Seq::<char>::empty());
        assert(number(d.drop_last()) == 0);
    } else {
        law_decimal(n / 10);
        assert(d.drop_last() == decimal(n / 10));
        assert forall|i: int| 0 <= i < d.len() implies '0' <= #[trigger] d[i] <= '9' by {
            if i < d.len() - 1 {
                assert(d[i] == decimal(n / 10)[i]);
            }
        }
    }
    assert(number(d) == n);
    assert(d[0] != '+');
    assert(all_digits(d));
}

/// A digit more makes ten times the number and the digit.
pub proof fn law_number_by_digits(s: Seq<char>, c: char)
    requires
        '0' <= c <= '9',
    ensures
        number(s.push(c)) == 10 * number(s) + (c as nat - '0' as nat),
        number(Seq::empty()) == 0,
{
    assert(s.push(c).drop_last() == s);
}

/// The bytes of a text are those of its parts, and ASCII characters have one each, as
/// many as others at most have four.
pub proof fn law_byte_len(a: Seq<char>, b: Seq<char>, c: char)
    ensures
        byte_len(a + b) == byte_len(a) + byte_len(b),
        byte_len(seq![c]) == if (c as u32) < 0x80 {
            1nat
        } else if (c as u32) < 0x800 {
            2
        } else if (c as u32) < 0x1_0000 {
            3
        } else {
            4
        },
    decreases b.len(),
{
    assert(seq![c].drop_last() == Seq::<char>::empty());
    assert(byte_len(seq![c].drop_last()) == 0);
    if b.len() == 0 {
        assert(a + b == a);
    } else {
        law_byte_len(a, b.drop_last(), c);
        assert((a + b).drop_last() == a + b.drop_last());
    }
}

/// What fits is a beginning of the text with no more bytes than allowed, and with one
/// character more it would not fit.
pub proof fn law_fitting(s: Seq<char>, max: nat)
    ensures
        fitting(s, max).len() <= s.len(),
        fitting(s, max) == s.take(fitting(s, max).len() as int),
        byte_len(fitting(s, max)) <= max,
        fitting(s, max).len() < s.len() ==> byte_len(s.take((fitting(s, max).len() + 1) as int)) > max,
    decreases s.len(),
{
    if byte_len(s) <= max || s.len() == 0 {
        assert(s.take(s.len() as int) == s);
    } else {
        let front = s.drop_last();
        law_fitting(front, max);
        let n = fitting(s, max).len() as int;
        assert(front.take(n) == s.take(n));
        if n < front.len() {
            assert(front.take(n + 1) == s.take(n + 1));
        } else {
            assert(s.take(n + 1) == s);
        }
    }
}

/// The first characters of a text are its beginning, and all of it where it is no
/// longer.
pub proof fn law_first_chars(s: Seq<char>, n: int)
    requires
        n >= 0,
    ensures
        first_chars(s, n).len() == vstd::math::min(n, s.len() as int),
        forall|i: int| 0 <= i < first_chars(s, n).len() ==> #[trigger] first_chars(s, n)[i] == s[i],
{
}

/// What is read as a number: digits, with or without a plus sign in front; nothing where
/// there is none, or anything else among them.
pub proof fn law_read_numbers(n: nat, s: Seq<char>, i: int)
    ensures
        n <= usize::MAX ==> parsed_usize(seq!['+'] + decimal(n)) == Some(n),
        n > usize::MAX ==> parsed_usize(decimal(n)) is None,
        parsed_usize(Seq::empty()) is None,
        parsed_usize(seq!['+']) is None,
        0 <= i < s.len() && !('0' <= s[i] <= '9') && (i > 0 || s[i] != '+') ==> parsed_usize(s)
            is None,
{
    law_decimal(n);
    let d = decimal(n);
    let signed = seq!['+'] + d;
    assert(unsigned(signed) == d) by {
        assert(signed.skip(1) == d);
    }
    assert(seq!['+'].skip(1) == Seq::<char>::empty());
    assert(all_digits(d)) by {
        assert forall|k: int| 0 <= k < d.len() implies is_digit(#[trigger] d[k]) by {
            assert('0' <= d[k] <= '9');
        }
    }
    assert(d[0] != '+');
    if 0 <= i < s.len() && !('0' <= s[i] <= '9') && (i > 0 || s[i] != '+') {
        let rest = unsigned(s);
        if s[0] == '+' {
            assert(rest == s.skip(1));
            assert(rest[i - 1] == s[i]);
        } else {
            assert(rest[i] == s[i]);
        }
    }
}

} // verus!
