//! Text as sequences of characters: searching, replacing, splitting and
//! trimming, with the executable counterparts on character slices.

use vstd::prelude::*;
use vstd::slice::slice_subrange;
use vstd::utf8::{decode_utf8, valid_utf8};

verus! {

/// Appends one character to a `String`.
///
/// `String::push` "appends the given `char` to the end of this `String`".
pub assume_specification[ String::push ](s: &mut String, c: char)
    ensures
        final(s)@ == old(s)@.push(c),
;

/// The text that a byte sequence encodes, if it is valid UTF-8.
pub open spec fn utf8_text(bytes: Seq<u8>) -> Option<Seq<char>> {
    if valid_utf8(bytes) {
        Some(decode_utf8(bytes))
    } else {
        None
    }
}

/// Calls `String::from_utf8`, which converts valid UTF-8 to the text that it
/// encodes and rejects everything else.
#[verifier::external_body]
pub(crate) fn string_from_utf8(bytes: Vec<u8>) -> (r: Option<String>)
    ensures
        match r {
            Some(s) => utf8_text(bytes@) == Some(s@),
            None => utf8_text(bytes@) is None,
        },
{
    String::from_utf8(bytes).ok()
}

/// `pat` stands in `s` at position `i`.
pub open spec fn occurs_at(s: Seq<char>, pat: Seq<char>, i: int) -> bool {
    &&& 0 <= i
    &&& i + pat.len() <= s.len()
    &&& s.subrange(i, i + pat.len()) == pat
}

/// Position `i` is the leftmost one at which `pat` stands in `s`.
pub open spec fn first_at(s: Seq<char>, pat: Seq<char>, i: int) -> bool {
    &&& occurs_at(s, pat, i)
    &&& forall|j: int| 0 <= j < i ==> !#[trigger] occurs_at(s, pat, j)
}

/// The leftmost position of `pat` in `s`, if there is one.
pub open spec fn find(s: Seq<char>, pat: Seq<char>) -> Option<int> {
    if exists|i: int| #[trigger] first_at(s, pat, i) {
        Some(choose|i: int| #[trigger] first_at(s, pat, i))
    } else {
        None
    }
}

/// The leftmost position is the one that is found.
pub proof fn lemma_find_some(s: Seq<char>, pat: Seq<char>, i: int)
    requires
        first_at(s, pat, i),
    ensures
        find(s, pat) == Some(i),
{
    let k = choose|k: int| #[trigger] first_at(s, pat, k);
    assert(first_at(s, pat, k));
    if k < i {
        assert(!occurs_at(s, pat, k));
    } else if i < k {
        assert(!occurs_at(s, pat, i));
    }
}

proof fn lemma_first_below(s: Seq<char>, pat: Seq<char>, i: int)
    requires
        occurs_at(s, pat, i),
    ensures
        exists|j: int| #[trigger] first_at(s, pat, j) && j <= i,
    decreases i,
{
    if exists|j: int| 0 <= j < i && #[trigger] occurs_at(s, pat, j) {
        let j = choose|j: int| 0 <= j < i && #[trigger] occurs_at(s, pat, j);
        lemma_first_below(s, pat, j);
    } else {
        assert(first_at(s, pat, i));
    }
}

/// `find` is `None` exactly when the pattern stands nowhere, and otherwise
/// gives the leftmost position.
pub proof fn lemma_find(s: Seq<char>, pat: Seq<char>)
    ensures
        find(s, pat) is None <==> (forall|i: int| !#[trigger] occurs_at(s, pat, i)),
        find(s, pat) matches Some(i) ==> first_at(s, pat, i),
{
    if exists|i: int| #[trigger] occurs_at(s, pat, i) {
        let i = choose|i: int| #[trigger] occurs_at(s, pat, i);
        lemma_first_below(s, pat, i);
        let k = choose|j: int| #[trigger] first_at(s, pat, j) && j <= i;
        lemma_find_some(s, pat, k);
    }
    if find(s, pat) is Some {
        let k = choose|j: int| #[trigger] first_at(s, pat, j);
        assert(first_at(s, pat, k));
        assert(occurs_at(s, pat, k));
    }
}

/// The characters of a string.
pub fn chars_of(s: &str) -> (chars: Vec<char>)
    ensures
        chars@ == s@,
{
    let mut chars: Vec<char> = Vec::new();
    for c in it: s.chars()
        invariant
            chars@ == it.seq().take(it.index() as int),
            it.seq() == s@,
    {
        chars.push(c);
    }
    chars
}

/// The string made of the given characters.
pub fn string_of(chars: &[char]) -> (s: String)
    ensures
        s@ == chars@,
{
    let mut s = String::new();
    let mut i: usize = 0;
    while i < chars.len()
        invariant
            i <= chars.len(),
            s@ == chars@.take(i as int),
        decreases chars.len() - i,
    {
        s.push(chars[i]);
        i += 1;
        assert(chars@.take(i as int) =~= chars@.take(i - 1).push(chars@[i - 1]));
    }
    assert(chars@.take(i as int) =~= chars@);
    s
}

/// Whether `pat` stands in `s` at position `i`.
fn occurs_here(s: &[char], pat: &[char], i: usize) -> (r: bool)
    ensures
        r == occurs_at(s@, pat@, i as int),
{
    if pat.len() > s.len() || i > s.len() - pat.len() {
        return false;
    }
    let mut k: usize = 0;
    while k < pat.len()
        invariant
            k <= pat.len(),
            i + pat.len() <= s.len(),
            forall|j: int| 0 <= j < k ==> s@[i + j] == pat@[j],
        decreases pat.len() - k,
    {
        if s[i + k] != pat[k] {
            assert(s@.subrange(i as int, i + pat@.len())[k as int] != pat@[k as int]);
            return false;
        }
        k += 1;
    }
    assert(s@.subrange(i as int, i + pat@.len()) =~= pat@);
    true
}

/// The leftmost position of `pat` in `s`.
pub fn find_chars(s: &[char], pat: &[char]) -> (r: Option<usize>)
    ensures
        match r {
            Some(i) => find(s@, pat@) == Some(i as int) && i + pat@.len() <= s@.len(),
            None => find(s@, pat@) is None,
        },
{
    let mut i: usize = 0;
    while i < s.len()
        invariant
            i <= s.len(),
            forall|j: int| 0 <= j < i ==> !#[trigger] occurs_at(s@, pat@, j),
        decreases s.len() - i,
    {
        if occurs_here(s, pat, i) {
            proof {
                lemma_find_some(s@, pat@, i as int);
            }
            return Some(i);
        }
        i += 1;
    }
    if occurs_here(s, pat, i) {
        proof {
            lemma_find_some(s@, pat@, i as int);
        }
        return Some(i);
    }
    proof {
        lemma_find(s@, pat@);
    }
    None
}

/// Appends the characters of `tail` to `out`.
pub fn push_chars(out: &mut Vec<char>, tail: &[char])
    ensures
        final(out)@ == old(out)@ + tail@,
{
    let mut i: usize = 0;
    while i < tail.len()
        invariant
            i <= tail.len(),
            out@ == old(out)@ + tail@.take(i as int),
        decreases tail.len() - i,
    {
        out.push(tail[i]);
        i += 1;
        assert(tail@.take(i as int) =~= tail@.take(i - 1).push(tail@[i - 1]));
    }
    assert(tail@.take(i as int) =~= tail@);
}

/// An owned copy of a character slice.
pub fn copy_chars(s: &[char]) -> (r: Vec<char>)
    ensures
        r@ == s@,
{
    let mut r: Vec<char> = Vec::new();
    push_chars(&mut r, s);
    r
}

/// Whether `s` begins with `prefix`.
pub open spec fn begins_with(s: Seq<char>, prefix: Seq<char>) -> bool {
    prefix.len() <= s.len() && s.take(prefix.len() as int) == prefix
}

/// Whether `s` ends with `suffix`.
pub open spec fn ends_in(s: Seq<char>, suffix: Seq<char>) -> bool {
    suffix.len() <= s.len() && s.skip(s.len() - suffix.len()) == suffix
}

/// Whether `s` begins with `prefix`.
pub fn starts_with_chars(s: &[char], prefix: &[char]) -> (r: bool)
    ensures
        r == begins_with(s@, prefix@),
{
    let r = occurs_here(s, prefix, 0);
    assert(prefix@.len() <= s@.len() ==> s@.subrange(0, prefix@.len() as int) =~= s@.take(
        prefix@.len() as int,
    ));
    r
}

/// Whether `s` ends with `suffix`.
pub fn ends_with_chars(s: &[char], suffix: &[char]) -> (r: bool)
    ensures
        r == ends_in(s@, suffix@),
{
    if suffix.len() > s.len() {
        return false;
    }
    let r = occurs_here(s, suffix, s.len() - suffix.len());
    assert(s@.subrange(s@.len() - suffix@.len(), s@.len() as int) =~= s@.skip(
        s@.len() - suffix@.len(),
    ));
    r
}

/// Whether `pat` stands anywhere in `s`.
pub open spec fn has_text(s: Seq<char>, pat: Seq<char>) -> bool {
    exists|i: int| #[trigger] occurs_at(s, pat, i)
}

/// Whether `pat` stands in `s`.
pub fn contains_chars(s: &[char], pat: &[char]) -> (r: bool)
    ensures
        r == has_text(s@, pat@),
{
    let found = find_chars(s, pat);
    proof {
        lemma_find(s@, pat@);
    }
    found.is_some()
}

/// `s` with every occurrence of `pat`, taken from the left without overlaps,
/// replaced by `rep`.
pub open spec fn replaced(s: Seq<char>, pat: Seq<char>, rep: Seq<char>) -> Seq<char>
    decreases s.len(),
{
    if pat.len() == 0 {
        s
    } else {
        match find(s, pat) {
            None => s,
            Some(i) => {
                proof {
                    lemma_find(s, pat);
                }
                s.take(i) + rep + replaced(s.skip(i + pat.len()), pat, rep)
            },
        }
    }
}

/// `s` with every occurrence of `pat` replaced by `rep`.
pub fn replace_chars(s: &[char], pat: &[char], rep: &[char]) -> (r: Vec<char>)
    requires
        pat@.len() > 0,
    ensures
        r@ == replaced(s@, pat@, rep@),
{
    let mut out: Vec<char> = Vec::new();
    let mut pos: usize = 0;
    assert(s@.skip(0) =~= s@);
    loop
        invariant
            pat@.len() > 0,
            pos <= s@.len(),
            replaced(s@, pat@, rep@) == out@ + replaced(s@.skip(pos as int), pat@, rep@),
        decreases s@.len() - pos,
    {
        let rest = slice_subrange(s, pos, s.len());
        assert(rest@ =~= s@.skip(pos as int));
        match find_chars(rest, pat) {
            None => {
                push_chars(&mut out, rest);
                return out;
            },
            Some(i) => {
                let ghost before = out@;
                push_chars(&mut out, slice_subrange(rest, 0, i));
                push_chars(&mut out, rep);
                assert(rest@.skip(i + pat@.len()) =~= s@.skip(pos + i + pat@.len()));
                assert(rest@.subrange(0, i as int) =~= rest@.take(i as int));
                pos = pos + i + pat.len();
                assert(out@ + replaced(s@.skip(pos as int), pat@, rep@) =~= before + (rest@.take(
                    i as int,
                ) + rep@ + replaced(s@.skip(pos as int), pat@, rep@)));
            },
        }
    }
}

/// The text itself if it is not empty, and nothing otherwise.
pub open spec fn unless_empty(s: Seq<char>) -> Seq<Seq<char>> {
    if s.len() == 0 {
        seq![]
    } else {
        seq![s]
    }
}

/// The non-empty parts of `s` between the separators.
pub open spec fn parts(s: Seq<char>, sep: char) -> Seq<Seq<char>>
    decreases s.len(),
{
    match find(s, seq![sep]) {
        None => unless_empty(s),
        Some(i) => {
            proof {
                lemma_find(s, seq![sep]);
            }
            unless_empty(s.take(i)) + parts(s.skip(i + 1), sep)
        },
    }
}

/// The view of a list of strings.
pub open spec fn texts(list: Seq<String>) -> Seq<Seq<char>> {
    list.map_values(|s: String| s@)
}

fn push_unless_empty(out: &mut Vec<String>, s: &[char])
    ensures
        texts(final(out)@) == texts(old(out)@) + unless_empty(s@),
{
    if s.len() > 0 {
        out.push(string_of(s));
    }
    assert(texts(out@) =~= texts(old(out)@) + unless_empty(s@));
}

/// Appends the non-empty parts of `s` to `out`.
pub fn push_parts(out: &mut Vec<String>, s: &[char], sep: char)
    ensures
        texts(final(out)@) == texts(old(out)@) + parts(s@, sep),
{
    let mut pos: usize = 0;
    let sep_text: Vec<char> = vec![sep];
    assert(sep_text@ =~= seq![sep]);
    assert(s@.skip(0) =~= s@);
    loop
        invariant
            sep_text@ == seq![sep],
            pos <= s@.len(),
            texts(old(out)@) + parts(s@, sep) == texts(out@) + parts(s@.skip(pos as int), sep),
        decreases s@.len() - pos,
    {
        let rest = slice_subrange(s, pos, s.len());
        assert(rest@ =~= s@.skip(pos as int));
        match find_chars(rest, &sep_text) {
            None => {
                push_unless_empty(out, rest);
                return ;
            },
            Some(i) => {
                let ghost before = texts(out@);
                push_unless_empty(out, slice_subrange(rest, 0, i));
                assert(rest@.skip(i + 1) =~= s@.skip(pos + i + 1));
                assert(rest@.subrange(0, i as int) =~= rest@.take(i as int));
                pos = pos + i + 1;
                assert(texts(out@) + parts(s@.skip(pos as int), sep) =~= before + (unless_empty(
                    rest@.take(i as int),
                ) + parts(s@.skip(pos as int), sep)));
            },
        }
    }
}

/// `s` without one carriage return at its end.
pub open spec fn without_return(s: Seq<char>) -> Seq<char> {
    if s.len() > 0 && s.last() == '\r' {
        s.drop_last()
    } else {
        s
    }
}

/// The lines of `s`: each ends at a line feed, before which one carriage
/// return is dropped; what follows the last line feed is a line if it is not
/// empty.
pub open spec fn lines(s: Seq<char>) -> Seq<Seq<char>>
    decreases s.len(),
{
    match find(s, seq!['\n']) {
        None => unless_empty(s),
        Some(i) => {
            proof {
                lemma_find(s, seq!['\n']);
            }
            seq![without_return(s.take(i))] + lines(s.skip(i + 1))
        },
    }
}

/// The view of a list of character vectors.
pub open spec fn views(list: Seq<Vec<char>>) -> Seq<Seq<char>> {
    list.map_values(|v: Vec<char>| v@)
}

/// The lines of `s`.
pub fn split_lines(s: &[char]) -> (r: Vec<Vec<char>>)
    ensures
        views(r@) == lines(s@),
{
    let mut out: Vec<Vec<char>> = Vec::new();
    let mut pos: usize = 0;
    let feed: Vec<char> = vec!['\n'];
    assert(feed@ =~= seq!['\n']);
    assert(s@.skip(0) =~= s@);
    assert(views(out@) =~= seq![]);
    loop
        invariant
            feed@ == seq!['\n'],
            pos <= s@.len(),
            lines(s@) == views(out@) + lines(s@.skip(pos as int)),
        decreases s@.len() - pos,
    {
        let rest = slice_subrange(s, pos, s.len());
        assert(rest@ =~= s@.skip(pos as int));
        let ghost before = views(out@);
        match find_chars(rest, &feed) {
            None => {
                if rest.len() > 0 {
                    out.push(copy_chars(rest));
                }
                assert(views(out@) =~= before + unless_empty(rest@));
                return out;
            },
            Some(i) => {
                let mut end: usize = i;
                if end > 0 && rest[end - 1] == '\r' {
                    end = end - 1;
                }
                out.push(copy_chars(slice_subrange(rest, 0, end)));
                assert(rest@.subrange(0, end as int) =~= without_return(rest@.take(i as int)));
                assert(rest@.skip(i + 1) =~= s@.skip(pos + i + 1));
                pos = pos + i + 1;
                assert(views(out@) =~= before.push(without_return(rest@.take(i as int))));
                assert(views(out@) + lines(s@.skip(pos as int)) =~= before + (seq![
                    without_return(rest@.take(i as int)),
                ] + lines(s@.skip(pos as int))));
            },
        }
    }
}

/// The characters with the Unicode property `White_Space`.
pub open spec fn white_space(c: char) -> bool {
    let v = c as u32;
    ||| 0x9 <= v <= 0xd
    ||| v == 0x20
    ||| v == 0x85
    ||| v == 0xa0
    ||| v == 0x1680
    ||| 0x2000 <= v <= 0x200a
    ||| v == 0x2028
    ||| v == 0x2029
    ||| v == 0x202f
    ||| v == 0x205f
    ||| v == 0x3000
}

/// Whether `c` is white space.
pub fn is_white_space(c: char) -> (r: bool)
    ensures
        r == white_space(c),
{
    let v: u32 = c as u32;
    (0x9 <= v && v <= 0xd) || v == 0x20 || v == 0x85 || v == 0xa0 || v == 0x1680 || (0x2000 <= v
        && v <= 0x200a) || v == 0x2028 || v == 0x2029 || v == 0x202f || v == 0x205f || v == 0x3000
}

/// `s` without the white space at its beginning.
pub open spec fn trim_start(s: Seq<char>) -> Seq<char>
    decreases s.len(),
{
    if s.len() > 0 && white_space(s[0]) {
        trim_start(s.drop_first())
    } else {
        s
    }
}

/// `s` without the white space at its end.
pub open spec fn trim_end(s: Seq<char>) -> Seq<char>
    decreases s.len(),
{
    if s.len() > 0 && white_space(s.last()) {
        trim_end(s.drop_last())
    } else {
        s
    }
}

/// `s` without the white space at both ends.
pub open spec fn trimmed(s: Seq<char>) -> Seq<char> {
    trim_end(trim_start(s))
}

/// `s` without the white space at both ends.
pub fn trim_chars(s: &[char]) -> (r: &[char])
    ensures
        r@ == trimmed(s@),
{
    let mut from: usize = 0;
    assert(s@.skip(0) =~= s@);
    while from < s.len() && is_white_space(s[from])
        invariant
            from <= s.len(),
            trim_start(s@) == trim_start(s@.skip(from as int)),
        decreases s.len() - from,
    {
        assert(s@.skip(from as int).drop_first() =~= s@.skip(from + 1));
        from += 1;
    }
    let tail = slice_subrange(s, from, s.len());
    assert(tail@ =~= s@.skip(from as int));
    let mut to: usize = tail.len();
    assert(tail@.take(to as int) =~= tail@);
    while to > 0 && is_white_space(tail[to - 1])
        invariant
            to <= tail.len(),
            trim_end(tail@) == trim_end(tail@.take(to as int)),
        decreases to,
    {
        assert(tail@.take(to as int).drop_last() =~= tail@.take(to - 1));
        to -= 1;
    }
    let r = slice_subrange(tail, 0, to);
    assert(r@ =~= tail@.take(to as int));
    r
}

/// `s` without the occurrences of `c` at its end.
pub open spec fn without_trailing(s: Seq<char>, c: char) -> Seq<char>
    decreases s.len(),
{
    if s.len() > 0 && s.last() == c {
        without_trailing(s.drop_last(), c)
    } else {
        s
    }
}

/// `s` without the occurrences of `c` at its end.
pub fn strip_trailing(s: &[char], c: char) -> (r: &[char])
    ensures
        r@ == without_trailing(s@, c),
{
    let mut to: usize = s.len();
    assert(s@.take(to as int) =~= s@);
    while to > 0 && s[to - 1] == c
        invariant
            to <= s.len(),
            without_trailing(s@, c) == without_trailing(s@.take(to as int), c),
        decreases to,
    {
        assert(s@.take(to as int).drop_last() =~= s@.take(to - 1));
        to -= 1;
    }
    let r = slice_subrange(s, 0, to);
    assert(r@ =~= s@.take(to as int));
    r
}

/// The ASCII lower-case form of a character; others stay as they are.
pub open spec fn ascii_lower(c: char) -> char {
    if 'A' <= c <= 'Z' {
        (c as u8 + 32) as char
    } else {
        c
    }
}

/// `s` with its ASCII letters in lower case.
pub open spec fn lowered(s: Seq<char>) -> Seq<char> {
    s.map_values(|c: char| ascii_lower(c))
}

/// `s` with its ASCII letters in lower case.
pub fn lower_chars(s: &[char]) -> (r: Vec<char>)
    ensures
        r@ == lowered(s@),
{
    let mut r: Vec<char> = Vec::new();
    let mut i: usize = 0;
    while i < s.len()
        invariant
            i <= s.len(),
            r@ == lowered(s@.take(i as int)),
        decreases s.len() - i,
    {
        let c: char = s[i];
        let lower: char = if 'A' <= c && c <= 'Z' {
            (c as u8 + 32) as char
        } else {
            c
        };
        r.push(lower);
        i += 1;
        assert(r@ =~= lowered(s@.take(i as int)));
    }
    assert(s@.take(i as int) =~= s@);
    r
}

/// The texts of `list`, one after the other, with `sep` between them.
pub open spec fn joined(list: Seq<Seq<char>>, sep: Seq<char>) -> Seq<char>
    decreases list.len(),
{
    if list.len() == 0 {
        seq![]
    } else if list.len() == 1 {
        list[0]
    } else {
        joined(list.drop_last(), sep) + sep + list.last()
    }
}

/// The texts of `list` with `sep` between them.
pub fn join_strings(list: &Vec<String>, sep: &str) -> (r: String)
    ensures
        r@ == joined(texts(list@), sep@),
{
    let mut r = String::new();
    let mut i: usize = 0;
    while i < list.len()
        invariant
            i <= list.len(),
            r@ == joined(texts(list@).take(i as int), sep@),
        decreases list.len() - i,
    {
        if i > 0 {
            r.append(sep);
        }
        r.append(list[i].as_str());
        i += 1;
        assert(texts(list@).take(i as int).drop_last() =~= texts(list@).take(i - 1));
        assert(texts(list@)[i - 1] == list@[i - 1]@);
        assert(r@ =~= joined(texts(list@).take(i as int), sep@));
    }
    assert(texts(list@).take(i as int) =~= texts(list@));
    r
}

/// The decimal digit `d`.
pub open spec fn digit(d: int) -> char {
    (d + 48) as char
}

/// The decimal notation of a natural number.
pub open spec fn decimal(n: nat) -> Seq<char>
    decreases n,
{
    if n < 10 {
        seq![digit(n as int)]
    } else {
        decimal(n / 10).push(digit((n % 10) as int))
    }
}

/// The decimal notation of an integer, with a minus sign for a negative one.
pub open spec fn signed_decimal(n: int) -> Seq<char> {
    if n < 0 {
        seq!['-'] + decimal((-n) as nat)
    } else {
        decimal(n as nat)
    }
}

/// `n` in decimal notation.
pub fn decimal_chars(n: u128) -> (r: Vec<char>)
    ensures
        r@ == decimal(n as nat),
    decreases n,
{
    let last: u8 = (n % 10) as u8;
    let c: char = (last + 48) as char;
    if n < 10 {
        let r: Vec<char> = vec![c];
        assert(r@ =~= decimal(n as nat));
        r
    } else {
        let mut r = decimal_chars(n / 10);
        r.push(c);
        r
    }
}

/// `n` in decimal notation, with a minus sign if it is negative.
pub fn signed_decimal_chars(n: i64) -> (r: Vec<char>)
    ensures
        r@ == signed_decimal(n as int),
{
    if n < 0 {
        let magnitude: u128 = (-(n as i128)) as u128;
        let mut r: Vec<char> = vec!['-'];
        let digits = decimal_chars(magnitude);
        push_chars(&mut r, &digits);
        assert(r@ =~= signed_decimal(n as int));
        r
    } else {
        decimal_chars(n as u128)
    }
}

/// Whether two strings hold the same text.
pub fn same_text(a: &str, b: &str) -> (r: bool)
    ensures
        r == (a@ == b@),
{
    a.to_owned() == b.to_owned()
}

} // verus!
