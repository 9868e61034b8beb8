//! Text as a sequence of characters: white space, lines, words, and searching.
use vstd::prelude::*;
use vstd::slice::slice_subrange;
use vstd::string::StringSliceAdditionalSpecFns;
use vstd::utf8::encode_utf8_decode_utf8;

verus! {

/// `String::push` of std: the character goes to the end.
pub assume_specification[ String::push ](s: &mut String, c: char)
    ensures
        final(s)@ == old(s)@.push(c),
;

// ----------------------------------------------------------------- conversion
/// The characters of a string.
pub fn chars_of(s: &str) -> (out: Vec<char>)
    ensures
        out@ == s@,
{
    let mut out: Vec<char> = Vec::new();
    for c in it: s.chars()
        invariant
            out@ =~= it.seq().take(it.index() as int),
            it.seq() == s@,
    {
        out.push(c);
    }
    out
}

/// The string of a run of characters.
pub fn string_of(chars: &[char]) -> (out: String)
    ensures
        out@ == chars@,
{
    let mut out = String::new();
    let mut i: usize = 0;
    while i < chars.len()
        invariant
            i <= chars@.len(),
            out@ =~= chars@.take(i as int),
        decreases chars@.len() - i,
    {
        out.push(chars[i]);
        i = i + 1;
    }
    out
}

/// Whether two texts are the same.
pub fn same_text(a: &str, b: &str) -> (r: bool)
    ensures
        r == (a@ == b@),
{
    let x = a.as_bytes();
    let y = b.as_bytes();
    proof {
        encode_utf8_decode_utf8(a@);
        encode_utf8_decode_utf8(b@);
    }
    if x.len() != y.len() {
        return false;
    }
    let mut i: usize = 0;
    while i < x.len()
        invariant
            i <= x@.len(),
            x@.len() == y@.len(),
            x@ == a.spec_bytes(),
            y@ == b.spec_bytes(),
            forall|k: int| 0 <= k < i ==> x@[k] == y@[k],
        decreases x@.len() - i,
    {
        if x[i] != y[i] {
            return false;
        }
        i = i + 1;
    }
    assert(x@ =~= y@);
    true
}

/// Whether two runs of characters are the same.
pub fn same_chars(a: &[char], b: &[char]) -> (r: bool)
    ensures
        r == (a@ == b@),
{
    if a.len() != b.len() {
        return false;
    }
    let mut i: usize = 0;
    while i < a.len()
        invariant
            i <= a@.len(),
            a@.len() == b@.len(),
            forall|k: int| 0 <= k < i ==> a@[k] == b@[k],
        decreases a@.len() - i,
    {
        if a[i] != b[i] {
            return false;
        }
        i = i + 1;
    }
    assert(a@ =~= b@);
    true
}

/// Whether the characters are those of a string.
pub fn chars_are(a: &[char], b: &str) -> (r: bool)
    ensures
        r == (a@ == b@),
{
    same_chars(a, chars_of(b).as_slice())
}

/// The views of a list of strings.
pub open spec fn texts(v: Seq<String>) -> Seq<Seq<char>> {
    v.map_values(|s: String| s@)
}

/// The views of a list of runs of characters.
pub open spec fn runs(v: Seq<&[char]>) -> Seq<Seq<char>> {
    v.map_values(|s: &[char]| s@)
}

/// The text of an optional string.
pub open spec fn text_option(s: Option<String>) -> Option<Seq<char>> {
    match s {
        Some(t) => Some(t@),
        None => None,
    }
}

// ---------------------------------------------------------------- white space
/// White space, as Unicode defines it.
pub open spec fn is_space(c: char) -> bool {
    let u = c as u32;
    ||| 0x9 <= u <= 0xD
    ||| u == 0x20
    ||| u == 0x85
    ||| u == 0xA0
    ||| u == 0x1680
    ||| 0x2000 <= u <= 0x200A
    ||| u == 0x2028
    ||| u == 0x2029
    ||| u == 0x202F
    ||| u == 0x205F
    ||| u == 0x3000
}

pub fn space(c: char) -> (r: bool)
    ensures
        r == is_space(c),
{
    let u = c as u32;
    (0x9 <= u && u <= 0xD) || u == 0x20 || u == 0x85 || u == 0xA0 || u == 0x1680 || (0x2000 <= u
        && u <= 0x200A) || u == 0x2028 || u == 0x2029 || u == 0x202F || u == 0x205F || u
        == 0x3000
}

/// The first position at or after `i` that is no white space, or the end.
pub open spec fn ink_start(s: Seq<char>, i: int) -> int
    decreases s.len() - i,
{
    if 0 <= i < s.len() && is_space(s[i]) {
        ink_start(s, i + 1)
    } else {
        i
    }
}

/// The first position at or after `i` that is white space, or the end.
pub open spec fn ink_end(s: Seq<char>, i: int) -> int
    decreases s.len() - i,
{
    if 0 <= i < s.len() && !is_space(s[i]) {
        ink_end(s, i + 1)
    } else {
        i
    }
}

/// The end of what is left of the first `n` characters without trailing white space.
pub open spec fn ink_stop(s: Seq<char>, n: int) -> int
    decreases n,
{
    if 0 < n <= s.len() && is_space(s[n - 1]) {
        ink_stop(s, n - 1)
    } else {
        n
    }
}

pub open spec fn trim_start(s: Seq<char>) -> Seq<char> {
    s.subrange(ink_start(s, 0), s.len() as int)
}

pub open spec fn trim_end(s: Seq<char>) -> Seq<char> {
    s.subrange(0, ink_stop(s, s.len() as int))
}

pub open spec fn trim(s: Seq<char>) -> Seq<char> {
    trim_end(trim_start(s))
}

pub proof fn lemma_ink_start(s: Seq<char>, i: int)
    requires
        0 <= i <= s.len(),
    ensures
        i <= ink_start(s, i) <= s.len(),
        ink_start(s, i) < s.len() ==> !is_space(s[ink_start(s, i)]),
    decreases s.len() - i,
{
    if i < s.len() && is_space(s[i]) {
        lemma_ink_start(s, i + 1);
    }
}

pub proof fn lemma_ink_end(s: Seq<char>, i: int)
    requires
        0 <= i <= s.len(),
    ensures
        i <= ink_end(s, i) <= s.len(),
        i < s.len() && !is_space(s[i]) ==> i < ink_end(s, i),
    decreases s.len() - i,
{
    if i < s.len() && !is_space(s[i]) {
        lemma_ink_end(s, i + 1);
    }
}

pub fn past_spaces(s: &[char], i: usize) -> (r: usize)
    requires
        i <= s@.len(),
    ensures
        r == ink_start(s@, i as int),
        i <= r <= s@.len(),
{
    let mut p: usize = i;
    while p < s.len() && space(s[p])
        invariant
            i <= p <= s@.len(),
            ink_start(s@, i as int) == ink_start(s@, p as int),
        decreases s@.len() - p,
    {
        p = p + 1;
    }
    p
}

pub fn past_ink(s: &[char], i: usize) -> (r: usize)
    requires
        i <= s@.len(),
    ensures
        r == ink_end(s@, i as int),
        i <= r <= s@.len(),
{
    let mut p: usize = i;
    while p < s.len() && !space(s[p])
        invariant
            i <= p <= s@.len(),
            ink_end(s@, i as int) == ink_end(s@, p as int),
        decreases s@.len() - p,
    {
        p = p + 1;
    }
    p
}

/// The text without leading white space.
pub fn trimmed_start(s: &[char]) -> (r: &[char])
    ensures
        r@ == trim_start(s@),
{
    let i = past_spaces(s, 0);
    slice_subrange(s, i, s.len())
}

/// The text without trailing white space.
pub fn trimmed_end(s: &[char]) -> (r: &[char])
    ensures
        r@ == trim_end(s@),
{
    let mut n: usize = s.len();
    while n > 0 && space(s[n - 1])
        invariant
            n <= s@.len(),
            ink_stop(s@, s@.len() as int) == ink_stop(s@, n as int),
        decreases n,
    {
        n = n - 1;
    }
    slice_subrange(s, 0, n)
}

/// The text without white space on either side.
pub fn trimmed(s: &[char]) -> (r: &[char])
    ensures
        r@ == trim(s@),
{
    trimmed_end(trimmed_start(s))
}

// ---------------------------------------------------------------------- words
/// The runs between white space, from position `i` on.
pub open spec fn words_from(s: Seq<char>, i: int) -> Seq<Seq<char>>
    decreases s.len() - i,
    when 0 <= i <= s.len()
    via words_from_decreases
{
    let j = ink_start(s, i);
    if j >= s.len() {
        seq![]
    } else {
        seq![s.subrange(j, ink_end(s, j))] + words_from(s, ink_end(s, j))
    }
}

#[via_fn]
proof fn words_from_decreases(s: Seq<char>, i: int) {
    lemma_ink_start(s, i);
    if ink_start(s, i) < s.len() {
        lemma_ink_end(s, ink_start(s, i));
    }
}

/// The runs between white space.
pub open spec fn split_words(s: Seq<char>) -> Seq<Seq<char>> {
    words_from(s, 0)
}

/// The runs between white space.
pub fn words(s: &[char]) -> (out: Vec<&[char]>)
    ensures
        runs(out@) == split_words(s@),
{
    let mut out: Vec<&[char]> = Vec::new();
    let mut i: usize = 0;
    proof {
        assert(runs(out@) + words_from(s@, 0) =~= words_from(s@, 0));
    }
    loop
        invariant
            i <= s@.len(),
            split_words(s@) == runs(out@) + words_from(s@, i as int),
        decreases s@.len() - i,
    {
        let j = past_spaces(s, i);
        if j >= s.len() {
            assert(runs(out@) + Seq::<Seq<char>>::empty() =~= runs(out@));
            return out;
        }
        proof {
            lemma_ink_start(s@, i as int);
            lemma_ink_end(s@, j as int);
        }
        let k = past_ink(s, j);
        let ghost before = out@;
        let word = slice_subrange(s, j, k);
        out.push(word);
        proof {
            assert(runs(out@) =~= runs(before) + seq![word@]);
            assert((runs(before) + seq![word@]) + words_from(s@, k as int) =~= runs(before) + (
            seq![word@] + words_from(s@, k as int)));
        }
        i = k;
    }
}

/// The runs between white space, as strings.
pub fn word_strings(s: &str) -> (out: Vec<String>)
    ensures
        texts(out@) == split_words(s@),
{
    let chars = chars_of(s);
    let parts = words(chars.as_slice());
    let mut out: Vec<String> = Vec::new();
    let mut i: usize = 0;
    while i < parts.len()
        invariant
            i <= parts@.len(),
            texts(out@) =~= runs(parts@).take(i as int),
        decreases parts@.len() - i,
    {
        let ghost before = out@;
        let word = string_of(parts[i]);
        out.push(word);
        assert(texts(out@) =~= texts(before).push(word@));
        assert(runs(parts@)[i as int] == parts@[i as int]@);
        i = i + 1;
    }
    assert(runs(parts@).take(i as int) =~= runs(parts@));
    out
}

// ---------------------------------------------------------------------- lines
/// The first `c` at or after `i`, or the end.
pub open spec fn find_char(s: Seq<char>, i: int, c: char) -> int
    decreases s.len() - i,
{
    if 0 <= i < s.len() && s[i] != c {
        find_char(s, i + 1, c)
    } else {
        i
    }
}

pub proof fn lemma_find_char(s: Seq<char>, i: int, c: char)
    requires
        0 <= i <= s.len(),
    ensures
        i <= find_char(s, i, c) <= s.len(),
        find_char(s, i, c) < s.len() ==> s[find_char(s, i, c)] == c,
        forall|k: int| i <= k < find_char(s, i, c) ==> s[k] != c,
    decreases s.len() - i,
{
    if i < s.len() && s[i] != c {
        lemma_find_char(s, i + 1, c);
    }
}

pub fn position_of(s: &[char], i: usize, c: char) -> (r: usize)
    requires
        i <= s@.len(),
    ensures
        r == find_char(s@, i as int, c),
        i <= r <= s@.len(),
{
    let mut p: usize = i;
    while p < s.len() && s[p] != c
        invariant
            i <= p <= s@.len(),
            find_char(s@, i as int, c) == find_char(s@, p as int, c),
        decreases s@.len() - p,
    {
        p = p + 1;
    }
    p
}

/// Whether the text holds the character.
pub fn has_char(s: &[char], c: char) -> (r: bool)
    ensures
        r == s@.contains(c),
{
    let p = position_of(s, 0, c);
    proof {
        lemma_find_char(s@, 0, c);
    }
    if p < s.len() {
        assert(s@[p as int] == c);
        true
    } else {
        false
    }
}

/// The end of the line at `i..j`, without the carriage return of a CRLF.
pub open spec fn line_stop(s: Seq<char>, i: int, j: int) -> int {
    if i < j < s.len() && s[j - 1] == '\r' {
        j - 1
    } else {
        j
    }
}

/// The lines from position `i` on, without their line ends.
pub open spec fn lines_from(s: Seq<char>, i: int) -> Seq<Seq<char>>
    decreases s.len() - i + 1,
    when 0 <= i
    via lines_from_decreases
{
    if i >= s.len() {
        seq![]
    } else {
        let j = find_char(s, i, '\n');
        seq![s.subrange(i, line_stop(s, i, j))] + lines_from(s, j + 1)
    }
}

#[via_fn]
proof fn lines_from_decreases(s: Seq<char>, i: int) {
    if i < s.len() {
        lemma_find_char(s, i, '\n');
    }
}

/// The lines of a text. A newline at the very end begins no further line.
pub open spec fn split_lines(s: Seq<char>) -> Seq<Seq<char>> {
    lines_from(s, 0)
}

/// The lines of a text.
pub fn lines(s: &[char]) -> (out: Vec<&[char]>)
    ensures
        runs(out@) == split_lines(s@),
{
    let mut out: Vec<&[char]> = Vec::new();
    let mut i: usize = 0;
    proof {
        assert(runs(out@) + lines_from(s@, 0) =~= lines_from(s@, 0));
    }
    while i < s.len()
        invariant
            i <= s@.len(),
            split_lines(s@) == runs(out@) + lines_from(s@, i as int),
        decreases s@.len() - i,
    {
        let j = position_of(s, i, '\n');
        let stop: usize = if i < j && j < s.len() && s[j - 1] == '\r' {
            j - 1
        } else {
            j
        };
        let ghost before = out@;
        let line = slice_subrange(s, i, stop);
        out.push(line);
        proof {
            assert(runs(out@) =~= runs(before) + seq![line@]);
            assert((runs(before) + seq![line@]) + lines_from(s@, j + 1) =~= runs(before) + (
            seq![line@] + lines_from(s@, j + 1)));
        }
        if j == s.len() {
            proof {
                assert(lines_from(s@, j + 1) =~= Seq::<Seq<char>>::empty());
                assert(runs(out@) + Seq::<Seq<char>>::empty() =~= runs(out@));
            }
            return out;
        }
        i = j + 1;
    }
    assert(runs(out@) + Seq::<Seq<char>>::empty() =~= runs(out@));
    out
}

// ------------------------------------------------------------------- patterns
/// Whether `p` stands in `s` at position `i`.
pub open spec fn matches_at(s: Seq<char>, i: int, p: Seq<char>) -> bool {
    0 <= i && i + p.len() <= s.len() && s.subrange(i, i + p.len()) == p
}

pub open spec fn starts_with(s: Seq<char>, p: Seq<char>) -> bool {
    matches_at(s, 0, p)
}

pub open spec fn ends_with(s: Seq<char>, p: Seq<char>) -> bool {
    matches_at(s, s.len() - p.len(), p)
}

/// The first position at or after `i` where `p` stands.
pub open spec fn find_text(s: Seq<char>, i: int, p: Seq<char>) -> Option<int>
    decreases s.len() - i + 1,
{
    if i < 0 || i + p.len() > s.len() {
        None
    } else if matches_at(s, i, p) {
        Some(i)
    } else {
        find_text(s, i + 1, p)
    }
}

/// The last position at or before `i` where `p` stands.
pub open spec fn rfind_text(s: Seq<char>, i: int, p: Seq<char>) -> Option<int>
    decreases i + 1,
{
    if i < 0 {
        None
    } else if matches_at(s, i, p) {
        Some(i)
    } else {
        rfind_text(s, i - 1, p)
    }
}

pub fn stands_at(s: &[char], i: usize, p: &[char]) -> (r: bool)
    requires
        i <= s@.len(),
    ensures
        r == matches_at(s@, i as int, p@),
{
    if p.len() > s.len() - i {
        return false;
    }
    same_chars(slice_subrange(s, i, i + p.len()), p)
}

/// The first position at or after `i` where `p` stands.
pub fn find_from(s: &[char], i: usize, p: &[char]) -> (r: Option<usize>)
    requires
        i <= s@.len(),
    ensures
        match find_text(s@, i as int, p@) {
            Some(k) => r is Some && r->0 == k && i <= k && k + p@.len() <= s@.len(),
            None => r is None,
        },
{
    let mut k: usize = i;
    while p.len() <= s.len() - k
        invariant
            i <= k <= s@.len(),
            find_text(s@, i as int, p@) == find_text(s@, k as int, p@),
        decreases s@.len() - k,
    {
        if stands_at(s, k, p) {
            return Some(k);
        }
        if k == s.len() {
            assert(find_text(s@, k + 1, p@) is None);
            return None;
        }
        k = k + 1;
    }
    None
}

/// The last position where `p` stands.
pub fn find_last(s: &[char], p: &[char]) -> (r: Option<usize>)
    ensures
        match rfind_text(s@, s@.len() as int, p@) {
            Some(k) => r is Some && r->0 == k && k + p@.len() <= s@.len(),
            None => r is None,
        },
{
    let mut k: usize = s.len();
    loop
        invariant
            k <= s@.len(),
            rfind_text(s@, s@.len() as int, p@) == rfind_text(s@, k as int, p@),
        decreases k,
    {
        if stands_at(s, k, p) {
            return Some(k);
        }
        if k == 0 {
            assert(rfind_text(s@, -1, p@) is None);
            return None;
        }
        k = k - 1;
    }
}

// ---------------------------------------------------------------------- order
/// The order of texts: by the first character in which they differ, and a text
/// before its continuations. It is also the order of their UTF-8 bytes.
pub open spec fn text_less(a: Seq<char>, b: Seq<char>) -> bool
    decreases a.len(),
{
    if b.len() == 0 {
        false
    } else if a.len() == 0 {
        true
    } else if a[0] == b[0] {
        text_less(a.drop_first(), b.drop_first())
    } else {
        (a[0] as int) < (b[0] as int)
    }
}

/// The order of texts is total and strict.
pub proof fn lemma_text_less()
    ensures
        forall|a: Seq<char>, b: Seq<char>|
            #![trigger text_less(a, b)]
            #![trigger text_less(b, a)]
            a == b || text_less(a, b) || text_less(b, a),
        forall|a: Seq<char>, b: Seq<char>| #[trigger] text_less(a, b) ==> !text_less(b, a),
        forall|a: Seq<char>| !#[trigger] text_less(a, a),
        forall|a: Seq<char>, b: Seq<char>, c: Seq<char>|
            #[trigger] text_less(a, b) && #[trigger] text_less(b, c) ==> text_less(a, c),
{
    assert forall|a: Seq<char>, b: Seq<char>|
        #![trigger text_less(a, b)]
        #![trigger text_less(b, a)]
        a == b || text_less(a, b) || text_less(b, a) by {
        lemma_text_less_total(a, b);
    }
    assert forall|a: Seq<char>, b: Seq<char>| #[trigger] text_less(a, b) implies !text_less(
        b,
        a,
    ) by {
        lemma_text_less_total(a, b);
    }
    assert forall|a: Seq<char>| !#[trigger] text_less(a, a) by {
        lemma_text_less_total(a, a);
    }
    assert forall|a: Seq<char>, b: Seq<char>, c: Seq<char>|
        #[trigger] text_less(a, b) && #[trigger] text_less(b, c) implies text_less(a, c) by {
        lemma_text_less_transitive(a, b, c);
    }
}

proof fn lemma_text_less_total(a: Seq<char>, b: Seq<char>)
    ensures
        a == b || text_less(a, b) || text_less(b, a),
        text_less(a, b) ==> !text_less(b, a),
        a == b ==> !text_less(a, b),
    decreases a.len(),
{
    if a.len() > 0 && b.len() > 0 {
        if a[0] == b[0] {
            lemma_text_less_total(a.drop_first(), b.drop_first());
            if a.drop_first() == b.drop_first() {
                assert(a =~= seq![a[0]] + a.drop_first());
                assert(b =~= seq![b[0]] + b.drop_first());
            }
        } else {
            assert(a[0] as int != b[0] as int);
        }
    } else if a.len() == 0 && b.len() == 0 {
        assert(a =~= b);
    }
}

proof fn lemma_text_less_transitive(a: Seq<char>, b: Seq<char>, c: Seq<char>)
    requires
        text_less(a, b),
        text_less(b, c),
    ensures
        text_less(a, c),
    decreases a.len(),
{
    if a.len() > 0 && a[0] == b[0] && b[0] == c[0] {
        lemma_text_less_transitive(a.drop_first(), b.drop_first(), c.drop_first());
    }
}

/// The Unicode scalar value of a character.
fn scalar(c: char) -> (r: u32)
    ensures
        r == c as int,
{
    c as u32
}

/// Whether the one text comes before the other.
pub fn text_precedes(a: &str, b: &str) -> (r: bool)
    ensures
        r == text_less(a@, b@),
{
    let x = chars_of(a);
    let y = chars_of(b);
    let mut i: usize = 0;
    assert(a@.subrange(0, a@.len() as int) =~= a@);
    assert(b@.subrange(0, b@.len() as int) =~= b@);
    loop
        invariant
            i <= x@.len(),
            i <= y@.len(),
            x@ == a@,
            y@ == b@,
            text_less(a@, b@) == text_less(
                a@.subrange(i as int, a@.len() as int),
                b@.subrange(i as int, b@.len() as int),
            ),
        decreases x@.len() - i,
    {
        if i == y.len() {
            return false;
        }
        if i == x.len() {
            return true;
        }
        let p: char = x[i];
        let q: char = y[i];
        if p != q {
            return scalar(p) < scalar(q);
        }
        proof {
            assert(a@.subrange(i as int, a@.len() as int).drop_first() =~= a@.subrange(
                i + 1,
                a@.len() as int,
            ));
            assert(b@.subrange(i as int, b@.len() as int).drop_first() =~= b@.subrange(
                i + 1,
                b@.len() as int,
            ));
        }
        i = i + 1;
    }
}

// ------------------------------------------------------------------ splitting
/// What follows a prefix.
pub open spec fn after_prefix(s: Seq<char>, p: Seq<char>) -> Seq<char> {
    s.subrange(p.len() as int, s.len() as int)
}

/// What follows the prefix, if the text begins with it.
pub fn strip<'a>(s: &'a [char], p: &str) -> (r: Option<&'a [char]>)
    ensures
        match r {
            Some(rest) => starts_with(s@, p@) && rest@ == after_prefix(s@, p@),
            None => !starts_with(s@, p@),
        },
{
    let prefix = chars_of(p);
    if stands_at(s, 0, prefix.as_slice()) {
        Some(slice_subrange(s, prefix.len(), s.len()))
    } else {
        None
    }
}

/// Whether the text begins with the prefix.
pub fn begins(s: &[char], p: &str) -> (r: bool)
    ensures
        r == starts_with(s@, p@),
{
    let prefix = chars_of(p);
    stands_at(s, 0, prefix.as_slice())
}

/// Whether the text ends with the suffix.
pub fn finishes(s: &[char], p: &str) -> (r: bool)
    ensures
        r == ends_with(s@, p@),
{
    let suffix = chars_of(p);
    if suffix.len() > s.len() {
        return false;
    }
    stands_at(s, s.len() - suffix.len(), suffix.as_slice())
}

pub proof fn lemma_find_text(s: Seq<char>, i: int, p: Seq<char>)
    requires
        0 <= i,
    ensures
        find_text(s, i, p) matches Some(k) ==> i <= k && k + p.len() <= s.len() && matches_at(
            s,
            k,
            p,
        ) && forall|j: int| i <= j < k ==> !matches_at(s, j, p),
        find_text(s, i, p) is None ==> forall|j: int| i <= j ==> !matches_at(s, j, p),
    decreases s.len() - i + 1,
{
    if i + p.len() <= s.len() && !matches_at(s, i, p) {
        lemma_find_text(s, i + 1, p);
    }
}

/// The pieces between separators, from position `i` on.
pub open spec fn split_from(s: Seq<char>, i: int, sep: Seq<char>) -> Seq<Seq<char>>
    decreases s.len() - i,
    when 0 <= i <= s.len() && sep.len() > 0
    via split_from_decreases
{
    match find_text(s, i, sep) {
        Some(k) => seq![s.subrange(i, k)] + split_from(s, k + sep.len(), sep),
        None => seq![s.subrange(i, s.len() as int)],
    }
}

#[via_fn]
proof fn split_from_decreases(s: Seq<char>, i: int, sep: Seq<char>) {
    lemma_find_text(s, i, sep);
}

/// The pieces between separators.
pub open spec fn split_on(s: Seq<char>, sep: Seq<char>) -> Seq<Seq<char>> {
    split_from(s, 0, sep)
}

/// The pieces between separators.
pub fn pieces<'a>(s: &'a [char], sep: &[char]) -> (out: Vec<&'a [char]>)
    requires
        sep@.len() > 0,
    ensures
        runs(out@) == split_on(s@, sep@),
{
    let mut out: Vec<&'a [char]> = Vec::new();
    let mut i: usize = 0;
    let total: usize = s.len();
    assert(runs(out@) + split_on(s@, sep@) =~= split_on(s@, sep@));
    loop
        invariant
            i <= total == s@.len(),
            sep@.len() > 0,
            split_on(s@, sep@) == runs(out@) + split_from(s@, i as int, sep@),
        decreases s@.len() - i,
    {
        proof {
            lemma_find_text(s@, i as int, sep@);
        }
        let ghost before = out@;
        match find_from(s, i, sep) {
            Some(k) => {
                let piece = slice_subrange(s, i, k);
                out.push(piece);
                proof {
                    let rest = split_from(s@, k + sep@.len(), sep@);
                    assert(runs(out@) =~= runs(before) + seq![piece@]);
                    assert(runs(before) + (seq![piece@] + rest) =~= (runs(before)
                        + seq![piece@]) + rest);
                }
                i = k + sep.len();
            },
            None => {
                let piece = slice_subrange(s, i, total);
                out.push(piece);
                assert(runs(out@) =~= runs(before) + seq![piece@]);
                return out;
            },
        }
    }
}

// -------------------------------------------------------------------- numbers
/// The value of the digits in `i..n`, if there is nothing else.
pub open spec fn digits_value(s: Seq<char>, i: int, n: int) -> Option<int>
    decreases n - i,
{
    if n <= i {
        Some(0)
    } else if '0' <= s[n - 1] <= '9' {
        match digits_value(s, i, n - 1) {
            Some(v) => Some(v * 10 + (s[n - 1] as int - '0' as int)),
            None => None,
        }
    } else {
        None
    }
}

/// The number that a text is: decimal digits, at least one, with or without a plus
/// sign, and of a value up to `max`.
pub open spec fn number(s: Seq<char>, max: int) -> Option<int> {
    let i = if s.len() > 0 && s[0] == '+' {
        1int
    } else {
        0int
    };
    if s.len() <= i {
        None
    } else {
        match digits_value(s, i, s.len() as int) {
            Some(v) => if v <= max {
                Some(v)
            } else {
                None
            },
            None => None,
        }
    }
}

proof fn lemma_digits_value(s: Seq<char>, i: int, k: int, n: int)
    requires
        i <= k <= n,
    ensures
        digits_value(s, i, k) is None ==> digits_value(s, i, n) is None,
        digits_value(s, i, n) matches Some(v) ==> digits_value(s, i, k) is Some
            && digits_value(s, i, k)->0 <= v && v >= 0,
    decreases n - i,
{
    if k < n {
        lemma_digits_value(s, i, k, n - 1);
    } else if i < n {
        lemma_digits_value(s, i, n - 1, n - 1);
    }
}

/// A number is not negative.
pub proof fn lemma_number(s: Seq<char>, max: int)
    ensures
        number(s, max) matches Some(v) ==> 0 <= v <= max,
{
    let i = if s.len() > 0 && s[0] == '+' {
        1int
    } else {
        0int
    };
    if s.len() > i {
        lemma_digits_value(s, i, i, s.len() as int);
    }
}

/// The number up to `max` that a text is.
pub fn parse_number(s: &[char], max: u64) -> (r: Option<u64>)
    ensures
        match number(s@, max as int) {
            Some(v) => r is Some && r->0 == v,
            None => r is None,
        },
{
    let first: usize = if s.len() > 0 && s[0] == '+' {
        1
    } else {
        0
    };
    if s.len() <= first {
        return None;
    }
    let mut value: u64 = 0;
    let mut k: usize = first;
    while k < s.len()
        invariant
            first <= k <= s@.len(),
            first < s@.len(),
            first == (if s@.len() > 0 && s@[0] == '+' {
                1int
            } else {
                0int
            }),
            value <= max,
            digits_value(s@, first as int, k as int) == Some(value as int),
        decreases s@.len() - k,
    {
        let c = s[k];
        proof {
            lemma_digits_value(s@, first as int, k + 1, s@.len() as int);
        }
        if !('0' <= c && c <= '9') {
            return None;
        }
        let d: u64 = (scalar(c) - scalar('0')) as u64;
        if value > max / 10 || d > max - value * 10 {
            return None;
        }
        value = value * 10 + d;
        k = k + 1;
    }
    Some(value)
}

/// Whether the text holds the part.
pub fn holds_text(s: &str, part: &str) -> (r: bool)
    ensures
        r == (find_text(s@, 0, part@) is Some),
{
    let chars = chars_of(s);
    let p = chars_of(part);
    find_from(chars.as_slice(), 0, p.as_slice()).is_some()
}

/// The last `c` before `n`, if there is one.
pub open spec fn rfind_char(s: Seq<char>, n: int, c: char) -> Option<int>
    decreases n,
{
    if n <= 0 || n > s.len() {
        None
    } else if s[n - 1] == c {
        Some(n - 1)
    } else {
        rfind_char(s, n - 1, c)
    }
}

pub fn last_position_of(s: &[char], c: char) -> (r: Option<usize>)
    ensures
        match rfind_char(s@, s@.len() as int, c) {
            Some(i) => r is Some && r->0 == i && 0 <= i < s@.len(),
            None => r is None,
        },
{
    let mut n: usize = s.len();
    while n > 0
        invariant
            n <= s@.len(),
            rfind_char(s@, s@.len() as int, c) == rfind_char(s@, n as int, c),
        decreases n,
    {
        if s[n - 1] == c {
            return Some(n - 1);
        }
        n = n - 1;
    }
    None
}

// -------------------------------------------------------------------- decimals
pub open spec fn digit_char(d: nat) -> char {
    if d == 0 {
        '0'
    } else if d == 1 {
        '1'
    } else if d == 2 {
        '2'
    } else if d == 3 {
        '3'
    } else if d == 4 {
        '4'
    } else if d == 5 {
        '5'
    } else if d == 6 {
        '6'
    } else if d == 7 {
        '7'
    } else if d == 8 {
        '8'
    } else {
        '9'
    }
}

/// A number in decimal digits.
pub open spec fn decimal(n: nat) -> Seq<char>
    decreases n,
{
    if n < 10 {
        seq![digit_char(n)]
    } else {
        decimal(n / 10).push(digit_char(n % 10))
    }
}

fn one_digit(d: usize) -> (c: char)
    requires
        d < 10,
    ensures
        c == digit_char(d as nat),
{
    match d {
        0 => '0',
        1 => '1',
        2 => '2',
        3 => '3',
        4 => '4',
        5 => '5',
        6 => '6',
        7 => '7',
        8 => '8',
        _ => '9',
    }
}

/// A number in decimal digits.
pub fn decimal_text(n: usize) -> (out: String)
    ensures
        out@ == decimal(n as nat),
    decreases n,
{
    if n < 10 {
        let mut out = String::new();
        out.push(one_digit(n));
        assert(out@ =~= decimal(n as nat));
        out
    } else {
        let mut out = decimal_text(n / 10);
        out.push(one_digit(n % 10));
        out
    }
}

/// Every number comes back from its digits.
pub proof fn decimals_round_trip(n: nat, max: int)
    requires
        n <= max,
    ensures
        number(decimal(n), max) == Some(n as int),
{
    lemma_decimal(n);
}

proof fn lemma_decimal(n: nat)
    ensures
        decimal(n).len() > 0,
        decimal(n)[0] != '+',
        digits_value(decimal(n), 0, decimal(n).len() as int) == Some(n as int),
    decreases n,
{
    let s = decimal(n);
    if n < 10 {
        reveal_with_fuel(digits_value, 2);
    } else {
        lemma_decimal(n / 10);
        let front = decimal(n / 10);
        let k = front.len() as int;
        assert(s[k] == digit_char(n % 10));
        assert(s[0] == front[0]);
        lemma_digits_same(front, s, 0, k);
    }
}

proof fn lemma_digits_same(a: Seq<char>, b: Seq<char>, i: int, n: int)
    requires
        0 <= i,
        n <= a.len(),
        n <= b.len(),
        forall|k: int| i <= k < n ==> a[k] == b[k],
    ensures
        digits_value(a, i, n) == digits_value(b, i, n),
    decreases n - i,
{
    if i < n {
        lemma_digits_same(a, b, i, n - 1);
    }
}

} // verus!
