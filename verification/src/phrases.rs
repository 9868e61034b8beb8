//! How text is taken apart: white space, words, lines, numbers, lists of arguments and
//! comments, said of the characters.
use vstd::prelude::*;

use crate::outline::{arg_name, arg_names, args_from, doc_lines, doc_text};
use crate::text::{
    digits_value, find_char, find_text, ink_end, ink_start, ink_stop, is_space, lemma_ink_start,
    lines_from, number, split_from, split_lines, split_on, split_words, text_less, trim,
    trim_end, trim_start, words_from,
};

verus! {

// ---------------------------------------------------------------- white space
/// A character of white space, by its code point.
pub open spec fn white(c: char) -> bool {
    let u = c as u32;
    ||| u == 9 || u == 10 || u == 11 || u == 12 || u == 13 || u == 32
    ||| u == 133 || u == 160 || u == 5760
    ||| 8192 <= u <= 8202
    ||| u == 8232 || u == 8233 || u == 8239 || u == 8287 || u == 12288
}

proof fn lemma_white(c: char)
    ensures
        is_space(c) == white(c),
{
}

proof fn lemma_ink_from(s: Seq<char>, i: int, j: int)
    requires
        0 <= i <= j <= s.len(),
        forall|k: int| i <= k < j ==> white(#[trigger] s[k]),
        j < s.len() ==> !white(s[j]),
    ensures
        ink_start(s, i) == j,
    decreases j - i,
{
    if i < j {
        assert(white(s[i]));
        lemma_ink_from(s, i + 1, j);
    }
}

proof fn lemma_ink_to(s: Seq<char>, i: int, j: int)
    requires
        0 <= i <= j <= s.len(),
        forall|k: int| i <= k < j ==> !white(#[trigger] s[k]),
        j < s.len() ==> white(s[j]),
    ensures
        ink_end(s, i) == j,
    decreases j - i,
{
    if i < j {
        assert(!white(s[i]));
        lemma_ink_to(s, i + 1, j);
    }
}

proof fn lemma_ink_stop(s: Seq<char>, j: int, n: int)
    requires
        0 <= j <= n <= s.len(),
        forall|k: int| j <= k < n ==> white(#[trigger] s[k]),
        j > 0 ==> !white(s[j - 1]),
    ensures
        ink_stop(s, n) == j,
    decreases n - j,
{
    if j < n {
        assert(white(s[n - 1]));
        lemma_ink_stop(s, j, n - 1);
    }
}

/// Trimming takes off all white space on both sides and nothing else.
pub proof fn trimming_takes_off_white_space(s: Seq<char>, i: int, j: int)
    requires
        0 <= i < j <= s.len(),
        forall|k: int| 0 <= k < i ==> white(#[trigger] s[k]),
        forall|k: int| j <= k < s.len() ==> white(#[trigger] s[k]),
        !white(s[i]),
        !white(s[j - 1]),
    ensures
        trim(s) == s.subrange(i, j),
        trim_start(s) == s.subrange(i, s.len() as int),
        trim_end(s) == s.subrange(0, j),
{
    lemma_ink_from(s, 0, i);
    lemma_ink_stop(s, j, s.len() as int);
    let t = s.subrange(i, s.len() as int);
    assert forall|k: int| j - i <= k < t.len() implies white(#[trigger] t[k]) by {
        assert(t[k] == s[i + k]);
    }
    assert(t[j - i - 1] == s[j - 1]);
    lemma_ink_stop(t, j - i, t.len() as int);
    assert(trim(s) =~= s.subrange(i, j));
}

/// Of white space alone nothing is left, and of something else something.
pub proof fn white_space_is_trimmed_away(s: Seq<char>)
    ensures
        trim(s).len() == 0 <==> forall|k: int| 0 <= k < s.len() ==> white(#[trigger] s[k]),
{
    lemma_ink_start(s, 0);
    let i = ink_start(s, 0);
    let t = trim_start(s);
    if forall|k: int| 0 <= k < s.len() ==> white(#[trigger] s[k]) {
        lemma_ink_from(s, 0, s.len() as int);
        assert(t.len() == 0);
        assert(ink_stop(t, 0) == 0);
    } else {
        let k = choose|k: int| 0 <= k < s.len() && !white(#[trigger] s[k]);
        lemma_ink_before(s, 0, k);
        assert(i <= k);
        assert(t[0] == s[i] && !white(t[0]));
        lemma_ink_keeps(t, t.len() as int);
    }
}

proof fn lemma_ink_before(s: Seq<char>, i: int, k: int)
    requires
        0 <= i <= k < s.len(),
        !white(s[k]),
    ensures
        ink_start(s, i) <= k,
    decreases k - i,
{
    if i < k && is_space(s[i]) {
        lemma_ink_before(s, i + 1, k);
    }
}

proof fn lemma_ink_keeps(t: Seq<char>, n: int)
    requires
        0 < n <= t.len(),
        !white(t[0]),
    ensures
        1 <= ink_stop(t, n) <= n,
    decreases n,
{
    if n > 1 && is_space(t[n - 1]) {
        lemma_ink_keeps(t, n - 1);
    }
}

/// The words of a text are its runs without white space, in order.
pub proof fn words_are_runs_without_white_space(s: Seq<char>, i: int, j: int, k: int)
    requires
        0 <= i <= j < k <= s.len(),
        forall|m: int| i <= m < j ==> white(#[trigger] s[m]),
        forall|m: int| j <= m < k ==> !white(#[trigger] s[m]),
        k < s.len() ==> white(s[k]),
    ensures
        words_from(s, i) == seq![s.subrange(j, k)] + words_from(s, k),
        split_words(s) == words_from(s, 0),
{
    assert(!white(s[j]));
    lemma_ink_from(s, i, j);
    lemma_ink_to(s, j, k);
}

/// White space alone has no words.
pub proof fn white_space_has_no_words(s: Seq<char>, i: int)
    requires
        0 <= i <= s.len(),
        forall|m: int| i <= m < s.len() ==> white(#[trigger] s[m]),
    ensures
        words_from(s, i).len() == 0,
{
    lemma_ink_from(s, i, s.len() as int);
}

// ---------------------------------------------------------------------- lines
proof fn lemma_char_run(s: Seq<char>, i: int, j: int, c: char)
    requires
        0 <= i <= j <= s.len(),
        forall|k: int| i <= k < j ==> #[trigger] s[k] != c,
        j < s.len() ==> s[j] == c,
    ensures
        find_char(s, i, c) == j,
    decreases j - i,
{
    if i < j {
        assert(s[i] != c);
        lemma_char_run(s, i + 1, j, c);
    }
}

/// A line goes up to the next newline, and a carriage return right before that is no part
/// of it; the last line need not have one.
pub proof fn a_line_ends_before_its_newline(s: Seq<char>, i: int, j: int)
    requires
        0 <= i <= j <= s.len(),
        i < s.len(),
        forall|k: int| i <= k < j ==> #[trigger] s[k] != '\n',
        j < s.len() ==> s[j] == '\n',
    ensures
        j < s.len() && !(i < j && s[j - 1] == '\r') ==> lines_from(s, i) == seq![s.subrange(i, j)]
            + lines_from(s, j + 1),
        j < s.len() && i < j && s[j - 1] == '\r' ==> lines_from(s, i) == seq![
            s.subrange(i, j - 1),
        ] + lines_from(s, j + 1),
        j == s.len() ==> lines_from(s, i) == seq![s.subrange(i, j)],
        lines_from(s, s.len() as int).len() == 0,
        split_lines(s) == lines_from(s, 0),
{
    lemma_char_run(s, i, j, '\n');
    if j == s.len() {
        assert(lines_from(s, j + 1) =~= seq![]);
        assert(seq![s.subrange(i, j)] + Seq::<Seq<char>>::empty() =~= seq![s.subrange(i, j)]);
    }
}

// --------------------------------------------------------------------- pieces
/// A text splits at each separator, read from the left: the first piece goes up to the
/// first separator, and without one it is all of the text.
pub proof fn a_text_splits_at_its_separators(s: Seq<char>, i: int, k: int, sep: Seq<char>)
    requires
        0 <= i <= k,
        sep.len() > 0,
        k + sep.len() <= s.len(),
        s.subrange(k, k + sep.len()) == sep,
        forall|m: int| i <= m < k ==> #[trigger] s.subrange(m, m + sep.len()) != sep,
    ensures
        split_from(s, i, sep) == seq![s.subrange(i, k)] + split_from(s, k + sep.len(), sep),
        split_on(s, sep) == split_from(s, 0, sep),
{
    lemma_first_part(s, i, k, sep);
}

proof fn lemma_first_part(s: Seq<char>, i: int, k: int, sep: Seq<char>)
    requires
        0 <= i <= k,
        sep.len() > 0,
        k + sep.len() <= s.len(),
        s.subrange(k, k + sep.len()) == sep,
        forall|m: int| i <= m < k ==> #[trigger] s.subrange(m, m + sep.len()) != sep,
    ensures
        find_text(s, i, sep) == Some(k),
    decreases k - i,
{
    if i < k {
        assert(s.subrange(i, i + sep.len()) != sep);
        lemma_first_part(s, i + 1, k, sep);
    }
}

/// The order of texts is that of the characters in which they first differ; a text comes
/// before its continuations.
pub proof fn texts_are_ordered_by_their_first_difference(a: Seq<char>, b: Seq<char>, i: int)
    requires
        0 <= i <= a.len(),
        i <= b.len(),
        forall|k: int| 0 <= k < i ==> #[trigger] a[k] == b[k],
        i == a.len() || i == b.len() || a[i] != b[i],
    ensures
        i < a.len() && i < b.len() ==> (text_less(a, b) <==> (a[i] as int) < (b[i] as int)),
        i == a.len() && i < b.len() ==> text_less(a, b),
        i == b.len() ==> !text_less(a, b),
    decreases i,
{
    if i > 0 {
        assert(a[0] == b[0]);
        let x = a.drop_first();
        let y = b.drop_first();
        assert forall|k: int| 0 <= k < i - 1 implies #[trigger] x[k] == y[k] by {
            assert(a[k + 1] == b[k + 1]);
        }
        texts_are_ordered_by_their_first_difference(x, y, i - 1);
    }
}

// -------------------------------------------------------------------- numbers
/// The value of decimal digits: ten times that of those before the last, and the last.
pub open spec fn value(s: Seq<char>) -> int
    decreases s.len(),
{
    if s.len() == 0 {
        0
    } else {
        value(s.drop_last()) * 10 + (s.last() as int - 48)
    }
}

/// Whether a text is one or more decimal digits.
pub open spec fn is_digits(s: Seq<char>) -> bool {
    s.len() > 0 && forall|k: int| 0 <= k < s.len() ==> 48 <= (#[trigger] s[k]) as int <= 57
}

proof fn lemma_value(s: Seq<char>, i: int, n: int)
    requires
        0 <= i <= n <= s.len(),
    ensures
        digits_value(s, i, n) is Some <==> forall|k: int|
            i <= k < n ==> 48 <= (#[trigger] s[k]) as int <= 57,
        digits_value(s, i, n) matches Some(v) ==> v == value(s.subrange(i, n)),
    decreases n - i,
{
    if i < n {
        lemma_value(s, i, n - 1);
        let t = s.subrange(i, n);
        assert(t.drop_last() =~= s.subrange(i, n - 1));
        assert(t.last() == s[n - 1]);
        assert('0' <= s[n - 1] <= '9' <==> 48 <= s[n - 1] as int <= 57);
        assert('0' as int == 48);
    }
}

/// A number is one or more decimal digits, with or without a plus sign in front, that are
/// not of too large a value; nothing else is one.
pub proof fn a_number_is_its_digits(s: Seq<char>, max: int)
    ensures
        is_digits(s) && value(s) <= max ==> number(s, max) == Some(value(s)),
        is_digits(s) && value(s) > max ==> number(s, max) is None,
        s.len() > 0 && s[0] == '+' && is_digits(s.drop_first()) && value(s.drop_first()) <= max
            ==> number(s, max) == Some(value(s.drop_first())),
        !is_digits(s) && !(s.len() > 0 && s[0] == '+' && is_digits(s.drop_first())) ==> number(
            s,
            max,
        ) is None,
{
    let n = s.len() as int;
    lemma_value(s, 0, n);
    assert(s.subrange(0, n) =~= s);
    if n > 0 {
        lemma_value(s, 1, n);
        assert(s.subrange(1, n) =~= s.drop_first());
        assert('+' as int == 43);
        if s[0] == '+' {
            assert(!is_digits(s)) by {
                if is_digits(s) {
                    assert(48 <= s[0] as int);
                }
            }
            let d = s.drop_first();
            if digits_value(s, 1, n) is Some && n > 1 {
                assert forall|k: int| 0 <= k < d.len() implies 48 <= (#[trigger] d[k]) as int
                    <= 57 by {
                    assert(d[k] == s[k + 1]);
                }
            }
            if is_digits(d) {
                assert forall|k: int| 1 <= k < n implies 48 <= (#[trigger] s[k]) as int <= 57 by {
                    assert(d[k - 1] == s[k]);
                }
            }
        }
    }
}

// ------------------------------------------------------------------ arguments
proof fn lemma_one_arg(w: Seq<char>)
    requires
        w.len() > 0,
        forall|k: int| 0 <= k < w.len() ==> !white(#[trigger] w[k]),
    ensures
        arg_name(w) == seq![w],
{
    words_are_runs_without_white_space(w, 0, 0, w.len() as int);
    assert(w.subrange(0, w.len() as int) =~= w);
    assert(split_words(w)[0] == w);
}

proof fn lemma_plain_arg(s: Seq<char>, i: int, j: int, cur: Seq<char>)
    requires
        0 <= i <= j <= s.len(),
        forall|k: int|
            i <= k < j ==> !white(#[trigger] s[k]) && s[k] != '{' && s[k] != '}',
    ensures
        args_from(s, i, 0, cur) == args_from(s, j, 0, cur + s.subrange(i, j)),
    decreases j - i,
{
    if i < j {
        assert(!white(s[i]) && s[i] != '{' && s[i] != '}');
        lemma_plain_arg(s, i + 1, j, cur.push(s[i]));
        assert(cur.push(s[i]) + s.subrange(i + 1, j) =~= cur + s.subrange(i, j));
    } else {
        assert(cur + s.subrange(i, j) =~= cur);
    }
}

/// An argument that is a bare name, up to white space or the end, is that name; the rest of
/// the list follows.
pub proof fn a_bare_argument_is_its_name(s: Seq<char>, i: int, j: int)
    requires
        0 <= i < j <= s.len(),
        forall|k: int|
            i <= k < j ==> !white(#[trigger] s[k]) && s[k] != '{' && s[k] != '}',
        j < s.len() ==> white(s[j]),
    ensures
        j < s.len() ==> args_from(s, i, 0, seq![]) == seq![s.subrange(i, j)] + args_from(
            s,
            j + 1,
            0,
            seq![],
        ),
        j == s.len() ==> args_from(s, i, 0, seq![]) == seq![s.subrange(i, j)],
        arg_names(s) == args_from(s, 0, 0, seq![]),
{
    let w = s.subrange(i, j);
    lemma_plain_arg(s, i, j, seq![]);
    assert(Seq::<char>::empty() + w =~= w);
    assert forall|k: int| 0 <= k < w.len() implies !white(#[trigger] w[k]) by {
        assert(w[k] == s[i + k]);
    }
    lemma_one_arg(w);
    if j < s.len() {
        assert(white(s[j]));
        assert(s[j] != '{' && s[j] != '}') by {
            assert('{' as u32 == 123 && '}' as u32 == 125);
        }
    }
}

/// White space between arguments is skipped.
pub proof fn white_space_separates_arguments(s: Seq<char>, i: int)
    requires
        0 <= i < s.len(),
        white(s[i]),
    ensures
        args_from(s, i, 0, seq![]) == args_from(s, i + 1, 0, seq![]),
{
    white_space_has_no_words(seq![], 0);
    assert('{' as u32 == 123 && '}' as u32 == 125);
    assert(arg_name(seq![]) =~= seq![]);
    assert(seq![] + args_from(s, i + 1, 0, seq![]) =~= args_from(s, i + 1, 0, seq![]));
}

proof fn lemma_braced_arg(s: Seq<char>, i: int, j: int, cur: Seq<char>)
    requires
        0 <= i <= j < s.len(),
        forall|k: int| i <= k < j ==> #[trigger] s[k] != '{' && s[k] != '}',
        s[j] == '}',
    ensures
        args_from(s, i, 1, cur) == arg_name(cur + s.subrange(i, j)) + args_from(
            s,
            j + 1,
            0,
            seq![],
        ),
    decreases j - i,
{
    if i < j {
        assert(s[i] != '{' && s[i] != '}');
        lemma_braced_arg(s, i + 1, j, cur.push(s[i]));
        assert(cur.push(s[i]) + s.subrange(i + 1, j) =~= cur + s.subrange(i, j));
    } else {
        assert(cur + s.subrange(i, j) =~= cur);
    }
}

/// An argument in braces is a name with its default: it binds the first word inside, and
/// nothing if there is none; the rest of the list follows.
pub proof fn a_braced_argument_binds_its_first_word(s: Seq<char>, i: int, j: int)
    requires
        0 <= i < j < s.len(),
        s[i] == '{',
        s[j] == '}',
        forall|k: int| i < k < j ==> #[trigger] s[k] != '{' && s[k] != '}',
    ensures
        ({
            let inner = split_words(s.subrange(i + 1, j));
            let rest = args_from(s, j + 1, 0, seq![]);
            &&& inner.len() > 0 ==> args_from(s, i, 0, seq![]) == seq![inner[0]] + rest
            &&& inner.len() == 0 ==> args_from(s, i, 0, seq![]) == rest
        }),
{
    let w = s.subrange(i + 1, j);
    lemma_braced_arg(s, i + 1, j, seq![]);
    assert(Seq::<char>::empty() + w =~= w);
    let rest = args_from(s, j + 1, 0, seq![]);
    assert(Seq::<Seq<char>>::empty() + rest =~= rest);
}

// ------------------------------------------------------------------- comments
/// The documentation of a comment block has a line for each comment line: what is behind
/// its `#` and the white space there. A line that is no comment line gives none.
pub proof fn a_comment_line_documents_what_is_behind_its_hash(
    all: Seq<Seq<char>>,
    k: int,
    i: int,
    j: int,
)
    requires
        0 <= k < all.len(),
        0 <= i < j <= all[k].len(),
        forall|m: int| 0 <= m < i ==> white(#[trigger] all[k][m]),
        all[k][i] == '#',
        forall|m: int| i < m < j ==> white(#[trigger] all[k][m]),
        j < all[k].len() ==> !white(all[k][j]),
    ensures
        doc_lines(all, k) == all[k].subrange(j, all[k].len() as int) + seq!['\n'] + doc_lines(
            all,
            k + 1,
        ),
{
    let line = all[k];
    assert('#' as u32 == 35);
    lemma_ink_from(line, 0, i);
    let t = trim_start(line);
    assert(t[0] == '#');
    let u = t.subrange(1, t.len() as int);
    assert forall|m: int| 0 <= m < j - i - 1 implies white(#[trigger] u[m]) by {
        assert(u[m] == line[i + 1 + m]);
    }
    if j < line.len() {
        assert(u[j - i - 1] == line[j]);
    }
    lemma_ink_from(u, 0, j - i - 1);
    assert(trim_start(u) =~= line.subrange(j, line.len() as int));
}

/// A line that does not begin with a `#` documents nothing.
pub proof fn another_line_documents_nothing(all: Seq<Seq<char>>, k: int, i: int)
    requires
        0 <= k < all.len(),
        0 <= i <= all[k].len(),
        forall|m: int| 0 <= m < i ==> white(#[trigger] all[k][m]),
        i < all[k].len() ==> !white(all[k][i]) && all[k][i] != '#',
    ensures
        doc_lines(all, k) == doc_lines(all, k + 1),
        doc_lines(all, all.len() as int).len() == 0,
{
    lemma_ink_from(all[k], 0, i);
}

/// The documentation is the text of those lines without white space at its end, and there
/// is none where nothing is left of it.
pub proof fn documentation_is_what_the_lines_say(raw: Seq<char>)
    ensures
        ({
            let text = trim_end(doc_lines(split_lines(raw), 0));
            &&& text.len() == 0 ==> doc_text(raw) is None
            &&& text.len() > 0 ==> doc_text(raw) == Some(text)
        }),
{
}

/// A line of white space alone has nothing left when its end is trimmed, and no other line.
pub proof fn a_blank_line_is_trimmed_away(s: Seq<char>)
    ensures
        trim_end(s).len() == 0 <==> forall|k: int| 0 <= k < s.len() ==> white(#[trigger] s[k]),
{
    let n = s.len() as int;
    lemma_stop_bounds(s, n);
    if forall|k: int| 0 <= k < s.len() ==> white(#[trigger] s[k]) {
        lemma_ink_stop(s, 0, n);
    } else {
        let k = choose|k: int| 0 <= k < s.len() && !white(#[trigger] s[k]);
        lemma_stop_behind(s, n, k);
    }
}

proof fn lemma_stop_bounds(s: Seq<char>, n: int)
    requires
        0 <= n <= s.len(),
    ensures
        0 <= ink_stop(s, n) <= n,
    decreases n,
{
    if n > 0 && is_space(s[n - 1]) {
        lemma_stop_bounds(s, n - 1);
    }
}

proof fn lemma_stop_behind(s: Seq<char>, n: int, k: int)
    requires
        0 <= k < n <= s.len(),
        !white(s[k]),
    ensures
        ink_stop(s, n) > k,
    decreases n,
{
    if n - 1 > k && is_space(s[n - 1]) {
        lemma_stop_behind(s, n - 1, k);
    }
}

/// How much deeper in braces `k` is than `i`.
pub open spec fn deeper(s: Seq<char>, i: int, k: int) -> int
    decreases k - i,
{
    if k <= i {
        0
    } else {
        deeper(s, i, k - 1) + (if s[k - 1] == '{' {
            1int
        } else if s[k - 1] == '}' {
            -1int
        } else {
            0int
        })
    }
}

proof fn lemma_nested_arg(s: Seq<char>, i: int, k: int, j: int)
    requires
        0 <= i <= k <= j < s.len(),
        s[j] == '}',
        deeper(s, i, j) == 0,
        forall|m: int| i <= m <= j ==> #[trigger] deeper(s, i, m) >= 0,
    ensures
        args_from(s, k, (deeper(s, i, k) + 1) as nat, s.subrange(i, k)) == arg_name(
            s.subrange(i, j),
        ) + args_from(s, j + 1, 0, seq![]),
    decreases j - k,
{
    if k < j {
        lemma_nested_arg(s, i, k + 1, j);
        assert(deeper(s, i, k) >= 0);
        assert(deeper(s, i, k + 1) >= 0);
        assert(s.subrange(i, k).push(s[k]) =~= s.subrange(i, k + 1));
    }
}

/// Braces inside a braced argument belong to it: it goes to the brace that closes the first.
pub proof fn a_braced_argument_goes_to_its_own_brace(s: Seq<char>, i: int, j: int)
    requires
        0 <= i < j < s.len(),
        s[i] == '{',
        s[j] == '}',
        deeper(s, i + 1, j) == 0,
        forall|m: int| i + 1 <= m <= j ==> #[trigger] deeper(s, i + 1, m) >= 0,
    ensures
        args_from(s, i, 0, seq![]) == arg_name(s.subrange(i + 1, j)) + args_from(
            s,
            j + 1,
            0,
            seq![],
        ),
{
    lemma_nested_arg(s, i + 1, i + 1, j);
    assert(s.subrange(i + 1, i + 1) =~= seq![]);
}

} // verus!
