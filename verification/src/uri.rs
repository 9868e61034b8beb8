//! File paths and `file://` URIs, and which files a workspace scan takes.
use vstd::prelude::*;
use vstd::string::StringSliceAdditionalSpecFns;
use vstd::utf8::{
    decode_utf8, decode_utf8_encode_utf8, encode_utf8, encode_utf8_decode_utf8, valid_utf8,
};

use crate::script::utf8_text;
use crate::text::{chars_are, chars_of, rfind_text, text_option};

verus! {

/// Bytes that stand for themselves in a URI.
pub open spec fn is_plain(c: u8) -> bool {
    ||| 48 <= c <= 57
    ||| 65 <= c <= 90
    ||| 97 <= c <= 122
    ||| c == 45  // -
    ||| c == 46  // .
    ||| c == 47  // /
    ||| c == 95  // _
    ||| c == 126  // ~
}

/// The upper-case hexadecimal digit of a value.
pub open spec fn hex_digit(n: u8) -> u8 {
    if n < 10 {
        (48 + n) as u8
    } else {
        (55 + n) as u8
    }
}

/// The value of a hexadecimal digit, in either case.
pub open spec fn digit_of(c: u8) -> Option<u8> {
    if 48 <= c <= 57 {
        Some((c - 48) as u8)
    } else if 65 <= c <= 70 {
        Some((c - 55) as u8)
    } else if 97 <= c <= 102 {
        Some((c - 87) as u8)
    } else {
        None
    }
}

/// The bytes from `i` on, percent-encoded.
pub open spec fn encoded(b: Seq<u8>, i: int) -> Seq<u8>
    decreases b.len() - i,
{
    if i < 0 || i >= b.len() {
        seq![]
    } else if is_plain(b[i]) {
        seq![b[i]] + encoded(b, i + 1)
    } else {
        seq![37u8, hex_digit((b[i] / 16) as u8), hex_digit((b[i] % 16) as u8)] + encoded(b, i + 1)
    }
}

/// The bytes that the URI text from `i` on stands for; none if an escape in it is
/// cut off or has no two digits.
pub open spec fn decoded(b: Seq<u8>, i: int) -> Option<Seq<u8>>
    decreases b.len() - i,
{
    if i < 0 || i >= b.len() {
        Some(seq![])
    } else if b[i] == 37 {
        if i + 2 < b.len() {
            match (digit_of(b[i + 1]), digit_of(b[i + 2]), decoded(b, i + 3)) {
                (Some(hi), Some(lo), Some(rest)) => Some(seq![(hi * 16 + lo) as u8] + rest),
                _ => None,
            }
        } else {
            None
        }
    } else {
        match decoded(b, i + 1) {
            Some(rest) => Some(seq![b[i]] + rest),
            None => None,
        }
    }
}

/// The bytes of `file://`.
pub open spec fn scheme() -> Seq<u8> {
    seq![102u8, 105u8, 108u8, 101u8, 58u8, 47u8, 47u8]
}

/// The `file://` URI of a path.
pub open spec fn uri_of(path: Seq<char>) -> Seq<char> {
    decode_utf8(scheme() + encoded(encode_utf8(path), 0))
}

/// The path that a URI names, if it is a `file://` URI for text.
pub open spec fn path_of(uri: Seq<u8>) -> Option<Seq<char>> {
    if uri.len() >= 7 && uri.subrange(0, 7) == scheme() {
        match decoded(uri.subrange(7, uri.len() as int), 0) {
            Some(bytes) => utf8_text(bytes),
            None => None,
        }
    } else {
        None
    }
}

fn plain(c: u8) -> (r: bool)
    ensures
        r == is_plain(c),
{
    (48 <= c && c <= 57) || (65 <= c && c <= 90) || (97 <= c && c <= 122) || c == 45 || c == 46 || c
        == 47 || c == 95 || c == 126
}

fn digit(n: u8) -> (r: u8)
    requires
        n < 16,
    ensures
        r == hex_digit(n),
        r < 128,
{
    if n < 10 {
        48 + n
    } else {
        55 + n
    }
}

fn value(c: u8) -> (r: Option<u8>)
    ensures
        r == digit_of(c),
        r matches Some(d) ==> d < 16,
{
    if 48 <= c && c <= 57 {
        Some(c - 48)
    } else if 65 <= c && c <= 70 {
        Some(c - 55)
    } else if 97 <= c && c <= 102 {
        Some(c - 87)
    } else {
        None
    }
}

/// Builds a `file://` URI the same way editors do.
pub fn path_to_uri(path: &str) -> (r: String)
    ensures
        r@ == uri_of(path@),
        encode_utf8(r@) == scheme() + encoded(path.spec_bytes(), 0),
{
    let b = path.as_bytes();
    let mut out: Vec<u8> = vec![102, 105, 108, 101, 58, 47, 47];
    let mut i: usize = 0;
    let ghost whole = encoded(b@, 0);
    proof {
        assert(out@ =~= scheme());
        assert(out@ + whole =~= scheme() + whole);
    }
    while i < b.len()
        invariant
            i <= b@.len(),
            scheme() + whole == out@ + encoded(b@, i as int),
            forall|k: int| 0 <= k < out@.len() ==> #[trigger] out@[k] < 128,
        decreases b@.len() - i,
    {
        let c = b[i];
        let ghost before = out@;
        let ghost rest = encoded(b@, i + 1);
        if plain(c) {
            out.push(c);
            assert(before + (seq![c] + rest) =~= out@ + rest);
        } else {
            out.push(37);
            out.push(digit(c / 16));
            out.push(digit(c % 16));
            assert(before + (seq![37u8, hex_digit((c / 16) as u8), hex_digit((c % 16) as u8)]
                + rest) =~= out@ + rest);
        }
        i = i + 1;
    }
    assert(out@ + Seq::<u8>::empty() =~= out@);
    proof {
        lemma_ascii(out@);
    }
    match core::str::from_utf8(out.as_slice()) {
        Ok(s) => {
            proof {
                encode_utf8_decode_utf8(s@);
            }
            s.to_owned()
        },
        Err(_) => {
            proof {
                assert(false);
            }
            String::new()
        },
    }
}

/// Bytes below 128 are well-formed text.
proof fn lemma_ascii(b: Seq<u8>)
    requires
        forall|k: int| 0 <= k < b.len() ==> #[trigger] b[k] < 128,
    ensures
        valid_utf8(b),
    decreases b.len(),
{
    if b.len() > 0 {
        let c = b[0];
        assert(c & 0x7f == c) by (bit_vector)
            requires
                c < 128,
        ;
        let rest = vstd::utf8::pop_first_scalar(b);
        assert(rest =~= b.subrange(1, b.len() as int));
        assert forall|k: int| 0 <= k < rest.len() implies #[trigger] rest[k] < 128 by {
            assert(rest[k] == b[k + 1]);
        }
        lemma_ascii(rest);
    }
}

/// Inverse of [`path_to_uri`], tolerant of the percent-encoding clients use.
pub fn uri_to_path(uri: &str) -> (r: Option<String>)
    ensures
        text_option(r) == path_of(uri.spec_bytes()),
{
    let all = uri.as_bytes();
    if all.len() < 7 {
        return None;
    }
    let prefix: Vec<u8> = vec![102, 105, 108, 101, 58, 47, 47];
    assert(prefix@ =~= scheme());
    let mut p: usize = 0;
    while p < 7
        invariant
            p <= 7,
            prefix@ == scheme(),
            all@.len() >= 7,
            all@ == uri.spec_bytes(),
            forall|k: int| 0 <= k < p ==> all@[k] == scheme()[k],
        decreases 7 - p,
    {
        if all[p] != prefix[p] {
            assert(all@.subrange(0, 7)[p as int] != scheme()[p as int]);
            return None;
        }
        p = p + 1;
    }
    assert(all@.subrange(0, 7) =~= scheme());
    let b = vstd::slice::slice_subrange(all, 7, all.len());
    let mut bytes: Vec<u8> = Vec::new();
    let mut i: usize = 0;
    let ghost whole = decoded(b@, 0);
    proof {
        if let Some(t) = whole {
            assert(bytes@ + t =~= t);
        }
    }
    while i < b.len()
        invariant
            i <= b@.len(),
            b@ == all@.subrange(7, all@.len() as int),
            all@ == uri.spec_bytes(),
            all@.len() >= 7,
            all@.subrange(0, 7) == scheme(),
            whole == decoded(b@, 0),
            whole == (match decoded(b@, i as int) {
                Some(rest) => Some(bytes@ + rest),
                None => None,
            }),
        decreases b@.len() - i,
    {
        let ghost before = bytes@;
        if b[i] == 37 {
            if b.len() - i <= 2 {
                return None;
            }
            match (value(b[i + 1]), value(b[i + 2])) {
                (Some(hi), Some(lo)) => {
                    bytes.push(hi * 16 + lo);
                    proof {
                        if let Some(rest) = decoded(b@, i + 3) {
                            assert(before + (seq![(hi * 16 + lo) as u8] + rest) =~= bytes@ + rest);
                        }
                    }
                },
                _ => {
                    return None;
                },
            }
            i = i + 3;
        } else {
            bytes.push(b[i]);
            proof {
                if let Some(rest) = decoded(b@, i + 1) {
                    assert(before + (seq![b@[i as int]] + rest) =~= bytes@ + rest);
                }
            }
            i = i + 1;
        }
    }
    assert(bytes@ + Seq::<u8>::empty() =~= bytes@);
    match core::str::from_utf8(bytes.as_slice()) {
        Ok(s) => {
            proof {
                encode_utf8_decode_utf8(s@);
            }
            Some(s.to_owned())
        },
        Err(_) => None,
    }
}

// ---------------------------------------------------------------------- scan
/// How deep a workspace scan goes.
pub const SCAN_DEPTH: usize = 24;

/// How many files a workspace scan takes before it stops going on.
pub const SCAN_FILES: usize = 20000;

/// Whether a scan looks into a directory, `depth` levels down, with `found` files.
pub open spec fn scan_enters(depth: int, found: int) -> bool {
    depth <= SCAN_DEPTH && found <= SCAN_FILES
}

/// Directories that never contain project sources worth indexing: hidden ones, and
/// those that tools fill.
pub open spec fn is_skipped_dir(name: Seq<char>) -> bool {
    ||| (name.len() > 0 && name[0] == '.' && name != "."@)
    ||| name == ".git"@
    ||| name == "target"@
    ||| name == "node_modules"@
    ||| name == ".direnv"@
    ||| name == "result"@
}

/// What follows the last dot of a file name; a name that only begins with a dot
/// has none.
pub open spec fn extension(name: Seq<char>) -> Option<Seq<char>> {
    match rfind_text(name, name.len() as int, seq!['.']) {
        Some(i) => if i > 0 && name != ".."@ {
            Some(name.subrange(i + 1, name.len() as int))
        } else {
            None
        },
        None => None,
    }
}

/// Whether a file is one of Tcl, by its name.
pub open spec fn is_tcl_name(name: Seq<char>) -> bool {
    match extension(name) {
        Some(e) => e == "tcl"@ || e == "tm"@ || e == "test"@ || e == "itcl"@,
        None => false,
    }
}

pub fn enters(depth: usize, found: usize) -> (r: bool)
    ensures
        r == scan_enters(depth as int, found as int),
{
    depth <= SCAN_DEPTH && found <= SCAN_FILES
}

pub fn skips_directory(name: &str) -> (r: bool)
    ensures
        r == is_skipped_dir(name@),
{
    let n = chars_of(name);
    let s = n.as_slice();
    (s.len() > 0 && s[0] == '.' && !chars_are(s, ".")) || chars_are(s, ".git") || chars_are(
        s,
        "target",
    ) || chars_are(s, "node_modules") || chars_are(s, ".direnv") || chars_are(s, "result")
}

pub fn is_tcl_file(name: &str) -> (r: bool)
    ensures
        r == is_tcl_name(name@),
{
    let n = chars_of(name);
    let s = n.as_slice();
    let dot: Vec<char> = vec!['.'];
    assert(dot@ =~= seq!['.']);
    let total: usize = s.len();
    match crate::text::find_last(s, dot.as_slice()) {
        Some(i) => {
            if i == 0 || chars_are(s, "..") {
                return false;
            }
            let e = vstd::slice::slice_subrange(s, i + 1, total);
            chars_are(e, "tcl") || chars_are(e, "tm") || chars_are(e, "test") || chars_are(
                e,
                "itcl",
            )
        },
        None => false,
    }
}

// ----------------------------------------------------------------------- laws
proof fn lemma_decode_encode(b: Seq<u8>, i: int, p: Seq<u8>)
    requires
        0 <= i <= b.len(),
    ensures
        decoded(p + encoded(b, i), p.len() as int) == Some(b.subrange(i, b.len() as int)),
    decreases b.len() - i,
{
    let all = p + encoded(b, i);
    if i == b.len() {
        assert(b.subrange(i, b.len() as int) =~= seq![]);
    } else {
        let rest = b.subrange(i + 1, b.len() as int);
        assert(b.subrange(i, b.len() as int) =~= seq![b[i]] + rest);
        if is_plain(b[i]) {
            lemma_decode_encode(b, i + 1, p + seq![b[i]]);
            assert(p + seq![b[i]] + encoded(b, i + 1) =~= all);
        } else {
            let hi = (b[i] / 16) as u8;
            let lo = (b[i] % 16) as u8;
            let three = seq![37u8, hex_digit(hi), hex_digit(lo)];
            lemma_decode_encode(b, i + 1, p + three);
            assert(p + three + encoded(b, i + 1) =~= all);
            assert(all[p.len() as int] == 37);
            assert(all[p.len() as int + 1] == hex_digit(hi));
            assert(all[p.len() as int + 2] == hex_digit(lo));
            assert(digit_of(hex_digit(hi)) == Some(hi));
            assert(digit_of(hex_digit(lo)) == Some(lo));
            assert(hi * 16 + lo == b[i]);
        }
    }
}

proof fn lemma_encoded_ascii(b: Seq<u8>, i: int)
    ensures
        forall|k: int| 0 <= k < encoded(b, i).len() ==> #[trigger] encoded(b, i)[k] < 128,
    decreases b.len() - i,
{
    if 0 <= i < b.len() {
        lemma_encoded_ascii(b, i + 1);
        let rest = encoded(b, i + 1);
        let all = encoded(b, i);
        let first = if is_plain(b[i]) {
            seq![b[i]]
        } else {
            seq![37u8, hex_digit((b[i] / 16) as u8), hex_digit((b[i] % 16) as u8)]
        };
        assert(all == first + rest);
        assert forall|k: int| 0 <= k < all.len() implies #[trigger] all[k] < 128 by {
            if k < first.len() {
                assert(all[k] == first[k]);
            } else {
                assert(all[k] == rest[k - first.len()]);
            }
        }
    }
}

/// Every path comes back from its URI.
pub proof fn paths_round_trip(path: Seq<char>)
    ensures
        path_of(encode_utf8(uri_of(path))) == Some(path),
{
    let b = encode_utf8(path);
    let uri = scheme() + encoded(b, 0);
    vstd::utf8::encode_utf8_valid_utf8(path);
    encode_utf8_decode_utf8(path);
    assert(uri.subrange(0, 7) =~= scheme());
    assert(uri.subrange(7, uri.len() as int) =~= Seq::<u8>::empty() + encoded(b, 0));
    lemma_decode_encode(b, 0, Seq::empty());
    assert(b.subrange(0, b.len() as int) =~= b);
    lemma_encoded_ascii(b, 0);
    lemma_ascii(uri);
    decode_utf8_encode_utf8(uri);
}

} // verus!
