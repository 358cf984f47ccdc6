//! The URIs under which locations are reported: a file path becomes a
//! `file://` URI, kept only when it parses as one.

use crate::text::{chars_of, string_of, sub_chars};
use vstd::prelude::*;

verus! {

/// The longest text handed to the URI parser. The parser panics on a text
/// of more than `i32::MAX` bytes, and a char takes at most four bytes.
pub const URI_MAX_CHARS: usize = 0x1fff_ffff;

/// Whether `lsp_types::Uri` parses a text.
pub uninterp spec fn uri_parses(s: Seq<char>) -> bool;

/// Parses a text with `<lsp_types::Uri as FromStr>::from_str` and tells
/// whether it succeeded; the answer is named `uri_parses`.
#[verifier::external_body]
fn uri_is_valid(s: &str) -> (r: bool)
    requires
        s@.len() <= URI_MAX_CHARS,
    ensures
        r == uri_parses(s@),
{
    s.parse::<lsp_types::Uri>().is_ok()
}

/// The path component of a text parsed as a URI (empty when it does not
/// parse).
pub uninterp spec fn uri_path(s: Seq<char>) -> Seq<char>;

/// Parses a text with `<lsp_types::Uri as FromStr>::from_str` and gives
/// its `path()` as text (empty on a parse error); named `uri_path`.
#[verifier::external_body]
fn uri_path_of(s: &str) -> (r: String)
    requires
        s@.len() <= URI_MAX_CHARS,
    ensures
        r@ == uri_path(s@),
{
    match s.parse::<lsp_types::Uri>() {
        Ok(u) => u.path().as_str().to_string(),
        Err(_) => String::new(),
    }
}

/// Whether a text starts with the `file://` scheme.
pub open spec fn has_file_scheme(p: Seq<char>) -> bool {
    p.len() >= 7 && p.subrange(0, 7) == seq!['f', 'i', 'l', 'e', ':', '/', '/']
}

/// The URI text for a path or URI: a text with the `file://` scheme as it
/// is, any other with `file://` put in front.
pub open spec fn uri_text(p: Seq<char>) -> Seq<char> {
    if has_file_scheme(p) {
        p
    } else {
        seq!['f', 'i', 'l', 'e', ':', '/', '/'] + p
    }
}

/// The URI of a path or URI: its URI text when that parses (and is not too
/// long to hand to the parser), else none.
pub open spec fn path_uri(p: Seq<char>) -> Option<Seq<char>> {
    let t = uri_text(p);
    if t.len() <= URI_MAX_CHARS && uri_parses(t) {
        Some(t)
    } else {
        None
    }
}

fn file_scheme_at_start(v: &[char]) -> (r: bool)
    ensures
        r == has_file_scheme(v@),
{
    if v.len() < 7 {
        return false;
    }
    let r = v[0] == 'f' && v[1] == 'i' && v[2] == 'l' && v[3] == 'e' && v[4] == ':' && v[5] == '/'
        && v[6] == '/';
    proof {
        if r {
            assert(v@.subrange(0, 7) =~= seq!['f', 'i', 'l', 'e', ':', '/', '/']);
        } else {
            if has_file_scheme(v@) {
                assert(v@.subrange(0, 7)[0] == v@[0]);
                assert(v@.subrange(0, 7)[1] == v@[1]);
                assert(v@.subrange(0, 7)[2] == v@[2]);
                assert(v@.subrange(0, 7)[3] == v@[3]);
                assert(v@.subrange(0, 7)[4] == v@[4]);
                assert(v@.subrange(0, 7)[5] == v@[5]);
                assert(v@.subrange(0, 7)[6] == v@[6]);
            }
        }
    }
    r
}

/// The URI of a file path or URI, when it parses as one.
pub fn path_str_to_uri(p: &str) -> (r: Option<String>)
    ensures
        match r {
            Some(u) => path_uri(p@) == Some(u@),
            None => path_uri(p@) is None,
        },
{
    let v = chars_of(p);
    let t = if file_scheme_at_start(v.as_slice()) {
        String::from_str(p)
    } else {
        let mut t = String::from_str("file://");
        proof {
            reveal_strlit("file://");
        }
        t.append(p);
        proof {
            assert(t@ =~= seq!['f', 'i', 'l', 'e', ':', '/', '/'] + p@);
        }
        t
    };
    if t.as_str().unicode_len() > URI_MAX_CHARS {
        return None;
    }
    if uri_is_valid(t.as_str()) {
        Some(t)
    } else {
        None
    }
}

/// The text after the last `/` (the whole text when it holds none).
pub open spec fn last_segment(s: Seq<char>) -> Seq<char>
    decreases s.len(),
{
    if s.len() == 0 {
        s
    } else if s.last() == '/' {
        Seq::empty()
    } else {
        last_segment(s.drop_last()).push(s.last())
    }
}

proof fn lemma_last_segment_from(s: Seq<char>, k: int)
    requires
        0 <= k <= s.len(),
        k == 0 || s[k - 1] == '/',
        forall|j: int| k <= j < s.len() ==> #[trigger] s[j] != '/',
    ensures
        last_segment(s) == s.subrange(k, s.len() as int),
    decreases s.len(),
{
    if s.len() > k {
        lemma_last_segment_from(s.drop_last(), k);
        assert(s.drop_last().subrange(k, s.len() - 1).push(s.last()) == s.subrange(
            k,
            s.len() as int,
        ));
    } else if s.len() > 0 {
        assert(s.subrange(k, s.len() as int) == Seq::<char>::empty());
    } else {
        assert(s.subrange(k, s.len() as int) == s);
    }
}

/// The text after the last `/`.
pub fn last_segment_of(s: &str) -> (r: String)
    ensures
        r@ == last_segment(s@),
{
    let v = chars_of(s);
    let n = v.len();
    let mut k = n;
    while k > 0 && v[k - 1] != '/'
        invariant
            k <= n == v@.len(),
            forall|j: int| k <= j < n ==> #[trigger] v@[j] != '/',
        decreases k,
    {
        k = k - 1;
    }
    proof {
        lemma_last_segment_from(v@, k as int);
    }
    let r = sub_chars(v.as_slice(), k, n);
    string_of(r.as_slice())
}

/// The file name shown for a location's URI: the last segment of its path
/// (of the whole text, when it is too long to parse).
pub open spec fn uri_file_name(uri: Seq<char>) -> Seq<char> {
    if uri.len() <= URI_MAX_CHARS {
        last_segment(uri_path(uri))
    } else {
        last_segment(uri)
    }
}

/// The file name shown for a location's URI.
pub fn uri_file_name_of(uri: &str) -> (r: String)
    ensures
        r@ == uri_file_name(uri@),
{
    if uri.unicode_len() <= URI_MAX_CHARS {
        let path = uri_path_of(uri);
        last_segment_of(path.as_str())
    } else {
        last_segment_of(uri)
    }
}

} // verus!
