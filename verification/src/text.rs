//! Character-level helpers on text: whitespace trimming, ASCII case folding,
//! lower-casing and splitting off a file name.

use vstd::prelude::*;

verus! {

/// `char::is_whitespace`: the Unicode `White_Space` property.
pub open spec fn is_ws(c: char) -> bool {
    let u = c as u32;
    ||| 0x9 <= u <= 0xD
    ||| u == 0x20
    ||| u == 0x85
    ||| u == 0xA0
    ||| u == 0x1680
    ||| 0x2000 <= u <= 0x200A
    ||| u == 0x2028
    ||| u == 0x2029
    ||| u == 0x202F
    ||| u == 0x205F
    ||| u == 0x3000
}

/// A double or single quote.
pub open spec fn is_quote(c: char) -> bool {
    c == '"' || c == '\''
}

/// The characters stripped by `trim` (whitespace) or by `strip_quotes` (quotes).
pub open spec fn strip_pred(quotes: bool, c: char) -> bool {
    if quotes {
        is_quote(c)
    } else {
        is_ws(c)
    }
}

/// The text without its leading stripped characters.
pub open spec fn strip_start(s: Seq<char>, quotes: bool) -> Seq<char>
    decreases s.len(),
{
    if s.len() > 0 && strip_pred(quotes, s[0]) {
        strip_start(s.drop_first(), quotes)
    } else {
        s
    }
}

/// The text without its trailing stripped characters.
pub open spec fn strip_end(s: Seq<char>, quotes: bool) -> Seq<char>
    decreases s.len(),
{
    if s.len() > 0 && strip_pred(quotes, s.last()) {
        strip_end(s.drop_last(), quotes)
    } else {
        s
    }
}

/// `str::trim`: the text without leading and trailing whitespace.
pub open spec fn trim(s: Seq<char>) -> Seq<char> {
    strip_end(strip_start(s, false), false)
}

/// `str::trim_matches` for `"` and `'`: the text without leading and
/// trailing quotes.
pub open spec fn strip_quotes(s: Seq<char>) -> Seq<char> {
    strip_end(strip_start(s, true), true)
}

pub fn is_whitespace(c: char) -> (r: bool)
    ensures
        r == is_ws(c),
{
    let u = c as u32;
    (0x9 <= u && u <= 0xD) || u == 0x20 || u == 0x85 || u == 0xA0 || u == 0x1680 || (0x2000 <= u
        && u <= 0x200A) || u == 0x2028 || u == 0x2029 || u == 0x202F || u == 0x205F || u == 0x3000
}

/// The characters of a string.
#[verifier::external_body]
pub(crate) fn chars_of(s: &str) -> (v: Vec<char>)
    ensures
        v@ == s@,
{
    s.chars().collect()
}

/// The string made of the given characters.
#[verifier::external_body]
pub(crate) fn string_of(v: &[char]) -> (s: String)
    ensures
        s@ == v@,
{
    v.iter().collect()
}

/// Text equality: `<str as PartialEq>::eq`.
#[verifier::external_body]
pub(crate) fn str_eq(a: &str, b: &str) -> (r: bool)
    ensures
        r == (a@ == b@),
{
    a == b
}

/// What `str::to_lowercase` returns for a text (full Unicode lower-casing).
pub uninterp spec fn lowercase(s: Seq<char>) -> Seq<char>;

/// Calls `str::to_lowercase`; its result is named `lowercase`.
#[verifier::external_body]
pub(crate) fn to_lowercase(s: &str) -> (r: String)
    ensures
        r@ == lowercase(s@),
{
    s.to_lowercase()
}

proof fn lemma_trim_start_skip(s: Seq<char>, i: int, q: bool)
    requires
        0 <= i <= s.len(),
        forall|j: int| 0 <= j < i ==> strip_pred(q, #[trigger] s[j]),
    ensures
        strip_start(s, q) == strip_start(s.subrange(i, s.len() as int), q),
    decreases i,
{
    if i > 0 {
        assert(s.drop_first() == s.subrange(1, s.len() as int));
        lemma_trim_start_skip(s.drop_first(), i - 1, q);
        assert(s.drop_first().subrange(i - 1, s.drop_first().len() as int) == s.subrange(
            i,
            s.len() as int,
        ));
    } else {
        assert(s.subrange(0, s.len() as int) == s);
    }
}

proof fn lemma_trim_end_take(s: Seq<char>, e: int, q: bool)
    requires
        0 <= e <= s.len(),
        forall|j: int| e <= j < s.len() ==> strip_pred(q, #[trigger] s[j]),
    ensures
        strip_end(s, q) == strip_end(s.subrange(0, e), q),
    decreases s.len() - e,
{
    if e < s.len() {
        lemma_trim_end_take(s.drop_last(), e, q);
        assert(s.drop_last().subrange(0, e) == s.subrange(0, e));
    } else {
        assert(s.subrange(0, s.len() as int) == s);
    }
}

/// Copies `v[lo..hi]` into a new vector.
pub fn sub_chars(v: &[char], lo: usize, hi: usize) -> (r: Vec<char>)
    requires
        lo <= hi <= v@.len(),
    ensures
        r@ == v@.subrange(lo as int, hi as int),
{
    let mut r: Vec<char> = Vec::new();
    let mut i = lo;
    while i < hi
        invariant
            lo <= i <= hi <= v@.len(),
            r@ == v@.subrange(lo as int, i as int),
        decreases hi - i,
    {
        r.push(v[i]);
        i = i + 1;
        assert(r@ == v@.subrange(lo as int, i as int));
    }
    r
}

fn strips(quotes: bool, c: char) -> (r: bool)
    ensures
        r == strip_pred(quotes, c),
{
    if quotes {
        c == '"' || c == '\''
    } else {
        is_whitespace(c)
    }
}

/// Strips leading and trailing whitespace (or quotes) from a character vector.
pub fn strip_chars(v: &[char], quotes: bool) -> (r: Vec<char>)
    ensures
        r@ == strip_end(strip_start(v@, quotes), quotes),
{
    let n = v.len();
    let mut a: usize = 0;
    while a < n && strips(quotes, v[a])
        invariant
            a <= n == v@.len(),
            forall|j: int| 0 <= j < a ==> strip_pred(quotes, #[trigger] v@[j]),
        decreases n - a,
    {
        a = a + 1;
    }
    proof {
        lemma_trim_start_skip(v@, a as int, quotes);
        if a < n {
            assert(!strip_pred(quotes, v@.subrange(a as int, n as int)[0]));
        }
    }
    let ghost t = v@.subrange(a as int, n as int);
    assert(strip_start(v@, quotes) == t);
    let mut b: usize = n;
    while b > a && strips(quotes, v[b - 1])
        invariant
            a <= b <= n == v@.len(),
            t == v@.subrange(a as int, n as int),
            forall|j: int| b <= j < n ==> strip_pred(quotes, #[trigger] v@[j]),
        decreases b - a,
    {
        b = b - 1;
    }
    proof {
        let e = b - a;
        assert forall|j: int| e <= j < t.len() implies strip_pred(quotes, #[trigger] t[j]) by {
            assert(t[j] == v@[a + j]);
        }
        lemma_trim_end_take(t, e, quotes);
        assert(t.subrange(0, e) == v@.subrange(a as int, b as int));
        let u = t.subrange(0, e);
        if u.len() > 0 {
            assert(u.last() == v@[b - 1]);
        }
    }
    sub_chars(v, a, b)
}

/// `str::trim` on a character vector.
pub fn trim_chars(v: &[char]) -> (r: Vec<char>)
    ensures
        r@ == trim(v@),
{
    strip_chars(v, false)
}

/// `str::trim` on a string.
pub fn trim_str(s: &str) -> (r: String)
    ensures
        r@ == trim(s@),
{
    let v = chars_of(s);
    let t = trim_chars(v.as_slice());
    string_of(t.as_slice())
}

/// `str::trim_matches` for `"` and `'` on a string.
pub fn strip_quotes_str(s: &str) -> (r: String)
    ensures
        r@ == strip_quotes(s@),
{
    let v = chars_of(s);
    let t = strip_chars(v.as_slice(), true);
    string_of(t.as_slice())
}


/// ASCII lower-casing of one character, as a code point.
pub open spec fn ascii_lower(c: char) -> int {
    if 'A' <= c <= 'Z' {
        (c as u32) + 32
    } else {
        c as u32 as int
    }
}

/// `str::eq_ignore_ascii_case`.
pub open spec fn eq_ignore_ascii_case(a: Seq<char>, b: Seq<char>) -> bool {
    &&& a.len() == b.len()
    &&& forall|i: int| 0 <= i < a.len() ==> ascii_lower(#[trigger] a[i]) == ascii_lower(b[i])
}

fn ascii_lower_char(c: char) -> (r: u32)
    ensures
        r == ascii_lower(c),
{
    if 'A' <= c && c <= 'Z' {
        (c as u32) + 32
    } else {
        c as u32
    }
}

/// ASCII case-insensitive comparison of two character sequences.
pub fn chars_eq_ignore_ascii_case(a: &[char], b: &[char]) -> (r: bool)
    ensures
        r == eq_ignore_ascii_case(a@, b@),
{
    if a.len() != b.len() {
        return false;
    }
    let mut i: usize = 0;
    while i < a.len()
        invariant
            i <= a@.len() == b@.len(),
            forall|j: int| 0 <= j < i ==> ascii_lower(#[trigger] a@[j]) == ascii_lower(b@[j]),
        decreases a.len() - i,
    {
        if ascii_lower_char(a[i]) != ascii_lower_char(b[i]) {
            return false;
        }
        i = i + 1;
    }
    true
}

/// `str::eq_ignore_ascii_case`.
pub fn str_eq_ignore_ascii_case(a: &str, b: &str) -> (r: bool)
    ensures
        r == eq_ignore_ascii_case(a@, b@),
{
    let va = chars_of(a);
    let vb = chars_of(b);
    chars_eq_ignore_ascii_case(va.as_slice(), vb.as_slice())
}

/// A path separator: `/` or `\`.
pub open spec fn is_sep(c: char) -> bool {
    c == '/' || c == '\\'
}

/// The last component of a path: the text after its last `/` or `\`
/// (the whole text when it holds neither).
pub open spec fn file_name(s: Seq<char>) -> Seq<char>
    decreases s.len(),
{
    if s.len() == 0 {
        s
    } else if is_sep(s.last()) {
        Seq::empty()
    } else {
        file_name(s.drop_last()).push(s.last())
    }
}

proof fn lemma_file_name_from(s: Seq<char>, k: int)
    requires
        0 <= k <= s.len(),
        k == 0 || is_sep(s[k - 1]),
        forall|j: int| k <= j < s.len() ==> !is_sep(#[trigger] s[j]),
    ensures
        file_name(s) == s.subrange(k, s.len() as int),
    decreases s.len(),
{
    if s.len() > k {
        lemma_file_name_from(s.drop_last(), k);
        assert(s.drop_last().subrange(k, s.len() - 1).push(s.last()) == s.subrange(
            k,
            s.len() as int,
        ));
    } else if s.len() > 0 {
        assert(s.subrange(k, s.len() as int) == Seq::<char>::empty());
    } else {
        assert(s.subrange(k, s.len() as int) == s);
    }
}

/// The last component of a path (after its last `/` or `\`).
pub fn file_name_of(path: &str) -> (r: String)
    ensures
        r@ == file_name(path@),
{
    let v = chars_of(path);
    let n = v.len();
    let mut k = n;
    while k > 0 && !(v[k - 1] == '/' || v[k - 1] == '\\')
        invariant
            k <= n == v@.len(),
            forall|j: int| k <= j < n ==> !is_sep(#[trigger] v@[j]),
        decreases k,
    {
        k = k - 1;
    }
    proof {
        lemma_file_name_from(v@, k as int);
    }
    let r = sub_chars(v.as_slice(), k, n);
    string_of(r.as_slice())
}

/// The decimal digit of a number below ten.
pub open spec fn digit(n: nat) -> char {
    ((n + 48) as u32) as char
}

/// The decimal representation of a number.
pub open spec fn decimal(n: nat) -> Seq<char>
    decreases n,
{
    if n < 10 {
        seq![digit(n)]
    } else {
        decimal(n / 10).push(digit(n % 10))
    }
}

fn digit_char(n: u128) -> (c: char)
    requires
        n < 10,
    ensures
        c == digit(n as nat),
{
    if n == 0 {
        '0'
    } else if n == 1 {
        '1'
    } else if n == 2 {
        '2'
    } else if n == 3 {
        '3'
    } else if n == 4 {
        '4'
    } else if n == 5 {
        '5'
    } else if n == 6 {
        '6'
    } else if n == 7 {
        '7'
    } else if n == 8 {
        '8'
    } else {
        '9'
    }
}

/// The decimal representation of a number.
pub fn decimal_string(n: u128) -> (r: String)
    ensures
        r@ == decimal(n as nat),
{
    let mut digits: Vec<char> = Vec::new();
    let mut m = n;
    let mut low: Vec<char> = Vec::new();
    while m >= 10
        invariant
            decimal(n as nat) == decimal(m as nat) + low@,
        decreases m,
    {
        let c = digit_char(m % 10);
        let ghost before = low@;
        low.insert(0, c);
        proof {
            assert(decimal(m as nat) == decimal((m / 10) as nat).push(c));
            assert(decimal((m / 10) as nat).push(c) + before =~= decimal((m / 10) as nat) + low@);
        }
        m = m / 10;
    }
    digits.push(digit_char(m));
    proof {
        assert(digits@ == decimal(m as nat));
    }
    let mut i: usize = 0;
    while i < low.len()
        invariant
            i <= low@.len(),
            digits@ == decimal(m as nat) + low@.take(i as int),
            decimal(n as nat) == decimal(m as nat) + low@,
        decreases low.len() - i,
    {
        digits.push(low[i]);
        proof {
            assert(low@.take(i + 1) =~= low@.take(i as int).push(low@[i as int]));
            assert(digits@ =~= decimal(m as nat) + low@.take(i + 1));
        }
        i = i + 1;
    }
    proof {
        assert(low@.take(i as int) == low@);
    }
    string_of(digits.as_slice())
}

} // verus!
