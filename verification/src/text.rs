//! Byte-level text helpers: ASCII whitespace trimming and line splitting.
use vstd::prelude::*;

verus! {

pub const NEWLINE: u8 = 0x0a;

/// ASCII whitespace as `u8::is_ascii_whitespace` counts it: space, tab, line
/// feed, form feed and carriage return.
pub open spec fn is_ascii_ws(b: u8) -> bool {
    b == 0x20 || b == 0x09 || b == 0x0a || b == 0x0c || b == 0x0d
}

/// The number of whitespace bytes that `s` starts with.
pub open spec fn leading_ws(s: Seq<u8>) -> nat
    decreases s.len(),
{
    if s.len() > 0 && is_ascii_ws(s[0]) {
        1 + leading_ws(s.drop_first())
    } else {
        0
    }
}

/// The number of whitespace bytes that `s` ends with.
pub open spec fn trailing_ws(s: Seq<u8>) -> nat
    decreases s.len(),
{
    if s.len() > 0 && is_ascii_ws(s.last()) {
        1 + trailing_ws(s.drop_last())
    } else {
        0
    }
}

/// `s` without leading and trailing ASCII whitespace, as `trim_ascii` gives.
pub open spec fn trim_ascii(s: Seq<u8>) -> Seq<u8> {
    let t = s.skip(leading_ws(s) as int);
    t.take(t.len() - trailing_ws(t))
}

proof fn lemma_leading_ws(s: Seq<u8>, k: int)
    requires
        0 <= k <= s.len(),
        forall|j: int| 0 <= j < k ==> is_ascii_ws(#[trigger] s[j]),
        k == s.len() || !is_ascii_ws(s[k]),
    ensures
        leading_ws(s) == k,
    decreases k,
{
    if k > 0 {
        lemma_leading_ws(s.drop_first(), k - 1);
    }
}

proof fn lemma_trailing_ws(s: Seq<u8>, k: int)
    requires
        0 <= k <= s.len(),
        forall|j: int| s.len() - k <= j < s.len() ==> is_ascii_ws(#[trigger] s[j]),
        k == s.len() || !is_ascii_ws(s[s.len() - k - 1]),
    ensures
        trailing_ws(s) == k,
    decreases k,
{
    if k > 0 {
        lemma_trailing_ws(s.drop_last(), k - 1);
    }
}

/// The bounds of `s[lo..hi]` trimmed of ASCII whitespace.
pub fn trim_bounds(s: &[u8], lo: usize, hi: usize) -> (r: (usize, usize))
    requires
        lo <= hi <= s@.len(),
    ensures
        lo <= r.0 <= r.1 <= hi,
        s@.subrange(r.0 as int, r.1 as int) == trim_ascii(s@.subrange(lo as int, hi as int)),
{
    let ghost line = s@.subrange(lo as int, hi as int);
    let mut a = lo;
    while a < hi && (s[a] == 0x20 || s[a] == 0x09 || s[a] == 0x0a || s[a] == 0x0c || s[a] == 0x0d)
        invariant
            lo <= a <= hi <= s@.len(),
            line == s@.subrange(lo as int, hi as int),
            forall|j: int| 0 <= j < a - lo ==> is_ascii_ws(#[trigger] line[j]),
        decreases hi - a,
    {
        a = a + 1;
    }
    proof {
        lemma_leading_ws(line, a - lo);
    }
    let ghost t = line.skip(a - lo);
    assert(t =~= s@.subrange(a as int, hi as int));
    let mut b = hi;
    while b > a && (s[b - 1] == 0x20 || s[b - 1] == 0x09 || s[b - 1] == 0x0a || s[b - 1] == 0x0c || s[b
        - 1] == 0x0d)
        invariant
            lo <= a <= b <= hi <= s@.len(),
            t == s@.subrange(a as int, hi as int),
            forall|j: int| t.len() - (hi - b) <= j < t.len() ==> is_ascii_ws(#[trigger] t[j]),
        decreases b - a,
    {
        b = b - 1;
    }
    proof {
        lemma_trailing_ws(t, hi - b);
        assert(t.take(t.len() - (hi - b)) =~= s@.subrange(a as int, b as int));
    }
    (a, b)
}

/// The offset in `s` of its first line feed, or its length when it holds none.
pub open spec fn newline_pos(s: Seq<u8>) -> nat
    decreases s.len(),
{
    if s.len() == 0 || s[0] == NEWLINE {
        0
    } else {
        1 + newline_pos(s.drop_first())
    }
}

proof fn lemma_newline_pos(s: Seq<u8>, k: int)
    requires
        0 <= k <= s.len(),
        forall|j: int| 0 <= j < k ==> #[trigger] s[j] != NEWLINE,
        k == s.len() || s[k] == NEWLINE,
    ensures
        newline_pos(s) == k,
    decreases k,
{
    if k > 0 {
        lemma_newline_pos(s.drop_first(), k - 1);
    }
}

/// The end of the line that starts at `lo`: the position of the next line
/// feed, or the end of `s`.
pub fn line_end(s: &[u8], lo: usize) -> (r: usize)
    requires
        lo <= s@.len(),
    ensures
        r == lo + newline_pos(s@.skip(lo as int)),
        r <= s@.len(),
{
    let mut k = lo;
    while k < s.len() && !is_newline(&s[k])
        invariant
            lo <= k <= s@.len(),
            forall|j: int| lo <= j < k ==> #[trigger] s@[j] != NEWLINE,
        decreases s@.len() - k,
    {
        k = k + 1;
    }
    proof {
        let t = s@.skip(lo as int);
        assert forall|j: int| 0 <= j < k - lo implies #[trigger] t[j] != NEWLINE by {
            assert(t[j] == s@[lo + j]);
        }
        lemma_newline_pos(t, k - lo);
    }
    k
}

/// Whether `b` is a line feed.
pub fn is_newline(b: &u8) -> (r: bool)
    ensures
        r == (*b == NEWLINE),
{
    *b == NEWLINE
}

pub const SPACE: u8 = 0x20;

/// The offset in `s` of its first byte `c`, or its length when it holds none.
pub open spec fn find_byte(s: Seq<u8>, c: u8) -> nat
    decreases s.len(),
{
    if s.len() == 0 || s[0] == c {
        0
    } else {
        1 + find_byte(s.drop_first(), c)
    }
}

proof fn lemma_find_byte(s: Seq<u8>, c: u8, k: int)
    requires
        0 <= k <= s.len(),
        forall|j: int| 0 <= j < k ==> #[trigger] s[j] != c,
        k == s.len() || s[k] == c,
    ensures
        find_byte(s, c) == k,
    decreases k,
{
    if k > 0 {
        lemma_find_byte(s.drop_first(), c, k - 1);
    }
}

/// The position of the first byte `c` at or after `lo`, or the end of `s`.
pub fn find_from(s: &[u8], lo: usize, c: u8) -> (r: usize)
    requires
        lo <= s@.len(),
    ensures
        r == lo + find_byte(s@.skip(lo as int), c),
        lo <= r <= s@.len(),
{
    let mut k = lo;
    while k < s.len() && s[k] != c
        invariant
            lo <= k <= s@.len(),
            forall|j: int| lo <= j < k ==> #[trigger] s@[j] != c,
        decreases s@.len() - k,
    {
        k = k + 1;
    }
    proof {
        let t = s@.skip(lo as int);
        assert forall|j: int| 0 <= j < k - lo implies #[trigger] t[j] != c by {
            assert(t[j] == s@[lo + j]);
        }
        lemma_find_byte(t, c, k - lo);
    }
    k
}

/// The words of `s`: its pieces between spaces, empty ones left out, as
/// `split(' ').filter(|a| !a.is_empty())` gives.
pub open spec fn words(s: Seq<u8>) -> Seq<Seq<u8>>
    decreases s.len(),
{
    let k = find_byte(s, SPACE);
    let head = if k > 0 {
        seq![s.take(k as int)]
    } else {
        seq![]
    };
    if k >= s.len() {
        head
    } else {
        head + words(s.skip((k + 1) as int))
    }
}

/// The words of `s`, copied.
pub fn split_words(s: &[u8]) -> (r: Vec<Vec<u8>>)
    ensures
        r@.map_values(|w: Vec<u8>| w@) == words(s@),
{
    let mut r: Vec<Vec<u8>> = Vec::new();
    let mut pos: usize = 0;
    assert(s@.skip(0) =~= s@);
    loop
        invariant
            pos <= s@.len(),
            r@.map_values(|w: Vec<u8>| w@) + words(s@.skip(pos as int)) == words(s@),
        decreases s@.len() - pos,
    {
        let ghost rest = s@.skip(pos as int);
        let ghost before = r@.map_values(|w: Vec<u8>| w@);
        let k = find_from(s, pos, SPACE);
        assert(rest.take(find_byte(rest, SPACE) as int) =~= s@.subrange(pos as int, k as int));
        if k > pos {
            let w = vstd::slice::slice_to_vec(slice_range(s, pos, k));
            r.push(w);
            assert(r@.map_values(|w: Vec<u8>| w@) =~= before.push(s@.subrange(pos as int, k as int)));
        }
        if k >= s.len() {
            assert(words(rest) == (if k > pos {
                seq![s@.subrange(pos as int, k as int)]
            } else {
                Seq::<Seq<u8>>::empty()
            }));
            assert(r@.map_values(|w: Vec<u8>| w@) + Seq::<Seq<u8>>::empty() =~= r@.map_values(
                |w: Vec<u8>| w@,
            ));
            assert(before + words(rest) =~= r@.map_values(|w: Vec<u8>| w@));
            return r;
        }
        assert(rest.skip((find_byte(rest, SPACE) + 1) as int) =~= s@.skip(k + 1));
        assert(before + words(rest) =~= r@.map_values(|w: Vec<u8>| w@) + words(s@.skip(k + 1)));
        pos = k + 1;
    }
}

/// The bytes `s[lo..hi]`.
pub fn slice_range(s: &[u8], lo: usize, hi: usize) -> (r: &[u8])
    requires
        lo <= hi <= s@.len(),
    ensures
        r@ == s@.subrange(lo as int, hi as int),
{
    let (a, _) = s.split_at(hi);
    let (_, b) = a.split_at(lo);
    b
}

/// Unicode white space, as `char::is_whitespace` counts it: the characters
/// with the `White_Space` property.
pub open spec fn is_white_space(c: char) -> bool {
    let u = c as u32;
    (0x09 <= u <= 0x0d) || u == 0x20 || u == 0x85 || u == 0xa0 || u == 0x1680 || (0x2000 <= u <= 0x200a)
        || u == 0x2028 || u == 0x2029 || u == 0x202f || u == 0x205f || u == 0x3000
}

/// The number of white-space characters that `s` starts with.
pub open spec fn leading_white(s: Seq<char>) -> nat
    decreases s.len(),
{
    if s.len() > 0 && is_white_space(s[0]) {
        1 + leading_white(s.drop_first())
    } else {
        0
    }
}

/// The number of white-space characters that `s` ends with.
pub open spec fn trailing_white(s: Seq<char>) -> nat
    decreases s.len(),
{
    if s.len() > 0 && is_white_space(s.last()) {
        1 + trailing_white(s.drop_last())
    } else {
        0
    }
}

/// `s` without leading and trailing white space.
pub open spec fn trim_white(s: Seq<char>) -> Seq<char> {
    let t = s.skip(leading_white(s) as int);
    t.take(t.len() - trailing_white(t))
}

/// Whether `c` is white space, as `is_white_space` says.
fn white(c: char) -> (r: bool)
    ensures
        r == is_white_space(c),
{
    let u = c as u32;
    (0x09 <= u && u <= 0x0d) || u == 0x20 || u == 0x85 || u == 0xa0 || u == 0x1680 || (0x2000 <= u && u
        <= 0x200a) || u == 0x2028 || u == 0x2029 || u == 0x202f || u == 0x205f || u == 0x3000
}

proof fn lemma_leading_white(s: Seq<char>, k: int)
    requires
        0 <= k <= s.len(),
        forall|j: int| 0 <= j < k ==> is_white_space(#[trigger] s[j]),
        k == s.len() || !is_white_space(s[k]),
    ensures
        leading_white(s) == k,
    decreases k,
{
    if k > 0 {
        assert forall|j: int| 0 <= j < k - 1 implies is_white_space(#[trigger] s.drop_first()[j]) by {
            assert(s.drop_first()[j] == s[j + 1]);
        }
        if k < s.len() {
            assert(s.drop_first()[k - 1] == s[k]);
        }
        lemma_leading_white(s.drop_first(), k - 1);
    }
}

proof fn lemma_trailing_white(s: Seq<char>, k: int)
    requires
        0 <= k <= s.len(),
        forall|j: int| k <= j < s.len() ==> is_white_space(#[trigger] s[j]),
        k == 0 || !is_white_space(s[k - 1]),
    ensures
        trailing_white(s) == s.len() - k,
    decreases s.len() - k,
{
    if k < s.len() {
        let t = s.drop_last();
        assert forall|j: int| k <= j < t.len() implies is_white_space(#[trigger] t[j]) by {
            assert(t[j] == s[j]);
        }
        if k > 0 {
            assert(t[k - 1] == s[k - 1]);
        }
        assert(is_white_space(s[s.len() - 1]));
        lemma_trailing_white(t, k);
    }
}

/// The string without leading and trailing white space, white space being
/// the characters with Unicode's `White_Space` property, as `str::trim`
/// takes it off.
pub(crate) fn str_trim(s: &str) -> (r: &str)
    ensures
        r@ == trim_white(s@),
{
    let n = s.unicode_len();
    let mut lo: usize = 0;
    while lo < n && white(s.get_char(lo))
        invariant
            n == s@.len(),
            lo <= n,
            forall|j: int| 0 <= j < lo ==> is_white_space(#[trigger] s@[j]),
        decreases n - lo,
    {
        lo = lo + 1;
    }
    proof {
        lemma_leading_white(s@, lo as int);
    }
    let ghost t = s@.skip(lo as int);
    let mut hi: usize = n;
    while hi > lo && white(s.get_char(hi - 1))
        invariant
            n == s@.len(),
            lo <= hi <= n,
            t == s@.skip(lo as int),
            forall|j: int| hi <= j < n ==> is_white_space(#[trigger] s@[j]),
        decreases hi,
    {
        hi = hi - 1;
    }
    proof {
        assert forall|j: int| hi - lo <= j < t.len() implies is_white_space(#[trigger] t[j]) by {
            assert(t[j] == s@[j + lo]);
        }
        if hi > lo {
            assert(t[hi - lo - 1] == s@[hi - 1]);
        }
        lemma_trailing_white(t, hi - lo);
        assert(t.take(t.len() - trailing_white(t)) =~= s@.subrange(lo as int, hi as int));
    }
    s.substring_char(lo, hi)
}

/// `std::str::from_utf8`, asked only whether it succeeds: it does exactly
/// when the bytes are valid UTF-8, as its documentation says (it returns an
/// error otherwise).
#[verifier::external_body]
pub(crate) fn is_utf8(b: &[u8]) -> (r: bool)
    ensures
        r == vstd::utf8::valid_utf8(b@),
{
    std::str::from_utf8(b).is_ok()
}

/// ASCII white space is exactly space, tab, line feed, form feed and
/// carriage return.
pub proof fn lemma_ascii_ws(b: u8)
    ensures
        is_ascii_ws(b) <==> (b == 0x20 || b == 0x09 || b == 0x0a || b == 0x0c || b == 0x0d),
{
}

proof fn lemma_leading_ws_props(s: Seq<u8>)
    ensures
        leading_ws(s) <= s.len(),
        forall|j: int| 0 <= j < leading_ws(s) ==> is_ascii_ws(#[trigger] s[j]),
        leading_ws(s) < s.len() ==> !is_ascii_ws(s[leading_ws(s) as int]),
    decreases s.len(),
{
    if s.len() > 0 && is_ascii_ws(s[0]) {
        lemma_leading_ws_props(s.drop_first());
        assert forall|j: int| 0 <= j < leading_ws(s) implies is_ascii_ws(#[trigger] s[j]) by {
            if j > 0 {
                assert(s[j] == s.drop_first()[j - 1]);
            }
        }
        if leading_ws(s) < s.len() {
            assert(s[leading_ws(s) as int] == s.drop_first()[leading_ws(s.drop_first()) as int]);
        }
    }
}

proof fn lemma_trailing_ws_props(s: Seq<u8>)
    ensures
        trailing_ws(s) <= s.len(),
        forall|j: int| s.len() - trailing_ws(s) <= j < s.len() ==> is_ascii_ws(#[trigger] s[j]),
        trailing_ws(s) < s.len() ==> !is_ascii_ws(s[s.len() - trailing_ws(s) - 1]),
    decreases s.len(),
{
    if s.len() > 0 && is_ascii_ws(s.last()) {
        let d = s.drop_last();
        lemma_trailing_ws_props(d);
        assert forall|j: int| s.len() - trailing_ws(s) <= j < s.len() implies is_ascii_ws(#[trigger] s[j]) by {
            if j < s.len() - 1 {
                assert(s[j] == d[j]);
            }
        }
        if trailing_ws(s) < s.len() {
            assert(s[s.len() - trailing_ws(s) - 1] == d[d.len() - trailing_ws(d) - 1]);
        }
    }
}

/// Trimming takes off exactly the white space at both ends: what is left is
/// a piece of `s` that neither starts nor ends with white space, and all
/// that is cut off before and after it is white space.
pub proof fn lemma_trim_ascii(s: Seq<u8>)
    ensures
        ({
            let t = trim_ascii(s);
            exists|lo: int|
                #![trigger s.subrange(lo, lo + t.len())]
                0 <= lo && lo + t.len() <= s.len() && s.subrange(lo, lo + t.len()) == t && (forall|j: int|
                    0 <= j < lo ==> is_ascii_ws(#[trigger] s[j])) && (forall|j: int|
                    lo + t.len() <= j < s.len() ==> is_ascii_ws(#[trigger] s[j]))
        }),
        trim_ascii(s).len() > 0 ==> !is_ascii_ws(trim_ascii(s)[0]) && !is_ascii_ws(trim_ascii(s).last()),
{
    lemma_leading_ws_props(s);
    let lo = leading_ws(s) as int;
    let u = s.skip(lo);
    lemma_trailing_ws_props(u);
    let t = trim_ascii(s);
    assert(t == u.take(u.len() - trailing_ws(u)));
    assert(s.subrange(lo, lo + t.len()) =~= t);
    assert forall|j: int| lo + t.len() <= j < s.len() implies is_ascii_ws(#[trigger] s[j]) by {
        assert(s[j] == u[j - lo]);
    }
    if t.len() > 0 {
        assert(t[0] == s[lo]);
        assert(t.last() == u[u.len() - trailing_ws(u) - 1]);
    }
}

/// The first position of byte `c` in `s`: no byte before it is `c`, and it
/// is `c` unless the end of `s` was reached.
pub proof fn lemma_find_byte_first(s: Seq<u8>, c: u8)
    ensures
        find_byte(s, c) <= s.len(),
        forall|j: int| 0 <= j < find_byte(s, c) ==> #[trigger] s[j] != c,
        find_byte(s, c) < s.len() ==> s[find_byte(s, c) as int] == c,
    decreases s.len(),
{
    if s.len() > 0 && s[0] != c {
        lemma_find_byte_first(s.drop_first(), c);
        assert forall|j: int| 0 <= j < find_byte(s, c) implies #[trigger] s[j] != c by {
            if j > 0 {
                assert(s[j] == s.drop_first()[j - 1]);
            }
        }
    }
}

/// The first line of `s` ends at its first line feed (byte 0x0a), or at its
/// end when it holds none.
pub proof fn lemma_newline_pos_first(s: Seq<u8>)
    ensures
        newline_pos(s) <= s.len(),
        forall|j: int| 0 <= j < newline_pos(s) ==> #[trigger] s[j] != 0x0a,
        newline_pos(s) < s.len() ==> s[newline_pos(s) as int] == 0x0a,
    decreases s.len(),
{
    if s.len() > 0 && s[0] != 0x0a {
        lemma_newline_pos_first(s.drop_first());
        assert forall|j: int| 0 <= j < newline_pos(s) implies #[trigger] s[j] != 0x0a by {
            if j > 0 {
                assert(s[j] == s.drop_first()[j - 1]);
            }
        }
    }
}

/// The byte strings of `ws`, one after another.
pub open spec fn concat(ws: Seq<Seq<u8>>) -> Seq<u8>
    decreases ws.len(),
{
    if ws.len() == 0 {
        seq![]
    } else {
        concat(ws.drop_last()) + ws.last()
    }
}

/// `s` with its spaces (byte 0x20) taken out.
pub open spec fn without_spaces(s: Seq<u8>) -> Seq<u8>
    decreases s.len(),
{
    if s.len() == 0 {
        seq![]
    } else if s.last() == 0x20 {
        without_spaces(s.drop_last())
    } else {
        without_spaces(s.drop_last()).push(s.last())
    }
}

proof fn lemma_concat_add(a: Seq<Seq<u8>>, b: Seq<Seq<u8>>)
    ensures
        concat(a + b) == concat(a) + concat(b),
    decreases b.len(),
{
    if b.len() == 0 {
        assert(a + b =~= a);
        assert(concat(a) + concat(b) =~= concat(a));
    } else {
        assert((a + b).drop_last() =~= a + b.drop_last());
        lemma_concat_add(a, b.drop_last());
        assert(concat(a + b) =~= concat(a) + concat(b));
    }
}

proof fn lemma_without_spaces_add(a: Seq<u8>, b: Seq<u8>)
    ensures
        without_spaces(a + b) == without_spaces(a) + without_spaces(b),
    decreases b.len(),
{
    if b.len() == 0 {
        assert(a + b =~= a);
        assert(without_spaces(a) + without_spaces(b) =~= without_spaces(a));
    } else {
        assert((a + b).drop_last() =~= a + b.drop_last());
        lemma_without_spaces_add(a, b.drop_last());
        if b.last() != 0x20 {
            assert(without_spaces(a + b) =~= without_spaces(a) + without_spaces(b));
        }
    }
}

proof fn lemma_without_spaces_none(s: Seq<u8>)
    requires
        forall|j: int| 0 <= j < s.len() ==> #[trigger] s[j] != 0x20,
    ensures
        without_spaces(s) == s,
    decreases s.len(),
{
    if s.len() > 0 {
        lemma_without_spaces_none(s.drop_last());
        assert(s.drop_last().push(s.last()) =~= s);
    }
}

/// The words of `s` are its pieces between spaces: none is empty, none holds
/// a space, and one after another they give back `s` without its spaces.
pub proof fn lemma_words(s: Seq<u8>)
    ensures
        forall|i: int| 0 <= i < words(s).len() ==> (#[trigger] words(s)[i]).len() > 0,
        forall|i: int, j: int| 0 <= i < words(s).len() && 0 <= j < words(s)[i].len() ==> #[trigger] words(s)[i][j] != 0x20,
        concat(words(s)) == without_spaces(s),
    decreases s.len(),
{
    lemma_find_byte_first(s, SPACE);
    let k = find_byte(s, SPACE) as int;
    let head = if k > 0 {
        seq![s.take(k)]
    } else {
        Seq::<Seq<u8>>::empty()
    };
    lemma_without_spaces_none(s.take(k));
    assert(concat(head) == s.take(k)) by {
        if k > 0 {
            assert(seq![s.take(k)].drop_last() =~= Seq::<Seq<u8>>::empty());
            assert(concat(Seq::<Seq<u8>>::empty()) + s.take(k) =~= s.take(k));
        } else {
            assert(s.take(k) =~= Seq::<u8>::empty());
        }
    }
    if k >= s.len() {
        assert(s.take(k) =~= s);
        assert(words(s) == head);
    } else {
        let rest = s.skip(k + 1);
        lemma_words(rest);
        assert(words(s) == head + words(rest));
        lemma_concat_add(head, words(rest));
        assert(s =~= s.take(k) + (seq![0x20u8] + rest));
        lemma_without_spaces_add(s.take(k), seq![0x20u8] + rest);
        lemma_without_spaces_add(seq![0x20u8], rest);
        assert(seq![0x20u8].drop_last() =~= Seq::<u8>::empty());
        assert(seq![0x20u8].last() == 0x20u8);
        assert(without_spaces(Seq::<u8>::empty()) == Seq::<u8>::empty());
        assert(without_spaces(seq![0x20u8]) == Seq::<u8>::empty());
        assert(Seq::<u8>::empty() + without_spaces(rest) =~= without_spaces(rest));
        assert forall|i: int| 0 <= i < words(s).len() implies (#[trigger] words(s)[i]).len() > 0 by {
            if i >= head.len() {
                assert(words(s)[i] == words(rest)[i - head.len()]);
            }
        }
        assert forall|i: int, j: int| 0 <= i < words(s).len() && 0 <= j < words(s)[i].len() implies #[trigger] words(
            s,
        )[i][j] != 0x20 by {
            if i >= head.len() {
                assert(words(s)[i] == words(rest)[i - head.len()]);
                assert(words(rest)[i - head.len()][j] != 0x20);
            } else {
                assert(words(s)[i] == s.take(k));
            }
        }
    }
}

/// White space, as `str::trim` takes it off, is exactly the characters
/// with Unicode's `White_Space` property: U+0009..U+000D, U+0020, U+0085,
/// U+00A0, U+1680, U+2000..U+200A, U+2028, U+2029, U+202F, U+205F and
/// U+3000.
pub proof fn lemma_white_space(c: char)
    ensures
        is_white_space(c) <==> ((0x09 <= c as u32 <= 0x0d) || c as u32 == 0x20 || c as u32 == 0x85 || c as u32
            == 0xa0 || c as u32 == 0x1680 || (0x2000 <= c as u32 <= 0x200a) || c as u32 == 0x2028 || c as u32
            == 0x2029 || c as u32 == 0x202f || c as u32 == 0x205f || c as u32 == 0x3000),
{
}

proof fn lemma_leading_white_props(s: Seq<char>)
    ensures
        leading_white(s) <= s.len(),
        forall|j: int| 0 <= j < leading_white(s) ==> is_white_space(#[trigger] s[j]),
        leading_white(s) < s.len() ==> !is_white_space(s[leading_white(s) as int]),
    decreases s.len(),
{
    if s.len() > 0 && is_white_space(s[0]) {
        lemma_leading_white_props(s.drop_first());
        assert forall|j: int| 0 <= j < leading_white(s) implies is_white_space(#[trigger] s[j]) by {
            if j > 0 {
                assert(s[j] == s.drop_first()[j - 1]);
            }
        }
        if leading_white(s) < s.len() {
            assert(s[leading_white(s) as int] == s.drop_first()[leading_white(s.drop_first()) as int]);
        }
    }
}

proof fn lemma_trailing_white_props(s: Seq<char>)
    ensures
        trailing_white(s) <= s.len(),
        forall|j: int| s.len() - trailing_white(s) <= j < s.len() ==> is_white_space(#[trigger] s[j]),
        trailing_white(s) < s.len() ==> !is_white_space(s[s.len() - trailing_white(s) - 1]),
    decreases s.len(),
{
    if s.len() > 0 && is_white_space(s.last()) {
        let d = s.drop_last();
        lemma_trailing_white_props(d);
        assert forall|j: int| s.len() - trailing_white(s) <= j < s.len() implies is_white_space(#[trigger] s[j]) by {
            if j < s.len() - 1 {
                assert(s[j] == d[j]);
            }
        }
        if trailing_white(s) < s.len() {
            assert(s[s.len() - trailing_white(s) - 1] == d[d.len() - trailing_white(d) - 1]);
        }
    }
}

/// Trimming a line takes off exactly the white space at both ends: what is
/// left is a piece of the line that neither starts nor ends with white
/// space, and all that is cut off before and after it is white space.
pub proof fn lemma_trim_white(s: Seq<char>)
    ensures
        ({
            let t = trim_white(s);
            exists|lo: int|
                #![trigger s.subrange(lo, lo + t.len())]
                0 <= lo && lo + t.len() <= s.len() && s.subrange(lo, lo + t.len()) == t && (forall|j: int|
                    0 <= j < lo ==> is_white_space(#[trigger] s[j])) && (forall|j: int|
                    lo + t.len() <= j < s.len() ==> is_white_space(#[trigger] s[j]))
        }),
        trim_white(s).len() > 0 ==> !is_white_space(trim_white(s)[0]) && !is_white_space(trim_white(s).last()),
{
    lemma_leading_white_props(s);
    let lo = leading_white(s) as int;
    let u = s.skip(lo);
    lemma_trailing_white_props(u);
    let t = trim_white(s);
    assert(t == u.take(u.len() - trailing_white(u)));
    assert(s.subrange(lo, lo + t.len()) =~= t);
    assert forall|j: int| lo + t.len() <= j < s.len() implies is_white_space(#[trigger] s[j]) by {
        assert(s[j] == u[j - lo]);
    }
    if t.len() > 0 {
        assert(t[0] == s[lo]);
        assert(t.last() == u[u.len() - trailing_white(u) - 1]);
    }
}

} // verus!
