//! Character-level primitives shared by the extractors: whitespace, word
//! characters, trimming, splitting text into lines, and the bridges between
//! `String` and `Vec<char>`.
use vstd::prelude::*;

verus! {

/// Unicode `White_Space`, the property behind `char::is_whitespace`.
pub open spec fn is_white(c: char) -> bool {
    let n = c as u32;
    (0x9 <= n && n <= 0xd) || n == 0x20 || n == 0x85 || n == 0xa0 || n == 0x1680 || (0x2000 <= n
        && n <= 0x200a) || n == 0x2028 || n == 0x2029 || n == 0x202f || n == 0x205f || n == 0x3000
}

pub fn is_whitespace_char(c: char) -> (r: bool)
    ensures
        r == is_white(c),
{
    let n = c as u32;
    (0x9 <= n && n <= 0xd) || n == 0x20 || n == 0x85 || n == 0xa0 || n == 0x1680 || (0x2000 <= n
        && n <= 0x200a) || n == 0x2028 || n == 0x2029 || n == 0x202f || n == 0x205f || n == 0x3000
}

/// Whether std classifies `c` as alphabetic or numeric.
pub uninterp spec fn alnum(c: char) -> bool;

/// Relies on `char::is_alphanumeric`, which depends on the character alone.
#[verifier::external_body]
pub(crate) fn is_alnum(c: char) -> (r: bool)
    ensures
        r == alnum(c),
{
    c.is_alphanumeric()
}

/// A character that `\w` accepts in a tag name.
pub open spec fn is_word(c: char) -> bool {
    alnum(c) || c == '_'
}

pub fn is_word_char(c: char) -> (r: bool)
    ensures
        r == is_word(c),
{
    c == '_' || is_alnum(c)
}

/// What `str::to_lowercase` makes of a string.
pub uninterp spec fn lower_of(s: Seq<char>) -> Seq<char>;

/// Relies on `str::to_lowercase`: the result depends on the characters alone,
/// and the empty string stays empty.
#[verifier::external_body]
pub(crate) fn to_lower(s: &str) -> (r: String)
    ensures
        r@ == lower_of(s@),
        s@.len() == 0 ==> r@.len() == 0,
{
    s.to_lowercase()
}

/// The characters of `s`, in order.
pub fn chars_of(s: &str) -> (r: Vec<char>)
    ensures
        r@ == s@,
{
    broadcast use vstd::string::group_string_axioms;

    let mut v: Vec<char> = Vec::new();
    for c in it: s.chars()
        invariant
            v@ == it.seq().take(it.index() as int),
    {
        v.push(c);
        assert(v@ =~= it.seq().take(it.index() as int + 1));
    }
    assert(v@ =~= s@);
    v
}

/// Relies on `String::from_iter` over `&char`: the string of these
/// characters, in order.
#[verifier::external_body]
pub(crate) fn string_of(v: &[char]) -> (r: String)
    ensures
        r@ == v@,
{
    String::from_iter(v)
}

pub open spec fn trim_start(s: Seq<char>) -> Seq<char>
    decreases s.len(),
{
    if s.len() > 0 && is_white(s[0]) {
        trim_start(s.drop_first())
    } else {
        s
    }
}

pub open spec fn trim_end(s: Seq<char>) -> Seq<char>
    decreases s.len(),
{
    if s.len() > 0 && is_white(s.last()) {
        trim_end(s.drop_last())
    } else {
        s
    }
}

/// `str::trim`: whitespace removed from both ends.
pub open spec fn trim(s: Seq<char>) -> Seq<char> {
    trim_end(trim_start(s))
}

/// The characters `v[lo..hi]`, trimmed.
pub fn trimmed(v: &Vec<char>, lo: usize, hi: usize) -> (r: Vec<char>)
    requires
        lo <= hi <= v@.len(),
    ensures
        r@ == trim(v@.subrange(lo as int, hi as int)),
{
    let mut a: usize = lo;
    while a < hi && is_whitespace_char(v[a])
        invariant
            lo <= a <= hi <= v@.len(),
            trim_start(v@.subrange(lo as int, hi as int)) == trim_start(
                v@.subrange(a as int, hi as int),
            ),
        decreases hi - a,
    {
        assert(v@.subrange(a as int, hi as int).drop_first() =~= v@.subrange(
            a as int + 1,
            hi as int,
        ));
        a = a + 1;
    }
    let mut b: usize = hi;
    while b > a && is_whitespace_char(v[b - 1])
        invariant
            lo <= a <= b <= hi <= v@.len(),
            trim_end(v@.subrange(a as int, hi as int)) == trim_end(
                v@.subrange(a as int, b as int),
            ),
        decreases b - a,
    {
        assert(v@.subrange(a as int, b as int).drop_last() =~= v@.subrange(
            a as int,
            b as int - 1,
        ));
        b = b - 1;
    }
    slice_of(v, a, b)
}

/// The characters `v[lo..hi]`.
pub fn slice_of(v: &Vec<char>, lo: usize, hi: usize) -> (r: Vec<char>)
    requires
        lo <= hi <= v@.len(),
    ensures
        r@ == v@.subrange(lo as int, hi as int),
{
    let mut out: Vec<char> = Vec::new();
    let mut i: usize = lo;
    while i < hi
        invariant
            lo <= i <= hi <= v@.len(),
            out@ == v@.subrange(lo as int, i as int),
        decreases hi - i,
    {
        out.push(v[i]);
        assert(out@ =~= v@.subrange(lo as int, i as int + 1));
        i = i + 1;
    }
    out
}

/// A line that a newline ends, as `str::lines` hands it out: one carriage
/// return before the newline dropped.
pub open spec fn strip_cr(l: Seq<char>) -> Seq<char> {
    if l.len() > 0 && l.last() == '\r' {
        l.drop_last()
    } else {
        l
    }
}

/// The lines of `s[start..]` as `str::lines` yields them, where the line that
/// is being read began at `start` and the scan stands at `i`: every newline
/// closes a line, dropping one carriage return before it, and a last line
/// without a newline counts, as it is, when it is not empty.
pub open spec fn lines_acc(s: Seq<char>, i: int, start: int) -> Seq<Seq<char>>
    decreases s.len() - i,
{
    if i >= s.len() {
        if start < s.len() {
            seq![s.subrange(start, s.len() as int)]
        } else {
            Seq::empty()
        }
    } else if s[i] == '\n' {
        seq![strip_cr(s.subrange(start, i))] + lines_acc(s, i + 1, i + 1)
    } else {
        lines_acc(s, i + 1, start)
    }
}

pub open spec fn lines_of(s: Seq<char>) -> Seq<Seq<char>> {
    lines_acc(s, 0, 0)
}

pub open spec fn views(v: Seq<Vec<char>>) -> Seq<Seq<char>> {
    v.map_values(|l: Vec<char>| l@)
}

fn line_piece(v: &Vec<char>, lo: usize, hi: usize) -> (r: Vec<char>)
    requires
        lo <= hi <= v@.len(),
    ensures
        r@ == strip_cr(v@.subrange(lo as int, hi as int)),
{
    if hi > lo && v[hi - 1] == '\r' {
        assert(v@.subrange(lo as int, hi as int).drop_last() =~= v@.subrange(
            lo as int,
            hi as int - 1,
        ));
        slice_of(v, lo, hi - 1)
    } else {
        slice_of(v, lo, hi)
    }
}

/// Splits text into its lines.
pub fn split_lines(v: &Vec<char>) -> (r: Vec<Vec<char>>)
    ensures
        views(r@) == lines_of(v@),
{
    let mut out: Vec<Vec<char>> = Vec::new();
    let mut start: usize = 0;
    let mut i: usize = 0;
    while i < v.len()
        invariant
            start <= i <= v@.len(),
            views(out@) + lines_acc(v@, i as int, start as int) == lines_of(v@),
        decreases v@.len() - i,
    {
        if v[i] == '\n' {
            let piece = line_piece(v, start, i);
            proof {
                assert(views(out@.push(piece)) =~= views(out@) + seq![piece@]);
                assert(views(out@) + lines_acc(v@, i as int, start as int) =~= views(
                    out@.push(piece),
                ) + lines_acc(v@, i as int + 1, i as int + 1));
            }
            out.push(piece);
            start = i + 1;
        }
        i = i + 1;
    }
    if start < v.len() {
        let piece = slice_of(v, start, v.len());
        proof {
            assert(views(out@.push(piece)) =~= views(out@) + seq![piece@]);
        }
        out.push(piece);
    } else {
        assert(views(out@) + lines_acc(v@, i as int, start as int) =~= views(out@));
    }
    out
}

/// Text order: character by character by code point, a prefix first.
pub open spec fn text_le(a: Seq<char>, b: Seq<char>) -> bool
    decreases a.len(),
{
    if a.len() == 0 {
        true
    } else if b.len() == 0 {
        false
    } else if (a[0] as u32) < (b[0] as u32) {
        true
    } else if (a[0] as u32) > (b[0] as u32) {
        false
    } else {
        text_le(a.drop_first(), b.drop_first())
    }
}

pub proof fn lemma_text_le_total(a: Seq<char>, b: Seq<char>)
    ensures
        text_le(a, b) || text_le(b, a),
    decreases a.len(),
{
    if a.len() > 0 && b.len() > 0 && a[0] as u32 == b[0] as u32 {
        lemma_text_le_total(a.drop_first(), b.drop_first());
    }
}

/// Compares two texts in text order.
pub fn text_le_exec(a: &String, b: &String) -> (r: bool)
    ensures
        r == text_le(a@, b@),
{
    let x = chars_of(a.as_str());
    let y = chars_of(b.as_str());
    let mut i: usize = 0;
    assert(x@.skip(0) =~= x@);
    assert(y@.skip(0) =~= y@);
    while i < x.len() && i < y.len() && (x[i] as u32) == (y[i] as u32)
        invariant
            x@ == a@,
            y@ == b@,
            i <= x@.len() && i <= y@.len(),
            text_le(x@, y@) == text_le(x@.skip(i as int), y@.skip(i as int)),
        decreases x@.len() - i,
    {
        assert(x@.skip(i as int).drop_first() =~= x@.skip(i as int + 1));
        assert(y@.skip(i as int).drop_first() =~= y@.skip(i as int + 1));
        i = i + 1;
    }
    if i == x.len() {
        assert(x@.skip(i as int).len() == 0);
        true
    } else if i == y.len() {
        assert(y@.skip(i as int).len() == 0);
        false
    } else {
        assert(x@.skip(i as int)[0] == x@[i as int]);
        assert(y@.skip(i as int)[0] == y@[i as int]);
        (x[i] as u32) < (y[i] as u32)
    }
}

// ---------------------------------------------------------------- substrings

/// `q` occurs in `s` at `i`.
pub open spec fn occurs_at(s: Seq<char>, q: Seq<char>, i: int) -> bool {
    0 <= i && i + q.len() <= s.len() && s.subrange(i, i + q.len()) == q
}

pub open spec fn occurs_in(s: Seq<char>, q: Seq<char>) -> bool {
    exists|i: int| occurs_at(s, q, i)
}

/// The starts of the matches of `q` in `s[i..]`, left to right without
/// overlap.
pub open spec fn matches_from(s: Seq<char>, q: Seq<char>, i: int) -> Seq<int>
    decreases s.len() - i,
{
    if i < 0 || q.len() == 0 || i + q.len() > s.len() {
        Seq::empty()
    } else if occurs_at(s, q, i) {
        seq![i] + matches_from(s, q, i + q.len())
    } else {
        matches_from(s, q, i + 1)
    }
}

pub(crate) fn occurs_here(s: &Vec<char>, q: &Vec<char>, i: usize) -> (r: bool)
    requires
        i + q@.len() <= s@.len(),
    ensures
        r == occurs_at(s@, q@, i as int),
{
    let _n = s.len();
    let mut k: usize = 0;
    while k < q.len()
        invariant
            k <= q@.len(),
            i + q@.len() <= s@.len() <= usize::MAX,
            forall|m: int| 0 <= m < k ==> s@[i + m] == q@[m],
        decreases q@.len() - k,
    {
        if s[i + k] != q[k] {
            assert(s@.subrange(i as int, i + q@.len())[k as int] != q@[k as int]);
            return false;
        }
        k = k + 1;
    }
    assert(s@.subrange(i as int, i + q@.len()) =~= q@);
    true
}

/// Whether `q` occurs in `s`.
pub fn occurs(s: &Vec<char>, q: &Vec<char>) -> (r: bool)
    ensures
        r == occurs_in(s@, q@),
{
    if q.len() > s.len() {
        return false;
    }
    if q.len() == 0 {
        assert(s@.subrange(0, 0) =~= q@);
        assert(occurs_at(s@, q@, 0));
        return true;
    }
    let last = s.len() - q.len();
    let mut i: usize = 0;
    while i <= last
        invariant
            last == s@.len() - q@.len(),
            0 < q@.len() <= s@.len() <= usize::MAX,
            i <= last + 1,
            forall|m: int| 0 <= m < i ==> !occurs_at(s@, q@, m),
        decreases last + 1 - i,
    {
        if occurs_here(s, q, i) {
            return true;
        }
        i = i + 1;
    }
    false
}

/// How many times `q` occurs in `s`, counted left to right without overlap.
pub fn count_matches(s: &Vec<char>, q: &Vec<char>) -> (r: usize)
    requires
        q@.len() > 0,
    ensures
        r == matches_from(s@, q@, 0).len(),
{
    let mut count: usize = 0;
    let mut start: usize = 0;
    while start < s.len() && q.len() <= s.len() - start
        invariant
            q@.len() > 0,
            start <= s@.len(),
            count <= start,
            count + matches_from(s@, q@, start as int).len() == matches_from(s@, q@, 0).len(),
        decreases s@.len() - start,
    {
        if occurs_here(s, q, start) {
            count = count + 1;
            start = start + q.len();
        } else {
            start = start + 1;
        }
    }
    count
}

// ---------------------------------------------------------------- words

/// The words of `s[i..]`: the maximal runs of characters that are not
/// whitespace. `start` is negative between words, and otherwise the index
/// where the word being read begins.
pub open spec fn words_scan(s: Seq<char>, i: int, start: int) -> Seq<Seq<char>>
    decreases s.len() - i,
{
    if i < 0 {
        Seq::empty()
    } else if i >= s.len() {
        if 0 <= start <= s.len() {
            seq![s.subrange(start, s.len() as int)]
        } else {
            Seq::empty()
        }
    } else if is_white(s[i]) {
        (if 0 <= start <= i {
            seq![s.subrange(start, i)]
        } else {
            Seq::<Seq<char>>::empty()
        }) + words_scan(s, i + 1, -1)
    } else if start >= 0 {
        words_scan(s, i + 1, start)
    } else {
        words_scan(s, i + 1, i)
    }
}

pub open spec fn words_of(s: Seq<char>) -> Seq<Seq<char>> {
    words_scan(s, 0, -1)
}

/// Splits text into its words.
pub fn split_words(s: &Vec<char>) -> (r: Vec<Vec<char>>)
    ensures
        views(r@) == words_of(s@),
{
    let mut out: Vec<Vec<char>> = Vec::new();
    let mut start: usize = 0;
    let mut inside = false;
    let mut i: usize = 0;
    while i < s.len()
        invariant
            i <= s@.len(),
            inside ==> start <= i,
            views(out@) + words_scan(s@, i as int, if inside { start as int } else { -1 })
                == words_of(s@),
        decreases s@.len() - i,
    {
        if is_whitespace_char(s[i]) {
            if inside {
                let w = slice_of(s, start, i);
                proof {
                    assert(views(out@.push(w)) =~= views(out@) + seq![w@]);
                    assert(views(out@) + (seq![w@] + words_scan(s@, i + 1, -1)) =~= views(
                        out@.push(w),
                    ) + words_scan(s@, i + 1, -1));
                }
                out.push(w);
                inside = false;
            } else {
                assert(views(out@) + (Seq::<Seq<char>>::empty() + words_scan(s@, i + 1, -1))
                    =~= views(out@) + words_scan(s@, i + 1, -1));
            }
        } else if !inside {
            inside = true;
            start = i;
        }
        i = i + 1;
    }
    if inside {
        let w = slice_of(s, start, s.len());
        proof {
            assert(views(out@.push(w)) =~= views(out@) + seq![w@]);
        }
        out.push(w);
    } else {
        assert(views(out@) + words_scan(s@, i as int, -1) =~= views(out@));
    }
    out
}

} // verus!
