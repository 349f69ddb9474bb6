//! The extractor: wikilinks, hashtags, checkbox todos and headings, read from
//! note text by the grammar of each.
use vstd::prelude::*;

use crate::text::{
    is_white, is_word, is_word_char, is_whitespace_char, chars_of, string_of, lines_of, views,
    split_lines, trim, trimmed, slice_of, lower_of, to_lower, alnum, is_alnum,
};

verus! {

// ---------------------------------------------------------------- wikilinks

/// The targets of `[[target]]` in `s[i..]`, read left to right without
/// overlap. `start` is negative outside a link, and otherwise the index where
/// the target of the link being read begins. A target is one or more
/// characters other than `]`; it ends at the first `]`, which must be
/// followed by a second one.
pub open spec fn links_scan(s: Seq<char>, i: int, start: int) -> Seq<Seq<char>>
    decreases s.len() - i,
{
    if i >= s.len() || i < 0 {
        Seq::empty()
    } else if start < 0 {
        if s[i] == '[' && i + 1 < s.len() && s[i + 1] == '[' {
            links_scan(s, i + 2, i + 2)
        } else {
            links_scan(s, i + 1, -1)
        }
    } else if s[i] == ']' {
        if i > start && i + 1 < s.len() && s[i + 1] == ']' {
            seq![s.subrange(start, i)] + links_scan(s, i + 2, -1)
        } else {
            links_scan(s, i + 1, -1)
        }
    } else {
        links_scan(s, i + 1, start)
    }
}

/// The link targets of a text, in order, duplicates kept.
pub open spec fn links_in(s: Seq<char>) -> Seq<Seq<char>> {
    links_scan(s, 0, -1)
}

pub open spec fn string_views(v: Seq<String>) -> Seq<Seq<char>> {
    v.map_values(|x: String| x@)
}

/// Finds every `[[target]]` in `content`, in order, duplicates kept; a
/// `#fragment` stays part of the target.
pub fn extract_links(content: &str) -> (r: Vec<String>)
    ensures
        string_views(r@) == links_in(content@),
{
    let s = chars_of(content);
    let mut out: Vec<String> = Vec::new();
    let mut i: usize = 0;
    let mut start: usize = 0;
    let mut inside = false;
    while i < s.len()
        invariant
            i <= s@.len() + 1,
            s@ == content@,
            inside ==> start <= i,
            string_views(out@) + links_scan(s@, i as int, if inside { start as int } else { -1 })
                == links_in(content@),
        decreases s@.len() + 1 - i,
    {
        if !inside {
            if s[i] == '[' && i + 1 < s.len() && s[i + 1] == '[' {
                inside = true;
                start = i + 2;
                i = i + 2;
            } else {
                i = i + 1;
            }
        } else if s[i] == ']' {
            if i > start && i + 1 < s.len() && s[i + 1] == ']' {
                let piece = slice_of(&s, start, i);
                let t = string_of(piece.as_slice());
                proof {
                    assert(string_views(out@.push(t)) =~= string_views(out@) + seq![t@]);
                    assert(seq![s@.subrange(start as int, i as int)] + links_scan(
                        s@,
                        i + 2,
                        -1,
                    ) =~= seq![t@] + links_scan(s@, i + 2, -1));
                }
                out.push(t);
                inside = false;
                i = i + 2;
            } else {
                inside = false;
                i = i + 1;
            }
        } else {
            i = i + 1;
        }
    }
    assert(string_views(out@) =~= string_views(out@) + links_scan(
        s@,
        i as int,
        if inside { start as int } else { -1 },
    ));
    out
}

// ---------------------------------------------------------------- hashtags

/// The names of `#name` in `s[i..]`, read left to right; a name is a maximal
/// run of word characters. `start` is negative outside a tag, and otherwise
/// the index where the name being read begins.
pub open spec fn tags_scan(s: Seq<char>, i: int, start: int) -> Seq<Seq<char>>
    decreases s.len() - i,
{
    if i < 0 {
        Seq::empty()
    } else if i >= s.len() {
        if 0 <= start <= s.len() {
            seq![s.subrange(start, s.len() as int)]
        } else {
            Seq::empty()
        }
    } else if start >= 0 && is_word(s[i]) {
        tags_scan(s, i + 1, start)
    } else {
        let done: Seq<Seq<char>> = if 0 <= start <= i {
            seq![s.subrange(start, i)]
        } else {
            Seq::empty()
        };
        if s[i] == '#' && i + 1 < s.len() && is_word(s[i + 1]) {
            done + tags_scan(s, i + 2, i + 1)
        } else {
            done + tags_scan(s, i + 1, -1)
        }
    }
}

/// The tag names of a text, in order, duplicates kept.
pub open spec fn tags_in(s: Seq<char>) -> Seq<Seq<char>> {
    tags_scan(s, 0, -1)
}

/// Finds every `#name` in `content`, in order, duplicates kept.
pub fn extract_tags(content: &str) -> (r: Vec<String>)
    ensures
        string_views(r@) == tags_in(content@),
{
    let s = chars_of(content);
    let mut out: Vec<String> = Vec::new();
    let mut i: usize = 0;
    let mut start: usize = 0;
    let mut inside = false;
    while i < s.len()
        invariant
            i <= s@.len() + 1,
            s@ == content@,
            inside ==> start <= i <= s@.len(),
            string_views(out@) + tags_scan(s@, i as int, if inside { start as int } else { -1 })
                == tags_in(content@),
        decreases s@.len() + 1 - i,
    {
        let c = s[i];
        if inside && is_word_char(c) {
            i = i + 1;
        } else {
            let ghost before = string_views(out@);
            let ghost st: int = if inside { start as int } else { -1 };
            let ghost done: Seq<Seq<char>> = if 0 <= st <= i {
                seq![s@.subrange(st, i as int)]
            } else {
                Seq::empty()
            };
            if inside {
                let piece = slice_of(&s, start, i);
                let t = string_of(piece.as_slice());
                proof {
                    assert(string_views(out@.push(t)) =~= string_views(out@) + seq![t@]);
                }
                out.push(t);
                inside = false;
            }
            assert(string_views(out@) =~= before + done);
            if c == '#' && i + 1 < s.len() && is_word_char(s[i + 1]) {
                proof {
                    assert(before + (done + tags_scan(s@, i + 2, i + 1)) =~= string_views(out@)
                        + tags_scan(s@, i + 2, i + 1));
                }
                inside = true;
                start = i + 1;
                i = i + 2;
            } else {
                proof {
                    assert(before + (done + tags_scan(s@, i + 1, -1)) =~= string_views(out@)
                        + tags_scan(s@, i + 1, -1));
                }
                i = i + 1;
            }
        }
    }
    if inside {
        let piece = slice_of(&s, start, s.len());
        let t = string_of(piece.as_slice());
        proof {
            assert(string_views(out@.push(t)) =~= string_views(out@) + seq![t@]);
        }
        out.push(t);
    } else {
        assert(string_views(out@) =~= string_views(out@) + tags_scan(s@, i as int, -1));
    }
    out
}

// ---------------------------------------------------------------- headings

/// The slug of `s`, where `pending` tells whether separators were read since
/// the last kept character and `started` whether one was kept: every
/// alphanumeric character is kept, and a run of other characters between two
/// kept ones becomes one hyphen.
pub open spec fn slug_rec(s: Seq<char>, pending: bool, started: bool) -> Seq<char>
    decreases s.len(),
{
    if s.len() == 0 {
        Seq::empty()
    } else if alnum(s[0]) {
        let sep: Seq<char> = if pending && started {
            seq!['-']
        } else {
            Seq::empty()
        };
        sep + seq![s[0]] + slug_rec(s.drop_first(), false, true)
    } else {
        slug_rec(s.drop_first(), true, started)
    }
}

/// The alphanumeric runs of `s` joined by single hyphens.
pub open spec fn slug(s: Seq<char>) -> Seq<char> {
    slug_rec(s, false, false)
}

/// The block id of a heading: its text lowercased, then slugged.
pub open spec fn block_id_of(heading: Seq<char>) -> Seq<char> {
    slug(lower_of(heading))
}

/// Slugs text that is already lowercased.
pub fn slug_of_lowered(s: &Vec<char>) -> (r: Vec<char>)
    ensures
        r@ == slug(s@),
{
    let mut out: Vec<char> = Vec::new();
    let mut pending = false;
    let mut started = false;
    let mut i: usize = 0;
    assert(s@.subrange(0, s@.len() as int) =~= s@);
    assert(out@ + slug_rec(s@.subrange(0, s@.len() as int), false, false) =~= slug(s@));
    while i < s.len()
        invariant
            i <= s@.len(),
            out@ + slug_rec(s@.subrange(i as int, s@.len() as int), pending, started) == slug(s@),
        decreases s@.len() - i,
    {
        let c = s[i];
        let ghost rest = s@.subrange(i as int, s@.len() as int);
        assert(rest.drop_first() =~= s@.subrange(i as int + 1, s@.len() as int));
        if is_alnum(c) {
            let ghost before = out@;
            if pending && started {
                out.push('-');
            }
            out.push(c);
            proof {
                let sep: Seq<char> = if pending && started {
                    seq!['-']
                } else {
                    Seq::empty()
                };
                assert(out@ =~= before + sep + seq![c]);
                assert(before + (sep + seq![c] + slug_rec(rest.drop_first(), false, true))
                    =~= out@ + slug_rec(rest.drop_first(), false, true));
            }
            pending = false;
            started = true;
        } else {
            pending = true;
        }
        i = i + 1;
    }
    assert(s@.subrange(i as int, s@.len() as int) =~= Seq::<char>::empty());
    assert(out@ =~= out@ + slug_rec(Seq::<char>::empty(), pending, started));
    out
}

/// Turns heading text into its block id.
pub fn slugify(heading: &str) -> (r: String)
    ensures
        r@ == block_id_of(heading@),
{
    let lowered = to_lower(heading);
    let cs = chars_of(lowered.as_str());
    let sl = slug_of_lowered(&cs);
    string_of(sl.as_slice())
}

/// The index of the first character at or after `i` that is not `#`.
pub open spec fn hashes_end(l: Seq<char>, i: int) -> int
    decreases l.len() - i,
{
    if 0 <= i < l.len() && l[i] == '#' {
        hashes_end(l, i + 1)
    } else {
        i
    }
}

/// The heading text of a line that reads one to six `#`, whitespace, and at
/// least one more character; trimmed.
pub open spec fn heading_of(l: Seq<char>) -> Option<Seq<char>> {
    let h = hashes_end(l, 0);
    if 1 <= h <= 6 && h + 1 < l.len() && is_white(l[h]) {
        Some(trim(l.subrange(h, l.len() as int)))
    } else {
        None
    }
}

pub open spec fn opt_view(o: Option<Vec<char>>) -> Option<Seq<char>> {
    match o {
        Some(v) => Some(v@),
        None => None,
    }
}

pub fn match_heading(l: &Vec<char>) -> (r: Option<Vec<char>>)
    ensures
        opt_view(r) == heading_of(l@),
{
    let mut h: usize = 0;
    while h < l.len() && l[h] == '#'
        invariant
            h <= l@.len(),
            hashes_end(l@, 0) == hashes_end(l@, h as int),
        decreases l@.len() - h,
    {
        h = h + 1;
    }
    if 1 <= h && h <= 6 && h + 1 < l.len() && is_whitespace_char(l[h]) {
        Some(trimmed(l, h, l.len()))
    } else {
        None
    }
}

/// A heading as the index holds it: block id, line number (from one), text.
pub struct Heading {
    pub block_id: String,
    pub line_number: usize,
    pub content: String,
}

impl View for Heading {
    type V = (Seq<char>, int, Seq<char>);

    open spec fn view(&self) -> Self::V {
        (self.block_id@, self.line_number as int, self.content@)
    }
}

/// The headings of the lines `lines[n..]`, where `lines[n]` is line `n + 1`.
pub open spec fn headings_from(lines: Seq<Seq<char>>, n: int) -> Seq<(Seq<char>, int, Seq<char>)>
    decreases lines.len() - n,
{
    if n < 0 || n >= lines.len() {
        Seq::empty()
    } else {
        match heading_of(lines[n]) {
            Some(t) => seq![(block_id_of(t), n + 1, t)] + headings_from(lines, n + 1),
            None => headings_from(lines, n + 1),
        }
    }
}

pub open spec fn headings_in(s: Seq<char>) -> Seq<(Seq<char>, int, Seq<char>)> {
    headings_from(lines_of(s), 0)
}

pub open spec fn heading_views(v: Seq<Heading>) -> Seq<(Seq<char>, int, Seq<char>)> {
    v.map_values(|h: Heading| h@)
}

/// Every markdown heading of `content`, with its block id and line number.
pub fn extract_blocks(content: &str) -> (r: Vec<Heading>)
    ensures
        heading_views(r@) == headings_in(content@),
{
    let s = chars_of(content);
    let lines = split_lines(&s);
    let mut out: Vec<Heading> = Vec::new();
    let mut n: usize = 0;
    while n < lines.len()
        invariant
            n <= lines@.len(),
            views(lines@) == lines_of(content@),
            heading_views(out@) + headings_from(views(lines@), n as int) == headings_in(content@),
        decreases lines@.len() - n,
    {
        let ghost ls = views(lines@);
        assert(ls[n as int] == lines@[n as int]@);
        match match_heading(&lines[n]) {
            Some(t) => {
                let text = string_of(t.as_slice());
                let id = slugify(text.as_str());
                let h = Heading { block_id: id, line_number: n + 1, content: text };
                proof {
                    assert(heading_views(out@.push(h)) =~= heading_views(out@) + seq![h@]);
                    assert(heading_views(out@) + (seq![h@] + headings_from(ls, n + 1)) =~= 
                        heading_views(out@.push(h)) + headings_from(ls, n + 1));
                }
                out.push(h);
            },
            None => {},
        }
        n = n + 1;
    }
    assert(heading_views(out@) =~= heading_views(out@) + headings_from(views(lines@), n as int));
    out
}

// ---------------------------------------------------------------- todos

/// Whether `s[i]` exists and is `c`.
pub open spec fn ch(s: Seq<char>, i: int, c: char) -> bool {
    0 <= i < s.len() && s[i] == c
}

fn ch_at(s: &Vec<char>, i: usize, c: char) -> (r: bool)
    ensures
        r == ch(s@, i as int, c),
{
    i < s.len() && s[i] == c
}

pub open spec fn digit(s: Seq<char>, i: int) -> bool {
    0 <= i < s.len() && '0' <= s[i] <= '9'
}

fn digit_at(s: &Vec<char>, i: usize) -> (r: bool)
    ensures
        r == digit(s@, i as int),
{
    i < s.len() && '0' <= s[i] && s[i] <= '9'
}

/// The index of the first character at or after `i` that is not whitespace.
pub open spec fn skip_ws(s: Seq<char>, i: int) -> int
    decreases s.len() - i,
{
    if 0 <= i < s.len() && is_white(s[i]) {
        skip_ws(s, i + 1)
    } else {
        i
    }
}

pub(crate) fn skip_ws_from(s: &Vec<char>, i: usize) -> (r: usize)
    requires
        i <= s@.len(),
    ensures
        r == skip_ws(s@, i as int),
        i <= r <= s@.len(),
{
    let mut j: usize = i;
    while j < s.len() && is_whitespace_char(s[j])
        invariant
            i <= j <= s@.len(),
            skip_ws(s@, i as int) == skip_ws(s@, j as int),
        decreases s@.len() - j,
    {
        j = j + 1;
    }
    j
}

/// A date `YYYY-MM-DD` starts at `j`.
pub open spec fn date_at(s: Seq<char>, j: int) -> bool {
    digit(s, j) && digit(s, j + 1) && digit(s, j + 2) && digit(s, j + 3) && ch(s, j + 4, '-')
        && digit(s, j + 5) && digit(s, j + 6) && ch(s, j + 7, '-') && digit(s, j + 8) && digit(
        s,
        j + 9,
    )
}

pub(crate) fn date_starts(s: &Vec<char>, j: usize) -> (r: bool)
    ensures
        r == date_at(s@, j as int),
{
    let n = s.len();
    if j > n || n - j < 10 {
        return false;
    }
    digit_at(s, j) && digit_at(s, j + 1) && digit_at(s, j + 2) && digit_at(s, j + 3) && ch_at(
        s,
        j + 4,
        '-',
    ) && digit_at(s, j + 5) && digit_at(s, j + 6) && ch_at(s, j + 7, '-') && digit_at(s, j + 8)
        && digit_at(s, j + 9)
}

/// The due date of a match of `@due(DATE`, `due:DATE` or a calendar emoji,
/// whitespace and `DATE` that starts at `i`.
pub open spec fn due_at(s: Seq<char>, i: int) -> Option<Seq<char>> {
    if ch(s, i, '@') && ch(s, i + 1, 'd') && ch(s, i + 2, 'u') && ch(s, i + 3, 'e') && ch(
        s,
        i + 4,
        '(',
    ) && date_at(s, i + 5) {
        Some(s.subrange(i + 5, i + 15))
    } else if ch(s, i, 'd') && ch(s, i + 1, 'u') && ch(s, i + 2, 'e') && ch(s, i + 3, ':')
        && date_at(s, i + 4) {
        Some(s.subrange(i + 4, i + 14))
    } else if ch(s, i, '\u{1F4C5}') && date_at(s, skip_ws(s, i + 1)) {
        Some(s.subrange(skip_ws(s, i + 1), skip_ws(s, i + 1) + 10))
    } else {
        None
    }
}

/// The priority word of a match of `!high`, `!medium`, `!low`, `p:1`, `p:2`
/// or `p:3` that starts at `i`.
pub open spec fn priority_at(s: Seq<char>, i: int) -> Option<Seq<char>> {
    if ch(s, i, '!') && ch(s, i + 1, 'h') && ch(s, i + 2, 'i') && ch(s, i + 3, 'g') && ch(
        s,
        i + 4,
        'h',
    ) {
        Some(seq!['h', 'i', 'g', 'h'])
    } else if ch(s, i, '!') && ch(s, i + 1, 'm') && ch(s, i + 2, 'e') && ch(s, i + 3, 'd') && ch(
        s,
        i + 4,
        'i',
    ) && ch(s, i + 5, 'u') && ch(s, i + 6, 'm') {
        Some(seq!['m', 'e', 'd', 'i', 'u', 'm'])
    } else if ch(s, i, '!') && ch(s, i + 1, 'l') && ch(s, i + 2, 'o') && ch(s, i + 3, 'w') {
        Some(seq!['l', 'o', 'w'])
    } else if ch(s, i, 'p') && ch(s, i + 1, ':') && ch(s, i + 2, '1') {
        Some(seq!['h', 'i', 'g', 'h'])
    } else if ch(s, i, 'p') && ch(s, i + 1, ':') && ch(s, i + 2, '2') {
        Some(seq!['m', 'e', 'd', 'i', 'u', 'm'])
    } else if ch(s, i, 'p') && ch(s, i + 1, ':') && ch(s, i + 2, '3') {
        Some(seq!['l', 'o', 'w'])
    } else {
        None
    }
}

/// The index of the first `)` at or after `k`, or the length.
pub open spec fn paren_close(s: Seq<char>, k: int) -> int
    decreases s.len() - k,
{
    if 0 <= k < s.len() && s[k] != ')' {
        paren_close(s, k + 1)
    } else {
        k
    }
}

/// The pattern, as written, of a match of `@every(PATTERN)` or
/// `@repeat(PATTERN)` that starts at `i`; the pattern is one or more
/// characters other than `)`.
pub open spec fn recurrence_at(s: Seq<char>, i: int) -> Option<Seq<char>> {
    let open_end = if ch(s, i, '@') && ch(s, i + 1, 'e') && ch(s, i + 2, 'v') && ch(s, i + 3, 'e')
        && ch(s, i + 4, 'r') && ch(s, i + 5, 'y') && ch(s, i + 6, '(') {
        i + 7
    } else if ch(s, i, '@') && ch(s, i + 1, 'r') && ch(s, i + 2, 'e') && ch(s, i + 3, 'p') && ch(
        s,
        i + 4,
        'e',
    ) && ch(s, i + 5, 'a') && ch(s, i + 6, 't') && ch(s, i + 7, '(') {
        i + 8
    } else {
        -1
    };
    if open_end >= 0 && paren_close(s, open_end) > open_end && paren_close(s, open_end) < s.len() {
        Some(s.subrange(open_end, paren_close(s, open_end)))
    } else {
        None
    }
}

/// The kinds of inline metadata of a todo.
pub enum Meta {
    Due,
    Priority,
    Recurrence,
}

pub open spec fn meta_at(kind: Meta, s: Seq<char>, i: int) -> Option<Seq<char>> {
    match kind {
        Meta::Due => due_at(s, i),
        Meta::Priority => priority_at(s, i),
        Meta::Recurrence => recurrence_at(s, i),
    }
}

/// The leftmost match of a kind of metadata in `s[i..]`.
pub open spec fn meta_from(kind: Meta, s: Seq<char>, i: int) -> Option<Seq<char>>
    decreases s.len() - i,
{
    if i < 0 || i >= s.len() {
        None
    } else {
        match meta_at(kind, s, i) {
            Some(m) => Some(m),
            None => meta_from(kind, s, i + 1),
        }
    }
}

pub open spec fn meta_in(kind: Meta, s: Seq<char>) -> Option<Seq<char>> {
    meta_from(kind, s, 0)
}

fn due_at_exec(s: &Vec<char>, i: usize) -> (r: Option<Vec<char>>)
    requires
        i < s@.len(),
    ensures
        opt_view(r) == due_at(s@, i as int),
{
    if s.len() - i >= 5 && ch_at(s, i, '@') && ch_at(s, i + 1, 'd') && ch_at(s, i + 2, 'u')
        && ch_at(s, i + 3, 'e') && ch_at(s, i + 4, '(') && date_starts(s, i + 5) {
        Some(slice_of(s, i + 5, i + 15))
    } else if s.len() - i >= 4 && ch_at(s, i, 'd') && ch_at(s, i + 1, 'u') && ch_at(s, i + 2, 'e')
        && ch_at(s, i + 3, ':') && date_starts(s, i + 4) {
        Some(slice_of(s, i + 4, i + 14))
    } else if ch_at(s, i, '\u{1F4C5}') {
        let j = skip_ws_from(s, i + 1);
        if date_starts(s, j) {
            Some(slice_of(s, j, j + 10))
        } else {
            None
        }
    } else {
        None
    }
}

fn word_vec(w: &str) -> (r: Option<Vec<char>>)
    ensures
        opt_view(r) == Some(w@),
{
    Some(chars_of(w))
}

fn priority_at_exec(s: &Vec<char>, i: usize) -> (r: Option<Vec<char>>)
    requires
        i < s@.len(),
    ensures
        opt_view(r) == priority_at(s@, i as int),
{
    proof {
        reveal_strlit("high");
        reveal_strlit("medium");
        reveal_strlit("low");
    }
    let _len = s.len();
    if ch_at(s, i, '!') && ch_at(s, i + 1, 'h') && ch_at(s, i + 2, 'i') && ch_at(s, i + 3, 'g')
        && ch_at(s, i + 4, 'h') {
        word_vec("high")
    } else if ch_at(s, i, '!') && ch_at(s, i + 1, 'm') && ch_at(s, i + 2, 'e') && ch_at(
        s,
        i + 3,
        'd',
    ) && ch_at(s, i + 4, 'i') && ch_at(s, i + 5, 'u') && ch_at(s, i + 6, 'm') {
        word_vec("medium")
    } else if ch_at(s, i, '!') && ch_at(s, i + 1, 'l') && ch_at(s, i + 2, 'o') && ch_at(
        s,
        i + 3,
        'w',
    ) {
        word_vec("low")
    } else if ch_at(s, i, 'p') && ch_at(s, i + 1, ':') && ch_at(s, i + 2, '1') {
        word_vec("high")
    } else if ch_at(s, i, 'p') && ch_at(s, i + 1, ':') && ch_at(s, i + 2, '2') {
        word_vec("medium")
    } else if ch_at(s, i, 'p') && ch_at(s, i + 1, ':') && ch_at(s, i + 2, '3') {
        word_vec("low")
    } else {
        None
    }
}

pub(crate) fn paren_close_from(s: &Vec<char>, k: usize) -> (r: usize)
    requires
        k <= s@.len(),
    ensures
        r == paren_close(s@, k as int),
        k <= r <= s@.len(),
{
    let mut j: usize = k;
    while j < s.len() && s[j] != ')'
        invariant
            k <= j <= s@.len(),
            paren_close(s@, k as int) == paren_close(s@, j as int),
        decreases s@.len() - j,
    {
        j = j + 1;
    }
    j
}

fn recurrence_at_exec(s: &Vec<char>, i: usize) -> (r: Option<Vec<char>>)
    requires
        i < s@.len(),
    ensures
        opt_view(r) == recurrence_at(s@, i as int),
{
    let open_end: usize = if s.len() - i >= 7 && ch_at(s, i, '@') && ch_at(s, i + 1, 'e') && ch_at(
        s,
        i + 2,
        'v',
    ) && ch_at(s, i + 3, 'e') && ch_at(s, i + 4, 'r') && ch_at(s, i + 5, 'y') && ch_at(
        s,
        i + 6,
        '(',
    ) {
        i + 7
    } else if s.len() - i >= 8 && ch_at(s, i, '@') && ch_at(s, i + 1, 'r') && ch_at(s, i + 2, 'e')
        && ch_at(s, i + 3, 'p') && ch_at(s, i + 4, 'e') && ch_at(s, i + 5, 'a') && ch_at(
        s,
        i + 6,
        't',
    ) && ch_at(s, i + 7, '(') {
        i + 8
    } else {
        return None;
    };
    let k = paren_close_from(s, open_end);
    if k > open_end && k < s.len() {
        Some(slice_of(s, open_end, k))
    } else {
        None
    }
}

/// The leftmost match of a kind of metadata in `s`.
pub fn find_meta(kind: Meta, s: &Vec<char>) -> (r: Option<Vec<char>>)
    ensures
        opt_view(r) == meta_in(kind, s@),
{
    let mut i: usize = 0;
    while i < s.len()
        invariant
            i <= s@.len(),
            meta_in(kind, s@) == meta_from(kind, s@, i as int),
        decreases s@.len() - i,
    {
        let found = match kind {
            Meta::Due => due_at_exec(s, i),
            Meta::Priority => priority_at_exec(s, i),
            Meta::Recurrence => recurrence_at_exec(s, i),
        };
        if found.is_some() {
            return found;
        }
        i = i + 1;
    }
    None
}

/// The indent level, completion and trimmed text of a checkbox line: leading
/// whitespace, `-` or `*`, whitespace, `[ ]`, `[x]` or `[X]`, and at least one
/// more character. The level is the UTF-8 length of the leading whitespace,
/// halved.
pub open spec fn todo_line(l: Seq<char>) -> Option<(int, bool, Seq<char>)> {
    let w = skip_ws(l, 0);
    let b = skip_ws(l, w + 1);
    if (ch(l, w, '-') || ch(l, w, '*')) && ch(l, b, '[') && (ch(l, b + 1, ' ') || ch(
        l,
        b + 1,
        'x',
    ) || ch(l, b + 1, 'X')) && ch(l, b + 2, ']') && b + 3 < l.len() {
        Some((capped(bytes_before(l, w)) / 2, !ch(l, b + 1, ' '), trim(l.subrange(b + 3, l.len() as int))))
    } else {
        None
    }
}

/// The length of a character in UTF-8.
pub open spec fn utf8_len(c: char) -> int {
    let n = c as u32;
    if n < 0x80 {
        1
    } else if n < 0x800 {
        2
    } else if n < 0x10000 {
        3
    } else {
        4
    }
}

/// The UTF-8 length of `l[..k]`.
pub open spec fn bytes_before(l: Seq<char>, k: int) -> int
    decreases k,
{
    if k <= 0 || k > l.len() {
        0
    } else {
        bytes_before(l, k - 1) + utf8_len(l[k - 1])
    }
}

/// A count held in a `usize`, which stops at its largest value.
pub open spec fn capped(n: int) -> int {
    if n > usize::MAX {
        usize::MAX as int
    } else {
        n
    }
}

fn utf8_len_exec(c: char) -> (r: usize)
    ensures
        r as int == utf8_len(c),
{
    let n = c as u32;
    if n < 0x80 {
        1
    } else if n < 0x800 {
        2
    } else if n < 0x10000 {
        3
    } else {
        4
    }
}

/// The UTF-8 length of `l[..k]`, stopping at the largest `usize`.
fn leading_bytes(l: &Vec<char>, k: usize) -> (r: usize)
    requires
        k <= l@.len(),
    ensures
        r as int == capped(bytes_before(l@, k as int)),
{
    let mut acc: usize = 0;
    let mut j: usize = 0;
    while j < k
        invariant
            j <= k <= l@.len(),
            acc as int == capped(bytes_before(l@, j as int)),
            bytes_before(l@, j as int) >= 0,
        decreases k - j,
    {
        let u = utf8_len_exec(l[j]);
        acc = if acc > usize::MAX - u {
            usize::MAX
        } else {
            acc + u
        };
        j = j + 1;
    }
    acc
}

/// A todo as read from a note.
pub ghost struct TodoFacts {
    pub line: int,
    pub content: Seq<char>,
    pub done: bool,
    pub due: Option<Seq<char>>,
    pub priority: Option<Seq<char>>,
    pub indent: int,
    pub parent: Option<int>,
    pub recurrence: Option<Seq<char>>,
}

pub open spec fn lower_opt(o: Option<Seq<char>>) -> Option<Seq<char>> {
    match o {
        Some(p) => Some(lower_of(p)),
        None => None,
    }
}

/// The entries of the indent stack that sit strictly shallower than `indent`.
pub open spec fn shallower(indent: int) -> spec_fn((int, int)) -> bool {
    |e: (int, int)| e.0 < indent
}

/// The todos of the lines `lines[n..]`, given the stack of (indent level,
/// line number) of the todos read before. A nested todo first drops every
/// stack entry that is not shallower than itself; its parent is then the top
/// of the stack. Every todo is pushed.
pub open spec fn todos_from(lines: Seq<Seq<char>>, n: int, stack: Seq<(int, int)>) -> Seq<
    TodoFacts,
>
    decreases lines.len() - n,
{
    if n < 0 || n >= lines.len() {
        Seq::empty()
    } else {
        match todo_line(lines[n]) {
            None => todos_from(lines, n + 1, stack),
            Some(m) => {
                let kept = if m.0 > 0 {
                    stack.filter(shallower(m.0))
                } else {
                    stack
                };
                let t = TodoFacts {
                    line: n + 1,
                    content: m.2,
                    done: m.1,
                    due: meta_in(Meta::Due, m.2),
                    priority: meta_in(Meta::Priority, m.2),
                    indent: m.0,
                    parent: if m.0 > 0 && kept.len() > 0 {
                        Some(kept.last().1)
                    } else {
                        None
                    },
                    recurrence: lower_opt(meta_in(Meta::Recurrence, m.2)),
                };
                seq![t] + todos_from(lines, n + 1, kept.push((m.0, n + 1)))
            },
        }
    }
}

/// The todos of a text, in order of their lines.
pub open spec fn todos_in(s: Seq<char>) -> Seq<TodoFacts> {
    todos_from(lines_of(s), 0, Seq::empty())
}

/// A todo as the extractor hands it out.
pub struct TodoItem {
    pub line_number: usize,
    pub content: String,
    pub is_completed: bool,
    pub due_date: Option<String>,
    pub priority: Option<String>,
    pub indent_level: usize,
    pub parent_line: Option<usize>,
    pub recurrence_pattern: Option<String>,
}

pub open spec fn sopt(o: Option<String>) -> Option<Seq<char>> {
    match o {
        Some(v) => Some(v@),
        None => None,
    }
}

pub open spec fn iopt(o: Option<usize>) -> Option<int> {
    match o {
        Some(v) => Some(v as int),
        None => None,
    }
}

impl View for TodoItem {
    type V = TodoFacts;

    open spec fn view(&self) -> TodoFacts {
        TodoFacts {
            line: self.line_number as int,
            content: self.content@,
            done: self.is_completed,
            due: sopt(self.due_date),
            priority: sopt(self.priority),
            indent: self.indent_level as int,
            parent: iopt(self.parent_line),
            recurrence: sopt(self.recurrence_pattern),
        }
    }
}

pub open spec fn todo_views(v: Seq<TodoItem>) -> Seq<TodoFacts> {
    v.map_values(|t: TodoItem| t@)
}

pub open spec fn stack_view(v: Seq<(usize, usize)>) -> Seq<(int, int)> {
    v.map_values(|e: (usize, usize)| (e.0 as int, e.1 as int))
}

fn keep_shallower(stack: &Vec<(usize, usize)>, indent: usize) -> (r: Vec<(usize, usize)>)
    ensures
        stack_view(r@) == stack_view(stack@).filter(shallower(indent as int)),
{
    let mut out: Vec<(usize, usize)> = Vec::new();
    let mut k: usize = 0;
    assert(stack_view(stack@.take(0)) =~= Seq::<(int, int)>::empty());
    assert(Seq::<(int, int)>::empty().filter(shallower(indent as int)) =~= Seq::<(int, int)>::empty()) by {
        reveal(Seq::filter);
    }
    while k < stack.len()
        invariant
            k <= stack@.len(),
            stack_view(out@) == stack_view(stack@.take(k as int)).filter(shallower(indent as int)),
        decreases stack@.len() - k,
    {
        let e = stack[k];
        assert(stack_view(stack@.take(k as int + 1)) =~= stack_view(stack@.take(k as int)).push(
            (e.0 as int, e.1 as int),
        ));
        proof {
            stack_view(stack@.take(k as int)).lemma_filter_push(
                (e.0 as int, e.1 as int),
                shallower(indent as int),
            );
        }
        if e.0 < indent {
            assert(stack_view(out@.push(e)) =~= stack_view(out@).push((e.0 as int, e.1 as int)));
            out.push(e);
        }
        k = k + 1;
    }
    assert(stack@.take(stack@.len() as int) =~= stack@);
    out
}

fn opt_string(o: Option<Vec<char>>) -> (r: Option<String>)
    ensures
        sopt(r) == opt_view(o),
{
    match o {
        Some(v) => Some(string_of(v.as_slice())),
        None => None,
    }
}

/// Reads the todo of one line, if it is a checkbox line.
fn match_todo(l: &Vec<char>) -> (r: Option<(usize, bool, Vec<char>)>)
    ensures
        match r {
            Some(m) => todo_line(l@) == Some((m.0 as int, m.1, m.2@)),
            None => todo_line(l@) is None,
        },
{
    let len = l.len();
    let w = skip_ws_from(l, 0);
    if !(ch_at(l, w, '-') || ch_at(l, w, '*')) {
        return None;
    }
    let b = skip_ws_from(l, w + 1);
    if ch_at(l, b, '[') && (ch_at(l, b + 1, ' ') || ch_at(l, b + 1, 'x') || ch_at(l, b + 1, 'X'))
        && ch_at(l, b + 2, ']') && b + 3 < len {
        Some((leading_bytes(l, w) / 2, !ch_at(l, b + 1, ' '), trimmed(l, b + 3, len)))
    } else {
        None
    }
}

/// Every checkbox todo of `content`, with its metadata and nesting.
pub fn extract_todos(content: &str) -> (r: Vec<TodoItem>)
    ensures
        todo_views(r@) == todos_in(content@),
{
    let s = chars_of(content);
    let lines = split_lines(&s);
    let mut out: Vec<TodoItem> = Vec::new();
    let mut stack: Vec<(usize, usize)> = Vec::new();
    let mut n: usize = 0;
    assert(stack_view(stack@) =~= Seq::<(int, int)>::empty());
    while n < lines.len()
        invariant
            n <= lines@.len(),
            views(lines@) == lines_of(content@),
            todo_views(out@) + todos_from(views(lines@), n as int, stack_view(stack@)) == todos_in(
                content@,
            ),
        decreases lines@.len() - n,
    {
        let ghost ls = views(lines@);
        assert(ls[n as int] == lines@[n as int]@);
        match match_todo(&lines[n]) {
            Some(m) => {
                let (indent, done, text) = m;
                let kept = if indent > 0 {
                    keep_shallower(&stack, indent)
                } else {
                    stack
                };
                let parent = if indent > 0 && kept.len() > 0 {
                    Some(kept[kept.len() - 1].1)
                } else {
                    None
                };
                let due = find_meta(Meta::Due, &text);
                let prio = find_meta(Meta::Priority, &text);
                let rec = find_meta(Meta::Recurrence, &text);
                let rec_lower = match rec {
                    Some(p) => {
                        let ps = string_of(p.as_slice());
                        Some(to_lower(ps.as_str()))
                    },
                    None => None,
                };
                let item = TodoItem {
                    line_number: n + 1,
                    content: string_of(text.as_slice()),
                    is_completed: done,
                    due_date: opt_string(due),
                    priority: opt_string(prio),
                    indent_level: indent,
                    parent_line: parent,
                    recurrence_pattern: rec_lower,
                };
                let mut next = kept;
                next.push((indent, n + 1));
                proof {
                    let kv = stack_view(kept@);
                    assert(stack_view(next@) =~= kv.push((indent as int, n as int + 1)));
                    if indent > 0 && kept@.len() > 0 {
                        assert(kv.last().1 == kept@.last().1 as int);
                    }
                    assert(todo_views(out@.push(item)) =~= todo_views(out@) + seq![item@]);
                    assert(todo_views(out@) + (seq![item@] + todos_from(ls, n + 1, stack_view(next@)))
                        =~= todo_views(out@.push(item)) + todos_from(ls, n + 1, stack_view(next@)));
                }
                out.push(item);
                stack = next;
            },
            None => {},
        }
        n = n + 1;
    }
    assert(todo_views(out@) =~= todo_views(out@) + todos_from(views(lines@), n as int, stack_view(stack@)));
    out
}

} // verus!
