//! The link resolver: a link target names the note whose file stem equals it,
//! ignoring ASCII case, among the notes of the tree in the order the walk
//! found them.
use vstd::prelude::*;

use crate::text::{chars_of, string_of, slice_of};

verus! {

/// What `Path::file_stem` makes of a path.
pub uninterp spec fn stem_of(path: Seq<char>) -> Option<Seq<char>>;

/// Relies on `std::path::Path::file_stem`: the file name without its last
/// extension, which depends on the path alone.
#[verifier::external_body]
fn file_stem(path: &str) -> (r: Option<String>)
    ensures
        match r {
            Some(s) => stem_of(path@) == Some(s@),
            None => stem_of(path@) is None,
        },
{
    std::path::Path::new(path).file_stem().map(|s| s.to_string_lossy().into_owned())
}

/// The index of the first `c` at or after `i`, or the length.
pub open spec fn index_of(s: Seq<char>, c: char, i: int) -> int
    decreases s.len() - i,
{
    if 0 <= i < s.len() && s[i] != c {
        index_of(s, c, i + 1)
    } else {
        i
    }
}

/// The part of a link target before its first `#`: the note it names.
pub open spec fn before_hash(s: Seq<char>) -> Seq<char> {
    s.subrange(0, index_of(s, '#', 0))
}

pub open spec fn ends_md(s: Seq<char>) -> bool {
    s.len() >= 3 && s[s.len() - 3] == '.' && s[s.len() - 2] == 'm' && s[s.len() - 1] == 'd'
}

/// `str::trim_end_matches(".md")`: every trailing `.md` removed.
pub open spec fn strip_md(s: Seq<char>) -> Seq<char>
    decreases s.len(),
{
    if ends_md(s) {
        strip_md(s.subrange(0, s.len() - 3))
    } else {
        s
    }
}

pub open spec fn ascii_fold(c: char) -> u32 {
    let n = c as u32;
    if 65 <= n <= 90 {
        (n + 32) as u32
    } else {
        n
    }
}

/// `eq_ignore_ascii_case`.
pub open spec fn same_ignoring_case(a: Seq<char>, b: Seq<char>) -> bool {
    a.len() == b.len() && forall|i: int| 0 <= i < a.len() ==> ascii_fold(a[i]) == ascii_fold(b[i])
}

/// The first note of `notes[i..]` whose stem is `name`, ignoring ASCII case.
pub open spec fn first_named(notes: Seq<Seq<char>>, name: Seq<char>, i: int) -> Option<Seq<char>>
    decreases notes.len() - i,
{
    if i < 0 || i >= notes.len() {
        None
    } else {
        match stem_of(notes[i]) {
            Some(stem) => if same_ignoring_case(stem, name) {
                Some(notes[i])
            } else {
                first_named(notes, name, i + 1)
            },
            None => first_named(notes, name, i + 1),
        }
    }
}

/// The note that a note name points to, if any: the first note whose stem
/// is the name without a trailing `.md`, ignoring ASCII case.
pub open spec fn resolved(name: Seq<char>, notes: Seq<Seq<char>>) -> Option<Seq<char>> {
    first_named(notes, strip_md(name), 0)
}

pub open spec fn path_views(v: Seq<String>) -> Seq<Seq<char>> {
    v.map_values(|x: String| x@)
}

fn fold_char(c: char) -> (r: u32)
    ensures
        r == ascii_fold(c),
{
    let n = c as u32;
    if 65 <= n && n <= 90 {
        n + 32
    } else {
        n
    }
}

pub fn eq_ignore_ascii_case(a: &Vec<char>, b: &Vec<char>) -> (r: bool)
    ensures
        r == same_ignoring_case(a@, b@),
{
    if a.len() != b.len() {
        return false;
    }
    let mut i: usize = 0;
    while i < a.len()
        invariant
            a@.len() == b@.len(),
            i <= a@.len(),
            forall|k: int| 0 <= k < i ==> ascii_fold(a@[k]) == ascii_fold(b@[k]),
        decreases a@.len() - i,
    {
        if fold_char(a[i]) != fold_char(b[i]) {
            return false;
        }
        i = i + 1;
    }
    true
}

/// A name without its trailing `.md` suffixes.
pub fn strip_md_chars(name: &str) -> (r: Vec<char>)
    ensures
        r@ == strip_md(name@),
{
    let s = chars_of(name);
    let mut end: usize = s.len();
    assert(s@.subrange(0, end as int) =~= s@);
    while end >= 3 && s[end - 3] == '.' && s[end - 2] == 'm' && s[end - 1] == 'd'
        invariant
            end <= s@.len(),
            s@ == name@,
            strip_md(name@) == strip_md(s@.subrange(0, end as int)),
        decreases end,
    {
        assert(s@.subrange(0, end as int).subrange(0, end - 3) =~= s@.subrange(0, end - 3));
        end = end - 3;
    }
    slice_of(&s, 0, end)
}

/// Finds the note that a name points to, among the markdown files of the
/// tree in walk order; `None` when no stem matches. A block reference is
/// cut off by the caller (`split_block_ref`) before the lookup.
pub fn resolve_note_link(link_name: &str, notes: &Vec<String>) -> (r: Option<String>)
    ensures
        match r {
            Some(p) => resolved(link_name@, path_views(notes@)) == Some(p@),
            None => resolved(link_name@, path_views(notes@)) is None,
        },
{
    let name = strip_md_chars(link_name);
    let ghost pv = path_views(notes@);
    let mut i: usize = 0;
    while i < notes.len()
        invariant
            i <= notes@.len(),
            pv == path_views(notes@),
            name@ == strip_md(link_name@),
            resolved(link_name@, pv) == first_named(pv, name@, i as int),
        decreases notes@.len() - i,
    {
        assert(pv[i as int] == notes@[i as int]@);
        match file_stem(notes[i].as_str()) {
            Some(stem) => {
                let sc = chars_of(stem.as_str());
                if eq_ignore_ascii_case(&sc, &name) {
                    return Some(notes[i].clone());
                }
            },
            None => {},
        }
        i = i + 1;
    }
    None
}

/// The title of a note: its file stem, or `Untitled`.
pub fn title_from_path(path: &str) -> (r: String)
    ensures
        match stem_of(path@) {
            Some(s) => r@ == s,
            None => r@ == "Untitled"@,
        },
{
    match file_stem(path) {
        Some(s) => s,
        None => {
            let u = chars_of("Untitled");
            string_of(u.as_slice())
        },
    }
}

/// Splits a block reference `Note#block` into the note name and the block
/// id after the first `#`; a link without `#` names a whole note.
pub fn split_block_ref(link: &str) -> (r: (String, Option<String>))
    ensures
        r.0@ == before_hash(link@),
        match r.1 {
            Some(b) => index_of(link@, '#', 0) < link@.len() && b@ == link@.subrange(
                index_of(link@, '#', 0) + 1,
                link@.len() as int,
            ),
            None => index_of(link@, '#', 0) == link@.len(),
        },
{
    let s = chars_of(link);
    let mut h: usize = 0;
    while h < s.len() && s[h] != '#'
        invariant
            h <= s@.len(),
            s@ == link@,
            index_of(s@, '#', 0) == index_of(s@, '#', h as int),
        decreases s@.len() - h,
    {
        h = h + 1;
    }
    let name = string_of(slice_of(&s, 0, h).as_slice());
    if h < s.len() {
        (name, Some(string_of(slice_of(&s, h + 1, s.len()).as_slice())))
    } else {
        (name, None)
    }
}

} // verus!
