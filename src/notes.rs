//! Notes as the rest of the application sees them, the link graph drawn from
//! the index, and the checks on paths inside the notes folder.
use vstd::prelude::*;

use vstd::string::StringExecFns;

use crate::error::AppError;
use crate::extract::string_views;
use crate::index::Link;
use crate::table::rv;
use crate::extract::hashes_end;
use crate::text::{matches_from, occurs, occurs_at, occurs_here, occurs_in};
use crate::resolve::{eq_ignore_ascii_case, same_ignoring_case, strip_md, strip_md_chars};
use crate::text::{chars_of, lines_of, lower_of, slice_of, split_lines, string_of, to_lower, views};

verus! {

/// A note with its content.
pub struct Note {
    pub path: String,
    pub title: String,
    pub content: String,
    pub last_modified: i64,
}

/// A note as a listing shows it.
pub struct NoteMetadata {
    pub path: String,
    pub title: String,
    pub last_modified: i64,
    pub relative_path: String,
    pub folder: String,
}

/// Where a search term was found in a note.
pub struct SearchSnippet {
    pub line_number: usize,
    pub text: String,
    pub match_start: usize,
    pub match_length: usize,
}

/// A note that a search found, with the places it was found.
pub struct SearchResult {
    pub note: Note,
    pub match_count: usize,
    pub snippets: Vec<SearchSnippet>,
}

/// A note drawn in the link graph.
pub struct GraphNode {
    pub id: String,
    pub label: String,
    pub title: String,
}

/// A link drawn in the link graph.
pub struct GraphEdge {
    pub from: String,
    pub to: String,
}

/// The notes and links of a graph view.
pub struct GraphData {
    pub nodes: Vec<GraphNode>,
    pub edges: Vec<GraphEdge>,
}

impl View for GraphNode {
    type V = (Seq<char>, Seq<char>, Seq<char>);

    open spec fn view(&self) -> Self::V {
        (self.id@, self.label@, self.title@)
    }
}

impl View for GraphEdge {
    type V = (Seq<char>, Seq<char>);

    open spec fn view(&self) -> Self::V {
        (self.from@, self.to@)
    }
}

pub open spec fn listing(notes: Seq<NoteMetadata>) -> Seq<(Seq<char>, Seq<char>)> {
    notes.map_values(|n: NoteMetadata| (n.path@, n.title@))
}

/// `p` is an end of one of the links.
pub open spec fn linked(links: Seq<(Seq<char>, Seq<char>)>, p: Seq<char>) -> bool {
    exists|i: int| 0 <= i < links.len() && (links[i].0 == p || links[i].1 == p)
}

/// The graph nodes of the listed notes that `keep` accepts, in listing order;
/// a node is labelled and titled with the note's title.
pub open spec fn nodes_where(
    notes: Seq<(Seq<char>, Seq<char>)>,
    keep: spec_fn(Seq<char>) -> bool,
) -> Seq<(Seq<char>, Seq<char>, Seq<char>)>
    decreases notes.len(),
{
    if notes.len() == 0 {
        Seq::empty()
    } else {
        let prev = nodes_where(notes.drop_last(), keep);
        let n = notes.last();
        if keep(n.0) {
            prev.push((n.0, n.1, n.1))
        } else {
            prev
        }
    }
}

fn is_linked(links: &Vec<Link>, p: &String, also: Option<&String>) -> (r: bool)
    ensures
        r == (linked(rv(links@), p@) || (also is Some && also.unwrap()@ == p@)),
{
    if let Some(a) = also {
        if *a == *p {
            return true;
        }
    }
    let mut i: usize = 0;
    while i < links.len()
        invariant
            i <= links@.len(),
            also is Some ==> also.unwrap()@ != p@,
            forall|k: int| 0 <= k < i ==> !(rv(links@)[k].0 == p@ || rv(links@)[k].1 == p@),
        decreases links@.len() - i,
    {
        assert(rv(links@)[i as int] == links@[i as int]@);
        if links[i].from_note == *p || links[i].to_note == *p {
            return true;
        }
        i = i + 1;
    }
    false
}

fn graph_of(links: &Vec<Link>, notes: &Vec<NoteMetadata>, center: Option<&String>) -> (r: GraphData)
    ensures
        rv(r.edges@) == rv(links@),
        rv(r.nodes@) == nodes_where(
            listing(notes@),
            |p: Seq<char>| linked(rv(links@), p) || (center is Some && center.unwrap()@ == p),
        ),
{
    let ghost keep = |p: Seq<char>| linked(rv(links@), p) || (center is Some && center.unwrap()@ == p);
    let ghost ls = listing(notes@);
    let mut nodes: Vec<GraphNode> = Vec::new();
    let mut k: usize = 0;
    while k < notes.len()
        invariant
            k <= notes@.len(),
            ls == listing(notes@),
            keep == (|p: Seq<char>| linked(rv(links@), p) || (center is Some && center.unwrap()@ == p)),
            rv(nodes@) == nodes_where(ls.take(k as int), keep),
        decreases notes@.len() - k,
    {
        assert(ls.take(k as int + 1).drop_last() =~= ls.take(k as int));
        let n = &notes[k];
        assert(ls.take(k as int + 1).last() == (n.path@, n.title@));
        if is_linked(links, &n.path, center) {
            let node = GraphNode { id: n.path.clone(), label: n.title.clone(), title: n.title.clone() };
            assert(rv(nodes@.push(node)) =~= rv(nodes@).push(node@));
            nodes.push(node);
        }
        k = k + 1;
    }
    assert(ls.take(k as int) =~= ls);
    let mut edges: Vec<GraphEdge> = Vec::new();
    let mut j: usize = 0;
    while j < links.len()
        invariant
            j <= links@.len(),
            rv(edges@) == rv(links@).take(j as int),
        decreases links@.len() - j,
    {
        let l = &links[j];
        let e = GraphEdge { from: l.from_note.clone(), to: l.to_note.clone() };
        assert(rv(links@)[j as int] == l@);
        assert(e@ == l@);
        assert(rv(edges@.push(e)) =~= rv(edges@).push(e@));
        assert(rv(links@).take(j as int + 1) =~= rv(links@).take(j as int).push(l@));
        edges.push(e);
        j = j + 1;
    }
    assert(rv(links@).take(j as int) =~= rv(links@));
    GraphData { nodes, edges }
}

/// The whole link graph: every link is an edge, and every listed note that
/// a link touches is a node, in listing order.
pub fn global_graph(links: &Vec<Link>, notes: &Vec<NoteMetadata>) -> (r: GraphData)
    ensures
        rv(r.edges@) == rv(links@),
        rv(r.nodes@) == nodes_where(listing(notes@), |p: Seq<char>| linked(rv(links@), p)),
{
    let r = graph_of(links, notes, None);
    assert((|p: Seq<char>| linked(rv(links@), p) || (None::<&String> is Some && None::<&String>.unwrap()@ == p))
        =~= (|p: Seq<char>| linked(rv(links@), p)));
    r
}

/// The graph around one note: `links` are the links from or to it, every
/// one an edge; the nodes are the listed notes among it and the ends of
/// those links, in listing order.
pub fn local_graph(note_path: &String, links: &Vec<Link>, notes: &Vec<NoteMetadata>) -> (r: GraphData)
    ensures
        rv(r.edges@) == rv(links@),
        rv(r.nodes@) == nodes_where(
            listing(notes@),
            |p: Seq<char>| linked(rv(links@), p) || p == note_path@,
        ),
{
    let r = graph_of(links, notes, Some(note_path));
    assert((|p: Seq<char>| linked(rv(links@), p) || (Some(note_path) is Some && Some(note_path).unwrap()@ == p))
        =~= (|p: Seq<char>| linked(rv(links@), p) || p == note_path@));
    r
}

// ---------------------------------------------------------------- paths

/// `path` lies in `base` or is `base`, comparing whole components of
/// canonical paths (no `.`, `..`, repeated or trailing separators).
pub open spec fn within(path: Seq<char>, base: Seq<char>) -> bool {
    path == base || (base.len() < path.len() && path.subrange(0, base.len() as int) == base && (
    path[base.len() as int] == '/' || (base.len() > 0 && base.last() == '/')))
}

pub fn is_within(path: &Vec<char>, base: &Vec<char>) -> (r: bool)
    ensures
        r == within(path@, base@),
{
    if base.len() > path.len() {
        return false;
    }
    let mut i: usize = 0;
    while i < base.len()
        invariant
            base@.len() <= path@.len(),
            i <= base@.len(),
            forall|k: int| 0 <= k < i ==> path@[k] == base@[k],
        decreases base@.len() - i,
    {
        if path[i] != base[i] {
            assert(path@.subrange(0, base@.len() as int)[i as int] != base@[i as int]);
            return false;
        }
        i = i + 1;
    }
    assert(path@.subrange(0, base@.len() as int) =~= base@);
    if base.len() == path.len() {
        assert(path@ =~= base@);
        return true;
    }
    path[base.len()] == '/' || (base.len() > 0 && base[base.len() - 1] == '/')
}

/// Checks that a note path stays inside the notes folder. Both paths are
/// canonical, as the file system resolved them; one outside the folder is
/// refused as invalid input.
pub fn validate_path_security(path: &str, base_dir: &str) -> (r: Result<(), AppError>)
    ensures
        r is Ok <==> within(path@, base_dir@),
        r matches Err(e) ==> e is InvalidInput,
{
    let p = chars_of(path);
    let b = chars_of(base_dir);
    if is_within(&p, &b) {
        Ok(())
    } else {
        Err(AppError::InvalidInput(String::from_str("Path is outside the notes directory")))
    }
}

/// `path` with the folder `base` and its separator taken off the front, as
/// `Path::strip_prefix` does for canonical paths; `None` outside `base`.
pub open spec fn relative_to(path: Seq<char>, base: Seq<char>) -> Option<Seq<char>> {
    if path == base {
        Some(Seq::empty())
    } else if within(path, base) {
        if base.len() > 0 && base.last() == '/' {
            Some(path.subrange(base.len() as int, path.len() as int))
        } else {
            Some(path.subrange(base.len() as int + 1, path.len() as int))
        }
    } else {
        None
    }
}

/// The paths of `files` relative to `base`, in order; those outside it are
/// left out.
pub open spec fn relative_all(files: Seq<Seq<char>>, base: Seq<char>) -> Seq<Seq<char>>
    decreases files.len(),
{
    if files.len() == 0 {
        Seq::empty()
    } else {
        let prev = relative_all(files.drop_last(), base);
        match relative_to(files.last(), base) {
            Some(r) => prev.push(r),
            None => prev,
        }
    }
}

/// Some component of `s[start..]`, the one being read starting at `start`
/// and the scan standing at `i`, is `..`.
pub open spec fn parent_step_from(s: Seq<char>, i: int, start: int) -> bool
    decreases s.len() - i,
{
    if i < 0 || start < 0 || start > i {
        false
    } else if i >= s.len() {
        start <= s.len() && s.subrange(start, s.len() as int) == seq!['.', '.']
    } else if s[i] == '/' {
        s.subrange(start, i) == seq!['.', '.'] || parent_step_from(s, i + 1, i + 1)
    } else {
        parent_step_from(s, i + 1, start)
    }
}

/// A folder path that may be deleted: relative, not empty, and with no `..`
/// component, so that it names a folder inside the notes folder and not the
/// notes folder itself.
pub open spec fn safe_folder(f: Seq<char>) -> bool {
    f.len() > 0 && f[0] != '/' && !parent_step_from(f, 0, 0)
}

fn is_dot_dot(s: &Vec<char>, lo: usize, hi: usize) -> (r: bool)
    requires
        lo <= hi <= s@.len(),
    ensures
        r == (s@.subrange(lo as int, hi as int) == seq!['.', '.']),
{
    if hi - lo == 2 && s[lo] == '.' && s[lo + 1] == '.' {
        assert(s@.subrange(lo as int, hi as int) =~= seq!['.', '.']);
        true
    } else {
        proof {
            let dd = seq!['.', '.'];
            let sub = s@.subrange(lo as int, hi as int);
            if sub == dd {
                assert(sub.len() == 2);
                assert(sub[0] == s@[lo as int] && dd[0] == '.');
                assert(sub[1] == s@[lo + 1] && dd[1] == '.');
            }
        }
        false
    }
}

/// Whether a folder path may be deleted: relative, not empty, no `..`.
pub fn is_safe_folder(folder_path: &str) -> (r: bool)
    ensures
        r == safe_folder(folder_path@),
{
    let s = chars_of(folder_path);
    if s.len() == 0 || s[0] == '/' {
        return false;
    }
    let mut start: usize = 0;
    let mut i: usize = 0;
    while i < s.len()
        invariant
            start <= i <= s@.len(),
            s@ == folder_path@,
            parent_step_from(s@, i as int, start as int) == parent_step_from(s@, 0, 0),
        decreases s@.len() - i,
    {
        if s[i] == '/' {
            if is_dot_dot(&s, start, i) {
                return false;
            }
            start = i + 1;
        }
        i = i + 1;
    }
    !is_dot_dot(&s, start, s.len())
}

/// What deleting a folder would remove: the files found under it, as paths
/// relative to the notes folder. A folder path that is empty, absolute or
/// steps out with `..` is refused first; the file system then tells whether
/// the folder exists and is a folder, and which files it holds.
pub fn delete_folder(
    folder_path: &str,
    exists: bool,
    is_dir: bool,
    files: &Vec<String>,
    base_path: &str,
) -> (r: Result<Vec<String>, String>)
    ensures
        !safe_folder(folder_path@) ==> r is Err,
        !exists ==> r is Err,
        exists && !is_dir ==> r is Err,
        safe_folder(folder_path@) && exists && is_dir ==> r is Ok && string_views(r.unwrap()@)
            == relative_all(string_views(files@), base_path@),
{
    if !is_safe_folder(folder_path) {
        return Err(String::from_str("Invalid folder path"));
    }
    if !exists {
        return Err(String::from_str("Folder does not exist"));
    }
    if !is_dir {
        return Err(String::from_str("Path is not a folder"));
    }
    let b = chars_of(base_path);
    let ghost fv = string_views(files@);
    let mut out: Vec<String> = Vec::new();
    let mut k: usize = 0;
    while k < files.len()
        invariant
            k <= files@.len(),
            fv == string_views(files@),
            b@ == base_path@,
            string_views(out@) == relative_all(fv.take(k as int), base_path@),
        decreases files@.len() - k,
    {
        assert(fv.take(k as int + 1).drop_last() =~= fv.take(k as int));
        assert(fv.take(k as int + 1).last() == files@[k as int]@);
        let p = chars_of(files[k].as_str());
        if is_within(&p, &b) {
            let rel = if p.len() == b.len() {
                assert(p@ =~= b@);
                assert(Seq::<char>::empty() =~= p@.subrange(0, 0));
                slice_of(&p, 0, 0)
            } else if b.len() > 0 && b[b.len() - 1] == '/' {
                slice_of(&p, b.len(), p.len())
            } else {
                slice_of(&p, b.len() + 1, p.len())
            };
            let s = string_of(rel.as_slice());
            assert(string_views(out@.push(s)) =~= string_views(out@).push(s@));
            out.push(s);
        }
        k = k + 1;
    }
    assert(fv.take(k as int) =~= fv);
    Ok(out)
}

// ---------------------------------------------------------------- note edits

/// `s[i..]` with every occurrence of `pat` replaced by `rep`, left to right.
pub open spec fn replaced(s: Seq<char>, pat: Seq<char>, rep: Seq<char>, i: int) -> Seq<char>
    decreases s.len() - i,
{
    if i < 0 || i >= s.len() {
        Seq::empty()
    } else if pat.len() > 0 && occurs_at(s, pat, i) {
        rep + replaced(s, pat, rep, i + pat.len())
    } else {
        seq![s[i]] + replaced(s, pat, rep, i + 1)
    }
}

pub open spec fn replace_all(s: Seq<char>, pat: Seq<char>, rep: Seq<char>) -> Seq<char> {
    replaced(s, pat, rep, 0)
}

/// A checkbox line with its box ticked, or cleared.
pub open spec fn flipped(line: Seq<char>, done: bool) -> Seq<char> {
    if done {
        replace_all(replace_all(line, "- [ ]"@, "- [x]"@), "* [ ]"@, "* [x]"@)
    } else {
        replace_all(
            replace_all(
                replace_all(replace_all(line, "- [x]"@, "- [ ]"@), "* [x]"@, "* [ ]"@),
                "- [X]"@,
                "- [ ]"@,
            ),
            "* [X]"@,
            "* [ ]"@,
        )
    }
}

/// Lines joined by newlines.
pub open spec fn joined(ls: Seq<Seq<char>>) -> Seq<char>
    decreases ls.len(),
{
    if ls.len() == 0 {
        Seq::empty()
    } else if ls.len() == 1 {
        ls[0]
    } else {
        joined(ls.drop_last()) + seq!['\n'] + ls.last()
    }
}

/// The text of a note once the checkbox on line `line` (from one) shows
/// `done`: the lines rejoined, with the final newline kept; `None` when
/// the note has no such line.
pub open spec fn toggled_text(content: Seq<char>, line: int, done: bool) -> Option<Seq<char>> {
    let ls = lines_of(content);
    if 1 <= line <= ls.len() {
        let body = joined(ls.update(line - 1, flipped(ls[line - 1], done)));
        Some(
            if content.len() > 0 && content.last() == '\n' {
                body + seq!['\n']
            } else {
                body
            },
        )
    } else {
        None
    }
}

/// Replaces every occurrence of `pat` in `s` by `rep`.
pub fn replace_chars(s: &Vec<char>, pat: &Vec<char>, rep: &Vec<char>) -> (r: Vec<char>)
    ensures
        r@ == replace_all(s@, pat@, rep@),
{
    let n = s.len();
    let mut out: Vec<char> = Vec::new();
    let mut i: usize = 0;
    while i < n
        invariant
            n == s@.len(),
            i <= n,
            out@ + replaced(s@, pat@, rep@, i as int) == replace_all(s@, pat@, rep@),
        decreases n - i,
    {
        let ghost before = out@;
        if pat.len() > 0 && pat.len() <= n - i && occurs_here(s, pat, i) {
            let mut k: usize = 0;
            while k < rep.len()
                invariant
                    k <= rep@.len(),
                    out@ == before + rep@.subrange(0, k as int),
                decreases rep@.len() - k,
            {
                out.push(rep[k]);
                assert(out@ =~= before + rep@.subrange(0, k as int + 1));
                k = k + 1;
            }
            assert(rep@.subrange(0, rep@.len() as int) =~= rep@);
            assert(before + (rep@ + replaced(s@, pat@, rep@, i + pat@.len())) =~= out@ + replaced(
                s@,
                pat@,
                rep@,
                i + pat@.len(),
            ));
            i = i + pat.len();
        } else {
            proof {
                if pat@.len() > 0 && pat@.len() > n - i {
                    assert(!occurs_at(s@, pat@, i as int));
                }
            }
            out.push(s[i]);
            assert(before + (seq![s@[i as int]] + replaced(s@, pat@, rep@, i + 1)) =~= out@
                + replaced(s@, pat@, rep@, i + 1));
            i = i + 1;
        }
    }
    assert(out@ + replaced(s@, pat@, rep@, i as int) =~= out@);
    out
}

fn replace_lit(s: &Vec<char>, pat: &str, rep: &str) -> (r: Vec<char>)
    ensures
        r@ == replace_all(s@, pat@, rep@),
{
    replace_chars(s, &chars_of(pat), &chars_of(rep))
}

fn flip_line(line: &Vec<char>, done: bool) -> (r: Vec<char>)
    ensures
        r@ == flipped(line@, done),
{
    if done {
        let a = replace_lit(line, "- [ ]", "- [x]");
        replace_lit(&a, "* [ ]", "* [x]")
    } else {
        let a = replace_lit(line, "- [x]", "- [ ]");
        let b = replace_lit(&a, "* [x]", "* [ ]");
        let c = replace_lit(&b, "- [X]", "- [ ]");
        replace_lit(&c, "* [X]", "* [ ]")
    }
}

/// The text of a note with the checkbox of one line (from one) set to
/// `done`, as the file is rewritten after a toggle.
pub fn toggle_line_in_text(content: &str, line_number: usize, done: bool) -> (r: Option<String>)
    ensures
        match r {
            Some(t) => toggled_text(content@, line_number as int, done) == Some(t@),
            None => toggled_text(content@, line_number as int, done) is None,
        },
{
    let cs = chars_of(content);
    let lines = split_lines(&cs);
    if line_number < 1 || line_number > lines.len() {
        return None;
    }
    let ghost ls = views(lines@);
    let idx = line_number - 1;
    assert(ls[idx as int] == lines@[idx as int]@);
    let ghost target = ls.update(idx as int, flipped(ls[idx as int], done));
    let mut out: Vec<char> = Vec::new();
    let mut k: usize = 0;
    while k < lines.len()
        invariant
            k <= lines@.len(),
            ls == views(lines@),
            target.len() == ls.len(),
            idx < lines@.len(),
            target == ls.update(idx as int, flipped(ls[idx as int], done)),
            out@ == joined(target.take(k as int)),
        decreases lines@.len() - k,
    {
        let piece = if k == idx {
            flip_line(&lines[k], done)
        } else {
            slice_of(&lines[k], 0, lines[k].len())
        };
        assert(piece@ == target[k as int]) by {
            assert(ls[k as int] == lines@[k as int]@);
            assert(lines@[k as int]@.subrange(0, lines@[k as int]@.len() as int) =~= lines@[k as int]@);
        }
        let ghost before = out@;
        if k > 0 {
            out.push('\n');
        }
        let mut m: usize = 0;
        let ghost mid = out@;
        while m < piece.len()
            invariant
                m <= piece@.len(),
                out@ == mid + piece@.subrange(0, m as int),
            decreases piece@.len() - m,
        {
            out.push(piece[m]);
            assert(out@ =~= mid + piece@.subrange(0, m as int + 1));
            m = m + 1;
        }
        assert(piece@.subrange(0, piece@.len() as int) =~= piece@);
        assert(target.take(k as int + 1).drop_last() =~= target.take(k as int));
        assert(target.take(k as int + 1).last() == piece@);
        if k == 0 {
            assert(target.take(1)[0] == piece@);
            assert(out@ =~= piece@);
        } else {
            assert(out@ =~= before + seq!['\n'] + piece@);
        }
        k = k + 1;
    }
    assert(target.take(k as int) =~= target);
    let n = cs.len();
    if n > 0 && cs[n - 1] == '\n' {
        out.push('\n');
    }
    Some(string_of(out.as_slice()))
}

// ---------------------------------------------------------------- reserved folders

/// The folders that hold the application's own files, never notes.
pub open spec fn reserved_name(seg: Seq<char>) -> bool {
    seg == ".plainflux"@ || seg == "images"@ || seg == ".git"@
}

/// Some component of `s[start..]`, the one being read starting at `start`
/// and the scan standing at `i`, is a reserved folder name.
pub open spec fn reserved_from(s: Seq<char>, i: int, start: int) -> bool
    decreases s.len() - i,
{
    if i < 0 || start < 0 || start > i {
        false
    } else if i >= s.len() {
        start <= s.len() && reserved_name(s.subrange(start, s.len() as int))
    } else if s[i] == '/' {
        reserved_name(s.subrange(start, i)) || reserved_from(s, i + 1, i + 1)
    } else {
        reserved_from(s, i + 1, start)
    }
}

/// A note whose path, relative to the notes folder, passes through a
/// reserved folder is not listed.
pub open spec fn in_reserved(rel: Seq<char>) -> bool {
    reserved_from(rel, 0, 0)
}

fn is_reserved_piece(s: &Vec<char>, lo: usize, hi: usize) -> (r: bool)
    requires
        lo <= hi <= s@.len(),
    ensures
        r == reserved_name(s@.subrange(lo as int, hi as int)),
{
    let piece = slice_of(s, lo, hi);
    let a = chars_of(".plainflux");
    let b = chars_of("images");
    let c = chars_of(".git");
    same(&piece, &a) || same(&piece, &b) || same(&piece, &c)
}

fn same(a: &Vec<char>, b: &Vec<char>) -> (r: bool)
    ensures
        r == (a@ == b@),
{
    if a.len() != b.len() {
        return false;
    }
    let mut i: usize = 0;
    while i < a.len()
        invariant
            a@.len() == b@.len(),
            i <= a@.len(),
            forall|k: int| 0 <= k < i ==> a@[k] == b@[k],
        decreases a@.len() - i,
    {
        if a[i] != b[i] {
            return false;
        }
        i = i + 1;
    }
    assert(a@ =~= b@);
    true
}

/// Whether a note's path relative to the notes folder passes through a
/// folder of the application's own (`.plainflux`, `images`, `.git`).
pub fn in_reserved_folder(relative_path: &str) -> (r: bool)
    ensures
        r == in_reserved(relative_path@),
{
    let s = chars_of(relative_path);
    let mut start: usize = 0;
    let mut i: usize = 0;
    while i < s.len()
        invariant
            start <= i <= s@.len(),
            s@ == relative_path@,
            reserved_from(s@, i as int, start as int) == in_reserved(relative_path@),
        decreases s@.len() - i,
    {
        if s[i] == '/' {
            if is_reserved_piece(&s, start, i) {
                return true;
            }
            start = i + 1;
        }
        i = i + 1;
    }
    is_reserved_piece(&s, start, s.len())
}

// ---------------------------------------------------------------- transclusion

/// Where the section that starts above line `k` ends: at the first line that
/// starts with `#` and whose heading level is at most `level`, or at the end.
pub open spec fn section_end(ls: Seq<Seq<char>>, level: int, k: int) -> int
    decreases ls.len() - k,
{
    if k < 0 || k >= ls.len() {
        ls.len() as int
    } else if ls[k].len() > 0 && ls[k][0] == '#' && hashes_end(ls[k], 0) <= level {
        k
    } else {
        section_end(ls, level, k + 1)
    }
}

/// The section of a note under the heading on line `line` (from one): that
/// line and every line up to the next heading of the same or a higher level.
pub open spec fn block_section(content: Seq<char>, line: int) -> Option<Seq<char>> {
    let ls = lines_of(content);
    if 1 <= line <= ls.len() {
        let start = line - 1;
        let end = section_end(ls, hashes_end(ls[start], 0), line);
        Some(joined(ls.subrange(start, end)))
    } else {
        None
    }
}

fn leading_hashes(l: &Vec<char>) -> (r: usize)
    ensures
        r == hashes_end(l@, 0),
        r <= l@.len(),
{
    let mut h: usize = 0;
    while h < l.len() && l[h] == '#'
        invariant
            h <= l@.len(),
            hashes_end(l@, 0) == hashes_end(l@, h as int),
        decreases l@.len() - h,
    {
        h = h + 1;
    }
    h
}

fn closes_section(l: &Vec<char>, level: usize) -> (r: bool)
    ensures
        r == (l@.len() > 0 && l@[0] == '#' && hashes_end(l@, 0) <= level),
{
    l.len() > 0 && l[0] == '#' && leading_hashes(l) <= level
}

/// Lines `lo..hi` of `lines` joined by newlines.
fn join_range(lines: &Vec<Vec<char>>, lo: usize, hi: usize) -> (r: Vec<char>)
    requires
        lo <= hi <= lines@.len(),
    ensures
        r@ == joined(views(lines@).subrange(lo as int, hi as int)),
{
    let ghost ls = views(lines@);
    let mut out: Vec<char> = Vec::new();
    let mut k: usize = lo;
    assert(ls.subrange(lo as int, lo as int) =~= Seq::<Seq<char>>::empty());
    while k < hi
        invariant
            lo <= k <= hi <= lines@.len(),
            ls == views(lines@),
            out@ == joined(ls.subrange(lo as int, k as int)),
        decreases hi - k,
    {
        let piece = &lines[k];
        assert(ls[k as int] == piece@);
        let ghost before = out@;
        if k > lo {
            out.push('\n');
        }
        let mut m: usize = 0;
        let ghost mid = out@;
        while m < piece.len()
            invariant
                m <= piece@.len(),
                out@ == mid + piece@.subrange(0, m as int),
            decreases piece@.len() - m,
        {
            out.push(piece[m]);
            assert(out@ =~= mid + piece@.subrange(0, m as int + 1));
            m = m + 1;
        }
        assert(piece@.subrange(0, piece@.len() as int) =~= piece@);
        let ghost part = ls.subrange(lo as int, k as int + 1);
        assert(part.drop_last() =~= ls.subrange(lo as int, k as int));
        assert(part.last() == piece@);
        if k == lo {
            assert(part.len() == 1);
            assert(out@ =~= piece@);
        } else {
            assert(out@ =~= before + seq!['\n'] + piece@);
        }
        k = k + 1;
    }
    out
}

/// The text that a block reference brings in: the section of the note
/// under the heading on line `line_number`, or `None` past its last line.
pub fn extract_block_section(content: &str, line_number: usize) -> (r: Option<String>)
    ensures
        match r {
            Some(t) => block_section(content@, line_number as int) == Some(t@),
            None => block_section(content@, line_number as int) is None,
        },
{
    let cs = chars_of(content);
    let lines = split_lines(&cs);
    if line_number < 1 || line_number > lines.len() {
        return None;
    }
    let ghost ls = views(lines@);
    let start = line_number - 1;
    assert(ls[start as int] == lines@[start as int]@);
    let level = leading_hashes(&lines[start]);
    let mut e: usize = line_number;
    while e < lines.len() && !closes_section(&lines[e], level)
        invariant
            line_number <= e <= lines@.len(),
            ls == views(lines@),
            ls.len() == lines@.len(),
            start < line_number,
            level as int == hashes_end(ls[start as int], 0),
            section_end(ls, level as int, line_number as int) == section_end(ls, level as int, e as int),
        decreases lines@.len() - e,
    {
        assert(ls[e as int] == lines@[e as int]@);
        e = e + 1;
    }
    proof {
        if e < lines@.len() {
            assert(ls[e as int] == lines@[e as int]@);
        }
    }
    assert(section_end(ls, level as int, line_number as int) == e as int);
    let body = join_range(&lines, start, e);
    Some(string_of(body.as_slice()))
}

// ---------------------------------------------------------------- finding notes

/// The path of the first listed note whose title is `name`, ignoring ASCII
/// case.
pub open spec fn titled(notes: Seq<(Seq<char>, Seq<char>)>, name: Seq<char>, i: int) -> Option<
    Seq<char>,
>
    decreases notes.len() - i,
{
    if i < 0 || i >= notes.len() {
        None
    } else if same_ignoring_case(notes[i].1, name) {
        Some(notes[i].0)
    } else {
        titled(notes, name, i + 1)
    }
}

/// A note found by name: by its title as written, else by the name
/// without a trailing `.md`.
pub open spec fn found_by_name(notes: Seq<(Seq<char>, Seq<char>)>, name: Seq<char>) -> Option<
    Seq<char>,
> {
    match titled(notes, name, 0) {
        Some(p) => Some(p),
        None => titled(notes, strip_md(name), 0),
    }
}

fn first_titled(notes: &Vec<NoteMetadata>, name: &Vec<char>) -> (r: Option<String>)
    ensures
        match r {
            Some(p) => titled(listing(notes@), name@, 0) == Some(p@),
            None => titled(listing(notes@), name@, 0) is None,
        },
{
    let ghost ls = listing(notes@);
    let mut i: usize = 0;
    while i < notes.len()
        invariant
            i <= notes@.len(),
            ls == listing(notes@),
            titled(ls, name@, 0) == titled(ls, name@, i as int),
        decreases notes@.len() - i,
    {
        assert(ls[i as int] == (notes@[i as int].path@, notes@[i as int].title@));
        let t = chars_of(notes[i].title.as_str());
        if eq_ignore_ascii_case(&t, name) {
            return Some(notes[i].path.clone());
        }
        i = i + 1;
    }
    None
}

/// Finds a listed note by name, ignoring ASCII case.
pub fn find_note_by_name(name: &str, notes: &Vec<NoteMetadata>) -> (r: Option<String>)
    ensures
        match r {
            Some(p) => found_by_name(listing(notes@), name@) == Some(p@),
            None => found_by_name(listing(notes@), name@) is None,
        },
{
    let n = chars_of(name);
    match first_titled(notes, &n) {
        Some(p) => Some(p),
        None => {
            let bare = strip_md_chars(name);
            first_titled(notes, &bare)
        },
    }
}


/// A note links to `name` (without `.md`) as `[[name]]` or `[[name.md]]`.
pub open spec fn mentions(content: Seq<char>, name: Seq<char>) -> bool {
    occurs_in(content, "[["@ + strip_md(name) + "]]"@) || occurs_in(
        content,
        "[["@ + strip_md(name) + ".md]]"@,
    )
}

/// Whether a note links to a newly created note by its name, so that it
/// must be re-indexed to pick up the link.
pub fn links_to_name(content: &str, note_name: &str) -> (r: bool)
    ensures
        r == mentions(content@, note_name@),
{
    let bare = strip_md_chars(note_name);
    let mut plain = String::from_str("[[");
    let bs = string_of(bare.as_slice());
    plain.append(bs.as_str());
    let mut with_ext = plain.clone();
    plain.append("]]");
    with_ext.append(".md]]");
    let c = chars_of(content);
    occurs(&c, &chars_of(plain.as_str())) || occurs(&c, &chars_of(with_ext.as_str()))
}

// ---------------------------------------------------------------- search snippets

/// Characters of context kept on each side of a match.
pub const CONTEXT_CHARS: usize = 50;


/// A snippet as (line number, text, start of the match in the text,
/// length of the match).
pub open spec fn snippet_at(line: Seq<char>, n: int, qlen: int, p: int) -> (int, Seq<char>, int, int) {
    let hi0 = p + qlen + 50;
    let hi = if hi0 < line.len() {
        hi0
    } else {
        line.len() as int
    };
    let lo0 = if p >= 50 {
        p - 50
    } else {
        0
    };
    let lo = if lo0 < hi {
        lo0
    } else {
        hi
    };
    let head: Seq<char> = if lo > 0 {
        "..."@
    } else {
        Seq::empty()
    };
    let tail: Seq<char> = if hi < line.len() {
        "..."@
    } else {
        Seq::empty()
    };
    (n, head + line.subrange(lo, hi) + tail, p - lo + if lo > 0 {
        3int
    } else {
        0int
    }, qlen)
}

pub open spec fn line_snippets(line: Seq<char>, n: int, q: Seq<char>, ps: Seq<int>) -> Seq<
    (int, Seq<char>, int, int),
>
    decreases ps.len(),
{
    if ps.len() == 0 {
        Seq::empty()
    } else {
        line_snippets(line, n, q, ps.drop_last()).push(snippet_at(line, n, q.len() as int, ps.last()))
    }
}

/// The snippets of every match of the lowercased query in the lowercased
/// lines `ls[k..]`; the text of a snippet comes from the line as written.
pub open spec fn snippets_from(ls: Seq<Seq<char>>, q: Seq<char>, k: int) -> Seq<
    (int, Seq<char>, int, int),
>
    decreases ls.len() - k,
{
    if k < 0 || k >= ls.len() {
        Seq::empty()
    } else {
        line_snippets(ls[k], k + 1, q, matches_from(lower_of(ls[k]), q, 0)) + snippets_from(
            ls,
            q,
            k + 1,
        )
    }
}

pub open spec fn snippet_views(v: Seq<SearchSnippet>) -> Seq<(int, Seq<char>, int, int)> {
    v.map_values(
        |x: SearchSnippet| (x.line_number as int, x.text@, x.match_start as int, x.match_length as int),
    )
}

fn make_snippet(line: &Vec<char>, n: usize, qlen: usize, p: usize) -> (r: SearchSnippet)
    requires
        p + qlen + 100 <= usize::MAX,
    ensures
        (r.line_number as int, r.text@, r.match_start as int, r.match_length as int) == snippet_at(
            line@,
            n as int,
            qlen as int,
            p as int,
        ),
{
    let hi0 = p + qlen + CONTEXT_CHARS;
    let hi = if hi0 < line.len() {
        hi0
    } else {
        line.len()
    };
    let lo0 = if p >= CONTEXT_CHARS {
        p - CONTEXT_CHARS
    } else {
        0
    };
    let lo = if lo0 < hi {
        lo0
    } else {
        hi
    };
    let mut text = if lo > 0 {
        String::from_str("...")
    } else {
        String::new()
    };
    let body = string_of(slice_of(line, lo, hi).as_slice());
    text.append(body.as_str());
    if hi < line.len() {
        text.append("...");
    }
    let start = if lo > 0 {
        p - lo + 3
    } else {
        p - lo
    };
    proof {
        reveal_strlit("...");
    }
    SearchSnippet { line_number: n, text, match_start: start, match_length: qlen }
}

/// The snippets of one line: `lowered` is the line lowercased, `query` the
/// lowercased query.
pub fn line_snippets_of(line: &Vec<char>, lowered: &Vec<char>, n: usize, query: &Vec<char>) -> (r: Vec<
    SearchSnippet,
>)
    requires
        query@.len() > 0,
        lowered@.len() + 100 <= usize::MAX,
    ensures
        snippet_views(r@) == line_snippets(line@, n as int, query@, matches_from(lowered@, query@, 0)),
{
    let ghost ps = matches_from(lowered@, query@, 0);
    let mut out: Vec<SearchSnippet> = Vec::new();
    let mut start: usize = 0;
    let ghost mut done: Seq<int> = Seq::empty();
    assert(snippet_views(out@) =~= Seq::<(int, Seq<char>, int, int)>::empty());
    while start < lowered.len() && query.len() <= lowered.len() - start
        invariant
            query@.len() > 0,
            start <= lowered@.len(),
            lowered@.len() + 100 <= usize::MAX,
            done + matches_from(lowered@, query@, start as int) == ps,
            snippet_views(out@) == line_snippets(line@, n as int, query@, done),
        decreases lowered@.len() - start,
    {
        if occurs_here(lowered, query, start) {
            let sn = make_snippet(line, n, query.len(), start);
            proof {
                assert(snippet_views(out@.push(sn)) =~= snippet_views(out@).push(
                    (sn.line_number as int, sn.text@, sn.match_start as int, sn.match_length as int),
                ));
                assert((done + seq![start as int]).drop_last() =~= done);
                assert(done + (seq![start as int] + matches_from(lowered@, query@, start + query@.len()))
                    =~= (done + seq![start as int]) + matches_from(lowered@, query@, start + query@.len()));
                done = done + seq![start as int];
            }
            out.push(sn);
            start = start + query.len();
        } else {
            start = start + 1;
        }
    }
    assert(matches_from(lowered@, query@, start as int) =~= Seq::<int>::empty());
    assert(done =~= ps);
    out
}

/// Every place where a lowercased query occurs in a note, line by line,
/// with up to fifty characters of context on each side, marked by `...`
/// where the line goes on. `None` if a lowercased line is too long to
/// count its positions.
pub fn extract_search_snippets(content: &str, query_lower: &str) -> (r: Option<Vec<SearchSnippet>>)
    requires
        query_lower@.len() > 0,
    ensures
        r matches Some(v) ==> snippet_views(v@) == snippets_from(lines_of(content@), query_lower@, 0),
        r is None ==> exists|j: int|
            0 <= j < lines_of(content@).len() && lower_of(#[trigger] lines_of(content@)[j]).len() + 100
                > usize::MAX,
{
    let q = chars_of(query_lower);
    let cs = chars_of(content);
    let lines = split_lines(&cs);
    let ghost ls = views(lines@);
    let mut out: Vec<SearchSnippet> = Vec::new();
    let mut k: usize = 0;
    assert(snippet_views(out@) =~= Seq::<(int, Seq<char>, int, int)>::empty());
    while k < lines.len()
        invariant
            k <= lines@.len(),
            ls == views(lines@),
            ls == lines_of(content@),
            q@ == query_lower@,
            q@.len() > 0,
            snippet_views(out@) + snippets_from(ls, q@, k as int) == snippets_from(ls, q@, 0),
        decreases lines@.len() - k,
    {
        let line = &lines[k];
        assert(ls[k as int] == line@);
        let lowered = chars_of(to_lower(string_of(line.as_slice()).as_str()).as_str());
        if lowered.len() > usize::MAX - 100 {
            return None;
        }
        let found = line_snippets_of(line, &lowered, k + 1, &q);
        let ghost before = snippet_views(out@);
        let mut m: usize = 0;
        while m < found.len()
            invariant
                m <= found@.len(),
                snippet_views(out@) == before + snippet_views(found@).take(m as int),
            decreases found@.len() - m,
        {
            let f = &found[m];
            let c = SearchSnippet {
                line_number: f.line_number,
                text: f.text.clone(),
                match_start: f.match_start,
                match_length: f.match_length,
            };
            assert(snippet_views(found@)[m as int] == (
                c.line_number as int,
                c.text@,
                c.match_start as int,
                c.match_length as int,
            ));
            assert(snippet_views(out@.push(c)) =~= snippet_views(out@).push(snippet_views(found@)[m as int]));
            assert(snippet_views(found@).take(m as int + 1) =~= snippet_views(found@).take(m as int).push(
                snippet_views(found@)[m as int],
            ));
            out.push(c);
            m = m + 1;
        }
        assert(snippet_views(found@).take(m as int) =~= snippet_views(found@));
        proof {
            assert(before + (snippet_views(found@) + snippets_from(ls, q@, k + 1)) =~= (before
                + snippet_views(found@)) + snippets_from(ls, q@, k + 1));
        }
        k = k + 1;
    }
    assert(snippet_views(out@) =~= snippet_views(out@) + snippets_from(ls, q@, k as int));
    Some(out)
}

// ---------------------------------------------------------------- listing

impl View for NoteMetadata {
    type V = (Seq<char>, Seq<char>, int, Seq<char>, Seq<char>);

    open spec fn view(&self) -> Self::V {
        (self.path@, self.title@, self.last_modified as int, self.relative_path@, self.folder@)
    }
}

impl crate::table::Sortable for NoteMetadata {
    /// By folder, then by title.
    open spec fn le(a: Self::V, b: Self::V) -> bool {
        if a.4 != b.4 {
            crate::text::text_le(a.4, b.4)
        } else {
            crate::text::text_le(a.1, b.1)
        }
    }

    proof fn lemma_total(a: Self::V, b: Self::V) {
        crate::text::lemma_text_le_total(a.4, b.4);
        crate::text::lemma_text_le_total(a.1, b.1);
    }

    fn le_exec(&self, other: &Self) -> (r: bool) {
        if self.folder != other.folder {
            crate::text::text_le_exec(&self.folder, &other.folder)
        } else {
            crate::text::text_le_exec(&self.title, &other.title)
        }
    }
}

/// The position of the last `/` before `k`, or -1.
pub open spec fn last_slash(s: Seq<char>, k: int) -> int
    decreases k,
{
    if k <= 0 || k > s.len() {
        -1
    } else if s[k - 1] == '/' {
        k - 1
    } else {
        last_slash(s, k - 1)
    }
}

/// The folder part of a relative path: what comes before its last `/`.
pub open spec fn dir_of(r: Seq<char>) -> Seq<char> {
    if last_slash(r, r.len() as int) >= 0 {
        r.subrange(0, last_slash(r, r.len() as int))
    } else {
        Seq::empty()
    }
}

/// The title a note is listed under: its file stem, or `Untitled`.
pub open spec fn title_of(path: Seq<char>) -> Seq<char> {
    match crate::resolve::stem_of(path) {
        Some(t) => t,
        None => "Untitled"@,
    }
}

/// The listing entry of a markdown file found at `path` with modification
/// time `time`: its title, its path relative to the notes folder (the path
/// itself when outside it) and its folder there; `None` when it lies in a
/// reserved folder.
pub open spec fn listed(path: Seq<char>, time: int, base: Seq<char>) -> Option<
    (Seq<char>, Seq<char>, int, Seq<char>, Seq<char>),
> {
    let rel = match relative_to(path, base) {
        Some(r) => r,
        None => path,
    };
    let folder = match relative_to(path, base) {
        Some(r) => dir_of(r),
        None => Seq::empty(),
    };
    if in_reserved(rel) {
        None
    } else {
        Some((path, title_of(path), time, rel, folder))
    }
}

/// The listing entries of the files, in the order found.
pub open spec fn listed_all(files: Seq<(Seq<char>, int)>, base: Seq<char>) -> Seq<
    (Seq<char>, Seq<char>, int, Seq<char>, Seq<char>),
>
    decreases files.len(),
{
    if files.len() == 0 {
        Seq::empty()
    } else {
        let prev = listed_all(files.drop_last(), base);
        match listed(files.last().0, files.last().1, base) {
            Some(e) => prev.push(e),
            None => prev,
        }
    }
}

fn relative_path_of(p: &Vec<char>, b: &Vec<char>) -> (r: Option<Vec<char>>)
    ensures
        opt_chars(r) == relative_to(p@, b@),
{
    if !is_within(p, b) {
        return None;
    }
    if p.len() == b.len() {
        assert(p@ =~= b@);
        assert(Seq::<char>::empty() =~= p@.subrange(0, 0));
        Some(slice_of(p, 0, 0))
    } else if b.len() > 0 && b[b.len() - 1] == '/' {
        Some(slice_of(p, b.len(), p.len()))
    } else {
        Some(slice_of(p, b.len() + 1, p.len()))
    }
}

pub open spec fn opt_chars(o: Option<Vec<char>>) -> Option<Seq<char>> {
    match o {
        Some(v) => Some(v@),
        None => None,
    }
}

fn dir_part(r: &Vec<char>) -> (d: Vec<char>)
    ensures
        d@ == dir_of(r@),
{
    let mut k: usize = r.len();
    while k > 0 && r[k - 1] != '/'
        invariant
            k <= r@.len(),
            last_slash(r@, r@.len() as int) == last_slash(r@, k as int),
        decreases k,
    {
        k = k - 1;
    }
    if k > 0 {
        slice_of(r, 0, k - 1)
    } else {
        Vec::new()
    }
}

/// The notes of the tree as a listing shows them, by folder and then by
/// title; notes with the same folder and title keep the order of `files`.
/// `files` are the markdown files found under the notes folder `base`, in
/// walk order, with their modification times.
pub fn list_notes(files: &Vec<(String, i64)>, base: &str) -> (r: Vec<NoteMetadata>)
    ensures
        rv(r@) == crate::table::stable_sorted::<NoteMetadata>(
            listed_all(files@.map_values(|f: (String, i64)| (f.0@, f.1 as int)), base@),
        ),
        rv(r@).to_multiset() == listed_all(
            files@.map_values(|f: (String, i64)| (f.0@, f.1 as int)),
            base@,
        ).to_multiset(),
        crate::table::sorted::<NoteMetadata>(rv(r@)),
{
    let ghost fv = files@.map_values(|f: (String, i64)| (f.0@, f.1 as int));
    let b = chars_of(base);
    let mut out: Vec<NoteMetadata> = Vec::new();
    let mut k: usize = 0;
    while k < files.len()
        invariant
            k <= files@.len(),
            fv == files@.map_values(|f: (String, i64)| (f.0@, f.1 as int)),
            b@ == base@,
            rv(out@) == listed_all(fv.take(k as int), base@),
        decreases files@.len() - k,
    {
        assert(fv.take(k as int + 1).drop_last() =~= fv.take(k as int));
        let (path, time) = (&files[k].0, files[k].1);
        assert(fv.take(k as int + 1).last() == (path@, time as int));
        let p = chars_of(path.as_str());
        let (rel, folder) = match relative_path_of(&p, &b) {
            Some(r) => {
                let d = dir_part(&r);
                (r, d)
            },
            None => (p, Vec::new()),
        };
        assert(folder@ == match relative_to(path@, base@) {
            Some(r) => dir_of(r),
            None => Seq::<char>::empty(),
        });
        let rel_text = string_of(rel.as_slice());
        if !in_reserved_folder(rel_text.as_str()) {
            let title = crate::resolve::title_from_path(path.as_str());
            let e = NoteMetadata {
                path: path.clone(),
                title,
                last_modified: time,
                relative_path: rel_text,
                folder: string_of(folder.as_slice()),
            };
            assert(e@ == listed(path@, time as int, base@).unwrap());
            assert(rv(out@.push(e)) =~= rv(out@).push(e@));
            out.push(e);
        }
        k = k + 1;
    }
    assert(fv.take(k as int) =~= fv);
    crate::table::sort_rows(out)
}

} // verus!
