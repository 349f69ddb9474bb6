//! The index store: links, tags, todos, blocks, note texts and the sync
//! stamps of the notes, each held as a keyed table. Re-indexing a note
//! replaces every row that it owns.
use vstd::prelude::*;

use crate::extract::{
    extract_blocks, extract_links, extract_tags, extract_todos, heading_views, headings_in,
    links_in, string_views, tags_in, todo_views, todos_in, TodoFacts, TodoItem, sopt, iopt,
};
use crate::resolve::{before_hash, path_views, resolve_note_link, resolved, split_block_ref};
use crate::table::{
    lookup, key_index, lemma_key_index, lemma_key_index_unique, drop_owned, rv, unique_keys, upsert, upsert_all,
    upserted, without, Row,
};
use crate::table::{sort_rows, sorted, Sortable};
use crate::text::{
    split_words, views, words_of,
    chars_of, count_matches, lemma_text_le_total, lower_of, matches_from, occurs, occurs_in,
    text_le, text_le_exec, to_lower,
};

verus! {

// ---------------------------------------------------------------- rows

/// A link edge between two notes.
pub struct Link {
    pub from_note: String,
    pub to_note: String,
}

impl View for Link {
    type V = (Seq<char>, Seq<char>);

    open spec fn view(&self) -> Self::V {
        (self.from_note@, self.to_note@)
    }
}

impl Row for Link {
    type Key = (Seq<char>, Seq<char>);

    open spec fn key(v: Self::V) -> Self::Key {
        v
    }

    open spec fn owner(v: Self::V) -> Seq<char> {
        v.0
    }

    proof fn lemma_key_owner(a: Self::V, b: Self::V) {
    }

    fn same_key(&self, other: &Self) -> (r: bool) {
        self.from_note == other.from_note && self.to_note == other.to_note
    }

    fn owned_by(&self, path: &String) -> (r: bool) {
        self.from_note == *path
    }
}

/// A tag carried by a note.
pub struct Tag {
    pub tag: String,
    pub note_path: String,
}

impl View for Tag {
    type V = (Seq<char>, Seq<char>);

    open spec fn view(&self) -> Self::V {
        (self.tag@, self.note_path@)
    }
}

impl Row for Tag {
    type Key = (Seq<char>, Seq<char>);

    open spec fn key(v: Self::V) -> Self::Key {
        v
    }

    open spec fn owner(v: Self::V) -> Seq<char> {
        v.1
    }

    proof fn lemma_key_owner(a: Self::V, b: Self::V) {
    }

    fn same_key(&self, other: &Self) -> (r: bool) {
        self.tag == other.tag && self.note_path == other.note_path
    }

    fn owned_by(&self, path: &String) -> (r: bool) {
        self.note_path == *path
    }
}

/// A todo of a note, keyed by its note and line.
pub struct Todo {
    pub note_path: String,
    pub line_number: usize,
    pub content: String,
    pub is_completed: bool,
    pub due_date: Option<String>,
    pub priority: Option<String>,
    pub indent_level: usize,
    pub parent_line: Option<usize>,
    pub recurrence_pattern: Option<String>,
}

impl View for Todo {
    type V = (Seq<char>, TodoFacts);

    open spec fn view(&self) -> Self::V {
        (
            self.note_path@,
            TodoFacts {
                line: self.line_number as int,
                content: self.content@,
                done: self.is_completed,
                due: sopt(self.due_date),
                priority: sopt(self.priority),
                indent: self.indent_level as int,
                parent: iopt(self.parent_line),
                recurrence: sopt(self.recurrence_pattern),
            },
        )
    }
}

impl Row for Todo {
    type Key = (Seq<char>, int);

    open spec fn key(v: Self::V) -> Self::Key {
        (v.0, v.1.line)
    }

    open spec fn owner(v: Self::V) -> Seq<char> {
        v.0
    }

    proof fn lemma_key_owner(a: Self::V, b: Self::V) {
    }

    fn same_key(&self, other: &Self) -> (r: bool) {
        self.note_path == other.note_path && self.line_number == other.line_number
    }

    fn owned_by(&self, path: &String) -> (r: bool) {
        self.note_path == *path
    }
}

/// Todos in order of note, then open before completed, then line.
pub open spec fn todo_le(a: (Seq<char>, TodoFacts), b: (Seq<char>, TodoFacts)) -> bool {
    if a.0 != b.0 {
        text_le(a.0, b.0)
    } else if a.1.done != b.1.done {
        !a.1.done
    } else {
        a.1.line <= b.1.line
    }
}

impl Sortable for Todo {
    open spec fn le(a: Self::V, b: Self::V) -> bool {
        todo_le(a, b)
    }

    proof fn lemma_total(a: Self::V, b: Self::V) {
        lemma_text_le_total(a.0, b.0);
    }

    fn le_exec(&self, other: &Self) -> (r: bool) {
        if self.note_path != other.note_path {
            text_le_exec(&self.note_path, &other.note_path)
        } else if self.is_completed != other.is_completed {
            !self.is_completed
        } else {
            self.line_number <= other.line_number
        }
    }
}

impl Sortable for String {
    open spec fn le(a: Seq<char>, b: Seq<char>) -> bool {
        text_le(a, b)
    }

    proof fn lemma_total(a: Seq<char>, b: Seq<char>) {
        lemma_text_le_total(a, b);
    }

    fn le_exec(&self, other: &Self) -> (r: bool) {
        text_le_exec(self, other)
    }
}

/// A heading of a note, addressable by its block id.
pub struct Block {
    pub note_path: String,
    pub block_id: String,
    pub line_number: usize,
    pub content: String,
}

impl View for Block {
    type V = (Seq<char>, Seq<char>, int, Seq<char>);

    open spec fn view(&self) -> Self::V {
        (self.note_path@, self.block_id@, self.line_number as int, self.content@)
    }
}

impl Row for Block {
    type Key = (Seq<char>, Seq<char>);

    open spec fn key(v: Self::V) -> Self::Key {
        (v.0, v.1)
    }

    open spec fn owner(v: Self::V) -> Seq<char> {
        v.0
    }

    proof fn lemma_key_owner(a: Self::V, b: Self::V) {
    }

    fn same_key(&self, other: &Self) -> (r: bool) {
        self.note_path == other.note_path && self.block_id == other.block_id
    }

    fn owned_by(&self, path: &String) -> (r: bool) {
        self.note_path == *path
    }
}

/// The searchable text of a note: its title and content.
pub struct NoteText {
    pub note_path: String,
    pub title: String,
    pub content: String,
}

impl View for NoteText {
    type V = (Seq<char>, Seq<char>, Seq<char>);

    open spec fn view(&self) -> Self::V {
        (self.note_path@, self.title@, self.content@)
    }
}

impl Row for NoteText {
    type Key = Seq<char>;

    open spec fn key(v: Self::V) -> Self::Key {
        v.0
    }

    open spec fn owner(v: Self::V) -> Seq<char> {
        v.0
    }

    proof fn lemma_key_owner(a: Self::V, b: Self::V) {
    }

    fn same_key(&self, other: &Self) -> (r: bool) {
        self.note_path == other.note_path
    }

    fn owned_by(&self, path: &String) -> (r: bool) {
        self.note_path == *path
    }
}

/// The modification time of a note when it was last indexed.
pub struct Stamp {
    pub note_path: String,
    pub seconds: i64,
    pub nanos: u32,
}

impl View for Stamp {
    type V = (Seq<char>, int, int);

    open spec fn view(&self) -> Self::V {
        (self.note_path@, self.seconds as int, self.nanos as int)
    }
}

impl Row for Stamp {
    type Key = Seq<char>;

    open spec fn key(v: Self::V) -> Self::Key {
        v.0
    }

    open spec fn owner(v: Self::V) -> Seq<char> {
        v.0
    }

    proof fn lemma_key_owner(a: Self::V, b: Self::V) {
    }

    fn same_key(&self, other: &Self) -> (r: bool) {
        self.note_path == other.note_path
    }

    fn owned_by(&self, path: &String) -> (r: bool) {
        self.note_path == *path
    }
}

// ---------------------------------------------------------------- the store

/// What the index holds, table by table.
pub ghost struct IndexState {
    pub links: Seq<(Seq<char>, Seq<char>)>,
    pub tags: Seq<(Seq<char>, Seq<char>)>,
    pub todos: Seq<(Seq<char>, TodoFacts)>,
    pub blocks: Seq<(Seq<char>, Seq<char>, int, Seq<char>)>,
    pub texts: Seq<(Seq<char>, Seq<char>, Seq<char>)>,
    pub stamps: Seq<(Seq<char>, int, int)>,
}

/// Every table holds at most one row per key.
pub open spec fn state_wf(s: IndexState) -> bool {
    &&& unique_keys::<Link>(s.links)
    &&& unique_keys::<Tag>(s.tags)
    &&& unique_keys::<Todo>(s.todos)
    &&& unique_keys::<Block>(s.blocks)
    &&& unique_keys::<NoteText>(s.texts)
    &&& unique_keys::<Stamp>(s.stamps)
}

/// The index without any derived row of `path`; its stamp stays.
pub open spec fn cleared(s: IndexState, path: Seq<char>) -> IndexState {
    IndexState {
        links: without::<Link>(s.links, path),
        tags: without::<Tag>(s.tags, path),
        todos: without::<Todo>(s.todos, path),
        blocks: without::<Block>(s.blocks, path),
        texts: without::<NoteText>(s.texts, path),
        stamps: s.stamps,
    }
}

/// The index without anything of `path`, stamp included.
pub open spec fn forgotten(s: IndexState, path: Seq<char>) -> IndexState {
    IndexState { stamps: without::<Stamp>(s.stamps, path), ..cleared(s, path) }
}

/// The link rows of a note whose raw link targets are `raws`: one per target
/// whose note name, the part before `#`, resolves, in order.
pub open spec fn link_rows(path: Seq<char>, raws: Seq<Seq<char>>, notes: Seq<Seq<char>>) -> Seq<
    (Seq<char>, Seq<char>),
>
    decreases raws.len(),
{
    if raws.len() == 0 {
        Seq::empty()
    } else {
        let prev = link_rows(path, raws.drop_last(), notes);
        match resolved(before_hash(raws.last()), notes) {
            Some(t) => prev.push((path, t)),
            None => prev,
        }
    }
}

pub open spec fn tag_rows(path: Seq<char>, tags: Seq<Seq<char>>) -> Seq<(Seq<char>, Seq<char>)> {
    tags.map_values(|t: Seq<char>| (t, path))
}

pub open spec fn todo_rows(path: Seq<char>, todos: Seq<TodoFacts>) -> Seq<(Seq<char>, TodoFacts)> {
    todos.map_values(|t: TodoFacts| (path, t))
}

pub open spec fn block_rows(path: Seq<char>, hs: Seq<(Seq<char>, int, Seq<char>)>) -> Seq<
    (Seq<char>, Seq<char>, int, Seq<char>),
> {
    hs.map_values(|h: (Seq<char>, int, Seq<char>)| (path, h.0, h.1, h.2))
}

/// The index after `path` is indexed from `content` without its text and
/// blocks: its old rows are dropped, then its links, tags and todos are read.
pub open spec fn cached(
    s: IndexState,
    path: Seq<char>,
    content: Seq<char>,
    notes: Seq<Seq<char>>,
) -> IndexState {
    let c = cleared(s, path);
    IndexState {
        links: upsert_all::<Link>(c.links, link_rows(path, links_in(content), notes)),
        tags: upsert_all::<Tag>(c.tags, tag_rows(path, tags_in(content))),
        todos: upsert_all::<Todo>(c.todos, todo_rows(path, todos_in(content))),
        ..c
    }
}

/// The index after `path` is fully re-indexed: links, tags and todos as in
/// `cached`, then its text and its blocks.
pub open spec fn reindexed(
    s: IndexState,
    path: Seq<char>,
    title: Seq<char>,
    content: Seq<char>,
    notes: Seq<Seq<char>>,
) -> IndexState {
    let c = cached(s, path, content, notes);
    IndexState {
        texts: upserted::<NoteText>(c.texts, (path, title, content)),
        blocks: upsert_all::<Block>(c.blocks, block_rows(path, headings_in(content))),
        ..c
    }
}

/// The sources of the links that point to `p`, in table order.
pub open spec fn sources_to(ls: Seq<(Seq<char>, Seq<char>)>, p: Seq<char>) -> Seq<Seq<char>>
    decreases ls.len(),
{
    if ls.len() == 0 {
        Seq::empty()
    } else {
        let prev = sources_to(ls.drop_last(), p);
        if ls.last().1 == p {
            prev.push(ls.last().0)
        } else {
            prev
        }
    }
}

/// The links from or to `p`, in table order.
pub open spec fn links_touching(ls: Seq<(Seq<char>, Seq<char>)>, p: Seq<char>) -> Seq<
    (Seq<char>, Seq<char>),
>
    decreases ls.len(),
{
    if ls.len() == 0 {
        Seq::empty()
    } else {
        let prev = links_touching(ls.drop_last(), p);
        if ls.last().0 == p || ls.last().1 == p {
            prev.push(ls.last())
        } else {
            prev
        }
    }
}

/// The notes that carry `tag`, in table order.
pub open spec fn notes_tagged(ts: Seq<(Seq<char>, Seq<char>)>, tag: Seq<char>) -> Seq<Seq<char>>
    decreases ts.len(),
{
    if ts.len() == 0 {
        Seq::empty()
    } else {
        let prev = notes_tagged(ts.drop_last(), tag);
        if ts.last().0 == tag {
            prev.push(ts.last().1)
        } else {
            prev
        }
    }
}

/// Each tag name once, in order of first appearance.
pub open spec fn distinct_tags(ts: Seq<(Seq<char>, Seq<char>)>) -> Seq<Seq<char>>
    decreases ts.len(),
{
    if ts.len() == 0 {
        Seq::empty()
    } else {
        let prev = distinct_tags(ts.drop_last());
        if prev.contains(ts.last().0) {
            prev
        } else {
            prev.push(ts.last().0)
        }
    }
}

/// The todos whose completion is `done`, or all of them, in table order.
pub open spec fn todos_where(ts: Seq<(Seq<char>, TodoFacts)>, only_open: bool) -> Seq<
    (Seq<char>, TodoFacts),
>
    decreases ts.len(),
{
    if ts.len() == 0 {
        Seq::empty()
    } else {
        let prev = todos_where(ts.drop_last(), only_open);
        if !only_open || !ts.last().1.done {
            prev.push(ts.last())
        } else {
            prev
        }
    }
}

/// The blocks of a note as (block id, line, text), in table order.
pub open spec fn blocks_of(bs: Seq<(Seq<char>, Seq<char>, int, Seq<char>)>, p: Seq<char>) -> Seq<
    (Seq<char>, int, Seq<char>),
>
    decreases bs.len(),
{
    if bs.len() == 0 {
        Seq::empty()
    } else {
        let prev = blocks_of(bs.drop_last(), p);
        if bs.last().0 == p {
            prev.push((bs.last().1, bs.last().2, bs.last().3))
        } else {
            prev
        }
    }
}

/// The paths of a table of stamps, in table order.
pub open spec fn stamp_paths(st: Seq<(Seq<char>, int, int)>) -> Seq<Seq<char>> {
    st.map_values(|e: (Seq<char>, int, int)| e.0)
}


/// The search terms of a query: the words of the query, lowercased.
pub open spec fn query_terms(q: Seq<char>) -> Seq<Seq<char>> {
    words_of(lower_of(q))
}

/// Every term occurs in the lowercased title or the lowercased content.
pub open spec fn all_terms_occur(title: Seq<char>, body: Seq<char>, terms: Seq<Seq<char>>) -> bool {
    forall|k: int| 0 <= k < terms.len() ==> occurs_in(title, #[trigger] terms[k]) || occurs_in(body, terms[k])
}

/// How often the terms occur in the lowercased title and content, together.
pub open spec fn term_count(title: Seq<char>, body: Seq<char>, terms: Seq<Seq<char>>) -> int
    decreases terms.len(),
{
    if terms.len() == 0 {
        0
    } else {
        term_count(title, body, terms.drop_last()) + matches_from(title, terms.last(), 0).len()
            + matches_from(body, terms.last(), 0).len()
    }
}

/// A note text matches a query that has at least one term when each term
/// occurs, ignoring case, in its title or its content.
pub open spec fn text_matches(t: (Seq<char>, Seq<char>, Seq<char>), q: Seq<char>) -> bool {
    query_terms(q).len() > 0 && all_terms_occur(lower_of(t.1), lower_of(t.2), query_terms(q))
}

/// The relevance of a note text to a query: how often its terms occur in
/// the lowercased title and content, capped at the largest `usize`.
pub open spec fn score_of(t: (Seq<char>, Seq<char>, Seq<char>), q: Seq<char>) -> int {
    crate::extract::capped(term_count(lower_of(t.1), lower_of(t.2), query_terms(q)))
}

/// The matching note texts as (path, relevance), in table order.
pub open spec fn scored_hits(ts: Seq<(Seq<char>, Seq<char>, Seq<char>)>, q: Seq<char>) -> Seq<
    (Seq<char>, int),
>
    decreases ts.len(),
{
    if ts.len() == 0 {
        Seq::empty()
    } else {
        let prev = scored_hits(ts.drop_last(), q);
        if text_matches(ts.last(), q) {
            prev.push((ts.last().0, score_of(ts.last(), q)))
        } else {
            prev
        }
    }
}

/// A note found by a search, with its relevance.
pub struct SearchHit {
    pub note_path: String,
    pub score: usize,
}

impl View for SearchHit {
    type V = (Seq<char>, int);

    open spec fn view(&self) -> Self::V {
        (self.note_path@, self.score as int)
    }
}

impl Sortable for SearchHit {
    /// The more relevant hit comes first.
    open spec fn le(a: Self::V, b: Self::V) -> bool {
        a.1 >= b.1
    }

    proof fn lemma_total(a: Self::V, b: Self::V) {
    }

    fn le_exec(&self, other: &Self) -> (r: bool) {
        self.score >= other.score
    }
}

/// The index after every path of `paths` is forgotten, in order.
pub open spec fn forget_all(s: IndexState, paths: Seq<Seq<char>>) -> IndexState
    decreases paths.len(),
{
    if paths.len() == 0 {
        s
    } else {
        forgotten(forget_all(s, paths.drop_last()), paths.last())
    }
}

/// A markdown file as one sync pass sees it: path, title, modification time,
/// and its content, or `None` when it could not be read.
pub struct NoteOnDisk {
    pub path: String,
    pub title: String,
    pub seconds: i64,
    pub nanos: u32,
    pub content: Option<String>,
}

pub ghost struct DiskFacts {
    pub path: Seq<char>,
    pub title: Seq<char>,
    pub seconds: int,
    pub nanos: int,
    pub content: Option<Seq<char>>,
}

impl View for NoteOnDisk {
    type V = DiskFacts;

    open spec fn view(&self) -> DiskFacts {
        DiskFacts {
            path: self.path@,
            title: self.title@,
            seconds: self.seconds as int,
            nanos: self.nanos as int,
            content: sopt(self.content),
        }
    }
}

/// The index with the stamp of `path` set.
pub open spec fn stamped(s: IndexState, path: Seq<char>, seconds: int, nanos: int) -> IndexState {
    IndexState { stamps: upserted::<Stamp>(s.stamps, (path, seconds, nanos)), ..s }
}

/// The stored stamp of a file equals its time on disk.
pub open spec fn unchanged(s: IndexState, f: DiskFacts) -> bool {
    lookup::<Stamp>(s.stamps, f.path) == Some((f.path, f.seconds, f.nanos))
}

/// A file is re-indexed when it is new or its time differs, and it was read.
pub open spec fn touches(s: IndexState, f: DiskFacts) -> bool {
    !unchanged(s, f) && f.content is Some
}

/// The index after one file is visited.
pub open spec fn visit(s: IndexState, f: DiskFacts, notes: Seq<Seq<char>>) -> IndexState {
    if touches(s, f) {
        stamped(
            reindexed(s, f.path, f.title, f.content.unwrap(), notes),
            f.path,
            f.seconds,
            f.nanos,
        )
    } else {
        s
    }
}

/// The index after the files are visited in order.
pub open spec fn visit_all(s: IndexState, fs: Seq<DiskFacts>, notes: Seq<Seq<char>>) -> IndexState
    decreases fs.len(),
{
    if fs.len() == 0 {
        s
    } else {
        visit(visit_all(s, fs.drop_last(), notes), fs.last(), notes)
    }
}

/// How many of the files a pass re-indexes.
pub open spec fn touched_count(s: IndexState, fs: Seq<DiskFacts>, notes: Seq<Seq<char>>) -> nat
    decreases fs.len(),
{
    if fs.len() == 0 {
        0
    } else {
        let before = visit_all(s, fs.drop_last(), notes);
        touched_count(s, fs.drop_last(), notes) + if touches(before, fs.last()) {
            1nat
        } else {
            0nat
        }
    }
}

pub open spec fn file_paths(fs: Seq<DiskFacts>) -> Seq<Seq<char>> {
    fs.map_values(|f: DiskFacts| f.path)
}

/// The stamped paths that are not among `present`, in table order.
pub open spec fn stale_of(st: Seq<(Seq<char>, int, int)>, present: Seq<Seq<char>>) -> Seq<
    Seq<char>,
>
    decreases st.len(),
{
    if st.len() == 0 {
        Seq::empty()
    } else {
        let prev = stale_of(st.drop_last(), present);
        if present.contains(st.last().0) {
            prev
        } else {
            prev.push(st.last().0)
        }
    }
}

/// The index after a sync pass over the files of the tree: every file is
/// visited, then every stamped path that is no longer on disk is forgotten.
pub open spec fn synced(s: IndexState, fs: Seq<DiskFacts>, notes: Seq<Seq<char>>) -> IndexState {
    let v = visit_all(s, fs, notes);
    forget_all(v, stale_of(v.stamps, file_paths(fs)))
}

pub open spec fn disk_views(v: Seq<NoteOnDisk>) -> Seq<DiskFacts> {
    v.map_values(|f: NoteOnDisk| f@)
}

/// The note index.
pub struct CacheDb {
    links: Vec<Link>,
    tags: Vec<Tag>,
    todos: Vec<Todo>,
    blocks: Vec<Block>,
    texts: Vec<NoteText>,
    stamps: Vec<Stamp>,
}

impl View for CacheDb {
    type V = IndexState;

    closed spec fn view(&self) -> IndexState {
        IndexState {
            links: rv(self.links@),
            tags: rv(self.tags@),
            todos: rv(self.todos@),
            blocks: rv(self.blocks@),
            texts: rv(self.texts@),
            stamps: rv(self.stamps@),
        }
    }
}

fn own(s: &str) -> (r: String)
    ensures
        r@ == s@,
{
    s.to_owned()
}

pub fn clone_opt(o: &Option<String>) -> (r: Option<String>)
    ensures
        sopt(r) == sopt(*o),
{
    match o {
        Some(s) => Some(s.clone()),
        None => None,
    }
}

impl CacheDb {
    pub open spec fn wf(&self) -> bool {
        state_wf(self@)
    }

    /// An empty index.
    pub fn new() -> (r: CacheDb)
        ensures
            r.wf(),
            r@.links.len() == 0 && r@.tags.len() == 0 && r@.todos.len() == 0 && r@.blocks.len()
                == 0 && r@.texts.len() == 0 && r@.stamps.len() == 0,
    {
        let r = CacheDb {
            links: Vec::new(),
            tags: Vec::new(),
            todos: Vec::new(),
            blocks: Vec::new(),
            texts: Vec::new(),
            stamps: Vec::new(),
        };
        assert(rv(r.links@) =~= Seq::empty());
        assert(rv(r.tags@) =~= Seq::empty());
        assert(rv(r.todos@) =~= Seq::empty());
        assert(rv(r.blocks@) =~= Seq::empty());
        assert(rv(r.texts@) =~= Seq::empty());
        assert(rv(r.stamps@) =~= Seq::empty());
        r
    }

    /// Drops every derived row of a note: links from it, its tags, todos,
    /// text and blocks. Its stamp stays.
    pub fn clear_note_cache(&mut self, note_path: &str)
        requires
            old(self).wf(),
        ensures
            final(self).wf(),
            final(self)@ == cleared(old(self)@, note_path@),
    {
        let p = own(note_path);
        drop_owned(&mut self.links, &p);
        drop_owned(&mut self.tags, &p);
        drop_owned(&mut self.todos, &p);
        drop_owned(&mut self.texts, &p);
        drop_owned(&mut self.blocks, &p);
    }

    /// Records a link from one note to another; a second record of the same
    /// pair changes nothing.
    pub fn add_link(&mut self, from_note: &str, to_note: &str)
        requires
            old(self).wf(),
        ensures
            final(self).wf(),
            final(self)@ == (IndexState {
                links: upserted::<Link>(old(self)@.links, (from_note@, to_note@)),
                ..old(self)@
            }),
    {
        upsert(&mut self.links, Link { from_note: own(from_note), to_note: own(to_note) });
    }

    /// Records that a note carries a tag; a second record changes nothing.
    pub fn add_tag(&mut self, tag: &str, note_path: &str)
        requires
            old(self).wf(),
        ensures
            final(self).wf(),
            final(self)@ == (IndexState {
                tags: upserted::<Tag>(old(self)@.tags, (tag@, note_path@)),
                ..old(self)@
            }),
    {
        upsert(&mut self.tags, Tag { tag: own(tag), note_path: own(note_path) });
    }

    /// Stores a todo of a note, replacing the one on the same line.
    pub fn add_todo(&mut self, note_path: &str, todo: &TodoItem)
        requires
            old(self).wf(),
        ensures
            final(self).wf(),
            final(self)@ == (IndexState {
                todos: upserted::<Todo>(old(self)@.todos, (note_path@, todo@)),
                ..old(self)@
            }),
    {
        let row = Todo {
            note_path: own(note_path),
            line_number: todo.line_number,
            content: todo.content.clone(),
            is_completed: todo.is_completed,
            due_date: clone_opt(&todo.due_date),
            priority: clone_opt(&todo.priority),
            indent_level: todo.indent_level,
            parent_line: todo.parent_line,
            recurrence_pattern: clone_opt(&todo.recurrence_pattern),
        };
        upsert(&mut self.todos, row);
    }

    /// Stores the searchable text of a note, replacing the one it had.
    pub fn add_note_content(&mut self, note_path: &str, title: &str, content: &str)
        requires
            old(self).wf(),
        ensures
            final(self).wf(),
            final(self)@ == (IndexState {
                texts: upserted::<NoteText>(old(self)@.texts, (note_path@, title@, content@)),
                ..old(self)@
            }),
    {
        upsert(
            &mut self.texts,
            NoteText { note_path: own(note_path), title: own(title), content: own(content) },
        );
    }

    /// Drops the searchable text of a note.
    pub fn remove_note_content(&mut self, note_path: &str)
        requires
            old(self).wf(),
        ensures
            final(self).wf(),
            final(self)@ == (IndexState {
                texts: without::<NoteText>(old(self)@.texts, note_path@),
                ..old(self)@
            }),
    {
        let p = own(note_path);
        drop_owned(&mut self.texts, &p);
    }

    /// Stores a block of a note, replacing the one with the same id.
    pub fn add_block(&mut self, note_path: &str, block_id: &str, line_number: usize, content: &str)
        requires
            old(self).wf(),
        ensures
            final(self).wf(),
            final(self)@ == (IndexState {
                blocks: upserted::<Block>(
                    old(self)@.blocks,
                    (note_path@, block_id@, line_number as int, content@),
                ),
                ..old(self)@
            }),
    {
        upsert(
            &mut self.blocks,
            Block {
                note_path: own(note_path),
                block_id: own(block_id),
                line_number,
                content: own(content),
            },
        );
    }

    /// Drops the blocks of a note.
    pub fn remove_blocks_for_note(&mut self, note_path: &str)
        requires
            old(self).wf(),
        ensures
            final(self).wf(),
            final(self)@ == (IndexState {
                blocks: without::<Block>(old(self)@.blocks, note_path@),
                ..old(self)@
            }),
    {
        let p = own(note_path);
        drop_owned(&mut self.blocks, &p);
    }

    /// Re-indexes the links, tags and todos of a note from its content; its
    /// old rows, text and blocks included, are dropped first. Link targets are
    /// resolved among `notes`, the markdown files of the tree in walk order;
    /// a target that resolves to none is left out.
    pub fn update_note_cache(&mut self, note_path: &str, content: &str, notes: &Vec<String>)
        requires
            old(self).wf(),
        ensures
            final(self).wf(),
            final(self)@ == cached(old(self)@, note_path@, content@, path_views(notes@)),
    {
        self.clear_note_cache(note_path);
        let ghost c = self@;
        let ghost pv = path_views(notes@);
        let raws = extract_links(content);
        let ghost rs = string_views(raws@);
        let mut k: usize = 0;
        assert(rs.take(0) =~= Seq::<Seq<char>>::empty());
        while k < raws.len()
            invariant
                k <= raws@.len(),
                rs == string_views(raws@),
                rs == links_in(content@),
                pv == path_views(notes@),
                self.wf(),
                self@ == (IndexState {
                    links: upsert_all::<Link>(c.links, link_rows(note_path@, rs.take(k as int), pv)),
                    ..c
                }),
            decreases raws@.len() - k,
        {
            assert(rs.take(k as int + 1).drop_last() =~= rs.take(k as int));
            assert(rs[k as int] == raws@[k as int]@);
            assert(rs.take(k as int + 1).last() == rs[k as int]);
            let ghost before = link_rows(note_path@, rs.take(k as int), pv);
            let (name, _block) = split_block_ref(raws[k].as_str());
            match resolve_note_link(name.as_str(), notes) {
                Some(target) => {
                    assert(link_rows(note_path@, rs.take(k as int + 1), pv) == before.push(
                        (note_path@, target@),
                    ));
                    assert(before.push((note_path@, target@)).drop_last() =~= before);
                    self.add_link(note_path, target.as_str());
                },
                None => {
                    assert(link_rows(note_path@, rs.take(k as int + 1), pv) == before);
                },
            }
            k = k + 1;
        }
        assert(rs.take(raws@.len() as int) =~= rs);
        let ghost c2 = self@;
        let tags = extract_tags(content);
        let ghost ts = tag_rows(note_path@, string_views(tags@));
        let mut k: usize = 0;
        while k < tags.len()
            invariant
                k <= tags@.len(),
                ts == tag_rows(note_path@, string_views(tags@)),
                string_views(tags@) == tags_in(content@),
                self.wf(),
                self@ == (IndexState { tags: upsert_all::<Tag>(c2.tags, ts.take(k as int)), ..c2 }),
            decreases tags@.len() - k,
        {
            assert(ts.take(k as int + 1).drop_last() =~= ts.take(k as int));
            assert(ts[k as int] == (tags@[k as int]@, note_path@));
            self.add_tag(tags[k].as_str(), note_path);
            k = k + 1;
        }
        assert(ts.take(tags@.len() as int) =~= ts);
        let ghost c3 = self@;
        let todos = extract_todos(content);
        let ghost tds = todo_rows(note_path@, todo_views(todos@));
        let mut k: usize = 0;
        while k < todos.len()
            invariant
                k <= todos@.len(),
                tds == todo_rows(note_path@, todo_views(todos@)),
                todo_views(todos@) == todos_in(content@),
                self.wf(),
                self@ == (IndexState { todos: upsert_all::<Todo>(c3.todos, tds.take(k as int)), ..c3 }),
            decreases todos@.len() - k,
        {
            assert(tds.take(k as int + 1).drop_last() =~= tds.take(k as int));
            assert(tds[k as int] == (note_path@, todos@[k as int]@));
            self.add_todo(note_path, &todos[k]);
            k = k + 1;
        }
        assert(tds.take(todos@.len() as int) =~= tds);
    }

    /// Re-indexes a note fully: links, tags and todos as
    /// `update_note_cache` does, then its searchable text and its blocks.
    pub fn update_note_cache_with_fts(
        &mut self,
        note_path: &str,
        title: &str,
        content: &str,
        notes: &Vec<String>,
    )
        requires
            old(self).wf(),
        ensures
            final(self).wf(),
            final(self)@ == reindexed(old(self)@, note_path@, title@, content@, path_views(notes@)),
    {
        self.update_note_cache(note_path, content, notes);
        self.add_note_content(note_path, title, content);
        let ghost c = self@;
        let hs = extract_blocks(content);
        let ghost bs = block_rows(note_path@, heading_views(hs@));
        let mut k: usize = 0;
        while k < hs.len()
            invariant
                k <= hs@.len(),
                bs == block_rows(note_path@, heading_views(hs@)),
                heading_views(hs@) == headings_in(content@),
                self.wf(),
                self@ == (IndexState { blocks: upsert_all::<Block>(c.blocks, bs.take(k as int)), ..c }),
            decreases hs@.len() - k,
        {
            assert(bs.take(k as int + 1).drop_last() =~= bs.take(k as int));
            let h = &hs[k];
            assert(bs[k as int] == (note_path@, h.block_id@, h.line_number as int, h.content@));
            self.add_block(note_path, h.block_id.as_str(), h.line_number, h.content.as_str());
            k = k + 1;
        }
        assert(bs.take(hs@.len() as int) =~= bs);
    }

    /// The notes that link to `note_path`, in table order.
    pub fn get_backlinks(&self, note_path: &str) -> (r: Vec<String>)
        ensures
            string_views(r@) == sources_to(self@.links, note_path@),
    {
        let key_path = own(note_path);
        let ghost ls = self@.links;
        let mut out: Vec<String> = Vec::new();
        let mut k: usize = 0;
        while k < self.links.len()
            invariant
                k <= self.links@.len(),
                ls == rv(self.links@),
                key_path@ == note_path@,
                string_views(out@) == sources_to(ls.take(k as int), note_path@),
            decreases self.links@.len() - k,
        {
            assert(ls.take(k as int + 1).drop_last() =~= ls.take(k as int));
            let l = &self.links[k];
            assert(ls.take(k as int + 1).last() == l@);
            if l.to_note == key_path {
                let f = l.from_note.clone();
                assert(string_views(out@.push(f)) =~= string_views(out@).push(f@));
                out.push(f);
            }
            k = k + 1;
        }
        assert(ls.take(k as int) =~= ls);
        out
    }

    /// Every link of the index, in table order.
    pub fn get_all_links(&self) -> (r: Vec<Link>)
        ensures
            rv(r@) == self@.links,
    {
        let mut out: Vec<Link> = Vec::new();
        let mut k: usize = 0;
        while k < self.links.len()
            invariant
                k <= self.links@.len(),
                rv(out@) == rv(self.links@).take(k as int),
            decreases self.links@.len() - k,
        {
            let l = &self.links[k];
            assert(rv(self.links@)[k as int] == l@);
            let c = Link { from_note: l.from_note.clone(), to_note: l.to_note.clone() };
            assert(c@ == l@);
            assert(rv(out@.push(c)) =~= rv(out@).push(c@));
            assert(rv(self.links@).take(k as int + 1) =~= rv(self.links@).take(k as int).push(l@));
            out.push(c);
            k = k + 1;
        }
        assert(rv(self.links@).take(k as int) =~= rv(self.links@));
        out
    }

    /// The links from or to `note_path`, in table order.
    pub fn get_links_for_note(&self, note_path: &str) -> (r: Vec<Link>)
        ensures
            rv(r@) == links_touching(self@.links, note_path@),
    {
        let key_path = own(note_path);
        let ghost ls = self@.links;
        let mut out: Vec<Link> = Vec::new();
        let mut k: usize = 0;
        while k < self.links.len()
            invariant
                k <= self.links@.len(),
                ls == rv(self.links@),
                key_path@ == note_path@,
                rv(out@) == links_touching(ls.take(k as int), note_path@),
            decreases self.links@.len() - k,
        {
            assert(ls.take(k as int + 1).drop_last() =~= ls.take(k as int));
            let l = &self.links[k];
            assert(ls.take(k as int + 1).last() == l@);
            if l.from_note == key_path || l.to_note == key_path {
                let c = Link { from_note: l.from_note.clone(), to_note: l.to_note.clone() };
                assert(c@ == l@);
                assert(rv(out@.push(c)) =~= rv(out@).push(c@));
                out.push(c);
            }
            k = k + 1;
        }
        assert(ls.take(k as int) =~= ls);
        out
    }

    /// The notes that carry `tag`, in table order.
    pub fn get_notes_by_tag(&self, tag: &str) -> (r: Vec<String>)
        ensures
            string_views(r@) == notes_tagged(self@.tags, tag@),
    {
        let key_tag = own(tag);
        let ghost ts = self@.tags;
        let mut out: Vec<String> = Vec::new();
        let mut k: usize = 0;
        while k < self.tags.len()
            invariant
                k <= self.tags@.len(),
                ts == rv(self.tags@),
                key_tag@ == tag@,
                string_views(out@) == notes_tagged(ts.take(k as int), tag@),
            decreases self.tags@.len() - k,
        {
            assert(ts.take(k as int + 1).drop_last() =~= ts.take(k as int));
            let t = &self.tags[k];
            assert(ts.take(k as int + 1).last() == t@);
            if t.tag == key_tag {
                let p = t.note_path.clone();
                assert(string_views(out@.push(p)) =~= string_views(out@).push(p@));
                out.push(p);
            }
            k = k + 1;
        }
        assert(ts.take(k as int) =~= ts);
        out
    }

    /// Every tag name of the index once, in text order.
    pub fn get_all_tags(&self) -> (r: Vec<String>)
        ensures
            string_views(r@).to_multiset() == distinct_tags(self@.tags).to_multiset(),
            sorted::<String>(string_views(r@)),
    {
        let tags = self.tag_names();
        let r = sort_rows(tags);
        assert(string_views(r@) == crate::table::rv(r@));
        r
    }

    fn tag_names(&self) -> (r: Vec<String>)
        ensures
            string_views(r@) == distinct_tags(self@.tags),
    {
        let ghost ts = self@.tags;
        let mut out: Vec<String> = Vec::new();
        let mut k: usize = 0;
        while k < self.tags.len()
            invariant
                k <= self.tags@.len(),
                ts == rv(self.tags@),
                string_views(out@) == distinct_tags(ts.take(k as int)),
            decreases self.tags@.len() - k,
        {
            assert(ts.take(k as int + 1).drop_last() =~= ts.take(k as int));
            let t = &self.tags[k];
            assert(ts.take(k as int + 1).last() == t@);
            let mut seen = false;
            let mut m: usize = 0;
            while m < out.len()
                invariant
                    m <= out@.len(),
                    seen == exists|a: int| 0 <= a < m && string_views(out@)[a] == t.tag@,
                decreases out@.len() - m,
            {
                assert(string_views(out@)[m as int] == out@[m as int]@);
                if out[m] == t.tag {
                    seen = true;
                }
                m = m + 1;
            }
            assert(seen == string_views(out@).contains(t.tag@));
            if !seen {
                let n = t.tag.clone();
                assert(string_views(out@.push(n)) =~= string_views(out@).push(n@));
                out.push(n);
            }
            k = k + 1;
        }
        assert(ts.take(k as int) =~= ts);
        out
    }

    fn copy_todo(t: &Todo) -> (r: Todo)
        ensures
            r@ == t@,
    {
        Todo {
            note_path: t.note_path.clone(),
            line_number: t.line_number,
            content: t.content.clone(),
            is_completed: t.is_completed,
            due_date: clone_opt(&t.due_date),
            priority: clone_opt(&t.priority),
            indent_level: t.indent_level,
            parent_line: t.parent_line,
            recurrence_pattern: clone_opt(&t.recurrence_pattern),
        }
    }

    fn select_todos(&self, only_open: bool) -> (r: Vec<Todo>)
        ensures
            rv(r@) == todos_where(self@.todos, only_open),
    {
        let ghost ts = self@.todos;
        let mut out: Vec<Todo> = Vec::new();
        let mut k: usize = 0;
        while k < self.todos.len()
            invariant
                k <= self.todos@.len(),
                ts == rv(self.todos@),
                rv(out@) == todos_where(ts.take(k as int), only_open),
            decreases self.todos@.len() - k,
        {
            assert(ts.take(k as int + 1).drop_last() =~= ts.take(k as int));
            let t = &self.todos[k];
            assert(ts.take(k as int + 1).last() == t@);
            if !only_open || !t.is_completed {
                let c = Self::copy_todo(t);
                assert(rv(out@.push(c)) =~= rv(out@).push(c@));
                out.push(c);
            }
            k = k + 1;
        }
        assert(ts.take(k as int) =~= ts);
        out
    }

    /// The todos that are not completed, by note, then line.
    pub fn get_incomplete_todos(&self) -> (r: Vec<Todo>)
        ensures
            rv(r@).to_multiset() == todos_where(self@.todos, true).to_multiset(),
            sorted::<Todo>(rv(r@)),
    {
        sort_rows(self.select_todos(true))
    }

    /// Every todo, by note, then open before completed, then line.
    pub fn get_all_todos(&self) -> (r: Vec<Todo>)
        ensures
            rv(r@).to_multiset() == todos_where(self@.todos, false).to_multiset(),
            sorted::<Todo>(rv(r@)),
    {
        sort_rows(self.select_todos(false))
    }

    fn todo_position(&self, note_path: &str, line_number: usize) -> (r: Option<usize>)
        requires
            self.wf(),
        ensures
            match r {
                Some(i) => i < self@.todos.len() && lookup::<Todo>(self@.todos, (note_path@, line_number as int)) == Some(self@.todos[i as int])
                    && key_index::<Todo>(self@.todos, (note_path@, line_number as int)) == i,
                None => lookup::<Todo>(self@.todos, (note_path@, line_number as int)) is None,
            },
    {
        let key_path = own(note_path);
        let ghost ts = self@.todos;
        let ghost key = (note_path@, line_number as int);
        proof {
            lemma_key_index::<Todo>(ts, key);
        }
        let mut k: usize = 0;
        while k < self.todos.len()
            invariant
                k <= self.todos@.len(),
                ts == rv(self.todos@),
                unique_keys::<Todo>(ts),
                key == (note_path@, line_number as int),
                key_path@ == note_path@,
                forall|m: int| 0 <= m < k ==> Todo::key(ts[m]) != key,
            decreases self.todos@.len() - k,
        {
            let t = &self.todos[k];
            assert(ts[k as int] == t@);
            if t.note_path == key_path && t.line_number == line_number {
                proof {
                    lemma_key_index_unique::<Todo>(ts, k as int);
                }
                return Some(k);
            }
            k = k + 1;
        }
        proof {
            lemma_key_index::<Todo>(ts, key);
        }
        None
    }

    /// The todo on a line of a note.
    pub fn get_todo(&self, note_path: &str, line_number: usize) -> (r: Option<Todo>)
        requires
            self.wf(),
        ensures
            match r {
                Some(t) => lookup::<Todo>(self@.todos, (note_path@, line_number as int)) == Some(t@),
                None => lookup::<Todo>(self@.todos, (note_path@, line_number as int)) is None,
            },
    {
        match self.todo_position(note_path, line_number) {
            Some(i) => Some(Self::copy_todo(&self.todos[i])),
            None => None,
        }
    }

    /// Flips the completion of the todo on a line of a note and returns its
    /// new state; `None`, with nothing changed, when there is no such todo.
    /// No other field changes.
    pub fn toggle_todo(&mut self, note_path: &str, line_number: usize) -> (r: Option<bool>)
        requires
            old(self).wf(),
        ensures
            final(self).wf(),
            match lookup::<Todo>(old(self)@.todos, (note_path@, line_number as int)) {
                Some(t) => r == Some(!t.1.done) && final(self)@ == (IndexState {
                    todos: upserted::<Todo>(
                        old(self)@.todos,
                        (t.0, TodoFacts { done: !t.1.done, ..t.1 }),
                    ),
                    ..old(self)@
                }),
                None => r is None && final(self)@ == old(self)@,
            },
    {
        match self.todo_position(note_path, line_number) {
            Some(i) => {
                let mut t = Self::copy_todo(&self.todos[i]);
                t.is_completed = !t.is_completed;
                let done = t.is_completed;
                upsert(&mut self.todos, t);
                Some(done)
            },
            None => None,
        }
    }

    /// The notes whose title or content holds every word of the query,
    /// ignoring case, with their relevance, most relevant first.
    pub fn search_ranked(&self, query: &str) -> (r: Vec<SearchHit>)
        ensures
            rv(r@).to_multiset() == scored_hits(self@.texts, query@).to_multiset(),
            sorted::<SearchHit>(rv(r@)),
    {
        let ghost ts = self@.texts;
        let q = to_lower(query);
        let terms = split_words(&chars_of(q.as_str()));
        let mut out: Vec<SearchHit> = Vec::new();
        let mut k: usize = 0;
        while k < self.texts.len()
            invariant
                k <= self.texts@.len(),
                ts == rv(self.texts@),
                views(terms@) == query_terms(query@),
                rv(out@) == scored_hits(ts.take(k as int), query@),
            decreases self.texts@.len() - k,
        {
            assert(ts.take(k as int + 1).drop_last() =~= ts.take(k as int));
            let t = &self.texts[k];
            assert(ts.take(k as int + 1).last() == t@);
            if terms.len() > 0 {
                let title = chars_of(to_lower(t.title.as_str()).as_str());
                let body = chars_of(to_lower(t.content.as_str()).as_str());
                let ghost tv = views(terms@);
                let mut all = true;
                let mut score: usize = 0;
                let mut j: usize = 0;
                while j < terms.len()
                    invariant
                        j <= terms@.len(),
                        tv == views(terms@),
                        all == all_terms_occur(title@, body@, tv.take(j as int)),
                        score as int == crate::extract::capped(term_count(title@, body@, tv.take(j as int))),
                        term_count(title@, body@, tv.take(j as int)) >= 0,
                    decreases terms@.len() - j,
                {
                    let term = &terms[j];
                    assert(tv[j as int] == term@);
                    assert(tv.take(j as int + 1).drop_last() =~= tv.take(j as int));
                    assert(tv.take(j as int + 1).last() == term@);
                    let here = occurs(&title, term) || occurs(&body, term);
                    proof {
                        assert forall|m: int| 0 <= m < j + 1 implies #[trigger] tv.take(j as int + 1)[m]
                            == tv.take(j as int)[m] || m == j by {}
                    }
                    assert(all_terms_occur(title@, body@, tv.take(j as int + 1)) == (all && here)) by {
                        if all && here {
                            assert forall|m: int| 0 <= m < j + 1 implies occurs_in(title@, #[trigger] tv.take(j as int + 1)[m])
                                || occurs_in(body@, tv.take(j as int + 1)[m]) by {
                                if m < j {
                                    assert(tv.take(j as int + 1)[m] == tv.take(j as int)[m]);
                                }
                            }
                        }
                        if all_terms_occur(title@, body@, tv.take(j as int + 1)) {
                            assert(tv.take(j as int + 1)[j as int] == term@);
                            assert forall|m: int| 0 <= m < j implies occurs_in(title@, #[trigger] tv.take(j as int)[m])
                                || occurs_in(body@, tv.take(j as int)[m]) by {
                                assert(tv.take(j as int + 1)[m] == tv.take(j as int)[m]);
                            }
                        }
                    }
                    all = all && here;
                    let (a, b) = if term.len() > 0 {
                        (count_matches(&title, term), count_matches(&body, term))
                    } else {
                        (0, 0)
                    };
                    score = if score > usize::MAX - a {
                        usize::MAX
                    } else {
                        score + a
                    };
                    score = if score > usize::MAX - b {
                        usize::MAX
                    } else {
                        score + b
                    };
                    j = j + 1;
                }
                assert(tv.take(j as int) =~= tv);
                if all {
                    let h = SearchHit { note_path: t.note_path.clone(), score };
                    assert(h@ == (t@.0, score_of(t@, query@)));
                    assert(rv(out@.push(h)) =~= rv(out@).push(h@));
                    out.push(h);
                }
            }
            k = k + 1;
        }
        assert(ts.take(k as int) =~= ts);
        sort_rows(out)
    }

    /// The paths of the notes whose title or content holds every word of the
    /// query, ignoring case, most relevant first.
    pub fn search_notes_fts(&self, query: &str) -> (r: Vec<String>)
        ensures
            exists|hits: Seq<(Seq<char>, int)>|
                hits.to_multiset() == scored_hits(self@.texts, query@).to_multiset() && sorted::<
                    SearchHit,
                >(hits) && string_views(r@) == hits.map_values(|h: (Seq<char>, int)| h.0),
    {
        let ranked = self.search_ranked(query);
        let mut out: Vec<String> = Vec::new();
        let mut k: usize = 0;
        while k < ranked.len()
            invariant
                k <= ranked@.len(),
                string_views(out@) == rv(ranked@).take(k as int).map_values(
                    |h: (Seq<char>, int)| h.0,
                ),
            decreases ranked@.len() - k,
        {
            let p = ranked[k].note_path.clone();
            assert(rv(ranked@)[k as int].0 == p@);
            assert(string_views(out@.push(p)) =~= string_views(out@).push(p@));
            assert(rv(ranked@).take(k as int + 1) =~= rv(ranked@).take(k as int).push(
                rv(ranked@)[k as int],
            ));
            assert(rv(ranked@).take(k as int + 1).map_values(|h: (Seq<char>, int)| h.0)
                =~= rv(ranked@).take(k as int).map_values(|h: (Seq<char>, int)| h.0).push(p@));
            out.push(p);
            k = k + 1;
        }
        assert(rv(ranked@).take(k as int) =~= rv(ranked@));
        out
    }

    /// The line and text of a block of a note.
    pub fn get_block(&self, note_path: &str, block_id: &str) -> (r: Option<(usize, String)>)
        requires
            self.wf(),
        ensures
            match lookup::<Block>(self@.blocks, (note_path@, block_id@)) {
                Some(b) => r is Some && r.unwrap().0 as int == b.2 && r.unwrap().1@ == b.3,
                None => r is None,
            },
    {
        let key_id = own(block_id);
        let key_path = own(note_path);
        let ghost bs = self@.blocks;
        let ghost key = (note_path@, block_id@);
        let mut k: usize = 0;
        while k < self.blocks.len()
            invariant
                k <= self.blocks@.len(),
                bs == rv(self.blocks@),
                unique_keys::<Block>(bs),
                key == (note_path@, block_id@),
                key_path@ == note_path@,
                key_id@ == block_id@,
                forall|m: int| 0 <= m < k ==> Block::key(bs[m]) != key,
            decreases self.blocks@.len() - k,
        {
            let b = &self.blocks[k];
            assert(bs[k as int] == b@);
            if b.note_path == key_path && b.block_id == key_id {
                proof {
                    lemma_key_index_unique::<Block>(bs, k as int);
                }
                return Some((b.line_number, b.content.clone()));
            }
            k = k + 1;
        }
        proof {
            lemma_key_index::<Block>(bs, key);
        }
        None
    }

    /// The blocks of a note as (block id, line, text), in table order.
    pub fn get_blocks_for_note(&self, note_path: &str) -> (r: Vec<(String, usize, String)>)
        ensures
            r@.map_values(|e: (String, usize, String)| (e.0@, e.1 as int, e.2@)) == blocks_of(
                self@.blocks,
                note_path@,
            ),
    {
        let key_path = own(note_path);
        let ghost bs = self@.blocks;
        let mut out: Vec<(String, usize, String)> = Vec::new();
        let mut k: usize = 0;
        while k < self.blocks.len()
            invariant
                k <= self.blocks@.len(),
                bs == rv(self.blocks@),
                key_path@ == note_path@,
                out@.map_values(|e: (String, usize, String)| (e.0@, e.1 as int, e.2@)) == blocks_of(
                    bs.take(k as int),
                    note_path@,
                ),
            decreases self.blocks@.len() - k,
        {
            assert(bs.take(k as int + 1).drop_last() =~= bs.take(k as int));
            let b = &self.blocks[k];
            assert(bs.take(k as int + 1).last() == b@);
            if b.note_path == key_path {
                let e = (b.block_id.clone(), b.line_number, b.content.clone());
                assert(out@.push(e).map_values(|e: (String, usize, String)| (e.0@, e.1 as int, e.2@))
                    =~= out@.map_values(|e: (String, usize, String)| (e.0@, e.1 as int, e.2@)).push(
                    (e.0@, e.1 as int, e.2@),
                ));
                out.push(e);
            }
            k = k + 1;
        }
        assert(bs.take(k as int) =~= bs);
        out
    }

    /// The modification time stored for a note.
    pub fn get_cached_mtime(&self, note_path: &str) -> (r: Option<(i64, u32)>)
        requires
            self.wf(),
        ensures
            match lookup::<Stamp>(self@.stamps, note_path@) {
                Some(st) => r is Some && r.unwrap().0 as int == st.1 && r.unwrap().1 as int == st.2,
                None => r is None,
            },
    {
        let key_path = own(note_path);
        let ghost ss = self@.stamps;
        let mut k: usize = 0;
        while k < self.stamps.len()
            invariant
                k <= self.stamps@.len(),
                ss == rv(self.stamps@),
                unique_keys::<Stamp>(ss),
                key_path@ == note_path@,
                forall|m: int| 0 <= m < k ==> Stamp::key(ss[m]) != note_path@,
            decreases self.stamps@.len() - k,
        {
            let st = &self.stamps[k];
            assert(ss[k as int] == st@);
            if st.note_path == key_path {
                proof {
                    lemma_key_index_unique::<Stamp>(ss, k as int);
                }
                return Some((st.seconds, st.nanos));
            }
            k = k + 1;
        }
        proof {
            lemma_key_index::<Stamp>(ss, note_path@);
        }
        None
    }

    /// Stores the modification time of a note.
    pub fn set_cached_mtime(&mut self, note_path: &str, seconds: i64, nanos: u32)
        requires
            old(self).wf(),
        ensures
            final(self).wf(),
            final(self)@ == stamped(old(self)@, note_path@, seconds as int, nanos as int),
    {
        upsert(&mut self.stamps, Stamp { note_path: own(note_path), seconds, nanos });
    }

    /// The paths that have a stored modification time, in table order.
    pub fn get_all_cached_paths(&self) -> (r: Vec<String>)
        ensures
            string_views(r@) == stamp_paths(self@.stamps),
    {
        let mut out: Vec<String> = Vec::new();
        let mut k: usize = 0;
        while k < self.stamps.len()
            invariant
                k <= self.stamps@.len(),
                string_views(out@) == stamp_paths(rv(self.stamps@)).take(k as int),
            decreases self.stamps@.len() - k,
        {
            let p = self.stamps[k].note_path.clone();
            assert(stamp_paths(rv(self.stamps@))[k as int] == p@);
            assert(string_views(out@.push(p)) =~= string_views(out@).push(p@));
            assert(stamp_paths(rv(self.stamps@)).take(k as int + 1) =~= stamp_paths(
                rv(self.stamps@),
            ).take(k as int).push(p@));
            out.push(p);
            k = k + 1;
        }
        assert(stamp_paths(rv(self.stamps@)).take(k as int) =~= stamp_paths(rv(self.stamps@)));
        out
    }

    /// Forgets every stored modification time, so that the next sync pass
    /// re-indexes every note; the derived rows stay.
    pub fn clear_all_metadata(&mut self)
        requires
            old(self).wf(),
        ensures
            final(self).wf(),
            final(self)@ == (IndexState { stamps: Seq::empty(), ..old(self)@ }),
    {
        self.stamps = Vec::new();
        assert(rv(self.stamps@) =~= Seq::<(Seq<char>, int, int)>::empty());
    }

    /// Drops every derived row of a deleted note; its stamp stays until a
    /// sync pass finds the file gone.
    pub fn remove_note(&mut self, note_path: &str)
        requires
            old(self).wf(),
        ensures
            final(self).wf(),
            final(self)@ == cleared(old(self)@, note_path@),
    {
        self.clear_note_cache(note_path);
    }

    /// Forgets a note: its derived rows and its stamp.
    fn forget_note(&mut self, note_path: &str)
        requires
            old(self).wf(),
        ensures
            final(self).wf(),
            final(self)@ == forgotten(old(self)@, note_path@),
    {
        self.clear_note_cache(note_path);
        let p = own(note_path);
        drop_owned(&mut self.stamps, &p);
    }

    /// Forgets every note of `paths`, in order.
    pub fn remove_stale_entries(&mut self, paths: &[String])
        requires
            old(self).wf(),
        ensures
            final(self).wf(),
            final(self)@ == forget_all(old(self)@, string_views(paths@)),
    {
        let ghost ps = string_views(paths@);
        let ghost start = self@;
        let mut k: usize = 0;
        while k < paths.len()
            invariant
                k <= paths@.len(),
                ps == string_views(paths@),
                self.wf(),
                self@ == forget_all(start, ps.take(k as int)),
            decreases paths@.len() - k,
        {
            assert(ps.take(k as int + 1).drop_last() =~= ps.take(k as int));
            assert(ps.take(k as int + 1).last() == paths@[k as int]@);
            self.forget_note(paths[k].as_str());
            k = k + 1;
        }
        assert(ps.take(k as int) =~= ps);
    }

    /// Whether a file must be re-indexed: its path has no stored time, or
    /// the stored time differs from the one on disk, later or earlier.
    pub fn needs_reindex(&self, note_path: &str, seconds: i64, nanos: u32) -> (r: bool)
        requires
            self.wf(),
        ensures
            r == (lookup::<Stamp>(self@.stamps, note_path@) != Some(
                (note_path@, seconds as int, nanos as int),
            )),
    {
        match self.get_cached_mtime(note_path) {
            Some(st) => {
                proof {
                    let ss = self@.stamps;
                    lemma_key_index::<Stamp>(ss, note_path@);
                }
                !(st.0 == seconds && st.1 == nanos)
            },
            None => true,
        }
    }

    /// One sync pass over the markdown files of the tree. A file whose
    /// stored time is missing or differs is re-indexed from its content and
    /// stamped; one that could not be read is skipped and left unstamped, so
    /// that the next pass tries again. Then every stamped path that is not
    /// among the files is forgotten. Returns how many files were re-indexed.
    pub fn sync_pass(&mut self, files: &Vec<NoteOnDisk>, notes: &Vec<String>) -> (r: usize)
        requires
            old(self).wf(),
        ensures
            final(self).wf(),
            final(self)@ == synced(old(self)@, disk_views(files@), path_views(notes@)),
            r == touched_count(old(self)@, disk_views(files@), path_views(notes@)),
    {
        let ghost fs = disk_views(files@);
        let ghost pv = path_views(notes@);
        let ghost start = self@;
        let mut touched: usize = 0;
        let mut k: usize = 0;
        while k < files.len()
            invariant
                k <= files@.len(),
                fs == disk_views(files@),
                pv == path_views(notes@),
                self.wf(),
                self@ == visit_all(start, fs.take(k as int), pv),
                touched as int == touched_count(start, fs.take(k as int), pv),
                touched <= k,
            decreases files@.len() - k,
        {
            let f = &files[k];
            assert(fs.take(k as int + 1).drop_last() =~= fs.take(k as int));
            assert(fs.take(k as int + 1).last() == f@);
            if self.needs_reindex(f.path.as_str(), f.seconds, f.nanos) {
                match &f.content {
                    Some(c) => {
                        self.update_note_cache_with_fts(
                            f.path.as_str(),
                            f.title.as_str(),
                            c.as_str(),
                            notes,
                        );
                        self.set_cached_mtime(f.path.as_str(), f.seconds, f.nanos);
                        touched = touched + 1;
                    },
                    None => {},
                }
            }
            k = k + 1;
        }
        assert(fs.take(k as int) =~= fs);
        let ghost v = self@;
        let ghost present = file_paths(fs);
        let ghost ss = self@.stamps;
        let mut stale: Vec<String> = Vec::new();
        let mut m: usize = 0;
        while m < self.stamps.len()
            invariant
                m <= self.stamps@.len(),
                ss == rv(self.stamps@),
                fs == disk_views(files@),
                present == file_paths(fs),
                string_views(stale@) == stale_of(ss.take(m as int), present),
            decreases self.stamps@.len() - m,
        {
            assert(ss.take(m as int + 1).drop_last() =~= ss.take(m as int));
            let st = &self.stamps[m];
            assert(ss.take(m as int + 1).last() == st@);
            let mut found = false;
            let mut j: usize = 0;
            while j < files.len()
                invariant
                    j <= files@.len(),
                    fs == disk_views(files@),
                    present == file_paths(fs),
                    found == exists|a: int| 0 <= a < j && present[a] == st@.0,
                decreases files@.len() - j,
            {
                assert(present[j as int] == files@[j as int].path@);
                if files[j].path == st.note_path {
                    found = true;
                }
                j = j + 1;
            }
            assert(found == present.contains(st@.0));
            if !found {
                let p = st.note_path.clone();
                assert(string_views(stale@.push(p)) =~= string_views(stale@).push(p@));
                stale.push(p);
            }
            m = m + 1;
        }
        assert(ss.take(m as int) =~= ss);
        self.remove_stale_entries(stale.as_slice());
        touched
    }
}




} // verus!
