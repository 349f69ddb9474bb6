//! What holds of the index across several operations: re-indexing is
//! idempotent, a moved note leaves nothing of its old path behind, a second
//! sync pass over an unchanged tree re-indexes nothing, and a sync pass
//! forgets every note that left the disk.
use vstd::prelude::*;

use crate::index::{
    block_rows, cleared, file_paths, sources_to, forget_all, forgotten, link_rows,
    reindexed, stale_of, stamped, state_wf, synced, tag_rows, todo_rows, touched_count, touches,
    unchanged, visit, visit_all, Block, DiskFacts, IndexState, Link, NoteText, Stamp, Tag, Todo,
};
use crate::carry::{
    carried_source, carried_text, due_suffix, lemma_carried_reads_back, recurring_line, scrub,
};
use crate::extract::{due_at, headings_in, links_in, links_scan, meta_in, tags_in, todo_line, todos_in, Meta, TodoFacts};
use crate::recur::{
    appended, daily_template, date_text, days_later, lemma_date_text_shape, next_date, next_due_text,
    next_instance_note,
};
use crate::text::lower_of;
use crate::table::{
    lemma_key_index, lemma_lookup_held, lemma_lookup_without, lemma_upsert_all_others,
    lemma_upsert_all_unique,
    lemma_upserted, lemma_without, lemma_without_upsert_all, lookup, none_owned, unique_keys,
    upsert_all, upserted, without, Row,
};

verus! {

/// No table holds a row of `p`, and `p` has no stamp.
pub open spec fn owns_nothing(s: IndexState, p: Seq<char>) -> bool {
    &&& none_owned::<Link>(s.links, p)
    &&& none_owned::<Tag>(s.tags, p)
    &&& none_owned::<Todo>(s.todos, p)
    &&& none_owned::<Block>(s.blocks, p)
    &&& none_owned::<NoteText>(s.texts, p)
    &&& none_owned::<Stamp>(s.stamps, p)
}

proof fn lemma_rows_owned(p: Seq<char>, content: Seq<char>, notes: Seq<Seq<char>>)
    ensures
        forall|i: int|
            0 <= i < link_rows(p, links_in(content), notes).len() ==> Link::owner(
                #[trigger] link_rows(p, links_in(content), notes)[i],
            ) == p,
        forall|i: int|
            0 <= i < tag_rows(p, tags_in(content)).len() ==> Tag::owner(
                #[trigger] tag_rows(p, tags_in(content))[i],
            ) == p,
        forall|i: int|
            0 <= i < todo_rows(p, todos_in(content)).len() ==> Todo::owner(
                #[trigger] todo_rows(p, todos_in(content))[i],
            ) == p,
        forall|i: int|
            0 <= i < block_rows(p, headings_in(content)).len() ==> Block::owner(
                #[trigger] block_rows(p, headings_in(content))[i],
            ) == p,
{
    lemma_link_rows_owned(p, links_in(content), notes);
}

proof fn lemma_link_rows_owned(p: Seq<char>, raws: Seq<Seq<char>>, notes: Seq<Seq<char>>)
    ensures
        forall|i: int|
            0 <= i < link_rows(p, raws, notes).len() ==> (#[trigger] link_rows(p, raws, notes)[i]).0
                == p,
    decreases raws.len(),
{
    if raws.len() > 0 {
        lemma_link_rows_owned(p, raws.drop_last(), notes);
        let prev = link_rows(p, raws.drop_last(), notes);
        match crate::resolve::resolved(crate::resolve::before_hash(raws.last()), notes) {
            Some(t) => {
                assert(link_rows(p, raws, notes) == prev.push((p, t)));
                assert forall|i: int| 0 <= i < prev.push((p, t)).len() implies (#[trigger] prev.push(
                    (p, t),
                )[i]).0 == p by {
                    if i < prev.len() {
                        assert(prev.push((p, t))[i] == prev[i]);
                    }
                }
            },
            None => {},
        }
    }
}

proof fn lemma_single(v: (Seq<char>, Seq<char>, Seq<char>), s: Seq<(Seq<char>, Seq<char>, Seq<char>)>)
    ensures
        upsert_all::<NoteText>(s, seq![v]) == upserted::<NoteText>(s, v),
{
    assert(seq![v].drop_last() =~= Seq::<(Seq<char>, Seq<char>, Seq<char>)>::empty());
    assert(seq![v].last() == v);
    assert(upsert_all::<NoteText>(s, Seq::empty()) == s);
}

/// Re-indexing a note replaces every row it owned: dropping its rows
/// afterwards gives what dropping them before gave.
proof fn lemma_cleared_reindexed(
    s: IndexState,
    p: Seq<char>,
    title: Seq<char>,
    content: Seq<char>,
    notes: Seq<Seq<char>>,
)
    ensures
        cleared(reindexed(s, p, title, content, notes), p) == cleared(s, p),
{
    let c = cleared(s, p);
    lemma_without::<Link>(s.links, p);
    lemma_without::<Tag>(s.tags, p);
    lemma_without::<Todo>(s.todos, p);
    lemma_without::<Block>(s.blocks, p);
    lemma_without::<NoteText>(s.texts, p);
    lemma_rows_owned(p, content, notes);
    lemma_without_upsert_all::<Link>(c.links, link_rows(p, links_in(content), notes), p);
    lemma_without_upsert_all::<Tag>(c.tags, tag_rows(p, tags_in(content)), p);
    lemma_without_upsert_all::<Todo>(c.todos, todo_rows(p, todos_in(content)), p);
    lemma_without_upsert_all::<Block>(c.blocks, block_rows(p, headings_in(content)), p);
    lemma_single((p, title, content), c.texts);
    lemma_without_upsert_all::<NoteText>(c.texts, seq![(p, title, content)], p);
}

/// Re-indexing a note twice from the same content leaves the index as one
/// re-index does: no row is duplicated and no query answers differently.
pub proof fn lemma_reindex_idempotent(
    s: IndexState,
    p: Seq<char>,
    title: Seq<char>,
    content: Seq<char>,
    notes: Seq<Seq<char>>,
)
    ensures
        reindexed(reindexed(s, p, title, content, notes), p, title, content, notes) == reindexed(
            s,
            p,
            title,
            content,
            notes,
        ),
{
    lemma_cleared_reindexed(s, p, title, content, notes);
}

/// Re-indexing `q` adds only rows of `q`: a note `p` other than `q` that
/// owned nothing still owns nothing.
proof fn lemma_reindexed_owns_nothing(
    s: IndexState,
    q: Seq<char>,
    title: Seq<char>,
    content: Seq<char>,
    notes: Seq<Seq<char>>,
    p: Seq<char>,
)
    requires
        owns_nothing(s, p),
        p != q,
    ensures
        owns_nothing(reindexed(s, q, title, content, notes), p),
{
    let c = cleared(s, q);
    let r = reindexed(s, q, title, content, notes);
    lemma_without::<Link>(s.links, q);
    lemma_without::<Tag>(s.tags, q);
    lemma_without::<Todo>(s.todos, q);
    lemma_without::<Block>(s.blocks, q);
    lemma_without::<NoteText>(s.texts, q);
    lemma_rows_owned(q, content, notes);
    lemma_upsert_all_others::<Link>(c.links, link_rows(q, links_in(content), notes), q);
    lemma_upsert_all_others::<Tag>(c.tags, tag_rows(q, tags_in(content)), q);
    lemma_upsert_all_others::<Todo>(c.todos, todo_rows(q, todos_in(content)), q);
    lemma_upsert_all_others::<Block>(c.blocks, block_rows(q, headings_in(content)), q);
    lemma_single((q, title, content), c.texts);
    assert forall|i: int| 0 <= i < 1 implies NoteText::owner(
        #[trigger] seq![(q, title, content)][i],
    ) == q by {}
    lemma_upsert_all_others::<NoteText>(c.texts, seq![(q, title, content)], q);
    assert forall|i: int| 0 <= i < r.links.len() implies Link::owner(#[trigger] r.links[i]) != p by {
        assert(r.links.contains(r.links[i]));
        if Link::owner(r.links[i]) != q {
            let j = choose|j: int| 0 <= j < s.links.len() && s.links[j] == r.links[i];
        }
    }
    assert forall|i: int| 0 <= i < r.tags.len() implies Tag::owner(#[trigger] r.tags[i]) != p by {
        assert(r.tags.contains(r.tags[i]));
        if Tag::owner(r.tags[i]) != q {
            let j = choose|j: int| 0 <= j < s.tags.len() && s.tags[j] == r.tags[i];
        }
    }
    assert forall|i: int| 0 <= i < r.todos.len() implies Todo::owner(#[trigger] r.todos[i]) != p by {
        assert(r.todos.contains(r.todos[i]));
        if Todo::owner(r.todos[i]) != q {
            let j = choose|j: int| 0 <= j < s.todos.len() && s.todos[j] == r.todos[i];
        }
    }
    assert forall|i: int| 0 <= i < r.blocks.len() implies Block::owner(#[trigger] r.blocks[i]) != p by {
        assert(r.blocks.contains(r.blocks[i]));
        if Block::owner(r.blocks[i]) != q {
            let j = choose|j: int| 0 <= j < s.blocks.len() && s.blocks[j] == r.blocks[i];
        }
    }
    assert forall|i: int| 0 <= i < r.texts.len() implies NoteText::owner(#[trigger] r.texts[i]) != p by {
        assert(r.texts.contains(r.texts[i]));
        if NoteText::owner(r.texts[i]) != q {
            let j = choose|j: int| 0 <= j < s.texts.len() && s.texts[j] == r.texts[i];
        }
    }
}

/// Forgetting `p` leaves nothing of it, and what owned nothing of another
/// note still owns nothing of it.
proof fn lemma_forgotten(s: IndexState, p: Seq<char>, other: Seq<char>)
    ensures
        owns_nothing(forgotten(s, p), p),
        owns_nothing(s, other) ==> owns_nothing(forgotten(s, other), other) && owns_nothing(
            forgotten(s, p),
            other,
        ),
{
    lemma_without_subset::<Link>(s.links, p, other);
    lemma_without_subset::<Tag>(s.tags, p, other);
    lemma_without_subset::<Todo>(s.todos, p, other);
    lemma_without_subset::<Block>(s.blocks, p, other);
    lemma_without_subset::<NoteText>(s.texts, p, other);
    lemma_without_subset::<Stamp>(s.stamps, p, other);
    lemma_without::<Link>(s.links, other);
    lemma_without::<Tag>(s.tags, other);
    lemma_without::<Todo>(s.todos, other);
    lemma_without::<Block>(s.blocks, other);
    lemma_without::<NoteText>(s.texts, other);
    lemma_without::<Stamp>(s.stamps, other);
}

proof fn lemma_without_subset<T: Row>(s: Seq<T::V>, p: Seq<char>, other: Seq<char>)
    ensures
        none_owned::<T>(without::<T>(s, p), p),
        none_owned::<T>(s, other) ==> none_owned::<T>(without::<T>(s, p), other),
{
    lemma_without::<T>(s, p);
    let f = without::<T>(s, p);
    if none_owned::<T>(s, other) {
        assert forall|i: int| 0 <= i < f.len() implies T::owner(#[trigger] f[i]) != other by {
            assert(f.contains(f[i]));
            let j = choose|j: int| 0 <= j < s.len() && s[j] == f[i];
        }
    }
}

/// A note moved or renamed from `a` to `b`: once the stale entries of `a`
/// are forgotten and `b` is indexed, no table holds anything of `a` (no
/// search hit, no link from it, no stamp), the text of `b` is searchable,
/// and every note that `b` links to counts `b` among its backlinks.
pub proof fn lemma_move_leaves_no_trace(
    s: IndexState,
    a: Seq<char>,
    b: Seq<char>,
    title: Seq<char>,
    content: Seq<char>,
    notes: Seq<Seq<char>>,
)
    requires
        state_wf(s),
        a != b,
    ensures
        owns_nothing(reindexed(forgotten(s, a), b, title, content, notes), a),
        lookup::<NoteText>(reindexed(forgotten(s, a), b, title, content, notes).texts, b) == Some(
            (b, title, content),
        ),
        forall|k: int|
            0 <= k < link_rows(b, links_in(content), notes).len() ==> sources_to(
                reindexed(forgotten(s, a), b, title, content, notes).links,
                (#[trigger] link_rows(b, links_in(content), notes)[k]).1,
            ).contains(b),
{
    let f = forgotten(s, a);
    lemma_forgotten(s, a, a);
    lemma_reindexed_owns_nothing(f, b, title, content, notes, a);
    lemma_without::<NoteText>(s.texts, a);
    let c = cleared(f, b);
    lemma_without::<NoteText>(f.texts, b);
    lemma_upserted::<NoteText>(c.texts, (b, title, content));
    lemma_without::<Link>(s.links, a);
    lemma_without::<Link>(f.links, b);
    let rows = link_rows(b, links_in(content), notes);
    lemma_upsert_all_holds_links(c.links, rows);
    lemma_rows_owned(b, content, notes);
    let r = reindexed(f, b, title, content, notes);
    assert forall|k: int| 0 <= k < rows.len() implies sources_to(r.links, (#[trigger] rows[k]).1).contains(
        b,
    ) by {
        assert(r.links.contains(rows[k]));
        let j = choose|j: int| 0 <= j < r.links.len() && r.links[j] == rows[k];
        lemma_sources_to_contains(r.links, j);
        assert(rows[k].0 == b);
    }
}

proof fn lemma_sources_to_contains(ls: Seq<(Seq<char>, Seq<char>)>, i: int)
    requires
        0 <= i < ls.len(),
    ensures
        sources_to(ls, ls[i].1).contains(ls[i].0),
    decreases ls.len(),
{
    let d = ls.drop_last();
    let prev = sources_to(d, ls[i].1);
    if i < ls.len() - 1 {
        lemma_sources_to_contains(d, i);
        assert(d[i] == ls[i]);
        if ls.last().1 == ls[i].1 {
            let j = choose|j: int| 0 <= j < prev.len() && prev[j] == ls[i].0;
            assert(prev.push(ls.last().0)[j] == ls[i].0);
        }
    } else {
        assert(prev.push(ls.last().0)[prev.len() as int] == ls[i].0);
    }
}

/// Links inserted into a table of unique links are all held afterwards.
proof fn lemma_upsert_all_holds_links(s: Seq<(Seq<char>, Seq<char>)>, vs: Seq<(Seq<char>, Seq<char>)>)
    requires
        unique_keys::<Link>(s),
    ensures
        unique_keys::<Link>(upsert_all::<Link>(s, vs)),
        forall|k: int| 0 <= k < vs.len() ==> upsert_all::<Link>(s, vs).contains(#[trigger] vs[k]),
    decreases vs.len(),
{
    lemma_upsert_all_unique::<Link>(s, vs);
    if vs.len() > 0 {
        let d = vs.drop_last();
        lemma_upsert_all_holds_links(s, d);
        let u = upsert_all::<Link>(s, d);
        let x = vs.last();
        lemma_upserted::<Link>(u, x);
        let r = upserted::<Link>(u, x);
        crate::table::lemma_key_index::<Link>(r, Link::key(x));
        assert forall|k: int| 0 <= k < vs.len() implies r.contains(#[trigger] vs[k]) by {
            if k == vs.len() - 1 {
                let i = crate::table::key_index::<Link>(r, Link::key(x));
                assert(r[i] == x);
            } else {
                assert(d[k] == vs[k]);
                let v = vs[k];
                if v != x {
                    lemma_lookup_held::<Link>(u, v);
                    assert(lookup::<Link>(r, Link::key(v)) == Some(v));
                    crate::table::lemma_key_index::<Link>(r, Link::key(v));
                    let i = crate::table::key_index::<Link>(r, Link::key(v));
                    assert(r[i] == v);
                } else {
                    let i = crate::table::key_index::<Link>(r, Link::key(x));
                    assert(r[i] == x);
                }
            }
        }
    }
}

// ---------------------------------------------------------------- sync

proof fn lemma_visit_stamps(s: IndexState, f: DiskFacts, notes: Seq<Seq<char>>)
    requires
        unique_keys::<Stamp>(s.stamps),
    ensures
        unique_keys::<Stamp>(visit(s, f, notes).stamps),
        touches(s, f) ==> unchanged(visit(s, f, notes), f),
        !touches(s, f) ==> visit(s, f, notes) == s,
        forall|q: Seq<char>|
            q != f.path ==> lookup::<Stamp>(visit(s, f, notes).stamps, q) == lookup::<Stamp>(
                s.stamps,
                q,
            ),
{
    if touches(s, f) {
        let r = reindexed(s, f.path, f.title, f.content.unwrap(), notes);
        assert(r.stamps == s.stamps);
        lemma_upserted::<Stamp>(s.stamps, (f.path, f.seconds, f.nanos));
    }
}

/// After the files are visited, each is stamped with its time on disk,
/// unless it could not be read; the stamps of other paths are as they were.
proof fn lemma_visit_all(s: IndexState, fs: Seq<DiskFacts>, notes: Seq<Seq<char>>)
    requires
        unique_keys::<Stamp>(s.stamps),
        file_paths(fs).no_duplicates(),
    ensures
        unique_keys::<Stamp>(visit_all(s, fs, notes).stamps),
        forall|i: int|
            0 <= i < fs.len() ==> unchanged(visit_all(s, fs, notes), #[trigger] fs[i])
                || fs[i].content is None,
        forall|q: Seq<char>|
            !file_paths(fs).contains(q) ==> lookup::<Stamp>(visit_all(s, fs, notes).stamps, q)
                == lookup::<Stamp>(s.stamps, q),
    decreases fs.len(),
{
    if fs.len() > 0 {
        let d = fs.drop_last();
        let f = fs.last();
        assert(file_paths(d) =~= file_paths(fs).drop_last());
        assert forall|a: int, b: int| 0 <= a < b < file_paths(d).len() implies file_paths(d)[a]
            != file_paths(d)[b] by {
            assert(file_paths(fs)[a] == file_paths(d)[a]);
            assert(file_paths(fs)[b] == file_paths(d)[b]);
        }
        lemma_visit_all(s, d, notes);
        let v = visit_all(s, d, notes);
        lemma_visit_stamps(v, f, notes);
        assert forall|i: int| 0 <= i < fs.len() implies unchanged(
            visit_all(s, fs, notes),
            #[trigger] fs[i],
        ) || fs[i].content is None by {
            if i < fs.len() - 1 {
                assert(d[i] == fs[i]);
                assert(file_paths(fs)[i] != file_paths(fs)[fs.len() - 1]);
            }
        }
        assert forall|q: Seq<char>| !file_paths(fs).contains(q) implies lookup::<Stamp>(
            visit_all(s, fs, notes).stamps,
            q,
        ) == lookup::<Stamp>(s.stamps, q) by {
            assert(file_paths(fs)[fs.len() - 1] == f.path);
            if file_paths(d).contains(q) {
                let j = choose|j: int| 0 <= j < file_paths(d).len() && file_paths(d)[j] == q;
                assert(file_paths(fs)[j] == q);
            }
        }
    }
}

/// A pass over files that all are unchanged, or unreadable, re-indexes
/// nothing.
proof fn lemma_quiet_pass(s: IndexState, fs: Seq<DiskFacts>, notes: Seq<Seq<char>>)
    requires
        forall|i: int| 0 <= i < fs.len() ==> unchanged(s, #[trigger] fs[i]) || fs[i].content is None,
    ensures
        visit_all(s, fs, notes) == s,
        touched_count(s, fs, notes) == 0,
    decreases fs.len(),
{
    if fs.len() > 0 {
        let d = fs.drop_last();
        assert forall|i: int| 0 <= i < d.len() implies unchanged(s, #[trigger] d[i]) || d[i].content
            is None by {
            assert(d[i] == fs[i]);
        }
        lemma_quiet_pass(s, d, notes);
        assert(fs.last() == fs[fs.len() - 1]);
    }
}

proof fn lemma_stale_not_present(st: Seq<(Seq<char>, int, int)>, present: Seq<Seq<char>>)
    ensures
        forall|x: Seq<char>| #[trigger] stale_of(st, present).contains(x) ==> !present.contains(x),
        forall|i: int|
            0 <= i < st.len() && !present.contains(#[trigger] st[i].0) ==> stale_of(
                st,
                present,
            ).contains(st[i].0),
    decreases st.len(),
{
    if st.len() > 0 {
        let d = st.drop_last();
        lemma_stale_not_present(d, present);
        let prev = stale_of(d, present);
        assert forall|x: Seq<char>| #[trigger] stale_of(st, present).contains(x) implies !present.contains(x) by {
            if !present.contains(st.last().0) {
                let j = choose|j: int| 0 <= j < prev.push(st.last().0).len() && prev.push(st.last().0)[j] == x;
                if j < prev.len() {
                    assert(prev.contains(x));
                }
            }
        }
        assert forall|i: int|
            0 <= i < st.len() && !present.contains(#[trigger] st[i].0) implies stale_of(st, present).contains(st[i].0) by {
            if i < st.len() - 1 {
                assert(d[i] == st[i]);
                assert(prev.contains(st[i].0));
                if !present.contains(st.last().0) {
                    let j = choose|j: int| 0 <= j < prev.len() && prev[j] == st[i].0;
                    assert(prev.push(st.last().0)[j] == st[i].0);
                }
            } else {
                assert(prev.push(st.last().0)[prev.len() as int] == st[i].0);
            }
        }
    }
}

/// Forgetting paths that are not `q` leaves the stamp of `q` as it was.
proof fn lemma_forget_all_keeps(s: IndexState, paths: Seq<Seq<char>>, q: Seq<char>)
    requires
        unique_keys::<Stamp>(s.stamps),
        !paths.contains(q),
    ensures
        unique_keys::<Stamp>(forget_all(s, paths).stamps),
        lookup::<Stamp>(forget_all(s, paths).stamps, q) == lookup::<Stamp>(s.stamps, q),
    decreases paths.len(),
{
    if paths.len() > 0 {
        let d = paths.drop_last();
        assert(!d.contains(q)) by {
            if d.contains(q) {
                let j = choose|j: int| 0 <= j < d.len() && d[j] == q;
                assert(paths[j] == q);
            }
        }
        lemma_forget_all_keeps(s, d, q);
        let prev = forget_all(s, d);
        assert(paths[paths.len() - 1] != q);
        lemma_without::<Stamp>(prev.stamps, paths.last());
        lemma_lookup_without::<Stamp>(prev.stamps, paths.last(), q);
    }
}

/// Forgetting a list of paths that holds `p` leaves nothing of `p`.
proof fn lemma_forget_all_removes(s: IndexState, paths: Seq<Seq<char>>, p: Seq<char>)
    requires
        paths.contains(p),
    ensures
        owns_nothing(forget_all(s, paths), p),
    decreases paths.len(),
{
    let d = paths.drop_last();
    let prev = forget_all(s, d);
    if paths.last() == p {
        lemma_forgotten(prev, p, p);
    } else {
        let j = choose|j: int| 0 <= j < paths.len() && paths[j] == p;
        assert(d[j] == p);
        lemma_forget_all_removes(s, d, p);
        lemma_forgotten(prev, paths.last(), p);
    }
}

proof fn lemma_forget_all_subset(s: IndexState, paths: Seq<Seq<char>>)
    ensures
        forall|w: (Seq<char>, int, int)| #[trigger] forget_all(s, paths).stamps.contains(w)
            ==> s.stamps.contains(w),
    decreases paths.len(),
{
    if paths.len() > 0 {
        lemma_forget_all_subset(s, paths.drop_last());
        lemma_without::<Stamp>(forget_all(s, paths.drop_last()).stamps, paths.last());
    }
}

proof fn lemma_stale_empty(st: Seq<(Seq<char>, int, int)>, present: Seq<Seq<char>>)
    requires
        forall|i: int| 0 <= i < st.len() ==> present.contains(#[trigger] st[i].0),
    ensures
        stale_of(st, present) == Seq::<Seq<char>>::empty(),
    decreases st.len(),
{
    if st.len() > 0 {
        let d = st.drop_last();
        assert forall|i: int| 0 <= i < d.len() implies present.contains(#[trigger] d[i].0) by {
            assert(d[i] == st[i]);
        }
        lemma_stale_empty(d, present);
        assert(present.contains(st[st.len() - 1].0));
    }
}

/// A second sync pass over a tree that did not change re-indexes nothing
/// and leaves every table, stamps included, as the first pass left them.
pub proof fn lemma_sync_idempotent(s: IndexState, fs: Seq<DiskFacts>, notes: Seq<Seq<char>>)
    requires
        state_wf(s),
        file_paths(fs).no_duplicates(),
    ensures
        touched_count(synced(s, fs, notes), fs, notes) == 0,
        synced(synced(s, fs, notes), fs, notes) == synced(s, fs, notes),
{
    lemma_visit_all(s, fs, notes);
    let v = visit_all(s, fs, notes);
    let stale = stale_of(v.stamps, file_paths(fs));
    lemma_stale_not_present(v.stamps, file_paths(fs));
    let after = synced(s, fs, notes);
    assert forall|i: int| 0 <= i < fs.len() implies unchanged(after, #[trigger] fs[i])
        || fs[i].content is None by {
        assert(file_paths(fs)[i] == fs[i].path);
        assert(!stale.contains(fs[i].path));
        lemma_forget_all_keeps(v, stale, fs[i].path);
    }
    lemma_quiet_pass(after, fs, notes);
    // every stamp that is left belongs to a file on disk
    let present = file_paths(fs);
    lemma_forget_all_subset(v, stale);
    assert forall|i: int| 0 <= i < after.stamps.len() implies present.contains(
        #[trigger] after.stamps[i].0,
    ) by {
        let w = after.stamps[i];
        assert(after.stamps.contains(w));
        assert(v.stamps.contains(w));
        if !present.contains(w.0) {
            let j = choose|j: int| 0 <= j < v.stamps.len() && v.stamps[j] == w;
            assert(!present.contains(v.stamps[j].0));
            assert(stale.contains(w.0));
            lemma_forget_all_removes(v, stale, w.0);
            assert(Stamp::owner(after.stamps[i]) != w.0);
        }
    }
    lemma_stale_empty(after.stamps, present);
    assert(visit_all(after, fs, notes) == after);
    assert(forget_all(after, Seq::<Seq<char>>::empty()) == after);
}

/// A sync pass forgets a note that was stamped and is no longer among the
/// files on disk: no table holds anything of it, stamp included.
pub proof fn lemma_sync_forgets_deleted(
    s: IndexState,
    fs: Seq<DiskFacts>,
    notes: Seq<Seq<char>>,
    p: Seq<char>,
)
    requires
        state_wf(s),
        lookup::<Stamp>(s.stamps, p) is Some,
        !file_paths(fs).contains(p),
    ensures
        owns_nothing(synced(s, fs, notes), p),
{
    lemma_visit_all_keeps(s, fs, notes, p);
    let v = visit_all(s, fs, notes);
    lemma_key_index::<Stamp>(v.stamps, p);
    let i = crate::table::key_index::<Stamp>(v.stamps, p);
    lemma_stale_not_present(v.stamps, file_paths(fs));
    assert(v.stamps[i].0 == p);
    lemma_forget_all_removes(v, stale_of(v.stamps, file_paths(fs)), p);
}

proof fn lemma_visit_all_keeps(s: IndexState, fs: Seq<DiskFacts>, notes: Seq<Seq<char>>, p: Seq<char>)
    requires
        unique_keys::<Stamp>(s.stamps),
        !file_paths(fs).contains(p),
    ensures
        lookup::<Stamp>(visit_all(s, fs, notes).stamps, p) == lookup::<Stamp>(s.stamps, p),
    decreases fs.len(),
{
    if fs.len() > 0 {
        let d = fs.drop_last();
        assert(!file_paths(d).contains(p)) by {
            if file_paths(d).contains(p) {
                let j = choose|j: int| 0 <= j < file_paths(d).len() && file_paths(d)[j] == p;
                assert(file_paths(fs)[j] == p);
            }
        }
        lemma_visit_all_keeps(s, d, notes, p);
        lemma_visit_all_unique(s, d, notes);
        assert(file_paths(fs)[fs.len() - 1] == fs.last().path);
        lemma_visit_stamps(visit_all(s, d, notes), fs.last(), notes);
    }
}

proof fn lemma_visit_all_unique(s: IndexState, fs: Seq<DiskFacts>, notes: Seq<Seq<char>>)
    requires
        unique_keys::<Stamp>(s.stamps),
    ensures
        unique_keys::<Stamp>(visit_all(s, fs, notes).stamps),
    decreases fs.len(),
{
    if fs.len() > 0 {
        lemma_visit_all_unique(s, fs.drop_last(), notes);
        lemma_visit_stamps(visit_all(s, fs.drop_last(), notes), fs.last(), notes);
    }
}

// ---------------------------------------------------------------- recurrence

/// A completed recurring todo hands on exactly one new open todo: the daily
/// note gains one line, which reads back as an open root-level todo whose
/// one due-date token, at the end of the line, is the pattern's next date
/// (seven days on for `weekly`); its priority is the first priority token of
/// the kept text: the todo's text, with ` !p` added when it lacks `!p`.
pub proof fn lemma_recurring_instance_reads_back(
    todo: TodoFacts,
    today: (int, int, int),
    existing: Option<Seq<char>>,
)
    requires
        todo.recurrence is Some,
        next_due_text(todo.recurrence.unwrap(), today) is Some,
    ensures
        ({
            let d = next_due_text(todo.recurrence.unwrap(), today).unwrap();
            let line = recurring_line(todo.content, todo.priority, Some(d));
            let c = carried_text(todo.content, todo.priority, d);
            let note = match existing {
                Some(e) => e,
                None => daily_template(date_text(today)),
            };
            &&& next_instance_note(todo, today, existing) == Some(appended(note, line))
            &&& todo_line(line) == Some((0int, false, c))
            &&& meta_in(Meta::Due, c) == Some(d)
            &&& forall|i: int| 0 <= i && #[trigger] due_at(c, i) is Some ==> i == c.len() - 16
            &&& line.subrange(line.len() - 16 - 1, line.len() as int) == due_suffix(d)
            &&& meta_in(Meta::Priority, c) == meta_in(
                Meta::Priority,
                scrub(carried_source(todo.content, todo.priority)),
            )
            &&& (lower_of(todo.recurrence.unwrap()) == "weekly"@ ==> d == date_text(
                days_later(today, 7).unwrap(),
            ))
        }),
{
    let p = todo.recurrence.unwrap();
    let nd = next_date(p, today).unwrap();
    reveal_strlit("daily");
    reveal_strlit("weekly");
    if lower_of(p) == "weekly"@ {
        assert("weekly"@ != "daily"@) by {
            assert("weekly"@[0] != "daily"@[0]);
        }
        assert(next_date(p, today) == days_later(today, 7));
    }
    lemma_date_text_shape(nd);
    lemma_carried_reads_back(todo.content, todo.priority, next_due_text(p, today).unwrap());
}

// ---------------------------------------------------------------- wikilinks

proof fn lemma_scan_outside(s: Seq<char>, i: int, j: int)
    requires
        0 <= i <= j <= s.len(),
        forall|k: int| i <= k < j ==> s[k] != '[',
    ensures
        links_scan(s, i, -1) == links_scan(s, j, -1),
    decreases j - i,
{
    if i < j {
        lemma_scan_outside(s, i + 1, j);
    }
}

proof fn lemma_scan_inside(s: Seq<char>, start: int, i: int, j: int)
    requires
        0 <= start <= i <= j <= s.len(),
        forall|k: int| i <= k < j ==> s[k] != ']',
    ensures
        links_scan(s, i, start) == links_scan(s, j, start),
    decreases j - i,
{
    if i < j {
        lemma_scan_inside(s, start, i + 1, j);
    }
}

/// Reads one `[[target]]` that stands at `p`, followed by text without `[`
/// up to `q`.
proof fn lemma_scan_link(s: Seq<char>, p: int, target: Seq<char>, q: int)
    requires
        0 <= p,
        p + target.len() + 4 <= q <= s.len(),
        target.len() > 0,
        s[p] == '[' && s[p + 1] == '[',
        s.subrange(p + 2, p + 2 + target.len()) == target,
        s[p + 2 + target.len()] == ']' && s[p + 3 + target.len()] == ']',
        forall|k: int| 0 <= k < target.len() ==> target[k] != ']',
        forall|k: int| p + 4 + target.len() <= k < q ==> s[k] != '[',
    ensures
        links_scan(s, p, -1) == seq![target] + links_scan(s, q, -1),
{
    let e = p + 2 + target.len();
    assert forall|k: int| p + 2 <= k < e implies s[k] != ']' by {
        assert(s[k] == s.subrange(p + 2, e)[k - p - 2]);
    }
    lemma_scan_inside(s, p + 2, p + 2, e);
    lemma_scan_outside(s, e + 2, q);
    assert(links_scan(s, p, -1) == links_scan(s, p + 2, p + 2));
    assert(links_scan(s, e, p + 2) == seq![s.subrange(p + 2, e)] + links_scan(s, e + 2, -1));
}

/// A text that holds `[[a]]` and later `[[b]]`, and no `[` outside them, yields
/// exactly the targets `a` and `b`, in that order; a `#fragment` in a target
/// stays part of it.
pub proof fn lemma_two_links(
    x: Seq<char>,
    a: Seq<char>,
    y: Seq<char>,
    b: Seq<char>,
    z: Seq<char>,
)
    requires
        a.len() > 0 && b.len() > 0,
        forall|k: int| 0 <= k < a.len() ==> a[k] != ']',
        forall|k: int| 0 <= k < b.len() ==> b[k] != ']',
        forall|k: int| 0 <= k < x.len() ==> x[k] != '[',
        forall|k: int| 0 <= k < y.len() ==> y[k] != '[',
        forall|k: int| 0 <= k < z.len() ==> z[k] != '[',
    ensures
        links_in(
            x + seq!['[', '['] + a + seq![']', ']'] + y + seq!['[', '['] + b + seq![']', ']'] + z,
        ) == seq![a, b],
{
    let s = x + seq!['[', '['] + a + seq![']', ']'] + y + seq!['[', '['] + b + seq![']', ']'] + z;
    let p1 = x.len() as int;
    let p2 = p1 + 4 + a.len() + y.len();
    let p3 = p2 + 4 + b.len();
    assert(s.len() == p3 + z.len());
    assert forall|k: int| 0 <= k < p1 implies s[k] != '[' by {
        assert(s[k] == x[k]);
    }
    lemma_scan_outside(s, 0, p1);
    assert(s[p1] == '[' && s[p1 + 1] == '[');
    assert(s.subrange(p1 + 2, p1 + 2 + a.len()) =~= a);
    assert(s[p1 + 2 + a.len()] == ']' && s[p1 + 3 + a.len()] == ']');
    assert forall|k: int| p1 + 4 + a.len() <= k < p2 implies s[k] != '[' by {
        assert(s[k] == y[k - p1 - 4 - a.len()]);
    }
    lemma_scan_link(s, p1, a, p2);
    assert(s[p2] == '[' && s[p2 + 1] == '[');
    assert(s.subrange(p2 + 2, p2 + 2 + b.len()) =~= b);
    assert(s[p2 + 2 + b.len()] == ']' && s[p2 + 3 + b.len()] == ']');
    assert forall|k: int| p3 <= k < s.len() implies s[k] != '[' by {
        assert(s[k] == z[k - p3]);
    }
    lemma_scan_link(s, p2, b, s.len() as int);
    assert(links_scan(s, s.len() as int, -1) == Seq::<Seq<char>>::empty());
    assert(seq![a] + (seq![b] + Seq::<Seq<char>>::empty()) =~= seq![a, b]);
}

} // verus!
