//! Keyed tables: the rows of one kind, held in a `Vec` whose keys are unique.
//! Each table of the index is one of these; rows are inserted by key, replacing
//! the row of the same key, and the rows of one note are dropped together.
use vstd::prelude::*;

use vstd::multiset::Multiset;

verus! {

/// A row of a keyed table.
pub trait Row: View + Sized {
    type Key;

    /// The unique key of a row.
    spec fn key(v: Self::V) -> Self::Key;

    /// The note that a row belongs to.
    spec fn owner(v: Self::V) -> Seq<char>;

    /// Rows of one key belong to one note.
    proof fn lemma_key_owner(a: Self::V, b: Self::V)
        requires
            Self::key(a) == Self::key(b),
        ensures
            Self::owner(a) == Self::owner(b),
    ;

    fn same_key(&self, other: &Self) -> (r: bool)
        ensures
            r == (Self::key(self@) == Self::key(other@)),
    ;

    fn owned_by(&self, path: &String) -> (r: bool)
        ensures
            r == (Self::owner(self@) == path@),
    ;
}

pub open spec fn rv<T: View>(s: Seq<T>) -> Seq<T::V> {
    s.map_values(|x: T| x@)
}

pub open spec fn unique_keys<T: Row>(s: Seq<T::V>) -> bool {
    forall|i: int, j: int| 0 <= i < j < s.len() ==> T::key(s[i]) != T::key(s[j])
}

pub open spec fn not_owned<T: Row>(path: Seq<char>) -> spec_fn(T::V) -> bool {
    |v: T::V| T::owner(v) != path
}

/// The rows of a table that do not belong to `path`.
pub open spec fn without<T: Row>(s: Seq<T::V>, path: Seq<char>) -> Seq<T::V> {
    s.filter(not_owned::<T>(path))
}

/// The position of the row with key `k`, or -1.
pub open spec fn key_index<T: Row>(s: Seq<T::V>, k: T::Key) -> int
    decreases s.len(),
{
    if s.len() == 0 {
        -1
    } else if T::key(s.last()) == k {
        s.len() - 1
    } else {
        key_index::<T>(s.drop_last(), k)
    }
}

/// A table after `v` is inserted: it replaces the row of the same key, or is
/// appended.
pub open spec fn upserted<T: Row>(s: Seq<T::V>, v: T::V) -> Seq<T::V> {
    let i = key_index::<T>(s, T::key(v));
    if i >= 0 {
        s.update(i, v)
    } else {
        s.push(v)
    }
}

/// A table after the rows `vs` are inserted in order.
pub open spec fn upsert_all<T: Row>(s: Seq<T::V>, vs: Seq<T::V>) -> Seq<T::V>
    decreases vs.len(),
{
    if vs.len() == 0 {
        s
    } else {
        upserted::<T>(upsert_all::<T>(s, vs.drop_last()), vs.last())
    }
}

/// The row of key `k`, if the table holds one.
pub open spec fn lookup<T: Row>(s: Seq<T::V>, k: T::Key) -> Option<T::V> {
    let i = key_index::<T>(s, k);
    if i >= 0 {
        Some(s[i])
    } else {
        None
    }
}

pub proof fn lemma_key_index<T: Row>(s: Seq<T::V>, k: T::Key)
    ensures
        -1 <= key_index::<T>(s, k) < s.len(),
        key_index::<T>(s, k) >= 0 ==> T::key(s[key_index::<T>(s, k)]) == k,
        key_index::<T>(s, k) == -1 ==> forall|i: int| 0 <= i < s.len() ==> T::key(s[i]) != k,
    decreases s.len(),
{
    if s.len() > 0 {
        lemma_key_index::<T>(s.drop_last(), k);
        if T::key(s.last()) != k {
            assert forall|i: int| 0 <= i < s.len() - 1 implies s[i] == s.drop_last()[i] by {}
        }
    }
}

/// In a table of unique keys, the row at `i` is the one that its key finds.
pub proof fn lemma_key_index_unique<T: Row>(s: Seq<T::V>, i: int)
    requires
        unique_keys::<T>(s),
        0 <= i < s.len(),
    ensures
        key_index::<T>(s, T::key(s[i])) == i,
{
    lemma_key_index::<T>(s, T::key(s[i]));
}

pub proof fn lemma_upserted<T: Row>(s: Seq<T::V>, v: T::V)
    requires
        unique_keys::<T>(s),
    ensures
        unique_keys::<T>(upserted::<T>(s, v)),
        lookup::<T>(upserted::<T>(s, v), T::key(v)) == Some(v),
        forall|k: T::Key| k != T::key(v) ==> lookup::<T>(upserted::<T>(s, v), k) == lookup::<T>(s, k),
        forall|w: T::V| #[trigger] upserted::<T>(s, v).contains(w) ==> w == v || s.contains(w),
{
    let i = key_index::<T>(s, T::key(v));
    lemma_key_index::<T>(s, T::key(v));
    let u = upserted::<T>(s, v);
    if i >= 0 {
        assert forall|a: int, b: int| 0 <= a < b < u.len() implies T::key(u[a]) != T::key(u[b]) by {}
        lemma_key_index_unique::<T>(u, i);
        assert forall|k: T::Key| k != T::key(v) implies lookup::<T>(u, k) == lookup::<T>(s, k) by {
            lemma_key_index::<T>(s, k);
            lemma_key_index::<T>(u, k);
            if key_index::<T>(s, k) >= 0 {
                lemma_key_index_unique::<T>(u, key_index::<T>(s, k));
            }
            if key_index::<T>(u, k) >= 0 {
                lemma_key_index_unique::<T>(s, key_index::<T>(u, k));
            }
        }
        assert forall|w: T::V| #[trigger] u.contains(w) implies w == v || s.contains(w) by {
            let a = choose|a: int| 0 <= a < u.len() && u[a] == w;
            if a != i {
                assert(s[a] == w);
            }
        }
    } else {
        assert forall|a: int, b: int| 0 <= a < b < u.len() implies T::key(u[a]) != T::key(u[b]) by {}
        lemma_key_index_unique::<T>(u, s.len() as int);
        assert forall|k: T::Key| k != T::key(v) implies lookup::<T>(u, k) == lookup::<T>(s, k) by {
            lemma_key_index::<T>(s, k);
            lemma_key_index::<T>(u, k);
            assert(u.drop_last() =~= s);
        }
        assert forall|w: T::V| #[trigger] u.contains(w) implies w == v || s.contains(w) by {
            let a = choose|a: int| 0 <= a < u.len() && u[a] == w;
            if a != s.len() {
                assert(s[a] == w);
            }
        }
    }
}

pub proof fn lemma_upsert_all_unique<T: Row>(s: Seq<T::V>, vs: Seq<T::V>)
    requires
        unique_keys::<T>(s),
    ensures
        unique_keys::<T>(upsert_all::<T>(s, vs)),
    decreases vs.len(),
{
    if vs.len() > 0 {
        lemma_upsert_all_unique::<T>(s, vs.drop_last());
        lemma_upserted::<T>(upsert_all::<T>(s, vs.drop_last()), vs.last());
    }
}

/// In a table of unique keys, a row that it holds is what its key finds.
pub proof fn lemma_lookup_held<T: Row>(s: Seq<T::V>, v: T::V)
    requires
        unique_keys::<T>(s),
        s.contains(v),
    ensures
        lookup::<T>(s, T::key(v)) == Some(v),
{
    let i = choose|i: int| 0 <= i < s.len() && s[i] == v;
    lemma_key_index_unique::<T>(s, i);
}

/// Inserting rows that all belong to `owner` leaves the rows of every other
/// note as they were.
pub proof fn lemma_upsert_all_others<T: Row>(s: Seq<T::V>, vs: Seq<T::V>, owner: Seq<char>)
    requires
        forall|i: int| 0 <= i < vs.len() ==> T::owner(#[trigger] vs[i]) == owner,
    ensures
        forall|w: T::V| #[trigger] upsert_all::<T>(s, vs).contains(w) ==> T::owner(w) == owner
            || s.contains(w),
    decreases vs.len(),
{
    if vs.len() > 0 {
        let p = upsert_all::<T>(s, vs.drop_last());
        assert forall|i: int| 0 <= i < vs.drop_last().len() implies T::owner(
            #[trigger] vs.drop_last()[i],
        ) == owner by {
            assert(vs.drop_last()[i] == vs[i]);
        }
        lemma_upsert_all_others::<T>(s, vs.drop_last(), owner);
        let u = upserted::<T>(p, vs.last());
        let i = key_index::<T>(p, T::key(vs.last()));
        lemma_key_index::<T>(p, T::key(vs.last()));
        assert forall|w: T::V| #[trigger] u.contains(w) implies T::owner(w) == owner || s.contains(
            w,
        ) by {
            let a = choose|a: int| 0 <= a < u.len() && u[a] == w;
            if i >= 0 {
                if a != i {
                    assert(p.contains(w));
                }
            } else {
                if a != p.len() {
                    assert(p[a] == w);
                    assert(p.contains(w));
                }
            }
        }
    }
}

/// No row of `s` belongs to `p`.
pub open spec fn none_owned<T: Row>(s: Seq<T::V>, p: Seq<char>) -> bool {
    forall|i: int| 0 <= i < s.len() ==> T::owner(#[trigger] s[i]) != p
}

pub proof fn lemma_without<T: Row>(s: Seq<T::V>, p: Seq<char>)
    ensures
        none_owned::<T>(without::<T>(s, p), p),
        forall|w: T::V| #[trigger] without::<T>(s, p).contains(w) ==> s.contains(w),
        unique_keys::<T>(s) ==> unique_keys::<T>(without::<T>(s, p)),
    decreases s.len(),
{
    let f = without::<T>(s, p);
    assert forall|i: int| 0 <= i < f.len() implies T::owner(#[trigger] f[i]) != p by {
        s.lemma_filter_pred(not_owned::<T>(p), i);
    }
    assert forall|w: T::V| #[trigger] f.contains(w) implies s.contains(w) by {
        s.lemma_filter_contains_rev(not_owned::<T>(p), w);
    }
    if s.len() > 0 && unique_keys::<T>(s) {
        let d = s.drop_last();
        assert(d.push(s.last()) =~= s);
        d.lemma_filter_push(s.last(), not_owned::<T>(p));
        assert forall|a: int, b: int| 0 <= a < b < d.len() implies T::key(d[a]) != T::key(d[b]) by {
            assert(d[a] == s[a] && d[b] == s[b]);
        }
        lemma_without::<T>(d, p);
        let fd = without::<T>(d, p);
        if T::owner(s.last()) != p {
            assert forall|a: int, b: int| 0 <= a < b < f.len() implies T::key(f[a]) != T::key(
                f[b],
            ) by {
                if b == f.len() - 1 {
                    assert(fd.contains(f[a]));
                    let j = choose|j: int| 0 <= j < d.len() && d[j] == f[a];
                    assert(s[j] == f[a]);
                }
            }
        }
    }
}

/// Inserting rows that all belong to `p` into a table that holds none of
/// `p` keeps that table as a prefix, followed only by rows of `p`.
pub proof fn lemma_upsert_all_appends<T: Row>(s: Seq<T::V>, vs: Seq<T::V>, p: Seq<char>)
    requires
        none_owned::<T>(s, p),
        forall|i: int| 0 <= i < vs.len() ==> T::owner(#[trigger] vs[i]) == p,
    ensures
        upsert_all::<T>(s, vs).len() >= s.len(),
        upsert_all::<T>(s, vs).take(s.len() as int) == s,
        forall|i: int|
            s.len() <= i < upsert_all::<T>(s, vs).len() ==> T::owner(
                #[trigger] upsert_all::<T>(s, vs)[i],
            ) == p,
    decreases vs.len(),
{
    if vs.len() > 0 {
        let d = vs.drop_last();
        assert forall|i: int| 0 <= i < d.len() implies T::owner(#[trigger] d[i]) == p by {
            assert(d[i] == vs[i]);
        }
        lemma_upsert_all_appends::<T>(s, d, p);
        let u = upsert_all::<T>(s, d);
        let v = vs.last();
        lemma_key_index::<T>(u, T::key(v));
        let i = key_index::<T>(u, T::key(v));
        if i >= 0 {
            T::lemma_key_owner(u[i], v);
            if i < s.len() {
                assert(u.take(s.len() as int)[i] == s[i]);
            }
            assert(upserted::<T>(u, v).take(s.len() as int) =~= s);
        } else {
            assert(upserted::<T>(u, v).take(s.len() as int) =~= s);
        }
    }
}

/// Dropping the rows of `p` after they were inserted into a table that
/// held none of them gives that table back.
pub proof fn lemma_without_upsert_all<T: Row>(s: Seq<T::V>, vs: Seq<T::V>, p: Seq<char>)
    requires
        none_owned::<T>(s, p),
        forall|i: int| 0 <= i < vs.len() ==> T::owner(#[trigger] vs[i]) == p,
    ensures
        without::<T>(upsert_all::<T>(s, vs), p) == s,
{
    lemma_upsert_all_appends::<T>(s, vs, p);
    let u = upsert_all::<T>(s, vs);
    let t = u.skip(s.len() as int);
    assert(u =~= s + t);
    Seq::filter_distributes_over_add(s, t, not_owned::<T>(p));
    lemma_filter_keeps_all::<T>(s, p);
    lemma_filter_drops_all::<T>(t, p);
    assert(s + Seq::<T::V>::empty() =~= s);
}

pub proof fn lemma_filter_keeps_all<T: Row>(s: Seq<T::V>, p: Seq<char>)
    requires
        none_owned::<T>(s, p),
    ensures
        without::<T>(s, p) == s,
    decreases s.len(),
{
    reveal(Seq::filter);
    if s.len() > 0 {
        let d = s.drop_last();
        assert forall|i: int| 0 <= i < d.len() implies T::owner(#[trigger] d[i]) != p by {
            assert(d[i] == s[i]);
        }
        lemma_filter_keeps_all::<T>(d, p);
        assert(d.push(s.last()) =~= s);
    }
}

pub proof fn lemma_filter_drops_all<T: Row>(s: Seq<T::V>, p: Seq<char>)
    requires
        forall|i: int| 0 <= i < s.len() ==> T::owner(#[trigger] s[i]) == p,
    ensures
        without::<T>(s, p) == Seq::<T::V>::empty(),
    decreases s.len(),
{
    reveal(Seq::filter);
    if s.len() > 0 {
        let d = s.drop_last();
        assert forall|i: int| 0 <= i < d.len() implies T::owner(#[trigger] d[i]) == p by {
            assert(d[i] == s[i]);
        }
        lemma_filter_drops_all::<T>(d, p);
    }
}

/// In a table whose key is its owner, dropping the rows of `p` leaves what
/// every other key finds.
pub proof fn lemma_lookup_without<T: Row>(s: Seq<T::V>, p: Seq<char>, k: T::Key)
    requires
        unique_keys::<T>(s),
        forall|v: T::V| T::key(v) == k ==> T::owner(v) != p,
    ensures
        lookup::<T>(without::<T>(s, p), k) == lookup::<T>(s, k),
{
    lemma_without::<T>(s, p);
    let f = without::<T>(s, p);
    lemma_key_index::<T>(s, k);
    lemma_key_index::<T>(f, k);
    let i = key_index::<T>(s, k);
    let j = key_index::<T>(f, k);
    if i >= 0 {
        s.lemma_filter_contains(not_owned::<T>(p), i);
        assert(f.contains(s[i]));
        let m = choose|m: int| 0 <= m < f.len() && f[m] == s[i];
        lemma_key_index_unique::<T>(f, m);
    } else if j >= 0 {
        assert(f.contains(f[j]));
        assert(s.contains(f[j]));
    }
}

/// Drops the rows that belong to `path`, keeping the order of the others.
pub fn drop_owned<T: Row>(rows: &mut Vec<T>, path: &String)
    requires
        unique_keys::<T>(rv(old(rows)@)),
    ensures
        rv(final(rows)@) == without::<T>(rv(old(rows)@), path@),
        unique_keys::<T>(rv(final(rows)@)),
{
    let ghost orig = old(rows)@;
    let mut i: usize = 0;
    let ghost mut j: int = 0;
    assert(rv(rows@.take(0)) =~= Seq::<T::V>::empty());
    assert(rv(orig.take(0)) =~= Seq::<T::V>::empty());
    assert(Seq::<T::V>::empty().filter(not_owned::<T>(path@)) =~= Seq::<T::V>::empty()) by {
        reveal(Seq::filter);
    }
    while i < rows.len()
        invariant
            0 <= i <= rows@.len(),
            0 <= j <= orig.len(),
            rows@.len() - i == orig.len() - j,
            rv(rows@.take(i as int)) == rv(orig.take(j)).filter(not_owned::<T>(path@)),
            rows@.skip(i as int) == orig.skip(j),
            unique_keys::<T>(rv(rows@)),
        decreases rows@.len() - i,
    {
        let ghost before = rows@;
        assert(before[i as int] == orig[j]) by {
            assert(before.skip(i as int)[0] == orig.skip(j)[0]);
        }
        assert(rv(orig.take(j + 1)) =~= rv(orig.take(j)).push(orig[j]@));
        proof {
            rv(orig.take(j)).lemma_filter_push(orig[j]@, not_owned::<T>(path@));
        }
        if rows[i].owned_by(path) {
            let _ = rows.remove(i);
            proof {
                assert(rows@.take(i as int) =~= before.take(i as int));
                assert(rows@.skip(i as int) =~= orig.skip(j + 1)) by {
                    assert(rows@.skip(i as int) =~= before.skip(i as int + 1));
                    assert(before.skip(i as int + 1) =~= before.skip(i as int).skip(1));
                    assert(orig.skip(j + 1) =~= orig.skip(j).skip(1));
                }
                assert forall|a: int, b: int|
                    0 <= a < b < rv(rows@).len() implies T::key(rv(rows@)[a]) != T::key(
                    rv(rows@)[b],
                ) by {
                    let a2 = if a < i { a } else { a + 1 };
                    let b2 = if b < i { b } else { b + 1 };
                    assert(rv(rows@)[a] == rv(before)[a2]);
                    assert(rv(rows@)[b] == rv(before)[b2]);
                }
                j = j + 1;
            }
        } else {
            proof {
                assert(rv(rows@.take(i as int + 1)) =~= rv(rows@.take(i as int)).push(
                    rows@[i as int]@,
                ));
                assert(rows@.skip(i as int + 1) =~= orig.skip(j + 1)) by {
                    assert(rows@.skip(i as int + 1) =~= rows@.skip(i as int).skip(1));
                    assert(orig.skip(j + 1) =~= orig.skip(j).skip(1));
                }
                j = j + 1;
            }
            i = i + 1;
        }
    }
    proof {
        assert(rows@.take(i as int) =~= rows@);
        assert(orig.skip(j).len() == 0);
        assert(orig.take(j) =~= orig);
    }
}

/// Inserts a row by key: it replaces the row of the same key, or is appended.
pub fn upsert<T: Row>(rows: &mut Vec<T>, row: T)
    requires
        unique_keys::<T>(rv(old(rows)@)),
    ensures
        rv(final(rows)@) == upserted::<T>(rv(old(rows)@), row@),
        unique_keys::<T>(rv(final(rows)@)),
{
    let ghost s = rv(rows@);
    proof {
        lemma_upserted::<T>(s, row@);
    }
    let mut i: usize = rows.len();
    assert(s.take(i as int) =~= s);
    while i > 0
        invariant
            i <= rows@.len(),
            rows@ == old(rows)@,
            s == rv(rows@),
            unique_keys::<T>(s),
            key_index::<T>(s, T::key(row@)) == key_index::<T>(s.take(i as int), T::key(row@)),
        decreases i,
    {
        assert(s.take(i as int).drop_last() =~= s.take(i as int - 1));
        if rows[i - 1].same_key(&row) {
            assert(s.take(i as int).last() == s[i - 1]);
            assert(key_index::<T>(s, T::key(row@)) == i - 1);
            let _ = rows.remove(i - 1);
            rows.insert(i - 1, row);
            assert(rv(rows@) =~= s.update(i - 1, row@));
            assert(upserted::<T>(s, row@) == s.update(i - 1, row@));
            return;
        }
        i = i - 1;
    }
    rows.push(row);
    assert(rv(rows@) =~= s.push(row@));
}

// ---------------------------------------------------------------- ordering

/// Rows with a total order, for the queries that return rows sorted.
pub trait Sortable: View + Sized {
    spec fn le(a: Self::V, b: Self::V) -> bool;

    proof fn lemma_total(a: Self::V, b: Self::V)
        ensures
            Self::le(a, b) || Self::le(b, a),
    ;

    fn le_exec(&self, other: &Self) -> (r: bool)
        ensures
            r == Self::le(self@, other@),
    ;
}

/// Each row comes no earlier than the one before it.
pub open spec fn sorted<T: Sortable>(s: Seq<T::V>) -> bool {
    forall|i: int| 0 <= i < s.len() - 1 ==> T::le(#[trigger] s[i], s[i + 1])
}

/// `x` inserted into `s` after every row that does not come after it.
pub open spec fn insert_after<T: Sortable>(s: Seq<T::V>, x: T::V) -> Seq<T::V>
    decreases s.len(),
{
    if s.len() == 0 || T::le(s.last(), x) {
        s.push(x)
    } else {
        insert_after::<T>(s.drop_last(), x).push(s.last())
    }
}

/// The rows sorted by insertion in their order: rows that neither comes
/// before the other keep the order they had.
pub open spec fn stable_sorted<T: Sortable>(s: Seq<T::V>) -> Seq<T::V>
    decreases s.len(),
{
    if s.len() == 0 {
        s
    } else {
        insert_after::<T>(stable_sorted::<T>(s.drop_last()), s.last())
    }
}

proof fn lemma_insert_after<T: Sortable>(s: Seq<T::V>, x: T::V, pos: int)
    requires
        0 <= pos <= s.len(),
        pos == 0 || T::le(s[pos - 1], x),
        forall|j: int| pos <= j < s.len() ==> !T::le(#[trigger] s[j], x),
    ensures
        insert_after::<T>(s, x) == s.insert(pos, x),
    decreases s.len() - pos,
{
    if pos == s.len() {
        assert(s.insert(pos, x) =~= s.push(x));
    } else {
        let d = s.drop_last();
        assert(!T::le(s.last(), x));
        assert forall|j: int| pos <= j < d.len() implies !T::le(#[trigger] d[j], x) by {
            assert(d[j] == s[j]);
        }
        if pos > 0 {
            assert(d[pos - 1] == s[pos - 1]);
        }
        lemma_insert_after::<T>(d, x, pos);
        assert(d.insert(pos, x).push(s.last()) =~= s.insert(pos, x));
    }
}

/// Inserts a row into sorted rows after every row that does not come after
/// it.
fn insert_sorted<T: Sortable>(out: &mut Vec<T>, x: T)
    requires
        sorted::<T>(rv(old(out)@)),
    ensures
        rv(final(out)@) == insert_after::<T>(rv(old(out)@), x@),
        rv(final(out)@).to_multiset() == rv(old(out)@).to_multiset().insert(x@),
        sorted::<T>(rv(final(out)@)),
{
    let mut pos: usize = out.len();
    while pos > 0 && !out[pos - 1].le_exec(&x)
        invariant
            pos <= out@.len(),
            out@ == old(out)@,
            forall|j: int| pos <= j < out@.len() ==> !T::le(#[trigger] rv(out@)[j], x@),
        decreases pos,
    {
        pos = pos - 1;
    }
    let ghost before_out = rv(out@);
    proof {
        if pos > 0 {
            assert(T::le(before_out[pos - 1], x@));
        }
        lemma_insert_after::<T>(before_out, x@, pos as int);
    }
    out.insert(pos, x);
    proof {
        assert(rv(out@) =~= before_out.insert(pos as int, x@));
        vstd::seq_lib::to_multiset_insert(before_out, pos as int, x@);
        let o = rv(out@);
        assert forall|i: int| 0 <= i < o.len() - 1 implies T::le(#[trigger] o[i], o[i + 1]) by {
            if i + 1 < pos {
                assert(o[i] == before_out[i] && o[i + 1] == before_out[i + 1]);
            } else if i + 1 == pos {
            } else if i == pos {
                assert(!T::le(before_out[pos as int], x@));
                T::lemma_total(before_out[pos as int], x@);
            } else {
                assert(o[i] == before_out[i - 1] && o[i + 1] == before_out[i]);
            }
        }
    }
}

/// Sorts rows, keeping the order of rows that neither comes before the
/// other; the result holds the same rows.
pub fn sort_rows<T: Sortable>(v: Vec<T>) -> (r: Vec<T>)
    ensures
        rv(r@) == stable_sorted::<T>(rv(v@)),
        rv(r@).to_multiset() == rv(v@).to_multiset(),
        sorted::<T>(rv(r@)),
{
    broadcast use vstd::seq_lib::group_to_multiset_ensures;
    broadcast use vstd::multiset::group_multiset_axioms;

    let ghost orig = rv(v@);
    let n = v.len();
    let mut front = v;
    let mut rest: Vec<T> = Vec::new();
    while front.len() > 0
        invariant
            n == orig.len(),
            front@.len() + rest@.len() == n,
            rv(front@) == orig.take(front@.len() as int),
            forall|j: int| 0 <= j < rest@.len() ==> #[trigger] rv(rest@)[j] == orig[n - 1 - j],
        decreases front@.len(),
    {
        let ghost before = rv(front@);
        let ghost before_rest = rv(rest@);
        let x = front.pop().unwrap();
        proof {
            assert(before =~= rv(front@).push(x@));
            assert(before[before.len() - 1] == x@);
            assert(before[before.len() - 1] == orig.take(before.len() as int)[before.len() - 1]);
            assert(x@ == orig[front@.len() as int]);
            assert(rv(front@) =~= orig.take(front@.len() as int));
        }
        rest.push(x);
        proof {
            assert(rv(rest@) =~= before_rest.push(x@));
            assert forall|j: int| 0 <= j < rest@.len() implies #[trigger] rv(rest@)[j] == orig[n - 1
                - j] by {
                if j == rest@.len() - 1 {
                    assert(rv(rest@)[j] == x@);
                } else {
                    assert(rv(rest@)[j] == before_rest[j]);
                }
            }
        }
    }
    let mut out: Vec<T> = Vec::new();
    assert(rv(out@) =~= Seq::<T::V>::empty());
    assert(orig.take(0) =~= Seq::<T::V>::empty());
    assert(rv(out@).to_multiset() =~= Multiset::empty()) by {
        vstd::multiset::lemma_multiset_empty_len(rv(out@).to_multiset());
    }
    while rest.len() > 0
        invariant
            n == orig.len(),
            rest@.len() <= n,
            forall|j: int| 0 <= j < rest@.len() ==> #[trigger] rv(rest@)[j] == orig[n - 1 - j],
            rv(out@) == stable_sorted::<T>(orig.take(n - rest@.len())),
            rv(out@).to_multiset() == orig.take(n - rest@.len()).to_multiset(),
            sorted::<T>(rv(out@)),
        decreases rest@.len(),
    {
        let ghost k: int = n - rest@.len();
        let ghost last = rest@.len() - 1;
        let ghost before_rest = rv(rest@);
        assert(rv(rest@)[last] == orig[n - 1 - last]);
        let x = rest.pop().unwrap();
        proof {
            assert(before_rest =~= rv(rest@).push(x@));
            assert(before_rest[last] == x@);
            assert forall|j: int| 0 <= j < rest@.len() implies #[trigger] rv(rest@)[j] == orig[n - 1
                - j] by {
                assert(rv(rest@)[j] == before_rest[j]);
            }
            assert(x@ == orig[k]);
            assert(orig.take(k + 1).drop_last() =~= orig.take(k));
            assert(orig.take(k + 1) =~= orig.take(k).push(x@));
            vstd::seq_lib::to_multiset_build(orig.take(k), x@);
        }
        insert_sorted(&mut out, x);
        proof {
            assert(n - rest@.len() == k + 1);
        }
    }
    assert(orig.take(n as int) =~= orig);
    out
}

} // verus!
