//! The todo line that carries a completed recurring todo forward: its text,
//! with its priority token added when the text lacks it and every due-date
//! token taken out, and the new due date at the end. Read back, the line
//! gives the new due date and no other.
use vstd::prelude::*;

use crate::extract::{
    ch, date_at, date_starts, due_at, meta_at, meta_from, meta_in, skip_ws,
    skip_ws_from, todo_line, Meta,
};
use crate::text::{
    chars_of, is_white, is_whitespace_char, occurs, occurs_in, slice_of, string_of, trim,
    trim_end, trim_start,
};

verus! {

/// The length of the due-date token that the extractor reads at `i`, with
/// the `)` that closes an `@due(` form, or 0 when none starts there.
pub open spec fn token_len(s: Seq<char>, i: int) -> int {
    if ch(s, i, '@') && ch(s, i + 1, 'd') && ch(s, i + 2, 'u') && ch(s, i + 3, 'e') && ch(
        s,
        i + 4,
        '(',
    ) && date_at(s, i + 5) {
        if ch(s, i + 15, ')') {
            16
        } else {
            15
        }
    } else if ch(s, i, 'd') && ch(s, i + 1, 'u') && ch(s, i + 2, 'e') && ch(s, i + 3, ':')
        && date_at(s, i + 4) {
        14
    } else if ch(s, i, '\u{1F4C5}') && date_at(s, skip_ws(s, i + 1)) {
        skip_ws(s, i + 1) + 10 - i
    } else {
        0
    }
}

proof fn lemma_skip_ws_bounds(s: Seq<char>, i: int)
    requires
        0 <= i,
    ensures
        i <= skip_ws(s, i),
        i <= s.len() ==> skip_ws(s, i) <= s.len(),
    decreases s.len() - i,
{
    if 0 <= i < s.len() && is_white(s[i]) {
        lemma_skip_ws_bounds(s, i + 1);
    }
}

/// A token is read exactly where the extractor reads a due date, and lies
/// within the text.
pub proof fn lemma_token_len(s: Seq<char>, i: int)
    requires
        0 <= i,
    ensures
        (token_len(s, i) > 0) == (due_at(s, i) is Some),
        token_len(s, i) >= 0,
        token_len(s, i) <= s.len() - i || token_len(s, i) == 0,
{
    lemma_skip_ws_bounds(s, i + 1);
}

/// The position of the first token at or after `i`, or -1.
pub open spec fn first_token(s: Seq<char>, i: int) -> int
    decreases s.len() - i,
{
    if i < 0 || i >= s.len() {
        -1
    } else if token_len(s, i) > 0 {
        i
    } else {
        first_token(s, i + 1)
    }
}

proof fn lemma_first_token(s: Seq<char>, i: int)
    requires
        0 <= i,
    ensures
        first_token(s, i) == -1 || (i <= first_token(s, i) < s.len() && token_len(
            s,
            first_token(s, i),
        ) > 0),
        first_token(s, i) == -1 ==> forall|k: int| i <= k ==> #[trigger] token_len(s, k) == 0,
    decreases s.len() - i,
{
    if i >= s.len() {
        assert forall|k: int| i <= k implies #[trigger] token_len(s, k) == 0 by {
            assert(!ch(s, k, '@') && !ch(s, k, 'd') && !ch(s, k, '\u{1F4C5}'));
        }
        assert(first_token(s, i) == -1);
    } else if token_len(s, i) > 0 {
        assert(first_token(s, i) == i);
    } else {
        lemma_token_len(s, i);
        lemma_first_token(s, i + 1);
        assert(first_token(s, i) == first_token(s, i + 1));
        if first_token(s, i) == -1 {
            assert forall|k: int| i <= k implies #[trigger] token_len(s, k) == 0 by {
                if k > i {
                    assert(i + 1 <= k);
                }
            }
        }
    }
}

/// Text with surrounding whitespace and every due-date token taken out, the
/// first token first, until none is left.
pub open spec fn scrub(s: Seq<char>) -> Seq<char>
    decreases s.len(),
{
    if s.len() > 0 && is_white(s[0]) {
        scrub(s.drop_first())
    } else if s.len() > 0 && is_white(s.last()) {
        scrub(s.drop_last())
    } else {
        let i = first_token(s, 0);
        let n = token_len(s, i);
        if 0 <= i && n > 0 && i + n <= s.len() {
            scrub(s.subrange(0, i) + s.subrange(i + n, s.len() as int))
        } else {
            s
        }
    }
}

/// Scrubbed text holds no due-date token and starts and ends with a
/// character that is not whitespace.
pub open spec fn clean(r: Seq<char>) -> bool {
    &&& (r.len() == 0 || (!is_white(r[0]) && !is_white(r.last())))
    &&& forall|k: int| 0 <= k ==> #[trigger] token_len(r, k) == 0
}

pub proof fn lemma_scrub(s: Seq<char>)
    ensures
        clean(scrub(s)),
    decreases s.len(),
{
    if s.len() > 0 && is_white(s[0]) {
        lemma_scrub(s.drop_first());
    } else if s.len() > 0 && is_white(s.last()) {
        lemma_scrub(s.drop_last());
    } else {
        lemma_first_token(s, 0);
        let i = first_token(s, 0);
        if i >= 0 {
            lemma_token_len(s, i);
            lemma_scrub(s.subrange(0, i) + s.subrange(i + token_len(s, i), s.len() as int));
        }
    }
}

fn token_len_exec(s: &Vec<char>, i: usize) -> (r: usize)
    requires
        i < s@.len(),
    ensures
        r as int == token_len(s@, i as int),
{
    proof {
        lemma_token_len(s@, i as int);
    }
    let n = s.len();
    let c = |k: usize, x: char| -> (b: bool)
        ensures
            b == ch(s@, k as int, x),
        { k < n && s[k] == x };
    if n - i >= 5 && c(i, '@') && c(i + 1, 'd') && c(i + 2, 'u') && c(i + 3, 'e') && c(i + 4, '(')
        && date_starts(s, i + 5) {
        if c(i + 15, ')') {
            16
        } else {
            15
        }
    } else if n - i >= 4 && c(i, 'd') && c(i + 1, 'u') && c(i + 2, 'e') && c(i + 3, ':')
        && date_starts(s, i + 4) {
        14
    } else if c(i, '\u{1F4C5}') && date_starts(s, skip_ws_from(s, i + 1)) {
        skip_ws_from(s, i + 1) + 10 - i
    } else {
        0
    }
}

fn first_token_exec(s: &Vec<char>) -> (r: Option<usize>)
    ensures
        match r {
            Some(i) => i as int == first_token(s@, 0),
            None => first_token(s@, 0) == -1,
        },
{
    let mut i: usize = 0;
    while i < s.len()
        invariant
            i <= s@.len(),
            first_token(s@, 0) == first_token(s@, i as int),
        decreases s@.len() - i,
    {
        if token_len_exec(s, i) > 0 {
            return Some(i);
        }
        i = i + 1;
    }
    None
}

/// Takes out surrounding whitespace and every due-date token.
pub fn scrub_tokens(s: Vec<char>) -> (r: Vec<char>)
    ensures
        r@ == scrub(s@),
{
    let ghost target = scrub(s@);
    let mut cur = s;
    let mut done = false;
    while !done
        invariant
            done ==> cur@ == target,
            !done ==> scrub(cur@) == target,
        decreases cur@.len() + if done {
            0int
        } else {
            1int
        },
    {
        let n = cur.len();
        if n > 0 && is_whitespace_char(cur[0]) {
            let next = slice_of(&cur, 1, n);
            assert(next@ =~= cur@.drop_first());
            cur = next;
        } else if n > 0 && is_whitespace_char(cur[n - 1]) {
            let next = slice_of(&cur, 0, n - 1);
            assert(next@ =~= cur@.drop_last());
            cur = next;
        } else {
            match first_token_exec(&cur) {
                Some(i) => {
                    proof {
                        lemma_first_token(cur@, 0);
                        lemma_token_len(cur@, i as int);
                    }
                    let k = token_len_exec(&cur, i);
                    let mut next = slice_of(&cur, 0, i);
                    let tail = slice_of(&cur, i + k, n);
                    let mut m: usize = 0;
                    let ghost head = next@;
                    while m < tail.len()
                        invariant
                            m <= tail@.len(),
                            next@ == head + tail@.subrange(0, m as int),
                        decreases tail@.len() - m,
                    {
                        next.push(tail[m]);
                        assert(next@ =~= head + tail@.subrange(0, m as int + 1));
                        m = m + 1;
                    }
                    assert(tail@.subrange(0, tail@.len() as int) =~= tail@);
                    cur = next;
                },
                None => {
                    done = true;
                },
            }
        }
    }
    cur
}

// ---------------------------------------------------------------- the line


fn push_all(v: &mut Vec<char>, w: &Vec<char>)
    ensures
        final(v)@ == old(v)@ + w@,
{
    let ghost start = v@;
    let mut k: usize = 0;
    while k < w.len()
        invariant
            k <= w@.len(),
            v@ == start + w@.subrange(0, k as int),
        decreases w@.len() - k,
    {
        v.push(w[k]);
        assert(v@ =~= start + w@.subrange(0, k as int + 1));
        k = k + 1;
    }
    assert(w@.subrange(0, w@.len() as int) =~= w@);
}

pub open spec fn opt_text(o: Option<&str>) -> Option<Seq<char>> {
    match o {
        Some(p) => Some(p@),
        None => None,
    }
}

proof fn lemma_skip_ws_shift(a: Seq<char>, b: Seq<char>, j: int)
    requires
        0 <= j,
    ensures
        skip_ws(a + b, a.len() + j) == a.len() + skip_ws(b, j),
    decreases b.len() - j,
{
    if j < b.len() && is_white(b[j]) {
        assert((a + b)[a.len() + j] == b[j]);
        lemma_skip_ws_shift(a, b, j + 1);
    } else if j < b.len() {
        assert((a + b)[a.len() + j] == b[j]);
    }
}

/// Where the extractor reads a due date or a priority does not depend on
/// the text before.
proof fn lemma_meta_at_shift(kind: Meta, a: Seq<char>, b: Seq<char>, j: int)
    requires
        0 <= j,
        !(kind is Recurrence),
    ensures
        meta_at(kind, a + b, a.len() + j) == meta_at(kind, b, j),
{
    let s = a + b;
    let i = a.len() + j;
    assert forall|k: int| 0 <= k implies #[trigger] s[i + k] == b[j + k] || j + k >= b.len() by {
    }
    assert forall|k: int, c: char| 0 <= k implies #[trigger] ch(s, i + k, c) == ch(b, j + k, c) by {
        if j + k < b.len() {
            assert(s[i + k] == b[j + k]);
        }
    }
    assert forall|k: int| 0 <= k implies #[trigger] date_at(s, i + k) == date_at(b, j + k) by {
        assert forall|m: int| 0 <= m < 10 implies #[trigger] crate::extract::digit(s, i + k + m)
            == crate::extract::digit(b, j + k + m) by {
            if j + k + m < b.len() {
                assert(s[i + k + m] == b[j + k + m]);
            }
        }
        assert(ch(s, i + k + 4, '-') == ch(b, j + k + 4, '-'));
        assert(ch(s, i + k + 7, '-') == ch(b, j + k + 7, '-'));
    }
    lemma_skip_ws_shift(a, b, j + 1);
    lemma_skip_ws_bounds(b, j + 1);
    let w = skip_ws(b, j + 1);
    assert(date_at(s, a.len() + w) == date_at(b, w));
    if j + 15 <= b.len() {
        assert(s.subrange(i + 5, i + 15) =~= b.subrange(j + 5, j + 15));
    }
    if j + 14 <= b.len() {
        assert(s.subrange(i + 4, i + 14) =~= b.subrange(j + 4, j + 14));
    }
    if date_at(b, w) {
        assert(s.subrange(a.len() + w, a.len() + w + 10) =~= b.subrange(w, w + 10));
    }
}

proof fn lemma_meta_from_shift(kind: Meta, a: Seq<char>, b: Seq<char>, j: int)
    requires
        0 <= j,
        !(kind is Recurrence),
    ensures
        meta_from(kind, a + b, a.len() + j) == meta_from(kind, b, j),
    decreases b.len() - j,
{
    if j < b.len() {
        lemma_meta_at_shift(kind, a, b, j);
        lemma_meta_from_shift(kind, a, b, j + 1);
    }
}

proof fn lemma_meta_from_skip(kind: Meta, s: Seq<char>, j: int, m: int)
    requires
        0 <= j <= m <= s.len(),
        forall|i: int| j <= i < m ==> #[trigger] meta_at(kind, s, i) is None,
    ensures
        meta_from(kind, s, j) == meta_from(kind, s, m),
    decreases m - j,
{
    if j < m {
        lemma_meta_from_skip(kind, s, j + 1, m);
    }
}

/// A ten-character date.
pub open spec fn is_date_text(d: Seq<char>) -> bool {
    d.len() == 10 && date_at(d, 0)
}

/// The new due token followed by a tail in which nothing is read: the due
/// date is read at its start and nowhere else, and no priority is read.
proof fn lemma_dated_tail(due: Seq<char>, t: Seq<char>)
    requires
        is_date_text(due),
        meta_from(Meta::Priority, t, 0) is None,
        forall|i: int| 0 <= i ==> #[trigger] due_at(t, i) is None,
    ensures
        ({
            let x = seq!['@', 'd', 'u', 'e', '('] + due + seq![')'] + t;
            &&& meta_from(Meta::Due, x, 0) == Some(due)
            &&& meta_from(Meta::Priority, x, 0) is None
            &&& forall|i: int| 0 <= i && #[trigger] due_at(x, i) is Some ==> i == 0
            &&& x[0] == '@'
            &&& x.last() == ')' || (t.len() > 0 && x.last() == t.last())
        }),
{
    let d = seq!['@', 'd', 'u', 'e', '('] + due + seq![')'];
    let x = d + t;
    assert(seq!['@', 'd', 'u', 'e', '('] + due + seq![')'] + t == x);
    assert(d.len() == 16);
    assert forall|k: int| 0 <= k < 10 implies ('0' <= #[trigger] due[k] <= '9') || due[k] == '-' by {
        assert(crate::extract::digit(due, 0) && crate::extract::digit(due, 1));
    }
    assert(x[0] == '@' && x[1] == 'd' && x[2] == 'u' && x[3] == 'e' && x[4] == '(' && x[15] == ')');
    assert forall|k: int| 0 <= k < 10 implies #[trigger] x[5 + k] == due[k] by {}
    assert forall|i: int| 1 <= i < 16 implies #[trigger] x[i] != '@' && x[i] != '\u{1F4C5}' && x[i]
        != '!' && x[i] != 'p' && (x[i] == 'd' ==> i == 1) by {
        if 5 <= i < 15 {
            assert(x[i] == due[i - 5]);
        }
    }
    assert(x[0] != '!' && x[0] != 'p');
    assert(date_at(x, 5)) by {
        assert forall|m: int| 0 <= m < 10 implies #[trigger] crate::extract::digit(x, 5 + m)
            == crate::extract::digit(due, m) by {
            assert(x[5 + m] == due[m]);
        }
        assert(ch(x, 9, '-') && ch(x, 12, '-'));
    }
    assert(x.subrange(5, 15) =~= due);
    assert(due_at(x, 0) == Some(due));
    assert(meta_from(Meta::Due, x, 0) == Some(due));
    assert forall|i: int| 0 <= i && #[trigger] due_at(x, i) is Some implies i == 0 by {
        if 1 <= i < 16 {
            assert(x[i] != '@' && x[i] != '\u{1F4C5}');
            if x[i] == 'd' {
                assert(x[4] == '(');
            }
        } else if i >= 16 {
            lemma_meta_at_shift(Meta::Due, d, t, i - 16);
            assert(meta_at(Meta::Due, t, i - 16) == due_at(t, i - 16));
        }
    }
    assert forall|i: int| 0 <= i < 16 implies #[trigger] meta_at(Meta::Priority, x, i) is None by {
        assert(x[i] != '!' && x[i] != 'p');
    }
    lemma_meta_from_skip(Meta::Priority, x, 0, 16);
    lemma_meta_from_shift(Meta::Priority, d, t, 0);
}


/// The priority token that follows the text: ` !p`, unless the text holds
/// `!p` already.
pub open spec fn priority_suffix(text: Seq<char>, priority: Option<Seq<char>>) -> Seq<char> {
    match priority {
        Some(p) => if occurs_in(text, seq!['!'] + p) {
            Seq::empty()
        } else {
            seq![' ', '!'] + p
        },
        None => Seq::empty(),
    }
}

/// ` @due(DATE)`, which ends the carried line.
pub open spec fn due_suffix(d: Seq<char>) -> Seq<char> {
    seq![' ', '@', 'd', 'u', 'e', '('] + d + seq![')']
}

/// The text that the carried todo keeps: its own, followed by its priority
/// token when the text lacks it.
pub open spec fn carried_source(content: Seq<char>, priority: Option<Seq<char>>) -> Seq<char> {
    content + priority_suffix(content, priority)
}

/// The open todo line that carries a recurring todo forward. With a next
/// due date: the kept text with its due-date tokens taken out and trimmed,
/// then ` @due(DATE)` last. Without one: the kept text as it is.
pub open spec fn recurring_line(
    content: Seq<char>,
    priority: Option<Seq<char>>,
    due: Option<Seq<char>>,
) -> Seq<char> {
    let text = carried_source(content, priority);
    match due {
        Some(d) => {
            let t = scrub(text);
            seq!['-', ' ', '[', ' ', ']'] + (if t.len() > 0 {
                seq![' '] + t
            } else {
                Seq::empty()
            }) + due_suffix(d)
        },
        None => seq!['-', ' ', '[', ' ', ']', ' '] + text,
    }
}

/// The text of the carried todo with a next due date, as the extractor
/// reads it from the line.
pub open spec fn carried_text(content: Seq<char>, priority: Option<Seq<char>>, d: Seq<char>) -> Seq<
    char,
> {
    let t = scrub(carried_source(content, priority));
    if t.len() > 0 {
        t + due_suffix(d)
    } else {
        due_suffix(d).drop_first()
    }
}

fn push_str(v: &mut Vec<char>, w: &str)
    ensures
        final(v)@ == old(v)@ + w@,
{
    push_all(v, &chars_of(w));
}

/// Builds the open todo line that carries a recurring todo forward, due on
/// `due` when a next date is known. Read back with a due date, the line is
/// an open root-level todo whose one due-date token is the new one, at its
/// end, and whose priority is the first priority token of the kept text.
pub fn recurring_todo_line(content: &str, priority: Option<&str>, due: Option<&str>) -> (r: String)
    ensures
        r@ == recurring_line(content@, opt_text(priority), opt_text(due)),
        due is Some && is_date_text(due.unwrap()@) ==> ({
            let d = due.unwrap();
            let c = carried_text(content@, opt_text(priority), d@);
            &&& todo_line(r@) == Some((0int, false, c))
            &&& meta_in(Meta::Due, c) == Some(d@)
            &&& forall|i: int| 0 <= i && #[trigger] due_at(c, i) is Some ==> i == c.len() - 16
            &&& r@.subrange(r@.len() - 16 - 1, r@.len() as int) == due_suffix(d@)
            &&& meta_in(Meta::Priority, c) == meta_in(
                Meta::Priority,
                scrub(carried_source(content@, opt_text(priority))),
            )
        }),
{
    proof {
        if due is Some && is_date_text(due.unwrap()@) {
            lemma_carried_reads_back(content@, opt_text(priority), due.unwrap()@);
        }
    }
    let ghost pr = opt_text(priority);
    let c = chars_of(content);
    let mut text = c.clone();
    proof {
        assert(text@ == c@);
    }
    match priority {
        Some(p) => {
            let mut token = vec!['!'];
            push_str(&mut token, p);
            if !occurs(&c, &token) {
                text.push(' ');
                push_all(&mut text, &token);
            }
            assert(token@ =~= seq!['!'] + p@);
        },
        None => {},
    }
    assert(text@ =~= carried_source(content@, pr));
    match due {
        Some(d) => {
            let t = scrub_tokens(text);
            let mut v: Vec<char> = vec!['-', ' ', '[', ' ', ']'];
            if t.len() > 0 {
                v.push(' ');
                push_all(&mut v, &t);
            }
            v.push(' ');
            push_str(&mut v, "@due(");
            proof {
                reveal_strlit("@due(");
            }
            push_str(&mut v, d);
            v.push(')');
            assert(v@ =~= recurring_line(content@, pr, opt_text(due)));
            string_of(v.as_slice())
        },
        None => {
            let mut v: Vec<char> = vec!['-', ' ', '[', ' ', ']', ' '];
            push_all(&mut v, &text);
            assert(v@ =~= recurring_line(content@, pr, opt_text(due)));
            string_of(v.as_slice())
        },
    }
}

// ---------------------------------------------------------------- reading it back

/// A match that starts inside `t` reads only `t` when `t` ends with a
/// character that is not whitespace and `y` starts with a space and then a
/// character that is neither whitespace nor a digit.
proof fn lemma_extend(kind: Meta, t: Seq<char>, y: Seq<char>, i: int)
    requires
        0 <= i < t.len(),
        !is_white(t.last()),
        y.len() >= 2,
        y[0] == ' ',
        !is_white(y[1]),
        !('0' <= y[1] <= '9'),
        !(kind is Recurrence),
    ensures
        meta_at(kind, t + y, i) == meta_at(kind, t, i),
{
    let s = t + y;
    let n = t.len() as int;
    assert(s[n] == ' ');
    assert(is_white(' '));
    assert forall|m: int, c: char| 0 <= m < n implies #[trigger] ch(s, m, c) == ch(t, m, c) by {
        assert(s[m] == t[m]);
    }
    assert forall|m: int| 0 <= m < n implies #[trigger] crate::extract::digit(s, m)
        == crate::extract::digit(t, m) by {
        assert(s[m] == t[m]);
    }
    assert forall|c: char| c != ' ' implies !#[trigger] ch(s, n, c) by {}
    assert(!crate::extract::digit(s, n));
    // where the emoji form looks past its whitespace
    if i + 1 < n {
        lemma_skip_ws_prefix(t, y, i + 1);
    } else {
        assert(skip_ws(t, n) == n);
        assert(s[n + 1] == y[1]);
        assert(skip_ws(s, n + 1) == n + 1);
        assert(skip_ws(s, n) == n + 1);
        assert(!crate::extract::digit(s, n + 1));
    }
    assert forall|j: int| 0 <= j < n implies #[trigger] date_at(s, j) == date_at(t, j) by {
        if date_at(s, j) {
            assert(j + 9 < n);
        }
    }
}

/// Skipping whitespace from inside `t` stops inside `t` when `t` ends with a
/// character that is not whitespace, and `y` does not matter.
proof fn lemma_skip_ws_prefix(t: Seq<char>, y: Seq<char>, j: int)
    requires
        0 <= j < t.len(),
        !is_white(t.last()),
    ensures
        skip_ws(t + y, j) == skip_ws(t, j),
        skip_ws(t, j) < t.len(),
    decreases t.len() - j,
{
    assert((t + y)[j] == t[j]);
    if is_white(t[j]) {
        assert(j != t.len() - 1);
        lemma_skip_ws_prefix(t, y, j + 1);
    }
}

/// Reading from the start of `t + y`: the first match inside `t`, or else
/// the first match in `y`.
proof fn lemma_meta_from_extend(kind: Meta, t: Seq<char>, y: Seq<char>, j: int)
    requires
        0 <= j <= t.len(),
        t.len() > 0,
        !is_white(t.last()),
        y.len() >= 2,
        y[0] == ' ',
        !is_white(y[1]),
        !('0' <= y[1] <= '9'),
        !(kind is Recurrence),
    ensures
        meta_from(kind, t + y, j) == if meta_from(kind, t, j) is Some {
            meta_from(kind, t, j)
        } else {
            meta_from(kind, y, 0)
        },
    decreases t.len() - j,
{
    if j < t.len() {
        lemma_extend(kind, t, y, j);
        lemma_meta_from_extend(kind, t, y, j + 1);
    } else {
        lemma_meta_from_shift(kind, t, y, 0);
    }
}

/// What is read from ` @due(DATE)`: the date, at its `@`, and no priority.
proof fn lemma_suffix_reads(d: Seq<char>)
    requires
        is_date_text(d),
    ensures
        ({
            let y = due_suffix(d);
            &&& meta_from(Meta::Due, y, 0) == Some(d)
            &&& meta_from(Meta::Priority, y, 0) is None
            &&& forall|i: int| 0 <= i && #[trigger] due_at(y, i) is Some ==> i == 1
            &&& y.len() == 17 && y[0] == ' ' && y[1] == '@'
            &&& y.last() == ')'
        }),
{
    let x = seq!['@', 'd', 'u', 'e', '('] + d + seq![')'];
    let e = Seq::<char>::empty();
    lemma_dated_tail(d, e);
    assert(x + e =~= x);
    let y = due_suffix(d);
    assert(y =~= seq![' '] + x);
    lemma_meta_from_shift(Meta::Due, seq![' '], x, 0);
    lemma_meta_from_shift(Meta::Priority, seq![' '], x, 0);
    assert(meta_at(Meta::Due, y, 0) is None);
    assert(meta_at(Meta::Priority, y, 0) is None);
    assert forall|i: int| 0 <= i && #[trigger] due_at(y, i) is Some implies i == 1 by {
        if i >= 1 {
            lemma_meta_at_shift(Meta::Due, seq![' '], x, i - 1);
            assert(meta_at(Meta::Due, y, i) == due_at(y, i));
            assert(meta_at(Meta::Due, x, i - 1) == due_at(x, i - 1));
        }
    }
}

proof fn lemma_scrubbed_no_due(t: Seq<char>)
    requires
        clean(t),
    ensures
        meta_from(Meta::Due, t, 0) is None,
        forall|i: int| 0 <= i ==> #[trigger] due_at(t, i) is None,
{
    assert forall|i: int| 0 <= i implies #[trigger] due_at(t, i) is None by {
        lemma_token_len(t, i);
        assert(token_len(t, i) == 0);
    }
    assert forall|i: int| 0 <= i < t.len() implies #[trigger] meta_at(Meta::Due, t, i) is None by {
        assert(due_at(t, i) is None);
    }
    lemma_meta_from_skip(Meta::Due, t, 0, t.len() as int);
}

/// The carried line, with a next due date, reads back as an open root-level
/// todo whose one due-date token is the new one, at the end of the line, and
/// whose priority is the first priority token of the kept text.
#[verifier::rlimit(100)]
pub proof fn lemma_carried_reads_back(content: Seq<char>, priority: Option<Seq<char>>, d: Seq<char>)
    requires
        is_date_text(d),
    ensures
        ({
            let line = recurring_line(content, priority, Some(d));
            let c = carried_text(content, priority, d);
            let t = scrub(carried_source(content, priority));
            &&& todo_line(line) == Some((0int, false, c))
            &&& meta_in(Meta::Due, c) == Some(d)
            &&& forall|i: int| 0 <= i && #[trigger] due_at(c, i) is Some ==> i == c.len() - 16
            &&& line.subrange(line.len() - 16 - 1, line.len() as int) == due_suffix(d)
            &&& meta_in(Meta::Priority, c) == meta_in(Meta::Priority, t)
        }),
{
    let t = scrub(carried_source(content, priority));
    lemma_scrub(carried_source(content, priority));
    lemma_scrubbed_no_due(t);
    lemma_suffix_reads(d);
    let y = due_suffix(d);
    let c = carried_text(content, priority, d);
    if t.len() > 0 {
        assert(c == t + y);
        lemma_meta_from_extend(Meta::Due, t, y, 0);
        lemma_meta_from_extend(Meta::Priority, t, y, 0);
        assert forall|i: int| 0 <= i && #[trigger] due_at(c, i) is Some implies i == c.len() - 16 by {
            if i < t.len() {
                lemma_extend(Meta::Due, t, y, i);
                assert(meta_at(Meta::Due, c, i) == due_at(c, i));
                assert(meta_at(Meta::Due, t, i) == due_at(t, i));
            } else {
                lemma_meta_at_shift(Meta::Due, t, y, i - t.len());
                assert(meta_at(Meta::Due, c, i) == due_at(c, i));
                assert(meta_at(Meta::Due, y, i - t.len()) == due_at(y, i - t.len()));
            }
        }
    } else {
        assert(y =~= seq![' '] + c);
        lemma_meta_from_shift(Meta::Due, seq![' '], c, 0);
        lemma_meta_from_shift(Meta::Priority, seq![' '], c, 0);
        assert(meta_at(Meta::Due, y, 0) is None);
        assert(meta_at(Meta::Priority, y, 0) is None);
        assert(meta_from(Meta::Priority, t, 0) is None);
        assert forall|i: int| 0 <= i && #[trigger] due_at(c, i) is Some implies i == c.len() - 16 by {
            lemma_meta_at_shift(Meta::Due, seq![' '], c, i);
            assert(meta_at(Meta::Due, y, i + 1) == due_at(y, i + 1));
            assert(meta_at(Meta::Due, c, i) == due_at(c, i));
        }
    }
    // the checkbox
    let line = recurring_line(content, priority, Some(d));
    let rest: Seq<char> = (if t.len() > 0 {
        seq![' '] + t
    } else {
        Seq::empty()
    }) + y;
    assert(line =~= seq!['-', ' ', '[', ' ', ']'] + rest);
    assert(rest[0] == ' ');
    assert(rest.drop_first() =~= c);
    assert(c.len() > 0 && !is_white(c[0]) && c.last() == ')');
    assert(trim_start(rest) == trim_start(c));
    assert(trim_start(c) == c);
    assert(trim_end(c) == c);
    assert(line.subrange(5, line.len() as int) =~= rest);
    assert(trim(line.subrange(5, line.len() as int)) == c);
    assert(skip_ws(line, 0) == 0);
    assert(skip_ws(line, 2) == 2);
    assert(skip_ws(line, 1) == 2);
    assert(crate::extract::bytes_before(line, 0) == 0);
    assert(line.subrange(line.len() - 16 - 1, line.len() as int) =~= due_suffix(d));
}

} // verus!
