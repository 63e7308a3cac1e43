//! User notes attached to an element: the notes for one target, newest
//! first; assembling a note for the upsert; the note-id suffix in base 36;
//! and the short date a note's timestamp is shown as.
use vstd::prelude::*;

use crate::models::{Note, NoteTarget};
use crate::text::{chars_of, str_eq};

verus! {

// ─── ordering texts ────────────────────────────────────────────────────────

/// `a` sorts strictly before `b`: lexicographically by character (the order
/// of Rust's `str` comparison, as UTF-8 preserves code-point order).
pub open spec fn text_lt(a: Seq<char>, b: Seq<char>) -> bool
    decreases a.len(),
{
    if a.len() == 0 {
        b.len() > 0
    } else if b.len() == 0 {
        false
    } else if a[0] != b[0] {
        (a[0] as int) < (b[0] as int)
    } else {
        text_lt(a.drop_first(), b.drop_first())
    }
}

proof fn lemma_text_lt_skip(a: Seq<char>, b: Seq<char>, i: int)
    requires
        0 <= i <= a.len(),
        i <= b.len(),
        a.subrange(0, i) == b.subrange(0, i),
    ensures
        text_lt(a, b) == text_lt(a.skip(i), b.skip(i)),
    decreases i,
{
    if i > 0 {
        assert(a[0] == a.subrange(0, i)[0]);
        assert(b[0] == b.subrange(0, i)[0]);
        let a1 = a.drop_first();
        let b1 = b.drop_first();
        assert(a1.subrange(0, i - 1) =~= a.subrange(0, i).drop_first());
        assert(b1.subrange(0, i - 1) =~= b.subrange(0, i).drop_first());
        lemma_text_lt_skip(a1, b1, i - 1);
        assert(a1.skip(i - 1) =~= a.skip(i));
        assert(b1.skip(i - 1) =~= b.skip(i));
    } else {
        assert(a.skip(0) =~= a);
        assert(b.skip(0) =~= b);
    }
}

/// Whether `a` sorts strictly before `b`.
pub fn text_less(a: &str, b: &str) -> (r: bool)
    ensures
        r == text_lt(a@, b@),
{
    let ac = chars_of(a);
    let bc = chars_of(b);
    let mut i: usize = 0;
    loop
        invariant
            ac@ == a@,
            bc@ == b@,
            i <= ac@.len(),
            i <= bc@.len(),
            ac@.subrange(0, i as int) == bc@.subrange(0, i as int),
        decreases ac@.len() - i,
    {
        if i == ac.len() || i == bc.len() {
            proof {
                lemma_text_lt_skip(a@, b@, i as int);
            }
            return i == ac.len() && i < bc.len();
        }
        if ac[i] != bc[i] {
            proof {
                lemma_text_lt_skip(a@, b@, i as int);
                assert(a@.skip(i as int)[0] == ac@[i as int]);
                assert(b@.skip(i as int)[0] == bc@[i as int]);
            }
            return ac[i] < bc[i];
        }
        proof {
            assert(ac@.subrange(0, i + 1) =~= ac@.subrange(0, i as int).push(ac@[i as int]));
            assert(bc@.subrange(0, i + 1) =~= bc@.subrange(0, i as int).push(bc@[i as int]));
        }
        i += 1;
    }
}

/// `text_lt` is a strict total order: irreflexive, asymmetric, transitive,
/// and any two different texts are ordered one way.
pub proof fn lemma_text_lt_order(a: Seq<char>, b: Seq<char>, c: Seq<char>)
    ensures
        !text_lt(a, a),
        text_lt(a, b) ==> !text_lt(b, a),
        text_lt(a, b) && text_lt(b, c) ==> text_lt(a, c),
        a != b ==> text_lt(a, b) || text_lt(b, a),
    decreases a.len(),
{
    if a.len() > 0 {
        lemma_text_lt_order(a.drop_first(), a.drop_first(), a.drop_first());
        if b.len() > 0 {
            lemma_text_lt_order(a.drop_first(), b.drop_first(), b.drop_first());
            if c.len() > 0 {
                lemma_text_lt_order(a.drop_first(), b.drop_first(), c.drop_first());
            }
            if a[0] != b[0] {
                assert((a[0] as int) != (b[0] as int));
            }
            if a != b && a[0] == b[0] {
                assert(a.drop_first() != b.drop_first()) by {
                    if a.drop_first() == b.drop_first() {
                        assert(a =~= seq![a[0]] + a.drop_first());
                        assert(b =~= seq![b[0]] + b.drop_first());
                    }
                }
            }
        }
    } else {
        if b.len() == 0 {
            assert(a =~= b);
        }
    }
}

// ─── the notes of one target ───────────────────────────────────────────────

/// The notes attached to the target `(kind, id)`, in document order.
pub open spec fn target_notes(notes: Seq<Note>, kind: Seq<char>, id: Seq<char>) -> Seq<Note>
    decreases notes.len(),
{
    if notes.len() == 0 {
        seq![]
    } else {
        let rest = target_notes(notes.drop_last(), kind, id);
        let n = notes.last();
        if n.target.kind@ == kind && n.target.id@ == id {
            rest.push(n)
        } else {
            rest
        }
    }
}

/// Where `x` goes among `t` (newest first): after every note at least as
/// new as it, before the first strictly older one.
pub open spec fn insert_pos(t: Seq<Note>, x: Note) -> int
    decreases t.len(),
{
    if t.len() == 0 {
        0
    } else if text_lt(t[0].updated_at@, x.updated_at@) {
        0
    } else {
        1 + insert_pos(t.drop_first(), x)
    }
}

/// `s` in stable newest-first order by `updated_at`: each note in turn is
/// placed after the notes at least as new, so notes of equal time keep
/// their document order.
pub open spec fn newest_first(s: Seq<Note>) -> Seq<Note>
    decreases s.len(),
{
    if s.len() == 0 {
        seq![]
    } else {
        let t = newest_first(s.drop_last());
        t.insert(insert_pos(t, s.last()), s.last())
    }
}

proof fn lemma_insert_pos_bounds(t: Seq<Note>, x: Note)
    ensures
        0 <= insert_pos(t, x) <= t.len(),
        forall|k: int| 0 <= k < insert_pos(t, x) ==> !text_lt(#[trigger] t[k].updated_at@, x.updated_at@),
        insert_pos(t, x) < t.len() ==> text_lt(t[insert_pos(t, x)].updated_at@, x.updated_at@),
    decreases t.len(),
{
    if t.len() > 0 && !text_lt(t[0].updated_at@, x.updated_at@) {
        let t1 = t.drop_first();
        lemma_insert_pos_bounds(t1, x);
        assert forall|k: int| 0 <= k < insert_pos(t, x) implies !text_lt(#[trigger] t[k].updated_at@, x.updated_at@) by {
            if k > 0 {
                assert(t[k] == t1[k - 1]);
            }
        }
        if insert_pos(t, x) < t.len() {
            assert(t[insert_pos(t, x)] == t1[insert_pos(t1, x)]);
        }
    }
}

proof fn lemma_insert_pos_skip(t: Seq<Note>, x: Note, j: int)
    requires
        0 <= j < t.len(),
        forall|k: int| 0 <= k < j ==> !text_lt(#[trigger] t[k].updated_at@, x.updated_at@),
    ensures
        insert_pos(t, x) == j + insert_pos(t.skip(j), x),
    decreases j,
{
    if j > 0 {
        let t1 = t.drop_first();
        assert forall|k: int| 0 <= k < j - 1 implies !text_lt(#[trigger] t1[k].updated_at@, x.updated_at@) by {
            assert(t1[k] == t[k + 1]);
        }
        lemma_insert_pos_skip(t1, x, j - 1);
        assert(t1.skip(j - 1) =~= t.skip(j));
        assert(!text_lt(t[0].updated_at@, x.updated_at@));
    } else {
        assert(t.skip(0) =~= t);
    }
}

/// The position a note goes at in an already ordered list.
fn position_for(out: &Vec<&Note>, n: &Note) -> (r: usize)
    ensures
        r as int == insert_pos(out@.map_values(|m: &Note| *m), *n),
        r <= out@.len(),
{
    let ghost t = out@.map_values(|m: &Note| *m);
    let mut j: usize = 0;
    loop
        invariant
            t == out@.map_values(|m: &Note| *m),
            j <= out@.len(),
            forall|k: int| 0 <= k < j ==> !text_lt(#[trigger] t[k].updated_at@, n.updated_at@),
        decreases out@.len() - j,
    {
        if j == out.len() {
            proof {
                lemma_insert_pos_bounds(t, *n);
                if insert_pos(t, *n) < j {
                    assert(text_lt(t[insert_pos(t, *n)].updated_at@, n.updated_at@));
                }
            }
            return j;
        }
        proof {
            assert(t[j as int] == *out@[j as int]);
        }
        if text_less(out[j].updated_at.as_str(), n.updated_at.as_str()) {
            proof {
                lemma_insert_pos_skip(t, *n, j as int);
                assert(t.skip(j as int)[0] == t[j as int]);
            }
            return j;
        }
        j += 1;
    }
}

/// The notes attached to one target, newest first by `updated_at`
/// (timestamps compared as text, which orders ISO 8601 chronologically);
/// notes of equal time keep their document order.
pub fn notes_for_target<'a>(notes: &'a [Note], kind: &str, id: &str) -> (r: Vec<&'a Note>)
    ensures
        r@.map_values(|m: &Note| *m) == newest_first(target_notes(notes@, kind@, id@)),
{
    let mut out: Vec<&Note> = Vec::new();
    let mut i: usize = 0;
    while i < notes.len()
        invariant
            i <= notes@.len(),
            out@.map_values(|m: &Note| *m) == newest_first(
                target_notes(notes@.subrange(0, i as int), kind@, id@),
            ),
        decreases notes@.len() - i,
    {
        let n = &notes[i];
        proof {
            let s1 = notes@.subrange(0, i + 1);
            assert(s1.drop_last() =~= notes@.subrange(0, i as int));
            assert(s1.last() == notes@[i as int]);
        }
        if str_eq(n.target.kind.as_str(), kind) && str_eq(n.target.id.as_str(), id) {
            let ghost pre = target_notes(notes@.subrange(0, i as int), kind@, id@);
            let ghost t = out@.map_values(|m: &Note| *m);
            let p = position_for(&out, n);
            out.insert(p, n);
            proof {
                let post = target_notes(notes@.subrange(0, i + 1), kind@, id@);
                assert(post == pre.push(*n));
                assert(post.drop_last() =~= pre);
                assert(out@.map_values(|m: &Note| *m) =~= t.insert(p as int, *n));
            }
        }
        i += 1;
    }
    proof {
        assert(notes@.subrange(0, notes@.len() as int) =~= notes@);
    }
    out
}

/// No note is newer than one before it.
pub open spec fn is_newest_first(s: Seq<Note>) -> bool {
    forall|i: int, j: int|
        0 <= i < j < s.len() ==> !text_lt(#[trigger] s[i].updated_at@, #[trigger] s[j].updated_at@)
}

/// Ordering law: `newest_first` puts the notes in newest-first order and
/// keeps exactly the notes it was given.
pub proof fn lemma_newest_first(s: Seq<Note>)
    ensures
        is_newest_first(newest_first(s)),
        newest_first(s).to_multiset() == s.to_multiset(),
    decreases s.len(),
{
    if s.len() > 0 {
        let pre = s.drop_last();
        let x = s.last();
        lemma_newest_first(pre);
        let t = newest_first(pre);
        let p = insert_pos(t, x);
        lemma_insert_pos_bounds(t, x);
        let r = t.insert(p, x);
        assert(r == newest_first(s));
        assert forall|i: int, j: int| 0 <= i < j < r.len() implies !text_lt(
            #[trigger] r[i].updated_at@,
            #[trigger] r[j].updated_at@,
        ) by {
            if j < p {
                assert(r[i] == t[i] && r[j] == t[j]);
            } else if j == p {
                assert(r[i] == t[i] && r[j] == x);
            } else if i < p {
                assert(r[i] == t[i] && r[j] == t[j - 1]);
            } else if i == p {
                assert(r[i] == x && r[j] == t[j - 1]);
                assert(text_lt(t[p].updated_at@, x.updated_at@));
                lemma_text_lt_order(t[p].updated_at@, x.updated_at@, t[j - 1].updated_at@);
                if j - 1 > p {
                    assert(!text_lt(t[p].updated_at@, t[j - 1].updated_at@));
                }
            } else {
                assert(r[i] == t[i - 1] && r[j] == t[j - 1]);
            }
        }
        vstd::seq_lib::to_multiset_insert(t, p, x);
        vstd::seq_lib::to_multiset_build(pre, x);
        assert(s =~= pre.push(x));
        assert(r.to_multiset() == t.to_multiset().insert(x));
        assert(s.to_multiset() == pre.to_multiset().insert(x));
    } else {
        assert(s =~= newest_first(s));
    }
}

/// Target law: the notes of a target are exactly the notes attached to it,
/// each once, in newest-first order.
pub proof fn lemma_notes_for_target(notes: Seq<Note>, kind: Seq<char>, id: Seq<char>)
    ensures
        is_newest_first(newest_first(target_notes(notes, kind, id))),
        newest_first(target_notes(notes, kind, id)).to_multiset() == target_notes(
            notes,
            kind,
            id,
        ).to_multiset(),
        forall|k: int|
            0 <= k < target_notes(notes, kind, id).len() ==> (#[trigger] target_notes(
                notes,
                kind,
                id,
            )[k]).target.kind@ == kind && target_notes(notes, kind, id)[k].target.id@ == id,
        forall|k: int|
            0 <= k < notes.len() && (#[trigger] notes[k]).target.kind@ == kind && notes[k].target.id@
                == id ==> target_notes(notes, kind, id).contains(notes[k]),
    decreases notes.len(),
{
    lemma_newest_first(target_notes(notes, kind, id));
    if notes.len() > 0 {
        let pre = notes.drop_last();
        lemma_notes_for_target(pre, kind, id);
        let t = target_notes(notes, kind, id);
        let tp = target_notes(pre, kind, id);
        assert forall|k: int| 0 <= k < t.len() implies (#[trigger] t[k]).target.kind@ == kind
            && t[k].target.id@ == id by {
            if k < tp.len() {
                assert(t[k] == tp[k]);
            }
        }
        assert forall|k: int|
            0 <= k < notes.len() && (#[trigger] notes[k]).target.kind@ == kind && notes[k].target.id@
                == id implies t.contains(notes[k]) by {
            if k < pre.len() {
                assert(pre[k] == notes[k]);
                let q = choose|q: int| 0 <= q < tp.len() && tp[q] == pre[k];
                assert(t[q] == tp[q]);
            } else {
                assert(t[tp.len() as int] == notes[k]);
            }
        }
    }
}

// ─── assembling a note ─────────────────────────────────────────────────────

/// Unicode white space (the `White_Space` property `char::is_whitespace`
/// tests).
pub open spec fn is_white(c: char) -> bool {
    ('\u{9}' <= c && c <= '\u{d}') || c == ' ' || c == '\u{85}' || c == '\u{a0}' || c == '\u{1680}'
        || ('\u{2000}' <= c && c <= '\u{200a}') || c == '\u{2028}' || c == '\u{2029}' || c
        == '\u{202f}' || c == '\u{205f}' || c == '\u{3000}'
}

fn white(c: char) -> (r: bool)
    ensures
        r == is_white(c),
{
    ('\u{9}' <= c && c <= '\u{d}') || c == ' ' || c == '\u{85}' || c == '\u{a0}' || c == '\u{1680}'
        || ('\u{2000}' <= c && c <= '\u{200a}') || c == '\u{2028}' || c == '\u{2029}' || c
        == '\u{202f}' || c == '\u{205f}' || c == '\u{3000}'
}

/// The number of white-space characters `s` starts with.
pub open spec fn leading_white(s: Seq<char>) -> nat
    decreases s.len(),
{
    if s.len() > 0 && is_white(s[0]) {
        1 + leading_white(s.drop_first())
    } else {
        0
    }
}

/// The number of white-space characters `s` ends with.
pub open spec fn trailing_white(s: Seq<char>) -> nat
    decreases s.len(),
{
    if s.len() > 0 && is_white(s.last()) {
        1 + trailing_white(s.drop_last())
    } else {
        0
    }
}

/// `s` without its leading and trailing white space.
pub open spec fn trimmed(s: Seq<char>) -> Seq<char> {
    if leading_white(s) == s.len() {
        seq![]
    } else {
        s.subrange(leading_white(s) as int, s.len() - trailing_white(s))
    }
}

proof fn lemma_leading_white(s: Seq<char>, i: int)
    requires
        0 <= i <= s.len(),
        forall|k: int| 0 <= k < i ==> is_white(#[trigger] s[k]),
    ensures
        leading_white(s) == i + leading_white(s.skip(i)),
    decreases i,
{
    if i > 0 {
        let s1 = s.drop_first();
        assert forall|k: int| 0 <= k < i - 1 implies is_white(#[trigger] s1[k]) by {
            assert(s1[k] == s[k + 1]);
        }
        lemma_leading_white(s1, i - 1);
        assert(s1.skip(i - 1) =~= s.skip(i));
        assert(is_white(s[0]));
    } else {
        assert(s.skip(0) =~= s);
    }
}

proof fn lemma_trailing_white(s: Seq<char>, i: int)
    requires
        0 <= i <= s.len(),
        forall|k: int| s.len() - i <= k < s.len() ==> is_white(#[trigger] s[k]),
    ensures
        trailing_white(s) == i + trailing_white(s.subrange(0, s.len() - i)),
    decreases i,
{
    if i > 0 {
        let s1 = s.drop_last();
        assert forall|k: int| s1.len() - (i - 1) <= k < s1.len() implies is_white(#[trigger] s1[k]) by {
            assert(s1[k] == s[k]);
        }
        lemma_trailing_white(s1, i - 1);
        assert(s1.subrange(0, s1.len() - (i - 1)) =~= s.subrange(0, s.len() - i));
        assert(is_white(s[s.len() - 1]));
    } else {
        assert(s.subrange(0, s.len() as int) =~= s);
    }
}

/// `s` without leading and trailing white space.
pub fn trim_text(s: &str) -> (r: String)
    ensures
        r@ == trimmed(s@),
{
    let cs = chars_of(s);
    let n = cs.len();
    let mut lo: usize = 0;
    while lo < n && white(cs[lo])
        invariant
            cs@ == s@,
            n == cs@.len(),
            lo <= n,
            forall|k: int| 0 <= k < lo ==> is_white(#[trigger] cs@[k]),
        decreases n - lo,
    {
        lo += 1;
    }
    proof {
        lemma_leading_white(s@, lo as int);
        if lo < n {
            assert(s@.skip(lo as int)[0] == cs@[lo as int]);
        } else {
            assert(s@.skip(lo as int).len() == 0);
        }
    }
    if lo == n {
        return String::new();
    }
    let mut hi: usize = n;
    while hi > lo && white(cs[hi - 1])
        invariant
            cs@ == s@,
            n == cs@.len(),
            lo < n,
            lo <= hi <= n,
            !is_white(cs@[lo as int]),
            forall|k: int| hi <= k < n ==> is_white(#[trigger] cs@[k]),
        decreases hi,
    {
        hi -= 1;
    }
    proof {
        lemma_trailing_white(s@, (n - hi) as int);
        let rest = s@.subrange(0, hi as int);
        if hi > lo {
            assert(rest.last() == cs@[hi - 1]);
        }
        assert(hi > lo);
    }
    s.substring_char(lo, hi).to_owned()
}

/// Assemble a note for the upsert: the caller supplies the id and the
/// timestamps; the body is trimmed and no author is recorded.
pub fn build_note(
    id: String,
    target_kind: String,
    target_id: String,
    category: String,
    body: String,
    created_at: String,
    updated_at: String,
) -> (n: Note)
    ensures
        n.id@ == id@,
        n.target.kind@ == target_kind@,
        n.target.id@ == target_id@,
        n.category@ == category@,
        n.body@ == trimmed(body@),
        n.author is None,
        n.created_at@ == created_at@,
        n.updated_at@ == updated_at@,
{
    let trimmed_body = trim_text(body.as_str());
    Note {
        id,
        target: NoteTarget { kind: target_kind, id: target_id },
        category,
        body: trimmed_body,
        author: None,
        created_at,
        updated_at,
    }
}

// ─── note ids and dates ────────────────────────────────────────────────────

/// The base-36 digit `d`: `0`-`9`, then `a`-`z`.
pub open spec fn digit36(d: nat) -> char {
    "0123456789abcdefghijklmnopqrstuvwxyz"@[d as int]
}

/// `n` in base 36, lowercase, most significant digit first, no padding.
pub open spec fn base36_spec(n: nat) -> Seq<char>
    decreases n,
{
    if n < 36 {
        seq![digit36(n)]
    } else {
        base36_spec(n / 36).push(digit36(n % 36))
    }
}

fn digit36_str(d: u64) -> (r: &'static str)
    requires
        d < 36,
    ensures
        r@ == seq![digit36(d as nat)],
{
    let digits = "0123456789abcdefghijklmnopqrstuvwxyz";
    proof {
        reveal_strlit("0123456789abcdefghijklmnopqrstuvwxyz");
    }
    let r = digits.substring_char(d as usize, d as usize + 1);
    proof {
        assert(r@ =~= seq![digit36(d as nat)]);
    }
    r
}

/// Render `n` in base 36 (lowercase): the note-id suffix.
pub fn to_base36(n: u64) -> (r: String)
    ensures
        r@ == base36_spec(n as nat),
    decreases n,
{
    if n < 36 {
        digit36_str(n).to_owned()
    } else {
        let mut s = to_base36(n / 36);
        s.append(digit36_str(n % 36));
        s
    }
}

/// The bytes `c` takes in UTF-8.
pub open spec fn utf8_len(c: char) -> int {
    if c <= '\u{7f}' {
        1
    } else if c <= '\u{7ff}' {
        2
    } else if c <= '\u{ffff}' {
        3
    } else {
        4
    }
}

/// The index of the character of `s` that starts at byte `b` (the length of
/// `s` when `b` is its end); `None` inside a character or past the end.
pub open spec fn char_at_byte(s: Seq<char>, b: int) -> Option<int>
    decreases s.len(),
{
    if b == 0 {
        Some(0)
    } else if s.len() == 0 || b < 0 {
        None
    } else {
        match char_at_byte(s.drop_first(), b - utf8_len(s[0])) {
            Some(k) => Some(k + 1),
            None => None,
        }
    }
}

/// The date shown for an ISO timestamp: its first ten bytes when they end
/// on a character and the fifth byte is `-` (`YYYY-MM-DD`), else the text
/// itself.
pub open spec fn short_when(s: Seq<char>) -> Seq<char> {
    match (char_at_byte(s, 10), char_at_byte(s, 4)) {
        (Some(k), Some(j)) => if j < s.len() && s[j] == '-' {
            s.subrange(0, k)
        } else {
            s
        },
        _ => s,
    }
}

fn utf8_width(c: char) -> (r: usize)
    ensures
        r == utf8_len(c),
{
    if c <= '\u{7f}' {
        1
    } else if c <= '\u{7ff}' {
        2
    } else if c <= '\u{ffff}' {
        3
    } else {
        4
    }
}

/// A character index moved `i` characters along.
pub open spec fn shift(o: Option<int>, i: int) -> Option<int> {
    match o {
        Some(k) => Some(k + i),
        None => None,
    }
}

/// The fifth byte of `s` is `-`.
pub open spec fn dash_at_4(s: Seq<char>) -> bool {
    match char_at_byte(s, 4) {
        Some(j) => j < s.len() && s[j] == '-',
        None => false,
    }
}

/// The date shown for a note timestamp: `YYYY-MM-DD` when the text starts
/// with one, else the text itself.
pub fn format_when(iso: &str) -> (r: String)
    ensures
        r@ == short_when(iso@),
{
    let cs = chars_of(iso);
    let n = cs.len();
    let mut i: usize = 0;
    let mut pos: usize = 0;
    let mut dash = false;
    proof {
        assert(iso@.skip(0) =~= iso@);
    }
    while i < n && pos < 10
        invariant
            cs@ == iso@,
            n == cs@.len(),
            i <= n,
            pos <= 13,
            pos <= 4 ==> !dash,
            pos > 4 ==> dash == dash_at_4(iso@),
            pos <= 4 ==> char_at_byte(iso@, 4) == shift(char_at_byte(iso@.skip(i as int), 4 - pos), i as int),
            pos <= 10 ==> char_at_byte(iso@, 10) == shift(char_at_byte(iso@.skip(i as int), 10 - pos), i as int),
            pos > 10 ==> char_at_byte(iso@, 10) is None,
        decreases n - i,
    {
        let ghost rest = iso@.skip(i as int);
        proof {
            assert(rest[0] == cs@[i as int]);
            assert(rest.drop_first() =~= iso@.skip(i + 1));
        }
        if pos == 4 && cs[i] == '-' {
            dash = true;
        }
        let w = utf8_width(cs[i]);
        pos = pos + w;
        i += 1;
    }
    proof {
        let rest = iso@.skip(i as int);
        if i == n {
            assert(rest.len() == 0);
        }
        if pos == 10 {
            assert(char_at_byte(rest, 0) == Some(0int));
        }
    }
    if pos == 10 && dash {
        iso.substring_char(0, i).to_owned()
    } else {
        iso.to_owned()
    }
}

} // verus!
