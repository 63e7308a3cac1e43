//! Small text helpers shared by the rendering functions: character access and
//! decimal rendering of integers.
use vstd::prelude::*;

verus! {

/// The characters of `s`, in order.
pub fn chars_of(s: &str) -> (r: Vec<char>)
    ensures
        r@ == s@,
{
    let mut out: Vec<char> = Vec::new();
    for c in it: s.chars()
        invariant
            it.seq() == s@,
            out@ == it.seq().subrange(0, it.index() as int),
    {
        out.push(c);
    }
    out
}

} // verus!

verus! {

/// Whether two strings hold the same characters.
pub fn str_eq(a: &str, b: &str) -> (r: bool)
    ensures
        r == (a@ == b@),
{
    let x = a.to_owned();
    let y = b.to_owned();
    x == y
}

/// The decimal digit `d` as a character.
pub open spec fn digit_char(d: nat) -> char {
    (d + 48) as char
}

/// The decimal rendering of `n`, most significant digit first, no padding.
pub open spec fn decimal_spec(n: nat) -> Seq<char>
    decreases n,
{
    if n < 10 {
        seq![digit_char(n)]
    } else {
        decimal_spec(n / 10).push(digit_char(n % 10))
    }
}

fn digit_str(d: u64) -> (r: &'static str)
    requires
        d < 10,
    ensures
        r@ == seq![digit_char(d as nat)],
{
    proof {
        reveal_strlit("0");
        reveal_strlit("1");
        reveal_strlit("2");
        reveal_strlit("3");
        reveal_strlit("4");
        reveal_strlit("5");
        reveal_strlit("6");
        reveal_strlit("7");
        reveal_strlit("8");
        reveal_strlit("9");
    }
    let r = match d {
        0 => "0",
        1 => "1",
        2 => "2",
        3 => "3",
        4 => "4",
        5 => "5",
        6 => "6",
        7 => "7",
        8 => "8",
        _ => "9",
    };
    proof {
        assert(r@ =~= seq![digit_char(d as nat)]);
    }
    r
}

/// Render `n` in decimal.
pub fn decimal(n: u64) -> (r: String)
    ensures
        r@ == decimal_spec(n as nat),
    decreases n,
{
    if n < 10 {
        let s = digit_str(n);
        s.to_owned()
    } else {
        let mut s = decimal(n / 10);
        s.append(digit_str(n % 10));
        s
    }
}


// ─── sequences of texts ────────────────────────────────────────────────────

/// `s` without repeats, each id kept at its first occurrence.
pub open spec fn dedup_first(s: Seq<Seq<char>>) -> Seq<Seq<char>>
    decreases s.len(),
{
    if s.len() == 0 {
        seq![]
    } else {
        let rest = dedup_first(s.drop_last());
        if rest.contains(s.last()) {
            rest
        } else {
            rest.push(s.last())
        }
    }
}

pub proof fn lemma_dedup_push(s: Seq<Seq<char>>, x: Seq<char>)
    ensures
        dedup_first(s.push(x)) == if dedup_first(s).contains(x) {
            dedup_first(s)
        } else {
            dedup_first(s).push(x)
        },
{
    assert(s.push(x).drop_last() =~= s);
}

pub proof fn lemma_dedup_len(s: Seq<Seq<char>>)
    ensures
        dedup_first(s).len() <= s.len(),
    decreases s.len(),
{
    if s.len() > 0 {
        lemma_dedup_len(s.drop_last());
    }
}

pub proof fn lemma_concat_push(a: Seq<Seq<char>>, b: Seq<Seq<char>>, x: Seq<char>)
    ensures
        a + b.push(x) == (a + b).push(x),
{
    assert(a + b.push(x) =~= (a + b).push(x));
}

pub proof fn lemma_dedup_first(s: Seq<Seq<char>>)
    ensures
        dedup_first(s).no_duplicates(),
        forall|x: Seq<char>|
            #![trigger dedup_first(s).contains(x)]
            #![trigger s.contains(x)]
            dedup_first(s).contains(x) <==> s.contains(x),
    decreases s.len(),
{
    if s.len() > 0 {
        let pre = s.drop_last();
        lemma_dedup_first(pre);
        assert(s =~= pre.push(s.last()));
        let d = dedup_first(pre);
        assert forall|x: Seq<char>| dedup_first(s).contains(x) <==> s.contains(x) by {
            if s.contains(x) {
                let k = choose|k: int| 0 <= k < s.len() && s[k] == x;
                if k < pre.len() {
                    assert(pre[k] == x);
                    assert(pre.contains(x));
                    let j = choose|j: int| 0 <= j < d.len() && d[j] == x;
                    if !d.contains(s.last()) {
                        assert(dedup_first(s)[j] == x);
                    }
                } else if !d.contains(s.last()) {
                    assert(dedup_first(s)[d.len() as int] == x);
                }
            }
            if dedup_first(s).contains(x) {
                let j = choose|j: int| 0 <= j < dedup_first(s).len() && dedup_first(s)[j] == x;
                if j < d.len() {
                    assert(dedup_first(s)[j] == d[j]);
                    assert(d[j] == x);
                    assert(d.contains(x));
                    assert(pre.contains(x));
                    let k = choose|k: int| 0 <= k < pre.len() && pre[k] == x;
                    assert(s[k] == x);
                } else {
                    assert(s[s.len() - 1] == x);
                }
            }
        }
    }
}

pub proof fn lemma_concat_contains(a: Seq<Seq<char>>, b: Seq<Seq<char>>, x: Seq<char>)
    ensures
        (a + b).contains(x) <==> (a.contains(x) || b.contains(x)),
{
    if (a + b).contains(x) {
        let k = choose|k: int| 0 <= k < (a + b).len() && (a + b)[k] == x;
        if k < a.len() {
            assert(a[k] == x);
        } else {
            assert(b[k - a.len()] == x);
        }
    }
    if a.contains(x) {
        let k = choose|k: int| 0 <= k < a.len() && a[k] == x;
        assert((a + b)[k] == x);
    }
    if b.contains(x) {
        let k = choose|k: int| 0 <= k < b.len() && b[k] == x;
        assert((a + b)[k + a.len()] == x);
    }
}

/// `ids` names `id`.
pub open spec fn names_id(ids: Seq<String>, id: Seq<char>) -> bool {
    exists|k: int| 0 <= k < ids.len() && (#[trigger] ids[k])@ == id
}


} // verus!

verus! {

/// Whether `ids` names `id`.
pub fn contains_text(ids: &Vec<String>, id: &str) -> (r: bool)
    ensures
        r == names_id(ids@, id@),
{
    let mut i: usize = 0;
    while i < ids.len()
        invariant
            i <= ids@.len(),
            forall|k: int| 0 <= k < i ==> (#[trigger] ids@[k])@ != id@,
        decreases ids@.len() - i,
    {
        if str_eq(ids[i].as_str(), id) {
            return true;
        }
        i += 1;
    }
    false
}

/// A sequence of strings, by their characters.
pub open spec fn texts(v: Seq<String>) -> Seq<Seq<char>> {
    v.map_values(|s: String| s@)
}

/// The position of the LAST entry of `s` equal to `x`.
pub open spec fn last_pos(s: Seq<Seq<char>>, x: Seq<char>) -> Option<int>
    decreases s.len(),
{
    if s.len() == 0 {
        None
    } else if s.last() == x {
        Some(s.len() - 1)
    } else {
        last_pos(s.drop_last(), x)
    }
}

pub proof fn lemma_last_pos_bounds(s: Seq<Seq<char>>, x: Seq<char>)
    ensures
        last_pos(s, x) matches Some(i) ==> 0 <= i < s.len() && s[i] == x,
    decreases s.len(),
{
    if s.len() > 0 {
        lemma_last_pos_bounds(s.drop_last(), x);
    }
}

pub proof fn lemma_last_pos_some(s: Seq<Seq<char>>, x: Seq<char>)
    requires
        s.contains(x),
    ensures
        last_pos(s, x) is Some,
    decreases s.len(),
{
    if s.last() != x {
        let k = choose|k: int| 0 <= k < s.len() && s[k] == x;
        assert(s.drop_last()[k] == x);
        lemma_last_pos_some(s.drop_last(), x);
    }
}

/// The position of the last entry of `v` equal to `id`.
pub fn last_position_of(v: &Vec<String>, id: &String) -> (r: Option<usize>)
    ensures
        match r {
            Some(p) => last_pos(texts(v@), id@) == Some(p as int),
            None => last_pos(texts(v@), id@) is None,
        },
{
    let ghost all = texts(v@);
    let mut found: Option<usize> = None;
    let mut i: usize = 0;
    while i < v.len()
        invariant
            i <= v@.len(),
            all == texts(v@),
            match found {
                Some(p) => last_pos(all.subrange(0, i as int), id@) == Some(p as int),
                None => last_pos(all.subrange(0, i as int), id@) is None,
            },
        decreases v@.len() - i,
    {
        proof {
            assert(all.subrange(0, i + 1).drop_last() =~= all.subrange(0, i as int));
            assert(all.subrange(0, i + 1).last() == v@[i as int]@);
        }
        if v[i] == *id {
            found = Some(i);
        }
        i += 1;
    }
    proof {
        assert(all.subrange(0, v@.len() as int) =~= all);
    }
    found
}

/// The position of `id` in `v`, when `v` holds it.
pub fn position_of(v: &Vec<String>, id: &str) -> (r: Option<usize>)
    ensures
        match r {
            Some(p) => p < v@.len() && v@[p as int]@ == id@,
            None => !texts(v@).contains(id@),
        },
{
    let mut i: usize = 0;
    while i < v.len()
        invariant
            i <= v@.len(),
            forall|k: int| 0 <= k < i ==> (#[trigger] v@[k])@ != id@,
        decreases v@.len() - i,
    {
        if str_eq(v[i].as_str(), id) {
            return Some(i);
        }
        i += 1;
    }
    proof {
        assert forall|k: int| 0 <= k < texts(v@).len() implies texts(v@)[k] != id@ by {
            assert(texts(v@)[k] == v@[k]@);
        }
    }
    None
}

} // verus!
