use vstd::prelude::*;
use crate::storage::{views, EntryView, TraceDb, TraceEntry};
use crate::text::{chars_of, string_from_chars};

verus! {

/// Unicode white space, as `char::is_whitespace` defines it.
pub open spec fn is_ws(c: char) -> bool {
    let u = c as u32;
    (0x9 <= u <= 0xd) || u == 0x20 || u == 0x85 || u == 0xa0 || u == 0x1680 || (0x2000 <= u <= 0x200a)
        || u == 0x2028 || u == 0x2029 || u == 0x202f || u == 0x205f || u == 0x3000
}

fn is_space(c: char) -> (r: bool)
    ensures
        r == is_ws(c),
{
    let u = c as u32;
    (0x9 <= u && u <= 0xd) || u == 0x20 || u == 0x85 || u == 0xa0 || u == 0x1680 || (0x2000 <= u && u
        <= 0x200a) || u == 0x2028 || u == 0x2029 || u == 0x202f || u == 0x205f || u == 0x3000
}

/// The index of the first non-space character at or after `i`.
pub open spec fn skip_ws(t: Seq<char>, i: int) -> int
    decreases t.len() - i,
{
    if i < 0 || i >= t.len() || !is_ws(t[i]) {
        i
    } else {
        skip_ws(t, i + 1)
    }
}

/// The index of the first space character at or after `i`.
pub open spec fn word_end(t: Seq<char>, i: int) -> int
    decreases t.len() - i,
{
    if i < 0 || i >= t.len() || is_ws(t[i]) {
        i
    } else {
        word_end(t, i + 1)
    }
}

/// The first white-space separated word of `t`, empty when there is none.
pub open spec fn first_word(t: Seq<char>) -> Seq<char> {
    let i = skip_ws(t, 0);
    t.subrange(i, word_end(t, i))
}

/// The mnemonic of each entry.
pub open spec fn mnemonics(es: Seq<EntryView>) -> Seq<Seq<char>> {
    es.map_values(|e: EntryView| first_word(e.insn_text))
}

/// The program counter of each entry.
pub open spec fn pcs(es: Seq<EntryView>) -> Seq<u64> {
    es.map_values(|e: EntryView| e.pc)
}

pub open spec fn is_call_m(m: Seq<char>) -> bool {
    m == seq!['c', 'a', 'l', 'l'] || m == seq!['b', 'l']
}

pub open spec fn is_ret_m(m: Seq<char>) -> bool {
    m == seq!['r', 'e', 't'] || m == seq!['r', 'e', 't', 'q']
}

/// Any other mnemonic starting with `j` or `b` counts as a jump.
pub open spec fn is_jump_m(m: Seq<char>) -> bool {
    !is_call_m(m) && !is_ret_m(m) && m.len() > 0 && (m[0] == 'j' || m[0] == 'b')
}

/// How often `x` occurs in `s`.
pub open spec fn occurrences<A>(s: Seq<A>, x: A) -> nat {
    s.filter(|y: A| y == x).len()
}

/// The number of distinct values in `s`.
pub open spec fn distinct_count<A>(s: Seq<A>) -> nat
    decreases s.len(),
{
    if s.len() == 0 {
        0
    } else {
        distinct_count(s.drop_last()) + if s.drop_last().contains(s.last()) {
            0nat
        } else {
            1nat
        }
    }
}

pub proof fn lemma_filter_push_any<A>(s: Seq<A>, x: A, p: spec_fn(A) -> bool)
    ensures
        s.push(x).filter(p) == if p(x) {
            s.filter(p).push(x)
        } else {
            s.filter(p)
        },
{
    reveal_with_fuel(Seq::filter, 1);
    assert(s.push(x).drop_last() =~= s);
}

proof fn lemma_absent_occurrences<A>(s: Seq<A>, x: A)
    requires
        !s.contains(x),
    ensures
        occurrences(s, x) == 0,
    decreases s.len(),
{
    if s.len() > 0 {
        let d = s.drop_last();
        assert(!d.contains(x)) by {
            if d.contains(x) {
                let i = choose|i: int| 0 <= i < d.len() && d[i] == x;
                assert(s[i] == x);
            }
        }
        lemma_absent_occurrences(d, x);
        assert(d.push(s.last()) =~= s);
        lemma_filter_push_any(d, s.last(), |y: A| y == x);
    }
}

/// Statistics of a finished trace.
pub struct TraceStats {
    pub total_steps: u64,
    pub unique_addresses: usize,
    pub instruction_counts: Vec<(String, usize)>,
    pub most_executed_address: Option<(u64, usize)>,
    pub call_count: usize,
    pub ret_count: usize,
    pub jump_count: usize,
}


/// The first white-space separated word of `t`.
pub fn first_word_exec(t: &Vec<char>) -> (r: Vec<char>)
    ensures
        r@ == first_word(t@),
{
    let n = t.len();
    let mut i: usize = 0;
    while i < n && is_space(t[i])
        invariant
            n == t@.len(),
            0 <= i <= n,
            skip_ws(t@, i as int) == skip_ws(t@, 0),
        decreases n - i,
    {
        i += 1;
    }
    let start = i;
    let mut w: Vec<char> = Vec::new();
    while i < n && !is_space(t[i])
        invariant
            n == t@.len(),
            start <= i <= n,
            skip_ws(t@, 0) == start,
            word_end(t@, i as int) == word_end(t@, start as int),
            w@ == t@.subrange(start as int, i as int),
        decreases n - i,
    {
        w.push(t[i]);
        assert(w@ =~= t@.subrange(start as int, i + 1));
        i += 1;
    }
    w
}

proof fn lemma_occ_push<A>(s: Seq<A>, x: A, y: A)
    ensures
        occurrences(s.push(x), y) == occurrences(s, y) + if x == y {
            1nat
        } else {
            0nat
        },
{
    lemma_filter_push_any(s, x, |z: A| z == y);
}

proof fn lemma_occ_le<A>(s: Seq<A>, y: A)
    ensures
        occurrences(s, y) <= s.len(),
{
    s.lemma_filter_len(|z: A| z == y);
}

/// The distinct program counters of `ps` in order of first occurrence, each with its count.
fn count_pcs(ps: &Vec<u64>) -> (r: (Vec<u64>, Vec<usize>))
    ensures
        r.0@.len() == r.1@.len(),
        r.0@.len() == distinct_count(ps@),
        r.0@.no_duplicates(),
        forall|a: u64| r.0@.contains(a) <==> ps@.contains(a),
        forall|j: int| 0 <= j < r.1@.len() ==> r.1@[j] == occurrences(ps@, #[trigger] r.0@[j]),
{
    let n = ps.len();
    let mut seen: Vec<u64> = Vec::new();
    let mut counts: Vec<usize> = Vec::new();
    let mut i: usize = 0;
    while i < n
        invariant
            n == ps@.len(),
            0 <= i <= n,
            seen@.len() == counts@.len(),
            seen@.len() == distinct_count(ps@.subrange(0, i as int)),
            seen@.no_duplicates(),
            forall|a: u64| seen@.contains(a) <==> ps@.subrange(0, i as int).contains(a),
            forall|j: int|
                0 <= j < counts@.len() ==> counts@[j] == occurrences(
                    ps@.subrange(0, i as int),
                    #[trigger] seen@[j],
                ),
        decreases n - i,
    {
        let x = ps[i];
        let ghost pre = ps@.subrange(0, i as int);
        let ghost post = ps@.subrange(0, i + 1);
        assert(post =~= pre.push(x));
        assert(post.drop_last() =~= pre);
        let mut j: usize = 0;
        while j < seen.len() && seen[j] != x
            invariant
                0 <= j <= seen@.len(),
                forall|k: int| 0 <= k < j ==> seen@[k] != x,
            decreases seen@.len() - j,
        {
            j += 1;
        }
        proof {
            assert forall|a: u64| post.contains(a) <==> (pre.contains(a) || a == x) by {
                if post.contains(a) {
                    let k = choose|k: int| 0 <= k < post.len() && post[k] == a;
                    if k < pre.len() {
                        assert(pre[k] == a);
                    }
                }
                if pre.contains(a) {
                    let k = choose|k: int| 0 <= k < pre.len() && pre[k] == a;
                    assert(post[k] == a);
                }
                if a == x {
                    assert(post[i as int] == a);
                }
            }
            assert forall|a: u64| #![auto] occurrences(post, a) == occurrences(pre, a) + if x == a {
                1nat
            } else {
                0nat
            } by {
                lemma_occ_push(pre, x, a);
            }
        }
        if j < seen.len() {
            proof {
                lemma_occ_le(pre, x);
                assert(seen@[j as int] == x);
                assert(seen@.contains(x));
                assert(pre.contains(x));
            }
            let c = counts[j];
            counts.set(j, c + 1);
            proof {
                assert forall|k: int| 0 <= k < counts@.len() implies counts@[k] == occurrences(
                    post,
                    #[trigger] seen@[k],
                ) by {
                    if k != j {
                        assert(seen@[k] != x) by {
                            if seen@[k] == x {
                                assert(seen@[k] == seen@[j as int]);
                            }
                        }
                    }
                }
            }
        } else {
            proof {
                assert(!seen@.contains(x));
                assert(!pre.contains(x));
                lemma_absent_occurrences(pre, x);
            }
            let ghost old_seen = seen@;
            seen.push(x);
            counts.push(1);
            proof {
                assert forall|a: u64| seen@.contains(a) <==> post.contains(a) by {
                    if seen@.contains(a) && a != x {
                        let k = choose|k: int| 0 <= k < seen@.len() && seen@[k] == a;
                        assert(old_seen[k] == a);
                    }
                    if old_seen.contains(a) {
                        let k = choose|k: int| 0 <= k < old_seen.len() && old_seen[k] == a;
                        assert(seen@[k] == a);
                    }
                    if a == x {
                        assert(seen@[old_seen.len() as int] == a);
                    }
                }
                assert forall|k: int| 0 <= k < counts@.len() implies counts@[k] == occurrences(
                    post,
                    #[trigger] seen@[k],
                ) by {
                    if k < old_seen.len() {
                        assert(seen@[k] == old_seen[k]);
                        assert(old_seen[k] != x);
                    }
                }
            }
        }
        i += 1;
    }
    assert(ps@.subrange(0, n as int) =~= ps@);
    (seen, counts)
}


/// The character sequences held by a vector of character vectors.
pub open spec fn char_views(v: Seq<Vec<char>>) -> Seq<Seq<char>> {
    v.map_values(|k: Vec<char>| k@)
}

/// The distinct words of `ms` in order of first occurrence, each with its count.
fn count_words(ms: &Vec<Vec<char>>) -> (r: (Vec<Vec<char>>, Vec<usize>))
    ensures
        r.0@.len() == r.1@.len(),
        char_views(r.0@).no_duplicates(),
        forall|a: Seq<char>| char_views(r.0@).contains(a) <==> char_views(ms@).contains(a),
        forall|j: int|
            0 <= j < r.1@.len() ==> r.1@[j] == occurrences(char_views(ms@), #[trigger] char_views(r.0@)[j]),
{
    let n = ms.len();
    let ghost all = char_views(ms@);
    let mut seen: Vec<Vec<char>> = Vec::new();
    let mut counts: Vec<usize> = Vec::new();
    let mut i: usize = 0;
    while i < n
        invariant
            n == ms@.len(),
            all == char_views(ms@),
            0 <= i <= n,
            seen@.len() == counts@.len(),
            char_views(seen@).no_duplicates(),
            forall|a: Seq<char>| char_views(seen@).contains(a) <==> all.subrange(0, i as int).contains(a),
            forall|j: int|
                0 <= j < counts@.len() ==> counts@[j] == occurrences(
                    all.subrange(0, i as int),
                    #[trigger] char_views(seen@)[j],
                ),
        decreases n - i,
    {
        let x = &ms[i];
        let ghost xv = x@;
        let ghost sv = char_views(seen@);
        let ghost pre = all.subrange(0, i as int);
        let ghost post = all.subrange(0, i + 1);
        assert(all[i as int] == xv);
        assert(post =~= pre.push(xv));
        let mut j: usize = 0;
        while j < seen.len() && !crate::rules::same_chars(&seen[j], x)
            invariant
                0 <= j <= seen@.len(),
                sv == char_views(seen@),
                xv == x@,
                forall|k: int| 0 <= k < j ==> sv[k] != xv,
            decreases seen@.len() - j,
        {
            j += 1;
        }
        proof {
            assert forall|a: Seq<char>| post.contains(a) <==> (pre.contains(a) || a == xv) by {
                if post.contains(a) {
                    let k = choose|k: int| 0 <= k < post.len() && post[k] == a;
                    if k < pre.len() {
                        assert(pre[k] == a);
                    }
                }
                if pre.contains(a) {
                    let k = choose|k: int| 0 <= k < pre.len() && pre[k] == a;
                    assert(post[k] == a);
                }
                if a == xv {
                    assert(post[i as int] == a);
                }
            }
            assert forall|a: Seq<char>| #![auto] occurrences(post, a) == occurrences(pre, a) + if xv == a {
                1nat
            } else {
                0nat
            } by {
                lemma_occ_push(pre, xv, a);
            }
        }
        if j < seen.len() {
            proof {
                lemma_occ_le(pre, xv);
                assert(sv[j as int] == xv);
                assert(sv.contains(xv));
                assert(pre.contains(xv));
            }
            let c = counts[j];
            counts.set(j, c + 1);
            proof {
                assert forall|k: int| 0 <= k < counts@.len() implies counts@[k] == occurrences(
                    post,
                    #[trigger] char_views(seen@)[k],
                ) by {
                    if k != j {
                        assert(sv[k] != xv) by {
                            if sv[k] == xv {
                                assert(sv[k] == sv[j as int]);
                            }
                        }
                    }
                }
            }
        } else {
            proof {
                assert(!sv.contains(xv));
                assert(!pre.contains(xv));
                lemma_absent_occurrences(pre, xv);
            }
            seen.push(x.clone());
            counts.push(1);
            proof {
                let nv = char_views(seen@);
                assert(seen@.last()@ =~= xv);
                assert(nv =~= sv.push(xv));
                assert forall|a: Seq<char>| nv.contains(a) <==> post.contains(a) by {
                    if nv.contains(a) && a != xv {
                        let k = choose|k: int| 0 <= k < nv.len() && nv[k] == a;
                        assert(sv[k] == a);
                    }
                    if sv.contains(a) {
                        let k = choose|k: int| 0 <= k < sv.len() && sv[k] == a;
                        assert(nv[k] == a);
                    }
                    if a == xv {
                        assert(nv[sv.len() as int] == a);
                    }
                }
                assert forall|k: int| 0 <= k < counts@.len() implies counts@[k] == occurrences(
                    post,
                    #[trigger] char_views(seen@)[k],
                ) by {
                    if k < sv.len() {
                        assert(nv[k] == sv[k]);
                        assert(sv[k] != xv);
                    }
                }
            }
        }
        i += 1;
    }
    assert(all.subrange(0, n as int) =~= all);
    (seen, counts)
}

/// The words of a list of (word, count) pairs.
pub open spec fn names(r: Seq<(String, usize)>) -> Seq<Seq<char>> {
    r.map_values(|p: (String, usize)| p.0@)
}

/// The most frequent words, most frequent first: at most `limit` of them,
/// each with its count; a word left out is no more frequent than any listed.
fn top_counts(keys: &Vec<Vec<char>>, counts: &Vec<usize>, limit: usize, Ghost(all): Ghost<Seq<Seq<char>>>) -> (r: Vec<(String, usize)>)
    requires
        keys@.len() == counts@.len(),
        char_views(keys@).no_duplicates(),
        forall|j: int| 0 <= j < keys@.len() ==> counts@[j] == occurrences(all, #[trigger] keys@[j]@),
        forall|j: int| 0 <= j < keys@.len() ==> all.contains(#[trigger] keys@[j]@),
    ensures
        r@.len() <= limit,
        forall|k: int|
            0 <= k < r@.len() ==> (#[trigger] r@[k]).1 == occurrences(all, r@[k].0@) && all.contains(
                r@[k].0@,
            ),
        forall|k1: int, k2: int| 0 <= k1 < k2 < r@.len() ==> r@[k1].1 >= r@[k2].1,
        names(r@).no_duplicates(),
        forall|j: int, k: int|
            0 <= j < keys@.len() && 0 <= k < r@.len() && !names(r@).contains(#[trigger] keys@[j]@)
                ==> counts@[j] <= (#[trigger] r@[k]).1,
        r@.len() < limit ==> forall|j: int| 0 <= j < keys@.len() ==> names(r@).contains(#[trigger] keys@[j]@),
{
    let n = keys.len();
    let mut taken: Vec<bool> = Vec::new();
    let mut t: usize = 0;
    while t < n
        invariant
            0 <= t <= n,
            taken@.len() == t,
            forall|j: int| 0 <= j < t ==> !taken@[j],
        decreases n - t,
    {
        taken.push(false);
        t += 1;
    }
    let ghost mut picks: Seq<int> = Seq::empty();
    let mut out: Vec<(String, usize)> = Vec::new();
    let mut done = false;
    while out.len() < limit && !done
        invariant
            n == keys@.len(),
            n == counts@.len(),
            char_views(keys@).no_duplicates(),
            taken@.len() == n,
            picks.len() == out@.len(),
            out@.len() <= limit,
            forall|k: int| 0 <= k < picks.len() ==> 0 <= #[trigger] picks[k] < n,
            forall|j: int| 0 <= j < n ==> (taken@[j] <==> picks.contains(j)),
            picks.no_duplicates(),
            forall|k: int|
                0 <= k < out@.len() ==> (#[trigger] out@[k]).0@ == keys@[picks[k]]@ && out@[k].1
                    == counts@[picks[k]],
            forall|k: int, j: int|
                #![trigger counts@[j], out@[k]]
                0 <= k < out@.len() && 0 <= j < n && !taken@[j] ==> counts@[j] <= out@[k].1,
            forall|k1: int, k2: int| 0 <= k1 < k2 < out@.len() ==> out@[k1].1 >= out@[k2].1,
            done ==> forall|j: int| 0 <= j < n ==> taken@[j],
        decreases limit - out@.len() + if done {
            0int
        } else {
            1int
        },
    {
        let mut best: usize = n;
        let mut j: usize = 0;
        while j < n
            invariant
                n == taken@.len(),
                n == counts@.len(),
                0 <= j <= n,
                best == n || (best < j && !taken@[best as int]),
                best < n ==> forall|jj: int| 0 <= jj < j && !taken@[jj] ==> counts@[jj] <= counts@[best as int],
                best == n ==> forall|jj: int| 0 <= jj < j ==> taken@[jj],
            decreases n - j,
        {
            if !taken[j] && (best == n || counts[j] > counts[best]) {
                best = j;
            }
            j += 1;
        }
        if best == n {
            done = true;
        } else {
            let ghost old_out = out@;
            let ghost old_taken = taken@;
            let name = string_from_chars(&keys[best]);
            out.push((name, counts[best]));
            taken.set(best, true);
            proof {
                assert(!picks.contains(best as int));
                let old_picks = picks;
                picks = picks.push(best as int);
                assert forall|jj: int| 0 <= jj < n implies (taken@[jj] <==> picks.contains(jj)) by {
                    if jj != best {
                        assert(taken@[jj] == old_taken[jj]);
                        if picks.contains(jj) {
                            let k = choose|k: int| 0 <= k < picks.len() && picks[k] == jj;
                            assert(old_picks[k] == jj);
                        }
                        if old_picks.contains(jj) {
                            let k = choose|k: int| 0 <= k < old_picks.len() && old_picks[k] == jj;
                            assert(picks[k] == jj);
                        }
                    } else {
                        assert(picks[picks.len() - 1] == jj);
                    }
                }
                assert forall|a: int, b: int| 0 <= a < b < picks.len() implies picks[a] != picks[b] by {
                    if b == picks.len() - 1 {
                        assert(old_picks[a] == picks[a]);
                    } else {
                        assert(old_picks[a] == picks[a] && old_picks[b] == picks[b]);
                    }
                }
                assert forall|k: int|
                    0 <= k < out@.len() implies (#[trigger] out@[k]).0@ == keys@[picks[k]]@ && out@[k].1
                        == counts@[picks[k]] by {
                    if k < old_out.len() {
                        assert(out@[k] == old_out[k]);
                    }
                }
                assert forall|k: int, jj: int|
                    #![trigger counts@[jj], out@[k]]
                    0 <= k < out@.len() && 0 <= jj < n && !taken@[jj] implies counts@[jj] <= out@[k].1 by {
                    assert(taken@[jj] == old_taken[jj]);
                    if k < old_out.len() {
                        assert(out@[k] == old_out[k]);
                    }
                }
                assert forall|k1: int, k2: int| 0 <= k1 < k2 < out@.len() implies out@[k1].1 >= out@[k2].1 by {
                    if k2 < old_out.len() {
                        assert(out@[k1] == old_out[k1] && out@[k2] == old_out[k2]);
                    } else {
                        assert(out@[k1] == old_out[k1]);
                    }
                }
            }
        }
    }
    proof {
        let nm = names(out@);
        assert forall|k1: int, k2: int| 0 <= k1 < nm.len() && 0 <= k2 < nm.len() && k1 != k2 implies nm[k1]
            != nm[k2] by {
            assert(nm[k1] == char_views(keys@)[picks[k1]]);
            assert(nm[k2] == char_views(keys@)[picks[k2]]);
        }
        assert forall|k: int| 0 <= k < out@.len() implies (#[trigger] out@[k]).1 == occurrences(all, out@[k].0@)
            && all.contains(out@[k].0@) by {
            let j = picks[k];
            assert(out@[k].0@ == keys@[j]@);
        }
        assert forall|j: int| 0 <= j < keys@.len() && taken@[j] implies nm.contains(#[trigger] keys@[j]@) by {
            assert(picks.contains(j));
            let k = choose|k: int| 0 <= k < picks.len() && picks[k] == j;
            assert(nm[k] == keys@[j]@);
        }
        assert forall|j: int, k: int|
            0 <= j < keys@.len() && 0 <= k < out@.len() && !nm.contains(#[trigger] keys@[j]@) implies counts@[j]
                <= (#[trigger] out@[k]).1 by {
            if taken@[j] {
                assert(nm.contains(keys@[j]@));
            }
        }
    }
    out
}

fn is_call_word(m: &Vec<char>) -> (r: bool)
    ensures
        r == is_call_m(m@),
{
    let call = vec!['c', 'a', 'l', 'l'];
    let bl = vec!['b', 'l'];
    assert(call@ =~= seq!['c', 'a', 'l', 'l']);
    assert(bl@ =~= seq!['b', 'l']);
    crate::rules::same_chars(m, &call) || crate::rules::same_chars(m, &bl)
}

fn is_ret_word(m: &Vec<char>) -> (r: bool)
    ensures
        r == is_ret_m(m@),
{
    let ret = vec!['r', 'e', 't'];
    let retq = vec!['r', 'e', 't', 'q'];
    assert(ret@ =~= seq!['r', 'e', 't']);
    assert(retq@ =~= seq!['r', 'e', 't', 'q']);
    crate::rules::same_chars(m, &ret) || crate::rules::same_chars(m, &retq)
}

fn is_jump_word(m: &Vec<char>) -> (r: bool)
    ensures
        r == is_jump_m(m@),
{
    !is_call_word(m) && !is_ret_word(m) && m.len() > 0 && (m[0] == 'j' || m[0] == 'b')
}

/// The number of mnemonics satisfying `p`.
pub open spec fn count_mn(ms: Seq<Seq<char>>, p: spec_fn(Seq<char>) -> bool) -> nat {
    ms.filter(p).len()
}

/// The most listed instructions of a statistics report.
pub const TOP_INSTRUCTIONS: usize = 20;

impl TraceStats {
    /// Counts over the whole trace: steps, distinct addresses, the busiest
    /// address, calls, returns, jumps, and the most frequent mnemonics.
    pub fn analyze(db: &TraceDb) -> (r: TraceStats)
        ensures
            r.total_steps == db@.len(),
            r.unique_addresses == distinct_count(pcs(db@)),
            r.call_count == count_mn(mnemonics(db@), |m: Seq<char>| is_call_m(m)),
            r.ret_count == count_mn(mnemonics(db@), |m: Seq<char>| is_ret_m(m)),
            r.jump_count == count_mn(mnemonics(db@), |m: Seq<char>| is_jump_m(m)),
            match r.most_executed_address {
                None => db@.len() == 0,
                Some((a, c)) => {
                    &&& pcs(db@).contains(a)
                    &&& c == occurrences(pcs(db@), a)
                    &&& forall|b: u64| #[trigger] occurrences(pcs(db@), b) <= c
                },
            },
            r.instruction_counts@.len() <= TOP_INSTRUCTIONS,
            names(r.instruction_counts@).no_duplicates(),
            forall|k: int|
                0 <= k < r.instruction_counts@.len() ==> (#[trigger] r.instruction_counts@[k]).1
                    == occurrences(mnemonics(db@), r.instruction_counts@[k].0@) && mnemonics(
                    db@,
                ).contains(r.instruction_counts@[k].0@),
            forall|k1: int, k2: int|
                0 <= k1 < k2 < r.instruction_counts@.len() ==> r.instruction_counts@[k1].1
                    >= r.instruction_counts@[k2].1,
            forall|m: Seq<char>, k: int|
                #![trigger occurrences(mnemonics(db@), m), r.instruction_counts@[k]]
                mnemonics(db@).contains(m) && !names(r.instruction_counts@).contains(m) && 0 <= k
                    < r.instruction_counts@.len() ==> occurrences(mnemonics(db@), m)
                    <= r.instruction_counts@[k].1,
            r.instruction_counts@.len() < TOP_INSTRUCTIONS ==> forall|m: Seq<char>|
                #[trigger] mnemonics(db@).contains(m) ==> names(r.instruction_counts@).contains(m),
    {
        let entries = db.get_all();
        let ghost es = db@;
        let n = entries.len();
        let mut ps: Vec<u64> = Vec::new();
        let mut ms: Vec<Vec<char>> = Vec::new();
        let mut calls: usize = 0;
        let mut rets: usize = 0;
        let mut jumps: usize = 0;
        let mut i: usize = 0;
        while i < n
            invariant
                n == entries@.len(),
                views(entries@) == es,
                0 <= i <= n,
                ps@ == pcs(es.subrange(0, i as int)),
                char_views(ms@) == mnemonics(es.subrange(0, i as int)),
                calls == count_mn(mnemonics(es.subrange(0, i as int)), |m: Seq<char>| is_call_m(m)),
                rets == count_mn(mnemonics(es.subrange(0, i as int)), |m: Seq<char>| is_ret_m(m)),
                jumps == count_mn(mnemonics(es.subrange(0, i as int)), |m: Seq<char>| is_jump_m(m)),
                calls <= i,
                rets <= i,
                jumps <= i,
            decreases n - i,
        {
            let e = &entries[i];
            let ghost pre = mnemonics(es.subrange(0, i as int));
            let w = first_word_exec(&chars_of(e.insn_text.as_str()));
            proof {
                let s0 = es.subrange(0, i as int);
                let s1 = es.subrange(0, i + 1);
                assert(s1 =~= s0.push(es[i as int]));
                assert(es[i as int] == e@);
                assert(pcs(s1) =~= pcs(s0).push(e.pc));
                assert(mnemonics(s1) =~= pre.push(w@));
                lemma_filter_push_any(pre, w@, |m: Seq<char>| is_call_m(m));
                lemma_filter_push_any(pre, w@, |m: Seq<char>| is_ret_m(m));
                lemma_filter_push_any(pre, w@, |m: Seq<char>| is_jump_m(m));
            }
            ps.push(e.pc);
            if is_call_word(&w) {
                calls += 1;
            } else if is_ret_word(&w) {
                rets += 1;
            } else if is_jump_word(&w) {
                jumps += 1;
            }
            let ghost old_ms = ms@;
            ms.push(w);
            proof {
                assert(char_views(ms@) =~= char_views(old_ms).push(ms@.last()@));
            }
            i += 1;
        }
        proof {
            assert(es.subrange(0, n as int) =~= es);
        }
        let (seen, counts) = count_pcs(&ps);
        let unique_addresses = seen.len();
        let mut most: Option<(u64, usize)> = None;
        let mut j: usize = 0;
        while j < seen.len()
            invariant
                seen@.len() == counts@.len(),
                0 <= j <= seen@.len(),
                j == 0 <==> most is None,
                most matches Some((a, c)) ==> (exists|k: int| 0 <= k < j && seen@[k] == a && counts@[k] == c)
                    && forall|k: int| 0 <= k < j ==> counts@[k] <= c,
            decreases seen@.len() - j,
        {
            let better = match most {
                None => true,
                Some((_, c)) => counts[j] > c,
            };
            if better {
                most = Some((seen[j], counts[j]));
            }
            j += 1;
        }
        proof {
            let p = pcs(es);
            match most {
                Some((a, c)) => {
                    let k = choose|k: int| 0 <= k < j && seen@[k] == a && counts@[k] == c;
                    assert(seen@.contains(a));
                    assert forall|b: u64| #[trigger] occurrences(p, b) <= c by {
                        if p.contains(b) {
                            assert(seen@.contains(b));
                            let kk = choose|kk: int| 0 <= kk < seen@.len() && seen@[kk] == b;
                            assert(counts@[kk] == occurrences(p, seen@[kk]));
                        } else {
                            lemma_absent_occurrences(p, b);
                        }
                    }
                },
                None => {
                    if es.len() > 0 {
                        assert(p[0] == es[0].pc);
                        assert(p.contains(p[0]));
                        assert(seen@.contains(p[0]));
                    }
                },
            }
        }
        let (keys, kcounts) = count_words(&ms);
        let ghost all = char_views(ms@);
        proof {
            assert forall|jj: int| 0 <= jj < keys@.len() implies kcounts@[jj] == occurrences(all, #[trigger] keys@[jj]@) by {
                assert(char_views(keys@)[jj] == keys@[jj]@);
            }
            assert forall|jj: int| 0 <= jj < keys@.len() implies all.contains(#[trigger] keys@[jj]@) by {
                assert(char_views(keys@)[jj] == keys@[jj]@);
                assert(char_views(keys@).contains(keys@[jj]@));
            }
        }
        let top = top_counts(&keys, &kcounts, TOP_INSTRUCTIONS, Ghost(all));
        proof {
            assert forall|m: Seq<char>, k: int|
                #![trigger occurrences(all, m), top@[k]]
                all.contains(m) && !names(top@).contains(m) && 0 <= k < top@.len() implies occurrences(all, m)
                    <= top@[k].1 by {
                assert(char_views(keys@).contains(m));
                let jj = choose|jj: int| 0 <= jj < char_views(keys@).len() && char_views(keys@)[jj] == m;
                assert(keys@[jj]@ == m);
            }
            if top@.len() < TOP_INSTRUCTIONS {
                assert forall|m: Seq<char>| #[trigger] all.contains(m) implies names(top@).contains(m) by {
                    assert(char_views(keys@).contains(m));
                    let jj = choose|jj: int| 0 <= jj < char_views(keys@).len() && char_views(keys@)[jj] == m;
                    assert(keys@[jj]@ == m);
                }
            }
        }
        TraceStats {
            total_steps: n as u64,
            unique_addresses,
            instruction_counts: top,
            most_executed_address: most,
            call_count: calls,
            ret_count: rets,
            jump_count: jumps,
        }
    }
}
} // verus!
